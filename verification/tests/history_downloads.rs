use browser::browser::{Browser, DownloadState, Visit};
use browser::downloads::DOWNLOADS_MAX;
use browser::files::{decode_header, free_name, label, looks_like_pdf, numbered_name, save_name};
use browser::history::{sort_recent_first, HISTORY_KEEP, HISTORY_MAX};
use browser::nav::{menu_action, nav_action, MenuAction, NavAction};
use browser::settings::Settings;
use browser::suggest::{suggest_boost, suggest_matches, Boost};

fn browser() -> Browser {
    Browser::new(Settings::default())
}

fn visit(url: &str, title: &str, visits: u32, last: u64) -> Visit {
    Visit { url: url.to_string(), title: title.to_string(), visits, last }
}

#[test]
fn visits_are_counted_per_address() {
    let mut b = browser();
    let t = b.open_tab("https://a.com/", "https", 0);
    b.set_title(t, "A".into());
    b.record_visit(t, "https://a.com/".into(), 100);
    b.set_title(t, String::new());
    b.record_visit(t, "https://a.com/".into(), 200);
    assert_eq!(b.history.len(), 1);
    assert_eq!((b.history[0].visits, b.history[0].last, b.history[0].title.as_str()), (2, 200, "A"));
    assert!(b.history_dirty);
}

#[test]
fn only_web_pages_are_recorded_and_only_when_history_is_on() {
    let mut b = browser();
    let t = b.open_tab("about:blank", "about", 0);
    b.record_visit(t, "about:blank".into(), 1);
    b.record_visit(t, "browser://settings".into(), 1);
    assert!(b.history.is_empty() && !b.history_dirty);
    b.settings.save_history = false;
    b.record_visit(t, "https://a.com/".into(), 1);
    assert!(b.history.is_empty());
    b.settings.save_history = true;
    b.record_visit(99, "http://b.com/".into(), 1);
    assert_eq!(b.history[0].title, "");
}

#[test]
fn a_full_history_keeps_the_most_recent() {
    let mut b = browser();
    let t = b.open_tab("https://x.com/", "https", 0);
    for i in 0..HISTORY_MAX as u64 {
        b.history.push(visit(&format!("https://{i}.com/"), "", 1, i));
    }
    b.record_visit(t, "https://new.com/".into(), 1_000_000);
    assert_eq!(b.history.len(), HISTORY_KEEP);
    assert_eq!(b.history[0].url, "https://new.com/");
    assert_eq!(b.history[1].last, HISTORY_MAX as u64 - 1);
    assert_eq!(b.history[HISTORY_KEEP - 1].last, (HISTORY_MAX - HISTORY_KEEP + 1) as u64);
}

#[test]
fn sorting_is_most_recent_first_and_stable() {
    let v = vec![visit("a", "", 1, 5), visit("b", "", 1, 9), visit("c", "", 1, 5)];
    let s = sort_recent_first(v);
    let order: Vec<&str> = s.iter().map(|v| v.url.as_str()).collect();
    assert_eq!(order, vec!["b", "a", "c"]);
}

#[test]
fn late_titles_reach_the_history() {
    let mut b = browser();
    let t = b.open_tab("https://a.com/", "https", 0);
    b.record_visit(t, "https://a.com/".into(), 1);
    b.history_dirty = false;
    b.retitle_visit(t, "");
    assert!(!b.history_dirty);
    b.retitle_visit(t, "Title");
    assert_eq!(b.history[0].title, "Title");
    assert!(b.history_dirty);
    b.clear_history();
    assert!(b.history.is_empty());
}

#[test]
fn downloads_get_fresh_ids_and_end_done_or_failed() {
    let mut b = browser();
    let a = b.download_started("https://x.com/f".into(), "/d/f".into(), 1);
    let c = b.download_started("https://x.com/f".into(), "/d/f (1)".into(), 2);
    assert_eq!((a, c), (1, 2));
    assert_eq!(b.active_downloads(), 2);
    // The latest download of the address in progress finishes first.
    assert!(b.download_finished("https://x.com/f", Some("/d/final".into()), true));
    assert!(b.downloads[1].state == DownloadState::Done);
    assert_eq!(b.downloads[1].path, "/d/final");
    assert!(b.download_finished("https://x.com/f", None, false));
    assert!(b.downloads[0].state == DownloadState::Failed);
    assert_eq!(b.downloads[0].path, "/d/f");
    assert!(!b.download_finished("https://x.com/f", None, true));
    assert_eq!(b.active_downloads(), 0);
    let s = b.download_saved("https://x.com/doc.pdf".into(), "/d/doc.pdf".into(), 3);
    assert_eq!(s, 3);
    assert_eq!(b.download_path(3), Some("/d/doc.pdf".to_string()));
    assert_eq!(b.download_path(9), None);
}

#[test]
fn clearing_keeps_downloads_in_progress() {
    let mut b = browser();
    b.download_started("a".into(), "pa".into(), 0);
    b.download_started("b".into(), "pb".into(), 0);
    b.download_started("c".into(), "pc".into(), 0);
    b.download_finished("b", None, true);
    b.clear_downloads();
    let left: Vec<&str> = b.downloads.iter().map(|d| d.url.as_str()).collect();
    assert_eq!(left, vec!["a", "c"]);
    b.fail_unfinished();
    assert!(b.downloads.iter().all(|d| d.state == DownloadState::Failed));
}

#[test]
fn the_download_list_drops_the_oldest_past_its_limit() {
    let mut b = browser();
    for i in 0..DOWNLOADS_MAX + 3 {
        b.download_started(format!("u{i}"), String::new(), 0);
    }
    assert_eq!(b.downloads.len(), DOWNLOADS_MAX);
    assert_eq!(b.downloads[0].url, "u3");
    assert_eq!(b.downloads[DOWNLOADS_MAX - 1].id, DOWNLOADS_MAX as u32 + 3);
}

#[test]
fn webview_labels() {
    assert_eq!(label(0), "tab-0");
    assert_eq!(label(42), "tab-42");
    assert_eq!(label(u32::MAX), "tab-4294967295");
}

#[test]
fn pdf_detection() {
    assert!(looks_like_pdf(b"%PDF-1.7 ..."));
    assert!(looks_like_pdf(b"%PDF"));
    assert!(looks_like_pdf(b"\xef\xbb\xbfjunk%PDF-1.4"));
    assert!(!looks_like_pdf(b"<!doctype html>"));
    assert!(!looks_like_pdf(b"%PD"));
    let mut late = vec![b' '; 1024];
    late.extend_from_slice(b"%PDF-1.4");
    assert!(!looks_like_pdf(&late));
    let mut just_in_time = vec![b' '; 1023];
    just_in_time.extend_from_slice(b"%PDF-1.4");
    assert!(looks_like_pdf(&just_in_time));
}

#[test]
fn numbered_file_names() {
    assert_eq!(numbered_name("file.pdf", 0), "file.pdf");
    assert_eq!(numbered_name("file.pdf", 1), "file (1).pdf");
    assert_eq!(numbered_name("archive.tar.gz", 2), "archive.tar (2).gz");
    assert_eq!(numbered_name(".bashrc", 3), ".bashrc (3)");
    assert_eq!(numbered_name("README", 10), "README (10)");
}

#[test]
fn saved_pdf_names() {
    assert_eq!(save_name("a/b\\c:d.pdf"), "a_b_c_d.pdf");
    assert_eq!(save_name("  "), "document.pdf");
    assert_eq!(save_name(""), "document.pdf");
    assert_eq!(decode_header("My%20Report+2024.pdf"), "My Report 2024.pdf");
    assert_eq!(decode_header(""), "");
}

#[test]
fn suggestions_match_every_word() {
    let h = vec![
        visit("https://github.com/rust-lang/rust", "Rust", 3, 0),
        visit("https://docs.rs/serde", "Serde docs", 1, 0),
        visit("https://example.com/", "GitHub mirror", 1, 0),
    ];
    assert_eq!(suggest_matches(&h, "  "), Vec::<usize>::new());
    assert_eq!(suggest_matches(&h, "GIT"), vec![0, 2]);
    assert_eq!(suggest_matches(&h, "rust lang"), vec![0]);
    assert_eq!(suggest_matches(&h, "serde docs"), vec![1]);
    assert_eq!(suggest_matches(&h, "nothing"), Vec::<usize>::new());
}

#[test]
fn navigation_commands() {
    assert!(nav_action("back") == Some(NavAction::Back));
    assert!(nav_action("zoom_out") == Some(NavAction::Zoom(-1)));
    assert!(nav_action("zoom_reset") == Some(NavAction::Zoom(0)));
    assert!(nav_action("find_prev") == Some(NavAction::FindStep(-1)));
    assert!(nav_action("bogus").is_none());
}

#[test]
fn menu_items() {
    assert!(menu_action("new_tab") == MenuAction::NewTab);
    assert!(menu_action("close_tab") == MenuAction::CloseTab);
    assert!(menu_action("reopen_tab") == MenuAction::ReopenTab);
    assert!(menu_action("downloads") == MenuAction::Downloads);
    assert!(menu_action("focus_address") == MenuAction::FocusAddress);
    assert!(menu_action("settings") == MenuAction::Settings);
    assert!(menu_action("zoom_in") == MenuAction::Nav);
}

#[test]
fn suggestion_boosts() {
    let v = visit("https://www.GitHub.com/rust-lang", "Rust on GitHub", 3, 0);
    // "www." and the scheme do not count; the length is that of the bare address.
    assert!(suggest_boost(&v, "git") == Boost::Address("github.com/rust-lang".len()));
    assert!(suggest_boost(&v, "  GitHub.c ") == Boost::Address(20));
    assert!(suggest_boost(&v, "rust on") == Boost::Title);
    assert!(suggest_boost(&v, "lang") == Boost::Plain);
    let w = visit("https://ünï.de/ß", "x", 1, 0);
    assert!(suggest_boost(&w, "ün") == Boost::Address("ünï.de/ß".len()));
    let plain = visit("localhost:3000/a", "", 1, 0);
    assert!(suggest_boost(&plain, "local") == Boost::Address(16));
}

#[test]
fn the_first_free_numbered_name_is_chosen() {
    let taken = |v: &[&str]| v.iter().map(|s| s.to_string()).collect::<Vec<String>>();
    assert_eq!(free_name("doc.pdf", &taken(&[])), "doc.pdf");
    assert_eq!(free_name("doc.pdf", &taken(&["doc.pdf"])), "doc (1).pdf");
    assert_eq!(free_name("doc.pdf", &taken(&["doc (1).pdf", "doc.pdf", "other"])), "doc (2).pdf");
    // A gap is filled first.
    assert_eq!(free_name("doc.pdf", &taken(&["doc.pdf", "doc (2).pdf"])), "doc (1).pdf");
    assert_eq!(free_name(".bashrc", &taken(&[".bashrc"])), ".bashrc (1)");
}

#[test]
fn the_clock_reads_unix_seconds() {
    let now = browser::clock::now_secs();
    let std_now = std::time::SystemTime::now().duration_since(std::time::UNIX_EPOCH).unwrap().as_secs();
    assert!(now > 1_600_000_000);
    assert!(now <= std_now && std_now - now < 5);
}

#[test]
fn clearing_the_history_leaves_everything_else() {
    let mut b = browser();
    let t = b.open_tab("https://a.com/", "https", 0);
    b.record_visit(t, "https://a.com/".into(), 1);
    b.download_started("https://a.com/f".into(), "/tmp/f".into(), 1);
    b.tint_cache.push(("a.com".to_string(), "#ffffff".to_string()));
    b.clear_history();
    assert!(b.history.is_empty() && b.history_dirty);
    assert_eq!(b.downloads.len(), 1);
    assert_eq!(b.tint_cache.len(), 1);
    assert_eq!(b.tabs.len(), 1);
}
