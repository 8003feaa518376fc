use browser::browser::{tint_source, AfterClose, Browser, SavedTab, Session, TintPlan, CLOSED_MAX};
use browser::settings::{Mode, Settings};

fn browser() -> Browser {
    Browser::new(Settings::default())
}

fn urls(b: &Browser) -> Vec<&str> {
    b.tabs.iter().map(|t| t.url.as_str()).collect()
}

#[test]
fn new_tabs_get_fresh_ids_and_do_not_activate() {
    let mut b = browser();
    let a = b.open_tab("https://a.com/", "https", 5);
    let c = b.open_tab("about:blank", "about", 6);
    assert_eq!((a, c), (1, 2));
    assert_eq!(b.active, None);
    assert!(b.tabs[0].loading);
    assert!(!b.tabs[1].loading);
    assert_eq!(b.tabs[1].last_active, 6);
    assert_eq!(b.next_id, 2);
}

#[test]
fn activating_notes_the_previous_tab_and_wakes_a_sleeping_one() {
    let mut b = browser();
    let a = b.open_tab("https://a.com/", "https", 0);
    let c = b.open_tab("https://c.com/", "https", 0);
    let first = b.activate(a, 10).unwrap();
    assert_eq!(first.prev, None);
    assert!(first.wake.is_none());
    b.tabs[1].suspended = true;
    let second = b.activate(c, 20).unwrap();
    assert_eq!(second.prev, Some(a));
    assert_eq!(second.wake.as_deref(), Some("https://c.com/"));
    assert_eq!(b.tabs[0].last_active, 20);
    assert!(!b.tabs[1].suspended && b.tabs[1].loading);
    assert_eq!(b.active, Some(c));
    assert!(b.activate(99, 30).is_none());
    assert_eq!(b.active, Some(c));
}

#[test]
fn closing_the_active_tab_picks_the_next_one() {
    let mut b = browser();
    let a = b.open_tab("https://a.com/", "https", 0);
    let c = b.open_tab("https://c.com/", "https", 0);
    let d = b.open_tab("https://d.com/", "https", 0);
    b.activate(c, 0);
    assert_eq!(b.close_tab(c), Some(Some(d)));
    assert_eq!(b.active, None);
    b.activate(d, 0);
    assert_eq!(b.close_tab(d), Some(Some(a)));
    assert_eq!(b.close_tab(99), None);
    // Closing a background tab changes nothing about the active one.
    let e = b.open_tab("https://e.com/", "https", 0);
    b.activate(a, 0);
    assert_eq!(b.close_tab(e), Some(None));
    assert_eq!(b.active, Some(a));
    assert_eq!(b.closed, vec!["https://c.com/", "https://d.com/", "https://e.com/"]);
}

#[test]
fn reopen_gives_back_the_last_closed_tab() {
    let mut b = browser();
    let a = b.open_tab("https://a.com/", "https", 0);
    let blank = b.open_tab("about:blank", "about", 0);
    b.close_tab(a);
    b.close_tab(blank);
    assert_eq!(b.reopen(), Some("https://a.com/".to_string()));
    assert_eq!(b.reopen(), None);
}

#[test]
fn at_most_closed_max_closed_tabs_are_remembered() {
    let mut b = browser();
    for i in 0..30 {
        let id = b.open_tab(&format!("https://{i}.com/"), "https", 0);
        b.close_tab(id);
    }
    assert_eq!(b.closed.len(), CLOSED_MAX);
    assert_eq!(b.closed[0], "https://5.com/");
    assert_eq!(b.closed[CLOSED_MAX - 1], "https://29.com/");
}

#[test]
fn idle_background_tabs_go_to_sleep() {
    let mut b = browser();
    let a = b.open_tab("https://a.com/", "https", 0);
    let c = b.open_tab("https://c.com/", "https", 0);
    let d = b.open_tab("https://d.com/", "https", 590_000);
    b.activate(a, 0);
    // Ten minutes is 600 000 ms; the idle time must exceed it.
    assert_eq!(b.suspend_idle(600_000), Vec::<u32>::new());
    assert_eq!(b.suspend_idle(600_001), vec![c]);
    assert!(b.tabs[1].suspended && !b.tabs[1].loading);
    assert!(!b.tabs[0].suspended);
    assert_eq!(b.suspend_idle(1_190_001), vec![d]);
    b.settings.sleep_minutes = 0;
    assert_eq!(b.suspend_idle(u64::MAX), Vec::<u32>::new());
}

#[test]
fn the_session_skips_blank_tabs_and_restores_asleep() {
    let mut b = browser();
    b.open_tab("about:blank", "about", 0);
    b.open_tab("https://a.com/", "https", 0);
    let c = b.open_tab("https://c.com/", "https", 0);
    b.set_title(c, "C".to_string());
    b.activate(c, 0);
    let s = b.session();
    assert_eq!(s.active, 1);
    let saved: Vec<(&str, &str)> = s.tabs.iter().map(|t| (t.url.as_str(), t.title.as_str())).collect();
    assert_eq!(saved, vec![("https://a.com/", ""), ("https://c.com/", "C")]);

    let mut fresh = browser();
    let active = fresh.restore(s, 7).unwrap();
    assert_eq!(urls(&fresh), vec!["https://a.com/", "https://c.com/"]);
    assert_eq!(active, 2);
    assert!(fresh.tabs.iter().all(|t| t.suspended && !t.loading && t.last_active == 7));
    assert_eq!(fresh.tabs[1].title, "C");
}

#[test]
fn restoring_is_skipped_when_off_or_empty() {
    let mut b = browser();
    assert_eq!(b.restore(Session { tabs: Vec::new(), active: 0 }, 0), None);
    b.settings.restore_session = false;
    let one = Session { tabs: vec![SavedTab { url: "https://a.com/".into(), title: String::new() }], active: 0 };
    assert_eq!(b.restore(one, 0), None);
    assert!(b.tabs.is_empty());
}

#[test]
fn a_restored_active_index_past_the_end_is_clamped() {
    let mut b = browser();
    let tabs = vec![
        SavedTab { url: "https://a.com/".into(), title: String::new() },
        SavedTab { url: "https://b.com/".into(), title: String::new() },
    ];
    assert_eq!(b.restore(Session { tabs, active: 9 }, 0), Some(2));
}

#[test]
fn page_updates_reach_only_existing_tabs() {
    let mut b = browser();
    let a = b.open_tab("https://a.com/", "https", 0);
    assert!(b.set_page(a, "https://a.com/x".into(), false, None));
    assert!(b.set_tint(a, Some("#ffffff".into())));
    assert!(b.set_page(a, "https://a.com/y".into(), true, None));
    assert_eq!(b.tabs[0].tint.as_deref(), Some("#ffffff"));
    assert!(b.set_page(a, "https://a.com/z".into(), true, Some("#000000".into())));
    assert_eq!(b.tabs[0].tint.as_deref(), Some("#000000"));
    assert!(b.set_pdf(a, true));
    assert!(b.tabs[0].pdf);
    assert!(!b.set_title(42, "nobody".into()));
}

#[test]
fn sampled_colors_are_remembered_per_host() {
    let mut b = browser();
    let a = b.open_tab("https://www.example.com/a", "https", 0);
    assert!(!b.apply_tint(a, "https://other.com/", "#111111".into(), true));
    assert!(b.apply_tint(a, "https://www.example.com/a", "#222222".into(), true));
    assert_eq!(b.tabs[0].tint.as_deref(), Some("#222222"));
    assert_eq!(b.cached_tint("https://example.com/b"), Some("#222222".to_string()));
    assert!(b.apply_tint(a, "https://www.example.com/a", "#333333".into(), true));
    assert_eq!(b.tint_cache.len(), 1);
    assert_eq!(b.cached_tint("https://example.com/"), Some("#333333".to_string()));
    // Early samples are shown but not remembered.
    assert!(b.apply_tint(a, "https://www.example.com/a", "#444444".into(), false));
    assert_eq!(b.cached_tint("https://example.com/"), Some("#333333".to_string()));
    b.clear_tints();
    assert_eq!(b.cached_tint("https://example.com/"), None);
}

#[test]
fn tint_sources() {
    assert_eq!(tint_source("https://a.com/", false), Some(false));
    assert_eq!(tint_source("browser://settings", false), Some(true));
    assert_eq!(tint_source("file:///x.pdf", true), Some(true));
    assert_eq!(tint_source("about:blank", false), None);
}

#[test]
fn finding_app_pages_and_tabs() {
    let mut b = browser();
    b.open_tab("https://a.com/", "https", 0);
    let d = b.open_tab("browser://downloads", "browser", 0);
    let s = b.open_tab("browser://settings", "browser", 0);
    assert_eq!(b.find_page("settings"), Some(s));
    assert_eq!(b.find_page("history"), None);
    assert_eq!(b.tabs_showing("browser://downloads"), vec![d]);
    b.activate(s, 0);
    let (url, pdf) = b.active_page().unwrap();
    assert_eq!((url.as_str(), pdf), ("browser://settings", false));
}

#[test]
fn the_island_and_auto_hide() {
    let mut b = browser();
    assert!(b.set_revealed(true));
    assert!(!b.set_revealed(true));
    b.set_island_open(true);
    assert!(!b.set_revealed(false));
    assert!(b.revealed);
    b.set_island_open(false);
    assert!(!b.revealed && !b.island_open);
}

#[test]
fn applying_settings() {
    let mut b = browser();
    b.saved_session = "{...}".to_string();
    b.revealed = true;
    let mut s = Settings::default();
    s.mode = Mode::Arc;
    assert!(b.apply_settings(s) == Mode::Strip);
    assert!(!b.revealed);
    assert_eq!(b.saved_session, "{...}");
    let mut s = Settings::default();
    s.restore_session = false;
    assert!(b.apply_settings(s) == Mode::Arc);
    assert_eq!(b.saved_session, "");
}

#[test]
fn identical_sessions_are_written_once() {
    let mut b = browser();
    let w = b.take_writes("a".to_string());
    assert!(w.session && !w.history && !w.zoom && !w.downloads);
    assert!(!b.take_writes("a".to_string()).session);
    assert!(b.take_writes("b".to_string()).session);
    assert_eq!(b.saved_session, "b");
}

#[test]
fn changed_lists_are_written_once() {
    let mut b = browser();
    b.history_dirty = true;
    b.downloads_dirty = true;
    let w = b.take_writes(String::new());
    assert!(w.history && w.downloads && !w.zoom && !w.session);
    let w = b.take_writes(String::new());
    assert!(!w.history && !w.downloads);
    assert!(!b.history_dirty && !b.downloads_dirty);
}

#[test]
fn without_sessions_no_session_is_written() {
    let mut s = Settings::default();
    s.restore_session = false;
    let mut b = Browser::new(s);
    assert!(!b.take_writes("{\"tabs\":[]}".to_string()).session);
    assert_eq!(b.saved_session, "");
}

#[test]
fn a_sample_is_taken_only_from_the_page_it_was_asked_of() {
    let mut b = browser();
    let a = b.open_tab("https://www.example.com/a", "https", 0);
    assert!(b.shows_page(a, "https://www.example.com/a"));
    assert!(!b.shows_page(a, "https://example.com/a"));
    // The page moved on: a sample of the old host is dropped.
    assert!(!b.accept_tint(a, "old.org", "#123456".into(), false, BASE, true));
    assert_eq!(b.tabs[0].tint, None);
    // The right host, sampled after the load: shown and remembered.
    assert!(b.accept_tint(a, "example.com", "#abcdef".into(), false, BASE, true));
    assert_eq!(b.tabs[0].tint.as_deref(), Some("#abcdef"));
    assert_eq!(b.cached_tint("https://example.com/"), Some("#abcdef".to_string()));
    // An early sample is shown only.
    assert!(b.accept_tint(a, "example.com", "#000000".into(), false, BASE, false));
    assert_eq!(b.tabs[0].tint.as_deref(), Some("#000000"));
    assert_eq!(b.cached_tint("https://example.com/"), Some("#abcdef".to_string()));
    // No such tab.
    assert!(!b.accept_tint(99, "example.com", "#000000".into(), false, BASE, true));
}

const BASE: &str = "tauri://localhost/";

#[test]
fn the_app_pages_colors_come_from_the_app_and_are_not_remembered() {
    let mut b = browser();
    let s = b.open_tab("browser://settings", "browser", 0);
    assert!(!b.accept_tint(s, "settings", "#eeeeee".into(), true, BASE, true));
    assert!(b.accept_tint(s, "localhost", "#eeeeee".into(), true, BASE, true));
    assert_eq!(b.tabs[0].tint.as_deref(), Some("#eeeeee"));
    assert!(b.tint_cache.is_empty());
}

#[test]
fn sample_replies() {
    let mut b = browser();
    let a = b.open_tab("https://docs.rs/x", "https", 0);
    assert!(b.tint_sampled(a, r##"["docs.rs", "#fafafa"]"##, false, BASE, true));
    assert_eq!(b.tabs[0].tint.as_deref(), Some("#fafafa"));
    assert_eq!(b.cached_tint("https://docs.rs/"), Some("#fafafa".to_string()));
    assert!(!b.tint_sampled(a, "null", false, BASE, true));
    assert!(!b.tint_sampled(a, "garbage", false, BASE, true));
    assert_eq!(b.tabs[0].tint.as_deref(), Some("#fafafa"));
}

#[test]
fn tabs_on_a_host() {
    let mut b = browser();
    let a = b.open_tab("https://www.example.com/a", "https", 0);
    b.open_tab("https://other.org/", "https", 0);
    let c = b.open_tab("http://example.com/b", "http", 0);
    assert_eq!(b.tabs_on_host("example.com"), vec![a, c]);
    assert!(b.tabs_on_host("nothing.net").is_empty());
}

#[test]
fn closing_the_last_tab_opens_the_home_page() {
    let mut b = browser();
    let a = b.open_tab("https://a.com/", "https", 0);
    b.activate(a, 0);
    let next = b.close_tab(a).unwrap();
    assert!(b.tabs.is_empty());
    match b.after_close(next, 9) {
        AfterClose::Opened(id) => {
            assert_eq!(id, 2);
            assert_eq!(b.active, Some(2));
            assert_eq!(urls(&b), vec!["https://www.google.com/"]);
            assert!(b.tabs[0].loading && !b.tabs[0].suspended);
            assert_eq!(b.tabs[0].last_active, 9);
        }
        _ => panic!("a home tab should open"),
    }
    // A custom home page that is an about: page does not count as loading.
    let mut s = Settings::default();
    s.home = "about:blank".to_string();
    let mut b = Browser::new(s);
    assert!(matches!(b.after_close(None, 0), AfterClose::Opened(1)));
    assert!(!b.tabs[0].loading);
}

#[test]
fn closing_with_tabs_left_activates_the_neighbour_or_stays() {
    let mut b = browser();
    let a = b.open_tab("https://a.com/", "https", 0);
    let c = b.open_tab("https://c.com/", "https", 0);
    b.activate(a, 0);
    let next = b.close_tab(a).unwrap();
    assert!(matches!(b.after_close(next, 0), AfterClose::Activate(x) if x == c));
    assert!(matches!(b.after_close(None, 0), AfterClose::Stay));
    assert_eq!(b.tabs.len(), 1);
}

#[test]
fn page_colors_are_sampled_only_in_the_strip_layout() {
    let mut b = browser();
    let a = b.open_tab("https://a.com/", "https", 0);
    let s = b.open_tab("browser://settings", "browser", 0);
    let blank = b.open_tab("about:blank", "about", 0);
    assert!(matches!(b.tint_plan(a), TintPlan::Sample(false)));
    assert!(matches!(b.tint_plan(s), TintPlan::Sample(true)));
    assert!(matches!(b.tint_plan(blank), TintPlan::Clear));
    assert!(matches!(b.tint_plan(99), TintPlan::Clear));
    b.settings.mode = Mode::Float;
    assert!(matches!(b.tint_plan(a), TintPlan::Off));
}
