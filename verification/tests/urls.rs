use browser::settings::{Mode, Search, Settings};
use browser::urls::{
    choose_address, display_url, guessed_address, home_url, host_of, internal_page,
    page_event, parse_input, real_url, viewer_file, viewer_url, wants_pdf_viewer, with_slash, UrlParts,
};

const BASE: &str = "tauri://localhost/";

fn parts(href: &str, scheme: &str, host: Option<&str>, fragment: Option<&str>) -> UrlParts {
    UrlParts {
        href: href.to_string(),
        scheme: scheme.to_string(),
        host: host.map(str::to_string),
        fragment: fragment.map(str::to_string),
    }
}

fn parsed(s: &str) -> UrlParts {
    let u = url::Url::parse(s).unwrap();
    parts(u.as_str(), u.scheme(), u.host_str(), u.fragment())
}

#[test]
fn search_engines() {
    assert_eq!(Search::Google.home(), "https://www.google.com/");
    assert_eq!(Search::Duckduckgo.query(), "https://duckduckgo.com/?q=");
    assert_eq!(Search::Bing.query(), "https://www.bing.com/search?q=");
    assert_eq!(Search::Yandex.home(), "https://ya.ru/");
    assert_eq!(Search::Yandex.query(), "https://ya.ru/search/?text=");
}

#[test]
fn default_settings() {
    let s = Settings::default();
    assert!(s.mode == Mode::Strip);
    assert!(s.search == Search::Google);
    assert_eq!(s.home, "");
    assert_eq!(s.sleep_minutes, 10);
    assert!(s.restore_session && s.save_history);
}

#[test]
fn blank_input_opens_about_blank() {
    assert_eq!(parse_input("", Search::Google), "about:blank");
    assert_eq!(parse_input(" \t\n", Search::Google), "about:blank");
}

#[test]
fn addresses_with_a_scheme_open_as_typed() {
    assert_eq!(parse_input("https://rust-lang.org", Search::Google), "https://rust-lang.org/");
    assert_eq!(parse_input("  http://example.com/a?b=c  ", Search::Google), "http://example.com/a?b=c");
    assert_eq!(parse_input("about:blank", Search::Bing), "about:blank");
}

#[test]
fn bare_hosts_get_https_and_localhost_gets_http() {
    assert_eq!(parse_input("example.com", Search::Google), "https://example.com/");
    assert_eq!(parse_input("localhost:3000", Search::Google), "http://localhost:3000/");
    assert_eq!(parse_input("127.0.0.1:8080/x", Search::Google), "http://127.0.0.1:8080/x");
}

#[test]
fn other_text_is_searched() {
    assert_eq!(parse_input("hello world", Search::Google), "https://www.google.com/search?q=hello+world");
    assert_eq!(parse_input("rust", Search::Duckduckgo), "https://duckduckgo.com/?q=rust");
    assert_eq!(parse_input("a&b=c", Search::Bing), "https://www.bing.com/search?q=a%26b%3Dc");
    assert_eq!(parse_input("café", Search::Yandex), "https://ya.ru/search/?text=caf%C3%A9");
}

#[test]
fn internal_pages_open_as_browser_urls() {
    assert_eq!(parse_input("browser://settings", Search::Google), "browser://settings");
    assert_eq!(parse_input("chrome://downloads", Search::Google), "browser://downloads");
}

#[test]
fn choose_address_decides_from_what_the_parser_said() {
    // An internal page wins.
    let direct = Some(parts("chrome://settings", "chrome", Some("settings"), None));
    assert_eq!(choose_address("chrome://settings", direct, None, Search::Google), "browser://settings");
    // A typed-out web address is taken as it is.
    let direct = Some(parts("https://a.org/", "https", Some("a.org"), None));
    assert_eq!(choose_address("https://a.org", direct, None, Search::Google), "https://a.org/");
    // Another scheme falls to the guessed address.
    let direct = Some(parts("mailto:x@y.z", "mailto", None, None));
    let guessed = Some(parts("https://mailto:x@y.z/", "https", Some("y.z"), None));
    assert_eq!(choose_address("mailto:x@y.z", direct, guessed, Search::Google), "https://mailto:x@y.z/");
    // Nothing parses: a search.
    assert_eq!(choose_address("two words", None, None, Search::Google), "https://www.google.com/search?q=two+words");
}

#[test]
fn guessed_addresses() {
    let c = |s: &str| s.chars().collect::<Vec<char>>();
    assert_eq!(guessed_address(&c("example.com")), Some("https://example.com".to_string()));
    assert_eq!(guessed_address(&c("localhost")), Some("http://localhost".to_string()));
    assert_eq!(guessed_address(&c("nodot")), None);
    assert_eq!(guessed_address(&c("a b.c")), None);
}

#[test]
fn home_pages() {
    let mut s = Settings::default();
    assert_eq!(home_url(&s), "https://www.google.com/");
    s.search = Search::Bing;
    assert_eq!(home_url(&s), "https://www.bing.com/");
    s.home = "  news.ycombinator.com ".to_string();
    assert_eq!(home_url(&s), "https://news.ycombinator.com/");
}

#[test]
fn internal_page_and_real_url() {
    let u = parsed("browser://settings");
    assert_eq!(internal_page(&u), Some("settings".to_string()));
    assert_eq!(real_url(BASE, &u), "tauri://localhost/settings.html");
    let u = parsed("browser://history");
    assert_eq!(internal_page(&u), None);
    assert_eq!(real_url(BASE, &u), "browser://history");
    let u = parsed("https://settings/");
    assert_eq!(internal_page(&u), None);
    assert_eq!(real_url(BASE, &u), "https://settings/");
}

#[test]
fn dev_server_base_gets_a_slash() {
    assert_eq!(with_slash("http://localhost:1420"), "http://localhost:1420/");
    assert_eq!(with_slash("http://localhost:1420/"), "http://localhost:1420/");
}

#[test]
fn viewer_urls_read_back() {
    let file = "https://example.com/docs/a file.pdf";
    let v = viewer_url(BASE, file);
    assert_eq!(v, "tauri://localhost/pdf.html?file=https%3A%2F%2Fexample.com%2Fdocs%2Fa+file.pdf");
    assert_eq!(viewer_file(BASE, &v), Some(file.to_string()));
    assert_eq!(display_url(BASE, &v), file);
    // The viewer's own fragment is not part of the address.
    assert_eq!(viewer_file(BASE, &format!("{v}#page=3")), Some(file.to_string()));
    assert_eq!(viewer_file(BASE, "https://example.com/a.pdf"), None);
}

#[test]
fn display_urls() {
    assert_eq!(display_url(BASE, "tauri://localhost/settings.html"), "browser://settings");
    assert_eq!(display_url(BASE, "tauri://localhost/downloads.html?x#y"), "browser://downloads");
    assert_eq!(display_url(BASE, "https://example.com/"), "https://example.com/");
}

#[test]
fn form_encoding() {
    assert_eq!(viewer_url("", "a b*-._~/"), "pdf.html?file=a+b*-._%7E%2F");
    assert_eq!(viewer_url("", ""), "pdf.html?file=");
}

#[test]
fn hosts_without_www() {
    assert_eq!(host_of("https://www.example.com/a"), Some("example.com".to_string()));
    assert_eq!(host_of("https://docs.rs/"), Some("docs.rs".to_string()));
    assert_eq!(host_of("about:blank"), None);
    assert_eq!(host_of("not a url"), None);
}

#[test]
fn pdfs_move_to_the_viewer_unless_marked_native() {
    assert!(wants_pdf_viewer(&parsed("https://a.com/x.pdf")));
    assert!(wants_pdf_viewer(&parsed("file:///tmp/x.pdf")));
    assert!(!wants_pdf_viewer(&parsed("https://a.com/x.pdf#bnative")));
    assert!(!wants_pdf_viewer(&parsed("data:application/pdf,x")));
}

#[test]
fn page_load_events() {
    let e = page_event(false, "https://a.com/", "https", BASE);
    assert_eq!(e.url, "https://a.com/");
    assert!(e.loading && !e.viewer && !e.settled);
    let e = page_event(true, "https://a.com/", "https", BASE);
    assert!(!e.loading && !e.viewer && e.settled);
    // about: pages never report finishing, so they never count as loading.
    let e = page_event(false, "about:blank", "about", BASE);
    assert!(!e.loading);
    // The viewer shows the PDF's own address and is not recorded.
    let v = viewer_url(BASE, "https://a.com/x.pdf");
    let e = page_event(true, &v, "tauri", BASE);
    assert_eq!(e.url, "https://a.com/x.pdf");
    assert!(e.viewer && !e.settled);
    let e = page_event(false, "tauri://localhost/settings.html", "tauri", BASE);
    assert_eq!(e.url, "browser://settings");
}

#[test]
fn any_address_reads_back_from_its_viewer_url() {
    for file in ["https://x.org/ä?a=1&b=2#frag+%", "file:///tmp/a b/c.pdf", "", "%41+%2"] {
        let v = viewer_url(BASE, file);
        assert_eq!(viewer_file(BASE, &v), Some(file.to_string()));
        assert_eq!(display_url(BASE, &v), file);
    }
}
