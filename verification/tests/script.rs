use browser::script::{is_pdf_reply, pdf_redirect, sampled_color};

#[test]
fn content_type_replies() {
    assert!(is_pdf_reply("\"application/pdf\""));
    assert!(!is_pdf_reply("\"text/html\""));
    assert!(!is_pdf_reply("application/pdf"));
    assert!(!is_pdf_reply("null"));
}

#[test]
fn color_sample_replies() {
    assert_eq!(sampled_color(r##"["example.com", "#ffffff"]"##), Some(("example.com".to_string(), "#ffffff".to_string())));
    assert_eq!(sampled_color("null"), None);
    assert_eq!(sampled_color("[1, 2]"), None);
    assert_eq!(sampled_color(""), None);
}

#[test]
fn the_pdf_redirect_quotes_the_viewer_address() {
    assert_eq!(
        pdf_redirect("tauri://localhost/", "https://a.com/x.pdf"),
        "location.replace(\"tauri://localhost/pdf.html?file=https%3A%2F%2Fa.com%2Fx.pdf\")"
    );
    // Quotes and backslashes in the base are escaped.
    assert_eq!(pdf_redirect("a\"b\\", ""), "location.replace(\"a\\\"b\\\\pdf.html?file=\")");
    assert_eq!(pdf_redirect("\u{1}\n", ""), "location.replace(\"\\u0001\\npdf.html?file=\")");
}
