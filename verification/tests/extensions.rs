use browser::extensions::{
    crx_payload, crx_url, find_message, info_from, is_exact_id, locale_of, message_key,
    messages_locale, parse_id, read_info, sort_by_name, validate_id, Info, Manifest, Message,
};

const ID: &str = "aapocclcgogkmnckokdopfmhonfmgoek";
const ID2: &str = "bbbbbbbbbbbbbbbbbbbbbbbbbbbbbbbb";

#[test]
fn parse_id_accepts_a_bare_id() {
    assert_eq!(parse_id(ID), Some(ID.to_string()));
}

#[test]
fn parse_id_finds_the_id_in_a_store_link() {
    let link = format!("https://chromewebstore.google.com/detail/google-slides/{ID}?hl=en");
    assert_eq!(parse_id(&link), Some(ID.to_string()));
}

#[test]
fn parse_id_takes_the_first_of_two_ids() {
    let text = format!("{ID2} and {ID}");
    assert_eq!(parse_id(&text), Some(ID2.to_string()));
}

#[test]
fn parse_id_refuses_letters_past_p_and_wrong_lengths() {
    assert_eq!(parse_id("aapocclcgogkmnckokdopfmhonfmgoez"), None);
    assert_eq!(parse_id("aapocclcgogkmnckokdopfmhonfmgoe"), None);
    assert_eq!(parse_id(""), None);
    // 33 letters form one run that is not an id.
    assert_eq!(parse_id("aapocclcgogkmnckokdopfmhonfmgoeka"), None);
    // A capital letter touching the run makes the run longer.
    assert_eq!(parse_id("Xaapocclcgogkmnckokdopfmhonfmgoek"), None);
}

#[test]
fn parse_id_splits_at_non_ascii_characters() {
    let text = format!("é{ID}ü");
    assert_eq!(parse_id(&text), Some(ID.to_string()));
}

#[test]
fn exact_ids_and_the_remove_check() {
    assert!(is_exact_id(ID));
    assert!(!is_exact_id(&format!("x{ID}")));
    assert!(!is_exact_id(&format!(" {ID}")));
    assert_eq!(validate_id(ID), Ok(()));
    assert_eq!(validate_id("../etc"), Err("bad id".to_string()));
}

#[test]
fn crx_url_names_the_id() {
    assert_eq!(
        crx_url(ID),
        format!(
            "https://clients2.google.com/service/update2/crx?response=redirect&prodversion=140.0&acceptformat=crx2,crx3&x=id%3D{ID}%26installsource%3Dondemand%26uc"
        )
    );
}

fn le(n: u32) -> Vec<u8> {
    n.to_le_bytes().to_vec()
}

#[test]
fn crx_payload_of_a_plain_zip_is_the_zip() {
    let zip = b"PK\x03\x04rest of the archive".to_vec();
    assert_eq!(crx_payload(&zip), Some(&zip[..]));
}

#[test]
fn crx_payload_skips_a_crx3_header() {
    let header = vec![9u8; 7];
    let zip = b"PK\x03\x04data".to_vec();
    let mut crx = b"Cr24".to_vec();
    crx.extend(le(3));
    crx.extend(le(header.len() as u32));
    crx.extend(&header);
    crx.extend(&zip);
    assert_eq!(crx_payload(&crx), Some(&zip[..]));
}

#[test]
fn crx_payload_skips_a_crx2_header() {
    let key = vec![1u8; 5];
    let sig = vec![2u8; 3];
    let zip = b"PK\x03\x04data".to_vec();
    let mut crx = b"Cr24".to_vec();
    crx.extend(le(2));
    crx.extend(le(key.len() as u32));
    crx.extend(le(sig.len() as u32));
    crx.extend(&key);
    crx.extend(&sig);
    crx.extend(&zip);
    assert_eq!(crx_payload(&crx), Some(&zip[..]));
}

#[test]
fn crx_payload_refuses_what_is_not_a_package() {
    assert_eq!(crx_payload(b"Cr2"), None);
    assert_eq!(crx_payload(b"<html>not found</html>"), None);
    // Unknown version.
    let mut crx = b"Cr24".to_vec();
    crx.extend(le(4));
    crx.extend(le(0));
    assert_eq!(crx_payload(&crx), None);
    // The header claims more bytes than there are.
    let mut crx = b"Cr24".to_vec();
    crx.extend(le(3));
    crx.extend(le(100));
    crx.extend(b"PK");
    assert_eq!(crx_payload(&crx), None);
    // Too short for a CRX2 header.
    let mut crx = b"Cr24".to_vec();
    crx.extend(le(2));
    crx.extend(le(0));
    assert_eq!(crx_payload(&crx), None);
}

#[test]
fn crx_payload_with_a_header_ending_exactly_at_the_end_is_empty() {
    let mut crx = b"Cr24".to_vec();
    crx.extend(le(3));
    crx.extend(le(0));
    assert_eq!(crx_payload(&crx), Some(&[][..]));
}

#[test]
fn message_keys() {
    assert_eq!(message_key("__MSG_appName__"), Some("appname".to_string()));
    assert_eq!(message_key("__MSG___"), Some(String::new()));
    assert_eq!(message_key("Plain name"), None);
    assert_eq!(message_key("__MSG_appName"), None);
}

#[test]
fn manifest_fields_are_read_where_they_are_strings() {
    let bytes = br#"{"name": "Dark Reader", "version": "4.9", "default_locale": "de"}"#;
    let i = read_info(ID, bytes, None).unwrap();
    assert_eq!((i.id.as_str(), i.name.as_str(), i.version.as_str()), (ID, "Dark Reader", "4.9"));
    // A plain name needs no messages file.
    assert_eq!(messages_locale(bytes), None);
    // A name that is not a string: the id stands in.
    let i = read_info(ID, br#"{"name": 7, "version": 2}"#, None).unwrap();
    assert_eq!((i.name.as_str(), i.version.as_str()), (ID, ""));
    assert!(read_info(ID, b"not json", None).is_none());
    assert_eq!(messages_locale(b"not json"), None);
    let m = Manifest { name: None, version: None, default_locale: Some("de".to_string()) };
    assert_eq!(locale_of(&m), "de");
    assert_eq!(locale_of(&manifest(None, None)), "en");
}

#[test]
fn a_message_key_name_is_looked_up_in_its_locale() {
    let bytes = br#"{"name": "__MSG_AppName__", "version": "1.0", "default_locale": "fr"}"#;
    assert_eq!(messages_locale(bytes), Some("fr".to_string()));
    assert_eq!(messages_locale(br#"{"name": "__MSG_x__"}"#), Some("en".to_string()));
    let msgs = br#"{"appName": {"message": "Grammar Helper"}, "other": {"message": "x"}}"#;
    let i = read_info(ID, bytes, Some(msgs)).unwrap();
    assert_eq!(i.name, "Grammar Helper");
    // Messages that are not a JSON object leave the raw name.
    let i = read_info(ID, bytes, Some(b"[1, 2]")).unwrap();
    assert_eq!(i.name, "__MSG_AppName__");
    // So does a missing messages file.
    let i = read_info(ID, bytes, None).unwrap();
    assert_eq!(i.name, "__MSG_AppName__");
    // A folder whose name is not an id is not an extension.
    assert!(read_info("tmp", bytes, Some(msgs)).is_none());
}

#[test]
fn messages_are_found_case_insensitively() {
    let msgs = vec![
        Message { key: "appName".to_string(), text: Some("Grammar Helper".to_string()) },
        Message { key: "other".to_string(), text: Some("x".to_string()) },
    ];
    assert_eq!(find_message(&msgs, "appname"), Some("Grammar Helper".to_string()));
    assert_eq!(find_message(&msgs, "missing"), None);
    let msgs = vec![Message { key: "AppName".to_string(), text: None }];
    assert_eq!(find_message(&msgs, "appname"), None);
}

fn manifest(name: Option<&str>, version: Option<&str>) -> Manifest {
    Manifest { name: name.map(str::to_string), version: version.map(str::to_string), default_locale: None }
}

#[test]
fn info_of_an_unpacked_extension() {
    let i = info_from(ID, Some(manifest(Some("uBlock"), Some("1.2"))), None).unwrap();
    assert_eq!((i.id.as_str(), i.name.as_str(), i.version.as_str()), (ID, "uBlock", "1.2"));
    // No name: the id stands in; no version: empty.
    let i = info_from(ID, Some(manifest(None, None)), None).unwrap();
    assert_eq!((i.name.as_str(), i.version.as_str()), (ID, ""));
    // A localized name.
    let msgs = vec![Message { key: "extName".to_string(), text: Some("Translator".to_string()) }];
    let i = info_from(ID, Some(manifest(Some("__MSG_extName__"), Some("3"))), Some(msgs)).unwrap();
    assert_eq!(i.name, "Translator");
    // A localized name whose messages cannot be read stays raw.
    let i = info_from(ID, Some(manifest(Some("__MSG_extName__"), Some("3"))), None).unwrap();
    assert_eq!(i.name, "__MSG_extName__");
    // Not an extension folder.
    assert!(info_from("tmp", Some(manifest(Some("x"), None)), None).is_none());
    assert!(info_from(ID, None, None).is_none());
}

fn info(name: &str) -> Info {
    Info { id: ID.to_string(), name: name.to_string(), version: String::new() }
}

#[test]
fn the_list_is_ordered_by_lowercased_name() {
    let sorted = sort_by_name(vec![info("zeta"), info("Alpha"), info("beta"), info("Zed")]);
    let names: Vec<&str> = sorted.iter().map(|i| i.name.as_str()).collect();
    assert_eq!(names, vec!["Alpha", "beta", "Zed", "zeta"]);
    assert!(sort_by_name(Vec::new()).is_empty());
}

#[test]
fn names_equal_but_for_case_keep_their_order() {
    let mut a = info("Notes");
    a.id = "a".repeat(32);
    let mut b = info("notes");
    b.id = "b".repeat(32);
    let c = info("Mail");
    let sorted = sort_by_name(vec![a, c, b]);
    let ids: Vec<String> = sorted.iter().map(|i| i.id.clone()).collect();
    assert_eq!(sorted[0].name, "Mail");
    assert_eq!(ids[1], "a".repeat(32));
    assert_eq!(ids[2], "b".repeat(32));
}
