//! Addresses: what the address bar makes of typed text, which pages are the
//! browser's own (`browser://settings`, `browser://downloads`), where the app
//! serves them, and how a PDF shown in the viewer is addressed.
use vstd::prelude::*;

use crate::settings::{Search, Settings};
use crate::text::{
    before_any, before_first, chars_of, digit, has_char, is_text, push_str, starts_with,
    str_has_prefix, string_of, strip_prefix, trim, trim_chars,
};
use vstd::utf8::{encode_scalar, encode_utf8};

verus! {

// ---------------------------------------------------------------------------
// The url crate

/// What the address logic reads of a parsed URL.
pub struct UrlParts {
    /// The serialization, `Url::as_str`.
    pub href: String,
    /// `Url::scheme`.
    pub scheme: String,
    /// `Url::host_str`.
    pub host: Option<String>,
    /// `Url::fragment`.
    pub fragment: Option<String>,
}

/// The serialization, scheme, host and fragment of a parsed URL.
pub type UrlView = (Seq<char>, Seq<char>, Option<Seq<char>>, Option<Seq<char>>);

/// The characters of an optional string.
pub open spec fn opt_chars(o: Option<String>) -> Option<Seq<char>> {
    match o {
        Some(s) => Some(s@),
        None => None,
    }
}

/// The four texts of `UrlParts`.
pub open spec fn parts_view(u: UrlParts) -> UrlView {
    (u.href@, u.scheme@, opt_chars(u.host), opt_chars(u.fragment))
}

/// The four texts of an optional `UrlParts`.
pub open spec fn opt_parts_view(u: Option<UrlParts>) -> Option<UrlView> {
    match u {
        Some(u) => Some(parts_view(u)),
        None => None,
    }
}

/// What `url::Url::parse` makes of a text: `None` where it refuses it.
pub uninterp spec fn url_parts(input: Seq<char>) -> Option<UrlView>;

/// `url::Url::parse`, keeping the serialization, scheme, host and fragment.
///
/// The contract claims that the result is a function of the input text alone,
/// named `url_parts`; the WHATWG URL rules themselves are not stated.
#[verifier::external_body]
pub(crate) fn url_parse(input: &str) -> (r: Option<UrlParts>)
    ensures
        opt_parts_view(r) == url_parts(input@),
{
    let u = url::Url::parse(input).ok()?;
    Some(UrlParts {
        href: u.as_str().to_string(),
        scheme: u.scheme().to_string(),
        host: u.host_str().map(str::to_string),
        fragment: u.fragment().map(str::to_string),
    })
}

/// An uppercase hexadecimal digit for `d < 16`.
pub open spec fn hex_upper(d: nat) -> char {
    if d < 10 {
        digit(d)
    } else if d == 10 {
        'A'
    } else if d == 11 {
        'B'
    } else if d == 12 {
        'C'
    } else if d == 13 {
        'D'
    } else if d == 14 {
        'E'
    } else {
        'F'
    }
}

/// Bytes that `application/x-www-form-urlencoded` leaves as they are.
pub open spec fn form_unchanged(b: u8) -> bool {
    ||| b == 0x2a
    ||| b == 0x2d
    ||| b == 0x2e
    ||| 0x30 <= b <= 0x39
    ||| 0x41 <= b <= 0x5a
    ||| b == 0x5f
    ||| 0x61 <= b <= 0x7a
}

/// The form encoding of one byte: itself, `+` for a space, else `%XX`.
pub open spec fn form_byte(b: u8) -> Seq<char> {
    if form_unchanged(b) {
        seq![b as char]
    } else if b == 0x20 {
        seq!['+']
    } else {
        seq!['%', hex_upper((b / 16) as nat), hex_upper((b % 16) as nat)]
    }
}

/// The `application/x-www-form-urlencoded` byte serialization of `bytes`.
pub open spec fn form_serialize(bytes: Seq<u8>) -> Seq<char>
    decreases bytes.len(),
{
    if bytes.len() == 0 {
        Seq::empty()
    } else {
        form_byte(bytes[0]) + form_serialize(bytes.drop_first())
    }
}

/// `url::form_urlencoded::byte_serialize` of the UTF-8 bytes of `s`.
///
/// The contract claims the serializer's whole behaviour as its source shows it:
/// `*-._`, ASCII letters and digits stay, a space becomes `+`, and every other
/// byte becomes `%` and two uppercase hex digits.
#[verifier::external_body]
pub(crate) fn form_encode(s: &str) -> (r: String)
    ensures
        r@ == form_serialize(encode_utf8(s@)),
{
    url::form_urlencoded::byte_serialize(s.as_bytes()).collect()
}

/// The first name–value pair that `url::form_urlencoded::parse` finds in a
/// form-encoded byte string, both decoded.
pub uninterp spec fn form_pair(input: Seq<u8>) -> Option<(Seq<char>, Seq<char>)>;

/// The value of a hex digit byte, as `char::to_digit(16)` reads it.
pub open spec fn hex_digit_value(b: u8) -> Option<nat> {
    if 0x30 <= b <= 0x39 {
        Some((b - 0x30) as nat)
    } else if 0x41 <= b <= 0x46 {
        Some((b - 0x37) as nat)
    } else if 0x61 <= b <= 0x66 {
        Some((b - 0x57) as nat)
    } else {
        None
    }
}

/// Percent-decoding: `%` and two hex digits become the byte they spell; every
/// other byte, a `%` without two hex digits after it too, stays.
pub open spec fn percent_decoded(b: Seq<u8>) -> Seq<u8>
    decreases b.len(),
{
    if b.len() == 0 {
        Seq::empty()
    } else if b[0] == 0x25 && b.len() >= 3 && hex_digit_value(b[1]) is Some && hex_digit_value(b[2]) is Some {
        seq![(hex_digit_value(b[1])->0 * 16 + hex_digit_value(b[2])->0) as u8] + percent_decoded(b.skip(3))
    } else {
        seq![b[0]] + percent_decoded(b.skip(1))
    }
}

/// `+` read as a space.
pub open spec fn plus_to_space(b: Seq<u8>) -> Seq<u8> {
    b.map_values(|x: u8| if x == 0x2b { 0x20u8 } else { x })
}

/// What follows the first `=` (nothing where there is none).
pub open spec fn after_first_eq(b: Seq<u8>) -> Seq<u8>
    decreases b.len(),
{
    if b.len() == 0 {
        Seq::empty()
    } else if b[0] == 0x3d {
        b.skip(1)
    } else {
        after_first_eq(b.skip(1))
    }
}

/// The bytes that the value of a lone `name=value` pair decodes to, before
/// they are read as UTF-8.
pub open spec fn form_value_bytes(b: Seq<u8>) -> Seq<u8> {
    percent_decoded(plus_to_space(after_first_eq(b)))
}

/// The first pair of `url::form_urlencoded::parse(input)`.
///
/// The contract claims that the result is a function of the bytes alone, named
/// `form_pair`; that there is one whenever the input starts with a byte other
/// than `&` (its first segment is then not empty); and that for an input
/// without `&`, whose only segment is then the pair, the value is what its
/// bytes after the first `=` spell once `+` is read as a space and
/// percent-decoded, where those bytes are UTF-8. The lossy decoding of other
/// bytes is not stated.
#[verifier::external_body]
pub(crate) fn form_first_pair(input: &[u8]) -> (r: Option<(String, String)>)
    ensures
        match r {
            Some(p) => form_pair(input@) == Some((p.0@, p.1@)),
            None => form_pair(input@) is None,
        },
        input@.len() > 0 && input@[0] != 0x26 ==> r is Some,
        (input@.len() > 0 && !input@.contains(0x26u8)) ==> forall|t: Seq<char>|
            #[trigger] encode_utf8(t) == form_value_bytes(input@) ==> match r {
                Some(p) => p.1@ == t,
                None => false,
            },
{
    url::form_urlencoded::parse(input).next().map(|(k, v)| (k.into_owned(), v.into_owned()))
}

/// The UTF-8 bytes of a string, as `str::as_bytes` gives them.
fn utf8_bytes(s: &String) -> (b: Vec<u8>)
    ensures
        b@ == encode_utf8(s@),
{
    vstd::slice::slice_to_vec(s.as_str().as_bytes())
}

// ---------------------------------------------------------------------------
// The browser's own pages

/// The page of an internal URL: `browser://` or `chrome://` and a host that
/// names one of the app's pages, `settings` or `downloads`.
pub open spec fn spec_internal_page(scheme: Seq<char>, host: Option<Seq<char>>) -> Option<Seq<char>> {
    if (scheme == "browser"@ || scheme == "chrome"@) && host is Some && (host->0 == "settings"@
        || host->0 == "downloads"@) {
        host
    } else {
        None
    }
}

/// Internal pages live in the app bundle; the address bar shows them as browser://<page>.
pub fn internal_page(u: &UrlParts) -> (r: Option<String>)
    ensures
        opt_chars(r) == spec_internal_page(u.scheme@, opt_chars(u.host)),
{
    let sc = chars_of(u.scheme.as_str());
    if !(is_text(sc.as_slice(), "browser") || is_text(sc.as_slice(), "chrome")) {
        return None;
    }
    match &u.host {
        Some(h) => {
            let hc = chars_of(h.as_str());
            if is_text(hc.as_slice(), "settings") || is_text(hc.as_slice(), "downloads") {
                Some(h.clone())
            } else {
                None
            }
        },
        None => None,
    }
}

/// `s` followed by a `/`, unless it already ends with one.
pub open spec fn spec_with_slash(s: Seq<char>) -> Seq<char> {
    if s.len() > 0 && s.last() == '/' {
        s
    } else {
        s.push('/')
    }
}

/// Where the app's own pages are served: the dev server's URL with a trailing
/// slash (the app protocol's base already has one).
pub fn with_slash(s: &str) -> (r: String)
    ensures
        r@ == spec_with_slash(s@),
{
    let v = chars_of(s);
    if v.len() > 0 && v[v.len() - 1] == '/' {
        String::from_str(s)
    } else {
        let mut out = v;
        out.push('/');
        string_of(out.as_slice())
    }
}

/// The URL the webview loads for an address: an internal page's HTML file
/// under `base`, else the address itself.
pub open spec fn spec_real_url(base: Seq<char>, u: UrlView) -> Seq<char> {
    match spec_internal_page(u.1, u.2) {
        Some(page) => base + page + ".html"@,
        None => u.0,
    }
}

/// The real URL the webview loads for a (possibly internal) URL.
pub fn real_url(base: &str, u: &UrlParts) -> (r: String)
    ensures
        r@ == spec_real_url(base@, parts_view(*u)),
{
    match internal_page(u) {
        Some(page) => {
            let mut out = String::from_str(base);
            out.append(page.as_str());
            out.append(".html");
            out
        },
        None => u.href.clone(),
    }
}

// ---------------------------------------------------------------------------
// PDFs in the viewer

/// The viewer page, relative to the app's base; the PDF's address follows.
pub open spec fn pdf_viewer() -> Seq<char> {
    "pdf.html?file="@
}

/// The address of the PDF that a viewer URL shows: after `base` and
/// `pdf.html?file=`, up to a `#`, form-decoded.
pub open spec fn spec_viewer_file(base: Seq<char>, url: Seq<char>) -> Option<Seq<char>> {
    if starts_with(url, base) && starts_with(url.skip(base.len() as int), pdf_viewer()) {
        let q = before_first(url.skip(base.len() + pdf_viewer().len() as int), |c: char| c == '#');
        match form_pair(encode_utf8("f="@ + q)) {
            Some(p) => Some(p.1),
            None => None,
        }
    } else {
        None
    }
}

/// The PDF address behind a viewer URL, if `url` is one. The viewer URL of
/// an address reads back as that very address.
pub fn viewer_file(base: &str, url: &str) -> (r: Option<String>)
    ensures
        opt_chars(r) == spec_viewer_file(base@, url@),
        (starts_with(url@, base@) && starts_with(url@.skip(base@.len() as int), pdf_viewer())) <==> r is Some,
        forall|f: Seq<char>| #[trigger] spec_viewer_url(base@, f) == url@ ==> opt_chars(r) == Some(f),
{
    proof {
        reveal_strlit("pdf.html?file=");
        reveal_strlit("f=");
        reveal_strlit("#");
    }
    let uv = chars_of(url);
    let bv = chars_of(base);
    let rest = match strip_prefix(uv.as_slice(), bv.as_slice()) {
        Some(rest) => rest,
        None => {
            proof {
                assert forall|f: Seq<char>| #[trigger] spec_viewer_url(base@, f) == url@ implies false by {
                    lemma_viewer_url_parts(base@, f);
                }
            }
            return None;
        },
    };
    let pv = chars_of("pdf.html?file=");
    let q = match strip_prefix(rest.as_slice(), pv.as_slice()) {
        Some(q) => q,
        None => {
            proof {
                assert forall|f: Seq<char>| #[trigger] spec_viewer_url(base@, f) == url@ implies false by {
                    lemma_viewer_url_parts(base@, f);
                    assert(rest@ =~= url@.skip(base@.len() as int));
                }
            }
            return None;
        },
    };
    assert(q@ =~= url@.skip(base@.len() + pdf_viewer().len() as int));
    let hash = chars_of("#");
    let q = before_any(q.as_slice(), hash.as_slice());
    assert(before_first(url@.skip(base@.len() + pdf_viewer().len() as int), |c: char| hash@.contains(c))
        == before_first(url@.skip(base@.len() + pdf_viewer().len() as int), |c: char| c == '#')) by {
        assert(hash@ =~= seq!['#']);
        assert forall|c: char| hash@.contains(c) == (c == '#') by {
            if c == '#' {
                assert(hash@[0] == c);
            }
        }
        assert((|c: char| hash@.contains(c)) =~= (|c: char| c == '#'));
    }
    let mut form = chars_of("f=");
    let mut qq = q;
    form.append(&mut qq);
    let fs = string_of(form.as_slice());
    let bytes = utf8_bytes(&fs);
    proof {
        assert(fs@[0] == 'f');
        lemma_first_byte_f(fs@);
    }
    let pair = form_first_pair(bytes.as_slice());
    proof {
        assert forall|f: Seq<char>| #[trigger] spec_viewer_url(base@, f) == url@ implies (match pair {
            Some(p) => p.1@ == f,
            None => false,
        }) by {
            let enc = form_serialize(encode_utf8(f));
            lemma_viewer_url_parts(base@, f);
            lemma_form_serialize_chars(encode_utf8(f));
            lemma_before_first_none(enc, |c: char| c == '#');
            assert(q@ == enc);
            let head = seq!['f', '='];
            assert("f="@ =~= head);
            assert(fs@ =~= head + enc);
            lemma_encode_concat(head, enc);
            vstd::utf8::is_ascii_chars_encode_utf8(head);
            vstd::utf8::is_ascii_chars_encode_utf8(enc);
            let eh = encode_utf8(head);
            assert(eh =~= seq![0x66u8, 0x3du8]);
            assert(after_first_eq(bytes@) == after_first_eq(bytes@.skip(1)));
            assert(bytes@.skip(1)[0] == 0x3du8);
            assert(after_first_eq(bytes@) =~= encode_utf8(enc));
            lemma_form_decodes(encode_utf8(f));
            assert(encode_utf8(f) == form_value_bytes(bytes@));
            assert forall|i: int| 0 <= i < bytes@.len() implies bytes@[i] != 0x26u8 by {
                if i >= 2 {
                    assert(bytes@[i] == encode_utf8(enc)[i - 2]);
                    assert(enc[i - 2] != '&');
                }
            }
            assert(!bytes@.contains(0x26u8));
        }
    }
    match pair {
        Some(p) => Some(p.1),
        None => None,
    }
}

proof fn lemma_viewer_url_parts(base: Seq<char>, f: Seq<char>)
    ensures
        starts_with(spec_viewer_url(base, f), base),
        starts_with(spec_viewer_url(base, f).skip(base.len() as int), pdf_viewer()),
        spec_viewer_url(base, f).skip(base.len() + pdf_viewer().len() as int) == form_serialize(encode_utf8(f)),
{
    let u = spec_viewer_url(base, f);
    assert(u.take(base.len() as int) =~= base);
    assert(u.skip(base.len() as int).take(pdf_viewer().len() as int) =~= pdf_viewer());
    assert(u.skip(base.len() + pdf_viewer().len() as int) =~= form_serialize(encode_utf8(f)));
}

proof fn lemma_first_byte_f(s: Seq<char>)
    requires
        s.len() > 0,
        s[0] == 'f',
    ensures
        encode_utf8(s).len() > 0,
        encode_utf8(s)[0] == 0x66,
{
    let c: u32 = 0x66;
    assert(s[0] as u32 == c);
    assert((c & 0x7F) as u8 == 0x66u8) by (bit_vector)
        requires
            c == 0x66,
    ;
    assert(encode_scalar(s[0] as u32) =~= seq![0x66u8]);
}

/// The viewer URL that shows the PDF at `file`.
pub open spec fn spec_viewer_url(base: Seq<char>, file: Seq<char>) -> Seq<char> {
    base + pdf_viewer() + form_serialize(encode_utf8(file))
}

/// The viewer page's URL for a PDF address.
pub fn viewer_url(base: &str, file: &str) -> (r: String)
    ensures
        r@ == spec_viewer_url(base@, file@),
{
    let q = form_encode(file);
    let mut out = String::from_str(base);
    out.append("pdf.html?file=");
    out.append(q.as_str());
    out
}

/// What the address bar shows for a URL the webview reports: the PDF's own
/// address in the viewer, `browser://<page>` for the app's pages, else the URL.
pub open spec fn spec_display_url(base: Seq<char>, url: Seq<char>) -> Seq<char> {
    match spec_viewer_file(base, url) {
        Some(f) => f,
        None => if starts_with(url, base) {
            "browser://"@ + before_first(url.skip(base.len() as int), |c: char| c == '.' || c == '?' || c == '#')
        } else {
            url
        },
    }
}

/// What the address bar shows for a URL the webview reports; for the viewer
/// showing a PDF, the PDF's own address.
pub fn display_url(base: &str, url: &str) -> (r: String)
    ensures
        r@ == spec_display_url(base@, url@),
        forall|f: Seq<char>| #[trigger] spec_viewer_url(base@, f) == url@ ==> r@ == f,
{
    if let Some(f) = viewer_file(base, url) {
        return f;
    }
    let uv = chars_of(url);
    let bv = chars_of(base);
    match strip_prefix(uv.as_slice(), bv.as_slice()) {
        Some(rest) => {
            let stops = chars_of(".?#");
            proof {
                reveal_strlit(".?#");
                assert(stops@ =~= seq!['.', '?', '#']);
                assert forall|c: char| stops@.contains(c) == (c == '.' || c == '?' || c == '#') by {
                    if c == '.' {
                        assert(stops@[0] == c);
                    } else if c == '?' {
                        assert(stops@[1] == c);
                    } else if c == '#' {
                        assert(stops@[2] == c);
                    }
                }
                assert((|c: char| stops@.contains(c)) =~= (|c: char| c == '.' || c == '?' || c == '#'));
            }
            let page = before_any(rest.as_slice(), stops.as_slice());
            let mut out = chars_of("browser://");
            let mut p = page;
            out.append(&mut p);
            string_of(out.as_slice())
        },
        None => String::from_str(url),
    }
}

/// Whether a loaded page may be moved to the PDF viewer: it is served over
/// http(s) or from a file, and not marked `#bnative` to keep WebKit's viewer.
pub open spec fn spec_wants_pdf_viewer(u: UrlView) -> bool {
    (u.1 == "http"@ || u.1 == "https"@ || u.1 == "file"@) && u.3 != Some("bnative"@)
}

/// WebKit's own PDF view has no thumbnails, search or page controls, so PDFs move to ours.
pub fn wants_pdf_viewer(u: &UrlParts) -> (b: bool)
    ensures
        b == spec_wants_pdf_viewer(parts_view(*u)),
        b == ((u.scheme@ == "http"@ || u.scheme@ == "https"@ || u.scheme@ == "file"@) && opt_chars(u.fragment)
            != Some("bnative"@)),
{
    let sc = chars_of(u.scheme.as_str());
    if !(is_text(sc.as_slice(), "http") || is_text(sc.as_slice(), "https") || is_text(sc.as_slice(), "file")) {
        return false;
    }
    match &u.fragment {
        Some(f) => {
            let fc = chars_of(f.as_str());
            !is_text(fc.as_slice(), "bnative")
        },
        None => true,
    }
}

/// What a page-load event of a tab means: the address the bar shows, whether
/// the tab is loading, whether the PDF viewer shows the page, and whether it
/// is a finished load outside the viewer.
pub struct PageEvent {
    /// What the address bar shows.
    pub url: String,
    /// A start, except of an `about:` page, which never reports finishing.
    pub loading: bool,
    /// The PDF viewer shows the page.
    pub viewer: bool,
    /// A finished load outside the viewer: the history records it, and a PDF
    /// moves to the viewer.
    pub settled: bool,
}

/// The view of a `PageEvent`.
pub open spec fn page_event_view(e: PageEvent) -> (Seq<char>, bool, bool, bool) {
    (e.url@, e.loading, e.viewer, e.settled)
}

/// What the webview reporting that `reported` (whose scheme is `scheme`)
/// started or `finished` loading means for the tab.
pub open spec fn spec_page_event(finished: bool, reported: Seq<char>, scheme: Seq<char>, base: Seq<char>) -> (
    Seq<char>,
    bool,
    bool,
    bool,
) {
    let viewer = spec_viewer_file(base, reported) is Some;
    (spec_display_url(base, reported), !finished && scheme != "about"@, viewer, finished && !viewer)
}

/// A tab's webview reports that it started (or `finished`) loading
/// `reported`, a URL whose scheme is `scheme`; the app is served from `base`.
pub fn page_event(finished: bool, reported: &str, scheme: &str, base: &str) -> (r: PageEvent)
    ensures
        page_event_view(r) == spec_page_event(finished, reported@, scheme@, base@),
{
    let sc = chars_of(scheme);
    let about = is_text(sc.as_slice(), "about");
    let viewer = viewer_file(base, reported).is_some();
    let url = display_url(base, reported);
    PageEvent { url, loading: !finished && !about, viewer, settled: finished && !viewer }
}

// ---------------------------------------------------------------------------
// Hosts

/// `h` without a leading `www.`.
pub open spec fn strip_www(h: Seq<char>) -> Seq<char> {
    if starts_with(h, "www."@) {
        h.skip(4)
    } else {
        h
    }
}

/// The host of a URL without a leading `www.`; `None` where the text is not a
/// URL or has no host.
pub open spec fn spec_host_of(url: Seq<char>) -> Option<Seq<char>> {
    match url_parts(url) {
        Some(u) => match u.2 {
            Some(h) => Some(strip_www(h)),
            None => None,
        },
        None => None,
    }
}

/// The host that tints and zoom levels are remembered under.
pub fn host_of(url: &str) -> (r: Option<String>)
    ensures
        opt_chars(r) == spec_host_of(url@),
{
    proof {
        reveal_strlit("www.");
    }
    let u = match url_parse(url) {
        Some(u) => u,
        None => return None,
    };
    let h = match u.host {
        Some(h) => h,
        None => return None,
    };
    let hv = chars_of(h.as_str());
    let w = chars_of("www.");
    match strip_prefix(hv.as_slice(), w.as_slice()) {
        Some(rest) => Some(string_of(rest.as_slice())),
        None => Some(h),
    }
}

// ---------------------------------------------------------------------------
// The address bar

/// Schemes that typed text may name directly.
pub open spec fn is_direct_scheme(s: Seq<char>) -> bool {
    s == "http"@ || s == "https"@ || s == "about"@ || s == "file"@ || s == "data"@
}

/// The scheme guessed for typed text without one: plain http for the local
/// machine, https otherwise.
pub open spec fn guess_scheme(s: Seq<char>) -> Seq<char> {
    if starts_with(s, "localhost"@) || starts_with(s, "127.0.0.1"@) {
        "http"@
    } else {
        "https"@
    }
}

/// The text tried as an address when the typed text itself is not one: the
/// guessed scheme in front, for text without spaces that has a dot or names
/// the local machine.
pub open spec fn guess_target(s: Seq<char>) -> Option<Seq<char>> {
    if !s.contains(' ') && (s.contains('.') || guess_scheme(s) == "http"@) {
        Some(guess_scheme(s) + "://"@ + s)
    } else {
        None
    }
}

/// Where trimmed, non-empty typed text `s` goes, given what the URL parser
/// made of `s` itself (`direct`) and of its `guess_target` (`guessed`, `None`
/// where there is no target): an internal page, an address with a scheme
/// typed out, the guessed address, or else a search.
pub open spec fn spec_choose_address(
    s: Seq<char>,
    direct: Option<UrlView>,
    guessed: Option<UrlView>,
    search: Search,
) -> Seq<char> {
    let fallback = match guessed {
        Some(g) => g.0,
        None => search.spec_query() + form_serialize(encode_utf8(s)),
    };
    match direct {
        Some(d) => match spec_internal_page(d.1, d.2) {
            Some(page) => "browser://"@ + page,
            None => if is_direct_scheme(d.1) {
                d.0
            } else {
                fallback
            },
        },
        None => fallback,
    }
}

/// What the address bar opens for typed text: `about:blank` for nothing,
/// else `spec_choose_address` of the trimmed text.
pub open spec fn spec_parse_input(input: Seq<char>, search: Search) -> Seq<char> {
    let s = trim(input);
    if s.len() == 0 {
        "about:blank"@
    } else {
        spec_choose_address(
            s,
            url_parts(s),
            match guess_target(s) {
                Some(t) => url_parts(t),
                None => None,
            },
            search,
        )
    }
}

/// Where typed text `s` goes once the URL parser has been asked about it and
/// about its guessed address; see `spec_choose_address`.
pub fn choose_address(s: &str, direct: Option<UrlParts>, guessed: Option<UrlParts>, search: Search) -> (r: String)
    ensures
        r@ == spec_choose_address(s@, opt_parts_view(direct), opt_parts_view(guessed), search),
        direct matches Some(d) ==> (typed_out_address(d.scheme@, opt_chars(d.host)) ==> r@ == d.href@),
{
    if let Some(u) = &direct {
        if let Some(page) = internal_page(u) {
            let mut out = String::from_str("browser://");
            out.append(page.as_str());
            return out;
        }
        let sc = chars_of(u.scheme.as_str());
        if is_text(sc.as_slice(), "http") || is_text(sc.as_slice(), "https") || is_text(sc.as_slice(), "about")
            || is_text(sc.as_slice(), "file") || is_text(sc.as_slice(), "data") {
            return u.href.clone();
        }
    }
    if let Some(g) = guessed {
        return g.href;
    }
    let q = form_encode(s);
    let mut out = String::from_str(search.query());
    out.append(q.as_str());
    out
}

/// The text tried as an address for trimmed typed text, as `guess_target` says.
pub fn guessed_address(s: &[char]) -> (r: Option<String>)
    ensures
        opt_chars(r) == guess_target(s@),
{
    if has_char(s, ' ') {
        return None;
    }
    let local = str_has_prefix(s, "localhost") || str_has_prefix(s, "127.0.0.1");
    if !(has_char(s, '.') || local) {
        proof {
            reveal_strlit("http");
            reveal_strlit("https");
            assert("https"@.len() != "http"@.len());
        }
        return None;
    }
    let mut out = if local { chars_of("http") } else { chars_of("https") };
    push_str(&mut out, "://");
    let mut rest = vstd::slice::slice_to_vec(s);
    out.append(&mut rest);
    Some(string_of(out.as_slice()))
}

/// What the address bar opens for typed text: the address it names, one of the
/// app's pages, the address with a guessed scheme, or a search with `search`.
pub fn parse_input(input: &str, search: Search) -> (r: String)
    ensures
        r@ == spec_parse_input(input@, search),
{
    let v = chars_of(input);
    let t = trim_chars(v.as_slice());
    if t.len() == 0 {
        return String::from_str("about:blank");
    }
    let s = string_of(t.as_slice());
    let direct = url_parse(s.as_str());
    let guessed = match guessed_address(t.as_slice()) {
        Some(target) => url_parse(target.as_str()),
        None => None,
    };
    choose_address(s.as_str(), direct, guessed, search)
}

/// What a new tab opens: the custom home page if one is set, else the search
/// engine's front page.
pub open spec fn spec_home_url(home: Seq<char>, search: Search) -> Seq<char> {
    if trim(home).len() != 0 {
        spec_parse_input(home, search)
    } else {
        search.spec_home()
    }
}

/// What a new tab opens under these settings.
pub fn home_url(settings: &Settings) -> (r: String)
    ensures
        r@ == spec_home_url(settings.home@, settings.search),
{
    let v = chars_of(settings.home.as_str());
    let t = trim_chars(v.as_slice());
    if t.len() != 0 {
        parse_input(settings.home.as_str(), settings.search)
    } else {
        String::from_str(settings.search.home())
    }
}


/// An address typed out with a scheme the address bar opens directly
/// (`http`, `https`, `about`, `file` or `data`) that names none of the
/// browser's own pages (`browser://` or `chrome://` with the host `settings`
/// or `downloads`).
pub open spec fn typed_out_address(scheme: Seq<char>, host: Option<Seq<char>>) -> bool {
    &&& (scheme == "http"@ || scheme == "https"@ || scheme == "about"@ || scheme == "file"@ || scheme == "data"@)
    &&& !((scheme == "browser"@ || scheme == "chrome"@) && (host == Some("settings"@) || host == Some(
        "downloads"@,
    )))
}

// ---------------------------------------------------------------------------
// Laws of the address bar

/// Blank text opens an empty page.
pub proof fn blank_input_opens_blank(input: Seq<char>, search: Search)
    requires
        trim(input).len() == 0,
    ensures
        spec_parse_input(input, search) == "about:blank"@,
{
}

/// White space around typed text makes no difference to where it goes.
pub proof fn surrounding_space_is_ignored(input: Seq<char>, search: Search)
    ensures
        spec_parse_input(trim(input), search) == spec_parse_input(input, search),
{
    crate::text::trim_idempotent(input);
}

/// Text with a space in it that is not itself an address is searched for,
/// with the engine's results page and the text form-encoded.
pub proof fn spaced_text_is_searched(input: Seq<char>, search: Search)
    requires
        trim(input).len() > 0,
        trim(input).contains(' '),
        url_parts(trim(input)) is None,
    ensures
        spec_parse_input(input, search) == search.spec_query() + form_serialize(encode_utf8(trim(input))),
{
}

/// The app page that typed text names directly, if it does.
pub open spec fn named_page(input: Seq<char>) -> Option<Seq<char>> {
    match url_parts(trim(input)) {
        Some(u) => spec_internal_page(u.1, u.2),
        None => None,
    }
}

/// Typed text that names one of the app's pages, as `browser://` or
/// `chrome://`, opens it as `browser://<page>`.
pub proof fn internal_pages_open_as_browser_urls(input: Seq<char>, search: Search)
    requires
        trim(input).len() > 0,
        named_page(input) is Some,
    ensures
        spec_parse_input(input, search) == "browser://"@ + named_page(input)->0,
{
}

proof fn lemma_form_byte_chars(x: u8)
    ensures
        forall|i: int| 0 <= i < form_byte(x).len() ==> {
            let c = #[trigger] form_byte(x)[i];
            '\0' <= c <= '\u{7f}' && c != '&' && c != '#'
        },
{
    if form_unchanged(x) {
        assert(form_byte(x)[0] == x as char);
    }
}

proof fn lemma_form_serialize_chars(b: Seq<u8>)
    ensures
        forall|i: int| 0 <= i < form_serialize(b).len() ==> {
            let c = #[trigger] form_serialize(b)[i];
            '\0' <= c <= '\u{7f}' && c != '&' && c != '#'
        },
    decreases b.len(),
{
    if b.len() > 0 {
        lemma_form_serialize_chars(b.drop_first());
        lemma_form_byte_chars(b[0]);
        let f = form_byte(b[0]);
        let r = form_serialize(b.drop_first());
        assert forall|i: int| 0 <= i < (f + r).len() implies {
            let c = #[trigger] (f + r)[i];
            '\0' <= c <= '\u{7f}' && c != '&' && c != '#'
        } by {
            if i >= f.len() {
                assert((f + r)[i] == r[i - f.len()]);
            } else {
                assert((f + r)[i] == f[i]);
            }
        }
    }
}

proof fn lemma_encode_concat(a: Seq<char>, b: Seq<char>)
    ensures
        encode_utf8(a + b) == encode_utf8(a) + encode_utf8(b),
    decreases a.len(),
{
    if a.len() == 0 {
        assert(a + b =~= b);
        assert(encode_utf8(a) + encode_utf8(b) =~= encode_utf8(b));
    } else {
        lemma_encode_concat(a.drop_first(), b);
        assert((a + b).drop_first() =~= a.drop_first() + b);
        assert((a + b)[0] == a[0]);
        assert(encode_scalar(a[0] as u32) + (encode_utf8(a.drop_first()) + encode_utf8(b)) =~= (encode_scalar(
            a[0] as u32,
        ) + encode_utf8(a.drop_first())) + encode_utf8(b));
    }
}

proof fn lemma_hex_upper_reads_back(d: nat)
    requires
        d < 16,
    ensures
        hex_digit_value(hex_upper(d) as u8) == Some(d),
        (hex_upper(d) as u8) != 0x2b,
        '\0' <= hex_upper(d) <= '\u{7f}',
{
}

/// Decoding the form encoding of `b` gives back `b`.
proof fn lemma_form_decodes(b: Seq<u8>)
    ensures
        percent_decoded(plus_to_space(encode_utf8(form_serialize(b)))) == b,
    decreases b.len(),
{
    if b.len() == 0 {
        assert(plus_to_space(Seq::<u8>::empty()) =~= Seq::<u8>::empty());
    } else {
        let x = b[0];
        let c = form_byte(x);
        let rest = form_serialize(b.drop_first());
        lemma_encode_concat(c, rest);
        lemma_form_byte_chars(x);
        vstd::utf8::is_ascii_chars_encode_utf8(c);
        let ec = encode_utf8(c);
        let er = encode_utf8(rest);
        let pr = plus_to_space(er);
        assert(plus_to_space(ec + er) =~= plus_to_space(ec) + pr);
        lemma_form_decodes(b.drop_first());
        let p = plus_to_space(ec) + pr;
        if form_unchanged(x) {
            assert(c[0] == x as char);
            assert(ec[0] == x);
            assert(plus_to_space(ec) =~= seq![x]);
            assert(p[0] == x);
            assert(p.skip(1) =~= pr);
            assert(percent_decoded(p) == seq![x] + percent_decoded(p.skip(1)));
        } else if x == 0x20 {
            assert(ec[0] == 0x2bu8);
            assert(plus_to_space(ec) =~= seq![0x20u8]);
            assert(p[0] == 0x20u8);
            assert(p.skip(1) =~= pr);
            assert(percent_decoded(p) == seq![0x20u8] + percent_decoded(p.skip(1)));
        } else {
            let h = (x / 16) as nat;
            let l = (x % 16) as nat;
            lemma_hex_upper_reads_back(h);
            lemma_hex_upper_reads_back(l);
            assert(ec[0] == 0x25u8);
            assert(ec[1] == hex_upper(h) as u8);
            assert(ec[2] == hex_upper(l) as u8);
            assert(plus_to_space(ec) =~= ec);
            assert(p[0] == 0x25u8 && p[1] == ec[1] && p[2] == ec[2]);
            assert(p.skip(3) =~= pr);
            assert((h * 16 + l) as u8 == x);
            assert(percent_decoded(p) == seq![x] + percent_decoded(p.skip(3)));
        }
        assert(seq![x] + b.drop_first() =~= b);
    }
}

proof fn lemma_before_first_none(s: Seq<char>, stop: spec_fn(char) -> bool)
    requires
        forall|i: int| 0 <= i < s.len() ==> !stop(#[trigger] s[i]),
    ensures
        before_first(s, stop) == s,
    decreases s.len(),
{
    if s.len() > 0 {
        let t = s.drop_first();
        assert forall|i: int| 0 <= i < t.len() implies !stop(#[trigger] t[i]) by {
            assert(t[i] == s[i + 1]);
        }
        lemma_before_first_none(t, stop);
        assert(seq![s[0]] + t =~= s);
    }
}

/// Text the URL parser reads as an address with one of the schemes
/// `http`, `https`, `about`, `file` and `data`, and that is none of the
/// browser's own pages, opens as the parser's serialization of it; the
/// engine plays no part. So `file:///etc/hosts` opens the local file.
pub proof fn typed_addresses_open_as_parsed(input: Seq<char>, search: Search)
    requires
        trim(input).len() > 0,
        url_parts(trim(input)) is Some,
        typed_out_address(url_parts(trim(input)).unwrap().1, url_parts(trim(input)).unwrap().2),
    ensures
        spec_parse_input(input, search) == url_parts(trim(input)).unwrap().0,
        url_parts(trim(input)).unwrap().1 == "file"@ ==> spec_parse_input(input, search) == url_parts(trim(input)).unwrap().0,
        url_parts(trim(input)).unwrap().1 == "http"@ ==> spec_parse_input(input, search) == url_parts(trim(input)).unwrap().0,
        url_parts(trim(input)).unwrap().1 == "https"@ ==> spec_parse_input(input, search) == url_parts(trim(input)).unwrap().0,
        url_parts(trim(input)).unwrap().1 == "about"@ ==> spec_parse_input(input, search) == url_parts(trim(input)).unwrap().0,
        url_parts(trim(input)).unwrap().1 == "data"@ ==> spec_parse_input(input, search) == url_parts(trim(input)).unwrap().0,
{
    reveal_strlit("http");
    reveal_strlit("https");
    reveal_strlit("about");
    reveal_strlit("file");
    reveal_strlit("data");
    reveal_strlit("browser");
    reveal_strlit("chrome");
}

/// A page served over `http`, `https` or from a `file` moves to the PDF
/// viewer unless its fragment is `bnative`; a page of any other scheme never
/// does.
pub proof fn pdfs_over_http_https_and_file_move_to_the_viewer(u: UrlView)
    ensures
        (u.1 == "http"@ && u.3 != Some("bnative"@)) ==> spec_wants_pdf_viewer(u),
        (u.1 == "https"@ && u.3 != Some("bnative"@)) ==> spec_wants_pdf_viewer(u),
        (u.1 == "file"@ && u.3 != Some("bnative"@)) ==> spec_wants_pdf_viewer(u),
        u.3 == Some("bnative"@) ==> !spec_wants_pdf_viewer(u),
        !(u.1 == "http"@ || u.1 == "https"@ || u.1 == "file"@) ==> !spec_wants_pdf_viewer(u),
{
}
} // verus!
