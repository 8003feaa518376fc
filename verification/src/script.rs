//! What the browser's scripts hand to pages and read back from them: the
//! page-color sample, the document's content type, and a JSON string literal
//! for a script that moves a PDF to the viewer.
use vstd::prelude::*;

use crate::text::chars_of;
use crate::urls::{spec_viewer_url, viewer_url};

verus! {

/// A lowercase hex digit.
pub open spec fn hex_lower(n: nat) -> char {
    if n < 10 {
        (n + 48) as char
    } else {
        (n + 87) as char
    }
}

/// How JSON writes one character inside a string literal: quote and
/// backslash escaped, the C0 controls as `\b \t \n \f \r` or `\u00xx`.
pub open spec fn json_escape(c: char) -> Seq<char> {
    if c == '"' {
        seq!['\\', '"']
    } else if c == '\\' {
        seq!['\\', '\\']
    } else if c == '\x08' {
        seq!['\\', 'b']
    } else if c == '\t' {
        seq!['\\', 't']
    } else if c == '\n' {
        seq!['\\', 'n']
    } else if c == '\x0c' {
        seq!['\\', 'f']
    } else if c == '\r' {
        seq!['\\', 'r']
    } else if (c as u32) < 0x20 {
        seq!['\\', 'u', '0', '0', hex_lower((c as nat) / 16), hex_lower((c as nat) % 16)]
    } else {
        seq![c]
    }
}

/// The escaped characters of `s`, in order.
pub open spec fn json_escaped(s: Seq<char>) -> Seq<char>
    decreases s.len(),
{
    if s.len() == 0 {
        Seq::empty()
    } else {
        json_escaped(s.drop_last()) + json_escape(s.last())
    }
}

/// `s` as a JSON string literal.
pub open spec fn json_quoted(s: Seq<char>) -> Seq<char> {
    seq!['"'] + json_escaped(s) + seq!['"']
}

/// `serde_json::to_string` of a string.
///
/// The contract claims what serde_json's compact writer does with a string:
/// the characters between double quotes, each escaped as `json_escape` says.
/// It cannot fail on a string; the empty string stands in for the error.
#[verifier::external_body]
pub(crate) fn json_string(s: &str) -> (r: String)
    ensures
        r@ == json_quoted(s@),
{
    serde_json::to_string(s).unwrap_or_default()
}

/// What `serde_json::from_str::<String>` reads from a reply: `None` where it
/// is not a JSON string literal, else the string it stands for.
pub uninterp spec fn json_string_value(reply: Seq<char>) -> Option<Seq<char>>;

/// `serde_json::from_str::<String>`.
///
/// The contract claims that the result is a function of the text alone, named
/// `json_string_value`; JSON syntax and unescaping are not stated.
#[verifier::external_body]
pub(crate) fn parse_json_string(reply: &str) -> (r: Option<String>)
    ensures
        match r {
            Some(s) => json_string_value(reply@) == Some(s@),
            None => json_string_value(reply@) is None,
        },
{
    serde_json::from_str::<String>(reply).ok()
}

/// What `serde_json::from_str::<Option<(String, String)>>` reads from a
/// page-color reply: `None` where it is neither `null` nor a pair of strings,
/// `Some(None)` for `null`, else the host and the color.
pub uninterp spec fn json_host_color(reply: Seq<char>) -> Option<Option<(Seq<char>, Seq<char>)>>;

/// `serde_json::from_str::<Option<(String, String)>>`.
///
/// The contract claims that the result is a function of the text alone, named
/// `json_host_color`; JSON syntax and unescaping are not stated.
#[verifier::external_body]
pub(crate) fn parse_host_color(reply: &str) -> (r: Option<Option<(String, String)>>)
    ensures
        match r {
            Some(Some(p)) => json_host_color(reply@) == Some(Some((p.0@, p.1@))),
            Some(None) => json_host_color(reply@) == Some(None::<(Seq<char>, Seq<char>)>),
            None => json_host_color(reply@) is None,
        },
{
    serde_json::from_str::<Option<(String, String)>>(reply).ok()
}

/// The host and color a page-color sample reports, where the reply is a pair
/// of strings.
pub open spec fn spec_sampled_color(reply: Seq<char>) -> Option<(Seq<char>, Seq<char>)> {
    match json_host_color(reply) {
        Some(Some(p)) => Some(p),
        _ => None,
    }
}

/// The host and color that a page-color sample's reply reports; `None` where
/// the page had none yet or the reply is not what the sampling script returns.
pub fn sampled_color(reply: &str) -> (r: Option<(String, String)>)
    ensures
        match r {
            Some(p) => spec_sampled_color(reply@) == Some((p.0@, p.1@)),
            None => spec_sampled_color(reply@) is None,
        },
{
    match parse_host_color(reply) {
        Some(Some(p)) => Some(p),
        _ => None,
    }
}

/// Whether the reply to `document.contentType` says the page is a PDF.
pub fn is_pdf_reply(reply: &str) -> (b: bool)
    ensures
        b == (json_string_value(reply@) == Some("application/pdf"@)),
{
    proof {
        reveal_strlit("application/pdf");
    }
    match parse_json_string(reply) {
        Some(s) => {
            let v = chars_of(s.as_str());
            let p = chars_of("application/pdf");
            crate::text::same_chars(v.as_slice(), p.as_slice())
        },
        None => false,
    }
}

/// The script that moves a PDF page to the viewer. `location.replace` keeps
/// Back working: the PDF's own URL does not stay in the page history.
pub open spec fn spec_pdf_redirect(base: Seq<char>, file: Seq<char>) -> Seq<char> {
    "location.replace("@ + json_quoted(spec_viewer_url(base, file)) + ")"@
}

/// The script that moves the PDF at `file` to the viewer served from `base`.
pub fn pdf_redirect(base: &str, file: &str) -> (r: String)
    ensures
        r@ == spec_pdf_redirect(base@, file@),
{
    let target = viewer_url(base, file);
    let quoted = json_string(target.as_str());
    let mut out = String::from_str("location.replace(");
    out.append(quoted.as_str());
    out.append(")");
    out
}

} // verus!
