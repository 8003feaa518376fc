//! Chrome Web Store extensions: ids, the store's download link, CRX packages,
//! and what the extension list shows of an unpacked extension.
use vstd::prelude::*;

use crate::history::rearranges;
use crate::urls::opt_chars;
use crate::text::{
    ascii_alnum, chars_of, ends_with, is_ascii_alnum, lowercase, starts_with, string_of,
    strip_prefix, strip_suffix, to_lowercase,
};

verus! {

/// An installed extension as the extension list shows it.
pub struct Info {
    pub id: String,
    pub name: String,
    pub version: String,
}

/// The three texts of an `Info`.
pub open spec fn info_view(i: Info) -> (Seq<char>, Seq<char>, Seq<char>) {
    (i.id@, i.name@, i.version@)
}

// ---------------------------------------------------------------------------
// Extension ids

/// Letters an id is made of: `a` to `p`.
pub open spec fn is_id_char(c: char) -> bool {
    'a' <= c <= 'p'
}

/// An extension id starts at `i` in `s`: 32 letters `a`–`p` that form a whole
/// run of ASCII letters and digits (nothing alphanumeric touches either end).
pub open spec fn id_at(s: Seq<char>, i: int) -> bool {
    &&& 0 <= i
    &&& i + 32 <= s.len()
    &&& (i == 0 || !is_ascii_alnum(s[i - 1]))
    &&& (i + 32 == s.len() || !is_ascii_alnum(s[i + 32]))
    &&& forall|k: int| i <= k < i + 32 ==> is_id_char(#[trigger] s[k])
}

/// The id that `parse_id` finds in `s`: the first run that `id_at` accepts.
pub open spec fn found_id(s: Seq<char>, r: Option<Seq<char>>) -> bool {
    match r {
        Some(id) => exists|i: int|
            #![trigger s.subrange(i, i + 32)]
            id_at(s, i) && id == s.subrange(i, i + 32) && forall|j: int| 0 <= j < i ==> !id_at(s, j),
        None => forall|i: int| !id_at(s, i),
    }
}

/// `s` is itself an extension id: 32 letters `a`–`p`.
pub open spec fn is_id(s: Seq<char>) -> bool {
    s.len() == 32 && forall|k: int| 0 <= k < 32 ==> is_id_char(#[trigger] s[k])
}

/// Whatever `parse_id` finds is an id: 32 letters from `a` to `p`.
pub proof fn found_id_is_an_id(s: Seq<char>, r: Seq<char>)
    requires
        found_id(s, Some(r)),
    ensures
        is_id(r),
{
    let i = choose|i: int| #![trigger s.subrange(i, i + 32)]
        id_at(s, i) && r == s.subrange(i, i + 32) && forall|j: int| 0 <= j < i ==> !id_at(s, j);
    assert forall|k: int| 0 <= k < 32 implies is_id_char(#[trigger] r[k]) by {
        assert(r[k] == s[i + k]);
    }
}

/// A bare id is accepted as it is, and only an id is found as itself.
pub proof fn bare_id_is_found_as_itself(s: Seq<char>)
    ensures
        found_id(s, Some(s)) <==> is_id(s),
{
    if is_id(s) {
        assert(id_at(s, 0));
        assert(s.subrange(0, 32) =~= s);
    }
    if found_id(s, Some(s)) {
        found_id_is_an_id(s, s);
    }
}

fn id_starts_at(v: &[char], i: usize) -> (b: bool)
    requires
        i + 32 <= v@.len(),
    ensures
        b == id_at(v@, i as int),
{
    if i > 0 && ascii_alnum(v[i - 1]) {
        return false;
    }
    if i + 32 < v.len() && ascii_alnum(v[i + 32]) {
        return false;
    }
    let mut k: usize = i;
    while k < i + 32
        invariant
            i <= k <= i + 32,
            i + 32 <= v@.len(),
            v@.len() == v.len(),
            forall|m: int| i <= m < k ==> is_id_char(#[trigger] v@[m]),
        decreases i + 32 - k,
    {
        let c = v[k];
        if !('a' <= c && c <= 'p') {
            return false;
        }
        k = k + 1;
    }
    true
}

/// Accepts a Web Store link or a bare ID. IDs are 32 letters a–p.
///
/// The id is the first run of ASCII letters and digits that is exactly 32
/// letters long, all from `a` to `p`.
pub fn parse_id(input: &str) -> (r: Option<String>)
    ensures
        found_id(input@, match r { Some(s) => Some(s@), None => None }),
{
    let v = chars_of(input);
    if v.len() < 32 {
        return None;
    }
    let last = v.len() - 32;
    let mut i: usize = 0;
    while i <= last
        invariant
            last + 32 == v@.len(),
            v@.len() == v.len(),
            v@ == input@,
            i <= last + 1,
            forall|j: int| 0 <= j < i ==> !id_at(v@, j),
        decreases last + 1 - i,
    {
        if id_starts_at(v.as_slice(), i) {
            let piece = vstd::slice::slice_subrange(v.as_slice(), i, i + 32);
            let id = string_of(piece);
            assert(id_at(input@, i as int) && id@ == input@.subrange(i as int, i + 32));
            return Some(id);
        }
        i = i + 1;
    }
    proof {
        assert forall|j: int| !id_at(input@, j) by {
            if id_at(input@, j) {
                assert(j <= last);
            }
        }
    }
    None
}

/// Whether `id` is exactly an extension id, as `parse_id(id) == Some(id)` tests it.
pub fn is_exact_id(id: &str) -> (b: bool)
    ensures
        b == is_id(id@),
{
    let v = chars_of(id);
    if v.len() != 32 {
        proof {
            if is_id(id@) {
                assert(false);
            }
        }
        return false;
    }
    let b = id_starts_at(v.as_slice(), 0);
    proof {
        if is_id(id@) {
            assert(id_at(id@, 0));
        }
        if b {
            assert forall|k: int| 0 <= k < 32 implies is_id_char(#[trigger] id@[k]) by {}
        }
    }
    b
}

/// The check that removing an extension starts with: `id` must be an id.
pub fn validate_id(id: &str) -> (r: Result<(), String>)
    ensures
        r is Ok <==> is_id(id@),
        r matches Err(e) ==> e@ == "bad id"@,
{
    if is_exact_id(id) {
        Ok(())
    } else {
        Err(String::from_str("bad id"))
    }
}

// ---------------------------------------------------------------------------
// The Web Store download link

/// The part of the download link before the id.
pub open spec fn crx_url_head() -> Seq<char> {
    "https://clients2.google.com/service/update2/crx?response=redirect&prodversion=140.0&acceptformat=crx2,crx3&x=id%3D"@
}

/// The part of the download link after the id.
pub open spec fn crx_url_tail() -> Seq<char> {
    "%26installsource%3Dondemand%26uc"@
}

/// Where the Web Store serves the CRX package of the extension `id`.
pub fn crx_url(id: &str) -> (url: String)
    ensures
        url@ == crx_url_head() + id@ + crx_url_tail(),
{
    let mut url = String::from_str(
        "https://clients2.google.com/service/update2/crx?response=redirect&prodversion=140.0&acceptformat=crx2,crx3&x=id%3D",
    );
    url.append(id);
    url.append("%26installsource%3Dondemand%26uc");
    url
}

// ---------------------------------------------------------------------------
// CRX packages: a small signed header in front of a regular ZIP.

/// The little-endian number in the four bytes of `d` from `i`.
pub open spec fn le_u32(d: Seq<u8>, i: int) -> int {
    d[i] + 256 * d[i + 1] + 65536 * d[i + 2] + 16777216 * d[i + 3]
}

/// The four bytes that encode `n < 2^32` in little-endian order.
pub open spec fn le_bytes(n: nat) -> Seq<u8> {
    seq![(n % 256) as u8, ((n / 256) % 256) as u8, ((n / 65536) % 256) as u8, ((n / 16777216) % 256) as u8]
}

/// The magic number of a CRX file: `Cr24`.
pub open spec fn crx_magic() -> Seq<u8> {
    seq![0x43u8, 0x72u8, 0x32u8, 0x34u8]
}

/// The signature of a ZIP local file header: `PK\x03\x04`.
pub open spec fn zip_magic() -> Seq<u8> {
    seq![0x50u8, 0x4bu8, 0x03u8, 0x04u8]
}

/// Where the ZIP inside `d` starts, as far as the header tells.
pub open spec fn crx_payload_start(d: Seq<u8>) -> Option<int> {
    if d.len() < 4 {
        None
    } else if d.take(4) != crx_magic() {
        if d.take(4) == zip_magic() { Some(0) } else { None }
    } else if d.len() < 8 {
        None
    } else if le_u32(d, 4) == 3 {
        if d.len() < 12 { None } else { Some(12 + le_u32(d, 8)) }
    } else if le_u32(d, 4) == 2 {
        if d.len() < 16 { None } else { Some(16 + le_u32(d, 8) + le_u32(d, 12)) }
    } else {
        None
    }
}

/// The ZIP inside a CRX2 or CRX3 file, or a bare ZIP itself.
pub open spec fn crx_zip(d: Seq<u8>) -> Option<Seq<u8>> {
    match crx_payload_start(d) {
        Some(s) => if s <= d.len() { Some(d.skip(s)) } else { None },
        None => None,
    }
}

fn u32_at(data: &[u8], i: usize) -> (r: u64)
    requires
        i + 4 <= data@.len(),
    ensures
        r == le_u32(data@, i as int),
{
    data[i] as u64 + 256 * (data[i + 1] as u64) + 65536 * (data[i + 2] as u64) + 16777216 * (data[i + 3] as u64)
}

fn has_magic(data: &[u8], m0: u8, m1: u8, m2: u8, m3: u8) -> (b: bool)
    requires
        4 <= data@.len(),
    ensures
        b == (data@.take(4) == seq![m0, m1, m2, m3]),
{
    let b = data[0] == m0 && data[1] == m1 && data[2] == m2 && data[3] == m3;
    proof {
        if b {
            assert(data@.take(4) =~= seq![m0, m1, m2, m3]);
        } else {
            if data@.take(4) == seq![m0, m1, m2, m3] {
                assert(data@.take(4)[0] == m0);
                assert(data@.take(4)[1] == m1);
                assert(data@.take(4)[2] == m2);
                assert(data@.take(4)[3] == m3);
            }
        }
    }
    b
}

/// CRX2/CRX3 = a small signed header in front of a regular ZIP; this finds the ZIP.
/// A file that is already a ZIP is its own payload.
pub fn crx_payload(data: &[u8]) -> (r: Option<&[u8]>)
    ensures
        match (r, crx_zip(data@)) {
            (Some(p), Some(z)) => p@ == z,
            (None, None) => true,
            _ => false,
        },
{
    if data.len() < 4 {
        return None;
    }
    if !has_magic(data, 0x43, 0x72, 0x32, 0x34) {
        if has_magic(data, 0x50, 0x4b, 0x03, 0x04) {
            assert(data@.skip(0) =~= data@);
            return Some(data);
        }
        return None;
    }
    if data.len() < 8 {
        return None;
    }
    let version = u32_at(data, 4);
    let start: u64 = if version == 3 {
        if data.len() < 12 {
            return None;
        }
        12 + u32_at(data, 8)
    } else if version == 2 {
        if data.len() < 16 {
            return None;
        }
        16 + u32_at(data, 8) + u32_at(data, 12)
    } else {
        return None;
    };
    if start <= data.len() as u64 {
        Some(vstd::slice::slice_subrange(data, start as usize, data.len()))
    } else {
        None
    }
}

/// A CRX3 file is its magic, version 3, the header's length, the header, then
/// the ZIP; `crx_payload` gives back exactly that ZIP.
pub proof fn crx3_payload_is_the_zip(header: Seq<u8>, zip: Seq<u8>)
    requires
        header.len() < 0x1_0000_0000,
    ensures
        crx_zip(crx_magic() + le_bytes(3) + le_bytes(header.len()) + header + zip) == Some(zip),
{
    let d = crx_magic() + le_bytes(3) + le_bytes(header.len()) + header + zip;
    lemma_le_bytes(3);
    lemma_le_bytes(header.len());
    assert(d.take(4) =~= crx_magic());
    assert(le_u32(d, 4) == le_u32(le_bytes(3), 0));
    assert(le_u32(d, 8) == le_u32(le_bytes(header.len()), 0));
    assert(d.skip(12 + header.len() as int) =~= zip);
}

/// A CRX2 file is its magic, version 2, the lengths of the key and of the
/// signature, those two, then the ZIP; `crx_payload` gives back exactly that ZIP.
pub proof fn crx2_payload_is_the_zip(key: Seq<u8>, sig: Seq<u8>, zip: Seq<u8>)
    requires
        key.len() < 0x1_0000_0000,
        sig.len() < 0x1_0000_0000,
    ensures
        crx_zip(crx_magic() + le_bytes(2) + le_bytes(key.len()) + le_bytes(sig.len()) + key + sig + zip) == Some(zip),
{
    let d = crx_magic() + le_bytes(2) + le_bytes(key.len()) + le_bytes(sig.len()) + key + sig + zip;
    lemma_le_bytes(2);
    lemma_le_bytes(key.len());
    lemma_le_bytes(sig.len());
    assert(d.take(4) =~= crx_magic());
    assert(le_u32(d, 4) == le_u32(le_bytes(2), 0));
    assert(le_u32(d, 8) == le_u32(le_bytes(key.len()), 0));
    assert(le_u32(d, 12) == le_u32(le_bytes(sig.len()), 0));
    assert(d.skip(16 + key.len() + sig.len() as int) =~= zip);
}

/// A plain ZIP archive needs no unwrapping: `crx_payload` gives it back whole.
pub proof fn zip_is_its_own_payload(zip: Seq<u8>)
    requires
        zip.len() >= 4,
        zip.take(4) == zip_magic(),
    ensures
        crx_zip(zip) == Some(zip),
{
    assert(zip_magic() != crx_magic()) by {
        assert(zip_magic()[0] != crx_magic()[0]);
    }
    assert(zip.skip(0) =~= zip);
}

proof fn lemma_le_bytes(n: nat)
    requires
        n < 0x1_0000_0000,
    ensures
        le_bytes(n).len() == 4,
        le_u32(le_bytes(n), 0) == n,
{
    let b = le_bytes(n);
    assert(b[0] == n % 256);
    assert(b[1] == (n / 256) % 256);
    assert(b[2] == (n / 65536) % 256);
    assert(b[3] == (n / 16777216) % 256);
    assert((n % 256) + 256 * ((n / 256) % 256) + 65536 * ((n / 65536) % 256) + 16777216 * ((n / 16777216) % 256) == n)
        by (nonlinear_arith)
        requires
            n < 0x1_0000_0000,
    {
        assert(n / 16777216 < 256);
        assert((n / 16777216) % 256 == n / 16777216);
        assert(n == 256 * (n / 256) + n % 256);
        assert(n / 256 == 256 * (n / 65536) + (n / 256) % 256);
        assert(n / 65536 == 256 * (n / 16777216) + (n / 65536) % 256);
    }
}


// ---------------------------------------------------------------------------
// manifest file and the localized name

/// What the extension list reads from an extension's manifest file: the
/// string values of `name`, `version` and `default_locale`, where they are strings.
pub struct Manifest {
    pub name: Option<String>,
    pub version: Option<String>,
    pub default_locale: Option<String>,
}

/// The three optional texts of a `Manifest`.
pub open spec fn manifest_view(m: Manifest) -> (Option<Seq<char>>, Option<Seq<char>>, Option<Seq<char>>) {
    (opt_chars(m.name), opt_chars(m.version), opt_chars(m.default_locale))
}

/// What `serde_json` reads from the bytes of a manifest: `None` where they are
/// not JSON, else the string values of `name`, `version` and `default_locale`.
pub uninterp spec fn manifest_fields(bytes: Seq<u8>) -> Option<(Option<Seq<char>>, Option<Seq<char>>, Option<Seq<char>>)>;

/// Parses manifest file with `serde_json::from_slice` into a `serde_json::Value`
/// and keeps the string values of its `name`, `version` and `default_locale`.
///
/// The contract claims that the result is a function of the bytes alone,
/// named `manifest_fields`; JSON syntax itself is not stated.
#[verifier::external_body]
pub(crate) fn parse_manifest(bytes: &[u8]) -> (m: Option<Manifest>)
    ensures
        match m {
            Some(m) => manifest_fields(bytes@) == Some(manifest_view(m)),
            None => manifest_fields(bytes@) is None,
        },
{
    let v: serde_json::Value = serde_json::from_slice(bytes).ok()?;
    Some(Manifest {
        name: v["name"].as_str().map(str::to_string),
        version: v["version"].as_str().map(str::to_string),
        default_locale: v["default_locale"].as_str().map(str::to_string),
    })
}

/// One entry of a `_locales/<locale>/messages.json` file: its key and, where it
/// is a string, the `message` of its value.
pub struct Message {
    pub key: String,
    pub text: Option<String>,
}

/// The key and text of a `Message`.
pub open spec fn message_view(m: Message) -> (Seq<char>, Option<Seq<char>>) {
    (m.key@, opt_chars(m.text))
}

/// What `serde_json` reads from a messages file: `None` unless it is a JSON
/// object, else its entries in the order the object's map walks them.
pub uninterp spec fn message_entries(bytes: Seq<u8>) -> Option<Seq<(Seq<char>, Option<Seq<char>>)>>;

/// Parses a messages file with `serde_json::from_slice` into a
/// `serde_json::Map<String, Value>` and keeps, for each entry, its key and the
/// string value of its `message`.
///
/// The contract claims that the result is a function of the bytes alone,
/// named `message_entries`; neither JSON syntax nor the map's order is stated.
#[verifier::external_body]
pub(crate) fn parse_messages(bytes: &[u8]) -> (r: Option<Vec<Message>>)
    ensures
        match r {
            Some(v) => message_entries(bytes@) == Some(v@.map_values(|m: Message| message_view(m))),
            None => message_entries(bytes@) is None,
        },
{
    let map: serde_json::Map<String, serde_json::Value> = serde_json::from_slice(bytes).ok()?;
    Some(map.iter().map(|(k, v)| Message { key: k.clone(), text: v["message"].as_str().map(str::to_string) }).collect())
}

/// The message key that a manifest value `__MSG_<key>__` refers to, lowercased.
pub open spec fn spec_message_key(value: Seq<char>) -> Option<Seq<char>> {
    if starts_with(value, "__MSG_"@) && ends_with(value.skip(6), "__"@) {
        Some(lowercase(value.skip(6).take(value.len() - 8)))
    } else {
        None
    }
}

/// "__MSG_appName__" -> "appname": the key to look up in the locale's messages.
pub fn message_key(value: &str) -> (r: Option<String>)
    ensures
        opt_chars(r) == spec_message_key(value@),
{
    proof {
        reveal_strlit("__MSG_");
        reveal_strlit("__");
    }
    let v = chars_of(value);
    let p = chars_of("__MSG_");
    let rest = match strip_prefix(v.as_slice(), p.as_slice()) {
        Some(rest) => rest,
        None => return None,
    };
    let q = chars_of("__");
    let inner = match strip_suffix(rest.as_slice(), q.as_slice()) {
        Some(inner) => inner,
        None => return None,
    };
    let s = string_of(inner.as_slice());
    let key = to_lowercase(s.as_str());
    assert(inner@ =~= value@.skip(6).take(value@.len() - 8));
    Some(key)
}

/// The locale whose messages name the extension: `default_locale`, else `en`.
pub fn locale_of(m: &Manifest) -> (r: String)
    ensures
        r@ == match opt_chars(m.default_locale) {
            Some(l) => l,
            None => "en"@,
        },
{
    match &m.default_locale {
        Some(l) => l.clone(),
        None => String::from_str("en"),
    }
}

/// The text of the first message whose lowercased key is `key`, if it has one.
pub open spec fn spec_find_message(msgs: Seq<(Seq<char>, Option<Seq<char>>)>, key: Seq<char>) -> Option<Seq<char>>
    decreases msgs.len(),
{
    if msgs.len() == 0 {
        None
    } else if lowercase(msgs[0].0) == key {
        msgs[0].1
    } else {
        spec_find_message(msgs.drop_first(), key)
    }
}

proof fn lemma_find_message_step(msgs: Seq<(Seq<char>, Option<Seq<char>>)>, key: Seq<char>, i: int)
    requires
        0 <= i <= msgs.len(),
        forall|k: int| 0 <= k < i ==> lowercase(#[trigger] msgs[k].0) != key,
    ensures
        spec_find_message(msgs, key) == spec_find_message(msgs.skip(i), key),
    decreases i,
{
    if i > 0 {
        assert(lowercase(msgs[0].0) != key);
        let t = msgs.drop_first();
        assert forall|k: int| 0 <= k < i - 1 implies lowercase(#[trigger] t[k].0) != key by {
            assert(t[k] == msgs[k + 1]);
        }
        lemma_find_message_step(t, key, i - 1);
        assert(t.skip(i - 1) =~= msgs.skip(i));
    } else {
        assert(msgs.skip(0) =~= msgs);
    }
}

/// Looks up a message by key, case-insensitively, as the first match in `msgs`.
pub fn find_message(msgs: &Vec<Message>, key: &str) -> (r: Option<String>)
    ensures
        opt_chars(r) == spec_find_message(msgs@.map_values(|m: Message| message_view(m)), key@),
{
    let ghost mv = msgs@.map_values(|m: Message| message_view(m));
    let kv = chars_of(key);
    let mut i: usize = 0;
    while i < msgs.len()
        invariant
            i <= msgs@.len(),
            mv == msgs@.map_values(|m: Message| message_view(m)),
            kv@ == key@,
            forall|k: int| 0 <= k < i ==> lowercase(#[trigger] mv[k].0) != key@,
        decreases msgs@.len() - i,
    {
        let m = &msgs[i];
        let low = to_lowercase(m.key.as_str());
        let lv = chars_of(low.as_str());
        if crate::text::same_chars(lv.as_slice(), kv.as_slice()) {
            proof {
                lemma_find_message_step(mv, key@, i as int);
                assert(mv.skip(i as int)[0] == mv[i as int]);
            }
            return m.text.clone();
        }
        assert(lowercase(mv[i as int].0) != key@);
        i = i + 1;
    }
    proof {
        lemma_find_message_step(mv, key@, mv.len() as int);
        assert(mv.skip(mv.len() as int).len() == 0);
    }
    None
}

/// What the extension list shows for the folder `id`, given its manifest and
/// the messages of the manifest's locale (where that file could be read).
pub open spec fn spec_info(
    id: Seq<char>,
    manifest: Option<(Option<Seq<char>>, Option<Seq<char>>, Option<Seq<char>>)>,
    messages: Option<Seq<(Seq<char>, Option<Seq<char>>)>>,
) -> Option<(Seq<char>, Seq<char>, Seq<char>)> {
    if !is_id(id) {
        None
    } else {
        match manifest {
            None => None,
            Some(m) => {
                let raw = match m.0 { Some(n) => n, None => id };
                let localized = match (spec_message_key(raw), messages) {
                    (Some(key), Some(msgs)) => spec_find_message(msgs, key),
                    _ => None,
                };
                let name = match localized { Some(n) => n, None => raw };
                let version = match m.1 { Some(v) => v, None => Seq::empty() };
                Some((id, name, version))
            },
        }
    }
}

/// The `Info` of an unpacked extension in the folder named `id`: `None` unless
/// the folder's name is an id and its manifest could be read. A name of the
/// form `__MSG_<key>__` is looked up in `messages`, the parsed
/// `_locales/<locale_of(manifest)>/messages.json`; where that fails the raw
/// name stays. A manifest without a name shows the id.
pub fn info_from(id: &str, manifest: Option<Manifest>, messages: Option<Vec<Message>>) -> (r: Option<Info>)
    ensures
        match r {
            Some(i) => spec_info(
                id@,
                match manifest { Some(m) => Some(manifest_view(m)), None => None },
                match messages { Some(v) => Some(v@.map_values(|m: Message| message_view(m))), None => None },
            ) == Some(info_view(i)),
            None => spec_info(
                id@,
                match manifest { Some(m) => Some(manifest_view(m)), None => None },
                match messages { Some(v) => Some(v@.map_values(|m: Message| message_view(m))), None => None },
            ) is None,
        },
{
    if !is_exact_id(id) {
        return None;
    }
    let m = match manifest {
        Some(m) => m,
        None => return None,
    };
    let raw = match &m.name {
        Some(n) => n.clone(),
        None => String::from_str(id),
    };
    let localized = match message_key(raw.as_str()) {
        Some(key) => match &messages {
            Some(msgs) => find_message(msgs, key.as_str()),
            None => None,
        },
        None => None,
    };
    let name = match localized {
        Some(n) => n,
        None => raw,
    };
    let version = match &m.version {
        Some(v) => v.clone(),
        None => String::new(),
    };
    Some(Info { id: String::from_str(id), name, version })
}


/// The locale whose messages file names the extension: only where the
/// manifest could be read and its name is a message key `__MSG_<key>__`.
pub open spec fn spec_messages_locale(
    manifest: Option<(Option<Seq<char>>, Option<Seq<char>>, Option<Seq<char>>)>,
) -> Option<Seq<char>> {
    match manifest {
        Some(m) => match m.0 {
            Some(name) => if spec_message_key(name) is Some {
                Some(match m.2 { Some(l) => l, None => "en"@ })
            } else {
                None
            },
            None => None,
        },
        None => None,
    }
}

/// Which `_locales/<locale>/messages.json` to read for an extension whose
/// manifest file holds `manifest`; `None` where none is needed or the
/// manifest cannot be read.
pub fn messages_locale(manifest: &[u8]) -> (r: Option<String>)
    ensures
        opt_chars(r) == spec_messages_locale(manifest_fields(manifest@)),
{
    proof {
        reveal_strlit("en");
    }
    let m = match parse_manifest(manifest) {
        Some(m) => m,
        None => return None,
    };
    let key = match &m.name {
        Some(n) => message_key(n.as_str()),
        None => None,
    };
    if key.is_none() {
        return None;
    }
    Some(locale_of(&m))
}

/// The messages a messages file holds, by view; `None` where it was not read.
pub open spec fn read_messages(messages: Option<Seq<u8>>) -> Option<Seq<(Seq<char>, Option<Seq<char>>)>> {
    match messages {
        Some(b) => message_entries(b),
        None => None,
    }
}

/// The `Info` of the unpacked extension in the folder named `id`, from the
/// bytes of its manifest file and, where it could be read, of the messages
/// file that `messages_locale` names.
pub fn read_info(id: &str, manifest: &[u8], messages: Option<&[u8]>) -> (r: Option<Info>)
    ensures
        match r {
            Some(i) => spec_info(
                id@,
                manifest_fields(manifest@),
                read_messages(match messages { Some(b) => Some(b@), None => None }),
            ) == Some(info_view(i)),
            None => spec_info(
                id@,
                manifest_fields(manifest@),
                read_messages(match messages { Some(b) => Some(b@), None => None }),
            ) is None,
        },
{
    let m = parse_manifest(manifest);
    let msgs = match messages {
        Some(b) => parse_messages(b),
        None => None,
    };
    info_from(id, m, msgs)
}


// ---------------------------------------------------------------------------
// The order of the extension list

/// Lexicographic order of character sequences, by code point: the order of
/// `String`s, whose UTF-8 bytes compare the same way.
pub open spec fn lex_le(a: Seq<char>, b: Seq<char>) -> bool
    decreases a.len(),
{
    if a.len() == 0 {
        true
    } else if b.len() == 0 {
        false
    } else if a[0] != b[0] {
        a[0] < b[0]
    } else {
        lex_le(a.drop_first(), b.drop_first())
    }
}

/// The key the list is ordered by: the lowercased name.
pub open spec fn name_key(i: Info) -> Seq<char> {
    lowercase(i.name@)
}

/// Every extension's key is at most that of every one after it.
pub open spec fn sorted_by_name(s: Seq<Info>) -> bool {
    forall|i: int, j: int| 0 <= i < j < s.len() ==> lex_le(name_key(#[trigger] s[i]), name_key(#[trigger] s[j]))
}

/// Any two sequences compare one way or the other.
pub proof fn lex_le_total(a: Seq<char>, b: Seq<char>)
    ensures
        lex_le(a, b) || lex_le(b, a),
    decreases a.len(),
{
    if a.len() > 0 && b.len() > 0 && a[0] == b[0] {
        lex_le_total(a.drop_first(), b.drop_first());
    }
}

/// The order is transitive.
pub proof fn lex_le_transitive(a: Seq<char>, b: Seq<char>, c: Seq<char>)
    requires
        lex_le(a, b),
        lex_le(b, c),
    ensures
        lex_le(a, c),
    decreases a.len(),
{
    if a.len() > 0 && b.len() > 0 && c.len() > 0 && a[0] == b[0] && b[0] == c[0] {
        lex_le_transitive(a.drop_first(), b.drop_first(), c.drop_first());
    }
}

proof fn lemma_lex_le_skip(a: Seq<char>, b: Seq<char>, i: int)
    requires
        0 <= i <= a.len(),
        i <= b.len(),
        forall|k: int| 0 <= k < i ==> a[k] == b[k],
    ensures
        lex_le(a, b) == lex_le(a.skip(i), b.skip(i)),
    decreases i,
{
    if i == 0 {
        assert(a.skip(0) =~= a);
        assert(b.skip(0) =~= b);
    } else {
        assert(a[0] == b[0]);
        let (a1, b1) = (a.drop_first(), b.drop_first());
        assert forall|k: int| 0 <= k < i - 1 implies a1[k] == b1[k] by {
            assert(a1[k] == a[k + 1] && b1[k] == b[k + 1]);
        }
        lemma_lex_le_skip(a1, b1, i - 1);
        assert(a1.skip(i - 1) =~= a.skip(i));
        assert(b1.skip(i - 1) =~= b.skip(i));
    }
}

fn lex_le_chars(a: &[char], b: &[char]) -> (r: bool)
    ensures
        r == lex_le(a@, b@),
{
    let mut i: usize = 0;
    while i < a.len() && i < b.len() && a[i] == b[i]
        invariant
            i <= a@.len(),
            i <= b@.len(),
            forall|k: int| 0 <= k < i ==> a@[k] == b@[k],
        decreases a@.len() - i,
    {
        i = i + 1;
    }
    proof {
        lemma_lex_le_skip(a@, b@, i as int);
        if i < a@.len() && i < b@.len() {
            assert(a@.skip(i as int)[0] == a@[i as int]);
            assert(b@.skip(i as int)[0] == b@[i as int]);
        }
    }
    if i == a.len() {
        true
    } else if i == b.len() {
        false
    } else {
        a[i] < b[i]
    }
}

/// `r` is `v` sorted by name, stably: extensions whose keys are equal keep
/// their order.
pub open spec fn stable_by_name(r: Seq<Info>, v: Seq<Info>) -> bool {
    &&& sorted_by_name(r)
    &&& exists|perm: Seq<int>| #[trigger] rearranges(r, v, perm) && forall|a: int, b: int|
        0 <= a < b < r.len() && name_key(r[a]) == name_key(r[b]) ==> #[trigger] perm[a] < #[trigger] perm[b]
}

/// The extension list's order: by lowercased name, as `list` sorts it.
pub fn sort_by_name(infos: Vec<Info>) -> (r: Vec<Info>)
    ensures
        r@.to_multiset() == infos@.to_multiset(),
        sorted_by_name(r@),
        stable_by_name(r@, infos@),
{
    broadcast use vstd::seq_lib::group_to_multiset_ensures;

    let ghost orig = infos@;
    let mut rest = infos;
    let mut out: Vec<Info> = Vec::new();
    let mut keys: Vec<Vec<char>> = Vec::new();
    let ghost mut done: int = 0;
    let ghost mut perm: Seq<int> = Seq::empty();
    while rest.len() > 0
        invariant
            0 <= done <= orig.len(),
            rest@ == orig.skip(done),
            out@.to_multiset() == orig.take(done).to_multiset(),
            keys@.len() == out@.len(),
            forall|k: int| 0 <= k < keys@.len() ==> (#[trigger] keys@[k])@ == name_key(out@[k]),
            sorted_by_name(out@),
            out@.len() == done,
            perm.len() == done,
            forall|k: int| 0 <= k < out@.len() ==> 0 <= #[trigger] perm[k] < done && out@[k] == orig[perm[k]],
            forall|a: int, b: int| 0 <= a < b < out@.len() ==> #[trigger] perm[a] != #[trigger] perm[b],
            forall|a: int, b: int|
                0 <= a < b < out@.len() && name_key(out@[a]) == name_key(out@[b]) ==> #[trigger] perm[a]
                    < #[trigger] perm[b],
        decreases rest@.len(),
    {
        let ghost old_rest = rest@;
        let x = rest.remove(0);
        assert(x == old_rest[0]);
        let lx = to_lowercase(x.name.as_str());
        let kx = chars_of(lx.as_str());
        let mut p: usize = 0;
        while p < out.len() && lex_le_chars(keys[p].as_slice(), kx.as_slice())
            invariant
                p <= out@.len(),
                keys@.len() == out@.len(),
                forall|k: int| 0 <= k < keys@.len() ==> (#[trigger] keys@[k])@ == name_key(out@[k]),
                forall|q: int| 0 <= q < p ==> lex_le(name_key(#[trigger] out@[q]), kx@),
            decreases out@.len() - p,
        {
            p = p + 1;
        }
        proof {
            assert(kx@ == name_key(x));
            if p < out@.len() {
                lex_le_total(name_key(out@[p as int]), kx@);
                assert forall|q: int| p <= q < out@.len() implies lex_le(kx@, name_key(#[trigger] out@[q])) by {
                    if q > p {
                        lex_le_transitive(kx@, name_key(out@[p as int]), name_key(out@[q]));
                    }
                }
            }
        }
        let ghost old_out = out@;
        let ghost old_perm = perm;
        out.insert(p, x);
        keys.insert(p, kx);
        proof {
            perm = old_perm.insert(p as int, done);
            assert(out@ == old_out.insert(p as int, x));
            assert(x == orig[done]);
            assert forall|k: int| 0 <= k < out@.len() implies 0 <= #[trigger] perm[k] < done + 1 && out@[k]
                == orig[perm[k]] by {
                if k < p {
                    assert(out@[k] == old_out[k] && perm[k] == old_perm[k]);
                } else if k == p {
                } else {
                    assert(out@[k] == old_out[k - 1] && perm[k] == old_perm[k - 1]);
                }
            }
            assert forall|a: int, b: int| 0 <= a < b < out@.len() implies #[trigger] perm[a] != #[trigger] perm[b] by {
                if b < p {
                    assert(perm[a] == old_perm[a] && perm[b] == old_perm[b]);
                } else if b == p {
                    assert(perm[a] == old_perm[a]);
                } else if a == p {
                    assert(perm[b] == old_perm[b - 1]);
                } else if a < p {
                    assert(perm[a] == old_perm[a] && perm[b] == old_perm[b - 1]);
                } else {
                    assert(perm[a] == old_perm[a - 1] && perm[b] == old_perm[b - 1]);
                }
            }
            assert forall|a: int, b: int|
                0 <= a < b < out@.len() && name_key(out@[a]) == name_key(out@[b]) implies #[trigger] perm[a]
                < #[trigger] perm[b] by {
                if b < p {
                    assert(perm[a] == old_perm[a] && perm[b] == old_perm[b]);
                    assert(out@[a] == old_out[a] && out@[b] == old_out[b]);
                } else if b == p {
                    assert(perm[a] == old_perm[a]);
                } else if a == p {
                    assert(out@[b] == old_out[b - 1]);
                    assert(!lex_le(name_key(old_out[p as int]), kx@));
                    if b - 1 > p {
                        assert(lex_le(name_key(old_out[p as int]), name_key(old_out[b - 1])));
                    }
                } else if a < p {
                    assert(perm[a] == old_perm[a] && perm[b] == old_perm[b - 1]);
                    assert(out@[a] == old_out[a] && out@[b] == old_out[b - 1]);
                } else {
                    assert(perm[a] == old_perm[a - 1] && perm[b] == old_perm[b - 1]);
                    assert(out@[a] == old_out[a - 1] && out@[b] == old_out[b - 1]);
                }
            }
            assert forall|i: int, j: int| 0 <= i < j < out@.len() implies lex_le(
                name_key(#[trigger] out@[i]),
                name_key(#[trigger] out@[j]),
            ) by {
                if j < p {
                    assert(out@[i] == old_out[i] && out@[j] == old_out[j]);
                } else if j == p {
                    assert(out@[i] == old_out[i]);
                } else if i == p {
                    assert(out@[j] == old_out[j - 1]);
                } else if i < p {
                    assert(out@[i] == old_out[i] && out@[j] == old_out[j - 1]);
                } else {
                    assert(out@[i] == old_out[i - 1] && out@[j] == old_out[j - 1]);
                }
            }
            assert forall|k: int| 0 <= k < keys@.len() implies (#[trigger] keys@[k])@ == name_key(out@[k]) by {
                if k < p {
                } else if k == p {
                } else {
                    assert(out@[k] == old_out[k - 1]);
                }
            }
            assert(x == orig[done]);
            assert(orig.take(done + 1) =~= orig.take(done).push(x));
            vstd::seq_lib::to_multiset_insert(old_out, p as int, x);
            vstd::seq_lib::to_multiset_build(orig.take(done), x);
            assert(orig.skip(done + 1) =~= orig.skip(done).drop_first());
            done = done + 1;
        }
    }
    proof {
        assert(orig.take(done) =~= orig);
        assert(rearranges(out@, orig, perm));
    }
    out
}
} // verus!
