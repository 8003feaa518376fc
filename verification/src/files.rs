//! Files the browser writes and reads: names for saved PDFs, checking that
//! fetched bytes are a PDF, and the labels of tab webviews.
use vstd::prelude::*;

use crate::text::{chars_of, decimal, digit, push_decimal, push_str, string_of, trim, trim_chars};
use crate::urls::{form_first_pair, form_pair};
use vstd::utf8::encode_utf8;

verus! {

/// The label of the webview of tab `id`.
pub open spec fn spec_label(id: u32) -> Seq<char> {
    "tab-"@ + decimal(id as nat)
}

/// The label of the webview of tab `id`: `tab-<id>`.
pub fn label(id: u32) -> (r: String)
    ensures
        r@ == spec_label(id),
{
    let mut v = chars_of("tab-");
    push_decimal(&mut v, id);
    string_of(v.as_slice())
}

/// The bytes `%PDF`.
pub open spec fn pdf_magic() -> Seq<u8> {
    seq![0x25u8, 0x50u8, 0x44u8, 0x46u8]
}

/// The bytes `%PDF-` at `i`.
pub open spec fn pdf_header_at(b: Seq<u8>, i: int) -> bool {
    0 <= i && i + 5 <= b.len() && b.subrange(i, i + 5) == pdf_magic().push(0x2du8)
}

/// Bytes that are a PDF: they start with `%PDF`, or `%PDF-` starts within
/// the first 1024 positions (some servers put junk first).
pub open spec fn spec_looks_like_pdf(b: Seq<u8>) -> bool {
    (b.len() >= 4 && b.take(4) == pdf_magic()) || exists|i: int| 0 <= i < 1024 && #[trigger] pdf_header_at(b, i)
}

/// Whether fetched bytes are a PDF worth showing in the viewer.
pub fn looks_like_pdf(b: &[u8]) -> (r: bool)
    ensures
        r == spec_looks_like_pdf(b@),
{
    if b.len() >= 4 && b[0] == 0x25 && b[1] == 0x50 && b[2] == 0x44 && b[3] == 0x46 {
        assert(b@.take(4) =~= pdf_magic());
        return true;
    }
    proof {
        if b@.len() >= 4 && b@.take(4) == pdf_magic() {
            assert(b@.take(4)[0] == b@[0]);
            assert(b@.take(4)[1] == b@[1]);
            assert(b@.take(4)[2] == b@[2]);
            assert(b@.take(4)[3] == b@[3]);
        }
    }
    let mut i: usize = 0;
    while i < 1024 && i + 5 <= b.len()
        invariant
            i <= 1024,
            b@.len() == b.len(),
            forall|j: int| 0 <= j < i ==> !#[trigger] pdf_header_at(b@, j),
        decreases 1024 - i,
    {
        if b[i] == 0x25 && b[i + 1] == 0x50 && b[i + 2] == 0x44 && b[i + 3] == 0x46 && b[i + 4] == 0x2d {
            assert(b@.subrange(i as int, i + 5) =~= pdf_magic().push(0x2du8));
            assert(pdf_header_at(b@, i as int));
            return true;
        }
        proof {
            if pdf_header_at(b@, i as int) {
                let w = b@.subrange(i as int, i + 5);
                assert(w[0] == b@[i as int] && w[1] == b@[i + 1] && w[2] == b@[i + 2]);
                assert(w[3] == b@[i + 3] && w[4] == b@[i + 4]);
            }
        }
        i = i + 1;
    }
    proof {
        assert forall|j: int| 0 <= j < 1024 implies !#[trigger] pdf_header_at(b@, j) by {
            if j >= i {
                assert(i == 1024 || i + 5 > b@.len());
            }
        }
    }
    false
}

/// The position of the last `.` in `s`, if it has one.
pub open spec fn last_dot(s: Seq<char>) -> Option<int> {
    if exists|i: int| 0 <= i < s.len() && s[i] == '.' {
        Some(choose|i: int| 0 <= i < s.len() && s[i] == '.' && forall|j: int| i < j < s.len() ==> s[j] != '.')
    } else {
        None
    }
}

/// A file name's stem and extension: split at the last dot, unless that
/// leaves no stem (`.bashrc` has no extension).
pub open spec fn stem_ext(name: Seq<char>) -> (Seq<char>, Seq<char>) {
    match last_dot(name) {
        Some(i) => if i > 0 {
            (name.take(i), name.skip(i))
        } else {
            (name, Seq::empty())
        },
        None => (name, Seq::empty()),
    }
}

/// The `n`-th name tried for a file: the name itself, then "file (1).pdf",
/// "file (2).pdf" and so on, as wry names downloads.
pub open spec fn spec_numbered_name(name: Seq<char>, n: u32) -> Seq<char> {
    if n == 0 {
        name
    } else {
        stem_ext(name).0 + " ("@ + decimal(n as nat) + ")"@ + stem_ext(name).1
    }
}

/// "file.pdf", then "file (1).pdf", like wry does for downloads.
pub fn numbered_name(name: &str, n: u32) -> (r: String)
    ensures
        r@ == spec_numbered_name(name@, n),
{
    if n == 0 {
        return String::from_str(name);
    }
    let v = chars_of(name);
    let mut k: usize = v.len();
    while k > 0 && v[k - 1] != '.'
        invariant
            k <= v@.len(),
            forall|j: int| k <= j < v@.len() ==> v@[j] != '.',
        decreases k,
    {
        k = k - 1;
    }
    proof {
        if k > 0 {
            let d = (k - 1) as int;
            assert(v@[d] == '.');
            let c = choose|i: int| 0 <= i < v@.len() && v@[i] == '.' && forall|j: int| i < j < v@.len() ==> v@[j] != '.';
            assert(c == d) by {
                if c < d {
                    assert(v@[d] != '.');
                } else if c > d {
                    assert(v@[c] != '.');
                }
            }
        } else {
            assert forall|i: int| 0 <= i < v@.len() implies v@[i] != '.' by {}
        }
    }
    let split = k > 1;
    let mut out: Vec<char> = Vec::new();
    if split {
        let mut stem = vstd::slice::slice_to_vec(vstd::slice::slice_subrange(v.as_slice(), 0, k - 1));
        out.append(&mut stem);
    } else {
        let mut all = vstd::slice::slice_to_vec(v.as_slice());
        out.append(&mut all);
    }
    push_str(&mut out, " (");
    push_decimal(&mut out, n);
    push_str(&mut out, ")");
    if split {
        let mut ext = vstd::slice::slice_to_vec(vstd::slice::slice_subrange(v.as_slice(), k - 1, v.len()));
        out.append(&mut ext);
    } else {
        assert(out@ =~= out@ + Seq::<char>::empty());
    }
    string_of(out.as_slice())
}

proof fn lemma_last_dot(s: Seq<char>)
    ensures
        (exists|i: int| 0 <= i < s.len() && s[i] == '.') ==> exists|i: int|
            0 <= i < s.len() && s[i] == '.' && forall|j: int| i < j < s.len() ==> s[j] != '.',
    decreases s.len(),
{
    if s.len() > 0 && s.last() != '.' {
        let t = s.drop_last();
        lemma_last_dot(t);
        if exists|i: int| 0 <= i < s.len() && s[i] == '.' {
            let k = choose|i: int| 0 <= i < s.len() && s[i] == '.';
            assert(t[k] == s[k]);
            let i = choose|i: int| 0 <= i < t.len() && t[i] == '.' && forall|j: int| i < j < t.len() ==> t[j] != '.';
            assert(s[i] == '.');
            assert forall|j: int| i < j < s.len() implies s[j] != '.' by {
                if j < t.len() {
                    assert(t[j] == s[j]);
                }
            }
        }
    } else if s.len() > 0 {
        assert(s[s.len() - 1] == '.');
    }
}

proof fn lemma_stem_ext_len(name: Seq<char>)
    ensures
        stem_ext(name).0.len() + stem_ext(name).1.len() == name.len(),
{
    lemma_last_dot(name);
}

proof fn lemma_decimal_len(n: nat)
    ensures
        decimal(n).len() >= 1,
    decreases n,
{
    if n >= 10 {
        lemma_decimal_len(n / 10);
    }
}

proof fn lemma_digit_injective(a: nat, b: nat)
    requires
        a < 10,
        b < 10,
        digit(a) == digit(b),
    ensures
        a == b,
{
}

proof fn lemma_decimal_injective(a: nat, b: nat)
    requires
        decimal(a) == decimal(b),
    ensures
        a == b,
    decreases a,
{
    lemma_decimal_len(a / 10);
    lemma_decimal_len(b / 10);
    if a < 10 && b < 10 {
        assert(decimal(a)[0] == digit(a));
        assert(decimal(b)[0] == digit(b));
        lemma_digit_injective(a, b);
    } else if a >= 10 && b >= 10 {
        assert(decimal(a).last() == digit(a % 10));
        assert(decimal(b).last() == digit(b % 10));
        lemma_digit_injective(a % 10, b % 10);
        assert(decimal(a).drop_last() =~= decimal(a / 10));
        assert(decimal(b).drop_last() =~= decimal(b / 10));
        lemma_decimal_injective(a / 10, b / 10);
    } else if a >= 10 {
        assert(decimal(a) == decimal(a / 10).push(digit(a % 10)));
        assert(decimal(b).len() == 1);
    } else {
        assert(decimal(b) == decimal(b / 10).push(digit(b % 10)));
        assert(decimal(a).len() == 1);
    }
}

/// Different numbers give different names.
proof fn lemma_numbered_injective(name: Seq<char>, a: u32, b: u32)
    requires
        spec_numbered_name(name, a) == spec_numbered_name(name, b),
    ensures
        a == b,
{
    reveal_strlit(" (");
    reveal_strlit(")");
    lemma_stem_ext_len(name);
    lemma_decimal_len(a as nat);
    lemma_decimal_len(b as nat);
    let (stem, ext) = stem_ext(name);
    if a != 0 && b != 0 {
        let x = " ("@ + decimal(a as nat) + ")"@;
        let y = " ("@ + decimal(b as nat) + ")"@;
        let na = spec_numbered_name(name, a);
        assert(na =~= stem + x + ext);
        assert(spec_numbered_name(name, b) =~= stem + y + ext);
        assert(x.len() == y.len());
        assert(x =~= na.subrange(stem.len() as int, (stem.len() + x.len()) as int));
        assert(y =~= na.subrange(stem.len() as int, (stem.len() + y.len()) as int));
        assert(decimal(a as nat) =~= x.subrange(2, x.len() - 1));
        assert(decimal(b as nat) =~= y.subrange(2, y.len() - 1));
        lemma_decimal_injective(a as nat, b as nat);
    } else if a != 0 || b != 0 {
        assert(spec_numbered_name(name, a).len() != spec_numbered_name(name, b).len());
    }
}

/// `s` is one of the names in `taken`.
pub open spec fn is_taken(taken: Seq<String>, s: Seq<char>) -> bool {
    exists|i: int| 0 <= i < taken.len() && taken[i]@ == s
}

/// Where the first `k` numbered names of `name` are all taken, there are at
/// least `k` taken names.
proof fn lemma_taken_count(name: Seq<char>, taken: Seq<String>, k: int)
    requires
        0 <= k <= u32::MAX + 1,
        forall|m: u32| m < k ==> is_taken(taken, #[trigger] spec_numbered_name(name, m)),
    ensures
        k <= taken.len(),
{
    let f = |m: int| spec_numbered_name(name, m as u32);
    let x = vstd::set_lib::set_int_range(0, k);
    vstd::set_lib::lemma_int_range(0, k);
    assert forall|a: int, b: int| x.contains(a) && x.contains(b) && #[trigger] f(a) == #[trigger] f(b) implies a == b by {
        lemma_numbered_injective(name, a as u32, b as u32);
    }
    assert(vstd::relations::injective_on(f, x));
    let y = x.map(f);
    vstd::set_lib::lemma_map_size(x, y, f);
    let names = taken.map_values(|t: String| t@);
    let all = names.to_set();
    assert forall|s: Seq<char>| y.contains(s) implies all.contains(s) by {
        let m = choose|m: int| x.contains(m) && f(m) == s;
        assert(is_taken(taken, spec_numbered_name(name, m as u32)));
        let i = choose|i: int| 0 <= i < taken.len() && taken[i]@ == spec_numbered_name(name, m as u32);
        assert(names[i] == s);
    }
    vstd::seq_lib::seq_to_set_is_finite(names);
    vstd::set_lib::lemma_len_subset(y, all);
    names.lemma_cardinality_of_set();
}

fn has_name(taken: &Vec<String>, s: &str) -> (b: bool)
    ensures
        b == is_taken(taken@, s@),
{
    let sv = chars_of(s);
    let mut i: usize = 0;
    while i < taken.len()
        invariant
            i <= taken@.len(),
            sv@ == s@,
            forall|j: int| 0 <= j < i ==> (#[trigger] taken@[j])@ != s@,
        decreases taken@.len() - i,
    {
        let tv = chars_of(taken[i].as_str());
        if crate::text::same_chars(tv.as_slice(), sv.as_slice()) {
            return true;
        }
        i = i + 1;
    }
    false
}

/// The name a saved file gets in a folder where the names `taken` exist: the
/// first of "file.pdf", "file (1).pdf", "file (2).pdf", ... that is not taken.
pub fn free_name(name: &str, taken: &Vec<String>) -> (r: String)
    requires
        taken@.len() < u32::MAX,
    ensures
        exists|n: u32|
            r@ == #[trigger] spec_numbered_name(name@, n) && !is_taken(taken@, r@) && forall|m: u32|
                m < n ==> is_taken(taken@, #[trigger] spec_numbered_name(name@, m)),
{
    let mut n: u32 = 0;
    loop
        invariant
            n <= taken@.len() < u32::MAX,
            forall|m: u32| m < n ==> is_taken(taken@, #[trigger] spec_numbered_name(name@, m)),
        decreases taken@.len() - n,
    {
        let cand = numbered_name(name, n);
        if !has_name(taken, cand.as_str()) {
            assert(cand@ == spec_numbered_name(name@, n));
            return cand;
        }
        proof {
            assert forall|m: u32| m < n + 1 implies is_taken(taken@, #[trigger] spec_numbered_name(name@, m)) by {
                if m == n {
                    assert(cand@ == spec_numbered_name(name@, n));
                }
            }
            lemma_taken_count(name@, taken@, n + 1);
        }
        n = n + 1;
    }
}

/// What a form-encoded header value decodes to (empty where it decodes to nothing).
pub open spec fn spec_decode_header(v: Seq<char>) -> Seq<char> {
    match form_pair(encode_utf8("v="@ + v)) {
        Some(p) => p.1,
        None => Seq::empty(),
    }
}

/// Decodes a URI-encoded header value of a save request.
pub fn decode_header(v: &str) -> (r: String)
    ensures
        r@ == spec_decode_header(v@),
{
    let mut s = String::from_str("v=");
    s.append(v);
    let bytes = vstd::slice::slice_to_vec(s.as_str().as_bytes());
    match form_first_pair(bytes.as_slice()) {
        Some(p) => p.1,
        None => String::new(),
    }
}

/// A character that cannot stand in a file name here.
pub open spec fn is_path_char(c: char) -> bool {
    c == '/' || c == '\\' || c == ':'
}

/// The name a saved PDF gets: path characters become `_`, and a blank name
/// becomes `document.pdf`.
pub open spec fn spec_save_name(name: Seq<char>) -> Seq<char> {
    let safe = name.map_values(|c: char| if is_path_char(c) { '_' } else { c });
    if trim(safe).len() == 0 {
        "document.pdf"@
    } else {
        safe
    }
}

/// The file name for a PDF the viewer saves, from the decoded `x-name` header.
pub fn save_name(name: &str) -> (r: String)
    ensures
        r@ == spec_save_name(name@),
{
    let v = chars_of(name);
    let mut out: Vec<char> = Vec::new();
    let mut i: usize = 0;
    while i < v.len()
        invariant
            i <= v@.len(),
            out@ == v@.take(i as int).map_values(|c: char| if is_path_char(c) { '_' } else { c }),
        decreases v@.len() - i,
    {
        let c = v[i];
        let d = if c == '/' || c == '\\' || c == ':' { '_' } else { c };
        out.push(d);
        proof {
            assert(v@.take(i + 1) =~= v@.take(i as int).push(c));
            assert(v@.take(i + 1).map_values(|c: char| if is_path_char(c) { '_' } else { c })
                =~= v@.take(i as int).map_values(|c: char| if is_path_char(c) { '_' } else { c }).push(d));
        }
        i = i + 1;
    }
    proof {
        assert(v@.take(i as int) =~= v@);
    }
    let t = trim_chars(out.as_slice());
    if t.len() == 0 {
        String::from_str("document.pdf")
    } else {
        string_of(out.as_slice())
    }
}

} // verus!
