//! Address-bar suggestions: which history entries match what is typed, and
//! what lifts a match in the ranking. (The score itself is floating point,
//! left to the caller.)
use vstd::prelude::*;

use crate::browser::Visit;
use crate::text::{
    before_first, chars_of, has_infix, has_prefix, is_white_space, lowercase, occurs_in, starts_with,
    str_has_prefix, string_of, to_lowercase, trim, trim_chars, white_space,
};
use vstd::utf8::encode_utf8;

verus! {

/// A word of `q` starts at `i`: a non-space character at the start or after a space.
pub open spec fn word_start(q: Seq<char>, i: int) -> bool {
    0 <= i < q.len() && !is_white_space(q[i]) && (i == 0 || is_white_space(q[i - 1]))
}

/// The word of `q` that starts at `i`.
pub open spec fn word_at(q: Seq<char>, i: int) -> Seq<char> {
    before_first(q.skip(i), |c: char| is_white_space(c))
}

/// Every word of `q` occurs in the address or in the title.
pub open spec fn matches_words(q: Seq<char>, url: Seq<char>, title: Seq<char>) -> bool {
    forall|i: int| #[trigger] word_start(q, i) ==> occurs_in(url, word_at(q, i)) || occurs_in(title, word_at(q, i))
}

/// What typed text is compared with: trimmed, then lowercased.
pub open spec fn query_key(query: Seq<char>) -> Seq<char> {
    lowercase(trim(query))
}

/// The history entry matches the typed text.
pub open spec fn visit_matches(q: Seq<char>, v: Visit) -> bool {
    matches_words(q, lowercase(v.url@), lowercase(v.title@))
}

/// The positions, in order, of the history entries that match the key `q`.
pub open spec fn matching(h: Seq<Visit>, q: Seq<char>) -> Seq<usize>
    decreases h.len(),
{
    if h.len() == 0 {
        Seq::empty()
    } else {
        let rest = matching(h.drop_last(), q);
        if visit_matches(q, h.last()) {
            rest.push((h.len() - 1) as usize)
        } else {
            rest
        }
    }
}

proof fn lemma_before_ws(s: Seq<char>, i: int)
    requires
        0 <= i <= s.len(),
        forall|k: int| 0 <= k < i ==> !is_white_space(#[trigger] s[k]),
        i == s.len() || is_white_space(s[i]),
    ensures
        before_first(s, |c: char| is_white_space(c)) == s.take(i),
    decreases i,
{
    let stop = |c: char| is_white_space(c);
    if i == 0 {
        assert(s.take(0) =~= Seq::<char>::empty());
    } else {
        let t = s.drop_first();
        assert forall|k: int| 0 <= k < i - 1 implies !is_white_space(#[trigger] t[k]) by {
            assert(t[k] == s[k + 1]);
        }
        if i < s.len() {
            assert(t[i - 1] == s[i]);
        }
        lemma_before_ws(t, i - 1);
        assert(!stop(s[0]));
        assert(seq![s[0]] + t.take(i - 1) =~= s.take(i));
    }
}

/// The characters of `s` before its first white space.
fn before_ws(s: &[char]) -> (r: Vec<char>)
    ensures
        r@ == before_first(s@, |c: char| is_white_space(c)),
{
    let mut i: usize = 0;
    while i < s.len() && !white_space(s[i])
        invariant
            i <= s@.len(),
            forall|k: int| 0 <= k < i ==> !is_white_space(#[trigger] s@[k]),
        decreases s@.len() - i,
    {
        i = i + 1;
    }
    proof {
        lemma_before_ws(s@, i as int);
    }
    vstd::slice::slice_to_vec(vstd::slice::slice_subrange(s, 0, i))
}

/// The words of `q`, with where each starts.
fn words_of(q: &[char]) -> (r: (Vec<Vec<char>>, Ghost<Seq<int>>))
    ensures
        r.0@.len() == r.1@.len(),
        forall|k: int| 0 <= k < r.1@.len() ==> word_start(q@, #[trigger] r.1@[k]),
        forall|k: int| 0 <= k < r.1@.len() ==> (#[trigger] r.0@[k])@ == word_at(q@, r.1@[k]),
        forall|i: int| #[trigger] word_start(q@, i) ==> exists|k: int| 0 <= k < r.1@.len() && r.1@[k] == i,
{
    let mut words: Vec<Vec<char>> = Vec::new();
    let ghost mut starts: Seq<int> = Seq::empty();
    let mut i: usize = 0;
    while i < q.len()
        invariant
            i <= q@.len(),
            words@.len() == starts.len(),
            forall|k: int| 0 <= k < starts.len() ==> word_start(q@, #[trigger] starts[k]),
            forall|k: int| 0 <= k < starts.len() ==> (#[trigger] words@[k])@ == word_at(q@, starts[k]),
            forall|j: int| 0 <= j < i && #[trigger] word_start(q@, j) ==> exists|k: int| 0 <= k < starts.len() && starts[k] == j,
        decreases q@.len() - i,
    {
        let ghost old_starts = starts;
        let is_start = !white_space(q[i]) && (i == 0 || white_space(q[i - 1]));
        assert(is_start == word_start(q@, i as int));
        if is_start {
            let rest = vstd::slice::slice_subrange(q, i, q.len());
            let w = before_ws(rest);
            words.push(w);
            proof {
                assert(rest@ =~= q@.skip(i as int));
                starts = starts.push(i as int);
                assert(starts[starts.len() - 1] == i as int);
            }
        }
        proof {
            assert forall|j: int| 0 <= j < i + 1 && #[trigger] word_start(q@, j) implies exists|k: int|
                0 <= k < starts.len() && starts[k] == j by {
                if j < i {
                    let k = choose|k: int| 0 <= k < old_starts.len() && old_starts[k] == j;
                    assert(starts[k] == j);
                } else {
                    assert(starts[starts.len() - 1] == i as int);
                }
            }
        }
        i = i + 1;
    }
    (words, Ghost(starts))
}

/// `q.subrange(i, j)` is a word of `q`: a non-empty run of characters that
/// are not white space, with white space or an end of `q` on either side.
pub open spec fn is_word(q: Seq<char>, i: int, j: int) -> bool {
    &&& 0 <= i < j <= q.len()
    &&& forall|k: int| i <= k < j ==> !is_white_space(#[trigger] q[k])
    &&& (i == 0 || is_white_space(q[i - 1]))
    &&& (j == q.len() || is_white_space(q[j]))
}

/// Every word of `q` occurs in the lowercased address or title of `v`.
pub open spec fn holds_every_word(q: Seq<char>, v: Visit) -> bool {
    forall|i: int, j: int| #[trigger] is_word(q, i, j) ==> occurs_in(lowercase(v.url@), q.subrange(i, j)) || occurs_in(
        lowercase(v.title@),
        q.subrange(i, j),
    )
}

proof fn lemma_before_first_props(s: Seq<char>, stop: spec_fn(char) -> bool)
    ensures
        before_first(s, stop).len() <= s.len(),
        before_first(s, stop) =~= s.take(before_first(s, stop).len() as int),
        forall|k: int| 0 <= k < before_first(s, stop).len() ==> !stop(#[trigger] s[k]),
        before_first(s, stop).len() < s.len() ==> stop(s[before_first(s, stop).len() as int]),
    decreases s.len(),
{
    if s.len() > 0 && !stop(s[0]) {
        let t = s.drop_first();
        lemma_before_first_props(t, stop);
        let b = before_first(s, stop);
        assert(b == seq![s[0]] + before_first(t, stop));
        assert forall|k: int| 0 <= k < b.len() implies !stop(#[trigger] s[k]) by {
            if k > 0 {
                assert(s[k] == t[k - 1]);
            }
        }
        if b.len() < s.len() {
            assert(s[b.len() as int] == t[b.len() - 1]);
        }
    }
}

/// A word start and the word there are exactly the words of `q`.
proof fn lemma_words(q: Seq<char>)
    ensures
        forall|i: int, j: int| #[trigger] is_word(q, i, j) ==> word_start(q, i) && word_at(q, i) == q.subrange(i, j),
        forall|i: int| #[trigger] word_start(q, i) ==> is_word(q, i, i + word_at(q, i).len()),
{
    assert forall|i: int, j: int| #[trigger] is_word(q, i, j) implies word_start(q, i) && word_at(q, i) == q.subrange(
        i,
        j,
    ) by {
        let t = q.skip(i);
        assert forall|k: int| 0 <= k < j - i implies !is_white_space(#[trigger] t[k]) by {
            assert(t[k] == q[i + k]);
        }
        if j < q.len() {
            assert(t[j - i] == q[j]);
        }
        lemma_before_ws(t, j - i);
        assert(t.take(j - i) =~= q.subrange(i, j));
        assert(!is_white_space(q[i]));
    }
    assert forall|i: int| #[trigger] word_start(q, i) implies is_word(q, i, i + word_at(q, i).len()) by {
        let t = q.skip(i);
        let stop = |c: char| is_white_space(c);
        lemma_before_first_props(t, stop);
        let n = word_at(q, i).len();
        assert(t[0] == q[i]);
        assert(n > 0);
        assert forall|k: int| i <= k < i + n implies !is_white_space(#[trigger] q[k]) by {
            assert(t[k - i] == q[k]);
            assert(!stop(t[k - i]));
        }
        if i + n < q.len() {
            assert(t[n as int] == q[i + n]);
        }
    }
}

/// An entry matches exactly when it holds every word.
proof fn lemma_matches_every_word(q: Seq<char>, v: Visit)
    ensures
        visit_matches(q, v) == holds_every_word(q, v),
{
    lemma_words(q);
    if visit_matches(q, v) {
        assert forall|i: int, j: int| #[trigger] is_word(q, i, j) implies occurs_in(lowercase(v.url@), q.subrange(i, j))
            || occurs_in(lowercase(v.title@), q.subrange(i, j)) by {
            assert(word_start(q, i));
        }
    }
    if holds_every_word(q, v) {
        assert forall|i: int| #[trigger] word_start(q, i) implies occurs_in(lowercase(v.url@), word_at(q, i)) || occurs_in(
            lowercase(v.title@),
            word_at(q, i),
        ) by {
            let j = i + word_at(q, i).len();
            assert(is_word(q, i, j));
        }
    }
}

proof fn lemma_matching_members(h: Seq<Visit>, q: Seq<char>)
    requires
        h.len() <= usize::MAX,
    ensures
        forall|k: int| 0 <= k < matching(h, q).len() ==> (#[trigger] matching(h, q)[k]) < h.len() && visit_matches(
            q,
            h[matching(h, q)[k] as int],
        ),
        forall|x: int| 0 <= x < h.len() && visit_matches(q, #[trigger] h[x]) ==> matching(h, q).contains(x as usize),
    decreases h.len(),
{
    if h.len() > 0 {
        let init = h.drop_last();
        lemma_matching_members(init, q);
        let rest = matching(init, q);
        assert forall|k: int| 0 <= k < matching(h, q).len() implies (#[trigger] matching(h, q)[k]) < h.len()
            && visit_matches(q, h[matching(h, q)[k] as int]) by {
            if visit_matches(q, h.last()) {
                assert(matching(h, q) == rest.push((h.len() - 1) as usize));
            } else {
                assert(matching(h, q) == rest);
            }
            if k < rest.len() {
                assert(matching(h, q)[k] == rest[k]);
                assert(h[rest[k] as int] == init[rest[k] as int]);
            } else {
                assert(matching(h, q)[k] == (h.len() - 1) as usize);
                assert(h.last() == h[h.len() - 1]);
            }
        }
        assert forall|x: int| 0 <= x < h.len() && visit_matches(q, #[trigger] h[x]) implies matching(h, q).contains(
            x as usize,
        ) by {
            if visit_matches(q, h.last()) {
                assert(matching(h, q) == rest.push((h.len() - 1) as usize));
            } else {
                assert(matching(h, q) == rest);
            }
            if x < h.len() - 1 {
                assert(init[x] == h[x]);
                let k = choose|k: int| 0 <= k < rest.len() && rest[k] == x as usize;
                assert(matching(h, q)[k] == x as usize);
            } else {
                assert(h.last() == h[x]);
                let m = matching(h, q);
                assert(m[m.len() - 1] == x as usize);
            }
        }
    }
}

/// The suggestions for the key `q` are the entries whose lowercased address
/// or title holds every word of `q`: each suggested entry holds each word,
/// and each entry that holds every word is suggested.
pub proof fn suggestions_hold_every_word(h: Seq<Visit>, q: Seq<char>)
    requires
        h.len() <= usize::MAX,
    ensures
        forall|k: int, i: int, j: int|
            0 <= k < matching(h, q).len() && #[trigger] is_word(q, i, j) ==> (#[trigger] matching(h, q)[k]) < h.len()
                && (occurs_in(lowercase(h[matching(h, q)[k] as int].url@), q.subrange(i, j)) || occurs_in(
                lowercase(h[matching(h, q)[k] as int].title@),
                q.subrange(i, j),
            )),
        forall|x: int|
            0 <= x < h.len() && (forall|i: int, j: int| #[trigger] is_word(q, i, j) ==> occurs_in(
                lowercase(h[x].url@),
                q.subrange(i, j),
            ) || occurs_in(lowercase(h[x].title@), q.subrange(i, j))) ==> #[trigger] matching(h, q).contains(x as usize),
{
    lemma_matching_members(h, q);
    assert forall|k: int, i: int, j: int|
        0 <= k < matching(h, q).len() && #[trigger] is_word(q, i, j) implies (#[trigger] matching(h, q)[k]) < h.len()
            && (occurs_in(lowercase(h[matching(h, q)[k] as int].url@), q.subrange(i, j)) || occurs_in(
            lowercase(h[matching(h, q)[k] as int].title@),
            q.subrange(i, j),
        )) by {
        let v = h[matching(h, q)[k] as int];
        lemma_matches_every_word(q, v);
    }
    assert forall|x: int|
        0 <= x < h.len() && (forall|i: int, j: int| #[trigger] is_word(q, i, j) ==> occurs_in(
            lowercase(h[x].url@),
            q.subrange(i, j),
        ) || occurs_in(lowercase(h[x].title@), q.subrange(i, j))) implies #[trigger] matching(h, q).contains(x as usize) by {
        lemma_matches_every_word(q, h[x]);
        assert(holds_every_word(q, h[x]));
    }
}

/// The positions of the history entries that match typed text, in history
/// order: none for blank text, else those whose lowercased address or title
/// holds every word of the lowercased, trimmed text.
pub fn suggest_matches(history: &Vec<Visit>, query: &str) -> (r: Vec<usize>)
    ensures
        query_key(query@).len() == 0 ==> r@.len() == 0,
        query_key(query@).len() != 0 ==> r@ == matching(history@, query_key(query@)),
        forall|k: int, i: int, j: int|
            0 <= k < r@.len() && #[trigger] is_word(query_key(query@), i, j) ==> (#[trigger] r@[k]) < history@.len()
                && (occurs_in(lowercase(history@[r@[k] as int].url@), query_key(query@).subrange(i, j)) || occurs_in(
                lowercase(history@[r@[k] as int].title@),
                query_key(query@).subrange(i, j),
            )),
        query_key(query@).len() != 0 ==> forall|x: int|
            0 <= x < history@.len() && (forall|i: int, j: int| #[trigger] is_word(query_key(query@), i, j) ==> occurs_in(
                lowercase(history@[x].url@),
                query_key(query@).subrange(i, j),
            ) || occurs_in(lowercase(history@[x].title@), query_key(query@).subrange(i, j))) ==> #[trigger] r@.contains(
                x as usize,
            ),
{
    let qv = chars_of(query);
    let t = trim_chars(qv.as_slice());
    let ts = string_of(t.as_slice());
    let q = to_lowercase(ts.as_str());
    let qc = chars_of(q.as_str());
    let mut out: Vec<usize> = Vec::new();
    if qc.len() == 0 {
        return out;
    }
    let (words, Ghost(starts)) = words_of(qc.as_slice());
    let mut i: usize = 0;
    while i < history.len()
        invariant
            i <= history@.len(),
            qc@ == query_key(query@),
            words@.len() == starts.len(),
            forall|k: int| 0 <= k < starts.len() ==> word_start(qc@, #[trigger] starts[k]),
            forall|k: int| 0 <= k < starts.len() ==> (#[trigger] words@[k])@ == word_at(qc@, starts[k]),
            forall|j: int| #[trigger] word_start(qc@, j) ==> exists|k: int| 0 <= k < starts.len() && starts[k] == j,
            out@ == matching(history@.take(i as int), qc@),
        decreases history@.len() - i,
    {
        let v = &history[i];
        let ul = to_lowercase(v.url.as_str());
        let tl = to_lowercase(v.title.as_str());
        let uc = chars_of(ul.as_str());
        let tc = chars_of(tl.as_str());
        let mut all = true;
        let mut k: usize = 0;
        while k < words.len()
            invariant
                k <= words@.len(),
                words@.len() == starts.len(),
                forall|m: int| 0 <= m < starts.len() ==> (#[trigger] words@[m])@ == word_at(qc@, starts[m]),
                all == forall|m: int| 0 <= m < k ==> occurs_in(uc@, #[trigger] words@[m]@) || occurs_in(tc@, words@[m]@),
            decreases words@.len() - k,
        {
            let w = &words[k];
            if !(has_infix(uc.as_slice(), w.as_slice()) || has_infix(tc.as_slice(), w.as_slice())) {
                all = false;
            }
            k = k + 1;
        }
        proof {
            let vq = history@[i as int];
            assert(uc@ == lowercase(vq.url@));
            assert(tc@ == lowercase(vq.title@));
            if all {
                assert forall|j: int| #[trigger] word_start(qc@, j) implies occurs_in(uc@, word_at(qc@, j)) || occurs_in(
                    tc@,
                    word_at(qc@, j),
                ) by {
                    let m = choose|m: int| 0 <= m < starts.len() && starts[m] == j;
                    assert(words@[m]@ == word_at(qc@, j));
                }
            } else {
                let m = choose|m: int| 0 <= m < k && !(occurs_in(uc@, #[trigger] words@[m]@) || occurs_in(tc@, words@[m]@));
                assert(word_start(qc@, starts[m]));
            }
            assert(all == visit_matches(qc@, vq));
            assert(history@.take(i + 1).drop_last() =~= history@.take(i as int));
            assert(history@.take(i + 1).last() == vq);
        }
        if all {
            out.push(i);
        }
        i = i + 1;
    }
    proof {
        assert(history@.take(i as int) =~= history@);
        suggestions_hold_every_word(history@, qc@);
    }
    out
}

/// The part of `s` after its first `://`, if it has one.
pub open spec fn after_sep(s: Seq<char>) -> Option<Seq<char>>
    decreases s.len(),
{
    if s.len() < 3 {
        None
    } else if s[0] == ':' && s[1] == '/' && s[2] == '/' {
        Some(s.skip(3))
    } else {
        after_sep(s.drop_first())
    }
}

/// An address without its scheme and a leading `www.`: what typing its
/// beginning should find.
pub open spec fn bare_address(url: Seq<char>) -> Seq<char> {
    let rest = match after_sep(url) {
        Some(r) => r,
        None => url,
    };
    if starts_with(rest, "www."@) {
        rest.skip(4)
    } else {
        rest
    }
}

/// What lifts a matching entry in the ranking: its bare address starting with
/// the typed text (short addresses first, so the length in UTF-8 bytes comes
/// along), else its title starting with it.
#[derive(Clone, Copy, PartialEq, Eq, Structural, Debug)]
pub enum Boost {
    Address(usize),
    Title,
    Plain,
}

/// The boost of the entry `v` for the typed text whose key is `q`.
pub open spec fn spec_boost(v: Visit, q: Seq<char>) -> Boost {
    let bare = bare_address(lowercase(v.url@));
    if starts_with(bare, q) {
        Boost::Address(encode_utf8(bare).len() as usize)
    } else if starts_with(lowercase(v.title@), q) {
        Boost::Title
    } else {
        Boost::Plain
    }
}

/// `://` stands at `j` in `s`.
pub open spec fn sep_at(s: Seq<char>, j: int) -> bool {
    0 <= j && j + 3 <= s.len() && s[j] == ':' && s[j + 1] == '/' && s[j + 2] == '/'
}

proof fn lemma_after_sep_skip(s: Seq<char>, i: int)
    requires
        0 <= i <= s.len(),
        forall|j: int| 0 <= j < i && j + 3 <= s.len() ==> !#[trigger] sep_at(s, j),
    ensures
        after_sep(s) == after_sep(s.skip(i)),
    decreases i,
{
    if i == 0 {
        assert(s.skip(0) =~= s);
    } else if s.len() < 3 {
    } else {
        let t = s.drop_first();
        assert(!sep_at(s, 0));
        assert forall|j: int| 0 <= j < i - 1 && j + 3 <= t.len() implies !#[trigger] sep_at(t, j) by {
            assert(!sep_at(s, j + 1));
            assert(t[j] == s[j + 1] && t[j + 1] == s[j + 2] && t[j + 2] == s[j + 3]);
        }
        lemma_after_sep_skip(t, i - 1);
        assert(t.skip(i - 1) =~= s.skip(i));
    }
}

/// How the history entry `v` is lifted among the suggestions for `query`.
pub fn suggest_boost(v: &Visit, query: &str) -> (r: Boost)
    ensures
        r == spec_boost(*v, query_key(query@)),
{
    proof {
        reveal_strlit("www.");
    }
    let qv = chars_of(query);
    let t = trim_chars(qv.as_slice());
    let ts = string_of(t.as_slice());
    let q = to_lowercase(ts.as_str());
    let qc = chars_of(q.as_str());
    let ul = to_lowercase(v.url.as_str());
    let u = chars_of(ul.as_str());
    let mut i: usize = 0;
    let mut found = false;
    while i < u.len() && u.len() - i >= 3
        invariant_except_break
            !found,
        invariant
            i <= u@.len(),
            forall|j: int| 0 <= j < i && j + 3 <= u@.len() ==> !#[trigger] sep_at(u@, j),
        ensures
            i <= u@.len(),
            forall|j: int| 0 <= j < i && j + 3 <= u@.len() ==> !#[trigger] sep_at(u@, j),
            found ==> i + 3 <= u@.len() && u@[i as int] == ':' && u@[i + 1] == '/' && u@[i + 2] == '/',
            !found ==> i + 3 > u@.len(),
        decreases u@.len() - i,
    {
        if u[i] == ':' && u[i + 1] == '/' && u[i + 2] == '/' {
            found = true;
            break;
        }
        i = i + 1;
    }
    proof {
        lemma_after_sep_skip(u@, i as int);
        if found {
            let w = u@.skip(i as int);
            assert(w[0] == ':' && w[1] == '/' && w[2] == '/');
            assert(w.skip(3) =~= u@.skip(i + 3));
        } else {
            assert(u@.skip(i as int).len() < 3);
        }
    }
    let rest: Vec<char> = if found {
        assert(i + 3 <= u@.len() <= usize::MAX);
        let from = i + 3;
        vstd::slice::slice_to_vec(vstd::slice::slice_subrange(u.as_slice(), from, u.len()))
    } else {
        u
    };
    let bare: Vec<char> = if str_has_prefix(rest.as_slice(), "www.") {
        vstd::slice::slice_to_vec(vstd::slice::slice_subrange(rest.as_slice(), 4, rest.len()))
    } else {
        rest
    };
    assert(bare@ == bare_address(lowercase(v.url@)));
    if has_prefix(bare.as_slice(), qc.as_slice()) {
        let b = string_of(bare.as_slice());
        return Boost::Address(b.as_str().len());
    }
    let tl = to_lowercase(v.title.as_str());
    let tc = chars_of(tl.as_str());
    if has_prefix(tc.as_slice(), qc.as_slice()) {
        Boost::Title
    } else {
        Boost::Plain
    }
}

} // verus!
