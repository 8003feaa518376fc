//! The history: one entry per visited web address, with its title, how often
//! it was visited and when last, trimmed to the most recent ones when it grows
//! past `HISTORY_MAX`.
use vstd::prelude::*;

use crate::browser::{Browser, Tab, Visit, first_tab, has_tab};
use crate::text::{chars_of, same_chars, starts_with, str_has_prefix};

verus! {

/// The history holds at most this many addresses.
pub const HISTORY_MAX: usize = 5000;

/// When it grows past `HISTORY_MAX`, the history keeps this many, the most recent.
pub const HISTORY_KEEP: usize = 4500;

/// No address is in the history twice.
pub open spec fn urls_distinct(h: Seq<Visit>) -> bool {
    forall|i: int, j: int| 0 <= i < j < h.len() ==> (#[trigger] h[i]).url@ != (#[trigger] h[j]).url@
}

/// The most recent visits come first.
pub open spec fn recent_first(h: Seq<Visit>) -> bool {
    forall|i: int, j: int| 0 <= i < j < h.len() ==> (#[trigger] h[i]).last >= (#[trigger] h[j]).last
}

/// Addresses worth remembering: web pages.
pub open spec fn is_web(url: Seq<char>) -> bool {
    starts_with(url, "http:"@) || starts_with(url, "https:"@)
}

/// The title of the first tab with the id `id`, empty where there is none.
pub open spec fn tab_title(tabs: Seq<Tab>, id: u32) -> Seq<char> {
    if has_tab(tabs, id) {
        tabs[choose|i: int| first_tab(tabs, id, i)].title@
    } else {
        Seq::empty()
    }
}

/// `i` is where `url` stands in the history.
pub open spec fn visit_at(h: Seq<Visit>, url: Seq<char>, i: int) -> bool {
    0 <= i < h.len() && h[i].url@ == url && forall|j: int| 0 <= j < i ==> (#[trigger] h[j]).url@ != url
}

/// An entry after another visit at `now`; a non-empty title replaces the old one.
pub open spec fn revisited(v: Visit, title: Seq<char>, now: u64, new_title: String) -> Visit {
    Visit {
        visits: (v.visits + 1) as u32,
        last: now,
        title: if title.len() > 0 { new_title } else { v.title },
        ..v
    }
}

/// A new title reaches the history: the tab `id` exists, its address is in
/// the history, and `title` is not empty and differs from the entry's title.
pub open spec fn retitles(tabs: Seq<Tab>, h: Seq<Visit>, id: u32, title: Seq<char>) -> bool {
    exists|t: int, i: int|
        #[trigger] first_tab(tabs, id, t) && #[trigger] visit_at(h, tabs[t].url@, i) && title.len() > 0
            && h[i].title@ != title
}

fn find_visit(h: &Vec<Visit>, u: &[char]) -> (r: Option<usize>)
    ensures
        r matches Some(i) ==> visit_at(h@, u@, i as int),
        r is None ==> forall|j: int| 0 <= j < h@.len() ==> (#[trigger] h@[j]).url@ != u@,
{
    let mut i: usize = 0;
    while i < h.len()
        invariant
            i <= h@.len(),
            forall|j: int| 0 <= j < i ==> (#[trigger] h@[j]).url@ != u@,
        decreases h@.len() - i,
    {
        let hv = chars_of(h[i].url.as_str());
        if same_chars(hv.as_slice(), u) {
            return Some(i);
        }
        i = i + 1;
    }
    None
}

/// `r` is `v` rearranged: `r[k]` is `v[perm[k]]`, each position of `v` used once.
pub open spec fn rearranges<T>(r: Seq<T>, v: Seq<T>, perm: Seq<int>) -> bool {
    &&& perm.len() == r.len()
    &&& r.len() == v.len()
    &&& forall|k: int| 0 <= k < r.len() ==> 0 <= #[trigger] perm[k] < v.len() && r[k] == v[perm[k]]
    &&& forall|a: int, b: int| 0 <= a < b < r.len() ==> #[trigger] perm[a] != #[trigger] perm[b]
}

/// `r` is the stable sort of `v` by recency: most recent first, and visits at
/// the same second keep their order.
pub open spec fn stable_recent_first(r: Seq<Visit>, v: Seq<Visit>) -> bool {
    &&& recent_first(r)
    &&& exists|perm: Seq<int>| #[trigger] rearranges(r, v, perm) && forall|a: int, b: int|
        0 <= a < b < r.len() && r[a].last == r[b].last ==> #[trigger] perm[a] < #[trigger] perm[b]
}

/// The visits, most recent first, as `record_visit` orders them when it trims
/// the history; visits at the same second keep their order.
pub fn sort_recent_first(v: Vec<Visit>) -> (r: Vec<Visit>)
    ensures
        stable_recent_first(r@, v@),
        r@.to_multiset() == v@.to_multiset(),
        r@.len() == v@.len(),
        urls_distinct(v@) ==> urls_distinct(r@),
{
    broadcast use vstd::seq_lib::group_to_multiset_ensures;

    let ghost orig = v@;
    let mut rest = v;
    let mut out: Vec<Visit> = Vec::new();
    assert(orig.take(0) =~= Seq::<Visit>::empty());
    let ghost mut done: int = 0;
    let ghost mut perm: Seq<int> = Seq::empty();
    while rest.len() > 0
        invariant
            0 <= done <= orig.len(),
            rest@ == orig.skip(done),
            out@.to_multiset() == orig.take(done).to_multiset(),
            out@.len() == done,
            perm.len() == done,
            recent_first(out@),
            forall|k: int| 0 <= k < out@.len() ==> 0 <= #[trigger] perm[k] < done && out@[k] == orig[perm[k]],
            forall|a: int, b: int| 0 <= a < b < out@.len() ==> #[trigger] perm[a] != #[trigger] perm[b],
            forall|a: int, b: int|
                0 <= a < b < out@.len() && out@[a].last == out@[b].last ==> #[trigger] perm[a] < #[trigger] perm[b],
            urls_distinct(orig) ==> urls_distinct(out@),
        decreases rest@.len(),
    {
        let ghost old_rest = rest@;
        let x = rest.remove(0);
        assert(x == old_rest[0]);
        let mut p: usize = 0;
        while p < out.len() && out[p].last >= x.last
            invariant
                p <= out@.len(),
                forall|q: int| 0 <= q < p ==> (#[trigger] out@[q]).last >= x.last,
            decreases out@.len() - p,
        {
            p = p + 1;
        }
        let ghost old_out = out@;
        let ghost old_perm = perm;
        out.insert(p, x);
        proof {
            perm = old_perm.insert(p as int, done);
            assert(x == orig[done]);
            assert(out@ == old_out.insert(p as int, x));
            assert forall|k: int| 0 <= k < out@.len() implies 0 <= #[trigger] perm[k] < done + 1 && out@[k]
                == orig[perm[k]] by {
                if k < p {
                    assert(out@[k] == old_out[k] && perm[k] == old_perm[k]);
                } else if k == p {
                } else {
                    assert(out@[k] == old_out[k - 1] && perm[k] == old_perm[k - 1]);
                }
            }
            assert forall|i: int, j: int| 0 <= i < j < out@.len() implies (#[trigger] out@[i]).last >= (
            #[trigger] out@[j]).last by {
                if j < p {
                    assert(out@[i] == old_out[i] && out@[j] == old_out[j]);
                } else if j == p {
                    assert(out@[i] == old_out[i]);
                } else if i == p {
                    assert(out@[j] == old_out[j - 1]);
                    assert(old_out[p as int].last < x.last);
                } else if i < p {
                    assert(out@[i] == old_out[i] && out@[j] == old_out[j - 1]);
                } else {
                    assert(out@[i] == old_out[i - 1] && out@[j] == old_out[j - 1]);
                }
            }
            assert forall|a: int, b: int| 0 <= a < b < out@.len() implies #[trigger] perm[a] != #[trigger] perm[b] by {
                if b < p {
                    assert(perm[a] == old_perm[a] && perm[b] == old_perm[b]);
                } else if b == p {
                    assert(perm[a] == old_perm[a]);
                } else if a == p {
                    assert(perm[b] == old_perm[b - 1]);
                } else if a < p {
                    assert(perm[a] == old_perm[a] && perm[b] == old_perm[b - 1]);
                } else {
                    assert(perm[a] == old_perm[a - 1] && perm[b] == old_perm[b - 1]);
                }
            }
            assert forall|a: int, b: int|
                0 <= a < b < out@.len() && out@[a].last == out@[b].last implies #[trigger] perm[a] < #[trigger] perm[b] by {
                if b < p {
                    assert(perm[a] == old_perm[a] && perm[b] == old_perm[b]);
                    assert(out@[a] == old_out[a] && out@[b] == old_out[b]);
                } else if b == p {
                    assert(perm[a] == old_perm[a]);
                } else if a == p {
                    assert(out@[b] == old_out[b - 1]);
                    assert(old_out[p as int].last < x.last);
                    assert(old_out[p as int].last >= old_out[b - 1].last);
                } else if a < p {
                    assert(perm[a] == old_perm[a] && perm[b] == old_perm[b - 1]);
                    assert(out@[a] == old_out[a] && out@[b] == old_out[b - 1]);
                } else {
                    assert(perm[a] == old_perm[a - 1] && perm[b] == old_perm[b - 1]);
                    assert(out@[a] == old_out[a - 1] && out@[b] == old_out[b - 1]);
                }
            }
            if urls_distinct(orig) {
                assert forall|i: int, j: int| 0 <= i < j < out@.len() implies (#[trigger] out@[i]).url@
                    != (#[trigger] out@[j]).url@ by {
                    assert(out@[i] == orig[perm[i]]);
                    assert(out@[j] == orig[perm[j]]);
                    assert(perm[i] != perm[j]);
                    if perm[i] < perm[j] {
                        assert(orig[perm[i]].url@ != orig[perm[j]].url@);
                    } else {
                        assert(orig[perm[j]].url@ != orig[perm[i]].url@);
                    }
                }
            }
            vstd::seq_lib::to_multiset_insert(old_out, p as int, x);
            assert(orig.take(done + 1) =~= orig.take(done).push(x));
            vstd::seq_lib::to_multiset_build(orig.take(done), x);
            assert(orig.skip(done + 1) =~= orig.skip(done).drop_first());
            done = done + 1;
        }
    }
    proof {
        assert(orig.take(done) =~= orig);
        assert(rearranges(out@, orig, perm));
    }
    out
}

/// `r` is the history `h` after a visit of `url` at `now` from a tab titled
/// `title`: an address already there gets one more visit (and the title,
/// where it is not empty); a new one is added with one visit, and past
/// `HISTORY_MAX` entries the `HISTORY_KEEP` most recent stay, most recent
/// first, visits of the same second in their old order.
pub open spec fn visit_recorded(h: Seq<Visit>, r: Seq<Visit>, url: Seq<char>, title: Seq<char>, now: u64) -> bool {
    &&& (exists|i: int| visit_at(h, url, i)) ==> exists|i: int, t: String|
        visit_at(h, url, i) && t@ == title && r == h.update(i, #[trigger] revisited(h[i], title, now, t))
    &&& (forall|j: int| 0 <= j < h.len() ==> (#[trigger] h[j]).url@ != url) ==> exists|v: Visit|
        #![trigger h.push(v)]
        {
        let p = h.push(v);
        &&& v.url@ == url
        &&& v.title@ == title
        &&& v.visits == 1
        &&& v.last == now
        &&& p.len() <= HISTORY_MAX ==> r == p
        &&& p.len() > HISTORY_MAX ==> exists|s: Seq<Visit>| #[trigger] stable_recent_first(s, p) && r == s.take(HISTORY_KEEP as int)
    }
}

/// Recording a visit keeps one entry per address and at most `HISTORY_MAX`
/// entries, whatever the visit counts; where a new address meets a full
/// history, the `HISTORY_KEEP` most recent entries stay, most recent first,
/// and none that goes is more recent than one that stays.
pub proof fn recording_keeps_the_history_bounded(h: Seq<Visit>, r: Seq<Visit>, url: Seq<char>, title: Seq<char>, now: u64)
    requires
        urls_distinct(h),
        h.len() <= HISTORY_MAX,
        visit_recorded(h, r, url, title, now),
    ensures
        urls_distinct(r),
        r.len() <= HISTORY_MAX,
        ((forall|j: int| 0 <= j < h.len() ==> (#[trigger] h[j]).url@ != url) && h.len() == HISTORY_MAX) ==> {
            &&& r.len() == HISTORY_KEEP
            &&& recent_first(r)
            &&& exists|v: Visit, s: Seq<Visit>| {
                &&& v.url@ == url
                &&& v.last == now
                &&& #[trigger] stable_recent_first(s, h.push(v))
                &&& r == s.take(HISTORY_KEEP as int)
                &&& forall|k: int, j: int| 0 <= k < HISTORY_KEEP <= j < s.len() ==> s[k].last >= s[j].last
            }
        },
{
    if exists|i: int| visit_at(h, url, i) {
        let (i, t) = choose|i: int, t: String|
            visit_at(h, url, i) && t@ == title && r == h.update(i, #[trigger] revisited(h[i], title, now, t));
        assert forall|a: int, b: int| 0 <= a < b < r.len() implies (#[trigger] r[a]).url@ != (#[trigger] r[b]).url@ by {
            assert(r[a].url == h[a].url);
            assert(r[b].url == h[b].url);
        }
        if forall|j: int| 0 <= j < h.len() ==> (#[trigger] h[j]).url@ != url {
            assert(h[i].url@ == url);
        }
    } else {
        assert forall|j: int| 0 <= j < h.len() implies (#[trigger] h[j]).url@ != url by {
            if h[j].url@ == url {
                assert forall|k: int| 0 <= k < j implies (#[trigger] h[k]).url@ != url by {
                    assert(h[k].url@ != h[j].url@);
                }
                assert(visit_at(h, url, j));
            }
        }
        let v = choose|v: Visit| #![trigger h.push(v)] {
            let p = h.push(v);
            &&& v.url@ == url
            &&& v.title@ == title
            &&& v.visits == 1
            &&& v.last == now
            &&& p.len() <= HISTORY_MAX ==> r == p
            &&& p.len() > HISTORY_MAX ==> exists|s: Seq<Visit>| #[trigger] stable_recent_first(s, p) && r == s.take(HISTORY_KEEP as int)
        };
        let p = h.push(v);
        assert(urls_distinct(p)) by {
            assert forall|a: int, b: int| 0 <= a < b < p.len() implies (#[trigger] p[a]).url@ != (#[trigger] p[b]).url@ by {
                if b == h.len() {
                    assert(p[a] == h[a]);
                } else {
                    assert(p[a] == h[a] && p[b] == h[b]);
                }
            }
        }
        if p.len() > HISTORY_MAX {
            let s = choose|s: Seq<Visit>| #[trigger] stable_recent_first(s, p) && r == s.take(HISTORY_KEEP as int);
            let perm = choose|perm: Seq<int>| #[trigger] rearranges(s, p, perm) && forall|a: int, b: int|
                0 <= a < b < s.len() && s[a].last == s[b].last ==> #[trigger] perm[a] < #[trigger] perm[b];
            assert forall|a: int, b: int| 0 <= a < b < r.len() implies (#[trigger] r[a]).url@ != (#[trigger] r[b]).url@ by {
                assert(r[a] == s[a] && r[b] == s[b]);
                assert(s[a] == p[perm[a]] && s[b] == p[perm[b]]);
                assert(perm[a] != perm[b]);
                if perm[a] < perm[b] {
                    assert(p[perm[a]].url@ != p[perm[b]].url@);
                } else {
                    assert(p[perm[b]].url@ != p[perm[a]].url@);
                }
            }
            assert forall|k: int, j: int| 0 <= k < HISTORY_KEEP <= j < s.len() implies s[k].last >= s[j].last by {
                assert(recent_first(s));
            }
            assert forall|a: int, b: int| 0 <= a < b < r.len() implies (#[trigger] r[a]).last >= (#[trigger] r[b]).last by {
                assert(r[a] == s[a] && r[b] == s[b]);
            }
        }
    }
}

impl Browser {
    /// A finished page load in the tab `id` at `now` (Unix seconds): a web
    /// address the history keeps (where the settings save it) gets one more
    /// visit, or a new entry titled like the tab. Past `HISTORY_MAX` entries
    /// the history keeps the `HISTORY_KEEP` most recent.
    pub fn record_visit(&mut self, id: u32, url: String, now: u64)
        requires
            old(self).wf(),
            (is_web(url@) && old(self).settings.save_history) ==> forall|i: int|
                #[trigger] visit_at(old(self).history@, url@, i) ==> old(self).history@[i].visits < u32::MAX,
        ensures
            final(self).wf(),
            *final(self) == (Browser { history: final(self).history, history_dirty: final(self).history_dirty, ..*old(self) }),
            !(is_web(url@) && old(self).settings.save_history) ==> *final(self) == *old(self),
            (is_web(url@) && old(self).settings.save_history) ==> {
                let title = tab_title(old(self).tabs@, id);
                &&& final(self).history_dirty
                &&& visit_recorded(old(self).history@, final(self).history@, url@, title, now)
            },
            old(self).history@.len() <= HISTORY_MAX ==> final(self).history@.len() <= HISTORY_MAX,
            urls_distinct(old(self).history@) ==> urls_distinct(final(self).history@),
            final(self).tabs == old(self).tabs,
            final(self).active == old(self).active,
            final(self).next_id == old(self).next_id,
            final(self).closed == old(self).closed,
            final(self).downloads == old(self).downloads,
            final(self).settings == old(self).settings,
    {
        let uv = chars_of(url.as_str());
        if !str_has_prefix(uv.as_slice(), "http:") && !str_has_prefix(uv.as_slice(), "https:") {
            return;
        }
        if !self.settings.save_history {
            return;
        }
        let title = match self.find_tab(id) {
            Some(i) => {
                proof {
                    let c = choose|c: int| first_tab(self.tabs@, id, c);
                    assert(c == i) by {
                        if c < i {
                            assert(self.tabs@[c].id != id);
                        } else if c > i {
                            assert(self.tabs@[i as int].id != id);
                        }
                    }
                }
                self.tabs[i].title.clone()
            },
            None => String::new(),
        };
        let tv = chars_of(title.as_str());
        let found = find_visit(&self.history, uv.as_slice());
        if let Some(i) = found {
            assert(visit_at(old(self).history@, url@, i as int));
            let ghost before = self.history@;
            self.history[i].visits = self.history[i].visits + 1;
            self.history[i].last = now;
            if tv.len() > 0 {
                self.history[i].title = title;
            }
            proof {
                assert(self.history@ =~= before.update(
                    i as int,
                    revisited(before[i as int], tab_title(old(self).tabs@, id), now, title),
                ));
                if urls_distinct(before) {
                    assert forall|a: int, b: int| 0 <= a < b < self.history@.len() implies (
                    #[trigger] self.history@[a]).url@ != (#[trigger] self.history@[b]).url@ by {
                        assert(self.history@[a].url == before[a].url);
                        assert(self.history@[b].url == before[b].url);
                    }
                }
            }
        } else {
            let ghost before = self.history@;
            let v = Visit { url, title, visits: 1, last: now };
            self.history.push(v);
            proof {
                if urls_distinct(before) {
                    assert forall|a: int, b: int| 0 <= a < b < self.history@.len() implies (
                    #[trigger] self.history@[a]).url@ != (#[trigger] self.history@[b]).url@ by {
                        if b == before.len() {
                            assert(self.history@[a] == before[a]);
                        } else {
                            assert(self.history@[a] == before[a]);
                            assert(self.history@[b] == before[b]);
                        }
                    }
                }
                assert forall|k: int| !visit_at(before, url@, k) by {}
            }
            if self.history.len() > HISTORY_MAX {
                let mut h: Vec<Visit> = Vec::new();
                std::mem::swap(&mut h, &mut self.history);
                let ghost hs = h@;
                let mut sorted = sort_recent_first(h);
                sorted.truncate(HISTORY_KEEP);
                self.history = sorted;
                proof {
                    assert(urls_distinct(hs) ==> urls_distinct(self.history@)) by {
                        if urls_distinct(hs) {
                            assert forall|a: int, b: int| 0 <= a < b < self.history@.len() implies (
                            #[trigger] self.history@[a]).url@ != (#[trigger] self.history@[b]).url@ by {}
                        }
                    }
                }
            }
        }
        self.history_dirty = true;
    }

    /// Titles often arrive after the load finishes: the history entry of the
    /// address the tab `id` shows takes its new, non-empty title.
    pub fn retitle_visit(&mut self, id: u32, title: &str)
        requires
            old(self).wf(),
        ensures
            final(self).wf(),
            *final(self) == (Browser { history: final(self).history, history_dirty: final(self).history_dirty, ..*old(self) }),
            final(self).tabs == old(self).tabs,
            final(self).active == old(self).active,
            final(self).next_id == old(self).next_id,
            final(self).closed == old(self).closed,
            final(self).settings == old(self).settings,
            final(self).history@.len() == old(self).history@.len(),
            forall|k: int| 0 <= k < old(self).history@.len() ==> (#[trigger] final(self).history@[k]).url
                == old(self).history@[k].url,
            retitles(old(self).tabs@, old(self).history@, id, title@) ==> exists|t: int, i: int| {
                &&& #[trigger] first_tab(old(self).tabs@, id, t)
                &&& #[trigger] visit_at(old(self).history@, old(self).tabs@[t].url@, i)
                &&& final(self).history@[i].title@ == title@
                &&& final(self).history@ == old(self).history@.update(
                    i,
                    Visit { title: final(self).history@[i].title, ..old(self).history@[i] },
                )
                &&& final(self).history_dirty
            },
            !retitles(old(self).tabs@, old(self).history@, id, title@) ==> final(self).history@ == old(
                self,
            ).history@ && final(self).history_dirty == old(self).history_dirty,
    {
        let t = match self.find_tab(id) {
            Some(t) => t,
            None => return,
        };
        proof {
            assert forall|j: int| #[trigger] first_tab(old(self).tabs@, id, j) implies j == t as int by {
                if j < t {
                    assert(old(self).tabs@[j].id == id);
                } else if j > t {
                    assert(old(self).tabs@[t as int].id == id);
                }
            }
        }
        let uv = chars_of(self.tabs[t].url.as_str());
        let nv = chars_of(title);
        if let Some(i) = find_visit(&self.history, uv.as_slice()) {
            proof {
                assert forall|j: int| #[trigger] visit_at(old(self).history@, uv@, j) implies j == i as int by {
                    if j < i {
                        assert(old(self).history@[j].url@ == uv@);
                    } else if j > i {
                        assert(old(self).history@[i as int].url@ == uv@);
                    }
                }
            }
            let cv = chars_of(self.history[i].title.as_str());
            if !same_chars(cv.as_slice(), nv.as_slice()) && nv.len() > 0 {
                let ghost before = self.history@;
                self.history[i].title = String::from_str(title);
                self.history_dirty = true;
                proof {
                    assert(visit_at(old(self).history@, old(self).tabs@[t as int].url@, i as int));
                    assert(self.history@ =~= before.update(
                        i as int,
                        Visit { title: self.history@[i as int].title, ..before[i as int] },
                    ));
                }
            }
        }
    }

    /// Forgets the whole history.
    pub fn clear_history(&mut self)
        requires
            old(self).wf(),
        ensures
            final(self).wf(),
            *final(self) == (Browser { history: final(self).history, history_dirty: final(self).history_dirty, ..*old(self) }),
            final(self).history@.len() == 0,
            final(self).history_dirty,
            final(self).tabs == old(self).tabs,
            final(self).active == old(self).active,
            final(self).next_id == old(self).next_id,
            final(self).closed == old(self).closed,
            final(self).settings == old(self).settings,
    {
        self.history.clear();
        self.history_dirty = true;
    }
}

} // verus!
