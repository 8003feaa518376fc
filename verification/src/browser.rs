//! The browser's state: tabs, the active tab, recently closed tabs, page
//! colors, the toolbar's island, and the settings in force. Every operation
//! here is the decision part of a command; the webviews themselves are driven
//! by the caller with what these functions return.
use vstd::prelude::*;

use crate::settings::{Mode, Settings};
use crate::text::{before_any, before_first, chars_of, is_text, str_has_prefix, starts_with, string_of};

verus! {

/// At most this many closed tabs are remembered for reopening.
pub const CLOSED_MAX: usize = 25;

/// A tab as the toolbar shows it and the browser keeps it.
pub struct Tab {
    pub id: u32,
    pub url: String,
    pub title: String,
    pub loading: bool,
    pub suspended: bool,
    /// The page's top-edge color; the strip paints it so it reads as part of the site.
    pub tint: Option<String>,
    /// Shows a PDF in our viewer (browser://pdf), under the PDF's own URL.
    pub pdf: bool,
    /// When the tab last went to the background, in milliseconds of a monotonic clock.
    pub last_active: u64,
}

/// A visited address in the history.
pub struct Visit {
    pub url: String,
    pub title: String,
    pub visits: u32,
    /// Unix seconds.
    pub last: u64,
}

/// Where a download stands.
#[derive(Clone, Copy, PartialEq, Eq, Structural, Debug)]
pub enum DownloadState {
    Active,
    Done,
    Failed,
}

/// A file the browser downloaded or saved.
pub struct Download {
    pub id: u32,
    pub url: String,
    pub path: String,
    pub state: DownloadState,
    pub started: u64,
}

/// A tab as the saved session keeps it.
pub struct SavedTab {
    pub url: String,
    pub title: String,
}

/// The saved session: the tabs worth reopening and which of them was active.
pub struct Session {
    pub tabs: Vec<SavedTab>,
    pub active: usize,
}

/// Everything the browser decides with.
pub struct Browser {
    pub settings: Settings,
    /// Auto-hide: the island is currently shown.
    pub revealed: bool,
    /// A Web Store link the settings page should install when it opens.
    pub pending_install: Option<String>,
    pub tabs: Vec<Tab>,
    pub active: Option<u32>,
    pub next_id: u32,
    pub island_open: bool,
    /// Last known strip color per host, so a revisit is painted instantly.
    pub tint_cache: Vec<(String, String)>,
    pub history: Vec<Visit>,
    pub history_dirty: bool,
    /// What session.json holds now, to skip identical writes.
    pub saved_session: String,
    /// URLs of closed tabs, newest last.
    pub closed: Vec<String>,
    pub zoom_dirty: bool,
    pub downloads: Vec<Download>,
    pub downloads_dirty: bool,
}

// ---------------------------------------------------------------------------
// Tabs

/// Some tab has the id `id`.
pub open spec fn has_tab(tabs: Seq<Tab>, id: u32) -> bool {
    exists|i: int| 0 <= i < tabs.len() && (#[trigger] tabs[i]).id == id
}

/// No two tabs share an id.
pub open spec fn ids_distinct(tabs: Seq<Tab>) -> bool {
    forall|i: int, j: int| 0 <= i < j < tabs.len() ==> (#[trigger] tabs[i]).id != (#[trigger] tabs[j]).id
}

/// `i` is the first tab with the id `id`.
pub open spec fn first_tab(tabs: Seq<Tab>, id: u32, i: int) -> bool {
    0 <= i < tabs.len() && tabs[i].id == id && forall|j: int| 0 <= j < i ==> (#[trigger] tabs[j]).id != id
}

impl Browser {
    /// The state the browser keeps together: tab ids are unique and below the
    /// next one to hand out, the active tab exists, and at most `CLOSED_MAX`
    /// closed tabs are remembered.
    pub open spec fn wf(&self) -> bool {
        &&& ids_distinct(self.tabs@)
        &&& forall|i: int| 0 <= i < self.tabs@.len() ==> (#[trigger] self.tabs@[i]).id <= self.next_id
        &&& (self.active matches Some(a) ==> has_tab(self.tabs@, a))
        &&& self.closed@.len() <= CLOSED_MAX
    }

    /// A browser with the given settings and nothing open.
    pub fn new(settings: Settings) -> (b: Browser)
        ensures
            b.wf(),
            b.settings == settings,
            b.tabs@.len() == 0,
            b.active is None,
            b.next_id == 0,
            b.closed@.len() == 0,
            b.history@.len() == 0,
            b.downloads@.len() == 0,
            b.tint_cache@.len() == 0,
            !b.revealed,
            !b.island_open,
            b.pending_install is None,
            b.saved_session@.len() == 0,
            !b.history_dirty && !b.zoom_dirty && !b.downloads_dirty,
    {
        Browser {
            settings,
            revealed: false,
            pending_install: None,
            tabs: Vec::new(),
            active: None,
            next_id: 0,
            island_open: false,
            tint_cache: Vec::new(),
            history: Vec::new(),
            history_dirty: false,
            saved_session: String::new(),
            closed: Vec::new(),
            zoom_dirty: false,
            downloads: Vec::new(),
            downloads_dirty: false,
        }
    }

    /// The position of the first tab with the id `id`.
    pub fn find_tab(&self, id: u32) -> (r: Option<usize>)
        ensures
            r matches Some(i) ==> first_tab(self.tabs@, id, i as int),
            r is None <==> !has_tab(self.tabs@, id),
    {
        let mut i: usize = 0;
        while i < self.tabs.len()
            invariant
                i <= self.tabs@.len(),
                forall|j: int| 0 <= j < i ==> (#[trigger] self.tabs@[j]).id != id,
            decreases self.tabs@.len() - i,
        {
            if self.tabs[i].id == id {
                return Some(i);
            }
            i = i + 1;
        }
        None
    }

    /// Adds a tab for `url` with the next id and returns that id. It loads
    /// right away unless its scheme is `about`; it does not become active.
    pub fn open_tab(&mut self, url: &str, scheme: &str, now: u64) -> (id: u32)
        requires
            old(self).wf(),
            old(self).next_id < u32::MAX,
        ensures
            final(self).wf(),
            *final(self) == (Browser { tabs: final(self).tabs, next_id: final(self).next_id, ..*old(self) }),
            id == old(self).next_id + 1,
            final(self).next_id == id,
            final(self).tabs@.len() == old(self).tabs@.len() + 1,
            final(self).tabs@.take(old(self).tabs@.len() as int) == old(self).tabs@,
            ({
                let t = final(self).tabs@.last();
                &&& t.id == id
                &&& t.url@ == url@
                &&& t.title@.len() == 0
                &&& t.loading == (scheme@ != "about"@)
                &&& !t.suspended
                &&& t.tint is None
                &&& !t.pdf
                &&& t.last_active == now
            }),
            final(self).active == old(self).active,
            final(self).closed == old(self).closed,
            final(self).history == old(self).history,
            final(self).downloads == old(self).downloads,
            final(self).settings == old(self).settings,
    {
        self.next_id = self.next_id + 1;
        let id = self.next_id;
        let sc = chars_of(scheme);
        let about = is_text(sc.as_slice(), "about");
        self.tabs.push(
            Tab {
                id,
                url: String::from_str(url),
                title: String::new(),
                loading: !about,
                suspended: false,
                tint: None,
                pdf: false,
                last_active: now,
            },
        );
        proof {
            assert(self.tabs@.take(old(self).tabs@.len() as int) =~= old(self).tabs@);
            assert forall|i: int| 0 <= i < old(self).tabs@.len() implies (#[trigger] self.tabs@[i]) == old(
                self,
            ).tabs@[i] by {}
            if let Some(a) = self.active {
                let i = choose|i: int| 0 <= i < old(self).tabs@.len() && (#[trigger] old(self).tabs@[i]).id == a;
                assert(self.tabs@[i].id == a);
            }
        }
        id
    }
}


/// What activating a tab found: the tab that was active before, and the URL
/// to load again where the tab had been put to sleep.
pub struct Activation {
    pub prev: Option<u32>,
    pub wake: Option<String>,
}

/// A tab after `id` became the active tab in place of `prev`: the tab that
/// goes to the background notes the time, and the new one wakes up if it slept.
pub open spec fn activated(t: Tab, id: u32, prev: Option<u32>, now: u64) -> Tab {
    let t1 = if prev == Some(t.id) { Tab { last_active: now, ..t } } else { t };
    if t1.id == id && t1.suspended {
        Tab { suspended: false, loading: true, ..t1 }
    } else {
        t1
    }
}

/// What closing the tab at `idx` hands to the closed list: its URL, unless it
/// is `about:blank`, dropping the oldest entry beyond `CLOSED_MAX`.
pub open spec fn closed_after(closed: Seq<String>, url: String) -> Seq<String> {
    if url@ == "about:blank"@ {
        closed
    } else if closed.len() >= CLOSED_MAX {
        closed.drop_first().push(url)
    } else {
        closed.push(url)
    }
}

/// The tab to show after the active tab at `idx` closed: the one that took
/// its place, else the last one.
pub open spec fn next_after_close(tabs: Seq<Tab>, idx: int) -> Option<u32> {
    if idx < tabs.len() {
        Some(tabs[idx].id)
    } else if tabs.len() > 0 {
        Some(tabs.last().id)
    } else {
        None
    }
}

impl Browser {
    /// Makes `id` the active tab. Nothing changes when there is no such tab.
    pub fn activate(&mut self, id: u32, now: u64) -> (r: Option<Activation>)
        requires
            old(self).wf(),
        ensures
            final(self).wf(),
            *final(self) == (Browser { tabs: final(self).tabs, active: final(self).active, ..*old(self) }),
            r is None <==> !has_tab(old(self).tabs@, id),
            r is None ==> *final(self) == *old(self),
            r matches Some(a) ==> {
                &&& a.prev == old(self).active
                &&& final(self).active == Some(id)
                &&& final(self).tabs@.len() == old(self).tabs@.len()
                &&& forall|i: int|
                    0 <= i < old(self).tabs@.len() ==> #[trigger] final(self).tabs@[i] == activated(
                        old(self).tabs@[i],
                        id,
                        old(self).active,
                        now,
                    )
                &&& (a.wake is Some <==> exists|i: int|
                    0 <= i < old(self).tabs@.len() && (#[trigger] old(self).tabs@[i]).id == id
                        && old(self).tabs@[i].suspended)
                &&& forall|i: int|
                    0 <= i < old(self).tabs@.len() && (#[trigger] old(self).tabs@[i]).id == id
                        ==> (a.wake matches Some(w) ==> w@ == old(self).tabs@[i].url@)
                &&& final(self).next_id == old(self).next_id
                &&& final(self).closed == old(self).closed
                &&& final(self).history == old(self).history
                &&& final(self).downloads == old(self).downloads
                &&& final(self).settings == old(self).settings
                &&& final(self).tint_cache == old(self).tint_cache
            },
    {
        if self.find_tab(id).is_none() {
            return None;
        }
        let prev = self.active;
        self.active = Some(id);
        let mut wake: Option<String> = None;
        let mut i: usize = 0;
        while i < self.tabs.len()
            invariant
                *self == (Browser { tabs: self.tabs, active: self.active, ..*old(self) }),
                i <= self.tabs@.len() == old(self).tabs@.len(),
                self.active == Some(id),
                prev == old(self).active,
                has_tab(old(self).tabs@, id),
                ids_distinct(old(self).tabs@),
                forall|j: int| 0 <= j < i ==> #[trigger] self.tabs@[j] == activated(old(self).tabs@[j], id, prev, now),
                forall|j: int| i <= j < self.tabs@.len() ==> #[trigger] self.tabs@[j] == old(self).tabs@[j],
                wake is Some <==> exists|j: int|
                    0 <= j < i && (#[trigger] old(self).tabs@[j]).id == id && old(self).tabs@[j].suspended,
                forall|j: int|
                    0 <= j < i && (#[trigger] old(self).tabs@[j]).id == id ==> (wake matches Some(w) ==> w@
                        == old(self).tabs@[j].url@),
                self.next_id == old(self).next_id,
                self.closed == old(self).closed,
                self.history == old(self).history,
                self.downloads == old(self).downloads,
                self.settings == old(self).settings,
                self.tint_cache == old(self).tint_cache,
            decreases self.tabs@.len() - i,
        {
            if prev == Some(self.tabs[i].id) {
                self.tabs[i].last_active = now;
            }
            if self.tabs[i].id == id && self.tabs[i].suspended {
                self.tabs[i].suspended = false;
                self.tabs[i].loading = true;
                wake = Some(self.tabs[i].url.clone());
            }
            proof {
                assert forall|j: int|
                    0 <= j < i + 1 && (#[trigger] old(self).tabs@[j]).id == id implies (wake matches Some(w)
                        ==> w@ == old(self).tabs@[j].url@) by {
                    if j < i && old(self).tabs@[i as int].id == id {
                        assert(old(self).tabs@[j].id != old(self).tabs@[i as int].id);
                    }
                }
                assert(self.tabs@[i as int] == activated(old(self).tabs@[i as int], id, prev, now));
            }
            i = i + 1;
        }
        proof {
            let ghost k = choose|k: int| 0 <= k < old(self).tabs@.len() && (#[trigger] old(self).tabs@[k]).id == id;
            assert(self.tabs@[k].id == id);
            assert forall|a: int, b: int| 0 <= a < b < self.tabs@.len() implies (#[trigger] self.tabs@[a]).id
                != (#[trigger] self.tabs@[b]).id by {
                assert(self.tabs@[a].id == old(self).tabs@[a].id);
                assert(self.tabs@[b].id == old(self).tabs@[b].id);
            }
            assert forall|a: int| 0 <= a < self.tabs@.len() implies (#[trigger] self.tabs@[a]).id <= self.next_id by {
                assert(self.tabs@[a].id == old(self).tabs@[a].id);
            }
        }
        Some(Activation { prev, wake })
    }

    /// Closes the tab `id`: it leaves the tab list, its URL goes to the closed
    /// list, and if it was active no tab is active any more. Returns `None`
    /// where there is no such tab, else the tab to activate next (only when the
    /// closed tab was the active one).
    pub fn close_tab(&mut self, id: u32) -> (r: Option<Option<u32>>)
        requires
            old(self).wf(),
        ensures
            final(self).wf(),
            *final(self) == (Browser { tabs: final(self).tabs, closed: final(self).closed, active: final(self).active, ..*old(self) }),
            r is None <==> !has_tab(old(self).tabs@, id),
            r is None ==> *final(self) == *old(self),
            r matches Some(next) ==> exists|idx: int| {
                &&& #[trigger] first_tab(old(self).tabs@, id, idx)
                &&& final(self).tabs@ == old(self).tabs@.remove(idx)
                &&& final(self).closed@ == closed_after(old(self).closed@, old(self).tabs@[idx].url)
                &&& if old(self).active == Some(id) {
                    final(self).active is None && next == next_after_close(final(self).tabs@, idx)
                } else {
                    final(self).active == old(self).active && next is None
                }
            },
            (r is Some && old(self).active == Some(id)) ==> exists|idx: int| {
                &&& #[trigger] first_tab(old(self).tabs@, id, idx)
                &&& idx + 1 < old(self).tabs@.len() ==> r == Some(Some(old(self).tabs@[idx + 1].id))
                &&& (idx + 1 == old(self).tabs@.len() && idx > 0) ==> r == Some(Some(old(self).tabs@[idx - 1].id))
                &&& old(self).tabs@.len() == 1 ==> r == Some(None::<u32>)
            },
            final(self).next_id == old(self).next_id,
            final(self).history == old(self).history,
            final(self).downloads == old(self).downloads,
            final(self).settings == old(self).settings,
    {
        let idx = match self.find_tab(id) {
            Some(idx) => idx,
            None => return None,
        };
        let ghost old_tabs = self.tabs@;
        let tab = self.tabs.remove(idx);
        let uc = chars_of(tab.url.as_str());
        if !is_text(uc.as_slice(), "about:blank") {
            if self.closed.len() >= CLOSED_MAX {
                self.closed.remove(0);
            }
            self.closed.push(tab.url);
        }
        proof {
            assert(tab == old_tabs[idx as int]);
            if !(tab.url@ == "about:blank"@) && old(self).closed@.len() >= CLOSED_MAX {
                assert(old(self).closed@.remove(0) =~= old(self).closed@.drop_first());
            }
        }
        let next = if self.active == Some(id) {
            self.active = None;
            if idx < self.tabs.len() {
                Some(self.tabs[idx].id)
            } else if self.tabs.len() > 0 {
                Some(self.tabs[self.tabs.len() - 1].id)
            } else {
                None
            }
        } else {
            None
        };
        proof {
            assert forall|a: int, b: int| 0 <= a < b < self.tabs@.len() implies (#[trigger] self.tabs@[a]).id
                != (#[trigger] self.tabs@[b]).id by {
                let oa = if a < idx { a } else { a + 1 };
                let ob = if b < idx { b } else { b + 1 };
                assert(self.tabs@[a] == old_tabs[oa]);
                assert(self.tabs@[b] == old_tabs[ob]);
            }
            assert forall|a: int| 0 <= a < self.tabs@.len() implies (#[trigger] self.tabs@[a]).id <= self.next_id by {
                let oa = if a < idx { a } else { a + 1 };
                assert(self.tabs@[a] == old_tabs[oa]);
            }
            if let Some(act) = self.active {
                let k = choose|k: int| 0 <= k < old_tabs.len() && (#[trigger] old_tabs[k]).id == act;
                assert(act != id);
                assert(k != idx);
                let nk = if k < idx { k } else { k - 1 };
                assert(self.tabs@[nk] == old_tabs[k]);
            }
            assert(first_tab(old(self).tabs@, id, idx as int));
        }
        Some(next)
    }

    /// Takes the most recently closed tab's URL off the closed list.
    pub fn reopen(&mut self) -> (r: Option<String>)
        requires
            old(self).wf(),
        ensures
            final(self).wf(),
            *final(self) == (Browser { closed: final(self).closed, ..*old(self) }),
            r is None <==> old(self).closed@.len() == 0,
            r matches Some(u) ==> u == old(self).closed@.last() && final(self).closed@ == old(
                self,
            ).closed@.drop_last(),
            r is None ==> final(self).closed@ == old(self).closed@,
            final(self).tabs == old(self).tabs,
            final(self).active == old(self).active,
            final(self).next_id == old(self).next_id,
    {
        self.closed.pop()
    }
}

/// What follows closing a tab.
pub enum AfterClose {
    /// No tab was left: a tab for the home page opened under this id and
    /// became the active one.
    Opened(u32),
    /// The closed tab was the active one: this tab takes its place.
    Activate(u32),
    /// Nothing more changes.
    Stay,
}

/// The scheme of a URL's serialization: what comes before its first `:`.
pub open spec fn url_scheme(url: Seq<char>) -> Seq<char> {
    before_first(url, |c: char| c == ':')
}

impl Browser {
    /// After `close_tab` answered `next`: where no tab is left, a tab for the
    /// home page (`home_url` of the settings) opens and becomes active, so the
    /// browser always keeps a tab; else the tab `next` (if any) is the one to
    /// activate.
    pub fn after_close(&mut self, next: Option<u32>, now: u64) -> (r: AfterClose)
        requires
            old(self).wf(),
            old(self).tabs@.len() == 0 ==> old(self).next_id < u32::MAX,
        ensures
            final(self).wf(),
            *final(self) == (Browser { tabs: final(self).tabs, next_id: final(self).next_id, active: final(self).active, ..*old(self) }),
            final(self).tabs@.len() > 0,
            old(self).tabs@.len() > 0 ==> *final(self) == *old(self) && r == match next {
                Some(n) => AfterClose::Activate(n),
                None => AfterClose::Stay,
            },
            old(self).tabs@.len() == 0 ==> {
                let id = (old(self).next_id + 1) as u32;
                let url = crate::urls::spec_home_url(old(self).settings.home@, old(self).settings.search);
                let t = final(self).tabs@[0];
                &&& r == AfterClose::Opened(id)
                &&& final(self).next_id == id
                &&& final(self).active == Some(id)
                &&& final(self).tabs@.len() == 1
                &&& t.id == id
                &&& t.url@ == url
                &&& t.title@.len() == 0
                &&& t.loading == (url_scheme(url) != "about"@)
                &&& !t.suspended
                &&& t.tint is None
                &&& !t.pdf
                &&& t.last_active == now
                &&& final(self).closed == old(self).closed
                &&& final(self).history == old(self).history
                &&& final(self).downloads == old(self).downloads
                &&& final(self).settings == old(self).settings
            },
    {
        if self.tabs.len() > 0 {
            return match next {
                Some(n) => AfterClose::Activate(n),
                None => AfterClose::Stay,
            };
        }
        let home = crate::urls::home_url(&self.settings);
        let hv = chars_of(home.as_str());
        let colon = chars_of(":");
        proof {
            reveal_strlit(":");
            assert(colon@ =~= seq![':']);
            assert forall|c: char| colon@.contains(c) == (c == ':') by {
                if c == ':' {
                    assert(colon@[0] == c);
                }
            }
            assert((|c: char| colon@.contains(c)) =~= (|c: char| c == ':'));
        }
        let scheme = before_any(hv.as_slice(), colon.as_slice());
        let scheme = string_of(scheme.as_slice());
        let id = self.open_tab(home.as_str(), scheme.as_str(), now);
        let ghost opened = *self;
        let a = self.activate(id, now);
        proof {
            assert(opened.tabs@.len() == 1);
            assert(opened.tabs@[0].id == id);
            assert(has_tab(opened.tabs@, id));
            assert(opened.active is None);
            assert(self.tabs@[0] == activated(opened.tabs@[0], id, None, now));
        }
        AfterClose::Opened(id)
    }
}

/// The milliseconds from `then` to `now` on a monotonic clock, zero if `now` is earlier.
pub open spec fn elapsed(now: u64, then: u64) -> int {
    if now >= then { now - then } else { 0 }
}

/// A background tab that has been idle for longer than `after_ms`.
pub open spec fn is_idle(t: Tab, active: Option<u32>, now: u64, after_ms: int) -> bool {
    Some(t.id) != active && !t.suspended && elapsed(now, t.last_active) > after_ms
}

/// A tab put to sleep: its webview goes, its URL stays.
pub open spec fn asleep(t: Tab) -> Tab {
    Tab { suspended: true, loading: false, ..t }
}

/// The ids of the idle tabs, in tab order.
pub open spec fn idle_ids(tabs: Seq<Tab>, active: Option<u32>, now: u64, after_ms: int) -> Seq<u32>
    decreases tabs.len(),
{
    if tabs.len() == 0 {
        Seq::empty()
    } else {
        let rest = idle_ids(tabs.drop_last(), active, now, after_ms);
        if is_idle(tabs.last(), active, now, after_ms) {
            rest.push(tabs.last().id)
        } else {
            rest
        }
    }
}

/// The tabs that the saved session keeps: all but `about:blank`, as (URL, title).
pub open spec fn saved_tabs(tabs: Seq<Tab>) -> Seq<(Seq<char>, Seq<char>)>
    decreases tabs.len(),
{
    if tabs.len() == 0 {
        Seq::empty()
    } else {
        let rest = saved_tabs(tabs.drop_last());
        if tabs.last().url@ == "about:blank"@ {
            rest
        } else {
            rest.push((tabs.last().url@, tabs.last().title@))
        }
    }
}

/// Where the active tab stands among the saved ones, if it is one of them.
pub open spec fn saved_position(tabs: Seq<Tab>, active: Option<u32>) -> Option<nat>
    decreases tabs.len(),
{
    if tabs.len() == 0 {
        None
    } else {
        match saved_position(tabs.drop_last(), active) {
            Some(p) => Some(p),
            None => if tabs.last().url@ != "about:blank"@ && Some(tabs.last().id) == active {
                Some(saved_tabs(tabs.drop_last()).len())
            } else {
                None
            },
        }
    }
}

/// The (URL, title) pairs of a saved session's tabs.
pub open spec fn saved_view(tabs: Seq<SavedTab>) -> Seq<(Seq<char>, Seq<char>)> {
    tabs.map_values(|t: SavedTab| (t.url@, t.title@))
}

/// A tab restored from the saved session: asleep, until it is activated.
pub open spec fn restored_tab(t: SavedTab, id: u32, now: u64) -> Tab {
    Tab {
        id,
        url: t.url,
        title: t.title,
        loading: false,
        suspended: true,
        tint: None,
        pdf: false,
        last_active: now,
    }
}

/// The first entry for `key` in a list of (key, value) pairs.
pub open spec fn lookup(cache: Seq<(String, String)>, key: Seq<char>) -> Option<String>
    decreases cache.len(),
{
    if cache.len() == 0 {
        None
    } else if cache[0].0@ == key {
        Some(cache[0].1)
    } else {
        lookup(cache.drop_first(), key)
    }
}

/// How a page's color is sampled: `None` where it gets no color (not a web
/// page nor one of the app's), else whether it is one of the app's own pages.
pub open spec fn spec_tint_source(url: Seq<char>, pdf: bool) -> Option<bool> {
    let internal = pdf || starts_with(url, "browser://"@);
    if !internal && !starts_with(url, "http:"@) && !starts_with(url, "https:"@) {
        None
    } else {
        Some(internal)
    }
}

/// Our own pages (settings, the PDF viewer) are tinted too, but served from the app.
pub fn tint_source(url: &str, pdf: bool) -> (r: Option<bool>)
    ensures
        r == spec_tint_source(url@, pdf),
{
    let v = chars_of(url);
    let internal = pdf || str_has_prefix(v.as_slice(), "browser://");
    if !internal && !str_has_prefix(v.as_slice(), "http:") && !str_has_prefix(v.as_slice(), "https:") {
        None
    } else {
        Some(internal)
    }
}

/// What sampling a tab's page color comes to.
pub enum TintPlan {
    /// The layout paints no page colors: only the strip does.
    Off,
    /// The page gets no color, and its old one is cleared.
    Clear,
    /// The page is sampled; `true` for the app's own pages.
    Sample(bool),
}

/// The address and PDF mark of the first tab with the id `id` (an empty
/// address where there is none).
pub open spec fn tab_page(tabs: Seq<Tab>, id: u32) -> (Seq<char>, bool) {
    if has_tab(tabs, id) {
        let i = choose|i: int| first_tab(tabs, id, i);
        (tabs[i].url@, tabs[i].pdf)
    } else {
        (Seq::empty(), false)
    }
}

/// How the page color of the tab `id` is sampled under the layout `mode`.
pub open spec fn spec_tint_plan(mode: Mode, tabs: Seq<Tab>, id: u32) -> TintPlan {
    if mode != Mode::Strip {
        TintPlan::Off
    } else {
        match spec_tint_source(tab_page(tabs, id).0, tab_page(tabs, id).1) {
            None => TintPlan::Clear,
            Some(internal) => TintPlan::Sample(internal),
        }
    }
}

impl Browser {
    /// How to sample the page color of the tab `id`: not at all outside the
    /// strip layout, else as `tint_source` says of its page.
    pub fn tint_plan(&self, id: u32) -> (r: TintPlan)
        ensures
            r == spec_tint_plan(self.settings.mode, self.tabs@, id),
    {
        if self.settings.mode != Mode::Strip {
            return TintPlan::Off;
        }
        let source = match self.find_tab(id) {
            Some(i) => {
                proof {
                    let c = choose|c: int| first_tab(self.tabs@, id, c);
                    assert(c == i) by {
                        if c < i {
                            assert(self.tabs@[c].id != id);
                        } else if c > i {
                            assert(self.tabs@[i as int].id != id);
                        }
                    }
                }
                tint_source(self.tabs[i].url.as_str(), self.tabs[i].pdf)
            },
            None => {
                proof {
                    reveal_strlit("");
                }
                tint_source("", false)
            },
        };
        match source {
            None => TintPlan::Clear,
            Some(internal) => TintPlan::Sample(internal),
        }
    }
}

/// `i` is the first tab worth saving (not `about:blank`) whose id is `active`.
pub open spec fn first_saved(tabs: Seq<Tab>, active: Option<u32>, i: int) -> bool {
    &&& 0 <= i < tabs.len()
    &&& Some(tabs[i].id) == active
    &&& tabs[i].url@ != "about:blank"@
    &&& forall|j: int| 0 <= j < i ==> !(Some((#[trigger] tabs[j]).id) == active && tabs[j].url@ != "about:blank"@)
}

proof fn lemma_no_saved_position(tabs: Seq<Tab>, active: Option<u32>)
    requires
        forall|j: int| 0 <= j < tabs.len() ==> !(Some((#[trigger] tabs[j]).id) == active && tabs[j].url@ != "about:blank"@),
    ensures
        saved_position(tabs, active) is None,
    decreases tabs.len(),
{
    if tabs.len() > 0 {
        let init = tabs.drop_last();
        assert forall|j: int| 0 <= j < init.len() implies !(Some((#[trigger] init[j]).id) == active && init[j].url@
            != "about:blank"@) by {
            assert(init[j] == tabs[j]);
        }
        lemma_no_saved_position(init, active);
        assert(tabs[tabs.len() - 1] == tabs.last());
    }
}

/// Where the first saved tab with the active id stands at `i`, the saved
/// session's active index is its place among the saved tabs, and the saved
/// tab there carries its address and title.
proof fn lemma_first_saved_position(tabs: Seq<Tab>, active: Option<u32>, i: int)
    requires
        first_saved(tabs, active, i),
    ensures
        saved_position(tabs, active) == Some(saved_tabs(tabs.take(i)).len()),
        saved_tabs(tabs.take(i)).len() < saved_tabs(tabs).len(),
        saved_tabs(tabs)[saved_tabs(tabs.take(i)).len() as int] == (tabs[i].url@, tabs[i].title@),
    decreases tabs.len(),
{
    let init = tabs.drop_last();
    if i == tabs.len() - 1 {
        assert forall|j: int| 0 <= j < init.len() implies !(Some((#[trigger] init[j]).id) == active && init[j].url@
            != "about:blank"@) by {
            assert(init[j] == tabs[j]);
        }
        lemma_no_saved_position(init, active);
        assert(tabs.take(i) =~= init);
        assert(tabs.last() == tabs[i]);
    } else {
        assert(first_saved(init, active, i)) by {
            assert(init[i] == tabs[i]);
            assert forall|j: int| 0 <= j < i implies !(Some((#[trigger] init[j]).id) == active && init[j].url@
                != "about:blank"@) by {
                assert(init[j] == tabs[j]);
            }
        }
        lemma_first_saved_position(init, active, i);
        assert(init.take(i) =~= tabs.take(i));
        assert(init[i] == tabs[i]);
    }
}

proof fn lemma_saved_bounds(tabs: Seq<Tab>, active: Option<u32>)
    ensures
        saved_tabs(tabs).len() <= tabs.len(),
        saved_position(tabs, active) matches Some(p) ==> p < saved_tabs(tabs).len(),
    decreases tabs.len(),
{
    if tabs.len() > 0 {
        lemma_saved_bounds(tabs.drop_last(), active);
    }
}

impl Browser {
    /// Puts background tabs that have been idle longer than the sleep setting
    /// to sleep and returns their ids; with the setting at 0 nothing sleeps.
    pub fn suspend_idle(&mut self, now: u64) -> (r: Vec<u32>)
        requires
            old(self).wf(),
            old(self).settings.sleep_minutes * 60 <= u64::MAX,
        ensures
            final(self).wf(),
            *final(self) == (Browser { tabs: final(self).tabs, ..*old(self) }),
            old(self).settings.sleep_minutes == 0 ==> r@.len() == 0 && *final(self) == *old(self),
            old(self).settings.sleep_minutes != 0 ==> {
                let after = old(self).settings.sleep_minutes * 60000;
                &&& r@ == idle_ids(old(self).tabs@, old(self).active, now, after)
                &&& final(self).tabs@.len() == old(self).tabs@.len()
                &&& forall|i: int|
                    0 <= i < old(self).tabs@.len() ==> #[trigger] final(self).tabs@[i] == if is_idle(
                        old(self).tabs@[i],
                        old(self).active,
                        now,
                        after,
                    ) {
                        asleep(old(self).tabs@[i])
                    } else {
                        old(self).tabs@[i]
                    }
                &&& final(self).active == old(self).active
                &&& final(self).next_id == old(self).next_id
                &&& final(self).closed == old(self).closed
                &&& final(self).history == old(self).history
                &&& final(self).downloads == old(self).downloads
                &&& final(self).settings == old(self).settings
            },
    {
        let minutes = self.settings.sleep_minutes;
        let mut victims: Vec<u32> = Vec::new();
        if minutes == 0 {
            return victims;
        }
        let after: u128 = minutes as u128 * 60000;
        let active = self.active;
        let ghost after_ms = minutes * 60000;
        let mut i: usize = 0;
        while i < self.tabs.len()
            invariant
                *self == (Browser { tabs: self.tabs, ..*old(self) }),
                i <= self.tabs@.len() == old(self).tabs@.len(),
                after == after_ms,
                active == old(self).active,
                self.active == old(self).active,
                victims@ == idle_ids(old(self).tabs@.take(i as int), active, now, after_ms),
                forall|j: int| 0 <= j < i ==> #[trigger] self.tabs@[j] == if is_idle(old(self).tabs@[j], active, now, after_ms) {
                    asleep(old(self).tabs@[j])
                } else {
                    old(self).tabs@[j]
                },
                forall|j: int| i <= j < self.tabs@.len() ==> #[trigger] self.tabs@[j] == old(self).tabs@[j],
                self.next_id == old(self).next_id,
                self.closed == old(self).closed,
                self.history == old(self).history,
                self.downloads == old(self).downloads,
                self.settings == old(self).settings,
            decreases self.tabs@.len() - i,
        {
            let t = &self.tabs[i];
            let idle_for: u64 = if now >= t.last_active { now - t.last_active } else { 0 };
            let idle = active != Some(t.id) && !t.suspended && (idle_for as u128) > after;
            let id = t.id;
            if idle {
                self.tabs[i].suspended = true;
                self.tabs[i].loading = false;
                victims.push(id);
            }
            proof {
                assert(old(self).tabs@.take(i + 1).drop_last() =~= old(self).tabs@.take(i as int));
                assert(old(self).tabs@.take(i + 1).last() == old(self).tabs@[i as int]);
                assert(idle == is_idle(old(self).tabs@[i as int], active, now, after_ms));
            }
            i = i + 1;
        }
        proof {
            assert(old(self).tabs@.take(i as int) =~= old(self).tabs@);
            assert forall|a: int, b: int| 0 <= a < b < self.tabs@.len() implies (#[trigger] self.tabs@[a]).id
                != (#[trigger] self.tabs@[b]).id by {
                assert(self.tabs@[a].id == old(self).tabs@[a].id);
                assert(self.tabs@[b].id == old(self).tabs@[b].id);
            }
            assert forall|a: int| 0 <= a < self.tabs@.len() implies (#[trigger] self.tabs@[a]).id <= self.next_id by {
                assert(self.tabs@[a].id == old(self).tabs@[a].id);
            }
            if let Some(act) = self.active {
                let k = choose|k: int| 0 <= k < old(self).tabs@.len() && (#[trigger] old(self).tabs@[k]).id == act;
                assert(self.tabs@[k].id == act);
            }
        }
        victims
    }

    /// What the saved session holds: the tabs but `about:blank` ones, and the
    /// active one's place among them (0 where it is not one of them).
    pub fn session(&self) -> (r: Session)
        ensures
            saved_view(r.tabs@) == saved_tabs(self.tabs@),
            r.active == match saved_position(self.tabs@, self.active) {
                Some(p) => p,
                None => 0,
            },
            forall|i: int| #[trigger] first_saved(self.tabs@, self.active, i) ==> {
                &&& r.active < r.tabs@.len()
                &&& r.tabs@[r.active as int].url@ == self.tabs@[i].url@
                &&& r.tabs@[r.active as int].title@ == self.tabs@[i].title@
            },
    {
        let mut tabs: Vec<SavedTab> = Vec::new();
        let mut pos: Option<usize> = None;
        let mut i: usize = 0;
        while i < self.tabs.len()
            invariant
                i <= self.tabs@.len(),
                saved_view(tabs@) == saved_tabs(self.tabs@.take(i as int)),
                pos == match saved_position(self.tabs@.take(i as int), self.active) {
                    Some(p) => Some(p as usize),
                    None => None::<usize>,
                },
                tabs@.len() <= i,
                i <= usize::MAX,
            decreases self.tabs@.len() - i,
        {
            proof {
                lemma_saved_bounds(self.tabs@.take(i + 1), self.active);
            }
            let t = &self.tabs[i];
            let uc = chars_of(t.url.as_str());
            proof {
                assert(self.tabs@.take(i + 1).drop_last() =~= self.tabs@.take(i as int));
                assert(self.tabs@.take(i + 1).last() == self.tabs@[i as int]);
            }
            if !is_text(uc.as_slice(), "about:blank") {
                if pos.is_none() && self.active == Some(t.id) {
                    pos = Some(tabs.len());
                }
                let ghost before = tabs@;
                tabs.push(SavedTab { url: t.url.clone(), title: t.title.clone() });
                proof {
                    assert(saved_view(tabs@) =~= saved_view(before).push((t.url@, t.title@)));
                }
            }
            i = i + 1;
        }
        proof {
            assert(self.tabs@.take(i as int) =~= self.tabs@);
            lemma_saved_bounds(self.tabs@, self.active);
        }
        let active = match pos {
            Some(p) => p,
            None => 0,
        };
        proof {
            assert forall|i: int| #[trigger] first_saved(self.tabs@, self.active, i) implies {
                &&& active < tabs@.len()
                &&& tabs@[active as int].url@ == self.tabs@[i].url@
                &&& tabs@[active as int].title@ == self.tabs@[i].title@
            } by {
                lemma_first_saved_position(self.tabs@, self.active, i);
                assert(saved_view(tabs@)[active as int] == (tabs@[active as int].url@, tabs@[active as int].title@));
            }
        }
        Session { tabs, active }
    }

    /// Reopens the saved session's tabs, asleep, after the open ones, and
    /// returns the id of the tab to activate. `None` where the settings do not
    /// restore sessions or the session has no tabs.
    #[verifier::spinoff_prover]
    pub fn restore(&mut self, session: Session, now: u64) -> (r: Option<u32>)
        requires
            old(self).wf(),
            (old(self).settings.restore_session && session.tabs@.len() > 0) ==> {
                let last = old(self).tabs@.len() + session.tabs@.len() - 1;
                &&& old(self).next_id + session.tabs@.len() <= u32::MAX
                &&& old(self).next_id + 1 + (if session.active < last { session.active as int } else { last }) <= u32::MAX
            },
        ensures
            final(self).wf(),
            *final(self) == (Browser { tabs: final(self).tabs, next_id: final(self).next_id, ..*old(self) }),
            (!old(self).settings.restore_session || session.tabs@.len() == 0) ==> r is None && *final(self)
                == *old(self),
            (old(self).settings.restore_session && session.tabs@.len() > 0) ==> {
                let n = session.tabs@.len();
                let first = old(self).next_id + 1;
                &&& final(self).next_id == old(self).next_id + n
                &&& final(self).tabs@.len() == old(self).tabs@.len() + n
                &&& final(self).tabs@.take(old(self).tabs@.len() as int) == old(self).tabs@
                &&& forall|k: int|
                    0 <= k < n ==> #[trigger] final(self).tabs@[old(self).tabs@.len() + k] == restored_tab(
                        session.tabs@[k],
                        (first + k) as u32,
                        now,
                    )
                &&& r == Some(
                    (first + if session.active < final(self).tabs@.len() - 1 {
                        session.active as int
                    } else {
                        final(self).tabs@.len() - 1
                    }) as u32,
                )
                &&& final(self).active == old(self).active
                &&& final(self).closed == old(self).closed
                &&& final(self).history == old(self).history
                &&& final(self).downloads == old(self).downloads
                &&& final(self).settings == old(self).settings
            },
    {
        if !self.settings.restore_session || session.tabs.len() == 0 {
            return None;
        }
        let first = self.next_id + 1;
        let ghost n0 = self.tabs@.len();
        let ghost saved = session.tabs@;
        let mut rest = session.tabs;
        let mut k: usize = 0;
        while rest.len() > 0
            invariant
                *self == (Browser { tabs: self.tabs, next_id: self.next_id, ..*old(self) }),
                k <= saved.len(),
                rest@ == saved.skip(k as int),
                self.next_id == old(self).next_id + k,
                first == old(self).next_id + 1,
                old(self).next_id + saved.len() <= u32::MAX,
                self.tabs@.len() == n0 + k,
                n0 == old(self).tabs@.len(),
                self.tabs@.take(n0 as int) == old(self).tabs@,
                forall|j: int| 0 <= j < k ==> #[trigger] self.tabs@[n0 + j] == restored_tab(saved[j], (first + j) as u32, now),
                self.active == old(self).active,
                self.closed == old(self).closed,
                self.history == old(self).history,
                self.downloads == old(self).downloads,
                self.settings == old(self).settings,
            decreases rest@.len(),
        {
            let ghost before = rest@;
            let t = rest.remove(0);
            proof {
                assert(t == saved[k as int]);
                assert(rest@ =~= saved.skip(k + 1));
            }
            self.next_id = self.next_id + 1;
            let id = self.next_id;
            let ghost old_tabs = self.tabs@;
            self.tabs.push(
                Tab {
                    id,
                    url: t.url,
                    title: t.title,
                    loading: false,
                    suspended: true,
                    tint: None,
                    pdf: false,
                    last_active: now,
                },
            );
            proof {
                assert(self.tabs@.take(n0 as int) =~= old_tabs.take(n0 as int));
                assert forall|j: int| 0 <= j < k + 1 implies #[trigger] self.tabs@[n0 + j] == restored_tab(
                    saved[j],
                    (first + j) as u32,
                    now,
                ) by {
                    if j < k {
                        assert(self.tabs@[n0 + j] == old_tabs[n0 + j]);
                    }
                }
            }
            k = k + 1;
        }
        let last = self.tabs.len() - 1;
        let m = if session.active < last { session.active } else { last };
        proof {
            assert forall|a: int, b: int| 0 <= a < b < self.tabs@.len() implies (#[trigger] self.tabs@[a]).id
                != (#[trigger] self.tabs@[b]).id by {
                if b < n0 {
                    assert(self.tabs@[a] == old(self).tabs@[a]);
                    assert(self.tabs@[b] == old(self).tabs@[b]);
                } else if a < n0 {
                    assert(self.tabs@[a] == old(self).tabs@[a]);
                    let jb = b - n0;
                    assert(self.tabs@[n0 + jb] == restored_tab(saved[jb], (first + jb) as u32, now));
                } else {
                    let ja = a - n0;
                    let jb = b - n0;
                    assert(self.tabs@[n0 + ja] == restored_tab(saved[ja], (first + ja) as u32, now));
                    assert(self.tabs@[n0 + jb] == restored_tab(saved[jb], (first + jb) as u32, now));
                }
            }
            assert forall|a: int| 0 <= a < self.tabs@.len() implies (#[trigger] self.tabs@[a]).id <= self.next_id by {
                if a < n0 {
                    assert(self.tabs@[a] == old(self).tabs@[a]);
                } else {
                    let ja = a - n0;
                    assert(self.tabs@[n0 + ja] == restored_tab(saved[ja], (first + ja) as u32, now));
                }
            }
            if let Some(act) = self.active {
                let j = choose|j: int| 0 <= j < old(self).tabs@.len() && (#[trigger] old(self).tabs@[j]).id == act;
                assert(self.tabs@[j] == old(self).tabs@[j]);
            }
        }
        Some(first + m as u32)
    }

    /// The tab `id` shows `url` and whether it is loading; a color known for
    /// the page replaces the old one. `false` where there is no such tab.
    pub fn set_page(&mut self, id: u32, url: String, loading: bool, tint: Option<String>) -> (found: bool)
        requires
            old(self).wf(),
        ensures
            final(self).wf(),
            *final(self) == (Browser { tabs: final(self).tabs, ..*old(self) }),
            found == has_tab(old(self).tabs@, id),
            !found ==> *final(self) == *old(self),
            found ==> exists|i: int| #[trigger] first_tab(old(self).tabs@, id, i) && final(self).tabs@ == old(self).tabs@.update(
                i,
                Tab {
                    url: url,
                    loading: loading,
                    tint: if tint is Some { tint } else { old(self).tabs@[i].tint },
                    ..old(self).tabs@[i]
                },
            ),
            final(self).active == old(self).active,
            final(self).next_id == old(self).next_id,
            final(self).closed == old(self).closed,
            final(self).history == old(self).history,
            final(self).downloads == old(self).downloads,
            final(self).settings == old(self).settings,
            final(self).tint_cache == old(self).tint_cache,
    {
        match self.find_tab(id) {
            Some(i) => {
                self.tabs[i].url = url;
                self.tabs[i].loading = loading;
                if tint.is_some() {
                    self.tabs[i].tint = tint;
                }
                proof {
                    self.lemma_same_ids(*old(self), i as int);
                }
                true
            },
            None => false,
        }
    }

    /// The tab `id` shows `title`. `false` where there is no such tab.
    pub fn set_title(&mut self, id: u32, title: String) -> (found: bool)
        requires
            old(self).wf(),
        ensures
            final(self).wf(),
            *final(self) == (Browser { tabs: final(self).tabs, ..*old(self) }),
            found == has_tab(old(self).tabs@, id),
            !found ==> *final(self) == *old(self),
            found ==> exists|i: int| #[trigger] first_tab(old(self).tabs@, id, i) && final(self).tabs@ == old(self).tabs@.update(
                i,
                Tab { title: title, ..old(self).tabs@[i] },
            ),
            final(self).active == old(self).active,
            final(self).next_id == old(self).next_id,
            final(self).closed == old(self).closed,
            final(self).history == old(self).history,
            final(self).downloads == old(self).downloads,
            final(self).settings == old(self).settings,
            final(self).tint_cache == old(self).tint_cache,
    {
        match self.find_tab(id) {
            Some(i) => {
                self.tabs[i].title = title;
                proof {
                    self.lemma_same_ids(*old(self), i as int);
                }
                true
            },
            None => false,
        }
    }

    /// The tab `id` gets the color `tint` (or none). `false` where there is no such tab.
    pub fn set_tint(&mut self, id: u32, tint: Option<String>) -> (found: bool)
        requires
            old(self).wf(),
        ensures
            final(self).wf(),
            *final(self) == (Browser { tabs: final(self).tabs, ..*old(self) }),
            found == has_tab(old(self).tabs@, id),
            !found ==> *final(self) == *old(self),
            found ==> exists|i: int| #[trigger] first_tab(old(self).tabs@, id, i) && final(self).tabs@ == old(self).tabs@.update(
                i,
                Tab { tint: tint, ..old(self).tabs@[i] },
            ),
            final(self).active == old(self).active,
            final(self).next_id == old(self).next_id,
            final(self).closed == old(self).closed,
            final(self).history == old(self).history,
            final(self).downloads == old(self).downloads,
            final(self).settings == old(self).settings,
            final(self).tint_cache == old(self).tint_cache,
    {
        match self.find_tab(id) {
            Some(i) => {
                self.tabs[i].tint = tint;
                proof {
                    self.lemma_same_ids(*old(self), i as int);
                }
                true
            },
            None => false,
        }
    }

    /// Whether the tab `id` shows a PDF in the viewer. `false` where there is no such tab.
    pub fn set_pdf(&mut self, id: u32, pdf: bool) -> (found: bool)
        requires
            old(self).wf(),
        ensures
            final(self).wf(),
            *final(self) == (Browser { tabs: final(self).tabs, ..*old(self) }),
            found == has_tab(old(self).tabs@, id),
            !found ==> *final(self) == *old(self),
            found ==> exists|i: int| #[trigger] first_tab(old(self).tabs@, id, i) && final(self).tabs@ == old(self).tabs@.update(
                i,
                Tab { pdf: pdf, ..old(self).tabs@[i] },
            ),
            final(self).active == old(self).active,
            final(self).next_id == old(self).next_id,
            final(self).closed == old(self).closed,
            final(self).history == old(self).history,
            final(self).downloads == old(self).downloads,
            final(self).settings == old(self).settings,
            final(self).tint_cache == old(self).tint_cache,
    {
        match self.find_tab(id) {
            Some(i) => {
                self.tabs[i].pdf = pdf;
                proof {
                    self.lemma_same_ids(*old(self), i as int);
                }
                true
            },
            None => false,
        }
    }

    /// Changing one tab's other fields keeps the state together.
    proof fn lemma_same_ids(&self, before: Browser, i: int)
        requires
            before.wf(),
            0 <= i < before.tabs@.len(),
            self.tabs@.len() == before.tabs@.len(),
            self.tabs@[i].id == before.tabs@[i].id,
            forall|j: int| 0 <= j < self.tabs@.len() && j != i ==> self.tabs@[j] == before.tabs@[j],
            self.active == before.active,
            self.next_id == before.next_id,
            self.closed@.len() == before.closed@.len(),
        ensures
            self.wf(),
            forall|j: int| 0 <= j < self.tabs@.len() ==> (#[trigger] self.tabs@[j]).id == before.tabs@[j].id,
    {
        assert forall|j: int| 0 <= j < self.tabs@.len() implies (#[trigger] self.tabs@[j]).id == before.tabs@[j].id by {
            if j != i {
                assert(self.tabs@[j] == before.tabs@[j]);
            }
        }
        assert forall|a: int, b: int| 0 <= a < b < self.tabs@.len() implies (#[trigger] self.tabs@[a]).id
            != (#[trigger] self.tabs@[b]).id by {
            assert(self.tabs@[a].id == before.tabs@[a].id);
            assert(self.tabs@[b].id == before.tabs@[b].id);
        }
        assert forall|a: int| 0 <= a < self.tabs@.len() implies (#[trigger] self.tabs@[a]).id <= self.next_id by {
            assert(self.tabs@[a].id == before.tabs@[a].id);
        }
        if let Some(act) = self.active {
            let k = choose|k: int| 0 <= k < before.tabs@.len() && (#[trigger] before.tabs@[k]).id == act;
            assert(self.tabs@[k].id == act);
        }
    }
}

/// `cache` after remembering `value` for `key`: the first entry for `key`
/// takes the new value, or a new entry goes at the end.
pub open spec fn remembered(cache: Seq<(String, String)>, key: String, value: String) -> Seq<(String, String)>
    decreases cache.len(),
{
    if cache.len() == 0 {
        seq![(key, value)]
    } else if cache[0].0@ == key@ {
        cache.update(0, (cache[0].0, value))
    } else {
        seq![cache[0]] + remembered(cache.drop_first(), key, value)
    }
}

/// A remembered color is what a later lookup of its host finds, and other
/// hosts keep theirs.
pub proof fn lookup_remembered(cache: Seq<(String, String)>, key: String, value: String, other: Seq<char>)
    ensures
        lookup(remembered(cache, key, value), key@) == Some(value),
        other != key@ ==> lookup(remembered(cache, key, value), other) == lookup(cache, other),
    decreases cache.len(),
{
    if cache.len() > 0 && cache[0].0@ != key@ {
        lookup_remembered(cache.drop_first(), key, value, other);
        let r = seq![cache[0]] + remembered(cache.drop_first(), key, value);
        assert(r.drop_first() =~= remembered(cache.drop_first(), key, value));
        assert(r[0] == cache[0]);
        assert(r.len() > 0);
    } else if cache.len() > 0 {
        let r = cache.update(0, (cache[0].0, value));
        assert(r.drop_first() =~= cache.drop_first());
        assert(r[0].0 == cache[0].0);
        if other != key@ {
            assert(lookup(r, other) == lookup(r.drop_first(), other));
            assert(lookup(cache, other) == lookup(cache.drop_first(), other));
        }
    } else {
        let e = Seq::<(String, String)>::empty();
        assert(seq![(key, value)].drop_first() =~= e);
        assert(lookup(e, other) is None);
        assert(seq![(key, value)][0] == (key, value));
    }
}

fn cache_find(cache: &Vec<(String, String)>, key: &str) -> (r: Option<usize>)
    ensures
        r matches Some(i) ==> i < cache@.len() && cache@[i as int].0@ == key@ && forall|j: int|
            0 <= j < i ==> (#[trigger] cache@[j]).0@ != key@,
        r is None ==> forall|j: int| 0 <= j < cache@.len() ==> (#[trigger] cache@[j]).0@ != key@,
{
    let kv = chars_of(key);
    let mut i: usize = 0;
    while i < cache.len()
        invariant
            i <= cache@.len(),
            kv@ == key@,
            forall|j: int| 0 <= j < i ==> (#[trigger] cache@[j]).0@ != key@,
        decreases cache@.len() - i,
    {
        let c = chars_of(cache[i].0.as_str());
        if crate::text::same_chars(c.as_slice(), kv.as_slice()) {
            return Some(i);
        }
        i = i + 1;
    }
    None
}

proof fn lemma_lookup_at(cache: Seq<(String, String)>, key: Seq<char>, i: int)
    requires
        0 <= i <= cache.len(),
        forall|j: int| 0 <= j < i ==> (#[trigger] cache[j]).0@ != key,
    ensures
        lookup(cache, key) == lookup(cache.skip(i), key),
    decreases i,
{
    if i == 0 {
        assert(cache.skip(0) =~= cache);
    } else {
        let t = cache.drop_first();
        assert(cache[0].0@ != key);
        assert forall|j: int| 0 <= j < i - 1 implies (#[trigger] t[j]).0@ != key by {
            assert(t[j] == cache[j + 1]);
        }
        lemma_lookup_at(t, key, i - 1);
        assert(t.skip(i - 1) =~= cache.skip(i));
    }
}

proof fn lemma_remembered_at(cache: Seq<(String, String)>, key: String, value: String, i: int)
    requires
        0 <= i <= cache.len(),
        forall|j: int| 0 <= j < i ==> (#[trigger] cache[j]).0@ != key@,
        i < cache.len() ==> cache[i].0@ == key@,
    ensures
        remembered(cache, key, value) == if i < cache.len() {
            cache.update(i, (cache[i].0, value))
        } else {
            cache.push((key, value))
        },
    decreases i,
{
    if i == 0 {
        if cache.len() == 0 {
            assert(seq![(key, value)] =~= cache.push((key, value)));
        }
    } else {
        let t = cache.drop_first();
        assert(cache[0].0@ != key@);
        assert forall|j: int| 0 <= j < i - 1 implies (#[trigger] t[j]).0@ != key@ by {
            assert(t[j] == cache[j + 1]);
        }
        if i < cache.len() {
            assert(t[i - 1] == cache[i]);
        }
        lemma_remembered_at(t, key, value, i - 1);
        if i < cache.len() {
            assert(seq![cache[0]] + t.update(i - 1, (t[i - 1].0, value)) =~= cache.update(i, (cache[i].0, value)));
        } else {
            assert(seq![cache[0]] + t.push((key, value)) =~= cache.push((key, value)));
        }
    }
}

/// The host a color sample of a tab showing `url` must come from: the app's
/// own (served from `base`) for its `internal` pages, else the page's.
pub open spec fn expected_host(url: Seq<char>, internal: bool, base: Seq<char>) -> Option<Seq<char>> {
    if internal {
        crate::urls::spec_host_of(base)
    } else {
        crate::urls::spec_host_of(url)
    }
}

/// `new` is `old` after a color `tint` sampled from `host` for the tab `id`:
/// where the host fits the tab's page (`applied`) the tab takes the color and,
/// for a web page sampled after the load, its host remembers it; else nothing
/// changes.
pub open spec fn took_tint(
    old: Browser,
    new: Browser,
    id: u32,
    host: Seq<char>,
    tint: String,
    internal: bool,
    base: Seq<char>,
    load: bool,
    applied: bool,
) -> bool {
    let cache = load && !internal;
    &&& applied == exists|i: int| #[trigger] first_tab(old.tabs@, id, i) && expected_host(old.tabs@[i].url@, internal, base) == Some(host)
    &&& !applied ==> new == old
    &&& applied ==> exists|i: int| #[trigger] first_tab(old.tabs@, id, i) && {
        let url = old.tabs@[i].url@;
        &&& new.tabs@ == old.tabs@.update(i, Tab { tint: Some(tint), ..old.tabs@[i] })
        &&& (cache && crate::urls::spec_host_of(url) is Some) ==> exists|k: String|
            k@ == crate::urls::spec_host_of(url)->0 && #[trigger] remembered(old.tint_cache@, k, tint) == new.tint_cache@
        &&& !(cache && crate::urls::spec_host_of(url) is Some) ==> new.tint_cache@ == old.tint_cache@
    }
    &&& new == (Browser { tabs: new.tabs, tint_cache: new.tint_cache, ..old })
}

/// The first tab with the id `id` shows `url`.
pub open spec fn shows(tabs: Seq<Tab>, id: u32, url: Seq<char>) -> bool {
    exists|i: int| 0 <= i < tabs.len() && (#[trigger] tabs[i]).id == id && tabs[i].url@ == url
}

impl Browser {
    /// The color last remembered for the host of `url`.
    pub fn cached_tint(&self, url: &str) -> (r: Option<String>)
        ensures
            r == match crate::urls::spec_host_of(url@) {
                Some(h) => lookup(self.tint_cache@, h),
                None => None,
            },
    {
        let host = match crate::urls::host_of(url) {
            Some(h) => h,
            None => return None,
        };
        match cache_find(&self.tint_cache, host.as_str()) {
            Some(i) => {
                proof {
                    lemma_lookup_at(self.tint_cache@, host@, i as int);
                }
                Some(self.tint_cache[i].1.clone())
            },
            None => {
                proof {
                    lemma_lookup_at(self.tint_cache@, host@, self.tint_cache@.len() as int);
                }
                None
            },
        }
    }

    /// Whether the tab `id` still shows `url`; a newer navigation makes an
    /// older color sample stale.
    pub fn shows_page(&self, id: u32, url: &str) -> (b: bool)
        ensures
            b == shows(self.tabs@, id, url@),
    {
        let uv = chars_of(url);
        let mut i: usize = 0;
        while i < self.tabs.len()
            invariant
                i <= self.tabs@.len(),
                uv@ == url@,
                forall|j: int| 0 <= j < i ==> !((#[trigger] self.tabs@[j]).id == id && self.tabs@[j].url@ == url@),
            decreases self.tabs@.len() - i,
        {
            let tv = chars_of(self.tabs[i].url.as_str());
            if self.tabs[i].id == id && crate::text::same_chars(tv.as_slice(), uv.as_slice()) {
                return true;
            }
            i = i + 1;
        }
        false
    }

    /// A sampled color for the tab `id`, if it still shows `url` (it may have
    /// navigated away meanwhile): the tab takes it, and with `cache` it is
    /// remembered for the page's host.
    pub fn apply_tint(&mut self, id: u32, url: &str, tint: String, cache: bool) -> (applied: bool)
        requires
            old(self).wf(),
        ensures
            final(self).wf(),
            *final(self) == (Browser { tabs: final(self).tabs, tint_cache: final(self).tint_cache, ..*old(self) }),
            applied == shows(old(self).tabs@, id, url@),
            !applied ==> *final(self) == *old(self),
            applied ==> {
                &&& exists|i: int| #[trigger] first_tab(old(self).tabs@, id, i) && final(self).tabs@ == old(self).tabs@.update(
                    i,
                    Tab { tint: Some(tint), ..old(self).tabs@[i] },
                )
                &&& (cache && crate::urls::spec_host_of(url@) is Some) ==> exists|k: String|
                    k@ == crate::urls::spec_host_of(url@)->0 && #[trigger] remembered(old(self).tint_cache@, k, tint)
                        == final(self).tint_cache@
                &&& !(cache && crate::urls::spec_host_of(url@) is Some) ==> final(self).tint_cache@ == old(
                    self,
                ).tint_cache@
            },
            final(self).active == old(self).active,
            final(self).next_id == old(self).next_id,
            final(self).closed == old(self).closed,
            final(self).history == old(self).history,
            final(self).downloads == old(self).downloads,
            final(self).settings == old(self).settings,
    {
        if !self.shows_page(id, url) {
            return false;
        }
        if cache {
            if let Some(host) = crate::urls::host_of(url) {
                let ghost hv = host@;
                match cache_find(&self.tint_cache, host.as_str()) {
                    Some(k) => {
                        proof {
                            lemma_remembered_at(self.tint_cache@, host, tint, k as int);
                        }
                        self.tint_cache[k].1 = tint.clone();
                        assert(self.tint_cache@ =~= old(self).tint_cache@.update(k as int, (old(self).tint_cache@[k as int].0, tint)));
                    },
                    None => {
                        proof {
                            lemma_remembered_at(self.tint_cache@, host, tint, self.tint_cache@.len() as int);
                        }
                        self.tint_cache.push((host, tint.clone()));
                    },
                }
            }
        }
        let found = self.set_tint(id, Some(tint));
        found
    }

    /// A color sampled from `host` for the tab `id`: it is taken where the
    /// host is the one the tab's page is served from (the app's own, served
    /// from `base`, for `internal` pages), and remembered for the page's host
    /// when it was sampled after the load (`load`) from a web page.
    pub fn accept_tint(&mut self, id: u32, host: &str, tint: String, internal: bool, base: &str, load: bool) -> (applied: bool)
        requires
            old(self).wf(),
        ensures
            final(self).wf(),
            took_tint(*old(self), *final(self), id, host@, tint, internal, base@, load, applied),
    {
        let i = match self.find_tab(id) {
            Some(i) => i,
            None => return false,
        };
        let url = self.tabs[i].url.clone();
        let expected = if internal { crate::urls::host_of(base) } else { crate::urls::host_of(url.as_str()) };
        let fits = match expected {
            Some(e) => {
                let ev = chars_of(e.as_str());
                let hv = chars_of(host);
                crate::text::same_chars(ev.as_slice(), hv.as_slice())
            },
            None => false,
        };
        proof {
            assert forall|j: int| #[trigger] first_tab(old(self).tabs@, id, j) implies j == i as int by {
                if j < i {
                    assert(old(self).tabs@[j].id == id);
                } else if j > i {
                    assert(old(self).tabs@[i as int].id == id);
                }
            }
        }
        if !fits {
            return false;
        }
        proof {
            assert(shows(old(self).tabs@, id, url@));
        }
        self.apply_tint(id, url.as_str(), tint, load && !internal)
    }

    /// The reply of a page-color sample of the tab `id`: a reported host and
    /// color go to `accept_tint`; any other reply changes nothing.
    pub fn tint_sampled(&mut self, id: u32, reply: &str, internal: bool, base: &str, load: bool) -> (applied: bool)
        requires
            old(self).wf(),
        ensures
            final(self).wf(),
            match crate::script::spec_sampled_color(reply@) {
                Some(p) => exists|t: String| t@ == p.1 && #[trigger] took_tint(
                    *old(self),
                    *final(self),
                    id,
                    p.0,
                    t,
                    internal,
                    base@,
                    load,
                    applied,
                ),
                None => !applied && *final(self) == *old(self),
            },
    {
        match crate::script::sampled_color(reply) {
            Some((host, tint)) => {
                let ghost t = tint;
                let ghost p = (host@, tint@);
                assert(crate::script::spec_sampled_color(reply@) == Some(p));
                let applied = self.accept_tint(id, host.as_str(), tint, internal, base, load);
                assert(took_tint(*old(self), *self, id, p.0, t, internal, base@, load, applied));
                assert(t@ == p.1);
                applied
            },
            None => false,
        }
    }

    /// The ids of the tabs whose page is on `host` (without `www.`), in tab order.
    pub fn tabs_on_host(&self, host: &str) -> (r: Vec<u32>)
        ensures
            r@ == self.tabs@.filter(|t: Tab| crate::urls::spec_host_of(t.url@) == Some(host@)).map_values(|t: Tab| t.id),
    {
        let hv = chars_of(host);
        let ghost pred = |t: Tab| crate::urls::spec_host_of(t.url@) == Some(host@);
        let mut ids: Vec<u32> = Vec::new();
        let mut i: usize = 0;
        while i < self.tabs.len()
            invariant
                i <= self.tabs@.len(),
                hv@ == host@,
                pred == (|t: Tab| crate::urls::spec_host_of(t.url@) == Some(host@)),
                ids@ == self.tabs@.take(i as int).filter(pred).map_values(|t: Tab| t.id),
            decreases self.tabs@.len() - i,
        {
            let on = match crate::urls::host_of(self.tabs[i].url.as_str()) {
                Some(h) => {
                    let c = chars_of(h.as_str());
                    crate::text::same_chars(c.as_slice(), hv.as_slice())
                },
                None => false,
            };
            proof {
                let tk = self.tabs@.take(i + 1);
                assert(tk.drop_last() =~= self.tabs@.take(i as int));
                self.tabs@.take(i as int).lemma_filter_push(self.tabs@[i as int], pred);
                assert(tk =~= self.tabs@.take(i as int).push(self.tabs@[i as int]));
                assert(on == pred(self.tabs@[i as int]));
            }
            if on {
                ids.push(self.tabs[i].id);
                proof {
                    let f = self.tabs@.take(i as int).filter(pred);
                    assert(f.push(self.tabs@[i as int]).map_values(|t: Tab| t.id) =~= f.map_values(|t: Tab| t.id).push(self.tabs@[i as int].id));
                }
            }
            i = i + 1;
        }
        proof {
            assert(self.tabs@.take(i as int) =~= self.tabs@);
        }
        ids
    }

    /// Forgets every remembered color (clearing the browsing data).
    pub fn clear_tints(&mut self)
        requires
            old(self).wf(),
        ensures
            final(self).wf(),
            *final(self) == (Browser { tint_cache: final(self).tint_cache, ..*old(self) }),
            final(self).tint_cache@.len() == 0,
            final(self).tabs == old(self).tabs,
            final(self).active == old(self).active,
            final(self).next_id == old(self).next_id,
            final(self).closed == old(self).closed,
    {
        self.tint_cache.clear();
    }

    /// The first tab showing the app page `page`, to switch to instead of opening another.
    pub fn find_page(&self, page: &str) -> (r: Option<u32>)
        ensures
            r matches Some(id) ==> exists|i: int|
                0 <= i < self.tabs@.len() && (#[trigger] self.tabs@[i]).id == id && starts_with(
                    self.tabs@[i].url@,
                    "browser://"@ + page@,
                ) && forall|j: int| 0 <= j < i ==> !starts_with((#[trigger] self.tabs@[j]).url@, "browser://"@ + page@),
            r is None ==> forall|j: int| 0 <= j < self.tabs@.len() ==> !starts_with((#[trigger] self.tabs@[j]).url@, "browser://"@ + page@),
    {
        let mut prefix = chars_of("browser://");
        crate::text::push_str(&mut prefix, page);
        let mut i: usize = 0;
        while i < self.tabs.len()
            invariant
                i <= self.tabs@.len(),
                prefix@ == "browser://"@ + page@,
                forall|j: int| 0 <= j < i ==> !starts_with((#[trigger] self.tabs@[j]).url@, "browser://"@ + page@),
            decreases self.tabs@.len() - i,
        {
            let uv = chars_of(self.tabs[i].url.as_str());
            if crate::text::has_prefix(uv.as_slice(), prefix.as_slice()) {
                return Some(self.tabs[i].id);
            }
            i = i + 1;
        }
        None
    }

    /// The ids of the tabs whose URL starts with `prefix`, in tab order.
    pub fn tabs_showing(&self, prefix: &str) -> (r: Vec<u32>)
        ensures
            r@ == self.tabs@.filter(|t: Tab| starts_with(t.url@, prefix@)).map_values(|t: Tab| t.id),
    {
        let pv = chars_of(prefix);
        let ghost pred = |t: Tab| starts_with(t.url@, prefix@);
        let mut ids: Vec<u32> = Vec::new();
        let mut i: usize = 0;
        while i < self.tabs.len()
            invariant
                i <= self.tabs@.len(),
                pv@ == prefix@,
                pred == (|t: Tab| starts_with(t.url@, prefix@)),
                ids@ == self.tabs@.take(i as int).filter(pred).map_values(|t: Tab| t.id),
            decreases self.tabs@.len() - i,
        {
            let uv = chars_of(self.tabs[i].url.as_str());
            proof {
                let tk = self.tabs@.take(i + 1);
                assert(tk.drop_last() =~= self.tabs@.take(i as int));
                self.tabs@.take(i as int).lemma_filter_push(self.tabs@[i as int], pred);
                assert(tk =~= self.tabs@.take(i as int).push(self.tabs@[i as int]));
            }
            if crate::text::has_prefix(uv.as_slice(), pv.as_slice()) {
                ids.push(self.tabs[i].id);
                proof {
                    let f = self.tabs@.take(i as int).filter(pred);
                    assert(f.push(self.tabs@[i as int]).map_values(|t: Tab| t.id) =~= f.map_values(|t: Tab| t.id).push(self.tabs@[i as int].id));
                }
            }
            i = i + 1;
        }
        proof {
            assert(self.tabs@.take(i as int) =~= self.tabs@);
        }
        ids
    }

    /// The URL of the active tab and whether it shows a PDF in the viewer.
    pub fn active_page(&self) -> (r: Option<(String, bool)>)
        requires
            self.wf(),
        ensures
            r is None <==> self.active is None,
            r matches Some((url, pdf)) ==> exists|i: int| #[trigger] first_tab(self.tabs@, self.active->0, i)
                && url == self.tabs@[i].url && pdf == self.tabs@[i].pdf,
    {
        let id = match self.active {
            Some(id) => id,
            None => return None,
        };
        match self.find_tab(id) {
            Some(i) => Some((self.tabs[i].url.clone(), self.tabs[i].pdf)),
            None => None,
        }
    }

    /// Opens or closes the island; a closed island is not revealed either.
    pub fn set_island_open(&mut self, open: bool)
        requires
            old(self).wf(),
        ensures
            final(self).wf(),
            *final(self) == (Browser { island_open: final(self).island_open, revealed: final(self).revealed, ..*old(self) }),
            final(self).island_open == open,
            final(self).revealed == (open && old(self).revealed),
            final(self).tabs == old(self).tabs,
            final(self).active == old(self).active,
            final(self).settings == old(self).settings,
            final(self).closed == old(self).closed,
            final(self).next_id == old(self).next_id,
    {
        self.island_open = open;
        if !open {
            self.revealed = false;
        }
    }

    /// Auto-hide: shows or hides the island as the cursor reaches the top edge
    /// or leaves it. Nothing changes while the island is open or already so;
    /// `true` when something changed.
    pub fn set_revealed(&mut self, on: bool) -> (changed: bool)
        requires
            old(self).wf(),
        ensures
            final(self).wf(),
            *final(self) == (Browser { revealed: final(self).revealed, ..*old(self) }),
            changed == (old(self).revealed != on && !old(self).island_open),
            final(self).revealed == if changed { on } else { old(self).revealed },
            final(self).island_open == old(self).island_open,
            final(self).tabs == old(self).tabs,
            final(self).active == old(self).active,
            final(self).settings == old(self).settings,
            final(self).closed == old(self).closed,
            final(self).next_id == old(self).next_id,
    {
        if self.revealed == on || self.island_open {
            return false;
        }
        self.revealed = on;
        true
    }

    /// Puts new settings in force and returns the layout that was in force.
    /// The island is hidden again; with sessions off, the saved one is forgotten.
    pub fn apply_settings(&mut self, new: Settings) -> (old_mode: Mode)
        requires
            old(self).wf(),
        ensures
            final(self).wf(),
            *final(self) == (Browser { settings: final(self).settings, revealed: final(self).revealed, saved_session: final(self).saved_session, ..*old(self) }),
            old_mode == old(self).settings.mode,
            final(self).settings == new,
            !final(self).revealed,
            final(self).saved_session@ == if new.restore_session {
                old(self).saved_session@
            } else {
                Seq::<char>::empty()
            },
            final(self).tabs == old(self).tabs,
            final(self).active == old(self).active,
            final(self).closed == old(self).closed,
            final(self).next_id == old(self).next_id,
    {
        let old_mode = self.settings.mode;
        let restore = new.restore_session;
        self.settings = new;
        self.revealed = false;
        if !restore {
            self.saved_session = String::new();
        }
        old_mode
    }

    /// What the periodic save writes: the session where sessions are kept
    /// and `session` (its JSON) differs from what was written last, and each
    /// of the history, the zoom levels and the downloads where it changed
    /// since. The marks are cleared and the session noted as written.
    pub fn take_writes(&mut self, session: String) -> (w: Writes)
        requires
            old(self).wf(),
        ensures
            final(self).wf(),
            *final(self) == (Browser { saved_session: final(self).saved_session, history_dirty: final(self).history_dirty, zoom_dirty: final(self).zoom_dirty, downloads_dirty: final(self).downloads_dirty, ..*old(self) }),
            w.session == (old(self).settings.restore_session && session@ != old(self).saved_session@),
            final(self).saved_session@ == if w.session { session@ } else { old(self).saved_session@ },
            w.history == old(self).history_dirty,
            w.zoom == old(self).zoom_dirty,
            w.downloads == old(self).downloads_dirty,
            !final(self).history_dirty && !final(self).zoom_dirty && !final(self).downloads_dirty,
            final(self).tabs == old(self).tabs,
            final(self).active == old(self).active,
            final(self).closed == old(self).closed,
            final(self).next_id == old(self).next_id,
            final(self).history == old(self).history,
            final(self).downloads == old(self).downloads,
            final(self).settings == old(self).settings,
    {
        let mut write_session = false;
        if self.settings.restore_session {
            let a = chars_of(session.as_str());
            let b = chars_of(self.saved_session.as_str());
            if !crate::text::same_chars(a.as_slice(), b.as_slice()) {
                self.saved_session = session;
                write_session = true;
            }
        }
        let w = Writes {
            session: write_session,
            history: self.history_dirty,
            zoom: self.zoom_dirty,
            downloads: self.downloads_dirty,
        };
        self.history_dirty = false;
        self.zoom_dirty = false;
        self.downloads_dirty = false;
        w
    }
}

/// Which files the periodic save writes.
pub struct Writes {
    pub session: bool,
    pub history: bool,
    pub zoom: bool,
    pub downloads: bool,
}

/// Reopening right after closing a tab gives back that tab's address
/// (`about:blank` tabs are not remembered), and the list before it stays.
pub proof fn reopen_after_close(closed: Seq<String>, url: String)
    requires
        url@ != "about:blank"@,
    ensures
        closed_after(closed, url).last() == url,
        closed.len() < CLOSED_MAX ==> closed_after(closed, url).drop_last() == closed,
        closed_after(closed, url).len() <= if closed.len() < CLOSED_MAX { closed.len() + 1 } else { closed.len() },
{
    if closed.len() < CLOSED_MAX {
        assert(closed.push(url).drop_last() =~= closed);
    }
}

/// The tab that becomes active is awake: a sleeping one wakes up and loads
/// (restored tabs sleep until then).
pub proof fn activated_tab_is_awake(t: Tab, prev: Option<u32>, now: u64)
    ensures
        !activated(t, t.id, prev, now).suspended,
        t.suspended ==> activated(t, t.id, prev, now).loading,
        activated(t, t.id, prev, now).url == t.url,
{
}

/// The active tab is never put to sleep.
pub proof fn active_tab_never_sleeps(t: Tab, now: u64, after_ms: int)
    ensures
        !is_idle(t, Some(t.id), now, after_ms),
{
}
/// Opening a tab never reuses an id: the one `open_tab` hands out next is
/// held by no tab.
pub proof fn new_tab_ids_are_fresh(b: Browser)
    requires
        b.wf(),
        b.next_id < u32::MAX,
    ensures
        !has_tab(b.tabs@, (b.next_id + 1) as u32),
{
    assert forall|i: int| 0 <= i < b.tabs@.len() implies (#[trigger] b.tabs@[i]).id != (b.next_id + 1) as u32 by {
        assert(b.tabs@[i].id <= b.next_id);
    }
}

proof fn lemma_saved_position(tabs: Seq<Tab>, active: Option<u32>)
    ensures
        saved_position(tabs, active) matches Some(p) ==> exists|i: int|
            0 <= i < tabs.len() && Some((#[trigger] tabs[i]).id) == active && (tabs[i].url@, tabs[i].title@)
                == saved_tabs(tabs)[p as int],
    decreases tabs.len(),
{
    if tabs.len() > 0 {
        let init = tabs.drop_last();
        lemma_saved_position(init, active);
        lemma_saved_bounds(init, active);
        match saved_position(init, active) {
            Some(p) => {
                let i = choose|i: int|
                    0 <= i < init.len() && Some((#[trigger] init[i]).id) == active && (init[i].url@, init[i].title@)
                        == saved_tabs(init)[p as int];
                assert(tabs[i] == init[i]);
            },
            None => {
                if tabs.last().url@ != "about:blank"@ && Some(tabs.last().id) == active {
                    assert(tabs[tabs.len() - 1] == tabs.last());
                }
            },
        }
    }
}

/// Restoring reopens what the session saved: each saved tab comes back with
/// its address and title, in order, asleep; and where the active tab was
/// saved at `p`, the tab that `restore` activates (the `p`-th restored one)
/// shows the page the active tab showed.
pub proof fn restore_reopens_the_saved_tabs(
    tabs: Seq<Tab>,
    active: Option<u32>,
    saved: Seq<SavedTab>,
    first: u32,
    now: u64,
)
    requires
        saved_view(saved) == saved_tabs(tabs),
    ensures
        forall|k: int|
            0 <= k < saved.len() ==> {
                let t = #[trigger] restored_tab(saved[k], (first + k) as u32, now);
                &&& (t.url@, t.title@) == saved_tabs(tabs)[k]
                &&& t.suspended && !t.loading
            },
        saved_position(tabs, active) matches Some(p) ==> p < saved.len() && exists|i: int|
            0 <= i < tabs.len() && Some((#[trigger] tabs[i]).id) == active && (tabs[i].url@, tabs[i].title@)
                == saved_tabs(tabs)[p as int],
{
    assert forall|k: int| 0 <= k < saved.len() implies {
        let t = #[trigger] restored_tab(saved[k], (first + k) as u32, now);
        &&& (t.url@, t.title@) == saved_tabs(tabs)[k]
        &&& t.suspended && !t.loading
    } by {
        assert(saved_view(saved)[k] == (saved[k].url@, saved[k].title@));
    }
    lemma_saved_bounds(tabs, active);
    lemma_saved_position(tabs, active);
}
/// When the active tab at `idx` closes, the tab shown next is the one that
/// stood right of it, which now takes its place; only where the closed tab
/// was the last one is it the tab left of it; and where it was the only tab,
/// none.
pub proof fn closing_shows_the_right_neighbour(tabs: Seq<Tab>, idx: int)
    requires
        0 <= idx < tabs.len(),
    ensures
        idx + 1 < tabs.len() ==> next_after_close(tabs.remove(idx), idx) == Some(tabs[idx + 1].id),
        (idx + 1 == tabs.len() && idx > 0) ==> next_after_close(tabs.remove(idx), idx) == Some(tabs[idx - 1].id),
        tabs.len() == 1 ==> next_after_close(tabs.remove(idx), idx) is None,
{
    let rest = tabs.remove(idx);
    if idx + 1 < tabs.len() {
        assert(rest[idx] == tabs[idx + 1]);
    } else if idx > 0 {
        assert(rest.last() == tabs[idx - 1]);
    }
}

/// The saved session remembers which tab was active: where the first tab
/// worth saving with the active id stands at `i`, the session's active index
/// is a saved tab, and that saved tab carries the active tab's address and
/// title.
pub proof fn the_session_remembers_the_active_tab(tabs: Seq<Tab>, active: Option<u32>, i: int)
    requires
        first_saved(tabs, active, i),
    ensures
        saved_position(tabs, active) matches Some(p) && p < saved_tabs(tabs).len() && saved_tabs(tabs)[p as int] == (
            tabs[i].url@,
            tabs[i].title@,
        ),
{
    lemma_first_saved_position(tabs, active, i);
}
} // verus!
