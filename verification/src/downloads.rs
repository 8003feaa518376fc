//! The downloads list: files the webviews download and PDFs the viewer saves,
//! with where they went and how they ended.
use vstd::prelude::*;

use crate::browser::{Browser, Download, DownloadState};
use crate::text::{chars_of, same_chars};

verus! {

/// At most this many downloads are listed; the oldest goes first.
pub const DOWNLOADS_MAX: usize = 200;

/// The largest id in the list, 0 for an empty one.
pub open spec fn max_id(ds: Seq<Download>) -> nat
    decreases ds.len(),
{
    if ds.len() == 0 {
        0
    } else {
        let m = max_id(ds.drop_last());
        if ds.last().id > m { ds.last().id as nat } else { m }
    }
}

/// No two downloads share an id.
pub open spec fn download_ids_distinct(ds: Seq<Download>) -> bool {
    forall|i: int, j: int| 0 <= i < j < ds.len() ==> (#[trigger] ds[i]).id != (#[trigger] ds[j]).id
}

/// A download still in progress.
pub open spec fn is_active(d: Download) -> bool {
    d.state == DownloadState::Active
}

/// `i` is the latest download of `url` that is still in progress.
pub open spec fn latest_active(ds: Seq<Download>, url: Seq<char>, i: int) -> bool {
    &&& 0 <= i < ds.len()
    &&& ds[i].url@ == url
    &&& is_active(ds[i])
    &&& forall|j: int| i < j < ds.len() ==> !((#[trigger] ds[j]).url@ == url && is_active(ds[j]))
}

/// How many downloads are in progress.
pub open spec fn active_count(ds: Seq<Download>) -> nat
    decreases ds.len(),
{
    if ds.len() == 0 {
        0
    } else {
        active_count(ds.drop_last()) + if is_active(ds.last()) { 1nat } else { 0nat }
    }
}

proof fn lemma_max_id(ds: Seq<Download>)
    ensures
        forall|i: int| 0 <= i < ds.len() ==> (#[trigger] ds[i]).id <= max_id(ds),
        max_id(ds) <= u32::MAX,
    decreases ds.len(),
{
    if ds.len() > 0 {
        lemma_max_id(ds.drop_last());
        assert forall|i: int| 0 <= i < ds.len() implies (#[trigger] ds[i]).id <= max_id(ds) by {
            if i < ds.len() - 1 {
                assert(ds[i] == ds.drop_last()[i]);
            }
        }
    }
}

impl Browser {
    /// The id the next download gets: one more than the largest so far.
    pub fn next_download_id(&self) -> (id: u32)
        requires
            forall|i: int| 0 <= i < self.downloads@.len() ==> (#[trigger] self.downloads@[i]).id < u32::MAX,
        ensures
            id == max_id(self.downloads@) + 1,
            forall|i: int| 0 <= i < self.downloads@.len() ==> (#[trigger] self.downloads@[i]).id < id,
    {
        let mut m: u32 = 0;
        let mut i: usize = 0;
        while i < self.downloads.len()
            invariant
                i <= self.downloads@.len(),
                m == max_id(self.downloads@.take(i as int)),
                m < u32::MAX,
                forall|k: int| 0 <= k < self.downloads@.len() ==> (#[trigger] self.downloads@[k]).id < u32::MAX,
            decreases self.downloads@.len() - i,
        {
            proof {
                assert(self.downloads@.take(i + 1).drop_last() =~= self.downloads@.take(i as int));
                assert(self.downloads@.take(i + 1).last() == self.downloads@[i as int]);
            }
            if self.downloads[i].id > m {
                m = self.downloads[i].id;
            }
            i = i + 1;
        }
        proof {
            assert(self.downloads@.take(i as int) =~= self.downloads@);
            lemma_max_id(self.downloads@);
        }
        m + 1
    }

    /// A webview started downloading `url` to `path` at `now` (Unix seconds):
    /// it is listed, in progress, under a new id; past `DOWNLOADS_MAX` the
    /// oldest entry goes.
    pub fn download_started(&mut self, url: String, path: String, now: u64) -> (id: u32)
        requires
            old(self).wf(),
            forall|i: int| 0 <= i < old(self).downloads@.len() ==> (#[trigger] old(self).downloads@[i]).id < u32::MAX,
        ensures
            final(self).wf(),
            *final(self) == (Browser { downloads: final(self).downloads, downloads_dirty: final(self).downloads_dirty, ..*old(self) }),
            id == max_id(old(self).downloads@) + 1,
            ({
                let d = Download { id, url, path, state: DownloadState::Active, started: now };
                let l = old(self).downloads@.push(d);
                final(self).downloads@ == if l.len() > DOWNLOADS_MAX { l.drop_first() } else { l }
            }),
            final(self).downloads_dirty,
            old(self).downloads@.len() <= DOWNLOADS_MAX ==> final(self).downloads@.len() <= DOWNLOADS_MAX,
            download_ids_distinct(old(self).downloads@) ==> download_ids_distinct(final(self).downloads@),
            final(self).tabs == old(self).tabs,
            final(self).active == old(self).active,
            final(self).next_id == old(self).next_id,
            final(self).closed == old(self).closed,
            final(self).history == old(self).history,
            final(self).settings == old(self).settings,
    {
        let id = self.next_download_id();
        let ghost before = self.downloads@;
        self.downloads.push(Download { id, url, path, state: DownloadState::Active, started: now });
        let ghost pushed = self.downloads@;
        if self.downloads.len() > DOWNLOADS_MAX {
            self.downloads.remove(0);
            assert(self.downloads@ =~= pushed.drop_first());
        }
        self.downloads_dirty = true;
        proof {
            if download_ids_distinct(before) {
                assert forall|a: int, b: int| 0 <= a < b < pushed.len() implies (#[trigger] pushed[a]).id
                    != (#[trigger] pushed[b]).id by {
                    if b < before.len() {
                        assert(pushed[a] == before[a] && pushed[b] == before[b]);
                    } else {
                        assert(pushed[a] == before[a]);
                    }
                }
                assert forall|a: int, b: int| 0 <= a < b < self.downloads@.len() implies (
                #[trigger] self.downloads@[a]).id != (#[trigger] self.downloads@[b]).id by {
                    if pushed.len() > DOWNLOADS_MAX {
                        assert(self.downloads@[a] == pushed[a + 1]);
                        assert(self.downloads@[b] == pushed[b + 1]);
                    } else {
                        assert(self.downloads@[a] == pushed[a]);
                        assert(self.downloads@[b] == pushed[b]);
                    }
                }
            }
        }
        id
    }

    /// The PDF viewer saved a copy of `url` to `path` at `now`: it is listed
    /// as done under a new id.
    pub fn download_saved(&mut self, url: String, path: String, now: u64) -> (id: u32)
        requires
            old(self).wf(),
            forall|i: int| 0 <= i < old(self).downloads@.len() ==> (#[trigger] old(self).downloads@[i]).id < u32::MAX,
        ensures
            final(self).wf(),
            *final(self) == (Browser { downloads: final(self).downloads, downloads_dirty: final(self).downloads_dirty, ..*old(self) }),
            id == max_id(old(self).downloads@) + 1,
            final(self).downloads@ == old(self).downloads@.push(
                Download { id, url, path, state: DownloadState::Done, started: now },
            ),
            final(self).downloads_dirty,
            download_ids_distinct(old(self).downloads@) ==> download_ids_distinct(final(self).downloads@),
            final(self).tabs == old(self).tabs,
            final(self).active == old(self).active,
            final(self).next_id == old(self).next_id,
            final(self).closed == old(self).closed,
            final(self).history == old(self).history,
            final(self).settings == old(self).settings,
    {
        let id = self.next_download_id();
        let ghost before = self.downloads@;
        self.downloads.push(Download { id, url, path, state: DownloadState::Done, started: now });
        self.downloads_dirty = true;
        proof {
            if download_ids_distinct(before) {
                assert forall|a: int, b: int| 0 <= a < b < self.downloads@.len() implies (
                #[trigger] self.downloads@[a]).id != (#[trigger] self.downloads@[b]).id by {
                    if b < before.len() {
                        assert(self.downloads@[a] == before[a] && self.downloads@[b] == before[b]);
                    } else {
                        assert(self.downloads@[a] == before[a]);
                    }
                }
            }
        }
        id
    }

    /// A webview finished downloading `url`: the latest download of it still in
    /// progress is done or failed, and takes the final path where one is given.
    /// `false` where no download of `url` is in progress.
    pub fn download_finished(&mut self, url: &str, path: Option<String>, success: bool) -> (found: bool)
        requires
            old(self).wf(),
        ensures
            final(self).wf(),
            *final(self) == (Browser { downloads: final(self).downloads, downloads_dirty: final(self).downloads_dirty, ..*old(self) }),
            found == exists|i: int| latest_active(old(self).downloads@, url@, i),
            !found ==> *final(self) == *old(self),
            found ==> final(self).downloads_dirty && exists|i: int|
                #[trigger] latest_active(old(self).downloads@, url@, i) && final(self).downloads@
                    == old(self).downloads@.update(
                    i,
                    Download {
                        state: if success { DownloadState::Done } else { DownloadState::Failed },
                        path: match path {
                            Some(p) => p,
                            None => old(self).downloads@[i].path,
                        },
                        ..old(self).downloads@[i]
                    },
                ),
            final(self).tabs == old(self).tabs,
            final(self).active == old(self).active,
            final(self).next_id == old(self).next_id,
            final(self).closed == old(self).closed,
            final(self).history == old(self).history,
            final(self).settings == old(self).settings,
    {
        let uv = chars_of(url);
        let mut i: usize = self.downloads.len();
        while i > 0
            invariant
                i <= self.downloads@.len(),
                uv@ == url@,
                *self == *old(self),
                old(self).wf(),
                forall|j: int| i <= j < self.downloads@.len() ==> !((#[trigger] self.downloads@[j]).url@ == url@
                    && is_active(self.downloads@[j])),
            decreases i,
        {
            let k = i - 1;
            let dv = chars_of(self.downloads[k].url.as_str());
            if same_chars(dv.as_slice(), uv.as_slice()) && self.downloads[k].state == DownloadState::Active {
                assert(latest_active(self.downloads@, url@, k as int));
                self.downloads[k].state = if success { DownloadState::Done } else { DownloadState::Failed };
                if let Some(p) = path {
                    self.downloads[k].path = p;
                }
                self.downloads_dirty = true;
                return true;
            }
            i = k;
        }
        proof {
            assert forall|j: int| !latest_active(old(self).downloads@, url@, j) by {}
        }
        false
    }

    /// Clears the finished and failed downloads from the list; those in
    /// progress stay, in order.
    pub fn clear_downloads(&mut self)
        requires
            old(self).wf(),
        ensures
            final(self).wf(),
            *final(self) == (Browser { downloads: final(self).downloads, downloads_dirty: final(self).downloads_dirty, ..*old(self) }),
            final(self).downloads@ == old(self).downloads@.filter(|d: Download| is_active(d)),
            final(self).downloads_dirty,
            final(self).tabs == old(self).tabs,
            final(self).active == old(self).active,
            final(self).next_id == old(self).next_id,
            final(self).closed == old(self).closed,
            final(self).history == old(self).history,
            final(self).settings == old(self).settings,
    {
        let ghost pred = |d: Download| is_active(d);
        let ghost orig = self.downloads@;
        let mut rest: Vec<Download> = Vec::new();
        std::mem::swap(&mut rest, &mut self.downloads);
        let mut kept: Vec<Download> = Vec::new();
        let ghost mut done: int = 0;
        assert(orig.take(0).filter(pred) =~= Seq::<Download>::empty()) by {
            assert(orig.take(0) =~= Seq::<Download>::empty());
        }
        while rest.len() > 0
            invariant
                0 <= done <= orig.len(),
                rest@ == orig.skip(done),
                pred == (|d: Download| is_active(d)),
                kept@ == orig.take(done).filter(pred),
            decreases rest@.len(),
        {
            let ghost r0 = rest@;
            let d = rest.remove(0);
            proof {
                assert(d == orig[done]);
                assert(orig.take(done + 1) =~= orig.take(done).push(d));
                orig.take(done).lemma_filter_push(d, pred);
                assert(rest@ =~= orig.skip(done + 1));
            }
            if d.state == DownloadState::Active {
                kept.push(d);
            }
            proof {
                done = done + 1;
            }
        }
        proof {
            assert(orig.take(done) =~= orig);
        }
        self.downloads = kept;
        self.downloads_dirty = true;
    }

    /// An app quit mid-download leaves it unfinished for good: every download
    /// still in progress counts as failed.
    pub fn fail_unfinished(&mut self)
        requires
            old(self).wf(),
        ensures
            final(self).wf(),
            *final(self) == (Browser { downloads: final(self).downloads, ..*old(self) }),
            final(self).downloads@.len() == old(self).downloads@.len(),
            forall|i: int| 0 <= i < old(self).downloads@.len() ==> #[trigger] final(self).downloads@[i] == if is_active(
                old(self).downloads@[i],
            ) {
                Download { state: DownloadState::Failed, ..old(self).downloads@[i] }
            } else {
                old(self).downloads@[i]
            },
            final(self).tabs == old(self).tabs,
            final(self).active == old(self).active,
            final(self).next_id == old(self).next_id,
            final(self).closed == old(self).closed,
            final(self).history == old(self).history,
            final(self).settings == old(self).settings,
    {
        let mut i: usize = 0;
        while i < self.downloads.len()
            invariant
                *self == (Browser { downloads: self.downloads, ..*old(self) }),
                i <= self.downloads@.len() == old(self).downloads@.len(),
                forall|j: int| 0 <= j < i ==> #[trigger] self.downloads@[j] == if is_active(old(self).downloads@[j]) {
                    Download { state: DownloadState::Failed, ..old(self).downloads@[j] }
                } else {
                    old(self).downloads@[j]
                },
                forall|j: int| i <= j < self.downloads@.len() ==> #[trigger] self.downloads@[j] == old(self).downloads@[j],
                self.tabs == old(self).tabs,
                self.active == old(self).active,
                self.next_id == old(self).next_id,
                self.closed == old(self).closed,
                self.history == old(self).history,
                self.settings == old(self).settings,
            decreases self.downloads@.len() - i,
        {
            if self.downloads[i].state == DownloadState::Active {
                self.downloads[i].state = DownloadState::Failed;
            }
            i = i + 1;
        }
    }

    /// How many downloads are in progress (the toolbar's badge).
    pub fn active_downloads(&self) -> (n: usize)
        ensures
            n == active_count(self.downloads@),
    {
        let mut n: usize = 0;
        let mut i: usize = 0;
        while i < self.downloads.len()
            invariant
                i <= self.downloads@.len(),
                n == active_count(self.downloads@.take(i as int)),
                n <= i,
            decreases self.downloads@.len() - i,
        {
            proof {
                assert(self.downloads@.take(i + 1).drop_last() =~= self.downloads@.take(i as int));
                assert(self.downloads@.take(i + 1).last() == self.downloads@[i as int]);
            }
            if self.downloads[i].state == DownloadState::Active {
                n = n + 1;
            }
            i = i + 1;
        }
        proof {
            assert(self.downloads@.take(i as int) =~= self.downloads@);
        }
        n
    }

    /// Where the download `id` went, if it is listed.
    pub fn download_path(&self, id: u32) -> (r: Option<String>)
        ensures
            r matches Some(p) ==> exists|i: int|
                0 <= i < self.downloads@.len() && (#[trigger] self.downloads@[i]).id == id && p == self.downloads@[i].path
                    && forall|j: int| 0 <= j < i ==> (#[trigger] self.downloads@[j]).id != id,
            r is None ==> forall|j: int| 0 <= j < self.downloads@.len() ==> (#[trigger] self.downloads@[j]).id != id,
    {
        let mut i: usize = 0;
        while i < self.downloads.len()
            invariant
                i <= self.downloads@.len(),
                forall|j: int| 0 <= j < i ==> (#[trigger] self.downloads@[j]).id != id,
            decreases self.downloads@.len() - i,
        {
            if self.downloads[i].id == id {
                return Some(self.downloads[i].path.clone());
            }
            i = i + 1;
        }
        None
    }
}

} // verus!
