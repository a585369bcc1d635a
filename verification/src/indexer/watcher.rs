//! Reaction to changes on disk: changed files wait until two samples of their
//! size and time agree, and removed files are queued for deletion.

use crate::indexer::scanner::{
    classify_file, file_type_of, text_view, DiscoveredFile, DiscoveredView,
};
use crate::indexer::{bytes_unchanged, unchanged_bytes};
use crate::paths::{file_name, file_name_of};
use crate::storage::database::FileRecord;
use crate::text::views;
use vstd::prelude::*;

verus! {

/// What the operating system reports of a path.
#[derive(Clone, Copy, PartialEq, Eq, Structural, Debug)]
pub enum FsEventKind {
    CreatedFile,
    ModifiedData,
    ModifiedAny,
    RemovedFile,
    RemovedAny,
    Other,
}

/// Where an event on a path is sent.
#[derive(Clone, Copy, PartialEq, Eq, Structural, Debug)]
pub enum EventRoute {
    Changed,
    Removed,
    Ignored,
}

/// Where an event belongs: only PDF and AI files matter, and of them only
/// creation, modification and removal.
pub open spec fn route_of(kind: FsEventKind, path: Seq<char>) -> EventRoute {
    if file_type_of(path) is None {
        EventRoute::Ignored
    } else {
        match kind {
            FsEventKind::CreatedFile | FsEventKind::ModifiedData | FsEventKind::ModifiedAny =>
                EventRoute::Changed,
            FsEventKind::RemovedFile | FsEventKind::RemovedAny => EventRoute::Removed,
            FsEventKind::Other => EventRoute::Ignored,
        }
    }
}

/// Where an event on `path` is sent.
pub fn route_event(kind: FsEventKind, path: &str) -> (r: EventRoute)
    ensures
        r == route_of(kind, path@),
{
    match classify_file(path) {
        None => EventRoute::Ignored,
        Some(_) => match kind {
            FsEventKind::CreatedFile => EventRoute::Changed,
            FsEventKind::ModifiedData => EventRoute::Changed,
            FsEventKind::ModifiedAny => EventRoute::Changed,
            FsEventKind::RemovedFile => EventRoute::Removed,
            FsEventKind::RemovedAny => EventRoute::Removed,
            FsEventKind::Other => EventRoute::Ignored,
        },
    }
}

/// Size and modification time of a file at one moment.
#[derive(Clone, Copy, PartialEq, Eq, Structural, Debug)]
pub struct FileSample {
    pub size: u64,
    pub mtime: i64,
}

/// The last sample of a file that waits to become stable.
#[derive(Clone, Copy, PartialEq, Eq, Structural, Debug)]
pub struct PendingState {
    pub last_size: u64,
    pub last_mtime: i64,
    /// Stability checks made so far.
    pub attempts: u32,
}

impl PendingState {
    /// The state of a file that has not been sampled.
    pub open spec fn fresh() -> PendingState {
        PendingState { last_size: u64::MAX, last_mtime: i64::MIN, attempts: 0 }
    }

    /// The state after one more sample.
    pub open spec fn sampled(self, s: FileSample) -> PendingState {
        PendingState { last_size: s.size, last_mtime: s.mtime, attempts: (self.attempts + 1) as u32 }
    }
}

impl Default for PendingState {
    fn default() -> (r: Self)
        ensures
            r == PendingState::fresh(),
    {
        PendingState { last_size: u64::MAX, last_mtime: i64::MIN, attempts: 0 }
    }
}

/// What becomes of a waiting file after a sample.
#[derive(Clone, Copy, PartialEq, Eq, Structural, Debug)]
pub enum Verdict {
    /// It is gone from disk.
    Vanished,
    /// Two samples agree: it can be indexed.
    Ready,
    /// It waits for another sample.
    Wait(PendingState),
    /// It stayed too small, or kept changing, for too long.
    GiveUp,
}

/// What becomes of a waiting file: `sample` is `None` where it could not be read.
pub open spec fn verdict(
    prev: PendingState,
    sample: Option<FileSample>,
    min_bytes: u64,
    max_retries: u32,
) -> Verdict {
    match sample {
        None => Verdict::Vanished,
        Some(s) => if s.size >= min_bytes && prev.attempts > 0 && prev.last_size == s.size
            && prev.last_mtime == s.mtime {
            Verdict::Ready
        } else if prev.attempts + 1 >= max_retries {
            Verdict::GiveUp
        } else {
            Verdict::Wait(prev.sampled(s))
        },
    }
}

/// What becomes of a waiting file.
pub fn judge(
    prev: PendingState,
    sample: Option<FileSample>,
    min_bytes: u64,
    max_retries: u32,
) -> (r: Verdict)
    requires
        prev.attempts < u32::MAX,
    ensures
        r == verdict(prev, sample, min_bytes, max_retries),
{
    match sample {
        None => Verdict::Vanished,
        Some(s) => {
            if s.size >= min_bytes && prev.attempts > 0 && prev.last_size == s.size
                && prev.last_mtime == s.mtime {
                return Verdict::Ready;
            }
            let attempts: u32 = prev.attempts + 1;
            if attempts >= max_retries {
                Verdict::GiveUp
            } else {
                Verdict::Wait(PendingState { last_size: s.size, last_mtime: s.mtime, attempts })
            }
        },
    }
}

/// A file that waits to become stable.
#[derive(Clone, Debug)]
pub struct PendingFile {
    pub path: String,
    pub state: PendingState,
}

/// The files that wait to become stable, and those that wait to be deleted.
#[derive(Clone, Debug)]
pub struct WatchQueue {
    pending: Vec<PendingFile>,
    deletes: Vec<String>,
}

/// Whether a path is among the waiting files.
pub open spec fn listed(waiting: Seq<(Seq<char>, PendingState)>, path: Seq<char>) -> bool {
    exists|i: int| 0 <= i < waiting.len() && (#[trigger] waiting[i]).0 == path
}

/// What a tick makes of the waiting files: those that wait on, and those that are
/// ready, each in order.
pub open spec fn after_tick(
    waiting: Seq<(Seq<char>, PendingState)>,
    samples: Seq<Option<FileSample>>,
    min_bytes: u64,
    max_retries: u32,
) -> (Seq<(Seq<char>, PendingState)>, Seq<Seq<char>>)
    decreases waiting.len(),
{
    if waiting.len() == 0 {
        (Seq::empty(), Seq::empty())
    } else {
        let (kept, ready) = after_tick(
            waiting.drop_last(),
            samples.drop_last(),
            min_bytes,
            max_retries,
        );
        let (path, state) = waiting.last();
        match verdict(state, samples.last(), min_bytes, max_retries) {
            Verdict::Ready => (kept, ready.push(path)),
            Verdict::Wait(next) => (kept.push((path, next)), ready),
            Verdict::Vanished | Verdict::GiveUp => (kept, ready),
        }
    }
}

impl WatchQueue {
    /// The waiting files with their states.
    pub closed spec fn waiting(self) -> Seq<(Seq<char>, PendingState)> {
        self.pending@.map_values(|p: PendingFile| (p.path@, p.state))
    }

    /// The paths that wait to be deleted.
    pub closed spec fn removals(self) -> Seq<Seq<char>> {
        views(self.deletes@)
    }

    /// No path waits twice, and no file has been sampled as often as a counter
    /// can hold.
    pub open spec fn wf(self) -> bool {
        &&& forall|i: int, j: int|
            0 <= i < j < self.waiting().len() ==> (#[trigger] self.waiting()[i]).0
                != (#[trigger] self.waiting()[j]).0
        &&& forall|i: int|
            0 <= i < self.waiting().len() ==> (#[trigger] self.waiting()[i]).1.attempts < u32::MAX
        &&& self.removals().no_duplicates()
    }

    /// An empty queue.
    pub fn new() -> (r: WatchQueue)
        ensures
            r.wf(),
            r.waiting() == Seq::<(Seq<char>, PendingState)>::empty(),
            r.removals() == Seq::<Seq<char>>::empty(),
    {
        let r = WatchQueue { pending: Vec::new(), deletes: Vec::new() };
        assert(r.waiting() =~= Seq::empty());
        assert(r.removals() =~= Seq::empty());
        r
    }

    fn find(&self, path: &String) -> (r: Option<usize>)
        ensures
            match r {
                Some(i) => i < self.waiting().len() && self.waiting()[i as int].0 == path@,
                None => !listed(self.waiting(), path@),
            },
    {
        let mut i: usize = 0;
        while i < self.pending.len()
            invariant
                i <= self.pending@.len(),
                forall|j: int| 0 <= j < i ==> (#[trigger] self.waiting()[j]).0 != path@,
            decreases self.pending@.len() - i,
        {
            assert(self.waiting()[i as int].0 == self.pending@[i as int].path@);
            if self.pending[i].path == *path {
                return Some(i);
            }
            i = i + 1;
        }
        None
    }

    /// A file was created or modified: it begins to wait, unless it waits already.
    pub fn on_changed(&mut self, path: String)
        requires
            old(self).wf(),
        ensures
            final(self).wf(),
            final(self).removals() == old(self).removals(),
            final(self).waiting() == if listed(old(self).waiting(), path@) {
                old(self).waiting()
            } else {
                old(self).waiting().push((path@, PendingState::fresh()))
            },
    {
        match self.find(&path) {
            Some(i) => {
                assert(self.waiting()[i as int].0 == path@);
            },
            None => {
                let ghost before = *self;
                self.pending.push(PendingFile { path, state: PendingState::default() });
                assert(self.waiting() =~= before.waiting().push((path@, PendingState::fresh())));
                assert(self.removals() == before.removals());
            },
        }
    }

    /// A file was removed: it no longer waits to be indexed, and waits to be
    /// deleted.
    pub fn on_removed(&mut self, path: String)
        requires
            old(self).wf(),
        ensures
            final(self).wf(),
            !listed(old(self).waiting(), path@) ==> final(self).waiting() == old(self).waiting(),
            forall|i: int|
                0 <= i < old(self).waiting().len() && (#[trigger] old(self).waiting()[i]).0 == path@
                    ==> final(self).waiting() == old(self).waiting().remove(i),
            !listed(final(self).waiting(), path@),
            final(self).removals() == if old(self).removals().contains(path@) {
                old(self).removals()
            } else {
                old(self).removals().push(path@)
            },
    {
        let ghost before = *self;
        match self.find(&path) {
            Some(i) => {
                self.pending.remove(i);
                assert(self.waiting() =~= before.waiting().remove(i as int));
                assert(self.removals() == before.removals());
            },
            None => {},
        }
        assert(!listed(self.waiting(), path@));
        if !self.will_remove(&path) {
            let ghost mid = *self;
            self.deletes.push(path);
            assert(self.waiting() == mid.waiting());
            assert(self.removals() =~= before.removals().push(path@));
        }
    }

    fn will_remove(&self, path: &String) -> (r: bool)
        ensures
            r == self.removals().contains(path@),
    {
        let mut i: usize = 0;
        while i < self.deletes.len()
            invariant
                i <= self.deletes@.len(),
                forall|j: int| 0 <= j < i ==> #[trigger] self.removals()[j] != path@,
            decreases self.deletes@.len() - i,
        {
            assert(self.removals()[i as int] == self.deletes@[i as int]@);
            if self.deletes[i] == *path {
                return true;
            }
            i = i + 1;
        }
        false
    }

    /// The waiting paths, in the order in which a tick takes their samples.
    pub fn pending_paths(&self) -> (r: Vec<String>)
        ensures
            r@.len() == self.waiting().len(),
            forall|i: int| 0 <= i < r@.len() ==> (#[trigger] r@[i])@ == self.waiting()[i].0,
    {
        let mut out: Vec<String> = Vec::new();
        let mut i: usize = 0;
        while i < self.pending.len()
            invariant
                i <= self.pending@.len(),
                out@.len() == i,
                forall|j: int| 0 <= j < i ==> (#[trigger] out@[j])@ == self.waiting()[j].0,
            decreases self.pending@.len() - i,
        {
            out.push(self.pending[i].path.clone());
            i = i + 1;
        }
        out
    }

    /// Takes the paths to be deleted out of the queue.
    pub fn take_removals(&mut self) -> (r: Vec<String>)
        requires
            old(self).wf(),
        ensures
            final(self).wf(),
            views(r@) == old(self).removals(),
            final(self).removals() == Seq::<Seq<char>>::empty(),
            final(self).waiting() == old(self).waiting(),
    {
        let ghost before = *self;
        let mut batch: Vec<String> = Vec::new();
        std::mem::swap(&mut batch, &mut self.deletes);
        assert(self.removals() =~= Seq::empty());
        assert(self.waiting() == before.waiting());
        batch
    }

    /// Judges every waiting file by its sample (`None` where it could not be
    /// read) and returns the paths that are ready to be indexed.
    pub fn tick(
        &mut self,
        samples: &Vec<Option<FileSample>>,
        min_bytes: u64,
        max_retries: u32,
    ) -> (r: Vec<String>)
        requires
            old(self).wf(),
            samples@.len() == old(self).waiting().len(),
        ensures
            final(self).wf(),
            final(self).removals() == old(self).removals(),
            (final(self).waiting(), views(r@)) == after_tick(
                old(self).waiting(),
                samples@,
                min_bytes,
                max_retries,
            ),
    {
        let ghost before = *self;
        let mut kept: Vec<PendingFile> = Vec::new();
        let mut ready: Vec<String> = Vec::new();
        let mut i: usize = 0;
        let ghost w = self.waiting();
        assert(kept@.map_values(|p: PendingFile| (p.path@, p.state)) =~= Seq::empty());
        assert(views(ready@) =~= Seq::empty());
        while i < self.pending.len()
            invariant
                i <= self.pending@.len(),
                *self == before,
                w == self.waiting(),
                self.wf(),
                samples@.len() == w.len(),
                (kept@.map_values(|p: PendingFile| (p.path@, p.state)), views(ready@))
                    == after_tick(w.take(i as int), samples@.take(i as int), min_bytes, max_retries),
            decreases self.pending@.len() - i,
        {
            proof {
                assert(w.take(i + 1).drop_last() =~= w.take(i as int));
                assert(samples@.take(i + 1).drop_last() =~= samples@.take(i as int));
                assert(w[i as int] == (self.pending@[i as int].path@, self.pending@[i as int].state));
                assert(self.waiting()[i as int].1.attempts < u32::MAX);
            }
            let ghost kept_view = kept@.map_values(|p: PendingFile| (p.path@, p.state));
            let ghost ready_view = views(ready@);
            let path = self.pending[i].path.clone();
            match judge(self.pending[i].state, samples[i], min_bytes, max_retries) {
                Verdict::Ready => {
                    ready.push(path);
                    assert(views(ready@) =~= ready_view.push(path@));
                },
                Verdict::Wait(next) => {
                    kept.push(PendingFile { path, state: next });
                    assert(kept@.map_values(|p: PendingFile| (p.path@, p.state))
                        =~= kept_view.push((path@, next)));
                },
                Verdict::Vanished => {},
                Verdict::GiveUp => {},
            }
            i = i + 1;
        }
        proof {
            assert(w.take(i as int) =~= w);
            assert(samples@.take(i as int) =~= samples@);
            lemma_tick(w, samples@, min_bytes, max_retries);
        }
        self.pending = kept;
        assert(self.removals() == before.removals());
        proof {
            let t = after_tick(w, samples@, min_bytes, max_retries).0;
            assert(self.waiting() == t);
        }
        ready
    }
}

/// What waits on after a tick waited before, in the same order, so that no path
/// comes to wait twice; and no counter runs out.
proof fn lemma_tick(
    waiting: Seq<(Seq<char>, PendingState)>,
    samples: Seq<Option<FileSample>>,
    min_bytes: u64,
    max_retries: u32,
)
    requires
        samples.len() == waiting.len(),
        forall|i: int, j: int|
            0 <= i < j < waiting.len() ==> (#[trigger] waiting[i]).0 != (#[trigger] waiting[j]).0,
    ensures
        ({
            let kept = after_tick(waiting, samples, min_bytes, max_retries).0;
            &&& forall|i: int, j: int|
                0 <= i < j < kept.len() ==> (#[trigger] kept[i]).0 != (#[trigger] kept[j]).0
            &&& forall|i: int| 0 <= i < kept.len() ==> (#[trigger] kept[i]).1.attempts < u32::MAX
            &&& forall|i: int| 0 <= i < kept.len() ==> listed(waiting, (#[trigger] kept[i]).0)
        }),
    decreases waiting.len(),
{
    if waiting.len() > 0 {
        let w = waiting.drop_last();
        lemma_tick(w, samples.drop_last(), min_bytes, max_retries);
        let kept = after_tick(waiting, samples, min_bytes, max_retries).0;
        let before = after_tick(w, samples.drop_last(), min_bytes, max_retries).0;
        assert(waiting[waiting.len() - 1].0 == waiting.last().0);
        assert forall|i: int| 0 <= i < before.len() implies listed(waiting, (#[trigger] before[i]).0)
            && before[i].0 != waiting.last().0 by {
            let k = choose|k: int| 0 <= k < w.len() && (#[trigger] w[k]).0 == before[i].0;
            assert(waiting[k] == w[k]);
        }
    }
}

/// A file is dispatched only when two consecutive samples agree and it is large
/// enough; a file that was never sampled is not.
pub proof fn ready_means_two_equal_samples(
    prev: PendingState,
    sample: Option<FileSample>,
    min_bytes: u64,
    max_retries: u32,
)
    requires
        verdict(prev, sample, min_bytes, max_retries) == Verdict::Ready,
    ensures
        prev.attempts > 0,
        prev != PendingState::fresh(),
        sample == Some(FileSample { size: prev.last_size, mtime: prev.last_mtime }),
        sample->Some_0.size >= min_bytes,
{
}

/// A sample that leaves a file waiting is the one that the next is held against,
/// and uses up one of its retries: a file waits for fewer ticks than it has
/// retries.
pub proof fn waiting_is_bounded(
    prev: PendingState,
    sample: Option<FileSample>,
    min_bytes: u64,
    max_retries: u32,
    next: PendingState,
)
    requires
        prev.attempts < u32::MAX,
        verdict(prev, sample, min_bytes, max_retries) == Verdict::Wait(next),
    ensures
        next.attempts == prev.attempts + 1,
        next.attempts < max_retries,
        sample == Some(FileSample { size: next.last_size, mtime: next.last_mtime }),
{
}

/// A file that keeps its size and time from one tick to the next is dispatched at
/// the second tick, where it is large enough and has a retry left.
pub proof fn stable_file_is_dispatched(s: FileSample, min_bytes: u64, max_retries: u32)
    requires
        s.size >= min_bytes,
        max_retries >= 2,
    ensures
        ({
            let next = PendingState::fresh().sampled(s);
            &&& verdict(PendingState::fresh(), Some(s), min_bytes, max_retries) == Verdict::Wait(next)
            &&& verdict(next, Some(s), min_bytes, max_retries) == Verdict::Ready
        }),
{
}

/// What is known of a file that is ready to be indexed.
#[derive(Clone, Copy, PartialEq, Eq, Structural, Debug)]
pub struct FileMeta {
    pub size: u64,
    /// Modification time in seconds since the Unix epoch, where it can be had.
    pub mtime: Option<i64>,
}

/// What is done about a file that is ready to be indexed.
#[derive(Debug)]
pub enum ReadyStep {
    /// Nothing: it is no design file, or gone.
    Drop,
    /// Nothing: its bytes could not be hashed, so it waits again.
    Requeued,
    /// Its bytes are those indexed before: only the metadata of its row is written.
    Refresh { file: DiscoveredFile },
    /// It is indexed.
    Dispatch { file: DiscoveredFile },
}

/// The file as it is indexed.
pub open spec fn ready_file(
    path: Seq<char>,
    file_type: Seq<char>,
    meta: FileMeta,
    hash: Seq<char>,
) -> DiscoveredView {
    DiscoveredView {
        path,
        filename: match file_name_of(path) {
            Some(n) => n,
            None => Seq::empty(),
        },
        file_type,
        file_size: Some(meta.size),
        modified_at: meta.mtime,
        content_sha1: Some(hash),
    }
}

impl WatchQueue {
    /// Decides about a file that is ready: `meta` and `hash` are `None` where they
    /// could not be had, and `rec` is the row of the file, if it has one.
    pub fn settle(
        &mut self,
        path: String,
        meta: Option<FileMeta>,
        hash: Option<String>,
        rec: Option<&FileRecord>,
    ) -> (r: ReadyStep)
        requires
            old(self).wf(),
        ensures
            final(self).wf(),
            final(self).removals() == old(self).removals(),
            final(self).waiting() == if r is Requeued && !listed(old(self).waiting(), path@) {
                old(self).waiting().push((path@, PendingState::fresh()))
            } else {
                old(self).waiting()
            },
            file_type_of(path@) is None || meta is None ==> r is Drop,
            file_type_of(path@) is Some && meta is Some && hash is None ==> r is Requeued,
            file_type_of(path@) is Some && meta is Some && hash is Some ==> {
                let file = ready_file(
                    path@,
                    file_type_of(path@)->Some_0,
                    meta->Some_0,
                    hash->Some_0@,
                );
                if rec is Some && unchanged_bytes(*rec->Some_0, text_view(hash)) {
                    r is Refresh && r->Refresh_file@ == file
                } else {
                    r is Dispatch && r->Dispatch_file@ == file
                }
            },
    {
        let file_type = match classify_file(path.as_str()) {
            Some(t) => t,
            None => return ReadyStep::Drop,
        };
        let m = match meta {
            Some(m) => m,
            None => return ReadyStep::Drop,
        };
        if hash.is_none() {
            self.on_changed(path);
            return ReadyStep::Requeued;
        }
        let unchanged: bool = match rec {
            Some(rec) => bytes_unchanged(rec, &hash),
            None => false,
        };
        let filename = match file_name(path.as_str()) {
            Some(n) => n,
            None => String::new(),
        };
        let file = DiscoveredFile {
            path,
            filename,
            file_type,
            file_size: Some(m.size),
            modified_at: m.mtime,
            content_sha1: hash,
        };
        if unchanged {
            ReadyStep::Refresh { file }
        } else {
            ReadyStep::Dispatch { file }
        }
    }
}

// ── Laws of the queue ───────────────────────────────────────────────────────

/// A sample makes a waiting file ready exactly where it is large enough and equals the
/// sample before it. Otherwise the file waits on, with this sample in mind, until it
/// has been sampled as often as it may.
pub proof fn equal_samples_make_ready(
    prev: PendingState,
    sample: Option<FileSample>,
    min_bytes: u64,
    max_retries: u32,
    r: Verdict,
)
    requires
        prev.attempts < u32::MAX,
        call_ensures(judge, (prev, sample, min_bytes, max_retries), r),
    ensures
        sample is None <==> r is Vanished,
        r is Ready <==> sample is Some && sample->Some_0.size >= min_bytes && prev.attempts >= 1
            && sample->Some_0.size == prev.last_size && sample->Some_0.mtime == prev.last_mtime,
        r is GiveUp <==> sample is Some && !(r is Ready) && prev.attempts + 1 >= max_retries,
        r is Wait ==> {
            let next = r->Wait_0;
            &&& next.last_size == sample->Some_0.size
            &&& next.last_mtime == sample->Some_0.mtime
            &&& next.attempts == prev.attempts + 1
        },
{
}

proof fn lemma_tick_of(
    w: Seq<(Seq<char>, PendingState)>,
    samples: Seq<Option<FileSample>>,
    min_bytes: u64,
    max_retries: u32,
    i: int,
)
    requires
        samples.len() == w.len(),
        0 <= i < w.len(),
        forall|a: int, b: int| 0 <= a < b < w.len() ==> (#[trigger] w[a]).0 != (#[trigger] w[b]).0,
    ensures
        ({
            let (kept, ready) = after_tick(w, samples, min_bytes, max_retries);
            let v = verdict(w[i].1, samples[i], min_bytes, max_retries);
            &&& ready.contains(w[i].0) <==> v is Ready
            &&& listed(kept, w[i].0) <==> v is Wait
            &&& forall|k: int|
                0 <= k < kept.len() && (#[trigger] kept[k]).0 == w[i].0 ==> kept[k].1 == v->Wait_0
        }),
    decreases w.len(),
{
    let n = w.len() - 1;
    let init = w.drop_last();
    let s0 = samples.drop_last();
    let (kept0, ready0) = after_tick(init, s0, min_bytes, max_retries);
    let (kept, ready) = after_tick(w, samples, min_bytes, max_retries);
    assert(w.last() == w[n] && samples.last() == samples[n]);
    assert forall|a: int, b: int| 0 <= a < b < init.len() implies (#[trigger] init[a]).0 != (
    #[trigger] init[b]).0 by {
        assert(w[a].0 != w[b].0);
    }
    lemma_tick(init, s0, min_bytes, max_retries);
    lemma_ready_waited(init, s0, min_bytes, max_retries);
    if i < n {
        lemma_tick_of(init, s0, min_bytes, max_retries, i);
        assert(init[i] == w[i] && s0[i] == samples[i]);
        assert(w[i].0 != w[n].0);
        let v = verdict(w[i].1, samples[i], min_bytes, max_retries);
        if ready0.contains(w[i].0) {
            let k = choose|k: int| 0 <= k < ready0.len() && ready0[k] == w[i].0;
            assert(ready[k] == w[i].0);
        }
        if ready.contains(w[i].0) {
            let k = choose|k: int| 0 <= k < ready.len() && ready[k] == w[i].0;
            assert(k < ready0.len());
            assert(ready0[k] == w[i].0);
        }
        if listed(kept0, w[i].0) {
            let k = choose|k: int| 0 <= k < kept0.len() && (#[trigger] kept0[k]).0 == w[i].0;
            assert(kept[k].0 == w[i].0);
        }
        assert forall|k: int| 0 <= k < kept.len() && (#[trigger] kept[k]).0 == w[i].0 implies k
            < kept0.len() && kept[k] == kept0[k] by {}
        if listed(kept, w[i].0) {
            let k = choose|k: int| 0 <= k < kept.len() && (#[trigger] kept[k]).0 == w[i].0;
            assert(kept0[k].0 == w[i].0);
        }
    } else {
        assert forall|k: int| 0 <= k < kept0.len() implies (#[trigger] kept0[k]).0 != w[n].0 by {
            assert(listed(init, kept0[k].0));
            let q = choose|q: int| 0 <= q < init.len() && (#[trigger] init[q]).0 == kept0[k].0;
            assert(w[q].0 != w[n].0);
        }
        assert forall|k: int| 0 <= k < ready0.len() implies #[trigger] ready0[k] != w[n].0 by {
            assert(listed(init, ready0[k]));
            let q = choose|q: int| 0 <= q < init.len() && (#[trigger] init[q]).0 == ready0[k];
            assert(w[q].0 != w[n].0);
        }
        let v = verdict(w[n].1, samples[n], min_bytes, max_retries);
        if v is Ready {
            assert(ready[ready.len() - 1] == w[n].0);
        } else {
            assert(ready == ready0);
        }
        if v is Wait {
            assert(kept[kept.len() - 1].0 == w[n].0);
        } else {
            assert(kept == kept0);
        }
    }
}

proof fn lemma_ready_waited(
    w: Seq<(Seq<char>, PendingState)>,
    samples: Seq<Option<FileSample>>,
    min_bytes: u64,
    max_retries: u32,
)
    requires
        samples.len() == w.len(),
    ensures
        forall|k: int|
            0 <= k < after_tick(w, samples, min_bytes, max_retries).1.len() ==> listed(
                w,
                #[trigger] after_tick(w, samples, min_bytes, max_retries).1[k],
            ),
    decreases w.len(),
{
    if w.len() > 0 {
        let init = w.drop_last();
        lemma_ready_waited(init, samples.drop_last(), min_bytes, max_retries);
        let ready0 = after_tick(init, samples.drop_last(), min_bytes, max_retries).1;
        let ready = after_tick(w, samples, min_bytes, max_retries).1;
        assert forall|k: int| 0 <= k < ready.len() implies listed(w, #[trigger] ready[k]) by {
            if k < ready0.len() {
                assert(ready[k] == ready0[k]);
                let q = choose|q: int| 0 <= q < init.len() && (#[trigger] init[q]).0 == ready0[k];
                assert(w[q].0 == ready[k]);
            } else {
                assert(w[w.len() - 1].0 == ready[k]);
            }
        }
    }
}

/// A tick hands out exactly the waiting files whose two last samples agree and are
/// large enough; those that are on disk, not ready and not sampled too often wait on,
/// with their new samples; and nothing else waits.
pub proof fn a_tick_hands_out_what_is_stable(
    queue: &mut WatchQueue,
    samples: &Vec<Option<FileSample>>,
    min_bytes: u64,
    max_retries: u32,
    r: Vec<String>,
    i: int,
)
    requires
        old(queue).wf(),
        samples@.len() == old(queue).waiting().len(),
        call_ensures(WatchQueue::tick, (queue, samples, min_bytes, max_retries), r),
        0 <= i < samples@.len(),
    ensures
        ({
            let (path, state) = old(queue).waiting()[i];
            let on_disk = samples@[i] is Some;
            let s = samples@[i]->Some_0;
            let stable = on_disk && s.size >= min_bytes && state.attempts >= 1 && s.size
                == state.last_size && s.mtime == state.last_mtime;
            let waits = on_disk && !stable && state.attempts + 1 < max_retries;
            &&& stable <==> exists|k: int| 0 <= k < r@.len() && (#[trigger] r@[k])@ == path
            &&& waits <==> listed(final(queue).waiting(), path)
            &&& forall|k: int|
                0 <= k < final(queue).waiting().len() && (#[trigger] final(queue).waiting()[k]).0
                    == path ==> {
                    let next = final(queue).waiting()[k].1;
                    next.last_size == s.size && next.last_mtime == s.mtime && next.attempts
                        == state.attempts + 1
                }
        }),
        forall|k: int|
            0 <= k < final(queue).waiting().len() ==> listed(
                old(queue).waiting(),
                (#[trigger] final(queue).waiting()[k]).0,
            ),
        final(queue).removals() == old(queue).removals(),
{
    let w = old(queue).waiting();
    assert(w[i].1.attempts < u32::MAX);
    lemma_tick(w, samples@, min_bytes, max_retries);
    lemma_tick_of(w, samples@, min_bytes, max_retries, i);
    let ready = after_tick(w, samples@, min_bytes, max_retries).1;
    assert(views(r@) == ready);
    if ready.contains(w[i].0) {
        let k = choose|k: int| 0 <= k < ready.len() && ready[k] == w[i].0;
        assert(views(r@)[k] == r@[k]@);
    }
    if exists|k: int| 0 <= k < r@.len() && (#[trigger] r@[k])@ == w[i].0 {
        let k = choose|k: int| 0 <= k < r@.len() && (#[trigger] r@[k])@ == w[i].0;
        assert(views(r@)[k] == w[i].0);
    }
}

/// A file that changed waits afterwards, from the beginning unless it waited already,
/// and every file that waited still does.
pub proof fn changed_files_wait(queue: &mut WatchQueue, path: String)
    requires
        old(queue).wf(),
        call_ensures(WatchQueue::on_changed, (queue, path), ()),
    ensures
        listed(final(queue).waiting(), path@),
        forall|i: int|
            0 <= i < old(queue).waiting().len() ==> #[trigger] final(queue).waiting()[i] == old(
                queue,
            ).waiting()[i],
        !listed(old(queue).waiting(), path@) ==> final(queue).waiting().last().1.attempts == 0,
        final(queue).removals() == old(queue).removals(),
{
    if !listed(old(queue).waiting(), path@) {
        assert(final(queue).waiting()[final(queue).waiting().len() - 1].0 == path@);
    }
}

/// A file that was removed waits no more, is to be deleted, and no other file is
/// concerned.
pub proof fn removed_files_are_deleted(queue: &mut WatchQueue, path: String, other: Seq<char>)
    requires
        old(queue).wf(),
        call_ensures(WatchQueue::on_removed, (queue, path), ()),
        other != path@,
    ensures
        !listed(final(queue).waiting(), path@),
        final(queue).removals().contains(path@),
        listed(final(queue).waiting(), other) <==> listed(old(queue).waiting(), other),
        final(queue).removals().contains(other) <==> old(queue).removals().contains(other),
{
    let (w0, w1) = (old(queue).waiting(), final(queue).waiting());
    let (d0, d1) = (old(queue).removals(), final(queue).removals());
    if listed(w0, path@) {
        let i = choose|i: int| 0 <= i < w0.len() && (#[trigger] w0[i]).0 == path@;
        assert(w1 == w0.remove(i));
        if listed(w0, other) {
            let k = choose|k: int| 0 <= k < w0.len() && (#[trigger] w0[k]).0 == other;
            assert(w1[if k < i {
                k
            } else {
                k - 1
            }].0 == other);
        }
        if listed(w1, other) {
            let k = choose|k: int| 0 <= k < w1.len() && (#[trigger] w1[k]).0 == other;
            assert(w0[if k < i {
                k
            } else {
                k + 1
            }].0 == other);
        }
    }
    if !d0.contains(path@) {
        assert(d1[d1.len() - 1] == path@);
        if d0.contains(other) {
            let k = choose|k: int| 0 <= k < d0.len() && d0[k] == other;
            assert(d1[k] == other);
        }
        if d1.contains(other) {
            let k = choose|k: int| 0 <= k < d1.len() && d1[k] == other;
            assert(d0[k] == other);
        }
    }
}

/// A file that is ready is put off without being indexed only where its row holds the
/// hash of its bytes and it has been indexed; one that could not be hashed waits again;
/// and every other design file is indexed, under the hash of its bytes.
pub proof fn ready_files_with_other_bytes_are_indexed(
    queue: &mut WatchQueue,
    path: String,
    meta: Option<FileMeta>,
    hash: Option<String>,
    rec: Option<&FileRecord>,
    r: ReadyStep,
)
    requires
        old(queue).wf(),
        call_ensures(WatchQueue::settle, (queue, path, meta, hash, rec), r),
    ensures
        meta is None ==> r is Drop,
        file_type_of(path@) is None ==> r is Drop,
        file_type_of(path@) is Some && meta is Some ==> {
            let known = rec is Some && rec->Some_0.indexed_at is Some
                && rec->Some_0.content_sha1 is Some && hash is Some
                && rec->Some_0.content_sha1->Some_0@ == hash->Some_0@;
            &&& hash is None <==> r is Requeued
            &&& hash is None ==> listed(final(queue).waiting(), path@)
            &&& known <==> r is Refresh
            &&& hash is Some && !known ==> r is Dispatch && r->Dispatch_file.path@ == path@
                && r->Dispatch_file.file_type@ == file_type_of(path@)->Some_0
                && r->Dispatch_file.file_size == Some(meta->Some_0.size)
                && r->Dispatch_file.modified_at == meta->Some_0.mtime
                && r->Dispatch_file.content_sha1 is Some && r->Dispatch_file.content_sha1->Some_0@
                == hash->Some_0@
            &&& known ==> r->Refresh_file.path@ == path@ && r->Refresh_file.modified_at
                == meta->Some_0.mtime && r->Refresh_file.file_size == Some(meta->Some_0.size)
        },
        hash is Some ==> final(queue).waiting() == old(queue).waiting(),
{
    if r is Requeued && !listed(old(queue).waiting(), path@) {
        assert(final(queue).waiting()[final(queue).waiting().len() - 1].0 == path@);
    }
}

/// Only design files are followed: creation and change of one begin its waiting, and
/// its removal its deletion.
pub proof fn events_of_design_files_count(kind: FsEventKind, path: &str, r: EventRoute)
    requires
        call_ensures(route_event, (kind, path), r),
    ensures
        file_type_of(path@) is None ==> r == EventRoute::Ignored,
        file_type_of(path@) is Some ==> {
            &&& r == EventRoute::Changed <==> kind == FsEventKind::CreatedFile || kind
                == FsEventKind::ModifiedData || kind == FsEventKind::ModifiedAny
            &&& r == EventRoute::Removed <==> kind == FsEventKind::RemovedFile || kind
                == FsEventKind::RemovedAny
        },
{
}

proof fn lemma_tick_order(
    w: Seq<(Seq<char>, PendingState)>,
    samples: Seq<Option<FileSample>>,
    min_bytes: u64,
    max_retries: u32,
) -> (at: (Seq<int>, Seq<int>))
    requires
        samples.len() == w.len(),
    ensures
        ({
            let (kept, ready) = after_tick(w, samples, min_bytes, max_retries);
            &&& at.0.len() == ready.len()
            &&& at.1.len() == kept.len()
            &&& forall|k: int|
                0 <= k < ready.len() ==> 0 <= #[trigger] at.0[k] < w.len() && ready[k]
                    == w[at.0[k]].0
            &&& forall|k: int|
                0 <= k < kept.len() ==> 0 <= #[trigger] at.1[k] < w.len() && kept[k].0
                    == w[at.1[k]].0
        }),
        forall|j: int, k: int| 0 <= j < k < at.0.len() ==> #[trigger] at.0[j] < #[trigger] at.0[k],
        forall|j: int, k: int| 0 <= j < k < at.1.len() ==> #[trigger] at.1[j] < #[trigger] at.1[k],
    decreases w.len(),
{
    if w.len() == 0 {
        (Seq::empty(), Seq::empty())
    } else {
        let init = w.drop_last();
        let before = lemma_tick_order(init, samples.drop_last(), min_bytes, max_retries);
        let n = w.len() - 1;
        assert forall|k: int| 0 <= k < n implies #[trigger] init[k] == w[k] by {
        }
        match verdict(w.last().1, samples.last(), min_bytes, max_retries) {
            Verdict::Ready => (before.0.push(n), before.1),
            Verdict::Wait(_) => (before.0, before.1.push(n)),
            _ => before,
        }
    }
}

/// A tick keeps the order: what it hands out, and what waits on, stands in the order in
/// which it waited, and nothing stands there twice.
pub proof fn a_tick_keeps_the_order(
    queue: &mut WatchQueue,
    samples: &Vec<Option<FileSample>>,
    min_bytes: u64,
    max_retries: u32,
    r: Vec<String>,
) -> (at: (Seq<int>, Seq<int>))
    requires
        old(queue).wf(),
        samples@.len() == old(queue).waiting().len(),
        call_ensures(WatchQueue::tick, (queue, samples, min_bytes, max_retries), r),
    ensures
        at.0.len() == r@.len(),
        at.1.len() == final(queue).waiting().len(),
        forall|k: int|
            0 <= k < r@.len() ==> 0 <= #[trigger] at.0[k] < old(queue).waiting().len() && r@[k]@
                == old(queue).waiting()[at.0[k]].0,
        forall|k: int|
            0 <= k < at.1.len() ==> 0 <= #[trigger] at.1[k] < old(queue).waiting().len()
                && final(queue).waiting()[k].0 == old(queue).waiting()[at.1[k]].0,
        forall|j: int, k: int| 0 <= j < k < at.0.len() ==> #[trigger] at.0[j] < #[trigger] at.0[k],
        forall|j: int, k: int| 0 <= j < k < at.1.len() ==> #[trigger] at.1[j] < #[trigger] at.1[k],
{
    let at = lemma_tick_order(old(queue).waiting(), samples@, min_bytes, max_retries);
    assert(views(r@).len() == r@.len());
    assert forall|k: int| 0 <= k < r@.len() implies 0 <= #[trigger] at.0[k]
        < old(queue).waiting().len() && r@[k]@ == old(queue).waiting()[at.0[k]].0 by {
        assert(views(r@)[k] == r@[k]@);
    }
    at
}

/// A file that is ready goes on under its own name and type.
pub proof fn ready_files_keep_their_names(
    queue: &mut WatchQueue,
    path: String,
    meta: Option<FileMeta>,
    hash: Option<String>,
    rec: Option<&FileRecord>,
    r: ReadyStep,
)
    requires
        old(queue).wf(),
        call_ensures(WatchQueue::settle, (queue, path, meta, hash, rec), r),
        file_name_of(path@) is Some,
    ensures
        r is Dispatch ==> r->Dispatch_file.filename@ == file_name_of(path@)->Some_0,
        r is Refresh ==> r->Refresh_file.filename@ == file_name_of(path@)->Some_0
            && r->Refresh_file.file_type@ == file_type_of(path@)->Some_0
            && r->Refresh_file.content_sha1 is Some && r->Refresh_file.content_sha1->Some_0@
            == hash->Some_0@,
{
}

} // verus!
