//! The pool of indexing workers: what is done for each file, what is counted,
//! and what is stored of a file that was indexed.

use crate::bytes::{as_unsigned, to_unsigned};
use crate::float32::{copy_vector, Float32};
use crate::indexer::subprocess::{PageData, RegionData};
use crate::storage::database::{NewPage, NewRegion};
use vstd::prelude::*;

verus! {

/// The vector index is saved whenever this many more files are done.
pub const CHECKPOINT_EVERY: u64 = 500;

/// How far a batch has come.
#[derive(Clone, Copy, PartialEq, Eq, Structural, Debug)]
pub struct IndexProgress {
    pub processed: u64,
    pub failed: u64,
    pub excluded: u64,
    pub total: u64,
    /// Whether the batch has ended.
    pub finished: bool,
}

/// What a file is counted as.
#[derive(Clone, Copy, PartialEq, Eq, Structural, Debug)]
pub enum Counter {
    Processed,
    Failed,
    Excluded,
}

impl IndexProgress {
    /// The number of files that are done.
    pub open spec fn done_count(self) -> int {
        self.processed + self.failed + self.excluded
    }

    /// One more file counted as `c`. A counter wraps around, as an atomic one does.
    pub open spec fn counted(self, c: Counter) -> IndexProgress {
        match c {
            Counter::Processed => IndexProgress {
                processed: if self.processed == u64::MAX {
                    0
                } else {
                    (self.processed + 1) as u64
                },
                ..self
            },
            Counter::Failed => IndexProgress {
                failed: if self.failed == u64::MAX {
                    0
                } else {
                    (self.failed + 1) as u64
                },
                ..self
            },
            Counter::Excluded => IndexProgress {
                excluded: if self.excluded == u64::MAX {
                    0
                } else {
                    (self.excluded + 1) as u64
                },
                ..self
            },
        }
    }

    /// A batch of `total` files, none of which is done.
    pub fn new(total: u64) -> (r: IndexProgress)
        ensures
            r == (IndexProgress { processed: 0, failed: 0, excluded: 0, total, finished: false }),
    {
        IndexProgress { processed: 0, failed: 0, excluded: 0, total, finished: false }
    }

    /// Counts one more file.
    pub fn count(&mut self, c: Counter)
        ensures
            *final(self) == old(self).counted(c),
    {
        match c {
            Counter::Processed => {
                self.processed = self.processed.wrapping_add(1);
            },
            Counter::Failed => {
                self.failed = self.failed.wrapping_add(1);
            },
            Counter::Excluded => {
                self.excluded = self.excluded.wrapping_add(1);
            },
        }
    }

    /// The number of files that are done.
    pub fn done(&self) -> (r: u64)
        requires
            self.done_count() <= u64::MAX,
        ensures
            r == self.done_count(),
    {
        self.processed + self.failed + self.excluded
    }

    /// How many files are done and of how many, for the share to be shown: never
    /// more than all of them. There is no share of an empty batch.
    pub fn percent(&self) -> (r: Option<(u64, u64)>)
        requires
            self.done_count() <= u64::MAX,
        ensures
            r == if self.total == 0 {
                None::<(u64, u64)>
            } else if self.done_count() <= self.total {
                Some((self.done_count() as u64, self.total))
            } else {
                Some((self.total, self.total))
            },
    {
        if self.total == 0 {
            return None;
        }
        let done: u64 = self.done();
        if done <= self.total {
            Some((done, self.total))
        } else {
            Some((self.total, self.total))
        }
    }

    /// A batch of `n` files begins. One without files ends at once; the answer says
    /// whether there is anything to do.
    pub fn begin(&mut self, n: u64) -> (r: bool)
        ensures
            r == (n > 0),
            *final(self) == (IndexProgress {
                total: n,
                finished: n == 0 || old(self).finished,
                ..*old(self)
            }),
    {
        self.total = n;
        if n == 0 {
            self.finished = true;
            return false;
        }
        true
    }

    /// The counters once every worker has ended: files that no worker finished
    /// count as failed.
    pub open spec fn reconciled(self) -> IndexProgress {
        if self.done_count() < self.total {
            IndexProgress {
                failed: (self.failed + (self.total - self.done_count())) as u64,
                finished: true,
                ..self
            }
        } else if self.done_count() > self.total && self.total > 0 {
            IndexProgress { total: self.done_count() as u64, finished: true, ..self }
        } else {
            IndexProgress { finished: true, ..self }
        }
    }

    /// The batch has ended: makes the counters add up to the total.
    pub fn reconcile(&mut self)
        requires
            old(self).done_count() <= u64::MAX,
        ensures
            *final(self) == old(self).reconciled(),
    {
        let done: u64 = self.done();
        if done < self.total {
            self.failed = self.failed + (self.total - done);
        } else if done > self.total && self.total > 0 {
            self.total = done;
        }
        self.finished = true;
    }

    /// Whether the vector index is to be saved now.
    pub fn at_checkpoint(&self) -> (r: bool)
        requires
            self.done_count() <= u64::MAX,
        ensures
            r == (self.done_count() % 500 == 0),
    {
        self.done() % CHECKPOINT_EVERY == 0
    }

    /// Moves the job of one file on, and counts the file where its outcome is known.
    pub fn advance(&mut self, phase: JobPhase, event: JobEvent) -> (r: JobPhase)
        ensures
            r == next_phase(phase, event),
            *final(self) == match outcome_of(phase, event) {
                Some(c) => old(self).counted(c),
                None => *old(self),
            },
    {
        match phase {
            JobPhase::Upserting => match event {
                JobEvent::Upserted(Some(file_id)) => JobPhase::Bumping { file_id },
                JobEvent::Upserted(None) => {
                    self.count(Counter::Failed);
                    JobPhase::Finished { reset: false, checkpoint: false }
                },
                _ => phase,
            },
            JobPhase::Bumping { file_id } => match event {
                JobEvent::Bumped(_) => JobPhase::Processing { file_id },
                _ => phase,
            },
            JobPhase::Processing { file_id } => match event {
                JobEvent::Replied(Reply::Indexed { pages }) => if pages == 0 {
                    JobPhase::Marking { file_id, pages }
                } else {
                    JobPhase::Clearing { file_id, pages }
                },
                JobEvent::Replied(Reply::Excluded) => JobPhase::Excluding { file_id },
                JobEvent::Replied(Reply::Failed) => {
                    self.count(Counter::Failed);
                    JobPhase::Resetting { file_id }
                },
                JobEvent::Replied(Reply::Crashed) => {
                    self.count(Counter::Failed);
                    JobPhase::Respawning
                },
                _ => phase,
            },
            JobPhase::Clearing { file_id, pages } => match event {
                JobEvent::Cleared(true) => JobPhase::Inserting { file_id, pages },
                JobEvent::Cleared(false) => {
                    self.count(Counter::Failed);
                    JobPhase::Resetting { file_id }
                },
                _ => phase,
            },
            JobPhase::Inserting { file_id, pages } => match event {
                JobEvent::Inserted(true) => JobPhase::Marking { file_id, pages },
                JobEvent::Inserted(false) => {
                    self.count(Counter::Failed);
                    JobPhase::Resetting { file_id }
                },
                _ => phase,
            },
            JobPhase::Marking { file_id, pages } => match event {
                JobEvent::Marked(true) => {
                    self.count(Counter::Processed);
                    if pages == 0 {
                        JobPhase::Resetting { file_id }
                    } else {
                        JobPhase::Filling { file_id }
                    }
                },
                JobEvent::Marked(false) => {
                    self.count(Counter::Failed);
                    JobPhase::Resetting { file_id }
                },
                _ => phase,
            },
            JobPhase::Filling { file_id } => match event {
                JobEvent::Filled => JobPhase::Resetting { file_id },
                _ => phase,
            },
            JobPhase::Excluding { file_id } => match event {
                JobEvent::ExclusionMarked => {
                    self.count(Counter::Excluded);
                    JobPhase::Resetting { file_id }
                },
                _ => phase,
            },
            JobPhase::Respawning => match event {
                JobEvent::Respawned(true) => JobPhase::Finished { reset: false, checkpoint: true },
                JobEvent::Respawned(false) => JobPhase::Exited,
                _ => phase,
            },
            JobPhase::Resetting { .. } => match event {
                JobEvent::ResetDone(_) => JobPhase::Finished { reset: true, checkpoint: true },
                _ => phase,
            },
            JobPhase::Finished { .. } => phase,
            JobPhase::Exited => phase,
        }
    }
}

/// After a batch the counters add up to its total.
pub proof fn reconciled_counts_add_up(p: IndexProgress)
    requires
        p.done_count() <= u64::MAX,
        p.total > 0,
    ensures
        p.reconciled().done_count() == p.reconciled().total,
        p.reconciled().finished,
        p.reconciled().processed == p.processed,
        p.reconciled().excluded == p.excluded,
{
}

// ── One file ────────────────────────────────────────────────────────────────

/// The step of a file's job that is under way.
#[derive(Clone, Copy, PartialEq, Eq, Structural, Debug)]
pub enum JobPhase {
    /// The row of the file is written.
    Upserting,
    /// The crash counter of the row is raised, before anything can crash.
    Bumping { file_id: i64 },
    /// The worker processes the file.
    Processing { file_id: i64 },
    /// The rows of an earlier index of the file are removed, with their vectors
    /// and hashes.
    Clearing { file_id: i64, pages: u64 },
    /// Pages and regions are inserted, in one transaction.
    Inserting { file_id: i64, pages: u64 },
    /// The row is marked as indexed.
    Marking { file_id: i64, pages: u64 },
    /// The vector index and the table of hashes take in the new regions.
    Filling { file_id: i64 },
    /// The row is marked as excluded.
    Excluding { file_id: i64 },
    /// The worker died and is replaced.
    Respawning,
    /// The crash counter is set back to zero.
    Resetting { file_id: i64 },
    /// The job is over.
    Finished { reset: bool, checkpoint: bool },
    /// The job is over and no worker is left to take another.
    Exited,
}

/// What the worker said of the file.
#[derive(Clone, Copy, PartialEq, Eq, Structural, Debug)]
pub enum Reply {
    Indexed { pages: u64 },
    Excluded,
    Failed,
    /// It did not answer: it died over the file.
    Crashed,
}

/// What came of a step.
#[derive(Clone, Copy, PartialEq, Eq, Structural, Debug)]
pub enum JobEvent {
    Upserted(Option<i64>),
    /// The counter was raised, or could not be: the job goes on either way.
    Bumped(bool),
    Replied(Reply),
    Cleared(bool),
    Inserted(bool),
    Marked(bool),
    /// Memory took in the regions, or could not: it is rebuilt from the database.
    Filled,
    /// The row was marked, or could not be: the file counts as excluded.
    ExclusionMarked,
    Respawned(bool),
    /// The counter was set back, or could not be: the job is over either way.
    ResetDone(bool),
}

/// The step that follows; an event that does not belong to a step changes nothing.
pub open spec fn next_phase(phase: JobPhase, event: JobEvent) -> JobPhase {
    match (phase, event) {
        (JobPhase::Upserting, JobEvent::Upserted(Some(file_id))) => JobPhase::Bumping { file_id },
        (JobPhase::Upserting, JobEvent::Upserted(None)) => JobPhase::Finished {
            reset: false,
            checkpoint: false,
        },
        (JobPhase::Bumping { file_id }, JobEvent::Bumped(_)) => JobPhase::Processing { file_id },
        (JobPhase::Processing { file_id }, JobEvent::Replied(reply)) => match reply {
            Reply::Indexed { pages } => if pages == 0 {
                JobPhase::Marking { file_id, pages }
            } else {
                JobPhase::Clearing { file_id, pages }
            },
            Reply::Excluded => JobPhase::Excluding { file_id },
            Reply::Failed => JobPhase::Resetting { file_id },
            Reply::Crashed => JobPhase::Respawning,
        },
        (JobPhase::Clearing { file_id, pages }, JobEvent::Cleared(ok)) => if ok {
            JobPhase::Inserting { file_id, pages }
        } else {
            JobPhase::Resetting { file_id }
        },
        (JobPhase::Inserting { file_id, pages }, JobEvent::Inserted(ok)) => if ok {
            JobPhase::Marking { file_id, pages }
        } else {
            JobPhase::Resetting { file_id }
        },
        (JobPhase::Marking { file_id, pages }, JobEvent::Marked(ok)) => if ok && pages > 0 {
            JobPhase::Filling { file_id }
        } else {
            JobPhase::Resetting { file_id }
        },
        (JobPhase::Filling { file_id }, JobEvent::Filled) => JobPhase::Resetting { file_id },
        (JobPhase::Excluding { file_id }, JobEvent::ExclusionMarked) => JobPhase::Resetting {
            file_id,
        },
        (JobPhase::Respawning, JobEvent::Respawned(ok)) => if ok {
            JobPhase::Finished { reset: false, checkpoint: true }
        } else {
            JobPhase::Exited
        },
        (JobPhase::Resetting { .. }, JobEvent::ResetDone(_)) => JobPhase::Finished {
            reset: true,
            checkpoint: true,
        },
        _ => phase,
    }
}

/// What the file is counted as when `event` ends the step `phase`, if its outcome
/// becomes known then.
pub open spec fn outcome_of(phase: JobPhase, event: JobEvent) -> Option<Counter> {
    match (phase, event) {
        (JobPhase::Upserting, JobEvent::Upserted(None)) => Some(Counter::Failed),
        (JobPhase::Processing { .. }, JobEvent::Replied(Reply::Failed)) => Some(Counter::Failed),
        (JobPhase::Processing { .. }, JobEvent::Replied(Reply::Crashed)) => Some(Counter::Failed),
        (JobPhase::Clearing { .. }, JobEvent::Cleared(false)) => Some(Counter::Failed),
        (JobPhase::Inserting { .. }, JobEvent::Inserted(false)) => Some(Counter::Failed),
        (JobPhase::Marking { .. }, JobEvent::Marked(ok)) => if ok {
            Some(Counter::Processed)
        } else {
            Some(Counter::Failed)
        },
        (JobPhase::Excluding { .. }, JobEvent::ExclusionMarked) => Some(Counter::Excluded),
        _ => None,
    }
}

/// Where a job stands after some events.
pub open spec fn phase_after(events: Seq<JobEvent>) -> JobPhase
    decreases events.len(),
{
    if events.len() == 0 {
        JobPhase::Upserting
    } else {
        next_phase(phase_after(events.drop_last()), events.last())
    }
}

/// How often the file has been counted after some events.
pub open spec fn counts_after(events: Seq<JobEvent>) -> int
    decreases events.len(),
{
    if events.len() == 0 {
        0
    } else {
        counts_after(events.drop_last()) + if outcome_of(
            phase_after(events.drop_last()),
            events.last(),
        ) is Some {
            1int
        } else {
            0
        }
    }
}

/// Whether the worker died over the file, after some events.
pub open spec fn crashed_after(events: Seq<JobEvent>) -> bool
    decreases events.len(),
{
    events.len() > 0 && (crashed_after(events.drop_last()) || phase_after(events.drop_last())
        is Processing && events.last() == JobEvent::Replied(Reply::Crashed))
}

/// Whether the outcome of the file is known in this step.
pub open spec fn is_counted(phase: JobPhase) -> bool {
    phase is Filling || phase is Respawning || phase is Resetting || phase is Finished
        || phase is Exited
}

/// Whatever happens, a file is counted once: not at all before its outcome is
/// known, and never again after.
pub proof fn a_file_counts_once(events: Seq<JobEvent>)
    ensures
        counts_after(events) == if is_counted(phase_after(events)) {
            1int
        } else {
            0
        },
    decreases events.len(),
{
    if events.len() > 0 {
        a_file_counts_once(events.drop_last());
    }
}

/// A job sets the crash counter back exactly where the worker survived the file:
/// after a crash it stays raised.
pub proof fn only_survivors_are_reset(events: Seq<JobEvent>)
    ensures
        phase_after(events) is Resetting ==> !crashed_after(events),
        phase_after(events) is Finished && phase_after(events)->reset ==> !crashed_after(events),
        phase_after(events) is Finished && phase_after(events)->checkpoint
            && !phase_after(events)->reset ==> crashed_after(events),
        crashed_after(events) ==> phase_after(events) is Respawning || phase_after(events) is Exited
            || phase_after(events) == (JobPhase::Finished { reset: false, checkpoint: true }),
        phase_after(events) is Respawning || phase_after(events) is Exited ==> crashed_after(events),
    decreases events.len(),
{
    if events.len() > 0 {
        only_survivors_are_reset(events.drop_last());
    }
}

/// Whether the pages and regions of the file have been committed, after some events.
pub open spec fn committed_after(events: Seq<JobEvent>) -> bool
    decreases events.len(),
{
    events.len() > 0 && (committed_after(events.drop_last()) || phase_after(events.drop_last())
        is Inserting && events.last() == JobEvent::Inserted(true))
}

/// Whether the row of the file has been marked as indexed, after some events.
pub open spec fn marked_after(events: Seq<JobEvent>) -> bool
    decreases events.len(),
{
    events.len() > 0 && (marked_after(events.drop_last()) || phase_after(events.drop_last())
        is Marking && events.last() == JobEvent::Marked(true))
}

/// Nothing of a file reaches the vector index or the table of hashes before its
/// rows are committed and its row is marked; and the row of a file with pages is
/// not marked before they are committed.
pub proof fn memory_follows_the_database(events: Seq<JobEvent>)
    ensures
        phase_after(events) is Filling ==> committed_after(events) && marked_after(events),
        phase_after(events) is Marking && phase_after(events)->Marking_pages > 0
            ==> committed_after(events),
    decreases events.len(),
{
    if events.len() > 0 {
        memory_follows_the_database(events.drop_last());
    }
}

/// Whether the crash counter was written whenever a job wanted it written.
pub open spec fn all_recorded(events: Seq<JobEvent>) -> bool {
    forall|i: int|
        0 <= i < events.len() ==> #[trigger] events[i] != JobEvent::Bumped(false) && events[i]
            != JobEvent::ResetDone(false)
}

/// The crash counter of a row after some events of the job of its file.
pub open spec fn counter_after(before: int, events: Seq<JobEvent>) -> int
    decreases events.len(),
{
    if events.len() == 0 {
        before
    } else {
        let counter = counter_after(before, events.drop_last());
        match (phase_after(events.drop_last()), events.last()) {
            (JobPhase::Bumping { .. }, JobEvent::Bumped(true)) => counter + 1,
            (JobPhase::Resetting { .. }, JobEvent::ResetDone(true)) => 0,
            _ => counter,
        }
    }
}

/// A job that ends with its counter set back leaves it at zero, and one whose worker
/// died leaves it raised by one.
pub proof fn counter_follows_the_job(before: int, events: Seq<JobEvent>)
    requires
        all_recorded(events),
    ensures
        phase_after(events) is Finished && phase_after(events)->reset ==> counter_after(
            before,
            events,
        ) == 0,
        crashed_after(events) ==> counter_after(before, events) == before + 1,
    decreases events.len(),
{
    lemma_counter(before, events);
    only_survivors_are_reset(events);
}

proof fn lemma_counter(before: int, events: Seq<JobEvent>)
    requires
        all_recorded(events),
    ensures
        counter_after(before, events) == match phase_after(events) {
            JobPhase::Upserting | JobPhase::Bumping { .. } => before,
            JobPhase::Finished { reset, checkpoint } => if reset {
                0
            } else if checkpoint {
                before + 1
            } else {
                before
            },
            _ => before + 1,
        },
    decreases events.len(),
{
    if events.len() > 0 {
        let init = events.drop_last();
        assert forall|i: int| 0 <= i < init.len() implies #[trigger] init[i] != JobEvent::Bumped(
            false,
        ) && init[i] != JobEvent::ResetDone(false) by {
            assert(init[i] == events[i]);
        }
        lemma_counter(before, init);
        assert(events[events.len() - 1] == events.last());
    }
}

/// Two jobs in a row whose workers died make a file a poison pill; a job before it
/// that ends with the counter set back clears it.
pub proof fn crashes_in_a_row_blacklist(before: int, first: Seq<JobEvent>, second: Seq<JobEvent>)
    requires
        before >= 0,
        all_recorded(first),
        all_recorded(second),
        crashed_after(second),
    ensures
        crashed_after(first) ==> counter_after(counter_after(before, first), second)
            >= crate::indexer::CRASH_ATTEMPT_THRESHOLD,
        phase_after(first) is Finished && phase_after(first)->reset ==> counter_after(
            counter_after(before, first),
            second,
        ) < crate::indexer::CRASH_ATTEMPT_THRESHOLD,
{
    counter_follows_the_job(before, first);
    counter_follows_the_job(counter_after(before, first), second);
}

// ── What is stored ──────────────────────────────────────────────────────────

/// Whether a row to be inserted says what the worker said of a region.
pub open spec fn is_new_region(n: NewRegion, r: RegionData) -> bool {
    &&& n.kind@ == r.kind.sql_name()
    &&& n.idx == r.index
    &&& n.bbox == r.bbox
    &&& n.phash == r.phash
    &&& n.vector@ == r.vector@
}

/// Whether a row to be inserted says what the worker said of a page.
pub open spec fn is_new_page(n: NewPage, p: PageData) -> bool {
    &&& n.page_num == p.page_num
    &&& n.width_px == p.width_px
    &&& n.height_px == p.height_px
    &&& n.thumb_path@ == p.thumb_relative_path@
    &&& n.regions@.len() == p.regions@.len()
    &&& forall|k: int|
        0 <= k < n.regions@.len() ==> is_new_region(#[trigger] n.regions@[k], p.regions@[k])
}

fn new_region(r: &RegionData) -> (n: NewRegion)
    ensures
        is_new_region(n, *r),
{
    NewRegion {
        kind: r.kind.as_sql(),
        idx: r.index as i64,
        bbox: r.bbox,
        phash: r.phash,
        vector: copy_vector(&r.vector),
    }
}

/// The rows to be inserted for the pages that the worker returned.
pub fn new_pages(pages: &Vec<PageData>) -> (r: Vec<NewPage>)
    ensures
        r@.len() == pages@.len(),
        forall|i: int| 0 <= i < r@.len() ==> is_new_page(#[trigger] r@[i], pages@[i]),
{
    let mut out: Vec<NewPage> = Vec::new();
    let mut i: usize = 0;
    while i < pages.len()
        invariant
            i <= pages@.len(),
            out@.len() == i,
            forall|j: int| 0 <= j < i ==> is_new_page(#[trigger] out@[j], pages@[j]),
        decreases pages@.len() - i,
    {
        let p = &pages[i];
        let mut regions: Vec<NewRegion> = Vec::new();
        let mut k: usize = 0;
        while k < p.regions.len()
            invariant
                k <= p.regions@.len(),
                regions@.len() == k,
                forall|j: int|
                    0 <= j < k ==> is_new_region(#[trigger] regions@[j], p.regions@[j]),
            decreases p.regions@.len() - k,
        {
            regions.push(new_region(&p.regions[k]));
            k = k + 1;
        }
        out.push(
            NewPage {
                page_num: p.page_num as i64,
                width_px: p.width_px as i64,
                height_px: p.height_px as i64,
                thumb_path: p.thumb_relative_path.clone(),
                regions,
            },
        );
        i = i + 1;
    }
    out
}

/// All regions of the pages, page after page.
pub open spec fn all_regions(pages: Seq<PageData>) -> Seq<RegionData>
    decreases pages.len(),
{
    if pages.len() == 0 {
        Seq::empty()
    } else {
        all_regions(pages.drop_last()) + pages.last().regions@
    }
}

/// What the vector index and the table of hashes take in: each region under the
/// id of its row, whose bits are the id of its vector too.
#[derive(Debug)]
pub struct MemoryBatch {
    pub vectors: Vec<(u64, Vec<Float32>)>,
    pub phashes: Vec<(i64, u64)>,
}

/// Pairs the regions of a file with the row ids that the database gave them, in
/// the order of the regions; `None` where the numbers differ.
pub fn memory_batch(pages: &Vec<PageData>, region_ids: &Vec<i64>) -> (r: Option<MemoryBatch>)
    ensures
        r is Some <==> region_ids@.len() == all_regions(pages@).len(),
        r is Some ==> {
            let b = r->Some_0;
            &&& b.vectors@.len() == region_ids@.len()
            &&& b.phashes@.len() == region_ids@.len()
            &&& forall|i: int|
                #![trigger b.vectors@[i]]
                0 <= i < region_ids@.len() ==> b.vectors@[i].0 == as_unsigned(region_ids@[i])
                    && b.vectors@[i].1@ == all_regions(pages@)[i].vector@
            &&& forall|i: int|
                #![trigger b.phashes@[i]]
                0 <= i < region_ids@.len() ==> b.phashes@[i] == (
                    region_ids@[i],
                    all_regions(pages@)[i].phash,
                )
        },
{
    let mut vectors: Vec<(u64, Vec<Float32>)> = Vec::new();
    let mut phashes: Vec<(i64, u64)> = Vec::new();
    let mut i: usize = 0;
    assert(pages@.take(0) =~= Seq::empty());
    while i < pages.len()
        invariant
            i <= pages@.len(),
            vectors@.len() == all_regions(pages@.take(i as int)).len(),
            phashes@.len() == vectors@.len(),
            vectors@.len() <= region_ids@.len(),
            forall|j: int|
                #![trigger vectors@[j]]
                0 <= j < vectors@.len() ==> vectors@[j].0 == as_unsigned(region_ids@[j])
                    && vectors@[j].1@ == all_regions(pages@.take(i as int))[j].vector@,
            forall|j: int|
                #![trigger phashes@[j]]
                0 <= j < phashes@.len() ==> phashes@[j] == (
                    region_ids@[j],
                    all_regions(pages@.take(i as int))[j].phash,
                ),
        decreases pages@.len() - i,
    {
        let p = &pages[i];
        let ghost seen = all_regions(pages@.take(i as int));
        let ghost with = all_regions(pages@.take(i + 1));
        proof {
            assert(pages@.take(i + 1).drop_last() =~= pages@.take(i as int));
            assert(with == seen + p.regions@);
            lemma_regions_grow(pages@, i + 1);
        }
        let mut k: usize = 0;
        while k < p.regions.len()
            invariant
                k <= p.regions@.len(),
                i < pages@.len(),
                *p == pages@[i as int],
                with == all_regions(pages@.take(i + 1)),
                with == seen + p.regions@,
                with.len() <= all_regions(pages@).len(),
                vectors@.len() == seen.len() + k,
                phashes@.len() == vectors@.len(),
                vectors@.len() <= region_ids@.len(),
                forall|j: int|
                    #![trigger vectors@[j]]
                    0 <= j < vectors@.len() ==> vectors@[j].0 == as_unsigned(region_ids@[j])
                        && vectors@[j].1@ == with[j].vector@,
                forall|j: int|
                    #![trigger phashes@[j]]
                    0 <= j < phashes@.len() ==> phashes@[j] == (region_ids@[j], with[j].phash),
            decreases p.regions@.len() - k,
        {
            let at: usize = vectors.len();
            if at >= region_ids.len() {
                return None;
            }
            let id: i64 = region_ids[at];
            vectors.push((to_unsigned(id), copy_vector(&p.regions[k].vector)));
            phashes.push((id, p.regions[k].phash));
            k = k + 1;
        }
        i = i + 1;
    }
    assert(pages@.take(i as int) =~= pages@);
    if vectors.len() != region_ids.len() {
        return None;
    }
    Some(MemoryBatch { vectors, phashes })
}

proof fn lemma_regions_grow(pages: Seq<PageData>, n: int)
    requires
        0 <= n <= pages.len(),
    ensures
        all_regions(pages.take(n)).len() <= all_regions(pages).len(),
    decreases pages.len(),
{
    if n < pages.len() {
        lemma_regions_grow(pages.drop_last(), n);
        assert(pages.drop_last().take(n) =~= pages.take(n));
    } else {
        assert(pages.take(n) =~= pages);
    }
}

// ── Laws of a job ───────────────────────────────────────────────────────────

/// A file is counted by what became of it: as processed when its row has been marked,
/// as excluded when that has been noted, and as failed when the worker failed or died
/// over it or one of the writes before the mark did. Nothing else moves a counter.
pub proof fn files_count_as_what_became_of_them(
    p: &mut IndexProgress,
    phase: JobPhase,
    event: JobEvent,
    r: JobPhase,
)
    requires
        call_ensures(IndexProgress::advance, (p, phase, event), r),
        old(p).processed < u64::MAX,
        old(p).failed < u64::MAX,
        old(p).excluded < u64::MAX,
    ensures
        final(p).total == old(p).total,
        final(p).finished == old(p).finished,
        final(p).processed == old(p).processed || final(p).processed == old(p).processed + 1,
        final(p).failed == old(p).failed || final(p).failed == old(p).failed + 1,
        final(p).excluded == old(p).excluded || final(p).excluded == old(p).excluded + 1,
        final(p).processed > old(p).processed <==> phase is Marking && event == JobEvent::Marked(true),
        final(p).excluded > old(p).excluded <==> phase is Excluding && event
            == JobEvent::ExclusionMarked,
        final(p).failed > old(p).failed <==> {
            ||| phase is Upserting && event == JobEvent::Upserted(None)
            ||| phase is Processing && event == JobEvent::Replied(Reply::Failed)
            ||| phase is Processing && event == JobEvent::Replied(Reply::Crashed)
            ||| phase is Clearing && event == JobEvent::Cleared(false)
            ||| phase is Inserting && event == JobEvent::Inserted(false)
            ||| phase is Marking && event == JobEvent::Marked(false)
        },
{
}

/// The steps of a job come in one order: the row, its crash counter, the worker, and
/// for a file with pages what is removed, what is inserted and the mark, after which
/// memory takes the regions in. A step is entered from the one before it alone, and with
/// the same file and the same pages.
pub proof fn steps_come_in_order(
    p: &mut IndexProgress,
    phase: JobPhase,
    event: JobEvent,
    r: JobPhase,
)
    requires
        call_ensures(IndexProgress::advance, (p, phase, event), r),
        r != phase,
    ensures
        !(r is Upserting),
        r is Bumping ==> phase is Upserting && event == JobEvent::Upserted(
            Some(r->Bumping_file_id),
        ),
        r is Processing ==> phase == (JobPhase::Bumping { file_id: r->Processing_file_id })
            && event is Bumped,
        r is Clearing ==> phase == (JobPhase::Processing { file_id: r->Clearing_file_id }) && event
            == JobEvent::Replied(Reply::Indexed { pages: r->Clearing_pages }) && r->Clearing_pages > 0,
        r is Inserting ==> phase == (JobPhase::Clearing {
            file_id: r->Inserting_file_id,
            pages: r->Inserting_pages,
        }) && event == JobEvent::Cleared(true),
        r is Marking ==> {
            ||| phase == (JobPhase::Inserting {
                file_id: r->Marking_file_id,
                pages: r->Marking_pages,
            }) && event == JobEvent::Inserted(true)
            ||| phase == (JobPhase::Processing { file_id: r->Marking_file_id }) && event
                == JobEvent::Replied(Reply::Indexed { pages: 0 }) && r->Marking_pages == 0
        },
        r is Filling ==> phase is Marking && phase->Marking_file_id == r->Filling_file_id
            && phase->Marking_pages > 0 && event == JobEvent::Marked(true),
        r is Excluding ==> phase == (JobPhase::Processing { file_id: r->Excluding_file_id })
            && event == JobEvent::Replied(Reply::Excluded),
        r is Respawning ==> phase is Processing && event == JobEvent::Replied(Reply::Crashed),
        r is Exited ==> phase is Respawning && event == JobEvent::Respawned(false),
        r is Finished ==> {
            ||| phase is Upserting && event == JobEvent::Upserted(None) && !r->reset
                && !r->checkpoint
            ||| phase is Respawning && event == JobEvent::Respawned(true) && !r->reset
                && r->checkpoint
            ||| phase is Resetting && event is ResetDone && r->reset && r->checkpoint
        },
        r is Resetting ==> {
            ||| phase == (JobPhase::Processing { file_id: r->Resetting_file_id }) && event
                == JobEvent::Replied(Reply::Failed)
            ||| phase == (JobPhase::Excluding { file_id: r->Resetting_file_id }) && event
                == JobEvent::ExclusionMarked
            ||| phase == (JobPhase::Filling { file_id: r->Resetting_file_id }) && event
                == JobEvent::Filled
            ||| phase is Clearing && phase->Clearing_file_id == r->Resetting_file_id && event
                == JobEvent::Cleared(false)
            ||| phase is Inserting && phase->Inserting_file_id == r->Resetting_file_id && event
                == JobEvent::Inserted(false)
            ||| phase is Marking && phase->Marking_file_id == r->Resetting_file_id && (event
                == JobEvent::Marked(false) || phase->Marking_pages == 0 && event
                == JobEvent::Marked(true))
        },
{
}

/// A job never hangs: each step is left when what it waits for has come, whatever came.
pub proof fn every_step_is_left(p: &mut IndexProgress, phase: JobPhase, event: JobEvent, r: JobPhase)
    requires
        call_ensures(IndexProgress::advance, (p, phase, event), r),
        match phase {
            JobPhase::Upserting => event is Upserted,
            JobPhase::Bumping { .. } => event is Bumped,
            JobPhase::Processing { .. } => event is Replied,
            JobPhase::Clearing { .. } => event is Cleared,
            JobPhase::Inserting { .. } => event is Inserted,
            JobPhase::Marking { .. } => event is Marked,
            JobPhase::Filling { .. } => event is Filled,
            JobPhase::Excluding { .. } => event is ExclusionMarked,
            JobPhase::Respawning => event is Respawned,
            JobPhase::Resetting { .. } => event is ResetDone,
            JobPhase::Finished { .. } | JobPhase::Exited => false,
        },
    ensures
        r != phase,
        phase is Upserting && event->Upserted_0 is Some ==> r is Bumping,
        phase is Clearing && event == JobEvent::Cleared(true) ==> r is Inserting,
        phase is Inserting && event == JobEvent::Inserted(true) ==> r is Marking,
        phase is Processing && event->Replied_0 is Crashed ==> r is Respawning,
        phase is Respawning && event == JobEvent::Respawned(true) ==> r is Finished,
{
}

/// When a batch has ended, what was not done has failed: the counters of what was
/// processed and of what was excluded stay, that of what failed grows by what is
/// missing, and the total only grows where more was done than was asked for.
pub proof fn what_was_not_done_has_failed(p: &mut IndexProgress)
    requires
        old(p).processed + old(p).failed + old(p).excluded <= u64::MAX,
        call_ensures(IndexProgress::reconcile, (p,), ()),
    ensures
        final(p).finished,
        final(p).processed == old(p).processed,
        final(p).excluded == old(p).excluded,
        ({
            let done = old(p).processed + old(p).failed + old(p).excluded;
            &&& done <= old(p).total ==> final(p).total == old(p).total && final(p).failed
                == old(p).failed + (old(p).total - done)
            &&& done > old(p).total && old(p).total > 0 ==> final(p).total == done && final(p).failed
                == old(p).failed
            &&& old(p).total == 0 ==> final(p).total == 0 && final(p).failed == old(p).failed
        }),
{
}

/// Counting moves one counter by one and nothing else.
pub proof fn counting_moves_one_counter(p: &mut IndexProgress, c: Counter)
    requires
        old(p).processed < u64::MAX,
        old(p).failed < u64::MAX,
        old(p).excluded < u64::MAX,
        call_ensures(IndexProgress::count, (p, c), ()),
    ensures
        final(p).total == old(p).total,
        final(p).finished == old(p).finished,
        final(p).processed + final(p).failed + final(p).excluded == old(p).processed + old(p).failed
            + old(p).excluded + 1,
        final(p).processed > old(p).processed <==> c is Processed,
        final(p).failed > old(p).failed <==> c is Failed,
        final(p).excluded > old(p).excluded <==> c is Excluded,
        final(p).processed <= old(p).processed + 1,
        final(p).failed <= old(p).failed + 1,
        final(p).excluded <= old(p).excluded + 1,
{
}

// ── Laws of what is stored ──────────────────────────────────────────────────

proof fn lemma_region_places(pages: Seq<PageData>) -> (starts: Seq<int>)
    ensures
        starts.len() == pages.len() + 1,
        starts[0] == 0,
        forall|p: int|
            0 <= p < pages.len() ==> #[trigger] starts[p + 1] == starts[p] + pages[p].regions@.len(),
        starts.last() == all_regions(pages).len(),
        forall|p: int|
            0 <= p < pages.len() ==> 0 <= #[trigger] starts[p] && starts[p] + pages[p].regions@.len()
                <= starts.last(),
        forall|p: int, k: int|
            0 <= p < pages.len() && 0 <= k < pages[p].regions@.len() ==> all_regions(pages)[starts[p]
                + k] == #[trigger] pages[p].regions@[k],
    decreases pages.len(),
{
    if pages.len() == 0 {
        seq![0int]
    } else {
        let init = pages.drop_last();
        let before = lemma_region_places(init);
        let n = init.len() as int;
        let starts = before.push(before.last() + pages.last().regions@.len());
        assert forall|p: int| 0 <= p < pages.len() implies #[trigger] starts[p + 1] == starts[p]
            + pages[p].regions@.len() by {
            if p < n {
                assert(before[p + 1] == before[p] + init[p].regions@.len());
            }
        }
        assert forall|p: int| 0 <= p < pages.len() implies 0 <= #[trigger] starts[p] && starts[p]
            + pages[p].regions@.len() <= starts.last() by {
            if p < n {
                assert(before[p] == starts[p] && init[p] == pages[p]);
            }
        }
        assert forall|p: int, k: int|
            0 <= p < pages.len() && 0 <= k < pages[p].regions@.len() implies all_regions(
            pages,
        )[starts[p] + k] == #[trigger] pages[p].regions@[k] by {
            if p < n {
                assert(before[p] == starts[p] && init[p] == pages[p]);
                assert(init[p].regions@[k] == pages[p].regions@[k]);
            }
        }
        starts
    }
}

/// Each region goes to memory under the id that its row got: with `starts[p]` the number
/// of regions on the pages before page `p`, region `k` of that page takes the id at
/// `starts[p] + k`. Where there are not as many ids as regions, nothing goes to memory.
pub proof fn regions_go_under_their_ids(
    pages: &Vec<PageData>,
    region_ids: &Vec<i64>,
    r: Option<MemoryBatch>,
) -> (starts: Seq<int>)
    requires
        call_ensures(memory_batch, (pages, region_ids), r),
    ensures
        starts.len() == pages@.len() + 1,
        starts[0] == 0,
        forall|p: int|
            0 <= p < pages@.len() ==> #[trigger] starts[p + 1] == starts[p] + pages@[p].regions@.len(),
        r is Some <==> region_ids@.len() == starts.last(),
        r is Some ==> r->Some_0.vectors@.len() == starts.last() && r->Some_0.phashes@.len()
            == starts.last(),
        r is Some ==> forall|p: int, k: int|
            0 <= p < pages@.len() && 0 <= k < pages@[p].regions@.len() ==> {
                let region = #[trigger] pages@[p].regions@[k];
                let id = region_ids@[starts[p] + k];
                let vector = r->Some_0.vectors@[starts[p] + k];
                &&& vector.1@ == region.vector@
                &&& id >= 0 ==> vector.0 == id
                &&& id < 0 ==> vector.0 == id + 0x1_0000_0000_0000_0000
                &&& r->Some_0.phashes@[starts[p] + k].0 == id
                &&& r->Some_0.phashes@[starts[p] + k].1 == region.phash
            },
{
    let starts = lemma_region_places(pages@);
    if r is Some {
        assert forall|p: int, k: int|
            0 <= p < pages@.len() && 0 <= k < pages@[p].regions@.len() implies {
            let region = #[trigger] pages@[p].regions@[k];
            let id = region_ids@[starts[p] + k];
            let vector = r->Some_0.vectors@[starts[p] + k];
            &&& vector.1@ == region.vector@
            &&& id >= 0 ==> vector.0 == id
            &&& id < 0 ==> vector.0 == id + 0x1_0000_0000_0000_0000
            &&& r->Some_0.phashes@[starts[p] + k].0 == id
            &&& r->Some_0.phashes@[starts[p] + k].1 == region.phash
        } by {
            let i = starts[p] + k;
            assert(0 <= i < region_ids@.len());
            assert(all_regions(pages@)[i] == pages@[p].regions@[k]);
            assert(r->Some_0.vectors@[i].1@ == all_regions(pages@)[i].vector@);
            assert(r->Some_0.phashes@[i] == (region_ids@[i], all_regions(pages@)[i].phash));
        }
    }
    starts
}

/// The rows to be inserted say of each page and each region what the worker said.
pub proof fn rows_say_what_the_worker_said(pages: &Vec<PageData>, r: Vec<NewPage>, i: int, k: int)
    requires
        call_ensures(new_pages, (pages,), r),
        0 <= i < pages@.len(),
    ensures
        r@.len() == pages@.len(),
        r@[i].page_num == pages@[i].page_num,
        r@[i].width_px == pages@[i].width_px,
        r@[i].height_px == pages@[i].height_px,
        r@[i].thumb_path@ == pages@[i].thumb_relative_path@,
        r@[i].regions@.len() == pages@[i].regions@.len(),
        0 <= k < pages@[i].regions@.len() ==> {
            let row = r@[i].regions@[k];
            let said = pages@[i].regions@[k];
            &&& said.kind is Full ==> row.kind@ == "full"@
            &&& said.kind is Tile ==> row.kind@ == "tile"@
            &&& row.idx == said.index
            &&& row.bbox == said.bbox
            &&& row.phash == said.phash
            &&& row.vector@ == said.vector@
        },
{
    assert(is_new_page(r@[i], pages@[i]));
    if 0 <= k < pages@[i].regions@.len() {
        assert(is_new_region(r@[i].regions@[k], pages@[i].regions@[k]));
    }
}

/// The share that is done is never more than all, and there is none of an empty batch.
pub proof fn shares_are_at_most_all(p: &IndexProgress, r: Option<(u64, u64)>)
    requires
        p.processed + p.failed + p.excluded <= u64::MAX,
        call_ensures(IndexProgress::percent, (p,), r),
    ensures
        r is Some <==> p.total > 0,
        r is Some ==> r->Some_0.0 <= r->Some_0.1 == p.total,
        r is Some && p.processed + p.failed + p.excluded <= p.total ==> r->Some_0.0 == p.processed
            + p.failed + p.excluded,
        r is Some && p.processed + p.failed + p.excluded > p.total ==> r->Some_0.0 == p.total,
{
}

} // verus!
