//! The loop that reads the text of pages that have none yet, through a worker
//! process, one batch of pages after the other.

use vstd::prelude::*;

verus! {

/// Pages claimed at once.
pub const BATCH: i64 = 200;

/// Seconds to wait once no page is left.
pub const IDLE_POLL_SECS: u64 = 300;

/// Seconds to wait after the database could not be asked.
pub const ERROR_WAIT_SECS: u64 = 60;

/// Where the loop stands.
#[derive(Clone, Copy, PartialEq, Eq, Structural, Debug)]
pub struct Backfill {
    /// Pages up to this id have been claimed in this sweep.
    pub after_id: i64,
    /// Whether this sweep has claimed any page.
    pub was_busy: bool,
}

/// What the loop does next.
#[derive(Clone, Copy, PartialEq, Eq, Structural, Debug)]
pub enum BackfillStep {
    /// Wait, then claim again.
    Retry { wait_secs: u64 },
    /// No page is left: mark the pages that can never be claimed as done, report
    /// the end of the sweep where it did anything, wait, and begin a new sweep.
    SweepDone { report: bool, wait_secs: u64 },
    /// Read the claimed pages, then claim again.
    Process,
}

/// What is done about a page once the worker has answered.
#[derive(Debug)]
pub enum PageStep {
    /// Record this text; the page is done.
    Record { text: String },
    /// The worker died: start another one.
    Respawn,
    /// No worker can be started: the loop ends.
    Stop,
}

/// Where the loop stands after a claim, and what it does next. The ids of the
/// claimed pages are in ascending order; `None` means that the database could not be
/// asked.
pub open spec fn after_claim(before: Backfill, claimed: Option<Seq<i64>>) -> (
    Backfill,
    BackfillStep,
) {
    match claimed {
        None => (before, BackfillStep::Retry { wait_secs: ERROR_WAIT_SECS }),
        Some(ids) => if ids.len() == 0 {
            (
                Backfill { after_id: 0, was_busy: false },
                BackfillStep::SweepDone { report: before.was_busy, wait_secs: IDLE_POLL_SECS },
            )
        } else {
            (Backfill { after_id: ids.last(), was_busy: true }, BackfillStep::Process)
        },
    }
}

impl Backfill {
    /// The loop at its start.
    pub fn new() -> (r: Backfill)
        ensures
            r == (Backfill { after_id: 0, was_busy: false }),
    {
        Backfill { after_id: 0, was_busy: false }
    }

    /// Pages have been claimed, by their ids in ascending order; `None` where the
    /// database could not be asked.
    pub fn on_claim(&mut self, claimed: Option<&Vec<i64>>) -> (r: BackfillStep)
        ensures
            (*final(self), r) == after_claim(
                *old(self),
                match claimed {
                    Some(ids) => Some(ids@),
                    None => None,
                },
            ),
    {
        match claimed {
            None => BackfillStep::Retry { wait_secs: ERROR_WAIT_SECS },
            Some(ids) => {
                if ids.len() == 0 {
                    let report: bool = self.was_busy;
                    self.after_id = 0;
                    self.was_busy = false;
                    BackfillStep::SweepDone { report, wait_secs: IDLE_POLL_SECS }
                } else {
                    self.after_id = ids[ids.len() - 1];
                    self.was_busy = true;
                    BackfillStep::Process
                }
            },
        }
    }
}

/// The worker answered about a page, or died over it (`None`).
pub fn on_page(text: Option<String>) -> (r: PageStep)
    ensures
        match text {
            Some(t) => r == (PageStep::Record { text: t }),
            None => r is Respawn,
        },
{
    match text {
        Some(t) => PageStep::Record { text: t },
        None => PageStep::Respawn,
    }
}

/// The worker that died over a page has been replaced, or could not be. The page
/// counts as done, without text, so that it cannot hold up the others.
pub fn on_respawn(started: bool) -> (r: PageStep)
    ensures
        if started {
            r is Record && r->text@ == Seq::<char>::empty()
        } else {
            r is Stop
        },
{
    if started {
        PageStep::Record { text: String::new() }
    } else {
        PageStep::Stop
    }
}

/// The cursor passes every page that was claimed, so that no page is claimed
/// twice in a sweep, whatever became of it.
pub proof fn claimed_pages_are_passed(before: Backfill, ids: Seq<i64>)
    requires
        ids.len() > 0,
        forall|i: int| 0 <= i < ids.len() ==> before.after_id < #[trigger] ids[i],
        forall|i: int, j: int| 0 <= i < j < ids.len() ==> #[trigger] ids[i] < #[trigger] ids[j],
    ensures
        ({
            let next = after_claim(before, Some(ids)).0;
            &&& before.after_id < next.after_id
            &&& forall|i: int| 0 <= i < ids.len() ==> #[trigger] ids[i] <= next.after_id
        }),
{
    assert(ids.last() == ids[ids.len() - 1]);
}

/// A sweep goes on behind the last page that was claimed and ends with the first claim
/// that finds none, which begins the next one at the first page. It is reported where
/// it claimed any page. Where the database could not be asked, nothing moves.
pub proof fn sweeps_pass_what_was_claimed(
    b: &mut Backfill,
    claimed: Option<&Vec<i64>>,
    r: BackfillStep,
)
    requires
        call_ensures(Backfill::on_claim, (b, claimed), r),
    ensures
        claimed is None ==> final(b).after_id == old(b).after_id && final(b).was_busy
            == old(b).was_busy && r == (BackfillStep::Retry { wait_secs: 60 }),
        claimed is Some && claimed->Some_0@.len() == 0 ==> final(b).after_id == 0
            && !final(b).was_busy && r == (BackfillStep::SweepDone { report: old(b).was_busy, wait_secs: 300 }),
        claimed is Some && claimed->Some_0@.len() > 0 ==> final(b).was_busy && r
            == BackfillStep::Process && final(b).after_id == claimed->Some_0@[claimed->Some_0@.len()
            - 1],
{
}

} // verus!
