use oxide_seeker::indexer::ocr_backfill::{on_page, on_respawn, Backfill, BackfillStep, PageStep};
use oxide_seeker::indexer::scanner::{
    classify_file, needs_reindex, scan_directories, DiscoveredFile, ScanEntry,
};
use oxide_seeker::indexer::watcher::{
    judge, route_event, EventRoute, FileMeta, FileSample, FsEventKind, PendingState, ReadyStep,
    Verdict, WatchQueue,
};
use oxide_seeker::indexer::worker_pool::{
    memory_batch, new_pages, Counter, IndexProgress, JobEvent, JobPhase, Reply,
};
use oxide_seeker::indexer::subprocess::{PageData, RegionBBox, RegionData, RegionKind};
use oxide_seeker::indexer::{stale_paths, FilterPass, FilterStep, HashStep};
use oxide_seeker::storage::database::FileRecord;
use oxide_seeker::float32::Float32;

#[test]
fn classify_pdf() {
    assert_eq!(classify_file("design.PDF"), Some("pdf".to_string()));
}

#[test]
fn classify_ai() {
    assert_eq!(classify_file("logo.ai"), Some("ai".to_string()));
}

#[test]
fn classify_unknown() {
    assert_eq!(classify_file("image.png"), None);
    assert_eq!(classify_file("document.docx"), None);
}

#[test]
fn needs_reindex_when_never_indexed() {
    // "nonexistent_file.pdf" has no modification time that could be read.
    assert!(needs_reindex(None, None));
}

#[test]
fn only_later_times_ask_for_a_new_index() {
    assert!(needs_reindex(Some(11), Some(10)));
    assert!(!needs_reindex(Some(10), Some(10)));
    assert!(!needs_reindex(None, Some(10)));
    assert!(needs_reindex(Some(1), None));
}

fn entry(path: &str, is_file: bool) -> ScanEntry {
    ScanEntry { path: path.to_string(), is_file, file_size: Some(9), modified_at: Some(4) }
}

#[test]
fn a_scan_finds_design_files_only() {
    let found = scan_directories(&vec![
        entry("x/a.pdf", true),
        entry("x/dir.pdf", false),
        entry("x/b.txt", true),
        entry("x/C.AI", true),
    ]);
    assert_eq!(found.len(), 2);
    assert_eq!((found[0].filename.as_str(), found[0].file_type.as_str()), ("a.pdf", "pdf"));
    assert_eq!((found[1].filename.as_str(), found[1].file_type.as_str()), ("C.AI", "ai"));
    assert_eq!((found[1].file_size, found[1].modified_at), (Some(9), Some(4)));
    assert!(found[1].content_sha1.is_none());
}

fn disc(path: &str) -> DiscoveredFile {
    DiscoveredFile {
        path: path.to_string(),
        filename: path.to_string(),
        file_type: "pdf".to_string(),
        file_size: None,
        modified_at: None,
        content_sha1: None,
    }
}

fn rec(path: &str) -> FileRecord {
    FileRecord {
        id: 5,
        path: path.to_string(),
        filename: path.to_string(),
        file_type: "pdf".to_string(),
        file_size: None,
        modified_at: Some(50),
        page_count: 6,
        is_excluded: 0,
        indexed_at: Some(100),
        created_at: 0,
        crash_attempts: 0,
        exclusion_reason: None,
        content_sha1: Some("abc".to_string()),
    }
}

#[test]
fn files_gone_from_disk_are_stale() {
    let stored = vec!["a".to_string(), "b".to_string(), "c".to_string()];
    assert_eq!(stale_paths(&stored, &vec![disc("b")]), vec!["a".to_string(), "c".to_string()]);
    assert_eq!(stale_paths(&stored, &vec![disc("a"), disc("b"), disc("c")]), Vec::<String>::new());
}

#[test]
fn the_filter_pass_queues_what_needs_work() {
    let mut poison = rec("poison.pdf");
    poison.crash_attempts = 2;
    let mut banned = rec("banned.pdf");
    banned.crash_attempts = 7;
    banned.is_excluded = 1;
    let mut layout = rec("layout.pdf");
    layout.is_excluded = 1;
    layout.indexed_at = None;
    let mut pass = FilterPass::new(vec![rec("old.pdf"), poison, banned, layout, rec("same.pdf"), rec("edit.pdf")]);

    assert!(matches!(pass.offer(disc("new.pdf"), None), FilterStep::Queued));
    match pass.offer(disc("poison.pdf"), Some(50)) {
        FilterStep::AutoExclude { file_id, reason } => {
            assert_eq!(file_id, 5);
            assert_eq!(
                reason,
                "Process crashed 2 times while indexing this file (suspected FFI poison pill)"
            );
        }
        other => panic!("{:?}", other),
    }
    assert!(matches!(pass.offer(disc("banned.pdf"), Some(50)), FilterStep::Skip));
    assert!(matches!(pass.offer(disc("banned.pdf"), None), FilterStep::Skip));
    // Once it has been edited, it gets another try.
    assert!(matches!(pass.offer(disc("banned.pdf"), Some(51)), FilterStep::Hash { .. }));
    assert!(matches!(pass.offer(disc("poison.pdf"), Some(51)), FilterStep::Hash { .. }));
    assert!(matches!(pass.offer(disc("old.pdf"), Some(100)), FilterStep::Skip));
    assert!(matches!(pass.offer(disc("layout.pdf"), Some(50)), FilterStep::Skip));
    assert!(matches!(pass.offer(disc("layout.pdf"), Some(51)), FilterStep::Hash { .. }));

    let file = match pass.offer(disc("same.pdf"), Some(101)) {
        FilterStep::Hash { file } => file,
        other => panic!("{:?}", other),
    };
    match pass.resolve(file, Some("abc".to_string())) {
        HashStep::Refresh { file, file_id, page_count } => {
            assert_eq!((file.path.as_str(), file_id, page_count), ("same.pdf", 5, 6));
        }
        other => panic!("{:?}", other),
    }
    assert!(matches!(pass.resolve(disc("edit.pdf"), Some("xyz".to_string())), HashStep::Queued));
    assert!(matches!(pass.resolve(disc("edit.pdf"), None), HashStep::Queued));
    let queue = pass.finish();
    let hashes: Vec<(String, Option<String>)> =
        queue.into_iter().map(|q| (q.path, q.content_sha1)).collect();
    assert_eq!(
        hashes,
        vec![
            ("new.pdf".to_string(), None),
            ("edit.pdf".to_string(), Some("xyz".to_string())),
            ("edit.pdf".to_string(), None),
        ]
    );
}

#[test]
fn events_on_design_files_are_routed() {
    assert_eq!(route_event(FsEventKind::CreatedFile, "a.pdf"), EventRoute::Changed);
    assert_eq!(route_event(FsEventKind::ModifiedData, "a.AI"), EventRoute::Changed);
    assert_eq!(route_event(FsEventKind::ModifiedAny, "a.ai"), EventRoute::Changed);
    assert_eq!(route_event(FsEventKind::RemovedFile, "a.pdf"), EventRoute::Removed);
    assert_eq!(route_event(FsEventKind::RemovedAny, "a.pdf"), EventRoute::Removed);
    assert_eq!(route_event(FsEventKind::Other, "a.pdf"), EventRoute::Ignored);
    assert_eq!(route_event(FsEventKind::CreatedFile, "a.txt"), EventRoute::Ignored);
}

fn sample(size: u64, mtime: i64) -> Option<FileSample> {
    Some(FileSample { size, mtime })
}

#[test]
fn files_wait_for_two_equal_samples() {
    let fresh = PendingState::default();
    let one = match judge(fresh, sample(5000, 1), 1024, 20) {
        Verdict::Wait(s) => s,
        other => panic!("{:?}", other),
    };
    assert_eq!((one.last_size, one.last_mtime, one.attempts), (5000, 1, 1));
    assert_eq!(judge(one, sample(5000, 1), 1024, 20), Verdict::Ready);
    assert!(matches!(judge(one, sample(5000, 2), 1024, 20), Verdict::Wait(_)));
    assert_eq!(judge(one, None, 1024, 20), Verdict::Vanished);
    assert!(matches!(judge(one, sample(5000, 1), 9999, 20), Verdict::Wait(_)));
    assert_eq!(judge(one, sample(1, 1), 1024, 2), Verdict::GiveUp);
    assert_eq!(judge(fresh, sample(5000, 1), 1024, 1), Verdict::GiveUp);
}

#[test]
fn the_queue_follows_files() {
    let mut q = WatchQueue::new();
    q.on_changed("a.pdf".to_string());
    q.on_changed("b.pdf".to_string());
    q.on_changed("a.pdf".to_string());
    assert_eq!(q.pending_paths(), vec!["a.pdf".to_string(), "b.pdf".to_string()]);
    assert_eq!(q.tick(&vec![sample(5000, 1), sample(5000, 1)], 1024, 20), Vec::<String>::new());
    assert_eq!(q.tick(&vec![sample(5000, 1), sample(5000, 2)], 1024, 20), vec!["a.pdf".to_string()]);
    assert_eq!(q.pending_paths(), vec!["b.pdf".to_string()]);
    q.on_removed("b.pdf".to_string());
    q.on_removed("b.pdf".to_string());
    assert_eq!(q.pending_paths(), Vec::<String>::new());
    assert_eq!(q.take_removals(), vec!["b.pdf".to_string()]);
    assert_eq!(q.take_removals(), Vec::<String>::new());
}

#[test]
fn stable_files_are_settled() {
    let meta = Some(FileMeta { size: 7, mtime: Some(3) });
    let mut q = WatchQueue::new();
    assert!(matches!(q.settle("a.txt".to_string(), meta, Some("h".to_string()), None), ReadyStep::Drop));
    assert!(matches!(q.settle("a.pdf".to_string(), None, None, None), ReadyStep::Drop));
    assert!(matches!(q.settle("a.pdf".to_string(), meta, None, None), ReadyStep::Requeued));
    assert_eq!(q.pending_paths(), vec!["a.pdf".to_string()]);
    let known = rec("x/a.pdf");
    match q.settle("x/a.pdf".to_string(), meta, Some("abc".to_string()), Some(&known)) {
        ReadyStep::Refresh { file } => assert_eq!(file.filename, "a.pdf"),
        other => panic!("{:?}", other),
    }
    match q.settle("x/a.pdf".to_string(), meta, Some("new".to_string()), Some(&known)) {
        ReadyStep::Dispatch { file } => {
            assert_eq!((file.file_size, file.modified_at), (Some(7), Some(3)));
            assert_eq!(file.content_sha1, Some("new".to_string()));
        }
        other => panic!("{:?}", other),
    }
}

fn run(events: &[JobEvent]) -> (JobPhase, IndexProgress) {
    let mut p = IndexProgress::new(1);
    let mut phase = JobPhase::Upserting;
    for e in events {
        phase = p.advance(phase, *e);
    }
    (phase, p)
}

#[test]
fn a_job_ends_with_one_count() {
    let start = [JobEvent::Upserted(Some(3)), JobEvent::Bumped(true)];
    let with = |rest: &[JobEvent]| run(&[&start[..], rest].concat());

    let (phase, p) = with(&[
        JobEvent::Replied(Reply::Indexed { pages: 2 }),
        JobEvent::Cleared(true),
        JobEvent::Inserted(true),
        JobEvent::Marked(true),
        JobEvent::Filled,
        JobEvent::ResetDone(true),
    ]);
    assert_eq!(phase, JobPhase::Finished { reset: true, checkpoint: true });
    assert_eq!((p.processed, p.failed, p.excluded), (1, 0, 0));

    let (phase, p) = with(&[JobEvent::Replied(Reply::Indexed { pages: 0 }), JobEvent::Marked(true)]);
    assert_eq!((phase, p.processed), (JobPhase::Resetting { file_id: 3 }, 1));

    let (phase, p) = with(&[
        JobEvent::Replied(Reply::Indexed { pages: 2 }),
        JobEvent::Cleared(true),
        JobEvent::Inserted(false),
    ]);
    assert_eq!((phase, p.failed), (JobPhase::Resetting { file_id: 3 }, 1));

    let (phase, p) = with(&[JobEvent::Replied(Reply::Excluded), JobEvent::ExclusionMarked]);
    assert_eq!((phase, p.excluded), (JobPhase::Resetting { file_id: 3 }, 1));

    let (phase, p) = with(&[JobEvent::Replied(Reply::Failed)]);
    assert_eq!((phase, p.failed), (JobPhase::Resetting { file_id: 3 }, 1));

    let (phase, p) = run(&[JobEvent::Upserted(None)]);
    assert_eq!((phase, p.failed), (JobPhase::Finished { reset: false, checkpoint: false }, 1));
}

#[test]
fn a_crash_leaves_the_counter_raised() {
    let crash = [
        JobEvent::Upserted(Some(3)),
        JobEvent::Bumped(true),
        JobEvent::Replied(Reply::Crashed),
        JobEvent::ResetDone(true),
        JobEvent::Respawned(true),
    ];
    let (phase, p) = run(&crash);
    assert_eq!(phase, JobPhase::Finished { reset: false, checkpoint: true });
    assert_eq!(p.failed, 1);
    let (phase, _) = run(&[crash[0], crash[1], crash[2], JobEvent::Respawned(false)]);
    assert_eq!(phase, JobPhase::Exited);
}

#[test]
fn counters_are_reconciled() {
    let mut p = IndexProgress::new(0);
    assert!(p.begin(10));
    p.count(Counter::Processed);
    p.count(Counter::Excluded);
    assert_eq!(p.percent(), Some((2, 10)));
    p.reconcile();
    assert_eq!((p.processed, p.excluded, p.failed, p.total), (1, 1, 8, 10));
    assert!(p.finished);
    let mut over = IndexProgress { processed: 9, failed: 0, excluded: 0, total: 4, finished: false };
    assert_eq!(over.percent(), Some((4, 4)));
    over.reconcile();
    assert_eq!(over.total, 9);
    let mut none = IndexProgress::new(7);
    assert!(!none.begin(0));
    assert!(none.finished);
    assert_eq!(none.percent(), None);
    let due = IndexProgress { processed: 1000, failed: 0, excluded: 500, total: 9, finished: false };
    assert!(due.at_checkpoint());
    assert_eq!(due.done(), 1500);
}

fn region(phash: u64, index: u32) -> RegionData {
    RegionData {
        kind: if index == 0 { RegionKind::Full } else { RegionKind::Tile },
        index,
        bbox: RegionBBox { x: 0, y: 0, w: 4, h: 4 },
        phash,
        vector: vec![Float32 { bits: phash as u32 }],
    }
}

#[test]
fn regions_take_the_ids_of_their_rows() {
    let page = |num: i32, regions: Vec<RegionData>| PageData {
        page_num: num,
        width_px: 640,
        height_px: 480,
        thumb_relative_path: format!("1_{}.webp", num),
        regions,
    };
    let pages = vec![page(1, vec![region(7, 0), region(8, 1)]), page(2, vec![region(9, 0)])];
    let rows = new_pages(&pages);
    assert_eq!((rows[1].page_num, rows[1].thumb_path.as_str()), (2, "1_2.webp"));
    assert_eq!((rows[0].regions[0].kind, rows[0].regions[1].kind), ("full", "tile"));
    assert_eq!(rows[0].regions[1].idx, 1);
    let batch = memory_batch(&pages, &vec![30, 31, -1]).unwrap();
    assert_eq!(batch.phashes, vec![(30, 7), (31, 8), (-1, 9)]);
    let ids: Vec<u64> = batch.vectors.iter().map(|v| v.0).collect();
    assert_eq!(ids, vec![30, 31, u64::MAX]);
    assert!(memory_batch(&pages, &vec![30]).is_none());
    assert!(memory_batch(&pages, &vec![30, 31, 32, 33]).is_none());
}

#[test]
fn backfill_sweeps_and_rests() {
    let mut b = Backfill::new();
    assert_eq!(b.on_claim(None), BackfillStep::Retry { wait_secs: 60 });
    assert_eq!(b.on_claim(Some(&vec![4, 9])), BackfillStep::Process);
    assert_eq!(b, Backfill { after_id: 9, was_busy: true });
    assert_eq!(b.on_claim(None), BackfillStep::Retry { wait_secs: 60 });
    assert_eq!(b.on_claim(Some(&vec![])), BackfillStep::SweepDone { report: true, wait_secs: 300 });
    assert_eq!(b, Backfill { after_id: 0, was_busy: false });
    assert_eq!(b.on_claim(Some(&vec![])), BackfillStep::SweepDone { report: false, wait_secs: 300 });
}

#[test]
fn a_page_that_kills_its_worker_is_done() {
    assert!(matches!(on_page(Some("x".to_string())), PageStep::Record { .. }));
    assert!(matches!(on_page(None), PageStep::Respawn));
    match on_respawn(true) {
        PageStep::Record { text } => assert_eq!(text, ""),
        other => panic!("{:?}", other),
    }
    assert!(matches!(on_respawn(false), PageStep::Stop));
}
