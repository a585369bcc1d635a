//! Indexing: which files are indexed, how a file becomes pages and regions, and
//! what is done when a file changes.

use crate::indexer::scanner::{changed_since, file_views, needs_reindex, text_view, DiscoveredFile, DiscoveredView};
use crate::storage::database::{is_newer, newer, FileRecord};
use crate::text::{decimal, decimal_i64, views};
use vstd::hash_map::StringHashMap;
use vstd::hash_set::StringHashSet;
use vstd::prelude::*;

pub mod filter;
pub mod ocr_backfill;
pub mod pdf_processor;
pub mod scanner;
pub mod subprocess;
pub mod watcher;
pub mod worker_pool;

verus! {

/// A file at which this many attempts in a row have ended in the death of the
/// worker process is taken to be a poison pill.
pub const CRASH_ATTEMPT_THRESHOLD: i64 = 2;

/// The paths of a list of files.
pub open spec fn paths_of(files: Seq<DiscoveredFile>) -> Set<Seq<char>> {
    files.map_values(|f: DiscoveredFile| f.path@).to_set()
}

/// Those of the stored paths that were not found on disk, in order.
pub open spec fn stale(stored: Seq<Seq<char>>, found: Set<Seq<char>>) -> Seq<Seq<char>> {
    stored.filter(|p: Seq<char>| !found.contains(p))
}

/// The stored paths whose files are gone from disk: their rows, vectors and
/// hashes are to be removed.
pub fn stale_paths(stored: &Vec<String>, files: &Vec<DiscoveredFile>) -> (r: Vec<String>)
    ensures
        views(r@) == stale(views(stored@), paths_of(files@)),
{
    let mut found = StringHashSet::new();
    let ghost paths = files@.map_values(|f: DiscoveredFile| f.path@);
    let mut i: usize = 0;
    assert(paths.take(0).to_set() =~= Set::empty());
    while i < files.len()
        invariant
            i <= files@.len(),
            paths == files@.map_values(|f: DiscoveredFile| f.path@),
            found@ == paths.take(i as int).to_set(),
        decreases files@.len() - i,
    {
        found.insert(files[i].path.clone());
        proof {
            assert(paths.take(i + 1) =~= paths.take(i as int).push(paths[i as int]));
            paths.take(i as int).lemma_push_to_set_commute(paths[i as int]);
        }
        i = i + 1;
    }
    assert(paths.take(i as int) =~= paths);
    let ghost keep = |p: Seq<char>| !paths_of(files@).contains(p);
    let mut out: Vec<String> = Vec::new();
    let mut k: usize = 0;
    assert(views(stored@).take(0).filter(keep) =~= Seq::empty());
    assert(views(out@) =~= Seq::empty());
    while k < stored.len()
        invariant
            k <= stored@.len(),
            found@ == paths_of(files@),
            keep == (|p: Seq<char>| !paths_of(files@).contains(p)),
            views(out@) == views(stored@).take(k as int).filter(keep),
        decreases stored@.len() - k,
    {
        let ghost prefix = views(stored@).take(k as int);
        let ghost x = views(stored@)[k as int];
        proof {
            assert(views(stored@).take(k + 1) =~= prefix.push(x));
            prefix.lemma_filter_push(x, keep);
        }
        if !found.contains(stored[k].as_str()) {
            let ghost before = views(out@);
            out.push(stored[k].clone());
            assert(views(out@) =~= before.push(x));
        }
        k = k + 1;
    }
    assert(views(stored@).take(k as int) =~= views(stored@));
    out
}

/// What is to be done about a file that was found on disk.
#[derive(Clone, Copy, PartialEq, Eq, Structural, Debug)]
pub enum FilterRule {
    /// Mark it excluded: it has killed its worker too often.
    AutoExclude,
    /// Nothing.
    Skip,
    /// Hash its bytes, and index it unless they are the ones indexed before.
    Hash,
    /// Index it.
    Queue,
}

/// The rule for a file: `rec` is its row, if it has one, and `mtime` its
/// modification time on disk. A file that has killed its worker too often gets
/// another try once it has been edited.
pub open spec fn filter_rule(rec: Option<FileRecord>, mtime: Option<i64>) -> FilterRule {
    match rec {
        None => FilterRule::Queue,
        Some(r) => if r.crash_attempts >= CRASH_ATTEMPT_THRESHOLD {
            if is_newer(r.modified_at, mtime) {
                FilterRule::Hash
            } else if r.is_excluded == 0 {
                FilterRule::AutoExclude
            } else {
                FilterRule::Skip
            }
        } else if !changed_since(mtime, r.indexed_at) {
            FilterRule::Skip
        } else if r.is_excluded == 1 && !changed_since(mtime, r.modified_at) {
            FilterRule::Skip
        } else {
            FilterRule::Hash
        },
    }
}

/// The reason recorded for a file that is excluded for its crashes.
pub open spec fn crash_reason(attempts: i64) -> Seq<char> {
    "Process crashed "@ + decimal(attempts as int)
        + " times while indexing this file (suspected FFI poison pill)"@
}

/// Whether the bytes of a file are those of its last successful index.
pub open spec fn unchanged_bytes(rec: FileRecord, hash: Option<Seq<char>>) -> bool {
    hash is Some && text_view(rec.content_sha1) == hash && rec.indexed_at is Some
}

/// Whether the bytes of a file, by their hash, are those of its last successful
/// index. A file that could not be hashed counts as changed.
pub fn bytes_unchanged(rec: &FileRecord, hash: &Option<String>) -> (r: bool)
    ensures
        r == unchanged_bytes(*rec, text_view(*hash)),
{
    match hash {
        None => false,
        Some(h) => match &rec.content_sha1 {
            None => false,
            Some(known) => *known == *h && rec.indexed_at.is_some(),
        },
    }
}

/// What [`FilterPass::offer`] asks of its caller.
#[derive(Debug)]
pub enum FilterStep {
    /// Mark the row excluded with this reason.
    AutoExclude { file_id: i64, reason: String },
    /// Nothing: the file needs no work.
    Skip,
    /// Hash the file and hand it to [`FilterPass::resolve`].
    Hash { file: DiscoveredFile },
    /// Nothing: the file is queued.
    Queued,
}

/// What [`FilterPass::resolve`] asks of its caller.
#[derive(Debug)]
pub enum HashStep {
    /// The bytes have not changed: refresh the row's metadata and the time of its
    /// index, keeping its page count.
    Refresh { file: DiscoveredFile, file_id: i64, page_count: i64 },
    /// Nothing: the file is queued.
    Queued,
}

/// The pass over all files found on disk that decides which are indexed.
pub struct FilterPass {
    known: StringHashMap<FileRecord>,
    queued: Vec<DiscoveredFile>,
}

/// The row of a path: the last one, should there be several.
pub open spec fn row_of(records: Seq<FileRecord>, path: Seq<char>) -> Option<FileRecord>
    decreases records.len(),
{
    if records.len() == 0 {
        None
    } else if records.last().path@ == path {
        Some(records.last())
    } else {
        row_of(records.drop_last(), path)
    }
}

impl FilterPass {
    /// The row of a path.
    pub closed spec fn row(self, path: Seq<char>) -> Option<FileRecord> {
        if self.known@.contains_key(path) {
            Some(self.known@[path])
        } else {
            None
        }
    }

    /// The files queued so far.
    pub closed spec fn queue(self) -> Seq<DiscoveredView> {
        file_views(self.queued@)
    }

    /// A pass that knows the given rows and has queued nothing.
    pub fn new(records: Vec<FileRecord>) -> (r: FilterPass)
        ensures
            forall|path: Seq<char>| #[trigger] r.row(path) == row_of(records@, path),
            r.queue() == Seq::<DiscoveredView>::empty(),
    {
        let mut left = records;
        let mut known: StringHashMap<FileRecord> = StringHashMap::new();
        let ghost all = left@;
        assert(left@.drop_last() =~= left@.drop_last());
        loop
            invariant
                left@.len() <= all.len(),
                forall|path: Seq<char>|
                    known@.contains_key(path) ==> row_of(all, path) == Some(#[trigger] known@[path]),
                forall|path: Seq<char>|
                    !(#[trigger] known@.contains_key(path)) ==> row_of(all, path) == row_of(left@, path),
            ensures
                left@.len() == 0,
            decreases left@.len(),
        {
            let ghost prev = left@;
            match left.pop() {
                None => {
                    break;
                },
                Some(rec) => {
                    assert(prev.drop_last() =~= left@);
                    if !known.contains_key(rec.path.as_str()) {
                        let path = rec.path.clone();
                        known.insert(path, rec);
                    }
                },
            }
        }
        let r = FilterPass { known, queued: Vec::new() };
        assert(r.queue() =~= Seq::empty());
        r
    }

    /// Decides about a file by its row and its modification time on disk.
    pub fn offer(&mut self, file: DiscoveredFile, mtime: Option<i64>) -> (r: FilterStep)
        ensures
            forall|path: Seq<char>| #[trigger] final(self).row(path) == old(self).row(path),
            final(self).queue() == if filter_rule(old(self).row(file@.path), mtime)
                == FilterRule::Queue {
                old(self).queue().push(file@)
            } else {
                old(self).queue()
            },
            match filter_rule(old(self).row(file@.path), mtime) {
                FilterRule::Queue => r is Queued,
                FilterRule::Skip => r is Skip,
                FilterRule::Hash => r is Hash && r->file@ == file@,
                FilterRule::AutoExclude => {
                    let rec = old(self).row(file@.path)->Some_0;
                    r is AutoExclude && r->file_id == rec.id && r->reason@ == crash_reason(
                        rec.crash_attempts,
                    )
                },
            },
    {
        let ghost before = *self;
        match self.known.get(file.path.as_str()) {
            None => {},
            Some(rec) => {
                if rec.crash_attempts >= CRASH_ATTEMPT_THRESHOLD {
                    if newer(rec.modified_at, mtime) {
                        return FilterStep::Hash { file };
                    }
                    if rec.is_excluded == 0 {
                        let mut reason = "Process crashed ".to_owned();
                        let n = decimal_i64(rec.crash_attempts);
                        reason.append(n.as_str());
                        reason.append(" times while indexing this file (suspected FFI poison pill)");
                        return FilterStep::AutoExclude { file_id: rec.id, reason };
                    }
                    return FilterStep::Skip;
                }
                if !needs_reindex(mtime, rec.indexed_at) {
                    return FilterStep::Skip;
                }
                if rec.is_excluded == 1 && !needs_reindex(mtime, rec.modified_at) {
                    return FilterStep::Skip;
                }
                return FilterStep::Hash { file };
            },
        }
        self.queued.push(file);
        assert(self.queue() =~= before.queue().push(file@));
        FilterStep::Queued
    }

    /// Decides about a file whose bytes have been hashed (`None` where that
    /// failed).
    pub fn resolve(&mut self, file: DiscoveredFile, hash: Option<String>) -> (r: HashStep)
        requires
            old(self).row(file@.path) is Some,
        ensures
            forall|path: Seq<char>| #[trigger] final(self).row(path) == old(self).row(path),
            ({
                let rec = old(self).row(file@.path)->Some_0;
                if unchanged_bytes(rec, text_view(hash)) {
                    &&& final(self).queue() == old(self).queue()
                    &&& r is Refresh
                    &&& r->file@ == file@
                    &&& r->file_id == rec.id
                    &&& r->page_count == rec.page_count
                } else {
                    &&& r is Queued
                    &&& final(self).queue() == old(self).queue().push(
                        (DiscoveredView { content_sha1: text_view(hash), ..file@ }),
                    )
                }
            }),
    {
        let ghost before = *self;
        if let Some(rec) = self.known.get(file.path.as_str()) {
            if bytes_unchanged(rec, &hash) {
                return HashStep::Refresh { file, file_id: rec.id, page_count: rec.page_count };
            }
        }
        let ghost fv = file@;
        let hashed = DiscoveredFile { content_sha1: hash, ..file };
        self.queued.push(hashed);
        assert(hashed@ == (DiscoveredView { content_sha1: text_view(hash), ..fv }));
        assert(self.queue() =~= before.queue().push(hashed@));
        HashStep::Queued
    }

    /// The files to be indexed, in the order in which they were queued.
    pub fn finish(self) -> (r: Vec<DiscoveredFile>)
        ensures
            file_views(r@) == self.queue(),
    {
        self.queued
    }
}

/// A file that has killed its worker often enough is not indexed again, unless it
/// has been edited since.
pub proof fn poison_pill_is_not_indexed(rec: FileRecord, mtime: Option<i64>)
    requires
        rec.crash_attempts >= CRASH_ATTEMPT_THRESHOLD,
        !is_newer(rec.modified_at, mtime),
    ensures
        filter_rule(Some(rec), mtime) == FilterRule::AutoExclude || filter_rule(Some(rec), mtime)
            == FilterRule::Skip,
{
}

/// A file that was edited after it had been excluded for its crashes is taken up
/// again, and with other bytes than those last indexed it is indexed.
pub proof fn edited_file_is_unblocked(rec: FileRecord, mtime: i64)
    requires
        rec.crash_attempts >= CRASH_ATTEMPT_THRESHOLD,
        rec.modified_at is Some && mtime > rec.modified_at->Some_0,
    ensures
        filter_rule(Some(rec), Some(mtime)) == FilterRule::Hash,
{
}

/// A file that has not been touched since it was indexed, or since it was
/// excluded, needs no work.
pub proof fn untouched_file_is_skipped(rec: FileRecord, mtime: i64)
    requires
        rec.crash_attempts < CRASH_ATTEMPT_THRESHOLD,
        rec.indexed_at is Some && mtime <= rec.indexed_at->Some_0 || rec.is_excluded == 1
            && rec.modified_at is Some && mtime <= rec.modified_at->Some_0,
    ensures
        filter_rule(Some(rec), Some(mtime)) == FilterRule::Skip,
{
}

/// A file without a row is always indexed.
pub proof fn new_file_is_indexed(mtime: Option<i64>)
    ensures
        filter_rule(None, mtime) == FilterRule::Queue,
{
}

/// The bytes of a file count as unchanged only where its row holds a hash, that hash is
/// the one of the bytes on disk, and the file has been indexed.
pub proof fn only_known_bytes_are_unchanged(rec: &FileRecord, hash: &Option<String>, r: bool)
    requires
        call_ensures(bytes_unchanged, (rec, hash), r),
    ensures
        r <==> rec.indexed_at is Some && rec.content_sha1 is Some && *hash is Some
            && rec.content_sha1->Some_0@ == hash->Some_0@,
{
}

/// A file that was hashed is put off without being indexed only where its row holds the
/// hash of its bytes and it has been indexed. A file whose row holds no hash, or
/// another one, is queued, with the hash of its bytes.
pub proof fn edited_bytes_are_indexed(
    pass: &mut FilterPass,
    file: DiscoveredFile,
    hash: Option<String>,
    r: HashStep,
)
    requires
        old(pass).row(file.path@) is Some,
        call_ensures(FilterPass::resolve, (pass, file, hash), r),
    ensures
        ({
            let rec = old(pass).row(file.path@)->Some_0;
            let known = rec.indexed_at is Some && rec.content_sha1 is Some && hash is Some
                && rec.content_sha1->Some_0@ == hash->Some_0@;
            &&& known ==> r is Refresh && r->file_id == rec.id && r->page_count == rec.page_count
                && r->file.path@ == file.path@ && final(pass).queue() == old(pass).queue()
            &&& !known ==> r is Queued && final(pass).queue().len() == old(pass).queue().len() + 1
                && final(pass).queue().last().path == file.path@ && (hash is Some
                ==> final(pass).queue().last().content_sha1 == Some(hash->Some_0@)) && forall|i: int|
                0 <= i < old(pass).queue().len() ==> #[trigger] final(pass).queue()[i] == old(
                    pass,
                ).queue()[i]
        }),
{
}

/// What is done about a file found on disk, by its row and its time: a file without a
/// row is queued; one that was not modified after it was indexed is left alone, and so
/// is an excluded one that was not modified after its row was written; every other is
/// hashed. One that has killed its worker twice is excluded, or left so, unless it was
/// edited since its row was written: then it is hashed.
pub proof fn files_are_taken_by_their_times(
    pass: &mut FilterPass,
    file: DiscoveredFile,
    mtime: Option<i64>,
    r: FilterStep,
)
    requires
        call_ensures(FilterPass::offer, (pass, file, mtime), r),
    ensures
        old(pass).row(file.path@) is None ==> r is Queued && final(pass).queue().len() == old(
            pass,
        ).queue().len() + 1 && final(pass).queue().last().path == file.path@,
        old(pass).row(file.path@) is Some ==> {
            let rec = old(pass).row(file.path@)->Some_0;
            let edited = rec.modified_at is Some && mtime is Some && mtime->Some_0
                > rec.modified_at->Some_0;
            let indexed = rec.indexed_at is Some && (mtime is None || mtime->Some_0
                <= rec.indexed_at->Some_0);
            let settled = rec.is_excluded == 1 && rec.modified_at is Some && !edited;
            &&& final(pass).queue() == old(pass).queue()
            &&& rec.crash_attempts >= 2 && edited ==> r is Hash
            &&& rec.crash_attempts >= 2 && !edited && rec.is_excluded != 0 ==> r is Skip
            &&& rec.crash_attempts >= 2 && !edited && rec.is_excluded == 0 ==> r is AutoExclude
                && r->file_id == rec.id
            &&& rec.crash_attempts < 2 && (indexed || settled) ==> r is Skip
            &&& rec.crash_attempts < 2 && !indexed && !settled ==> r is Hash
            &&& r is Hash ==> r->Hash_file.path@ == file.path@
        },
{
}

/// A stored path is stale exactly where no file on disk has it.
pub proof fn stale_paths_are_not_on_disk(
    stored: &Vec<String>,
    files: &Vec<DiscoveredFile>,
    r: Vec<String>,
    path: Seq<char>,
)
    requires
        call_ensures(stale_paths, (stored, files), r),
    ensures
        (exists|i: int| 0 <= i < r@.len() && (#[trigger] r@[i])@ == path) <==> ((exists|i: int|
            0 <= i < stored@.len() && (#[trigger] stored@[i])@ == path) && forall|i: int|
            0 <= i < files@.len() ==> (#[trigger] files@[i]).path@ != path),
{
    broadcast use vstd::seq_lib::group_filter_ensures;

    let found = paths_of(files@);
    let keep = |p: Seq<char>| !found.contains(p);
    let all = views(stored@);
    let list = files@.map_values(|f: DiscoveredFile| f.path@);
    if found.contains(path) {
        let i = choose|i: int| 0 <= i < list.len() && list[i] == path;
        assert(files@[i].path@ == path);
    } else {
        assert forall|i: int| 0 <= i < files@.len() implies (#[trigger] files@[i]).path@ != path by {
            assert(list[i] == files@[i].path@);
            if list[i] == path {
                assert(list.contains(path));
            }
        }
    }
    if exists|i: int| 0 <= i < r@.len() && (#[trigger] r@[i])@ == path {
        let i = choose|i: int| 0 <= i < r@.len() && (#[trigger] r@[i])@ == path;
        assert(views(r@)[i] == path);
        assert(keep(all.filter(keep)[i]));
        all.lemma_filter_contains_rev(keep, path);
        let j = choose|j: int| 0 <= j < all.len() && all[j] == path;
        assert(stored@[j]@ == path);
    }
    if !found.contains(path) && exists|i: int|
        0 <= i < stored@.len() && (#[trigger] stored@[i])@ == path {
        let i = choose|i: int| 0 <= i < stored@.len() && (#[trigger] stored@[i])@ == path;
        assert(all[i] == path);
        all.lemma_filter_contains(keep, i);
        let j = choose|j: int| 0 <= j < all.filter(keep).len() && all.filter(keep)[j] == path;
        assert(r@[j]@ == views(r@)[j]);
    }
}

/// A file counts as touched exactly where its time is known and later than the last, or
/// there is no last.
pub proof fn later_times_count_as_changes(mtime: Option<i64>, last: Option<i64>, r: bool)
    requires
        call_ensures(needs_reindex, (mtime, last), r),
    ensures
        r <==> last is None || mtime is Some && mtime->Some_0 > last->Some_0,
{
}

proof fn lemma_last_row(records: Seq<FileRecord>, path: Seq<char>)
    ensures
        row_of(records, path) is None ==> forall|i: int|
            0 <= i < records.len() ==> (#[trigger] records[i]).path@ != path,
        row_of(records, path) is Some ==> exists|i: int|
            0 <= i < records.len() && #[trigger] records[i] == row_of(records, path)->Some_0
                && records[i].path@ == path && forall|k: int|
                i < k < records.len() ==> (#[trigger] records[k]).path@ != path,
    decreases records.len(),
{
    if records.len() > 0 {
        let init = records.drop_last();
        let n = init.len() as int;
        lemma_last_row(init, path);
        assert forall|i: int| 0 <= i < n implies #[trigger] init[i] == records[i] by {
        }
        if records.last().path@ == path {
            assert(records[n] == row_of(records, path)->Some_0);
        } else if row_of(init, path) is Some {
            let i = choose|i: int|
                0 <= i < init.len() && #[trigger] init[i] == row_of(init, path)->Some_0
                    && init[i].path@ == path && forall|k: int|
                    i < k < init.len() ==> (#[trigger] init[k]).path@ != path;
            assert(records[i] == init[i]);
            assert forall|k: int| i < k < records.len() implies (#[trigger] records[k]).path@
                != path by {
                if k < n {
                    assert(init[k] == records[k]);
                }
            }
        } else {
            assert forall|i: int| 0 <= i < records.len() implies (#[trigger] records[i]).path@
                != path by {
                if i < n {
                    assert(init[i] == records[i]);
                }
            }
        }
    }
}

/// A pass knows each file by the last row that has its path, and none that has no row.
pub proof fn files_are_known_by_their_path(
    records: Vec<FileRecord>,
    r: FilterPass,
    path: Seq<char>,
)
    requires
        call_ensures(FilterPass::new, (records,), r),
    ensures
        r.queue().len() == 0,
        r.row(path) is None ==> forall|i: int|
            0 <= i < records@.len() ==> (#[trigger] records@[i]).path@ != path,
        r.row(path) is Some ==> exists|i: int|
            0 <= i < records@.len() && #[trigger] records@[i] == r.row(path)->Some_0
                && records@[i].path@ == path && forall|k: int|
                i < k < records@.len() ==> (#[trigger] records@[k]).path@ != path,
{
    lemma_last_row(records@, path);
    assert(r.row(path) == row_of(records@, path));
}

} // verus!
