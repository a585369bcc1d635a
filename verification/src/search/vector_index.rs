//! The books of the vector index: which ids it holds, which of them are deleted, which
//! comes next, how much is fetched for a search, and what is kept of it on disk. The
//! graph itself only ever grows; deleted ids are filtered out of what a search in it
//! gives.

use crate::bytes::{from_le64, le64, le64_round_trip};
use crate::error::AppError;
use crate::float32::Float32;
use crate::paths::{file_stem, joined, join, parent, parent_of, stem_of};
use crate::text::same;
use std::collections::HashSet;
use vstd::prelude::*;

verus! {

/// The id of a vector: that of its row in `regions`.
pub type VectorId = u64;

/// A neighbour of the query.
#[derive(Clone, Copy, PartialEq, Eq, Structural, Debug)]
pub struct VectorMatch {
    pub vector_id: VectorId,
    /// Cosine distance: zero for the same direction.
    pub distance: Float32,
}

/// Outgoing edges of a node in each layer of the graph, at most.
pub const MAX_NB_CONNECTION: usize = 16;

/// Candidates considered when a node is inserted.
pub const EF_CONSTRUCTION: usize = 200;

/// Layers of the graph, at most.
pub const MAX_LAYER: usize = 16;

/// Nodes for which room is made at first.
pub const DEFAULT_CAPACITY: usize = 500_000;

/// Candidates considered in a search, at least.
pub const EF_SEARCH: usize = 256;

/// Vectors from which on a batch is inserted in parallel.
pub const PARALLEL_INSERT_MIN: usize = 64;

/// The bytes in which a number and a list of numbers are kept: the number, the
/// length of the list and its items, each in eight bytes.
pub open spec fn meta_bytes(next_id: u64, deleted: Seq<u64>) -> Seq<u8> {
    le64(next_id) + le64(deleted.len() as u64) + Seq::new(
        8 * deleted.len(),
        |j: int| le64(deleted[j / 8])[j % 8],
    )
}

/// The number and the list of numbers that some bytes begin with; `None` where they
/// end too soon. What follows the list does not matter.
pub open spec fn meta_of(bytes: Seq<u8>) -> Option<(u64, Seq<u64>)> {
    if bytes.len() < 16 || bytes.len() < 16 + 8 * from_le64(bytes.skip(8)) {
        None
    } else {
        Some(
            (
                from_le64(bytes) as u64,
                Seq::new(
                    from_le64(bytes.skip(8)) as nat,
                    |i: int| from_le64(bytes.skip(16 + 8 * i)) as u64,
                ),
            ),
        )
    }
}

/// `bincode::deserialize` into a number and a list of numbers, which is how a
/// struct of two such fields is laid out: integers have a fixed width and their
/// lowest byte first, a list begins with its length, bytes left over are accepted,
/// and too few are an error.
#[verifier::external_body]
fn decode_meta(bytes: &Vec<u8>) -> (r: Option<(u64, Vec<u64>)>)
    ensures
        match r {
            Some((next_id, deleted)) => meta_of(bytes@) == Some((next_id, deleted@)),
            None => meta_of(bytes@) is None,
        },
{
    bincode::deserialize(bytes).ok()
}

/// `bincode::serialize` of a number and a list of numbers: integers have a fixed
/// width and their lowest byte first, and a list begins with its length. Written to
/// memory, and without a limit on the size, numbers cannot fail to be serialised.
#[verifier::external_body]
fn encode_meta(next_id: u64, deleted: &Vec<u64>) -> (r: Result<Vec<u8>, String>)
    ensures
        r is Ok,
        r->Ok_0@ == meta_bytes(next_id, deleted@),
{
    bincode::serialize(&(next_id, deleted)).map_err(|e| e.to_string())
}

/// What was found on disk when the index was opened.
#[derive(Debug)]
pub enum OnDisk {
    /// No graph; and what lay in its place, if anything could be read: an index without
    /// vectors has no graph to save.
    Missing { meta: Option<Vec<u8>> },
    /// A graph that could not be loaded: its files are deleted.
    Corrupt,
    /// A graph with vectors under these ids, and what lay beside it, if anything could
    /// be read.
    Loaded { ids: Vec<u64>, meta: Option<Vec<u8>> },
}

/// The id that comes next, and the deleted ids, by what was saved.
pub open spec fn saved_books(meta: Option<Vec<u8>>) -> (u64, Seq<u64>) {
    match meta {
        None => (1, Seq::empty()),
        Some(bytes) => match meta_of(bytes@) {
            None => (1, Seq::empty()),
            Some((next_id, deleted)) => (
                if next_id < 1 {
                    1
                } else {
                    next_id
                },
                deleted,
            ),
        },
    }
}

/// The id that comes next, and the deleted ids, of an index that was opened.
pub open spec fn opened(found: OnDisk) -> (u64, Seq<u64>) {
    match found {
        OnDisk::Corrupt => (1, Seq::empty()),
        OnDisk::Missing { meta } => saved_books(meta),
        OnDisk::Loaded { meta, .. } => saved_books(meta),
    }
}

/// The ids in the graph of an index that was opened.
pub open spec fn opened_ids(found: OnDisk) -> Set<u64> {
    match found {
        OnDisk::Loaded { ids, .. } => ids@.to_set(),
        _ => Set::empty(),
    }
}

fn read_books(meta: Option<Vec<u8>>) -> (r: (u64, Vec<u64>))
    ensures
        (r.0, r.1@) == saved_books(meta),
{
    let (next_id, list): (u64, Vec<u64>) = match meta {
        None => (1, Vec::new()),
        Some(bytes) => match decode_meta(&bytes) {
            None => (1, Vec::new()),
            Some(m) => m,
        },
    };
    let next: u64 = if next_id < 1 {
        1
    } else {
        next_id
    };
    assert(list@ =~= saved_books(meta).1);
    (next, list)
}

/// How a search goes into the graph.
#[derive(Clone, Copy, PartialEq, Eq, Structural, Debug)]
pub struct SearchWindow {
    /// Neighbours asked for.
    pub fetch_k: usize,
    /// Candidates considered.
    pub ef: usize,
}

/// The smaller of two numbers.
pub open spec fn min_of(a: int, b: int) -> int {
    if a <= b {
        a
    } else {
        b
    }
}

/// The neighbours to be asked for: as many as wanted and one more for each
/// deleted id, but no more than thrice as many as wanted, and no more than there
/// are.
pub open spec fn fetch_count(k: int, tombstones: int, total: int) -> int {
    min_of(k + min_of(tombstones, 2 * k), total)
}

/// The books of a vector index.
#[derive(Debug)]
pub struct VectorIndex {
    /// The ids in the graph, each once.
    points: Vec<u64>,
    present: HashSet<u64>,
    /// The deleted ids, each once, in the order of deletion.
    tombstones: Vec<u64>,
    deleted: HashSet<u64>,
    next: u64,
    dir: String,
    basename: String,
}

/// Picks the matches whose ids are not deleted.
pub open spec fn alive(deleted: Set<u64>) -> spec_fn(VectorMatch) -> bool {
    |m: VectorMatch| !deleted.contains(m.vector_id)
}

/// Picks the ids that are not deleted.
pub open spec fn not_in(deleted: Set<u64>) -> spec_fn(u64) -> bool {
    |id: u64| !deleted.contains(id)
}

/// The first `k` of the matches whose ids are not deleted.
pub open spec fn live(matches: Seq<VectorMatch>, deleted: Set<u64>, k: nat) -> Seq<VectorMatch> {
    let all = matches.filter(alive(deleted));
    if all.len() <= k {
        all
    } else {
        all.take(k as int)
    }
}

impl VectorIndex {
    /// The lists and the sets of ids agree.
    pub closed spec fn wf(self) -> bool {
        &&& self.points@.no_duplicates()
        &&& self.points@.to_set() == self.present@
        &&& self.tombstones@.no_duplicates()
        &&& self.tombstones@.to_set() == self.deleted@
    }

    /// The ids in the graph, deleted or not.
    pub closed spec fn ids(self) -> Set<u64> {
        self.present@
    }

    /// The deleted ids.
    pub closed spec fn dead(self) -> Set<u64> {
        self.deleted@
    }

    /// The deleted ids, each once, as they are saved.
    pub closed spec fn dead_list(self) -> Seq<u64> {
        self.tombstones@
    }

    /// The id that comes next.
    pub closed spec fn upcoming(self) -> u64 {
        self.next
    }

    /// The directory of the files.
    pub closed spec fn directory(self) -> Seq<char> {
        self.dir@
    }

    /// What the names of the files begin with.
    pub closed spec fn base(self) -> Seq<char> {
        self.basename@
    }

    /// Whether the index holds what was found on disk.
    pub open spec fn holds(self, found: OnDisk) -> bool {
        &&& self.wf()
        &&& self.upcoming() == opened(found).0
        &&& self.dead() == opened(found).1.to_set()
        &&& self.ids() == opened_ids(found)
    }

    /// The vectors that a search can give: those in the graph that are not deleted.
    pub open spec fn live_ids(self) -> Set<u64> {
        self.ids().difference(self.dead())
    }

    /// Opens the index whose files lie next to `path_base`: they share its
    /// directory, and its name without the extension.
    pub fn open(path_base: &str, found: OnDisk) -> (r: VectorIndex)
        ensures
            r.holds(found),
            r.directory() == match parent_of(path_base@) {
                Some(d) if d.len() > 0 => d,
                _ => "."@,
            },
            r.base() == match stem_of(path_base@) {
                Some(s) => s,
                None => "vectors"@,
            },
    {
        broadcast use vstd::std_specs::hash::group_hash_axioms;

        let dir = match parent(path_base) {
            Some(d) => if d.as_str().is_empty() {
                ".".to_owned()
            } else {
                d
            },
            None => ".".to_owned(),
        };
        let basename = match file_stem(path_base) {
            Some(s) => s,
            None => "vectors".to_owned(),
        };
        let none: Vec<u64> = Vec::new();
        assert(none@.to_set() =~= Set::<u64>::empty());
        let (ids, (next, list)): (Vec<u64>, (u64, Vec<u64>)) = match found {
            OnDisk::Missing { meta } => (none, read_books(meta)),
            OnDisk::Corrupt => {
                let nothing: Vec<u64> = Vec::new();
                assert(nothing@ =~= Seq::<u64>::empty());
                (none, (1, nothing))
            },
            OnDisk::Loaded { ids, meta } => (ids, read_books(meta)),
        };
        assert(list@ == opened(found).1);
        assert(ids@.to_set() == opened_ids(found));
        let mut index = VectorIndex {
            points: Vec::new(),
            present: HashSet::new(),
            tombstones: Vec::new(),
            deleted: HashSet::new(),
            next,
            dir,
            basename,
        };
        proof {
            assert(index.tombstones@.to_set() =~= index.deleted@);
            assert(index.points@.to_set() =~= index.present@);
            assert(index.dead() =~= Set::empty());
            assert(index.ids() =~= Set::empty());
        }
        index.add_batch(&ids);
        assert(index.dead() =~= Set::empty());
        assert(index.ids() =~= ids@.to_set());
        index.remove(&list);
        assert(index.dead() =~= list@.to_set());
        index
    }

    /// A vector has been added to the graph under `id`: it can be found at once, also
    /// where the id was deleted before.
    pub fn add(&mut self, id: u64)
        requires
            old(self).wf(),
        ensures
            final(self).wf(),
            final(self).ids() == old(self).ids().insert(id),
            final(self).dead() == old(self).dead().remove(id),
            final(self).dead_list() == old(self).dead_list().filter(|d: u64| d != id),
            final(self).upcoming() == old(self).upcoming(),
            final(self).directory() == old(self).directory(),
            final(self).base() == old(self).base(),
    {
        broadcast use vstd::std_specs::hash::group_hash_axioms;

        let ghost before = *self;
        if !self.present.contains(&id) {
            self.present.insert(id);
            self.points.push(id);
            proof {
                before.points@.lemma_push_to_set_commute(id);
                assert(!before.points@.contains(id)) by {
                    if before.points@.contains(id) {
                        assert(before.points@.to_set().contains(id));
                    }
                }
            }
        }
        assert(self.ids() =~= before.ids().insert(id));
        if self.deleted.contains(&id) {
            self.deleted.remove(&id);
            self.forget_tombstone(id);
        } else {
            proof {
                assert(!before.tombstones@.contains(id)) by {
                    if before.tombstones@.contains(id) {
                        assert(before.tombstones@.to_set().contains(id));
                    }
                }
                lemma_filter_all(before.tombstones@, id);
            }
        }
        proof {
            lemma_without(before.tombstones@, id);
            assert(self.tombstones@.to_set() =~= self.deleted@);
            assert(self.dead() =~= before.dead().remove(id));
        }
    }

    fn forget_tombstone(&mut self, id: u64)
        ensures
            final(self).tombstones@ == old(self).tombstones@.filter(|d: u64| d != id),
            final(self).points == old(self).points,
            final(self).present == old(self).present,
            final(self).deleted == old(self).deleted,
            final(self).next == old(self).next,
            final(self).dir == old(self).dir,
            final(self).basename == old(self).basename,
    {
        let ghost keep = |d: u64| d != id;
        let mut kept: Vec<u64> = Vec::new();
        let mut i: usize = 0;
        assert(self.tombstones@.take(0).filter(keep) =~= Seq::empty());
        while i < self.tombstones.len()
            invariant
                i <= self.tombstones@.len(),
                *self == *old(self),
                keep == (|d: u64| d != id),
                kept@ == self.tombstones@.take(i as int).filter(keep),
            decreases self.tombstones@.len() - i,
        {
            let d: u64 = self.tombstones[i];
            proof {
                assert(self.tombstones@.take(i + 1) =~= self.tombstones@.take(i as int).push(d));
                self.tombstones@.take(i as int).lemma_filter_push(d, keep);
            }
            if d != id {
                kept.push(d);
            }
            i = i + 1;
        }
        assert(self.tombstones@.take(i as int) =~= self.tombstones@);
        self.tombstones = kept;
    }

    /// Vectors have been added to the graph under these ids.
    pub fn add_batch(&mut self, ids: &Vec<u64>)
        requires
            old(self).wf(),
        ensures
            final(self).wf(),
            final(self).ids() == old(self).ids().union(ids@.to_set()),
            final(self).dead() == old(self).dead().difference(ids@.to_set()),
            final(self).upcoming() == old(self).upcoming(),
            final(self).directory() == old(self).directory(),
            final(self).base() == old(self).base(),
    {
        let mut i: usize = 0;
        assert(old(self).ids().union(ids@.take(0).to_set()) =~= old(self).ids());
        assert(old(self).dead().difference(ids@.take(0).to_set()) =~= old(self).dead());
        while i < ids.len()
            invariant
                i <= ids@.len(),
                self.wf(),
                self.ids() == old(self).ids().union(ids@.take(i as int).to_set()),
                self.dead() == old(self).dead().difference(ids@.take(i as int).to_set()),
                self.upcoming() == old(self).upcoming(),
                self.directory() == old(self).directory(),
                self.base() == old(self).base(),
            decreases ids@.len() - i,
        {
            let id: u64 = ids[i];
            self.add(id);
            proof {
                assert(ids@.take(i + 1) =~= ids@.take(i as int).push(id));
                ids@.take(i as int).lemma_push_to_set_commute(id);
                assert(self.ids() =~= old(self).ids().union(ids@.take(i + 1).to_set()));
                assert(self.dead() =~= old(self).dead().difference(ids@.take(i + 1).to_set()));
            }
            i = i + 1;
        }
        assert(ids@.take(i as int) =~= ids@);
    }

    /// Marks ids as deleted.
    pub fn remove(&mut self, ids: &Vec<u64>)
        requires
            old(self).wf(),
        ensures
            final(self).wf(),
            final(self).dead() == old(self).dead().union(ids@.to_set()),
            final(self).ids() == old(self).ids(),
            final(self).upcoming() == old(self).upcoming(),
            final(self).directory() == old(self).directory(),
            final(self).base() == old(self).base(),
            old(self).dead_list().is_prefix_of(final(self).dead_list()),
    {
        broadcast use vstd::std_specs::hash::group_hash_axioms;

        let mut i: usize = 0;
        assert(old(self).dead().union(ids@.take(0).to_set()) =~= old(self).dead());
        while i < ids.len()
            invariant
                i <= ids@.len(),
                self.wf(),
                self.dead() == old(self).dead().union(ids@.take(i as int).to_set()),
                self.ids() == old(self).ids(),
                self.upcoming() == old(self).upcoming(),
                self.directory() == old(self).directory(),
                self.base() == old(self).base(),
                old(self).dead_list().is_prefix_of(self.dead_list()),
            decreases ids@.len() - i,
        {
            let id: u64 = ids[i];
            let ghost before = *self;
            if !self.deleted.contains(&id) {
                self.deleted.insert(id);
                self.tombstones.push(id);
                proof {
                    before.tombstones@.lemma_push_to_set_commute(id);
                    assert(!before.tombstones@.contains(id)) by {
                        if before.tombstones@.contains(id) {
                            assert(before.tombstones@.to_set().contains(id));
                        }
                    }
                }
            }
            proof {
                assert(ids@.take(i + 1) =~= ids@.take(i as int).push(id));
                ids@.take(i as int).lemma_push_to_set_commute(id);
                assert(self.dead() =~= old(self).dead().union(ids@.take(i + 1).to_set()));
            }
            i = i + 1;
        }
        assert(ids@.take(i as int) =~= ids@);
    }

    /// How to search the graph, which holds `total` vectors, for `k` neighbours;
    /// `None` where there is nothing to ask for.
    pub fn plan_search(&self, total: usize, k: usize) -> (r: Option<SearchWindow>)
        requires
            self.wf(),
        ensures
            r is None <==> k == 0 || total == 0,
            r is Some ==> r->Some_0.fetch_k == fetch_count(
                k as int,
                self.dead().len() as int,
                total as int,
            ) && r->Some_0.ef == if r->Some_0.fetch_k > EF_SEARCH {
                r->Some_0.fetch_k
            } else {
                EF_SEARCH
            },
    {
        if k == 0 || total == 0 {
            return None;
        }
        proof {
            self.tombstones@.unique_seq_to_set();
        }
        let nb_tomb: usize = self.tombstones.len();
        let extra: usize = if k > nb_tomb / 2 || nb_tomb <= 2 * k {
            nb_tomb
        } else {
            2 * k
        };
        let fetch_k: usize = if k >= total || extra >= total - k {
            total
        } else {
            k + extra
        };
        let ef: usize = if fetch_k > EF_SEARCH {
            fetch_k
        } else {
            EF_SEARCH
        };
        Some(SearchWindow { fetch_k, ef })
    }

    /// What a search gives: the first `k` of the neighbours found in the graph that
    /// are not deleted.
    pub fn search(&self, neighbours: &Vec<VectorMatch>, k: usize) -> (r: Vec<VectorMatch>)
        ensures
            r@ == live(neighbours@, self.dead(), k as nat),
    {
        broadcast use vstd::std_specs::hash::group_hash_axioms;

        let ghost keep = alive(self.dead());
        let mut out: Vec<VectorMatch> = Vec::new();
        let mut i: usize = 0;
        assert(neighbours@.take(0).filter(keep) =~= Seq::empty());
        while i < neighbours.len() && out.len() < k
            invariant
                i <= neighbours@.len(),
                out@.len() <= k,
                keep == alive(self.dead()),
                out@ == neighbours@.take(i as int).filter(keep),
            decreases neighbours@.len() - i,
        {
            let m: VectorMatch = neighbours[i];
            proof {
                assert(neighbours@.take(i + 1) =~= neighbours@.take(i as int).push(m));
                neighbours@.take(i as int).lemma_filter_push(m, keep);
            }
            if !self.deleted.contains(&m.vector_id) {
                out.push(m);
            }
            i = i + 1;
        }
        proof {
            let head = neighbours@.take(i as int);
            let tail = neighbours@.skip(i as int);
            assert(head + tail =~= neighbours@);
            Seq::filter_distributes_over_add(head, tail, keep);
            if i == neighbours@.len() {
                assert(head =~= neighbours@);
            } else {
                assert((out@ + tail.filter(keep)).take(k as int) =~= out@);
                assert(tail.filter(keep).len() == 0 ==> out@ + tail.filter(keep) =~= out@);
            }
        }
        out
    }

    /// What is to be saved beside the graph.
    pub fn write_meta(&self) -> (r: Result<Vec<u8>, AppError>)
        ensures
            r is Ok,
            r->Ok_0@ == meta_bytes(self.upcoming(), self.dead_list()),
    {
        match encode_meta(self.next, &self.tombstones) {
            Ok(bytes) => Ok(bytes),
            Err(e) => {
                let mut msg = "meta serialise: ".to_owned();
                msg.append(e.as_str());
                Err(AppError::VectorIndex(msg))
            },
        }
    }

    /// Allocates an id.
    pub fn next_id(&mut self) -> (r: VectorId)
        requires
            old(self).wf(),
        ensures
            r == old(self).upcoming(),
            final(self).upcoming() == if r == u64::MAX {
                0
            } else {
                (r + 1) as u64
            },
            final(self).wf(),
            final(self).dead() == old(self).dead(),
            final(self).dead_list() == old(self).dead_list(),
            final(self).ids() == old(self).ids(),
            final(self).directory() == old(self).directory(),
            final(self).base() == old(self).base(),
    {
        let id: u64 = self.next;
        self.next = id.wrapping_add(1);
        id
    }

    /// The number of vectors in the graph that are not deleted.
    pub fn len(&self) -> (r: usize)
        requires
            self.wf(),
        ensures
            r == self.live_ids().len(),
    {
        broadcast use vstd::std_specs::hash::group_hash_axioms;

        let ghost keep = not_in(self.dead());
        let mut n: usize = 0;
        let mut i: usize = 0;
        assert(self.points@.take(0).filter(keep) =~= Seq::empty());
        while i < self.points.len()
            invariant
                i <= self.points@.len(),
                n <= i,
                keep == not_in(self.dead()),
                n == self.points@.take(i as int).filter(keep).len(),
            decreases self.points@.len() - i,
        {
            let id: u64 = self.points[i];
            proof {
                assert(self.points@.take(i + 1) =~= self.points@.take(i as int).push(id));
                self.points@.take(i as int).lemma_filter_push(id, keep);
            }
            if !self.deleted.contains(&id) {
                n = n + 1;
            }
            i = i + 1;
        }
        proof {
            assert(self.points@.take(i as int) =~= self.points@);
            lemma_live(self.points@, self.dead());
        }
        n
    }

    /// Whether no vector can be found.
    pub fn is_empty(&self) -> (r: bool)
        requires
            self.wf(),
        ensures
            r == (self.live_ids().len() == 0),
    {
        self.len() == 0
    }

    /// The index answers searches at any time.
    pub fn is_ready(&self) -> (r: bool)
        ensures
            r,
    {
        true
    }

    /// What the names of the files begin with.
    pub fn basename(&self) -> (r: &str)
        ensures
            r@ == self.base(),
    {
        self.basename.as_str()
    }

    /// The name under which the graph is written before it takes the place of the
    /// old.
    pub fn tmp_basename(&self) -> (r: String)
        ensures
            r@ == self.base() + ".new"@,
    {
        let mut name = self.basename.clone();
        name.append(".new");
        name
    }

    /// Whether the graph was written under the name asked for. Where another writer
    /// was faster it was not: then nothing takes the place of the old graph.
    pub fn check_dump(&self, actual: &str) -> (r: Result<(), AppError>)
        ensures
            r is Ok <==> actual@ == self.base() + ".new"@,
            r is Err ==> r->Err_0 is VectorIndex && r->Err_0->VectorIndex_0@
                == "file_dump generated unexpected basename: "@ + actual@,
    {
        let wanted = self.tmp_basename();
        if same(actual, wanted.as_str()) {
            return Ok(());
        }
        let mut msg = "file_dump generated unexpected basename: ".to_owned();
        msg.append(actual);
        Err(AppError::VectorIndex(msg))
    }

    fn file(&self, middle: &str, suffix: &str) -> (r: String)
        ensures
            r@ == joined(self.directory(), self.base() + middle@ + suffix@),
    {
        let mut name = self.basename.clone();
        name.append(middle);
        name.append(suffix);
        join(self.dir.as_str(), name.as_str())
    }

    /// The file of the graph.
    pub fn graph_path(&self) -> (r: String)
        ensures
            r@ == joined(self.directory(), self.base() + ""@ + ".hnsw.graph"@),
    {
        self.file("", ".hnsw.graph")
    }

    /// The file of the vectors.
    pub fn data_path(&self) -> (r: String)
        ensures
            r@ == joined(self.directory(), self.base() + ""@ + ".hnsw.data"@),
    {
        self.file("", ".hnsw.data")
    }

    /// The file of what is kept beside the graph.
    pub fn meta_path(&self) -> (r: String)
        ensures
            r@ == joined(self.directory(), self.base() + ""@ + ".meta.bin"@),
    {
        self.file("", ".meta.bin")
    }

    /// The file to which the graph is written before it takes the place of the old.
    pub fn tmp_graph_path(&self) -> (r: String)
        ensures
            r@ == joined(self.directory(), self.base() + ".new"@ + ".hnsw.graph"@),
    {
        self.file(".new", ".hnsw.graph")
    }

    /// The file to which the vectors are written before they take the place of the
    /// old.
    pub fn tmp_data_path(&self) -> (r: String)
        ensures
            r@ == joined(self.directory(), self.base() + ".new"@ + ".hnsw.data"@),
    {
        self.file(".new", ".hnsw.data")
    }
}

/// The list of deleted ids that is saved holds each of them once, and no other.
pub proof fn each_deleted_id_is_saved_once(index: VectorIndex)
    requires
        index.wf(),
    ensures
        index.dead_list().no_duplicates(),
        index.dead_list().to_set() == index.dead(),
{
}

/// A search never gives a deleted id, gives no more than was asked for, and gives
/// only what the graph found.
pub proof fn search_gives_live_ids(matches: Seq<VectorMatch>, deleted: Set<u64>, k: nat)
    ensures
        live(matches, deleted, k).len() <= k,
        forall|i: int|
            0 <= i < live(matches, deleted, k).len() ==> !deleted.contains(
                (#[trigger] live(matches, deleted, k)[i]).vector_id,
            ) && matches.contains(live(matches, deleted, k)[i]),
{
    broadcast use vstd::seq_lib::group_filter_ensures;

    let all = matches.filter(alive(deleted));
    assert forall|i: int| 0 <= i < live(matches, deleted, k).len() implies !deleted.contains(
        (#[trigger] live(matches, deleted, k)[i]).vector_id,
    ) && matches.contains(live(matches, deleted, k)[i]) by {
        assert(live(matches, deleted, k)[i] == all[i]);
        assert(alive(deleted)(all[i]));
        matches.lemma_filter_contains_rev(alive(deleted), all[i]);
    }
}

/// What is read back is what was written, whatever follows it.
pub proof fn meta_round_trip(next_id: u64, deleted: Seq<u64>, rest: Seq<u8>)
    requires
        deleted.len() <= u64::MAX,
    ensures
        meta_of(meta_bytes(next_id, deleted) + rest) == Some((next_id, deleted)),
{
    let bytes = meta_bytes(next_id, deleted) + rest;
    let n = deleted.len() as u64;
    le64_round_trip(next_id);
    le64_round_trip(n);
    lemma_reads_at(bytes, 0, next_id);
    lemma_reads_at(bytes, 8, n);
    assert(bytes.skip(0) =~= bytes);
    assert forall|i: int| 0 <= i < deleted.len() implies from_le64(#[trigger] bytes.skip(16 + 8 * i))
        == deleted[i] by {
        le64_round_trip(deleted[i]);
        assert forall|j: int| 0 <= j < 8 implies #[trigger] bytes[16 + 8 * i + j] == le64(
            deleted[i],
        )[j] by {
            assert((8 * i + j) / 8 == i);
            assert((8 * i + j) % 8 == j);
        }
        lemma_reads_at(bytes, 16 + 8 * i, deleted[i]);
    }
    assert(meta_of(bytes)->Some_0.1 =~= deleted);
}

/// A number is read where its bytes stand.
proof fn lemma_reads_at(bytes: Seq<u8>, at: int, x: u64)
    requires
        0 <= at,
        at + 8 <= bytes.len(),
        forall|j: int| 0 <= j < 8 ==> #[trigger] bytes[at + j] == le64(x)[j],
    ensures
        from_le64(bytes.skip(at)) == x,
{
    le64_round_trip(x);
    let s = bytes.skip(at);
    assert forall|j: int| 0 <= j < 8 implies #[trigger] s[j] == le64(x)[j] by {
        assert(s[j] == bytes[at + j]);
    }
    assert(s.skip(4)[0] == s[4] && s.skip(4)[1] == s[5] && s.skip(4)[2] == s[6] && s.skip(4)[3]
        == s[7]);
    let t = le64(x).skip(4);
    assert(t[0] == le64(x)[4] && t[1] == le64(x)[5] && t[2] == le64(x)[6] && t[3] == le64(x)[7]);
}

/// An index that is saved and opened again allocates on where it was, knows the same
/// deleted ids, and counts the same vectors: with a graph, and also without one where
/// it held no vectors. Ids begin with one.
pub proof fn saved_books_are_read_back(
    saved: VectorIndex,
    bytes: Vec<u8>,
    found: OnDisk,
    again: VectorIndex,
)
    requires
        saved.wf(),
        bytes@ == meta_bytes(saved.upcoming(), saved.dead_list()),
        again.holds(found),
        match found {
            OnDisk::Missing { meta } => meta == Some(bytes) && saved.ids() == Set::<u64>::empty(),
            OnDisk::Corrupt => false,
            OnDisk::Loaded { ids, meta } => meta == Some(bytes) && ids@.to_set() == saved.ids(),
        },
    ensures
        again.upcoming() == if saved.upcoming() >= 1 {
            saved.upcoming()
        } else {
            1
        },
        again.dead() == saved.dead(),
        again.ids() == saved.ids(),
        again.live_ids().len() == saved.live_ids().len(),
{
    assert(saved.tombstones.len() == saved.tombstones@.len());
    meta_round_trip(saved.upcoming(), saved.dead_list(), Seq::empty());
    assert(bytes@ + Seq::<u8>::empty() =~= bytes@);
}

/// A search gives the nearest neighbours first, where the graph found the nearest
/// first.
pub proof fn search_keeps_the_order(matches: Seq<VectorMatch>, deleted: Set<u64>, k: nat)
    requires
        nearest_first(matches),
    ensures
        nearest_first(live(matches, deleted, k)),
{
    lemma_filter_keeps_order(matches, deleted);
}

/// Whether no match is farther away than one behind it.
pub open spec fn nearest_first(matches: Seq<VectorMatch>) -> bool {
    forall|i: int, j: int|
        0 <= i < j < matches.len() ==> (#[trigger] matches[i]).distance.at_most(
            (#[trigger] matches[j]).distance,
        )
}

proof fn lemma_filter_keeps_order(matches: Seq<VectorMatch>, deleted: Set<u64>)
    requires
        nearest_first(matches),
    ensures
        nearest_first(matches.filter(alive(deleted))),
    decreases matches.len(),
{
    reveal(Seq::filter);
    let keep = alive(deleted);
    if matches.len() > 0 {
        let init = matches.drop_last();
        let m = matches.last();
        assert(nearest_first(init)) by {
            assert forall|i: int, j: int| 0 <= i < j < init.len() implies (#[trigger] init[i]).distance.at_most(
                (#[trigger] init[j]).distance,
            ) by {
                assert(matches[i].distance.at_most(matches[j].distance));
            }
        }
        lemma_filter_keeps_order(init, deleted);
        let f = init.filter(keep);
        assert forall|i: int| 0 <= i < f.len() implies (#[trigger] f[i]).distance.at_most(m.distance) by {
            init.lemma_filter_contains_rev(keep, f[i]);
            let a = choose|a: int| 0 <= a < init.len() && init[a] == f[i];
            assert(matches[a].distance.at_most(matches[matches.len() - 1].distance));
        }
    }
}

/// A list without one of its items.
proof fn lemma_without(list: Seq<u64>, id: u64)
    requires
        list.no_duplicates(),
    ensures
        list.filter(|d: u64| d != id).no_duplicates(),
        list.filter(|d: u64| d != id).to_set() == list.to_set().remove(id),
    decreases list.len(),
{
    reveal(Seq::filter);
    let keep = |d: u64| d != id;
    if list.len() > 0 {
        let init = list.drop_last();
        let last = list.last();
        lemma_without(init, id);
        let f = init.filter(keep);
        assert(list =~= init.push(last));
        init.lemma_push_to_set_commute(last);
        assert(!init.contains(last)) by {
            if init.contains(last) {
                let a = choose|a: int| 0 <= a < init.len() && init[a] == last;
                assert(list[a] == list[list.len() - 1]);
            }
        }
        assert(!f.contains(last)) by {
            if f.contains(last) {
                init.lemma_filter_contains_rev(keep, last);
            }
        }
        if keep(last) {
            f.lemma_push_to_set_commute(last);
        } else {
            assert(!init.to_set().contains(last));
        }
        assert(list.filter(keep).to_set() =~= list.to_set().remove(id));
    } else {
        assert(list.filter(keep).to_set() =~= list.to_set().remove(id));
    }
}

proof fn lemma_filter_all(list: Seq<u64>, id: u64)
    requires
        !list.contains(id),
    ensures
        list.filter(|d: u64| d != id) == list,
    decreases list.len(),
{
    reveal(Seq::filter);
    let keep = |d: u64| d != id;
    if list.len() > 0 {
        let init = list.drop_last();
        assert(!init.contains(id)) by {
            if init.contains(id) {
                let a = choose|a: int| 0 <= a < init.len() && init[a] == id;
                assert(list[a] == id);
            }
        }
        lemma_filter_all(init, id);
        assert(list[list.len() - 1] == list.last());
        assert(init.push(list.last()) =~= list);
    } else {
        assert(list.filter(keep) =~= list);
    }
}

/// The items of a list that are not deleted are as many as the ids that are not.
proof fn lemma_live(list: Seq<u64>, deleted: Set<u64>)
    requires
        list.no_duplicates(),
    ensures
        list.filter(not_in(deleted)).len() == list.to_set().difference(deleted).len(),
        list.to_set().finite(),
    decreases list.len(),
{
    reveal(Seq::filter);
    let keep = not_in(deleted);
    if list.len() > 0 {
        let init = list.drop_last();
        let last = list.last();
        lemma_live(init, deleted);
        assert(list =~= init.push(last));
        init.lemma_push_to_set_commute(last);
        assert(!init.contains(last)) by {
            if init.contains(last) {
                let a = choose|a: int| 0 <= a < init.len() && init[a] == last;
                assert(list[a] == list[list.len() - 1]);
            }
        }
        if keep(last) {
            assert(list.to_set().difference(deleted) =~= init.to_set().difference(deleted).insert(
                last,
            ));
        } else {
            assert(list.to_set().difference(deleted) =~= init.to_set().difference(deleted));
        }
    } else {
        assert(list.to_set().difference(deleted) =~= Set::<u64>::empty());
        assert(list.to_set() =~= Set::<u64>::empty());
    }
}

/// The matches whose ids are deleted are no more than the deleted ids, where no
/// id occurs twice.
proof fn lemma_few_dead(matches: Seq<VectorMatch>, deleted: Set<u64>)
    requires
        deleted.finite(),
        forall|i: int, j: int|
            0 <= i < j < matches.len() ==> (#[trigger] matches[i]).vector_id != (
            #[trigger] matches[j]).vector_id,
    ensures
        matches.len() <= matches.filter(alive(deleted)).len() + deleted.len(),
    decreases matches.len(),
{
    reveal(Seq::filter);
    let keep = alive(deleted);
    if matches.len() > 0 {
        let init = matches.drop_last();
        let m = matches.last();
        if deleted.contains(m.vector_id) {
            let rest = deleted.remove(m.vector_id);
            let keep_rest = alive(rest);
            lemma_few_dead(init, rest);
            assert forall|i: int| 0 <= i < init.len() implies #[trigger] keep(init[i]) == keep_rest(
                init[i],
            ) by {
                assert(matches[i].vector_id != matches[matches.len() - 1].vector_id);
            }
            lemma_same_filter(init, keep, keep_rest);
        } else {
            lemma_few_dead(init, deleted);
        }
    }
}

proof fn lemma_same_filter(
    s: Seq<VectorMatch>,
    p: spec_fn(VectorMatch) -> bool,
    q: spec_fn(VectorMatch) -> bool,
)
    requires
        forall|i: int| 0 <= i < s.len() ==> #[trigger] p(s[i]) == q(s[i]),
    ensures
        s.filter(p) == s.filter(q),
    decreases s.len(),
{
    reveal(Seq::filter);
    if s.len() > 0 {
        let init = s.drop_last();
        assert forall|i: int| 0 <= i < init.len() implies #[trigger] p(init[i]) == q(init[i]) by {
            assert(p(s[i]) == q(s[i]));
        }
        lemma_same_filter(init, p, q);
        assert(p(s[s.len() - 1]) == q(s[s.len() - 1]));
    }
}

/// Fetching more than was asked for makes up for the deleted ids: where the graph
/// gives as many distinct neighbours as it was asked for, and no more than twice
/// as many ids are deleted as neighbours are wanted, a search gives as many live
/// neighbours as are wanted.
pub proof fn overfetch_makes_up_for_deleted(
    matches: Seq<VectorMatch>,
    deleted: Set<u64>,
    k: nat,
    total: nat,
)
    requires
        deleted.finite(),
        deleted.len() <= 2 * k,
        k + deleted.len() <= total,
        matches.len() == fetch_count(k as int, deleted.len() as int, total as int),
        forall|i: int, j: int|
            0 <= i < j < matches.len() ==> (#[trigger] matches[i]).vector_id != (
            #[trigger] matches[j]).vector_id,
    ensures
        live(matches, deleted, k).len() == k,
{
    lemma_few_dead(matches, deleted);
}

// ── Laws of the calls ───────────────────────────────────────────────────────

/// A search hands on the first `k` neighbours that are not deleted, in the order in which
/// the graph found them: none that is deleted, and none is left out before one that is
/// in. `at` gives where they stood among the neighbours.
pub proof fn live_neighbours_are_handed_on(
    index: &VectorIndex,
    neighbours: &Vec<VectorMatch>,
    k: usize,
    r: Vec<VectorMatch>,
) -> (at: Seq<int>)
    requires
        call_ensures(VectorIndex::search, (index, neighbours, k), r),
    ensures
        at.len() == r@.len() <= k,
        forall|i: int|
            0 <= i < r@.len() ==> {
                &&& 0 <= #[trigger] at[i] < neighbours@.len()
                &&& r@[i] == neighbours@[at[i]]
                &&& !index.dead().contains(r@[i].vector_id)
            },
        forall|i: int, j: int| 0 <= i < j < at.len() ==> #[trigger] at[i] < #[trigger] at[j],
        forall|m: int|
            0 <= m < neighbours@.len() && !index.dead().contains(
                (#[trigger] neighbours@[m]).vector_id,
            ) && !at.contains(m) ==> r@.len() == k && forall|i: int|
                0 <= i < at.len() ==> #[trigger] at[i] < m,
{
    let keep = alive(index.dead());
    let all = neighbours@.filter(keep);
    let pos = crate::order::filter_places(neighbours@, keep);
    let at = pos.take(r@.len() as int);
    assert forall|m: int|
        0 <= m < neighbours@.len() && !index.dead().contains((#[trigger] neighbours@[m]).vector_id)
            && !at.contains(m) implies r@.len() == k && forall|i: int|
        0 <= i < at.len() ==> #[trigger] at[i] < m by {
        assert(keep(neighbours@[m]));
        assert(pos.contains(m));
        let p = choose|p: int| 0 <= p < pos.len() && pos[p] == m;
        if p < r@.len() {
            assert(at[p] == m);
        }
        assert forall|i: int| 0 <= i < at.len() implies #[trigger] at[i] < m by {
            assert(pos[i] < pos[p]);
        }
    }
    at
}

/// A search asks the graph for as many neighbours as are wanted and one more for each
/// deleted id, up to thrice as many as are wanted, and for no more than there are; and
/// it considers at least as many, and at least 256.
pub proof fn searches_make_up_for_deleted_ids(
    index: &VectorIndex,
    total: usize,
    k: usize,
    r: Option<SearchWindow>,
)
    requires
        index.wf(),
        call_ensures(VectorIndex::plan_search, (index, total, k), r),
    ensures
        r is None <==> k == 0 || total == 0,
        r is Some ==> {
            let n = r->Some_0.fetch_k;
            let dead = index.dead().len();
            &&& n <= total
            &&& n == total || n >= k
            &&& n <= 3 * k
            &&& dead <= 2 * k && k + dead <= total ==> n == k + dead
            &&& dead > 2 * k && 3 * k <= total ==> n == 3 * k
            &&& dead <= 2 * k && k + dead > total || dead > 2 * k && 3 * k > total ==> n == total
            &&& r->Some_0.ef >= n
            &&& r->Some_0.ef >= 256
            &&& r->Some_0.ef == n || r->Some_0.ef == 256
        },
{
}

/// Deleting ids deletes them and no others, and leaves the graph and the next id.
pub proof fn deleted_ids_are_dead(index: &mut VectorIndex, ids: &Vec<u64>, id: u64)
    requires
        old(index).wf(),
        call_ensures(VectorIndex::remove, (index, ids), ()),
    ensures
        final(index).dead().contains(id) <==> old(index).dead().contains(id) || ids@.contains(id),
        final(index).ids().contains(id) <==> old(index).ids().contains(id),
        final(index).upcoming() == old(index).upcoming(),
{
}

/// A vector that is added is in the graph and not deleted, and concerns no other id.
pub proof fn added_vectors_are_live(index: &mut VectorIndex, id: u64, other: u64)
    requires
        old(index).wf(),
        call_ensures(VectorIndex::add, (index, id), ()),
        other != id,
    ensures
        final(index).live_ids().contains(id),
        final(index).ids().contains(other) <==> old(index).ids().contains(other),
        final(index).dead().contains(other) <==> old(index).dead().contains(other),
        final(index).upcoming() == old(index).upcoming(),
{
}

/// The vectors of a batch are in the graph and not deleted, and concern no other id.
pub proof fn added_batches_are_live(index: &mut VectorIndex, ids: &Vec<u64>, id: u64)
    requires
        old(index).wf(),
        call_ensures(VectorIndex::add_batch, (index, ids), ()),
    ensures
        ids@.contains(id) ==> final(index).live_ids().contains(id),
        !ids@.contains(id) ==> (final(index).ids().contains(id) <==> old(index).ids().contains(id))
            && (final(index).dead().contains(id) <==> old(index).dead().contains(id)),
        final(index).upcoming() == old(index).upcoming(),
{
}

/// No id is handed out twice: each is one more than the one before.
pub proof fn ids_are_handed_out_once(index: &mut VectorIndex, r: u64)
    requires
        old(index).wf(),
        call_ensures(VectorIndex::next_id, (index,), r),
        old(index).upcoming() < u64::MAX,
    ensures
        r == old(index).upcoming(),
        final(index).upcoming() == r + 1,
        final(index).dead() == old(index).dead(),
        final(index).ids() == old(index).ids(),
{
}

/// An index that was saved, and is opened again, hands out the next id where it was and
/// knows the same deleted ids, also where it held no vectors and so has no graph.
pub proof fn opening_again_goes_on(
    saved: &VectorIndex,
    path: &str,
    bytes: Vec<u8>,
    ids: Vec<u64>,
    again: VectorIndex,
    bare: VectorIndex,
)
    requires
        saved.wf(),
        saved.upcoming() >= 1,
        call_ensures(
            VectorIndex::write_meta,
            (saved,),
            Ok::<Vec<u8>, AppError>(bytes),
        ),
        call_ensures(
            VectorIndex::open,
            (path, OnDisk::Loaded { ids, meta: Some(bytes) }),
            again,
        ),
        call_ensures(VectorIndex::open, (path, OnDisk::Missing { meta: Some(bytes) }), bare),
    ensures
        again.upcoming() == saved.upcoming(),
        again.dead() == saved.dead(),
        again.ids() == ids@.to_set(),
        bare.upcoming() == saved.upcoming(),
        bare.dead() == saved.dead(),
        bare.ids() == Set::<u64>::empty(),
{
    assert(saved.tombstones.len() == saved.tombstones@.len());
    meta_round_trip(saved.upcoming(), saved.dead_list(), Seq::empty());
    assert(bytes@ + Seq::<u8>::empty() =~= bytes@);
}

/// A graph that could not be loaded leaves an index without vectors and without deleted
/// ids, and so does nothing on disk.
pub proof fn nothing_on_disk_is_an_empty_index(path: &str, found: OnDisk, r: VectorIndex)
    requires
        call_ensures(VectorIndex::open, (path, found), r),
        found is Corrupt || found is Missing && found->Missing_meta is None,
    ensures
        r.upcoming() == 1,
        r.dead() == Set::<u64>::empty(),
        r.ids() == Set::<u64>::empty(),
{
    assert(r.dead() =~= Set::<u64>::empty());
}

/// An index holds as many vectors as there are ids in the graph that are not deleted.
pub proof fn only_live_vectors_count(index: &VectorIndex, n: usize, empty: bool)
    requires
        index.wf(),
        call_ensures(VectorIndex::len, (index,), n),
        call_ensures(VectorIndex::is_empty, (index,), empty),
    ensures
        n == index.ids().filter(|id: u64| !index.dead().contains(id)).len(),
        empty <==> n == 0,
{
    assert(index.ids().filter(|id: u64| !index.dead().contains(id)) =~= index.live_ids());
}

} // verus!
