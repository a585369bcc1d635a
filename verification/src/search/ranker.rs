//! Merging of the candidates of all channels by page, and ranking.
//!
//! The whole page and its tiles each have a vector and a hash. A page takes the
//! greatest similarity and the smallest hash distance of its regions, so that a
//! match of one tile is a match of the page. Text addresses pages directly, and a
//! page found by its text alone enters the ranking too.

use crate::bytes::{as_signed, to_signed};
use crate::float32::Float32;
use crate::indexer::scanner::text_view;
use crate::order::{is_stable_order, precedes, stable_order};
use crate::search::phash_store::PhashCandidate;
use crate::storage::database::{FileRecord, PageRecord, RegionHit};
use chrono::{TimeZone, Utc};
use std::collections::{HashMap, HashSet};
use vstd::prelude::*;

verus! {

/// A region found by its vector.
#[derive(Clone, Copy, PartialEq, Eq, Structural, Debug)]
pub struct VectorHit {
    pub vector_id: u64,
    /// One less the cosine distance, kept between zero and one.
    pub similarity: Float32,
}

/// What the channels say of a page.
#[derive(Clone, Copy, PartialEq, Eq, Structural, Debug)]
pub struct PageAggregate {
    /// The greatest similarity of its regions.
    pub vector_sim: Option<Float32>,
    /// The smallest hash distance of its regions.
    pub phash_dist: Option<u32>,
    /// How well its text matches.
    pub text_score: Option<Float32>,
}

impl Default for PageAggregate {
    fn default() -> (r: Self)
        ensures
            r == PageAggregate::blank(),
    {
        PageAggregate { vector_sim: None, phash_dist: None, text_score: None }
    }
}

impl PageAggregate {
    /// Nothing is known of the page.
    pub open spec fn blank() -> PageAggregate {
        PageAggregate { vector_sim: None, phash_dist: None, text_score: None }
    }

    /// With one more similarity: it counts unless the one before is at least as
    /// great.
    pub open spec fn with_vector(self, sim: Float32) -> PageAggregate {
        PageAggregate {
            vector_sim: match self.vector_sim {
                Some(prev) if sim.at_most(prev) => Some(prev),
                _ => Some(sim),
            },
            ..self
        }
    }

    /// With one more hash distance: the smaller one counts.
    pub open spec fn with_phash(self, dist: u32) -> PageAggregate {
        PageAggregate {
            phash_dist: match self.phash_dist {
                Some(prev) if prev <= dist => Some(prev),
                _ => Some(dist),
            },
            ..self
        }
    }

    /// Takes in the similarity of one more region.
    pub fn update_vector(&mut self, sim: Float32)
        ensures
            *final(self) == old(self).with_vector(sim),
    {
        match self.vector_sim {
            Some(prev) => {
                if !sim.le(prev) {
                    self.vector_sim = Some(sim);
                }
            },
            None => {
                self.vector_sim = Some(sim);
            },
        }
    }

    /// Takes in the hash distance of one more region.
    pub fn update_phash(&mut self, dist: u32)
        ensures
            *final(self) == old(self).with_phash(dist),
    {
        match self.phash_dist {
            Some(prev) => {
                if prev > dist {
                    self.phash_dist = Some(dist);
                }
            },
            None => {
                self.phash_dist = Some(dist);
            },
        }
    }
}

/// A page that some channel has found.
#[derive(Clone, Copy, PartialEq, Eq, Structural, Debug)]
pub struct PageEntry {
    pub page_id: i64,
    pub file_id: i64,
    pub page_num: i64,
    pub agg: PageAggregate,
}

// ── Region ids ──────────────────────────────────────────────────────────────

/// The rows of all regions that the visual channels found, in the order found.
pub open spec fn found_rows(vectors: Seq<VectorHit>, hashes: Seq<PhashCandidate>) -> Seq<i64> {
    vectors.map_values(|v: VectorHit| as_signed(v.vector_id)) + hashes.map_values(
        |h: PhashCandidate| h.region_id,
    )
}

/// The rows of all regions that the visual channels found, each once, in
/// ascending order.
pub fn region_ids(vectors: &Vec<VectorHit>, hashes: &Vec<PhashCandidate>) -> (r: Vec<i64>)
    ensures
        r@.to_set() == found_rows(vectors@, hashes@).to_set(),
        forall|i: int, j: int| 0 <= i < j < r@.len() ==> #[trigger] r@[i] < #[trigger] r@[j],
{
    let mut all: Vec<i64> = Vec::new();
    let ghost rows = found_rows(vectors@, hashes@);
    let mut i: usize = 0;
    while i < vectors.len()
        invariant
            i <= vectors@.len(),
            rows == found_rows(vectors@, hashes@),
            all@ =~= rows.take(i as int),
        decreases vectors@.len() - i,
    {
        all.push(to_signed(vectors[i].vector_id));
        i = i + 1;
    }
    let mut j: usize = 0;
    while j < hashes.len()
        invariant
            i == vectors@.len(),
            j <= hashes@.len(),
            rows == found_rows(vectors@, hashes@),
            all@ =~= rows.take(i + j),
        decreases hashes@.len() - j,
    {
        all.push(hashes[j].region_id);
        j = j + 1;
    }
    assert(all@ =~= rows);
    let order = stable_order(&all);
    let mut out: Vec<i64> = Vec::new();
    let mut k: usize = 0;
    while k < order.len()
        invariant
            k <= order@.len(),
            all@ == rows,
            is_stable_order(all@, order@),
            forall|a: int, b: int| 0 <= a < b < out@.len() ==> #[trigger] out@[a] < #[trigger] out@[b],
            k == 0 ==> out@.len() == 0,
            k > 0 ==> out@.len() > 0 && out@.last() == all@[order@[k - 1] as int],
            forall|a: int| 0 <= a < out@.len() ==> rows.contains(#[trigger] out@[a]),
            forall|a: int| 0 <= a < k ==> out@.contains(all@[#[trigger] order@[a] as int]),
        decreases order@.len() - k,
    {
        let id: i64 = all[order[k]];
        let ghost before = out@;
        proof {
            if k > 0 {
                assert(precedes(all@, order@[k - 1] as int, order@[k as int] as int));
                assert(forall|a: int| 0 <= a < out@.len() ==> #[trigger] out@[a] <= out@.last()) by {
                    assert(out@.last() == out@[out@.len() - 1]);
                }
            }
        }
        if out.len() == 0 || out[out.len() - 1] != id {
            out.push(id);
        }
        proof {
            assert(out@.last() == id);
            assert(out@[out@.len() - 1] == id);
            assert forall|a: int| 0 <= a < k + 1 implies out@.contains(
                all@[#[trigger] order@[a] as int],
            ) by {
                if a < k {
                    let p = choose|p: int| 0 <= p < before.len() && before[p] == all@[order@[a] as int];
                    assert(out@[p] == before[p]);
                }
            }
            assert(rows[order@[k as int] as int] == id);
        }
        k = k + 1;
    }
    proof {
        assert forall|x: i64| rows.to_set().contains(x) implies out@.to_set().contains(x) by {
            let p = choose|p: int| 0 <= p < rows.len() && rows[p] == x;
            assert(crate::order::lists(order@, p));
            let q = choose|q: int| 0 <= q < order@.len() && #[trigger] order@[q] == p;
            assert(out@.contains(all@[order@[q] as int]));
        }
        assert(out@.to_set() =~= rows.to_set());
    }
    out
}

// ── Pages ───────────────────────────────────────────────────────────────────

/// The page of each region: the last word counts, should one be listed twice.
pub open spec fn region_map(hits: Seq<RegionHit>) -> Map<i64, RegionHit>
    decreases hits.len(),
{
    if hits.len() == 0 {
        Map::empty()
    } else {
        region_map(hits.drop_last()).insert(hits.last().region_id, hits.last())
    }
}

/// The entry of a page, or a blank one.
pub open spec fn entry_or_blank(
    m: Map<i64, PageEntry>,
    page_id: i64,
    file_id: i64,
    page_num: i64,
) -> PageEntry {
    if m.contains_key(page_id) {
        m[page_id]
    } else {
        PageEntry { page_id, file_id, page_num, agg: PageAggregate::blank() }
    }
}

/// The pages found by vectors: regions below the threshold, or without a page, do
/// not count.
pub open spec fn vector_stage(
    vectors: Seq<VectorHit>,
    regions: Map<i64, RegionHit>,
    threshold: Float32,
) -> Map<i64, PageEntry>
    decreases vectors.len(),
{
    if vectors.len() == 0 {
        Map::empty()
    } else {
        let m = vector_stage(vectors.drop_last(), regions, threshold);
        let v = vectors.last();
        let row = as_signed(v.vector_id);
        if v.similarity.less(threshold) || !regions.contains_key(row) {
            m
        } else {
            let h = regions[row];
            let e = entry_or_blank(m, h.page_id, h.file_id, h.page_num);
            m.insert(h.page_id, PageEntry { agg: e.agg.with_vector(v.similarity), ..e })
        }
    }
}

/// The pages after the hashes have been taken in too.
pub open spec fn phash_stage(
    start: Map<i64, PageEntry>,
    hashes: Seq<PhashCandidate>,
    regions: Map<i64, RegionHit>,
) -> Map<i64, PageEntry>
    decreases hashes.len(),
{
    if hashes.len() == 0 {
        start
    } else {
        let m = phash_stage(start, hashes.drop_last(), regions);
        let c = hashes.last();
        if !regions.contains_key(c.region_id) {
            m
        } else {
            let h = regions[c.region_id];
            let e = entry_or_blank(m, h.page_id, h.file_id, h.page_num);
            m.insert(h.page_id, PageEntry { agg: e.agg.with_phash(c.distance), ..e })
        }
    }
}

/// An entry with a text score.
pub open spec fn scored(e: PageEntry, score: Float32) -> PageEntry {
    PageEntry { agg: PageAggregate { text_score: Some(score), ..e.agg }, ..e }
}

/// The pages after the text scores of those already found have been set.
pub open spec fn text_stage(start: Map<i64, PageEntry>, texts: Seq<(i64, Float32)>) -> Map<
    i64,
    PageEntry,
>
    decreases texts.len(),
{
    if texts.len() == 0 {
        start
    } else {
        let m = text_stage(start, texts.drop_last());
        let (page_id, score) = texts.last();
        if m.contains_key(page_id) {
            m.insert(page_id, scored(m[page_id], score))
        } else {
            m
        }
    }
}

/// Picks the texts of pages that no visual channel has found.
pub open spec fn text_only_of(found: Set<i64>) -> spec_fn((i64, Float32)) -> bool {
    |t: (i64, Float32)| !found.contains(t.0)
}

/// The rows of pages by their ids: the last one counts.
pub open spec fn page_map(recs: Seq<PageRecord>) -> Map<i64, PageRecord>
    decreases recs.len(),
{
    if recs.len() == 0 {
        Map::empty()
    } else {
        page_map(recs.drop_last()).insert(recs.last().id, recs.last())
    }
}

/// The pages after those found by text alone have joined.
pub open spec fn join_stage(
    start: Map<i64, PageEntry>,
    texts: Seq<(i64, Float32)>,
    recs: Map<i64, PageRecord>,
) -> Map<i64, PageEntry>
    decreases texts.len(),
{
    if texts.len() == 0 {
        start
    } else {
        let m = join_stage(start, texts.drop_last(), recs);
        let (page_id, score) = texts.last();
        if recs.contains_key(page_id) {
            let p = recs[page_id];
            m.insert(page_id, scored(entry_or_blank(m, page_id, p.file_id, p.page_num), score))
        } else {
            m
        }
    }
}

/// The pages found so far, each once.
#[derive(Debug)]
pub struct PageTable {
    entries: Vec<PageEntry>,
    index: HashMap<i64, usize>,
}

impl View for PageTable {
    type V = Map<i64, PageEntry>;

    /// The pages by their ids.
    closed spec fn view(&self) -> Map<i64, PageEntry> {
        Map::new(
            |id: i64| self.index@.contains_key(id),
            |id: i64| self.entries@[self.index@[id] as int],
        )
    }
}

impl PageTable {
    /// Each page stands where the index says.
    pub closed spec fn wf(self) -> bool {
        &&& forall|id: i64| #[trigger]
            self.index@.contains_key(id) ==> self.index@[id] < self.entries@.len()
                && self.entries@[self.index@[id] as int].page_id == id
        &&& forall|i: int|
            0 <= i < self.entries@.len() ==> self.index@.contains_key(
                (#[trigger] self.entries@[i]).page_id,
            ) && self.index@[self.entries@[i].page_id] == i
    }

    /// The pages in the order in which they were first found.
    pub closed spec fn list(self) -> Seq<PageEntry> {
        self.entries@
    }

    fn new() -> (r: PageTable)
        ensures
            r.wf(),
            r@ == Map::<i64, PageEntry>::empty(),
    {
        broadcast use vstd::std_specs::hash::group_hash_axioms;

        let r = PageTable { entries: Vec::new(), index: HashMap::new() };
        assert(r@ =~= Map::empty());
        r
    }

    fn find(&self, page_id: i64) -> (r: Option<usize>)
        requires
            self.wf(),
        ensures
            match r {
                Some(i) => self@.contains_key(page_id) && i < self.list().len()
                    && self.list()[i as int] == self@[page_id],
                None => !self@.contains_key(page_id),
            },
    {
        broadcast use vstd::std_specs::hash::group_hash_axioms;

        match self.index.get(&page_id) {
            Some(i) => Some(*i),
            None => None,
        }
    }

    fn get_or_blank(&self, page_id: i64, file_id: i64, page_num: i64) -> (r: PageEntry)
        requires
            self.wf(),
        ensures
            r == entry_or_blank(self@, page_id, file_id, page_num),
    {
        match self.find(page_id) {
            Some(i) => self.entries[i],
            None => PageEntry { page_id, file_id, page_num, agg: PageAggregate::default() },
        }
    }

    fn put(&mut self, e: PageEntry)
        requires
            old(self).wf(),
        ensures
            final(self).wf(),
            final(self)@ == old(self)@.insert(e.page_id, e),
    {
        broadcast use vstd::std_specs::hash::group_hash_axioms;

        let ghost before = *self;
        match self.find(e.page_id) {
            Some(i) => {
                assert(self.index@[e.page_id] == i) by {
                    assert(self.entries@[self.index@[e.page_id] as int].page_id == e.page_id);
                    assert(self.entries@[i as int].page_id == e.page_id);
                }
                self.entries.set(i, e);
            },
            None => {
                let at: usize = self.entries.len();
                self.entries.push(e);
                self.index.insert(e.page_id, at);
            },
        }
        assert(self@ =~= before@.insert(e.page_id, e));
    }

    /// The number of pages.
    pub fn len(&self) -> (r: usize)
        ensures
            r == self.list().len(),
    {
        self.entries.len()
    }

    /// The pages, in the order in which they were first found.
    pub fn entries(&self) -> (r: Vec<PageEntry>)
        ensures
            r@ == self.list(),
    {
        let mut out: Vec<PageEntry> = Vec::new();
        let mut i: usize = 0;
        while i < self.entries.len()
            invariant
                i <= self.entries@.len(),
                out@ =~= self.entries@.take(i as int),
            decreases self.entries@.len() - i,
        {
            out.push(self.entries[i]);
            i = i + 1;
        }
        out
    }
}

/// The list of a table holds its pages and no others, each once.
pub proof fn table_lists_its_pages(t: PageTable)
    requires
        t.wf(),
    ensures
        forall|i: int|
            0 <= i < t.list().len() ==> t@.contains_key((#[trigger] t.list()[i]).page_id)
                && t@[t.list()[i].page_id] == t.list()[i],
        forall|id: i64| #[trigger] t@.contains_key(id) ==> t.list().contains(t@[id]),
        forall|i: int, j: int|
            0 <= i < j < t.list().len() ==> (#[trigger] t.list()[i]).page_id != (
            #[trigger] t.list()[j]).page_id,
{
    assert forall|id: i64| #[trigger] t@.contains_key(id) implies t.list().contains(t@[id]) by {
        assert(t.list()[t.index@[id] as int] == t@[id]);
    }
}

fn index_regions(hits: &Vec<RegionHit>) -> (r: HashMap<i64, RegionHit>)
    ensures
        r@ == region_map(hits@),
{
    broadcast use vstd::std_specs::hash::group_hash_axioms;

    let mut m: HashMap<i64, RegionHit> = HashMap::new();
    let mut i: usize = 0;
    assert(hits@.take(0) =~= Seq::empty());
    while i < hits.len()
        invariant
            i <= hits@.len(),
            m@ == region_map(hits@.take(i as int)),
        decreases hits@.len() - i,
    {
        assert(hits@.take(i + 1).drop_last() =~= hits@.take(i as int));
        m.insert(hits[i].region_id, hits[i]);
        i = i + 1;
    }
    assert(hits@.take(i as int) =~= hits@);
    m
}

/// The pages that the channels have found, and the texts of pages that no visual
/// channel has found.
pub struct Aggregation {
    pub table: PageTable,
    pub text_only: Vec<(i64, Float32)>,
}

/// The pages that the visual channels have found.
pub open spec fn visual_pages(
    vectors: Seq<VectorHit>,
    hashes: Seq<PhashCandidate>,
    hits: Seq<RegionHit>,
    threshold: Float32,
) -> Map<i64, PageEntry> {
    phash_stage(vector_stage(vectors, region_map(hits), threshold), hashes, region_map(hits))
}

/// Merges what the channels found by page: `hits` gives the pages of the regions
/// found, and `texts` the pages found by text, with their scores.
pub fn aggregate(
    vectors: &Vec<VectorHit>,
    hashes: &Vec<PhashCandidate>,
    texts: &Vec<(i64, Float32)>,
    hits: &Vec<RegionHit>,
    threshold: Float32,
) -> (r: Aggregation)
    ensures
        r.table.wf(),
        r.table@ == text_stage(visual_pages(vectors@, hashes@, hits@, threshold), texts@),
        r.text_only@ == texts@.filter(
            text_only_of(visual_pages(vectors@, hashes@, hits@, threshold).dom()),
        ),
{
    broadcast use vstd::std_specs::hash::group_hash_axioms;

    let regions = index_regions(hits);
    let mut table = PageTable::new();
    let mut i: usize = 0;
    assert(vectors@.take(0) =~= Seq::empty());
    while i < vectors.len()
        invariant
            i <= vectors@.len(),
            table.wf(),
            regions@ == region_map(hits@),
            table@ == vector_stage(vectors@.take(i as int), regions@, threshold),
        decreases vectors@.len() - i,
    {
        assert(vectors@.take(i + 1).drop_last() =~= vectors@.take(i as int));
        let v: VectorHit = vectors[i];
        if !v.similarity.lt(threshold) {
            if let Some(h) = regions.get(&to_signed(v.vector_id)) {
                let mut e: PageEntry = table.get_or_blank(h.page_id, h.file_id, h.page_num);
                e.page_id = h.page_id;
                e.agg.update_vector(v.similarity);
                proof {
                    lemma_ids(table);
                }
                table.put(e);
            }
        }
        i = i + 1;
    }
    assert(vectors@.take(i as int) =~= vectors@);
    let ghost found = table@;
    let mut j: usize = 0;
    assert(hashes@.take(0) =~= Seq::empty());
    while j < hashes.len()
        invariant
            j <= hashes@.len(),
            table.wf(),
            regions@ == region_map(hits@),
            found == vector_stage(vectors@, regions@, threshold),
            table@ == phash_stage(found, hashes@.take(j as int), regions@),
        decreases hashes@.len() - j,
    {
        assert(hashes@.take(j + 1).drop_last() =~= hashes@.take(j as int));
        let c: PhashCandidate = hashes[j];
        if let Some(h) = regions.get(&c.region_id) {
            let mut e: PageEntry = table.get_or_blank(h.page_id, h.file_id, h.page_num);
            e.page_id = h.page_id;
            e.agg.update_phash(c.distance);
            proof {
                lemma_ids(table);
            }
            table.put(e);
        }
        j = j + 1;
    }
    assert(hashes@.take(j as int) =~= hashes@);
    let ghost visual = table@;
    let ghost pick = text_only_of(visual.dom());
    let mut text_only: Vec<(i64, Float32)> = Vec::new();
    let mut k: usize = 0;
    assert(texts@.take(0) =~= Seq::empty());
    assert(texts@.take(0).filter(pick) =~= Seq::empty());
    while k < texts.len()
        invariant
            k <= texts@.len(),
            table.wf(),
            visual == visual_pages(vectors@, hashes@, hits@, threshold),
            pick == text_only_of(visual.dom()),
            table@ == text_stage(visual, texts@.take(k as int)),
            table@.dom() == visual.dom(),
            text_only@ == texts@.take(k as int).filter(pick),
        decreases texts@.len() - k,
    {
        let t: (i64, Float32) = texts[k];
        proof {
            assert(texts@.take(k + 1).drop_last() =~= texts@.take(k as int));
            assert(texts@.take(k + 1) =~= texts@.take(k as int).push(t));
            texts@.take(k as int).lemma_filter_push(t, pick);
            assert(table@.contains_key(t.0) == visual.dom().contains(t.0));
            lemma_ids(table);
        }
        match table.find(t.0) {
            Some(_) => {
                let mut e: PageEntry = table.get_or_blank(t.0, 0, 0);
                e.agg.text_score = Some(t.1);
                table.put(e);
                assert(table@.dom() =~= visual.dom());
            },
            None => {
                text_only.push(t);
            },
        }
        k = k + 1;
    }
    assert(texts@.take(k as int) =~= texts@);
    Aggregation { table, text_only }
}

proof fn lemma_ids(t: PageTable)
    requires
        t.wf(),
    ensures
        forall|id: i64| #[trigger] t@.contains_key(id) ==> t@[id].page_id == id,
{
}

fn index_pages(recs: &Vec<PageRecord>) -> (r: HashMap<i64, usize>)
    ensures
        forall|id: i64| #[trigger] r@.contains_key(id) <==> page_map(recs@).contains_key(id),
        forall|id: i64| #[trigger]
            r@.contains_key(id) ==> r@[id] < recs@.len() && recs@[r@[id] as int] == page_map(
                recs@,
            )[id],
{
    broadcast use vstd::std_specs::hash::group_hash_axioms;

    let mut m: HashMap<i64, usize> = HashMap::new();
    let mut i: usize = 0;
    assert(recs@.take(0) =~= Seq::empty());
    while i < recs.len()
        invariant
            i <= recs@.len(),
            forall|id: i64| #[trigger]
                m@.contains_key(id) <==> page_map(recs@.take(i as int)).contains_key(id),
            forall|id: i64| #[trigger]
                m@.contains_key(id) ==> m@[id] < i && recs@[m@[id] as int] == page_map(
                    recs@.take(i as int),
                )[id],
        decreases recs@.len() - i,
    {
        assert(recs@.take(i + 1).drop_last() =~= recs@.take(i as int));
        m.insert(recs[i].id, i);
        i = i + 1;
    }
    assert(recs@.take(i as int) =~= recs@);
    m
}

/// Lets the pages found by text alone join, from their rows `recs`. A page
/// without a row is left out.
pub fn join_text_only(agg: Aggregation, recs: &Vec<PageRecord>) -> (r: PageTable)
    requires
        agg.table.wf(),
    ensures
        r.wf(),
        r@ == join_stage(agg.table@, agg.text_only@, page_map(recs@)),
{
    broadcast use vstd::std_specs::hash::group_hash_axioms;

    let by_id = index_pages(recs);
    let ghost start = agg.table@;
    let texts = agg.text_only;
    let mut table = agg.table;
    let mut i: usize = 0;
    assert(texts@.take(0) =~= Seq::empty());
    while i < texts.len()
        invariant
            i <= texts@.len(),
            table.wf(),
            forall|id: i64| #[trigger]
                by_id@.contains_key(id) <==> page_map(recs@).contains_key(id),
            forall|id: i64| #[trigger]
                by_id@.contains_key(id) ==> by_id@[id] < recs@.len() && recs@[by_id@[id] as int]
                    == page_map(recs@)[id],
            table@ == join_stage(start, texts@.take(i as int), page_map(recs@)),
        decreases texts@.len() - i,
    {
        assert(texts@.take(i + 1).drop_last() =~= texts@.take(i as int));
        let t: (i64, Float32) = texts[i];
        if let Some(at) = by_id.get(&t.0) {
            assert(by_id@.contains_key(t.0));
            let p = &recs[*at];
            proof {
                lemma_ids(table);
            }
            let mut e: PageEntry = table.get_or_blank(t.0, p.file_id, p.page_num);
            e.agg.text_score = Some(t.1);
            table.put(e);
        }
        i = i + 1;
    }
    assert(texts@.take(i as int) =~= texts@);
    table
}

// ── Ranking ─────────────────────────────────────────────────────────────────

/// A page with its composite score.
#[derive(Clone, Copy, PartialEq, Eq, Structural, Debug)]
pub struct RankedPage {
    pub score: Float32,
    pub page: PageEntry,
}

/// The scores as sort keys: the greatest score has the smallest.
pub open spec fn rank_keys(scores: Seq<Float32>) -> Seq<i64> {
    scores.map_values(|s: Float32| (-s.total()) as i64)
}

/// Whether `r` is the pages by descending score in the total order, pages of
/// equal score in the order given, cut off after `top_k`.
pub open spec fn is_ranking(
    r: Seq<RankedPage>,
    pages: Seq<PageEntry>,
    scores: Seq<Float32>,
    top_k: nat,
) -> bool {
    exists|order: Seq<usize>|
        {
            &&& #[trigger] is_stable_order(rank_keys(scores), order)
            &&& r.len() == if pages.len() < top_k {
                pages.len()
            } else {
                top_k
            }
            &&& forall|i: int|
                0 <= i < r.len() ==> #[trigger] r[i] == (RankedPage {
                    score: scores[order[i] as int],
                    page: pages[order[i] as int],
                })
        }
}

/// The pages by descending score, no more than `top_k` of them.
pub fn rank(pages: &Vec<PageEntry>, scores: &Vec<Float32>, top_k: usize) -> (r: Vec<RankedPage>)
    requires
        scores@.len() == pages@.len(),
    ensures
        is_ranking(r@, pages@, scores@, top_k as nat),
{
    let mut keys: Vec<i64> = Vec::new();
    let mut i: usize = 0;
    while i < scores.len()
        invariant
            i <= scores@.len(),
            keys@ =~= rank_keys(scores@.take(i as int)),
        decreases scores@.len() - i,
    {
        keys.push(-scores[i].total_key());
        i = i + 1;
    }
    assert(scores@.take(i as int) =~= scores@);
    let order = stable_order(&keys);
    let n: usize = if pages.len() < top_k {
        pages.len()
    } else {
        top_k
    };
    let mut out: Vec<RankedPage> = Vec::new();
    let mut k: usize = 0;
    while k < n
        invariant
            k <= n <= pages@.len(),
            scores@.len() == pages@.len(),
            is_stable_order(rank_keys(scores@), order@),
            out@.len() == k,
            forall|j: int|
                0 <= j < k ==> #[trigger] out@[j] == (RankedPage {
                    score: scores@[order@[j] as int],
                    page: pages@[order@[j] as int],
                }),
        decreases n - k,
    {
        let at: usize = order[k];
        out.push(RankedPage { score: scores[at], page: pages[at] });
        k = k + 1;
    }
    out
}

/// The ids of the ranked pages, in order.
pub fn page_ids(ranked: &Vec<RankedPage>) -> (r: Vec<i64>)
    ensures
        r@ == ranked@.map_values(|p: RankedPage| p.page.page_id),
{
    let mut out: Vec<i64> = Vec::new();
    let mut i: usize = 0;
    while i < ranked.len()
        invariant
            i <= ranked@.len(),
            out@ =~= ranked@.take(i as int).map_values(|p: RankedPage| p.page.page_id),
        decreases ranked@.len() - i,
    {
        out.push(ranked[i].page.page_id);
        i = i + 1;
    }
    assert(ranked@.take(i as int) =~= ranked@);
    out
}

/// The ids of the files of the ranked pages, each once.
pub fn file_ids(ranked: &Vec<RankedPage>) -> (r: Vec<i64>)
    ensures
        r@.no_duplicates(),
        r@.to_set() == ranked@.map_values(|p: RankedPage| p.page.file_id).to_set(),
{
    broadcast use vstd::std_specs::hash::group_hash_axioms;

    let ghost files = ranked@.map_values(|p: RankedPage| p.page.file_id);
    let mut seen: HashSet<i64> = HashSet::new();
    let mut out: Vec<i64> = Vec::new();
    let mut i: usize = 0;
    assert(files.take(0).to_set() =~= out@.to_set());
    assert(seen@ =~= out@.to_set());
    while i < ranked.len()
        invariant
            i <= ranked@.len(),
            files == ranked@.map_values(|p: RankedPage| p.page.file_id),
            out@.no_duplicates(),
            seen@ == out@.to_set(),
            out@.to_set() == files.take(i as int).to_set(),
        decreases ranked@.len() - i,
    {
        let id: i64 = ranked[i].page.file_id;
        let ghost before = out@;
        proof {
            assert(files.take(i + 1) =~= files.take(i as int).push(id));
            files.take(i as int).lemma_push_to_set_commute(id);
            before.lemma_push_to_set_commute(id);
        }
        if !seen.contains(&id) {
            proof {
                assert(!before.contains(id)) by {
                    if before.contains(id) {
                        assert(before.to_set().contains(id));
                    }
                }
            }
            seen.insert(id);
            out.push(id);
        } else {
            assert(files.take(i as int).to_set().insert(id) =~= files.take(i as int).to_set());
        }
        i = i + 1;
    }
    assert(files.take(i as int) =~= files);
    out
}

// ── Results ─────────────────────────────────────────────────────────────────

/// A page found, as the client sees it.
#[derive(Clone, Debug)]
pub struct SearchResult {
    pub file_path: String,
    pub filename: String,
    pub file_type: String,
    /// The number of the page, beginning with one.
    pub page_num: i64,
    /// The greatest similarity of its regions; zero where no vector matched.
    pub similarity: Float32,
    /// The composite score, by which the list is ordered.
    pub score: Float32,
    /// The smallest hash distance of its regions, where a hash matched.
    pub phash_distance: Option<u32>,
    /// Such as `/thumbnails/42_1.webp`.
    pub thumbnail_url: Option<String>,
    pub file_size: Option<i64>,
    pub page_count: i64,
    /// In the form of RFC 3339; empty where the time is out of range.
    pub modified_at: Option<String>,
}

/// What `chrono` writes for a time in seconds since the Unix epoch, in UTC and in
/// the form of RFC 3339; nothing where the time is out of its range.
pub uninterp spec fn utc_rfc3339(seconds: i64) -> Option<Seq<char>>;

/// `chrono`'s `Utc.timestamp_opt`, and `to_rfc3339` on what it gives: the text
/// depends on the seconds alone.
#[verifier::external_body]
fn rfc3339(seconds: i64) -> (r: Option<String>)
    ensures
        text_view(r) == utc_rfc3339(seconds),
{
    Utc.timestamp_opt(seconds, 0).single().map(|dt| dt.to_rfc3339())
}

/// The time of a file as the client sees it.
pub open spec fn shown_time(modified_at: Option<i64>, text: Option<Seq<char>>) -> Option<Seq<char>> {
    match modified_at {
        None => None,
        Some(_) => match text {
            Some(t) => Some(t),
            None => Some(Seq::empty()),
        },
    }
}

/// The rows of files by their ids: the last one counts.
pub open spec fn file_map(recs: Seq<FileRecord>) -> Map<i64, FileRecord>
    decreases recs.len(),
{
    if recs.len() == 0 {
        Map::empty()
    } else {
        file_map(recs.drop_last()).insert(recs.last().id, recs.last())
    }
}

/// The address of the thumbnail of a page, where it has one.
pub open spec fn thumbnail_of(pages: Map<i64, PageRecord>, page_id: i64) -> Option<Seq<char>> {
    if !pages.contains_key(page_id) {
        None
    } else {
        match pages[page_id].thumb_path {
            None => None,
            Some(p) => Some("/thumbnails/"@ + p@),
        }
    }
}

/// Whether `r` describes the ranked page `p` of the file `f`.
pub open spec fn describes(
    r: SearchResult,
    p: RankedPage,
    f: FileRecord,
    pages: Map<i64, PageRecord>,
) -> bool {
    &&& r.file_path == f.path
    &&& r.filename == f.filename
    &&& r.file_type == f.file_type
    &&& r.page_num == p.page.page_num
    &&& r.similarity == match p.page.agg.vector_sim {
        Some(s) => s,
        None => (Float32 { bits: 0 }),
    }
    &&& r.score == p.score
    &&& r.phash_distance == p.page.agg.phash_dist
    &&& text_view(r.thumbnail_url) == thumbnail_of(pages, p.page.page_id)
    &&& r.file_size == f.file_size
    &&& r.page_count == f.page_count
    &&& text_view(r.modified_at) == shown_time(
        f.modified_at,
        match f.modified_at {
            Some(ts) => utc_rfc3339(ts),
            None => None,
        },
    )
}

/// Picks the ranked pages whose files are known.
pub open spec fn has_file(files: Map<i64, FileRecord>) -> spec_fn(RankedPage) -> bool {
    |p: RankedPage| files.contains_key(p.page.file_id)
}

fn index_files(recs: &Vec<FileRecord>) -> (r: HashMap<i64, usize>)
    ensures
        forall|id: i64| #[trigger] r@.contains_key(id) <==> file_map(recs@).contains_key(id),
        forall|id: i64| #[trigger]
            r@.contains_key(id) ==> r@[id] < recs@.len() && recs@[r@[id] as int] == file_map(
                recs@,
            )[id],
{
    broadcast use vstd::std_specs::hash::group_hash_axioms;

    let mut m: HashMap<i64, usize> = HashMap::new();
    let mut i: usize = 0;
    assert(recs@.take(0) =~= Seq::empty());
    while i < recs.len()
        invariant
            i <= recs@.len(),
            forall|id: i64| #[trigger]
                m@.contains_key(id) <==> file_map(recs@.take(i as int)).contains_key(id),
            forall|id: i64| #[trigger]
                m@.contains_key(id) ==> m@[id] < i && recs@[m@[id] as int] == file_map(
                    recs@.take(i as int),
                )[id],
        decreases recs@.len() - i,
    {
        assert(recs@.take(i + 1).drop_last() =~= recs@.take(i as int));
        m.insert(recs[i].id, i);
        i = i + 1;
    }
    assert(recs@.take(i as int) =~= recs@);
    m
}

fn thumbnail_url(rec: &PageRecord) -> (r: Option<String>)
    ensures
        text_view(r) == match rec.thumb_path {
            None => None::<Seq<char>>,
            Some(p) => Some("/thumbnails/"@ + p@),
        },
{
    match &rec.thumb_path {
        None => None,
        Some(p) => {
            let mut url = "/thumbnails/".to_owned();
            url.append(p.as_str());
            Some(url)
        },
    }
}

/// The time of a file as the client sees it, from what `chrono` wrote for it.
pub fn show_time(modified_at: Option<i64>, text: Option<String>) -> (r: Option<String>)
    ensures
        text_view(r) == shown_time(modified_at, text_view(text)),
{
    match modified_at {
        None => None,
        Some(_) => match text {
            Some(t) => Some(t),
            None => Some(String::new()),
        },
    }
}

/// Describes the ranked pages to the client, in order. A page whose file is not
/// known is left out.
pub fn assemble(ranked: &Vec<RankedPage>, pages: &Vec<PageRecord>, files: &Vec<FileRecord>) -> (r:
    Vec<SearchResult>)
    ensures
        ({
            let shown = ranked@.filter(has_file(file_map(files@)));
            &&& r@.len() == shown.len()
            &&& forall|i: int|
                0 <= i < r@.len() ==> describes(
                    #[trigger] r@[i],
                    shown[i],
                    file_map(files@)[shown[i].page.file_id],
                    page_map(pages@),
                )
        }),
{
    broadcast use vstd::std_specs::hash::group_hash_axioms;

    let page_at = index_pages(pages);
    let file_at = index_files(files);
    let ghost known = has_file(file_map(files@));
    let mut out: Vec<SearchResult> = Vec::new();
    let mut i: usize = 0;
    assert(ranked@.take(0).filter(known) =~= Seq::empty());
    while i < ranked.len()
        invariant
            i <= ranked@.len(),
            known == has_file(file_map(files@)),
            forall|id: i64| #[trigger]
                page_at@.contains_key(id) <==> page_map(pages@).contains_key(id),
            forall|id: i64| #[trigger]
                page_at@.contains_key(id) ==> page_at@[id] < pages@.len()
                    && pages@[page_at@[id] as int] == page_map(pages@)[id],
            forall|id: i64| #[trigger]
                file_at@.contains_key(id) <==> file_map(files@).contains_key(id),
            forall|id: i64| #[trigger]
                file_at@.contains_key(id) ==> file_at@[id] < files@.len()
                    && files@[file_at@[id] as int] == file_map(files@)[id],
            out@.len() == ranked@.take(i as int).filter(known).len(),
            forall|j: int|
                0 <= j < out@.len() ==> describes(
                    #[trigger] out@[j],
                    ranked@.take(i as int).filter(known)[j],
                    file_map(files@)[ranked@.take(i as int).filter(known)[j].page.file_id],
                    page_map(pages@),
                ),
        decreases ranked@.len() - i,
    {
        let p: RankedPage = ranked[i];
        proof {
            assert(ranked@.take(i + 1) =~= ranked@.take(i as int).push(p));
            ranked@.take(i as int).lemma_filter_push(p, known);
            assert(file_at@.contains_key(p.page.file_id) == known(p));
        }
        if let Some(at) = file_at.get(&p.page.file_id) {
            let f = &files[*at];
            let thumbnail_url = match page_at.get(&p.page.page_id) {
                Some(k) => {
                    assert(page_at@.contains_key(p.page.page_id));
                    thumbnail_url(&pages[*k])
                },
                None => {
                    assert(!page_at@.contains_key(p.page.page_id));
                    None
                },
            };
            let text = match f.modified_at {
                Some(ts) => rfc3339(ts),
                None => None,
            };
            let similarity: Float32 = match p.page.agg.vector_sim {
                Some(s) => s,
                None => Float32 { bits: 0 },
            };
            out.push(
                SearchResult {
                    file_path: f.path.clone(),
                    filename: f.filename.clone(),
                    file_type: f.file_type.clone(),
                    page_num: p.page.page_num,
                    similarity,
                    score: p.score,
                    phash_distance: p.page.agg.phash_dist,
                    thumbnail_url,
                    file_size: f.file_size,
                    page_count: f.page_count,
                    modified_at: show_time(f.modified_at, text),
                },
            );
        }
        i = i + 1;
    }
    assert(ranked@.take(i as int) =~= ranked@);
    out
}

// ── Laws ────────────────────────────────────────────────────────────────────

/// Whether a region found by its vector counts toward a page.
pub open spec fn counts_for(
    v: VectorHit,
    regions: Map<i64, RegionHit>,
    threshold: Float32,
    page_id: i64,
) -> bool {
    !v.similarity.less(threshold) && regions.contains_key(as_signed(v.vector_id))
        && regions[as_signed(v.vector_id)].page_id == page_id
}

/// A page is found by vectors exactly where one of its regions counts, and its
/// similarity is the greatest among them.
pub proof fn best_region_counts(
    vectors: Seq<VectorHit>,
    regions: Map<i64, RegionHit>,
    threshold: Float32,
    page_id: i64,
)
    requires
        forall|i: int| 0 <= i < vectors.len() ==> !(#[trigger] vectors[i]).similarity.nan(),
    ensures
        ({
            let m = vector_stage(vectors, regions, threshold);
            &&& m.contains_key(page_id) <==> exists|i: int|
                0 <= i < vectors.len() && counts_for(
                    #[trigger] vectors[i],
                    regions,
                    threshold,
                    page_id,
                )
            &&& m.contains_key(page_id) ==> {
                let best = m[page_id].agg.vector_sim;
                &&& best is Some
                &&& forall|i: int|
                    0 <= i < vectors.len() && counts_for(
                        #[trigger] vectors[i],
                        regions,
                        threshold,
                        page_id,
                    ) ==> vectors[i].similarity.at_most(best->Some_0)
                &&& exists|i: int|
                    0 <= i < vectors.len() && counts_for(
                        #[trigger] vectors[i],
                        regions,
                        threshold,
                        page_id,
                    ) && vectors[i].similarity == best->Some_0
            }
        }),
    decreases vectors.len(),
{
    if vectors.len() > 0 {
        let init = vectors.drop_last();
        assert forall|i: int| 0 <= i < init.len() implies !(#[trigger] init[i]).similarity.nan() by {
            assert(init[i] == vectors[i]);
        }
        best_region_counts(init, regions, threshold, page_id);
        let m0 = vector_stage(init, regions, threshold);
        let m = vector_stage(vectors, regions, threshold);
        let n = vectors.len() - 1;
        assert(vectors.last() == vectors[n]);
        assert(!vectors[n].similarity.nan());
        if m0.contains_key(page_id) {
            let k = choose|i: int|
                0 <= i < init.len() && counts_for(
                    #[trigger] init[i],
                    regions,
                    threshold,
                    page_id,
                ) && init[i].similarity == m0[page_id].agg.vector_sim->Some_0;
            assert(vectors[k] == init[k]);
        }
        assert forall|i: int|
            0 <= i < vectors.len() && counts_for(
                #[trigger] vectors[i],
                regions,
                threshold,
                page_id,
            ) implies m.contains_key(page_id) && vectors[i].similarity.at_most(
            m[page_id].agg.vector_sim->Some_0,
        ) by {
            if i < n {
                assert(init[i] == vectors[i]);
            }
        }
        if m.contains_key(page_id) && !m0.contains_key(page_id) {
            assert(counts_for(vectors[n], regions, threshold, page_id));
        }
    }
}

/// The hash distance of a page is no greater than that of any of its regions found by
/// their hashes, and it is that of one of them, unless the page had it before.
pub proof fn nearest_region_counts(
    start: Map<i64, PageEntry>,
    hashes: Seq<PhashCandidate>,
    regions: Map<i64, RegionHit>,
    i: int,
)
    requires
        0 <= i < hashes.len(),
        regions.contains_key(hashes[i].region_id),
    ensures
        ({
            let m = phash_stage(start, hashes, regions);
            let page_id = regions[hashes[i].region_id].page_id;
            &&& m.contains_key(page_id)
            &&& m[page_id].agg.phash_dist is Some
            &&& m[page_id].agg.phash_dist->Some_0 <= hashes[i].distance
            &&& attained(start, hashes, regions, page_id, m[page_id].agg.phash_dist)
        }),
    decreases hashes.len(),
{
    if i < hashes.len() - 1 {
        assert(hashes.drop_last()[i] == hashes[i]);
        nearest_region_counts(start, hashes.drop_last(), regions, i);
    }
    lemma_attained(start, hashes, regions, regions[hashes[i].region_id].page_id);
}

/// Whether a page had a hash distance before, or has it from one of its regions found
/// by their hashes.
pub open spec fn attained(
    start: Map<i64, PageEntry>,
    hashes: Seq<PhashCandidate>,
    regions: Map<i64, RegionHit>,
    page_id: i64,
    dist: Option<u32>,
) -> bool {
    ||| start.contains_key(page_id) && start[page_id].agg.phash_dist == dist
    ||| exists|j: int|
        0 <= j < hashes.len() && regions.contains_key((#[trigger] hashes[j]).region_id)
            && regions[hashes[j].region_id].page_id == page_id && dist == Some(hashes[j].distance)
}

proof fn lemma_attained(
    start: Map<i64, PageEntry>,
    hashes: Seq<PhashCandidate>,
    regions: Map<i64, RegionHit>,
    page_id: i64,
)
    ensures
        ({
            let m = phash_stage(start, hashes, regions);
            m.contains_key(page_id) ==> attained(
                start,
                hashes,
                regions,
                page_id,
                m[page_id].agg.phash_dist,
            )
        }),
    decreases hashes.len(),
{
    if hashes.len() > 0 {
        let init = hashes.drop_last();
        lemma_attained(start, init, regions, page_id);
        let before = phash_stage(start, init, regions);
        let m = phash_stage(start, hashes, regions);
        let c = hashes.last();
        assert(hashes[hashes.len() - 1] == c);
        if m.contains_key(page_id) {
            let dist = m[page_id].agg.phash_dist;
            if before.contains_key(page_id) && before[page_id].agg.phash_dist == dist {
                if !(start.contains_key(page_id) && start[page_id].agg.phash_dist == dist) {
                    let j = choose|j: int|
                        0 <= j < init.len() && regions.contains_key((#[trigger] init[j]).region_id)
                            && regions[init[j].region_id].page_id == page_id && dist == Some(
                            init[j].distance,
                        );
                    assert(hashes[j] == init[j]);
                }
            }
        }
    }
}

/// A page that was found by its text alone enters the ranking, with its text
/// score, where it has a row.
pub proof fn text_alone_is_enough(
    start: Map<i64, PageEntry>,
    texts: Seq<(i64, Float32)>,
    recs: Map<i64, PageRecord>,
    i: int,
)
    requires
        0 <= i < texts.len(),
        recs.contains_key(texts[i].0),
        forall|j: int| i < j < texts.len() ==> (#[trigger] texts[j]).0 != texts[i].0,
    ensures
        ({
            let m = join_stage(start, texts, recs);
            &&& m.contains_key(texts[i].0)
            &&& m[texts[i].0].agg.text_score == Some(texts[i].1)
        }),
    decreases texts.len(),
{
    if i < texts.len() - 1 {
        let init = texts.drop_last();
        assert(init[i] == texts[i]);
        assert(texts[texts.len() - 1].0 != texts[i].0);
        text_alone_is_enough(start, init, recs, i);
    }
}

/// The ranking descends, and no page left out scores higher than one that is in.
pub proof fn ranking_descends(
    r: Seq<RankedPage>,
    pages: Seq<PageEntry>,
    scores: Seq<Float32>,
    top_k: nat,
)
    requires
        scores.len() == pages.len(),
        is_ranking(r, pages, scores, top_k),
    ensures
        forall|i: int, j: int|
            0 <= i < j < r.len() ==> (#[trigger] r[j]).score.total() <= (#[trigger] r[i]).score.total(),
        forall|k: int|
            0 <= k < pages.len() ==> r.contains(
                RankedPage { score: scores[k], page: #[trigger] pages[k] },
            ) || forall|i: int|
                0 <= i < r.len() ==> scores[k].total() <= (#[trigger] r[i]).score.total(),
{
    let keys = rank_keys(scores);
    let order = choose|order: Seq<usize>|
        {
            &&& #[trigger] is_stable_order(keys, order)
            &&& r.len() == if pages.len() < top_k {
                pages.len()
            } else {
                top_k
            }
            &&& forall|i: int|
                0 <= i < r.len() ==> #[trigger] r[i] == (RankedPage {
                    score: scores[order[i] as int],
                    page: pages[order[i] as int],
                })
        };
    assert forall|i: int, j: int| 0 <= i < j < r.len() implies (#[trigger] r[j]).score.total() <= (
    #[trigger] r[i]).score.total() by {
        assert(precedes(keys, order[i] as int, order[j] as int));
    }
    assert forall|k: int| 0 <= k < pages.len() implies r.contains(
        RankedPage { score: scores[k], page: #[trigger] pages[k] },
    ) || forall|i: int|
        0 <= i < r.len() ==> scores[k].total() <= (#[trigger] r[i]).score.total() by {
        assert(crate::order::lists(order, k));
        let p = choose|p: int| 0 <= p < order.len() && #[trigger] order[p] == k;
        if p < r.len() {
            assert(r[p] == (RankedPage { score: scores[k], page: pages[k] }));
        } else {
            assert forall|i: int| 0 <= i < r.len() implies scores[k].total() <= (
            #[trigger] r[i]).score.total() by {
                assert(precedes(keys, order[i] as int, order[p] as int));
            }
        }
    }
}

// ── Laws of the merged pages ────────────────────────────────────────────────

/// Whether a region, by its row, is one of a page: the last that is said of it counts.
pub open spec fn belongs_to(hits: Seq<RegionHit>, row: i64, page_id: i64) -> bool {
    exists|k: int|
        0 <= k < hits.len() && (#[trigger] hits[k]).region_id == row && hits[k].page_id == page_id
            && forall|l: int| k < l < hits.len() ==> (#[trigger] hits[l]).region_id != row
}

proof fn lemma_region_map(hits: Seq<RegionHit>, row: i64)
    ensures
        ({
            let m = region_map(hits);
            &&& m.contains_key(row) ==> exists|k: int|
                0 <= k < hits.len() && (#[trigger] hits[k]).region_id == row && hits[k] == m[row]
                    && forall|l: int| k < l < hits.len() ==> (#[trigger] hits[l]).region_id != row
            &&& !m.contains_key(row) ==> forall|k: int|
                0 <= k < hits.len() ==> (#[trigger] hits[k]).region_id != row
        }),
    decreases hits.len(),
{
    if hits.len() > 0 {
        let init = hits.drop_last();
        lemma_region_map(init, row);
        let n = hits.len() - 1;
        assert(hits.last() == hits[n]);
        if hits[n].region_id != row && region_map(init).contains_key(row) {
            let k = choose|k: int|
                0 <= k < init.len() && (#[trigger] init[k]).region_id == row && init[k]
                    == region_map(init)[row] && forall|l: int|
                    k < l < init.len() ==> (#[trigger] init[l]).region_id != row;
            assert(hits[k] == init[k]);
            assert forall|l: int| k < l < hits.len() implies (#[trigger] hits[l]).region_id != row by {
                if l < n {
                    assert(init[l] == hits[l]);
                }
            }
        }
        if !region_map(hits).contains_key(row) {
            assert forall|k: int| 0 <= k < hits.len() implies (#[trigger] hits[k]).region_id != row by {
                if k < n {
                    assert(init[k] == hits[k]);
                }
            }
        }
    }
}

proof fn lemma_belongs(hits: Seq<RegionHit>, row: i64, page_id: i64)
    ensures
        belongs_to(hits, row, page_id) <==> region_map(hits).contains_key(row) && region_map(
            hits,
        )[row].page_id == page_id,
{
    lemma_region_map(hits, row);
    let m = region_map(hits);
    if belongs_to(hits, row, page_id) {
        let k = choose|k: int|
            0 <= k < hits.len() && (#[trigger] hits[k]).region_id == row && hits[k].page_id
                == page_id && forall|l: int|
                k < l < hits.len() ==> (#[trigger] hits[l]).region_id != row;
        assert(m.contains_key(row));
        let q = choose|q: int|
            0 <= q < hits.len() && (#[trigger] hits[q]).region_id == row && hits[q] == m[row]
                && forall|l: int| q < l < hits.len() ==> (#[trigger] hits[l]).region_id != row;
        assert(q == k);
    }
}

/// Whether the entry of a page says what one of the hits says of it.
spec fn has_origin(e: PageEntry, regions: Map<i64, RegionHit>, page_id: i64) -> bool {
    &&& e.page_id == page_id
    &&& exists|row: i64| #[trigger]
        regions.contains_key(row) && regions[row].page_id == page_id && regions[row].file_id
            == e.file_id && regions[row].page_num == e.page_num
}

proof fn lemma_vector_stage(
    vectors: Seq<VectorHit>,
    regions: Map<i64, RegionHit>,
    threshold: Float32,
    page_id: i64,
)
    ensures
        ({
            let m = vector_stage(vectors, regions, threshold);
            m.contains_key(page_id) ==> m[page_id].agg.phash_dist is None
                && m[page_id].agg.text_score is None && has_origin(m[page_id], regions, page_id)
        }),
    decreases vectors.len(),
{
    if vectors.len() > 0 {
        let init = vectors.drop_last();
        lemma_vector_stage(init, regions, threshold, page_id);
        let row = as_signed(vectors.last().vector_id);
        if regions.contains_key(row) {
            assert(regions[row].page_id == page_id ==> regions.contains_key(row));
        }
    }
}

/// Whether a hash was found of a region of the page.
spec fn hash_of_page(c: PhashCandidate, regions: Map<i64, RegionHit>, page_id: i64) -> bool {
    regions.contains_key(c.region_id) && regions[c.region_id].page_id == page_id
}

proof fn lemma_phash_stage(
    start: Map<i64, PageEntry>,
    hashes: Seq<PhashCandidate>,
    regions: Map<i64, RegionHit>,
    page_id: i64,
)
    requires
        start.contains_key(page_id) ==> start[page_id].agg.phash_dist is None && has_origin(
            start[page_id],
            regions,
            page_id,
        ),
    ensures
        ({
            let m = phash_stage(start, hashes, regions);
            &&& m.contains_key(page_id) <==> start.contains_key(page_id) || exists|j: int|
                0 <= j < hashes.len() && hash_of_page(#[trigger] hashes[j], regions, page_id)
            &&& m.contains_key(page_id) ==> {
                let e = m[page_id];
                &&& has_origin(e, regions, page_id)
                &&& start.contains_key(page_id) ==> e.agg.vector_sim
                    == start[page_id].agg.vector_sim && e.agg.text_score
                    == start[page_id].agg.text_score && e.file_id == start[page_id].file_id
                    && e.page_num == start[page_id].page_num
                &&& !start.contains_key(page_id) ==> e.agg.vector_sim is None
                    && e.agg.text_score is None
                &&& forall|j: int|
                    0 <= j < hashes.len() && hash_of_page(#[trigger] hashes[j], regions, page_id)
                        ==> e.agg.phash_dist is Some && e.agg.phash_dist->Some_0
                        <= hashes[j].distance
                &&& e.agg.phash_dist is Some ==> exists|j: int|
                    0 <= j < hashes.len() && hash_of_page(#[trigger] hashes[j], regions, page_id)
                        && e.agg.phash_dist == Some(hashes[j].distance)
            }
        }),
    decreases hashes.len(),
{
    if hashes.len() > 0 {
        let init = hashes.drop_last();
        lemma_phash_stage(start, init, regions, page_id);
        let m0 = phash_stage(start, init, regions);
        let m = phash_stage(start, hashes, regions);
        let n = hashes.len() - 1;
        let c = hashes.last();
        assert(hashes[n] == c);
        assert forall|j: int|
            0 <= j < init.len() && hash_of_page(#[trigger] init[j], regions, page_id) implies hashes[j]
            == init[j] by {}
        if exists|j: int|
            0 <= j < init.len() && hash_of_page(#[trigger] init[j], regions, page_id) {
            let j = choose|j: int|
                0 <= j < init.len() && hash_of_page(#[trigger] init[j], regions, page_id);
            assert(hash_of_page(hashes[j], regions, page_id));
        }
        assert forall|j: int|
            0 <= j < hashes.len() && hash_of_page(#[trigger] hashes[j], regions, page_id) implies (j
            < n ==> hash_of_page(init[j], regions, page_id)) && m.contains_key(page_id) by {
            if j < n {
                assert(init[j] == hashes[j]);
                assert(hash_of_page(init[j], regions, page_id));
            }
        }
        if m.contains_key(page_id) {
            let e = m[page_id];
            if m0.contains_key(page_id) && m0[page_id].agg.phash_dist is Some {
                let j = choose|j: int|
                    0 <= j < init.len() && hash_of_page(#[trigger] init[j], regions, page_id)
                        && m0[page_id].agg.phash_dist == Some(init[j].distance);
                assert(hash_of_page(hashes[j], regions, page_id));
            }
            assert forall|j: int|
                0 <= j < hashes.len() && hash_of_page(#[trigger] hashes[j], regions, page_id) implies e.agg.phash_dist is Some
                && e.agg.phash_dist->Some_0 <= hashes[j].distance by {
                if j < n {
                    assert(hash_of_page(init[j], regions, page_id));
                }
            }
        }
    }
}

proof fn lemma_text_stage(start: Map<i64, PageEntry>, texts: Seq<(i64, Float32)>, page_id: i64)
    ensures
        ({
            let m = text_stage(start, texts);
            &&& m.contains_key(page_id) <==> start.contains_key(page_id)
            &&& start.contains_key(page_id) ==> {
                let (e, s) = (m[page_id], start[page_id]);
                &&& e.page_id == s.page_id && e.file_id == s.file_id && e.page_num == s.page_num
                &&& e.agg.vector_sim == s.agg.vector_sim
                &&& e.agg.phash_dist == s.agg.phash_dist
                &&& forall|i: int|
                    0 <= i < texts.len() && (#[trigger] texts[i]).0 == page_id && (forall|j: int|
                        i < j < texts.len() ==> (#[trigger] texts[j]).0 != page_id)
                        ==> e.agg.text_score == Some(texts[i].1)
                &&& (forall|i: int| 0 <= i < texts.len() ==> (#[trigger] texts[i]).0 != page_id)
                    ==> e.agg.text_score == s.agg.text_score
            }
        }),
    decreases texts.len(),
{
    if texts.len() > 0 {
        let init = texts.drop_last();
        lemma_text_stage(start, init, page_id);
        let n = texts.len() - 1;
        assert(texts.last() == texts[n]);
        if start.contains_key(page_id) {
            let m = text_stage(start, texts);
            let e = m[page_id];
            assert forall|i: int|
                0 <= i < texts.len() && (#[trigger] texts[i]).0 == page_id && (forall|j: int|
                    i < j < texts.len() ==> (#[trigger] texts[j]).0 != page_id) implies e.agg.text_score
                == Some(texts[i].1) by {
                if i < n {
                    assert(texts[n].0 != page_id);
                    assert(init[i] == texts[i]);
                    assert forall|j: int| i < j < init.len() implies (#[trigger] init[j]).0
                        != page_id by {
                        assert(init[j] == texts[j]);
                    }
                }
            }
            if forall|i: int| 0 <= i < texts.len() ==> (#[trigger] texts[i]).0 != page_id {
                assert forall|i: int| 0 <= i < init.len() implies (#[trigger] init[i]).0 != page_id by {
                    assert(init[i] == texts[i]);
                }
                assert(texts[n].0 != page_id);
            }
        }
    }
}

/// A page is found by vectors exactly where one of its regions counts, and its similarity
/// is that of one of them.
proof fn lemma_vector_found(
    vectors: Seq<VectorHit>,
    regions: Map<i64, RegionHit>,
    threshold: Float32,
    page_id: i64,
)
    ensures
        ({
            let m = vector_stage(vectors, regions, threshold);
            &&& m.contains_key(page_id) <==> exists|i: int|
                0 <= i < vectors.len() && counts_for(
                    #[trigger] vectors[i],
                    regions,
                    threshold,
                    page_id,
                )
            &&& m.contains_key(page_id) ==> exists|i: int|
                0 <= i < vectors.len() && counts_for(
                    #[trigger] vectors[i],
                    regions,
                    threshold,
                    page_id,
                ) && Some(vectors[i].similarity) == m[page_id].agg.vector_sim
        }),
    decreases vectors.len(),
{
    if vectors.len() > 0 {
        let init = vectors.drop_last();
        lemma_vector_found(init, regions, threshold, page_id);
        let m0 = vector_stage(init, regions, threshold);
        let m = vector_stage(vectors, regions, threshold);
        let n = vectors.len() - 1;
        assert(vectors.last() == vectors[n]);
        if m0.contains_key(page_id) {
            let k = choose|i: int|
                0 <= i < init.len() && counts_for(
                    #[trigger] init[i],
                    regions,
                    threshold,
                    page_id,
                ) && Some(init[i].similarity) == m0[page_id].agg.vector_sim;
            assert(vectors[k] == init[k]);
        }
        assert forall|i: int|
            0 <= i < vectors.len() && counts_for(
                #[trigger] vectors[i],
                regions,
                threshold,
                page_id,
            ) implies m.contains_key(page_id) by {
            if i < n {
                assert(init[i] == vectors[i]);
            }
        }
        if counts_for(vectors[n], regions, threshold, page_id) {
            assert(m[page_id].agg.vector_sim == Some(vectors[n].similarity) || m0.contains_key(
                page_id,
            ) && m[page_id].agg.vector_sim == m0[page_id].agg.vector_sim);
        }
    }
}

/// What is known of a page once the channels are merged. It is found exactly where one
/// of its regions is similar enough or has a near hash. Its similarity is the greatest
/// of its regions that are similar enough, its hash distance the smallest of its
/// regions with near hashes, and its text score the one of its last listing among the
/// texts, each whatever the other channels say; where a channel says nothing of it,
/// there is none. A listed page that was not found is handed on with its score.
pub proof fn channels_are_merged_by_page(
    vectors: &Vec<VectorHit>,
    hashes: &Vec<PhashCandidate>,
    texts: &Vec<(i64, Float32)>,
    hits: &Vec<RegionHit>,
    threshold: Float32,
    r: Aggregation,
    page_id: i64,
)
    requires
        call_ensures(aggregate, (vectors, hashes, texts, hits, threshold), r),
    ensures
        ({
            let numbers = forall|i: int|
                0 <= i < vectors@.len() ==> !(#[trigger] vectors@[i]).similarity.nan();
            let similar = exists|i: int|
                0 <= i < vectors@.len() && !(#[trigger] vectors@[i]).similarity.less(threshold)
                    && belongs_to(hits@, as_signed(vectors@[i].vector_id), page_id);
            let near = exists|j: int|
                0 <= j < hashes@.len() && belongs_to(
                    hits@,
                    (#[trigger] hashes@[j]).region_id,
                    page_id,
                );
            let listed = exists|i: int| 0 <= i < texts@.len() && (#[trigger] texts@[i]).0 == page_id;
            &&& r.table@.contains_key(page_id) <==> similar || near
            &&& r.table@.contains_key(page_id) ==> {
                let e = r.table@[page_id];
                &&& e.page_id == page_id
                &&& exists|k: int|
                    0 <= k < hits@.len() && (#[trigger] hits@[k]).page_id == page_id
                        && hits@[k].file_id == e.file_id && hits@[k].page_num == e.page_num
                &&& similar <==> e.agg.vector_sim is Some
                &&& numbers ==> forall|i: int|
                    0 <= i < vectors@.len() && !(#[trigger] vectors@[i]).similarity.less(threshold)
                        && belongs_to(hits@, as_signed(vectors@[i].vector_id), page_id)
                        ==> !e.agg.vector_sim->Some_0.less(vectors@[i].similarity)
                &&& similar ==> exists|i: int|
                    0 <= i < vectors@.len() && !(#[trigger] vectors@[i]).similarity.less(threshold)
                        && belongs_to(hits@, as_signed(vectors@[i].vector_id), page_id)
                        && e.agg.vector_sim == Some(vectors@[i].similarity)
                &&& near <==> e.agg.phash_dist is Some
                &&& forall|j: int|
                    0 <= j < hashes@.len() && belongs_to(
                        hits@,
                        (#[trigger] hashes@[j]).region_id,
                        page_id,
                    ) ==> e.agg.phash_dist->Some_0 <= hashes@[j].distance
                &&& near ==> exists|j: int|
                    0 <= j < hashes@.len() && belongs_to(
                        hits@,
                        (#[trigger] hashes@[j]).region_id,
                        page_id,
                    ) && e.agg.phash_dist == Some(hashes@[j].distance)
                &&& listed <==> e.agg.text_score is Some
                &&& forall|i: int|
                    0 <= i < texts@.len() && (#[trigger] texts@[i]).0 == page_id && (forall|j: int|
                        i < j < texts@.len() ==> (#[trigger] texts@[j]).0 != page_id)
                        ==> e.agg.text_score == Some(texts@[i].1)
            }
            &&& forall|i: int|
                0 <= i < texts@.len() && (#[trigger] texts@[i]).0 == page_id ==> (
                r.text_only@.contains(texts@[i]) <==> !similar && !near)
            &&& forall|i: int|
                0 <= i < r.text_only@.len() && (#[trigger] r.text_only@[i]).0 == page_id
                    ==> texts@.contains(r.text_only@[i])
        }),
{
    let regions = region_map(hits@);
    let m1 = vector_stage(vectors@, regions, threshold);
    let m2 = phash_stage(m1, hashes@, regions);
    lemma_vector_found(vectors@, regions, threshold, page_id);
    if forall|i: int| 0 <= i < vectors@.len() ==> !(#[trigger] vectors@[i]).similarity.nan() {
        best_region_counts(vectors@, regions, threshold, page_id);
    }
    lemma_vector_stage(vectors@, regions, threshold, page_id);
    lemma_phash_stage(m1, hashes@, regions, page_id);
    lemma_text_stage(m2, texts@, page_id);
    assert forall|i: int| 0 <= i < vectors@.len() implies (counts_for(
        #[trigger] vectors@[i],
        regions,
        threshold,
        page_id,
    ) <==> !vectors@[i].similarity.less(threshold) && belongs_to(
        hits@,
        as_signed(vectors@[i].vector_id),
        page_id,
    )) by {
        lemma_belongs(hits@, as_signed(vectors@[i].vector_id), page_id);
    }
    assert forall|j: int| 0 <= j < hashes@.len() implies (hash_of_page(
        #[trigger] hashes@[j],
        regions,
        page_id,
    ) <==> belongs_to(hits@, hashes@[j].region_id, page_id)) by {
        lemma_belongs(hits@, hashes@[j].region_id, page_id);
    }
    if m1.contains_key(page_id) {
        let best = m1[page_id].agg.vector_sim->Some_0;
        let i = choose|i: int|
            0 <= i < vectors@.len() && counts_for(
                #[trigger] vectors@[i],
                regions,
                threshold,
                page_id,
            ) && vectors@[i].similarity == best;
        assert(!vectors@[i].similarity.less(threshold));
    }
    if exists|i: int|
        0 <= i < vectors@.len() && !(#[trigger] vectors@[i]).similarity.less(threshold)
            && belongs_to(hits@, as_signed(vectors@[i].vector_id), page_id) {
        let i = choose|i: int|
            0 <= i < vectors@.len() && !(#[trigger] vectors@[i]).similarity.less(threshold)
                && belongs_to(hits@, as_signed(vectors@[i].vector_id), page_id);
        assert(counts_for(vectors@[i], regions, threshold, page_id));
    }
    if exists|j: int|
        0 <= j < hashes@.len() && hash_of_page(#[trigger] hashes@[j], regions, page_id) {
        let j = choose|j: int|
            0 <= j < hashes@.len() && hash_of_page(#[trigger] hashes@[j], regions, page_id);
        assert(belongs_to(hits@, hashes@[j].region_id, page_id));
    }
    if exists|j: int|
        0 <= j < hashes@.len() && belongs_to(hits@, (#[trigger] hashes@[j]).region_id, page_id) {
        let j = choose|j: int|
            0 <= j < hashes@.len() && belongs_to(hits@, (#[trigger] hashes@[j]).region_id, page_id);
        assert(hash_of_page(hashes@[j], regions, page_id));
    }
    if m2.contains_key(page_id) {
        let e2 = m2[page_id];
        let row = choose|row: i64| #[trigger]
            regions.contains_key(row) && regions[row].page_id == page_id && regions[row].file_id
                == e2.file_id && regions[row].page_num == e2.page_num;
        lemma_region_map(hits@, row);
        let k = choose|k: int|
            0 <= k < hits@.len() && (#[trigger] hits@[k]).region_id == row && hits@[k]
                == regions[row];
        assert(hits@[k].page_id == page_id);
        if e2.agg.phash_dist is Some {
            let j = choose|j: int|
                0 <= j < hashes@.len() && hash_of_page(#[trigger] hashes@[j], regions, page_id)
                    && e2.agg.phash_dist == Some(hashes@[j].distance);
            assert(belongs_to(hits@, hashes@[j].region_id, page_id));
        }
        if exists|i: int| 0 <= i < texts@.len() && (#[trigger] texts@[i]).0 == page_id {
            lemma_last_listing(texts@, page_id);
        }
    }
    let keep = text_only_of(m2.dom());
    let at = crate::order::filter_places(texts@, keep);
    assert forall|i: int| 0 <= i < texts@.len() && (#[trigger] texts@[i]).0 == page_id implies (
    r.text_only@.contains(texts@[i]) <==> !m2.contains_key(page_id)) by {
        if !m2.contains_key(page_id) {
            assert(keep(texts@[i]));
            assert(at.contains(i));
            let p = choose|p: int| 0 <= p < at.len() && at[p] == i;
            assert(r.text_only@[p] == texts@[i]);
        }
        if r.text_only@.contains(texts@[i]) {
            let p = choose|p: int| 0 <= p < r.text_only@.len() && r.text_only@[p] == texts@[i];
            assert(keep(texts@[at[p]]));
        }
    }
    assert forall|i: int|
        0 <= i < r.text_only@.len() && (#[trigger] r.text_only@[i]).0 == page_id implies texts@.contains(
        r.text_only@[i],
    ) by {
        assert(texts@[at[i]] == r.text_only@[i]);
    }
}

/// A page that is listed has a last listing.
proof fn lemma_last_listing(texts: Seq<(i64, Float32)>, page_id: i64) -> (i: int)
    requires
        exists|i: int| 0 <= i < texts.len() && (#[trigger] texts[i]).0 == page_id,
    ensures
        0 <= i < texts.len(),
        texts[i].0 == page_id,
        forall|j: int| i < j < texts.len() ==> (#[trigger] texts[j]).0 != page_id,
    decreases texts.len(),
{
    let n = texts.len() - 1;
    if texts[n].0 == page_id {
        n
    } else {
        let init = texts.drop_last();
        let k = choose|k: int| 0 <= k < texts.len() && (#[trigger] texts[k]).0 == page_id;
        assert(init[k].0 == page_id);
        let i = lemma_last_listing(init, page_id);
        assert forall|j: int| i < j < texts.len() implies (#[trigger] texts[j]).0 != page_id by {
            if j < n {
                assert(init[j] == texts[j]);
            }
        }
        i
    }
}

proof fn lemma_page_map(recs: Seq<PageRecord>, id: i64)
    ensures
        ({
            let m = page_map(recs);
            &&& m.contains_key(id) ==> exists|k: int|
                0 <= k < recs.len() && (#[trigger] recs[k]).id == id && recs[k] == m[id] && forall|
                    l: int,
                |
                    k < l < recs.len() ==> (#[trigger] recs[l]).id != id
            &&& !m.contains_key(id) ==> forall|k: int|
                0 <= k < recs.len() ==> (#[trigger] recs[k]).id != id
        }),
    decreases recs.len(),
{
    if recs.len() > 0 {
        let init = recs.drop_last();
        lemma_page_map(init, id);
        let n = recs.len() - 1;
        assert(recs.last() == recs[n]);
        if recs[n].id != id && page_map(init).contains_key(id) {
            let k = choose|k: int|
                0 <= k < init.len() && (#[trigger] init[k]).id == id && init[k] == page_map(init)[id]
                    && forall|l: int| k < l < init.len() ==> (#[trigger] init[l]).id != id;
            assert(recs[k] == init[k]);
            assert forall|l: int| k < l < recs.len() implies (#[trigger] recs[l]).id != id by {
                if l < n {
                    assert(init[l] == recs[l]);
                }
            }
        }
        if !page_map(recs).contains_key(id) {
            assert forall|k: int| 0 <= k < recs.len() implies (#[trigger] recs[k]).id != id by {
                if k < n {
                    assert(init[k] == recs[k]);
                }
            }
        }
    }
}

proof fn lemma_file_map(recs: Seq<FileRecord>, id: i64)
    ensures
        ({
            let m = file_map(recs);
            &&& m.contains_key(id) ==> exists|k: int|
                0 <= k < recs.len() && (#[trigger] recs[k]).id == id && recs[k] == m[id] && forall|
                    l: int,
                |
                    k < l < recs.len() ==> (#[trigger] recs[l]).id != id
            &&& !m.contains_key(id) ==> forall|k: int|
                0 <= k < recs.len() ==> (#[trigger] recs[k]).id != id
        }),
    decreases recs.len(),
{
    if recs.len() > 0 {
        let init = recs.drop_last();
        lemma_file_map(init, id);
        let n = recs.len() - 1;
        assert(recs.last() == recs[n]);
        if recs[n].id != id && file_map(init).contains_key(id) {
            let k = choose|k: int|
                0 <= k < init.len() && (#[trigger] init[k]).id == id && init[k] == file_map(init)[id]
                    && forall|l: int| k < l < init.len() ==> (#[trigger] init[l]).id != id;
            assert(recs[k] == init[k]);
            assert forall|l: int| k < l < recs.len() implies (#[trigger] recs[l]).id != id by {
                if l < n {
                    assert(init[l] == recs[l]);
                }
            }
        }
        if !file_map(recs).contains_key(id) {
            assert forall|k: int| 0 <= k < recs.len() implies (#[trigger] recs[k]).id != id by {
                if k < n {
                    assert(init[k] == recs[k]);
                }
            }
        }
    }
}

spec fn is_listed(texts: Seq<(i64, Float32)>, page_id: i64) -> bool {
    exists|i: int| 0 <= i < texts.len() && (#[trigger] texts[i]).0 == page_id
}

proof fn lemma_join_stage(
    start: Map<i64, PageEntry>,
    texts: Seq<(i64, Float32)>,
    recs: Map<i64, PageRecord>,
    page_id: i64,
)
    ensures
        ({
            let m = join_stage(start, texts, recs);
            let joins = recs.contains_key(page_id) && is_listed(texts, page_id);
            &&& m.contains_key(page_id) <==> start.contains_key(page_id) || joins
            &&& !joins && start.contains_key(page_id) ==> m[page_id] == start[page_id]
            &&& joins && !start.contains_key(page_id) ==> m[page_id].page_id == page_id
                && m[page_id].agg.vector_sim is None && m[page_id].agg.phash_dist is None
                && m[page_id].file_id == recs[page_id].file_id && m[page_id].page_num
                == recs[page_id].page_num
        }),
    decreases texts.len(),
{
    if texts.len() > 0 {
        let init = texts.drop_last();
        lemma_join_stage(start, init, recs, page_id);
        let n = texts.len() - 1;
        let (id, score) = texts.last();
        assert(texts[n] == texts.last());
        if is_listed(init, page_id) {
            let i = choose|i: int| 0 <= i < init.len() && (#[trigger] init[i]).0 == page_id;
            assert(texts[i].0 == page_id);
        }
        if is_listed(texts, page_id) && id != page_id {
            let i = choose|i: int| 0 <= i < texts.len() && (#[trigger] texts[i]).0 == page_id;
            assert(init[i].0 == page_id);
        }
        assert(is_listed(texts, page_id) <==> is_listed(init, page_id) || id == page_id);
    }
}

/// The pages found by text alone join the others, each with the score of its last
/// listing and the file and number of its row; a page without a row does not. Pages
/// that were found already and are not listed stay as they are.
pub proof fn pages_found_by_text_alone_join(
    agg: Aggregation,
    recs: &Vec<PageRecord>,
    r: PageTable,
    page_id: i64,
)
    requires
        agg.table.wf(),
        call_ensures(join_text_only, (agg, recs), r),
    ensures
        ({
            let has_row = exists|k: int| 0 <= k < recs@.len() && (#[trigger] recs@[k]).id == page_id;
            let listed = exists|i: int|
                0 <= i < agg.text_only@.len() && (#[trigger] agg.text_only@[i]).0 == page_id;
            let found = agg.table@.contains_key(page_id);
            &&& r@.contains_key(page_id) <==> found || has_row && listed
            &&& found && !listed ==> r@[page_id] == agg.table@[page_id]
            &&& !found && has_row && listed ==> {
                let e = r@[page_id];
                &&& e.page_id == page_id
                &&& e.agg.vector_sim is None
                &&& e.agg.phash_dist is None
                &&& exists|k: int|
                    0 <= k < recs@.len() && (#[trigger] recs@[k]).id == page_id && e.file_id
                        == recs@[k].file_id && e.page_num == recs@[k].page_num
                &&& forall|i: int|
                    0 <= i < agg.text_only@.len() && (#[trigger] agg.text_only@[i]).0 == page_id && (
                    forall|j: int|
                        i < j < agg.text_only@.len() ==> (#[trigger] agg.text_only@[j]).0 != page_id)
                        ==> e.agg.text_score == Some(agg.text_only@[i].1)
            }
        }),
{
    lemma_ids(agg.table);
    lemma_page_map(recs@, page_id);
    lemma_join_stage(agg.table@, agg.text_only@, page_map(recs@), page_id);
    if page_map(recs@).contains_key(page_id) {
        let texts = agg.text_only@;
        assert forall|i: int|
            0 <= i < texts.len() && (#[trigger] texts[i]).0 == page_id && (forall|j: int|
                i < j < texts.len() ==> (#[trigger] texts[j]).0 != page_id) implies r@[page_id].agg.text_score
            == Some(texts[i].1) by {
            text_alone_is_enough(agg.table@, texts, page_map(recs@), i);
        }
    }
}

/// The pages of a ranking are the best: each is one of those given, with its score, and
/// none twice; no page stands before one with a greater score, and of equal ones the
/// earlier stands first; and no page left out has a greater score than one that is in.
/// `at` gives where the pages of the ranking stood.
pub proof fn the_best_pages_are_ranked(
    pages: &Vec<PageEntry>,
    scores: &Vec<Float32>,
    top_k: usize,
    r: Vec<RankedPage>,
) -> (at: Seq<usize>)
    requires
        scores@.len() == pages@.len(),
        forall|i: int| 0 <= i < scores@.len() ==> !(#[trigger] scores@[i]).nan(),
        call_ensures(rank, (pages, scores, top_k), r),
    ensures
        r@.len() == top_k || r@.len() == pages@.len() && pages@.len() < top_k,
        at.len() == r@.len(),
        at.no_duplicates(),
        forall|i: int|
            0 <= i < at.len() ==> #[trigger] at[i] < pages@.len() && r@[i].page
                == pages@[at[i] as int] && r@[i].score == scores@[at[i] as int],
        forall|i: int, j: int|
            0 <= i < j < r@.len() ==> !(#[trigger] r@[i]).score.less((#[trigger] r@[j]).score) && (
            r@[i].score == r@[j].score ==> at[i] < at[j]),
        forall|k: int, i: int|
            0 <= k < pages@.len() && 0 <= i < r@.len() && !at.contains(k as usize) ==> !(
            #[trigger] r@[i]).score.less(#[trigger] scores@[k]),
{
    let keys = rank_keys(scores@);
    let n = r@.len();
    let order = choose|order: Seq<usize>|
        {
            &&& #[trigger] is_stable_order(keys, order)
            &&& r@.len() == if pages@.len() < top_k {
                pages@.len()
            } else {
                top_k as nat
            }
            &&& forall|i: int|
                0 <= i < r@.len() ==> #[trigger] r@[i] == (RankedPage {
                    score: scores@[order[i] as int],
                    page: pages@[order[i] as int],
                })
        };
    let at = order.take(n as int);
    assert forall|i: int, j: int| 0 <= i < at.len() && 0 <= j < at.len() && i != j implies at[i]
        != at[j] by {
        if i < j {
            assert(precedes(keys, order[i] as int, order[j] as int));
        } else {
            assert(precedes(keys, order[j] as int, order[i] as int));
        }
    }
    assert forall|i: int| 0 <= i < at.len() implies #[trigger] at[i] < pages@.len() && r@[i].page
        == pages@[at[i] as int] && r@[i].score == scores@[at[i] as int] by {
        assert(order[i] < keys.len());
    }
    assert forall|i: int, j: int| 0 <= i < j < r@.len() implies !(#[trigger] r@[i]).score.less(
        (#[trigger] r@[j]).score,
    ) && (r@[i].score == r@[j].score ==> at[i] < at[j]) by {
        assert(precedes(keys, order[i] as int, order[j] as int));
        assert(order[i] < keys.len() && order[j] < keys.len());
    }
    assert forall|k: int, i: int|
        0 <= k < pages@.len() && 0 <= i < r@.len() && !at.contains(k as usize) implies !(
    #[trigger] r@[i]).score.less(#[trigger] scores@[k]) by {
        assert(crate::order::lists(order, k));
        let p = choose|p: int| 0 <= p < order.len() && #[trigger] order[p] == k;
        if p < n {
            assert(at[p] == k as usize);
        }
        assert(precedes(keys, order[i] as int, order[p] as int));
        assert(order[i] < keys.len());
    }
    at
}

/// The results describe the ranked pages in order, all but those whose files have no
/// row: each says the path, name, type, size and page count of the row of its file, the
/// number of its page, its score, its similarity (zero where no vector matched) and its
/// hash distance, and where the thumbnail of its page lies. `at` gives which ranked page
/// each describes.
pub proof fn results_describe_the_ranking(
    ranked: &Vec<RankedPage>,
    pages: &Vec<PageRecord>,
    files: &Vec<FileRecord>,
    r: Vec<SearchResult>,
) -> (at: Seq<int>)
    requires
        call_ensures(assemble, (ranked, pages, files), r),
    ensures
        at.len() == r@.len(),
        forall|i: int, j: int| 0 <= i < j < at.len() ==> #[trigger] at[i] < #[trigger] at[j],
        forall|k: int|
            0 <= k < ranked@.len() && (exists|f: int|
                0 <= f < files@.len() && (#[trigger] files@[f]).id
                    == #[trigger] ranked@[k].page.file_id) ==> at.contains(k),
        forall|i: int|
            0 <= i < at.len() ==> {
                let p = ranked@[#[trigger] at[i]];
                &&& 0 <= at[i] < ranked@.len()
                &&& r@[i].page_num == p.page.page_num
                &&& r@[i].score == p.score
                &&& r@[i].phash_distance == p.page.agg.phash_dist
                &&& p.page.agg.vector_sim is Some ==> r@[i].similarity
                    == p.page.agg.vector_sim->Some_0
                &&& p.page.agg.vector_sim is None ==> r@[i].similarity.bits == 0
                &&& exists|f: int|
                    0 <= f < files@.len() && (#[trigger] files@[f]).id == p.page.file_id
                        && r@[i].file_path@ == files@[f].path@ && r@[i].filename@
                        == files@[f].filename@ && r@[i].file_type@ == files@[f].file_type@
                        && r@[i].file_size == files@[f].file_size && r@[i].page_count
                        == files@[f].page_count && (files@[f].modified_at is None
                        <==> r@[i].modified_at is None)
                &&& r@[i].thumbnail_url is Some ==> exists|q: int|
                    0 <= q < pages@.len() && (#[trigger] pages@[q]).id == p.page.page_id
                        && pages@[q].thumb_path is Some && r@[i].thumbnail_url->Some_0@
                        == "/thumbnails/"@ + pages@[q].thumb_path->Some_0@
                &&& r@[i].thumbnail_url is None ==> forall|q: int|
                    0 <= q < pages@.len() && (#[trigger] pages@[q]).id == p.page.page_id && (
                    forall|l: int|
                        q < l < pages@.len() ==> (#[trigger] pages@[l]).id != p.page.page_id)
                        ==> pages@[q].thumb_path is None
            },
{
    let fm = file_map(files@);
    let pm = page_map(pages@);
    let keep = has_file(fm);
    let shown = ranked@.filter(keep);
    let at = crate::order::filter_places(ranked@, keep);
    assert forall|k: int|
        0 <= k < ranked@.len() && (exists|f: int|
            0 <= f < files@.len() && (#[trigger] files@[f]).id
                == #[trigger] ranked@[k].page.file_id) implies at.contains(k) by {
        lemma_file_map(files@, ranked@[k].page.file_id);
        assert(keep(ranked@[k]));
    }
    assert forall|i: int| 0 <= i < at.len() implies {
        let p = ranked@[#[trigger] at[i]];
        &&& 0 <= at[i] < ranked@.len()
        &&& r@[i].page_num == p.page.page_num
        &&& r@[i].score == p.score
        &&& r@[i].phash_distance == p.page.agg.phash_dist
        &&& p.page.agg.vector_sim is Some ==> r@[i].similarity == p.page.agg.vector_sim->Some_0
        &&& p.page.agg.vector_sim is None ==> r@[i].similarity.bits == 0
        &&& exists|f: int|
            0 <= f < files@.len() && (#[trigger] files@[f]).id == p.page.file_id && r@[i].file_path@
                == files@[f].path@ && r@[i].filename@ == files@[f].filename@ && r@[i].file_type@
                == files@[f].file_type@ && r@[i].file_size == files@[f].file_size
                && r@[i].page_count == files@[f].page_count && (files@[f].modified_at is None
                <==> r@[i].modified_at is None)
        &&& r@[i].thumbnail_url is Some ==> exists|q: int|
            0 <= q < pages@.len() && (#[trigger] pages@[q]).id == p.page.page_id
                && pages@[q].thumb_path is Some && r@[i].thumbnail_url->Some_0@ == "/thumbnails/"@
                + pages@[q].thumb_path->Some_0@
        &&& r@[i].thumbnail_url is None ==> forall|q: int|
            0 <= q < pages@.len() && (#[trigger] pages@[q]).id == p.page.page_id && (forall|l: int|
                q < l < pages@.len() ==> (#[trigger] pages@[l]).id != p.page.page_id)
                ==> pages@[q].thumb_path is None
    } by {
        let p = ranked@[at[i]];
        assert(shown[i] == p);
        assert(describes(r@[i], p, fm[p.page.file_id], pm));
        lemma_file_map(files@, p.page.file_id);
        lemma_page_map(pages@, p.page.page_id);
        let f = choose|f: int|
            0 <= f < files@.len() && (#[trigger] files@[f]).id == p.page.file_id && files@[f]
                == fm[p.page.file_id];
        assert(files@[f].path@ == r@[i].file_path@);
        if r@[i].thumbnail_url is None {
            assert forall|q: int|
                0 <= q < pages@.len() && (#[trigger] pages@[q]).id == p.page.page_id && (forall|
                    l: int,
                |
                    q < l < pages@.len() ==> (#[trigger] pages@[l]).id != p.page.page_id) implies pages@[q].thumb_path is None by {
                let k = choose|k: int|
                    0 <= k < pages@.len() && (#[trigger] pages@[k]).id == p.page.page_id && pages@[k]
                        == pm[p.page.page_id] && forall|l: int|
                        k < l < pages@.len() ==> (#[trigger] pages@[l]).id != p.page.page_id;
                assert(k == q);
            }
        }
    }
    at
}

/// Of two similarities of a page the greater counts, and of two hash distances the
/// smaller; what else is known of the page stays.
pub proof fn the_better_value_counts(
    a: &mut PageAggregate,
    sim: Float32,
)
    requires
        call_ensures(PageAggregate::update_vector, (a, sim), ()),
    ensures
        final(a).phash_dist == old(a).phash_dist,
        final(a).text_score == old(a).text_score,
        final(a).vector_sim is Some,
        final(a).vector_sim == Some(sim) || final(a).vector_sim == old(a).vector_sim,
        old(a).vector_sim is None ==> final(a).vector_sim == Some(sim),
        old(a).vector_sim is Some && old(a).vector_sim->Some_0.less(sim) ==> final(a).vector_sim
            == Some(sim),
        old(a).vector_sim is Some && sim.less(old(a).vector_sim->Some_0) ==> final(a).vector_sim
            == old(a).vector_sim,
{
}

/// Of two hash distances of a page the smaller counts.
pub proof fn the_smaller_distance_counts(a: &mut PageAggregate, dist: u32)
    requires
        call_ensures(PageAggregate::update_phash, (a, dist), ()),
    ensures
        final(a).vector_sim == old(a).vector_sim,
        final(a).text_score == old(a).text_score,
        final(a).phash_dist is Some,
        final(a).phash_dist->Some_0 <= dist,
        old(a).phash_dist is Some ==> final(a).phash_dist->Some_0 <= old(a).phash_dist->Some_0,
        final(a).phash_dist == Some(dist) || final(a).phash_dist == old(a).phash_dist,
{
}

/// The rows that are asked for are those that a visual channel found, each once and in
/// ascending order: the ids of vectors are read as signed numbers.
pub proof fn found_rows_are_asked_for(
    vectors: &Vec<VectorHit>,
    hashes: &Vec<PhashCandidate>,
    r: Vec<i64>,
)
    requires
        call_ensures(region_ids, (vectors, hashes), r),
    ensures
        forall|i: int, j: int| 0 <= i < j < r@.len() ==> #[trigger] r@[i] < #[trigger] r@[j],
        forall|i: int| 0 <= i < hashes@.len() ==> r@.contains((#[trigger] hashes@[i]).region_id),
        forall|i: int|
            0 <= i < vectors@.len() && (#[trigger] vectors@[i]).vector_id <= i64::MAX ==> r@.contains(
                vectors@[i].vector_id as i64,
            ),
        forall|k: int|
            0 <= k < r@.len() && #[trigger] r@[k] >= 0 ==> (exists|i: int|
                0 <= i < vectors@.len() && (#[trigger] vectors@[i]).vector_id == r@[k]) || (exists|
                i: int,
            |
                0 <= i < hashes@.len() && (#[trigger] hashes@[i]).region_id == r@[k]),
{
    let ids = vectors@.map_values(|v: VectorHit| as_signed(v.vector_id));
    let rows = hashes@.map_values(|h: PhashCandidate| h.region_id);
    let all = found_rows(vectors@, hashes@);
    assert(all == ids + rows);
    assert forall|x: i64| r@.contains(x) <==> #[trigger] all.contains(x) by {
        assert(r@.to_set().contains(x) <==> all.to_set().contains(x));
    }
    assert forall|i: int| 0 <= i < hashes@.len() implies r@.contains(
        (#[trigger] hashes@[i]).region_id,
    ) by {
        assert(all[ids.len() + i] == hashes@[i].region_id);
        assert(all.contains(hashes@[i].region_id));
    }
    assert forall|i: int|
        0 <= i < vectors@.len() && (#[trigger] vectors@[i]).vector_id <= i64::MAX implies r@.contains(
        vectors@[i].vector_id as i64,
    ) by {
        assert(all[i] == vectors@[i].vector_id as i64);
        assert(all.contains(vectors@[i].vector_id as i64));
    }
    assert forall|k: int| 0 <= k < r@.len() && #[trigger] r@[k] >= 0 implies (exists|i: int|
        0 <= i < vectors@.len() && (#[trigger] vectors@[i]).vector_id == r@[k]) || (exists|i: int|
        0 <= i < hashes@.len() && (#[trigger] hashes@[i]).region_id == r@[k]) by {
        assert(r@.contains(r@[k]));
        assert(all.contains(r@[k]));
        let i = choose|i: int| 0 <= i < all.len() && all[i] == r@[k];
        if i < ids.len() {
            assert(ids[i] == as_signed(vectors@[i].vector_id));
            assert(vectors@[i].vector_id == r@[k]);
        } else {
            assert(rows[i - ids.len()] == hashes@[i - ids.len()].region_id);
            assert(hashes@[i - ids.len()].region_id == r@[k]);
        }
    }
}

/// A file without a time is shown without one; a time that cannot be written is shown as
/// nothing.
pub proof fn times_are_shown_as_written(
    modified_at: Option<i64>,
    text: Option<String>,
    r: Option<String>,
)
    requires
        call_ensures(show_time, (modified_at, text), r),
    ensures
        r is Some <==> modified_at is Some,
        r is Some && text is Some ==> r->Some_0@ == text->Some_0@,
        r is Some && text is None ==> r->Some_0@.len() == 0,
{
}

/// The texts of pages that no visual channel found are handed on in the order in which
/// they were listed, each as often as it was.
pub proof fn other_texts_are_handed_on_in_order(
    vectors: &Vec<VectorHit>,
    hashes: &Vec<PhashCandidate>,
    texts: &Vec<(i64, Float32)>,
    hits: &Vec<RegionHit>,
    threshold: Float32,
    r: Aggregation,
) -> (at: Seq<int>)
    requires
        call_ensures(aggregate, (vectors, hashes, texts, hits, threshold), r),
    ensures
        at.len() == r.text_only@.len(),
        forall|i: int|
            0 <= i < at.len() ==> 0 <= #[trigger] at[i] < texts@.len() && r.text_only@[i]
                == texts@[at[i]] && !r.table@.contains_key(texts@[at[i]].0),
        forall|i: int, j: int| 0 <= i < j < at.len() ==> #[trigger] at[i] < #[trigger] at[j],
        forall|k: int|
            0 <= k < texts@.len() && !r.table@.contains_key((#[trigger] texts@[k]).0)
                ==> at.contains(k),
{
    let found = visual_pages(vectors@, hashes@, hits@, threshold);
    let keep = text_only_of(found.dom());
    let at = crate::order::filter_places(texts@, keep);
    assert forall|id: i64| r.table@.contains_key(id) <==> #[trigger] found.contains_key(id) by {
        lemma_text_stage(found, texts@, id);
    }
    assert forall|i: int| 0 <= i < at.len() implies 0 <= #[trigger] at[i] < texts@.len()
        && r.text_only@[i] == texts@[at[i]] && !r.table@.contains_key(texts@[at[i]].0) by {
        assert(keep(texts@[at[i]]));
        assert(!found.contains_key(texts@[at[i]].0));
    }
    assert forall|k: int|
        0 <= k < texts@.len() && !r.table@.contains_key((#[trigger] texts@[k]).0) implies at.contains(
        k,
    ) by {
        assert(!found.contains_key(texts@[k].0));
        assert(keep(texts@[k]));
    }
    at
}

/// Whether a page of a file is ranked.
pub open spec fn is_ranked(ranked: Seq<RankedPage>, file_id: i64) -> bool {
    exists|i: int| 0 <= i < ranked.len() && (#[trigger] ranked[i]).page.file_id == file_id
}

/// The ids of the ranked pages stand in the order of the ranking; those of their files are
/// each asked for once.
pub proof fn ranked_pages_are_asked_for(ranked: &Vec<RankedPage>, pages: Vec<i64>, files: Vec<i64>)
    requires
        call_ensures(page_ids, (ranked,), pages),
        call_ensures(file_ids, (ranked,), files),
    ensures
        pages@.len() == ranked@.len(),
        forall|i: int| 0 <= i < ranked@.len() ==> #[trigger] pages@[i] == ranked@[i].page.page_id,
        forall|i: int| 0 <= i < ranked@.len() ==> files@.contains((#[trigger] ranked@[i]).page.file_id),
        forall|k: int| 0 <= k < files@.len() ==> is_ranked(ranked@, #[trigger] files@[k]),
        forall|i: int, j: int| 0 <= i < j < files@.len() ==> #[trigger] files@[i] != #[trigger] files@[j],
{
    let ids = ranked@.map_values(|p: RankedPage| p.page.file_id);
    assert forall|i: int| 0 <= i < ranked@.len() implies files@.contains(
        (#[trigger] ranked@[i]).page.file_id,
    ) by {
        assert(ids[i] == ranked@[i].page.file_id);
        assert(ids.to_set().contains(ids[i]));
        assert(files@.to_set().contains(ids[i]));
    }
    assert forall|k: int| 0 <= k < files@.len() implies is_ranked(ranked@, #[trigger] files@[k]) by {
        assert(files@.to_set().contains(files@[k]));
        assert(ids.to_set().contains(files@[k]));
        let i = choose|i: int| 0 <= i < ids.len() && ids[i] == files@[k];
        assert(ranked@[i].page.file_id == files@[k]);
    }
}

/// Whether a result shows the time of a file: as it is written in UTC, as nothing where it
/// cannot be written, and not at all where the file has none.
pub open spec fn shows_time_of(r: SearchResult, f: FileRecord) -> bool {
    &&& f.modified_at is None ==> r.modified_at is None
    &&& f.modified_at is Some && utc_rfc3339(f.modified_at->Some_0) is Some ==> r.modified_at is Some
        && r.modified_at->Some_0@ == utc_rfc3339(f.modified_at->Some_0)->Some_0
    &&& f.modified_at is Some && utc_rfc3339(f.modified_at->Some_0) is None ==> r.modified_at is Some
        && r.modified_at->Some_0@.len() == 0
}

/// Each result shows the time of the file that it is of.
pub proof fn results_show_the_times_of_their_files(
    ranked: &Vec<RankedPage>,
    pages: &Vec<PageRecord>,
    files: &Vec<FileRecord>,
    r: Vec<SearchResult>,
    i: int,
)
    requires
        call_ensures(assemble, (ranked, pages, files), r),
        0 <= i < r@.len(),
    ensures
        exists|f: int|
            0 <= f < files@.len() && (#[trigger] files@[f]).path@ == r@[i].file_path@
                && shows_time_of(r@[i], files@[f]),
{
    let fm = file_map(files@);
    let keep = has_file(fm);
    let shown = ranked@.filter(keep);
    let at = crate::order::filter_places(ranked@, keep);
    let p = shown[i];
    assert(p == ranked@[at[i]]);
    assert(describes(r@[i], p, fm[p.page.file_id], page_map(pages@)));
    lemma_file_map(files@, p.page.file_id);
    assert(keep(p));
    let f = choose|f: int|
        0 <= f < files@.len() && (#[trigger] files@[f]).id == p.page.file_id && files@[f]
            == fm[p.page.file_id];
    assert(files@[f].path@ == r@[i].file_path@);
    assert(shows_time_of(r@[i], files@[f]));
}

} // verus!
