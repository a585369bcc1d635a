//! Search: candidates from three channels, merged, ranked and described.
//!
//! A query is an image. Its vectors are looked up in the vector index, its hash
//! in the table of hashes, and its text in the full-text index; the pages found
//! are then ranked by all three.

use crate::bytes::{as_unsigned, to_unsigned};
use crate::embedder::pixels::{crop, is_crop, PixelImage};
use crate::error::AppError;
use crate::float32::{copy_vector, Float32};
use crate::order::{is_stable_order, stable_order};
use crate::search::ranker::SearchResult;
use crate::search::vector_index::VectorMatch;
use crate::text::{
    char_views, decimal, decimal_u64, no_white, trim_chars, trimmed, words, words_are_words, words_of,
};
use std::collections::HashMap;
use vstd::prelude::*;

pub mod phash_index;
pub mod phash_store;
pub mod query;
pub mod ranker;
pub mod vector_index;

verus! {

/// The share of each edge of the query that its second, closer view keeps, in
/// thousandths.
pub const CENTER_CROP_PERMILLE: u32 = 700;

/// The fewest regions that are asked of the vector index. Ten regions make one
/// page.
pub const MIN_SEARCH_K: usize = 500;

/// Pages asked of the full-text index.
pub const FTS_CANDIDATES: usize = 500;

/// A query with fewer characters than this has no text worth looking up.
pub const MIN_QUERY_TEXT_CHARS: usize = 4;

/// Vectors read from the database at once when the vector index is rebuilt.
pub const REBUILD_BATCH: i64 = 10_000;

/// The most words that are looked up.
pub const MAX_SEGMENTS: usize = 16;

// ── Plan of a search ────────────────────────────────────────────────────────

/// How a search is made.
#[derive(Clone, Copy, PartialEq, Eq, Structural, Debug)]
pub struct SearchPlan {
    /// Pages wanted.
    pub top_k: usize,
    /// Regions asked of the vector index for each vector.
    pub search_k: usize,
    /// Vectors that the query has: one for each view of it.
    pub query_vectors: usize,
}

/// How a search is made: for `top_k` pages, or as many as is usual, with a second
/// view of the query or without.
pub fn plan_search(top_k: Option<usize>, default_top_k: usize, center_crop: bool) -> (r: SearchPlan)
    requires
        (match top_k {
            Some(k) => k,
            None => default_top_k,
        }) * 25 <= usize::MAX,
    ensures
        r.top_k == match top_k {
            Some(k) => k,
            None => default_top_k,
        },
        r.search_k == if r.top_k * 25 >= MIN_SEARCH_K {
            r.top_k * 25
        } else {
            MIN_SEARCH_K as int
        },
        r.query_vectors == if center_crop {
            2int
        } else {
            1
        },
{
    let wanted: usize = match top_k {
        Some(k) => k,
        None => default_top_k,
    };
    let many: usize = wanted * 25;
    SearchPlan {
        top_k: wanted,
        search_k: if many >= MIN_SEARCH_K {
            many
        } else {
            MIN_SEARCH_K
        },
        query_vectors: if center_crop {
            2
        } else {
            1
        },
    }
}

/// The views of the query that are encoded: all of it and, where wanted, its
/// centre.
pub fn query_views(img: &PixelImage, center: bool) -> (r: Vec<PixelImage>)
    requires
        img.wf(),
    ensures
        r@.len() == if center {
            2int
        } else {
            1
        },
        is_crop(r@[0], *img, 0, 0, img.width as int, img.height as int),
        center ==> is_center(r@[1], *img, CENTER_CROP_PERMILLE as int),
{
    let mut out: Vec<PixelImage> = Vec::new();
    out.push(crop(img, 0, 0, img.width, img.height));
    if center {
        out.push(center_crop(img, CENTER_CROP_PERMILLE));
    }
    out
}

/// The encoder has to give one vector for each view of the query.
pub fn check_vectors(plan: &SearchPlan, got: usize) -> (r: Result<(), AppError>)
    ensures
        r is Ok <==> got == plan.query_vectors,
        r is Err ==> r->Err_0 is Other && r->Err_0->Other_0@ == "Expected "@ + decimal(
            plan.query_vectors as int,
        ) + " query vectors, got "@ + decimal(got as int),
{
    if got != plan.query_vectors {
        let mut msg = "Expected ".to_owned();
        let want = decimal_u64(plan.query_vectors as u64);
        let have = decimal_u64(got as u64);
        msg.append(want.as_str());
        msg.append(" query vectors, got ");
        msg.append(have.as_str());
        return Err(AppError::Other(msg));
    }
    Ok(())
}

/// What came of reading the query.
#[derive(Debug)]
pub enum OcrOutcome {
    /// Text recognition is not available.
    Disabled,
    Text(String),
    /// It failed, in whatever way.
    Failed,
}

/// The text of the query. A search never fails for want of it.
pub fn query_text(outcome: OcrOutcome) -> (r: String)
    ensures
        r@ == match outcome {
            OcrOutcome::Text(t) => t@,
            _ => Seq::<char>::empty(),
        },
{
    match outcome {
        OcrOutcome::Text(t) => t,
        OcrOutcome::Disabled => String::new(),
        OcrOutcome::Failed => String::new(),
    }
}

/// What is looked up in the full-text index for the text of a query, if anything:
/// a text of fewer than four characters is not looked up.
pub fn text_lookup(text: &str) -> (r: Option<String>)
    ensures
        trimmed(text@).len() < MIN_QUERY_TEXT_CHARS ==> r is None,
        trimmed(text@).len() >= MIN_QUERY_TEXT_CHARS ==> match r {
            Some(q) => is_fts_query(q@, text@),
            None => segments_of(text@).len() == 0,
        },
{
    let t = trim_chars(text);
    if t.len() < MIN_QUERY_TEXT_CHARS {
        return None;
    }
    build_fts_query(text)
}

// ── Full-text expressions ───────────────────────────────────────────────────

/// Picks the words that the full-text index can look up: those of three
/// characters or more.
pub open spec fn long_enough() -> spec_fn(Seq<char>) -> bool {
    |w: Seq<char>| w.len() >= 3
}

/// The words of a text that can be looked up.
pub open spec fn segments_of(text: Seq<char>) -> Seq<Seq<char>> {
    words_of(text).filter(long_enough())
}

/// The length of a word as a sort key: the longest has the smallest. Beyond what a
/// key can hold all lengths are equal.
pub open spec fn length_key(len: nat) -> i64 {
    if len <= i64::MAX {
        (-(len as int)) as i64
    } else {
        (-(i64::MAX as int)) as i64
    }
}

/// The lengths of some words as sort keys.
pub open spec fn length_keys(segments: Seq<Seq<char>>) -> Seq<i64> {
    segments.map_values(|w: Seq<char>| length_key(w.len()))
}

fn key_of_length(len: usize) -> (r: i64)
    ensures
        r == length_key(len as nat),
{
    let n: u64 = len as u64;
    if n <= 0x7fff_ffff_ffff_ffff {
        -(n as i64)
    } else {
        -0x7fff_ffff_ffff_ffff
    }
}

/// A word with every quotation mark doubled.
pub open spec fn escaped(w: Seq<char>) -> Seq<char>
    decreases w.len(),
{
    if w.len() == 0 {
        Seq::empty()
    } else if w.last() == '"' {
        escaped(w.drop_last()).push('"').push('"')
    } else {
        escaped(w.drop_last()).push(w.last())
    }
}

/// A word between quotation marks.
pub open spec fn quoted(w: Seq<char>) -> Seq<char> {
    seq!['"'] + escaped(w) + seq!['"']
}

/// The first `n` words of an order, quoted and joined by `OR`.
pub open spec fn any_of(segments: Seq<Seq<char>>, order: Seq<usize>, n: int) -> Seq<char>
    decreases n,
{
    if n <= 0 {
        Seq::empty()
    } else if n == 1 {
        quoted(segments[order[0] as int])
    } else {
        any_of(segments, order, n - 1) + " OR "@ + quoted(segments[order[n - 1] as int])
    }
}

/// Whether `q` looks up the words of a text: the longest first, those of equal
/// length in order, and no more than [`MAX_SEGMENTS`].
pub open spec fn is_fts_query(q: Seq<char>, text: Seq<char>) -> bool {
    let segments = segments_of(text);
    &&& segments.len() > 0
    &&& exists|order: Seq<usize>|
        #[trigger] is_stable_order(length_keys(segments), order) && q == any_of(
            segments,
            order,
            if segments.len() < MAX_SEGMENTS {
                segments.len() as int
            } else {
                MAX_SEGMENTS as int
            },
        )
}

fn push_quoted(out: &mut String, w: &Vec<char>)
    ensures
        final(out)@ == old(out)@ + quoted(w@),
{
    out.push('"');
    let ghost start = out@;
    let mut i: usize = 0;
    assert(start + escaped(w@.take(0)) =~= start);
    while i < w.len()
        invariant
            i <= w@.len(),
            out@ == start + escaped(w@.take(i as int)),
        decreases w@.len() - i,
    {
        assert(w@.take(i + 1).drop_last() =~= w@.take(i as int));
        let c: char = w[i];
        if c == '"' {
            out.push('"');
        }
        out.push(c);
        assert(out@ =~= start + escaped(w@.take(i + 1)));
        i = i + 1;
    }
    assert(w@.take(i as int) =~= w@);
    out.push('"');
    assert(out@ =~= old(out)@ + quoted(w@));
}

/// The expression that looks up the words of a text in the full-text index; `None`
/// where none can be looked up.
pub fn build_fts_query(text: &str) -> (r: Option<String>)
    ensures
        match r {
            Some(q) => is_fts_query(q@, text@),
            None => segments_of(text@).len() == 0,
        },
{
    let all = words(text);
    let ghost pick = long_enough();
    let mut segments: Vec<Vec<char>> = Vec::new();
    let mut keys: Vec<i64> = Vec::new();
    let mut i: usize = 0;
    assert(char_views(all@).take(0).filter(pick) =~= Seq::empty());
    assert(char_views(segments@) =~= Seq::empty());
    while i < all.len()
        invariant
            i <= all@.len(),
            pick == long_enough(),
            char_views(segments@) == char_views(all@).take(i as int).filter(pick),
            keys@ =~= length_keys(char_views(segments@)),
        decreases all@.len() - i,
    {
        let ghost w = char_views(all@)[i as int];
        proof {
            assert(w == all@[i as int]@);
            assert(char_views(all@).take(i + 1) =~= char_views(all@).take(i as int).push(w));
            char_views(all@).take(i as int).lemma_filter_push(w, pick);
        }
        if all[i].len() >= 3 {
            let ghost before = char_views(segments@);
            let copy = copy_chars(&all[i]);
            let n: usize = copy.len();
            keys.push(key_of_length(n));
            segments.push(copy);
            assert(char_views(segments@) =~= before.push(w));
        }
        i = i + 1;
    }
    assert(char_views(all@).take(i as int) =~= char_views(all@));
    if segments.len() == 0 {
        return None;
    }
    let order = stable_order(&keys);
    let n: usize = if segments.len() < MAX_SEGMENTS {
        segments.len()
    } else {
        MAX_SEGMENTS
    };
    let ghost views = char_views(segments@);
    let mut out = String::new();
    let mut k: usize = 0;
    assert(out@ =~= any_of(views, order@, 0));
    while k < n
        invariant
            k <= n <= segments@.len(),
            views == char_views(segments@),
            is_stable_order(length_keys(views), order@),
            out@ == any_of(views, order@, k as int),
        decreases n - k,
    {
        let ghost before = out@;
        if k > 0 {
            out.append(" OR ");
        }
        let at: usize = order[k];
        assert(views[at as int] == segments@[at as int]@);
        push_quoted(&mut out, &segments[at]);
        proof {
            if k == 0 {
                assert(out@ =~= quoted(views[at as int]));
            } else {
                assert(out@ =~= before + " OR "@ + quoted(views[at as int]));
            }
        }
        k = k + 1;
    }
    assert(views == segments_of(text@));
    Some(out)
}

fn copy_chars(v: &Vec<char>) -> (r: Vec<char>)
    ensures
        r@ == v@,
{
    let mut out: Vec<char> = Vec::new();
    let mut i: usize = 0;
    while i < v.len()
        invariant
            i <= v@.len(),
            out@ =~= v@.take(i as int),
        decreases v@.len() - i,
    {
        out.push(v[i]);
        i = i + 1;
    }
    out
}

/// Every word that is looked up stands in the text, has three characters or more,
/// and holds no white space.
pub proof fn segments_are_words(text: Seq<char>)
    ensures
        forall|i: int|
            0 <= i < segments_of(text).len() ==> words_of(text).contains(
                #[trigger] segments_of(text)[i],
            ) && segments_of(text)[i].len() >= 3 && no_white(segments_of(text)[i]),
{
    broadcast use vstd::seq_lib::group_filter_ensures;

    let s = segments_of(text);
    words_are_words(text);
    assert forall|i: int| 0 <= i < s.len() implies words_of(text).contains(#[trigger] s[i])
        && s[i].len() >= 3 && no_white(s[i]) by {
        assert(long_enough()(s[i]));
        words_of(text).lemma_filter_contains_rev(long_enough(), s[i]);
        let k = choose|k: int| 0 <= k < words_of(text).len() && words_of(text)[k] == s[i];
        assert(no_white(words_of(text)[k]));
    }
}

// ── Centre crop ─────────────────────────────────────────────────────────────

/// The edge that a share of an edge comes to: rounded to the nearest pixel, halves
/// up, and at least one.
pub open spec fn scaled_edge(edge: int, permille: int) -> int {
    let e = (2 * edge * permille + 1000) / 2000;
    if e < 1 {
        1
    } else {
        e
    }
}

/// A share of the image kept between a twentieth and all of it.
pub open spec fn clamp_share(permille: int) -> int {
    if permille < 50 {
        50
    } else if permille > 1000 {
        1000
    } else {
        permille
    }
}

/// Whether `out` is the centre of `img` that keeps the given share of each edge. A
/// share of nearly one, or an image without pixels, is kept whole.
pub open spec fn is_center(out: PixelImage, img: PixelImage, permille: int) -> bool {
    let p = clamp_share(permille);
    if p >= 999 || img.width == 0 || img.height == 0 {
        is_crop(out, img, 0, 0, img.width as int, img.height as int)
    } else {
        let w = scaled_edge(img.width as int, p);
        let h = scaled_edge(img.height as int, p);
        is_crop(out, img, (img.width - w) / 2, (img.height - h) / 2, w, h)
    }
}

fn scale_edge(edge: u32, permille: u32) -> (r: u32)
    requires
        edge >= 1,
        50 <= permille <= 998,
    ensures
        r == scaled_edge(edge as int, permille as int),
        1 <= r <= edge,
{
    let e: u64 = edge as u64;
    let p: u64 = permille as u64;
    assert(e * p <= e * 998) by (nonlinear_arith)
        requires
            p <= 998,
            e >= 0,
    ;
    assert(2 * e * p == 2 * (e * p)) by (nonlinear_arith);
    let s: u64 = (2 * (e * p) + 1000) / 2000;
    if s < 1 {
        1
    } else {
        s as u32
    }
}

/// The centre of an image, `permille` thousandths of it wide and high.
pub fn center_crop(img: &PixelImage, permille: u32) -> (r: PixelImage)
    requires
        img.wf(),
    ensures
        is_center(r, *img, permille as int),
{
    let p: u32 = if permille < 50 {
        50
    } else if permille > 1000 {
        1000
    } else {
        permille
    };
    if p >= 999 || img.width == 0 || img.height == 0 {
        return crop(img, 0, 0, img.width, img.height);
    }
    let w: u32 = scale_edge(img.width, p);
    let h: u32 = scale_edge(img.height, p);
    crop(img, (img.width - w) / 2, (img.height - h) / 2, w, h)
}

// ── Merging ─────────────────────────────────────────────────────────────────

/// The best match of each id: a later one counts where it is nearer.
pub open spec fn best_matches(matches: Seq<VectorMatch>) -> Map<u64, VectorMatch>
    decreases matches.len(),
{
    if matches.len() == 0 {
        Map::empty()
    } else {
        let best = best_matches(matches.drop_last());
        let m = matches.last();
        if best.contains_key(m.vector_id) && best[m.vector_id].distance.at_most(m.distance) {
            best
        } else {
            best.insert(m.vector_id, m)
        }
    }
}

/// Whether a list holds the entries of a map, each once.
pub open spec fn lists_map(list: Seq<VectorMatch>, map: Map<u64, VectorMatch>) -> bool {
    &&& forall|i: int|
        0 <= i < list.len() ==> map.contains_key((#[trigger] list[i]).vector_id)
            && map[list[i].vector_id] == list[i]
    &&& forall|id: u64| #[trigger] map.contains_key(id) ==> list.contains(map[id])
    &&& forall|i: int, j: int|
        0 <= i < j < list.len() ==> (#[trigger] list[i]).vector_id != (#[trigger] list[j]).vector_id
}

/// Merges the matches of all views of a query: of each id the nearest is kept.
pub fn merge_matches(matches: &Vec<VectorMatch>) -> (r: Vec<VectorMatch>)
    ensures
        lists_map(r@, best_matches(matches@)),
{
    broadcast use vstd::std_specs::hash::group_hash_axioms;

    let mut best: Vec<VectorMatch> = Vec::new();
    let mut at: HashMap<u64, usize> = HashMap::new();
    let mut i: usize = 0;
    assert(matches@.take(0) =~= Seq::empty());
    while i < matches.len()
        invariant
            i <= matches@.len(),
            forall|id: u64| #[trigger]
                at@.contains_key(id) <==> best_matches(matches@.take(i as int)).contains_key(id),
            forall|id: u64| #[trigger]
                at@.contains_key(id) ==> at@[id] < best@.len() && best@[at@[id] as int]
                    == best_matches(matches@.take(i as int))[id] && best@[at@[id] as int].vector_id
                    == id,
            forall|j: int|
                0 <= j < best@.len() ==> at@.contains_key((#[trigger] best@[j]).vector_id)
                    && at@[best@[j].vector_id] == j,
        decreases matches@.len() - i,
    {
        let m: VectorMatch = matches[i];
        assert(matches@.take(i + 1).drop_last() =~= matches@.take(i as int));
        match at.get(&m.vector_id) {
            Some(p) => {
                let k: usize = *p;
                assert(at@.contains_key(m.vector_id));
                if !best[k].distance.le(m.distance) {
                    best.set(k, m);
                }
            },
            None => {
                assert(!at@.contains_key(m.vector_id));
                let k: usize = best.len();
                best.push(m);
                at.insert(m.vector_id, k);
            },
        }
        i = i + 1;
    }
    assert(matches@.take(i as int) =~= matches@);
    proof {
        assert forall|id: u64| #[trigger] best_matches(matches@).contains_key(id) implies best@.contains(
            best_matches(matches@)[id],
        ) by {
            assert(at@.contains_key(id));
            assert(best@[at@[id] as int] == best_matches(matches@)[id]);
        }
    }
    best
}

/// Every id that was matched is kept, with a distance no greater than any that was
/// found for it.
pub proof fn nearest_match_is_kept(matches: Seq<VectorMatch>, i: int)
    requires
        0 <= i < matches.len(),
        forall|j: int| 0 <= j < matches.len() ==> !(#[trigger] matches[j]).distance.nan(),
    ensures
        best_matches(matches).contains_key(matches[i].vector_id),
        best_matches(matches)[matches[i].vector_id].distance.at_most(matches[i].distance),
    decreases matches.len(),
{
    let init = matches.drop_last();
    assert forall|j: int| 0 <= j < init.len() implies !(#[trigger] init[j]).distance.nan() by {
        assert(init[j] == matches[j]);
    }
    assert(!matches[matches.len() - 1].distance.nan());
    if i < matches.len() - 1 {
        assert(init[i] == matches[i]);
        nearest_match_is_kept(init, i);
    }
}

/// Nothing is kept that was not found.
pub proof fn kept_matches_were_found(matches: Seq<VectorMatch>, id: u64)
    requires
        best_matches(matches).contains_key(id),
    ensures
        matches.contains(best_matches(matches)[id]),
        best_matches(matches)[id].vector_id == id,
    decreases matches.len(),
{
    let init = matches.drop_last();
    let m = matches.last();
    assert(matches[matches.len() - 1] == m);
    if best_matches(init).contains_key(id) {
        kept_matches_were_found(init, id);
        let k = choose|k: int| 0 <= k < init.len() && init[k] == best_matches(init)[id];
        assert(matches[k] == init[k]);
    }
}

// ── Rebuilding the vector index ─────────────────────────────────────────────

/// Whether the vector index is to be rebuilt from the database: where it holds
/// less than half of the vectors stored.
pub fn needs_rebuild(stored: i64, in_graph: i64) -> (r: bool)
    requires
        0 <= in_graph <= 0x3fff_ffff_ffff_ffff,
    ensures
        r == (stored != 0 && in_graph * 2 < stored),
{
    !(stored == 0 || in_graph * 2 >= stored)
}

/// Whether every component of a vector is finite.
pub open spec fn all_finite(v: Seq<Float32>) -> bool {
    forall|i: int| 0 <= i < v.len() ==> (#[trigger] v[i]).finite()
}

/// Whether every component of a vector is finite. One that is not would spoil
/// every comparison of distances in the graph.
pub fn is_sound(v: &Vec<Float32>) -> (r: bool)
    ensures
        r == all_finite(v@),
{
    let mut i: usize = 0;
    while i < v.len()
        invariant
            i <= v@.len(),
            forall|j: int| 0 <= j < i ==> (#[trigger] v@[j]).finite(),
        decreases v@.len() - i,
    {
        if !v[i].is_finite() {
            return false;
        }
        i = i + 1;
    }
    true
}

/// A stored vector with the id of its row.
#[derive(Debug)]
pub struct StoredVector {
    pub row_id: i64,
    pub vector: Vec<Float32>,
}

/// Where a rebuild stands.
#[derive(Clone, Copy, PartialEq, Eq, Structural, Debug)]
pub struct Rebuild {
    /// Rows up to this id have been read.
    pub after_id: i64,
}

/// The sound vectors of a batch, in order.
pub open spec fn sound_rows(batch: Seq<StoredVector>) -> Seq<StoredVector> {
    batch.filter(|s: StoredVector| all_finite(s.vector@))
}

/// Whether what is inserted is what was stored.
pub open spec fn restores(inserted: Seq<(u64, Vec<Float32>)>, rows: Seq<StoredVector>) -> bool {
    &&& inserted.len() == rows.len()
    &&& forall|i: int|
        0 <= i < rows.len() ==> (#[trigger] inserted[i]).0 == as_unsigned(rows[i].row_id)
            && inserted[i].1@ == rows[i].vector@
}

impl Rebuild {
    /// A rebuild at its start.
    pub fn new() -> (r: Rebuild)
        ensures
            r == (Rebuild { after_id: 0 }),
    {
        Rebuild { after_id: 0 }
    }

    /// A batch has been read: what is to be inserted into the graph. `None` means
    /// that nothing is left; vectors that are not finite are left out.
    pub fn on_batch(&mut self, batch: &Vec<StoredVector>) -> (r: Option<Vec<(u64, Vec<Float32>)>>)
        ensures
            r is None <==> batch@.len() == 0,
            batch@.len() == 0 ==> *final(self) == *old(self),
            batch@.len() > 0 ==> final(self).after_id == batch@.last().row_id && restores(
                r->Some_0@,
                sound_rows(batch@),
            ),
    {
        if batch.len() == 0 {
            return None;
        }
        self.after_id = batch[batch.len() - 1].row_id;
        let ghost sound = |s: StoredVector| all_finite(s.vector@);
        let mut out: Vec<(u64, Vec<Float32>)> = Vec::new();
        let mut i: usize = 0;
        assert(batch@.take(0).filter(sound) =~= Seq::empty());
        while i < batch.len()
            invariant
                i <= batch@.len(),
                sound == (|s: StoredVector| all_finite(s.vector@)),
                restores(out@, batch@.take(i as int).filter(sound)),
            decreases batch@.len() - i,
        {
            proof {
                assert(batch@.take(i + 1) =~= batch@.take(i as int).push(batch@[i as int]));
                batch@.take(i as int).lemma_filter_push(batch@[i as int], sound);
            }
            if is_sound(&batch[i].vector) {
                out.push((to_unsigned(batch[i].row_id), copy_vector(&batch[i].vector)));
            }
            i = i + 1;
        }
        assert(batch@.take(i as int) =~= batch@);
        Some(out)
    }
}

/// Nothing that is not finite enters the graph in a rebuild.
pub proof fn rebuilt_vectors_are_finite(
    inserted: Seq<(u64, Vec<Float32>)>,
    batch: Seq<StoredVector>,
)
    requires
        restores(inserted, sound_rows(batch)),
    ensures
        forall|i: int| 0 <= i < inserted.len() ==> all_finite((#[trigger] inserted[i]).1@),
{
    broadcast use vstd::seq_lib::group_filter_ensures;

    let sound = |s: StoredVector| all_finite(s.vector@);
    assert forall|i: int| 0 <= i < inserted.len() implies all_finite((#[trigger] inserted[i]).1@) by {
        assert(sound(batch.filter(sound)[i]));
    }
}

// ── Response ────────────────────────────────────────────────────────────────

/// How long each stage of a search took, in milliseconds.
#[derive(Clone, Copy, PartialEq, Eq, Structural, Debug)]
pub struct SearchTiming {
    pub encode_ms: u64,
    /// What reading the query took longer than encoding it, beside which it runs.
    pub ocr_ms: u64,
    pub ann_ms: u64,
    /// Hashing the query and searching the table of hashes.
    pub phash_ms: u64,
    pub rank_ms: u64,
}

impl Default for SearchTiming {
    fn default() -> (r: Self)
        ensures
            r == (SearchTiming { encode_ms: 0, ocr_ms: 0, ann_ms: 0, phash_ms: 0, rank_ms: 0 }),
    {
        SearchTiming { encode_ms: 0, ocr_ms: 0, ann_ms: 0, phash_ms: 0, rank_ms: 0 }
    }
}

impl SearchTiming {
    /// The times of the stages: `encoded_at` and `read_at` are counted from the
    /// start of the search, the others are durations.
    pub fn measured(
        encoded_at: u64,
        read_at: u64,
        hash_ms: u64,
        ann_ms: u64,
        scan_ms: u64,
        rank_ms: u64,
    ) -> (r: SearchTiming)
        requires
            hash_ms + scan_ms <= u64::MAX,
        ensures
            r == (SearchTiming {
                encode_ms: encoded_at,
                ocr_ms: if read_at >= encoded_at {
                    (read_at - encoded_at) as u64
                } else {
                    0
                },
                ann_ms,
                phash_ms: (hash_ms + scan_ms) as u64,
                rank_ms,
            }),
    {
        SearchTiming {
            encode_ms: encoded_at,
            ocr_ms: read_at.saturating_sub(encoded_at),
            ann_ms,
            phash_ms: hash_ms + scan_ms,
            rank_ms,
        }
    }
}

/// What a search gives.
#[derive(Debug)]
pub struct SearchResponse {
    pub results: Vec<SearchResult>,
    pub search_time_ms: u64,
    pub timing: SearchTiming,
}

// ── Laws of the full-text expression ────────────────────────────────────────

/// A word with every quotation mark written twice, read from its beginning.
pub open spec fn doubled(w: Seq<char>) -> Seq<char>
    decreases w.len(),
{
    if w.len() == 0 {
        Seq::empty()
    } else if w[0] == '"' {
        seq!['"', '"'] + doubled(w.skip(1))
    } else {
        seq![w[0]] + doubled(w.skip(1))
    }
}

/// Some words as an expression that any of them matches: each between quotation marks,
/// with `OR` between them.
pub open spec fn expression(words: Seq<Seq<char>>) -> Seq<char>
    decreases words.len(),
{
    if words.len() == 0 {
        Seq::empty()
    } else if words.len() == 1 {
        seq!['"'] + doubled(words[0]) + seq!['"']
    } else {
        seq!['"'] + doubled(words[0]) + seq!['"'] + seq![' ', 'O', 'R', ' '] + expression(
            words.skip(1),
        )
    }
}

proof fn lemma_doubled(w: Seq<char>)
    ensures
        doubled(w) == escaped(w),
    decreases w.len(),
{
    if w.len() > 0 {
        let t = w.drop_last();
        lemma_doubled(t);
        lemma_doubled_push(t, w.last());
        assert(t.push(w.last()) =~= w);
    }
}

proof fn lemma_doubled_push(w: Seq<char>, c: char)
    ensures
        doubled(w.push(c)) == if c == '"' {
            doubled(w).push('"').push('"')
        } else {
            doubled(w).push(c)
        },
    decreases w.len(),
{
    reveal_with_fuel(doubled, 3);
    let x = w.push(c);
    if w.len() == 0 {
        assert(x.skip(1) =~= Seq::empty());
        assert(doubled(x) =~= if c == '"' {
            seq!['"', '"']
        } else {
            seq![c]
        });
    } else {
        lemma_doubled_push(w.skip(1), c);
        assert(x.skip(1) =~= w.skip(1).push(c));
        assert(doubled(x) =~= if c == '"' {
            doubled(w).push('"').push('"')
        } else {
            doubled(w).push(c)
        });
    }
}

proof fn lemma_expression_push(list: Seq<Seq<char>>, w: Seq<char>)
    requires
        list.len() > 0,
    ensures
        expression(list.push(w)) == expression(list) + seq![' ', 'O', 'R', ' '] + (seq!['"']
            + doubled(w) + seq!['"']),
    decreases list.len(),
{
    let x = list.push(w);
    reveal_with_fuel(expression, 3);
    if list.len() == 1 {
        assert(x.skip(1) =~= seq![w]);
        assert(expression(x) =~= expression(list) + seq![' ', 'O', 'R', ' '] + (seq!['"'] + doubled(
            w,
        ) + seq!['"']));
    } else {
        lemma_expression_push(list.skip(1), w);
        assert(x.skip(1) =~= list.skip(1).push(w));
        assert(expression(x) =~= expression(list) + seq![' ', 'O', 'R', ' '] + (seq!['"'] + doubled(
            w,
        ) + seq!['"']));
    }
}

proof fn lemma_any_of(segments: Seq<Seq<char>>, order: Seq<usize>, n: int)
    requires
        0 <= n <= order.len(),
    ensures
        any_of(segments, order, n) == expression(
            Seq::new(n as nat, |i: int| segments[order[i] as int]),
        ),
    decreases n,
{
    reveal_strlit(" OR ");
    let list = Seq::new(n as nat, |i: int| segments[order[i] as int]);
    if n == 1 {
        lemma_doubled(segments[order[0] as int]);
        assert(list[0] == segments[order[0] as int]);
    } else if n > 1 {
        lemma_any_of(segments, order, n - 1);
        let init = Seq::new((n - 1) as nat, |i: int| segments[order[i] as int]);
        let w = segments[order[n - 1] as int];
        lemma_doubled(w);
        assert(list =~= init.push(w));
        lemma_expression_push(init, w);
        assert(" OR "@ =~= seq![' ', 'O', 'R', ' ']);
    }
}

/// The positions of the words that can be looked up.
spec fn usable(words: Seq<Seq<char>>) -> Seq<int>
    decreases words.len(),
{
    if words.len() == 0 {
        Seq::empty()
    } else if words.last().len() >= 3 {
        usable(words.drop_last()).push(words.len() - 1)
    } else {
        usable(words.drop_last())
    }
}

proof fn lemma_usable(words: Seq<Seq<char>>)
    ensures
        ({
            let at = usable(words);
            let picked = words.filter(long_enough());
            &&& at.len() == picked.len()
            &&& forall|i: int|
                0 <= i < at.len() ==> 0 <= #[trigger] at[i] < words.len() && words[at[i]].len() >= 3
                    && picked[i] == words[at[i]]
            &&& forall|i: int, j: int| 0 <= i < j < at.len() ==> #[trigger] at[i] < #[trigger] at[j]
            &&& forall|k: int|
                0 <= k < words.len() && (#[trigger] words[k]).len() >= 3 ==> at.contains(k)
        }),
    decreases words.len(),
{
    reveal(Seq::filter);
    if words.len() > 0 {
        let init = words.drop_last();
        lemma_usable(init);
        let at0 = usable(init);
        let at = usable(words);
        assert forall|k: int| 0 <= k < words.len() && (#[trigger] words[k]).len() >= 3 implies at.contains(
            k,
        ) by {
            if k < words.len() - 1 {
                assert(init[k] == words[k]);
                assert(at0.contains(k));
                let i = choose|i: int| 0 <= i < at0.len() && at0[i] == k;
                assert(at[i] == k);
            } else {
                assert(at[at.len() - 1] == k);
            }
        }
    }
}

/// Whether `q` looks up the words of a text at the positions `at`: longest first, and
/// words of one length in the order of the text.
pub open spec fn looks_up(q: Seq<char>, words: Seq<Seq<char>>, at: Seq<int>) -> bool {
    &&& forall|i: int|
        0 <= i < at.len() ==> 0 <= #[trigger] at[i] < words.len() && words[at[i]].len() >= 3
    &&& forall|i: int, j: int|
        0 <= i < j < at.len() ==> {
            let (a, b) = (words[#[trigger] at[i]].len(), words[#[trigger] at[j]].len());
            a > b || a == b && at[i] < at[j]
        }
    &&& q == expression(Seq::new(at.len(), |i: int| words[at[i]]))
}

/// Of all words of a text with three characters or more, the sixteen longest are looked
/// up: all of them where there are no more, and otherwise none is left out that is
/// longer than one that is looked up. `at` gives their positions among the words of the
/// text.
pub proof fn longest_words_are_looked_up(text: &str, r: Option<String>) -> (at: Seq<int>)
    requires
        text@.len() <= i64::MAX,
        call_ensures(build_fts_query, (text,), r),
    ensures
        r is None <==> forall|k: int|
            0 <= k < words_of(text@).len() ==> (#[trigger] words_of(text@)[k]).len() < 3,
        r is Some ==> {
            let words = words_of(text@);
            &&& looks_up(r->Some_0@, words, at)
            &&& 1 <= at.len() <= 16
            &&& forall|k: int|
                0 <= k < words.len() && (#[trigger] words[k]).len() >= 3 && !at.contains(k)
                    ==> at.len() == 16 && forall|i: int|
                    0 <= i < at.len() ==> words[k].len() <= words[#[trigger] at[i]].len()
        },
{
    let words = words_of(text@);
    lemma_usable(words);
    let pos = usable(words);
    let segments = segments_of(text@);
    let stand = crate::text::lemma_words_stand(text@);
    assert forall|k: int| 0 <= k < words.len() implies (#[trigger] words[k]).len() <= i64::MAX by {
        assert(stand[k] + words[k].len() <= text@.len());
    }
    match r {
        None => {
            assert forall|k: int| 0 <= k < words.len() implies (#[trigger] words[k]).len() < 3 by {
                if words[k].len() >= 3 {
                    assert(pos.contains(k));
                }
            }
            Seq::empty()
        },
        Some(q) => {
            assert(words[pos[0]].len() >= 3);
            let n: int = if segments.len() < MAX_SEGMENTS {
                segments.len() as int
            } else {
                MAX_SEGMENTS as int
            };
            let keys = length_keys(segments);
            let order = choose|order: Seq<usize>|
                #[trigger] is_stable_order(keys, order) && q@ == any_of(segments, order, n);
            lemma_any_of(segments, order, n);
            let at = Seq::new(n as nat, |i: int| pos[order[i] as int]);
            assert(Seq::new(at.len(), |i: int| words[at[i]]) =~= Seq::new(
                n as nat,
                |i: int| segments[order[i] as int],
            ));
            assert forall|i: int| 0 <= i < at.len() implies 0 <= #[trigger] at[i] < words.len()
                && words[at[i]].len() >= 3 by {
                assert(order[i] < keys.len());
                assert(at[i] == pos[order[i] as int]);
            }
            assert forall|i: int, j: int| 0 <= i < j < at.len() implies {
                let (a, b) = (words[#[trigger] at[i]].len(), words[#[trigger] at[j]].len());
                a > b || a == b && at[i] < at[j]
            } by {
                assert(crate::order::precedes(keys, order[i] as int, order[j] as int));
                assert(order[i] < keys.len() && order[j] < keys.len());
                assert(at[i] == pos[order[i] as int] && at[j] == pos[order[j] as int]);
                assert(segments[order[i] as int] == words[at[i]]);
                assert(segments[order[j] as int] == words[at[j]]);
                if order[i] < order[j] {
                    assert(pos[order[i] as int] < pos[order[j] as int]);
                }
            }
            assert forall|k: int|
                0 <= k < words.len() && (#[trigger] words[k]).len() >= 3 && !at.contains(
                    k,
                ) implies at.len() == 16 && forall|i: int|
                0 <= i < at.len() ==> words[k].len() <= words[#[trigger] at[i]].len() by {
                assert(pos.contains(k));
                let m = choose|m: int| 0 <= m < pos.len() && pos[m] == k;
                assert(crate::order::lists(order, m));
                let p = choose|p: int| 0 <= p < order.len() && #[trigger] order[p] == m;
                if p < n {
                    assert(at[p] == k);
                }
                assert forall|i: int| 0 <= i < at.len() implies words[k].len()
                    <= words[#[trigger] at[i]].len() by {
                    assert(crate::order::precedes(keys, order[i] as int, order[p] as int));
                    assert(order[i] < keys.len());
                    assert(at[i] == pos[order[i] as int]);
                    assert(segments[order[i] as int] == words[at[i]]);
                    assert(segments[m] == words[k]);
                }
            }
            at
        },
    }
}

/// A text is looked up exactly where four characters or more are left of it between the
/// white space at its ends, and one of its words has three or more; and then as
/// [`build_fts_query`] says.
pub proof fn readable_texts_are_looked_up(text: &str, r: Option<String>) -> (cut: (int, int))
    requires
        call_ensures(text_lookup, (text,), r),
    ensures
        0 <= cut.0 <= cut.1 <= text@.len(),
        forall|i: int|
            0 <= i < cut.0 || cut.1 <= i < text@.len() ==> crate::text::is_white(
                #[trigger] text@[i],
            ),
        cut.0 < cut.1 ==> !crate::text::is_white(text@[cut.0]) && !crate::text::is_white(
            text@[cut.1 - 1],
        ),
        cut.1 - cut.0 < 4 ==> r is None,
        cut.1 - cut.0 >= 4 ==> (r is None <==> forall|k: int|
            0 <= k < words_of(text@).len() ==> (#[trigger] words_of(text@)[k]).len() < 3),
        r is Some ==> is_fts_query(r->Some_0@, text@),
{
    lemma_usable(words_of(text@));
    let words = words_of(text@);
    let pos = usable(words);
    if segments_of(text@).len() == 0 {
        assert forall|k: int| 0 <= k < words.len() implies (#[trigger] words[k]).len() < 3 by {
            if words[k].len() >= 3 {
                assert(pos.contains(k));
            }
        }
    } else {
        assert(words[pos[0]].len() >= 3);
    }
    crate::text::lemma_trimmed(text@)
}

// ── Laws of the other steps ─────────────────────────────────────────────────

/// Merging keeps of every id that was matched one match, the nearest, and nothing that
/// was not matched.
pub proof fn merging_keeps_the_nearest(matches: &Vec<VectorMatch>, r: Vec<VectorMatch>)
    requires
        call_ensures(merge_matches, (matches,), r),
        forall|j: int| 0 <= j < matches@.len() ==> !(#[trigger] matches@[j]).distance.nan(),
    ensures
        forall|i: int| 0 <= i < r@.len() ==> matches@.contains(#[trigger] r@[i]),
        forall|i: int, j: int|
            0 <= i < j < r@.len() ==> (#[trigger] r@[i]).vector_id != (#[trigger] r@[j]).vector_id,
        forall|k: int|
            0 <= k < matches@.len() ==> exists|i: int|
                0 <= i < r@.len() && (#[trigger] r@[i]).vector_id == (
                #[trigger] matches@[k]).vector_id && !matches@[k].distance.less(r@[i].distance),
{
    let best = best_matches(matches@);
    assert forall|i: int| 0 <= i < r@.len() implies matches@.contains(#[trigger] r@[i]) by {
        kept_matches_were_found(matches@, r@[i].vector_id);
    }
    assert forall|k: int| 0 <= k < matches@.len() implies exists|i: int|
        0 <= i < r@.len() && (#[trigger] r@[i]).vector_id == (#[trigger] matches@[k]).vector_id
            && !matches@[k].distance.less(r@[i].distance) by {
        let id = matches@[k].vector_id;
        nearest_match_is_kept(matches@, k);
        kept_matches_were_found(matches@, id);
        assert(r@.contains(best[id]));
        let i = choose|i: int| 0 <= i < r@.len() && r@[i] == best[id];
        assert(r@[i].vector_id == id);
    }
}

/// The centre of an image is as large a share of it as was asked for, to the nearest
/// pixel and at least one, lies in the middle, to the nearest pixel, and shows what the
/// image shows there.
pub proof fn centres_lie_in_the_middle(img: &PixelImage, permille: u32, r: PixelImage) -> (at: (
    int,
    int,
))
    requires
        img.data@.len() == img.height * (img.width * 4),
        call_ensures(center_crop, (img, permille), r),
        img.width > 0,
        img.height > 0,
        50 <= permille <= 1000,
    ensures
        crate::embedder::pixels::shows_from(r, *img, at.0, at.1),
        permille >= 999 ==> r.width == img.width && r.height == img.height,
        permille < 999 ==> {
            &&& r.width >= 1 && r.height >= 1
            &&& r.width == 1 || -500 <= 1000 * r.width - img.width * permille <= 500
            &&& r.height == 1 || -500 <= 1000 * r.height - img.height * permille <= 500
            &&& 0 <= (img.width - r.width) - 2 * at.0 <= 1
            &&& 0 <= (img.height - r.height) - 2 * at.1 <= 1
        },
{
    let (w0, h0, p) = (img.width as int, img.height as int, permille as int);
    if p >= 999 {
        crate::embedder::pixels::lemma_crop_shows(r, *img, 0, 0, w0, h0);
        (0, 0)
    } else {
        let w = scaled_edge(w0, p);
        let h = scaled_edge(h0, p);
        lemma_scaled_edge(w0, p);
        lemma_scaled_edge(h0, p);
        crate::embedder::pixels::lemma_crop_shows(r, *img, (w0 - w) / 2, (h0 - h) / 2, w, h);
        ((w0 - w) / 2, (h0 - h) / 2)
    }
}

proof fn lemma_scaled_edge(edge: int, p: int)
    requires
        edge >= 1,
        50 <= p < 999,
    ensures
        1 <= scaled_edge(edge, p) <= edge,
        scaled_edge(edge, p) == 1 || -500 <= 1000 * scaled_edge(edge, p) - edge * p <= 500,
{
    let e = edge * p;
    assert(2 * edge * p == 2 * e) by (nonlinear_arith)
        requires
            e == edge * p,
    ;
    assert(e <= 998 * edge) by (nonlinear_arith)
        requires
            e == edge * p,
            p <= 998,
            edge >= 1,
    ;
    assert(e >= 50) by (nonlinear_arith)
        requires
            e == edge * p,
            p >= 50,
            edge >= 1,
    ;
}

/// A query is looked at as a whole, pixel by pixel, and where wanted a second time, in
/// its middle seven tenths.
pub proof fn queries_are_seen_as_a_whole_and_closer(
    img: &PixelImage,
    center: bool,
    r: Vec<PixelImage>,
) -> (at: (int, int))
    requires
        img.data@.len() == img.height * (img.width * 4),
        call_ensures(query_views, (img, center), r),
        img.width > 0,
        img.height > 0,
    ensures
        r@.len() == if center {
            2int
        } else {
            1
        },
        r@[0].width == img.width,
        r@[0].height == img.height,
        crate::embedder::pixels::shows_from(r@[0], *img, 0, 0),
        center ==> {
            &&& crate::embedder::pixels::shows_from(r@[1], *img, at.0, at.1)
            &&& r@[1].width == 1 || -5 <= 10 * r@[1].width - 7 * img.width <= 5
            &&& r@[1].height == 1 || -5 <= 10 * r@[1].height - 7 * img.height <= 5
            &&& 0 <= (img.width - r@[1].width) - 2 * at.0 <= 1
            &&& 0 <= (img.height - r@[1].height) - 2 * at.1 <= 1
        },
{
    let (w0, h0) = (img.width as int, img.height as int);
    crate::embedder::pixels::lemma_crop_shows(r@[0], *img, 0, 0, w0, h0);
    let w = scaled_edge(w0, 700);
    let h = scaled_edge(h0, 700);
    lemma_scaled_edge(w0, 700);
    lemma_scaled_edge(h0, 700);
    if center {
        crate::embedder::pixels::lemma_crop_shows(r@[1], *img, (w0 - w) / 2, (h0 - h) / 2, w, h);
    }
    ((w0 - w) / 2, (h0 - h) / 2)
}

/// A search for `n` pages asks for twenty-five times as many regions, and for at least
/// five hundred; the number of pages wanted is the one asked for, or else the usual one.
pub proof fn searches_ask_for_enough(
    top_k: Option<usize>,
    default_top_k: usize,
    center: bool,
    r: SearchPlan,
)
    requires
        call_ensures(plan_search, (top_k, default_top_k, center), r),
    ensures
        top_k is Some ==> r.top_k == top_k->Some_0,
        top_k is None ==> r.top_k == default_top_k,
        r.search_k >= 500,
        r.search_k >= 25 * r.top_k,
        r.search_k == 500 || r.search_k == 25 * r.top_k,
        center ==> r.query_vectors == 2,
        !center ==> r.query_vectors == 1,
{
}

/// The index is rebuilt exactly where it holds less than half of the vectors stored.
pub proof fn lagging_indexes_are_rebuilt(stored: i64, in_graph: i64, r: bool)
    requires
        0 <= stored,
        0 <= in_graph,
        call_ensures(needs_rebuild, (stored, in_graph), r),
    ensures
        r <==> 2 * in_graph < stored,
        stored > 0 && in_graph == 0 ==> r,
        in_graph >= stored && in_graph >= 0 ==> !r,
{
}

/// A batch of stored vectors goes into the graph as it is, each under the id of its row,
/// but for those with a component that is not finite; and the rebuild goes on behind its
/// last row. `at` gives which rows go in.
pub proof fn stored_vectors_are_restored(
    rebuild: &mut Rebuild,
    batch: &Vec<StoredVector>,
    r: Option<Vec<(u64, Vec<Float32>)>>,
) -> (at: Seq<int>)
    requires
        call_ensures(Rebuild::on_batch, (rebuild, batch), r),
    ensures
        r is None <==> batch@.len() == 0,
        r is Some ==> {
            let put = r->Some_0@;
            &&& final(rebuild).after_id == batch@[batch@.len() - 1].row_id
            &&& at.len() == put.len()
            &&& forall|i: int|
                0 <= i < at.len() ==> {
                    &&& 0 <= #[trigger] at[i] < batch@.len()
                    &&& put[i].0 == as_unsigned(batch@[at[i]].row_id)
                    &&& put[i].1@ == batch@[at[i]].vector@
                }
            &&& forall|i: int, j: int| 0 <= i < j < at.len() ==> #[trigger] at[i] < #[trigger] at[j]
            &&& forall|k: int|
                0 <= k < batch@.len() ==> (#[trigger] at.contains(k) <==> forall|c: int|
                    0 <= c < batch@[k].vector@.len() ==> (#[trigger] batch@[k].vector@[c]).finite())
        },
{
    let sound = |s: StoredVector| all_finite(s.vector@);
    let at = crate::order::filter_places(batch@, sound);
    if r is Some {
        let put = r->Some_0@;
        let rows = sound_rows(batch@);
        assert(rows == batch@.filter(sound));
        assert forall|i: int| 0 <= i < at.len() implies {
            &&& 0 <= #[trigger] at[i] < batch@.len()
            &&& put[i].0 == as_unsigned(batch@[at[i]].row_id)
            &&& put[i].1@ == batch@[at[i]].vector@
        } by {
            assert(rows[i] == batch@[at[i]]);
        }
        assert forall|k: int| 0 <= k < batch@.len() implies (#[trigger] at.contains(k)
            <==> forall|c: int|
            0 <= c < batch@[k].vector@.len() ==> (#[trigger] batch@[k].vector@[c]).finite()) by {
            if at.contains(k) {
                let i = choose|i: int| 0 <= i < at.len() && at[i] == k;
                assert(sound(batch@[at[i]]));
            }
            if forall|c: int|
                0 <= c < batch@[k].vector@.len() ==> (#[trigger] batch@[k].vector@[c]).finite() {
                assert(sound(batch@[k]));
            }
        }
    }
    at
}

/// What was read of the query is its text; a query that could not be read has none.
pub proof fn only_what_was_read_is_text(outcome: OcrOutcome, r: String)
    requires
        call_ensures(query_text, (outcome,), r),
    ensures
        outcome is Text ==> r@ == outcome->Text_0@,
        !(outcome is Text) ==> r@.len() == 0,
{
}

/// A vector can be stored where no component has all bits of the exponent set.
pub proof fn sound_vectors_are_finite(v: &Vec<Float32>, r: bool)
    requires
        call_ensures(is_sound, (v,), r),
    ensures
        r <==> forall|i: int|
            0 <= i < v@.len() ==> (#[trigger] v@[i]).bits < 0x7f80_0000 || 0x8000_0000 <= v@[i].bits
                < 0xff80_0000,
{
    if r {
        assert forall|i: int| 0 <= i < v@.len() implies (#[trigger] v@[i]).bits < 0x7f80_0000
            || 0x8000_0000 <= v@[i].bits < 0xff80_0000 by {
            assert(v@[i].finite());
        }
    }
    if forall|i: int|
        0 <= i < v@.len() ==> (#[trigger] v@[i]).bits < 0x7f80_0000 || 0x8000_0000 <= v@[i].bits
            < 0xff80_0000 {
        assert forall|i: int| 0 <= i < v@.len() implies (#[trigger] v@[i]).finite() by {
        }
    }
}

proof fn lemma_kept(matches: Seq<VectorMatch>, k: int)
    requires
        0 <= k < matches.len(),
    ensures
        best_matches(matches).contains_key(matches[k].vector_id),
    decreases matches.len(),
{
    if k < matches.len() - 1 {
        let init = matches.drop_last();
        lemma_kept(init, k);
        assert(init[k] == matches[k]);
    }
}

/// Whatever the distances are, merging loses no vector, repeats none and makes none up.
pub proof fn merging_keeps_every_vector(matches: &Vec<VectorMatch>, r: Vec<VectorMatch>, k: int)
    requires
        call_ensures(merge_matches, (matches,), r),
    ensures
        forall|i: int| 0 <= i < r@.len() ==> matches@.contains(#[trigger] r@[i]),
        forall|i: int, j: int|
            0 <= i < j < r@.len() ==> (#[trigger] r@[i]).vector_id != (#[trigger] r@[j]).vector_id,
        0 <= k < matches@.len() ==> exists|i: int|
            0 <= i < r@.len() && (#[trigger] r@[i]).vector_id == matches@[k].vector_id,
{
    let best = best_matches(matches@);
    assert forall|i: int| 0 <= i < r@.len() implies matches@.contains(#[trigger] r@[i]) by {
        kept_matches_were_found(matches@, r@[i].vector_id);
    }
    if 0 <= k < matches@.len() {
        let id = matches@[k].vector_id;
        lemma_kept(matches@, k);
        kept_matches_were_found(matches@, id);
        assert(r@.contains(best[id]));
        let i = choose|i: int| 0 <= i < r@.len() && r@[i] == best[id];
        assert(r@[i].vector_id == id);
    }
}

/// A rebuild that is given nothing more stays where it is.
pub proof fn a_rebuild_ends_with_the_rows(
    rebuild: &mut Rebuild,
    batch: &Vec<StoredVector>,
    r: Option<Vec<(u64, Vec<Float32>)>>,
)
    requires
        call_ensures(Rebuild::on_batch, (rebuild, batch), r),
        batch@.len() == 0,
    ensures
        r is None,
        final(rebuild).after_id == old(rebuild).after_id,
{
}

} // verus!
