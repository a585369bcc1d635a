//! Candidate pages by perceptual hash, from the hashes of whole pages.

use crate::search::phash_store::{
    are_nearest, closest, is_closest, lemma_nearest, match_entry, near_entries, PhashCandidate,
};
use vstd::prelude::*;

verus! {

/// The most candidate pages that are handed on.
pub const MAX_PHASH_CANDIDATES: usize = 5_000;

/// A page whose hash is near that of the query.
#[derive(Clone, Copy, PartialEq, Eq, Structural, Debug)]
pub struct PHashCandidate {
    /// `pages.id`.
    pub page_id: i64,
    /// The number of bits that differ, at most 64.
    pub distance: u32,
}

/// Candidate pages as candidates by id.
pub open spec fn by_id(pages: Seq<PHashCandidate>) -> Seq<PhashCandidate> {
    pages.map_values(
        |p: PHashCandidate| PhashCandidate { region_id: p.page_id, distance: p.distance },
    )
}

/// The pages within `max_distance` bits of `query_hash`, nearest first, and no
/// more than [`MAX_PHASH_CANDIDATES`] of them.
pub fn find_candidates(all: &Vec<(i64, u64)>, query_hash: u64, max_distance: u32) -> (r: Vec<
    PHashCandidate,
>)
    ensures
        is_closest(
            by_id(r@),
            near_entries(all@, query_hash, max_distance),
            MAX_PHASH_CANDIDATES as nat,
        ),
{
    let mut found: Vec<PhashCandidate> = Vec::new();
    let mut i: usize = 0;
    assert(all@.take(0) =~= Seq::empty());
    while i < all.len()
        invariant
            i <= all@.len(),
            found@ == near_entries(all@.take(i as int), query_hash, max_distance),
        decreases all@.len() - i,
    {
        assert(all@.take(i + 1).drop_last() =~= all@.take(i as int));
        if let Some(c) = match_entry(query_hash, max_distance, &all[i]) {
            found.push(c);
        }
        i = i + 1;
    }
    assert(all@.take(i as int) =~= all@);
    let best = closest(&found, MAX_PHASH_CANDIDATES);
    let mut out: Vec<PHashCandidate> = Vec::new();
    let mut k: usize = 0;
    while k < best.len()
        invariant
            k <= best@.len(),
            by_id(out@) =~= best@.take(k as int),
        decreases best@.len() - k,
    {
        let ghost before = by_id(out@);
        out.push(PHashCandidate { page_id: best[k].region_id, distance: best[k].distance });
        assert(by_id(out@) =~= before.push(best@[k as int]));
        k = k + 1;
    }
    assert(best@.take(k as int) =~= best@);
    out
}

/// A search gives the five thousand pages nearest to the hash of the query, of those
/// within the distance asked for.
pub proof fn nearest_pages_are_found(
    all: &Vec<(i64, u64)>,
    query_hash: u64,
    max_distance: u32,
    r: Vec<PHashCandidate>,
) -> (at: Seq<int>)
    requires
        call_ensures(find_candidates, (all, query_hash, max_distance), r),
    ensures
        are_nearest(
            Seq::new(
                r@.len(),
                |i: int| PhashCandidate { region_id: r@[i].page_id, distance: r@[i].distance },
            ),
            all@,
            query_hash,
            max_distance,
            5_000,
            at,
        ),
{
    assert(by_id(r@) =~= Seq::new(
        r@.len(),
        |i: int| PhashCandidate { region_id: r@[i].page_id, distance: r@[i].distance },
    ));
    lemma_nearest(by_id(r@), all@, query_hash, max_distance, 5_000)
}

} // verus!
