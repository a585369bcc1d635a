//! The table of perceptual hashes that is held in memory, and the search in it.

use crate::embedder::phash::{distance, hamming_distance};
use crate::order::{is_stable_order, stable_order};
use rayon::iter::{IntoParallelRefIterator, ParallelIterator};
use std::collections::HashSet;
use vstd::prelude::*;

verus! {

/// A region whose hash is near that of the query.
#[derive(Clone, Copy, PartialEq, Eq, Structural, Debug)]
pub struct PhashCandidate {
    /// `regions.id`.
    pub region_id: i64,
    /// The number of bits that differ, at most 64.
    pub distance: u32,
}

/// The most candidates that are handed on. Blank pages and colour charts are near
/// to tens of thousands of regions that have nothing to do with them.
pub const MAX_CANDIDATES: usize = 2_000;

/// The candidate that an entry gives, if it is near enough.
pub open spec fn near(query: u64, max_distance: u32, entry: (i64, u64)) -> Option<PhashCandidate> {
    if distance(query, entry.1) <= max_distance {
        Some(PhashCandidate { region_id: entry.0, distance: distance(query, entry.1) as u32 })
    } else {
        None
    }
}

/// The candidates among the entries, in the order of the entries.
pub open spec fn near_entries(entries: Seq<(i64, u64)>, query: u64, max_distance: u32) -> Seq<
    PhashCandidate,
>
    decreases entries.len(),
{
    if entries.len() == 0 {
        Seq::empty()
    } else {
        let before = near_entries(entries.drop_last(), query, max_distance);
        match near(query, max_distance, entries.last()) {
            Some(c) => before.push(c),
            None => before,
        }
    }
}

/// The distances of some candidates.
pub open spec fn distances(found: Seq<PhashCandidate>) -> Seq<i64> {
    found.map_values(|c: PhashCandidate| c.distance as i64)
}

/// Whether `r` is `found` by ascending distance, candidates of equal distance in
/// the order found, cut off after `cap`.
pub open spec fn is_closest(r: Seq<PhashCandidate>, found: Seq<PhashCandidate>, cap: nat) -> bool {
    exists|order: Seq<usize>|
        {
            &&& #[trigger] is_stable_order(distances(found), order)
            &&& r.len() == if found.len() < cap {
                found.len()
            } else {
                cap
            }
            &&& forall|i: int| 0 <= i < r.len() ==> #[trigger] r[i] == found[order[i] as int]
        }
}

/// The candidate that an entry gives, if it is near enough.
pub fn match_entry(query: u64, max_distance: u32, entry: &(i64, u64)) -> (r: Option<PhashCandidate>)
    ensures
        r == near(query, max_distance, *entry),
{
    let d: u32 = hamming_distance(query, entry.1);
    if d <= max_distance {
        Some(PhashCandidate { region_id: entry.0, distance: d })
    } else {
        None
    }
}

/// `rayon`'s `par_iter`, `filter_map` and `collect` on a vector: the entries are
/// looked at in parallel, and what [`match_entry`] gives for them is collected in
/// their order.
#[verifier::external_body]
fn scan(entries: &Vec<(i64, u64)>, query: u64, max_distance: u32) -> (r: Vec<PhashCandidate>)
    ensures
        r@ == near_entries(entries@, query, max_distance),
{
    entries.par_iter().filter_map(|e| match_entry(query, max_distance, e)).collect()
}

/// Orders candidates by distance and cuts them off after `cap`.
pub fn closest(found: &Vec<PhashCandidate>, cap: usize) -> (r: Vec<PhashCandidate>)
    ensures
        is_closest(r@, found@, cap as nat),
{
    let mut keys: Vec<i64> = Vec::new();
    let mut i: usize = 0;
    while i < found.len()
        invariant
            i <= found@.len(),
            keys@ =~= distances(found@.take(i as int)),
        decreases found@.len() - i,
    {
        keys.push(found[i].distance as i64);
        i = i + 1;
    }
    assert(found@.take(i as int) =~= found@);
    let order = stable_order(&keys);
    let n: usize = if found.len() < cap {
        found.len()
    } else {
        cap
    };
    let mut out: Vec<PhashCandidate> = Vec::new();
    let mut k: usize = 0;
    while k < n
        invariant
            k <= n <= found@.len(),
            is_stable_order(distances(found@), order@),
            out@.len() == k,
            forall|j: int| 0 <= j < k ==> #[trigger] out@[j] == found@[order@[j] as int],
        decreases n - k,
    {
        out.push(found[order[k]]);
        k = k + 1;
    }
    out
}

/// Picks the entries whose ids are not among `ids`.
pub open spec fn outside(ids: Seq<i64>) -> spec_fn((i64, u64)) -> bool {
    |e: (i64, u64)| !ids.contains(e.0)
}

/// The hashes of all regions.
#[derive(Debug)]
pub struct PhashStore {
    entries: Vec<(i64, u64)>,
}

impl Default for PhashStore {
    fn default() -> (r: Self)
        ensures
            r@ == Seq::<(i64, u64)>::empty(),
    {
        PhashStore { entries: Vec::new() }
    }
}

impl View for PhashStore {
    type V = Seq<(i64, u64)>;

    /// The region ids with their hashes.
    closed spec fn view(&self) -> Seq<(i64, u64)> {
        self.entries@
    }
}

impl PhashStore {
    /// An empty table.
    pub fn new() -> (r: PhashStore)
        ensures
            r@ == Seq::<(i64, u64)>::empty(),
    {
        PhashStore::default()
    }

    /// Takes `entries` in place of what the table holds.
    pub fn replace_all(&mut self, entries: Vec<(i64, u64)>)
        ensures
            final(self)@ == entries@,
    {
        self.entries = entries;
    }

    /// Adds regions to the end of the table.
    pub fn add_batch(&mut self, batch: &Vec<(i64, u64)>)
        ensures
            final(self)@ == old(self)@ + batch@,
    {
        let mut i: usize = 0;
        assert(old(self)@ + batch@.take(0) =~= old(self)@);
        while i < batch.len()
            invariant
                i <= batch@.len(),
                self@ == old(self)@ + batch@.take(i as int),
            decreases batch@.len() - i,
        {
            self.entries.push(batch[i]);
            assert(self@ =~= old(self)@ + batch@.take(i + 1));
            i = i + 1;
        }
        assert(batch@.take(i as int) =~= batch@);
    }

    /// Drops the regions whose ids are among `ids`.
    pub fn remove(&mut self, ids: &Vec<i64>)
        ensures
            final(self)@ == old(self)@.filter(outside(ids@)),
    {
        broadcast use vstd::std_specs::hash::group_hash_axioms;

        let mut victims: HashSet<i64> = HashSet::new();
        let mut i: usize = 0;
        assert(ids@.take(0).to_set() =~= Set::empty());
        while i < ids.len()
            invariant
                i <= ids@.len(),
                victims@ == ids@.take(i as int).to_set(),
            decreases ids@.len() - i,
        {
            victims.insert(ids[i]);
            proof {
                assert(ids@.take(i + 1) =~= ids@.take(i as int).push(ids@[i as int]));
                ids@.take(i as int).lemma_push_to_set_commute(ids@[i as int]);
            }
            i = i + 1;
        }
        assert(ids@.take(i as int) =~= ids@);
        let ghost keep = outside(ids@);
        let mut kept: Vec<(i64, u64)> = Vec::new();
        let mut k: usize = 0;
        assert(self.entries@.take(0).filter(keep) =~= Seq::empty());
        while k < self.entries.len()
            invariant
                k <= self.entries@.len(),
                self.entries@ == old(self)@,
                victims@ == ids@.to_set(),
                keep == outside(ids@),
                kept@ == self.entries@.take(k as int).filter(keep),
            decreases self.entries@.len() - k,
        {
            let e: (i64, u64) = self.entries[k];
            proof {
                assert(self.entries@.take(k + 1) =~= self.entries@.take(k as int).push(e));
                self.entries@.take(k as int).lemma_filter_push(e, keep);
            }
            if !victims.contains(&e.0) {
                kept.push(e);
            }
            k = k + 1;
        }
        assert(self.entries@.take(k as int) =~= self.entries@);
        self.entries = kept;
    }

    /// The number of entries.
    pub fn len(&self) -> (r: usize)
        ensures
            r == self@.len(),
    {
        self.entries.len()
    }

    /// Whether the table holds nothing.
    pub fn is_empty(&self) -> (r: bool)
        ensures
            r == (self@.len() == 0),
    {
        self.entries.len() == 0
    }

    /// The regions within `max_distance` bits of `query`, nearest first, and no
    /// more than [`MAX_CANDIDATES`] of them.
    pub fn find_candidates(&self, query: u64, max_distance: u32) -> (r: Vec<PhashCandidate>)
        ensures
            is_closest(r@, near_entries(self@, query, max_distance), MAX_CANDIDATES as nat),
    {
        let found = scan(&self.entries, query, max_distance);
        closest(&found, MAX_CANDIDATES)
    }
}

/// Every candidate comes from an entry of the table within the distance asked
/// for, and every such entry gives one.
pub proof fn near_entries_are_the_near_ones(entries: Seq<(i64, u64)>, query: u64, max_distance: u32)
    ensures
        forall|i: int|
            0 <= i < entries.len() && distance(query, (#[trigger] entries[i]).1) <= max_distance
                ==> near_entries(entries, query, max_distance).contains(
                PhashCandidate {
                    region_id: entries[i].0,
                    distance: distance(query, entries[i].1) as u32,
                },
            ),
        forall|j: int|
            0 <= j < near_entries(entries, query, max_distance).len() ==> exists|i: int|
                0 <= i < entries.len() && near(query, max_distance, #[trigger] entries[i]) == Some(
                    #[trigger] near_entries(entries, query, max_distance)[j],
                ),
    decreases entries.len(),
{
    if entries.len() > 0 {
        let init = entries.drop_last();
        near_entries_are_the_near_ones(init, query, max_distance);
        let before = near_entries(init, query, max_distance);
        let all = near_entries(entries, query, max_distance);
        assert(entries.last() == entries[entries.len() - 1]);
        assert forall|i: int|
            0 <= i < entries.len() && distance(query, (#[trigger] entries[i]).1)
                <= max_distance implies all.contains(
            PhashCandidate {
                region_id: entries[i].0,
                distance: distance(query, entries[i].1) as u32,
            },
        ) by {
            let c = PhashCandidate {
                region_id: entries[i].0,
                distance: distance(query, entries[i].1) as u32,
            };
            if i < init.len() {
                assert(init[i] == entries[i]);
                let k = choose|k: int| 0 <= k < before.len() && before[k] == c;
                assert(all[k] == c);
            } else {
                assert(all.last() == c);
                assert(all[all.len() - 1] == c);
            }
        }
        assert forall|j: int| 0 <= j < all.len() implies exists|i: int|
            0 <= i < entries.len() && near(query, max_distance, #[trigger] entries[i]) == Some(
                #[trigger] all[j],
            ) by {
            if j < before.len() {
                assert(all[j] == before[j]);
                let i = choose|i: int|
                    0 <= i < init.len() && near(query, max_distance, #[trigger] init[i]) == Some(
                        before[j],
                    );
                assert(entries[i] == init[i]);
            } else {
                assert(near(query, max_distance, entries[entries.len() - 1]) == Some(all[j]));
            }
        }
    }
}

/// The candidates handed on are ordered by distance, and nothing left out is
/// nearer than anything handed on.
pub proof fn closest_keeps_the_nearest(r: Seq<PhashCandidate>, found: Seq<PhashCandidate>, cap: nat)
    requires
        is_closest(r, found, cap),
    ensures
        forall|i: int, j: int| 0 <= i <= j < r.len() ==> (#[trigger] r[i]).distance <= (#[trigger] r[j]).distance,
        forall|i: int| 0 <= i < r.len() ==> found.contains(#[trigger] r[i]),
        forall|k: int|
            0 <= k < found.len() ==> r.contains(#[trigger] found[k]) || forall|i: int|
                0 <= i < r.len() ==> (#[trigger] r[i]).distance <= found[k].distance,
        found.len() <= cap ==> r.len() == found.len(),
{
    let d = distances(found);
    let order = choose|order: Seq<usize>|
        {
            &&& #[trigger] is_stable_order(d, order)
            &&& r.len() == if found.len() < cap {
                found.len()
            } else {
                cap
            }
            &&& forall|i: int| 0 <= i < r.len() ==> #[trigger] r[i] == found[order[i] as int]
        };
    assert forall|i: int, j: int| 0 <= i <= j < r.len() implies (#[trigger] r[i]).distance <= (
    #[trigger] r[j]).distance by {
        if i < j {
            assert(crate::order::precedes(d, order[i] as int, order[j] as int));
        }
    }
    assert forall|k: int| 0 <= k < found.len() implies r.contains(#[trigger] found[k]) || forall|
        i: int,
    |
        0 <= i < r.len() ==> (#[trigger] r[i]).distance <= found[k].distance by {
        assert(crate::order::lists(order, k));
        let p = choose|p: int| 0 <= p < order.len() && #[trigger] order[p] == k;
        if p < r.len() {
            assert(r[p] == found[k]);
        } else {
            assert forall|i: int| 0 <= i < r.len() implies (#[trigger] r[i]).distance
                <= found[k].distance by {
                assert(crate::order::precedes(d, order[i] as int, order[p] as int));
            }
        }
    }
}

/// What was removed does not match any more, and everything else stays.
pub proof fn removed_entries_are_gone(entries: Seq<(i64, u64)>, ids: Seq<i64>)
    ensures
        ({
            let left = entries.filter(outside(ids));
            &&& forall|i: int| 0 <= i < left.len() ==> !ids.contains((#[trigger] left[i]).0)
            &&& forall|i: int|
                0 <= i < entries.len() && !ids.contains((#[trigger] entries[i]).0)
                    ==> left.contains(entries[i])
        }),
{
    broadcast use vstd::seq_lib::group_filter_ensures;
}

/// Removing from a table the regions that were just added to it gives the table
/// back, where none of their ids was in it before.
pub proof fn remove_undoes_add(entries: Seq<(i64, u64)>, batch: Seq<(i64, u64)>)
    requires
        forall|i: int, j: int|
            0 <= i < entries.len() && 0 <= j < batch.len() ==> (#[trigger] entries[i]).0 != (
            #[trigger] batch[j]).0,
    ensures
        ({
            let ids = batch.map_values(|e: (i64, u64)| e.0);
            (entries + batch).filter(outside(ids)) == entries
        }),
{
    let ids = batch.map_values(|e: (i64, u64)| e.0);
    let keep = outside(ids);
    Seq::filter_distributes_over_add(entries, batch, keep);
    assert forall|i: int| 0 <= i < entries.len() implies keep(#[trigger] entries[i]) by {
        if ids.contains(entries[i].0) {
            let j = choose|j: int| 0 <= j < ids.len() && ids[j] == entries[i].0;
            assert(batch[j].0 == entries[i].0);
        }
    }
    lemma_filter_all(entries, keep);
    assert forall|j: int| 0 <= j < batch.len() implies !keep(#[trigger] batch[j]) by {
        assert(ids[j] == batch[j].0);
    }
    lemma_filter_none(batch, keep);
    assert(entries + Seq::<(i64, u64)>::empty() =~= entries);
}

proof fn lemma_filter_all(s: Seq<(i64, u64)>, keep: spec_fn((i64, u64)) -> bool)
    requires
        forall|i: int| 0 <= i < s.len() ==> keep(#[trigger] s[i]),
    ensures
        s.filter(keep) == s,
    decreases s.len(),
{
    reveal(Seq::filter);
    if s.len() > 0 {
        lemma_filter_all(s.drop_last(), keep);
        assert(keep(s[s.len() - 1]));
        assert(s.drop_last().push(s.last()) =~= s);
    } else {
        assert(s.filter(keep) =~= s);
    }
}

proof fn lemma_filter_none(s: Seq<(i64, u64)>, keep: spec_fn((i64, u64)) -> bool)
    requires
        forall|i: int| 0 <= i < s.len() ==> !keep(#[trigger] s[i]),
    ensures
        s.filter(keep) == Seq::<(i64, u64)>::empty(),
    decreases s.len(),
{
    reveal(Seq::filter);
    if s.len() > 0 {
        lemma_filter_none(s.drop_last(), keep);
        assert(!keep(s[s.len() - 1]));
    }
}

/// Where the entries stand that give the candidates.
proof fn near_places(entries: Seq<(i64, u64)>, query: u64, max_distance: u32) -> (at: Seq<int>)
    ensures
        at.len() == near_entries(entries, query, max_distance).len(),
        forall|i: int|
            0 <= i < at.len() ==> {
                let e = entries[#[trigger] at[i]];
                let c = near_entries(entries, query, max_distance)[i];
                &&& 0 <= at[i] < entries.len()
                &&& c.region_id == e.0
                &&& c.distance == distance(query, e.1)
                &&& distance(query, e.1) <= max_distance
            },
        forall|i: int, j: int| 0 <= i < j < at.len() ==> #[trigger] at[i] < #[trigger] at[j],
        forall|k: int|
            0 <= k < entries.len() && distance(query, (#[trigger] entries[k]).1) <= max_distance
                ==> at.contains(k),
    decreases entries.len(),
{
    if entries.len() == 0 {
        Seq::empty()
    } else {
        let init = entries.drop_last();
        let at0 = near_places(init, query, max_distance);
        let n = entries.len() - 1;
        assert(entries.last() == entries[n]);
        let at = if distance(query, entries[n].1) <= max_distance {
            at0.push(n)
        } else {
            at0
        };
        assert forall|i: int| 0 <= i < at0.len() implies entries[#[trigger] at0[i]]
            == init[at0[i]] by {}
        assert forall|k: int|
            0 <= k < entries.len() && distance(query, (#[trigger] entries[k]).1)
                <= max_distance implies at.contains(k) by {
            if k < n {
                assert(init[k] == entries[k]);
                assert(at0.contains(k));
                let i = choose|i: int| 0 <= i < at0.len() && at0[i] == k;
                assert(at[i] == k);
            } else {
                assert(at[at.len() - 1] == k);
            }
        }
        at
    }
}

/// Whether `r` is the entries nearest to a hash, at the places `at`: each within the
/// distance, nearest first, those at one distance in the order of the table, no more than
/// `cap`; and none is left out that is nearer than one that is in, nor any at all where
/// there is room.
pub open spec fn are_nearest(
    r: Seq<PhashCandidate>,
    entries: Seq<(i64, u64)>,
    query: u64,
    max_distance: u32,
    cap: nat,
    at: Seq<int>,
) -> bool {
    &&& at.len() == r.len() <= cap
    &&& forall|i: int|
        0 <= i < r.len() ==> {
            &&& 0 <= #[trigger] at[i] < entries.len()
            &&& r[i].region_id == entries[at[i]].0
            &&& r[i].distance == distance(query, entries[at[i]].1)
            &&& r[i].distance <= max_distance
        }
    &&& forall|i: int, j: int|
        0 <= i < j < r.len() ==> r[i].distance < r[j].distance || r[i].distance == r[j].distance
            && #[trigger] at[i] < #[trigger] at[j]
    &&& forall|k: int|
        0 <= k < entries.len() && distance(query, (#[trigger] entries[k]).1) <= max_distance
            && !at.contains(k) ==> r.len() == cap && forall|i: int|
            0 <= i < r.len() ==> (#[trigger] r[i]).distance <= distance(query, entries[k].1)
}

/// Where the candidates that are handed on stand.
pub proof fn lemma_nearest(
    r: Seq<PhashCandidate>,
    entries: Seq<(i64, u64)>,
    query: u64,
    max_distance: u32,
    cap: nat,
) -> (at: Seq<int>)
    requires
        is_closest(r, near_entries(entries, query, max_distance), cap),
    ensures
        are_nearest(r, entries, query, max_distance, cap, at),
{
    let found = near_entries(entries, query, max_distance);
    let pos = near_places(entries, query, max_distance);
    let d = distances(found);
    let order = choose|order: Seq<usize>|
        {
            &&& #[trigger] is_stable_order(d, order)
            &&& r.len() == if found.len() < cap {
                found.len()
            } else {
                cap
            }
            &&& forall|i: int| 0 <= i < r.len() ==> #[trigger] r[i] == found[order[i] as int]
        };
    let at = Seq::new(r.len(), |i: int| pos[order[i] as int]);
    assert forall|i: int| 0 <= i < r.len() implies {
        &&& 0 <= #[trigger] at[i] < entries.len()
        &&& r[i].region_id == entries[at[i]].0
        &&& r[i].distance == distance(query, entries[at[i]].1)
        &&& r[i].distance <= max_distance
    } by {
        assert(order[i] < d.len());
        assert(at[i] == pos[order[i] as int]);
        assert(r[i] == found[order[i] as int]);
    }
    assert forall|i: int, j: int| 0 <= i < j < r.len() implies r[i].distance < r[j].distance
        || r[i].distance == r[j].distance && #[trigger] at[i] < #[trigger] at[j] by {
        assert(crate::order::precedes(d, order[i] as int, order[j] as int));
        assert(order[i] < d.len() && order[j] < d.len());
        assert(at[i] == pos[order[i] as int] && at[j] == pos[order[j] as int]);
        assert(r[i] == found[order[i] as int] && r[j] == found[order[j] as int]);
        if order[i] < order[j] {
            assert(pos[order[i] as int] < pos[order[j] as int]);
        }
    }
    assert forall|k: int|
        0 <= k < entries.len() && distance(query, (#[trigger] entries[k]).1) <= max_distance
            && !at.contains(k) implies r.len() == cap && forall|i: int|
        0 <= i < r.len() ==> (#[trigger] r[i]).distance <= distance(query, entries[k].1) by {
        assert(pos.contains(k));
        let m = choose|m: int| 0 <= m < pos.len() && pos[m] == k;
        assert(crate::order::lists(order, m));
        let p = choose|p: int| 0 <= p < order.len() && #[trigger] order[p] == m;
        if p < r.len() {
            assert(at[p] == k);
        }
        assert forall|i: int| 0 <= i < r.len() implies (#[trigger] r[i]).distance <= distance(
            query,
            entries[k].1,
        ) by {
            assert(crate::order::precedes(d, order[i] as int, order[p] as int));
            assert(order[i] < d.len());
            assert(r[i] == found[order[i] as int]);
            assert(found[m].distance == distance(query, entries[k].1));
        }
    }
    at
}

/// A search of the table gives the two thousand regions nearest to the hash of the
/// query, of those within the distance asked for.
pub proof fn nearest_regions_are_found(
    store: &PhashStore,
    query: u64,
    max_distance: u32,
    r: Vec<PhashCandidate>,
) -> (at: Seq<int>)
    requires
        call_ensures(PhashStore::find_candidates, (store, query, max_distance), r),
    ensures
        are_nearest(r@, store@, query, max_distance, 2_000, at),
{
    lemma_nearest(r@, store@, query, max_distance, 2_000)
}

/// Removing regions takes out exactly the entries with their ids.
pub proof fn removal_takes_out_what_is_named(store: &mut PhashStore, ids: &Vec<i64>, e: (i64, u64))
    requires
        call_ensures(PhashStore::remove, (store, ids), ()),
    ensures
        final(store)@.contains(e) <==> old(store)@.contains(e) && !ids@.contains(e.0),
        final(store)@.len() <= old(store)@.len(),
{
    broadcast use vstd::seq_lib::group_filter_ensures;

    let all = old(store)@;
    let keep = outside(ids@);
    if final(store)@.contains(e) {
        let i = choose|i: int| 0 <= i < all.filter(keep).len() && all.filter(keep)[i] == e;
        assert(keep(all.filter(keep)[i]));
        all.lemma_filter_contains_rev(keep, e);
    }
    if all.contains(e) && !ids@.contains(e.0) {
        let i = choose|i: int| 0 <= i < all.len() && all[i] == e;
        assert(keep(all[i]));
        all.lemma_filter_contains(keep, i);
    }
}

/// Adding regions keeps every entry, and adds each of the new ones.
pub proof fn adding_keeps_and_adds(store: &mut PhashStore, batch: &Vec<(i64, u64)>, e: (i64, u64))
    requires
        call_ensures(PhashStore::add_batch, (store, batch), ()),
    ensures
        final(store)@.len() == old(store)@.len() + batch@.len(),
        final(store)@.contains(e) <==> old(store)@.contains(e) || batch@.contains(e),
{
    let (a, b, c) = (old(store)@, batch@, final(store)@);
    if a.contains(e) {
        let i = choose|i: int| 0 <= i < a.len() && a[i] == e;
        assert(c[i] == e);
    }
    if b.contains(e) {
        let i = choose|i: int| 0 <= i < b.len() && b[i] == e;
        assert(c[a.len() + i] == e);
    }
}

/// An entry is a candidate where its hash differs from that of the query in no more bits
/// than allowed.
pub proof fn near_hashes_are_candidates(
    query: u64,
    max_distance: u32,
    entry: &(i64, u64),
    bits: u32,
    r: Option<PhashCandidate>,
)
    requires
        call_ensures(match_entry, (query, max_distance, entry), r),
        call_ensures(hamming_distance, (query, entry.1), bits),
    ensures
        r is Some <==> bits <= max_distance,
        r is Some ==> r->Some_0.region_id == entry.0 && r->Some_0.distance == bits,
{
}

/// Cutting candidates off keeps the nearest: they ascend by distance, each stands for a
/// candidate of its own, and none that was left out is nearer than one that was kept.
pub proof fn the_nearest_candidates_are_kept(
    found: &Vec<PhashCandidate>,
    cap: usize,
    r: Vec<PhashCandidate>,
) -> (at: Seq<usize>)
    requires
        call_ensures(closest, (found, cap), r),
    ensures
        r@.len() <= cap && r@.len() <= found@.len() && (r@.len() == cap || r@.len() == found@.len()),
        at.len() == found@.len(),
        at.no_duplicates(),
        forall|i: int| 0 <= i < at.len() ==> #[trigger] at[i] < found@.len(),
        forall|i: int| 0 <= i < r@.len() ==> #[trigger] r@[i] == found@[at[i] as int],
        forall|i: int, j: int|
            0 <= i < j < at.len() ==> found@[#[trigger] at[i] as int].distance
                <= found@[#[trigger] at[j] as int].distance,
        forall|i: int, j: int|
            0 <= i < j < at.len() && found@[#[trigger] at[i] as int].distance
                == found@[#[trigger] at[j] as int].distance ==> at[i] < at[j],
{
    let keys = distances(found@);
    let order = choose|order: Seq<usize>|
        {
            &&& #[trigger] is_stable_order(keys, order)
            &&& r@.len() == if found@.len() < cap {
                found@.len()
            } else {
                cap as nat
            }
            &&& forall|i: int| 0 <= i < r@.len() ==> #[trigger] r@[i] == found@[order[i] as int]
        };
    crate::order::lemma_distinct(keys, order);
    assert forall|i: int, j: int| 0 <= i < j < order.len() implies found@[#[trigger] order[i] as int].distance
        <= found@[#[trigger] order[j] as int].distance && (found@[order[i] as int].distance
        == found@[order[j] as int].distance ==> order[i] < order[j]) by {
        assert(keys[order[i] as int] == found@[order[i] as int].distance);
        assert(keys[order[j] as int] == found@[order[j] as int].distance);
    }
    order
}

} // verus!
