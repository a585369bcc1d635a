//! Stable ordering by an integer key.

use crate::float32::Float32;
use vstd::prelude::*;

verus! {

/// Whether position `a` stands before position `b` in the stable order by key.
pub open spec fn precedes(keys: Seq<i64>, a: int, b: int) -> bool {
    keys[a] < keys[b] || (keys[a] == keys[b] && a < b)
}

/// Whether `order` lists the position `k`.
pub open spec fn lists(order: Seq<usize>, k: int) -> bool {
    exists|p: int| 0 <= p < order.len() && #[trigger] order[p] == k
}

/// Whether `order` lists every position of `keys` once, by ascending key, and
/// positions of equal key by ascending position.
pub open spec fn is_stable_order(keys: Seq<i64>, order: Seq<usize>) -> bool {
    &&& order.len() == keys.len()
    &&& forall|i: int| 0 <= i < order.len() ==> #[trigger] order[i] < keys.len()
    &&& forall|k: int| 0 <= k < keys.len() ==> #[trigger] lists(order, k)
    &&& forall|i: int, j: int|
        0 <= i < j < order.len() ==> precedes(keys, #[trigger] order[i] as int, #[trigger] order[j] as int)
}

spec fn run(keys: Seq<i64>, lo: int, hi: int, s: Seq<usize>) -> bool {
    &&& forall|i: int| 0 <= i < s.len() ==> lo <= #[trigger] s[i] < hi
    &&& forall|i: int, j: int|
        0 <= i < j < s.len() ==> precedes(keys, #[trigger] s[i] as int, #[trigger] s[j] as int)
}

fn merge(keys: &Vec<i64>, lo: usize, mid: usize, hi: usize, a: &Vec<usize>, b: &Vec<usize>) -> (r: Vec<usize>)
    requires
        lo <= mid <= hi <= keys@.len(),
        run(keys@, lo as int, mid as int, a@),
        run(keys@, mid as int, hi as int, b@),
        a@.len() == mid - lo,
        b@.len() == hi - mid,
    ensures
        r@.len() == hi - lo,
        run(keys@, lo as int, hi as int, r@),
{
    let mut out: Vec<usize> = Vec::new();
    let mut i: usize = 0;
    let mut j: usize = 0;
    while i < a.len() || j < b.len()
        invariant
            lo <= mid <= hi <= keys@.len(),
            run(keys@, lo as int, mid as int, a@),
            run(keys@, mid as int, hi as int, b@),
            a@.len() == mid - lo,
            b@.len() == hi - mid,
            i <= a@.len(),
            j <= b@.len(),
            out@.len() == i + j,
            run(keys@, lo as int, hi as int, out@),
            forall|x: int, y: int|
                0 <= x < out@.len() && i <= y < a@.len() ==> precedes(
                    keys@,
                    #[trigger] out@[x] as int,
                    #[trigger] a@[y] as int,
                ),
            forall|x: int, y: int|
                0 <= x < out@.len() && j <= y < b@.len() ==> precedes(
                    keys@,
                    #[trigger] out@[x] as int,
                    #[trigger] b@[y] as int,
                ),
        decreases a@.len() - i + b@.len() - j,
    {
        if j >= b.len() || (i < a.len() && keys[a[i]] <= keys[b[j]]) {
            out.push(a[i]);
            i = i + 1;
        } else {
            out.push(b[j]);
            j = j + 1;
        }
    }
    out
}

fn order_range(keys: &Vec<i64>, lo: usize, hi: usize) -> (r: Vec<usize>)
    requires
        lo <= hi <= keys@.len(),
    ensures
        r@.len() == hi - lo,
        run(keys@, lo as int, hi as int, r@),
    decreases hi - lo,
{
    if hi - lo <= 1 {
        let mut out: Vec<usize> = Vec::new();
        if lo < hi {
            out.push(lo);
        }
        out
    } else {
        let mid: usize = lo + (hi - lo) / 2;
        let a = order_range(keys, lo, mid);
        let b = order_range(keys, mid, hi);
        merge(keys, lo, mid, hi, &a, &b)
    }
}

/// Distinct values below `n`, `n` of them, are all the values below `n`.
proof fn lemma_covers(s: Seq<usize>, n: int)
    requires
        s.len() == n,
        s.no_duplicates(),
        forall|i: int| 0 <= i < s.len() ==> #[trigger] s[i] < n,
    ensures
        forall|k: int| 0 <= k < n ==> #[trigger] lists(s, k),
{
    let t = s.map_values(|x: usize| x as int);
    assert(t.no_duplicates());
    t.unique_seq_to_set();
    let all = vstd::set_lib::set_int_range(0, n);
    vstd::set_lib::lemma_int_range(0, n);
    assert(t.to_set().subset_of(all));
    vstd::set_lib::lemma_subset_equality(t.to_set(), all);
    assert forall|k: int| 0 <= k < n implies #[trigger] lists(s, k) by {
        assert(all.contains(k));
        assert(t.contains(k));
        let i = choose|i: int| 0 <= i < t.len() && t[i] == k;
        assert(s[i] == k);
    }
}

/// The stable order by key.
pub open spec fn order_of(keys: Seq<i64>) -> Seq<usize> {
    choose|order: Seq<usize>| is_stable_order(keys, order)
}

/// The positions of `keys` in stable ascending order of their keys.
pub fn stable_order(keys: &Vec<i64>) -> (r: Vec<usize>)
    ensures
        is_stable_order(keys@, r@),
        r@ == order_of(keys@),
{
    let r = order_range(keys, 0, keys.len());
    proof {
        assert forall|i: int, j: int| 0 <= i < r@.len() && 0 <= j < r@.len() && i != j implies r@[i]
            != r@[j] by {
            if i < j {
                assert(precedes(keys@, r@[i] as int, r@[j] as int));
            } else {
                assert(precedes(keys@, r@[j] as int, r@[i] as int));
            }
        }
        lemma_covers(r@, keys@.len() as int);
        assert(is_stable_order(keys@, r@));
        stable_order_unique(keys@, r@, order_of(keys@));
    }
    r
}

/// The stable order by key is one list only.
pub proof fn stable_order_unique(keys: Seq<i64>, a: Seq<usize>, b: Seq<usize>)
    requires
        is_stable_order(keys, a),
        is_stable_order(keys, b),
    ensures
        a == b,
{
    assert forall|i: int| 0 <= i < a.len() implies a[i] == b[i] by {
        stable_order_agrees(keys, a, b, i);
    }
    assert(a =~= b);
}

proof fn stable_order_agrees(keys: Seq<i64>, a: Seq<usize>, b: Seq<usize>, i: int)
    requires
        is_stable_order(keys, a),
        is_stable_order(keys, b),
        0 <= i < a.len(),
    ensures
        forall|j: int| 0 <= j <= i ==> a[j] == b[j],
    decreases i,
{
    if i > 0 {
        stable_order_agrees(keys, a, b, i - 1);
    }
    assert(lists(b, a[i] as int));
    assert(lists(a, b[i] as int));
    let p = choose|p: int| 0 <= p < b.len() && b[p] == a[i];
    let q = choose|q: int| 0 <= q < a.len() && a[q] == b[i];
    if p < i {
        assert(a[p] == b[p]);
        assert(precedes(keys, a[p] as int, a[i] as int));
    }
    if q < i {
        assert(a[q] == b[q]);
        assert(precedes(keys, b[q] as int, b[i] as int));
    }
    if p > i {
        assert(precedes(keys, b[i] as int, b[p] as int));
        if q > i {
            assert(precedes(keys, a[i] as int, a[q] as int));
        }
    }
}

/// Where an unsigned number stands among the signed ones when both are ordered.
pub open spec fn order_key(x: u64) -> i64 {
    (x - 0x8000_0000_0000_0000) as i64
}

/// The numbers in ascending order.
pub open spec fn ascending(v: Seq<u64>) -> Seq<u64> {
    let order = order_of(v.map_values(|x: u64| order_key(x)));
    Seq::new(v.len(), |i: int| v[order[i] as int])
}

/// The numbers in ascending order.
pub fn sort_numbers(v: &Vec<u64>) -> (r: Vec<u64>)
    ensures
        r@ == ascending(v@),
        forall|i: int, j: int| 0 <= i <= j < r@.len() ==> #[trigger] r@[i] <= #[trigger] r@[j],
{
    let mut keys: Vec<i64> = Vec::new();
    let mut i: usize = 0;
    while i < v.len()
        invariant
            i <= v@.len(),
            keys@ =~= v@.take(i as int).map_values(|x: u64| order_key(x)),
        decreases v@.len() - i,
    {
        let x: u64 = v[i];
        keys.push(
            if x >= 0x8000_0000_0000_0000 {
                (x - 0x8000_0000_0000_0000) as i64
            } else {
                (x as i64) - 0x7fff_ffff_ffff_ffff - 1
            },
        );
        i = i + 1;
    }
    assert(v@.take(i as int) =~= v@);
    let order = stable_order(&keys);
    let mut out: Vec<u64> = Vec::new();
    let mut k: usize = 0;
    while k < order.len()
        invariant
            k <= order@.len(),
            order@.len() == v@.len(),
            is_stable_order(keys@, order@),
            keys@.len() == v@.len(),
            out@.len() == k,
            forall|j: int| 0 <= j < k ==> #[trigger] out@[j] == v@[order@[j] as int],
        decreases order@.len() - k,
    {
        out.push(v[order[k]]);
        k = k + 1;
    }
    proof {
        assert(keys@ == v@.map_values(|x: u64| order_key(x)));
        assert(out@ =~= ascending(v@));
        assert forall|i: int, j: int| 0 <= i <= j < out@.len() implies #[trigger] out@[i]
            <= #[trigger] out@[j] by {
            if i < j {
                assert(precedes(keys@, order@[i] as int, order@[j] as int));
            }
        }
    }
    out
}

/// The numbers in the IEEE 754 total order.
pub open spec fn ascending_floats(v: Seq<Float32>) -> Seq<Float32> {
    let order = order_of(v.map_values(|x: Float32| x.total() as i64));
    Seq::new(v.len(), |i: int| v[order[i] as int])
}

/// The numbers in the IEEE 754 total order.
pub fn sort_floats(v: &Vec<Float32>) -> (r: Vec<Float32>)
    ensures
        r@ == ascending_floats(v@),
        forall|i: int, j: int|
            0 <= i <= j < r@.len() ==> (#[trigger] r@[i]).total() <= (#[trigger] r@[j]).total(),
{
    let mut keys: Vec<i64> = Vec::new();
    let mut i: usize = 0;
    while i < v.len()
        invariant
            i <= v@.len(),
            keys@ =~= v@.take(i as int).map_values(|x: Float32| x.total() as i64),
        decreases v@.len() - i,
    {
        keys.push(v[i].total_key());
        i = i + 1;
    }
    assert(v@.take(i as int) =~= v@);
    let order = stable_order(&keys);
    let mut out: Vec<Float32> = Vec::new();
    let mut k: usize = 0;
    while k < order.len()
        invariant
            k <= order@.len(),
            order@.len() == v@.len(),
            is_stable_order(keys@, order@),
            keys@.len() == v@.len(),
            out@.len() == k,
            forall|j: int| 0 <= j < k ==> #[trigger] out@[j] == v@[order@[j] as int],
        decreases order@.len() - k,
    {
        out.push(v[order[k]]);
        k = k + 1;
    }
    proof {
        assert(keys@ == v@.map_values(|x: Float32| x.total() as i64));
        assert(out@ =~= ascending_floats(v@));
        assert forall|i: int, j: int| 0 <= i <= j < out@.len() implies (#[trigger] out@[i]).total()
            <= (#[trigger] out@[j]).total() by {
            if i < j {
                assert(precedes(keys@, order@[i] as int, order@[j] as int));
            }
        }
    }
    out
}

// ── Laws ────────────────────────────────────────────────────────────────────

/// Every list of keys has a stable order.
pub proof fn stable_order_exists(keys: Seq<i64>)
    requires
        keys.len() <= usize::MAX,
    ensures
        is_stable_order(keys, order_of(keys)),
    decreases keys.len(),
{
    if keys.len() == 0 {
        assert(is_stable_order(keys, Seq::<usize>::empty()));
    } else {
        let init = keys.drop_last();
        let n = keys.len() - 1;
        stable_order_exists(init);
        let o = order_of(init);
        let p = count_up_to(keys, o, o.len() as int, keys[n]);
        lemma_count(keys, o, o.len() as int, keys[n]);
        let r = o.insert(p, n as usize);
        assert forall|i: int, j: int| 0 <= i < j < r.len() implies precedes(
            keys,
            #[trigger] r[i] as int,
            #[trigger] r[j] as int,
        ) by {
            let a = if i < p {
                i
            } else {
                i - 1
            };
            let b = if j < p {
                j
            } else {
                j - 1
            };
            if i != p && j != p {
                assert(precedes(init, o[a] as int, o[b] as int));
            }
        }
        assert forall|k: int| 0 <= k < keys.len() implies #[trigger] lists(r, k) by {
            if k == n {
                assert(r[p] == k);
            } else {
                assert(lists(o, k));
                let q = choose|q: int| 0 <= q < o.len() && #[trigger] o[q] == k;
                assert(r[if q < p {
                    q
                } else {
                    q + 1
                }] == k);
            }
        }
        assert forall|i: int| 0 <= i < r.len() implies #[trigger] r[i] < keys.len() by {
            if i < p {
                assert(o[i] < init.len());
            } else if i > p {
                assert(o[i - 1] < init.len());
            }
        }
        assert(is_stable_order(keys, r));
    }
}

/// How many of the first `n` positions of an order have a key of at most `key`.
spec fn count_up_to(keys: Seq<i64>, o: Seq<usize>, n: int, key: i64) -> int
    decreases n,
{
    if n <= 0 {
        0
    } else {
        count_up_to(keys, o, n - 1, key) + if keys[o[n - 1] as int] <= key {
            1int
        } else {
            0
        }
    }
}

proof fn lemma_count(keys: Seq<i64>, o: Seq<usize>, n: int, key: i64)
    requires
        0 <= n <= o.len(),
        keys.len() > 0,
        is_stable_order(keys.drop_last(), o),
    ensures
        ({
            let p = count_up_to(keys, o, n, key);
            &&& 0 <= p <= n
            &&& forall|i: int| 0 <= i < p ==> keys[#[trigger] o[i] as int] <= key
            &&& forall|i: int| p <= i < n ==> keys[#[trigger] o[i] as int] > key
        }),
    decreases n,
{
    if n > 0 {
        lemma_count(keys, o, n - 1, key);
        let p = count_up_to(keys, o, n - 1, key);
        if keys[o[n - 1] as int] <= key && p < n - 1 {
            assert(precedes(keys.drop_last(), o[p] as int, o[n - 1] as int));
            assert(o[p] < keys.drop_last().len() && o[n - 1] < keys.drop_last().len());
        }
    }
}

/// Sorting takes every position once, with keys that never descend, and leaves
/// positions with equal keys in the order in which they came.
pub proof fn order_ascends(keys: &Vec<i64>, r: Vec<usize>)
    requires
        call_ensures(stable_order, (keys,), r),
    ensures
        r@.len() == keys@.len(),
        r@.no_duplicates(),
        forall|i: int| 0 <= i < r@.len() ==> #[trigger] r@[i] < keys@.len(),
        forall|i: int, j: int|
            0 <= i < j < r@.len() ==> {
                let (a, b) = (keys@[#[trigger] r@[i] as int], keys@[#[trigger] r@[j] as int]);
                a <= b && (a == b ==> r@[i] < r@[j])
            },
{
    assert forall|i: int, j: int| 0 <= i < r@.len() && 0 <= j < r@.len() && i != j implies r@[i]
        != r@[j] by {
        if i < j {
            assert(precedes(keys@, r@[i] as int, r@[j] as int));
        } else {
            assert(precedes(keys@, r@[j] as int, r@[i] as int));
        }
    }
    assert forall|i: int, j: int| 0 <= i < j < r@.len() implies {
        let (a, b) = (keys@[#[trigger] r@[i] as int], keys@[#[trigger] r@[j] as int]);
        a <= b && (a == b ==> r@[i] < r@[j])
    } by {
        assert(precedes(keys@, r@[i] as int, r@[j] as int));
    }
}

/// Whether `r` is `v` in another order: every position of `v` is taken once.
pub open spec fn is_rearranged<T>(r: Seq<T>, v: Seq<T>) -> bool {
    exists|at: Seq<usize>| #[trigger]
        at.len() == v.len() && r.len() == v.len() && at.no_duplicates() && forall|i: int|
            0 <= i < at.len() ==> #[trigger] at[i] < v.len() && r[i] == v[at[i] as int]
}

pub proof fn lemma_distinct(keys: Seq<i64>, o: Seq<usize>)
    requires
        is_stable_order(keys, o),
    ensures
        o.no_duplicates(),
{
    assert forall|i: int, j: int| 0 <= i < o.len() && 0 <= j < o.len() && i != j implies o[i]
        != o[j] by {
        if i < j {
            assert(precedes(keys, o[i] as int, o[j] as int));
        } else {
            assert(precedes(keys, o[j] as int, o[i] as int));
        }
    }
}

/// Sorted numbers ascend, and are the numbers that were given.
pub proof fn sorted_numbers_ascend(v: &Vec<u64>, r: Vec<u64>)
    requires
        call_ensures(sort_numbers, (v,), r),
    ensures
        is_rearranged(r@, v@),
        forall|i: int, j: int| 0 <= i < j < r@.len() ==> #[trigger] r@[i] <= #[trigger] r@[j],
{
    let keys = v@.map_values(|x: u64| order_key(x));
    assert(v.len() == v@.len());
    stable_order_exists(keys);
    let o = order_of(keys);
    lemma_distinct(keys, o);
    assert(o.len() == v@.len());
    assert forall|i: int| 0 <= i < o.len() implies #[trigger] o[i] < v@.len() && r@[i]
        == v@[o[i] as int] by {}
    assert(is_rearranged(r@, v@));
}

/// Sorted floating-point numbers ascend by value, and are the numbers that were given.
pub proof fn sorted_floats_ascend(v: &Vec<Float32>, r: Vec<Float32>)
    requires
        call_ensures(sort_floats, (v,), r),
        forall|i: int| 0 <= i < v@.len() ==> !(#[trigger] v@[i]).nan(),
    ensures
        is_rearranged(r@, v@),
        forall|i: int, j: int|
            0 <= i < j < r@.len() ==> !(#[trigger] r@[j]).less(#[trigger] r@[i]),
{
    let keys = v@.map_values(|x: Float32| x.total() as i64);
    assert(v.len() == v@.len());
    stable_order_exists(keys);
    let o = order_of(keys);
    lemma_distinct(keys, o);
    assert(o.len() == v@.len());
    assert forall|i: int| 0 <= i < o.len() implies #[trigger] o[i] < v@.len() && r@[i]
        == v@[o[i] as int] by {}
    assert(is_rearranged(r@, v@));
    assert forall|i: int, j: int| 0 <= i < j < r@.len() implies !(#[trigger] r@[j]).less(
        #[trigger] r@[i],
    ) by {
        assert(r@[i].total() <= r@[j].total());
    }
}

/// Where the items that a filter keeps stood: in order, and all that it keeps.
pub proof fn filter_places<T>(s: Seq<T>, keep: spec_fn(T) -> bool) -> (at: Seq<int>)
    ensures
        at.len() == s.filter(keep).len(),
        forall|i: int|
            0 <= i < at.len() ==> 0 <= #[trigger] at[i] < s.len() && keep(s[at[i]]) && s.filter(
                keep,
            )[i] == s[at[i]],
        forall|i: int, j: int| 0 <= i < j < at.len() ==> #[trigger] at[i] < #[trigger] at[j],
        forall|k: int| 0 <= k < s.len() && keep(#[trigger] s[k]) ==> at.contains(k),
    decreases s.len(),
{
    reveal(Seq::filter);
    if s.len() == 0 {
        Seq::empty()
    } else {
        let init = s.drop_last();
        let at0 = filter_places(init, keep);
        let at = if keep(s.last()) {
            at0.push(s.len() - 1)
        } else {
            at0
        };
        assert forall|k: int| 0 <= k < s.len() && keep(#[trigger] s[k]) implies at.contains(k) by {
            if k < s.len() - 1 {
                assert(init[k] == s[k]);
                assert(at0.contains(k));
                let i = choose|i: int| 0 <= i < at0.len() && at0[i] == k;
                assert(at[i] == k);
            } else {
                assert(at[at.len() - 1] == k);
            }
        }
        at
    }
}

} // verus!
