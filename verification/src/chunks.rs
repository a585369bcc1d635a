//! Splitting a list into chunks.

use vstd::prelude::*;

verus! {

/// The ranges `[start, end)` that cut `len` items into chunks of `size`, the last
/// one possibly shorter.
pub open spec fn chunk_ranges(len: int, size: int) -> Seq<(int, int)> {
    Seq::new(
        ((len + size - 1) / size) as nat,
        |i: int|
            (
                i * size,
                if (i + 1) * size <= len {
                    (i + 1) * size
                } else {
                    len
                },
            ),
    )
}

/// The ranges as mathematical integers.
pub open spec fn range_view(v: Seq<(usize, usize)>) -> Seq<(int, int)> {
    v.map_values(|r: (usize, usize)| (r.0 as int, r.1 as int))
}

/// The ranges that cut `len` items into chunks of `size`.
pub fn chunks(len: usize, size: usize) -> (r: Vec<(usize, usize)>)
    requires
        size > 0,
    ensures
        range_view(r@) == chunk_ranges(len as int, size as int),
{
    let mut out: Vec<(usize, usize)> = Vec::new();
    let mut start: usize = 0;
    let ghost n = (len + size - 1) / (size as int);
    assert(0 * size == 0) by (nonlinear_arith);
    assert(len == 0 ==> n == 0) by (nonlinear_arith)
        requires
            n == (len + size - 1) / (size as int),
            size > 0,
    ;
    assert(len > 0 ==> n > 0) by (nonlinear_arith)
        requires
            n == (len + size - 1) / (size as int),
            size > 0,
    ;
    while start < len
        invariant
            size > 0,
            n == (len + size - 1) / (size as int),
            start == len || start == out@.len() * size,
            start <= len,
            start == len ==> out@.len() == n,
            start < len ==> out@.len() < n,
            forall|i: int|
                0 <= i < out@.len() ==> range_view(out@)[i] == #[trigger] chunk_ranges(
                    len as int,
                    size as int,
                )[i],
        decreases len - start,
    {
        let end: usize = if len - start <= size {
            len
        } else {
            start + size
        };
        let ghost k = out@.len() as int;
        proof {
            assert((k + 1) * size == k * size + size) by (nonlinear_arith);
            if end == len {
                assert(k + 1 == n) by (nonlinear_arith)
                    requires
                        n == (len + size - 1) / (size as int),
                        k * size < len,
                        len <= k * size + size,
                        size > 0,
                ;
            } else {
                assert(k + 1 < n) by (nonlinear_arith)
                    requires
                        n == (len + size - 1) / (size as int),
                        k * size + size < len,
                        size > 0,
                ;
            }
        }
        out.push((start, end));
        start = end;
    }
    proof {
        assert(range_view(out@) =~= chunk_ranges(len as int, size as int));
    }
    out
}

/// The chunks cover the list from front to back: each begins where the one before
/// it ends, none is empty or longer than `size`, and together they reach from the
/// first item to the last.
pub proof fn chunks_cover(len: int, size: int)
    requires
        len >= 0,
        size > 0,
    ensures
        ({
            let c = chunk_ranges(len, size);
            &&& (len == 0 <==> c.len() == 0)
            &&& len > 0 ==> c[0].0 == 0 && c.last().1 == len
            &&& forall|i: int|
                0 <= i < c.len() ==> {
                    let (a, b) = #[trigger] c[i];
                    0 <= a < b <= len && b - a <= size
                }
            &&& forall|i: int| 0 < i < c.len() ==> (#[trigger] c[i]).0 == c[i - 1].1
        }),
{
    let c = chunk_ranges(len, size);
    let n = (len + size - 1) / size;
    assert(n >= 0 && (n == 0 <==> len == 0) && n * size >= len && (n - 1) * size < len) by (nonlinear_arith)
        requires
            n == (len + size - 1) / size,
            len >= 0,
            size > 0,
    ;
    assert(0 * size == 0) by (nonlinear_arith);
    assert forall|i: int| 0 <= i < c.len() implies {
        let (a, b) = #[trigger] c[i];
        0 <= a < b <= len && b - a <= size
    } by {
        assert(0 <= i * size && i * size <= (n - 1) * size && (i + 1) * size == i * size + size)
            by (nonlinear_arith)
            requires
                0 <= i <= n - 1,
                size > 0,
        ;
    }
    assert forall|i: int| 0 < i < c.len() implies (#[trigger] c[i]).0 == c[i - 1].1 by {
        assert(i * size <= (n - 1) * size) by (nonlinear_arith)
            requires
                0 < i <= n - 1,
                size > 0,
        ;
        assert(((i - 1) + 1) * size == i * size);
    }
    if len > 0 {
        assert(((n - 1) + 1) * size == n * size);
    }
}

pub proof fn lemma_chunks(len: usize, size: usize, r: Seq<(usize, usize)>)
    requires
        size > 0,
        range_view(r) == chunk_ranges(len as int, size as int),
    ensures
        len == 0 <==> r.len() == 0,
        r.len() > 0 ==> r[0].0 == 0 && r.last().1 == len && r.last().0 < len && len - r.last().0
            <= size,
        forall|i: int|
            0 <= i < r.len() - 1 ==> (#[trigger] r[i]).1 == r[i].0 + size && r[i + 1].0 == r[i].1,
{
    let n = (len + size - 1) / (size as int);
    assert(range_view(r).len() == r.len());
    assert(n >= 0 && (len == 0 ==> n == 0) && (len > 0 ==> n > 0) && n * size >= len && (n - 1)
        * size < len) by (nonlinear_arith)
        requires
            n == (len + size - 1) / (size as int),
            size > 0,
            len >= 0,
    ;
    assert(r.len() == n);
    assert forall|i: int| 0 <= i < r.len() implies (#[trigger] r[i]).0 == i * size && r[i].1 == (
    if (i + 1) * size <= len {
        (i + 1) * size
    } else {
        len as int
    }) by {
        assert(range_view(r)[i] == chunk_ranges(len as int, size as int)[i]);
    }
    if n > 0 {
        assert(0 * size == 0) by (nonlinear_arith);
        assert(n * size == (n - 1) * size + size) by (nonlinear_arith);
        assert(r[n - 1].0 == (n - 1) * size);
    }
    assert forall|i: int| 0 <= i < r.len() - 1 implies (#[trigger] r[i]).1 == r[i].0 + size && r[i
        + 1].0 == r[i].1 by {
        assert((i + 1) * size == i * size + size && (i + 1) * size <= (n - 1) * size)
            by (nonlinear_arith)
            requires
                i + 1 <= n - 1,
                size > 0,
        ;
        assert(r[i + 1].0 == (i + 1) * size);
    }
}

/// The chunks follow one another without a gap from the first item to the last. All
/// have the full size but the last, which has at least one item and no more than that.
pub proof fn chunks_cover_in_order(len: usize, size: usize, r: Vec<(usize, usize)>)
    requires
        size > 0,
        call_ensures(chunks, (len, size), r),
    ensures
        len == 0 <==> r@.len() == 0,
        r@.len() > 0 ==> r@[0].0 == 0 && r@.last().1 == len && r@.last().0 < len && len - r@.last().0
            <= size,
        forall|i: int|
            0 <= i < r@.len() - 1 ==> (#[trigger] r@[i]).1 == r@[i].0 + size && r@[i + 1].0 == r@[i].1,
{
    lemma_chunks(len, size, r@);
}

} // verus!
