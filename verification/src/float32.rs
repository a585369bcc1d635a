//! Single-precision numbers held as their IEEE 754 bit patterns.
//!
//! Vectors, distances and scores are computed by the program around the
//! library. What the library does with them is to store, compare and order them,
//! and all of that is decided by the bits.

use vstd::prelude::*;

verus! {

/// A single-precision number, as the bit pattern that encodes it.
#[derive(Clone, Copy, PartialEq, Eq, Structural, Debug)]
pub struct Float32 {
    pub bits: u32,
}

impl Float32 {
    /// The number with the sign bit cleared, as a bit pattern.
    pub open spec fn magnitude(self) -> int {
        if self.bits >= 0x8000_0000 {
            self.bits - 0x8000_0000
        } else {
            self.bits as int
        }
    }

    /// Whether the sign bit is set.
    pub open spec fn negative(self) -> bool {
        self.bits >= 0x8000_0000
    }

    /// Whether this is not a number.
    pub open spec fn nan(self) -> bool {
        self.magnitude() > 0x7f80_0000
    }

    /// Whether this is neither infinite nor not a number.
    pub open spec fn finite(self) -> bool {
        self.magnitude() < 0x7f80_0000
    }

    /// An integer that orders the numbers by value: bit patterns of one sign
    /// order like the numbers they encode, and the two zeros are equal.
    pub open spec fn rank(self) -> int {
        if self.negative() {
            -self.magnitude()
        } else {
            self.magnitude()
        }
    }

    /// An integer that orders every bit pattern by the IEEE 754 total order:
    /// like [`Self::rank`], with negative zero just below positive zero.
    pub open spec fn total(self) -> int {
        if self.negative() {
            -self.magnitude() - 1
        } else {
            self.magnitude()
        }
    }

    /// `self < other` as numbers: false where either is not a number.
    pub open spec fn less(self, other: Float32) -> bool {
        !self.nan() && !other.nan() && self.rank() < other.rank()
    }

    /// `self <= other` as numbers: false where either is not a number.
    pub open spec fn at_most(self, other: Float32) -> bool {
        !self.nan() && !other.nan() && self.rank() <= other.rank()
    }

    /// Whether this is neither infinite nor not a number.
    pub fn is_finite(self) -> (r: bool)
        ensures
            r == self.finite(),
    {
        let m: u32 = if self.bits >= 0x8000_0000 {
            self.bits - 0x8000_0000
        } else {
            self.bits
        };
        m < 0x7f80_0000
    }

    /// Whether this is not a number.
    pub fn is_nan(self) -> (r: bool)
        ensures
            r == self.nan(),
    {
        let m: u32 = if self.bits >= 0x8000_0000 {
            self.bits - 0x8000_0000
        } else {
            self.bits
        };
        m > 0x7f80_0000
    }

    fn value_rank(self) -> (r: i64)
        ensures
            r == self.rank(),
    {
        if self.bits >= 0x8000_0000 {
            -((self.bits - 0x8000_0000) as i64)
        } else {
            self.bits as i64
        }
    }

    /// The position of this bit pattern in the IEEE 754 total order.
    pub fn total_key(self) -> (r: i64)
        ensures
            r == self.total(),
            -0x8000_0000 <= r < 0x8000_0000,
    {
        if self.bits >= 0x8000_0000 {
            -((self.bits - 0x8000_0000) as i64) - 1
        } else {
            self.bits as i64
        }
    }

    /// `self < other` as numbers.
    pub fn lt(self, other: Float32) -> (r: bool)
        ensures
            r == self.less(other),
    {
        !self.is_nan() && !other.is_nan() && self.value_rank() < other.value_rank()
    }

    /// `self <= other` as numbers.
    pub fn le(self, other: Float32) -> (r: bool)
        ensures
            r == self.at_most(other),
    {
        !self.is_nan() && !other.is_nan() && self.value_rank() <= other.value_rank()
    }
}

/// A copy of a vector.
pub fn copy_vector(v: &Vec<Float32>) -> (r: Vec<Float32>)
    ensures
        r@ == v@,
{
    let mut out: Vec<Float32> = Vec::new();
    let mut i: usize = 0;
    while i < v.len()
        invariant
            i <= v@.len(),
            out@ =~= v@.take(i as int),
        decreases v@.len() - i,
    {
        out.push(v[i]);
        i = i + 1;
    }
    out
}

/// The total order tells any two bit patterns apart.
pub proof fn total_order_is_injective(a: Float32, b: Float32)
    ensures
        a.total() == b.total() ==> a == b,
{
}

/// On numbers the total order agrees with the order by value, up to the two
/// zeros.
pub proof fn total_order_refines_value_order(a: Float32, b: Float32)
    requires
        !a.nan(),
        !b.nan(),
    ensures
        a.less(b) ==> a.total() < b.total(),
        a.total() < b.total() ==> a.at_most(b),
{
}

// ── Laws of the comparisons ─────────────────────────────────────────────────

/// Numbers are compared by their bits: where neither is negative, the one with the
/// smaller pattern is smaller, and where both are, the one with the larger pattern. A
/// negative number is below one that is not, except that the two zeros are equal, and
/// nothing holds of what is not a number.
pub proof fn bits_decide_comparisons(a: Float32, b: Float32, less: bool, at_most: bool)
    requires
        call_ensures(Float32::lt, (a, b), less),
        call_ensures(Float32::le, (a, b), at_most),
    ensures
        a.bits <= 0x7f80_0000 && b.bits <= 0x7f80_0000 ==> less == (a.bits < b.bits) && at_most == (
        a.bits <= b.bits),
        0x8000_0000 <= a.bits <= 0xff80_0000 && 0x8000_0000 <= b.bits <= 0xff80_0000 ==> less == (
        b.bits < a.bits) && at_most == (b.bits <= a.bits),
        0x8000_0000 <= a.bits <= 0xff80_0000 && b.bits <= 0x7f80_0000 ==> at_most && less == (a.bits
            != 0x8000_0000 || b.bits != 0),
        a.bits <= 0x7f80_0000 && 0x8000_0000 <= b.bits <= 0xff80_0000 ==> !less && at_most == (a.bits
            == 0 && b.bits == 0x8000_0000),
        (0x7f80_0000 < a.bits < 0x8000_0000 || a.bits > 0xff80_0000) ==> !less && !at_most,
        (0x7f80_0000 < b.bits < 0x8000_0000 || b.bits > 0xff80_0000) ==> !less && !at_most,
{
}

/// The keys of the total order rise with the pattern where the sign bit is clear and
/// fall with it where it is set, and every negative pattern is below every other.
pub proof fn keys_order_all_patterns(a: Float32, b: Float32, ka: i64, kb: i64)
    requires
        call_ensures(Float32::total_key, (a,), ka),
        call_ensures(Float32::total_key, (b,), kb),
    ensures
        a.bits < b.bits < 0x8000_0000 ==> ka < kb,
        0x8000_0000 <= a.bits < b.bits ==> kb < ka,
        b.bits < 0x8000_0000 <= a.bits ==> ka < kb,
        a.bits == b.bits ==> ka == kb,
{
}

/// What is not a number has all bits of the exponent and some of the fraction set; what
/// is infinite has none of the fraction.
pub proof fn exponents_tell_kinds(a: Float32, finite: bool, nan: bool)
    requires
        call_ensures(Float32::is_finite, (a,), finite),
        call_ensures(Float32::is_nan, (a,), nan),
    ensures
        finite == (a.bits < 0x7f80_0000 || 0x8000_0000 <= a.bits < 0xff80_0000),
        nan == (!finite && a.bits != 0x7f80_0000 && a.bits != 0xff80_0000),
{
}

} // verus!
