//! Integers as little-endian bytes.

use vstd::prelude::*;

verus! {

/// The four bytes of `x`, lowest first.
pub open spec fn le32(x: u32) -> Seq<u8> {
    seq![
        (x % 256) as u8,
        (x / 256 % 256) as u8,
        (x / 65536 % 256) as u8,
        (x / 16777216) as u8,
    ]
}

/// The number whose bytes, lowest first, are the first four of `s`.
pub open spec fn from_le32(s: Seq<u8>) -> int {
    s[0] + s[1] * 256 + s[2] * 65536 + s[3] * 16777216
}

/// Reading back what was written gives the number.
pub proof fn le32_round_trip(x: u32)
    ensures
        from_le32(le32(x)) == x,
        le32(x).len() == 4,
{
}

/// The eight bytes of `x`, lowest first.
pub open spec fn le64(x: u64) -> Seq<u8> {
    le32((x % 0x1_0000_0000) as u32) + le32((x / 0x1_0000_0000) as u32)
}

/// The number whose bytes, lowest first, are the first eight of `s`.
pub open spec fn from_le64(s: Seq<u8>) -> int {
    from_le32(s) + from_le32(s.skip(4)) * 0x1_0000_0000
}

/// Reading back what was written gives the number.
pub proof fn le64_round_trip(x: u64)
    ensures
        from_le64(le64(x)) == x,
        le64(x).len() == 8,
{
    let low = (x % 0x1_0000_0000) as u32;
    let high = (x / 0x1_0000_0000) as u32;
    le32_round_trip(low);
    le32_round_trip(high);
    assert(le64(x).skip(4) =~= le32(high));
}

/// Appends the four bytes of `x`.
pub fn push_le32(out: &mut Vec<u8>, x: u32)
    ensures
        final(out)@ == old(out)@ + le32(x),
{
    out.push((x % 256) as u8);
    out.push((x / 256 % 256) as u8);
    out.push((x / 65536 % 256) as u8);
    out.push((x / 16777216) as u8);
    assert(out@ =~= old(out)@ + le32(x));
}

/// The number whose bytes stand in `s` from `at` on.
pub fn read_le32(s: &[u8], at: usize) -> (r: u32)
    requires
        at + 4 <= s@.len(),
    ensures
        r == from_le32(s@.subrange(at as int, at + 4)),
{
    assert(s.len() == s@.len());
    (s[at] as u32) + (s[at + 1] as u32) * 256 + (s[at + 2] as u32) * 65536 + (s[at + 3] as u32)
        * 16777216
}

/// The bits of `x`, read as a signed number.
pub open spec fn as_signed(x: u64) -> i64 {
    if x >= 0x8000_0000_0000_0000 {
        (x - 0x1_0000_0000_0000_0000) as i64
    } else {
        x as i64
    }
}

/// The bits of `x`, read as an unsigned number.
pub open spec fn as_unsigned(x: i64) -> u64 {
    if x < 0 {
        (x + 0x1_0000_0000_0000_0000) as u64
    } else {
        x as u64
    }
}

/// The bits of `x`, read as a signed number.
pub fn to_signed(x: u64) -> (r: i64)
    ensures
        r == as_signed(x),
{
    if x >= 0x8000_0000_0000_0000 {
        let low: u64 = x - 0x8000_0000_0000_0000;
        (low as i64) - 0x7fff_ffff_ffff_ffff - 1
    } else {
        x as i64
    }
}

/// The bits of `x`, read as an unsigned number.
pub fn to_unsigned(x: i64) -> (r: u64)
    ensures
        r == as_unsigned(x),
{
    if x < 0 {
        ((x + 0x7fff_ffff_ffff_ffff + 1) as u64) + 0x8000_0000_0000_0000
    } else {
        x as u64
    }
}

/// Reading the bits one way and back gives the number, both ways round: a hash
/// with its highest bit set survives being stored as a signed number, and a row id
/// being used as the id of a vector.
pub proof fn bit_cast_round_trip(x: u64, y: i64)
    ensures
        as_unsigned(as_signed(x)) == x,
        as_signed(as_unsigned(y)) == y,
{
}

/// The bytes that are appended make up the number, each counting 256 times as much as
/// the one before it, and what was there stays.
pub proof fn appended_bytes_make_up_the_number(out: &mut Vec<u8>, x: u32)
    requires
        call_ensures(push_le32, (out, x), ()),
    ensures
        final(out)@.len() == old(out)@.len() + 4,
        final(out)@.take(old(out)@.len() as int) == old(out)@,
        ({
            let n = old(out)@.len() as int;
            let s = final(out)@;
            s[n] + 256 * s[n + 1] + 65_536 * s[n + 2] + 16_777_216 * s[n + 3] == x
        }),
{
    le32_round_trip(x);
    let n = old(out)@.len() as int;
    assert(final(out)@.take(n) =~= old(out)@);
    assert(final(out)@[n] == le32(x)[0] && final(out)@[n + 1] == le32(x)[1] && final(out)@[n + 2]
        == le32(x)[2] && final(out)@[n + 3] == le32(x)[3]);
}

/// The number that is read is made up of four bytes in the same way.
pub proof fn bytes_make_up_the_number(s: &[u8], at: usize, r: u32)
    requires
        at + 4 <= s@.len(),
        call_ensures(read_le32, (s, at), r),
    ensures
        r == s@[at as int] + 256 * s@[at + 1] + 65_536 * s@[at + 2] + 16_777_216 * s@[at + 3],
{
    let p = s@.subrange(at as int, at + 4);
    assert(p[0] == s@[at as int] && p[1] == s@[at + 1] && p[2] == s@[at + 2] && p[3] == s@[at + 3]);
}

/// A number with the highest bit set is read as one that is two to the 64th smaller, and
/// the other way round.
pub proof fn highest_bits_are_signs(x: u64, signed: i64, y: i64, unsigned: u64)
    requires
        call_ensures(to_signed, (x,), signed),
        call_ensures(to_unsigned, (y,), unsigned),
    ensures
        signed == x || signed == x - 0x1_0000_0000_0000_0000,
        unsigned == y || unsigned == y + 0x1_0000_0000_0000_0000,
        signed == y <==> unsigned == x,
{
}

} // verus!
