//! Perceptual hashes: 64 bits that change little when an image does.

use crate::embedder::pixels::PixelImage;
use image::{DynamicImage, RgbaImage};
use image_hasher::{HashAlg, HasherConfig};
use vstd::prelude::*;

verus! {

/// The bytes of a hash: of an image that is scaled to five by five, each pixel is held
/// against the next in its row and in its column, which makes forty bits.
pub const HASH_BYTES: usize = 5;

/// The greatest hash of an image.
pub const MAX_HASH: u64 = 0xff_ffff_ffff;

/// `image_hasher::Hasher::hash_image`, for a hasher configured with
/// `HashAlg::DoubleGradient` and a size of eight by eight: the hash has five bytes.
/// Which they are is not claimed: the image is scaled by a filter that calls `sin` in
/// floating point, whose last digits vary between machines.
#[verifier::external_body]
fn hash_image(width: u32, height: u32, rgba: &Vec<u8>) -> (r: Vec<u8>)
    requires
        rgba@.len() == height * (width * 4),
    ensures
        r@.len() == HASH_BYTES,
{
    let buffer = RgbaImage::from_raw(width, height, rgba.clone()).expect("four bytes for each pixel");
    let hasher = HasherConfig::new().hash_alg(HashAlg::DoubleGradient).hash_size(8, 8).to_hasher();
    hasher.hash_image(&DynamicImage::ImageRgba8(buffer)).as_bytes().to_vec()
}

/// The number whose lowest bytes, lowest first, are the first `n` of `bytes`.
pub open spec fn le_value(bytes: Seq<u8>, n: nat) -> int
    decreases n,
{
    if n == 0 {
        0
    } else {
        le_value(bytes, (n - 1) as nat) + bytes[n - 1] * place(n - 1)
    }
}

/// The weight of byte `i`.
pub open spec fn place(i: int) -> int
    decreases i,
{
    if i <= 0 {
        1
    } else {
        256 * place(i - 1)
    }
}

/// The hash as a number: the first eight of its bytes, lowest first. Missing
/// bytes count as zero.
pub open spec fn hash_value(bytes: Seq<u8>) -> int {
    le_value(
        bytes,
        if bytes.len() < 8 {
            bytes.len()
        } else {
            8
        },
    )
}

/// The hash of some bytes as a number: the first eight, lowest first, where
/// missing bytes count as zero.
pub fn hash_from_bytes(bytes: &Vec<u8>) -> (r: u64)
    ensures
        r == hash_value(bytes@),
{
    let n: usize = if bytes.len() < 8 {
        bytes.len()
    } else {
        8
    };
    let mut value: u64 = 0;
    let mut i: usize = 0;
    let mut weight: u64 = 1;
    proof {
        reveal_with_fuel(place, 9);
        assert(place(8) == 18446744073709551616);
    }
    while i < n
        invariant
            i <= n <= 8,
            n <= bytes@.len(),
            value == le_value(bytes@, i as nat),
            value < place(i as int),
            i < 8 ==> weight == place(i as int),
            place(8) == 18446744073709551616,
        decreases n - i,
    {
        let ghost p = place(i as int);
        proof {
            lemma_place_grows(i as int + 1, 8);
            assert(place(i + 1) == 256 * p);
        }
        let b: u64 = bytes[i] as u64;
        assert(value + b * weight < 256 * p) by (nonlinear_arith)
            requires
                value < p,
                b <= 255,
                weight == p,
                p >= 0,
        ;
        assert(b * weight <= 255 * p) by (nonlinear_arith)
            requires
                b <= 255,
                weight == p,
                p >= 0,
        ;
        value = value + b * weight;
        if i < 7 {
            proof {
                lemma_place_grows(i as int + 1, 7);
                assert(place(7) * 256 == place(8));
            }
            weight = weight * 256;
        }
        i = i + 1;
    }
    value
}

proof fn lemma_place_grows(a: int, b: int)
    requires
        0 <= a <= b,
    ensures
        0 < place(a) <= place(b),
    decreases b,
{
    if a < b {
        lemma_place_grows(a, b - 1);
    } else if a > 0 {
        lemma_place_grows(a - 1, a - 1);
    }
}

proof fn lemma_value_is_bounded(bytes: Seq<u8>, n: nat)
    requires
        n <= bytes.len(),
    ensures
        0 <= le_value(bytes, n) < place(n as int),
    decreases n,
{
    if n > 0 {
        lemma_value_is_bounded(bytes, (n - 1) as nat);
        let p = place(n - 1);
        let b = bytes[n - 1] as int;
        assert(0 <= b * p <= 255 * p) by (nonlinear_arith)
            requires
                0 <= b <= 255,
                p >= 0,
        ;
    }
}

/// Whether `r` is a hash that the hasher can give for an image, as the number that
/// [`hash_from_bytes`] makes of its bytes.
pub closed spec fn may_hash(img: PixelImage, r: u64) -> bool {
    exists|bytes: Vec<u8>| #[trigger]
        call_ensures(hash_image, (img.width, img.height, &img.data), bytes) && r == hash_value(
            bytes@,
        )
}

/// The perceptual hash of an image, as a number: what [`hash_from_bytes`] makes of the
/// bytes that the hasher gives for this image.
pub fn compute_phash(img: &PixelImage) -> (r: u64)
    requires
        img.wf(),
    ensures
        may_hash(*img, r),
        r <= MAX_HASH,
{
    let bytes = hash_image(img.width, img.height, &img.data);
    proof {
        reveal_with_fuel(place, 6);
        lemma_value_is_bounded(bytes@, 5);
    }
    hash_from_bytes(&bytes)
}

/// The number of ones in the binary representation of `x`.
pub open spec fn ones(x: u64) -> nat
    decreases x,
{
    if x == 0 {
        0
    } else {
        (x % 2) as nat + ones(x / 2)
    }
}

/// `u64::count_ones` is the number of ones in the binary representation.
pub assume_specification[ u64::count_ones ](x: u64) -> (r: u32)
    ensures
        r == ones(x),
;

/// The number of bits in which two hashes differ.
pub open spec fn distance(a: u64, b: u64) -> nat {
    ones(a ^ b)
}

/// The Hamming distance between two perceptual hashes.
pub fn hamming_distance(a: u64, b: u64) -> (r: u32)
    ensures
        r == distance(a, b),
        r <= 64,
{
    proof {
        distance_is_bounded(a, b);
    }
    (a ^ b).count_ones()
}

proof fn lemma_ones_bound(x: u64, k: nat)
    requires
        k <= 64,
        x < bound(k),
    ensures
        ones(x) <= k,
    decreases k,
{
    if x != 0 && k > 0 {
        lemma_ones_bound(x / 2, (k - 1) as nat);
    }
}

spec fn bound(k: nat) -> int
    decreases k,
{
    if k == 0 {
        1
    } else {
        2 * bound((k - 1) as nat)
    }
}

proof fn lemma_ones_zero(x: u64)
    ensures
        ones(x) == 0 <==> x == 0,
    decreases x,
{
    if x != 0 {
        lemma_ones_zero(x / 2);
    }
}

/// A distance is at most 64.
pub proof fn distance_is_bounded(a: u64, b: u64)
    ensures
        distance(a, b) <= 64,
{
    reveal_with_fuel(bound, 65);
    lemma_ones_bound(a ^ b, 64);
}

/// Two hashes are at distance zero exactly where they are equal.
pub proof fn distance_zero_is_equality(a: u64, b: u64)
    ensures
        distance(a, b) == 0 <==> a == b,
{
    lemma_ones_zero(a ^ b);
    assert((a ^ b) == 0 <==> a == b) by (bit_vector);
}

/// The distance is the same both ways.
pub proof fn distance_is_symmetric(a: u64, b: u64)
    ensures
        distance(a, b) == distance(b, a),
{
    assert((a ^ b) == (b ^ a)) by (bit_vector);
}

/// How many of the bits from `k` on differ between two numbers.
pub open spec fn differing_bits(a: u64, b: u64, k: u64) -> nat
    decreases 64 - k,
{
    if k >= 64 {
        0
    } else {
        (if (a >> k) & 1 != (b >> k) & 1 {
            1nat
        } else {
            0
        }) + differing_bits(a, b, (k + 1) as u64)
    }
}

proof fn lemma_ones_of_shift(a: u64, b: u64, k: u64)
    requires
        k < 64,
    ensures
        ones((a ^ b) >> k) == differing_bits(a, b, k),
    decreases 64 - k,
{
    let x = (a ^ b) >> k;
    assert(x % 2 == 1 <==> (a >> k) & 1 != (b >> k) & 1) by (bit_vector)
        requires
            x == (a ^ b) >> k,
    ;
    if k < 63 {
        let j = (k + 1) as u64;
        assert(x / 2 == (a ^ b) >> j) by (bit_vector)
            requires
                x == (a ^ b) >> k,
                j == k + 1,
                k < 63,
        ;
        lemma_ones_of_shift(a, b, j);
        if x == 0 {
            assert((a ^ b) >> j == 0);
        }
    } else {
        assert(x / 2 == 0) by (bit_vector)
            requires
                x == (a ^ b) >> k,
                k == 63,
        ;
        reveal_with_fuel(ones, 3);
        reveal_with_fuel(differing_bits, 3);
    }
}

/// The distance of two hashes is the number of their bits that differ.
pub proof fn distance_counts_differing_bits(a: u64, b: u64, r: u32)
    requires
        call_ensures(hamming_distance, (a, b), r),
    ensures
        r == differing_bits(a, b, 0),
{
    lemma_ones_of_shift(a, b, 0);
    assert((a ^ b) >> 0 == a ^ b) by (bit_vector);
}

/// A byte, or zero where it is missing.
pub open spec fn byte_or_zero(bytes: Seq<u8>, i: int) -> int {
    if 0 <= i < bytes.len() {
        bytes[i] as int
    } else {
        0
    }
}

/// A hash as a number is made of its first eight bytes, each counting 256 times as much as
/// the one before it, where a missing byte counts as zero.
pub proof fn hashes_are_made_of_their_bytes(bytes: &Vec<u8>, r: u64)
    requires
        call_ensures(hash_from_bytes, (bytes,), r),
    ensures
        r == byte_or_zero(bytes@, 0) + byte_or_zero(bytes@, 1) * 0x100 + byte_or_zero(bytes@, 2)
            * 0x1_0000 + byte_or_zero(bytes@, 3) * 0x100_0000 + byte_or_zero(bytes@, 4)
            * 0x1_0000_0000 + byte_or_zero(bytes@, 5) * 0x100_0000_0000 + byte_or_zero(bytes@, 6)
            * 0x1_0000_0000_0000 + byte_or_zero(bytes@, 7) * 0x100_0000_0000_0000,
{
    reveal_with_fuel(place, 9);
    let b = bytes@;
    assert(le_value(b, 0) == 0);
    assert(place(0) == 1);
    assert(place(1) == 0x100);
    assert(place(2) == 0x1_0000);
    assert(place(3) == 0x100_0000);
    assert(place(4) == 0x1_0000_0000);
    assert(place(5) == 0x100_0000_0000);
    assert(place(6) == 0x1_0000_0000_0000);
    assert(place(7) == 0x100_0000_0000_0000);
    assert(le_value(b, 1) == le_value(b, 0) + b[0] * 1);
    assert(le_value(b, 2) == le_value(b, 1) + b[1] * 0x100);
    assert(le_value(b, 3) == le_value(b, 2) + b[2] * 0x1_0000);
    assert(le_value(b, 4) == le_value(b, 3) + b[3] * 0x100_0000);
    assert(le_value(b, 5) == le_value(b, 4) + b[4] * 0x1_0000_0000);
    assert(le_value(b, 6) == le_value(b, 5) + b[5] * 0x100_0000_0000);
    assert(le_value(b, 7) == le_value(b, 6) + b[6] * 0x1_0000_0000_0000);
    assert(le_value(b, 8) == le_value(b, 7) + b[7] * 0x100_0000_0000_0000);
}

/// The hash of an image is made of the bytes that the hasher gives for this image, in its
/// own size.
proof fn images_are_hashed_as_they_are(img: &PixelImage, r: u64)
    requires
        img.wf(),
        call_ensures(compute_phash, (img,), r),
    ensures
        r < 0x100_0000_0000,
        exists|bytes: Vec<u8>|
            #[trigger] call_ensures(hash_image, (img.width, img.height, &img.data), bytes) && r
                == bytes@[0] + bytes@[1] * 0x100 + bytes@[2] * 0x1_0000 + bytes@[3] * 0x100_0000
                + bytes@[4] * 0x1_0000_0000,
{
    let bytes = choose|bytes: Vec<u8>| #[trigger]
        call_ensures(hash_image, (img.width, img.height, &img.data), bytes) && r == hash_value(
            bytes@,
        );
    let b = bytes@;
    reveal_with_fuel(place, 6);
    assert(b.len() == 5);
    assert(le_value(b, 0) == 0);
    assert(place(0) == 1 && place(1) == 0x100 && place(2) == 0x1_0000 && place(3) == 0x100_0000
        && place(4) == 0x1_0000_0000);
    assert(le_value(b, 1) == le_value(b, 0) + b[0] * 1);
    assert(le_value(b, 2) == le_value(b, 1) + b[1] * 0x100);
    assert(le_value(b, 3) == le_value(b, 2) + b[2] * 0x1_0000);
    assert(le_value(b, 4) == le_value(b, 3) + b[3] * 0x100_0000);
    assert(le_value(b, 5) == le_value(b, 4) + b[4] * 0x1_0000_0000);
}

} // verus!
