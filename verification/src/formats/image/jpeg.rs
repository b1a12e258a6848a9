//! The integer core of baseline JPEG (ITU-T T.81): the marker segments before the scan, read and
//! written; quantization-table scaling and the zigzag order; canonical Huffman tables for both
//! directions; the `0xFF`-stuffed, most-significant-first entropy-coded bits; and the
//! coefficients of every block of a scan, decoded and encoded.
//!
//! The transform, chroma-sampling and color-conversion stages work in floating point and are not
//! part of this module: a decoder gets the quantized coefficients of each block from here, an
//! encoder hands them here.

use vstd::prelude::*;

use super::raster::dims_ok;
use super::zlib::{lemma_pow2_mono, pow2};
use crate::{ConvertError, ConvertOptions, Format};

verus! {

/// The encode quality used when none is set (IJG `1..=100` scale).
pub const DEFAULT_QUALITY: u8 = 75;
/// The lowest encode quality.
pub const MIN_QUALITY: u8 = 1;
/// The highest encode quality.
pub const MAX_QUALITY: u8 = 100;
/// The largest magnitude category the standard AC tables code.
pub const MAX_AC_CATEGORY: u8 = 10;
/// The largest magnitude category the standard DC tables code.
pub const MAX_DC_CATEGORY: u8 = 11;

/// The `MalformedInput` error of this format.
pub open spec fn malformed() -> ConvertError {
    ConvertError::MalformedInput { format: Format::Jpeg }
}

// ─── Magnitude categories ───────────────────────────────────────────────────

/// `2^n` as a 32-bit value, for `n <= 30`.
fn pow2_i32(n: u8) -> (r: i32)
    requires
        n <= 30,
    ensures
        r == pow2(n as nat),
        r >= 1,
{
    let mut v: i32 = 1;
    let mut k: u8 = 0;
    proof {
        assert(pow2(30) == 0x4000_0000) by {
            reveal_with_fuel(pow2, 31);
        }
        assert(pow2(0) == 1);
    }
    while k < n
        invariant
            k <= n <= 30,
            v == pow2(k as nat),
            v >= 1,
            pow2(30) == 0x4000_0000,
        decreases n - k,
    {
        proof {
            lemma_pow2_mono((k + 1) as nat, 30);
            assert(pow2((k + 1) as nat) == 2 * pow2(k as nat));
        }
        v = v * 2;
        k = k + 1;
    }
    v
}

/// JPEG's `EXTEND`: the signed value of the `size`-bit magnitude field `bits`. Fields below
/// `2^(size - 1)` stand for negative values; `size == 0` is always `0`.
pub open spec fn extend_spec(bits: int, size: int) -> int {
    if size == 0 {
        0
    } else if bits < pow2((size - 1) as nat) {
        bits - (pow2(size as nat) - 1)
    } else {
        bits
    }
}

/// The number of bits in `m`'s binary form (`0` for `0`).
pub open spec fn bit_len(m: nat) -> nat
    decreases m,
{
    if m == 0 {
        0
    } else {
        1 + bit_len(m / 2)
    }
}

/// The `(size, bits)` pair a coefficient `v` is coded as: `size` is the bit length of `|v|`,
/// `bits` is `v` itself when positive and `v + 2^size - 1` when negative.
pub open spec fn category_spec(v: int) -> (int, int) {
    if v == 0 {
        (0, 0)
    } else {
        let size = bit_len(if v > 0 { v as nat } else { (-v) as nat }) as int;
        (size, if v > 0 { v } else { v + pow2(size as nat) - 1 })
    }
}

/// A positive number of `k` bits lies in `[2^(k-1), 2^k)`.
pub proof fn lemma_bit_len_bounds(m: nat)
    requires
        m > 0,
    ensures
        bit_len(m) >= 1,
        pow2((bit_len(m) - 1) as nat) <= m < pow2(bit_len(m)),
    decreases m,
{
    if m > 1 {
        lemma_bit_len_bounds(m / 2);
    } else {
        assert(bit_len(0) == 0);
        assert(bit_len(1) == 1);
    }
}

/// A number below `2^k` has at most `k` bits.
pub proof fn lemma_bit_len_le(m: nat, k: nat)
    requires
        m < pow2(k),
    ensures
        bit_len(m) <= k,
    decreases m,
{
    if m > 0 {
        if k == 0 {
            assert(pow2(0) == 1);
        } else {
            lemma_bit_len_le(m / 2, (k - 1) as nat);
        }
    }
}

/// The signed value of the `size`-bit magnitude field `bits` (see [`extend_spec`]).
pub fn extend(bits: u32, size: u8) -> (r: i32)
    requires
        size <= 30,
        bits < pow2(size as nat),
    ensures
        r == extend_spec(bits as int, size as int),
{
    if size == 0 {
        return 0;
    }
    let half = pow2_i32(size - 1);
    let full = pow2_i32(size);
    proof {
        lemma_pow2_mono(size as nat, 30);
        assert(pow2(30) == 0x4000_0000) by {
            reveal_with_fuel(pow2, 31);
        }
    }
    let b = bits as i32;
    if b < half {
        b - (full - 1)
    } else {
        b
    }
}

/// The `(size, bits)` a coefficient is coded as (see [`category_spec`]).
pub fn category_and_bits(v: i32) -> (r: (u8, u32))
    requires
        v > -0x4000_0000,
    ensures
        r.0 == category_spec(v as int).0,
        r.1 == category_spec(v as int).1,
        r.0 <= 31,
        r.1 < pow2(r.0 as nat),
{
    if v == 0 {
        assert(pow2(0) == 1);
        return (0, 0);
    }
    let mag: u32 = if v > 0 { v as u32 } else { (-v) as u32 };
    let mut m = mag;
    let mut size: u8 = 0;
    proof {
        lemma_bit_len_bounds(mag as nat);
        assert(pow2(32) == 0x1_0000_0000) by {
            reveal_with_fuel(pow2, 33);
        }
        lemma_bit_len_le(mag as nat, 32);
    }
    while m > 0
        invariant
            bit_len(mag as nat) == size + bit_len(m as nat),
            size <= 32,
            bit_len(mag as nat) <= 32,
        decreases m,
    {
        m = m / 2;
        size = size + 1;
    }
    proof {
        if v > 0 {
            if size >= 32 {
                lemma_pow2_mono(31, (size - 1) as nat);
                assert(pow2(31) == 0x8000_0000) by {
                    reveal_with_fuel(pow2, 32);
                }
            }
        } else {
            if size >= 31 {
                lemma_pow2_mono(30, (size - 1) as nat);
                assert(pow2(30) == 0x4000_0000) by {
                    reveal_with_fuel(pow2, 31);
                }
            }
        }
    }
    if v > 0 {
        (size, mag)
    } else {
        let full = pow2_i32(size);
        proof {
            assert(pow2(size as nat) == 2 * pow2((size - 1) as nat));
        }
        (size, (v + full - 1) as u32)
    }
}

/// Coding a coefficient and reading it back gives the coefficient: [`extend`] undoes
/// [`category_and_bits`] for every value they take.
#[verifier::spinoff_prover]
pub proof fn lemma_extend_undoes_category(v: int)
    requires
        -0x4000_0000 < v < 0x4000_0000,
    ensures
        category_spec(v).0 <= 30,
        0 <= category_spec(v).1 < pow2(category_spec(v).0 as nat),
        extend_spec(category_spec(v).1, category_spec(v).0) == v,
{
    if v != 0 {
        let m: nat = if v > 0 { v as nat } else { (-v) as nat };
        lemma_bit_len_bounds(m);
        assert(pow2(30) == 0x4000_0000) by {
            reveal_with_fuel(pow2, 31);
        }
        lemma_bit_len_le(m, 30);
        let k = bit_len(m);
        assert(pow2(k) == 2 * pow2((k - 1) as nat));
    } else {
        assert(pow2(0) == 1);
    }
}

/// `v` limited to the values a category of at most `max_category` bits codes.
pub open spec fn clamp_category_spec(v: int, max_category: int) -> int {
    let limit = pow2(max_category as nat) - 1;
    if v < -limit {
        -limit
    } else if v > limit {
        limit
    } else {
        v
    }
}

/// `v` limited to `±(2^max_category - 1)`, so a coded table always has a code for it.
pub fn clamp_to_category(v: i32, max_category: u8) -> (r: i32)
    requires
        max_category <= 30,
    ensures
        r == clamp_category_spec(v as int, max_category as int),
{
    proof {
        lemma_pow2_mono(max_category as nat, 30);
        assert(pow2(30) == 0x4000_0000) by {
            reveal_with_fuel(pow2, 31);
        }
        assert(pow2(0) == 1);
        lemma_pow2_mono(0, max_category as nat);
    }
    let limit = pow2_i32(max_category) - 1;
    if v < -limit {
        -limit
    } else if v > limit {
        limit
    } else {
        v
    }
}

// ─── Zigzag order and quantization tables ───────────────────────────────────

/// The natural (row-major) position of the `i`-th coefficient sent in a block.
pub open spec fn zigzag_spec() -> Seq<usize> {
    seq![
        0usize, 1, 8, 16, 9, 2, 3, 10, 17, 24, 32, 25, 18, 11, 4, 5, 12, 19, 26, 33, 40, 48, 41, 34, 27, 20, 13, 6, 7, 14,
        21, 28, 35, 42, 49, 56, 57, 50, 43, 36, 29, 22, 15, 23, 30, 37, 44, 51, 58, 59, 52, 45, 38, 31, 39, 46, 53, 60, 61,
        54, 47, 55, 62, 63,
    ]
}

/// The zigzag order (see [`zigzag_spec`]).
pub fn zigzag() -> (r: [usize; 64])
    ensures
        r@ == zigzag_spec(),
        forall|i: int| 0 <= i < 64 ==> #[trigger] r@[i] < 64,
{
    let r: [usize; 64] = [
        0, 1, 8, 16, 9, 2, 3, 10, 17, 24, 32, 25, 18, 11, 4, 5, 12, 19, 26, 33, 40, 48, 41, 34, 27, 20, 13, 6, 7, 14,
        21, 28, 35, 42, 49, 56, 57, 50, 43, 36, 29, 22, 15, 23, 30, 37, 44, 51, 58, 59, 52, 45, 38, 31, 39, 46, 53, 60, 61,
        54, 47, 55, 62, 63,
    ];
    assert(r@ =~= zigzag_spec());
    r
}

/// The Annex K luminance quantization table, natural order.
#[verifier::allow_in_spec]
pub fn std_luma_qt() -> (r: [u16; 64])
    returns
        [
            16u16, 11, 10, 16, 24, 40, 51, 61, 12, 12, 14, 19, 26, 58, 60, 55, 14, 13, 16, 24, 40, 57, 69, 56, 14, 17, 22, 29, 51,
            87, 80, 62, 18, 22, 37, 56, 68, 109, 103, 77, 24, 35, 55, 64, 81, 104, 113, 92, 49, 64, 78, 87, 103, 121, 120,
            101, 72, 92, 95, 98, 112, 100, 103, 99,
        ],
{
    [
        16, 11, 10, 16, 24, 40, 51, 61, 12, 12, 14, 19, 26, 58, 60, 55, 14, 13, 16, 24, 40, 57, 69, 56, 14, 17, 22, 29, 51,
        87, 80, 62, 18, 22, 37, 56, 68, 109, 103, 77, 24, 35, 55, 64, 81, 104, 113, 92, 49, 64, 78, 87, 103, 121, 120,
        101, 72, 92, 95, 98, 112, 100, 103, 99,
    ]
}
/// The Annex K chrominance quantization table, natural order.
#[verifier::allow_in_spec]
pub fn std_chroma_qt() -> (r: [u16; 64])
    returns
        [
            17u16, 18, 24, 47, 99, 99, 99, 99, 18, 21, 26, 66, 99, 99, 99, 99, 24, 26, 56, 99, 99, 99, 99, 99, 47, 66, 99, 99, 99,
            99, 99, 99, 99, 99, 99, 99, 99, 99, 99, 99, 99, 99, 99, 99, 99, 99, 99, 99, 99, 99, 99, 99, 99, 99, 99, 99, 99, 99,
            99, 99, 99, 99, 99, 99,
        ],
{
    [
        17, 18, 24, 47, 99, 99, 99, 99, 18, 21, 26, 66, 99, 99, 99, 99, 24, 26, 56, 99, 99, 99, 99, 99, 47, 66, 99, 99, 99,
        99, 99, 99, 99, 99, 99, 99, 99, 99, 99, 99, 99, 99, 99, 99, 99, 99, 99, 99, 99, 99, 99, 99, 99, 99, 99, 99, 99, 99,
        99, 99, 99, 99, 99, 99,
    ]
}
/// The number of codes a `DHT` count list describes: the sum of its first `i` counts.
pub open spec fn count_sum(counts: Seq<u8>, i: int) -> int
    decreases i,
{
    if i <= 0 {
        0
    } else {
        count_sum(counts, i - 1) + counts[i - 1]
    }
}

proof fn lemma_sizes_len(counts: Seq<u8>, i: int)
    requires
        0 <= i <= counts.len(),
    ensures
        sizes_upto(counts, i).len() == count_sum(counts, i),
    decreases i,
{
    if i > 0 {
        lemma_sizes_len(counts, i - 1);
    }
}

/// The Annex K luminance DC code-length counts.
#[verifier::allow_in_spec]
pub fn std_dc_luma_bits() -> (r: [u8; 16])
    returns
        [0u8, 1, 5, 1, 1, 1, 1, 1, 1, 0, 0, 0, 0, 0, 0, 0],
{
    [0, 1, 5, 1, 1, 1, 1, 1, 1, 0, 0, 0, 0, 0, 0, 0]
}

/// The Annex K chrominance DC code-length counts.
#[verifier::allow_in_spec]
pub fn std_dc_chroma_bits() -> (r: [u8; 16])
    returns
        [0u8, 3, 1, 1, 1, 1, 1, 1, 1, 1, 1, 0, 0, 0, 0, 0],
{
    [0, 3, 1, 1, 1, 1, 1, 1, 1, 1, 1, 0, 0, 0, 0, 0]
}

/// The Annex K DC symbols (luminance and chrominance alike): the categories `0..=11`.
#[verifier::allow_in_spec]
pub fn std_dc_values() -> (r: [u8; 12])
    returns
        [0u8, 1, 2, 3, 4, 5, 6, 7, 8, 9, 10, 11],
{
    [0, 1, 2, 3, 4, 5, 6, 7, 8, 9, 10, 11]
}

/// The Annex K luminance AC code-length counts.
#[verifier::allow_in_spec]
pub fn std_ac_luma_bits() -> (r: [u8; 16])
    returns
        [0u8, 2, 1, 3, 3, 2, 4, 3, 5, 5, 4, 4, 0, 0, 1, 0x7d],
{
    [0, 2, 1, 3, 3, 2, 4, 3, 5, 5, 4, 4, 0, 0, 1, 0x7d]
}

/// The Annex K chrominance AC code-length counts.
#[verifier::allow_in_spec]
pub fn std_ac_chroma_bits() -> (r: [u8; 16])
    returns
        [0u8, 2, 1, 2, 4, 4, 3, 4, 7, 5, 4, 4, 0, 1, 2, 0x77],
{
    [0, 2, 1, 2, 4, 4, 3, 4, 7, 5, 4, 4, 0, 1, 2, 0x77]
}

/// The Annex K luminance AC symbols.
#[verifier::allow_in_spec]
pub fn std_ac_luma_values() -> (r: [u8; 162])
    returns
        [
            0x01u8, 0x02, 0x03, 0x00, 0x04, 0x11, 0x05, 0x12, 0x21, 0x31, 0x41, 0x06, 0x13, 0x51, 0x61, 0x07, 0x22, 0x71,
            0x14, 0x32, 0x81, 0x91, 0xa1, 0x08, 0x23, 0x42, 0xb1, 0xc1, 0x15, 0x52, 0xd1, 0xf0, 0x24, 0x33, 0x62, 0x72,
            0x82, 0x09, 0x0a, 0x16, 0x17, 0x18, 0x19, 0x1a, 0x25, 0x26, 0x27, 0x28, 0x29, 0x2a, 0x34, 0x35, 0x36, 0x37,
            0x38, 0x39, 0x3a, 0x43, 0x44, 0x45, 0x46, 0x47, 0x48, 0x49, 0x4a, 0x53, 0x54, 0x55, 0x56, 0x57, 0x58, 0x59,
            0x5a, 0x63, 0x64, 0x65, 0x66, 0x67, 0x68, 0x69, 0x6a, 0x73, 0x74, 0x75, 0x76, 0x77, 0x78, 0x79, 0x7a, 0x83,
            0x84, 0x85, 0x86, 0x87, 0x88, 0x89, 0x8a, 0x92, 0x93, 0x94, 0x95, 0x96, 0x97, 0x98, 0x99, 0x9a, 0xa2, 0xa3,
            0xa4, 0xa5, 0xa6, 0xa7, 0xa8, 0xa9, 0xaa, 0xb2, 0xb3, 0xb4, 0xb5, 0xb6, 0xb7, 0xb8, 0xb9, 0xba, 0xc2, 0xc3,
            0xc4, 0xc5, 0xc6, 0xc7, 0xc8, 0xc9, 0xca, 0xd2, 0xd3, 0xd4, 0xd5, 0xd6, 0xd7, 0xd8, 0xd9, 0xda, 0xe1, 0xe2,
            0xe3, 0xe4, 0xe5, 0xe6, 0xe7, 0xe8, 0xe9, 0xea, 0xf1, 0xf2, 0xf3, 0xf4, 0xf5, 0xf6, 0xf7, 0xf8, 0xf9, 0xfa,
        ],
{
    [
        0x01, 0x02, 0x03, 0x00, 0x04, 0x11, 0x05, 0x12, 0x21, 0x31, 0x41, 0x06, 0x13, 0x51, 0x61, 0x07, 0x22, 0x71,
        0x14, 0x32, 0x81, 0x91, 0xa1, 0x08, 0x23, 0x42, 0xb1, 0xc1, 0x15, 0x52, 0xd1, 0xf0, 0x24, 0x33, 0x62, 0x72,
        0x82, 0x09, 0x0a, 0x16, 0x17, 0x18, 0x19, 0x1a, 0x25, 0x26, 0x27, 0x28, 0x29, 0x2a, 0x34, 0x35, 0x36, 0x37,
        0x38, 0x39, 0x3a, 0x43, 0x44, 0x45, 0x46, 0x47, 0x48, 0x49, 0x4a, 0x53, 0x54, 0x55, 0x56, 0x57, 0x58, 0x59,
        0x5a, 0x63, 0x64, 0x65, 0x66, 0x67, 0x68, 0x69, 0x6a, 0x73, 0x74, 0x75, 0x76, 0x77, 0x78, 0x79, 0x7a, 0x83,
        0x84, 0x85, 0x86, 0x87, 0x88, 0x89, 0x8a, 0x92, 0x93, 0x94, 0x95, 0x96, 0x97, 0x98, 0x99, 0x9a, 0xa2, 0xa3,
        0xa4, 0xa5, 0xa6, 0xa7, 0xa8, 0xa9, 0xaa, 0xb2, 0xb3, 0xb4, 0xb5, 0xb6, 0xb7, 0xb8, 0xb9, 0xba, 0xc2, 0xc3,
        0xc4, 0xc5, 0xc6, 0xc7, 0xc8, 0xc9, 0xca, 0xd2, 0xd3, 0xd4, 0xd5, 0xd6, 0xd7, 0xd8, 0xd9, 0xda, 0xe1, 0xe2,
        0xe3, 0xe4, 0xe5, 0xe6, 0xe7, 0xe8, 0xe9, 0xea, 0xf1, 0xf2, 0xf3, 0xf4, 0xf5, 0xf6, 0xf7, 0xf8, 0xf9, 0xfa,
    ]
}

/// The Annex K chrominance AC symbols.
#[verifier::allow_in_spec]
pub fn std_ac_chroma_values() -> (r: [u8; 162])
    returns
        [
            0x00u8, 0x01, 0x02, 0x03, 0x11, 0x04, 0x05, 0x21, 0x31, 0x06, 0x12, 0x41, 0x51, 0x07, 0x61, 0x71, 0x13, 0x22,
            0x32, 0x81, 0x08, 0x14, 0x42, 0x91, 0xa1, 0xb1, 0xc1, 0x09, 0x23, 0x33, 0x52, 0xf0, 0x15, 0x62, 0x72, 0xd1,
            0x0a, 0x16, 0x24, 0x34, 0xe1, 0x25, 0xf1, 0x17, 0x18, 0x19, 0x1a, 0x26, 0x27, 0x28, 0x29, 0x2a, 0x35, 0x36,
            0x37, 0x38, 0x39, 0x3a, 0x43, 0x44, 0x45, 0x46, 0x47, 0x48, 0x49, 0x4a, 0x53, 0x54, 0x55, 0x56, 0x57, 0x58,
            0x59, 0x5a, 0x63, 0x64, 0x65, 0x66, 0x67, 0x68, 0x69, 0x6a, 0x73, 0x74, 0x75, 0x76, 0x77, 0x78, 0x79, 0x7a,
            0x82, 0x83, 0x84, 0x85, 0x86, 0x87, 0x88, 0x89, 0x8a, 0x92, 0x93, 0x94, 0x95, 0x96, 0x97, 0x98, 0x99, 0x9a,
            0xa2, 0xa3, 0xa4, 0xa5, 0xa6, 0xa7, 0xa8, 0xa9, 0xaa, 0xb2, 0xb3, 0xb4, 0xb5, 0xb6, 0xb7, 0xb8, 0xb9, 0xba,
            0xc2, 0xc3, 0xc4, 0xc5, 0xc6, 0xc7, 0xc8, 0xc9, 0xca, 0xd2, 0xd3, 0xd4, 0xd5, 0xd6, 0xd7, 0xd8, 0xd9, 0xda,
            0xe2, 0xe3, 0xe4, 0xe5, 0xe6, 0xe7, 0xe8, 0xe9, 0xea, 0xf2, 0xf3, 0xf4, 0xf5, 0xf6, 0xf7, 0xf8, 0xf9, 0xfa,
        ],
{
    [
        0x00, 0x01, 0x02, 0x03, 0x11, 0x04, 0x05, 0x21, 0x31, 0x06, 0x12, 0x41, 0x51, 0x07, 0x61, 0x71, 0x13, 0x22,
        0x32, 0x81, 0x08, 0x14, 0x42, 0x91, 0xa1, 0xb1, 0xc1, 0x09, 0x23, 0x33, 0x52, 0xf0, 0x15, 0x62, 0x72, 0xd1,
        0x0a, 0x16, 0x24, 0x34, 0xe1, 0x25, 0xf1, 0x17, 0x18, 0x19, 0x1a, 0x26, 0x27, 0x28, 0x29, 0x2a, 0x35, 0x36,
        0x37, 0x38, 0x39, 0x3a, 0x43, 0x44, 0x45, 0x46, 0x47, 0x48, 0x49, 0x4a, 0x53, 0x54, 0x55, 0x56, 0x57, 0x58,
        0x59, 0x5a, 0x63, 0x64, 0x65, 0x66, 0x67, 0x68, 0x69, 0x6a, 0x73, 0x74, 0x75, 0x76, 0x77, 0x78, 0x79, 0x7a,
        0x82, 0x83, 0x84, 0x85, 0x86, 0x87, 0x88, 0x89, 0x8a, 0x92, 0x93, 0x94, 0x95, 0x96, 0x97, 0x98, 0x99, 0x9a,
        0xa2, 0xa3, 0xa4, 0xa5, 0xa6, 0xa7, 0xa8, 0xa9, 0xaa, 0xb2, 0xb3, 0xb4, 0xb5, 0xb6, 0xb7, 0xb8, 0xb9, 0xba,
        0xc2, 0xc3, 0xc4, 0xc5, 0xc6, 0xc7, 0xc8, 0xc9, 0xca, 0xd2, 0xd3, 0xd4, 0xd5, 0xd6, 0xd7, 0xd8, 0xd9, 0xda,
        0xe2, 0xe3, 0xe4, 0xe5, 0xe6, 0xe7, 0xe8, 0xe9, 0xea, 0xf2, 0xf3, 0xf4, 0xf5, 0xf6, 0xf7, 0xf8, 0xf9, 0xfa,
    ]
}

/// The standard code-length counts describe as many codes as the standard tables list symbols.
pub proof fn lemma_std_table_sizes()
    ensures
        huff_sizes(std_dc_luma_bits()@).len() == 12,
        huff_sizes(std_dc_chroma_bits()@).len() == 12,
        huff_sizes(std_ac_luma_bits()@).len() == 162,
        huff_sizes(std_ac_chroma_bits()@).len() == 162,
{
    reveal_with_fuel(count_sum, 17);
    lemma_sizes_len(std_dc_luma_bits()@, 16);
    lemma_sizes_len(std_dc_chroma_bits()@, 16);
    lemma_sizes_len(std_ac_luma_bits()@, 16);
    lemma_sizes_len(std_ac_chroma_bits()@, 16);
}

/// The scale factor, in percent, of IJG quality `q` (clamped to `1..=100`): `5000 / q` below
/// 50, `200 - 2q` from 50 on.
pub open spec fn quality_scale(quality: int) -> int {
    let q: int = if quality < 1 { 1 } else if quality > 100 { 100 } else { quality };
    if q < 50 {
        5000int / q
    } else {
        200 - q * 2
    }
}

/// One scaled table entry: `(v * scale + 50) / 100`, limited to `1..=255`.
pub open spec fn scaled_entry(v: int, scale: int) -> u16 {
    let s = (v * scale + 50) / 100;
    if s < 1 {
        1
    } else if s > 255 {
        255
    } else {
        s as u16
    }
}

/// `base` scaled for IJG quality `quality` (see [`quality_scale`], [`scaled_entry`]).
pub fn scale_quant_table(base: &[u16; 64], quality: u8) -> (r: [u16; 64])
    ensures
        forall|i: int| 0 <= i < 64 ==> #[trigger] r@[i] == scaled_entry(base@[i] as int, quality_scale(quality as int)),
{
    let q: i32 = if quality < MIN_QUALITY {
        MIN_QUALITY as i32
    } else if quality > MAX_QUALITY {
        MAX_QUALITY as i32
    } else {
        quality as i32
    };
    let scale: i32 = if q < 50 {
        5000 / q
    } else {
        200 - q * 2
    };
    let mut out = [0u16; 64];
    let mut i: usize = 0;
    while i < 64
        invariant
            i <= 64,
            scale == quality_scale(quality as int),
            0 <= scale <= 5000,
            forall|k: int| 0 <= k < i ==> #[trigger] out@[k] == scaled_entry(base@[k] as int, scale as int),
        decreases 64 - i,
    {
        let v = base[i] as i32;
        proof {
            assert(v * scale <= 65535 * 5000) by (nonlinear_arith)
                requires 0 <= v <= 65535, 0 <= scale <= 5000;
            assert(v * scale >= 0) by (nonlinear_arith)
                requires 0 <= v, 0 <= scale;
        }
        let scaled = (v * scale + 50) / 100;
        let e: u16 = if scaled < 1 {
            1
        } else if scaled > 255 {
            255
        } else {
            scaled as u16
        };
        out[i] = e;
        i = i + 1;
    }
    out
}

/// `natural` in zigzag order.
pub fn natural_to_zigzag(natural: &[u16; 64]) -> (r: [u16; 64])
    ensures
        forall|i: int| 0 <= i < 64 ==> #[trigger] r@[i] == natural@[zigzag_spec()[i] as int],
{
    let zz = zigzag();
    let mut out = [0u16; 64];
    let mut i: usize = 0;
    while i < 64
        invariant
            i <= 64,
            zz@ == zigzag_spec(),
            forall|k: int| 0 <= k < 64 ==> #[trigger] zz@[k] < 64,
            forall|k: int| 0 <= k < i ==> #[trigger] out@[k] == natural@[zigzag_spec()[k] as int],
        decreases 64 - i,
    {
        let src = zz[i];
        out[i] = natural[src];
        i = i + 1;
    }
    out
}


// ─── Marker segments ────────────────────────────────────────────────────────

/// The 16-bit big-endian value of `d[i..i+2]`.
pub open spec fn be16(d: Seq<u8>, i: int) -> int {
    256 * d[i] + d[i + 1]
}

/// Reads the 16-bit big-endian value at `pos`; `None` past the end.
pub fn read_u16_be(input: &[u8], pos: usize) -> (r: Option<u16>)
    ensures
        pos + 2 <= input@.len() ==> r == Some(be16(input@, pos as int) as u16),
        pos + 2 > input@.len() ==> r is None,
{
    if pos >= input.len() || input.len() - pos < 2 {
        return None;
    }
    Some((input[pos] as u16) * 256 + input[pos + 1] as u16)
}

/// Where a segment whose length field is at `p` ends: `p` plus its length (which counts the
/// length field itself), when that is at least `min` and inside `d`.
pub open spec fn segment_end(d: Seq<u8>, p: int, min: int) -> Option<int> {
    if p + 2 > d.len() || be16(d, p) < min || p + be16(d, p) > d.len() {
        None
    } else {
        Some(p + be16(d, p))
    }
}

/// Skips a segment whose length field is at `*pos` (see [`segment_end`]).
pub fn skip_segment(input: &[u8], pos: &mut usize) -> (r: Result<(), ConvertError>)
    ensures
        match segment_end(input@, *old(pos) as int, 2) {
            Some(e) => r is Ok && *final(pos) == e,
            None => r == Err::<(), ConvertError>(malformed()) && *final(pos) == *old(pos),
        },
{
    let len = match read_u16_be(input, *pos) {
        Some(v) => v as usize,
        None => {
            return Err(ConvertError::MalformedInput { format: Format::Jpeg });
        },
    };
    if len < 2 || len > input.len() - *pos {
        return Err(ConvertError::MalformedInput { format: Format::Jpeg });
    }
    *pos = *pos + len;
    Ok(())
}

/// The restart interval a `DRI` segment at `p` sets: its length must be exactly 4.
pub open spec fn dri_spec(d: Seq<u8>, p: int) -> Result<(int, u16), ConvertError> {
    if p + 2 > d.len() || be16(d, p) != 4 || p + 4 > d.len() {
        Err(malformed())
    } else {
        Ok((p + 4, be16(d, p + 2) as u16))
    }
}

/// Reads a `DRI` segment at `*pos` (see [`dri_spec`]).
pub fn parse_dri(input: &[u8], pos: &mut usize) -> (r: Result<u16, ConvertError>)
    ensures
        match dri_spec(input@, *old(pos) as int) {
            Ok((e, v)) => r == Ok::<u16, ConvertError>(v) && *final(pos) == e,
            Err(err) => r == Err::<u16, ConvertError>(err) && *final(pos) == *old(pos),
        },
{
    let len = match read_u16_be(input, *pos) {
        Some(v) => v as usize,
        None => {
            return Err(ConvertError::MalformedInput { format: Format::Jpeg });
        },
    };
    if len != 4 || len > input.len() - *pos {
        return Err(ConvertError::MalformedInput { format: Format::Jpeg });
    }
    let interval = match read_u16_be(input, *pos + 2) {
        Some(v) => v,
        None => {
            return Err(ConvertError::MalformedInput { format: Format::Jpeg });
        },
    };
    *pos = *pos + 4;
    Ok(interval)
}

/// One frame component: its id, sampling factors and quantization table.
#[derive(Clone, Copy, Debug, PartialEq, Eq, Structural)]
pub struct Component {
    pub id: u8,
    pub h: u8,
    pub v: u8,
    pub qt: u8,
}

/// The frame header: the image size and its components.
pub struct SofInfo {
    pub width: usize,
    pub height: usize,
    pub components: Vec<Component>,
}

/// The component whose three bytes start at `i`.
pub open spec fn comp_at(d: Seq<u8>, i: int) -> Component {
    Component { id: d[i], h: d[i + 1] / 16, v: d[i + 1] % 16, qt: d[i + 2] }
}

/// Sampling factors `1..=4` and a quantization table `0..=3`.
pub open spec fn comp_ok(c: Component) -> bool {
    1 <= c.h <= 4 && 1 <= c.v <= 4 && c.qt < 4
}

/// The `nf` components from byte `i`.
pub open spec fn comps_at(d: Seq<u8>, i: int, nf: int) -> Seq<Component> {
    Seq::new(nf as nat, |c: int| comp_at(d, i + 3 * c))
}

/// A `SOFn` segment at `p`: at least 8 bytes long; 8-bit samples (else unsupported); height,
/// width and a component count of 1 or 3 (else unsupported); exactly three bytes per component,
/// each with valid sampling factors and table; a size a decoder accepts. The segment's end and
/// `(width, height, components)`.
pub open spec fn sof_spec(d: Seq<u8>, p: int) -> Result<(int, int, int, Seq<Component>), ConvertError> {
    match segment_end(d, p, 8) {
        None => Err(malformed()),
        Some(e) => {
            let q = p + 2;
            let nf = d[q + 5] as int;
            if d[q] != 8 {
                Err(ConvertError::UnsupportedFeature { format: Format::Jpeg, feature: "jpeg-sample-precision" })
            } else if nf != 1 && nf != 3 {
                Err(ConvertError::UnsupportedFeature { format: Format::Jpeg, feature: "jpeg-component-count" })
            } else if e - (q + 6) != nf * 3 {
                Err(malformed())
            } else if exists|c: int| 0 <= c < nf && !comp_ok(#[trigger] comps_at(d, q + 6, nf)[c]) {
                Err(malformed())
            } else if !dims_ok(be16(d, q + 3), be16(d, q + 1)) {
                Err(malformed())
            } else {
                Ok((e, be16(d, q + 3), be16(d, q + 1), comps_at(d, q + 6, nf)))
            }
        },
    }
}

/// Reads a `SOFn` segment at `*pos` (see [`sof_spec`]).
#[verifier::loop_isolation(false)]
pub fn parse_sof(input: &[u8], pos: &mut usize) -> (r: Result<SofInfo, ConvertError>)
    ensures
        match sof_spec(input@, *old(pos) as int) {
            Ok((e, w, h, comps)) => r matches Ok(s) && s.width == w && s.height == h && s.components@ == comps
                && *final(pos) == e,
            Err(err) => r matches Err(x) && x == err && *final(pos) == *old(pos),
        },
{
    let p0 = *pos;
    let len = match read_u16_be(input, p0) {
        Some(v) => v as usize,
        None => {
            return Err(ConvertError::MalformedInput { format: Format::Jpeg });
        },
    };
    if len < 8 || len > input.len() - p0 {
        return Err(ConvertError::MalformedInput { format: Format::Jpeg });
    }
    let seg_end = p0 + len;
    let q = p0 + 2;
    let precision = input[q];
    if precision != 8 {
        return Err(ConvertError::UnsupportedFeature { format: Format::Jpeg, feature: "jpeg-sample-precision" });
    }
    let height = (input[q + 1] as usize) * 256 + input[q + 2] as usize;
    let width = (input[q + 3] as usize) * 256 + input[q + 4] as usize;
    let nf = input[q + 5] as usize;
    if nf != 1 && nf != 3 {
        return Err(ConvertError::UnsupportedFeature { format: Format::Jpeg, feature: "jpeg-component-count" });
    }
    if seg_end - (q + 6) != nf * 3 {
        return Err(ConvertError::MalformedInput { format: Format::Jpeg });
    }
    let ghost d = input@;
    let mut components: Vec<Component> = Vec::new();
    let mut c: usize = 0;
    while c < nf
        invariant
            d == input@,
            c <= nf <= 3,
            seg_end == q + 6 + 3 * nf,
            seg_end <= input@.len(),
            components@ == comps_at(d, q + 6, nf as int).take(c as int),
            forall|k: int| 0 <= k < c ==> comp_ok(#[trigger] comps_at(d, q + 6, nf as int)[k]),
        decreases nf - c,
    {
        let at = q + 6 + 3 * c;
        let id = input[at];
        let hv = input[at + 1];
        let h = hv / 16;
        let v = hv % 16;
        let qt = input[at + 2];
        let comp = Component { id, h, v, qt };
        proof {
            assert(comp == comps_at(d, q + 6, nf as int)[c as int]);
        }
        if h == 0 || h > 4 || v == 0 || v > 4 || qt >= 4 {
            proof {
                assert(!comp_ok(comps_at(d, q + 6, nf as int)[c as int]));
            }
            return Err(ConvertError::MalformedInput { format: Format::Jpeg });
        }
        components.push(comp);
        proof {
            assert(components@ =~= comps_at(d, q + 6, nf as int).take(c + 1));
        }
        c = c + 1;
    }
    proof {
        assert(width * height <= 65535 * 65535) by (nonlinear_arith)
            requires width <= 65535, height <= 65535;
    }
    if !(width >= 1 && height >= 1 && (width as u64) * (height as u64) <= super::raster::MAX_PIXELS) {
        return Err(ConvertError::MalformedInput { format: Format::Jpeg });
    }
    proof {
        assert(components@ =~= comps_at(d, q + 6, nf as int));
    }
    *pos = seg_end;
    Ok(SofInfo { width, height, components })
}

/// One scan component: which frame component, and its DC and AC table slots.
#[derive(Clone, Copy, Debug, PartialEq, Eq, Structural)]
pub struct ScanComponent {
    pub comp_index: usize,
    pub dc_table: u8,
    pub ac_table: u8,
}

/// The index of the first component with id `id`, or `-1`.
pub open spec fn comp_index_of(comps: Seq<Component>, id: u8) -> int
    decreases comps.len(),
{
    if comps.len() == 0 {
        -1
    } else {
        let k = comp_index_of(comps.drop_last(), id);
        if k >= 0 {
            k
        } else if comps.last().id == id {
            comps.len() - 1
        } else {
            -1
        }
    }
}

/// The scan component whose two bytes start at `i`.
pub open spec fn scan_comp_at(d: Seq<u8>, i: int, comps: Seq<Component>) -> ScanComponent {
    ScanComponent { comp_index: comp_index_of(comps, d[i]) as usize, dc_table: d[i + 1] / 16, ac_table: d[i + 1] % 16 }
}

/// An `SOS` header at `p` for the frame components `comps`: at least 6 bytes long; one scan
/// component per frame component (else unsupported as progressive); each naming a frame
/// component, the bytes present; then spectral selection `0..63` and no successive
/// approximation (else unsupported as progressive). The segment's end and the scan components.
pub open spec fn sos_spec(d: Seq<u8>, p: int, comps: Seq<Component>) -> Result<(int, Seq<ScanComponent>), ConvertError> {
    match segment_end(d, p, 6) {
        None => Err(malformed()),
        Some(e) => {
            let q = p + 2;
            let ns = d[q] as int;
            if ns != comps.len() {
                Err(ConvertError::UnsupportedFeature { format: Format::Jpeg, feature: "jpeg-progressive" })
            } else if q + 4 + 2 * ns > d.len() {
                Err(malformed())
            } else if exists|i: int| 0 <= i < ns && #[trigger] comp_index_of(comps, d[q + 1 + 2 * i]) < 0 {
                Err(malformed())
            } else if d[q + 1 + 2 * ns] != 0 || d[q + 2 + 2 * ns] != 63 || d[q + 3 + 2 * ns] != 0 {
                Err(ConvertError::UnsupportedFeature { format: Format::Jpeg, feature: "jpeg-progressive" })
            } else {
                Ok((e, Seq::new(ns as nat, |i: int| scan_comp_at(d, q + 1 + 2 * i, comps))))
            }
        },
    }
}

/// The index of the first component with id `id`.
fn find_component(comps: &Vec<Component>, id: u8) -> (r: Option<usize>)
    ensures
        match r {
            Some(k) => k == comp_index_of(comps@, id) && k < comps@.len(),
            None => comp_index_of(comps@, id) < 0,
        },
{
    let mut k: usize = 0;
    while k < comps.len()
        invariant
            k <= comps@.len(),
            comp_index_of(comps@.take(k as int), id) < 0,
        decreases comps@.len() - k,
    {
        proof {
            assert(comps@.take(k + 1).drop_last() =~= comps@.take(k as int));
        }
        if comps[k].id == id {
            proof {
                lemma_comp_index_prefix(comps@, id, k + 1);
            }
            return Some(k);
        }
        k = k + 1;
    }
    proof {
        assert(comps@.take(k as int) =~= comps@);
    }
    None
}

/// The first match in a prefix that has one is the first match overall.
proof fn lemma_comp_index_prefix(comps: Seq<Component>, id: u8, n: int)
    requires
        0 <= n <= comps.len(),
        comp_index_of(comps.take(n), id) >= 0,
    ensures
        comp_index_of(comps, id) == comp_index_of(comps.take(n), id),
    decreases comps.len() - n,
{
    if n < comps.len() {
        assert(comps.take(n + 1).drop_last() =~= comps.take(n));
        lemma_comp_index_prefix(comps, id, n + 1);
    } else {
        assert(comps.take(n) =~= comps);
    }
}

/// Reads an `SOS` header at `*pos` for the frame `sof` (see [`sos_spec`]).
#[verifier::loop_isolation(false)]
pub fn parse_sos_header(input: &[u8], pos: &mut usize, sof: &SofInfo) -> (r: Result<Vec<ScanComponent>, ConvertError>)
    ensures
        match sos_spec(input@, *old(pos) as int, sof.components@) {
            Ok((e, sc)) => r matches Ok(v) && v@ == sc && *final(pos) == e,
            Err(err) => r matches Err(x) && x == err && *final(pos) == *old(pos),
        },
{
    let p0 = *pos;
    let ghost d = input@;
    let len = match read_u16_be(input, p0) {
        Some(v) => v as usize,
        None => {
            return Err(ConvertError::MalformedInput { format: Format::Jpeg });
        },
    };
    if len < 6 || len > input.len() - p0 {
        return Err(ConvertError::MalformedInput { format: Format::Jpeg });
    }
    let seg_end = p0 + len;
    let q = p0 + 2;
    let ns = input[q] as usize;
    if ns != sof.components.len() {
        return Err(ConvertError::UnsupportedFeature { format: Format::Jpeg, feature: "jpeg-progressive" });
    }
    if input.len() - q < 4 + 2 * ns {
        return Err(ConvertError::MalformedInput { format: Format::Jpeg });
    }
    let mut scan: Vec<ScanComponent> = Vec::new();
    let mut i: usize = 0;
    while i < ns
        invariant
            d == input@,
            i <= ns <= 255,
            ns == sof.components@.len(),
            q + 4 + 2 * ns <= input@.len(),
            scan@ == Seq::new(i as nat, |k: int| scan_comp_at(d, q + 1 + 2 * k, sof.components@)),
            forall|k: int| 0 <= k < i ==> #[trigger] comp_index_of(sof.components@, d[q + 1 + 2 * k]) >= 0,
        decreases ns - i,
    {
        let cs = input[q + 1 + 2 * i];
        let td_ta = input[q + 2 + 2 * i];
        let comp_index = match find_component(&sof.components, cs) {
            Some(k) => k,
            None => {
                proof {
                    assert(comp_index_of(sof.components@, d[q + 1 + 2 * i]) < 0);
                }
                return Err(ConvertError::MalformedInput { format: Format::Jpeg });
            },
        };
        scan.push(ScanComponent { comp_index, dc_table: td_ta / 16, ac_table: td_ta % 16 });
        proof {
            assert(scan@ =~= Seq::new((i + 1) as nat, |k: int| scan_comp_at(d, q + 1 + 2 * k, sof.components@)));
        }
        i = i + 1;
    }
    let ss = input[q + 1 + 2 * ns];
    let se = input[q + 2 + 2 * ns];
    let ah_al = input[q + 3 + 2 * ns];
    if ss != 0 || se != 63 || ah_al != 0 {
        return Err(ConvertError::UnsupportedFeature { format: Format::Jpeg, feature: "jpeg-progressive" });
    }
    *pos = seg_end;
    Ok(scan)
}


/// The quantization tables by slot.
pub type QuantTables = [Option<[u16; 64]>; 4];

/// The contents of the quantization table slots.
pub open spec fn qt_view(t: QuantTables) -> Seq<Option<Seq<u16>>> {
    t@.map_values(|o: Option<[u16; 64]>| match o {
        Some(a) => Some(a@),
        None => None,
    })
}

/// The 64 table entries from byte `i`: one byte each at precision 0, two (big-endian) at
/// precision 1.
pub open spec fn qt_entries(d: Seq<u8>, i: int, precision: int) -> Seq<u16> {
    Seq::new(64, |k: int| if precision == 0 { d[i + k] as u16 } else { be16(d, i + 2 * k) as u16 })
}

/// The table definitions of a `DQT` segment from byte `p` to its end `e`, into the slots
/// `tables`: each a byte of precision (high nibble, 0 or 1) and slot (low nibble, below 4), then
/// 64 entries, which must lie inside the input; the definitions must end exactly at `e`.
pub open spec fn dqt_loop(d: Seq<u8>, p: int, e: int, tables: Seq<Option<Seq<u16>>>) -> Result<Seq<Option<Seq<u16>>>, ConvertError>
    decreases (if p < e { e - p } else { 0 }),
{
    if p >= e {
        if p == e {
            Ok(tables)
        } else {
            Err(malformed())
        }
    } else {
        let precision = d[p] / 16;
        let id = d[p] % 16;
        let n = if precision == 0 { 64int } else { 128int };
        if id >= 4 || precision > 1 || p + 1 + n > d.len() {
            Err(malformed())
        } else {
            dqt_loop(d, p + 1 + n, e, tables.update(id as int, Some(qt_entries(d, p + 1, precision as int))))
        }
    }
}

/// A `DQT` segment at `p`: its end and the table slots after it (see [`dqt_loop`]).
pub open spec fn dqt_spec(d: Seq<u8>, p: int, tables: Seq<Option<Seq<u16>>>) -> Result<(int, Seq<Option<Seq<u16>>>), ConvertError> {
    match segment_end(d, p, 2) {
        None => Err(malformed()),
        Some(e) => match dqt_loop(d, p + 2, e, tables) {
            Err(x) => Err(x),
            Ok(t) => Ok((e, t)),
        },
    }
}

/// Reads one table's 64 entries at `p`.
fn read_qt_entries(input: &[u8], p: usize, precision: u8) -> (r: [u16; 64])
    requires
        precision <= 1,
        precision == 0 ==> p + 64 <= input@.len(),
        precision == 1 ==> p + 128 <= input@.len(),
    ensures
        r@ == qt_entries(input@, p as int, precision as int),
{
    let mut table = [0u16; 64];
    let ilen = input.len();
    let mut k: usize = 0;
    while k < 64
        invariant
            ilen == input@.len(),
            k <= 64,
            precision <= 1,
            precision == 0 ==> p + 64 <= input@.len(),
            precision == 1 ==> p + 128 <= input@.len(),
            forall|j: int| 0 <= j < k ==> #[trigger] table@[j] == qt_entries(input@, p as int, precision as int)[j],
        decreases 64 - k,
    {
        if precision == 0 {
            table[k] = input[p + k] as u16;
        } else {
            table[k] = (input[p + 2 * k] as u16) * 256 + input[p + 2 * k + 1] as u16;
        }
        k = k + 1;
    }
    assert(table@ =~= qt_entries(input@, p as int, precision as int));
    table
}

/// Reads a `DQT` segment at `*pos` into `tables` (see [`dqt_spec`]).
#[verifier::loop_isolation(false)]
pub fn parse_dqt(input: &[u8], pos: &mut usize, tables: &mut QuantTables) -> (r: Result<(), ConvertError>)
    ensures
        match dqt_spec(input@, *old(pos) as int, qt_view(*old(tables))) {
            Ok((e, t)) => r is Ok && *final(pos) == e && qt_view(*final(tables)) == t,
            Err(err) => r == Err::<(), ConvertError>(err),
        },
{
    let p0 = *pos;
    let len = match read_u16_be(input, p0) {
        Some(v) => v as usize,
        None => {
            return Err(ConvertError::MalformedInput { format: Format::Jpeg });
        },
    };
    if len < 2 || len > input.len() - p0 {
        return Err(ConvertError::MalformedInput { format: Format::Jpeg });
    }
    let seg_end = p0 + len;
    let ghost d = input@;
    let ghost t0 = qt_view(*tables);
    let mut p = p0 + 2;
    while p < seg_end
        invariant
            d == input@,
            seg_end <= input@.len(),
            p <= input@.len(),
            dqt_loop(d, p0 + 2, seg_end as int, t0) == dqt_loop(d, p as int, seg_end as int, qt_view(*tables)),
        decreases input@.len() - p,
    {
        let pq_tq = input[p];
        let precision = pq_tq / 16;
        let id = (pq_tq % 16) as usize;
        if id >= 4 || precision > 1 {
            return Err(ConvertError::MalformedInput { format: Format::Jpeg });
        }
        let n: usize = if precision == 0 { 64 } else { 128 };
        if n > input.len() - (p + 1) {
            return Err(ConvertError::MalformedInput { format: Format::Jpeg });
        }
        let table = read_qt_entries(input, p + 1, precision);
        let ghost before = qt_view(*tables);
        tables[id] = Some(table);
        proof {
            assert(qt_view(*tables) =~= before.update(id as int, Some(qt_entries(d, p + 1, precision as int))));
        }
        p = p + 1 + n;
    }
    if p != seg_end {
        return Err(ConvertError::MalformedInput { format: Format::Jpeg });
    }
    *pos = seg_end;
    Ok(())
}


// ─── Entropy-coded output ───────────────────────────────────────────────────

/// The value of bits `b`, the first most significant.
pub open spec fn msb_val(b: Seq<bool>) -> int
    decreases b.len(),
{
    if b.len() == 0 {
        0
    } else {
        2 * msb_val(b.drop_last()) + if b.last() { 1int } else { 0int }
    }
}

/// Whole bytes of `b` (a multiple of eight bits), eight bits each, the first most significant.
pub open spec fn pack_msb(b: Seq<bool>) -> Seq<u8>
    decreases b.len(),
{
    if b.len() < 8 {
        seq![]
    } else {
        pack_msb(b.take(b.len() - 8)) + seq![msb_val(b.skip(b.len() - 8)) as u8]
    }
}

/// `bytes` with a `0x00` after every `0xFF`, so no data byte reads as a marker.
pub open spec fn stuff(bytes: Seq<u8>) -> Seq<u8>
    decreases bytes.len(),
{
    if bytes.len() == 0 {
        seq![]
    } else {
        stuff(bytes.drop_last()) + if bytes.last() == 0xff { seq![0xffu8, 0x00u8] } else { seq![bytes.last()] }
    }
}

/// `n` one bits.
pub open spec fn ones(n: nat) -> Seq<bool> {
    Seq::new(n, |i: int| true)
}

/// The entropy-coded bytes of the bit stream `b`: padded with one bits to a whole byte, packed,
/// and stuffed.
pub open spec fn entropy_bytes(b: Seq<bool>) -> Seq<u8> {
    stuff(pack_msb(b + ones(((8 - b.len() % 8) % 8) as nat)))
}

/// The `len` low bits of `value`, the first most significant.
pub open spec fn code_bits(value: int, len: nat) -> Seq<bool> {
    Seq::new(len, |i: int| (value / pow2((len - 1 - i) as nat) as int) % 2 == 1)
}

/// A writer of entropy-coded bits, most significant first, stuffing `0xFF` bytes.
pub struct BitWriter {
    out: Vec<u8>,
    cur: u32,
    nbits: u32,
    written: Ghost<Seq<bool>>,
}

proof fn lemma_msb_val_bound(b: Seq<bool>)
    ensures
        0 <= msb_val(b) < pow2(b.len()),
    decreases b.len(),
{
    if b.len() > 0 {
        lemma_msb_val_bound(b.drop_last());
        assert(pow2(b.len()) == 2 * pow2((b.len() - 1) as nat));
    }
}

impl BitWriter {
    /// The bits written so far.
    pub closed spec fn bits(&self) -> Seq<bool> {
        self.written@
    }

    /// Whole bytes are packed and stuffed in `out`; the rest wait in `cur`.
    pub closed spec fn wf(&self) -> bool {
        let w = self.written@;
        let full = w.len() - self.nbits;
        &&& self.nbits < 8
        &&& self.nbits == w.len() % 8
        &&& self.out@ == stuff(pack_msb(w.take(full)))
        &&& self.cur == msb_val(w.skip(full))
    }

    /// An empty writer.
    pub fn new() -> (r: Self)
        ensures
            r.wf(),
            r.bits() == Seq::<bool>::empty(),
    {
        let r = BitWriter { out: Vec::new(), cur: 0, nbits: 0, written: Ghost(Seq::empty()) };
        proof {
            assert(r.written@.take(0) =~= Seq::<bool>::empty());
            assert(r.written@.skip(0) =~= Seq::<bool>::empty());
        }
        r
    }

    fn push_byte(&mut self, b: u8)
        ensures
            final(self).out@ == old(self).out@ + if b == 0xff { seq![0xffu8, 0x00u8] } else { seq![b] },
            final(self).cur == old(self).cur,
            final(self).nbits == old(self).nbits,
            final(self).written == old(self).written,
    {
        self.out.push(b);
        if b == 0xff {
            self.out.push(0x00);
        }
        proof {
            if b == 0xff {
                assert(self.out@ =~= old(self).out@ + seq![0xffu8, 0x00u8]);
            } else {
                assert(self.out@ =~= old(self).out@ + seq![b]);
            }
        }
    }

    /// Writes one bit.
    pub fn write_bit(&mut self, bit: bool)
        requires
            old(self).wf(),
        ensures
            final(self).wf(),
            final(self).bits() == old(self).bits().push(bit),
    {
        let ghost w = self.written@;
        let ghost full = w.len() - self.nbits;
        let ghost w2 = w.push(bit);
        proof {
            lemma_msb_val_bound(w.skip(full));
            assert(w.skip(full).len() == self.nbits);
            assert(pow2(7) == 128) by {
                reveal_with_fuel(pow2, 8);
            }
            if self.nbits < 7 {
                super::zlib::lemma_pow2_mono(self.nbits as nat, 7);
            }
            assert(w2.skip(full).drop_last() =~= w.skip(full));
            assert(w2.take(full) =~= w.take(full));
        }
        self.cur = self.cur * 2 + if bit { 1 } else { 0 };
        self.nbits = self.nbits + 1;
        proof {
            self.written = Ghost(w2);
        }
        if self.nbits == 8 {
            let byte = self.cur as u8;
            proof {
                assert(w2.len() - 8 == full);
                assert(w2.take(w2.len() as int).take(full) =~= w2.take(full));
                assert(w2.take(w2.len() as int).skip(full) =~= w2.skip(full));
                assert(w2.take(w2.len() as int) =~= w2);
                lemma_msb_val_bound(w2.skip(full));
                assert(w2.skip(full).len() == 8);
                assert(pow2(8) == 256) by {
                    reveal_with_fuel(pow2, 9);
                }
                assert(pack_msb(w2) == pack_msb(w.take(full)) + seq![byte]);
                assert((pack_msb(w.take(full)) + seq![byte]).drop_last() =~= pack_msb(w.take(full)));
            }
            self.push_byte(byte);
            self.cur = 0;
            self.nbits = 0;
            proof {
                assert(w2.skip(w2.len() as int) =~= Seq::<bool>::empty());
                assert((pack_msb(w.take(full)) + seq![byte]).last() == byte);
            }
        }
    }

    /// Writes the `len` low bits of `value`, the most significant first.
    pub fn put_bits(&mut self, value: u32, len: u8)
        requires
            old(self).wf(),
            len <= 16,
        ensures
            final(self).wf(),
            final(self).bits() == old(self).bits() + code_bits(value as int, len as nat),
    {
        let ghost start = self.written@;
        let mut i: u8 = 0;
        while i < len
            invariant
                self.wf(),
                i <= len <= 16,
                start == old(self).bits(),
                self.written@ == start + code_bits(value as int, len as nat).take(i as int),
            decreases len - i,
        {
            let shift = pow2_i32(len - 1 - i) as u32;
            let bit = (value / shift) % 2 == 1;
            proof {
                assert(code_bits(value as int, len as nat).take(i + 1) =~= code_bits(value as int, len as nat).take(i as int).push(bit));
            }
            self.write_bit(bit);
            i = i + 1;
        }
        proof {
            assert(code_bits(value as int, len as nat).take(len as int) =~= code_bits(value as int, len as nat));
        }
    }

    /// The bytes written, the last one padded with one bits (see [`entropy_bytes`]).
    #[verifier::spinoff_prover]
    #[verifier::rlimit(30)]
    pub fn finish(self) -> (r: Vec<u8>)
        requires
            self.wf(),
        ensures
            r@ == entropy_bytes(self.bits()),
    {
        let ghost w = self.written@;
        let ghost full = w.len() - self.nbits;
        let ghost pad = ((8 - w.len() % 8) % 8) as nat;
        let mut me = self;
        if me.nbits > 0 {
            let pad_n = (8 - me.nbits) as u8;
            let p = pow2_i32(pad_n) as u32;
            proof {
                lemma_pad_byte(w, me.nbits as nat, me.cur as int, pad_n as nat);
            }
            let byte = (me.cur * p + (p - 1)) as u8;
            let ghost head = pack_msb(w.take(full));
            proof {
                assert(byte as int == me.cur * pow2(pad_n as nat) + pow2(pad_n as nat) - 1);
                assert(pack_msb(w + ones(pad)) == head + seq![byte]);
                assert((head + seq![byte]).drop_last() =~= head);
                assert(entropy_bytes(w) == stuff(head + seq![byte]));
                assert(stuff(head + seq![byte]) == stuff(head) + if byte == 0xff { seq![0xffu8, 0x00u8] } else { seq![byte] });
            }
            me.push_byte(byte);
            me.out
        } else {
            proof {
                assert(pad == 0);
                assert(w + ones(0) =~= w);
                assert(w.take(full) =~= w);
            }
            me.out
        }
    }
}

/// `2^(a + b) == 2^a * 2^b`.
pub proof fn lemma_pow2_add(a: nat, b: nat)
    ensures
        pow2(a + b) == pow2(a) * pow2(b),
    decreases b,
{
    if b == 0 {
        assert(pow2(0) == 1);
        assert(a + b == a);
    } else {
        let b1 = (b - 1) as nat;
        lemma_pow2_add(a, b1);
        let x = pow2(a) as int;
        let y1 = pow2(b1) as int;
        assert(a + b1 + 1 == a + b);
        assert(pow2(a + b) == 2 * pow2(a + b1));
        assert(pow2(b) == 2 * y1);
        assert(x * (2 * y1) == 2 * (x * y1)) by (nonlinear_arith);
    }
}

/// The last, partial byte of `w` (its `nbits` pending bits `cur`) padded with `pad` one bits.
proof fn lemma_pad_byte(w: Seq<bool>, nbits: nat, cur: int, pad: nat)
    requires
        0 < nbits < 8,
        nbits == w.len() % 8,
        cur == msb_val(w.skip(w.len() - nbits)),
        pad == 8 - nbits,
    ensures
        0 <= cur * pow2(pad) + pow2(pad) - 1 < 256,
        pad == ((8 - w.len() % 8) % 8) as nat,
        pack_msb(w + ones(pad)) == pack_msb(w.take(w.len() - nbits)) + seq![(cur * pow2(pad) + pow2(pad) - 1) as u8],
{
    let full = w.len() - nbits;
    let tail = w.skip(full);
    lemma_msb_val_bound(tail);
    lemma_pow2_add(nbits, pad);
    assert(pow2(8) == 256) by {
        reveal_with_fuel(pow2, 9);
    }
    assert(cur * pow2(pad) + pow2(pad) - 1 < 256) by (nonlinear_arith)
        requires 0 <= cur < pow2(nbits), pow2(nbits) * pow2(pad) == 256, pow2(pad) >= 1;
    assert(cur * pow2(pad) >= 0) by (nonlinear_arith)
        requires 0 <= cur, pow2(pad) >= 1;
    lemma_pow2_mono(0, pad);
    assert(pow2(0) == 1);
    lemma_msb_val_pad(tail, pad);
    let wp = w + ones(pad);
    assert(wp.len() == full + 8);
    assert(wp.take(wp.len() - 8) =~= w.take(full));
    assert(wp.skip(wp.len() - 8) =~= tail + ones(pad));
}

/// Appending `pad` one bits multiplies by `2^pad` and adds `2^pad - 1`.
proof fn lemma_msb_val_pad(b: Seq<bool>, pad: nat)
    ensures
        msb_val(b + ones(pad)) == msb_val(b) * pow2(pad) + pow2(pad) - 1,
    decreases pad,
{
    if pad == 0 {
        assert(b + ones(0) =~= b);
        assert(pow2(0) == 1);
    } else {
        let p1 = (pad - 1) as nat;
        lemma_msb_val_pad(b, p1);
        let s = b + ones(pad);
        assert(s.drop_last() =~= b + ones(p1));
        assert(s.last());
        assert(msb_val(s) == 2 * msb_val(b + ones(p1)) + 1);
        let m = msb_val(b);
        let q = pow2(p1) as int;
        assert(pow2(pad) == 2 * q);
        assert(2 * (m * q + q - 1) + 1 == m * (2 * q) + 2 * q - 1) by (nonlinear_arith);
    }
}


// ─── Canonical Huffman codes ────────────────────────────────────────────────

/// The code lengths of the first `i` entries of a `DHT` count list, shortest first: `counts[j]`
/// codes of length `j + 1`.
pub open spec fn sizes_upto(counts: Seq<u8>, i: int) -> Seq<u8>
    decreases i,
{
    if i <= 0 {
        seq![]
    } else {
        sizes_upto(counts, i - 1) + Seq::new(counts[i - 1] as nat, |j: int| i as u8)
    }
}

/// The code lengths a `DHT` count list describes, shortest first.
pub open spec fn huff_sizes(counts: Seq<u8>) -> Seq<u8> {
    sizes_upto(counts, 16)
}

/// The canonical code of the `k`-th code of lengths `sizes`: the first is all zeros; each next
/// one is the previous plus one, shifted left by the growth in length.
pub open spec fn canon_code(sizes: Seq<u8>, k: int) -> int
    decreases k,
{
    if k <= 0 {
        0
    } else {
        (canon_code(sizes, k - 1) + 1) * pow2((sizes[k] - sizes[k - 1]) as nat) as int
    }
}

/// Lengths `1..=16`, never decreasing.
pub open spec fn sizes_ok(sizes: Seq<u8>) -> bool {
    &&& forall|k: int| 0 <= k < sizes.len() ==> 1 <= #[trigger] sizes[k] <= 16
    &&& forall|a: int, b: int| 0 <= a <= b < sizes.len() ==> sizes[a] <= sizes[b]
}

proof fn lemma_sizes_upto(counts: Seq<u8>, i: int)
    requires
        0 <= i <= 16,
        counts.len() == 16,
    ensures
        sizes_ok(sizes_upto(counts, i)),
        sizes_upto(counts, i).len() <= 255 * i,
        forall|k: int| 0 <= k < sizes_upto(counts, i).len() ==> #[trigger] sizes_upto(counts, i)[k] <= i,
    decreases i,
{
    if i > 0 {
        lemma_sizes_upto(counts, i - 1);
    }
}

proof fn lemma_canon_bound(sizes: Seq<u8>, k: int)
    requires
        sizes_ok(sizes),
        0 <= k < sizes.len(),
    ensures
        0 <= canon_code(sizes, k) < (k + 1) * pow2(sizes[k] as nat),
    decreases k,
{
    lemma_pow2_mono(0, sizes[k] as nat);
    assert(pow2(0) == 1);
    if k > 0 {
        lemma_canon_bound(sizes, k - 1);
        let d = (sizes[k] - sizes[k - 1]) as nat;
        lemma_pow2_add(sizes[k - 1] as nat, d);
        let c = canon_code(sizes, k - 1);
        let p1 = pow2(sizes[k - 1] as nat) as int;
        let pd = pow2(d) as int;
        lemma_pow2_mono(0, d);
        lemma_pow2_mono(0, sizes[k - 1] as nat);
        assert((c + 1) * pd <= (k * p1) * pd) by (nonlinear_arith)
            requires c + 1 <= k * p1, pd >= 1;
        assert((k * p1) * pd < (k + 1) * (p1 * pd)) by (nonlinear_arith)
            requires p1 >= 1, pd >= 1, k >= 1;
    } else {
        assert(1 * pow2(sizes[0] as nat) >= 1);
    }
}

/// The code lengths `counts` describes (see [`huff_sizes`]).
fn sizes_of(counts: &[u8; 16]) -> (r: Vec<u8>)
    ensures
        r@ == huff_sizes(counts@),
        sizes_ok(r@),
        r@.len() <= 4080,
{
    let mut sizes: Vec<u8> = Vec::new();
    let mut i: usize = 0;
    while i < 16
        invariant
            i <= 16,
            sizes@ == sizes_upto(counts@, i as int),
        decreases 16 - i,
    {
        proof {
            lemma_sizes_upto(counts@, i as int);
        }
        let ghost before = sizes@;
        let n = counts[i];
        let mut j: u8 = 0;
        while j < n
            invariant
                i < 16,
                j <= n,
                n == counts@[i as int],
                sizes@ == before + Seq::new(j as nat, |t: int| (i + 1) as u8),
                before.len() <= 255 * i,
            decreases n - j,
        {
            sizes.push((i + 1) as u8);
            proof {
                assert(sizes@ =~= before + Seq::new((j + 1) as nat, |t: int| (i + 1) as u8));
            }
            j = j + 1;
        }
        i = i + 1;
    }
    proof {
        lemma_sizes_upto(counts@, 16);
    }
    sizes
}

/// The canonical codes of `sizes` (see [`canon_code`]).
fn canonical_codes(sizes: &Vec<u8>) -> (r: Vec<u32>)
    requires
        sizes_ok(sizes@),
        sizes@.len() <= 4080,
    ensures
        r@.len() == sizes@.len(),
        forall|k: int| 0 <= k < sizes@.len() ==> #[trigger] r@[k] == canon_code(sizes@, k),
{
    let mut codes: Vec<u32> = Vec::new();
    let n = sizes.len();
    let mut k: usize = 0;
    while k < n
        invariant
            k <= n == sizes@.len() <= 4080,
            sizes_ok(sizes@),
            codes@.len() == k,
            forall|t: int| 0 <= t < k ==> #[trigger] codes@[t] == canon_code(sizes@, t),
        decreases n - k,
    {
        proof {
            lemma_canon_bound(sizes@, k as int);
            assert(pow2(16) == 65536) by {
                reveal_with_fuel(pow2, 17);
            }
            lemma_pow2_mono(sizes@[k as int] as nat, 16);
            assert((k + 1) * pow2(sizes@[k as int] as nat) <= 4081 * 65536) by (nonlinear_arith)
                requires k + 1 <= 4081, pow2(sizes@[k as int] as nat) <= 65536;
        }
        if k == 0 {
            codes.push(0);
        } else {
            let d = (sizes[k] - sizes[k - 1]) as u8;
            proof {
                lemma_canon_bound(sizes@, k - 1);
                lemma_pow2_mono(sizes@[k - 1] as nat, 16);
                assert(k * pow2(sizes@[k - 1] as nat) <= 4081 * 65536) by (nonlinear_arith)
                    requires k <= 4081, pow2(sizes@[k - 1] as nat) <= 65536;
            }
            let prev = codes[k - 1];
            let shift = pow2_i32(d) as u32;
            proof {
                assert((prev + 1) * shift == canon_code(sizes@, k as int));
                assert(canon_code(sizes@, k as int) < 4081 * 65536);
            }
            let next = prev + 1;
            codes.push(next * shift);
        }
        k = k + 1;
    }
    codes
}

/// The largest `i < n` with `values[i] == v`, or `-1`.
pub open spec fn last_index(values: Seq<u8>, v: int, n: int) -> int
    decreases n,
{
    if n <= 0 {
        -1
    } else if values[n - 1] == v {
        n - 1
    } else {
        last_index(values, v, n - 1)
    }
}

/// The `(code, length)` an encode table built from `counts` and `values` holds for symbol `v`:
/// those of the last position carrying `v`, or none.
pub open spec fn enc_entry(counts: Seq<u8>, values: Seq<u8>, v: int) -> Option<(u16, u8)> {
    let i = last_index(values, v, values.len() as int);
    if i < 0 {
        None
    } else {
        Some(((canon_code(huff_sizes(counts), i) % 65536) as u16, huff_sizes(counts)[i]))
    }
}

/// An encode table: symbol value to `(code, length)`.
pub struct EncodeHuff {
    pub codes: [Option<(u16, u8)>; 256],
}

/// The encode table of the canonical code `counts`/`values` (see [`enc_entry`]).
pub fn build_encode_huff(counts: &[u8; 16], values: &[u8]) -> (r: EncodeHuff)
    requires
        values@.len() <= huff_sizes(counts@).len(),
    ensures
        forall|v: int| 0 <= v < 256 ==> #[trigger] r.codes@[v] == enc_entry(counts@, values@, v),
        table_ok(r.codes@),
{
    let sizes = sizes_of(counts);
    let codes = canonical_codes(&sizes);
    let mut table: [Option<(u16, u8)>; 256] = [None; 256];
    let n = values.len();
    let mut i: usize = 0;
    while i < n
        invariant
            i <= n == values@.len() <= sizes@.len(),
            sizes@ == huff_sizes(counts@),
            codes@.len() == sizes@.len(),
            forall|k: int| 0 <= k < sizes@.len() ==> #[trigger] codes@[k] == canon_code(sizes@, k),
            forall|v: int| 0 <= v < 256 ==> #[trigger] table@[v] == (if last_index(values@, v, i as int) < 0 {
                None
            } else {
                Some(
                    (
                        (canon_code(sizes@, last_index(values@, v, i as int)) % 65536) as u16,
                        sizes@[last_index(values@, v, i as int)],
                    ),
                )
            }),
        decreases n - i,
    {
        let v = values[i] as usize;
        let code = codes[i];
        proof {
            assert(code as u16 == (code % 65536) as u16) by (bit_vector);
        }
        table[v] = Some((code as u16, sizes[i]));
        i = i + 1;
    }
    proof {
        assert forall|v: int| 0 <= v < 256 implies (#[trigger] table@[v] matches Some((c, l)) ==> l <= 16) by {
            lemma_last_index_range(values@, v, n as int);
        }
    }
    EncodeHuff { codes: table }
}

proof fn lemma_last_index_range(values: Seq<u8>, v: int, n: int)
    requires
        0 <= n,
    ensures
        -1 <= last_index(values, v, n) < n,
    decreases n,
{
    if n > 0 {
        lemma_last_index_range(values, v, n - 1);
    }
}


// ─── Coding one block ───────────────────────────────────────────────────────

/// The bits of a table entry, or an `Internal` error with `detail` when the entry is missing.
pub open spec fn entry_bits(e: Option<(u16, u8)>, detail: &'static str) -> Result<Seq<bool>, ConvertError> {
    match e {
        Some((c, l)) => Ok(code_bits(c as int, l as nat)),
        None => Err(ConvertError::Internal { detail }),
    }
}

/// The bits of a present table entry (none for a missing one).
pub open spec fn entry_code(e: Option<(u16, u8)>) -> Seq<bool> {
    match e {
        Some((c, l)) => code_bits(c as int, l as nat),
        None => seq![],
    }
}

/// `pre` in front of the bits of `r`.
pub open spec fn prepend(pre: Seq<bool>, r: Result<Seq<bool>, ConvertError>) -> Result<Seq<bool>, ConvertError> {
    match r {
        Ok(b) => Ok(pre + b),
        Err(e) => Err(e),
    }
}

/// `a` then `b`, the first error if any.
pub open spec fn then_bits(a: Result<Seq<bool>, ConvertError>, b: Result<Seq<bool>, ConvertError>) -> Result<Seq<bool>, ConvertError> {
    match a {
        Err(e) => Err(e),
        Ok(x) => prepend(x, b),
    }
}

/// `n` zero-run codes of 16 coefficients each.
pub open spec fn zrl_bits(ac: Seq<Option<(u16, u8)>>, n: nat) -> Result<Seq<bool>, ConvertError>
    decreases n,
{
    if n == 0 {
        Ok(seq![])
    } else {
        then_bits(zrl_bits(ac, (n - 1) as nat), entry_bits(ac[0xf0], "jpeg-ac-huffman-gap"))
    }
}

/// The bits of a nonzero AC coefficient `c` after `run` zeros: a zero-run code for each 16 of
/// the zeros, then the code for (the remaining zeros, the size of `c`), then the magnitude bits.
pub open spec fn coeff_bits(ac: Seq<Option<(u16, u8)>>, c: int, run: int) -> Result<Seq<bool>, ConvertError> {
    let (size, bits) = category_spec(c);
    then_bits(
        zrl_bits(ac, (run / 16) as nat),
        then_bits(
            entry_bits(ac[(run % 16) * 16 + size], "jpeg-ac-huffman-gap"),
            Ok(code_bits(bits, size as nat)),
        ),
    )
}

/// The AC coefficients of `zz` from position `k` on, `run` zeros pending: each nonzero
/// coefficient (limited to `max_ac` bits) as in [`coeff_bits`], and an end-of-block code if
/// zeros are still pending at the end.
pub open spec fn ac_bits(zz: Seq<i32>, ac: Seq<Option<(u16, u8)>>, max_ac: int, k: int, run: int) -> Result<Seq<bool>, ConvertError>
    decreases 64 - k,
{
    if k >= 64 {
        if run > 0 {
            entry_bits(ac[0], "jpeg-ac-huffman-gap")
        } else {
            Ok(seq![])
        }
    } else {
        let c = clamp_category_spec(zz[k] as int, max_ac);
        if c == 0 {
            ac_bits(zz, ac, max_ac, k + 1, run + 1)
        } else {
            then_bits(coeff_bits(ac, c, run), ac_bits(zz, ac, max_ac, k + 1, 0))
        }
    }
}

/// The bits of block `zz` (quantized coefficients, zigzag order) after a block whose DC value
/// was `dc_pred`: the DC difference (both values limited to 11 bits) as its category code and
/// magnitude bits, then the AC coefficients (see [`ac_bits`]). A missing code is an `Internal`
/// error.
pub open spec fn block_bits(zz: Seq<i32>, dc_pred: int, dc: Seq<Option<(u16, u8)>>, ac: Seq<Option<(u16, u8)>>, max_ac: int) -> Result<
    Seq<bool>,
    ConvertError,
> {
    let dc_value = clamp_category_spec(zz[0] as int, 11);
    let diff = clamp_category_spec(dc_value - dc_pred, 11);
    let (size, bits) = category_spec(diff);
    then_bits(
        entry_bits(dc[size], "jpeg-dc-huffman-gap"),
        prepend(if size > 0 { code_bits(bits, size as nat) } else { seq![] }, ac_bits(zz, ac, max_ac, 1, 0)),
    )
}

/// Every entry of a table has a code of at most 16 bits.
pub open spec fn table_ok(codes: Seq<Option<(u16, u8)>>) -> bool {
    codes.len() == 256 && forall|v: int| 0 <= v < 256 ==> (#[trigger] codes[v] matches Some((c, l)) ==> l <= 16)
}

fn put_entry(writer: &mut BitWriter, e: Option<(u16, u8)>, detail: &'static str) -> (r: Result<(), ConvertError>)
    requires
        old(writer).wf(),
        e matches Some((c, l)) ==> l <= 16,
    ensures
        match entry_bits(e, detail) {
            Ok(b) => r is Ok && final(writer).wf() && final(writer).bits() == old(writer).bits() + b,
            Err(x) => r == Err::<(), ConvertError>(x),
        },
{
    match e {
        Some((code, len)) => {
            writer.put_bits(code as u32, len);
            Ok(())
        },
        None => Err(ConvertError::Internal { detail }),
    }
}

proof fn lemma_prepend_assoc(a: Seq<bool>, b: Seq<bool>, r: Result<Seq<bool>, ConvertError>)
    ensures
        prepend(a, prepend(b, r)) == prepend(a + b, r),
{
    if let Ok(x) = r {
        assert(a + (b + x) =~= (a + b) + x);
    }
}

/// `z` repeated `n` times.
pub open spec fn rep(z: Seq<bool>, n: nat) -> Seq<bool>
    decreases n,
{
    if n == 0 {
        seq![]
    } else {
        rep(z, (n - 1) as nat) + z
    }
}

proof fn lemma_zrl_some(ac: Seq<Option<(u16, u8)>>, n: nat)
    requires
        ac[0xf0] is Some,
    ensures
        zrl_bits(ac, n) == Ok::<Seq<bool>, ConvertError>(rep(entry_code(ac[0xf0]), n)),
    decreases n,
{
    if n > 0 {
        lemma_zrl_some(ac, (n - 1) as nat);
    }
}

proof fn lemma_zrl_none(ac: Seq<Option<(u16, u8)>>, n: nat)
    requires
        ac[0xf0] is None,
        n > 0,
    ensures
        zrl_bits(ac, n) == Err::<Seq<bool>, ConvertError>(ConvertError::Internal { detail: "jpeg-ac-huffman-gap" }),
    decreases n,
{
    assert(zrl_bits(ac, 0) == Ok::<Seq<bool>, ConvertError>(seq![]));
    if n > 1 {
        lemma_zrl_none(ac, (n - 1) as nat);
    }
}

/// A value below `2^m` in magnitude has a category of at most `m` bits.
proof fn lemma_category_le(v: int, m: nat)
    requires
        -pow2(m) < v < pow2(m),
    ensures
        category_spec(v).0 <= m,
{
    if v != 0 {
        lemma_bit_len_le(if v > 0 { v as nat } else { (-v) as nat }, m);
    }
}

/// The zero-run count and size packed into one symbol: `run * 16 + size`.
fn run_size(run: u32, size: u8) -> (r: usize)
    requires
        run < 16,
        size < 16,
    ensures
        r == run * 16 + size,
        r < 256,
{
    let rs = ((run as u8) << 4) | size;
    assert(((run as u8) << 4) | size == (run as u8) * 16 + size) by (bit_vector)
        requires run < 16, size < 16;
    rs as usize
}

/// Codes the nonzero AC coefficient `coeff` after `run` zeros (see [`coeff_bits`]).
#[verifier::spinoff_prover]
#[verifier::rlimit(30)]
fn put_coefficient(writer: &mut BitWriter, coeff: i32, run: u32, ac_huff: &EncodeHuff) -> (r: Result<(), ConvertError>)
    requires
        old(writer).wf(),
        table_ok(ac_huff.codes@),
        -2048 < coeff < 2048,
        coeff != 0,
        run < 64,
    ensures
        match coeff_bits(ac_huff.codes@, coeff as int, run as int) {
            Ok(b) => r is Ok && final(writer).wf() && final(writer).bits() == old(writer).bits() + b,
            Err(x) => r == Err::<(), ConvertError>(x),
        },
{
    let ghost before = writer.bits();
    let ghost acs = ac_huff.codes@;
    if run >= 16 && ac_huff.codes[0xf0].is_none() {
        proof {
            lemma_zrl_none(acs, (run / 16) as nat);
        }
        return Err(ConvertError::Internal { detail: "jpeg-ac-huffman-gap" });
    }
    let ghost z = entry_code(acs[0xf0]);
    let mut left = run;
    while left >= 16
        invariant
            writer.wf(),
            table_ok(acs),
            acs == ac_huff.codes@,
            left <= run < 64,
            run % 16 == left % 16,
            run >= 16 ==> acs[0xf0] is Some,
            z == entry_code(acs[0xf0]),
            writer.bits() == before + rep(z, ((run - left) / 16) as nat),
        decreases left,
    {
        put_entry(writer, ac_huff.codes[0xf0], "jpeg-ac-huffman-gap")?;
        proof {
            assert((run - (left - 16)) / 16 == (run - left) / 16 + 1);
            assert(writer.bits() =~= before + rep(z, ((run - (left - 16)) / 16) as nat));
        }
        left = left - 16;
    }
    let ghost zb = rep(z, (run / 16) as nat);
    proof {
        assert((run - left) / 16 == run / 16);
        if run >= 16 {
            lemma_zrl_some(acs, (run / 16) as nat);
        } else {
            assert(zrl_bits(acs, 0) == Ok::<Seq<bool>, ConvertError>(seq![]));
            assert(zb =~= Seq::<bool>::empty());
        }
        assert(zrl_bits(acs, (run / 16) as nat) == Ok::<Seq<bool>, ConvertError>(zb));
        assert(writer.bits() =~= before + zb);
        assert(pow2(11) == 2048) by {
            reveal_with_fuel(pow2, 12);
        }
        lemma_category_le(coeff as int, 11);
    }
    let (size, bits) = category_and_bits(coeff);
    let rs = run_size(left, size);
    let ghost e = acs[rs as int];
    match put_entry(writer, ac_huff.codes[rs], "jpeg-ac-huffman-gap") {
        Ok(()) => {},
        Err(x) => {
            return Err(x);
        },
    }
    let ghost after_e = writer.bits();
    writer.put_bits(bits, size);
    proof {
        let eb = entry_code(e);
        let cb = code_bits(bits as int, size as nat);
        assert(writer.bits() =~= before + (zb + (eb + cb)));
    }
    Ok(())
}

/// Codes the AC coefficients of block `zz` (see [`ac_bits`]) into `writer`.
#[verifier::loop_isolation(false)]
#[verifier::spinoff_prover]
#[verifier::rlimit(60)]
fn put_ac_coefficients(writer: &mut BitWriter, zz: &[i32; 64], ac_huff: &EncodeHuff, max_ac_category: u8) -> (r: Result<(), ConvertError>)
    requires
        old(writer).wf(),
        max_ac_category <= 11,
        table_ok(ac_huff.codes@),
    ensures
        match ac_bits(zz@, ac_huff.codes@, max_ac_category as int, 1, 0) {
            Ok(b) => r is Ok && final(writer).wf() && final(writer).bits() == old(writer).bits() + b,
            Err(x) => r == Err::<(), ConvertError>(x),
        },
{
    let ghost start = writer.bits();
    let ghost acs = ac_huff.codes@;
    let ghost max = max_ac_category as int;
    let ghost total = ac_bits(zz@, acs, max, 1, 0);
    proof {
        assert(pow2(11) == 2048) by {
            reveal_with_fuel(pow2, 12);
        }
        lemma_pow2_mono(max as nat, 11);
        assert(writer.bits().skip(start.len() as int) =~= Seq::<bool>::empty());
        assert(writer.bits().take(start.len() as int) =~= start);
    }
    let mut run: u32 = 0;
    let mut k: usize = 1;
    while k < 64
        invariant
            writer.wf(),
            1 <= k <= 64,
            run < k,
            start.len() <= writer.bits().len(),
            writer.bits().take(start.len() as int) == start,
            total == prepend(writer.bits().skip(start.len() as int), ac_bits(zz@, acs, max, k as int, run as int)),
        decreases 64 - k,
    {
        let ghost done = writer.bits().skip(start.len() as int);
        let coeff = clamp_to_category(zz[k], max_ac_category);
        if coeff == 0 {
            proof {
                assert(ac_bits(zz@, acs, max, k as int, run as int) == ac_bits(zz@, acs, max, k + 1, run + 1));
            }
            run = run + 1;
        } else {
            let ghost rest = ac_bits(zz@, acs, max, k + 1, 0);
            let ghost before = writer.bits();
            proof {
                assert(ac_bits(zz@, acs, max, k as int, run as int) == then_bits(coeff_bits(acs, coeff as int, run as int), rest));
                assert(before =~= start + done);
            }
            match put_coefficient(writer, coeff, run, ac_huff) {
                Ok(()) => {},
                Err(x) => {
                    return Err(x);
                },
            }
            proof {
                let cb = writer.bits().skip(before.len() as int);
                if let Ok(b) = coeff_bits(acs, coeff as int, run as int) {
                    assert(cb =~= b);
                }
                assert(writer.bits() =~= before + cb);
                assert(coeff_bits(acs, coeff as int, run as int) == Ok::<Seq<bool>, ConvertError>(cb));
                assert(total == prepend(done, prepend(cb, rest)));
                lemma_prepend_assoc(done, cb, rest);
                assert(writer.bits().take(start.len() as int) =~= start);
                assert(writer.bits().skip(start.len() as int) =~= done + cb);
            }
            run = 0;
        }
        k = k + 1;
    }
    let ghost done = writer.bits().skip(start.len() as int);
    proof {
        assert(writer.bits() =~= start + done);
    }
    if run > 0 {
        put_entry(writer, ac_huff.codes[0], "jpeg-ac-huffman-gap")?;
        proof {
            assert(writer.bits() =~= start + (done + entry_code(acs[0])));
        }
    } else {
        proof {
            assert(done + Seq::<bool>::empty() =~= done);
        }
    }
    Ok(())
}

/// Codes block `zz` (see [`block_bits`]) into `writer`, and records its DC value in `dc_pred`.
pub fn encode_coefficients(
    writer: &mut BitWriter,
    zz: &[i32; 64],
    dc_huff: &EncodeHuff,
    ac_huff: &EncodeHuff,
    dc_pred: &mut i32,
    max_ac_category: u8,
) -> (r: Result<(), ConvertError>)
    requires
        old(writer).wf(),
        -2047 <= *old(dc_pred) <= 2047,
        max_ac_category <= 11,
        table_ok(dc_huff.codes@),
        table_ok(ac_huff.codes@),
    ensures
        *final(dc_pred) == clamp_category_spec(zz@[0] as int, 11),
        match block_bits(zz@, *old(dc_pred) as int, dc_huff.codes@, ac_huff.codes@, max_ac_category as int) {
            Ok(b) => r is Ok && final(writer).wf() && final(writer).bits() == old(writer).bits() + b,
            Err(x) => r == Err::<(), ConvertError>(x),
        },
{
    let ghost start = writer.bits();
    let ghost rest = ac_bits(zz@, ac_huff.codes@, max_ac_category as int, 1, 0);
    proof {
        assert(pow2(11) == 2048) by {
            reveal_with_fuel(pow2, 12);
        }
    }
    let dc_value = clamp_to_category(zz[0], 11);
    let diff = clamp_to_category(dc_value - *dc_pred, 11);
    *dc_pred = dc_value;
    let (size, bits) = category_and_bits(diff);
    proof {
        lemma_category_le(diff as int, 11);
    }
    let ghost dc_entry = dc_huff.codes@[size as int];
    put_entry(writer, dc_huff.codes[size as usize], "jpeg-dc-huffman-gap")?;
    let ghost after_code = writer.bits();
    if size > 0 {
        writer.put_bits(bits, size);
    }
    let ghost eb = entry_code(dc_entry);
    let ghost cb = if size > 0 { code_bits(bits as int, size as nat) } else { seq![] };
    proof {
        if size == 0 {
            assert(writer.bits() =~= after_code + cb);
        }
        assert(writer.bits() =~= start + (eb + cb));
        lemma_prepend_assoc(eb, cb, rest);
    }
    let ghost mid = writer.bits();
    put_ac_coefficients(writer, zz, ac_huff, max_ac_category)?;
    proof {
        let tail = writer.bits().skip(mid.len() as int);
        assert(writer.bits() =~= mid + tail);
        assert(writer.bits() =~= start + ((eb + cb) + tail));
    }
    Ok(())
}


// ─── Writing the marker segments ────────────────────────────────────────────

/// Start-of-image marker code.
pub const SOI: u8 = 0xd8;
/// End-of-image marker code.
pub const EOI: u8 = 0xd9;
/// Baseline start-of-frame marker code.
pub const SOF0: u8 = 0xc0;
/// Huffman-table marker code.
pub const DHT: u8 = 0xc4;
/// Quantization-table marker code.
pub const DQT: u8 = 0xdb;
/// Start-of-scan marker code.
pub const SOS: u8 = 0xda;

/// The big-endian bytes of a 16-bit value.
pub open spec fn be16_bytes(v: int) -> Seq<u8> {
    seq![((v / 256) % 256) as u8, (v % 256) as u8]
}

/// The start of a segment: `0xFF`, `marker`, then the segment length `payload_len + 2`.
pub open spec fn marker_head(marker: u8, payload_len: int) -> Seq<u8> {
    seq![0xffu8, marker] + be16_bytes(payload_len + 2)
}

fn push_be16(out: &mut Vec<u8>, v: u16)
    ensures
        final(out)@ == old(out)@ + be16_bytes(v as int),
{
    out.push((v / 256) as u8);
    out.push((v % 256) as u8);
    proof {
        assert(final(out)@ =~= old(out)@ + be16_bytes(v as int));
    }
}

/// Writes the start of a segment (see [`marker_head`]).
pub fn write_marker_with_len(out: &mut Vec<u8>, marker: u8, payload_len: usize)
    requires
        payload_len + 2 <= 0xffff,
    ensures
        final(out)@ == old(out)@ + marker_head(marker, payload_len as int),
{
    out.push(0xff);
    out.push(marker);
    push_be16(out, (payload_len + 2) as u16);
    proof {
        assert(final(out)@ =~= old(out)@ + marker_head(marker, payload_len as int));
    }
}

/// The `APP0` segment: a JFIF 1.1 header, aspect ratio 1:1, no thumbnail.
pub open spec fn app0_spec() -> Seq<u8> {
    marker_head(0xe0, 14) + seq![0x4au8, 0x46, 0x49, 0x46, 0x00, 0x01, 0x01, 0x00, 0x00, 0x01, 0x00, 0x01, 0x00, 0x00]
}

/// Writes the `APP0` segment (see [`app0_spec`]).
pub fn write_app0(out: &mut Vec<u8>)
    ensures
        final(out)@ == old(out)@ + app0_spec(),
{
    let ghost start = out@;
    write_marker_with_len(out, 0xe0, 14);
    let body: [u8; 14] = [0x4a, 0x46, 0x49, 0x46, 0x00, 0x01, 0x01, 0x00, 0x00, 0x01, 0x00, 0x01, 0x00, 0x00];
    crate::bytes::push_all(out, &body);
    proof {
        assert(final(out)@ =~= start + app0_spec());
    }
}

/// The `DQT` segment of 8-bit table `id` holding `table` (zigzag order), each entry as its low byte.
pub open spec fn dqt_segment(id: u8, table: Seq<u16>) -> Seq<u8> {
    marker_head(DQT, 65) + seq![id] + Seq::new(64, |k: int| table[k] as u8)
}

/// Writes a `DQT` segment (see [`dqt_segment`]).
pub fn write_dqt(out: &mut Vec<u8>, id: u8, table_zigzag: &[u16; 64])
    ensures
        final(out)@ == old(out)@ + dqt_segment(id, table_zigzag@),
{
    let ghost start = out@;
    write_marker_with_len(out, DQT, 65);
    out.push(id);
    let ghost head = out@;
    let mut k: usize = 0;
    while k < 64
        invariant
            k <= 64,
            out@ == head + Seq::new(k as nat, |t: int| table_zigzag@[t] as u8),
        decreases 64 - k,
    {
        out.push(table_zigzag[k] as u8);
        proof {
            assert(out@ =~= head + Seq::new((k + 1) as nat, |t: int| table_zigzag@[t] as u8));
        }
        k = k + 1;
    }
    proof {
        assert(final(out)@ =~= start + dqt_segment(id, table_zigzag@));
    }
}

/// The baseline `SOF0` segment of a `width x height`, 8-bit, three-component image: Y (id 1,
/// table 0), Cb (id 2, table 1), Cr (id 3, table 1), none subsampled.
pub open spec fn sof0_segment(width: u16, height: u16) -> Seq<u8> {
    marker_head(SOF0, 15) + seq![8u8] + be16_bytes(height as int) + be16_bytes(width as int) + seq![
        3u8,
        1,
        0x11,
        0,
        2,
        0x11,
        1,
        3,
        0x11,
        1,
    ]
}

/// Writes the `SOF0` segment (see [`sof0_segment`]).
pub fn write_sof0(out: &mut Vec<u8>, width: u16, height: u16)
    ensures
        final(out)@ == old(out)@ + sof0_segment(width, height),
{
    let ghost start = out@;
    write_marker_with_len(out, SOF0, 15);
    out.push(8);
    push_be16(out, height);
    push_be16(out, width);
    let comps: [u8; 10] = [3, 1, 0x11, 0, 2, 0x11, 1, 3, 0x11, 1];
    crate::bytes::push_all(out, &comps);
    proof {
        assert(final(out)@ =~= start + sof0_segment(width, height));
    }
}

/// The `DHT` segment of table `class`/`id` with code-length counts `bits` and symbols `values`.
pub open spec fn dht_segment(class: u8, id: u8, bits: Seq<u8>, values: Seq<u8>) -> Seq<u8> {
    marker_head(DHT, 17 + values.len() as int) + seq![((class as int) * 16 + id) as u8] + bits + values
}

/// Writes a `DHT` segment (see [`dht_segment`]).
pub fn write_dht(out: &mut Vec<u8>, class: u8, id: u8, bits: &[u8; 16], values: &[u8])
    requires
        class < 16,
        id < 16,
        values@.len() <= 256,
    ensures
        final(out)@ == old(out)@ + dht_segment(class, id, bits@, values@),
{
    let ghost start = out@;
    write_marker_with_len(out, DHT, 17 + values.len());
    out.push(class * 16 + id);
    crate::bytes::push_all(out, bits);
    crate::bytes::push_all(out, values);
    proof {
        assert(final(out)@ =~= start + dht_segment(class, id, bits@, values@));
    }
}

/// The `SOS` segment of one interleaved scan of all three components: Y with DC and AC tables
/// 0, Cb and Cr with tables 1, the full spectral range and no successive approximation.
pub open spec fn sos_segment() -> Seq<u8> {
    marker_head(SOS, 10) + seq![3u8, 1, 0x00, 2, 0x11, 3, 0x11, 0, 63, 0]
}

/// Writes the `SOS` segment (see [`sos_segment`]).
pub fn write_sos(out: &mut Vec<u8>)
    ensures
        final(out)@ == old(out)@ + sos_segment(),
{
    let ghost start = out@;
    write_marker_with_len(out, SOS, 10);
    let body: [u8; 10] = [3, 1, 0x00, 2, 0x11, 3, 0x11, 0, 63, 0];
    crate::bytes::push_all(out, &body);
    proof {
        assert(final(out)@ =~= start + sos_segment());
    }
}


// ─── The entropy-coded scan and the whole file ──────────────────────────────

/// The four Huffman tables of a three-component scan.
pub struct ScanTables {
    pub luma_dc: EncodeHuff,
    pub luma_ac: EncodeHuff,
    pub chroma_dc: EncodeHuff,
    pub chroma_ac: EncodeHuff,
}

impl ScanTables {
    /// Every table codes with at most 16 bits.
    pub open spec fn wf(&self) -> bool {
        &&& table_ok(self.luma_dc.codes@)
        &&& table_ok(self.luma_ac.codes@)
        &&& table_ok(self.chroma_dc.codes@)
        &&& table_ok(self.chroma_ac.codes@)
    }

    /// The four tables: luminance DC and AC, chrominance DC and AC.
    pub open spec fn view(&self) -> (Codes, Codes, Codes, Codes) {
        (self.luma_dc.codes@, self.luma_ac.codes@, self.chroma_dc.codes@, self.chroma_ac.codes@)
    }

    /// The encode tables of the Annex K Huffman tables.
    pub fn standard() -> (r: Self)
        ensures
            r.wf(),
            r@ == std_scan_tables(),
    {
        proof {
            lemma_std_table_sizes();
        }
        let r = ScanTables {
            luma_dc: build_encode_huff(&std_dc_luma_bits(), &std_dc_values()),
            luma_ac: build_encode_huff(&std_ac_luma_bits(), &std_ac_luma_values()),
            chroma_dc: build_encode_huff(&std_dc_chroma_bits(), &std_dc_values()),
            chroma_ac: build_encode_huff(&std_ac_chroma_bits(), &std_ac_chroma_values()),
        };
        proof {
            assert(r.luma_dc.codes@ =~= std_table(std_dc_luma_bits()@, std_dc_values()@));
            assert(r.luma_ac.codes@ =~= std_table(std_ac_luma_bits()@, std_ac_luma_values()@));
            assert(r.chroma_dc.codes@ =~= std_table(std_dc_chroma_bits()@, std_dc_values()@));
            assert(r.chroma_ac.codes@ =~= std_table(std_ac_chroma_bits()@, std_ac_chroma_values()@));
        }
        r
    }
}

/// An encode table: for each symbol its `(code, length)`, if it has one.
pub type Codes = Seq<Option<(u16, u8)>>;

/// The encode table of the canonical code `bits`/`values`.
pub open spec fn std_table(bits: Seq<u8>, values: Seq<u8>) -> Codes {
    Seq::new(256, |v: int| enc_entry(bits, values, v))
}

/// The encode tables of the Annex K Huffman tables.
pub open spec fn std_scan_tables() -> (Codes, Codes, Codes, Codes) {
    (
        std_table(std_dc_luma_bits()@, std_dc_values()@),
        std_table(std_ac_luma_bits()@, std_ac_luma_values()@),
        std_table(std_dc_chroma_bits()@, std_dc_values()@),
        std_table(std_ac_chroma_bits()@, std_ac_chroma_values()@),
    )
}

/// The DC table of component `c` (0 is luminance).
pub open spec fn dc_table(t: (Codes, Codes, Codes, Codes), c: int) -> Codes {
    if c == 0 { t.0 } else { t.2 }
}

/// The AC table of component `c` (0 is luminance).
pub open spec fn ac_table(t: (Codes, Codes, Codes, Codes), c: int) -> Codes {
    if c == 0 { t.1 } else { t.3 }
}

/// The DC value block `c` of the MCU before `i` left behind (zero before the first MCU).
pub open spec fn mcu_pred(mcus: Seq<[[i32; 64]; 3]>, i: int, c: int) -> int {
    if i <= 0 {
        0
    } else {
        clamp_category_spec(mcus[i - 1]@[c]@[0] as int, 11)
    }
}

/// The bits of an MCU `m`: its Y, Cb and Cr blocks in turn (see [`block_bits`]), predicted from
/// the DC values `q0`, `q1`, `q2`.
pub open spec fn mcu_bits_from(m: Seq<[i32; 64]>, t: (Codes, Codes, Codes, Codes), q0: int, q1: int, q2: int) -> Result<Seq<bool>, ConvertError> {
    then_bits(
        block_bits(m[0]@, q0, dc_table(t, 0), ac_table(t, 0), MAX_AC_CATEGORY as int),
        then_bits(
            block_bits(m[1]@, q1, dc_table(t, 1), ac_table(t, 1), MAX_AC_CATEGORY as int),
            block_bits(m[2]@, q2, dc_table(t, 2), ac_table(t, 2), MAX_AC_CATEGORY as int),
        ),
    )
}

/// The bits of MCU `i`, each block predicted from the same component of the MCU before.
pub open spec fn mcu_bits(mcus: Seq<[[i32; 64]; 3]>, t: (Codes, Codes, Codes, Codes), i: int) -> Result<Seq<bool>, ConvertError> {
    mcu_bits_from(mcus[i]@, t, mcu_pred(mcus, i, 0), mcu_pred(mcus, i, 1), mcu_pred(mcus, i, 2))
}

/// The bits of the first `n` MCUs.
pub open spec fn scan_bits(mcus: Seq<[[i32; 64]; 3]>, t: (Codes, Codes, Codes, Codes), n: int) -> Result<Seq<bool>, ConvertError>
    decreases n,
{
    if n <= 0 {
        Ok(seq![])
    } else {
        then_bits(scan_bits(mcus, t, n - 1), mcu_bits(mcus, t, n - 1))
    }
}

proof fn lemma_scan_err(mcus: Seq<[[i32; 64]; 3]>, t: (Codes, Codes, Codes, Codes), k: int, n: int, x: ConvertError)
    requires
        0 <= k <= n,
        scan_bits(mcus, t, k) == Err::<Seq<bool>, ConvertError>(x),
    ensures
        scan_bits(mcus, t, n) == Err::<Seq<bool>, ConvertError>(x),
    decreases n - k,
{
    if k < n {
        lemma_scan_err(mcus, t, k + 1, n, x);
    }
}

proof fn lemma_dc_range(v: int)
    ensures
        -2047 <= clamp_category_spec(v, 11) <= 2047,
{
    assert(pow2(11) == 2048) by {
        reveal_with_fuel(pow2, 12);
    }
}

/// Codes one block into `writer`, appending its bits (see [`encode_coefficients`]).
fn code_block(writer: &mut BitWriter, zz: &[i32; 64], dc: &EncodeHuff, ac: &EncodeHuff, pred: &mut i32) -> (r: Result<(), ConvertError>)
    requires
        old(writer).wf(),
        -2047 <= *old(pred) <= 2047,
        table_ok(dc.codes@),
        table_ok(ac.codes@),
    ensures
        *final(pred) == clamp_category_spec(zz@[0] as int, 11),
        -2047 <= *final(pred) <= 2047,
        match block_bits(zz@, *old(pred) as int, dc.codes@, ac.codes@, MAX_AC_CATEGORY as int) {
            Ok(b) => r is Ok && final(writer).wf() && final(writer).bits() == old(writer).bits() + b,
            Err(x) => r == Err::<(), ConvertError>(x),
        },
{
    proof {
        lemma_dc_range(zz@[0] as int);
    }
    encode_coefficients(writer, zz, dc, ac, pred, MAX_AC_CATEGORY)
}

/// Codes the three blocks of MCU `m` (see [`mcu_bits_from`]), updating the three DC values.
#[verifier::spinoff_prover]
#[verifier::rlimit(30)]
fn code_mcu(writer: &mut BitWriter, m: &[[i32; 64]; 3], tables: &ScanTables, p0: &mut i32, p1: &mut i32, p2: &mut i32) -> (r: Result<(), ConvertError>)
    requires
        old(writer).wf(),
        tables.wf(),
        -2047 <= *old(p0) <= 2047,
        -2047 <= *old(p1) <= 2047,
        -2047 <= *old(p2) <= 2047,
    ensures
        r is Ok ==> *final(p0) == clamp_category_spec(m@[0]@[0] as int, 11),
        r is Ok ==> *final(p1) == clamp_category_spec(m@[1]@[0] as int, 11),
        r is Ok ==> *final(p2) == clamp_category_spec(m@[2]@[0] as int, 11),
        r is Ok ==> -2047 <= *final(p0) <= 2047 && -2047 <= *final(p1) <= 2047 && -2047 <= *final(p2) <= 2047,
        match mcu_bits_from(m@, tables@, *old(p0) as int, *old(p1) as int, *old(p2) as int) {
            Ok(b) => r is Ok && final(writer).wf() && final(writer).bits() == old(writer).bits() + b,
            Err(x) => r == Err::<(), ConvertError>(x),
        },
{
    let ghost before = writer.bits();
    let ghost t = tables@;
    let ghost b0 = block_bits(m@[0]@, *old(p0) as int, dc_table(t, 0), ac_table(t, 0), MAX_AC_CATEGORY as int);
    let ghost b1 = block_bits(m@[1]@, *old(p1) as int, dc_table(t, 1), ac_table(t, 1), MAX_AC_CATEGORY as int);
    let ghost b2 = block_bits(m@[2]@, *old(p2) as int, dc_table(t, 2), ac_table(t, 2), MAX_AC_CATEGORY as int);
    code_block(writer, &m[0], &tables.luma_dc, &tables.luma_ac, p0)?;
    let ghost w0 = writer.bits();
    match code_block(writer, &m[1], &tables.chroma_dc, &tables.chroma_ac, p1) {
        Ok(()) => {},
        Err(x) => {
            return Err(x);
        },
    }
    let ghost w1 = writer.bits();
    match code_block(writer, &m[2], &tables.chroma_dc, &tables.chroma_ac, p2) {
        Ok(()) => {},
        Err(x) => {
            return Err(x);
        },
    }
    proof {
        let c0 = w0.skip(before.len() as int);
        let c1 = w1.skip(w0.len() as int);
        let c2 = writer.bits().skip(w1.len() as int);
        if let Ok(x0) = b0 {
            assert(c0 =~= x0);
        }
        if let Ok(x1) = b1 {
            assert(c1 =~= x1);
        }
        if let Ok(x2) = b2 {
            assert(c2 =~= x2);
        }
        assert(writer.bits() =~= before + (c0 + (c1 + c2)));
    }
    Ok(())
}

/// Entropy-codes the MCUs of a scan, each three quantized blocks in zigzag order (Y, Cb, Cr),
/// and flushes the bits into bytes (see [`scan_bits`], [`entropy_bytes`]).
pub fn encode_scan(mcus: &[[[i32; 64]; 3]], tables: &ScanTables) -> (r: Result<Vec<u8>, ConvertError>)
    requires
        tables.wf(),
    ensures
        match scan_bits(mcus@, tables@, mcus@.len() as int) {
            Ok(b) => r matches Ok(v) && v@ == entropy_bytes(b),
            Err(x) => r == Err::<Vec<u8>, ConvertError>(x),
        },
{
    let mut writer = BitWriter::new();
    let mut p0: i32 = 0;
    let mut p1: i32 = 0;
    let mut p2: i32 = 0;
    let n = mcus.len();
    let mut i: usize = 0;
    while i < n
        invariant
            n == mcus@.len(),
            i <= n,
            tables.wf(),
            writer.wf(),
            scan_bits(mcus@, tables@, i as int) == Ok::<Seq<bool>, ConvertError>(writer.bits()),
            p0 == mcu_pred(mcus@, i as int, 0),
            p1 == mcu_pred(mcus@, i as int, 1),
            p2 == mcu_pred(mcus@, i as int, 2),
            -2047 <= p0 <= 2047,
            -2047 <= p1 <= 2047,
            -2047 <= p2 <= 2047,
        decreases n - i,
    {
        let ghost before = writer.bits();
        let ghost mb = mcu_bits(mcus@, tables@, i as int);
        match code_mcu(&mut writer, &mcus[i], tables, &mut p0, &mut p1, &mut p2) {
            Ok(()) => {},
            Err(x) => {
                proof {
                    assert(scan_bits(mcus@, tables@, i + 1) == Err::<Seq<bool>, ConvertError>(x));
                    lemma_scan_err(mcus@, tables@, i + 1, n as int, x);
                }
                return Err(x);
            },
        }
        proof {
            if let Ok(b) = mb {
                assert(writer.bits() == before + b);
            }
            assert(scan_bits(mcus@, tables@, i + 1) == Ok::<Seq<bool>, ConvertError>(writer.bits()));
        }
        i = i + 1;
    }
    Ok(writer.finish())
}

/// A baseline JFIF file: `SOI`, `APP0`, the luminance and chrominance quantization tables
/// (zigzag order), the frame header, the four Annex K Huffman tables, the scan header, the
/// entropy-coded `scan`, and `EOI`.
pub open spec fn jpeg_file(width: u16, height: u16, luma_qt: Seq<u16>, chroma_qt: Seq<u16>, scan: Seq<u8>) -> Seq<u8> {
    seq![0xffu8, SOI] + app0_spec() + dqt_segment(0, luma_qt) + dqt_segment(1, chroma_qt) + sof0_segment(width, height)
        + dht_segment(0, 0, std_dc_luma_bits()@, std_dc_values()@) + dht_segment(1, 0, std_ac_luma_bits()@, std_ac_luma_values()@)
        + dht_segment(0, 1, std_dc_chroma_bits()@, std_dc_values()@) + dht_segment(1, 1, std_ac_chroma_bits()@, std_ac_chroma_values()@)
        + sos_segment() + scan + seq![0xffu8, EOI]
}

/// Writes a whole baseline JFIF file around an entropy-coded scan (see [`jpeg_file`]).
pub fn write_jpeg_file(width: u16, height: u16, luma_qt: &[u16; 64], chroma_qt: &[u16; 64], scan: &[u8]) -> (r: Vec<u8>)
    ensures
        r@ == jpeg_file(width, height, luma_qt@, chroma_qt@, scan@),
{
    let mut out: Vec<u8> = Vec::new();
    out.push(0xff);
    out.push(SOI);
    write_app0(&mut out);
    write_dqt(&mut out, 0, luma_qt);
    write_dqt(&mut out, 1, chroma_qt);
    write_sof0(&mut out, width, height);
    write_dht(&mut out, 0, 0, &std_dc_luma_bits(), &std_dc_values());
    write_dht(&mut out, 1, 0, &std_ac_luma_bits(), &std_ac_luma_values());
    write_dht(&mut out, 0, 1, &std_dc_chroma_bits(), &std_dc_values());
    write_dht(&mut out, 1, 1, &std_ac_chroma_bits(), &std_ac_chroma_values());
    write_sos(&mut out);
    crate::bytes::push_all(&mut out, scan);
    out.push(0xff);
    out.push(EOI);
    proof {
        assert(out@ =~= jpeg_file(width, height, luma_qt@, chroma_qt@, scan@));
    }
    out
}

/// The encode quality: the requested one (or [`DEFAULT_QUALITY`]) limited to `1..=100`.
pub open spec fn quality_spec(requested: Option<u8>) -> u8 {
    let q = match requested {
        Some(q) => q,
        None => DEFAULT_QUALITY,
    };
    if q < MIN_QUALITY {
        MIN_QUALITY
    } else if q > MAX_QUALITY {
        MAX_QUALITY
    } else {
        q
    }
}

/// The encode quality for an optional requested one (see [`quality_spec`]).
pub fn encode_quality(requested: Option<u8>) -> (r: u8)
    ensures
        r == quality_spec(requested),
{
    let q = match requested {
        Some(q) => q,
        None => DEFAULT_QUALITY,
    };
    if q < MIN_QUALITY {
        MIN_QUALITY
    } else if q > MAX_QUALITY {
        MAX_QUALITY
    } else {
        q
    }
}

/// The Annex K luminance and chrominance quantization tables scaled to `quality`, in zigzag
/// order: entry `i` of each is the scaled entry at natural position `zigzag_spec()[i]`.
pub fn quant_tables(quality: u8) -> (r: ([u16; 64], [u16; 64]))
    ensures
        forall|i: int| 0 <= i < 64 ==> #[trigger] r.0@[i] == scaled_entry(std_luma_qt()@[zigzag_spec()[i] as int] as int, quality_scale(quality as int)),
        forall|i: int| 0 <= i < 64 ==> #[trigger] r.1@[i] == scaled_entry(std_chroma_qt()@[zigzag_spec()[i] as int] as int, quality_scale(quality as int)),
{
    let luma = natural_to_zigzag(&scale_quant_table(&std_luma_qt(), quality));
    let chroma = natural_to_zigzag(&scale_quant_table(&std_chroma_qt(), quality));
    (luma, chroma)
}

/// The JPEG file of a `width x height` image whose MCUs, quantized with `luma_qt` and
/// `chroma_qt` (zigzag order), are `mcus`, coded with the Annex K Huffman tables. The frame
/// header carries the dimensions modulo `2^16`.
pub fn encode_mcus(width: u32, height: u32, luma_qt: &[u16; 64], chroma_qt: &[u16; 64], mcus: &[[[i32; 64]; 3]]) -> (r: Result<Vec<u8>, ConvertError>)
    ensures
        match scan_bits(mcus@, std_scan_tables(), mcus@.len() as int) {
            Ok(b) => r matches Ok(v) && v@ == jpeg_file((width % 65536) as u16, (height % 65536) as u16, luma_qt@, chroma_qt@, entropy_bytes(b)),
            Err(x) => r == Err::<Vec<u8>, ConvertError>(x),
        },
{
    let tables = ScanTables::standard();
    let scan = encode_scan(mcus, &tables)?;
    let w = (width % 65536) as u16;
    let h = (height % 65536) as u16;
    Ok(write_jpeg_file(w, h, luma_qt, chroma_qt, &scan))
}


// ─── Decoding: Huffman tables ───────────────────────────────────────────────

/// A decode table: the symbols in code order, and per code length `1..=16` the first and last
/// canonical code of that length (`-1` as the last when there is none) and the index of the
/// first symbol of that length.
pub struct HuffTable {
    pub values: Vec<u8>,
    pub mincode: [i32; 17],
    pub maxcode: [i32; 17],
    pub valptr: [i32; 17],
}

/// Every canonical code the count list describes fits in 16 bits.
pub open spec fn codes_fit(counts: Seq<u8>) -> bool {
    forall|k: int| 0 <= k < huff_sizes(counts).len() ==> #[trigger] canon_code(huff_sizes(counts), k) <= 0xffff
}

/// A `DHT` count list with `n` symbols makes a decode table: the counts add up to `n`, at most
/// 256, and every code fits in 16 bits.
pub open spec fn huff_valid(counts: Seq<u8>, n: int) -> bool {
    count_sum(counts, 16) == n && n <= 256 && codes_fit(counts)
}

/// The first code of length `len`, if there is one (else 0).
pub open spec fn min_code(counts: Seq<u8>, len: int) -> int {
    if 1 <= len <= 16 && counts[len - 1] > 0 { canon_code(huff_sizes(counts), count_sum(counts, len - 1)) } else { 0 }
}

/// The last code of length `len`, or -1 when there is none.
pub open spec fn max_code(counts: Seq<u8>, len: int) -> int {
    if 1 <= len <= 16 && counts[len - 1] > 0 { canon_code(huff_sizes(counts), count_sum(counts, len) - 1) } else { -1 }
}

/// The index of the first symbol of length `len`, if there is one (else 0).
pub open spec fn val_ptr(counts: Seq<u8>, len: int) -> int {
    if 1 <= len <= 16 && counts[len - 1] > 0 { count_sum(counts, len - 1) } else { 0 }
}

/// The decode table `t` is the one of `counts` and `values`.
pub open spec fn table_of(t: HuffTable, counts: Seq<u8>, values: Seq<u8>) -> bool {
    &&& t.values@ == values
    &&& forall|len: int| 0 <= len < 17 ==> #[trigger] t.mincode@[len] == min_code(counts, len)
    &&& forall|len: int| 0 <= len < 17 ==> #[trigger] t.maxcode@[len] == max_code(counts, len)
    &&& forall|len: int| 0 <= len < 17 ==> #[trigger] t.valptr@[len] == val_ptr(counts, len)
}

pub proof fn lemma_count_sum_mono(counts: Seq<u8>, a: int, b: int)
    requires
        0 <= a <= b <= counts.len(),
    ensures
        0 <= count_sum(counts, a) <= count_sum(counts, b),
    decreases b,
{
    if b > 0 {
        if a < b {
            lemma_count_sum_mono(counts, a, b - 1);
        } else {
            lemma_count_sum_mono(counts, a - 1, b - 1);
        }
    }
}

/// The decode table of a `DHT` count list and its symbols; `MalformedInput` unless
/// [`huff_valid`].
pub fn build_huff_table(counts: &[u8; 16], values: Vec<u8>) -> (r: Result<HuffTable, ConvertError>)
    ensures
        huff_valid(counts@, values@.len() as int) ==> (r matches Ok(t) && table_of(t, counts@, values@)),
        !huff_valid(counts@, values@.len() as int) ==> r == Err::<HuffTable, ConvertError>(malformed()),
{
    let mut total: usize = 0;
    let mut i: usize = 0;
    while i < 16
        invariant
            i <= 16,
            total == count_sum(counts@, i as int),
            total <= 255 * i,
        decreases 16 - i,
    {
        total = total + counts[i] as usize;
        i = i + 1;
    }
    if total != values.len() || total > 256 {
        return Err(ConvertError::MalformedInput { format: Format::Jpeg });
    }
    let sizes = sizes_of(counts);
    proof {
        lemma_sizes_len(counts@, 16);
    }
    let codes = canonical_codes(&sizes);
    let mut k: usize = 0;
    while k < total
        invariant
            k <= total == sizes@.len() == codes@.len(),
            sizes@ == huff_sizes(counts@),
            forall|t: int| 0 <= t < codes@.len() ==> #[trigger] codes@[t] == canon_code(sizes@, t),
            forall|t: int| 0 <= t < k ==> #[trigger] canon_code(sizes@, t) <= 0xffff,
        decreases total - k,
    {
        if codes[k] > 0xffff {
            return Err(ConvertError::MalformedInput { format: Format::Jpeg });
        }
        k = k + 1;
    }
    let mut mincode: [i32; 17] = [0; 17];
    let mut maxcode: [i32; 17] = [-1; 17];
    let mut valptr: [i32; 17] = [0; 17];
    let mut p: usize = 0;
    let mut len: usize = 1;
    while len <= 16
        invariant
            1 <= len <= 17,
            total == sizes@.len() == codes@.len() == count_sum(counts@, 16) <= 256,
            sizes@ == huff_sizes(counts@),
            forall|t: int| 0 <= t < codes@.len() ==> #[trigger] codes@[t] == canon_code(sizes@, t),
            forall|t: int| 0 <= t < total ==> #[trigger] canon_code(sizes@, t) <= 0xffff,
            p == count_sum(counts@, len - 1),
            forall|l: int| 0 <= l < len ==> #[trigger] mincode@[l] == min_code(counts@, l),
            forall|l: int| 0 <= l < len ==> #[trigger] maxcode@[l] == max_code(counts@, l),
            forall|l: int| 0 <= l < len ==> #[trigger] valptr@[l] == val_ptr(counts@, l),
            forall|l: int| len <= l < 17 ==> #[trigger] mincode@[l] == 0,
            forall|l: int| len <= l < 17 ==> #[trigger] maxcode@[l] == -1,
            forall|l: int| len <= l < 17 ==> #[trigger] valptr@[l] == 0,
        decreases 17 - len,
    {
        proof {
            lemma_count_sum_mono(counts@, len as int, 16);
        }
        let count = counts[len - 1] as usize;
        if count > 0 {
            valptr[len] = p as i32;
            mincode[len] = codes[p] as i32;
            p = p + count;
            maxcode[len] = codes[p - 1] as i32;
        }
        len = len + 1;
    }
    proof {
        assert(codes_fit(counts@));
    }
    Ok(HuffTable { values, mincode, maxcode, valptr })
}

/// The table definitions of a `DHT` segment from byte `p` to its end `e`, recorded as writes
/// `(counts, symbols)` per DC and AC slot: each a byte of class (high nibble, 0 for DC or 1 for
/// AC) and slot (low nibble, below 4), 16 counts and as many symbols as they add up to, inside
/// the input and making a valid table ([`huff_valid`]); the definitions must end exactly at `e`.
pub open spec fn dht_loop(d: Seq<u8>, p: int, e: int, dc: Seq<Option<(Seq<u8>, Seq<u8>)>>, ac: Seq<Option<(Seq<u8>, Seq<u8>)>>) -> Result<
    (Seq<Option<(Seq<u8>, Seq<u8>)>>, Seq<Option<(Seq<u8>, Seq<u8>)>>),
    ConvertError,
>
    decreases (if p < e { e - p } else { 0 }),
{
    if p >= e {
        if p == e {
            Ok((dc, ac))
        } else {
            Err(malformed())
        }
    } else {
        let class = d[p] / 16;
        let id = d[p] % 16;
        if p < 0 || id >= 4 || class > 1 || p + 17 > d.len() {
            Err(malformed())
        } else {
            let counts = d.subrange(p + 1, p + 17);
            let total = count_sum(counts, 16);
            proof {
                lemma_count_sum_mono(counts, 0, 16);
            }
            if p + 17 + total > d.len() || !huff_valid(counts, total) {
                Err(malformed())
            } else {
                let w = Some((counts, d.subrange(p + 17, p + 17 + total)));
                if class == 0 {
                    dht_loop(d, p + 17 + total, e, dc.update(id as int, w), ac)
                } else {
                    dht_loop(d, p + 17 + total, e, dc, ac.update(id as int, w))
                }
            }
        }
    }
}

/// No writes to any of the four slots.
pub open spec fn no_writes() -> Seq<Option<(Seq<u8>, Seq<u8>)>> {
    seq![None, None, None, None]
}

/// A `DHT` segment at `p`: its end and its writes to the DC and AC slots (see [`dht_loop`]).
pub open spec fn dht_spec(d: Seq<u8>, p: int) -> Result<(int, Seq<Option<(Seq<u8>, Seq<u8>)>>, Seq<Option<(Seq<u8>, Seq<u8>)>>), ConvertError> {
    match segment_end(d, p, 2) {
        None => Err(malformed()),
        Some(e) => match dht_loop(d, p + 2, e, no_writes(), no_writes()) {
            Err(x) => Err(x),
            Ok((dc, ac)) => Ok((e, dc, ac)),
        },
    }
}

/// The slots `after` are the slots `before` with `writes` applied: a written slot holds the
/// table of the last write, the others are unchanged.
pub open spec fn slots_after(before: Seq<Option<HuffTable>>, after: Seq<Option<HuffTable>>, writes: Seq<Option<(Seq<u8>, Seq<u8>)>>) -> bool {
    forall|id: int| 0 <= id < 4 ==> match #[trigger] writes[id] {
        Some((c, v)) => after[id] matches Some(t) && table_of(t, c, v),
        None => after[id] == before[id],
    }
}

/// The 16 counts at `p`.
fn read_counts(input: &[u8], p: usize) -> (r: [u8; 16])
    requires
        p + 16 <= input@.len(),
    ensures
        r@ == input@.subrange(p as int, p + 16),
{
    let mut counts = [0u8; 16];
    let mut k: usize = 0;
    while k < 16
        invariant
            k <= 16,
            p + 16 <= input.len(),
            forall|j: int| 0 <= j < k ==> #[trigger] counts@[j] == input@[p + j],
        decreases 16 - k,
    {
        counts[k] = input[p + k];
        k = k + 1;
    }
    assert(counts@ =~= input@.subrange(p as int, p + 16));
    counts
}

/// Reads a `DHT` segment at `*pos` into the DC and AC table slots (see [`dht_spec`]).
#[verifier::loop_isolation(false)]
pub fn parse_dht(input: &[u8], pos: &mut usize, dc_tables: &mut [Option<HuffTable>; 4], ac_tables: &mut [Option<HuffTable>; 4]) -> (r: Result<(), ConvertError>)
    ensures
        match dht_spec(input@, *old(pos) as int) {
            Ok((e, dc, ac)) => r is Ok && *final(pos) == e && slots_after(old(dc_tables)@, final(dc_tables)@, dc)
                && slots_after(old(ac_tables)@, final(ac_tables)@, ac),
            Err(err) => r == Err::<(), ConvertError>(err),
        },
{
    let p0 = *pos;
    let len = match read_u16_be(input, p0) {
        Some(v) => v as usize,
        None => {
            return Err(ConvertError::MalformedInput { format: Format::Jpeg });
        },
    };
    if len < 2 || len > input.len() - p0 {
        return Err(ConvertError::MalformedInput { format: Format::Jpeg });
    }
    let seg_end = p0 + len;
    let ghost d = input@;
    let ghost dc0 = dc_tables@;
    let ghost ac0 = ac_tables@;
    let ghost mut dcw = no_writes();
    let ghost mut acw = no_writes();
    let mut p = p0 + 2;
    while p < seg_end
        invariant
            d == input@,
            seg_end <= input@.len(),
            p <= input@.len(),
            dcw.len() == 4,
            acw.len() == 4,
            dht_loop(d, p0 + 2, seg_end as int, no_writes(), no_writes()) == dht_loop(d, p as int, seg_end as int, dcw, acw),
            slots_after(dc0, dc_tables@, dcw),
            slots_after(ac0, ac_tables@, acw),
        decreases input@.len() - p,
    {
        let tc_th = input[p];
        let class = tc_th / 16;
        let id = (tc_th % 16) as usize;
        if id >= 4 || class > 1 {
            return Err(ConvertError::MalformedInput { format: Format::Jpeg });
        }
        if 17 > input.len() - p {
            return Err(ConvertError::MalformedInput { format: Format::Jpeg });
        }
        let counts = read_counts(input, p + 1);
        let mut total: usize = 0;
        let mut i: usize = 0;
        while i < 16
            invariant
                i <= 16,
                total == count_sum(counts@, i as int),
                total <= 255 * i,
            decreases 16 - i,
        {
            total = total + counts[i] as usize;
            i = i + 1;
        }
        if total > input.len() - (p + 17) {
            return Err(ConvertError::MalformedInput { format: Format::Jpeg });
        }
        let values = crate::bytes::to_vec(vstd::slice::slice_subrange(input, p + 17, p + 17 + total));
        let table = match build_huff_table(&counts, values) {
            Ok(t) => t,
            Err(x) => {
                return Err(x);
            },
        };
        let ghost w = Some((counts@, d.subrange(p + 17, p + 17 + total)));
        if class == 0 {
            dc_tables[id] = Some(table);
            proof {
                dcw = dcw.update(id as int, w);
            }
        } else {
            ac_tables[id] = Some(table);
            proof {
                acw = acw.update(id as int, w);
            }
        }
        p = p + 17 + total;
    }
    if p != seg_end {
        return Err(ConvertError::MalformedInput { format: Format::Jpeg });
    }
    *pos = seg_end;
    Ok(())
}


// ─── Decoding: reading entropy-coded bits ───────────────────────────────────

/// Where a reader of entropy-coded data stands: the byte position, whether a marker stopped it,
/// and the bits of the current byte not yet read.
pub type ReaderView = (int, bool, Seq<bool>);

/// The bits of a byte, most significant first.
pub open spec fn byte_bits(b: u8) -> Seq<bool> {
    Seq::new(8, |i: int| ((b as u32) >> ((7 - i) as u32)) & 1 == 1)
}

/// The next data byte at `p` and where the reader stands after it: a `0xFF 0x00` pair is one
/// `0xFF` data byte; a `0xFF` before anything else is a marker, which stops the reader for
/// good; past the end, or once stopped, the data continues as `0xFF` bytes.
pub open spec fn fetch(d: Seq<u8>, p: int, hit: bool) -> (u8, int, bool) {
    if hit {
        (0xff, p, true)
    } else if p < 0 || p >= d.len() {
        (0xff, p, false)
    } else if d[p] == 0xff {
        if p + 1 < d.len() && d[p + 1] == 0 {
            (0xff, p + 2, false)
        } else {
            (0xff, p, true)
        }
    } else {
        (d[p], p + 1, false)
    }
}

/// The next bit and the reader after it.
pub open spec fn read_bit_spec(d: Seq<u8>, v: ReaderView) -> (bool, ReaderView) {
    if v.2.len() == 0 {
        let (b, p, h) = fetch(d, v.0, v.1);
        (byte_bits(b)[0], (p, h, byte_bits(b).drop_first()))
    } else {
        (v.2[0], (v.0, v.1, v.2.drop_first()))
    }
}

/// The value of the next `n` bits, most significant first, and the reader after them.
pub open spec fn read_bits_spec(d: Seq<u8>, v: ReaderView, n: nat) -> (int, ReaderView)
    decreases n,
{
    if n == 0 {
        (0, v)
    } else {
        let (x, v1) = read_bits_spec(d, v, (n - 1) as nat);
        let (b, v2) = read_bit_spec(d, v1);
        (2 * x + if b { 1int } else { 0int }, v2)
    }
}

/// A reader of entropy-coded scan data.
pub struct BitReader<'a> {
    data: &'a [u8],
    pos: usize,
    acc: u32,
    nbits: u32,
    hit_marker: bool,
}

/// Bit `k` from the bottom of `acc`.
pub open spec fn acc_bit(acc: u32, k: u32) -> bool {
    (acc >> k) & 1 == 1
}

impl<'a> BitReader<'a> {
    /// The data read.
    pub closed spec fn data(&self) -> Seq<u8> {
        self.data@
    }

    /// Where the reader stands.
    pub closed spec fn view(&self) -> ReaderView {
        (
            self.pos as int,
            self.hit_marker,
            Seq::new(self.nbits as nat, |i: int| acc_bit(self.acc, (self.nbits - 1 - i) as u32)),
        )
    }

    /// At most one byte is buffered.
    pub closed spec fn wf(&self) -> bool {
        self.nbits <= 8 && self.pos <= self.data@.len()
    }

    /// A reader of `data` from byte `pos`.
    pub fn new(data: &'a [u8], pos: usize) -> (r: Self)
        requires
            pos <= data@.len(),
        ensures
            r.wf(),
            r.data() == data@,
            r@ == (pos as int, false, Seq::<bool>::empty()),
    {
        let r = BitReader { data, pos, acc: 0, nbits: 0, hit_marker: false };
        proof {
            assert(r@.2 =~= Seq::<bool>::empty());
        }
        r
    }

    /// The current byte position.
    pub fn position(&self) -> (r: usize)
        ensures
            r == self@.0,
    {
        self.pos
    }

    /// The next data byte (see [`fetch`]); `None` at a marker or past the end, where the data
    /// continues as `0xFF`.
    fn next_byte(&mut self) -> (r: Option<u8>)
        requires
            old(self).wf(),
        ensures
            final(self).wf(),
            final(self).data() == old(self).data(),
            final(self).nbits == old(self).nbits,
            final(self).acc == old(self).acc,
            ({
                let (b, p, h) = fetch(old(self).data(), old(self).pos as int, old(self).hit_marker);
                &&& (match r {
                    Some(x) => x == b,
                    None => b == 0xff,
                })
                &&& final(self).pos == p
                &&& final(self).hit_marker == h
            }),
    {
        if self.hit_marker {
            return None;
        }
        if self.pos >= self.data.len() {
            return None;
        }
        let b = self.data[self.pos];
        if b == 0xff {
            if self.pos + 1 < self.data.len() && self.data[self.pos + 1] == 0 {
                self.pos = self.pos + 2;
                Some(0xff)
            } else {
                self.hit_marker = true;
                None
            }
        } else {
            self.pos = self.pos + 1;
            Some(b)
        }
    }

    /// Reads one bit (see [`read_bit_spec`]).
    pub fn get_bit(&mut self) -> (r: bool)
        requires
            old(self).wf(),
        ensures
            final(self).wf(),
            final(self).data() == old(self).data(),
            (r, final(self)@) == read_bit_spec(old(self).data(), old(self)@),
    {
        if self.nbits == 0 {
            let byte = match self.next_byte() {
                Some(b) => b,
                None => 0xff,
            };
            self.acc = byte as u32;
            self.nbits = 8;
            proof {
                let bits = byte_bits(byte);
                assert(self@.2 =~= bits);
            }
        }
        let ghost before = self@;
        let k = self.nbits - 1;
        let bit = (self.acc >> k) & 1 == 1;
        let acc = self.acc;
        assert((1u32 << k) >= 1) by (bit_vector)
            requires k < 8;
        self.acc = acc & ((1u32 << k) - 1);
        self.nbits = k;
        proof {
            assert forall|i: int| 0 <= i < k implies #[trigger] acc_bit(self.acc, (k - 1 - i) as u32) == acc_bit(acc, (k - 1 - i) as u32) by {
                let j = (k - 1 - i) as u32;
                assert(((acc & (((1u32 << k) - 1) as u32)) >> j) & 1 == (acc >> j) & 1) by (bit_vector)
                    requires j < k, k < 8;
            }
            assert(self@.2 =~= before.2.drop_first());
        }
        bit
    }

    /// Reads `n` bits, most significant first (see [`read_bits_spec`]).
    pub fn get_bits(&mut self, n: u8) -> (r: u32)
        requires
            old(self).wf(),
            n <= 16,
        ensures
            final(self).wf(),
            final(self).data() == old(self).data(),
            (r as int, final(self)@) == read_bits_spec(old(self).data(), old(self)@, n as nat),
            r < pow2(n as nat),
    {
        let ghost v0 = self@;
        let mut value: u32 = 0;
        let mut i: u8 = 0;
        while i < n
            invariant
                i <= n <= 16,
                self.wf(),
                self.data() == old(self).data(),
                v0 == old(self)@,
                (value as int, self@) == read_bits_spec(self.data(), v0, i as nat),
                value < pow2(i as nat),
            decreases n - i,
        {
            let b = self.get_bit();
            proof {
                lemma_pow2_mono(i as nat, 16);
                assert(pow2(16) == 65536) by {
                    reveal_with_fuel(pow2, 17);
                }
                assert(pow2((i + 1) as nat) == 2 * pow2(i as nat));
            }
            value = 2 * value + if b { 1 } else { 0 };
            i = i + 1;
        }
        proof {
            assert(pow2(0) == 1);
        }
        value
    }

    /// Drops the rest of the current byte and forgets a marker seen, so the next bytes read are
    /// those at the current position.
    pub fn byte_align(&mut self)
        requires
            old(self).wf(),
        ensures
            final(self).wf(),
            final(self).data() == old(self).data(),
            final(self)@ == (old(self)@.0, false, Seq::<bool>::empty()),
    {
        self.acc = 0;
        self.nbits = 0;
        self.hit_marker = false;
        proof {
            assert(self@.2 =~= Seq::<bool>::empty());
        }
    }

    /// Steps over a restart marker (`0xFF` then `0xD0..=0xD7`) at the current position;
    /// `MalformedInput` if there is none.
    pub fn expect_restart_marker(&mut self) -> (r: Result<(), ConvertError>)
        requires
            old(self).wf(),
        ensures
            final(self).wf(),
            final(self).data() == old(self).data(),
            restart_at(old(self).data(), old(self)@.0) ==> r is Ok && final(self)@ == (old(self)@.0 + 2, old(self)@.1, old(self)@.2),
            !restart_at(old(self).data(), old(self)@.0) ==> r == Err::<(), ConvertError>(malformed()) && final(self)@ == old(self)@,
    {
        let p = self.pos;
        if p >= self.data.len() || self.data.len() - p < 2 {
            return Err(ConvertError::MalformedInput { format: Format::Jpeg });
        }
        let marker = self.data[p];
        let code = self.data[p + 1];
        if marker != 0xff || code < 0xd0 || code > 0xd7 {
            return Err(ConvertError::MalformedInput { format: Format::Jpeg });
        }
        self.pos = p + 2;
        Ok(())
    }
}

/// A restart marker (`0xFF` then `0xD0..=0xD7`) stands at byte `p`.
pub open spec fn restart_at(d: Seq<u8>, p: int) -> bool {
    0 <= p && p + 2 <= d.len() && d[p] == 0xff && 0xd0 <= d[p + 1] <= 0xd7
}


// ─── Decoding: Huffman symbols and blocks ───────────────────────────────────

/// Decoding a symbol with table `t`, `len - 1` bits read so far making `code`: read a bit; when
/// the code now lies within the codes of this length, its symbol (`MalformedInput` if the table
/// has none there); otherwise on to the next length, up to 16.
pub open spec fn huff_spec(d: Seq<u8>, v: ReaderView, t: HuffTable, len: int, code: int) -> Result<(u8, ReaderView), ConvertError>
    decreases 17 - len,
{
    if len > 16 || len < 1 {
        Err(malformed())
    } else {
        let (b, v1) = read_bit_spec(d, v);
        let c = 2 * code + if b { 1int } else { 0int };
        if t.maxcode@[len] != -1 && c <= t.maxcode@[len] {
            let idx = t.valptr@[len] + c - t.mincode@[len];
            if 0 <= idx < t.values@.len() {
                Ok((t.values@[idx], v1))
            } else {
                Err(malformed())
            }
        } else {
            huff_spec(d, v1, t, len + 1, c)
        }
    }
}

/// Decodes one symbol with `table` (see [`huff_spec`]).
pub fn decode_huff(table: &HuffTable, reader: &mut BitReader) -> (r: Result<u8, ConvertError>)
    requires
        old(reader).wf(),
    ensures
        final(reader).wf(),
        final(reader).data() == old(reader).data(),
        match huff_spec(old(reader).data(), old(reader)@, *table, 1, 0) {
            Ok((sym, v)) => r == Ok::<u8, ConvertError>(sym) && final(reader)@ == v,
            Err(e) => r == Err::<u8, ConvertError>(e),
        },
{
    let ghost d = reader.data();
    let ghost total = huff_spec(d, reader@, *table, 1, 0);
    let mut code: i32 = 0;
    let mut len: usize = 1;
    while len <= 16
        invariant
            1 <= len <= 17,
            reader.wf(),
            reader.data() == d,
            d == old(reader).data(),
            total == huff_spec(old(reader).data(), old(reader)@, *table, 1, 0),
            0 <= code < pow2((len - 1) as nat),
            total == huff_spec(d, reader@, *table, len as int, code as int),
        decreases 17 - len,
    {
        proof {
            lemma_pow2_mono((len - 1) as nat, 15);
            assert(pow2(15) == 32768) by {
                reveal_with_fuel(pow2, 16);
            }
            assert(pow2(len as nat) == 2 * pow2((len - 1) as nat));
        }
        let bit = reader.get_bit();
        code = 2 * code + if bit { 1 } else { 0 };
        let max = table.maxcode[len];
        if max != -1 && code <= max {
            let idx: i64 = table.valptr[len] as i64 + code as i64 - table.mincode[len] as i64;
            if idx < 0 || idx as u64 >= table.values.len() as u64 {
                return Err(ConvertError::MalformedInput { format: Format::Jpeg });
            }
            return Ok(table.values[idx as usize]);
        }
        len = len + 1;
    }
    Err(ConvertError::MalformedInput { format: Format::Jpeg })
}

/// The AC coefficients of a block from position `k` on, into `coeffs`: each symbol is a zero
/// run (high nibble) and a magnitude size (low nibble); size 0 is sixteen zeros when the run is
/// 15 and the end of the block otherwise; a coefficient past the end is `MalformedInput`.
pub open spec fn ac_spec(d: Seq<u8>, v: ReaderView, ac: HuffTable, k: int, coeffs: Seq<i32>) -> Result<(Seq<i32>, ReaderView), ConvertError>
    decreases (if k < 64 { 64 - k } else { 0 }),
{
    if k >= 64 {
        Ok((coeffs, v))
    } else {
        match huff_spec(d, v, ac, 1, 0) {
            Err(e) => Err(e),
            Ok((rs, v1)) => {
                let run = rs / 16;
                let size = rs % 16;
                if size == 0 {
                    if run == 15 {
                        ac_spec(d, v1, ac, k + 16, coeffs)
                    } else {
                        Ok((coeffs, v1))
                    }
                } else if k + run >= 64 {
                    Err(malformed())
                } else {
                    let (bits, v2) = read_bits_spec(d, v1, size as nat);
                    ac_spec(d, v2, ac, k + run + 1, coeffs.update(k + run, extend_spec(bits, size as int) as i32))
                }
            },
        }
    }
}

/// A block, DC value predicted from `pred`: the DC difference (a size of at most 11 and its
/// magnitude bits, added with wrap-around), then the AC coefficients (see [`ac_spec`]). The
/// coefficients in zigzag order, the new DC value and where the reader stands after.
pub open spec fn block_spec(d: Seq<u8>, v: ReaderView, dc: HuffTable, ac: HuffTable, pred: i32) -> Result<(Seq<i32>, i32, ReaderView), ConvertError> {
    match huff_spec(d, v, dc, 1, 0) {
        Err(e) => Err(e),
        Ok((size, v1)) => {
            if size > 11 {
                Err(malformed())
            } else {
                let (bits, v2) = read_bits_spec(d, v1, size as nat);
                let p = pred.wrapping_add(extend_spec(bits, size as int) as i32);
                match ac_spec(d, v2, ac, 1, Seq::new(64, |i: int| if i == 0 { p } else { 0i32 })) {
                    Err(e) => Err(e),
                    Ok((c, v3)) => Ok((c, p, v3)),
                }
            }
        },
    }
}

proof fn lemma_extend_range(bits: int, size: int)
    requires
        0 <= size <= 15,
        0 <= bits < pow2(size as nat),
    ensures
        -32768 < extend_spec(bits, size) < 32768,
{
    lemma_pow2_mono(size as nat, 15);
    assert(pow2(15) == 32768) by {
        reveal_with_fuel(pow2, 16);
    }
}

/// Decodes one block (see [`block_spec`]), updating the DC prediction.
pub fn decode_block(reader: &mut BitReader, dc_table: &HuffTable, ac_table: &HuffTable, dc_pred: &mut i32) -> (r: Result<[i32; 64], ConvertError>)
    requires
        old(reader).wf(),
    ensures
        final(reader).wf(),
        final(reader).data() == old(reader).data(),
        match block_spec(old(reader).data(), old(reader)@, *dc_table, *ac_table, *old(dc_pred)) {
            Ok((c, p, v)) => r matches Ok(x) && x@ == c && *final(dc_pred) == p && final(reader)@ == v,
            Err(e) => r == Err::<[i32; 64], ConvertError>(e),
        },
{
    let ghost d = reader.data();
    let ghost full = block_spec(d, reader@, *dc_table, *ac_table, *dc_pred);
    let mut coeffs = [0i32; 64];
    let size = decode_huff(dc_table, reader)?;
    if size > 11 {
        return Err(ConvertError::MalformedInput { format: Format::Jpeg });
    }
    let bits = reader.get_bits(size);
    proof {
        lemma_extend_range(bits as int, size as int);
    }
    let diff = extend(bits, size);
    *dc_pred = dc_pred.wrapping_add(diff);
    coeffs[0] = *dc_pred;
    let ghost p = *dc_pred;
    proof {
        assert(coeffs@ =~= Seq::new(64, |i: int| if i == 0 { p } else { 0i32 }));
    }
    let ghost total = ac_spec(d, reader@, *ac_table, 1, coeffs@);
    proof {
        assert(full == match total {
            Err(e) => Err(e),
            Ok((c, v3)) => Ok((c, p, v3)),
        });
    }
    let mut k: usize = 1;
    while k < 64
        invariant_except_break
            1 <= k < 64,
            reader.wf(),
            reader.data() == d,
            d == old(reader).data(),
            full == block_spec(old(reader).data(), old(reader)@, *dc_table, *ac_table, *old(dc_pred)),
            p == *dc_pred,
            full == match total {
                Err(e) => Err(e),
                Ok((c, v3)) => Ok((c, p, v3)),
            },
            total == ac_spec(d, reader@, *ac_table, k as int, coeffs@),
        ensures
            reader.wf(),
            reader.data() == d,
            d == old(reader).data(),
            full == block_spec(old(reader).data(), old(reader)@, *dc_table, *ac_table, *old(dc_pred)),
            p == *dc_pred,
            full == match total {
                Err(e) => Err(e),
                Ok((c, v3)) => Ok((c, p, v3)),
            },
            total == Ok::<(Seq<i32>, ReaderView), ConvertError>((coeffs@, reader@)),
        decreases 64 - k,
    {
        let rs = decode_huff(ac_table, reader)?;
        let run = rs / 16;
        let size = rs % 16;
        if size == 0 {
            if run == 15 {
                k = k + 16;
                if k >= 64 {
                    proof {
                        assert(ac_spec(d, reader@, *ac_table, k as int, coeffs@) == Ok::<(Seq<i32>, ReaderView), ConvertError>((coeffs@, reader@)));
                    }
                    break;
                }
                continue;
            }
            break;
        }
        k = k + run as usize;
        if k >= 64 {
            return Err(ConvertError::MalformedInput { format: Format::Jpeg });
        }
        let bits = reader.get_bits(size);
        proof {
            lemma_extend_range(bits as int, size as int);
        }
        coeffs[k] = extend(bits, size);
        k = k + 1;
        if k >= 64 {
            proof {
                assert(ac_spec(d, reader@, *ac_table, k as int, coeffs@) == Ok::<(Seq<i32>, ReaderView), ConvertError>((coeffs@, reader@)));
            }
            break;
        }
    }
    Ok(coeffs)
}


// ─── Decoding: the scan ─────────────────────────────────────────────────────

/// Where a scan decode stands: the reader, the DC prediction of each frame component, and the
/// blocks decoded so far (coefficients in zigzag order).
pub type ScanState = (ReaderView, Seq<i32>, Seq<Seq<i32>>);

/// The blocks of a vector of blocks, each as its coefficient sequence.
pub open spec fn blocks_view(v: Seq<[i32; 64]>) -> Seq<Seq<i32>> {
    Seq::new(v.len(), |i: int| v[i]@)
}

/// Decoding `n` blocks of frame component `ci` with tables `dc` and `ac`, one after another.
pub open spec fn comp_blocks_spec(d: Seq<u8>, st: ScanState, ci: int, dc: HuffTable, ac: HuffTable, n: nat) -> Result<ScanState, ConvertError>
    decreases n,
{
    if n == 0 {
        Ok(st)
    } else {
        match comp_blocks_spec(d, st, ci, dc, ac, (n - 1) as nat) {
            Err(e) => Err(e),
            Ok(st1) => match block_spec(d, st1.0, dc, ac, st1.1[ci]) {
                Err(e) => Err(e),
                Ok((c, p, v)) => Ok((v, st1.1.update(ci, p), st1.2.push(c))),
            },
        }
    }
}

/// Decoding the blocks of the first `j` scan components of an MCU: for each, its DC and AC
/// tables and its component's quantization table must be defined (else `MalformedInput`), then
/// `h * v` blocks of its component.
pub open spec fn mcu_spec(
    d: Seq<u8>,
    st: ScanState,
    comps: Seq<Component>,
    scs: Seq<ScanComponent>,
    qts: Seq<Option<Seq<u16>>>,
    dcs: Seq<Option<HuffTable>>,
    acs: Seq<Option<HuffTable>>,
    j: int,
) -> Result<ScanState, ConvertError>
    decreases j,
{
    if j <= 0 {
        Ok(st)
    } else {
        match mcu_spec(d, st, comps, scs, qts, dcs, acs, j - 1) {
            Err(e) => Err(e),
            Ok(st1) => {
                let sc = scs[j - 1];
                let comp = comps[sc.comp_index as int];
                if dcs[sc.dc_table as int] is None || acs[sc.ac_table as int] is None || qts[comp.qt as int] is None {
                    Err(malformed())
                } else {
                    comp_blocks_spec(
                        d,
                        st1,
                        sc.comp_index as int,
                        dcs[sc.dc_table as int]->0,
                        acs[sc.ac_table as int]->0,
                        (comp.h * comp.v) as nat,
                    )
                }
            },
        }
    }
}

/// After MCU `m` of `total`: when a restart interval ends there (and more MCUs follow), the
/// reader drops the rest of its byte, steps over a restart marker (`MalformedInput` if there is
/// none) and every DC prediction returns to zero.
pub open spec fn restart_spec(d: Seq<u8>, st: ScanState, m: int, total: int, interval: int) -> Result<ScanState, ConvertError> {
    if interval > 0 && (m + 1) % interval == 0 && m + 1 < total {
        if restart_at(d, st.0.0) {
            Ok(((st.0.0 + 2, false, Seq::<bool>::empty()), Seq::new(st.1.len(), |i: int| 0i32), st.2))
        } else {
            Err(malformed())
        }
    } else {
        Ok(st)
    }
}

/// Decoding the first `m` MCUs of a scan of `total`.
pub open spec fn scan_spec(
    d: Seq<u8>,
    st: ScanState,
    comps: Seq<Component>,
    scs: Seq<ScanComponent>,
    qts: Seq<Option<Seq<u16>>>,
    dcs: Seq<Option<HuffTable>>,
    acs: Seq<Option<HuffTable>>,
    interval: int,
    total: int,
    m: int,
) -> Result<ScanState, ConvertError>
    decreases m,
{
    if m <= 0 {
        Ok(st)
    } else {
        match scan_spec(d, st, comps, scs, qts, dcs, acs, interval, total, m - 1) {
            Err(e) => Err(e),
            Ok(st1) => match mcu_spec(d, st1, comps, scs, qts, dcs, acs, scs.len() as int) {
                Err(e) => Err(e),
                Ok(st2) => restart_spec(d, st2, m - 1, total, interval),
            },
        }
    }
}

/// At every restart marker the DC predictions start over: once a scan with restart interval
/// `interval` has decoded MCU `m` where an interval ends (and more MCUs follow), every
/// component's DC prediction is 0, so the next block's DC is its decoded difference alone; the
/// blocks decoded so far are kept, and the reader stands past the marker on a fresh byte.
pub proof fn lemma_restart_resets_dc_predictions(
    d: Seq<u8>,
    st: ScanState,
    comps: Seq<Component>,
    scs: Seq<ScanComponent>,
    qts: Seq<Option<Seq<u16>>>,
    dcs: Seq<Option<HuffTable>>,
    acs: Seq<Option<HuffTable>>,
    interval: int,
    total: int,
    m: int,
)
    requires
        0 <= m,
        interval > 0,
        (m + 1) % interval == 0,
        m + 1 < total,
    ensures
        scan_spec(d, st, comps, scs, qts, dcs, acs, interval, total, m + 1) matches Ok(after) ==> {
            &&& forall|i: int| 0 <= i < after.1.len() ==> after.1[i] == 0
            &&& after.0.1 == false
            &&& after.0.2.len() == 0
            &&& scan_spec(d, st, comps, scs, qts, dcs, acs, interval, total, m) matches Ok(before)
            &&& mcu_spec(d, before, comps, scs, qts, dcs, acs, scs.len() as int) matches Ok(decoded)
            &&& after.1.len() == decoded.1.len()
            &&& after.2 == decoded.2
            &&& restart_at(d, decoded.0.0)
            &&& after.0.0 == decoded.0.0 + 2
        },
{
}

/// The largest horizontal (`vertical` false) or vertical sampling factor of the first `n`
/// components, at least 1.
pub open spec fn max_factor(comps: Seq<Component>, n: int, vertical: bool) -> int
    decreases n,
{
    if n <= 0 {
        1
    } else {
        let f = if vertical { comps[n - 1].v as int } else { comps[n - 1].h as int };
        let rest = max_factor(comps, n - 1, vertical);
        if f > rest { f } else { rest }
    }
}

/// The number of MCUs of a frame: its width and height in MCUs of `8 * max factor` pixels,
/// rounded up, multiplied.
pub open spec fn mcu_count(width: int, height: int, comps: Seq<Component>) -> int {
    let mw = 8 * max_factor(comps, comps.len() as int, false);
    let mh = 8 * max_factor(comps, comps.len() as int, true);
    ((width + mw - 1) / mw) * ((height + mh - 1) / mh)
}

/// The frame components are well formed and each scan component names one of them.
pub open spec fn scan_comps_ok(comps: Seq<Component>, scs: Seq<ScanComponent>) -> bool {
    &&& forall|c: int| 0 <= c < comps.len() ==> comp_ok(#[trigger] comps[c])
    &&& forall|j: int| 0 <= j < scs.len() ==> (#[trigger] scs[j]).comp_index < comps.len()
}

/// Every scan component names Huffman table slots that exist (`0..4`).
pub open spec fn scan_tables_ok(scs: Seq<ScanComponent>) -> bool {
    forall|j: int| 0 <= j < scs.len() ==> (#[trigger] scs[j]).dc_table < 4 && scs[j].ac_table < 4
}

/// The scan components name frame components and table slots that exist.
pub open spec fn scan_ok(comps: Seq<Component>, scs: Seq<ScanComponent>) -> bool {
    &&& forall|c: int| 0 <= c < comps.len() ==> comp_ok(#[trigger] comps[c])
    &&& forall|j: int|
        0 <= j < scs.len() ==> (#[trigger] scs[j]).comp_index < comps.len() && scs[j].dc_table < 4 && scs[j].ac_table < 4
}

/// The state of a scan decode in exec terms.
pub open spec fn state_of(reader: BitReader, preds: Seq<i32>, out: Seq<[i32; 64]>) -> ScanState {
    (reader@, preds, blocks_view(out))
}

proof fn lemma_push_block(out: Seq<[i32; 64]>, b: [i32; 64])
    ensures
        blocks_view(out.push(b)) == blocks_view(out).push(b@),
{
    assert(blocks_view(out.push(b)) =~= blocks_view(out).push(b@));
}

/// Decodes `n` blocks of frame component `ci` (see [`comp_blocks_spec`]).
fn decode_comp_blocks(
    reader: &mut BitReader,
    dc: &HuffTable,
    ac: &HuffTable,
    preds: &mut Vec<i32>,
    out: &mut Vec<[i32; 64]>,
    ci: usize,
    n: u8,
) -> (r: Result<(), ConvertError>)
    requires
        old(reader).wf(),
        ci < old(preds)@.len(),
    ensures
        final(reader).wf(),
        final(reader).data() == old(reader).data(),
        final(preds)@.len() == old(preds)@.len(),
        match comp_blocks_spec(old(reader).data(), state_of(*old(reader), old(preds)@, old(out)@), ci as int, *dc, *ac, n as nat) {
            Ok(st) => r is Ok && state_of(*final(reader), final(preds)@, final(out)@) == st,
            Err(e) => r == Err::<(), ConvertError>(e),
        },
{
    let ghost d = reader.data();
    let ghost st0 = state_of(*reader, preds@, out@);
    let mut i: u8 = 0;
    while i < n
        invariant
            i <= n,
            reader.wf(),
            reader.data() == d,
            d == old(reader).data(),
            st0 == state_of(*old(reader), old(preds)@, old(out)@),
            preds@.len() == old(preds)@.len(),
            ci < preds@.len(),
            comp_blocks_spec(d, st0, ci as int, *dc, *ac, i as nat) == Ok::<ScanState, ConvertError>(state_of(*reader, preds@, out@)),
        decreases n - i,
    {
        let ghost before = state_of(*reader, preds@, out@);
        let mut p = preds[ci];
        let block = match decode_block(reader, dc, ac, &mut p) {
            Ok(b) => b,
            Err(e) => {
                proof {
                    lemma_comp_blocks_err(d, st0, ci as int, *dc, *ac, (i + 1) as nat, n as nat, e);
                }
                return Err(e);
            },
        };
        preds.set(ci, p);
        proof {
            lemma_push_block(out@, block);
        }
        out.push(block);
        proof {
            assert(state_of(*reader, preds@, out@) == (reader@, before.1.update(ci as int, p), before.2.push(block@)));
        }
        i = i + 1;
    }
    Ok(())
}

proof fn lemma_comp_blocks_err(d: Seq<u8>, st: ScanState, ci: int, dc: HuffTable, ac: HuffTable, k: nat, n: nat, e: ConvertError)
    requires
        k <= n,
        comp_blocks_spec(d, st, ci, dc, ac, k) == Err::<ScanState, ConvertError>(e),
    ensures
        comp_blocks_spec(d, st, ci, dc, ac, n) == Err::<ScanState, ConvertError>(e),
    decreases n - k,
{
    if k < n {
        lemma_comp_blocks_err(d, st, ci, dc, ac, k + 1, n, e);
    }
}

proof fn lemma_mcu_err(
    d: Seq<u8>,
    st: ScanState,
    comps: Seq<Component>,
    scs: Seq<ScanComponent>,
    qts: Seq<Option<Seq<u16>>>,
    dcs: Seq<Option<HuffTable>>,
    acs: Seq<Option<HuffTable>>,
    k: int,
    n: int,
    e: ConvertError,
)
    requires
        0 <= k <= n,
        mcu_spec(d, st, comps, scs, qts, dcs, acs, k) == Err::<ScanState, ConvertError>(e),
    ensures
        mcu_spec(d, st, comps, scs, qts, dcs, acs, n) == Err::<ScanState, ConvertError>(e),
    decreases n - k,
{
    if k < n {
        lemma_mcu_err(d, st, comps, scs, qts, dcs, acs, k + 1, n, e);
    }
}

/// Decodes the blocks of one MCU (see [`mcu_spec`]).
fn decode_mcu(
    reader: &mut BitReader,
    comps: &Vec<Component>,
    scs: &[ScanComponent],
    qts: &QuantTables,
    dcs: &[Option<HuffTable>; 4],
    acs: &[Option<HuffTable>; 4],
    preds: &mut Vec<i32>,
    out: &mut Vec<[i32; 64]>,
) -> (r: Result<(), ConvertError>)
    requires
        old(reader).wf(),
        scan_ok(comps@, scs@),
        old(preds)@.len() == comps@.len(),
    ensures
        final(reader).wf(),
        final(reader).data() == old(reader).data(),
        final(preds)@.len() == old(preds)@.len(),
        match mcu_spec(old(reader).data(), state_of(*old(reader), old(preds)@, old(out)@), comps@, scs@, qt_view(*qts), dcs@, acs@, scs@.len() as int) {
            Ok(st) => r is Ok && state_of(*final(reader), final(preds)@, final(out)@) == st,
            Err(e) => r == Err::<(), ConvertError>(e),
        },
{
    let ghost d = reader.data();
    let ghost st0 = state_of(*reader, preds@, out@);
    let ghost q = qt_view(*qts);
    let n = scs.len();
    let mut j: usize = 0;
    while j < n
        invariant
            j <= n == scs@.len(),
            reader.wf(),
            reader.data() == d,
            d == old(reader).data(),
            q == qt_view(*qts),
            scan_ok(comps@, scs@),
            st0 == state_of(*old(reader), old(preds)@, old(out)@),
            preds@.len() == comps@.len(),
            preds@.len() == old(preds)@.len(),
            mcu_spec(d, st0, comps@, scs@, q, dcs@, acs@, j as int) == Ok::<ScanState, ConvertError>(state_of(*reader, preds@, out@)),
        decreases n - j,
    {
        let sc = &scs[j];
        let comp = &comps[sc.comp_index];
        let ghost st1 = state_of(*reader, preds@, out@);
        let dc = match &dcs[sc.dc_table as usize] {
            Some(t) => t,
            None => {
                proof {
                    lemma_mcu_err(d, st0, comps@, scs@, q, dcs@, acs@, j + 1, n as int, malformed());
                }
                return Err(ConvertError::MalformedInput { format: Format::Jpeg });
            },
        };
        let ac = match &acs[sc.ac_table as usize] {
            Some(t) => t,
            None => {
                proof {
                    lemma_mcu_err(d, st0, comps@, scs@, q, dcs@, acs@, j + 1, n as int, malformed());
                }
                return Err(ConvertError::MalformedInput { format: Format::Jpeg });
            },
        };
        if qts[comp.qt as usize].is_none() {
            proof {
                assert(q[comp.qt as int] is None);
                lemma_mcu_err(d, st0, comps@, scs@, q, dcs@, acs@, j + 1, n as int, malformed());
            }
            return Err(ConvertError::MalformedInput { format: Format::Jpeg });
        }
        proof {
            assert(q[comp.qt as int] is Some);
        }
        proof {
            assert(comp_ok(comps@[sc.comp_index as int]));
            assert(comp.h * comp.v <= 16) by (nonlinear_arith)
                requires comp.h <= 4, comp.v <= 4;
        }
        match decode_comp_blocks(reader, dc, ac, preds, out, sc.comp_index, comp.h * comp.v) {
            Ok(()) => {},
            Err(e) => {
                proof {
                    lemma_mcu_err(d, st0, comps@, scs@, q, dcs@, acs@, j + 1, n as int, e);
                }
                return Err(e);
            },
        }
        j = j + 1;
    }
    Ok(())
}

proof fn lemma_scan_spec_err(
    d: Seq<u8>,
    st: ScanState,
    comps: Seq<Component>,
    scs: Seq<ScanComponent>,
    qts: Seq<Option<Seq<u16>>>,
    dcs: Seq<Option<HuffTable>>,
    acs: Seq<Option<HuffTable>>,
    interval: int,
    total: int,
    k: int,
    n: int,
    e: ConvertError,
)
    requires
        0 <= k <= n,
        scan_spec(d, st, comps, scs, qts, dcs, acs, interval, total, k) == Err::<ScanState, ConvertError>(e),
    ensures
        scan_spec(d, st, comps, scs, qts, dcs, acs, interval, total, n) == Err::<ScanState, ConvertError>(e),
    decreases n - k,
{
    if k < n {
        lemma_scan_spec_err(d, st, comps, scs, qts, dcs, acs, interval, total, k + 1, n, e);
    }
}

/// The largest sampling factor of `comps` in one direction (see [`max_factor`]).
fn max_sampling(comps: &Vec<Component>, vertical: bool) -> (r: u8)
    requires
        forall|c: int| 0 <= c < comps@.len() ==> comp_ok(#[trigger] comps@[c]),
    ensures
        r == max_factor(comps@, comps@.len() as int, vertical),
        1 <= r <= 4,
{
    let mut m: u8 = 1;
    let mut i: usize = 0;
    while i < comps.len()
        invariant
            i <= comps@.len(),
            forall|c: int| 0 <= c < comps@.len() ==> comp_ok(#[trigger] comps@[c]),
            m == max_factor(comps@, i as int, vertical),
            1 <= m <= 4,
        decreases comps@.len() - i,
    {
        let f = if vertical { comps[i].v } else { comps[i].h };
        if f > m {
            m = f;
        }
        i = i + 1;
    }
    m
}

/// Decodes one MCU, then steps over a restart marker if an interval ends there (see
/// [`mcu_spec`], [`restart_spec`]).
fn decode_mcu_step(
    reader: &mut BitReader,
    comps: &Vec<Component>,
    scs: &[ScanComponent],
    qts: &QuantTables,
    dcs: &[Option<HuffTable>; 4],
    acs: &[Option<HuffTable>; 4],
    preds: &mut Vec<i32>,
    out: &mut Vec<[i32; 64]>,
    m: u64,
    total: u64,
    interval: u64,
) -> (r: Result<(), ConvertError>)
    requires
        old(reader).wf(),
        scan_ok(comps@, scs@),
        old(preds)@.len() == comps@.len(),
        m < total,
    ensures
        final(reader).wf(),
        final(reader).data() == old(reader).data(),
        final(preds)@.len() == old(preds)@.len(),
        match mcu_spec(old(reader).data(), state_of(*old(reader), old(preds)@, old(out)@), comps@, scs@, qt_view(*qts), dcs@, acs@, scs@.len() as int) {
            Err(e) => r == Err::<(), ConvertError>(e),
            Ok(st2) => match restart_spec(old(reader).data(), st2, m as int, total as int, interval as int) {
                Ok(st) => r is Ok && state_of(*final(reader), final(preds)@, final(out)@) == st,
                Err(e) => r == Err::<(), ConvertError>(e),
            },
        },
{
    decode_mcu(reader, comps, scs, qts, dcs, acs, preds, out)?;
    let ghost st2 = state_of(*reader, preds@, out@);
    if interval > 0 && (m + 1) % interval == 0 && m + 1 < total {
        reader.byte_align();
        reader.expect_restart_marker()?;
        let mut k: usize = 0;
        while k < preds.len()
            invariant
                k <= preds@.len(),
                preds@.len() == st2.1.len(),
                forall|i: int| 0 <= i < k ==> #[trigger] preds@[i] == 0i32,
            decreases preds@.len() - k,
        {
            preds.set(k, 0);
            k = k + 1;
        }
        proof {
            assert(preds@ =~= Seq::new(st2.1.len(), |i: int| 0i32));
        }
    }
    Ok(())
}

/// Decodes the blocks of a scan starting at byte `scan_start`, MCU by MCU, in the order they
/// are coded (see [`scan_spec`]); checks for cancellation before each MCU.
pub fn decode_scan_blocks(
    input: &[u8],
    scan_start: usize,
    sof: &SofInfo,
    scs: &[ScanComponent],
    qts: &QuantTables,
    dcs: &[Option<HuffTable>; 4],
    acs: &[Option<HuffTable>; 4],
    restart_interval: u16,
    options: &ConvertOptions,
) -> (r: Result<Vec<[i32; 64]>, ConvertError>)
    requires
        scan_start <= input@.len(),
        scan_comps_ok(sof.components@, scs@),
        dims_ok(sof.width as int, sof.height as int),
    ensures
        !scan_tables_ok(scs@) ==> r == Err::<Vec<[i32; 64]>, ConvertError>(malformed()),
        scan_tables_ok(scs@) ==> (options.may_cancel() && r == Err::<Vec<[i32; 64]>, ConvertError>(ConvertError::Cancelled)) || match scan_spec(
            input@,
            ((scan_start as int, false, Seq::<bool>::empty()), Seq::new(sof.components@.len(), |i: int| 0i32), Seq::<Seq<i32>>::empty()),
            sof.components@,
            scs@,
            qt_view(*qts),
            dcs@,
            acs@,
            restart_interval as int,
            mcu_count(sof.width as int, sof.height as int, sof.components@),
            mcu_count(sof.width as int, sof.height as int, sof.components@),
        ) {
            Ok(st) => r matches Ok(v) && blocks_view(v@) == st.2,
            Err(e) => r == Err::<Vec<[i32; 64]>, ConvertError>(e),
        },
{
    let mut j: usize = 0;
    while j < scs.len()
        invariant
            j <= scs@.len(),
            forall|k: int| 0 <= k < j ==> (#[trigger] scs@[k]).dc_table < 4 && scs@[k].ac_table < 4,
        decreases scs@.len() - j,
    {
        if scs[j].dc_table >= 4 || scs[j].ac_table >= 4 {
            return Err(ConvertError::MalformedInput { format: Format::Jpeg });
        }
        j = j + 1;
    }
    let comps = &sof.components;
    let h_max = max_sampling(comps, false) as usize;
    let v_max = max_sampling(comps, true) as usize;
    let mw = 8 * h_max;
    let mh = 8 * v_max;
    proof {
        assert(sof.width <= 16777216) by (nonlinear_arith)
            requires sof.width * sof.height <= 16777216, sof.height >= 1;
        assert(sof.height <= 16777216) by (nonlinear_arith)
            requires sof.width * sof.height <= 16777216, sof.width >= 1;
    }
    let per_row = ((sof.width + mw - 1) / mw) as u64;
    let per_col = ((sof.height + mh - 1) / mh) as u64;
    proof {
        let a = (sof.width + mw - 1) as int;
        let b = (sof.height + mh - 1) as int;
        assert(a / (mw as int) <= a) by (nonlinear_arith)
            requires mw >= 1, a >= 0;
        assert(b / (mh as int) <= b) by (nonlinear_arith)
            requires mh >= 1, b >= 0;
        assert(per_row <= 16777216 + 32);
        assert(per_col <= 16777216 + 32);
        assert(per_row * per_col <= 16777248 * 16777248) by (nonlinear_arith)
            requires per_row <= 16777248, per_col <= 16777248;
    }
    let total = per_row * per_col;
    let ghost t = total as int;
    proof {
        assert(t == mcu_count(sof.width as int, sof.height as int, comps@));
    }
    let mut reader = BitReader::new(input, scan_start);
    let mut preds: Vec<i32> = Vec::new();
    let mut c: usize = 0;
    while c < comps.len()
        invariant
            c <= comps@.len(),
            preds@ == Seq::new(c as nat, |i: int| 0i32),
        decreases comps@.len() - c,
    {
        preds.push(0);
        proof {
            assert(preds@ =~= Seq::new((c + 1) as nat, |i: int| 0i32));
        }
        c = c + 1;
    }
    let mut out: Vec<[i32; 64]> = Vec::new();
    let ghost d = input@;
    let ghost q = qt_view(*qts);
    let ghost st0 = state_of(reader, preds@, out@);
    proof {
        assert(out@.len() == 0);
        assert(blocks_view(out@) =~= Seq::<Seq<i32>>::empty());
        assert(st0 == ((scan_start as int, false, Seq::<bool>::empty()), Seq::new(comps@.len(), |i: int| 0i32), Seq::<Seq<i32>>::empty()));
    }
    let interval = restart_interval as u64;
    let mut m: u64 = 0;
    while m < total
        invariant
            m <= total,
            t == total,
            t == mcu_count(sof.width as int, sof.height as int, sof.components@),
            comps@ == sof.components@,
            st0 == ((scan_start as int, false, Seq::<bool>::empty()), Seq::new(sof.components@.len(), |i: int| 0i32), Seq::<Seq<i32>>::empty()),
            reader.wf(),
            reader.data() == d,
            d == input@,
            q == qt_view(*qts),
            scan_ok(comps@, scs@),
            preds@.len() == comps@.len(),
            interval == restart_interval,
            scan_spec(d, st0, comps@, scs@, q, dcs@, acs@, interval as int, t, m as int) == Ok::<ScanState, ConvertError>(
                state_of(reader, preds@, out@),
            ),
        decreases total - m,
    {
        if options.is_cancelled() {
            return Err(ConvertError::Cancelled);
        }
        match decode_mcu_step(&mut reader, comps, scs, qts, dcs, acs, &mut preds, &mut out, m, total, interval) {
            Ok(()) => {},
            Err(e) => {
                proof {
                    assert(scan_spec(d, st0, comps@, scs@, q, dcs@, acs@, interval as int, t, m + 1) == Err::<ScanState, ConvertError>(e));
                    lemma_scan_spec_err(d, st0, comps@, scs@, q, dcs@, acs@, interval as int, t, m + 1, t, e);
                }
                return Err(e);
            },
        }
        m = m + 1;
    }
    options.report_progress(1, 1);
    Ok(out)
}


// ─── Decoding: the segments before the scan ─────────────────────────────────

/// Where a table slot's contents came from: the `(counts, symbols)` of its last definition.
pub type TableSources = Seq<Option<(Seq<u8>, Seq<u8>)>>;

/// What the segments read so far have set: quantization tables, DC and AC table sources, the
/// frame (width, height, components) and the restart interval.
pub type HeaderState = (Seq<Option<Seq<u16>>>, TableSources, TableSources, Option<(int, int, Seq<Component>)>, int);

/// `sources` with the slots `writes` defines replaced.
pub open spec fn apply_writes(sources: TableSources, writes: TableSources) -> TableSources {
    Seq::new(4, |id: int| if writes[id] is Some { writes[id] } else { sources[id] })
}

/// Each slot holds the table of its source, or nothing when it has none.
pub open spec fn slots_match(slots: Seq<Option<HuffTable>>, sources: TableSources) -> bool {
    forall|id: int| 0 <= id < 4 ==> match #[trigger] sources[id] {
        Some((c, v)) => slots[id] matches Some(t) && table_of(t, c, v),
        None => slots[id] is None,
    }
}

/// The first byte from `p` on that is not a `0xFF` fill byte (the end if there is none).
pub open spec fn fill_end(d: Seq<u8>, p: int) -> int
    decreases d.len() - p,
{
    if p < 0 || p >= d.len() || d[p] != 0xff {
        p
    } else {
        fill_end(d, p + 1)
    }
}

/// Marker codes of frames this decoder does not support: progressive, lossless, differential
/// and arithmetic-coded.
pub open spec fn unsupported_sof(m: u8) -> bool {
    m == 0xc2 || m == 0xc3 || m == 0xc5 || m == 0xc6 || m == 0xc7 || m == 0xc9 || m == 0xca || m == 0xcb
        || m == 0xcd || m == 0xce || m == 0xcf
}

/// Reading segments from byte `p` until the scan header: each segment starts with `0xFF`
/// (`MalformedInput` otherwise), then any further `0xFF` fill bytes, then the marker code. An
/// end of image before a scan is `MalformedInput`; `SOF0`/`SOF1` set the frame; other frame types
/// and arithmetic coding are unsupported; `DHT`, `DQT` and `DRI` set tables and the restart
/// interval; `SOS` (only after a frame, else `MalformedInput`) ends the headers; any other
/// segment is skipped. The scan data's start, the state, and the scan components.
pub open spec fn headers_spec(d: Seq<u8>, p: int, st: HeaderState) -> Result<(int, HeaderState, Seq<ScanComponent>), ConvertError>
    decreases d.len() - p,
{
    if p < 0 || p >= d.len() || d[p] != 0xff {
        Err(malformed())
    } else {
        let q = fill_end(d, p + 1);
        if q >= d.len() {
            Err(malformed())
        } else {
            let marker = d[q];
            let r = q + 1;
            proof {
                lemma_fill_end(d, p + 1);
            }
            if marker == EOI {
                Err(malformed())
            } else if marker == SOF0 || marker == 0xc1 {
                match sof_spec(d, r) {
                    Err(e) => Err(e),
                    Ok((e, w, h, comps)) => headers_spec(d, e, (st.0, st.1, st.2, Some((w, h, comps)), st.4)),
                }
            } else if unsupported_sof(marker) {
                Err(ConvertError::UnsupportedFeature { format: Format::Jpeg, feature: "jpeg-non-baseline" })
            } else if marker == 0xcc {
                Err(ConvertError::UnsupportedFeature { format: Format::Jpeg, feature: "jpeg-arithmetic-coding" })
            } else if marker == DHT {
                match dht_spec(d, r) {
                    Err(e) => Err(e),
                    Ok((e, dcw, acw)) => headers_spec(d, e, (st.0, apply_writes(st.1, dcw), apply_writes(st.2, acw), st.3, st.4)),
                }
            } else if marker == DQT {
                match dqt_spec(d, r, st.0) {
                    Err(e) => Err(e),
                    Ok((e, t)) => headers_spec(d, e, (t, st.1, st.2, st.3, st.4)),
                }
            } else if marker == 0xdd {
                match dri_spec(d, r) {
                    Err(e) => Err(e),
                    Ok((e, v)) => headers_spec(d, e, (st.0, st.1, st.2, st.3, v as int)),
                }
            } else if marker == SOS {
                match st.3 {
                    None => Err(malformed()),
                    Some((w, h, comps)) => match sos_spec(d, r, comps) {
                        Err(e) => Err(e),
                        Ok((e, scs)) => Ok((e, st, scs)),
                    },
                }
            } else {
                match segment_end(d, r, 2) {
                    None => Err(malformed()),
                    Some(e) => headers_spec(d, e, st),
                }
            }
        }
    }
}

pub proof fn lemma_fill_end(d: Seq<u8>, p: int)
    requires
        0 <= p,
    ensures
        p <= fill_end(d, p),
        fill_end(d, p) < d.len() ==> d[fill_end(d, p)] != 0xff,
    decreases d.len() - p,
{
    if 0 <= p < d.len() && d[p] == 0xff {
        lemma_fill_end(d, p + 1);
    }
}

/// What a baseline JPEG says before its scan data.
pub struct Headers {
    pub scan_start: usize,
    pub sof: SofInfo,
    pub scan: Vec<ScanComponent>,
    pub quant: QuantTables,
    pub dc: [Option<HuffTable>; 4],
    pub ac: [Option<HuffTable>; 4],
    pub restart_interval: u16,
}

/// The state before any segment: no tables, no frame, no restart interval.
pub open spec fn empty_headers() -> HeaderState {
    (seq![None, None, None, None], no_writes(), no_writes(), None, 0)
}

/// What [`read_headers`] reads: the start of image, then the segments from byte 2 (see
/// [`headers_spec`]).
pub open spec fn read_headers_spec(d: Seq<u8>) -> Result<(int, HeaderState, Seq<ScanComponent>), ConvertError> {
    if d.len() < 4 || d[0] != 0xff || d[1] != SOI {
        Err(malformed())
    } else {
        headers_spec(d, 2, empty_headers())
    }
}

/// `h` holds what the segments said: scan start, tables, frame, scan components, restart interval.
pub open spec fn headers_match(h: Headers, e: int, st: HeaderState, scs: Seq<ScanComponent>) -> bool {
    &&& h.scan_start == e
    &&& qt_view(h.quant) == st.0
    &&& slots_match(h.dc@, st.1)
    &&& slots_match(h.ac@, st.2)
    &&& st.3 == Some((h.sof.width as int, h.sof.height as int, h.sof.components@))
    &&& h.scan@ == scs
    &&& h.restart_interval == st.4
}

proof fn lemma_apply_writes(before: Seq<Option<HuffTable>>, after: Seq<Option<HuffTable>>, sources: TableSources, writes: TableSources)
    requires
        slots_match(before, sources),
        slots_after(before, after, writes),
    ensures
        slots_match(after, apply_writes(sources, writes)),
{
    assert forall|id: int| 0 <= id < 4 implies match #[trigger] apply_writes(sources, writes)[id] {
        Some((c, v)) => after[id] matches Some(t) && table_of(t, c, v),
        None => after[id] is None,
    } by {
        if writes[id] is Some {
            assert(apply_writes(sources, writes)[id] == writes[id]);
        } else {
            assert(apply_writes(sources, writes)[id] == sources[id]);
        }
    }
}

/// The frame a header state records, if any.
pub open spec fn sof_view(o: Option<SofInfo>) -> Option<(int, int, Seq<Component>)> {
    match o {
        Some(f) => Some((f.width as int, f.height as int, f.components@)),
        None => None,
    }
}

/// Reads the segments of a baseline JPEG up to its scan data (see [`read_headers_spec`]).
pub fn read_headers(input: &[u8]) -> (r: Result<Headers, ConvertError>)
    ensures
        match read_headers_spec(input@) {
            Ok((e, st, scs)) => r matches Ok(h) && headers_match(h, e, st, scs),
            Err(x) => r == Err::<Headers, ConvertError>(x),
        },
{
    if input.len() < 4 || input[0] != 0xff || input[1] != SOI {
        return Err(ConvertError::MalformedInput { format: Format::Jpeg });
    }
    let ghost d = input@;
    let mut pos: usize = 2;
    let mut quant: QuantTables = [None; 4];
    let mut dc: [Option<HuffTable>; 4] = [None, None, None, None];
    let mut ac: [Option<HuffTable>; 4] = [None, None, None, None];
    let mut sof: Option<SofInfo> = None;
    let mut restart: u16 = 0;
    let ghost mut dsrc = no_writes();
    let ghost mut asrc = no_writes();
    proof {
        assert(qt_view(quant) =~= seq![None, None, None, None]);
    }
    loop
        invariant
            d == input@,
            2 <= pos <= input@.len(),
            dsrc.len() == 4,
            asrc.len() == 4,
            slots_match(dc@, dsrc),
            slots_match(ac@, asrc),
            read_headers_spec(d) == headers_spec(d, pos as int, (qt_view(quant), dsrc, asrc, sof_view(sof), restart as int)),
        decreases input@.len() - pos,
    {
        let ghost p0 = pos;
        let ghost st = (qt_view(quant), dsrc, asrc, sof_view(sof), restart as int);
        if pos >= input.len() || input[pos] != 0xff {
            return Err(ConvertError::MalformedInput { format: Format::Jpeg });
        }
        pos = pos + 1;
        while pos < input.len() && input[pos] == 0xff
            invariant
                d == input@,
                p0 < pos <= input@.len(),
                fill_end(d, p0 + 1) == fill_end(d, pos as int),
            decreases input@.len() - pos,
        {
            pos = pos + 1;
        }
        if pos >= input.len() {
            return Err(ConvertError::MalformedInput { format: Format::Jpeg });
        }
        let marker = input[pos];
        pos = pos + 1;
        if marker == EOI {
            return Err(ConvertError::MalformedInput { format: Format::Jpeg });
        }
        if marker == SOF0 || marker == 0xc1 {
            let f = match parse_sof(input, &mut pos) {
                Ok(f) => f,
                Err(e) => {
                    return Err(e);
                },
            };
            sof = Some(f);
            continue;
        }
        if marker == 0xc2 || marker == 0xc3 || marker == 0xc5 || marker == 0xc6 || marker == 0xc7 || marker == 0xc9
            || marker == 0xca || marker == 0xcb || marker == 0xcd || marker == 0xce || marker == 0xcf {
            return Err(ConvertError::UnsupportedFeature { format: Format::Jpeg, feature: "jpeg-non-baseline" });
        }
        if marker == 0xcc {
            return Err(ConvertError::UnsupportedFeature { format: Format::Jpeg, feature: "jpeg-arithmetic-coding" });
        }
        if marker == DHT {
            let ghost dc0 = dc@;
            let ghost ac0 = ac@;
            let ghost r0 = pos;
            match parse_dht(input, &mut pos, &mut dc, &mut ac) {
                Ok(()) => {},
                Err(e) => {
                    return Err(e);
                },
            }
            proof {
                let (e, dcw, acw) = dht_spec(d, r0 as int)->Ok_0;
                lemma_apply_writes(dc0, dc@, dsrc, dcw);
                lemma_apply_writes(ac0, ac@, asrc, acw);
                dsrc = apply_writes(dsrc, dcw);
                asrc = apply_writes(asrc, acw);
            }
            continue;
        }
        if marker == DQT {
            match parse_dqt(input, &mut pos, &mut quant) {
                Ok(()) => {},
                Err(e) => {
                    return Err(e);
                },
            }
            continue;
        }
        if marker == 0xdd {
            restart = match parse_dri(input, &mut pos) {
                Ok(v) => v,
                Err(e) => {
                    return Err(e);
                },
            };
            continue;
        }
        if marker == SOS {
            match sof {
                None => {
                    return Err(ConvertError::MalformedInput { format: Format::Jpeg });
                },
                Some(f) => {
                    let scan = match parse_sos_header(input, &mut pos, &f) {
                        Ok(v) => v,
                        Err(e) => {
                            return Err(e);
                        },
                    };
                    return Ok(Headers { scan_start: pos, sof: f, scan, quant, dc, ac, restart_interval: restart });
                },
            }
        }
        match skip_segment(input, &mut pos) {
            Ok(()) => {},
            Err(e) => {
                return Err(e);
            },
        }
    }
}


// ─── What the writer writes, the reader reads ───────────────────────────────

/// The eight bits of a byte's value, read back by [`byte_bits`].
proof fn lemma_byte_bits_of(c: Seq<bool>)
    requires
        c.len() == 8,
    ensures
        byte_bits(msb_val(c) as u8) == c,
{
    reveal_with_fuel(msb_val, 9);
    let c7 = c.drop_last();
    let c6 = c7.drop_last();
    let c5 = c6.drop_last();
    let c4 = c5.drop_last();
    let c3 = c4.drop_last();
    let c2 = c3.drop_last();
    let c1 = c2.drop_last();
    let c0 = c1.drop_last();
    assert(c0.len() == 0);
    let b0 = c[0];
    let b1 = c[1];
    let b2 = c[2];
    let b3 = c[3];
    let b4 = c[4];
    let b5 = c[5];
    let b6 = c[6];
    let b7 = c[7];
    assert(c1.last() == b0 && c2.last() == b1 && c3.last() == b2 && c4.last() == b3);
    assert(c5.last() == b4 && c6.last() == b5 && c7.last() == b6 && c.last() == b7);
    let v = msb_val(c);
    assert(v == (if b0 { 128int } else { 0 }) + (if b1 { 64int } else { 0 }) + (if b2 { 32int } else { 0 }) + (if b3 {
        16int
    } else {
        0
    }) + (if b4 { 8int } else { 0 }) + (if b5 { 4int } else { 0 }) + (if b6 { 2int } else { 0 }) + (if b7 { 1int } else { 0 }));
    let x: u32 = (v as u8) as u32;
    assert(x == (if b0 { 128u32 } else { 0u32 }) + (if b1 { 64u32 } else { 0u32 }) + (if b2 { 32u32 } else { 0u32 }) + (if b3 {
        16u32
    } else {
        0u32
    }) + (if b4 { 8u32 } else { 0u32 }) + (if b5 { 4u32 } else { 0u32 }) + (if b6 { 2u32 } else { 0u32 }) + (if b7 {
        1u32
    } else {
        0u32
    }));
    assert(((x >> 7u32) & 1 == 1) == b0 && ((x >> 6u32) & 1 == 1) == b1 && ((x >> 5u32) & 1 == 1) == b2 && ((x >> 4u32) & 1
        == 1) == b3 && ((x >> 3u32) & 1 == 1) == b4 && ((x >> 2u32) & 1 == 1) == b5 && ((x >> 1u32) & 1 == 1) == b6 && ((x
        >> 0u32) & 1 == 1) == b7) by (bit_vector)
        requires
            x == (if b0 { 128u32 } else { 0u32 }) + (if b1 { 64u32 } else { 0u32 }) + (if b2 { 32u32 } else { 0u32 }) + (if b3 {
                16u32
            } else {
                0u32
            }) + (if b4 { 8u32 } else { 0u32 }) + (if b5 { 4u32 } else { 0u32 }) + (if b6 { 2u32 } else { 0u32 }) + (if b7 {
                1u32
            } else {
                0u32
            }),
    ;
    assert(byte_bits(v as u8) =~= c);
}

proof fn lemma_pack_index(b: Seq<bool>, m: int, j: int)
    requires
        b.len() == 8 * m,
        0 <= j < m,
    ensures
        pack_msb(b).len() == m,
        pack_msb(b)[j] == msb_val(b.subrange(8 * j, 8 * j + 8)) as u8,
    decreases m,
{
    let rest = b.take(b.len() - 8);
    lemma_pack_len(b, m);
    if j < m - 1 {
        lemma_pack_index(rest, m - 1, j);
        assert(rest.subrange(8 * j, 8 * j + 8) =~= b.subrange(8 * j, 8 * j + 8));
    } else {
        lemma_pack_len(rest, m - 1);
        assert(b.skip(b.len() - 8) =~= b.subrange(8 * j, 8 * j + 8));
    }
}

proof fn lemma_pack_len(b: Seq<bool>, m: int)
    requires
        b.len() == 8 * m,
        0 <= m,
    ensures
        pack_msb(b).len() == m,
    decreases m,
{
    if m > 0 {
        lemma_pack_len(b.take(b.len() - 8), m - 1);
    }
}

/// The stuffed bytes of a prefix are a prefix of the stuffed bytes.
proof fn lemma_stuff_prefix(bytes: Seq<u8>, k: int)
    requires
        0 <= k <= bytes.len(),
    ensures
        stuff(bytes.take(k)).len() <= stuff(bytes).len(),
        stuff(bytes).take(stuff(bytes.take(k)).len() as int) == stuff(bytes.take(k)),
    decreases bytes.len(),
{
    if k == bytes.len() {
        assert(bytes.take(k) =~= bytes);
        assert(stuff(bytes).take(stuff(bytes).len() as int) =~= stuff(bytes));
    } else {
        let init = bytes.drop_last();
        lemma_stuff_prefix(init, k);
        assert(init.take(k) =~= bytes.take(k));
        let sp = stuff(bytes.take(k));
        assert(stuff(bytes).take(sp.len() as int) =~= stuff(init).take(sp.len() as int));
    }
}

/// Where the `j`-th byte starts in the stuffed bytes.
pub open spec fn stuffed_pos(bytes: Seq<u8>, j: int) -> int {
    stuff(bytes.take(j)).len() as int
}

/// Byte `j` of `bytes` is fetched from its place in the stuffed bytes, and the fetch ends where
/// byte `j + 1` starts.
proof fn lemma_fetch_stuffed(bytes: Seq<u8>, j: int)
    requires
        0 <= j < bytes.len(),
    ensures
        fetch(stuff(bytes), stuffed_pos(bytes, j), false) == (bytes[j], stuffed_pos(bytes, j + 1), false),
{
    let s = stuff(bytes);
    let a = bytes.take(j + 1);
    assert(a.drop_last() =~= bytes.take(j));
    assert(a.last() == bytes[j]);
    lemma_stuff_prefix(bytes, j + 1);
    let p = stuffed_pos(bytes, j);
    assert(stuff(a) == stuff(bytes.take(j)) + if bytes[j] == 0xff { seq![0xffu8, 0x00u8] } else { seq![bytes[j]] });
    assert(s[p] == stuff(a)[p]);
    if bytes[j] == 0xff {
        assert(s[p + 1] == stuff(a)[p + 1]);
    }
}

/// Where a fresh reader of `entropy_bytes`-style data stands after `n` bits of the padded
/// stream `bp`, packed into `bytes`.
pub open spec fn reader_after(bytes: Seq<u8>, n: int) -> ReaderView {
    if n % 8 == 0 {
        (stuffed_pos(bytes, n / 8), false, Seq::<bool>::empty())
    } else {
        (stuffed_pos(bytes, n / 8 + 1), false, byte_bits(bytes[n / 8]).skip(n % 8))
    }
}

proof fn lemma_read_stuffed(bp: Seq<bool>, m: int, n: int)
    requires
        bp.len() == 8 * m,
        0 <= n <= 8 * m,
    ensures
        read_bits_spec(stuff(pack_msb(bp)), (0, false, Seq::<bool>::empty()), n as nat) == (
            msb_val(bp.take(n)),
            reader_after(pack_msb(bp), n),
        ),
    decreases n,
{
    let bytes = pack_msb(bp);
    let d = stuff(bytes);
    lemma_pack_len(bp, m);
    if n == 0 {
        assert(bytes.take(0) =~= Seq::<u8>::empty());
        assert(bp.take(0) =~= Seq::<bool>::empty());
    } else {
        let k = n - 1;
        lemma_read_stuffed(bp, m, k);
        let j = k / 8;
        let r = k % 8;
        lemma_pack_index(bp, m, j);
        let chunk = bp.subrange(8 * j, 8 * j + 8);
        lemma_byte_bits_of(chunk);
        assert(byte_bits(bytes[j]) == chunk);
        assert(chunk[r] == bp[k]);
        let v = reader_after(bytes, k);
        if r == 0 {
            lemma_fetch_stuffed(bytes, j);
            assert(read_bit_spec(d, v) == (chunk[0], (stuffed_pos(bytes, j + 1), false, chunk.drop_first())));
            assert(chunk.drop_first() =~= chunk.skip(1));
        } else {
            assert(v.2 =~= chunk.skip(r));
            assert(v.2[0] == chunk[r]);
            assert(v.2.drop_first() =~= chunk.skip(r + 1));
            if r == 7 {
                assert(chunk.skip(8) =~= Seq::<bool>::empty());
            }
        }
        assert(bp.take(n).drop_last() =~= bp.take(k));
        assert(bp.take(n).last() == bp[k]);
    }
}

/// What [`BitWriter`] writes, [`BitReader`] reads back: a fresh reader of the bytes
/// [`BitWriter::finish`] gives for the bits `b` reads, as its first `n` bits, the first `n` bits
/// of `b`.
pub proof fn lemma_reader_reads_writer(b: Seq<bool>, n: nat)
    requires
        n <= b.len(),
    ensures
        read_bits_spec(entropy_bytes(b), (0, false, Seq::<bool>::empty()), n).0 == msb_val(b.take(n as int)),
{
    let pad = ((8 - b.len() % 8) % 8) as nat;
    let bp = b + ones(pad);
    let m: int = bp.len() as int / 8;
    assert(bp.len() == 8 * m);
    lemma_read_stuffed(bp, m, n as int);
    assert(bp.take(n as int) =~= b.take(n as int));
}


// ─── What a symbol's code decodes to ────────────────────────────────────────

/// The next `n` bits a reader reads.
pub open spec fn bits_ahead(d: Seq<u8>, v: ReaderView, n: nat) -> Seq<bool>
    decreases n,
{
    if n == 0 {
        seq![]
    } else {
        seq![read_bit_spec(d, v).0] + bits_ahead(d, read_bit_spec(d, v).1, (n - 1) as nat)
    }
}

/// Where a reader stands after reading `n` bits.
pub open spec fn view_after(d: Seq<u8>, v: ReaderView, n: nat) -> ReaderView
    decreases n,
{
    if n == 0 {
        v
    } else {
        view_after(d, read_bit_spec(d, v).1, (n - 1) as nat)
    }
}

proof fn lemma_bits_ahead_step(d: Seq<u8>, v: ReaderView, n: nat, i: nat)
    requires
        i < n,
    ensures
        bits_ahead(d, v, n).len() == n,
        bits_ahead(d, v, n)[i as int] == read_bit_spec(d, view_after(d, v, i)).0,
        view_after(d, v, i + 1) == read_bit_spec(d, view_after(d, v, i)).1,
    decreases i,
{
    lemma_bits_ahead_len(d, v, n);
    let v1 = read_bit_spec(d, v).1;
    assert(view_after(d, v, i + 1) == view_after(d, v1, i));
    if i > 0 {
        lemma_bits_ahead_step(d, v1, (n - 1) as nat, (i - 1) as nat);
        assert(view_after(d, v, i) == view_after(d, v1, (i - 1) as nat));
        assert(bits_ahead(d, v, n)[i as int] == bits_ahead(d, v1, (n - 1) as nat)[i - 1]);
    } else {
        assert(view_after(d, v1, 0) == v1);
    }
}

proof fn lemma_bits_ahead_len(d: Seq<u8>, v: ReaderView, n: nat)
    ensures
        bits_ahead(d, v, n).len() == n,
    decreases n,
{
    if n > 0 {
        lemma_bits_ahead_len(d, read_bit_spec(d, v).1, (n - 1) as nat);
    }
}

/// The first `len` bits of a code make its value divided by `2^(L - len)`.
proof fn lemma_prefix_step(c: int, l: nat, len: nat)
    requires
        0 <= c,
        1 <= len <= l,
    ensures
        c / pow2((l - len) as nat) as int == 2 * (c / pow2((l - len + 1) as nat) as int) + if code_bits(c, l)[len - 1] {
            1int
        } else {
            0int
        },
{
    let m = (l - len) as nat;
    let p = pow2(m) as int;
    lemma_pow2_mono(0, m);
    assert(pow2(0) == 1);
    assert(pow2(m + 1) == 2 * pow2(m));
    let x = c / p;
    assert(x >= 0) by (nonlinear_arith)
        requires c >= 0, p >= 1, x == c / p;
    vstd::arithmetic::div_mod::lemma_div_denominator(c, p, 2);
    assert(p * 2 == pow2(m + 1));
    vstd::arithmetic::div_mod::lemma_fundamental_div_mod(x, 2);
    assert(code_bits(c, l)[len - 1] == ((c / pow2((l - 1 - (len - 1)) as nat) as int) % 2 == 1));
    assert((l - 1 - (len - 1)) as nat == m);
}

/// Entry `j` of the code lengths is `len` when `j` falls among the codes of length `len`.
proof fn lemma_size_at(counts: Seq<u8>, len: int, j: int, i: int)
    requires
        counts.len() == 16,
        1 <= len <= i <= 16,
        count_sum(counts, len - 1) <= j < count_sum(counts, len),
    ensures
        sizes_upto(counts, i)[j] == len,
    decreases i,
{
    lemma_sizes_len(counts, i);
    lemma_sizes_len(counts, i - 1);
    lemma_count_sum_mono(counts, 0, len - 1);
    if i > len {
        lemma_count_sum_mono(counts, len, i - 1);
        lemma_size_at(counts, len, j, i - 1);
        assert(sizes_upto(counts, i)[j] == sizes_upto(counts, i - 1)[j]);
    } else {
        assert(sizes_upto(counts, i)[j] == Seq::new(counts[i - 1] as nat, |t: int| i as u8)[j - count_sum(counts, i - 1)]);
    }
}

/// The length `len` among whose codes index `k` falls.
proof fn lemma_find_len(counts: Seq<u8>, k: int, i: int) -> (len: int)
    requires
        counts.len() == 16,
        1 <= i <= 16,
        count_sum(counts, i - 1) <= k < count_sum(counts, 16),
    ensures
        i <= len <= 16,
        count_sum(counts, len - 1) <= k < count_sum(counts, len),
    decreases 16 - i,
{
    if k < count_sum(counts, i) {
        i
    } else {
        lemma_find_len(counts, k, i + 1)
    }
}

/// Codes of one length are consecutive.
proof fn lemma_canon_same(sizes: Seq<u8>, a: int, k: int)
    requires
        sizes_ok(sizes),
        0 <= a <= k < sizes.len(),
        sizes[a] == sizes[k],
    ensures
        canon_code(sizes, k) == canon_code(sizes, a) + (k - a),
    decreases k - a,
{
    if a < k {
        assert(sizes[a] <= sizes[k - 1] <= sizes[k]);
        lemma_canon_same(sizes, a, k - 1);
        assert(pow2(0) == 1);
        assert((sizes[k] - sizes[k - 1]) as nat == 0);
        let x = canon_code(sizes, k - 1) + 1;
        assert(canon_code(sizes, k) == x * (pow2(0) as int));
        assert(x * 1 == x);
    }
}

/// A later, longer code exceeds every extension of an earlier one.
proof fn lemma_canon_grow(sizes: Seq<u8>, i: int, k: int)
    requires
        sizes_ok(sizes),
        0 <= i < k < sizes.len(),
    ensures
        canon_code(sizes, k) >= (canon_code(sizes, i) + 1) * pow2((sizes[k] - sizes[i]) as nat),
    decreases k - i,
{
    let d1 = (sizes[k] - sizes[k - 1]) as nat;
    lemma_pow2_mono(0, d1);
    assert(pow2(0) == 1);
    lemma_canon_bound(sizes, k - 1);
    if i < k - 1 {
        lemma_canon_grow(sizes, i, k - 1);
        let d0 = (sizes[k - 1] - sizes[i]) as nat;
        lemma_pow2_add(d0, d1);
        let a = canon_code(sizes, i) + 1;
        let p0 = pow2(d0) as int;
        let p1 = pow2(d1) as int;
        let ck1 = canon_code(sizes, k - 1);
        assert((ck1 + 1) * p1 >= (a * p0) * p1) by (nonlinear_arith)
            requires ck1 >= a * p0, p1 >= 1;
        assert((a * p0) * p1 == a * (p0 * p1)) by (nonlinear_arith);
    }
}

/// Decoding with the table of `counts` and `values`, from a reader whose next bits are the code
/// of symbol index `k`, gives `values[k]` after exactly those bits.
proof fn lemma_huff_reads_index(d: Seq<u8>, v: ReaderView, counts: Seq<u8>, values: Seq<u8>, t: HuffTable, k: int)
    requires
        counts.len() == 16,
        huff_valid(counts, values.len() as int),
        table_of(t, counts, values),
        0 <= k < values.len(),
        canon_code(huff_sizes(counts), k) < pow2(huff_sizes(counts)[k] as nat),
        bits_ahead(d, v, huff_sizes(counts)[k] as nat) == code_bits(canon_code(huff_sizes(counts), k), huff_sizes(counts)[k] as nat),
    ensures
        huff_spec(d, v, t, 1, 0) == Ok::<(u8, ReaderView), ConvertError>((values[k], view_after(d, v, huff_sizes(counts)[k] as nat))),
{
    let sizes = huff_sizes(counts);
    lemma_sizes_upto(counts, 16);
    lemma_sizes_len(counts, 16);
    let l = sizes[k] as nat;
    let c = canon_code(sizes, k);
    lemma_canon_bound(sizes, k);
    assert(0 <= c);
    let big = lemma_find_len(counts, k, 1);
    lemma_size_at(counts, big, k, 16);
    assert(big == l);
    lemma_huff_steps(d, v, counts, values, t, k, 1);
}

/// The decode reaches length `len` with the first `len - 1` bits of the code read.
proof fn lemma_huff_steps(d: Seq<u8>, v: ReaderView, counts: Seq<u8>, values: Seq<u8>, t: HuffTable, k: int, len: int)
    requires
        counts.len() == 16,
        huff_valid(counts, values.len() as int),
        table_of(t, counts, values),
        0 <= k < values.len(),
        1 <= len <= huff_sizes(counts)[k],
        count_sum(counts, huff_sizes(counts)[k] - 1) <= k < count_sum(counts, huff_sizes(counts)[k] as int),
        canon_code(huff_sizes(counts), k) < pow2(huff_sizes(counts)[k] as nat),
        bits_ahead(d, v, huff_sizes(counts)[k] as nat) == code_bits(canon_code(huff_sizes(counts), k), huff_sizes(counts)[k] as nat),
    ensures
        huff_spec(
            d,
            view_after(d, v, (len - 1) as nat),
            t,
            len,
            canon_code(huff_sizes(counts), k) / pow2((huff_sizes(counts)[k] - len + 1) as nat) as int,
        ) == Ok::<(u8, ReaderView), ConvertError>((values[k], view_after(d, v, huff_sizes(counts)[k] as nat))),
        len == 1 ==> canon_code(huff_sizes(counts), k) / pow2(huff_sizes(counts)[k] as nat) as int == 0,
    decreases huff_sizes(counts)[k] - len,
{
    let sizes = huff_sizes(counts);
    lemma_sizes_upto(counts, 16);
    lemma_sizes_len(counts, 16);
    let l = sizes[k] as int;
    let c = canon_code(sizes, k);
    lemma_canon_bound(sizes, k);
    let vp = view_after(d, v, (len - 1) as nat);
    lemma_bits_ahead_step(d, v, l as nat, (len - 1) as nat);
    let (b, v1) = read_bit_spec(d, vp);
    assert(b == code_bits(c, l as nat)[len - 1]);
    lemma_prefix_step(c, l as nat, len as nat);
    let prev = c / pow2((l - len + 1) as nat) as int;
    let cur = c / pow2((l - len) as nat) as int;
    assert(cur == 2 * prev + if b { 1int } else { 0int });
    if len == 1 {
        lemma_canon_bound(sizes, k);
        assert(prev == 0) by (nonlinear_arith)
            requires 0 <= c < pow2(l as nat), prev == c / (pow2(l as nat) as int);
    }
    if len == l {
        assert(pow2(0) == 1);
        assert((l - len) as nat == 0);
        assert(pow2((l - len) as nat) as int == 1);
        assert(cur == c / 1);
        assert(c / 1 == c);
        let first = count_sum(counts, l - 1);
        let last = count_sum(counts, l) - 1;
        lemma_count_sum_mono(counts, l - 1, 16);
        lemma_count_sum_mono(counts, l, 16);
        lemma_size_at(counts, l, first, 16);
        lemma_size_at(counts, l, last, 16);
        lemma_canon_same(sizes, first, k);
        lemma_canon_same(sizes, k, last);
        assert(t.maxcode@[len] == canon_code(sizes, last));
        assert(t.mincode@[len] == canon_code(sizes, first));
        assert(t.valptr@[len] == first);
        assert(canon_code(sizes, last) >= 0) by {
            lemma_canon_bound(sizes, last);
        }
    } else {
        // No shorter code is a prefix of this one.
        if counts[len - 1] > 0 {
            let last = count_sum(counts, len) - 1;
            lemma_count_sum_mono(counts, len, l - 1);
            lemma_count_sum_mono(counts, len - 1, len);
            lemma_count_sum_mono(counts, len, 16);
            lemma_size_at(counts, len, last, 16);
            assert(last < k);
            lemma_canon_grow(sizes, last, k);
            let m = (l - len) as nat;
            let pm = pow2(m) as int;
            lemma_pow2_mono(0, m);
            assert(pow2(0) == 1);
            let cl = canon_code(sizes, last);
            assert(c >= (cl + 1) * pm);
            assert(cur >= cl + 1) by (nonlinear_arith)
                requires c >= (cl + 1) * pm, pm >= 1, cur == c / pm;
            assert(t.maxcode@[len] == cl);
        } else {
            assert(t.maxcode@[len] == -1);
        }
        lemma_huff_steps(d, v, counts, values, t, k, len + 1);
        assert((len + 1 - 1) as nat == len as nat);
    }
}

proof fn lemma_last_index_value(values: Seq<u8>, v: int, n: int)
    requires
        0 <= n <= values.len(),
        last_index(values, v, n) >= 0,
    ensures
        values[last_index(values, v, n)] == v,
        last_index(values, v, n) < n,
    decreases n,
{
    if n > 0 && values[n - 1] != v {
        lemma_last_index_value(values, v, n - 1);
    }
}

/// Every canonical code of the count list fits in its length (the code is a prefix code).
pub open spec fn codes_in_range(counts: Seq<u8>) -> bool {
    forall|k: int|
        0 <= k < huff_sizes(counts).len() ==> #[trigger] canon_code(huff_sizes(counts), k) < pow2(huff_sizes(counts)[k] as nat)
}

/// What the encode table codes a symbol as, the decode table of the same counts and symbols
/// decodes back: a reader whose next bits are the code [`build_encode_huff`] gives symbol `s`
/// decodes `s` with the table [`build_huff_table`] gives, after exactly those bits.
pub proof fn lemma_decode_inverts_encode(d: Seq<u8>, v: ReaderView, counts: Seq<u8>, values: Seq<u8>, t: HuffTable, s: int)
    requires
        counts.len() == 16,
        huff_valid(counts, values.len() as int),
        codes_in_range(counts),
        table_of(t, counts, values),
        enc_entry(counts, values, s) matches Some((c, l)) && bits_ahead(d, v, l as nat) == code_bits(c as int, l as nat),
    ensures
        enc_entry(counts, values, s) matches Some((c, l)) && huff_spec(d, v, t, 1, 0) == Ok::<(u8, ReaderView), ConvertError>(
            (s as u8, view_after(d, v, l as nat)),
        ),
{
    let sizes = huff_sizes(counts);
    let n = values.len() as int;
    let i = last_index(values, s, n);
    lemma_last_index_value(values, s, n);
    lemma_sizes_len(counts, 16);
    let c = canon_code(sizes, i);
    assert(c <= 0xffff);
    lemma_sizes_upto(counts, 16);
    lemma_canon_bound(sizes, i);
    assert(c % 65536 == c);
    assert((c % 65536) as u16 as int == c);
    lemma_huff_reads_index(d, v, counts, values, t, i);
}

proof fn lemma_bits_ahead_split(d: Seq<u8>, v: ReaderView, a: nat, b: nat)
    ensures
        bits_ahead(d, v, a + b) == bits_ahead(d, v, a) + bits_ahead(d, view_after(d, v, a), b),
        view_after(d, v, a + b) == view_after(d, view_after(d, v, a), b),
    decreases a,
{
    if a == 0 {
        assert(bits_ahead(d, v, 0) =~= Seq::<bool>::empty());
        assert(bits_ahead(d, v, a + b) =~= bits_ahead(d, v, a) + bits_ahead(d, view_after(d, v, a), b));
    } else {
        let v1 = read_bit_spec(d, v).1;
        lemma_bits_ahead_split(d, v1, (a - 1) as nat, b);
        assert((a + b - 1) as nat == (a - 1) as nat + b);
        assert(bits_ahead(d, v, a + b) =~= bits_ahead(d, v, a) + bits_ahead(d, view_after(d, v, a), b));
    }
}

/// Reading `n` bits gives the value of the next `n` bits and leaves the reader after them.
proof fn lemma_read_bits_ahead(d: Seq<u8>, v: ReaderView, n: nat)
    ensures
        read_bits_spec(d, v, n) == (msb_val(bits_ahead(d, v, n)), view_after(d, v, n)),
    decreases n,
{
    if n > 0 {
        let m = (n - 1) as nat;
        lemma_read_bits_ahead(d, v, m);
        lemma_bits_ahead_split(d, v, m, 1);
        let vm = view_after(d, v, m);
        assert(bits_ahead(d, read_bit_spec(d, vm).1, 0) =~= Seq::<bool>::empty());
        assert(bits_ahead(d, vm, 1) =~= seq![read_bit_spec(d, vm).0]);
        assert(view_after(d, vm, 1) == view_after(d, read_bit_spec(d, vm).1, 0));
        let w = bits_ahead(d, v, n);
        assert(w.drop_last() =~= bits_ahead(d, v, m));
        assert(w.last() == read_bit_spec(d, vm).0);
    }
}

/// The value of the bits of `x` is `x`.
proof fn lemma_msb_code_bits(x: int, n: nat)
    requires
        0 <= x < pow2(n),
    ensures
        msb_val(code_bits(x, n)) == x,
    decreases n,
{
    if n > 0 {
        let m = (n - 1) as nat;
        let h = x / 2;
        assert(pow2(n) == 2 * pow2(m));
        assert(0 <= h < pow2(m));
        lemma_msb_code_bits(h, m);
        let w = code_bits(x, n);
        assert forall|i: int| 0 <= i < m implies #[trigger] w.drop_last()[i] == code_bits(h, m)[i] by {
            let e = (m - 1 - i) as nat;
            assert((n - 1 - i) as nat == e + 1);
            assert(pow2(e + 1) == 2 * pow2(e));
            lemma_pow2_mono(0, e);
            assert(pow2(0) == 1);
            vstd::arithmetic::div_mod::lemma_div_denominator(x, 2, pow2(e) as int);
        }
        assert(w.drop_last() =~= code_bits(h, m));
        assert(pow2(0) == 1);
        assert(w.last() == ((x / 1) % 2 == 1));
        vstd::arithmetic::div_mod::lemma_fundamental_div_mod(x, 2);
    }
}

/// The block `zz` as a decoder gets it back: DC value `dcv`, each AC coefficient limited to
/// `max` bits.
pub open spec fn clamped_block(zz: Seq<i32>, dcv: int, max: int) -> Seq<i32> {
    Seq::new(64, |i: int| if i == 0 { dcv as i32 } else { clamp_category_spec(zz[i] as int, max) as i32 })
}

/// A valid count list whose codes fit their lengths, its decode table `t` and encode table `e`.
pub open spec fn tables_agree(counts: Seq<u8>, values: Seq<u8>, t: HuffTable, e: Codes) -> bool {
    &&& counts.len() == 16
    &&& huff_valid(counts, values.len() as int)
    &&& codes_in_range(counts)
    &&& table_of(t, counts, values)
    &&& e == std_table(counts, values)
}

proof fn lemma_rep_len(z: Seq<bool>, n: nat)
    ensures
        rep(z, n).len() == n * z.len(),
    decreases n,
{
    if n > 0 {
        lemma_rep_len(z, (n - 1) as nat);
        assert((n - 1) * z.len() + z.len() == n * z.len()) by (nonlinear_arith);
    } else {
        assert(n * z.len() == 0) by (nonlinear_arith)
            requires n == 0;
    }
}

/// A symbol whose code is next is decoded (see [`lemma_decode_inverts_encode`]).
proof fn lemma_decode_next(d: Seq<u8>, v: ReaderView, counts: Seq<u8>, values: Seq<u8>, t: HuffTable, e: Codes, s: int)
    requires
        tables_agree(counts, values, t, e),
        0 <= s < 256,
        e[s] matches Some((c, l)) && bits_ahead(d, v, l as nat) == code_bits(c as int, l as nat),
    ensures
        e[s] matches Some((c, l)) && huff_spec(d, v, t, 1, 0) == Ok::<(u8, ReaderView), ConvertError>((s as u8, view_after(d, v, l as nat))),
{
    lemma_decode_inverts_encode(d, v, counts, values, t, s);
}

/// `n` zero-run codes move a decoder `16 * n` positions on.
proof fn lemma_zrl_decode(d: Seq<u8>, v: ReaderView, counts: Seq<u8>, values: Seq<u8>, t: HuffTable, e: Codes, n: nat, kd: int, coeffs: Seq<i32>)
    requires
        tables_agree(counts, values, t, e),
        e[0xf0] is Some,
        0 <= kd,
        kd + 16 * n < 64,
        bits_ahead(d, v, rep(entry_code(e[0xf0]), n).len()) == rep(entry_code(e[0xf0]), n),
    ensures
        ac_spec(d, v, t, kd, coeffs) == ac_spec(d, view_after(d, v, rep(entry_code(e[0xf0]), n).len()), t, kd + 16 * n, coeffs),
    decreases n,
{
    if n > 0 {
        let z = entry_code(e[0xf0]);
        let m = (n - 1) as nat;
        let a = rep(z, m).len();
        lemma_bits_ahead_split(d, v, a, z.len());
        lemma_bits_ahead_len(d, v, a);
        assert(rep(z, n) == rep(z, m) + z);
        assert(a + z.len() == rep(z, n).len());
        assert(bits_ahead(d, v, rep(z, n).len()) == bits_ahead(d, v, a) + bits_ahead(d, view_after(d, v, a), z.len()));
        assert(bits_ahead(d, v, a) =~= rep(z, n).take(a as int));
        assert(rep(z, n).take(a as int) =~= rep(z, m));
        lemma_zrl_decode(d, v, counts, values, t, e, m, kd, coeffs);
        let vm = view_after(d, v, a);
        assert(bits_ahead(d, vm, z.len()) =~= rep(z, n).skip(a as int));
        assert(rep(z, n).skip(a as int) =~= z);
        lemma_decode_next(d, vm, counts, values, t, e, 0xf0);
        assert(0xf0u8 / 16 == 15 && 0xf0u8 % 16 == 0);
        assert(kd + 16 * m + 16 == kd + 16 * n);
    }
}

proof fn lemma_ahead_concat(d: Seq<u8>, v: ReaderView, a: Seq<bool>, b: Seq<bool>)
    requires
        bits_ahead(d, v, (a + b).len()) == a + b,
    ensures
        bits_ahead(d, v, a.len()) == a,
        bits_ahead(d, view_after(d, v, a.len()), b.len()) == b,
        view_after(d, v, (a + b).len()) == view_after(d, view_after(d, v, a.len()), b.len()),
{
    lemma_bits_ahead_split(d, v, a.len(), b.len());
    lemma_bits_ahead_len(d, v, a.len());
    lemma_bits_ahead_len(d, view_after(d, v, a.len()), b.len());
    assert((a + b).len() == a.len() + b.len());
    assert(bits_ahead(d, v, a.len()) =~= (a + b).take(a.len() as int));
    assert((a + b).take(a.len() as int) =~= a);
    assert(bits_ahead(d, view_after(d, v, a.len()), b.len()) =~= (a + b).skip(a.len() as int));
    assert((a + b).skip(a.len() as int) =~= b);
}

/// Decoding one nonzero AC coefficient the encoder wrote (its zero runs, its symbol and its
/// magnitude bits) puts it in place and leaves the reader before the rest.
#[verifier::spinoff_prover]
#[verifier::rlimit(40)]
proof fn lemma_ac_nonzero_step(
    d: Seq<u8>,
    v: ReaderView,
    counts: Seq<u8>,
    values: Seq<u8>,
    t: HuffTable,
    e: Codes,
    zz: Seq<i32>,
    max: int,
    k: int,
    run: int,
    coeffs: Seq<i32>,
) -> (v3: ReaderView)
    requires
        tables_agree(counts, values, t, e),
        zz.len() == 64,
        1 <= max <= 11,
        1 <= k < 64,
        0 <= run < k,
        coeffs.len() == 64,
        clamp_category_spec(zz[k] as int, max) != 0,
        ac_bits(zz, e, max, k, run) matches Ok(w) && bits_ahead(d, v, w.len()) == w,
    ensures
        ac_bits(zz, e, max, k + 1, 0) matches Ok(restw) && bits_ahead(d, v3, restw.len()) == restw
            && view_after(d, v, ac_bits(zz, e, max, k, run)->Ok_0.len()) == view_after(d, v3, restw.len()),
        ac_spec(d, v, t, k - run, coeffs) == ac_spec(d, v3, t, k + 1, coeffs.update(k, clamp_category_spec(zz[k] as int, max) as i32)),
{
    let w = ac_bits(zz, e, max, k, run)->Ok_0;
    let c = clamp_category_spec(zz[k] as int, max);
    assert(pow2(11) == 2048) by {
        reveal_with_fuel(pow2, 12);
    }
    lemma_pow2_mono(max as nat, 11);
    lemma_category_le(c, 11);
    lemma_extend_undoes_category(c);
    let (size, bits) = category_spec(c);
    lemma_bit_len_bounds(if c > 0 { c as nat } else { (-c) as nat });
    assert(1 <= size <= 11);
    let rs = (run % 16) * 16 + size;
    let nz = (run / 16) as nat;
    assert(ac_bits(zz, e, max, k, run) == then_bits(coeff_bits(e, c, run), ac_bits(zz, e, max, k + 1, 0)));
    let zb = zrl_bits(e, nz)->Ok_0;
    let eb = entry_bits(e[rs], "jpeg-ac-huffman-gap")->Ok_0;
    let cb = code_bits(bits, size as nat);
    let restw = ac_bits(zz, e, max, k + 1, 0)->Ok_0;
    assert(w == zb + (eb + (cb + restw)));
    let z = entry_code(e[0xf0]);
    if nz > 0 {
        if e[0xf0] is None {
            lemma_zrl_none(e, nz);
        }
        lemma_zrl_some(e, nz);
    } else {
        assert(zrl_bits(e, 0) == Ok::<Seq<bool>, ConvertError>(seq![]));
    }
    assert(zb == rep(z, nz));
    lemma_ahead_concat(d, v, zb, eb + (cb + restw));
    let v1 = view_after(d, v, zb.len());
    let kd = k - run;
    let kd1 = kd + 16 * nz;
    assert(kd1 == k - run % 16);
    if nz > 0 {
        lemma_zrl_decode(d, v, counts, values, t, e, nz, kd, coeffs);
    }
    assert(ac_spec(d, v, t, kd, coeffs) == ac_spec(d, v1, t, kd1, coeffs));
    lemma_ahead_concat(d, v1, eb, cb + restw);
    lemma_decode_next(d, v1, counts, values, t, e, rs);
    let v2 = view_after(d, v1, eb.len());
    assert((rs as u8) / 16 == run % 16);
    assert((rs as u8) % 16 == size);
    lemma_ahead_concat(d, v2, cb, restw);
    let v3 = view_after(d, v2, cb.len());
    lemma_read_bits_ahead(d, v2, size as nat);
    lemma_msb_code_bits(bits, size as nat);
    assert(read_bits_spec(d, v2, size as nat) == (bits, v3));
    v3
}

/// Decoding the AC coefficients the encoder wrote from position `k` on, `run` zeros pending,
/// gives the block back (the coefficients limited to `max` bits).
#[verifier::spinoff_prover]
proof fn lemma_ac_round_trip(
    d: Seq<u8>,
    v: ReaderView,
    counts: Seq<u8>,
    values: Seq<u8>,
    t: HuffTable,
    e: Codes,
    zz: Seq<i32>,
    max: int,
    k: int,
    run: int,
    coeffs: Seq<i32>,
    dcv: int,
)
    requires
        tables_agree(counts, values, t, e),
        zz.len() == 64,
        1 <= max <= 11,
        1 <= k <= 64,
        0 <= run < k,
        coeffs.len() == 64,
        coeffs[0] == dcv as i32,
        forall|i: int| 1 <= i < k - run ==> coeffs[i] == #[trigger] clamped_block(zz, dcv, max)[i],
        forall|i: int| k - run <= i < 64 ==> #[trigger] coeffs[i] == 0,
        forall|i: int| k - run <= i < k ==> clamp_category_spec(#[trigger] zz[i] as int, max) == 0,
        ac_bits(zz, e, max, k, run) matches Ok(w) && bits_ahead(d, v, w.len()) == w,
    ensures
        ac_bits(zz, e, max, k, run) matches Ok(w) && ac_spec(d, v, t, k - run, coeffs) == Ok::<(Seq<i32>, ReaderView), ConvertError>(
            (clamped_block(zz, dcv, max), view_after(d, v, w.len())),
        ),
    decreases 64 - k,
{
    let target = clamped_block(zz, dcv, max);
    if k >= 64 {
        let kd = k - run;
        assert forall|i: int| 0 <= i < 64 implies #[trigger] coeffs[i] == target[i] by {
            if i >= kd {
                assert(clamp_category_spec(zz[i] as int, max) == 0);
            }
        }
        assert(coeffs =~= target);
        if run > 0 {
            lemma_decode_next(d, v, counts, values, t, e, 0);
        }
    } else {
        let c = clamp_category_spec(zz[k] as int, max);
        if c == 0 {
            lemma_ac_round_trip(d, v, counts, values, t, e, zz, max, k + 1, run + 1, coeffs, dcv);
        } else {
            let v3 = lemma_ac_nonzero_step(d, v, counts, values, t, e, zz, max, k, run, coeffs);
            let coeffs2 = coeffs.update(k, c as i32);
            assert forall|i: int| 1 <= i < k + 1 implies coeffs2[i] == #[trigger] target[i] by {
                if k - run <= i < k {
                    assert(clamp_category_spec(zz[i] as int, max) == 0);
                }
            }
            lemma_ac_round_trip(d, v3, counts, values, t, e, zz, max, k + 1, 0, coeffs2, dcv);
        }
    }
}

/// What the encoder writes for a block, the decoder reads back: a reader whose next bits are
/// those [`encode_coefficients`] writes for block `zz` after DC value `pred` decodes, with the
/// same tables, the block with every AC coefficient limited to `max` bits and the DC value
/// limited to 11, and that DC value, after exactly those bits. The DC difference must need no
/// limiting (it does whenever the two DC values lie more than 2047 apart).
pub proof fn lemma_block_round_trip(
    d: Seq<u8>,
    v: ReaderView,
    dc_counts: Seq<u8>,
    dc_values: Seq<u8>,
    dc_table: HuffTable,
    dc_codes: Codes,
    ac_counts: Seq<u8>,
    ac_values: Seq<u8>,
    ac_table: HuffTable,
    ac_codes: Codes,
    zz: Seq<i32>,
    pred: i32,
    max: int,
)
    requires
        tables_agree(dc_counts, dc_values, dc_table, dc_codes),
        tables_agree(ac_counts, ac_values, ac_table, ac_codes),
        zz.len() == 64,
        1 <= max <= 11,
        -2047 <= pred <= 2047,
        -2047 <= clamp_category_spec(zz[0] as int, 11) - pred <= 2047,
        block_bits(zz, pred as int, dc_codes, ac_codes, max) matches Ok(w) && bits_ahead(d, v, w.len()) == w,
    ensures
        block_bits(zz, pred as int, dc_codes, ac_codes, max) matches Ok(w) && block_spec(d, v, dc_table, ac_table, pred)
            == Ok::<(Seq<i32>, i32, ReaderView), ConvertError>(
            (
                clamped_block(zz, clamp_category_spec(zz[0] as int, 11), max),
                clamp_category_spec(zz[0] as int, 11) as i32,
                view_after(d, v, w.len()),
            ),
        ),
{
    let w = block_bits(zz, pred as int, dc_codes, ac_codes, max)->Ok_0;
    assert(pow2(11) == 2048) by {
        reveal_with_fuel(pow2, 12);
    }
    let dcv = clamp_category_spec(zz[0] as int, 11);
    let diff = clamp_category_spec(dcv - pred, 11);
    assert(diff == dcv - pred);
    lemma_category_le(diff, 11);
    lemma_extend_undoes_category(diff);
    let (size, bits) = category_spec(diff);
    let eb = entry_bits(dc_codes[size], "jpeg-dc-huffman-gap")->Ok_0;
    let cb = code_bits(bits, size as nat);
    assert(cb == if size > 0 { code_bits(bits, size as nat) } else { seq![] });
    let restw = ac_bits(zz, ac_codes, max, 1, 0)->Ok_0;
    assert(w == eb + (cb + restw));
    lemma_ahead_concat(d, v, eb, cb + restw);
    lemma_decode_next(d, v, dc_counts, dc_values, dc_table, dc_codes, size);
    let v1 = view_after(d, v, eb.len());
    lemma_ahead_concat(d, v1, cb, restw);
    let v2 = view_after(d, v1, cb.len());
    lemma_read_bits_ahead(d, v1, size as nat);
    lemma_msb_code_bits(bits, size as nat);
    assert(read_bits_spec(d, v1, size as nat) == (bits, v2));
    let p = pred.wrapping_add(extend_spec(bits, size as int) as i32);
    assert(p == dcv);
    let init = Seq::new(64, |i: int| if i == 0 { p } else { 0i32 });
    lemma_ac_round_trip(d, v2, ac_counts, ac_values, ac_table, ac_codes, zz, max, 1, 0, init, dcv);
}

proof fn lemma_read_bit_stuffed(bp: Seq<bool>, m: int, k: int)
    requires
        bp.len() == 8 * m,
        0 <= k < 8 * m,
    ensures
        read_bit_spec(stuff(pack_msb(bp)), reader_after(pack_msb(bp), k)) == (bp[k], reader_after(pack_msb(bp), k + 1)),
{
    let bytes = pack_msb(bp);
    let d = stuff(bytes);
    lemma_pack_len(bp, m);
    let j = k / 8;
    let r = k % 8;
    lemma_pack_index(bp, m, j);
    let chunk = bp.subrange(8 * j, 8 * j + 8);
    lemma_byte_bits_of(chunk);
    assert(byte_bits(bytes[j]) == chunk);
    assert(chunk[r] == bp[k]);
    let v = reader_after(bytes, k);
    if r == 0 {
        lemma_fetch_stuffed(bytes, j);
        assert(read_bit_spec(d, v) == (chunk[0], (stuffed_pos(bytes, j + 1), false, chunk.drop_first())));
        assert(chunk.drop_first() =~= chunk.skip(1));
    } else {
        assert(v.2 =~= chunk.skip(r));
        assert(v.2[0] == chunk[r]);
        assert(v.2.drop_first() =~= chunk.skip(r + 1));
        if r == 7 {
            assert(chunk.skip(8) =~= Seq::<bool>::empty());
        }
    }
}

proof fn lemma_view_after_stuffed(bp: Seq<bool>, m: int, n: nat)
    requires
        bp.len() == 8 * m,
        n <= 8 * m,
    ensures
        view_after(stuff(pack_msb(bp)), reader_after(pack_msb(bp), 0), n) == reader_after(pack_msb(bp), n as int),
        bits_ahead(stuff(pack_msb(bp)), reader_after(pack_msb(bp), 0), n) == bp.take(n as int),
    decreases n,
{
    let bytes = pack_msb(bp);
    let d = stuff(bytes);
    let v0 = reader_after(bytes, 0);
    if n == 0 {
        assert(bp.take(0) =~= Seq::<bool>::empty());
    } else {
        let k = (n - 1) as nat;
        lemma_view_after_stuffed(bp, m, k);
        lemma_bits_ahead_split(d, v0, k, 1);
        lemma_read_bit_stuffed(bp, m, k as int);
        let vk = view_after(d, v0, k);
        assert(bits_ahead(d, read_bit_spec(d, vk).1, 0) =~= Seq::<bool>::empty());
        assert(bits_ahead(d, vk, 1) =~= seq![bp[k as int]]);
        assert(view_after(d, vk, 1) == view_after(d, read_bit_spec(d, vk).1, 0));
        assert(bp.take(n as int) =~= bp.take(k as int) + seq![bp[k as int]]);
    }
}

/// A fresh reader of what [`BitWriter::finish`] gives for the bits `b` has those bits ahead.
pub proof fn lemma_entropy_bits_ahead(b: Seq<bool>)
    ensures
        bits_ahead(entropy_bytes(b), (0, false, Seq::<bool>::empty()), b.len()) == b,
{
    let pad = ((8 - b.len() % 8) % 8) as nat;
    let bp = b + ones(pad);
    let m: int = bp.len() as int / 8;
    assert(bp.len() == 8 * m);
    let bytes = pack_msb(bp);
    assert(bytes.take(0) =~= Seq::<u8>::empty());
    assert(reader_after(bytes, 0) == (0int, false, Seq::<bool>::empty()));
    lemma_view_after_stuffed(bp, m, b.len());
    assert(bp.take(b.len() as int) =~= b);
}

/// The decode table `t` and the encode table `e` are those of one valid prefix code.
pub open spec fn decodes_with(t: HuffTable, e: Codes) -> bool {
    exists|c: Seq<u8>, v: Seq<u8>| tables_agree(c, v, t, e)
}

/// The frame [`write_jpeg_file`] writes: Y, Cb, Cr, none subsampled, Y with quantization table
/// 0 and the others with table 1.
pub open spec fn frame3() -> Seq<Component> {
    seq![
        Component { id: 1, h: 1, v: 1, qt: 0 },
        Component { id: 2, h: 1, v: 1, qt: 1 },
        Component { id: 3, h: 1, v: 1, qt: 1 },
    ]
}

/// The scan [`write_jpeg_file`] writes: Y with Huffman tables 0, Cb and Cr with tables 1.
pub open spec fn scan3() -> Seq<ScanComponent> {
    seq![
        ScanComponent { comp_index: 0, dc_table: 0, ac_table: 0 },
        ScanComponent { comp_index: 1, dc_table: 1, ac_table: 1 },
        ScanComponent { comp_index: 2, dc_table: 1, ac_table: 1 },
    ]
}

/// The decode slots hold, in slots 0 and 1, tables that decode what the encode tables `te`
/// (luminance DC and AC, chrominance DC and AC) code.
pub open spec fn slots_decode(te: (Codes, Codes, Codes, Codes), dcs: Seq<Option<HuffTable>>, acs: Seq<Option<HuffTable>>) -> bool {
    &&& dcs.len() == 4 && acs.len() == 4
    &&& dcs[0] is Some && dcs[1] is Some && acs[0] is Some && acs[1] is Some
    &&& decodes_with(dcs[0]->0, te.0)
    &&& decodes_with(acs[0]->0, te.1)
    &&& decodes_with(dcs[1]->0, te.2)
    &&& decodes_with(acs[1]->0, te.3)
}

/// Each block's DC value lies within 2047 of the one before it in the same component.
pub open spec fn dc_steps_ok(mcus: Seq<[[i32; 64]; 3]>) -> bool {
    forall|i: int, c: int|
        0 <= i < mcus.len() && 0 <= c < 3 ==> -2047 <= #[trigger] clamp_category_spec(mcus[i]@[c]@[0] as int, 11) - mcu_pred(
            mcus,
            i,
            c,
        ) <= 2047
}

/// The blocks of the first `n` MCUs as the decoder gets them back, Y, Cb, Cr of each in turn.
pub open spec fn decoded_blocks(mcus: Seq<[[i32; 64]; 3]>, n: int) -> Seq<Seq<i32>> {
    Seq::new(
        (3 * n) as nat,
        |i: int|
            clamped_block(mcus[i / 3]@[i % 3]@, clamp_category_spec(mcus[i / 3]@[i % 3]@[0] as int, 11), MAX_AC_CATEGORY as int),
    )
}

/// The DC predictions after the first `n` MCUs.
pub open spec fn preds_after(mcus: Seq<[[i32; 64]; 3]>, n: int) -> Seq<i32> {
    seq![mcu_pred(mcus, n, 0) as i32, mcu_pred(mcus, n, 1) as i32, mcu_pred(mcus, n, 2) as i32]
}

/// One block of an MCU decodes back (see [`lemma_block_round_trip`]).
proof fn lemma_scan_block(
    d: Seq<u8>,
    st: ScanState,
    mcus: Seq<[[i32; 64]; 3]>,
    te: (Codes, Codes, Codes, Codes),
    dcs: Seq<Option<HuffTable>>,
    acs: Seq<Option<HuffTable>>,
    i: int,
    c: int,
    rest: Seq<bool>,
) -> (x: Seq<bool>)
    requires
        slots_decode(te, dcs, acs),
        dc_steps_ok(mcus),
        0 <= i < mcus.len(),
        0 <= c < 3,
        st.1.len() == 3,
        st.1[c] == mcu_pred(mcus, i, c) as i32,
        block_bits(mcus[i]@[c]@, mcu_pred(mcus, i, c), dc_table(te, c), ac_table(te, c), MAX_AC_CATEGORY as int) matches Ok(w)
            && bits_ahead(d, st.0, (w + rest).len()) == w + rest,
    ensures
        block_bits(mcus[i]@[c]@, mcu_pred(mcus, i, c), dc_table(te, c), ac_table(te, c), MAX_AC_CATEGORY as int) == Ok::<
            Seq<bool>,
            ConvertError,
        >(x),
        comp_blocks_spec(d, st, c, (if c == 0 { dcs[0] } else { dcs[1] })->0, (if c == 0 { acs[0] } else { acs[1] })->0, 1)
            == Ok::<ScanState, ConvertError>(
            (
                view_after(d, st.0, x.len()),
                st.1.update(c, clamp_category_spec(mcus[i]@[c]@[0] as int, 11) as i32),
                st.2.push(
                    clamped_block(mcus[i]@[c]@, clamp_category_spec(mcus[i]@[c]@[0] as int, 11), MAX_AC_CATEGORY as int),
                ),
            ),
        ),
        bits_ahead(d, view_after(d, st.0, x.len()), rest.len()) == rest,
{
    let zz = mcus[i]@[c]@;
    let x = block_bits(zz, mcu_pred(mcus, i, c), dc_table(te, c), ac_table(te, c), MAX_AC_CATEGORY as int)->Ok_0;
    lemma_ahead_concat(d, st.0, x, rest);
    let dt = (if c == 0 { dcs[0] } else { dcs[1] })->0;
    let at = (if c == 0 { acs[0] } else { acs[1] })->0;
    assert(decodes_with(dt, dc_table(te, c)));
    assert(decodes_with(at, ac_table(te, c)));
    let (dc1, dv1) = choose|a: Seq<u8>, b: Seq<u8>| tables_agree(a, b, dt, dc_table(te, c));
    let (ac1, av1) = choose|a: Seq<u8>, b: Seq<u8>| tables_agree(a, b, at, ac_table(te, c));
    lemma_dc_range(if i <= 0 { 0 } else { mcus[i - 1]@[c]@[0] as int });
    let pred = mcu_pred(mcus, i, c) as i32;
    assert(clamp_category_spec(zz[0] as int, 11) - pred <= 2047);
    lemma_block_round_trip(d, st.0, dc1, dv1, dt, dc_table(te, c), ac1, av1, at, ac_table(te, c), zz, pred, MAX_AC_CATEGORY as int);
    assert(comp_blocks_spec(d, st, c, dt, at, 0) == Ok::<ScanState, ConvertError>(st));
    x
}

proof fn lemma_mcu_unfold(
    d: Seq<u8>,
    st: ScanState,
    qts: Seq<Option<Seq<u16>>>,
    dcs: Seq<Option<HuffTable>>,
    acs: Seq<Option<HuffTable>>,
    j: int,
)
    requires
        0 <= j < 3,
        dcs.len() == 4 && acs.len() == 4 && qts.len() == 4,
        dcs[0] is Some && dcs[1] is Some && acs[0] is Some && acs[1] is Some && qts[0] is Some && qts[1] is Some,
    ensures
        mcu_spec(d, st, frame3(), scan3(), qts, dcs, acs, j + 1) == match mcu_spec(d, st, frame3(), scan3(), qts, dcs, acs, j) {
            Err(e) => Err(e),
            Ok(st1) => comp_blocks_spec(
                d,
                st1,
                j,
                (if j == 0 { dcs[0] } else { dcs[1] })->0,
                (if j == 0 { acs[0] } else { acs[1] })->0,
                1,
            ),
        },
{
    let sc = scan3()[j];
    let comp = frame3()[sc.comp_index as int];
    assert(sc.comp_index == j);
    assert(sc.dc_table == if j == 0 { 0u8 } else { 1u8 });
    assert(sc.ac_table == if j == 0 { 0u8 } else { 1u8 });
    assert(comp.h == 1 && comp.v == 1);
    assert(comp.qt == if j == 0 { 0u8 } else { 1u8 });
    assert(comp.h * comp.v == 1) by (nonlinear_arith)
        requires comp.h == 1, comp.v == 1;
}

proof fn lemma_blocks_push3(mcus: Seq<[[i32; 64]; 3]>, i: int, s2: Seq<Seq<i32>>)
    requires
        0 <= i < mcus.len(),
    ensures
        s2.push(clamped_block(mcus[i]@[0]@, clamp_category_spec(mcus[i]@[0]@[0] as int, 11), MAX_AC_CATEGORY as int)).push(
            clamped_block(mcus[i]@[1]@, clamp_category_spec(mcus[i]@[1]@[0] as int, 11), MAX_AC_CATEGORY as int),
        ).push(clamped_block(mcus[i]@[2]@, clamp_category_spec(mcus[i]@[2]@[0] as int, 11), MAX_AC_CATEGORY as int)) == s2
            + decoded_blocks(mcus, i + 1).skip(3 * i),
{
    let blocks = decoded_blocks(mcus, i + 1);
    assert((3 * i) / 3 == i && (3 * i + 1) / 3 == i && (3 * i + 2) / 3 == i);
    assert((3 * i) % 3 == 0 && (3 * i + 1) % 3 == 1 && (3 * i + 2) % 3 == 2);
    assert(s2.push(blocks[3 * i]).push(blocks[3 * i + 1]).push(blocks[3 * i + 2]) =~= s2 + blocks.skip(3 * i));
}

proof fn lemma_preds_next(mcus: Seq<[[i32; 64]; 3]>, i: int)
    requires
        0 <= i < mcus.len(),
    ensures
        preds_after(mcus, i).update(0, clamp_category_spec(mcus[i]@[0]@[0] as int, 11) as i32).update(
            1,
            clamp_category_spec(mcus[i]@[1]@[0] as int, 11) as i32,
        ).update(2, clamp_category_spec(mcus[i]@[2]@[0] as int, 11) as i32) == preds_after(mcus, i + 1),
{
    assert(preds_after(mcus, i).update(0, clamp_category_spec(mcus[i]@[0]@[0] as int, 11) as i32).update(
        1,
        clamp_category_spec(mcus[i]@[1]@[0] as int, 11) as i32,
    ).update(2, clamp_category_spec(mcus[i]@[2]@[0] as int, 11) as i32) =~= preds_after(mcus, i + 1));
}

/// The blocks of MCU `i` decode back (see [`lemma_scan_block`]).
#[verifier::spinoff_prover]
#[verifier::rlimit(40)]
proof fn lemma_scan_mcu(
    d: Seq<u8>,
    st: ScanState,
    mcus: Seq<[[i32; 64]; 3]>,
    te: (Codes, Codes, Codes, Codes),
    qts: Seq<Option<Seq<u16>>>,
    dcs: Seq<Option<HuffTable>>,
    acs: Seq<Option<HuffTable>>,
    i: int,
    rest: Seq<bool>,
) -> (x: Seq<bool>)
    requires
        slots_decode(te, dcs, acs),
        qts.len() == 4 && qts[0] is Some && qts[1] is Some,
        dc_steps_ok(mcus),
        0 <= i < mcus.len(),
        st.1 == preds_after(mcus, i),
        mcu_bits(mcus, te, i) matches Ok(w) && bits_ahead(d, st.0, (w + rest).len()) == w + rest,
    ensures
        mcu_bits(mcus, te, i) == Ok::<Seq<bool>, ConvertError>(x),
        mcu_spec(d, st, frame3(), scan3(), qts, dcs, acs, 3) == Ok::<ScanState, ConvertError>(
            (view_after(d, st.0, x.len()), preds_after(mcus, i + 1), st.2 + decoded_blocks(mcus, i + 1).skip(3 * i)),
        ),
        bits_ahead(d, view_after(d, st.0, x.len()), rest.len()) == rest,
{
    let m = mcus[i]@;
    let b0 = block_bits(m[0]@, mcu_pred(mcus, i, 0), dc_table(te, 0), ac_table(te, 0), MAX_AC_CATEGORY as int);
    let b1 = block_bits(m[1]@, mcu_pred(mcus, i, 1), dc_table(te, 1), ac_table(te, 1), MAX_AC_CATEGORY as int);
    let b2 = block_bits(m[2]@, mcu_pred(mcus, i, 2), dc_table(te, 2), ac_table(te, 2), MAX_AC_CATEGORY as int);
    assert(mcu_bits(mcus, te, i) == then_bits(b0, then_bits(b1, b2)));
    let x0 = b0->Ok_0;
    let x1 = b1->Ok_0;
    let x2 = b2->Ok_0;
    let x = x0 + (x1 + x2);
    assert(x + rest =~= x0 + (x1 + (x2 + rest)));
    let k0 = clamp_category_spec(m[0]@[0] as int, 11);
    let k1 = clamp_category_spec(m[1]@[0] as int, 11);
    let k2 = clamp_category_spec(m[2]@[0] as int, 11);
    let blk0 = clamped_block(m[0]@, k0, MAX_AC_CATEGORY as int);
    let blk1 = clamped_block(m[1]@, k1, MAX_AC_CATEGORY as int);
    let blk2 = clamped_block(m[2]@, k2, MAX_AC_CATEGORY as int);
    lemma_scan_block(d, st, mcus, te, dcs, acs, i, 0, x1 + (x2 + rest));
    let sta = (view_after(d, st.0, x0.len()), st.1.update(0, k0 as i32), st.2.push(blk0));
    lemma_scan_block(d, sta, mcus, te, dcs, acs, i, 1, x2 + rest);
    let stb = (view_after(d, sta.0, x1.len()), sta.1.update(1, k1 as i32), sta.2.push(blk1));
    lemma_scan_block(d, stb, mcus, te, dcs, acs, i, 2, rest);
    let stc = (view_after(d, stb.0, x2.len()), stb.1.update(2, k2 as i32), stb.2.push(blk2));
    assert(mcu_spec(d, st, frame3(), scan3(), qts, dcs, acs, 3) == Ok::<ScanState, ConvertError>(stc)) by {
        lemma_mcu_unfold(d, st, qts, dcs, acs, 0);
        lemma_mcu_unfold(d, st, qts, dcs, acs, 1);
        lemma_mcu_unfold(d, st, qts, dcs, acs, 2);
        assert(mcu_spec(d, st, frame3(), scan3(), qts, dcs, acs, 0) == Ok::<ScanState, ConvertError>(st));
    }
    assert(stc.0 == view_after(d, st.0, x.len())) by {
        lemma_bits_ahead_split(d, st.0, x0.len(), x1.len());
        lemma_bits_ahead_split(d, st.0, (x0.len() + x1.len()) as nat, x2.len());
        assert(x.len() == x0.len() + x1.len() + x2.len());
    }
    lemma_blocks_push3(mcus, i, st.2);
    lemma_preds_next(mcus, i);
    x
}

proof fn lemma_scan_unfold(
    d: Seq<u8>,
    st: ScanState,
    qts: Seq<Option<Seq<u16>>>,
    dcs: Seq<Option<HuffTable>>,
    acs: Seq<Option<HuffTable>>,
    total: int,
    n: int,
)
    requires
        n >= 1,
    ensures
        scan_spec(d, st, frame3(), scan3(), qts, dcs, acs, 0, total, n) == match scan_spec(
            d,
            st,
            frame3(),
            scan3(),
            qts,
            dcs,
            acs,
            0,
            total,
            n - 1,
        ) {
            Err(e) => Err(e),
            Ok(st1) => mcu_spec(d, st1, frame3(), scan3(), qts, dcs, acs, 3),
        },
{
    assert(scan3().len() == 3);
    if let Ok(st1) = scan_spec(d, st, frame3(), scan3(), qts, dcs, acs, 0, total, n - 1) {
        if let Ok(st2) = mcu_spec(d, st1, frame3(), scan3(), qts, dcs, acs, 3) {
            assert(restart_spec(d, st2, n - 1, total, 0) == Ok::<ScanState, ConvertError>(st2));
        }
    }
}

/// The first `n` MCUs decode back (see [`lemma_scan_mcu`]).
#[verifier::spinoff_prover]
#[verifier::rlimit(40)]
proof fn lemma_scan_decodes(
    d: Seq<u8>,
    mcus: Seq<[[i32; 64]; 3]>,
    te: (Codes, Codes, Codes, Codes),
    qts: Seq<Option<Seq<u16>>>,
    dcs: Seq<Option<HuffTable>>,
    acs: Seq<Option<HuffTable>>,
    total: int,
    n: int,
    rest: Seq<bool>,
)
    requires
        slots_decode(te, dcs, acs),
        qts.len() == 4 && qts[0] is Some && qts[1] is Some,
        dc_steps_ok(mcus),
        0 <= n <= mcus.len(),
        scan_bits(mcus, te, n) matches Ok(b) && bits_ahead(d, (0, false, Seq::<bool>::empty()), (b + rest).len()) == b + rest,
    ensures
        scan_bits(mcus, te, n) matches Ok(b) && scan_spec(
            d,
            ((0, false, Seq::<bool>::empty()), Seq::new(3, |k: int| 0i32), Seq::<Seq<i32>>::empty()),
            frame3(),
            scan3(),
            qts,
            dcs,
            acs,
            0,
            total,
            n,
        ) == Ok::<ScanState, ConvertError>(
            (view_after(d, (0, false, Seq::<bool>::empty()), b.len()), preds_after(mcus, n), decoded_blocks(mcus, n)),
        ) && bits_ahead(d, view_after(d, (0, false, Seq::<bool>::empty()), b.len()), rest.len()) == rest,
    decreases n,
{
    let v0: ReaderView = (0, false, Seq::<bool>::empty());
    let st0: ScanState = (v0, Seq::new(3, |k: int| 0i32), Seq::<Seq<i32>>::empty());
    let b = scan_bits(mcus, te, n)->Ok_0;
    if n == 0 {
        assert(b =~= Seq::<bool>::empty());
        assert(b + rest =~= rest);
        assert(Seq::new(3, |k: int| 0i32) =~= preds_after(mcus, 0));
        assert(decoded_blocks(mcus, 0) =~= Seq::<Seq<i32>>::empty());
    } else {
        let bp = scan_bits(mcus, te, n - 1)->Ok_0;
        let x = mcu_bits(mcus, te, n - 1)->Ok_0;
        assert(b == bp + x);
        assert(b + rest =~= bp + (x + rest));
        lemma_scan_decodes(d, mcus, te, qts, dcs, acs, total, n - 1, x + rest);
        let st1 = (view_after(d, v0, bp.len()), preds_after(mcus, n - 1), decoded_blocks(mcus, n - 1));
        lemma_scan_mcu(d, st1, mcus, te, qts, dcs, acs, n - 1, rest);
        lemma_scan_unfold(d, st0, qts, dcs, acs, total, n);
        lemma_bits_ahead_split(d, v0, bp.len(), x.len());
        assert(decoded_blocks(mcus, n - 1) + decoded_blocks(mcus, n).skip(3 * (n - 1)) =~= decoded_blocks(mcus, n));
    }
}

/// What [`encode_scan`] writes, [`decode_scan_blocks`] reads back: decoding the entropy-coded
/// bytes of a scan of MCUs (coded with encode tables `te`), with decode tables of the same
/// codes in slots 0 and 1 and the frame and scan [`write_jpeg_file`] describes, gives every
/// block back, each AC coefficient limited to [`MAX_AC_CATEGORY`] bits and each DC value to 11,
/// provided each DC value lies within 2047 of the one before it in its component.
#[verifier::spinoff_prover]
#[verifier::rlimit(30)]
pub proof fn lemma_scan_round_trip(
    mcus: Seq<[[i32; 64]; 3]>,
    te: (Codes, Codes, Codes, Codes),
    qts: Seq<Option<Seq<u16>>>,
    dcs: Seq<Option<HuffTable>>,
    acs: Seq<Option<HuffTable>>,
    total: int,
)
    requires
        slots_decode(te, dcs, acs),
        qts.len() == 4 && qts[0] is Some && qts[1] is Some,
        dc_steps_ok(mcus),
        scan_bits(mcus, te, mcus.len() as int) is Ok,
    ensures
        scan_spec(
            entropy_bytes(scan_bits(mcus, te, mcus.len() as int)->Ok_0),
            ((0, false, Seq::<bool>::empty()), Seq::new(frame3().len(), |k: int| 0i32), Seq::<Seq<i32>>::empty()),
            frame3(),
            scan3(),
            qts,
            dcs,
            acs,
            0,
            total,
            mcus.len() as int,
        ) matches Ok(st) && st.2 == decoded_blocks(mcus, mcus.len() as int),
{
    let b = scan_bits(mcus, te, mcus.len() as int)->Ok_0;
    let d = entropy_bytes(b);
    lemma_entropy_bits_ahead(b);
    assert(b + Seq::<bool>::empty() =~= b);
    lemma_scan_decodes(d, mcus, te, qts, dcs, acs, total, mcus.len() as int, Seq::<bool>::empty());
}


// ─── Which count lists make prefix codes ────────────────────────────────────

/// The weight of codes of lengths `s`: each code of length `l` weighs `2^(16 - l)`.
pub open spec fn weight(s: Seq<u8>) -> int
    decreases s.len(),
{
    if s.len() == 0 {
        0
    } else {
        weight(s.drop_last()) + pow2((16 - s.last()) as nat) as int
    }
}

/// The weight of the codes a count list describes up to length `i` (Kraft's sum, scaled by
/// `2^16`).
pub open spec fn kraft(counts: Seq<u8>, i: int) -> int
    decreases i,
{
    if i <= 0 {
        0
    } else {
        kraft(counts, i - 1) + counts[i - 1] * pow2((16 - i) as nat) as int
    }
}

proof fn lemma_weight_concat(a: Seq<u8>, b: Seq<u8>)
    ensures
        weight(a + b) == weight(a) + weight(b),
    decreases b.len(),
{
    if b.len() == 0 {
        assert(a + b =~= a);
    } else {
        lemma_weight_concat(a, b.drop_last());
        assert((a + b).drop_last() =~= a + b.drop_last());
        assert((a + b).last() == b.last());
    }
}

proof fn lemma_weight_const(n: nat, l: u8)
    requires
        1 <= l <= 16,
    ensures
        weight(Seq::new(n, |j: int| l)) == n * pow2((16 - l) as nat),
    decreases n,
{
    if n > 0 {
        lemma_weight_const((n - 1) as nat, l);
        assert(Seq::new(n, |j: int| l).drop_last() =~= Seq::new((n - 1) as nat, |j: int| l));
        let p = pow2((16 - l) as nat) as int;
        assert((n - 1) * p + p == n * p) by (nonlinear_arith);
    } else {
        assert(Seq::new(0, |j: int| l) =~= Seq::<u8>::empty());
        assert(n * pow2((16 - l) as nat) == 0) by (nonlinear_arith)
            requires n == 0;
    }
}

proof fn lemma_weight_sizes(counts: Seq<u8>, i: int)
    requires
        counts.len() == 16,
        0 <= i <= 16,
    ensures
        weight(sizes_upto(counts, i)) == kraft(counts, i),
    decreases i,
{
    if i > 0 {
        lemma_weight_sizes(counts, i - 1);
        let block = Seq::new(counts[i - 1] as nat, |j: int| i as u8);
        lemma_weight_concat(sizes_upto(counts, i - 1), block);
        lemma_weight_const(counts[i - 1] as nat, i as u8);
    }
}

proof fn lemma_weight_prefix(s: Seq<u8>, k: int)
    requires
        0 <= k <= s.len(),
        forall|i: int| 0 <= i < s.len() ==> 1 <= #[trigger] s[i] <= 16,
    ensures
        weight(s.take(k)) <= weight(s),
    decreases s.len() - k,
{
    if k < s.len() {
        lemma_weight_prefix(s, k + 1);
        assert(s.take(k + 1).drop_last() =~= s.take(k));
        lemma_pow2_mono(0, (16 - s[k]) as nat);
    } else {
        assert(s.take(k) =~= s);
    }
}

/// A canonical code, shifted to 16 bits, is the weight of the codes before it.
proof fn lemma_canon_weight(sizes: Seq<u8>, k: int)
    requires
        sizes_ok(sizes),
        0 <= k < sizes.len(),
    ensures
        canon_code(sizes, k) * pow2((16 - sizes[k]) as nat) == weight(sizes.take(k)),
    decreases k,
{
    if k == 0 {
        assert(sizes.take(0) =~= Seq::<u8>::empty());
    } else {
        lemma_canon_weight(sizes, k - 1);
        assert(sizes.take(k).drop_last() =~= sizes.take(k - 1));
        let d = (sizes[k] - sizes[k - 1]) as nat;
        let e = (16 - sizes[k]) as nat;
        lemma_pow2_add(d, e);
        assert(d + e == (16 - sizes[k - 1]) as nat);
        let c1 = canon_code(sizes, k - 1) + 1;
        let pd = pow2(d) as int;
        let pe = pow2(e) as int;
        assert((c1 * pd) * pe == c1 * (pd * pe)) by (nonlinear_arith);
        assert(c1 * (pd * pe) == canon_code(sizes, k - 1) * (pd * pe) + pd * pe) by (nonlinear_arith)
            requires c1 == canon_code(sizes, k - 1) + 1;
    }
}

/// A count list whose Kraft sum is at most one describes a prefix code: every canonical code
/// fits in its length, and in 16 bits.
pub proof fn lemma_kraft_codes_fit(counts: Seq<u8>)
    requires
        counts.len() == 16,
        kraft(counts, 16) <= 0x1_0000,
    ensures
        codes_fit(counts),
        codes_in_range(counts),
{
    let sizes = huff_sizes(counts);
    lemma_sizes_upto(counts, 16);
    lemma_weight_sizes(counts, 16);
    assert forall|k: int| 0 <= k < sizes.len() implies #[trigger] canon_code(sizes, k) < pow2(sizes[k] as nat)
        && canon_code(sizes, k) <= 0xffff by {
        lemma_canon_weight(sizes, k);
        lemma_weight_prefix(sizes, k + 1);
        assert(sizes.take(k + 1).drop_last() =~= sizes.take(k));
        let e = (16 - sizes[k]) as nat;
        let pe = pow2(e) as int;
        let ps = pow2(sizes[k] as nat) as int;
        lemma_pow2_add(sizes[k] as nat, e);
        assert(pow2(16) == 0x1_0000) by {
            reveal_with_fuel(pow2, 17);
        }
        lemma_pow2_mono(0, e);
        assert(pow2(0) == 1);
        let c = canon_code(sizes, k);
        assert(c * pe + pe <= ps * pe);
        assert(c < ps) by (nonlinear_arith)
            requires c * pe + pe <= ps * pe, pe >= 1;
        lemma_pow2_mono(sizes[k] as nat, 16);
    }
}

proof fn lemma_kraft_sum(c: Seq<u8>)
    requires
        c.len() == 16,
    ensures
        kraft(c, 16) == c[0] * 32768 + c[1] * 16384 + c[2] * 8192 + c[3] * 4096 + c[4] * 2048 + c[5] * 1024 + c[6] * 512
            + c[7] * 256 + c[8] * 128 + c[9] * 64 + c[10] * 32 + c[11] * 16 + c[12] * 8 + c[13] * 4 + c[14] * 2 + c[15],
{
    assert(pow2(0) == 1 && pow2(1) == 2 && pow2(2) == 4 && pow2(3) == 8 && pow2(4) == 16 && pow2(5) == 32 && pow2(6) == 64
        && pow2(7) == 128 && pow2(8) == 256 && pow2(9) == 512 && pow2(10) == 1024 && pow2(11) == 2048 && pow2(12) == 4096
        && pow2(13) == 8192 && pow2(14) == 16384 && pow2(15) == 32768) by {
        reveal_with_fuel(pow2, 16);
    }
    assert(kraft(c, 0) == 0);
    assert(kraft(c, 1) == kraft(c, 0) + c[0] * 32768) by (nonlinear_arith)
        requires
            kraft(c, 1) == kraft(c, 0) + c[0] * (pow2(15) as int),
            pow2(15) == 32768;
    assert(kraft(c, 2) == kraft(c, 1) + c[1] * 16384) by (nonlinear_arith)
        requires
            kraft(c, 2) == kraft(c, 1) + c[1] * (pow2(14) as int),
            pow2(14) == 16384;
    assert(kraft(c, 3) == kraft(c, 2) + c[2] * 8192) by (nonlinear_arith)
        requires
            kraft(c, 3) == kraft(c, 2) + c[2] * (pow2(13) as int),
            pow2(13) == 8192;
    assert(kraft(c, 4) == kraft(c, 3) + c[3] * 4096) by (nonlinear_arith)
        requires
            kraft(c, 4) == kraft(c, 3) + c[3] * (pow2(12) as int),
            pow2(12) == 4096;
    assert(kraft(c, 5) == kraft(c, 4) + c[4] * 2048) by (nonlinear_arith)
        requires
            kraft(c, 5) == kraft(c, 4) + c[4] * (pow2(11) as int),
            pow2(11) == 2048;
    assert(kraft(c, 6) == kraft(c, 5) + c[5] * 1024) by (nonlinear_arith)
        requires
            kraft(c, 6) == kraft(c, 5) + c[5] * (pow2(10) as int),
            pow2(10) == 1024;
    assert(kraft(c, 7) == kraft(c, 6) + c[6] * 512) by (nonlinear_arith)
        requires
            kraft(c, 7) == kraft(c, 6) + c[6] * (pow2(9) as int),
            pow2(9) == 512;
    assert(kraft(c, 8) == kraft(c, 7) + c[7] * 256) by (nonlinear_arith)
        requires
            kraft(c, 8) == kraft(c, 7) + c[7] * (pow2(8) as int),
            pow2(8) == 256;
    assert(kraft(c, 9) == kraft(c, 8) + c[8] * 128) by (nonlinear_arith)
        requires
            kraft(c, 9) == kraft(c, 8) + c[8] * (pow2(7) as int),
            pow2(7) == 128;
    assert(kraft(c, 10) == kraft(c, 9) + c[9] * 64) by (nonlinear_arith)
        requires
            kraft(c, 10) == kraft(c, 9) + c[9] * (pow2(6) as int),
            pow2(6) == 64;
    assert(kraft(c, 11) == kraft(c, 10) + c[10] * 32) by (nonlinear_arith)
        requires
            kraft(c, 11) == kraft(c, 10) + c[10] * (pow2(5) as int),
            pow2(5) == 32;
    assert(kraft(c, 12) == kraft(c, 11) + c[11] * 16) by (nonlinear_arith)
        requires
            kraft(c, 12) == kraft(c, 11) + c[11] * (pow2(4) as int),
            pow2(4) == 16;
    assert(kraft(c, 13) == kraft(c, 12) + c[12] * 8) by (nonlinear_arith)
        requires
            kraft(c, 13) == kraft(c, 12) + c[12] * (pow2(3) as int),
            pow2(3) == 8;
    assert(kraft(c, 14) == kraft(c, 13) + c[13] * 4) by (nonlinear_arith)
        requires
            kraft(c, 14) == kraft(c, 13) + c[13] * (pow2(2) as int),
            pow2(2) == 4;
    assert(kraft(c, 15) == kraft(c, 14) + c[14] * 2) by (nonlinear_arith)
        requires
            kraft(c, 15) == kraft(c, 14) + c[14] * (pow2(1) as int),
            pow2(1) == 2;
    assert(kraft(c, 16) == kraft(c, 15) + c[15] * 1) by (nonlinear_arith)
        requires
            kraft(c, 16) == kraft(c, 15) + c[15] * (pow2(0) as int),
            pow2(0) == 1;
}

/// The Annex K count lists describe prefix codes.
pub proof fn lemma_std_tables_fit()
    ensures
        codes_fit(std_dc_luma_bits()@) && codes_in_range(std_dc_luma_bits()@),
        codes_fit(std_dc_chroma_bits()@) && codes_in_range(std_dc_chroma_bits()@),
        codes_fit(std_ac_luma_bits()@) && codes_in_range(std_ac_luma_bits()@),
        codes_fit(std_ac_chroma_bits()@) && codes_in_range(std_ac_chroma_bits()@),
{
    assert(std_dc_luma_bits()@ =~= seq![0u8, 1, 5, 1, 1, 1, 1, 1, 1, 0, 0, 0, 0, 0, 0, 0]);
    assert(std_dc_chroma_bits()@ =~= seq![0u8, 3, 1, 1, 1, 1, 1, 1, 1, 1, 1, 0, 0, 0, 0, 0]);
    assert(std_ac_luma_bits()@ =~= seq![0u8, 2, 1, 3, 3, 2, 4, 3, 5, 5, 4, 4, 0, 0, 1, 0x7d]);
    assert(std_ac_chroma_bits()@ =~= seq![0u8, 2, 1, 2, 4, 4, 3, 4, 7, 5, 4, 4, 0, 1, 2, 0x77]);
    lemma_kraft_sum(std_dc_luma_bits()@);
    lemma_kraft_sum(std_dc_chroma_bits()@);
    lemma_kraft_sum(std_ac_luma_bits()@);
    lemma_kraft_sum(std_ac_chroma_bits()@);
    lemma_kraft_codes_fit(std_dc_luma_bits()@);
    lemma_kraft_codes_fit(std_dc_chroma_bits()@);
    lemma_kraft_codes_fit(std_ac_luma_bits()@);
    lemma_kraft_codes_fit(std_ac_chroma_bits()@);
}

/// Decode tables built from the Annex K tables decode what the Annex K encode tables code, so
/// [`lemma_scan_round_trip`] holds of them.
pub proof fn lemma_std_slots_decode(dcs: Seq<Option<HuffTable>>, acs: Seq<Option<HuffTable>>)
    requires
        dcs.len() == 4 && acs.len() == 4,
        dcs[0] matches Some(t) && table_of(t, std_dc_luma_bits()@, std_dc_values()@),
        dcs[1] matches Some(t) && table_of(t, std_dc_chroma_bits()@, std_dc_values()@),
        acs[0] matches Some(t) && table_of(t, std_ac_luma_bits()@, std_ac_luma_values()@),
        acs[1] matches Some(t) && table_of(t, std_ac_chroma_bits()@, std_ac_chroma_values()@),
    ensures
        slots_decode(std_scan_tables(), dcs, acs),
{
    lemma_std_tables_fit();
    lemma_std_table_sizes();
    lemma_sizes_len(std_dc_luma_bits()@, 16);
    lemma_sizes_len(std_dc_chroma_bits()@, 16);
    lemma_sizes_len(std_ac_luma_bits()@, 16);
    lemma_sizes_len(std_ac_chroma_bits()@, 16);
    let te = std_scan_tables();
    assert(tables_agree(std_dc_luma_bits()@, std_dc_values()@, dcs[0]->0, te.0));
    assert(tables_agree(std_ac_luma_bits()@, std_ac_luma_values()@, acs[0]->0, te.1));
    assert(tables_agree(std_dc_chroma_bits()@, std_dc_values()@, dcs[1]->0, te.2));
    assert(tables_agree(std_ac_chroma_bits()@, std_ac_chroma_values()@, acs[1]->0, te.3));
}

/// `plane` (rows of `w` samples) with the 8x8 block `block` written at column `ox`, row `oy`.
pub open spec fn placed(plane: Seq<u8>, w: int, ox: int, oy: int, block: Seq<u8>, k: int) -> Seq<u8> {
    Seq::new(
        plane.len(),
        |i: int|
            {
                let y = i / w - oy;
                let x = i % w - ox;
                if 0 <= y < 8 && 0 <= x < 8 && y * 8 + x < k {
                    block[y * 8 + x]
                } else {
                    plane[i]
                }
            },
    )
}

/// Writes the 8x8 block of samples `block` into `plane`, a plane `plane_w` samples wide, with its
/// top-left corner at column `origin_x`, row `origin_y`.
pub fn place_block(plane: &mut Vec<u8>, plane_w: usize, origin_x: usize, origin_y: usize, block: &[u8; 64])
    requires
        origin_x + 8 <= plane_w,
        (origin_y + 8) * plane_w <= old(plane)@.len(),
    ensures
        final(plane)@ == placed(old(plane)@, plane_w as int, origin_x as int, origin_y as int, block@, 64),
{
    let ghost p0 = plane@;
    let total = plane.len();
    let ghost w = plane_w as int;
    let ghost ox = origin_x as int;
    let ghost oy = origin_y as int;
    let mut row: usize = 0;
    proof {
        assert(plane@ =~= placed(p0, w, ox, oy, block@, 0));
    }
    while row < 8
        invariant
            row <= 8,
            w == plane_w,
            ox == origin_x,
            oy == origin_y,
            origin_x + 8 <= plane_w,
            (origin_y + 8) * plane_w <= p0.len(),
            total == p0.len(),
            plane@ == placed(p0, w, ox, oy, block@, row * 8),
        decreases 8 - row,
    {
        let mut col: usize = 0;
        while col < 8
            invariant
                row < 8,
                col <= 8,
                w == plane_w,
                ox == origin_x,
                oy == origin_y,
                origin_x + 8 <= plane_w,
                (origin_y + 8) * plane_w <= p0.len(),
                total == p0.len(),
                plane@ == placed(p0, w, ox, oy, block@, row * 8 + col),
            decreases 8 - col,
        {
            let ghost k = row * 8 + col;
            proof {
                assert((origin_y + row) * plane_w + origin_x + col < (origin_y + 8) * plane_w) by (nonlinear_arith)
                    requires row < 8, origin_x + col < plane_w;
                assert(origin_y + row <= (origin_y + row) * plane_w) by (nonlinear_arith)
                    requires plane_w >= 1;
            }
            let dst = (origin_y + row) * plane_w + origin_x + col;
            let ghost before = plane@;
            plane.set(dst, block[row * 8 + col]);
            proof {
                vstd::arithmetic::div_mod::lemma_fundamental_div_mod_converse(dst as int, w, oy + row, ox + col);
                assert forall|i: int| 0 <= i < p0.len() implies #[trigger] plane@[i] == placed(p0, w, ox, oy, block@, k + 1)[i] by {
                    if i != dst {
                        vstd::arithmetic::div_mod::lemma_fundamental_div_mod(i, w);
                        let y = i / w - oy;
                        let x = i % w - ox;
                        if 0 <= y < 8 && 0 <= x < 8 && y * 8 + x == k {
                            assert(y == row && x == col) by (nonlinear_arith)
                                requires y * 8 + x == row * 8 + col, 0 <= x < 8, 0 <= col < 8, y >= 0, row >= 0;
                            let q = i / w;
                            let m = i % w;
                            assert(i == dst) by (nonlinear_arith)
                                requires i == w * q + m, q == oy + row, m == ox + col, dst == (oy + row) * w + ox + col;
                        }
                    }
                }
                assert(plane@ =~= placed(p0, w, ox, oy, block@, k + 1));
            }
            col = col + 1;
        }
        row = row + 1;
    }
}

} // verus!
