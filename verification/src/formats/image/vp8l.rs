//! VP8L (WebP lossless) bitstream codec: canonical prefix codes read least significant bit first,
//! backward references with VP8L's distance map, the color cache, and "meta prefix codes" that
//! let regions of an image use different code groups. The pixel transforms live in
//! [`super::webp`].
//!
//! A VP8L prefix code is decoded exactly as a DEFLATE Huffman code is: bits come in stream order
//! and the first bit read is the most significant bit of the canonical code. The one difference
//! is a code with a single used symbol, which VP8L decodes with no bits at all.

use vstd::prelude::*;

use super::zlib::{bits_le, huff_decode, over_subscribed, Huffman};
pub use super::zlib::BitReader;
use crate::ConvertOptions;

verus! {

/// How many pixels pass between two cancellation checks and progress reports.
pub const PROGRESS_GRANULARITY: usize = 4096;

/// What stopped a VP8L decode partway through.
#[derive(Debug, Clone, Copy, PartialEq, Eq, Structural)]
pub enum Stop {
    /// The input does not parse.
    Malformed,
    /// The caller cancelled.
    Cancelled,
}

// ─── Prefix codes ──────────────────────────────────────────────────────────

/// How many symbols of `l` have a nonzero code length.
pub open spec fn nz(l: Seq<u8>) -> nat
    decreases l.len(),
{
    if l.len() == 0 {
        0
    } else {
        nz(l.drop_last()) + if l.last() > 0 { 1nat } else { 0nat }
    }
}

/// The first symbol at or after `i` with a nonzero code length, or `l.len()`.
pub open spec fn first_nz(l: Seq<u8>, i: int) -> int
    decreases l.len() - i,
{
    if i < 0 || i >= l.len() {
        l.len() as int
    } else if l[i] > 0 {
        i
    } else {
        first_nz(l, i + 1)
    }
}

/// Whether a table can be built from the code lengths `l`: at most one used symbol, or lengths of
/// at most 15 bits that are not over-subscribed.
pub open spec fn table_ok(l: Seq<u8>) -> bool {
    nz(l) <= 1 || ((forall|i: int| 0 <= i < l.len() ==> l[i] <= 15) && !over_subscribed(l))
}

/// Decoding one symbol at bit `p` of `d` with the code of lengths `l`: the symbol and the
/// position after it. No used symbol decodes nothing; a single used symbol decodes with no bits.
pub open spec fn table_decode(l: Seq<u8>, d: Seq<u8>, p: int) -> Option<(int, int)> {
    if nz(l) == 0 {
        None
    } else if nz(l) == 1 {
        Some((first_nz(l, 0), p))
    } else {
        huff_decode(l, d, p)
    }
}

enum TableKind {
    Empty,
    Single(u16),
    Multi(Huffman),
}

/// A prefix-code decode table.
pub struct HuffmanTable {
    kind: TableKind,
    lengths: Ghost<Seq<u8>>,
}

impl HuffmanTable {
    /// The code lengths this table was built from.
    pub closed spec fn lens(&self) -> Seq<u8> {
        self.lengths@
    }

    /// The table decodes the code of its lengths.
    pub closed spec fn wf(&self) -> bool {
        match self.kind {
            TableKind::Empty => nz(self.lengths@) == 0,
            TableKind::Single(s) => nz(self.lengths@) == 1 && s == first_nz(self.lengths@, 0) as u16,
            TableKind::Multi(h) => nz(self.lengths@) >= 2 && h.wf() && h.lens() == self.lengths@,
        }
    }
}

proof fn lemma_nz_take(l: Seq<u8>, i: int)
    requires
        0 <= i < l.len(),
    ensures
        nz(l.take(i + 1)) == nz(l.take(i)) + if l[i] > 0 { 1nat } else { 0nat },
{
    assert(l.take(i + 1).drop_last() =~= l.take(i));
}

proof fn lemma_first_nz_bound(l: Seq<u8>, i: int)
    requires
        0 <= i,
    ensures
        i <= first_nz(l, i) <= l.len() || (i > l.len() && first_nz(l, i) == l.len()),
        first_nz(l, i) < l.len() ==> l[first_nz(l, i)] > 0,
    decreases l.len() - i,
{
    if i < l.len() && l[i] == 0 {
        lemma_first_nz_bound(l, i + 1);
    }
}

/// Builds the decode table for the code lengths `code_lengths` (index = symbol). `None` exactly
/// when two or more symbols are used and their lengths exceed 15 bits or are over-subscribed; an
/// incomplete code is accepted.
pub fn build_huffman(code_lengths: &[u8]) -> (r: Option<HuffmanTable>)
    ensures
        r is Some <==> table_ok(code_lengths@),
        r matches Some(t) ==> t.wf() && t.lens() == code_lengths@,
{
    let ghost l = code_lengths@;
    let n = code_lengths.len();
    let mut count: usize = 0;
    let mut first: usize = n;
    let mut all_small = true;
    let mut i: usize = 0;
    while i < n
        invariant
            n == l.len(),
            l == code_lengths@,
            i <= n,
            count == nz(l.take(i as int)),
            count <= i,
            count == 0 ==> forall|k: int| 0 <= k < i ==> l[k] == 0,
            count > 0 ==> first == first_nz(l, 0) && first < i,
            all_small == (forall|k: int| 0 <= k < i ==> l[k] <= 15),
        decreases n - i,
    {
        proof {
            lemma_nz_take(l, i as int);
        }
        if code_lengths[i] > 0 {
            if count == 0 {
                first = i;
                proof {
                    lemma_first_nz_at(l, 0, i as int);
                }
            }
            count = count + 1;
        }
        if code_lengths[i] > 15 {
            all_small = false;
        }
        i = i + 1;
    }
    proof {
        assert(l.take(n as int) =~= l);
    }
    if count == 0 {
        return Some(HuffmanTable { kind: TableKind::Empty, lengths: Ghost(l) });
    }
    if count == 1 {
        return Some(HuffmanTable { kind: TableKind::Single(first as u16), lengths: Ghost(l) });
    }
    if !all_small {
        return None;
    }
    match super::zlib::construct(code_lengths) {
        Some(h) => Some(HuffmanTable { kind: TableKind::Multi(h), lengths: Ghost(l) }),
        None => None,
    }
}

/// If every length before `j` (from `i` on) is zero and `l[j]` is not, `j` is the first used one.
pub proof fn lemma_first_nz_at(l: Seq<u8>, i: int, j: int)
    requires
        0 <= i <= j < l.len(),
        l[j] > 0,
        forall|k: int| i <= k < j ==> l[k] == 0,
    ensures
        first_nz(l, i) == j,
    decreases j - i,
{
    if i < j {
        lemma_first_nz_at(l, i + 1, j);
    }
}

/// Decodes one symbol with `table`.
pub fn decode_symbol(reader: &mut BitReader, table: &HuffmanTable) -> (r: Option<u16>)
    requires
        old(reader).wf(),
        table.wf(),
    ensures
        final(reader).wf(),
        final(reader).data() == old(reader).data(),
        match table_decode(table.lens(), old(reader).data(), old(reader).pos()) {
            Some((s, q)) => r == Some(s as u16) && final(reader).pos() == q,
            None => r is None,
        },
{
    match &table.kind {
        TableKind::Empty => None,
        TableKind::Single(s) => Some(*s),
        TableKind::Multi(h) => match super::zlib::decode(reader, h) {
            Some(s) => Some(s as u16),
            None => None,
        },
    }
}

// ─── Values, the color cache ────────────────────────────────────────────────

/// Whether `n` bits are left at bit `p` of `d`.
pub open spec fn bits_ok(d: Seq<u8>, p: int, n: int) -> bool {
    0 <= p && 0 <= n && p + n <= d.len() * 8
}

/// The value of a length or distance prefix code `code` (0..=39), its extra bits read at `p`:
/// codes 0..4 are 1..4; after that every pair of codes doubles the range.
pub open spec fn prefix_value(d: Seq<u8>, p: int, code: int) -> Option<(int, int)> {
    if code < 4 {
        Some((code + 1, p))
    } else {
        let eb = (code - 2) / 2;
        if !bits_ok(d, p, eb) {
            None
        } else {
            Some(((2 + code % 2) * super::zlib::pow2(eb as nat) + bits_le(d, p, eb as nat) + 1, p + eb))
        }
    }
}

/// Decodes a length or distance prefix code (0..=39) into its value.
pub fn prefix_decode_value(reader: &mut BitReader, prefix_code: u32) -> (r: Result<u32, Stop>)
    requires
        old(reader).wf(),
        prefix_code <= 39,
    ensures
        final(reader).wf(),
        final(reader).data() == old(reader).data(),
        match prefix_value(old(reader).data(), old(reader).pos(), prefix_code as int) {
            Some((v, q)) => r == Ok::<u32, Stop>(v as u32) && final(reader).pos() == q && 1 <= v <= 0x10_0000,
            None => r == Err::<u32, Stop>(Stop::Malformed),
        },
{
    if prefix_code < 4 {
        return Ok(prefix_code + 1);
    }
    let extra_bits = (prefix_code - 2) / 2;
    let mut offset: u32 = 2 + prefix_code % 2;
    let mut k: u32 = 0;
    assert(super::zlib::pow2(0) == 1);
    while k < extra_bits
        invariant
            k <= extra_bits <= 18,
            offset == (2 + prefix_code % 2) * super::zlib::pow2(k as nat),
            offset <= 3 * 0x4_0000,
        decreases extra_bits - k,
    {
        proof {
            super::zlib::lemma_pow2_mono((k + 1) as nat, 18);
            assert(super::zlib::pow2(18) == 0x4_0000) by {
                reveal_with_fuel(super::zlib::pow2, 19);
            }
            assert(super::zlib::pow2((k + 1) as nat) == 2 * super::zlib::pow2(k as nat));
            let c = 2 + prefix_code % 2;
            let w = super::zlib::pow2((k + 1) as nat);
            assert(c * w <= 3 * 0x4_0000) by (nonlinear_arith)
                requires c <= 3, w <= 0x4_0000;
            assert(offset * 2 == c * w) by (nonlinear_arith)
                requires offset == c * super::zlib::pow2(k as nat), w == 2 * super::zlib::pow2(k as nat);
        }
        offset = offset * 2;
        k = k + 1;
    }
    let ghost d = reader.data();
    let ghost p = reader.pos();
    proof {
        reader.lemma_pos_range();
    }
    match reader.read_bits(extra_bits) {
        Some(extra) => {
            proof {
                super::zlib::lemma_bits_le_bound(d, p, extra_bits as nat);
                super::zlib::lemma_pow2_mono(extra_bits as nat, 18);
                assert(super::zlib::pow2(18) == 0x4_0000) by {
                    reveal_with_fuel(super::zlib::pow2, 19);
                }
            }
            Ok(offset + extra + 1)
        },
        None => Err(Stop::Malformed),
    }
}

/// The color-cache slot of a pixel for a cache of `2^bits` entries.
pub open spec fn cache_index(argb: u32, bits: u32) -> int {
    let m = ((argb * 0x1e35_a7bd) % 0x1_0000_0000) as u64;
    (m >> ((32 - bits) as u64)) as int
}

/// The number of entries of a `bits`-bit color cache.
pub open spec fn cache_len(bits: u32) -> int {
    (1u64 << (bits as u64)) as int
}

/// The color-cache slot of a pixel for a cache of `2^code_bits` entries.
pub fn color_cache_index(argb: u32, code_bits: u32) -> (r: usize)
    requires
        1 <= code_bits <= 11,
    ensures
        r == cache_index(argb, code_bits),
        r < cache_len(code_bits),
{
    let m: u64 = ((argb as u64) * 0x1e35_a7bd) % 0x1_0000_0000;
    let s: u64 = (32 - code_bits) as u64;
    let b: u64 = code_bits as u64;
    let r = m >> s;
    assert(r < (1u64 << b)) by (bit_vector)
        requires
            m < 0x1_0000_0000u64,
            1 <= b <= 11,
            s == 32 - b,
            r == m >> s,
    ;
    r as usize
}

// ─── Code lengths ──────────────────────────────────────────────────────────

/// `n` zero code lengths.
pub open spec fn zeros(n: int) -> Seq<u8> {
    Seq::new(n as nat, |i: int| 0u8)
}

/// The order in which the code-length code's own lengths are sent.
pub open spec fn cl_order() -> Seq<int> {
    seq![17, 18, 0, 1, 2, 3, 4, 5, 16, 6, 7, 8, 9, 10, 11, 12, 13, 14, 15]
}

/// The code-length code's lengths after the first `k` 3-bit values read from bit `q`.
pub open spec fn cl_lengths(d: Seq<u8>, q: int, k: int) -> Seq<u8>
    decreases k,
{
    if k <= 0 {
        zeros(19)
    } else {
        cl_lengths(d, q, k - 1).update(cl_order()[k - 1], bits_le(d, q + 3 * (k - 1), 3) as u8)
    }
}

/// `l` with `n` entries from `start` on set to `v`.
pub open spec fn fill(l: Seq<u8>, start: int, n: int, v: u8) -> Seq<u8> {
    Seq::new(l.len(), |i: int| if start <= i < start + n { v } else { l[i] })
}

/// A "simple" code (one or two used symbols of length 1), read from bit `p` after the flag bit.
pub open spec fn simple_lengths(d: Seq<u8>, p: int, alphabet: int) -> Option<(int, Seq<u8>)> {
    if !bits_ok(d, p, 2) {
        None
    } else {
        let two = bits_le(d, p, 1) == 1;
        let w = 1 + 7 * bits_le(d, p + 1, 1);
        if !bits_ok(d, p + 2, w) {
            None
        } else {
            let s0 = bits_le(d, p + 2, w as nat);
            let q = p + 2 + w;
            if s0 >= alphabet {
                None
            } else if !two {
                Some((q, zeros(alphabet).update(s0, 1u8)))
            } else if !bits_ok(d, q, 8) {
                None
            } else {
                let s1 = bits_le(d, q, 8);
                if s1 >= alphabet {
                    None
                } else {
                    Some((q + 8, zeros(alphabet).update(s0, 1u8).update(s1, 1u8)))
                }
            }
        }
    }
}

/// The length-by-length part of a "normal" code: from bit `p`, with the code-length code `cl`,
/// filling `l` from `symbol` on, the last nonzero length `prev`, and at most `budget` more codes.
pub open spec fn lengths_loop(d: Seq<u8>, p: int, cl: Seq<u8>, alphabet: int, symbol: int, prev: u8, budget: int, l: Seq<u8>) -> Option<
    (int, Seq<u8>),
>
    decreases budget,
{
    if symbol >= alphabet || budget <= 0 {
        Some((p, l))
    } else {
        match table_decode(cl, d, p) {
            None => None,
            Some((c, q)) => if c <= 15 {
                lengths_loop(d, q, cl, alphabet, symbol + 1, if c != 0 { c as u8 } else { prev }, budget - 1, l.update(symbol, c as u8))
            } else if c == 16 {
                if !bits_ok(d, q, 2) {
                    None
                } else {
                    let rep = 3 + bits_le(d, q, 2);
                    let n = if rep < alphabet - symbol { rep } else { alphabet - symbol };
                    lengths_loop(d, q + 2, cl, alphabet, symbol + n, prev, budget - 1, fill(l, symbol, n, prev))
                }
            } else if c == 17 {
                if !bits_ok(d, q, 3) {
                    None
                } else {
                    lengths_loop(d, q + 3, cl, alphabet, symbol + 3 + bits_le(d, q, 3), prev, budget - 1, l)
                }
            } else if c == 18 {
                if !bits_ok(d, q, 7) {
                    None
                } else {
                    lengths_loop(d, q + 7, cl, alphabet, symbol + 11 + bits_le(d, q, 7), prev, budget - 1, l)
                }
            } else {
                None
            },
        }
    }
}

/// Reading one prefix code's lengths for an alphabet of `alphabet` symbols at bit `p`: the
/// position after them and the lengths, or `None` if they do not parse.
pub open spec fn code_lengths_spec(d: Seq<u8>, p: int, alphabet: int) -> Option<(int, Seq<u8>)> {
    if !bits_ok(d, p, 1) {
        None
    } else if bits_le(d, p, 1) == 1 {
        simple_lengths(d, p + 1, alphabet)
    } else if !bits_ok(d, p + 1, 4) {
        None
    } else {
        let num = 4 + bits_le(d, p + 1, 4);
        let q = p + 5;
        if !bits_ok(d, q, 3 * num) {
            None
        } else {
            let cl = cl_lengths(d, q, num);
            let q2 = q + 3 * num;
            if !table_ok(cl) || !bits_ok(d, q2, 1) {
                None
            } else if bits_le(d, q2, 1) == 1 {
                if !bits_ok(d, q2 + 1, 3) {
                    None
                } else {
                    let nb = 2 + 2 * bits_le(d, q2 + 1, 3);
                    if !bits_ok(d, q2 + 4, nb) {
                        None
                    } else {
                        lengths_loop(d, q2 + 4 + nb, cl, alphabet, 0, 8, 2 + bits_le(d, q2 + 4, nb as nat), zeros(alphabet))
                    }
                }
            } else {
                lengths_loop(d, q2 + 1, cl, alphabet, 0, 8, (alphabet as u32) as int, zeros(alphabet))
            }
        }
    }
}

proof fn lemma_bits_small(d: Seq<u8>, p: int, n: nat, bound: int)
    requires
        0 <= p,
        p + n <= d.len() * 8,
        n <= 16,
        bound == super::zlib::pow2(n),
    ensures
        0 <= bits_le(d, p, n) < bound,
{
    super::zlib::lemma_bits_le_bound(d, p, n);
}

/// Reads `n` bits (at most 24) as `Stop::Malformed` when they are not there.
fn read(reader: &mut BitReader, n: u32) -> (r: Result<u32, Stop>)
    requires
        old(reader).wf(),
        n <= 24,
    ensures
        final(reader).wf(),
        final(reader).data() == old(reader).data(),
        bits_ok(old(reader).data(), old(reader).pos(), n as int) ==> r == Ok::<u32, Stop>(
            bits_le(old(reader).data(), old(reader).pos(), n as nat) as u32,
        ) && final(reader).pos() == old(reader).pos() + n,
        !bits_ok(old(reader).data(), old(reader).pos(), n as int) ==> r == Err::<u32, Stop>(Stop::Malformed),
{
    proof {
        reader.lemma_pos_range();
    }
    match reader.read_bits(n) {
        Some(v) => Ok(v),
        None => Err(Stop::Malformed),
    }
}

/// Where the code-length code's `k`-th length is stored.
fn cl_slot(k: usize) -> (r: usize)
    requires
        k < 19,
    ensures
        r == cl_order()[k as int],
        r < 19,
{
    let order: [usize; 19] = [17, 18, 0, 1, 2, 3, 4, 5, 16, 6, 7, 8, 9, 10, 11, 12, 13, 14, 15];
    proof {
        assert(order@ =~= seq![17usize, 18, 0, 1, 2, 3, 4, 5, 16, 6, 7, 8, 9, 10, 11, 12, 13, 14, 15]);
    }
    order[k]
}

/// `n` zero bytes.
fn zero_vec(n: usize) -> (r: Vec<u8>)
    ensures
        r@ == zeros(n as int),
{
    let mut v: Vec<u8> = Vec::new();
    let mut i: usize = 0;
    while i < n
        invariant
            i <= n,
            v@ == zeros(i as int),
        decreases n - i,
    {
        v.push(0);
        proof {
            assert(v@ =~= zeros(i + 1));
        }
        i = i + 1;
    }
    v
}

/// Reads a "simple" code, after its flag bit.
fn read_simple_lengths(reader: &mut BitReader, alphabet_size: usize) -> (r: Result<Vec<u8>, Stop>)
    requires
        old(reader).wf(),
    ensures
        final(reader).wf(),
        final(reader).data() == old(reader).data(),
        match simple_lengths(old(reader).data(), old(reader).pos(), alphabet_size as int) {
            Some((q, l)) => r matches Ok(v) && v@ == l && final(reader).pos() == q,
            None => r == Err::<Vec<u8>, Stop>(Stop::Malformed),
        },
        r matches Ok(v) ==> v@.len() == alphabet_size,
{
    let ghost d = reader.data();
    let ghost p = reader.pos();
    proof {
        reader.lemma_pos_range();
    }
    let two = match read(reader, 1) {
        Ok(v) => v,
        Err(e) => {
            return Err(e);
        },
    };
    let first_8 = match read(reader, 1) {
        Ok(v) => v,
        Err(e) => {
            return Err(e);
        },
    };
    proof {
        assert(super::zlib::pow2(1) == 2 && super::zlib::pow2(8) == 256) by {
            reveal_with_fuel(super::zlib::pow2, 9);
        }
        lemma_bits_small(d, p, 1, 2);
        lemma_bits_small(d, p + 1, 1, 2);
        if bits_ok(d, p + 2, 1 + 7 * first_8) {
            if first_8 == 0 {
                lemma_bits_small(d, p + 2, 1, 2);
            } else {
                lemma_bits_small(d, p + 2, 8, 256);
            }
        }
        if bits_ok(d, p + 2 + 1 + 7 * first_8, 8) {
            lemma_bits_small(d, p + 2 + 1 + 7 * first_8, 8, 256);
        }
    }
    let width = 1 + 7 * first_8;
    let s0 = match read(reader, width) {
        Ok(v) => v,
        Err(e) => {
            return Err(e);
        },
    };
    if s0 as usize >= alphabet_size {
        return Err(Stop::Malformed);
    }
    let mut lengths = zero_vec(alphabet_size);
    lengths.set(s0 as usize, 1);
    if two == 1 {
        let s1 = match read(reader, 8) {
            Ok(v) => v,
            Err(e) => {
                return Err(e);
            },
        };
        if s1 as usize >= alphabet_size {
            return Err(Stop::Malformed);
        }
        lengths.set(s1 as usize, 1);
    }
    Ok(lengths)
}

/// Reads code lengths one code at a time with the code-length code `cl`, for at most `budget`
/// codes.
fn read_lengths_loop(reader: &mut BitReader, cl: &HuffmanTable, alphabet_size: usize, budget: u32) -> (r: Result<
    Vec<u8>,
    Stop,
>)
    requires
        old(reader).wf(),
        cl.wf(),
        cl.lens().len() == 19,
    ensures
        final(reader).wf(),
        final(reader).data() == old(reader).data(),
        match lengths_loop(old(reader).data(), old(reader).pos(), cl.lens(), alphabet_size as int, 0, 8, budget as int, zeros(alphabet_size as int)) {
            Some((q, l)) => r matches Ok(v) && v@ == l && final(reader).pos() == q,
            None => r == Err::<Vec<u8>, Stop>(Stop::Malformed),
        },
        r matches Ok(v) ==> v@.len() == alphabet_size,
{
    let ghost d = reader.data();
    let ghost target = lengths_loop(d, reader.pos(), cl.lens(), alphabet_size as int, 0, 8, budget as int, zeros(alphabet_size as int));
    let mut lengths = zero_vec(alphabet_size);
    let mut symbol: usize = 0;
    let mut prev: u8 = 8;
    let mut left: u32 = budget;
    loop
        invariant
            reader.wf(),
            reader.data() == d,
            d == old(reader).data(),
            target == lengths_loop(d, old(reader).pos(), cl.lens(), alphabet_size as int, 0, 8, budget as int, zeros(alphabet_size as int)),
            cl.wf(),
            cl.lens().len() == 19,
            symbol <= alphabet_size,
            lengths@.len() == alphabet_size,
            lengths_loop(d, reader.pos(), cl.lens(), alphabet_size as int, symbol as int, prev, left as int, lengths@) == target,
        decreases left,
    {
        if symbol >= alphabet_size || left == 0 {
            return Ok(lengths);
        }
        left = left - 1;
        let ghost p = reader.pos();
        proof {
            reader.lemma_pos_range();
            assert(super::zlib::pow2(2) == 4 && super::zlib::pow2(3) == 8 && super::zlib::pow2(7) == 128) by {
                reveal_with_fuel(super::zlib::pow2, 8);
            }
            if let Some((c, q)) = table_decode(cl.lens(), d, p) {
                lemma_table_decode_range(cl.lens(), d, p);
                if bits_ok(d, q, 2) {
                    lemma_bits_small(d, q, 2, 4);
                }
                if bits_ok(d, q, 3) {
                    lemma_bits_small(d, q, 3, 8);
                }
                if bits_ok(d, q, 7) {
                    lemma_bits_small(d, q, 7, 128);
                }
            }
        }
        let c = match decode_symbol(reader, cl) {
            Some(c) => c,
            None => {
                return Err(Stop::Malformed);
            },
        };
        if c <= 15 {
            lengths.set(symbol, c as u8);
            if c != 0 {
                prev = c as u8;
            }
            symbol = symbol + 1;
        } else if c == 16 {
            let rep = match read(reader, 2) {
                Ok(v) => v,
                Err(e) => {
                    return Err(e);
                },
            };
            let rep = 3 + rep as usize;
            let n = if rep < alphabet_size - symbol { rep } else { alphabet_size - symbol };
            let ghost before = lengths@;
            let mut j: usize = 0;
            while j < n
                invariant
                    j <= n,
                    symbol + n <= alphabet_size,
                    lengths@.len() == alphabet_size,
                    before.len() == alphabet_size,
                    lengths@ == fill(before, symbol as int, j as int, prev),
                decreases n - j,
            {
                lengths.set(symbol + j, prev);
                proof {
                    assert(lengths@ =~= fill(before, symbol as int, (j + 1) as int, prev));
                }
                j = j + 1;
            }
            symbol = symbol + n;
        } else if c == 17 {
            let rep = match read(reader, 3) {
                Ok(v) => v,
                Err(e) => {
                    return Err(e);
                },
            };
            let adv = 3 + rep as usize;
            proof {
                let ls = lengths_loop(d, reader.pos(), cl.lens(), alphabet_size as int, symbol + adv, prev, left as int, lengths@);
                let la = lengths_loop(d, reader.pos(), cl.lens(), alphabet_size as int, alphabet_size as int, prev, left as int, lengths@);
                if adv >= alphabet_size - symbol {
                    assert(ls == la);
                }
            }
            symbol = if adv >= alphabet_size - symbol { alphabet_size } else { symbol + adv };
        } else if c == 18 {
            let rep = match read(reader, 7) {
                Ok(v) => v,
                Err(e) => {
                    return Err(e);
                },
            };
            let adv = 11 + rep as usize;
            proof {
                let ls = lengths_loop(d, reader.pos(), cl.lens(), alphabet_size as int, symbol + adv, prev, left as int, lengths@);
                let la = lengths_loop(d, reader.pos(), cl.lens(), alphabet_size as int, alphabet_size as int, prev, left as int, lengths@);
                if adv >= alphabet_size - symbol {
                    assert(ls == la);
                }
            }
            symbol = if adv >= alphabet_size - symbol { alphabet_size } else { symbol + adv };
        } else {
            return Err(Stop::Malformed);
        }
    }
}

/// A decoded symbol is one of the code's symbols.
proof fn lemma_table_decode_range(l: Seq<u8>, d: Seq<u8>, p: int)
    ensures
        table_decode(l, d, p) matches Some((s, q)) ==> 0 <= s < l.len() && p <= q,
{
    if nz(l) == 1 {
        lemma_nz_first(l);
    } else if nz(l) >= 2 {
        super::zlib::lemma_huff_decode_advances(l, d, p);
    }
}

/// A code with a used symbol has a first used symbol.
proof fn lemma_nz_first(l: Seq<u8>)
    requires
        nz(l) >= 1,
    ensures
        0 <= first_nz(l, 0) < l.len(),
    decreases l.len(),
{
    lemma_first_nz_bound(l, 0);
    if first_nz(l, 0) >= l.len() {
        lemma_nz_zero(l);
    }
}

/// With no nonzero entry, no symbol is used.
proof fn lemma_nz_zero(l: Seq<u8>)
    requires
        first_nz(l, 0) >= l.len(),
    ensures
        nz(l) == 0,
{
    assert forall|i: int| 0 <= i < l.len() implies l[i] == 0 by {
        lemma_first_nz_zero_prefix(l, 0, i);
    }
    lemma_nz_all_zero(l);
}

proof fn lemma_first_nz_zero_prefix(l: Seq<u8>, i: int, j: int)
    requires
        0 <= i <= j < l.len(),
        first_nz(l, i) >= l.len(),
    ensures
        l[j] == 0,
    decreases j - i,
{
    if i < j {
        lemma_first_nz_zero_prefix(l, i + 1, j);
    }
}

proof fn lemma_nz_all_zero(l: Seq<u8>)
    requires
        forall|i: int| 0 <= i < l.len() ==> l[i] == 0,
    ensures
        nz(l) == 0,
    decreases l.len(),
{
    if l.len() > 0 {
        lemma_nz_all_zero(l.drop_last());
    }
}

/// Reads one prefix code's lengths for an alphabet of `alphabet_size` symbols.
pub fn read_huffman_code_lengths(reader: &mut BitReader, alphabet_size: usize) -> (r: Result<Vec<u8>, Stop>)
    requires
        old(reader).wf(),
    ensures
        final(reader).wf(),
        final(reader).data() == old(reader).data(),
        match code_lengths_spec(old(reader).data(), old(reader).pos(), alphabet_size as int) {
            Some((q, l)) => r matches Ok(v) && v@ == l && final(reader).pos() == q,
            None => r == Err::<Vec<u8>, Stop>(Stop::Malformed),
        },
        r matches Ok(v) ==> v@.len() == alphabet_size,
{
    let ghost d = reader.data();
    let ghost p = reader.pos();
    proof {
        reader.lemma_pos_range();
        assert(super::zlib::pow2(1) == 2 && super::zlib::pow2(3) == 8 && super::zlib::pow2(4) == 16) by {
            reveal_with_fuel(super::zlib::pow2, 5);
        }
        if bits_ok(d, p, 1) {
            lemma_bits_small(d, p, 1, 2);
        }
        if bits_ok(d, p + 1, 4) {
            lemma_bits_small(d, p + 1, 4, 16);
        }
    }
    let simple = match read(reader, 1) {
        Ok(v) => v,
        Err(e) => {
            return Err(e);
        },
    };
    if simple == 1 {
        return read_simple_lengths(reader, alphabet_size);
    }
    let num = match read(reader, 4) {
        Ok(v) => v,
        Err(e) => {
            return Err(e);
        },
    };
    let num = (4 + num) as usize;
    let ghost q = p + 5;
    let mut cl = zero_vec(19);
    let mut k: usize = 0;
    while k < num
        invariant
            k <= num <= 19,
            d == old(reader).data(),
            p == old(reader).pos(),
            bits_ok(d, p, 1),
            bits_le(d, p, 1) != 1,
            bits_ok(d, p + 1, 4),
            q == p + 5,
            num == 4 + bits_le(d, p + 1, 4),
            reader.wf(),
            reader.data() == d,
            reader.pos() == q + 3 * k,
            cl@ == cl_lengths(d, q, k as int),
            cl@.len() == 19,
        decreases num - k,
    {
        let ghost pk = reader.pos();
        let v = match read(reader, 3) {
            Ok(v) => v,
            Err(e) => {
                return Err(e);
            },
        };
        proof {
            assert(super::zlib::pow2(3) == 8) by {
                reveal_with_fuel(super::zlib::pow2, 4);
            }
            lemma_bits_small(d, pk, 3, 8);
        }
        cl.set(cl_slot(k), v as u8);
        k = k + 1;
    }
    let cl_table = match build_huffman(cl.as_slice()) {
        Some(t) => t,
        None => {
            return Err(Stop::Malformed);
        },
    };
    let ghost q2 = reader.pos();
    proof {
        assert(super::zlib::pow2(1) == 2 && super::zlib::pow2(3) == 8) by {
            reveal_with_fuel(super::zlib::pow2, 4);
        }
        if bits_ok(d, q2, 1) {
            lemma_bits_small(d, q2, 1, 2);
        }
        if bits_ok(d, q2 + 1, 3) {
            lemma_bits_small(d, q2 + 1, 3, 8);
        }
    }
    let use_max = match read(reader, 1) {
        Ok(v) => v,
        Err(e) => {
            return Err(e);
        },
    };
    let budget: u32 = if use_max == 1 {
        let nb = match read(reader, 3) {
            Ok(v) => v,
            Err(e) => {
                return Err(e);
            },
        };
        let nb = 2 + 2 * nb;
        let ghost pn = reader.pos();
        let m = match read(reader, nb) {
            Ok(v) => v,
            Err(e) => {
                return Err(e);
            },
        };
        proof {
            super::zlib::lemma_bits_le_bound(d, pn, nb as nat);
            super::zlib::lemma_pow2_mono(nb as nat, 16);
            assert(super::zlib::pow2(16) == 65536) by {
                reveal_with_fuel(super::zlib::pow2, 17);
            }
        }
        2 + m
    } else {
        alphabet_size as u32
    };
    read_lengths_loop(reader, &cl_table, alphabet_size, budget)
}

// ─── Prefix code groups ─────────────────────────────────────────────────────

/// One prefix code's lengths at bit `p`, when a table can be built from them.
pub open spec fn table_at(d: Seq<u8>, p: int, alphabet: int) -> Option<(int, Seq<u8>)> {
    match code_lengths_spec(d, p, alphabet) {
        None => None,
        Some((q, l)) => if table_ok(l) {
            Some((q, l))
        } else {
            None
        },
    }
}

/// A group of five prefix codes (green with lengths and cache codes, red, blue, alpha,
/// distance) at bit `p`, for a color cache of `cache_size` entries.
#[verifier::opaque]
pub open spec fn group_spec(d: Seq<u8>, p: int, cache_size: int) -> Option<(int, Seq<Seq<u8>>)> {
    match table_at(d, p, 280 + cache_size) {
        None => None,
        Some((p1, g)) => match table_at(d, p1, 256) {
            None => None,
            Some((p2, r)) => match table_at(d, p2, 256) {
                None => None,
                Some((p3, b)) => match table_at(d, p3, 256) {
                    None => None,
                    Some((p4, a)) => match table_at(d, p4, 40) {
                        None => None,
                        Some((p5, dist)) => Some((p5, seq![g, r, b, a, dist])),
                    },
                },
            },
        },
    }
}

/// `n` groups at bit `p`.
#[verifier::opaque]
pub open spec fn groups_spec(d: Seq<u8>, p: int, cache_size: int, n: int) -> Option<(int, Seq<Seq<Seq<u8>>>)>
    decreases n,
{
    if n <= 0 {
        Some((p, seq![]))
    } else {
        match groups_spec(d, p, cache_size, n - 1) {
            None => None,
            Some((q, gs)) => match group_spec(d, q, cache_size) {
                None => None,
                Some((q2, g)) => Some((q2, gs.push(g))),
            },
        }
    }
}

/// The five decode tables of a group.
pub struct PrefixGroup {
    pub green: HuffmanTable,
    pub red: HuffmanTable,
    pub blue: HuffmanTable,
    pub alpha: HuffmanTable,
    pub distance: HuffmanTable,
}

impl PrefixGroup {
    /// The code lengths of the five tables.
    pub open spec fn lens(&self) -> Seq<Seq<u8>> {
        seq![self.green.lens(), self.red.lens(), self.blue.lens(), self.alpha.lens(), self.distance.lens()]
    }

    /// Every table decodes the code of its lengths.
    pub open spec fn wf(&self) -> bool {
        &&& self.green.wf()
        &&& self.red.wf()
        &&& self.blue.wf()
        &&& self.alpha.wf()
        &&& self.distance.wf()
    }
}

/// Reads one prefix code and builds its table.
fn read_table(reader: &mut BitReader, alphabet_size: usize) -> (r: Result<HuffmanTable, Stop>)
    requires
        old(reader).wf(),
    ensures
        final(reader).wf(),
        final(reader).data() == old(reader).data(),
        match table_at(old(reader).data(), old(reader).pos(), alphabet_size as int) {
            Some((q, l)) => r matches Ok(t) && t.wf() && t.lens() == l && final(reader).pos() == q,
            None => r == Err::<HuffmanTable, Stop>(Stop::Malformed),
        },
        r matches Ok(t) ==> t.lens().len() == alphabet_size,
{
    let lengths = read_huffman_code_lengths(reader, alphabet_size)?;
    match build_huffman(lengths.as_slice()) {
        Some(t) => Ok(t),
        None => Err(Stop::Malformed),
    }
}

/// Reads a group of five prefix codes for a color cache of `color_cache_size` entries.
pub fn read_prefix_code_group(reader: &mut BitReader, color_cache_size: usize) -> (r: Result<PrefixGroup, Stop>)
    requires
        old(reader).wf(),
        color_cache_size <= 2048,
    ensures
        final(reader).wf(),
        final(reader).data() == old(reader).data(),
        match group_spec(old(reader).data(), old(reader).pos(), color_cache_size as int) {
            Some((q, ls)) => r matches Ok(g) && g.wf() && g.lens() == ls && final(reader).pos() == q,
            None => r == Err::<PrefixGroup, Stop>(Stop::Malformed),
        },
        r matches Ok(g) ==> g.green.lens().len() == 280 + color_cache_size && g.red.lens().len() == 256
            && g.blue.lens().len() == 256 && g.alpha.lens().len() == 256 && g.distance.lens().len() == 40,
{
    proof {
        reveal(group_spec);
    }
    let green = read_table(reader, 280 + color_cache_size)?;
    let red = read_table(reader, 256)?;
    let blue = read_table(reader, 256)?;
    let alpha = read_table(reader, 256)?;
    let distance = read_table(reader, 40)?;
    Ok(PrefixGroup { green, red, blue, alpha, distance })
}

// ─── Pixels ─────────────────────────────────────────────────────────────────

/// The x offsets of VP8L's 120 distance codes.
pub open spec fn dist_dx() -> Seq<int> {
    seq![
        0, 1, 1, -1, 0, 2, 1, -1, 2, -2, 2, -2, 0, 3, 1, -1, 3, -3, 2, -2, 3, -3, 0, 4, 1, -1, 4,
        -4, 3, -3, 2, -2, 4, -4, 0, 3, -3, 4, -4, 5, 1, -1, 5, -5, 2, -2, 5, -5, 4, -4, 3, -3, 5,
        -5, 0, 6, 1, -1, 6, -6, 2, -2, 6, -6, 4, -4, 5, -5, 3, -3, 6, -6, 0, 7, 1, -1, 5, -5, 7,
        -7, 4, -4, 6, -6, 2, -2, 7, -7, 3, -3, 7, -7, 5, -5, 6, -6, 8, 4, -4, 7, -7, 8, 8, 6, -6,
        8, 5, -5, 7, -7, 8, 6, -6, 7, -7, 8, 7, -7, 8, 8,
    ]
}

/// The y offsets of VP8L's 120 distance codes.
pub open spec fn dist_dy() -> Seq<int> {
    seq![
        1, 0, 1, 1, 2, 0, 2, 2, 1, 1, 2, 2, 3, 0, 3, 3, 1, 1, 3, 3, 2, 2, 4, 0, 4, 4, 1, 1, 3, 3,
        4, 4, 2, 2, 5, 4, 4, 3, 3, 0, 5, 5, 1, 1, 5, 5, 2, 2, 4, 4, 5, 5, 3, 3, 6, 0, 6, 6, 1, 1,
        6, 6, 2, 2, 5, 5, 4, 4, 6, 6, 3, 3, 7, 0, 7, 7, 5, 5, 1, 1, 6, 6, 4, 4, 7, 7, 2, 2, 7, 7,
        3, 3, 6, 6, 5, 5, 0, 7, 7, 4, 4, 1, 2, 6, 6, 3, 7, 7, 5, 5, 4, 7, 7, 6, 6, 5, 7, 7, 6, 7,
    ]
}

/// The scan-order distance that distance value `dc` names in an image `width` pixels wide:
/// values above 120 are plain distances, the rest index the distance map, clamped to at least 1.
pub open spec fn distance_of(dc: int, width: int) -> int {
    if dc > 120 {
        dc - 120
    } else {
        let dd = dist_dx()[dc - 1] + dist_dy()[dc - 1] * width;
        if dd < 1 {
            1
        } else {
            dd
        }
    }
}

/// The group index a meta-prefix pixel names: its red and green channels.
pub open spec fn meta_of(argb: u32) -> int {
    (argb / 256) as int % 65536
}

/// The group for pixel `i`: group 0 without an entropy image, else the entry of the entropy
/// image block holding the pixel; `-1` if that block is outside the entropy image.
pub open spec fn group_of(entropy: Seq<u32>, use_entropy: bool, width: int, div: int, ew: int, i: int) -> int {
    if !use_entropy {
        0
    } else {
        let e = ((i / width) / div) * ew + (i % width) / div;
        if e >= entropy.len() {
            -1
        } else {
            meta_of(entropy[e])
        }
    }
}

/// The pixel with the given channels.
pub open spec fn argb_of(a: int, r: int, g: int, b: int) -> u32 {
    (a * 16777216 + r * 65536 + g * 256 + b) as u32
}

/// The cache after storing `argb` (no cache when `bits` is 0).
pub open spec fn cache_put(cache: Seq<u32>, bits: u32, argb: u32) -> Seq<u32> {
    if bits == 0 {
        cache
    } else {
        cache.update(cache_index(argb, bits), argb)
    }
}

/// The cache after storing each of `px` in order.
pub open spec fn cache_put_all(cache: Seq<u32>, bits: u32, px: Seq<u32>) -> Seq<u32>
    decreases px.len(),
{
    if px.len() == 0 {
        cache
    } else {
        cache_put(cache_put_all(cache, bits, px.drop_last()), bits, px.last())
    }
}

/// `out` extended by `n` pixels, each copied from `dist` pixels back.
pub open spec fn copy_px(out: Seq<u32>, dist: int, n: nat) -> Seq<u32>
    decreases n,
{
    if n == 0 {
        out
    } else {
        let o = copy_px(out, dist, (n - 1) as nat);
        o.push(o[o.len() - dist])
    }
}

/// Decodes the code for one literal, backward reference or cache hit at bit `p`, with the
/// groups' code lengths `groups`, appending to `pixels` and updating `cache`: the position after
/// it, the pixels and the cache; `None` if it does not parse.
#[verifier::opaque]
pub open spec fn pixel_step(
    d: Seq<u8>,
    p: int,
    width: int,
    total: int,
    groups: Seq<Seq<Seq<u8>>>,
    use_entropy: bool,
    div: int,
    ew: int,
    entropy: Seq<u32>,
    bits: u32,
    pixels: Seq<u32>,
    cache: Seq<u32>,
) -> Option<(int, Seq<u32>, Seq<u32>)> {
    let gi = group_of(entropy, use_entropy, width, div, ew, pixels.len() as int);
    if gi < 0 || gi >= groups.len() {
        None
    } else {
        let t = groups[gi];
        match table_decode(t[0], d, p) {
            None => None,
            Some((sym, p1)) => if sym < 256 {
                match table_decode(t[1], d, p1) {
                    None => None,
                    Some((red, p2)) => match table_decode(t[2], d, p2) {
                        None => None,
                        Some((blue, p3)) => match table_decode(t[3], d, p3) {
                            None => None,
                            Some((alpha, p4)) => {
                                let argb = argb_of(alpha, red, sym, blue);
                                Some((p4, pixels.push(argb), cache_put(cache, bits, argb)))
                            },
                        },
                    },
                }
            } else if sym < 280 {
                match prefix_value(d, p1, sym - 256) {
                    None => None,
                    Some((len, q1)) => match table_decode(t[4], d, q1) {
                        None => None,
                        Some((ds, q2)) => match prefix_value(d, q2, ds) {
                            None => None,
                            Some((dc, q3)) => {
                                let dist = distance_of(dc, width);
                                if dist > pixels.len() || pixels.len() + len > total {
                                    None
                                } else {
                                    let out = copy_px(pixels, dist, len as nat);
                                    Some((q3, out, cache_put_all(cache, bits, out.skip(pixels.len() as int))))
                                }
                            },
                        },
                    },
                }
            } else {
                let ci = sym - 280;
                if ci >= cache.len() {
                    None
                } else {
                    Some((p1, pixels.push(cache[ci]), cache))
                }
            },
        }
    }
}

/// Decodes pixels from bit `p` until `total` are out.
#[verifier::opaque]
pub open spec fn pixels_loop(
    d: Seq<u8>,
    p: int,
    width: int,
    total: int,
    groups: Seq<Seq<Seq<u8>>>,
    use_entropy: bool,
    div: int,
    ew: int,
    entropy: Seq<u32>,
    bits: u32,
    pixels: Seq<u32>,
    cache: Seq<u32>,
) -> Option<(int, Seq<u32>)>
    decreases total - pixels.len(),
{
    if pixels.len() >= total {
        Some((p, pixels))
    } else {
        match pixel_step(d, p, width, total, groups, use_entropy, div, ew, entropy, bits, pixels, cache) {
            None => None,
            Some((q, px, c)) => if pixels.len() < px.len() <= total {
                pixels_loop(d, q, width, total, groups, use_entropy, div, ew, entropy, bits, px, c)
            } else {
                None
            },
        }
    }
}

/// The largest group index an entropy image names.
pub open spec fn max_meta(e: Seq<u32>) -> int
    decreases e.len(),
{
    if e.len() == 0 {
        -1
    } else {
        let m = max_meta(e.drop_last());
        if meta_of(e.last()) > m {
            meta_of(e.last())
        } else {
            m
        }
    }
}

/// `n` zero pixels.
pub open spec fn zeros32(n: int) -> Seq<u32> {
    Seq::new(n as nat, |i: int| 0u32)
}

/// `ceil(a / b)`.
pub open spec fn div_ceil(a: int, b: int) -> int {
    (a + b - 1) / b
}

/// The group codes and pixels of an image stream, once the color cache (`bits`, 0 for none) and
/// the entropy image (if any) are known, from bit `p`.
#[verifier::opaque]
pub open spec fn stream_rest(
    d: Seq<u8>,
    p: int,
    width: int,
    height: int,
    bits: u32,
    use_entropy: bool,
    div: int,
    entropy: Seq<u32>,
) -> Option<(int, Seq<u32>)> {
    let csize: int = if bits > 0 { cache_len(bits) } else { 0 };
    let ng = if use_entropy && entropy.len() > 0 { max_meta(entropy) + 1 } else { 1 };
    match groups_spec(d, p, csize, ng) {
        None => None,
        Some((q, gs)) => pixels_loop(d, q, width, width * height, gs, use_entropy, div, div_ceil(width, div), entropy, bits, seq![], zeros32(csize)),
    }
}

/// An image stream of `width x height` pixels at bit `p`: color-cache info, then (only in the
/// role of the main ARGB image) an optional entropy image, the prefix code groups and the pixels.
pub open spec fn image_stream(d: Seq<u8>, p: int, width: int, height: int, is_argb: bool) -> Option<(int, Seq<u32>)>
    decreases (if is_argb { 1int } else { 0int }),
{
    if !bits_ok(d, p, 1) {
        None
    } else {
        let use_cache = bits_le(d, p, 1) == 1;
        if use_cache && !bits_ok(d, p + 1, 4) {
            None
        } else {
            let bits: u32 = if use_cache { bits_le(d, p + 1, 4) as u32 } else { 0 };
            let p1 = if use_cache { p + 5 } else { p + 1 };
            if use_cache && (bits == 0 || bits > 11) {
                None
            } else if !is_argb {
                stream_rest(d, p1, width, height, bits, false, 1, seq![])
            } else if !bits_ok(d, p1, 1) {
                None
            } else if bits_le(d, p1, 1) == 0 {
                stream_rest(d, p1 + 1, width, height, bits, false, 1, seq![])
            } else if !bits_ok(d, p1 + 1, 3) {
                None
            } else {
                let div = super::zlib::pow2((2 + bits_le(d, p1 + 1, 3)) as nat) as int;
                match image_stream(d, p1 + 4, div_ceil(width, div), div_ceil(height, div), false) {
                    None => None,
                    Some((p2, entropy)) => stream_rest(d, p2, width, height, bits, true, div, entropy),
                }
            }
        }
    }
}

// ─── Reading only moves forward ─────────────────────────────────────────────

proof fn lemma_lengths_loop_advances(d: Seq<u8>, p: int, cl: Seq<u8>, alphabet: int, symbol: int, prev: u8, budget: int, l: Seq<u8>)
    ensures
        lengths_loop(d, p, cl, alphabet, symbol, prev, budget, l) matches Some((q, _)) ==> p <= q,
    decreases budget,
{
    if !(symbol >= alphabet || budget <= 0) {
        lemma_table_decode_range(cl, d, p);
        match table_decode(cl, d, p) {
            None => {},
            Some((c, q)) => {
                if c <= 15 {
                    lemma_lengths_loop_advances(d, q, cl, alphabet, symbol + 1, if c != 0 { c as u8 } else { prev }, budget - 1, l.update(symbol, c as u8));
                } else if c == 16 {
                    let rep = 3 + bits_le(d, q, 2);
                    let n = if rep < alphabet - symbol { rep } else { alphabet - symbol };
                    lemma_lengths_loop_advances(d, q + 2, cl, alphabet, symbol + n, prev, budget - 1, fill(l, symbol, n, prev));
                } else if c == 17 {
                    lemma_lengths_loop_advances(d, q + 3, cl, alphabet, symbol + 3 + bits_le(d, q, 3), prev, budget - 1, l);
                } else if c == 18 {
                    lemma_lengths_loop_advances(d, q + 7, cl, alphabet, symbol + 11 + bits_le(d, q, 7), prev, budget - 1, l);
                }
            },
        }
    }
}

proof fn lemma_table_at_advances(d: Seq<u8>, p: int, alphabet: int)
    ensures
        table_at(d, p, alphabet) matches Some((q, _)) ==> p <= q,
{
    if bits_ok(d, p, 1) && bits_le(d, p, 1) != 1 && bits_ok(d, p + 1, 4) {
        let num = 4 + bits_le(d, p + 1, 4);
        let q = p + 5;
        let cl = cl_lengths(d, q, num);
        let q2 = q + 3 * num;
        if bits_ok(d, q2, 1) && bits_le(d, q2, 1) == 1 && bits_ok(d, q2 + 1, 3) {
            let nb = 2 + 2 * bits_le(d, q2 + 1, 3);
            lemma_lengths_loop_advances(d, q2 + 4 + nb, cl, alphabet, 0, 8, 2 + bits_le(d, q2 + 4, nb as nat), zeros(alphabet));
        }
        lemma_lengths_loop_advances(d, q2 + 1, cl, alphabet, 0, 8, (alphabet as u32) as int, zeros(alphabet));
    }
}

proof fn lemma_groups_advance(d: Seq<u8>, p: int, cache_size: int, n: int)
    ensures
        groups_spec(d, p, cache_size, n) matches Some((q, _)) ==> p <= q,
    decreases n,
{
    reveal(groups_spec);
    if n > 0 {
        lemma_groups_advance(d, p, cache_size, n - 1);
        if let Some((q, gs)) = groups_spec(d, p, cache_size, n - 1) {
            reveal(group_spec);
            lemma_table_at_advances(d, q, 280 + cache_size);
            if let Some((p1, g)) = table_at(d, q, 280 + cache_size) {
                lemma_table_at_advances(d, p1, 256);
                if let Some((p2, r)) = table_at(d, p1, 256) {
                    lemma_table_at_advances(d, p2, 256);
                    if let Some((p3, b)) = table_at(d, p2, 256) {
                        lemma_table_at_advances(d, p3, 256);
                        if let Some((p4, a)) = table_at(d, p3, 256) {
                            lemma_table_at_advances(d, p4, 40);
                        }
                    }
                }
            }
        }
    }
}

proof fn lemma_pixel_step_advances(
    d: Seq<u8>,
    p: int,
    width: int,
    total: int,
    groups: Seq<Seq<Seq<u8>>>,
    use_entropy: bool,
    div: int,
    ew: int,
    entropy: Seq<u32>,
    bits: u32,
    pixels: Seq<u32>,
    cache: Seq<u32>,
)
    ensures
        pixel_step(d, p, width, total, groups, use_entropy, div, ew, entropy, bits, pixels, cache) matches Some((q, _, _)) ==> p <= q,
{
    reveal(pixel_step);
    let gi = group_of(entropy, use_entropy, width, div, ew, pixels.len() as int);
    if 0 <= gi < groups.len() {
        let t = groups[gi];
        lemma_table_decode_range(t[0], d, p);
        if let Some((sym, p1)) = table_decode(t[0], d, p) {
            lemma_table_decode_range(t[1], d, p1);
            if let Some((red, p2)) = table_decode(t[1], d, p1) {
                lemma_table_decode_range(t[2], d, p2);
                if let Some((blue, p3)) = table_decode(t[2], d, p2) {
                    lemma_table_decode_range(t[3], d, p3);
                }
            }
            if let Some((len, q1)) = prefix_value(d, p1, sym - 256) {
                lemma_table_decode_range(t[4], d, q1);
            }
        }
    }
}

proof fn lemma_pixels_loop_advances(
    d: Seq<u8>,
    p: int,
    width: int,
    total: int,
    groups: Seq<Seq<Seq<u8>>>,
    use_entropy: bool,
    div: int,
    ew: int,
    entropy: Seq<u32>,
    bits: u32,
    pixels: Seq<u32>,
    cache: Seq<u32>,
)
    ensures
        pixels_loop(d, p, width, total, groups, use_entropy, div, ew, entropy, bits, pixels, cache) matches Some((q, _)) ==> p <= q,
    decreases total - pixels.len(),
{
    reveal(pixels_loop);
    if pixels.len() < total {
        lemma_pixel_step_advances(d, p, width, total, groups, use_entropy, div, ew, entropy, bits, pixels, cache);
        if let Some((q, px, c)) = pixel_step(d, p, width, total, groups, use_entropy, div, ew, entropy, bits, pixels, cache) {
            if pixels.len() < px.len() <= total {
                lemma_pixels_loop_advances(d, q, width, total, groups, use_entropy, div, ew, entropy, bits, px, c);
            }
        }
    }
}

proof fn lemma_stream_rest_advances(d: Seq<u8>, p: int, width: int, height: int, bits: u32, use_entropy: bool, div: int, entropy: Seq<u32>)
    ensures
        stream_rest(d, p, width, height, bits, use_entropy, div, entropy) matches Some((q, _)) ==> p <= q,
{
    reveal(stream_rest);
    let csize: int = if bits > 0 { cache_len(bits) } else { 0 };
    let ng = if use_entropy && entropy.len() > 0 { max_meta(entropy) + 1 } else { 1 };
    lemma_groups_advance(d, p, csize, ng);
    if let Some((q, gs)) = groups_spec(d, p, csize, ng) {
        lemma_pixels_loop_advances(d, q, width, width * height, gs, use_entropy, div, div_ceil(width, div), entropy, bits, seq![], zeros32(csize));
    }
}

/// An image stream ends no earlier than it starts.
pub proof fn lemma_image_stream_advances(d: Seq<u8>, p: int, width: int, height: int, is_argb: bool)
    ensures
        image_stream(d, p, width, height, is_argb) matches Some((q, _)) ==> p <= q,
    decreases (if is_argb { 1int } else { 0int }),
{
    if bits_ok(d, p, 1) {
        let use_cache = bits_le(d, p, 1) == 1;
        let bits: u32 = if use_cache { bits_le(d, p + 1, 4) as u32 } else { 0 };
        let p1 = if use_cache { p + 5 } else { p + 1 };
        lemma_stream_rest_advances(d, p1, width, height, bits, false, 1, seq![]);
        lemma_stream_rest_advances(d, p1 + 1, width, height, bits, false, 1, seq![]);
        if is_argb && bits_ok(d, p1 + 1, 3) {
            let div = super::zlib::pow2((2 + bits_le(d, p1 + 1, 3)) as nat) as int;
            lemma_image_stream_advances(d, p1 + 4, div_ceil(width, div), div_ceil(height, div), false);
            if let Some((p2, entropy)) = image_stream(d, p1 + 4, div_ceil(width, div), div_ceil(height, div), false) {
                lemma_stream_rest_advances(d, p2, width, height, bits, true, div, entropy);
            }
        }
    }
}

proof fn lemma_pixels_loop_len(
    d: Seq<u8>,
    p: int,
    width: int,
    total: int,
    groups: Seq<Seq<Seq<u8>>>,
    use_entropy: bool,
    div: int,
    ew: int,
    entropy: Seq<u32>,
    bits: u32,
    pixels: Seq<u32>,
    cache: Seq<u32>,
)
    requires
        pixels.len() <= total,
    ensures
        pixels_loop(d, p, width, total, groups, use_entropy, div, ew, entropy, bits, pixels, cache) matches Some((_, px)) ==> px.len() == total,
    decreases total - pixels.len(),
{
    reveal(pixels_loop);
    if pixels.len() < total {
        if let Some((q, px, c)) = pixel_step(d, p, width, total, groups, use_entropy, div, ew, entropy, bits, pixels, cache) {
            if pixels.len() < px.len() <= total {
                lemma_pixels_loop_len(d, q, width, total, groups, use_entropy, div, ew, entropy, bits, px, c);
            }
        }
    }
}

proof fn lemma_stream_rest_len(d: Seq<u8>, p: int, width: int, height: int, bits: u32, use_entropy: bool, div: int, entropy: Seq<u32>)
    requires
        width * height >= 0,
    ensures
        stream_rest(d, p, width, height, bits, use_entropy, div, entropy) matches Some((_, px)) ==> px.len() == width * height,
{
    reveal(stream_rest);
    let csize: int = if bits > 0 { cache_len(bits) } else { 0 };
    let ng = if use_entropy && entropy.len() > 0 { max_meta(entropy) + 1 } else { 1 };
    if let Some((q, gs)) = groups_spec(d, p, csize, ng) {
        lemma_pixels_loop_len(d, q, width, width * height, gs, use_entropy, div, div_ceil(width, div), entropy, bits, seq![], zeros32(csize));
    }
}

/// An image stream of `width x height` pixels decodes to exactly that many pixels.
pub proof fn lemma_image_stream_len(d: Seq<u8>, p: int, width: int, height: int, is_argb: bool)
    requires
        width >= 0,
        height >= 0,
    ensures
        image_stream(d, p, width, height, is_argb) matches Some((_, px)) ==> px.len() == width * height,
{
    assert(width * height >= 0) by (nonlinear_arith)
        requires width >= 0, height >= 0;
    if bits_ok(d, p, 1) {
        let use_cache = bits_le(d, p, 1) == 1;
        let bits: u32 = if use_cache { bits_le(d, p + 1, 4) as u32 } else { 0 };
        let p1 = if use_cache { p + 5 } else { p + 1 };
        lemma_stream_rest_len(d, p1, width, height, bits, false, 1, seq![]);
        lemma_stream_rest_len(d, p1 + 1, width, height, bits, false, 1, seq![]);
        if is_argb && bits_ok(d, p1 + 1, 3) {
            let div = super::zlib::pow2((2 + bits_le(d, p1 + 1, 3)) as nat) as int;
            if let Some((p2, entropy)) = image_stream(d, p1 + 4, div_ceil(width, div), div_ceil(height, div), false) {
                lemma_stream_rest_len(d, p2, width, height, bits, true, div, entropy);
            }
        }
    }
}

/// The offsets of distance code `k + 1`.
fn dist_lookup(k: usize) -> (r: (i64, i64))
    requires
        k < 120,
    ensures
        r.0 == dist_dx()[k as int],
        r.1 == dist_dy()[k as int],
        -8 <= r.0 <= 8,
        0 <= r.1 <= 7,
{
    let xs: [i64; 120] = [
        0i64, 1, 1, -1, 0, 2, 1, -1, 2, -2, 2, -2, 0, 3, 1, -1, 3, -3, 2, -2, 3, -3, 0, 4, 1, -1,
        4, -4, 3, -3, 2, -2, 4, -4, 0, 3, -3, 4, -4, 5, 1, -1, 5, -5, 2, -2, 5, -5, 4, -4, 3, -3,
        5, -5, 0, 6, 1, -1, 6, -6, 2, -2, 6, -6, 4, -4, 5, -5, 3, -3, 6, -6, 0, 7, 1, -1, 5, -5, 7,
        -7, 4, -4, 6, -6, 2, -2, 7, -7, 3, -3, 7, -7, 5, -5, 6, -6, 8, 4, -4, 7, -7, 8, 8, 6, -6,
        8, 5, -5, 7, -7, 8, 6, -6, 7, -7, 8, 7, -7, 8, 8,
    ];
    let ys: [i64; 120] = [
        1i64, 0, 1, 1, 2, 0, 2, 2, 1, 1, 2, 2, 3, 0, 3, 3, 1, 1, 3, 3, 2, 2, 4, 0, 4, 4, 1, 1, 3,
        3, 4, 4, 2, 2, 5, 4, 4, 3, 3, 0, 5, 5, 1, 1, 5, 5, 2, 2, 4, 4, 5, 5, 3, 3, 6, 0, 6, 6, 1,
        1, 6, 6, 2, 2, 5, 5, 4, 4, 6, 6, 3, 3, 7, 0, 7, 7, 5, 5, 1, 1, 6, 6, 4, 4, 7, 7, 2, 2, 7,
        7, 3, 3, 6, 6, 5, 5, 0, 7, 7, 4, 4, 1, 2, 6, 6, 3, 7, 7, 5, 5, 4, 7, 7, 6, 6, 5, 7, 7, 6,
        7,
    ];
    proof {
        assert forall|i: int| 0 <= i < 120 implies xs@[i] == dist_dx()[i] && ys@[i] == dist_dy()[i] by {
            assert(xs@ =~= seq![0i64, 1i64, 1i64, -1i64, 0i64, 2i64, 1i64, -1i64, 2i64, -2i64, 2i64, -2i64, 0i64, 3i64, 1i64, -1i64, 3i64, -3i64, 2i64, -2i64, 3i64, -3i64, 0i64, 4i64, 1i64, -1i64, 4i64, -4i64, 3i64, -3i64, 2i64, -2i64, 4i64, -4i64, 0i64, 3i64, -3i64, 4i64, -4i64, 5i64, 1i64, -1i64, 5i64, -5i64, 2i64, -2i64, 5i64, -5i64, 4i64, -4i64, 3i64, -3i64, 5i64, -5i64, 0i64, 6i64, 1i64, -1i64, 6i64, -6i64, 2i64, -2i64, 6i64, -6i64, 4i64, -4i64, 5i64, -5i64, 3i64, -3i64, 6i64, -6i64, 0i64, 7i64, 1i64, -1i64, 5i64, -5i64, 7i64, -7i64, 4i64, -4i64, 6i64, -6i64, 2i64, -2i64, 7i64, -7i64, 3i64, -3i64, 7i64, -7i64, 5i64, -5i64, 6i64, -6i64, 8i64, 4i64, -4i64, 7i64, -7i64, 8i64, 8i64, 6i64, -6i64, 8i64, 5i64, -5i64, 7i64, -7i64, 8i64, 6i64, -6i64, 7i64, -7i64, 8i64, 7i64, -7i64, 8i64, 8i64]);
            assert(ys@ =~= seq![1i64, 0i64, 1i64, 1i64, 2i64, 0i64, 2i64, 2i64, 1i64, 1i64, 2i64, 2i64, 3i64, 0i64, 3i64, 3i64, 1i64, 1i64, 3i64, 3i64, 2i64, 2i64, 4i64, 0i64, 4i64, 4i64, 1i64, 1i64, 3i64, 3i64, 4i64, 4i64, 2i64, 2i64, 5i64, 4i64, 4i64, 3i64, 3i64, 0i64, 5i64, 5i64, 1i64, 1i64, 5i64, 5i64, 2i64, 2i64, 4i64, 4i64, 5i64, 5i64, 3i64, 3i64, 6i64, 0i64, 6i64, 6i64, 1i64, 1i64, 6i64, 6i64, 2i64, 2i64, 5i64, 5i64, 4i64, 4i64, 6i64, 6i64, 3i64, 3i64, 7i64, 0i64, 7i64, 7i64, 5i64, 5i64, 1i64, 1i64, 6i64, 6i64, 4i64, 4i64, 7i64, 7i64, 2i64, 2i64, 7i64, 7i64, 3i64, 3i64, 6i64, 6i64, 5i64, 5i64, 0i64, 7i64, 7i64, 4i64, 4i64, 1i64, 2i64, 6i64, 6i64, 3i64, 7i64, 7i64, 5i64, 5i64, 4i64, 7i64, 7i64, 6i64, 6i64, 5i64, 7i64, 7i64, 6i64, 7i64]);
        }
    }
    let x = xs[k];
    let y = ys[k];
    if x < -8 || x > 8 || y < 0 || y > 7 {
        proof {
            assert(false);
        }
    }
    (x, y)
}

/// The code lengths of each group.
pub open spec fn lens_of(gs: Seq<PrefixGroup>) -> Seq<Seq<Seq<u8>>> {
    Seq::new(gs.len(), |i: int| gs[i].lens())
}

/// Every group's tables decode their codes.
pub open spec fn groups_wf(gs: Seq<PrefixGroup>) -> bool {
    forall|i: int| 0 <= i < gs.len() ==> (#[trigger] gs[i]).wf()
}

proof fn lemma_cache_put_all_push(cache: Seq<u32>, bits: u32, s: Seq<u32>, x: u32)
    ensures
        cache_put_all(cache, bits, s.push(x)) == cache_put(cache_put_all(cache, bits, s), bits, x),
{
    assert(s.push(x).drop_last() =~= s);
}

proof fn lemma_cache_put_all_len(cache: Seq<u32>, bits: u32, s: Seq<u32>)
    requires
        bits > 0 ==> cache.len() == cache_len(bits),
        bits <= 11,
    ensures
        cache_put_all(cache, bits, s).len() == cache.len(),
    decreases s.len(),
{
    if s.len() > 0 {
        lemma_cache_put_all_len(cache, bits, s.drop_last());
        if bits > 0 {
            let argb = s.last();
            let m = (((argb * 0x1e35_a7bd) % 0x1_0000_0000) as u64);
            let sh = (32 - bits) as u64;
            let b = bits as u64;
            let r = m >> sh;
            assert(r < (1u64 << b)) by (bit_vector)
                requires
                    m < 0x1_0000_0000u64,
                    1 <= b <= 11,
                    sh == 32 - b,
                    r == m >> sh,
            ;
        }
    }
}

/// The group index of pixel `i`, or `None` when the entropy image has no entry for it.
fn group_index(entropy: &Vec<u32>, use_entropy: bool, width: usize, div: usize, ew: usize, i: usize) -> (r: Option<usize>)
    requires
        1 <= width <= 16384,
        div >= 1,
        ew <= 0x1000_0000,
        i <= 0x1000_0000,
    ensures
        group_of(entropy@, use_entropy, width as int, div as int, ew as int, i as int) < 0 ==> r is None,
        group_of(entropy@, use_entropy, width as int, div as int, ew as int, i as int) >= 0 ==> r == Some(
            group_of(entropy@, use_entropy, width as int, div as int, ew as int, i as int) as usize,
        ),
{
    if !use_entropy {
        return Some(0);
    }
    let y = (i / width) / div;
    let x = (i % width) / div;
    proof {
        assert(i / width <= i) by (nonlinear_arith)
            requires i >= 0, width >= 1;
        assert((i / width) / div <= i / width) by (nonlinear_arith)
            requires i / width >= 0, div >= 1;
        assert((i % width) / div <= i % width) by (nonlinear_arith)
            requires i % width >= 0, div >= 1;
        assert((y as u64) * (ew as u64) <= 0x1000_0000 * 0x1000_0000) by (nonlinear_arith)
            requires y <= 0x1000_0000, ew <= 0x1000_0000;
    }
    let e: u64 = (y as u64) * (ew as u64) + x as u64;
    if e >= entropy.len() as u64 {
        return None;
    }
    Some(((entropy[e as usize] / 256) % 65536) as usize)
}

/// The requirements every pixel-step helper shares.
pub open spec fn step_ready(groups: Seq<PrefixGroup>, cache: Seq<u32>, bits: u32) -> bool {
    &&& groups_wf(groups)
    &&& forall|i: int| 0 <= i < groups.len() ==> (#[trigger] groups[i]).green.lens().len() == 280 + cache.len()
        && groups[i].red.lens().len() == 256 && groups[i].blue.lens().len() == 256
        && groups[i].alpha.lens().len() == 256 && groups[i].distance.lens().len() == 40
    &&& bits <= 11
    &&& bits > 0 ==> cache.len() == cache_len(bits)
    &&& bits == 0 ==> cache.len() == 0
}

/// A literal pixel: green is `green`, then red, blue and alpha codes follow.
fn decode_literal(reader: &mut BitReader, group: &PrefixGroup, green: u16, bits: u32, pixels: &mut Vec<u32>, cache: &mut Vec<u32>) -> (r: Result<(), Stop>)
    requires
        old(reader).wf(),
        group.wf(),
        group.red.lens().len() == 256 && group.blue.lens().len() == 256 && group.alpha.lens().len() == 256,
        green < 256,
        bits <= 11,
        bits > 0 ==> old(cache)@.len() == cache_len(bits),
    ensures
        final(reader).wf(),
        final(reader).data() == old(reader).data(),
        final(cache)@.len() == old(cache)@.len(),
        match table_decode(group.red.lens(), old(reader).data(), old(reader).pos()) {
            None => r == Err::<(), Stop>(Stop::Malformed),
            Some((red, p2)) => match table_decode(group.blue.lens(), old(reader).data(), p2) {
                None => r == Err::<(), Stop>(Stop::Malformed),
                Some((blue, p3)) => match table_decode(group.alpha.lens(), old(reader).data(), p3) {
                    None => r == Err::<(), Stop>(Stop::Malformed),
                    Some((alpha, p4)) => {
                        let argb = argb_of(alpha, red, green as int, blue);
                        r is Ok && final(reader).pos() == p4 && final(pixels)@ == old(pixels)@.push(argb)
                            && final(cache)@ == cache_put(old(cache)@, bits, argb)
                    },
                },
            },
        },
{
    let ghost d = reader.data();
    proof {
        lemma_table_decode_range(group.red.lens(), d, reader.pos());
    }
    let red = match decode_symbol(reader, &group.red) {
        Some(s) => s,
        None => {
            return Err(Stop::Malformed);
        },
    };
    proof {
        lemma_table_decode_range(group.blue.lens(), d, reader.pos());
    }
    let blue = match decode_symbol(reader, &group.blue) {
        Some(s) => s,
        None => {
            return Err(Stop::Malformed);
        },
    };
    proof {
        lemma_table_decode_range(group.alpha.lens(), d, reader.pos());
    }
    let alpha = match decode_symbol(reader, &group.alpha) {
        Some(s) => s,
        None => {
            return Err(Stop::Malformed);
        },
    };
    let argb: u32 = (alpha as u32) * 16777216 + (red as u32) * 65536 + (green as u32) * 256 + blue as u32;
    pixels.push(argb);
    if bits > 0 {
        let ci = color_cache_index(argb, bits);
        cache.set(ci, argb);
    }
    Ok(())
}

/// Copies `length` pixels from `dist` back, storing each in the cache.
fn copy_pixels(pixels: &mut Vec<u32>, cache: &mut Vec<u32>, bits: u32, dist: usize, length: usize)
    requires
        1 <= dist <= old(pixels)@.len(),
        old(pixels)@.len() + length <= 0x1000_0000,
        bits <= 11,
        bits > 0 ==> old(cache)@.len() == cache_len(bits),
    ensures
        final(pixels)@ == copy_px(old(pixels)@, dist as int, length as nat),
        final(pixels)@.len() == old(pixels)@.len() + length,
        final(cache)@ == cache_put_all(old(cache)@, bits, final(pixels)@.skip(old(pixels)@.len() as int)),
        final(cache)@.len() == old(cache)@.len(),
{
    let ghost px0 = pixels@;
    let ghost c0 = cache@;
    let n0 = pixels.len();
    let start = n0 - dist;
    proof {
        assert(pixels@.skip(n0 as int) =~= Seq::<u32>::empty());
    }
    let mut i: usize = 0;
    while i < length
        invariant
            i <= length,
            n0 == px0.len(),
            n0 + length <= 0x1000_0000,
            1 <= dist <= n0,
            start == n0 - dist,
            pixels@ == copy_px(px0, dist as int, i as nat),
            pixels@.len() == n0 + i,
            bits <= 11,
            bits > 0 ==> c0.len() == cache_len(bits),
            cache@.len() == c0.len(),
            cache@ == cache_put_all(c0, bits, pixels@.skip(n0 as int)),
        decreases length - i,
    {
        let argb = pixels[start + i];
        let ghost before = pixels@;
        pixels.push(argb);
        proof {
            assert(pixels@.skip(n0 as int) =~= before.skip(n0 as int).push(argb));
            lemma_cache_put_all_push(c0, bits, before.skip(n0 as int), argb);
        }
        if bits > 0 {
            let ci = color_cache_index(argb, bits);
            cache.set(ci, argb);
        }
        i = i + 1;
    }
}

/// A backward reference: the length code `code` (0..24), then a distance code.
fn decode_backref(
    reader: &mut BitReader,
    group: &PrefixGroup,
    code: u16,
    width: usize,
    total: usize,
    bits: u32,
    pixels: &mut Vec<u32>,
    cache: &mut Vec<u32>,
) -> (r: Result<(), Stop>)
    requires
        old(reader).wf(),
        group.wf(),
        group.distance.lens().len() == 40,
        code < 24,
        1 <= width <= 16384,
        old(pixels)@.len() < total <= 0x1000_0000,
        bits <= 11,
        bits > 0 ==> old(cache)@.len() == cache_len(bits),
    ensures
        final(reader).wf(),
        final(reader).data() == old(reader).data(),
        final(cache)@.len() == old(cache)@.len(),
        match prefix_value(old(reader).data(), old(reader).pos(), code as int) {
            None => r == Err::<(), Stop>(Stop::Malformed),
            Some((len, q1)) => match table_decode(group.distance.lens(), old(reader).data(), q1) {
                None => r == Err::<(), Stop>(Stop::Malformed),
                Some((ds, q2)) => match prefix_value(old(reader).data(), q2, ds) {
                    None => r == Err::<(), Stop>(Stop::Malformed),
                    Some((dc, q3)) => {
                        let dist = distance_of(dc, width as int);
                        if dist > old(pixels)@.len() || old(pixels)@.len() + len > total {
                            r == Err::<(), Stop>(Stop::Malformed)
                        } else {
                            let out = copy_px(old(pixels)@, dist, len as nat);
                            r is Ok && final(reader).pos() == q3 && final(pixels)@ == out
                                && final(cache)@ == cache_put_all(old(cache)@, bits, out.skip(old(pixels)@.len() as int))
                                && len >= 1 && out.len() == old(pixels)@.len() + len
                        }
                    },
                },
            },
        },
{
    let ghost d = reader.data();
    let length = prefix_decode_value(reader, code as u32)?;
    proof {
        lemma_table_decode_range(group.distance.lens(), d, reader.pos());
    }
    let ds = match decode_symbol(reader, &group.distance) {
        Some(s) => s,
        None => {
            return Err(Stop::Malformed);
        },
    };
    let dc = prefix_decode_value(reader, ds as u32)?;
    let dist: u64 = if dc > 120 {
        (dc - 120) as u64
    } else {
        let (dx, dy) = dist_lookup((dc - 1) as usize);
        let w = width as i64;
        assert(0 <= dy * w <= 7 * 16384) by (nonlinear_arith)
            requires 0 <= dy <= 7, 1 <= w <= 16384;
        let dd = dx + dy * w;
        if dd < 1 {
            1
        } else {
            dd as u64
        }
    };
    let n0 = pixels.len();
    if dist > n0 as u64 {
        return Err(Stop::Malformed);
    }
    if length as u64 > (total - n0) as u64 {
        return Err(Stop::Malformed);
    }
    copy_pixels(pixels, cache, bits, dist as usize, length as usize);
    Ok(())
}

/// Decodes the code for one literal, backward reference or cache hit (see [`pixel_step`]).
fn decode_step(
    reader: &mut BitReader,
    groups: &Vec<PrefixGroup>,
    entropy: &Vec<u32>,
    use_entropy: bool,
    width: usize,
    div: usize,
    ew: usize,
    total: usize,
    bits: u32,
    pixels: &mut Vec<u32>,
    cache: &mut Vec<u32>,
) -> (r: Result<(), Stop>)
    requires
        old(reader).wf(),
        step_ready(groups@, old(cache)@, bits),
        1 <= width <= 16384,
        div >= 1,
        ew <= 0x1000_0000,
        old(pixels)@.len() < total <= 0x1000_0000,
    ensures
        final(reader).wf(),
        final(reader).data() == old(reader).data(),
        final(cache)@.len() == old(cache)@.len(),
        match pixel_step(old(reader).data(), old(reader).pos(), width as int, total as int, lens_of(groups@), use_entropy, div as int, ew as int, entropy@, bits, old(pixels)@, old(cache)@) {
            Some((q, px, c)) => r is Ok && final(reader).pos() == q && final(pixels)@ == px && final(cache)@ == c
                && old(pixels)@.len() < px.len() <= total,
            None => r == Err::<(), Stop>(Stop::Malformed),
        },
{
    proof {
        reveal(pixel_step);
    }
    let ghost d = reader.data();
    let ghost p = reader.pos();
    let gi = match group_index(entropy, use_entropy, width, div, ew, pixels.len()) {
        Some(g) => g,
        None => {
            return Err(Stop::Malformed);
        },
    };
    if gi >= groups.len() {
        return Err(Stop::Malformed);
    }
    let group = &groups[gi];
    proof {
        assert(lens_of(groups@)[gi as int] == group.lens());
        assert(groups@[gi as int].wf());
        lemma_table_decode_range(group.green.lens(), d, p);
    }
    let sym = match decode_symbol(reader, &group.green) {
        Some(s) => s,
        None => {
            return Err(Stop::Malformed);
        },
    };
    let ghost t = lens_of(groups@)[gi as int];
    proof {
        assert(t[0] == group.green.lens());
        assert(t[1] == group.red.lens());
        assert(t[2] == group.blue.lens());
        assert(t[3] == group.alpha.lens());
        assert(t[4] == group.distance.lens());
        assert(group.green.lens().len() == 280 + cache@.len());
    }
    let ghost p1 = reader.pos();
    let ghost ps = pixel_step(d, p, width as int, total as int, lens_of(groups@), use_entropy, div as int, ew as int, entropy@, bits, pixels@, cache@);
    proof {
        assert(group_of(entropy@, use_entropy, width as int, div as int, ew as int, pixels@.len() as int) == gi);
        if bits > 0 {
            let b = bits as u64;
            assert((1u64 << b) <= 2048) by (bit_vector)
                requires b <= 11;
        }
        if let Some((s0, q0)) = table_decode(t[0], d, p) {
            assert(0 <= s0 < 280 + cache@.len());
            assert(s0 < 65536);
        }
        assert(table_decode(t[0], d, p) == Some((sym as int, p1)));
    }
    if sym < 256 {
        let r = decode_literal(reader, group, sym, bits, pixels, cache);
        proof {
            if r is Ok {
                assert(ps is Some);
            }
        }
        r
    } else if sym < 280 {
        let r = decode_backref(reader, group, sym - 256, width, total, bits, pixels, cache);
        proof {
            if r is Ok {
                assert(ps is Some);
            }
        }
        r
    } else {
        let ci = (sym - 280) as usize;
        if ci >= cache.len() {
            return Err(Stop::Malformed);
        }
        let argb = cache[ci];
        pixels.push(argb);
        proof {
            let ps = pixel_step(d, p, width as int, total as int, lens_of(groups@), use_entropy, div as int, ew as int, entropy@, bits, old(pixels)@, old(cache)@);
            assert(group_of(entropy@, use_entropy, width as int, div as int, ew as int, old(pixels)@.len() as int) == gi);
            assert(table_decode(t[0], d, p) == Some((sym as int, reader.pos())));
            assert(ps == Some((reader.pos(), old(pixels)@.push(argb), old(cache)@)));
        }
        Ok(())
    }
}

proof fn lemma_groups_none(d: Seq<u8>, p: int, cs: int, i: int, n: int)
    requires
        0 <= i <= n,
        groups_spec(d, p, cs, i) is None,
    ensures
        groups_spec(d, p, cs, n) is None,
    decreases n - i,
{
    if i < n {
        lemma_groups_none(d, p, cs, i, n - 1);
        reveal(groups_spec);
    }
}

proof fn lemma_groups_step(d: Seq<u8>, p: int, cs: int, i: int)
    requires
        i >= 0,
    ensures
        groups_spec(d, p, cs, i + 1) == match groups_spec(d, p, cs, i) {
            None => None,
            Some((q, gs)) => match group_spec(d, q, cs) {
                None => None,
                Some((q2, g)) => Some((q2, gs.push(g))),
            },
        },
        groups_spec(d, p, cs, 0) == Some((p, Seq::<Seq<Seq<u8>>>::empty())),
{
    reveal(groups_spec);
}

proof fn lemma_pixels_step(
    d: Seq<u8>,
    p: int,
    width: int,
    total: int,
    groups: Seq<Seq<Seq<u8>>>,
    use_entropy: bool,
    div: int,
    ew: int,
    entropy: Seq<u32>,
    bits: u32,
    pixels: Seq<u32>,
    cache: Seq<u32>,
)
    ensures
        pixels.len() >= total ==> pixels_loop(d, p, width, total, groups, use_entropy, div, ew, entropy, bits, pixels, cache) == Some((p, pixels)),
        pixels.len() < total ==> pixels_loop(d, p, width, total, groups, use_entropy, div, ew, entropy, bits, pixels, cache) == match pixel_step(d, p, width, total, groups, use_entropy, div, ew, entropy, bits, pixels, cache) {
            None => None,
            Some((q, px, c)) => if pixels.len() < px.len() <= total {
                pixels_loop(d, q, width, total, groups, use_entropy, div, ew, entropy, bits, px, c)
            } else {
                None
            },
        },
{
    reveal(pixels_loop);
}

/// `r` is the decode result `s`, or a cancellation when a sink could ask for one.
pub open spec fn stream_result(r: Result<Vec<u32>, Stop>, s: Option<(int, Seq<u32>)>, pos: int, may_cancel: bool) -> bool {
    (may_cancel && r == Err::<Vec<u32>, Stop>(Stop::Cancelled)) || match s {
        Some((q, px)) => r matches Ok(v) && v@ == px && pos == q,
        None => r == Err::<Vec<u32>, Stop>(Stop::Malformed),
    }
}

/// The prefix code groups and pixels of an image stream (see [`stream_rest`]).
fn decode_pixels(
    reader: &mut BitReader,
    width: usize,
    height: usize,
    bits: u32,
    use_entropy: bool,
    div: usize,
    entropy: &Vec<u32>,
    options: &ConvertOptions,
    report: bool,
) -> (r: Result<Vec<u32>, Stop>)
    requires
        old(reader).wf(),
        1 <= width <= 16384,
        1 <= height <= 16384,
        bits <= 11,
        1 <= div <= 16384,
    ensures
        final(reader).wf(),
        final(reader).data() == old(reader).data(),
        stream_result(r, stream_rest(old(reader).data(), old(reader).pos(), width as int, height as int, bits, use_entropy, div as int, entropy@), final(reader).pos(), options.may_cancel()),
{
    let ghost d = reader.data();
    let ghost p0 = reader.pos();
    let b = bits as u64;
    assert((1u64 << b) <= 2048) by (bit_vector)
        requires b <= 11;
    let csize: usize = if bits > 0 { (1u64 << b) as usize } else { 0 };
    let mut ng: usize = 1;
    if use_entropy && entropy.len() > 0 {
        let mut m: usize = 0;
        let mut k: usize = 0;
        proof {
            assert(max_meta(entropy@.take(0)) == -1);
        }
        while k < entropy.len()
            invariant
                k <= entropy@.len(),
                (k == 0 && m == 0) || (k > 0 && m == max_meta(entropy@.take(k as int))),
                m < 65536,
            decreases entropy@.len() - k,
        {
            let v = ((entropy[k] / 256) % 65536) as usize;
            proof {
                let t = entropy@.take(k + 1);
                assert(t.drop_last() =~= entropy@.take(k as int));
                assert(t.last() == entropy@[k as int]);
                assert(meta_of(t.last()) == v);
                assert(max_meta(t) == if meta_of(t.last()) > max_meta(t.drop_last()) { meta_of(t.last()) } else { max_meta(t.drop_last()) });
                if k == 0 {
                    assert(max_meta(t.drop_last()) == -1);
                }
            }
            if k == 0 || v > m {
                m = v;
            }
            k = k + 1;
        }
        proof {
            assert(entropy@.take(entropy@.len() as int) =~= entropy@);
        }
        ng = m + 1;
    }
    let ghost cs = csize as int;
    let mut groups: Vec<PrefixGroup> = Vec::new();
    proof {
        lemma_groups_step(d, old(reader).pos(), csize as int, 0);
        assert(lens_of(groups@) =~= Seq::<Seq<Seq<u8>>>::empty());
    }
    let mut i: usize = 0;
    while i < ng
        invariant
            i <= ng <= 65536,
            ng == (if use_entropy && entropy@.len() > 0 { max_meta(entropy@) + 1 } else { 1 }),
            csize == (if bits > 0 { cache_len(bits) } else { 0 }),
            reader.wf(),
            reader.data() == d,
            d == old(reader).data(),
            csize <= 2048,
            groups_spec(d, old(reader).pos(), csize as int, i as int) == Some((reader.pos(), lens_of(groups@))),
            groups@.len() == i,
            groups_wf(groups@),
            forall|j: int| 0 <= j < groups@.len() ==> (#[trigger] groups@[j]).green.lens().len() == 280 + csize
                && groups@[j].red.lens().len() == 256 && groups@[j].blue.lens().len() == 256
                && groups@[j].alpha.lens().len() == 256 && groups@[j].distance.lens().len() == 40,
        decreases ng - i,
    {
        proof {
            lemma_groups_step(d, old(reader).pos(), csize as int, i as int);
        }
        let g = match read_prefix_code_group(reader, csize) {
            Ok(g) => g,
            Err(e) => {
                proof {
                    lemma_groups_none(d, old(reader).pos(), csize as int, i + 1, ng as int);
                    reveal(stream_rest);
                }
                return Err(e);
            },
        };
        let ghost before = groups@;
        groups.push(g);
        proof {
            assert(lens_of(groups@) =~= lens_of(before).push(g.lens()));
        }
        i = i + 1;
    }
    let mut cache: Vec<u32> = Vec::new();
    let mut k: usize = 0;
    while k < csize
        invariant
            k <= csize,
            cache@ == zeros32(k as int),
        decreases csize - k,
    {
        cache.push(0);
        proof {
            assert(cache@ =~= zeros32(k + 1));
        }
        k = k + 1;
    }
    proof {
        assert(width * height <= 16384 * 16384) by (nonlinear_arith)
            requires width <= 16384, height <= 16384;
    }
    let total = width * height;
    let ew = (width + div - 1) / div;
    let ghost gl = lens_of(groups@);
    let ghost target = pixels_loop(d, reader.pos(), width as int, total as int, gl, use_entropy, div as int, ew as int, entropy@, bits, seq![], zeros32(csize as int));
    proof {
        reveal(stream_rest);
        assert(stream_rest(d, p0, width as int, height as int, bits, use_entropy, div as int, entropy@) == target);
        assert(width * height <= 16384 * 16384) by (nonlinear_arith)
            requires width <= 16384, height <= 16384;
    }
    let mut pixels: Vec<u32> = Vec::new();
    let mut since: usize = PROGRESS_GRANULARITY;
    while pixels.len() < total
        invariant
            reader.wf(),
            reader.data() == d,
            d == old(reader).data(),
            1 <= width <= 16384,
            1 <= div <= 16384,
            total == width * height,
            total <= 0x1000_0000,
            ew <= 0x1000_0000,
            pixels@.len() <= total,
            since <= PROGRESS_GRANULARITY + 0x1000_0000,
            gl == lens_of(groups@),
            step_ready(groups@, cache@, bits),
            target == stream_rest(d, p0, width as int, height as int, bits, use_entropy, div as int, entropy@),
            p0 == old(reader).pos(),
            pixels_loop(d, reader.pos(), width as int, total as int, gl, use_entropy, div as int, ew as int, entropy@, bits, pixels@, cache@) == target,
        decreases total - pixels@.len(),
    {
        if since >= PROGRESS_GRANULARITY {
            if options.is_cancelled() {
                return Err(Stop::Cancelled);
            }
            if report {
                options.report_progress(pixels.len() as u64, 2 * total as u64);
            }
            since = 0;
        }
        let before = pixels.len();
        proof {
            lemma_pixels_step(d, reader.pos(), width as int, total as int, gl, use_entropy, div as int, ew as int, entropy@, bits, pixels@, cache@);
        }
        match decode_step(reader, &groups, entropy, use_entropy, width, div, ew, total, bits, &mut pixels, &mut cache) {
            Ok(()) => {},
            Err(e) => {
                return Err(e);
            },
        }
        since = since + (pixels.len() - before);
    }
    proof {
        lemma_pixels_step(d, reader.pos(), width as int, total as int, gl, use_entropy, div as int, ew as int, entropy@, bits, pixels@, cache@);
    }
    Ok(pixels)
}

/// `2^n` for a small `n`.
pub fn pow2_usize(n: u32) -> (r: usize)
    requires
        n <= 16,
    ensures
        r == super::zlib::pow2(n as nat),
        1 <= r <= 65536,
{
    let mut v: usize = 1;
    let mut k: u32 = 0;
    assert(super::zlib::pow2(0) == 1);
    while k < n
        invariant
            k <= n <= 16,
            v == super::zlib::pow2(k as nat),
            1 <= v <= 65536,
            v <= super::zlib::pow2(k as nat),
        decreases n - k,
    {
        proof {
            super::zlib::lemma_pow2_mono((k + 1) as nat, 16);
            assert(super::zlib::pow2(16) == 65536) by {
                reveal_with_fuel(super::zlib::pow2, 17);
            }
            assert(super::zlib::pow2((k + 1) as nat) == 2 * super::zlib::pow2(k as nat));
        }
        v = v * 2;
        k = k + 1;
    }
    v
}

/// Decodes an image stream of `width x height` pixels (see [`image_stream`]) into ARGB pixels,
/// row-major. The entropy image is read only in the role of the main ARGB image (`is_argb`).
/// Checks `options` for cancellation at least once every [`PROGRESS_GRANULARITY`] pixels and,
/// when `report` is set, reports the first half of a decode-then-encode conversion's progress.
pub fn decode_image_stream(
    reader: &mut BitReader,
    width: usize,
    height: usize,
    is_argb: bool,
    options: &ConvertOptions,
    report: bool,
) -> (r: Result<Vec<u32>, Stop>)
    requires
        old(reader).wf(),
        1 <= width <= 16384,
        1 <= height <= 16384,
    ensures
        final(reader).wf(),
        final(reader).data() == old(reader).data(),
        stream_result(r, image_stream(old(reader).data(), old(reader).pos(), width as int, height as int, is_argb), final(reader).pos(), options.may_cancel()),
    decreases (if is_argb { 1int } else { 0int }),
{
    let ghost d = reader.data();
    let ghost p = reader.pos();
    proof {
        reader.lemma_pos_range();
        assert(super::zlib::pow2(1) == 2 && super::zlib::pow2(3) == 8 && super::zlib::pow2(4) == 16) by {
            reveal_with_fuel(super::zlib::pow2, 5);
        }
        if bits_ok(d, p, 1) {
            lemma_bits_small(d, p, 1, 2);
        }
        if bits_ok(d, p + 1, 4) {
            lemma_bits_small(d, p + 1, 4, 16);
        }
    }
    let use_cache = match read(reader, 1) {
        Ok(v) => v,
        Err(e) => {
            return Err(e);
        },
    };
    let mut bits: u32 = 0;
    if use_cache == 1 {
        bits = match read(reader, 4) {
            Ok(v) => v,
            Err(e) => {
                return Err(e);
            },
        };
        if bits == 0 || bits > 11 {
            return Err(Stop::Malformed);
        }
    }
    let empty: Vec<u32> = Vec::new();
    if !is_argb {
        return decode_pixels(reader, width, height, bits, false, 1, &empty, options, report);
    }
    let ghost p1 = reader.pos();
    proof {
        if bits_ok(d, p1, 1) {
            lemma_bits_small(d, p1, 1, 2);
        }
        if bits_ok(d, p1 + 1, 3) {
            lemma_bits_small(d, p1 + 1, 3, 8);
        }
    }
    let use_entropy = match read(reader, 1) {
        Ok(v) => v,
        Err(e) => {
            return Err(e);
        },
    };
    if use_entropy == 0 {
        return decode_pixels(reader, width, height, bits, false, 1, &empty, options, report);
    }
    let pb = match read(reader, 3) {
        Ok(v) => v,
        Err(e) => {
            return Err(e);
        },
    };
    let div = pow2_usize(2 + pb);
    proof {
        super::zlib::lemma_pow2_mono((2 + pb) as nat, 9);
        assert(super::zlib::pow2(9) == 512) by {
            reveal_with_fuel(super::zlib::pow2, 10);
        }
        assert(super::zlib::pow2(2) == 4) by {
            reveal_with_fuel(super::zlib::pow2, 3);
        }
        super::zlib::lemma_pow2_mono(2, (2 + pb) as nat);
    }
    let ew = (width + div - 1) / div;
    let eh = (height + div - 1) / div;
    proof {
        let wi = width as int;
        let hi = height as int;
        let di = div as int;
        assert(1 <= (wi + di - 1) / di <= wi) by (nonlinear_arith)
            requires wi >= 1, di >= 1;
        assert(1 <= (hi + di - 1) / di <= hi) by (nonlinear_arith)
            requires hi >= 1, di >= 1;
    }
    let entropy = match decode_image_stream(reader, ew, eh, false, options, false) {
        Ok(e) => e,
        Err(e) => {
            return Err(e);
        },
    };
    decode_pixels(reader, width, height, bits, true, div, &entropy, options, report)
}

// ─── Encoding ──────────────────────────────────────────────────────────────

/// The `n` low bits of `v`, least significant first.
pub open spec fn bitseq(v: int, n: nat) -> Seq<bool>
    decreases n,
{
    if n == 0 {
        seq![]
    } else {
        seq![v % 2 == 1] + bitseq(v / 2, (n - 1) as nat)
    }
}

/// The value of up to eight bits, the first least significant.
pub open spec fn byte_of(b: Seq<bool>) -> int
    decreases b.len(),
{
    if b.len() == 0 {
        0
    } else {
        byte_of(b.drop_last()) + if b.last() { super::zlib::pow2((b.len() - 1) as nat) as int } else { 0 }
    }
}

/// Bits packed into bytes, eight to a byte, the first bit least significant, the last byte
/// padded with zero bits.
pub open spec fn pack(b: Seq<bool>) -> Seq<u8>
    decreases b.len(),
{
    if b.len() == 0 {
        seq![]
    } else if b.len() <= 8 {
        seq![byte_of(b) as u8]
    } else {
        seq![byte_of(b.take(8)) as u8] + pack(b.skip(8))
    }
}

/// A bit writer, least significant bit first: the mirror of [`BitReader`].
pub struct BitWriter {
    out: Vec<u8>,
    cur: u8,
    nbits: u32,
    written: Ghost<Seq<bool>>,
}

proof fn lemma_byte_of_bound(b: Seq<bool>)
    requires
        b.len() <= 8,
    ensures
        0 <= byte_of(b) < super::zlib::pow2(b.len()),
    decreases b.len(),
{
    if b.len() > 0 {
        lemma_byte_of_bound(b.drop_last());
        assert(super::zlib::pow2(b.len()) == 2 * super::zlib::pow2((b.len() - 1) as nat));
    }
}

proof fn lemma_pack_full(b: Seq<bool>, k: int)
    requires
        0 <= k,
        b.len() == 8 * k,
    ensures
        pack(b).len() == k,
    decreases k,
{
    if k > 1 {
        lemma_pack_full(b.skip(8), k - 1);
    }
}

/// Packing whole bytes then more bits is packing both.
proof fn lemma_pack_append(a: Seq<bool>, b: Seq<bool>)
    requires
        a.len() % 8 == 0,
    ensures
        pack(a + b) == pack(a) + pack(b),
    decreases a.len(),
{
    if a.len() == 0 {
        assert(a + b =~= b);
        assert(pack(a) =~= Seq::<u8>::empty());
    } else {
        let ab = a + b;
        assert(ab.take(8) =~= a.take(8));
        assert(ab.skip(8) =~= a.skip(8) + b);
        lemma_pack_append(a.skip(8), b);
        if a.len() == 8 {
            assert(a.skip(8) =~= Seq::<bool>::empty());
            assert(a.take(8) =~= a);
            assert(pack(a.skip(8)) =~= Seq::<u8>::empty());
            if b.len() == 0 {
                assert(ab =~= a);
            }
        }
    }
}

impl BitWriter {
    /// The bits written so far.
    pub closed spec fn bits(&self) -> Seq<bool> {
        self.written@
    }

    /// Whole bytes are in `out`, the rest in `cur`.
    pub closed spec fn wf(&self) -> bool {
        &&& self.nbits < 8
        &&& self.written@.len() == 8 * (self.out@.len() as int) + self.nbits
        &&& self.out@ == pack(self.written@.take(8 * (self.out@.len() as int)))
        &&& self.cur == byte_of(self.written@.skip(8 * (self.out@.len() as int)))
    }

    /// An empty writer.
    pub fn new() -> (r: Self)
        ensures
            r.wf(),
            r.bits() == Seq::<bool>::empty(),
    {
        let r = BitWriter { out: Vec::new(), cur: 0, nbits: 0, written: Ghost(Seq::empty()) };
        proof {
            assert(r.written@.take(0) =~= Seq::<bool>::empty());
            assert(r.written@.skip(0) =~= Seq::<bool>::empty());
        }
        r
    }

    /// Writes one bit.
    pub fn write_bit(&mut self, bit: bool)
        requires
            old(self).wf(),
        ensures
            final(self).wf(),
            final(self).bits() == old(self).bits().push(bit),
    {
        let ghost w = self.written@;
        let ghost o = self.out@;
        let ghost rest = w.skip(8 * (o.len() as int));
        let ghost rest2 = rest.push(bit);
        let k = self.nbits;
        let weight: u8 = if k == 0 {
            1
        } else if k == 1 {
            2
        } else if k == 2 {
            4
        } else if k == 3 {
            8
        } else if k == 4 {
            16
        } else if k == 5 {
            32
        } else if k == 6 {
            64
        } else {
            128
        };
        proof {
            reveal_with_fuel(super::zlib::pow2, 9);
            assert(weight == super::zlib::pow2(k as nat));
            assert(rest.len() == k);
            lemma_byte_of_bound(rest);
            assert(rest2.drop_last() =~= rest);
        }
        if bit {
            self.cur = self.cur + weight;
        }
        self.nbits = self.nbits + 1;
        proof {
            self.written = Ghost(w.push(bit));
            assert(self.written@.take(8 * (o.len() as int)) =~= w.take(8 * (o.len() as int)));
            assert(self.written@.skip(8 * (o.len() as int)) =~= rest2);
        }
        if self.nbits == 8 {
            let ghost full = self.written@.take(8 * (o.len() as int));
            let ghost c = self.cur;
            proof {
                assert(c == byte_of(rest2));
                assert(full == w.take(8 * (o.len() as int)));
                assert(pack(full) == o);
            }
            self.out.push(self.cur);
            self.cur = 0;
            self.nbits = 0;
            proof {
                let wn = self.written@;
                assert(wn.take(8 * (o.len() as int) + 8) =~= full + rest2);
                lemma_pack_append(full, rest2);
                assert(rest2.len() == 8);
                assert(pack(rest2) == seq![byte_of(rest2) as u8]);
                assert(self.out@ =~= o + seq![c]);
                assert(self.out@ == pack(wn.take(8 * (o.len() as int) + 8)));
                assert(wn.skip(8 * (o.len() as int) + 8) =~= Seq::<bool>::empty());
            }
        }
    }

    /// Writes the `n` low bits of `value`, least significant first.
    pub fn write_bits(&mut self, value: u32, n: u32)
        requires
            old(self).wf(),
            n <= 32,
        ensures
            final(self).wf(),
            final(self).bits() == old(self).bits() + bitseq(value as int, n as nat),
    {
        let ghost start = self.written@;
        let mut v = value;
        let mut i: u32 = 0;
        while i < n
            invariant
                self.wf(),
                i <= n <= 32,
                start == old(self).bits(),
                self.written@.len() == start.len() + i,
                start + bitseq(value as int, n as nat) == self.written@ + bitseq(v as int, (n - i) as nat),
            decreases n - i,
        {
            proof {
                assert(bitseq(v as int, (n - i) as nat) =~= seq![v % 2 == 1] + bitseq((v / 2) as int, (n - i - 1) as nat));
                assert(self.written@ + bitseq(v as int, (n - i) as nat) =~= self.written@.push(v % 2 == 1) + bitseq((v / 2) as int, (n - i - 1) as nat));
            }
            self.write_bit(v % 2 == 1);
            v = v / 2;
            i = i + 1;
        }
        proof {
            assert(bitseq(v as int, 0) =~= Seq::<bool>::empty());
            assert(self.written@ + Seq::<bool>::empty() =~= self.written@);
        }
    }

    /// The bytes written, the last one padded with zero bits.
    pub fn finish(self) -> (r: Vec<u8>)
        requires
            self.wf(),
        ensures
            r@ == pack(self.bits()),
    {
        let ghost w = self.written@;
        let ghost o = self.out@;
        let mut out = self.out;
        if self.nbits > 0 {
            out.push(self.cur);
            proof {
                let rest = w.skip(8 * (o.len() as int));
                assert(w =~= w.take(8 * (o.len() as int)) + rest);
                lemma_pack_append(w.take(8 * (o.len() as int)), rest);
                assert(pack(rest) == seq![byte_of(rest) as u8]);
            }
        } else {
            proof {
                assert(w =~= w.take(8 * (o.len() as int)));
            }
        }
        out
    }
}

/// `v`'s `k` low bits reversed onto `r`.
pub open spec fn rev_acc(r: int, x: int, k: nat) -> int
    decreases k,
{
    if k == 0 {
        r
    } else {
        rev_acc(2 * r + x % 2, x / 2, (k - 1) as nat)
    }
}

/// The `n` low bits of `v` in reverse order.
pub open spec fn reverse_spec(v: int, n: nat) -> int {
    rev_acc(0, v, n)
}

pub proof fn lemma_rev_acc_bound(r: int, x: int, k: nat, j: nat)
    requires
        0 <= r < super::zlib::pow2(j),
        x >= 0,
    ensures
        0 <= rev_acc(r, x, k) < super::zlib::pow2(j + k),
    decreases k,
{
    if k > 0 {
        assert(super::zlib::pow2(j + 1) == 2 * super::zlib::pow2(j));
        lemma_rev_acc_bound(2 * r + x % 2, x / 2, (k - 1) as nat, j + 1);
        assert(j + 1 + (k - 1) == j + k);
    }
}

/// The `n` low bits of `value` in reverse order.
pub fn reverse_bits(value: u32, n: u32) -> (r: u32)
    requires
        n <= 16,
    ensures
        r == reverse_spec(value as int, n as nat),
        r < super::zlib::pow2(n as nat),
{
    let mut r: u32 = 0;
    let mut x = value;
    let mut i: u32 = 0;
    proof {
        assert(super::zlib::pow2(0) == 1);
        lemma_rev_acc_bound(0, value as int, n as nat, 0);
    }
    while i < n
        invariant
            i <= n <= 16,
            rev_acc(r as int, x as int, (n - i) as nat) == reverse_spec(value as int, n as nat),
            r < super::zlib::pow2(i as nat),
        decreases n - i,
    {
        proof {
            super::zlib::lemma_pow2_mono((i + 1) as nat, 16);
            assert(super::zlib::pow2(16) == 65536) by {
                reveal_with_fuel(super::zlib::pow2, 17);
            }
            assert(super::zlib::pow2((i + 1) as nat) == 2 * super::zlib::pow2(i as nat));
        }
        r = 2 * r + x % 2;
        x = x / 2;
        i = i + 1;
    }
    r
}

/// How many bits a code for one of `n` symbols needs: `ceil(log2(n))`, 0 for at most one.
pub open spec fn bits_for(n: int) -> int
    decreases n,
{
    if n <= 1 {
        0
    } else {
        1 + bits_for((n + 1) / 2)
    }
}

pub proof fn lemma_bits_for_nonneg(n: int)
    ensures
        bits_for(n) >= 0,
    decreases n,
{
    if n > 1 {
        lemma_bits_for_nonneg((n + 1) / 2);
    }
}

pub proof fn lemma_bits_for_le(n: int, k: int)
    requires
        n <= super::zlib::pow2(k as nat),
        0 <= k,
    ensures
        bits_for(n) <= k,
    decreases n,
{
    if n > 1 {
        assert(k >= 1) by {
            if k == 0 {
                assert(super::zlib::pow2(0) == 1);
            }
        }
        assert(super::zlib::pow2(k as nat) == 2 * super::zlib::pow2((k - 1) as nat));
        lemma_bits_for_le((n + 1) / 2, k - 1);
    }
}

/// How many bits a code for one of `n` symbols needs: `ceil(log2(n))`, 0 for at most one.
pub fn bits_for_count(n: usize) -> (r: u32)
    ensures
        r == bits_for(n as int),
        n <= 4096 ==> r <= 12,
{
    proof {
        assert(super::zlib::pow2(12) == 4096) by {
            reveal_with_fuel(super::zlib::pow2, 13);
        }
        if n <= 4096 {
            lemma_bits_for_le(n as int, 12);
        }
        assert(super::zlib::pow2(64) == 0x1_0000_0000_0000_0000) by {
            reveal_with_fuel(super::zlib::pow2, 65);
        }
        lemma_bits_for_le(n as int, 64);
    }
    let mut m = n;
    let mut k: u32 = 0;
    while m > 1
        invariant
            k + bits_for(m as int) == bits_for(n as int),
            bits_for(n as int) <= 64,
        decreases m,
    {
        proof {
            lemma_bits_for_nonneg((m as int + 1) / 2);
            lemma_bits_for_nonneg(m as int);
        }
        m = m / 2 + m % 2;
        k = k + 1;
    }
    k
}

/// `bitseq(v, n)` is `n` bits long.
pub proof fn lemma_bitseq_len(v: int, n: nat)
    ensures
        bitseq(v, n).len() == n,
    decreases n,
{
    if n > 0 {
        lemma_bitseq_len(v / 2, (n - 1) as nat);
    }
}

/// How many of `u[0..s]` are set: the canonical rank of symbol `s` among the used ones.
pub open spec fn rank(u: Seq<bool>, s: int) -> int
    decreases s,
{
    if s <= 0 {
        0
    } else {
        rank(u, s - 1) + if u[s - 1] { 1int } else { 0int }
    }
}

pub proof fn lemma_rank_bounds(u: Seq<bool>, s: int)
    requires
        0 <= s,
    ensures
        0 <= rank(u, s) <= s,
    decreases s,
{
    if s > 0 {
        lemma_rank_bounds(u, s - 1);
    }
}

pub proof fn lemma_rank_mono(u: Seq<bool>, a: int, b: int)
    requires
        0 <= a <= b,
    ensures
        rank(u, a) <= rank(u, b),
        a < b && u[a] ==> rank(u, a) < rank(u, b),
    decreases b - a,
{
    if a < b {
        lemma_rank_mono(u, a, b - 1);
        lemma_rank_bounds(u, b - 1);
    }
}

/// The code lengths of the uniform code for the used symbols `u`: every used symbol gets
/// `ceil(log2(count))` bits (1 when at most one is used), the others none.
pub open spec fn uniform_lengths(u: Seq<bool>) -> Seq<u8> {
    let n = rank(u, u.len() as int);
    Seq::new(u.len(), |s: int| if u[s] { if n <= 1 { 1u8 } else { bits_for(n) as u8 } } else { 0u8 })
}

/// The bits the uniform code for `u` writes for symbol `s`: none when at most one symbol is
/// used, else its rank among the used symbols, reversed, in `ceil(log2(count))` bits.
pub open spec fn sym_bits(u: Seq<bool>, s: int) -> Seq<bool> {
    let n = rank(u, u.len() as int);
    if n <= 1 {
        seq![]
    } else {
        bitseq(reverse_spec(rank(u, s), bits_for(n) as nat), bits_for(n) as nat)
    }
}

/// How to write the symbols of one channel: the uniform code of its used symbols.
pub struct EncodeTable {
    single: bool,
    len: u32,
    codes: Vec<u32>,
    used: Ghost<Seq<bool>>,
}

impl EncodeTable {
    /// The used symbols the table codes.
    pub closed spec fn used(&self) -> Seq<bool> {
        self.used@
    }

    /// The table writes the uniform code of its used symbols.
    pub closed spec fn wf(&self) -> bool {
        let u = self.used@;
        let n = rank(u, u.len() as int);
        &&& u.len() <= 4096
        &&& self.single == (n <= 1)
        &&& self.len == bits_for(n)
        &&& self.len <= 12
        &&& self.codes@.len() == u.len()
        &&& forall|s: int| 0 <= s < u.len() ==> #[trigger] self.codes@[s] == reverse_spec(rank(u, s), self.len as nat)
    }
}

/// Builds the uniform code for the used symbols `used` (index = symbol): its code lengths and
/// the table that writes it.
pub fn build_uniform_table(used: &Vec<bool>) -> (r: (Vec<u8>, EncodeTable))
    requires
        used@.len() <= 4096,
    ensures
        r.0@ == uniform_lengths(used@),
        r.1.wf(),
        r.1.used() == used@,
{
    let n_sym = used.len();
    let mut count: usize = 0;
    let mut i: usize = 0;
    while i < n_sym
        invariant
            i <= n_sym == used@.len() <= 4096,
            count == rank(used@, i as int),
            count <= i,
        decreases n_sym - i,
    {
        if used[i] {
            count = count + 1;
        }
        i = i + 1;
    }
    let len = bits_for_count(count);
    let single = count <= 1;
    let mut lengths: Vec<u8> = Vec::new();
    let mut codes: Vec<u32> = Vec::new();
    let mut rk: usize = 0;
    let mut s: usize = 0;
    while s < n_sym
        invariant
            s <= n_sym == used@.len() <= 4096,
            count == rank(used@, n_sym as int),
            single == (count <= 1),
            len == bits_for(count as int),
            len <= 12,
            rk == rank(used@, s as int),
            rk <= s,
            lengths@ == uniform_lengths(used@).take(s as int),
            codes@.len() == s,
            forall|t: int| 0 <= t < s ==> #[trigger] codes@[t] == reverse_spec(rank(used@, t), len as nat),
        decreases n_sym - s,
    {
        let l: u8 = if used[s] {
            if single {
                1
            } else {
                len as u8
            }
        } else {
            0
        };
        lengths.push(l);
        codes.push(reverse_bits(rk as u32, len));
        proof {
            assert(uniform_lengths(used@).take(s + 1) =~= uniform_lengths(used@).take(s as int).push(l));
        }
        if used[s] {
            rk = rk + 1;
        }
        s = s + 1;
    }
    proof {
        assert(uniform_lengths(used@).take(n_sym as int) =~= uniform_lengths(used@));
    }
    (lengths, EncodeTable { single, len, codes, used: Ghost(used@) })
}

/// Writes `symbol` with `table`: nothing when at most one symbol is used.
pub fn write_symbol(writer: &mut BitWriter, table: &EncodeTable, symbol: usize)
    requires
        old(writer).wf(),
        table.wf(),
        symbol < table.used().len(),
    ensures
        final(writer).wf(),
        final(writer).bits() == old(writer).bits() + sym_bits(table.used(), symbol as int),
{
    if table.single {
        proof {
            assert(old(writer).bits() + Seq::<bool>::empty() =~= old(writer).bits());
        }
        return;
    }
    writer.write_bits(table.codes[symbol], table.len);
}

/// Whether the value `v` is 0 or one of the code lengths `l`.
pub open spec fn in_d(l: Seq<u8>, v: int) -> bool {
    v == 0 || exists|i: int| 0 <= i < l.len() && l[i] == v
}

/// How many of the values below `v` are in `in_d(l, _)`.
pub open spec fn d_rank(l: Seq<u8>, v: int) -> int
    decreases v,
{
    if v <= 0 {
        0
    } else {
        d_rank(l, v - 1) + if in_d(l, v - 1) { 1int } else { 0int }
    }
}

/// The length of the codes the code-length code gives each distinct length value.
pub open spec fn level2_len(l: Seq<u8>) -> int {
    let n = d_rank(l, 16);
    if n <= 1 {
        0
    } else {
        bits_for(n)
    }
}

/// The code-length code's length for value `v`.
pub open spec fn cl_value(l: Seq<u8>, v: int) -> int {
    if in_d(l, v) {
        if level2_len(l) >= 1 {
            level2_len(l)
        } else {
            1
        }
    } else {
        0
    }
}

/// The first `k` 3-bit code-length-code lengths, in transmission order.
pub open spec fn cl_bits(l: Seq<u8>, k: int) -> Seq<bool>
    decreases k,
{
    if k <= 0 {
        seq![]
    } else {
        cl_bits(l, k - 1) + bitseq(cl_value(l, cl_order()[k - 1]), 3)
    }
}

/// The codes of the first `k` code lengths.
pub open spec fn len_bits(l: Seq<u8>, k: int) -> Seq<bool>
    decreases k,
{
    if k <= 0 {
        seq![]
    } else {
        len_bits(l, k - 1) + bitseq(reverse_spec(d_rank(l, l[k - 1] as int), level2_len(l) as nat), level2_len(l) as nat)
    }
}

/// What [`write_huffman_code_lengths`] writes for `l`: the "normal" form with all 19
/// code-length-code lengths sent, and the lengths coded by the canonical code in which every
/// distinct value gets the same length.
pub open spec fn header_bits(l: Seq<u8>) -> Seq<bool> {
    bitseq(0, 1) + bitseq(15, 4) + cl_bits(l, 19) + bitseq(0, 1) + len_bits(l, l.len() as int)
}

pub proof fn lemma_d_rank_bounds(l: Seq<u8>, v: int)
    requires
        0 <= v,
    ensures
        0 <= d_rank(l, v) <= v,
    decreases v,
{
    if v > 0 {
        lemma_d_rank_bounds(l, v - 1);
    }
}

proof fn lemma_d_rank_mono(l: Seq<u8>, a: int, b: int)
    requires
        0 <= a <= b,
    ensures
        d_rank(l, a) <= d_rank(l, b),
        a < b && in_d(l, a) ==> d_rank(l, a) < d_rank(l, b),
    decreases b - a,
{
    if a < b {
        lemma_d_rank_mono(l, a, b - 1);
    }
}

/// Writes one prefix code's lengths in the "normal" form (see [`header_bits`]).
pub fn write_huffman_code_lengths(writer: &mut BitWriter, code_lengths: &[u8])
    requires
        old(writer).wf(),
        code_lengths@.len() <= 4096,
        forall|i: int| 0 <= i < code_lengths@.len() ==> code_lengths@[i] <= 15,
    ensures
        final(writer).wf(),
        final(writer).bits() == old(writer).bits() + header_bits(code_lengths@),
        header_bits(code_lengths@).len() <= 64 + 4 * code_lengths@.len(),
{
    let ghost l = code_lengths@;
    let ghost w0 = writer.bits();
    let n = code_lengths.len();
    let mut present: Vec<bool> = Vec::new();
    let mut v: usize = 0;
    while v < 16
        invariant
            v <= 16,
            present@.len() == v,
            forall|j: int| 0 <= j < v ==> present@[j] == (j == 0),
        decreases 16 - v,
    {
        present.push(v == 0);
        v = v + 1;
    }
    let mut i: usize = 0;
    while i < n
        invariant
            i <= n == l.len() <= 4096,
            l == code_lengths@,
            forall|k: int| 0 <= k < l.len() ==> l[k] <= 15,
            present@.len() == 16,
            forall|j: int| 0 <= j < 16 ==> present@[j] == (j == 0 || exists|k: int| 0 <= k < i && l[k] == j),
        decreases n - i,
    {
        let x = code_lengths[i] as usize;
        present.set(x, true);
        proof {
            assert forall|j: int| 0 <= j < 16 implies present@[j] == (j == 0 || exists|k: int| 0 <= k < i + 1 && l[k] == j) by {
                if j == x {
                    assert(l[i as int] == j);
                }
            }
        }
        i = i + 1;
    }
    // ranks of the distinct values
    let mut ranks: Vec<u32> = Vec::new();
    let mut count: u32 = 0;
    let mut v: usize = 0;
    while v < 16
        invariant
            v <= 16,
            present@.len() == 16,
            forall|j: int| 0 <= j < 16 ==> present@[j] == in_d(l, j),
            ranks@.len() == v,
            count == d_rank(l, v as int),
            count <= v,
            forall|j: int| 0 <= j < v ==> #[trigger] ranks@[j] == d_rank(l, j),
        decreases 16 - v,
    {
        ranks.push(count);
        if present[v] {
            count = count + 1;
        }
        v = v + 1;
    }
    let level2: u32 = if count <= 1 { 0 } else { bits_for_count(count as usize) };
    proof {
        assert(level2 == level2_len(l));
        assert(super::zlib::pow2(4) == 16) by {
            reveal_with_fuel(super::zlib::pow2, 5);
        }
        lemma_bits_for_le(count as int, 4);
        lemma_bitseq_len(0, 1);
        lemma_bitseq_len(15, 4);
    }
    writer.write_bits(0, 1);
    writer.write_bits(15, 4);
    let ghost w1 = writer.bits();
    let mut k: usize = 0;
    while k < 19
        invariant
            k <= 19,
            writer.wf(),
            present@.len() == 16,
            forall|j: int| 0 <= j < 16 ==> present@[j] == in_d(l, j),
            forall|j: int| 0 <= j < l.len() ==> l[j] <= 15,
            level2 == level2_len(l),
            level2 <= 4,
            writer.bits() == w1 + cl_bits(l, k as int),
            cl_bits(l, k as int).len() == 3 * k,
        decreases 19 - k,
    {
        let slot = cl_slot(k);
        let val: u32 = if slot < 16 && present[slot] {
            if level2 >= 1 {
                level2
            } else {
                1
            }
        } else {
            0
        };
        proof {
            if slot >= 16 {
                assert(!in_d(l, slot as int)) by {
                    if exists|j: int| 0 <= j < l.len() && l[j] == slot {
                        let j = choose|j: int| 0 <= j < l.len() && l[j] == slot;
                        assert(l[j] <= 15);
                    }
                }
            }
            assert(val == cl_value(l, cl_order()[k as int]));
            lemma_bitseq_len(val as int, 3);
        }
        writer.write_bits(val, 3);
        proof {
            assert(writer.bits() =~= w1 + cl_bits(l, (k + 1) as int));
        }
        k = k + 1;
    }
    writer.write_bits(0, 1);
    let ghost w2 = writer.bits();
    let mut i: usize = 0;
    while i < n
        invariant
            i <= n == l.len() <= 4096,
            l == code_lengths@,
            writer.wf(),
            forall|j: int| 0 <= j < l.len() ==> l[j] <= 15,
            ranks@.len() == 16,
            forall|j: int| 0 <= j < 16 ==> #[trigger] ranks@[j] == d_rank(l, j),
            level2 == level2_len(l),
            level2 <= 4,
            writer.bits() == w2 + len_bits(l, i as int),
            len_bits(l, i as int).len() == level2 * i,
        decreases n - i,
    {
        let x = code_lengths[i] as usize;
        let rk = ranks[x];
        proof {
            lemma_d_rank_bounds(l, x as int);
        }
        let code: u32 = if level2 > 0 { reverse_bits(rk, level2) } else { 0 };
        proof {
            lemma_bitseq_len(code as int, level2 as nat);
            if level2 == 0 {
                assert(bitseq(reverse_spec(d_rank(l, x as int), 0), 0) =~= bitseq(code as int, 0));
            }
            assert(level2 * (i + 1) == level2 * i + level2) by (nonlinear_arith);
            assert(level2 * i <= 4 * i) by (nonlinear_arith)
                requires level2 <= 4, i >= 0;
        }
        writer.write_bits(code, level2);
        proof {
            assert(writer.bits() =~= w2 + len_bits(l, (i + 1) as int));
        }
        i = i + 1;
    }
    proof {
        assert(writer.bits() =~= w0 + header_bits(l));
        assert(level2 * n <= 4 * n) by (nonlinear_arith)
            requires level2 <= 4, n >= 0;
    }
}

/// Channel `c` of a pixel: 0 green, 1 red, 2 blue, 3 alpha.
pub open spec fn chan(argb: u32, c: int) -> int {
    if c == 0 {
        (argb / 256) as int % 256
    } else if c == 1 {
        (argb / 65536) as int % 256
    } else if c == 2 {
        argb as int % 256
    } else {
        (argb / 16777216) as int
    }
}

/// Which values of channel `c` occur among the pixels `px`, over an alphabet of `alphabet`.
pub open spec fn used_of(px: Seq<u32>, c: int, alphabet: int) -> Seq<bool> {
    Seq::new(alphabet as nat, |s: int| exists|i: int| 0 <= i < px.len() && chan(px[i], c) == s)
}

/// The distance code's single (never written) symbol.
pub open spec fn dist_used() -> Seq<bool> {
    Seq::new(40, |s: int| s == 0)
}

/// The symbols of the first `k` pixels, green, red, blue, alpha each.
pub open spec fn pixel_bits(px: Seq<u32>, k: int) -> Seq<bool>
    decreases k,
{
    if k <= 0 {
        seq![]
    } else {
        pixel_bits(px, k - 1) + sym_bits(used_of(px, 0, 280), chan(px[k - 1], 0)) + sym_bits(used_of(px, 1, 256), chan(px[k - 1], 1))
            + sym_bits(used_of(px, 2, 256), chan(px[k - 1], 2)) + sym_bits(used_of(px, 3, 256), chan(px[k - 1], 3))
    }
}

/// What [`encode_image_stream`] writes for the pixels `px`: no color cache, no entropy image,
/// the five uniform codes, then every pixel as a literal.
pub open spec fn stream_bits(px: Seq<u32>) -> Seq<bool> {
    bitseq(0, 1) + bitseq(0, 1) + header_bits(uniform_lengths(used_of(px, 0, 280))) + header_bits(
        uniform_lengths(used_of(px, 1, 256)),
    ) + header_bits(uniform_lengths(used_of(px, 2, 256))) + header_bits(uniform_lengths(used_of(px, 3, 256)))
        + header_bits(uniform_lengths(dist_used())) + pixel_bits(px, px.len() as int)
}

/// Channel `c` of a pixel.
fn channel(argb: u32, c: u32) -> (r: usize)
    requires
        c < 4,
    ensures
        r == chan(argb, c as int),
        r < 256,
{
    if c == 0 {
        ((argb / 256) % 256) as usize
    } else if c == 1 {
        ((argb / 65536) % 256) as usize
    } else if c == 2 {
        (argb % 256) as usize
    } else {
        (argb / 16777216) as usize
    }
}

/// Which values of channel `c` occur among `pixels`.
fn collect_used(pixels: &[u32], c: u32, alphabet: usize) -> (r: Vec<bool>)
    requires
        c < 4,
        256 <= alphabet <= 4096,
    ensures
        r@ == used_of(pixels@, c as int, alphabet as int),
{
    let mut used: Vec<bool> = Vec::new();
    let mut s: usize = 0;
    while s < alphabet
        invariant
            s <= alphabet,
            used@.len() == s,
            forall|t: int| 0 <= t < s ==> !used@[t],
        decreases alphabet - s,
    {
        used.push(false);
        s = s + 1;
    }
    let n = pixels.len();
    let mut i: usize = 0;
    while i < n
        invariant
            i <= n == pixels@.len(),
            c < 4,
            used@.len() == alphabet,
            256 <= alphabet,
            forall|t: int| 0 <= t < alphabet ==> used@[t] == exists|k: int| 0 <= k < i && chan(pixels@[k], c as int) == t,
        decreases n - i,
    {
        let x = channel(pixels[i], c);
        used.set(x, true);
        proof {
            assert forall|t: int| 0 <= t < alphabet implies used@[t] == exists|k: int| 0 <= k < i + 1 && chan(pixels@[k], c as int) == t by {
                if t == x {
                    assert(chan(pixels@[i as int], c as int) == t);
                }
            }
        }
        i = i + 1;
    }
    assert(used@ =~= used_of(pixels@, c as int, alphabet as int));
    used
}

pub proof fn lemma_uniform_small(u: Seq<bool>)
    requires
        u.len() <= 4096,
    ensures
        forall|s: int| 0 <= s < u.len() ==> #[trigger] uniform_lengths(u)[s] <= 12,
{
    let n = rank(u, u.len() as int);
    lemma_rank_bounds(u, u.len() as int);
    assert(super::zlib::pow2(12) == 4096) by {
        reveal_with_fuel(super::zlib::pow2, 13);
    }
    lemma_bits_for_le(n, 12);
    lemma_bits_for_nonneg(n);
}

pub proof fn lemma_sym_bits_len(u: Seq<bool>, s: int)
    requires
        u.len() <= 4096,
    ensures
        sym_bits(u, s).len() <= 12,
{
    let n = rank(u, u.len() as int);
    lemma_rank_bounds(u, u.len() as int);
    assert(super::zlib::pow2(12) == 4096) by {
        reveal_with_fuel(super::zlib::pow2, 13);
    }
    lemma_bits_for_le(n, 12);
    lemma_bits_for_nonneg(n);
    if n > 1 {
        lemma_bitseq_len(reverse_spec(rank(u, s), bits_for(n) as nat), bits_for(n) as nat);
    }
}

/// Writes one code's lengths for the uniform code of `used`, returning its table.
fn write_uniform(writer: &mut BitWriter, used: &Vec<bool>) -> (r: EncodeTable)
    requires
        old(writer).wf(),
        used@.len() <= 4096,
    ensures
        final(writer).wf(),
        final(writer).bits() == old(writer).bits() + header_bits(uniform_lengths(used@)),
        header_bits(uniform_lengths(used@)).len() <= 64 + 4 * used@.len(),
        r.wf(),
        r.used() == used@,
{
    let (lengths, table) = build_uniform_table(used);
    proof {
        lemma_uniform_small(used@);
    }
    write_huffman_code_lengths(writer, lengths.as_slice());
    table
}

/// Writes the image-data part of a VP8L stream for `pixels` (ARGB, row-major): no color cache,
/// no entropy image, one group of uniform codes, every pixel a literal (see [`stream_bits`]).
/// Checks `options` for cancellation and reports the second half of a decode-then-encode
/// conversion's progress every [`PROGRESS_GRANULARITY`] pixels.
#[verifier::spinoff_prover]
#[verifier::rlimit(40)]
pub fn encode_image_stream(writer: &mut BitWriter, pixels: &[u32], options: &ConvertOptions) -> (r: Result<(), Stop>)
    requires
        old(writer).wf(),
        pixels@.len() <= 0x2000_0000_0000_0000,
    ensures
        final(writer).wf(),
        (r is Ok && final(writer).bits() == old(writer).bits() + stream_bits(pixels@)) || (options.may_cancel() && r
            == Err::<(), Stop>(Stop::Cancelled)),
        r is Ok ==> stream_bits(pixels@).len() <= 5000 + 48 * pixels@.len(),
{
    let ghost w0 = writer.bits();
    let green_used = collect_used(pixels, 0, 280);
    let red_used = collect_used(pixels, 1, 256);
    let blue_used = collect_used(pixels, 2, 256);
    let alpha_used = collect_used(pixels, 3, 256);
    let mut dist_used_v: Vec<bool> = Vec::new();
    let mut s: usize = 0;
    while s < 40
        invariant
            s <= 40,
            dist_used_v@ == Seq::new(s as nat, |t: int| t == 0),
        decreases 40 - s,
    {
        dist_used_v.push(s == 0);
        proof {
            assert(dist_used_v@ =~= Seq::new((s + 1) as nat, |t: int| t == 0));
        }
        s = s + 1;
    }
    proof {
        lemma_bitseq_len(0, 1);
    }
    writer.write_bits(0, 1);
    writer.write_bits(0, 1);
    let green = write_uniform(writer, &green_used);
    let red = write_uniform(writer, &red_used);
    let blue = write_uniform(writer, &blue_used);
    let alpha = write_uniform(writer, &alpha_used);
    let _distance = write_uniform(writer, &dist_used_v);
    let ghost w1 = writer.bits();
    proof {
        assert(w1 == w0 + (stream_bits(pixels@).take(stream_bits(pixels@).len() - pixel_bits(pixels@, pixels@.len() as int).len()))) by {
            assert(writer.bits() =~= w0 + bitseq(0, 1) + bitseq(0, 1) + header_bits(uniform_lengths(used_of(pixels@, 0, 280)))
                + header_bits(uniform_lengths(used_of(pixels@, 1, 256))) + header_bits(uniform_lengths(used_of(pixels@, 2, 256)))
                + header_bits(uniform_lengths(used_of(pixels@, 3, 256))) + header_bits(uniform_lengths(dist_used())));
            assert(dist_used_v@ =~= dist_used());
        }
        assert(w1.len() <= w0.len() + 2 + 5 * 64 + 4 * (280 + 256 * 3 + 40));
    }
    let n = pixels.len();
    let mut since: usize = PROGRESS_GRANULARITY;
    let mut i: usize = 0;
    while i < n
        invariant
            i <= n == pixels@.len() <= 0x2000_0000_0000_0000,
            writer.wf(),
            green.wf() && red.wf() && blue.wf() && alpha.wf(),
            green.used() == used_of(pixels@, 0, 280),
            red.used() == used_of(pixels@, 1, 256),
            blue.used() == used_of(pixels@, 2, 256),
            alpha.used() == used_of(pixels@, 3, 256),
            w1.len() <= w0.len() + 5000,
            writer.bits() == w1 + pixel_bits(pixels@, i as int),
            pixel_bits(pixels@, i as int).len() <= 48 * i,
            since <= PROGRESS_GRANULARITY,
        decreases n - i,
    {
        if since >= PROGRESS_GRANULARITY {
            if options.is_cancelled() {
                return Err(Stop::Cancelled);
            }
            options.report_progress(n as u64 + i as u64, 2 * (n as u64));
            since = 0;
        }
        let argb = pixels[i];
        proof {
            lemma_sym_bits_len(green.used(), chan(argb, 0));
            lemma_sym_bits_len(red.used(), chan(argb, 1));
            lemma_sym_bits_len(blue.used(), chan(argb, 2));
            lemma_sym_bits_len(alpha.used(), chan(argb, 3));
        }
        write_symbol(writer, &green, channel(argb, 0));
        write_symbol(writer, &red, channel(argb, 1));
        write_symbol(writer, &blue, channel(argb, 2));
        write_symbol(writer, &alpha, channel(argb, 3));
        proof {
            assert(writer.bits() =~= w1 + pixel_bits(pixels@, (i + 1) as int));
        }
        since = since + 1;
        i = i + 1;
    }
    proof {
        assert(writer.bits() =~= w0 + stream_bits(pixels@));
        assert(w1.len() == w0.len() + stream_bits(pixels@).len() - pixel_bits(pixels@, n as int).len());
    }
    Ok(())
}

/// Packing `b` takes one byte per eight bits, rounded up.
pub proof fn lemma_pack_len(b: Seq<bool>)
    ensures
        pack(b).len() == (b.len() + 7) / 8,
    decreases b.len(),
{
    if b.len() > 8 {
        lemma_pack_len(b.skip(8));
    }
}


// ─── What the writer writes, the reader reads ───────────────────────────────

/// Byte `k` of a packing: the `k`-th eight bits (fewer in the last byte).
proof fn lemma_pack_index(b: Seq<bool>, k: int)
    requires
        0 <= k,
        8 * k < b.len(),
    ensures
        pack(b)[k] == byte_of(b.subrange(8 * k, if 8 * k + 8 < b.len() { 8 * k + 8 } else { b.len() as int })) as u8,
    decreases b.len(),
{
    lemma_pack_len(b);
    if b.len() <= 8 {
        assert(b.subrange(0, b.len() as int) =~= b);
    } else if k == 0 {
        assert(b.subrange(0, 8) =~= b.take(8));
    } else {
        let rest = b.skip(8);
        lemma_pack_len(rest);
        lemma_pack_index(rest, k - 1);
        assert(pack(b) == seq![byte_of(b.take(8)) as u8] + pack(rest));
        assert(pack(b)[k] == pack(rest)[k - 1]);
        let hi = if 8 * k + 8 < b.len() { 8 * k + 8 } else { b.len() as int };
        assert(rest.subrange(8 * (k - 1), hi - 8) =~= b.subrange(8 * k, hi));
    }
}

proof fn lemma_byte_of_zero_pad(c: Seq<bool>, n: nat)
    ensures
        byte_of(c + Seq::new(n, |i: int| false)) == byte_of(c),
    decreases n,
{
    if n > 0 {
        let z = Seq::new(n, |i: int| false);
        let z1 = Seq::new((n - 1) as nat, |i: int| false);
        lemma_byte_of_zero_pad(c, (n - 1) as nat);
        assert((c + z).drop_last() =~= c + z1);
        assert(!(c + z).last());
    }
}

/// Bit `k` of the byte of at most eight bits `c` is `c[k]`.
proof fn lemma_byte_of_bit(c: Seq<bool>, k: int)
    requires
        c.len() <= 8,
        0 <= k < c.len(),
    ensures
        (((byte_of(c) as u8) >> (k as u8)) & 1u8) as int == if c[k] { 1int } else { 0int },
{
    let c8 = c + Seq::new((8 - c.len()) as nat, |i: int| false);
    lemma_byte_of_zero_pad(c, (8 - c.len()) as nat);
    assert(c8.len() == 8);
    assert(c8[k] == c[k]);
    reveal_with_fuel(byte_of, 9);
    assert(super::zlib::pow2(0) == 1 && super::zlib::pow2(1) == 2 && super::zlib::pow2(2) == 4 && super::zlib::pow2(3) == 8)
        by {
        reveal_with_fuel(super::zlib::pow2, 8);
    }
    assert(super::zlib::pow2(4) == 16 && super::zlib::pow2(5) == 32 && super::zlib::pow2(6) == 64 && super::zlib::pow2(7)
        == 128) by {
        reveal_with_fuel(super::zlib::pow2, 8);
    }
    let c7 = c8.drop_last();
    let c6 = c7.drop_last();
    let c5 = c6.drop_last();
    let c4 = c5.drop_last();
    let c3 = c4.drop_last();
    let c2 = c3.drop_last();
    let c1 = c2.drop_last();
    let c0 = c1.drop_last();
    assert(c0.len() == 0);
    let b0 = c8[0];
    let b1 = c8[1];
    let b2 = c8[2];
    let b3 = c8[3];
    let b4 = c8[4];
    let b5 = c8[5];
    let b6 = c8[6];
    let b7 = c8[7];
    assert(c1.last() == b0 && c2.last() == b1 && c3.last() == b2 && c4.last() == b3);
    assert(c5.last() == b4 && c6.last() == b5 && c7.last() == b6 && c8.last() == b7);
    let v = byte_of(c8);
    assert(v == (if b0 { 1int } else { 0 }) + (if b1 { 2int } else { 0 }) + (if b2 { 4int } else { 0 }) + (if b3 {
        8int
    } else {
        0
    }) + (if b4 { 16int } else { 0 }) + (if b5 { 32int } else { 0 }) + (if b6 { 64int } else { 0 }) + (if b7 { 128int } else { 0 }));
    let x: u8 = v as u8;
    assert(x == (if b0 { 1u8 } else { 0u8 }) + (if b1 { 2u8 } else { 0u8 }) + (if b2 { 4u8 } else { 0u8 }) + (if b3 {
        8u8
    } else {
        0u8
    }) + (if b4 { 16u8 } else { 0u8 }) + (if b5 { 32u8 } else { 0u8 }) + (if b6 { 64u8 } else { 0u8 }) + (if b7 {
        128u8
    } else {
        0u8
    }));
    assert(((x >> 0u8) & 1u8 == 1u8) == b0 && ((x >> 1u8) & 1u8 == 1u8) == b1 && ((x >> 2u8) & 1u8 == 1u8) == b2 && ((x >> 3u8)
        & 1u8 == 1u8) == b3 && ((x >> 4u8) & 1u8 == 1u8) == b4 && ((x >> 5u8) & 1u8 == 1u8) == b5 && ((x >> 6u8) & 1u8 == 1u8)
        == b6 && ((x >> 7u8) & 1u8 == 1u8) == b7 && (x >> 0u8) & 1u8 <= 1u8 && (x >> 1u8) & 1u8 <= 1u8 && (x >> 2u8) & 1u8
        <= 1u8 && (x >> 3u8) & 1u8 <= 1u8 && (x >> 4u8) & 1u8 <= 1u8 && (x >> 5u8) & 1u8 <= 1u8 && (x >> 6u8) & 1u8 <= 1u8
        && (x >> 7u8) & 1u8 <= 1u8) by (bit_vector)
        requires
            x == (if b0 { 1u8 } else { 0u8 }) + (if b1 { 2u8 } else { 0u8 }) + (if b2 { 4u8 } else { 0u8 }) + (if b3 {
                8u8
            } else {
                0u8
            }) + (if b4 { 16u8 } else { 0u8 }) + (if b5 { 32u8 } else { 0u8 }) + (if b6 { 64u8 } else { 0u8 }) + (if b7 {
                128u8
            } else {
                0u8
            }),
    ;
}

/// Bit `q` of a packing is bit `q` of the packed bits.
pub proof fn lemma_bit_at_pack(b: Seq<bool>, q: int)
    requires
        0 <= q < b.len(),
    ensures
        super::zlib::bit_at(pack(b), q) == if b[q] { 1int } else { 0int },
{
    let k = q / 8;
    lemma_pack_index(b, k);
    let hi = if 8 * k + 8 < b.len() { 8 * k + 8 } else { b.len() as int };
    let c = b.subrange(8 * k, hi);
    lemma_byte_of_bit(c, q % 8);
    assert(c[q % 8] == b[q]);
}

/// What [`BitWriter`] writes, [`BitReader`] reads back: the `n` bits at bit `p` of the bytes
/// [`BitWriter::finish`] gives for the bits `b` are the `n` bits of `b` there, the first one
/// least significant.
#[verifier::spinoff_prover]
pub proof fn lemma_reader_reads_writer(b: Seq<bool>, p: int, n: nat)
    requires
        0 <= p,
        p + n <= b.len(),
    ensures
        bits_le(pack(b), p, n) == byte_of(b.subrange(p, p + n)),
    decreases n,
{
    if n == 0 {
        assert(b.subrange(p, p) =~= Seq::<bool>::empty());
    } else {
        let m = (n - 1) as nat;
        lemma_reader_reads_writer(b, p, m);
        lemma_bit_at_pack(b, p + m);
        let s = b.subrange(p, p + n);
        assert(s.drop_last() =~= b.subrange(p, p + m));
        assert(s.last() == b[p + m]);
        let w = super::zlib::pow2(m) as int;
        assert(bits_le(pack(b), p, n) == bits_le(pack(b), p, m) + super::zlib::bit_at(pack(b), p + m) * w);
        assert(byte_of(s) == byte_of(s.drop_last()) + if s.last() { w } else { 0 });
    }
}


} // verus!
