//! A zlib (RFC 1950) / DEFLATE (RFC 1951) codec, used by [`super::png`].
//!
//! Decoding handles all three DEFLATE block types (stored, fixed Huffman, dynamic Huffman);
//! encoding emits stored blocks only, which RFC 1951 defines as a legal encoding. Every failure
//! is a plain `None`; `super::png` turns it into a typed error.
//!
//! The contracts here are stated over a bit-level model of the input: bit `p` of `data` is bit
//! `p % 8` (least significant first) of byte `p / 8`, the packing RFC 1951 uses for every field
//! except Huffman codes, which are read most significant bit first.

use vstd::prelude::*;

use crate::bytes::{be32, le16, u16_le, u32_be};

verus! {

// ─── The bit-level model ───────────────────────────────────────────────────

/// `2^n`.
pub open spec fn pow2(n: nat) -> nat
    decreases n,
{
    if n == 0 {
        1
    } else {
        2 * pow2((n - 1) as nat)
    }
}

/// Bit `p` of `d`: bit `p % 8` of byte `p / 8`.
pub open spec fn bit_at(d: Seq<u8>, p: int) -> int {
    ((d[p / 8] >> ((p % 8) as u8)) & 1u8) as int
}

/// The `n` bits starting at bit `p`, the first one least significant.
pub open spec fn bits_le(d: Seq<u8>, p: int, n: nat) -> int
    decreases n,
{
    if n == 0 {
        0
    } else {
        bits_le(d, p, (n - 1) as nat) + bit_at(d, p + n - 1) * pow2((n - 1) as nat)
    }
}

/// The `n` bits starting at bit `p`, the first one most significant (Huffman codes).
pub open spec fn bits_msb(d: Seq<u8>, p: int, n: nat) -> int
    decreases n,
{
    if n == 0 {
        0
    } else {
        2 * bits_msb(d, p, (n - 1) as nat) + bit_at(d, p + n - 1)
    }
}

/// The next byte boundary at or after bit `p`.
pub open spec fn align_up(p: int) -> int {
    if p % 8 == 0 {
        p
    } else {
        (p / 8 + 1) * 8
    }
}

pub proof fn lemma_bit_le_1(d: Seq<u8>, p: int)
    requires
        0 <= p / 8 < d.len(),
    ensures
        0 <= bit_at(d, p) <= 1,
{
    let b = d[p / 8];
    let k = (p % 8) as u8;
    assert((b >> k) & 1u8 <= 1u8) by (bit_vector);
}

pub proof fn lemma_bits_le_bound(d: Seq<u8>, p: int, n: nat)
    requires
        0 <= p,
        p + n <= d.len() * 8,
    ensures
        0 <= bits_le(d, p, n) < pow2(n),
    decreases n,
{
    if n > 0 {
        lemma_bits_le_bound(d, p, (n - 1) as nat);
        lemma_bit_le_1(d, p + n - 1);
        assert(pow2(n) == 2 * pow2((n - 1) as nat));
        let b = bit_at(d, p + n - 1);
        let w = pow2((n - 1) as nat) as int;
        if b == 0 {
            assert(b * w == 0);
        } else {
            assert(b == 1);
            assert(b * w == w);
        }
    }
}

proof fn lemma_bits_msb_bound(d: Seq<u8>, p: int, n: nat)
    requires
        0 <= p,
        p + n <= d.len() * 8,
    ensures
        0 <= bits_msb(d, p, n) < pow2(n),
    decreases n,
{
    if n > 0 {
        lemma_bits_msb_bound(d, p, (n - 1) as nat);
        lemma_bit_le_1(d, p + n - 1);
    }
}

/// Bit reader over a byte slice, least significant bit first within each byte.
pub struct BitReader<'a> {
    data: &'a [u8],
    byte_pos: usize,
    bit_pos: u8,
}

impl<'a> BitReader<'a> {
    /// The bytes being read.
    pub closed spec fn data(&self) -> Seq<u8> {
        self.data@
    }

    /// The index of the next bit to read.
    pub closed spec fn pos(&self) -> int {
        self.byte_pos * 8 + self.bit_pos
    }

    /// The position never passes the end of the data.
    pub closed spec fn wf(&self) -> bool {
        &&& self.bit_pos < 8
        &&& self.byte_pos <= self.data@.len()
        &&& self.byte_pos == self.data@.len() ==> self.bit_pos == 0
    }

    /// A well-formed reader stands between the start and the end of its data.
    pub proof fn lemma_pos_range(&self)
        requires
            self.wf(),
        ensures
            0 <= self.pos() <= self.data().len() * 8,
    {
    }

    /// A reader at bit 0 of `data`.
    pub fn new(data: &'a [u8]) -> (r: Self)
        ensures
            r.wf(),
            r.data() == data@,
            r.pos() == 0,
    {
        BitReader { data, byte_pos: 0, bit_pos: 0 }
    }

    /// Reads one bit; `None` at the end of the data.
    pub fn read_bit(&mut self) -> (r: Option<u32>)
        requires
            old(self).wf(),
        ensures
            final(self).wf(),
            final(self).data() == old(self).data(),
            (old(self).pos() < old(self).data().len() * 8) == r is Some,
            r matches Some(b) ==> b == bit_at(old(self).data(), old(self).pos()) && final(self).pos() == old(self).pos() + 1,
    {
        if self.byte_pos >= self.data.len() {
            return None;
        }
        let byte = self.data[self.byte_pos];
        let k = self.bit_pos;
        let bit = (byte >> k) & 1u8;
        proof {
            assert(self.pos() / 8 == self.byte_pos as int);
            assert(self.pos() % 8 == self.bit_pos as int);
        }
        self.bit_pos = self.bit_pos + 1;
        if self.bit_pos == 8 {
            self.bit_pos = 0;
            self.byte_pos = self.byte_pos + 1;
        }
        Some(bit as u32)
    }

    /// Reads `n` bits, the first one least significant; `None` if fewer than `n` remain.
    pub fn read_bits(&mut self, n: u32) -> (r: Option<u32>)
        requires
            old(self).wf(),
            n <= 24,
        ensures
            final(self).wf(),
            final(self).data() == old(self).data(),
            (old(self).pos() + n <= old(self).data().len() * 8) == r is Some,
            r matches Some(v) ==> v == bits_le(old(self).data(), old(self).pos(), n as nat) && final(self).pos() == old(self).pos() + n,
    {
        let ghost start = self.pos();
        let mut result: u32 = 0;
        let mut weight: u32 = 1;
        let mut i: u32 = 0;
        while i < n
            invariant
                self.wf(),
                self.data() == old(self).data(),
                start == old(self).pos(),
                i <= n <= 24,
                self.pos() == start + i,
                start + i <= self.data().len() * 8,
                result == bits_le(self.data(), start, i as nat),
                weight == pow2(i as nat),
                result < weight,
            decreases n - i,
        {
            proof {
                assert(pow2(i as nat) <= 0x80_0000) by {
                    lemma_pow2_mono(i as nat, 23);
                    reveal_with_fuel(pow2, 24);
                }
            }
            match self.read_bit() {
                None => {
                    return None;
                },
                Some(b) => {
                    proof {
                        lemma_bit_le_1(self.data(), start + i);
                    }
                    assert(pow2((i + 1) as nat) == 2 * pow2(i as nat));
                    if b == 0 {
                        assert(b * weight == 0);
                    } else {
                        assert(b == 1);
                        assert(b * weight == weight);
                    }
                    result = result + b * weight;
                    weight = weight * 2;
                    i = i + 1;
                },
            }
        }
        Some(result)
    }

    /// Skips to the start of the next byte, discarding a partially read byte.
    pub fn align_to_byte(&mut self)
        requires
            old(self).wf(),
        ensures
            final(self).wf(),
            final(self).data() == old(self).data(),
            final(self).pos() == align_up(old(self).pos()),
    {
        if self.bit_pos != 0 && self.byte_pos < self.data.len() {
            self.bit_pos = 0;
            self.byte_pos = self.byte_pos + 1;
        }
    }

    /// Reads a whole byte at a byte boundary; `None` at the end of the data.
    pub fn read_aligned_byte(&mut self) -> (r: Option<u8>)
        requires
            old(self).wf(),
            old(self).pos() % 8 == 0,
        ensures
            final(self).wf(),
            final(self).data() == old(self).data(),
            (old(self).pos() / 8 < old(self).data().len()) == r is Some,
            r matches Some(b) ==> b == old(self).data()[old(self).pos() / 8] && final(self).pos() == old(self).pos() + 8,
    {
        if self.byte_pos >= self.data.len() {
            return None;
        }
        let byte = self.data[self.byte_pos];
        self.byte_pos = self.byte_pos + 1;
        Some(byte)
    }

    /// Reads a little-endian 16-bit value at a byte boundary.
    pub fn read_u16_le(&mut self) -> (r: Option<u16>)
        requires
            old(self).wf(),
            old(self).pos() % 8 == 0,
        ensures
            final(self).wf(),
            final(self).data() == old(self).data(),
            (old(self).pos() / 8 + 2 <= old(self).data().len()) == r is Some,
            r matches Some(v) ==> v == u16_le(old(self).data(), old(self).pos() / 8) && final(self).pos() == old(self).pos() + 16,
    {
        let lo = self.read_aligned_byte()?;
        let hi = self.read_aligned_byte()?;
        Some(lo as u16 + (hi as u16) * 256)
    }
}


// ─── Canonical Huffman codes (RFC 1951 §3.2.2) ───────────────────────────────

/// Maximum Huffman code length DEFLATE allows.
pub const MAXBITS: usize = 15;

/// How many symbols in `l` have code length `len`.
pub open spec fn cnt(l: Seq<u8>, len: int) -> nat
    decreases l.len(),
{
    if l.len() == 0 {
        0
    } else {
        cnt(l.drop_last(), len) + if l.last() == len {
            1nat
        } else {
            0nat
        }
    }
}

/// The first canonical code of length `len`: `first(1) = 0`,
/// `first(len) = 2 * (first(len - 1) + cnt(len - 1))`.
pub open spec fn first_code(l: Seq<u8>, len: int) -> int
    decreases len,
{
    if len <= 1 {
        0
    } else {
        2 * (first_code(l, len - 1) + cnt(l, len - 1))
    }
}

/// How many codes of length `len` remain unassigned once every code up to `len` bits is given
/// out; negative when the lengths ask for more codes than exist.
pub open spec fn code_left(l: Seq<u8>, len: int) -> int
    decreases len,
{
    if len <= 0 {
        1
    } else {
        2 * code_left(l, len - 1) - cnt(l, len)
    }
}

/// The lengths ask for more codes of some length than the code space holds.
pub open spec fn over_subscribed(l: Seq<u8>) -> bool {
    exists|len: int| 1 <= len <= 15 && #[trigger] code_left(l, len) < 0
}

/// Symbol `s`'s canonical code: the first code of its length plus the number of smaller symbols
/// of the same length.
pub open spec fn canon_code(l: Seq<u8>, s: int) -> int {
    first_code(l, l[s] as int) + cnt(l.take(s), l[s] as int)
}

/// Whether symbol `s` has code length `len` and canonical code `c`.
pub open spec fn has_code(l: Seq<u8>, s: int, len: int, c: int) -> bool {
    0 <= s < l.len() && l[s] == len && canon_code(l, s) == c
}

/// The symbol whose code has length `len` and value `c`, if any.
pub open spec fn huff_match(l: Seq<u8>, len: int, c: int) -> Option<int> {
    if exists|s: int| #[trigger] has_code(l, s, len, c) {
        Some(choose|s: int| #[trigger] has_code(l, s, len, c))
    } else {
        None
    }
}

/// Decodes one symbol at bit `p` trying code lengths `len..=15` in order: the symbol and the
/// position after its code, or `None` if no code matches before the data or the lengths run out.
pub open spec fn huff_decode_from(l: Seq<u8>, d: Seq<u8>, p: int, len: int) -> Option<(int, int)>
    decreases 16 - len,
{
    if len > 15 || len < 1 {
        None
    } else if p + len > d.len() * 8 {
        None
    } else {
        match huff_match(l, len, bits_msb(d, p, len as nat)) {
            Some(s) => Some((s, p + len)),
            None => huff_decode_from(l, d, p, len + 1),
        }
    }
}

/// Decodes one symbol of the canonical code `l` at bit `p`.
pub open spec fn huff_decode(l: Seq<u8>, d: Seq<u8>, p: int) -> Option<(int, int)> {
    huff_decode_from(l, d, p, 1)
}

/// The number of symbols with code lengths `1..len`.
pub open spec fn offs(l: Seq<u8>, len: int) -> int
    decreases len,
{
    if len <= 1 {
        0
    } else {
        offs(l, len - 1) + cnt(l, len - 1)
    }
}

proof fn lemma_cnt_take_step(l: Seq<u8>, s: int, len: int)
    requires
        0 <= s < l.len(),
    ensures
        cnt(l.take(s + 1), len) == cnt(l.take(s), len) + if l[s] == len { 1nat } else { 0nat },
{
    assert(l.take(s + 1).drop_last() =~= l.take(s));
}

proof fn lemma_cnt_take_mono(l: Seq<u8>, a: int, b: int, len: int)
    requires
        0 <= a <= b <= l.len(),
    ensures
        cnt(l.take(a), len) <= cnt(l.take(b), len),
    decreases b - a,
{
    if a < b {
        lemma_cnt_take_mono(l, a, b - 1, len);
        lemma_cnt_take_step(l, b - 1, len);
    }
}

/// Among symbols of one length, a smaller symbol has a smaller rank.
proof fn lemma_rank_strict(l: Seq<u8>, s1: int, s2: int)
    requires
        0 <= s1 < s2 <= l.len(),
    ensures
        cnt(l.take(s1), l[s1] as int) < cnt(l.take(s2), l[s1] as int),
{
    lemma_cnt_take_step(l, s1, l[s1] as int);
    lemma_cnt_take_mono(l, s1 + 1, s2, l[s1] as int);
}

proof fn lemma_rank_below_count(l: Seq<u8>, s: int)
    requires
        0 <= s < l.len(),
    ensures
        cnt(l.take(s), l[s] as int) < cnt(l, l[s] as int),
{
    lemma_rank_strict(l, s, l.len() as int);
    assert(l.take(l.len() as int) =~= l);
}

proof fn lemma_cnt_bound(l: Seq<u8>, len: int)
    ensures
        cnt(l, len) <= l.len(),
    decreases l.len(),
{
    if l.len() > 0 {
        lemma_cnt_bound(l.drop_last(), len);
    }
}

/// `first_code + cnt` is the code space used up to `len`: it stays within `2^len` exactly when
/// no prefix of the lengths is over-subscribed.
proof fn lemma_first_plus_count(l: Seq<u8>, len: int)
    requires
        1 <= len,
    ensures
        first_code(l, len) + cnt(l, len) + code_left(l, len) == pow2(len as nat),
    decreases len,
{
    reveal_with_fuel(pow2, 2);
    if len > 1 {
        lemma_first_plus_count(l, len - 1);
        assert(pow2(len as nat) == 2 * pow2((len - 1) as nat));
    } else {
        assert(code_left(l, 0) == 1);
    }
}

proof fn lemma_first_code_nonneg(l: Seq<u8>, len: int)
    ensures
        first_code(l, len) >= 0,
    decreases len,
{
    if len > 1 {
        lemma_first_code_nonneg(l, len - 1);
    }
}

/// Code ranges of smaller lengths come first in the symbol table.
proof fn lemma_offs_mono(l: Seq<u8>, a: int, b: int)
    requires
        1 <= a < b,
    ensures
        offs(l, a) + cnt(l, a) <= offs(l, b),
    decreases b - a,
{
    if a + 1 < b {
        lemma_offs_mono(l, a, b - 1);
    }
}

proof fn lemma_offs_nonneg(l: Seq<u8>, a: int)
    ensures
        offs(l, a) >= 0,
    decreases a,
{
    if a > 1 {
        lemma_offs_nonneg(l, a - 1);
    }
}

/// A canonical decode table: `count[len]` symbols of each length, and `symbol` listing the
/// symbols by length, then by symbol order within a length.
pub struct Huffman {
    count: Vec<usize>,
    symbol: Vec<usize>,
    lengths: Ghost<Seq<u8>>,
}

impl Huffman {
    /// The code lengths this table was built from.
    pub closed spec fn lens(&self) -> Seq<u8> {
        self.lengths@
    }

    /// This table is the canonical code of its lengths.
    pub closed spec fn wf(&self) -> bool {
        self.represents(self.lengths@)
    }

    /// This table is the canonical code of `l`.
    pub closed spec fn represents(&self, l: Seq<u8>) -> bool {
        &&& !over_subscribed(l)
        &&& self.count@.len() == 16
        &&& forall|len: int| 1 <= len <= 15 ==> #[trigger] self.count@[len] == cnt(l, len)
        &&& self.symbol@.len() == offs(l, 16)
        &&& forall|len: int, r: int|
            #![trigger self.symbol@[offs(l, len) + r]]
            1 <= len <= 15 && 0 <= r < cnt(l, len) ==> {
                let s = #[trigger] self.symbol@[offs(l, len) + r] as int;
                0 <= s < l.len() && l[s] == len && cnt(l.take(s), len) == r
            }
    }
}

/// Builds the canonical decode table for the code lengths `lengths` (index = symbol, `0` =
/// unused). `None` exactly when the lengths are over-subscribed; an incomplete code is accepted.
pub fn construct(lengths: &[u8]) -> (r: Option<Huffman>)
    requires
        forall|i: int| 0 <= i < lengths@.len() ==> lengths@[i] <= 15,
    ensures
        r is Some <==> !over_subscribed(lengths@),
        r matches Some(h) ==> h.wf() && h.lens() == lengths@,
{
    let ghost l = lengths@;
    let n = lengths.len();
    let mut count: Vec<usize> = Vec::new();
    let mut z: usize = 0;
    while z < 16
        invariant
            z <= 16,
            count@.len() == z,
            forall|k: int| 0 <= k < z ==> count@[k] == 0,
        decreases 16 - z,
    {
        count.push(0);
        z = z + 1;
    }
    let mut i: usize = 0;
    while i < n
        invariant
            n == l.len(),
            l == lengths@,
            forall|j: int| 0 <= j < l.len() ==> l[j] <= 15,
            i <= n,
            count@.len() == 16,
            forall|len: int| 0 <= len < 16 ==> #[trigger] count@[len] == cnt(l.take(i as int), len),
        decreases n - i,
    {
        let len = lengths[i] as usize;
        proof {
            assert forall|k: int| 0 <= k < 16 implies cnt(l.take(i as int + 1), k) == cnt(l.take(i as int), k) + if l[i as int] == k { 1nat } else { 0nat } by {
                lemma_cnt_take_step(l, i as int, k);
            }
            lemma_cnt_bound(l.take(i as int), len as int);
        }
        let c = count[len];
        count.set(len, c + 1);
        i = i + 1;
    }
    proof {
        assert(l.take(n as int) =~= l);
    }

    let mut left: usize = 1;
    let mut len: usize = 1;
    while len <= MAXBITS
        invariant
            1 <= len <= 16,
            count@.len() == 16,
            forall|k: int| 0 <= k < 16 ==> #[trigger] count@[k] == cnt(l, k),
            left == code_left(l, len - 1),
            left <= pow2((len - 1) as nat),
            forall|k: int| 1 <= k < len ==> #[trigger] code_left(l, k) >= 0,
            l == lengths@,
        decreases 16 - len,
    {
        proof {
            lemma_pow2_mono((len - 1) as nat, 14);
            reveal_with_fuel(pow2, 16);
        }
        left = left * 2;
        if count[len] > left {
            proof {
                assert(code_left(l, len as int) < 0);
                assert(over_subscribed(l));
            }
            return None;
        }
        left = left - count[len];
        len = len + 1;
    }
    proof {
        assert forall|k: int| 1 <= k <= 15 implies #[trigger] code_left(l, k) >= 0 by {}
        assert(!over_subscribed(l));
    }

    let mut offsv: Vec<usize> = Vec::new();
    offsv.push(0);
    offsv.push(0);
    let mut k: usize = 1;
    while k < MAXBITS
        invariant
            1 <= k <= 15,
            offsv@.len() == k + 1,
            count@.len() == 16,
            forall|q: int| 0 <= q < 16 ==> #[trigger] count@[q] == cnt(l, q),
            forall|q: int| 1 <= q <= k ==> #[trigger] offsv@[q] == offs(l, q),
            n == l.len(),
        decreases 15 - k,
    {
        proof {
            lemma_offs_mono(l, k as int, 16);
            lemma_offs_nonneg(l, k as int);
            lemma_offs_total(l, 16);
        }
        let o = offsv[k] + count[k];
        offsv.push(o);
        k = k + 1;
    }
    proof {
        lemma_offs_total(l, 16);
        lemma_offs_mono(l, 15, 16);
    }
    let total = offsv[15] + count[15];
    let mut symbol: Vec<usize> = Vec::new();
    let mut t: usize = 0;
    while t < total
        invariant
            t <= total,
            symbol@.len() == t,
        decreases total - t,
    {
        symbol.push(0);
        t = t + 1;
    }

    let mut s: usize = 0;
    while s < n
        invariant
            n == l.len(),
            l == lengths@,
            forall|j: int| 0 <= j < l.len() ==> l[j] <= 15,
            s <= n,
            total == offs(l, 16),
            symbol@.len() == total,
            offsv@.len() == 16,
            forall|q: int| 1 <= q <= 15 ==> #[trigger] offsv@[q] == offs(l, q) + cnt(l.take(s as int), q),
            forall|q: int, r: int|
                1 <= q <= 15 && 0 <= r < cnt(l.take(s as int), q) ==> {
                    let x = #[trigger] symbol@[offs(l, q) + r] as int;
                    0 <= x < l.len() && l[x] == q && cnt(l.take(x), q) == r
                },
        decreases n - s,
    {
        let len = lengths[s] as usize;
        proof {
            assert forall|q: int| 1 <= q <= 15 implies cnt(l.take(s as int + 1), q) == cnt(l.take(s as int), q) + if l[s as int] == q { 1nat } else { 0nat } by {
                lemma_cnt_take_step(l, s as int, q);
            }
        }
        if len != 0 {
            proof {
                lemma_rank_below_count(l, s as int);
                lemma_offs_mono(l, len as int, 16);
                lemma_offs_nonneg(l, len as int);
                lemma_offs_total(l, 16);
            }
            let o = offsv[len];
            let ghost slot = o as int;
            let ghost old_symbol = symbol@;
            symbol.set(o, s);
            offsv.set(len, o + 1);
            proof {
                assert forall|q: int, r: int|
                    1 <= q <= 15 && 0 <= r < cnt(l.take(s as int + 1), q) implies {
                        let x = #[trigger] symbol@[offs(l, q) + r] as int;
                        0 <= x < l.len() && l[x] == q && cnt(l.take(x), q) == r
                    } by {
                    if q == len as int && r == cnt(l.take(s as int), q) {
                        assert(offs(l, q) + r == slot);
                    } else {
                        lemma_offs_nonneg(l, q);
                        lemma_offs_mono(l, q, 16);
                        lemma_cnt_take_mono(l, s as int + 1, l.len() as int, q);
                        assert(l.take(l.len() as int) =~= l);
                        if q < len as int {
                            lemma_offs_mono(l, q, len as int);
                        } else if q > len as int {
                            lemma_offs_mono(l, len as int, q);
                            lemma_cnt_take_mono(l, s as int + 1, l.len() as int, len as int);
                            assert(l.take(l.len() as int) =~= l);
                        }
                        assert(offs(l, q) + r != slot);
                        assert(old_symbol[offs(l, q) + r] == symbol@[offs(l, q) + r]);
                    }
                }
            }
        }
        s = s + 1;
    }
    proof {
        assert(l.take(n as int) =~= l);
    }
    Some(Huffman { count, symbol, lengths: Ghost(l) })
}

/// Decodes one symbol with `h`, reading the code one bit at a time, most significant first.
pub fn decode(reader: &mut BitReader, h: &Huffman) -> (r: Option<usize>)
    requires
        old(reader).wf(),
        h.wf(),
    ensures
        final(reader).wf(),
        final(reader).data() == old(reader).data(),
        match huff_decode(h.lens(), old(reader).data(), old(reader).pos()) {
            Some((s, q)) => r matches Some(v) && v == s && final(reader).pos() == q,
            None => r is None,
        },
{
    let ghost l = h.lens();
    let ghost d = reader.data();
    let ghost p = reader.pos();
    let mut code: i32 = 0;
    let mut first: i32 = 0;
    let mut index: usize = 0;
    let mut len: usize = 1;
    let slen = h.symbol.len();
    while len <= MAXBITS
        invariant
            slen == offs(l, 16),
            reader.wf(),
            reader.data() == d,
            d == old(reader).data(),
            p == old(reader).pos(),
            h.wf(),
            l == h.lens(),
            1 <= len <= 16,
            reader.pos() == p + len - 1,
            p + len - 1 <= d.len() * 8,
            p >= 0,
            code == 2 * bits_msb(d, p, (len - 1) as nat),
            first == first_code(l, len as int),
            index == offs(l, len as int),
            len > 1 ==> bits_msb(d, p, (len - 1) as nat) >= first_code(l, len - 1) + cnt(l, len - 1),
            huff_decode(l, d, p) == huff_decode_from(l, d, p, len as int),
        decreases 16 - len,
    {
        proof {
            lemma_first_plus_count(l, len as int);
            assert(code_left(l, len as int) >= 0);
            lemma_pow2_mono(len as nat, 15);
            reveal_with_fuel(pow2, 16);
            lemma_offs_mono(l, len as int, 16);
            lemma_offs_nonneg(l, len as int);
            lemma_offs_total(l, 16);
            lemma_bits_msb_bound(d, p, (len - 1) as nat);
            lemma_first_code_nonneg(l, len as int);
            assert(cnt(l, len as int) <= 32768);
        }
        let bit = match reader.read_bit() {
            Some(b) => b,
            None => {
                return None;
            },
        };
        proof {
            lemma_bit_le_1(d, p + len - 1);
        }
        code = code + bit as i32;
        let count = h.count[len] as i32;
        proof {
            assert(code == bits_msb(d, p, len as nat));
            assert(code >= first);
        }
        if code - count < first {
            let idx = index + (code - first) as usize;
            let sym = h.symbol[idx];
            proof {
                let s = sym as int;
                let rr = code - first;
                assert(has_code(l, s, len as int, code as int));
                assert forall|s2: int| #[trigger] has_code(l, s2, len as int, code as int) implies s2 == s by {
                    if s2 < s {
                        lemma_rank_strict(l, s2, s);
                    } else if s < s2 {
                        lemma_rank_strict(l, s, s2);
                    }
                }
            }
            return Some(sym);
        }
        proof {
            assert forall|s2: int| !#[trigger] has_code(l, s2, len as int, code as int) by {
                if 0 <= s2 < l.len() && l[s2] == len {
                    lemma_rank_below_count(l, s2);
                }
            }
        }
        proof {
            assert(count == cnt(l, len as int));
            assert(first + count <= pow2(len as nat));
            assert(pow2(len as nat) <= 32768);
            lemma_first_code_nonneg(l, len as int);
        }
        index = index + count as usize;
        first = (first + count) * 2;
        code = code * 2;
        len = len + 1;
    }
    None
}

proof fn lemma_offs_total(l: Seq<u8>, len: int)
    requires
        1 <= len,
    ensures
        offs(l, len) <= l.len(),
    decreases len,
{
    lemma_offs_count_take(l, len, l.len() as int);
    assert(l.take(l.len() as int) =~= l);
}

/// `offs` over a prefix: symbols of lengths `1..len` among the first `k` symbols.
spec fn offs_take(l: Seq<u8>, len: int, k: int) -> int
    decreases len,
{
    if len <= 1 {
        0
    } else {
        offs_take(l, len - 1, k) + cnt(l.take(k), len - 1)
    }
}

proof fn lemma_offs_count_take(l: Seq<u8>, len: int, k: int)
    requires
        1 <= len,
        0 <= k <= l.len(),
    ensures
        offs_take(l, len, k) <= k,
        k == l.len() ==> offs_take(l, len, k) == offs(l, len),
    decreases k, len,
{
    if k == l.len() {
        assert(l.take(k) =~= l);
        lemma_offs_take_full(l, len);
    }
    lemma_offs_take_le(l, len, k);
}

proof fn lemma_offs_take_full(l: Seq<u8>, len: int)
    ensures
        offs_take(l, len, l.len() as int) == offs(l, len),
    decreases len,
{
    assert(l.take(l.len() as int) =~= l);
    if len > 1 {
        lemma_offs_take_full(l, len - 1);
    }
}

proof fn lemma_offs_take_le(l: Seq<u8>, len: int, k: int)
    requires
        0 <= k <= l.len(),
    ensures
        offs_take(l, len, k) <= k,
    decreases k, len,
{
    if k == 0 {
        lemma_offs_take_zero(l, len);
    } else {
        lemma_offs_take_le(l, len, k - 1);
        lemma_offs_take_step(l, len, k - 1);
    }
}

proof fn lemma_offs_take_zero(l: Seq<u8>, len: int)
    ensures
        offs_take(l, len, 0) == 0,
    decreases len,
{
    if len > 1 {
        lemma_offs_take_zero(l, len - 1);
        assert(l.take(0).len() == 0);
    }
}

proof fn lemma_offs_take_step(l: Seq<u8>, len: int, k: int)
    requires
        0 <= k < l.len(),
    ensures
        offs_take(l, len, k + 1) <= offs_take(l, len, k) + 1,
        offs_take(l, len, k + 1) >= offs_take(l, len, k),
        (l[k] == 0 || l[k] >= len) ==> offs_take(l, len, k + 1) == offs_take(l, len, k),
    decreases len,
{
    if len > 1 {
        lemma_offs_take_step(l, len - 1, k);
        lemma_cnt_take_step(l, k, len - 1);
    }
}

// ─── DEFLATE blocks (RFC 1951 §3.2.3-§3.2.7) ─────────────────────────────────

/// Base length of length codes 257..285.
pub const LENGTH_BASE: [u16; 29] = [
    3, 4, 5, 6, 7, 8, 9, 10, 11, 13, 15, 17, 19, 23, 27, 31, 35, 43, 51, 59, 67, 83, 99, 115, 131,
    163, 195, 227, 258,
];

/// Extra bits of length codes 257..285.
pub const LENGTH_EXTRA: [u8; 29] = [
    0, 0, 0, 0, 0, 0, 0, 0, 1, 1, 1, 1, 2, 2, 2, 2, 3, 3, 3, 3, 4, 4, 4, 4, 5, 5, 5, 5, 0,
];

/// Base distance of distance codes 0..29.
pub const DIST_BASE: [u16; 30] = [
    1, 2, 3, 4, 5, 7, 9, 13, 17, 25, 33, 49, 65, 97, 129, 193, 257, 385, 513, 769, 1025, 1537,
    2049, 3073, 4097, 6145, 8193, 12289, 16385, 24577,
];

/// Extra bits of distance codes 0..29.
pub const DIST_EXTRA: [u8; 30] = [
    0, 0, 0, 0, 1, 1, 2, 2, 3, 3, 4, 4, 5, 5, 6, 6, 7, 7, 8, 8, 9, 9, 10, 10, 11, 11, 12, 12, 13,
    13,
];

/// The order in which a dynamic block header transmits the code-length alphabet's lengths.
pub const CLEN_ORDER: [usize; 19] = [
    16, 17, 18, 0, 8, 7, 9, 6, 10, 5, 11, 4, 12, 3, 13, 2, 14, 1, 15,
];

/// `out` followed by `n` bytes each copied from `dist` bytes back (the copy may overlap itself).
pub open spec fn copy_back(out: Seq<u8>, dist: int, n: nat) -> Seq<u8>
    decreases n,
{
    if n == 0 {
        out
    } else {
        copy_back(out.push(out[out.len() - dist]), dist, (n - 1) as nat)
    }
}

/// The length/distance pair that follows length symbol `sym` (257..) at bit `p1`: the position
/// after its extra bits and `out` extended by the back-reference, or `None` if the code is out of
/// range, the data ends, the distance reaches before the start of the output, or the output would
/// pass `expected` bytes.
pub open spec fn back_ref(
    d: Seq<u8>,
    p1: int,
    out: Seq<u8>,
    expected: nat,
    dist: Seq<u8>,
    sym: int,
) -> Option<(int, Seq<u8>)> {
    let total = d.len() * 8;
    if sym < 257 || sym - 257 >= 29 {
        None
    } else {
        let le = LENGTH_EXTRA@[sym - 257] as nat;
        if p1 + le > total {
            None
        } else {
            let length = LENGTH_BASE@[sym - 257] + bits_le(d, p1, le);
            let p2 = p1 + le;
            match huff_decode(dist, d, p2) {
                None => None,
                Some((ds, p3)) => if ds >= 30 {
                    None
                } else {
                    let de = DIST_EXTRA@[ds] as nat;
                    if p3 + de > total {
                        None
                    } else {
                        let distance = DIST_BASE@[ds] + bits_le(d, p3, de);
                        if distance == 0 || distance > out.len() || out.len() + length > expected {
                            None
                        } else {
                            Some((p3 + de, copy_back(out, distance, length as nat)))
                        }
                    }
                },
            }
        }
    }
}

/// Decodes the symbols of one Huffman-coded block starting at bit `p` with literal/length code
/// `lit` and distance code `dist`, appending to `out`, up to its end-of-block symbol: the
/// position after it and the output, or `None` on any structural error, including output
/// beyond `expected` bytes and a back-reference before the start of the output.
#[verifier::opaque]
pub open spec fn huffman_block(
    d: Seq<u8>,
    p: int,
    out: Seq<u8>,
    expected: nat,
    lit: Seq<u8>,
    dist: Seq<u8>,
) -> Option<(int, Seq<u8>)>
    decreases d.len() * 8 - p,
{
    let total = d.len() * 8;
    if p < 0 || p > total {
        None
    } else {
        match huff_decode(lit, d, p) {
            None => None,
            Some((sym, p1)) => if p1 <= p || p1 > total {
                None
            } else if sym < 256 {
                if out.len() >= expected {
                    None
                } else {
                    huffman_block(d, p1, out.push(sym as u8), expected, lit, dist)
                }
            } else if sym == 256 {
                Some((p1, out))
            } else {
                match back_ref(d, p1, out, expected, dist, sym) {
                    None => None,
                    Some((p4, out2)) => if p4 <= p || p4 > total {
                        None
                    } else {
                        huffman_block(d, p4, out2, expected, lit, dist)
                    },
                }
            },
        }
    }
}

/// One stored block whose header starts at bit `p`: skip to a byte boundary, `LEN` and its
/// complement `NLEN`, then `LEN` raw bytes appended to `out`.
pub open spec fn stored_block(d: Seq<u8>, p: int, out: Seq<u8>, expected: nat) -> Option<(int, Seq<u8>)> {
    let q = align_up(p) / 8;
    if q + 4 > d.len() {
        None
    } else {
        let len = u16_le(d, q);
        let nlen = u16_le(d, q + 2);
        if len != 65535 - nlen {
            None
        } else if q + 4 + len > d.len() || out.len() + len > expected {
            None
        } else {
            Some(((q + 4 + len) * 8, out + d.subrange(q + 4, q + 4 + len)))
        }
    }
}

/// The fixed literal/length code lengths (RFC 1951 §3.2.6).
pub open spec fn fixed_lit_lengths() -> Seq<u8> {
    Seq::new(288, |i: int| if i < 144 { 8u8 } else if i < 256 { 9u8 } else if i < 280 { 7u8 } else { 8u8 })
}

/// The fixed distance code lengths.
pub open spec fn fixed_dist_lengths() -> Seq<u8> {
    Seq::new(30, |i: int| 5u8)
}

/// The code-length code's lengths after reading the first `k` 3-bit fields at bit `q`; field `i`
/// is the length of symbol `CLEN_ORDER[i]`.
pub open spec fn clen_fill(d: Seq<u8>, q: int, k: int) -> Seq<u8>
    decreases k,
{
    if k <= 0 {
        Seq::new(19, |i: int| 0u8)
    } else {
        clen_fill(d, q, k - 1).update(CLEN_ORDER@[k - 1] as int, bits_le(d, q + 3 * (k - 1), 3) as u8)
    }
}

/// Reads run-length-coded code lengths with the code-length code `clen` until `n` lengths are
/// known, continuing from the lengths `acc` already read.
#[verifier::opaque]
pub open spec fn read_lengths(d: Seq<u8>, p: int, clen: Seq<u8>, n: nat, acc: Seq<u8>) -> Option<(int, Seq<u8>)>
    decreases n - acc.len(),
{
    if acc.len() >= n {
        Some((p, acc))
    } else {
        match huff_decode(clen, d, p) {
            None => None,
            Some((sym, p1)) => if sym <= 15 {
                read_lengths(d, p1, clen, n, acc.push(sym as u8))
            } else if sym == 16 {
                if acc.len() == 0 || p1 + 2 > d.len() * 8 {
                    None
                } else {
                    let r = bits_le(d, p1, 2) + 3;
                    if acc.len() + r > n || r < 1 {
                        None
                    } else {
                        read_lengths(d, p1 + 2, clen, n, acc + Seq::new(r as nat, |i: int| acc.last()))
                    }
                }
            } else if sym == 17 || sym == 18 {
                let nb: nat = if sym == 17 { 3 } else { 7 };
                let base: int = if sym == 17 { 3 } else { 11 };
                if p1 + nb > d.len() * 8 {
                    None
                } else {
                    let r = bits_le(d, p1, nb) + base;
                    if acc.len() + r > n || r < 1 {
                        None
                    } else {
                        read_lengths(d, p1 + nb, clen, n, acc + Seq::new(r as nat, |i: int| 0u8))
                    }
                }
            } else {
                None
            },
        }
    }
}

/// A dynamic block header at bit `p`: the position after it and the literal/length and
/// distance code lengths, or `None` if it is truncated or a code is over-subscribed.
#[verifier::opaque]
pub open spec fn dynamic_header(d: Seq<u8>, p: int) -> Option<(int, Seq<u8>, Seq<u8>)> {
    if p + 14 > d.len() * 8 {
        None
    } else {
        let hlit = bits_le(d, p, 5) + 257;
        let hdist = bits_le(d, p + 5, 5) + 1;
        let hclen = bits_le(d, p + 10, 4) + 4;
        let q = p + 14;
        if q + 3 * hclen > d.len() * 8 {
            None
        } else {
            let clen = clen_fill(d, q, hclen);
            if over_subscribed(clen) {
                None
            } else {
                match read_lengths(d, q + 3 * hclen, clen, (hlit + hdist) as nat, seq![]) {
                    None => None,
                    Some((p2, lens)) => {
                        let lit = lens.take(hlit);
                        let dist = lens.skip(hlit);
                        if over_subscribed(lit) || over_subscribed(dist) {
                            None
                        } else {
                            Some((p2, lit, dist))
                        }
                    },
                }
            }
        }
    }
}

/// Decodes blocks from bit `p` on, appending to `out`, through the block marked final.
#[verifier::opaque]
pub open spec fn inflate_blocks(d: Seq<u8>, p: int, out: Seq<u8>, expected: nat) -> Option<Seq<u8>>
    decreases d.len() * 8 - p,
{
    let total = d.len() * 8;
    if p < 0 || p + 3 > total {
        None
    } else {
        let bfinal = bits_le(d, p, 1);
        let btype = bits_le(d, p + 1, 2);
        let q = p + 3;
        let res = if btype == 0 {
            stored_block(d, q, out, expected)
        } else if btype == 1 {
            huffman_block(d, q, out, expected, fixed_lit_lengths(), fixed_dist_lengths())
        } else if btype == 2 {
            match dynamic_header(d, q) {
                None => None,
                Some((q2, lit, dist)) => huffman_block(d, q2, out, expected, lit, dist),
            }
        } else {
            None
        };
        match res {
            None => None,
            Some((p2, out2)) => if bfinal == 1 {
                Some(out2)
            } else if p2 <= p || p2 > total {
                None
            } else {
                inflate_blocks(d, p2, out2, expected)
            },
        }
    }
}

/// The raw DEFLATE stream `d` decompressed, when it is well formed and decompresses to exactly
/// `expected` bytes.
pub open spec fn inflate_spec(d: Seq<u8>, expected: nat) -> Option<Seq<u8>> {
    match inflate_blocks(d, 0, seq![], expected) {
        Some(out) => if out.len() == expected {
            Some(out)
        } else {
            None
        },
        None => None,
    }
}

proof fn lemma_huff_decode_from_advances(l: Seq<u8>, d: Seq<u8>, p: int, len: int)
    ensures
        huff_decode_from(l, d, p, len) matches Some((s, q)) ==> p < q <= d.len() * 8 && 0 <= s < l.len()
            && l[s] >= 1,
    decreases 16 - len,
{
    if 1 <= len <= 15 && p + len <= d.len() * 8 {
        let c = bits_msb(d, p, len as nat);
        if exists|s: int| #[trigger] has_code(l, s, len, c) {
            let s = choose|s: int| #[trigger] has_code(l, s, len, c);
            assert(has_code(l, s, len, c));
        } else {
            lemma_huff_decode_from_advances(l, d, p, len + 1);
        }
    }
}

/// A successful decode consumes between 1 and 15 bits and yields a symbol of the code.
pub proof fn lemma_huff_decode_advances(l: Seq<u8>, d: Seq<u8>, p: int)
    ensures
        huff_decode(l, d, p) matches Some((s, q)) ==> p < q <= d.len() * 8 && 0 <= s < l.len() && l[s] >= 1,
{
    lemma_huff_decode_from_advances(l, d, p, 1);
}

/// Decodes one stored block whose header starts at the reader's position, appending to `out`.
pub fn inflate_stored(reader: &mut BitReader, out: &mut Vec<u8>, expected_len: usize) -> (r: Option<()>)
    requires
        old(reader).wf(),
        old(out)@.len() <= expected_len,
    ensures
        final(reader).wf(),
        final(reader).data() == old(reader).data(),
        match stored_block(old(reader).data(), old(reader).pos(), old(out)@, expected_len as nat) {
            Some((q, o)) => r is Some && final(reader).pos() == q && final(out)@ == o,
            None => r is None,
        },
        final(out)@.len() <= expected_len,
        r is Some ==> final(reader).pos() > old(reader).pos(),
{
    let ghost d = reader.data();
    let ghost out0 = out@;
    reader.align_to_byte();
    let ghost q = reader.pos() / 8;
    let len = reader.read_u16_le()?;
    let nlen = reader.read_u16_le()?;
    if len != 65535 - nlen {
        return None;
    }
    let mut k: u16 = 0;
    while k < len
        invariant
            reader.wf(),
            reader.data() == d,
            d == old(reader).data(),
            out0 == old(out)@,
            q == align_up(old(reader).pos()) / 8,
            len == u16_le(d, q),
            q + 4 <= d.len(),
            k <= len,
            reader.pos() == (q + 4 + k) * 8,
            out@ == out0 + d.subrange(q + 4, q + 4 + k),
            out0.len() + k <= expected_len,
        decreases len - k,
    {
        let byte = reader.read_aligned_byte()?;
        if out.len() >= expected_len {
            return None;
        }
        out.push(byte);
        proof {
            assert(out@ =~= out0 + d.subrange(q + 4, q + 4 + k + 1));
        }
        k = k + 1;
    }
    Some(())
}

/// Decodes the length/distance pair following length symbol `symbol` and copies the
/// back-reference it names onto `out`.
#[verifier::rlimit(60)]
#[verifier::spinoff_prover]
fn copy_back_reference(
    reader: &mut BitReader,
    out: &mut Vec<u8>,
    expected_len: usize,
    dist: &Huffman,
    symbol: usize,
) -> (r: Option<()>)
    requires
        old(reader).wf(),
        dist.wf(),
        old(out)@.len() <= expected_len,
        symbol > 256,
    ensures
        final(reader).wf(),
        final(reader).data() == old(reader).data(),
        match back_ref(old(reader).data(), old(reader).pos(), old(out)@, expected_len as nat, dist.lens(), symbol as int) {
            Some((q, o)) => r is Some && final(reader).pos() == q && final(out)@ == o,
            None => r is None,
        },
        r is Some ==> final(reader).pos() >= old(reader).pos(),
        final(out)@.len() <= expected_len,
{
    let ghost d = reader.data();
    let idx = (symbol - 257) as usize;
    if idx >= 29 {
        return None;
    }
    let length_base = LENGTH_BASE[idx];
    let length_extra = LENGTH_EXTRA[idx];
    let ghost p1 = reader.pos();
    let extra = reader.read_bits(length_extra as u32)?;
    assert(extra < 65536) by {
        lemma_bits_le_bound(d, p1, length_extra as nat);
        lemma_pow2_mono(length_extra as nat, 16);
        reveal_with_fuel(pow2, 17);
    }
    let length = length_base as usize + extra as usize;
    let ghost p2 = reader.pos();
    proof {
        lemma_huff_decode_advances(dist.lens(), d, p2);
    }
    let dist_symbol = decode(reader, dist)?;
    if dist_symbol >= 30 {
        return None;
    }
    let dist_base = DIST_BASE[dist_symbol];
    let dist_extra = DIST_EXTRA[dist_symbol];
    let ghost p3 = reader.pos();
    let dextra = reader.read_bits(dist_extra as u32)?;
    assert(dextra < 65536) by {
        lemma_bits_le_bound(d, p3, dist_extra as nat);
        lemma_pow2_mono(dist_extra as nat, 16);
        reveal_with_fuel(pow2, 17);
    }
    let distance = dist_base as usize + dextra as usize;
    if distance == 0 || distance > out.len() {
        return None;
    }
    if length > expected_len - out.len() {
        return None;
    }
    let start = out.len() - distance;
    let ghost o0 = out@;
    let mut i: usize = 0;
    while i < length
        invariant
            i <= length,
            out@.len() == o0.len() + i,
            o0.len() + length <= expected_len,
            start == o0.len() - distance,
            1 <= distance <= o0.len(),
            copy_back(out@, distance as int, (length - i) as nat) == copy_back(o0, distance as int, length as nat),
        decreases length - i,
    {
        let byte = out[start + i];
        out.push(byte);
        i = i + 1;
    }
    Some(())
}

/// Decodes one Huffman-coded block with the given tables, up to its end-of-block symbol.
pub fn inflate_huffman_block(
    reader: &mut BitReader,
    out: &mut Vec<u8>,
    expected_len: usize,
    litlen: &Huffman,
    dist: &Huffman,
) -> (r: Option<()>)
    requires
        old(reader).wf(),
        litlen.wf(),
        dist.wf(),
        old(out)@.len() <= expected_len,
    ensures
        final(reader).wf(),
        final(reader).data() == old(reader).data(),
        match huffman_block(old(reader).data(), old(reader).pos(), old(out)@, expected_len as nat, litlen.lens(), dist.lens()) {
            Some((q, o)) => r is Some && final(reader).pos() == q && final(out)@ == o,
            None => r is None,
        },
        r is Some ==> final(reader).pos() > old(reader).pos(),
        final(out)@.len() <= expected_len,
{
    let ghost d = reader.data();
    let ghost target = huffman_block(d, reader.pos(), out@, expected_len as nat, litlen.lens(), dist.lens());
    let ghost p0 = reader.pos();
    loop
        invariant
            reader.wf(),
            reader.data() == d,
            d == old(reader).data(),
            p0 == old(reader).pos(),
            litlen.wf(),
            dist.wf(),
            out@.len() <= expected_len,
            reader.pos() >= p0,
            target == huffman_block(old(reader).data(), old(reader).pos(), old(out)@, expected_len as nat, litlen.lens(), dist.lens()),
            huffman_block(d, reader.pos(), out@, expected_len as nat, litlen.lens(), dist.lens()) == target,
        decreases d.len() * 8 - reader.pos(),
    {
        let ghost p = reader.pos();
        let ghost o = out@;
        proof {
            lemma_huff_decode_advances(litlen.lens(), d, p);
        }
        let symbol = match decode(reader, litlen) {
            Some(s) => s,
            None => {
                proof {
                    reveal(huffman_block);
                }
                return None;
            },
        };
        let ghost p1 = reader.pos();
        if symbol < 256 {
            if out.len() >= expected_len {
                proof {
                    reveal(huffman_block);
                }
                return None;
            }
            out.push(symbol as u8);
            proof {
                assert(huffman_block(d, p, o, expected_len as nat, litlen.lens(), dist.lens()) == huffman_block(d, p1, out@, expected_len as nat, litlen.lens(), dist.lens())) by {
                    reveal(huffman_block);
                }
            }
        } else if symbol == 256 {
            proof {
                reveal(huffman_block);
            }
            return Some(());
        } else {
            let res = copy_back_reference(reader, out, expected_len, dist, symbol);
            proof {
                assert(match back_ref(d, p1, o, expected_len as nat, dist.lens(), symbol as int) {
                    Some((q, o2)) => huffman_block(d, p, o, expected_len as nat, litlen.lens(), dist.lens()) == huffman_block(d, q, o2, expected_len as nat, litlen.lens(), dist.lens()),
                    None => huffman_block(d, p, o, expected_len as nat, litlen.lens(), dist.lens()) is None,
                }) by {
                    reveal(huffman_block);
                }
            }
            if res.is_none() {
                return None;
            }
        }
    }
}

proof fn lemma_cnt_append(a: Seq<u8>, b: Seq<u8>, len: int)
    ensures
        cnt(a + b, len) == cnt(a, len) + cnt(b, len),
    decreases b.len(),
{
    if b.len() > 0 {
        lemma_cnt_append(a, b.drop_last(), len);
        assert((a + b).drop_last() =~= a + b.drop_last());
    } else {
        assert(a + b =~= a);
    }
}

proof fn lemma_cnt_const(n: nat, v: u8, len: int)
    ensures
        cnt(Seq::new(n, |i: int| v), len) == if v == len { n } else { 0 },
    decreases n,
{
    if n > 0 {
        lemma_cnt_const((n - 1) as nat, v, len);
        assert(Seq::new(n, |i: int| v).drop_last() =~= Seq::new((n - 1) as nat, |i: int| v));
    }
}

proof fn lemma_fixed_codes_valid()
    ensures
        !over_subscribed(fixed_lit_lengths()),
        !over_subscribed(fixed_dist_lengths()),
{
    let l = fixed_lit_lengths();
    let a = Seq::new(144, |i: int| 8u8);
    let b = Seq::new(112, |i: int| 9u8);
    let c = Seq::new(24, |i: int| 7u8);
    let e = Seq::new(8, |i: int| 8u8);
    assert(l =~= a + b + c + e);
    assert forall|len: int| 1 <= len <= 15 implies #[trigger] cnt(l, len) == (if len == 7 { 24nat } else if len == 8 { 152nat } else if len == 9 { 112nat } else { 0nat }) by {
        lemma_cnt_append(a + b + c, e, len);
        lemma_cnt_append(a + b, c, len);
        lemma_cnt_append(a, b, len);
        lemma_cnt_const(144, 8, len);
        lemma_cnt_const(112, 9, len);
        lemma_cnt_const(24, 7, len);
        lemma_cnt_const(8, 8, len);
    }
    assert(code_left(l, 0) == 1);
    assert(code_left(l, 1) == 2);
    assert(code_left(l, 2) == 4);
    assert(code_left(l, 3) == 8);
    assert(code_left(l, 4) == 16);
    assert(code_left(l, 5) == 32);
    assert(code_left(l, 6) == 64);
    assert(code_left(l, 7) == 104);
    assert(code_left(l, 8) == 56);
    assert(code_left(l, 9) == 0);
    assert(code_left(l, 10) == 0);
    assert(code_left(l, 11) == 0);
    assert(code_left(l, 12) == 0);
    assert(code_left(l, 13) == 0);
    assert(code_left(l, 14) == 0);
    assert(code_left(l, 15) == 0);
    assert forall|len: int| 1 <= len <= 15 implies #[trigger] code_left(l, len) >= 0 by {}

    let dl = fixed_dist_lengths();
    assert forall|len: int| 1 <= len <= 15 implies #[trigger] cnt(dl, len) == (if len == 5 { 30nat } else { 0nat }) by {
        lemma_cnt_const(30, 5, len);
    }
    assert(code_left(dl, 0) == 1);
    assert(code_left(dl, 1) == 2);
    assert(code_left(dl, 2) == 4);
    assert(code_left(dl, 3) == 8);
    assert(code_left(dl, 4) == 16);
    assert(code_left(dl, 5) == 2);
    assert(code_left(dl, 6) == 4);
    assert(code_left(dl, 7) == 8);
    assert(code_left(dl, 8) == 16);
    assert(code_left(dl, 9) == 32);
    assert(code_left(dl, 10) == 64);
    assert(code_left(dl, 11) == 128);
    assert(code_left(dl, 12) == 256);
    assert(code_left(dl, 13) == 512);
    assert(code_left(dl, 14) == 1024);
    assert(code_left(dl, 15) == 2048);
    assert forall|len: int| 1 <= len <= 15 implies #[trigger] code_left(dl, len) >= 0 by {}
}

/// A vector of `n` copies of `v`.
fn filled(n: usize, v: u8) -> (r: Vec<u8>)
    ensures
        r@ == Seq::new(n as nat, |i: int| v),
{
    let mut r: Vec<u8> = Vec::new();
    let mut i: usize = 0;
    while i < n
        invariant
            i <= n,
            r@ == Seq::new(i as nat, |j: int| v),
        decreases n - i,
    {
        r.push(v);
        proof {
            assert(r@ =~= Seq::new((i + 1) as nat, |j: int| v));
        }
        i = i + 1;
    }
    r
}

/// The decode tables of the fixed Huffman codes (RFC 1951 §3.2.6).
pub fn fixed_trees() -> (r: Option<(Huffman, Huffman)>)
    ensures
        r matches Some((lit, dist)) && lit.wf() && dist.wf() && lit.lens() == fixed_lit_lengths()
            && dist.lens() == fixed_dist_lengths(),
{
    let mut lit_lengths = filled(144, 8);
    let b = filled(112, 9);
    let c = filled(24, 7);
    let e = filled(8, 8);
    lit_lengths.extend_from_slice(&b);
    lit_lengths.extend_from_slice(&c);
    lit_lengths.extend_from_slice(&e);
    proof {
        assert(lit_lengths@ =~= fixed_lit_lengths());
        lemma_fixed_codes_valid();
    }
    let dist_lengths = filled(30, 5);
    proof {
        assert(dist_lengths@ =~= fixed_dist_lengths());
    }
    let lit = construct(&lit_lengths)?;
    let dist = construct(&dist_lengths)?;
    Some((lit, dist))
}

/// Reads the `hclen` 3-bit code-length-code lengths of a dynamic block header.
fn read_clen_lengths(reader: &mut BitReader, hclen: usize) -> (r: Option<Vec<u8>>)
    requires
        old(reader).wf(),
        4 <= hclen <= 19,
    ensures
        final(reader).wf(),
        final(reader).data() == old(reader).data(),
        (old(reader).pos() + 3 * hclen <= old(reader).data().len() * 8) == r is Some,
        r matches Some(v) ==> v@ == clen_fill(old(reader).data(), old(reader).pos(), hclen as int)
            && final(reader).pos() == old(reader).pos() + 3 * hclen && v@.len() == 19
            && forall|i: int| 0 <= i < 19 ==> #[trigger] v@[i] <= 7,
{
    let ghost d = reader.data();
    let ghost q = reader.pos();
    let mut clen_lengths = filled(19, 0);
    let mut k: usize = 0;
    while k < hclen
        invariant
            reader.wf(),
            reader.data() == d,
            d == old(reader).data(),
            q == old(reader).pos(),
            k <= hclen <= 19,
            q >= 0,
            reader.pos() == q + 3 * k,
            q + 3 * k <= d.len() * 8,
            clen_lengths@ == clen_fill(d, q, k as int),
            clen_lengths@.len() == 19,
            forall|i: int| 0 <= i < 19 ==> #[trigger] clen_lengths@[i] <= 7,
        decreases hclen - k,
    {
        let ghost pk = reader.pos();
        let v = reader.read_bits(3)?;
        proof {
            lemma_bits_le_bound(d, pk, 3);
            reveal_with_fuel(pow2, 4);
        }
        let slot = CLEN_ORDER[k];
        proof {
            assert(CLEN_ORDER@[k as int] < 19);
        }
        clen_lengths.set(slot, v as u8);
        k = k + 1;
    }
    Some(clen_lengths)
}

/// Writes `repeat` copies of `v` at `lengths[i..]`; `false` (and nothing written) if they do not
/// fit.
fn fill_run(lengths: &mut Vec<u8>, i: usize, repeat: usize, v: u8) -> (r: bool)
    requires
        i <= old(lengths)@.len(),
    ensures
        final(lengths)@.len() == old(lengths)@.len(),
        r == (i + repeat <= old(lengths)@.len()),
        r ==> final(lengths)@.take(i + repeat) == old(lengths)@.take(i as int) + Seq::new(repeat as nat, |x: int| v),
        !r ==> final(lengths)@ == old(lengths)@,
{
    let n = lengths.len();
    if repeat > n - i {
        return false;
    }
    let mut j: usize = 0;
    while j < repeat
        invariant
            j <= repeat,
            i + repeat <= n,
            lengths@.len() == n,
            n == old(lengths)@.len(),
            lengths@.take(i + j) =~= old(lengths)@.take(i as int) + Seq::new(j as nat, |x: int| v),
        decreases repeat - j,
    {
        let ghost before = lengths@;
        lengths.set(i + j, v);
        proof {
            assert forall|y: int| 0 <= y < i + j implies #[trigger] lengths@[y] == before[y] by {}
            assert(lengths@.take(i + j + 1) =~= old(lengths)@.take(i as int) + Seq::new((j + 1) as nat, |x: int| v)) by {
                assert forall|y: int| 0 <= y < i + j + 1 implies #[trigger] lengths@.take(i + j + 1)[y] == (old(lengths)@.take(i as int) + Seq::new((j + 1) as nat, |x: int| v))[y] by {
                    if y < i + j {
                        assert(before.take(i + j)[y] == lengths@[y]);
                    }
                }
            }
        }
        j = j + 1;
    }
    true
}

/// Reads `total` run-length-coded code lengths with the code-length code `clen_tree`.
#[verifier::rlimit(40)]
fn read_code_lengths(reader: &mut BitReader, clen_tree: &Huffman, total: usize) -> (r: Option<Vec<u8>>)
    requires
        old(reader).wf(),
        clen_tree.wf(),
        clen_tree.lens().len() == 19,
        total <= 320,
    ensures
        final(reader).wf(),
        final(reader).data() == old(reader).data(),
        match read_lengths(old(reader).data(), old(reader).pos(), clen_tree.lens(), total as nat, seq![]) {
            Some((q, lens)) => r matches Some(v) && v@ == lens && final(reader).pos() == q,
            None => r is None,
        },
        r matches Some(v) ==> v@.len() == total && forall|j: int| 0 <= j < total ==> #[trigger] v@[j] <= 15,
        r is Some ==> final(reader).pos() >= old(reader).pos(),
{
    let ghost d = reader.data();
    let ghost clen = clen_tree.lens();
    let ghost q2 = reader.pos();
    let ghost target = read_lengths(d, q2, clen, total as nat, seq![]);
    let mut lengths = filled(total, 0);
    let mut i: usize = 0;
    proof {
        assert(lengths@.take(0) =~= seq![]);
    }
    while i < total
        invariant
            reader.wf(),
            reader.data() == d,
            d == old(reader).data(),
            q2 == old(reader).pos(),
            clen_tree.wf(),
            clen_tree.lens() == clen,
            clen.len() == 19,
            lengths@.len() == total,
            total <= 320,
            i <= total,
            reader.pos() >= q2,
            forall|j: int| 0 <= j < i ==> #[trigger] lengths@[j] <= 15,
            target == read_lengths(d, q2, clen, total as nat, seq![]),
            read_lengths(d, reader.pos(), clen, total as nat, lengths@.take(i as int)) == target,
        decreases total - i,
    {
        let ghost pi = reader.pos();
        let ghost acc = lengths@.take(i as int);
        let ghost before = lengths@;
        proof {
            lemma_huff_decode_advances(clen, d, pi);
            reveal(read_lengths);
        }
        let symbol = decode(reader, clen_tree)?;
        let ghost p1 = reader.pos();
        if symbol <= 15 {
            lengths.set(i, symbol as u8);
            proof {
                assert(lengths@.take(i as int + 1) =~= acc.push(symbol as u8));
            }
            i = i + 1;
        } else if symbol == 16 {
            if i == 0 {
                return None;
            }
            let prev = lengths[i - 1];
            let rep = reader.read_bits(2)?;
            proof {
                lemma_bits_le_bound(d, p1, 2);
                reveal_with_fuel(pow2, 3);
                assert(prev == acc.last());
            }
            let repeat = rep as usize + 3;
            if !fill_run(&mut lengths, i, repeat, prev) {
                return None;
            }
            proof {
                assert forall|y: int| 0 <= y < i + repeat implies #[trigger] lengths@[y] <= 15 by {
                    assert(lengths@.take(i + repeat)[y] == lengths@[y]);
                    if y < i {
                        assert(before.take(i as int)[y] == before[y]);
                    }
                }
            }
            i = i + repeat;
        } else if symbol == 17 || symbol == 18 {
            let nb: u32 = if symbol == 17 { 3 } else { 7 };
            let base: usize = if symbol == 17 { 3 } else { 11 };
            let rep = reader.read_bits(nb)?;
            proof {
                lemma_bits_le_bound(d, p1, nb as nat);
                reveal_with_fuel(pow2, 8);
            }
            let repeat = rep as usize + base;
            if !fill_run(&mut lengths, i, repeat, 0) {
                return None;
            }
            proof {
                assert forall|y: int| 0 <= y < i + repeat implies #[trigger] lengths@[y] <= 15 by {
                    assert(lengths@.take(i + repeat)[y] == lengths@[y]);
                    if y < i {
                        assert(before.take(i as int)[y] == before[y]);
                    }
                }
            }
            i = i + repeat;
        } else {
            return None;
        }
    }
    proof {
        assert(lengths@.take(total as int) =~= lengths@);
        reveal(read_lengths);
    }
    Some(lengths)
}

/// Reads a dynamic-Huffman block header (RFC 1951 §3.2.7) and builds its two decode tables.
pub fn read_dynamic_trees(reader: &mut BitReader) -> (r: Option<(Huffman, Huffman)>)
    requires
        old(reader).wf(),
    ensures
        final(reader).wf(),
        final(reader).data() == old(reader).data(),
        match dynamic_header(old(reader).data(), old(reader).pos()) {
            Some((q, lit, dist)) => r matches Some((a, b)) && a.wf() && b.wf() && a.lens() == lit
                && b.lens() == dist && final(reader).pos() == q,
            None => r is None,
        },
        r is Some ==> final(reader).pos() > old(reader).pos(),
{
    proof {
        reveal(dynamic_header);
    }
    let ghost d = reader.data();
    let ghost p = reader.pos();
    let hlit5 = reader.read_bits(5)?;
    let hdist5 = reader.read_bits(5)?;
    let hclen4 = reader.read_bits(4)?;
    proof {
        lemma_bits_le_bound(d, p, 5);
        lemma_bits_le_bound(d, p + 5, 5);
        lemma_bits_le_bound(d, p + 10, 4);
        reveal_with_fuel(pow2, 6);
    }
    let hlit = hlit5 as usize + 257;
    let hdist = hdist5 as usize + 1;
    let hclen = hclen4 as usize + 4;
    let clen_lengths = read_clen_lengths(reader, hclen)?;
    let clen_tree = construct(&clen_lengths)?;
    let total = hlit + hdist;
    let lengths = read_code_lengths(reader, &clen_tree, total)?;
    proof {
        assert(lengths@.subrange(0, hlit as int) =~= lengths@.take(hlit as int));
        assert(lengths@.subrange(hlit as int, total as int) =~= lengths@.skip(hlit as int));
    }
    let all = lengths.as_slice();
    let litlen_tree = construct(&all[0..hlit])?;
    let dist_tree = construct(&all[hlit..total])?;
    Some((litlen_tree, dist_tree))
}

/// Decompresses a raw DEFLATE stream that must decompress to exactly `expected_len` bytes; every
/// write is checked against that length, so a stream engineered to expand beyond it is
/// rejected rather than allowed to allocate without bound.
pub fn inflate(data: &[u8], expected_len: usize) -> (r: Option<Vec<u8>>)
    ensures
        match inflate_spec(data@, expected_len as nat) {
            Some(o) => r matches Some(v) && v@ == o,
            None => r is None,
        },
{
    let ghost d = data@;
    let mut reader = BitReader::new(data);
    let mut out: Vec<u8> = Vec::new();
    let (fixed_lit, fixed_dist) = fixed_trees()?;
    proof {
        reveal(inflate_blocks);
    }
    loop
        invariant_except_break
            inflate_blocks(d, reader.pos(), out@, expected_len as nat) == inflate_blocks(d, 0, seq![], expected_len as nat),
        invariant
            reader.wf(),
            reader.data() == d,
            d == data@,
            fixed_lit.wf(),
            fixed_dist.wf(),
            fixed_lit.lens() == fixed_lit_lengths(),
            fixed_dist.lens() == fixed_dist_lengths(),
            out@.len() <= expected_len,
        ensures
            inflate_blocks(d, 0, seq![], expected_len as nat) == Some(out@),
        decreases d.len() * 8 - reader.pos(),
    {
        let ghost p = reader.pos();
        proof {
            reveal(inflate_blocks);
        }
        let bfinal = reader.read_bits(1)?;
        let btype = reader.read_bits(2)?;
        if btype == 0 {
            inflate_stored(&mut reader, &mut out, expected_len)?;
        } else if btype == 1 {
            inflate_huffman_block(&mut reader, &mut out, expected_len, &fixed_lit, &fixed_dist)?;
        } else if btype == 2 {
            let (litlen, dist) = read_dynamic_trees(&mut reader)?;
            inflate_huffman_block(&mut reader, &mut out, expected_len, &litlen, &dist)?;
        } else {
            return None;
        }
        if bfinal == 1 {
            break;
        }
    }
    if out.len() != expected_len {
        return None;
    }
    Some(out)
}

// ─── Stored-block encoder, Adler-32 and the zlib wrapper (RFC 1950) ─────────

/// The largest stored block DEFLATE allows.
pub const MAX_STORED_BLOCK: usize = 65535;

/// Stored blocks covering `data[off..]`, each at most 65535 bytes, the last one marked final.
pub open spec fn stored_blocks(data: Seq<u8>, off: int) -> Seq<u8>
    decreases data.len() - off,
{
    if off < 0 || off >= data.len() {
        seq![]
    } else {
        let n = if data.len() - off < 65535 { data.len() - off } else { 65535 };
        let fin: u8 = if off + n == data.len() { 1 } else { 0 };
        seq![fin] + le16(n) + le16(65535 - n) + data.subrange(off, off + n) + stored_blocks(data, off + n)
    }
}

/// `data` as a raw DEFLATE stream of stored blocks; empty input is one empty final block.
pub open spec fn deflate_stored_spec(data: Seq<u8>) -> Seq<u8> {
    if data.len() == 0 {
        seq![1u8, 0u8, 0u8, 255u8, 255u8]
    } else {
        stored_blocks(data, 0)
    }
}

/// The Adler-32 running sums `(a, b)` of `d`, each reduced mod 65521.
pub open spec fn adler_pair(d: Seq<u8>) -> (int, int)
    decreases d.len(),
{
    if d.len() == 0 {
        (1, 0)
    } else {
        let (a, b) = adler_pair(d.drop_last());
        let a2 = (a + d.last()) % 65521;
        (a2, (b + a2) % 65521)
    }
}

/// The Adler-32 checksum of `d` (RFC 1950 §8).
pub open spec fn adler32_spec(d: Seq<u8>) -> int {
    adler_pair(d).1 * 65536 + adler_pair(d).0
}

/// The zlib stream [`zlib_compress`] produces for `data`.
pub open spec fn zlib_stream(data: Seq<u8>) -> Seq<u8> {
    seq![0x78u8, 0x01u8] + deflate_stored_spec(data) + be32(adler32_spec(data))
}

/// `d` as a zlib stream: a DEFLATE header PNG can produce (method 8, window at most 32 KiB, no
/// preset dictionary, valid check bits), a DEFLATE body decompressing to `expected` bytes, and a
/// matching Adler-32 trailer.
pub open spec fn zlib_decompress_spec(d: Seq<u8>, expected: nat) -> Option<Seq<u8>> {
    if d.len() < 6 {
        None
    } else {
        let cmf = d[0] as int;
        let flg = d[1] as int;
        if (cmf * 256 + flg) % 31 != 0 || cmf % 16 != 8 || cmf / 16 > 7 || (flg / 32) % 2 != 0 {
            None
        } else {
            match inflate_spec(d.subrange(2, d.len() - 4), expected) {
                None => None,
                Some(o) => if adler32_spec(o) != u32_be(d, d.len() - 4) {
                    None
                } else {
                    Some(o)
                },
            }
        }
    }
}

/// Compresses `data` as a raw DEFLATE stream of stored (uncompressed) blocks, the legal
/// encoding RFC 1951 §3.2.4 defines.
pub fn deflate_stored(data: &[u8]) -> (r: Vec<u8>)
    ensures
        r@ == deflate_stored_spec(data@),
{
    if data.len() == 0 {
        let mut v = Vec::new();
        v.push(0x01);
        v.push(0x00);
        v.push(0x00);
        v.push(0xff);
        v.push(0xff);
        return v;
    }
    let mut out: Vec<u8> = Vec::new();
    let mut offset: usize = 0;
    let n = data.len();
    while offset < n
        invariant
            n == data@.len(),
            offset <= n,
            out@ + stored_blocks(data@, offset as int) == stored_blocks(data@, 0),
        decreases n - offset,
    {
        let remaining = n - offset;
        let block_len = if remaining < MAX_STORED_BLOCK { remaining } else { MAX_STORED_BLOCK };
        let is_final = offset + block_len == n;
        let ghost before = out@;
        out.push(if is_final { 1 } else { 0 });
        crate::bytes::push_u16_le(&mut out, block_len as u16);
        crate::bytes::push_u16_le(&mut out, (65535 - block_len) as u16);
        crate::bytes::push_all(&mut out, &data[offset..offset + block_len]);
        proof {
            let ghost fin: u8 = if is_final { 1 } else { 0 };
            assert(stored_blocks(data@, offset as int) == seq![fin] + le16(block_len as int) + le16(65535 - block_len) + data@.subrange(offset as int, offset + block_len) + stored_blocks(data@, offset + block_len));
            assert(out@ =~= before + seq![fin] + le16(block_len as int) + le16(65535 - block_len) + data@.subrange(offset as int, offset + block_len));
            assert(out@ + stored_blocks(data@, offset + block_len) =~= before + stored_blocks(data@, offset as int));
        }
        offset = offset + block_len;
    }
    proof {
        assert(stored_blocks(data@, n as int) == Seq::<u8>::empty());
        assert(out@ =~= out@ + stored_blocks(data@, n as int));
    }
    out
}

/// `1 + 2 + ... + k`.
spec fn tri(k: nat) -> nat
    decreases k,
{
    if k == 0 {
        0
    } else {
        tri((k - 1) as nat) + k
    }
}

proof fn lemma_tri_bound(k: nat)
    requires
        k <= 5552,
    ensures
        tri(k) <= 15415128,
    decreases k,
{
    lemma_tri_closed(k);
    assert(k * (k + 1) <= 5552 * 5553) by (nonlinear_arith)
        requires k <= 5552;
}

proof fn lemma_tri_closed(k: nat)
    ensures
        2 * tri(k) == k * (k + 1),
    decreases k,
{
    if k > 0 {
        lemma_tri_closed((k - 1) as nat);
        let km1: int = k - 1;
        assert(2 * tri((k - 1) as nat) == km1 * (km1 + 1));
        assert(tri(k) == tri((k - 1) as nat) + k);
        assert(km1 * (km1 + 1) + 2 * k == k * (k + 1)) by (nonlinear_arith)
            requires km1 == k - 1;
    } else {
        assert(k * (k + 1) == 0) by (nonlinear_arith)
            requires k == 0;
    }
}

/// Adler-32 checksum (RFC 1950 §8/9), accumulating without reduction for up to 5552 bytes at a
/// time (the longest run that cannot overflow a `u32`) before reducing mod 65521.
pub fn adler32(data: &[u8]) -> (r: u32)
    ensures
        r == adler32_spec(data@),
{
    let n = data.len();
    let mut a: u32 = 1;
    let mut b: u32 = 0;
    let mut i: usize = 0;
    while i < n
        invariant
            n == data@.len(),
            i <= n,
            a < 65521,
            b < 65521,
            a == adler_pair(data@.take(i as int)).0,
            b == adler_pair(data@.take(i as int)).1,
        decreases n - i,
    {
        let chunk_end = if n - i < 5552 { n } else { i + 5552 };
        let mut k: usize = 0;
        while i < chunk_end
            invariant
                n == data@.len(),
                i <= chunk_end <= n,
                chunk_end - i + k <= 5552,
                a as int <= 65520 + 255 * k,
                b as int <= (k + 1) * 65520 + 255 * tri(k as nat),
                a as int % 65521 == adler_pair(data@.take(i as int)).0,
                b as int % 65521 == adler_pair(data@.take(i as int)).1,
            decreases chunk_end - i,
        {
            proof {
                lemma_tri_bound((k + 1) as nat);
                assert(data@.take(i as int + 1).drop_last() =~= data@.take(i as int));
                let x = data@[i as int] as int;
                vstd::arithmetic::div_mod::lemma_add_mod_noop(a as int, x, 65521);
                vstd::arithmetic::div_mod::lemma_small_mod(x as nat, 65521);
            }
            let x = data[i];
            a = a + x as u32;
            proof {
                vstd::arithmetic::div_mod::lemma_add_mod_noop(b as int, a as int, 65521);
            }
            b = b + a;
            i = i + 1;
            k = k + 1;
        }
        a = a % 65521;
        b = b % 65521;
    }
    proof {
        assert(data@.take(n as int) =~= data@);
    }
    b * 65536 + a
}

/// Compresses `data` into a zlib stream: header, [`deflate_stored`]'s output, Adler-32 trailer.
pub fn zlib_compress(data: &[u8]) -> (r: Vec<u8>)
    ensures
        r@ == zlib_stream(data@),
{
    let mut out: Vec<u8> = Vec::new();
    out.push(0x78);
    out.push(0x01);
    let body = deflate_stored(data);
    crate::bytes::push_all(&mut out, &body);
    crate::bytes::push_u32_be(&mut out, adler32(data));
    proof {
        assert(out@ =~= zlib_stream(data@));
    }
    out
}

/// Decompresses a zlib stream whose payload must be exactly `expected_len` bytes, validating
/// the header and the Adler-32 trailer.
pub fn zlib_decompress(data: &[u8], expected_len: usize) -> (r: Option<Vec<u8>>)
    ensures
        match zlib_decompress_spec(data@, expected_len as nat) {
            Some(o) => r matches Some(v) && v@ == o,
            None => r is None,
        },
{
    if data.len() < 6 {
        return None;
    }
    let cmf = data[0];
    let flg = data[1];
    if (cmf as u16 * 256 + flg as u16) % 31 != 0 {
        return None;
    }
    if cmf % 16 != 8 {
        return None;
    }
    if cmf / 16 > 7 {
        return None;
    }
    if (flg / 32) % 2 != 0 {
        return None;
    }
    let body = &data[2..data.len() - 4];
    let decompressed = inflate(body, expected_len)?;
    let stored_adler = crate::bytes::read_u32_be(data, data.len() - 4);
    if adler32(decompressed.as_slice()) != stored_adler {
        return None;
    }
    Some(decompressed)
}

// ─── Round trip ──────────────────────────────────────────────────────────────

proof fn lemma_le16_decode(s: Seq<u8>, i: int, v: int)
    requires
        0 <= v < 65536,
        0 <= i,
        i + 2 <= s.len(),
        s.subrange(i, i + 2) == le16(v),
    ensures
        u16_le(s, i) == v,
{
    assert(s[i] == le16(v)[0]);
    assert(s[i + 1] == le16(v)[1]);
    let lo = v % 256;
    let hi = (v / 256) % 256;
    assert(v == 256 * (v / 256) + v % 256);
    assert(v / 256 < 256);
}

proof fn lemma_flag_bits(x: u8)
    requires
        x <= 1,
    ensures
        (x >> 0u8) & 1u8 == x,
        (x >> 1u8) & 1u8 == 0,
        (x >> 2u8) & 1u8 == 0,
{
    assert(x <= 1 ==> (x >> 0u8) & 1u8 == x) by (bit_vector);
    assert(x <= 1 ==> (x >> 1u8) & 1u8 == 0) by (bit_vector);
    assert(x <= 1 ==> (x >> 2u8) & 1u8 == 0) by (bit_vector);
}

/// Reading a block header byte `x` (0 or 1) at byte `b`: `BFINAL` is `x` and `BTYPE` is stored.
#[verifier::spinoff_prover]
proof fn lemma_stored_header_bits(d: Seq<u8>, b: int)
    requires
        0 <= b < d.len(),
        d[b] <= 1,
    ensures
        bits_le(d, 8 * b, 1) == d[b] as int,
        bits_le(d, 8 * b + 1, 2) == 0,
{
    lemma_flag_bits(d[b]);
    assert((8 * b) / 8 == b && (8 * b) % 8 == 0);
    assert((8 * b + 1) / 8 == b && (8 * b + 1) % 8 == 1);
    assert((8 * b + 2) / 8 == b && (8 * b + 2) % 8 == 2);
    assert(bit_at(d, 8 * b) == d[b] as int);
    assert(bit_at(d, 8 * b + 1) == 0);
    assert(bit_at(d, 8 * b + 2) == 0);
    assert(pow2(0) == 1);
    assert(pow2(1) == 2 * pow2(0));
    assert(bits_le(d, 8 * b, 0) == 0);
    assert(bits_le(d, 8 * b, 1) == bits_le(d, 8 * b, 0) + bit_at(d, 8 * b) * pow2(0));
    assert(bits_le(d, 8 * b + 1, 0) == 0);
    assert(bits_le(d, 8 * b + 1, 1) == bits_le(d, 8 * b + 1, 0) + bit_at(d, 8 * b + 1) * pow2(0));
    assert(bits_le(d, 8 * b + 1, 1) == 0);
    assert(bits_le(d, 8 * b + 1, 2) == bits_le(d, 8 * b + 1, 1) + bit_at(d, 8 * b + 2) * pow2(1));
    assert(bit_at(d, 8 * b + 2) * pow2(1) == 0);
}

proof fn lemma_inflate_stored_blocks(data: Seq<u8>, d: Seq<u8>, b: int, off: int)
    requires
        0 <= off < data.len(),
        0 <= b,
        d.len() == b + stored_blocks(data, off).len(),
        d.subrange(b, d.len() as int) == stored_blocks(data, off),
    ensures
        inflate_blocks(d, 8 * b, data.take(off), data.len()) == Some(data),
    decreases data.len() - off,
{
    let sb = stored_blocks(data, off);
    let n = if data.len() - off < 65535 { data.len() - off } else { 65535 };
    let fin: u8 = if off + n == data.len() { 1 } else { 0 };
    let rest = stored_blocks(data, off + n);
    let h = seq![fin] + le16(n) + le16(65535 - n);
    let chunk = data.subrange(off, off + n);
    assert(sb == h + chunk + rest);
    assert(sb.len() == 5 + n + rest.len());
    assert(sb.subrange(5, 5 + n) =~= chunk);
    assert(sb.subrange(5 + n, sb.len() as int) =~= rest);
    assert(d.subrange(b + 5, b + 5 + n) =~= sb.subrange(5, 5 + n));
    assert(d.subrange(b + 5 + n, d.len() as int) =~= sb.subrange(5 + n, sb.len() as int));
    assert(d[b] == sb[0]);
    lemma_stored_header_bits(d, b);
    assert(d.subrange(b + 1, b + 3) =~= sb.subrange(1, 3));
    assert(sb.subrange(1, 3) =~= le16(n));
    lemma_le16_decode(d, b + 1, n);
    assert(d.subrange(b + 3, b + 5) =~= sb.subrange(3, 5));
    assert(sb.subrange(3, 5) =~= le16(65535 - n));
    lemma_le16_decode(d, b + 3, 65535 - n);
    assert(align_up(8 * b + 3) == 8 * (b + 1));
    assert(d.subrange(b + 5, b + 5 + n) =~= data.subrange(off, off + n));
    assert(data.take(off) + data.subrange(off, off + n) =~= data.take(off + n));
    assert(stored_block(d, 8 * b + 3, data.take(off), data.len()) == Some(((b + 5 + n) * 8, data.take(off + n))));
    reveal(inflate_blocks);
    if fin == 1 {
        assert(data.take(off + n) =~= data);
    } else {
        assert(d.subrange(b + 5 + n, d.len() as int) =~= rest);
        lemma_inflate_stored_blocks(data, d, b + 5 + n, off + n);
    }
}

/// Decompressing the stored-block stream of `data` gives back `data`.
pub proof fn lemma_inflate_deflate_stored(data: Seq<u8>)
    ensures
        inflate_spec(deflate_stored_spec(data), data.len()) == Some(data),
{
    let d = deflate_stored_spec(data);
    if data.len() == 0 {
        reveal(inflate_blocks);
        lemma_stored_header_bits(d, 0);
        assert(d.subrange(1, 3) =~= le16(0));
        assert(d.subrange(3, 5) =~= le16(65535));
        lemma_le16_decode(d, 1, 0);
        lemma_le16_decode(d, 3, 65535);
        assert(d.subrange(5, 5) =~= Seq::<u8>::empty());
        assert(Seq::<u8>::empty() + Seq::<u8>::empty() =~= data);
    } else {
        assert(d.subrange(0, d.len() as int) =~= d);
        lemma_inflate_stored_blocks(data, d, 0, 0);
        assert(data.take(0) =~= Seq::<u8>::empty());
    }
}

proof fn lemma_stored_blocks_len(data: Seq<u8>, off: int)
    requires
        0 <= off <= data.len(),
    ensures
        stored_blocks(data, off).len() <= 6 * (data.len() - off),
    decreases data.len() - off,
{
    if off < data.len() {
        let n = if data.len() - off < 65535 { data.len() - off } else { 65535 };
        lemma_stored_blocks_len(data, off + n);
    }
}

/// A zlib stream is at most six bytes per input byte plus eleven.
pub proof fn lemma_zlib_stream_len(data: Seq<u8>)
    ensures
        zlib_stream(data).len() <= 6 * data.len() + 11,
{
    lemma_stored_blocks_len(data, 0);
}

proof fn lemma_adler_bound(d: Seq<u8>)
    ensures
        0 <= adler_pair(d).0 < 65521,
        0 <= adler_pair(d).1 < 65521,
    decreases d.len(),
{
    if d.len() > 0 {
        lemma_adler_bound(d.drop_last());
    }
}

/// What [`zlib_compress`] produces, [`zlib_decompress`] turns back into the input: decoding the
/// zlib stream of `data` with the expected length `data.len()` gives `data`.
pub proof fn lemma_zlib_round_trip(data: Seq<u8>)
    ensures
        zlib_decompress_spec(zlib_stream(data), data.len()) == Some(data),
{
    let z = zlib_stream(data);
    let body = deflate_stored_spec(data);
    let v = adler32_spec(data);
    lemma_adler_bound(data);
    assert(z.subrange(2, z.len() - 4) =~= body);
    lemma_inflate_deflate_stored(data);
    let t = z.len() - 4;
    assert(z.subrange(t, t + 4) =~= be32(v));
    assert(z[t] == be32(v)[0]);
    assert(z[t + 1] == be32(v)[1]);
    assert(z[t + 2] == be32(v)[2]);
    assert(z[t + 3] == be32(v)[3]);
    let w = v as u32;
    assert(0 <= v < 0x1_0000_0000);
    assert(16777216 * ((w / 16777216) % 256) + 65536 * ((w / 65536) % 256) + 256 * ((w / 256) % 256) + w % 256 == w) by (bit_vector);
    assert(z[0] == 0x78u8 && z[1] == 0x01u8);
}

pub proof fn lemma_pow2_mono(a: nat, b: nat)
    requires
        a <= b,
    ensures
        pow2(a) <= pow2(b),
    decreases b,
{
    if a < b {
        lemma_pow2_mono(a, (b - 1) as nat);
    }
}

} // verus!
