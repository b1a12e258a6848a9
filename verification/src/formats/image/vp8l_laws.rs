//! What the VP8L and WebP decoders read back of what the encoders write: the uniform prefix
//! codes, the code-length headers, whole image streams and whole WebP files.

use vstd::prelude::*;

use super::zlib::bits_le;
use super::vp8l::{
    bits_ok, pack, bitseq, lemma_bitseq_len, lemma_pack_len, lemma_bit_at_pack, rev_acc,
    reverse_spec, lemma_rev_acc_bound, bits_for, lemma_bits_for_nonneg, lemma_bits_for_le, rank,
    lemma_rank_bounds, lemma_rank_mono, uniform_lengths, sym_bits, lemma_uniform_small, nz,
    table_ok, table_decode, lemma_first_nz_at, in_d, d_rank, level2_len, cl_value, cl_bits,
    len_bits, header_bits, lemma_d_rank_bounds, cl_order, cl_lengths, lengths_loop,
    code_lengths_spec, zeros, table_at, group_spec, groups_spec, pixel_step, pixels_loop,
    stream_rest, image_stream, stream_bits, pixel_bits, used_of, dist_used, chan, argb_of,
    group_of, cache_put, zeros32, div_ceil, lemma_sym_bits_len,
};
use super::webp::{
    decode_spec, encode_spec, stream_header, rgba_to_argb, uses_alpha, riff_spec, riff_payload,
    riff_tag, webp_tag, vp8l_tag, transforms_spec, undo_all, argb_to_rgba, rgba_pixel,
    lemma_channels_undo_combine,
};
use super::raster::{dims_ok, MAX_PIXELS};
use crate::bytes::{le32, lemma_le32_read};

verus! {

// ─── What the decoder reads back of what the encoder writes ─────────────────

/// The bits `s` stand in `b` at bit `p`.
pub open spec fn bits_at(b: Seq<bool>, p: int, s: Seq<bool>) -> bool {
    0 <= p && p + s.len() <= b.len() && b.subrange(p, p + s.len()) == s
}

proof fn lemma_bits_at_split(b: Seq<bool>, p: int, s1: Seq<bool>, s2: Seq<bool>)
    requires
        bits_at(b, p, s1 + s2),
    ensures
        bits_at(b, p, s1),
        bits_at(b, p + s1.len(), s2),
{
    let t = s1 + s2;
    assert forall|i: int| 0 <= i < t.len() implies b[p + i] == t[i] by {
        assert(b.subrange(p, p + t.len())[i] == b[p + i]);
    }
    assert forall|i: int| 0 <= i < s1.len() implies b.subrange(p, p + s1.len())[i] == s1[i] by {
        assert(t[i] == s1[i]);
    }
    assert(b.subrange(p, p + s1.len()) =~= s1);
    assert forall|i: int| 0 <= i < s2.len() implies b.subrange(p + s1.len(), p + s1.len() + s2.len())[i] == s2[i] by {
        assert(t[s1.len() + i] == s2[i]);
        assert(b[p + (s1.len() + i)] == t[s1.len() + i]);
    }
    assert(b.subrange(p + s1.len(), p + s1.len() + s2.len()) =~= s2);
}

/// The low bit of `v`, then the rest.
proof fn lemma_bits_le_front(d: Seq<u8>, p: int, n: nat)
    requires
        n >= 1,
    ensures
        bits_le(d, p, n) == super::zlib::bit_at(d, p) + 2 * bits_le(d, p + 1, (n - 1) as nat),
    decreases n,
{
    if n > 1 {
        lemma_bits_le_front(d, p, (n - 1) as nat);
        assert(super::zlib::pow2((n - 1) as nat) == 2 * super::zlib::pow2((n - 2) as nat));
        let x = super::zlib::bit_at(d, p + n - 1);
        let w = super::zlib::pow2((n - 2) as nat) as int;
        assert(bits_le(d, p + 1, (n - 1) as nat) == bits_le(d, p + 1, (n - 2) as nat) + super::zlib::bit_at(d, p + 1 + (n - 1) - 1) * w);
        assert(p + 1 + (n - 1) - 1 == p + n - 1);
        assert(bits_le(d, p, n) == bits_le(d, p, (n - 1) as nat) + x * (2 * w));
        assert(2 * (x * w) == x * (2 * w)) by (nonlinear_arith);
    } else {
        assert(super::zlib::pow2(0) == 1);
        assert(bits_le(d, p, 1) == bits_le(d, p, 0) + super::zlib::bit_at(d, p) * 1);
    }
}

/// Reading `n` bits where `bitseq(v, n)` was written gives `v`.
proof fn lemma_read_value(b: Seq<bool>, p: int, v: int, n: nat)
    requires
        bits_at(b, p, bitseq(v, n)),
        0 <= v < super::zlib::pow2(n),
    ensures
        bits_ok(pack(b), p, n as int),
        bits_le(pack(b), p, n) == v,
    decreases n,
{
    lemma_bitseq_len(v, n);
    lemma_pack_len(b);
    if n == 0 {
        assert(v == 0);
    } else {
        let t = bitseq(v / 2, (n - 1) as nat);
        lemma_bitseq_len(v / 2, (n - 1) as nat);
        assert(bitseq(v, n) == seq![v % 2 == 1] + t);
        lemma_bits_at_split(b, p, seq![v % 2 == 1], t);
        assert(super::zlib::pow2(n) == 2 * super::zlib::pow2((n - 1) as nat));
        lemma_read_value(b, p + 1, v / 2, (n - 1) as nat);
        lemma_bits_le_front(pack(b), p, n);
        lemma_bit_at_pack(b, p);
        assert(b[p] == (v % 2 == 1)) by {
            assert(b.subrange(p, p + 1)[0] == b[p]);
        }
    }
}

/// `rev_acc` with a start value: the start value shifted past the reversed bits.
proof fn lemma_rev_acc_shift(r: int, x: int, k: nat)
    ensures
        rev_acc(r, x, k) == r * super::zlib::pow2(k) + rev_acc(0, x, k),
    decreases k,
{
    if k > 0 {
        let km = (k - 1) as nat;
        lemma_rev_acc_shift(2 * r + x % 2, x / 2, km);
        lemma_rev_acc_shift(x % 2, x / 2, km);
        let w = super::zlib::pow2(km) as int;
        assert(super::zlib::pow2(k) == 2 * w);
        assert(rev_acc(r, x, k) == rev_acc(2 * r + x % 2, x / 2, km));
        assert(rev_acc(0, x, k) == rev_acc(2 * 0 + x % 2, x / 2, km));
        assert(2 * 0 + x % 2 == x % 2);
        assert((2 * r + x % 2) * w == r * (2 * w) + (x % 2) * w) by (nonlinear_arith);
    } else {
        assert(super::zlib::pow2(0) == 1);
        assert(r * 1 == r);
    }
}

/// The low bit of `v` becomes the high bit of its reversal.
proof fn lemma_reverse_step(v: int, n: nat)
    requires
        n >= 1,
    ensures
        reverse_spec(v, n) == (v % 2) * super::zlib::pow2((n - 1) as nat) + reverse_spec(v / 2, (n - 1) as nat),
{
    lemma_rev_acc_shift(v % 2, v / 2, (n - 1) as nat);
}

/// `n + 1` bits of `c + a * 2^n` are `n` bits of `c` and then `a`.
proof fn lemma_bitseq_top(c: int, a: int, n: nat)
    requires
        0 <= c < super::zlib::pow2(n),
        a == 0 || a == 1,
    ensures
        bitseq(c + a * super::zlib::pow2(n), n + 1) == bitseq(c, n).push(a == 1),
    decreases n,
{
    let w = super::zlib::pow2(n) as int;
    if n == 0 {
        assert(c == 0);
        assert(bitseq(a, 1) =~= seq![a % 2 == 1] + bitseq(a / 2, 0));
        assert(bitseq(0, 0).push(a == 1) =~= seq![a == 1]);
    } else {
        let wm = super::zlib::pow2((n - 1) as nat) as int;
        assert(w == 2 * wm);
        let v = c + a * w;
        let t = a * wm;
        assert(a * w == 2 * t) by (nonlinear_arith)
            requires w == 2 * wm, t == a * wm;
        assert(v % 2 == c % 2 && v / 2 == c / 2 + t) by (nonlinear_arith)
            requires v == c + 2 * t, c >= 0, t >= 0;
        assert(c / 2 < wm) by (nonlinear_arith)
            requires c < w, w == 2 * wm, c >= 0;
        lemma_bitseq_top(c / 2, a, (n - 1) as nat);
        assert(bitseq(v, n + 1) =~= seq![v % 2 == 1] + bitseq(v / 2, n));
        assert(bitseq(c, n) =~= seq![c % 2 == 1] + bitseq(c / 2, (n - 1) as nat));
        assert(bitseq(v, n + 1) =~= bitseq(c, n).push(a == 1));
    }
}

/// Reading `n` bits most significant first where `v` was written reversed gives `v`.
proof fn lemma_read_reversed(b: Seq<bool>, p: int, v: int, n: nat)
    requires
        bits_at(b, p, bitseq(reverse_spec(v, n), n)),
        0 <= v < super::zlib::pow2(n),
    ensures
        bits_ok(pack(b), p, n as int),
        super::zlib::bits_msb(pack(b), p, n) == v,
    decreases n,
{
    lemma_rev_acc_bound(0, v, n, 0);
    assert(super::zlib::pow2(0) == 1);
    lemma_bitseq_len(reverse_spec(v, n), n);
    lemma_pack_len(b);
    if n == 0 {
        assert(v == 0);
    } else {
        let m = (n - 1) as nat;
        let wm = super::zlib::pow2(m) as int;
        assert(super::zlib::pow2(n) == 2 * wm);
        assert(v / 2 < wm && v % 2 + 2 * (v / 2) == v) by (nonlinear_arith)
            requires 0 <= v < 2 * wm;
        lemma_reverse_step(v, n);
        lemma_rev_acc_bound(0, v / 2, m, 0);
        let c = reverse_spec(v / 2, m);
        assert(reverse_spec(v, n) == c + (v % 2) * wm);
        lemma_bitseq_top(c, v % 2, m);
        assert(m + 1 == n);
        lemma_bitseq_len(c, m);
        assert(bitseq(reverse_spec(v, n), n) == bitseq(c, m) + seq![v % 2 == 1]);
        lemma_bits_at_split(b, p, bitseq(c, m), seq![v % 2 == 1]);
        lemma_read_reversed(b, p, v / 2, m);
        lemma_bit_at_pack(b, p + m);
        assert(b[p + m] == (v % 2 == 1)) by {
            assert(b.subrange(p + m, p + m + 1)[0] == b[p + m]);
        }
    }
}

/// The length the uniform code for `u` gives each used symbol.
pub open spec fn uniform_len(u: Seq<bool>) -> int {
    let n = rank(u, u.len() as int);
    if n <= 1 { 1 } else { bits_for(n) }
}

proof fn lemma_bits_for_covers(n: int)
    requires
        n >= 1,
    ensures
        n <= super::zlib::pow2(bits_for(n) as nat),
        n >= 2 ==> bits_for(n) >= 1,
    decreases n,
{
    lemma_bits_for_nonneg(n);
    if n <= 1 {
        assert(super::zlib::pow2(0) == 1);
    } else {
        lemma_bits_for_covers((n + 1) / 2);
        lemma_bits_for_nonneg((n + 1) / 2);
        assert(bits_for(n) == 1 + bits_for((n + 1) / 2));
        assert(super::zlib::pow2(bits_for(n) as nat) == 2 * super::zlib::pow2(bits_for((n + 1) / 2) as nat));
    }
}

/// Every length of the uniform code is 0 (unused) or its one length, at most 12 bits.
proof fn lemma_uniform_values(u: Seq<bool>)
    requires
        u.len() <= 4096,
    ensures
        1 <= uniform_len(u) <= 12,
        forall|t: int| 0 <= t < u.len() ==> #[trigger] uniform_lengths(u)[t] == if u[t] { uniform_len(u) } else { 0 },
{
    let n = rank(u, u.len() as int);
    lemma_rank_bounds(u, u.len() as int);
    assert(super::zlib::pow2(12) == 4096) by {
        reveal_with_fuel(super::zlib::pow2, 13);
    }
    lemma_bits_for_le(n, 12);
    lemma_bits_for_nonneg(n);
    if n >= 2 {
        lemma_bits_for_covers(n);
    }
}

/// The uniform code's lengths over the first `k` symbols: `rank` used ones, each of the one
/// length, and nothing of any other length.
proof fn lemma_uniform_counts(u: Seq<bool>, k: int, x: int)
    requires
        0 <= k <= u.len(),
        u.len() <= 4096,
        x >= 1,
    ensures
        nz(uniform_lengths(u).take(k)) == rank(u, k),
        super::zlib::cnt(uniform_lengths(u).take(k), x) == if x == uniform_len(u) { rank(u, k) } else { 0 },
    decreases k,
{
    let l = uniform_lengths(u);
    lemma_uniform_values(u);
    if k > 0 {
        lemma_uniform_counts(u, k - 1, x);
        assert(l.take(k).drop_last() =~= l.take(k - 1));
        assert(l.take(k).last() == l[k - 1]);
    } else {
        assert(l.take(0).len() == 0);
    }
}

/// The uniform code has no codes shorter than its one length, so they all start at code 0.
proof fn lemma_uniform_first_code(u: Seq<bool>, x: int)
    requires
        1 <= x <= uniform_len(u),
        u.len() <= 4096,
    ensures
        super::zlib::first_code(uniform_lengths(u), x) == 0,
    decreases x,
{
    if x > 1 {
        lemma_uniform_first_code(u, x - 1);
        lemma_uniform_counts(u, u.len() as int, x - 1);
        assert(uniform_lengths(u).take(u.len() as int) =~= uniform_lengths(u));
    }
}

proof fn lemma_uniform_code_left(u: Seq<bool>, x: int)
    requires
        0 <= x,
        rank(u, u.len() as int) <= super::zlib::pow2(uniform_len(u) as nat),
        u.len() <= 4096,
    ensures
        super::zlib::code_left(uniform_lengths(u), x) >= 0,
        x < uniform_len(u) ==> super::zlib::code_left(uniform_lengths(u), x) == super::zlib::pow2(x as nat),
    decreases x,
{
    let l = uniform_lengths(u);
    if x == 0 {
        assert(super::zlib::pow2(0) == 1);
    } else {
        lemma_uniform_code_left(u, x - 1);
        lemma_uniform_counts(u, u.len() as int, x);
        assert(l.take(u.len() as int) =~= l);
        assert(super::zlib::pow2(x as nat) == 2 * super::zlib::pow2((x - 1) as nat));
    }
}

/// A table can be built from the uniform code's lengths.
proof fn lemma_uniform_table_ok(u: Seq<bool>)
    requires
        u.len() <= 4096,
    ensures
        table_ok(uniform_lengths(u)),
{
    let l = uniform_lengths(u);
    let n = rank(u, u.len() as int);
    lemma_uniform_counts(u, u.len() as int, 1);
    assert(l.take(u.len() as int) =~= l);
    if n >= 2 {
        lemma_uniform_small(u);
        lemma_bits_for_covers(n);
        assert forall|x: int| 1 <= x <= 15 implies #[trigger] super::zlib::code_left(l, x) >= 0 by {
            lemma_uniform_code_left(u, x);
        }
    }
}

/// No symbol has a code of length `x` other than the one length, so decoding skips to it.
proof fn lemma_uniform_skip(u: Seq<bool>, d: Seq<u8>, p: int, x: int)
    requires
        1 <= x <= uniform_len(u),
        u.len() <= 4096,
        p >= 0,
        p + uniform_len(u) <= d.len() * 8,
    ensures
        super::zlib::huff_decode_from(uniform_lengths(u), d, p, x) == super::zlib::huff_decode_from(
            uniform_lengths(u),
            d,
            p,
            uniform_len(u),
        ),
    decreases uniform_len(u) - x,
{
    let l = uniform_lengths(u);
    lemma_uniform_values(u);
    if x < uniform_len(u) {
        assert forall|s2: int| !#[trigger] super::zlib::has_code(l, s2, x, super::zlib::bits_msb(d, p, x as nat)) by {}
        lemma_uniform_skip(u, d, p, x + 1);
    }
}

/// Reading a symbol of the uniform code for `u` where [`sym_bits`] wrote it gives it back.
proof fn lemma_uniform_decode(u: Seq<bool>, b: Seq<bool>, p: int, s: int)
    requires
        0 <= s < u.len(),
        u[s],
        u.len() <= 4096,
        bits_at(b, p, sym_bits(u, s)),
    ensures
        table_decode(uniform_lengths(u), pack(b), p) == Some((s, p + sym_bits(u, s).len())),
{
    let l = uniform_lengths(u);
    let n = rank(u, u.len() as int);
    let d = pack(b);
    lemma_uniform_values(u);
    lemma_uniform_counts(u, u.len() as int, 1);
    assert(l.take(u.len() as int) =~= l);
    lemma_rank_mono(u, s, s + 1);
    lemma_rank_mono(u, s + 1, u.len() as int);
    lemma_rank_bounds(u, s);
    if n <= 1 {
        assert forall|t: int| 0 <= t < s implies l[t] == 0 by {
            lemma_rank_mono(u, t, s);
            lemma_rank_bounds(u, t);
            if u[t] {
                assert(rank(u, s) >= 1);
                assert(false);
            }
        }
        lemma_first_nz_at(l, 0, s);
        assert(sym_bits(u, s).len() == 0);
    } else {
        let len = bits_for(n);
        let r = rank(u, s);
        lemma_bits_for_covers(n);
        lemma_uniform_small(u);
        assert(l[s] == len);
        lemma_read_reversed(b, p, r, len as nat);
        lemma_bitseq_len(reverse_spec(r, len as nat), len as nat);
        lemma_uniform_skip(u, d, p, 1);
        lemma_uniform_first_code(u, len);
        lemma_uniform_counts(u, s, len);
        assert(super::zlib::has_code(l, s, len, r));
        assert forall|s2: int| #[trigger] super::zlib::has_code(l, s2, len, r) implies s2 == s by {
            lemma_uniform_counts(u, s2, len);
            if s2 < s {
                lemma_rank_mono(u, s2, s);
            } else if s < s2 {
                lemma_rank_mono(u, s, s2);
            }
        }
        assert(super::zlib::huff_match(l, len, r) == Some(s));
    }
}

/// Which of the 19 code-length values the lengths `l` use (0 always counts).
pub open spec fn values_used(l: Seq<u8>) -> Seq<bool> {
    Seq::new(19, |v: int| in_d(l, v))
}

proof fn lemma_values_rank(l: Seq<u8>, k: int)
    requires
        0 <= k <= 19,
        forall|i: int| 0 <= i < l.len() ==> l[i] <= 15,
    ensures
        rank(values_used(l), k) == d_rank(l, k),
        d_rank(l, 19) == d_rank(l, 16),
    decreases k,
{
    if k > 0 {
        lemma_values_rank(l, k - 1);
    }
    assert forall|v: int| 16 <= v < 19 implies !in_d(l, v) by {
        if exists|i: int| 0 <= i < l.len() && l[i] == v {
            let i = choose|i: int| 0 <= i < l.len() && l[i] == v;
            assert(l[i] <= 15);
        }
    }
    assert(d_rank(l, 17) == d_rank(l, 16));
    assert(d_rank(l, 18) == d_rank(l, 17));
}

/// The code-length code the header sends is the uniform code of the values the lengths use,
/// and each length is sent as that code's symbol.
proof fn lemma_values_code(l: Seq<u8>)
    requires
        forall|i: int| 0 <= i < l.len() ==> l[i] <= 15,
    ensures
        forall|v: int| 0 <= v < 19 ==> #[trigger] uniform_lengths(values_used(l))[v] == cl_value(l, v),
        forall|v: int|
            0 <= v < 19 ==> #[trigger] sym_bits(values_used(l), v) == bitseq(
                reverse_spec(d_rank(l, v), level2_len(l) as nat),
                level2_len(l) as nat,
            ),
        0 <= level2_len(l) <= 4,
{
    let u = values_used(l);
    lemma_values_rank(l, 19);
    assert forall|v: int| 0 <= v < 19 implies rank(u, v) == d_rank(l, v) by {
        lemma_values_rank(l, v);
    }
    lemma_uniform_values(u);
    let n = d_rank(l, 16);
    lemma_d_rank_bounds(l, 16);
    if n >= 2 {
        lemma_bits_for_covers(n);
        assert(super::zlib::pow2(4) == 16) by {
            reveal_with_fuel(super::zlib::pow2, 5);
        }
        lemma_bits_for_le(n, 4);
    }
    assert forall|v: int| 0 <= v < 19 implies #[trigger] sym_bits(u, v) == bitseq(reverse_spec(d_rank(l, v), level2_len(l) as nat), level2_len(l) as nat) by {
        if n <= 1 {
            assert(bitseq(reverse_spec(d_rank(l, v), 0), 0) =~= Seq::<bool>::empty());
        }
    }
}

/// Where the 19 three-bit code-length-code lengths stand.
proof fn lemma_cl_bits_at(b: Seq<bool>, q: int, l: Seq<u8>, k: int)
    requires
        0 <= k <= 19,
        bits_at(b, q, cl_bits(l, k)),
    ensures
        cl_bits(l, k).len() == 3 * k,
        forall|i: int| 0 <= i < k ==> #[trigger] bits_at(b, q + 3 * i, bitseq(cl_value(l, cl_order()[i]), 3)),
    decreases k,
{
    if k > 0 {
        let t = bitseq(cl_value(l, cl_order()[k - 1]), 3);
        lemma_bitseq_len(cl_value(l, cl_order()[k - 1]), 3);
        lemma_bits_at_split(b, q, cl_bits(l, k - 1), t);
        lemma_cl_bits_at(b, q, l, k - 1);
    }
}

/// Where each of the 19 code-length values stands in [`cl_order`].
pub open spec fn cl_pos() -> Seq<int> {
    seq![2, 3, 4, 5, 6, 7, 9, 10, 11, 12, 13, 14, 15, 16, 17, 18, 8, 0, 1]
}

proof fn lemma_cl_pos_order(k: int)
    requires
        0 <= k < 19,
    ensures
        0 <= cl_order()[k] < 19,
        cl_pos()[cl_order()[k]] == k,
{
    if k == 0 { assert(cl_order()[k] == 17 && cl_pos()[17] == 0);
    } else if k == 1 { assert(cl_order()[k] == 18 && cl_pos()[18] == 1);
    } else if k == 2 { assert(cl_order()[k] == 0 && cl_pos()[0] == 2);
    } else if k == 3 { assert(cl_order()[k] == 1 && cl_pos()[1] == 3);
    } else if k == 4 { assert(cl_order()[k] == 2 && cl_pos()[2] == 4);
    } else if k == 5 { assert(cl_order()[k] == 3 && cl_pos()[3] == 5);
    } else if k == 6 { assert(cl_order()[k] == 4 && cl_pos()[4] == 6);
    } else if k == 7 { assert(cl_order()[k] == 5 && cl_pos()[5] == 7);
    } else if k == 8 { assert(cl_order()[k] == 16 && cl_pos()[16] == 8);
    } else if k == 9 { assert(cl_order()[k] == 6 && cl_pos()[6] == 9);
    } else if k == 10 { assert(cl_order()[k] == 7 && cl_pos()[7] == 10);
    } else if k == 11 { assert(cl_order()[k] == 8 && cl_pos()[8] == 11);
    } else if k == 12 { assert(cl_order()[k] == 9 && cl_pos()[9] == 12);
    } else if k == 13 { assert(cl_order()[k] == 10 && cl_pos()[10] == 13);
    } else if k == 14 { assert(cl_order()[k] == 11 && cl_pos()[11] == 14);
    } else if k == 15 { assert(cl_order()[k] == 12 && cl_pos()[12] == 15);
    } else if k == 16 { assert(cl_order()[k] == 13 && cl_pos()[13] == 16);
    } else if k == 17 { assert(cl_order()[k] == 14 && cl_pos()[14] == 17);
    } else if k == 18 { assert(cl_order()[k] == 15 && cl_pos()[15] == 18);
    }
}

proof fn lemma_cl_order_pos(v: int)
    requires
        0 <= v < 19,
    ensures
        0 <= cl_pos()[v] < 19,
        cl_order()[cl_pos()[v]] == v,
{
    if v == 0 { assert(cl_pos()[v] == 2 && cl_order()[2] == 0);
    } else if v == 1 { assert(cl_pos()[v] == 3 && cl_order()[3] == 1);
    } else if v == 2 { assert(cl_pos()[v] == 4 && cl_order()[4] == 2);
    } else if v == 3 { assert(cl_pos()[v] == 5 && cl_order()[5] == 3);
    } else if v == 4 { assert(cl_pos()[v] == 6 && cl_order()[6] == 4);
    } else if v == 5 { assert(cl_pos()[v] == 7 && cl_order()[7] == 5);
    } else if v == 6 { assert(cl_pos()[v] == 9 && cl_order()[9] == 6);
    } else if v == 7 { assert(cl_pos()[v] == 10 && cl_order()[10] == 7);
    } else if v == 8 { assert(cl_pos()[v] == 11 && cl_order()[11] == 8);
    } else if v == 9 { assert(cl_pos()[v] == 12 && cl_order()[12] == 9);
    } else if v == 10 { assert(cl_pos()[v] == 13 && cl_order()[13] == 10);
    } else if v == 11 { assert(cl_pos()[v] == 14 && cl_order()[14] == 11);
    } else if v == 12 { assert(cl_pos()[v] == 15 && cl_order()[15] == 12);
    } else if v == 13 { assert(cl_pos()[v] == 16 && cl_order()[16] == 13);
    } else if v == 14 { assert(cl_pos()[v] == 17 && cl_order()[17] == 14);
    } else if v == 15 { assert(cl_pos()[v] == 18 && cl_order()[18] == 15);
    } else if v == 16 { assert(cl_pos()[v] == 8 && cl_order()[8] == 16);
    } else if v == 17 { assert(cl_pos()[v] == 0 && cl_order()[0] == 17);
    } else if v == 18 { assert(cl_pos()[v] == 1 && cl_order()[1] == 18);
    }
}

/// The code-length-code lengths after `k` values are read: those of the values sent so far.
proof fn lemma_cl_lengths_partial(d: Seq<u8>, q: int, l: Seq<u8>, k: int)
    requires
        0 <= k <= 19,
        forall|i: int| 0 <= i < 19 ==> #[trigger] bits_le(d, q + 3 * i, 3) == cl_value(l, cl_order()[i]),
        forall|v: int| 0 <= v < 19 ==> 0 <= #[trigger] cl_value(l, v) < 8,
    ensures
        cl_lengths(d, q, k) =~= Seq::new(19, |v: int| if cl_pos()[v] < k { cl_value(l, v) as u8 } else { 0u8 }),
    decreases k,
{
    if k > 0 {
        lemma_cl_lengths_partial(d, q, l, k - 1);
        lemma_cl_pos_order(k - 1);
        let w = cl_order()[k - 1];
        assert(bits_le(d, q + 3 * (k - 1), 3) == cl_value(l, w));
        assert forall|v: int| 0 <= v < 19 implies #[trigger] cl_lengths(d, q, k)[v] == (if cl_pos()[v] < k { cl_value(l, v) as u8 } else { 0u8 }) by {
            lemma_cl_order_pos(v);
        }
    }
}

/// The code-length code read back is the uniform code of the values the lengths use.
proof fn lemma_read_cl(b: Seq<bool>, q: int, l: Seq<u8>)
    requires
        bits_at(b, q, cl_bits(l, 19)),
        forall|i: int| 0 <= i < l.len() ==> l[i] <= 15,
    ensures
        bits_ok(pack(b), q, 57),
        cl_lengths(pack(b), q, 19) == uniform_lengths(values_used(l)),
{
    let d = pack(b);
    lemma_cl_bits_at(b, q, l, 19);
    lemma_values_code(l);
    lemma_pack_len(b);
    assert(super::zlib::pow2(3) == 8) by {
        reveal_with_fuel(super::zlib::pow2, 4);
    }
    assert forall|v: int| 0 <= v < 19 implies 0 <= #[trigger] cl_value(l, v) < 8 by {}
    assert forall|i: int| 0 <= i < 19 implies #[trigger] bits_le(d, q + 3 * i, 3) == cl_value(l, cl_order()[i]) by {
        lemma_cl_pos_order(i);
        assert(bits_at(b, q + 3 * i, bitseq(cl_value(l, cl_order()[i]), 3)));
        lemma_read_value(b, q + 3 * i, cl_value(l, cl_order()[i]), 3);
    }
    lemma_cl_lengths_partial(d, q, l, 19);
    assert forall|v: int| 0 <= v < 19 implies cl_pos()[v] < 19 by {
        lemma_cl_order_pos(v);
    }
    assert(cl_lengths(d, q, 19) =~= uniform_lengths(values_used(l)));
}

/// The code header's sends `l[k]` as the code-length code's symbol, one after another.
proof fn lemma_len_bits_at(b: Seq<bool>, start: int, l: Seq<u8>, k: int)
    requires
        0 <= k <= l.len(),
        bits_at(b, start, len_bits(l, k)),
        forall|i: int| 0 <= i < l.len() ==> l[i] <= 15,
    ensures
        len_bits(l, k).len() == level2_len(l) * k,
        forall|i: int|
            0 <= i < k ==> #[trigger] bits_at(
                b,
                start + level2_len(l) * i,
                sym_bits(values_used(l), l[i] as int),
            ),
    decreases k,
{
    lemma_values_code(l);
    if k > 0 {
        let t = bitseq(reverse_spec(d_rank(l, l[k - 1] as int), level2_len(l) as nat), level2_len(l) as nat);
        lemma_bitseq_len(reverse_spec(d_rank(l, l[k - 1] as int), level2_len(l) as nat), level2_len(l) as nat);
        lemma_bits_at_split(b, start, len_bits(l, k - 1), t);
        lemma_len_bits_at(b, start, l, k - 1);
        assert(level2_len(l) * (k - 1) + level2_len(l) == level2_len(l) * k) by (nonlinear_arith);
    }
}

/// The length loop reads back the lengths the header sent, from symbol `k` on.
proof fn lemma_read_lengths_loop(b: Seq<bool>, start: int, l: Seq<u8>, k: int, prev: u8, budget: int)
    requires
        0 <= k <= l.len() <= 4096,
        budget >= l.len() - k,
        bits_at(b, start, len_bits(l, l.len() as int)),
        forall|i: int| 0 <= i < l.len() ==> l[i] <= 15,
    ensures
        lengths_loop(
            pack(b),
            start + level2_len(l) * k,
            uniform_lengths(values_used(l)),
            l.len() as int,
            k,
            prev,
            budget,
            l.take(k) + zeros(l.len() - k),
        ) == Some((start + level2_len(l) * l.len(), l)),
    decreases l.len() - k,
{
    let a = l.len() as int;
    let cl = uniform_lengths(values_used(l));
    let acc = l.take(k) + zeros(a - k);
    lemma_len_bits_at(b, start, l, a);
    if k == a {
        assert(acc =~= l);
    } else {
        let u = values_used(l);
        let v = l[k] as int;
        lemma_values_code(l);
        assert(in_d(l, v));
        assert(u[v]);
        assert(bits_at(b, start + level2_len(l) * k, sym_bits(u, v)));
        lemma_uniform_decode(u, b, start + level2_len(l) * k, v);
        lemma_bitseq_len(reverse_spec(d_rank(l, v), level2_len(l) as nat), level2_len(l) as nat);
        assert(start + level2_len(l) * k + level2_len(l) == start + level2_len(l) * (k + 1)) by (nonlinear_arith);
        lemma_read_lengths_loop(b, start, l, k + 1, if v != 0 { v as u8 } else { prev }, budget - 1);
        assert(acc.update(k, v as u8) =~= l.take(k + 1) + zeros(a - (k + 1)));
    }
}

/// Reading a prefix code's lengths where [`header_bits`] wrote them gives them back.
pub proof fn lemma_read_header(b: Seq<bool>, p: int, l: Seq<u8>)
    requires
        bits_at(b, p, header_bits(l)),
        1 <= l.len() <= 4096,
        forall|i: int| 0 <= i < l.len() ==> l[i] <= 15,
    ensures
        code_lengths_spec(pack(b), p, l.len() as int) == Some((p + header_bits(l).len(), l)),
        table_ok(uniform_lengths(values_used(l))),
{
    let d = pack(b);
    let a = l.len() as int;
    let h0 = bitseq(0, 1);
    let h1 = bitseq(15, 4);
    let h2 = cl_bits(l, 19);
    let h3 = bitseq(0, 1);
    let h4 = len_bits(l, a);
    assert(header_bits(l) == h0 + h1 + h2 + h3 + h4);
    lemma_bitseq_len(0, 1);
    lemma_bitseq_len(15, 4);
    lemma_bits_at_split(b, p, h0 + h1 + h2 + h3, h4);
    lemma_bits_at_split(b, p, h0 + h1 + h2, h3);
    lemma_bits_at_split(b, p, h0 + h1, h2);
    lemma_bits_at_split(b, p, h0, h1);
    assert(super::zlib::pow2(1) == 2 && super::zlib::pow2(4) == 16) by {
        reveal_with_fuel(super::zlib::pow2, 5);
    }
    lemma_read_value(b, p, 0, 1);
    lemma_read_value(b, p + 1, 15, 4);
    lemma_read_cl(b, p + 5, l);
    lemma_cl_bits_at(b, p + 5, l, 19);
    lemma_read_value(b, p + 62, 0, 1);
    lemma_uniform_table_ok(values_used(l));
    lemma_len_bits_at(b, p + 63, l, a);
    assert((a as u32) as int == a);
    lemma_read_lengths_loop(b, p + 63, l, 0, 8, a);
    assert(l.take(0) + zeros(a) =~= zeros(a));
    assert(level2_len(l) * 0 == 0);
}

/// One prefix code's lengths at bit `p` where the uniform code for `u` was written.
proof fn lemma_table_at_uniform(b: Seq<bool>, p: int, u: Seq<bool>)
    requires
        bits_at(b, p, header_bits(uniform_lengths(u))),
        1 <= u.len() <= 4096,
    ensures
        table_at(pack(b), p, u.len() as int) == Some((p + header_bits(uniform_lengths(u)).len(), uniform_lengths(u))),
{
    lemma_uniform_values(u);
    lemma_read_header(b, p, uniform_lengths(u));
    lemma_uniform_table_ok(u);
}

/// A pixel's four channels put back together.
proof fn lemma_channels_join(x: u32)
    ensures
        argb_of(chan(x, 3), chan(x, 1), chan(x, 0), chan(x, 2)) == x,
        0 <= chan(x, 0) < 256,
        0 <= chan(x, 1) < 256,
        0 <= chan(x, 2) < 256,
        0 <= chan(x, 3) < 256,
{
    assert(((x / 16777216) * 16777216 + ((x / 65536) % 256) * 65536 + ((x / 256) % 256) * 256 + x % 256) == x) by (bit_vector);
    assert(x / 16777216 < 256) by (bit_vector);
}

proof fn lemma_pixel_bits_prefix(b: Seq<bool>, p: int, px: Seq<u32>, big: int, k: int)
    requires
        0 <= k <= big,
        bits_at(b, p, pixel_bits(px, big)),
    ensures
        bits_at(b, p, pixel_bits(px, k)),
    decreases big,
{
    if k < big {
        let x = px[big - 1];
        let rest = sym_bits(used_of(px, 0, 280), chan(x, 0)) + sym_bits(used_of(px, 1, 256), chan(x, 1)) + sym_bits(
            used_of(px, 2, 256),
            chan(x, 2),
        ) + sym_bits(used_of(px, 3, 256), chan(x, 3));
        assert(pixel_bits(px, big) =~= pixel_bits(px, big - 1) + rest);
        lemma_bits_at_split(b, p, pixel_bits(px, big - 1), rest);
        lemma_pixel_bits_prefix(b, p, px, big - 1, k);
    }
}

/// Decoding one channel of pixel `k` where its symbol was written.
proof fn lemma_channel_decode(b: Seq<bool>, q: int, px: Seq<u32>, k: int, c: int, alphabet: int)
    requires
        0 <= k < px.len(),
        0 <= c < 4,
        256 <= alphabet <= 280,
        bits_at(b, q, sym_bits(used_of(px, c, alphabet), chan(px[k], c))),
    ensures
        table_decode(uniform_lengths(used_of(px, c, alphabet)), pack(b), q) == Some((
            chan(px[k], c),
            q + sym_bits(used_of(px, c, alphabet), chan(px[k], c)).len(),
        )),
{
    lemma_channels_join(px[k]);
    let u = used_of(px, c, alphabet);
    assert(u[chan(px[k], c)]) by {
        assert(0 <= k < px.len() && chan(px[k], c) == chan(px[k], c));
    }
    lemma_uniform_decode(u, b, q, chan(px[k], c));
}

/// The pixel loop reads back, from pixel `k` on, the pixels written as literals.
#[verifier::rlimit(40)]
proof fn lemma_read_pixels(b: Seq<bool>, start: int, px: Seq<u32>, width: int, k: int)
    requires
        0 <= k <= px.len(),
        width >= 1,
        bits_at(b, start, pixel_bits(px, px.len() as int)),
    ensures
        pixels_loop(
            pack(b),
            start + pixel_bits(px, k).len(),
            width,
            px.len() as int,
            seq![seq![
                uniform_lengths(used_of(px, 0, 280)),
                uniform_lengths(used_of(px, 1, 256)),
                uniform_lengths(used_of(px, 2, 256)),
                uniform_lengths(used_of(px, 3, 256)),
                uniform_lengths(dist_used()),
            ]],
            false,
            1,
            width,
            seq![],
            0,
            px.take(k),
            seq![],
        ) == Some((start + pixel_bits(px, px.len() as int).len(), px)),
    decreases px.len() - k,
{
    let d = pack(b);
    let n = px.len() as int;
    let gs = seq![seq![
        uniform_lengths(used_of(px, 0, 280)),
        uniform_lengths(used_of(px, 1, 256)),
        uniform_lengths(used_of(px, 2, 256)),
        uniform_lengths(used_of(px, 3, 256)),
        uniform_lengths(dist_used()),
    ]];
    let pos = start + pixel_bits(px, k).len();
    reveal(pixels_loop);
    if k == n {
        assert(px.take(k) =~= px);
    } else {
        let x = px[k];
        let s0 = sym_bits(used_of(px, 0, 280), chan(x, 0));
        let s1 = sym_bits(used_of(px, 1, 256), chan(x, 1));
        let s2 = sym_bits(used_of(px, 2, 256), chan(x, 2));
        let s3 = sym_bits(used_of(px, 3, 256), chan(x, 3));
        lemma_pixel_bits_prefix(b, start, px, n, k + 1);
        assert(pixel_bits(px, k + 1) =~= pixel_bits(px, k) + s0 + s1 + s2 + s3);
        lemma_bits_at_split(b, start, pixel_bits(px, k) + s0 + s1 + s2, s3);
        lemma_bits_at_split(b, start, pixel_bits(px, k) + s0 + s1, s2);
        lemma_bits_at_split(b, start, pixel_bits(px, k) + s0, s1);
        lemma_bits_at_split(b, start, pixel_bits(px, k), s0);
        lemma_channel_decode(b, pos, px, k, 0, 280);
        lemma_channel_decode(b, pos + s0.len(), px, k, 1, 256);
        lemma_channel_decode(b, pos + s0.len() + s1.len(), px, k, 2, 256);
        lemma_channel_decode(b, pos + s0.len() + s1.len() + s2.len(), px, k, 3, 256);
        lemma_channels_join(x);
        let next = pos + s0.len() + s1.len() + s2.len() + s3.len();
        let none32 = Seq::<u32>::empty();
        assert(pixel_step(d, pos, width, n, gs, false, 1, width, none32, 0, px.take(k), none32) == Some((
            next,
            px.take(k).push(x),
            none32,
        ))) by {
            reveal(pixel_step);
            assert(group_of(none32, false, width, 1, width, k) == 0);
            assert(gs[0][0] == uniform_lengths(used_of(px, 0, 280)));
            assert(gs[0][1] == uniform_lengths(used_of(px, 1, 256)));
            assert(gs[0][2] == uniform_lengths(used_of(px, 2, 256)));
            assert(gs[0][3] == uniform_lengths(used_of(px, 3, 256)));
            assert(cache_put(none32, 0, x) == none32);
        }
        assert(px.take(k).push(x) =~= px.take(k + 1));
        lemma_read_pixels(b, start, px, width, k + 1);
    }
}

/// The five code headers of the encoder's one group.
pub open spec fn group_headers(px: Seq<u32>) -> Seq<bool> {
    header_bits(uniform_lengths(used_of(px, 0, 280))) + header_bits(uniform_lengths(used_of(px, 1, 256)))
        + header_bits(uniform_lengths(used_of(px, 2, 256))) + header_bits(uniform_lengths(used_of(px, 3, 256)))
        + header_bits(uniform_lengths(dist_used()))
}

/// The code lengths of the encoder's one group.
pub open spec fn group_lengths(px: Seq<u32>) -> Seq<Seq<u8>> {
    seq![
        uniform_lengths(used_of(px, 0, 280)),
        uniform_lengths(used_of(px, 1, 256)),
        uniform_lengths(used_of(px, 2, 256)),
        uniform_lengths(used_of(px, 3, 256)),
        uniform_lengths(dist_used()),
    ]
}

#[verifier::rlimit(100)]
#[verifier::spinoff_prover]
proof fn lemma_read_groups(b: Seq<bool>, q0: int, px: Seq<u32>)
    requires
        bits_at(b, q0, group_headers(px)),
    ensures
        groups_spec(pack(b), q0, 0, 1) == Some((q0 + group_headers(px).len(), seq![group_lengths(px)])),
{
    let d = pack(b);
    let hg = header_bits(uniform_lengths(used_of(px, 0, 280)));
    let hr = header_bits(uniform_lengths(used_of(px, 1, 256)));
    let hb = header_bits(uniform_lengths(used_of(px, 2, 256)));
    let ha = header_bits(uniform_lengths(used_of(px, 3, 256)));
    let hd = header_bits(uniform_lengths(dist_used()));
    lemma_bits_at_split(b, q0, hg + hr + hb + ha, hd);
    lemma_bits_at_split(b, q0, hg + hr + hb, ha);
    lemma_bits_at_split(b, q0, hg + hr, hb);
    lemma_bits_at_split(b, q0, hg, hr);
    lemma_table_at_uniform(b, q0, used_of(px, 0, 280));
    lemma_table_at_uniform(b, q0 + hg.len(), used_of(px, 1, 256));
    lemma_table_at_uniform(b, q0 + hg.len() + hr.len(), used_of(px, 2, 256));
    lemma_table_at_uniform(b, q0 + hg.len() + hr.len() + hb.len(), used_of(px, 3, 256));
    lemma_table_at_uniform(b, q0 + hg.len() + hr.len() + hb.len() + ha.len(), dist_used());
    let q5 = q0 + group_headers(px).len();
    let g = group_lengths(px);
    assert(group_spec(d, q0, 0) == Some((q5, g))) by {
        reveal(group_spec);
    }
    assert(groups_spec(d, q0, 0, 1) == Some((q5, seq![g]))) by {
        reveal_with_fuel(groups_spec, 2);
        assert(seq![].push(g) =~= seq![g]);
    }
}

/// What the VP8L decoder reads back of what the encoder writes: an image stream read where
/// [`stream_bits`] wrote the `width * height` pixels `px` gives exactly `px`, and ends where the
/// written bits end.
#[verifier::rlimit(40)]
pub proof fn lemma_image_stream_round_trip(b: Seq<bool>, p: int, px: Seq<u32>, width: int, height: int)
    requires
        bits_at(b, p, stream_bits(px)),
        width >= 1,
        height >= 1,
        px.len() == width * height,
    ensures
        image_stream(pack(b), p, width, height, true) == Some((p + stream_bits(px).len(), px)),
{
    let d = pack(b);
    let hs = group_headers(px);
    let pb = pixel_bits(px, px.len() as int);
    let z = bitseq(0, 1);
    lemma_bitseq_len(0, 1);
    assert(stream_bits(px) =~= z + z + hs + pb);
    lemma_bits_at_split(b, p, z + z + hs, pb);
    lemma_bits_at_split(b, p, z + z, hs);
    lemma_bits_at_split(b, p, z, z);
    assert(super::zlib::pow2(1) == 2) by {
        reveal_with_fuel(super::zlib::pow2, 2);
    }
    lemma_read_value(b, p, 0, 1);
    lemma_read_value(b, p + 1, 0, 1);
    lemma_read_groups(b, p + 2, px);
    let q5 = p + 2 + hs.len();
    lemma_read_pixels(b, q5, px, width, 0);
    assert(px.take(0) =~= Seq::<u32>::empty());
    assert(zeros32(0) =~= Seq::<u32>::empty());
    assert(div_ceil(width, 1) == width);
    assert(stream_rest(d, p + 2, width, height, 0, false, 1, seq![]) == Some((q5 + pb.len(), px))) by {
        reveal(stream_rest);
        assert(seq![group_lengths(px)] =~= seq![seq![
            uniform_lengths(used_of(px, 0, 280)),
            uniform_lengths(used_of(px, 1, 256)),
            uniform_lengths(used_of(px, 2, 256)),
            uniform_lengths(used_of(px, 3, 256)),
            uniform_lengths(dist_used()),
        ]]);
    }
}

/// The same, for the bytes of a stream written on its own.
pub proof fn lemma_stream_bytes_round_trip(px: Seq<u32>, width: int, height: int)
    requires
        width >= 1,
        height >= 1,
        px.len() == width * height,
    ensures
        image_stream(pack(stream_bits(px)), 0, width, height, true) == Some((stream_bits(px).len() as int, px)),
{
    assert(stream_bits(px).subrange(0, stream_bits(px).len() as int) =~= stream_bits(px));
    lemma_image_stream_round_trip(stream_bits(px), 0, px, width, height);
}

proof fn lemma_len_bits_len(l: Seq<u8>, k: int)
    requires
        0 <= k,
    ensures
        len_bits(l, k).len() == level2_len(l) * k,
    decreases k,
{
    lemma_d_rank_bounds(l, 16);
    lemma_bits_for_nonneg(d_rank(l, 16));
    if k > 0 {
        lemma_len_bits_len(l, k - 1);
        lemma_bitseq_len(reverse_spec(d_rank(l, l[k - 1] as int), level2_len(l) as nat), level2_len(l) as nat);
        assert(level2_len(l) * (k - 1) + level2_len(l) == level2_len(l) * k) by (nonlinear_arith);
    }
}

proof fn lemma_cl_bits_len(l: Seq<u8>, k: int)
    requires
        0 <= k,
    ensures
        cl_bits(l, k).len() == 3 * k,
    decreases k,
{
    if k > 0 {
        lemma_cl_bits_len(l, k - 1);
        lemma_bitseq_len(cl_value(l, cl_order()[k - 1]), 3);
    }
}

proof fn lemma_header_len(u: Seq<bool>)
    requires
        u.len() <= 4096,
    ensures
        header_bits(uniform_lengths(u)).len() <= 63 + 4 * u.len(),
{
    let l = uniform_lengths(u);
    lemma_uniform_values(u);
    lemma_values_code(l);
    lemma_len_bits_len(l, l.len() as int);
    lemma_cl_bits_len(l, 19);
    lemma_bitseq_len(0, 1);
    lemma_bitseq_len(15, 4);
    assert(level2_len(l) * l.len() <= 4 * l.len()) by (nonlinear_arith)
        requires level2_len(l) <= 4;
}

proof fn lemma_pixel_bits_len(px: Seq<u32>, k: int)
    requires
        0 <= k <= px.len(),
    ensures
        pixel_bits(px, k).len() <= 48 * k,
    decreases k,
{
    if k > 0 {
        lemma_pixel_bits_len(px, k - 1);
        let x = px[k - 1];
        lemma_sym_bits_len(used_of(px, 0, 280), chan(x, 0));
        lemma_sym_bits_len(used_of(px, 1, 256), chan(x, 1));
        lemma_sym_bits_len(used_of(px, 2, 256), chan(x, 2));
        lemma_sym_bits_len(used_of(px, 3, 256), chan(x, 3));
    }
}

/// The encoder's stream takes at most 48 bits a pixel and a few thousand for its codes.
pub proof fn lemma_stream_bits_len(px: Seq<u32>)
    ensures
        stream_bits(px).len() <= 5000 + 48 * px.len(),
{
    lemma_header_len(used_of(px, 0, 280));
    lemma_header_len(used_of(px, 1, 256));
    lemma_header_len(used_of(px, 2, 256));
    lemma_header_len(used_of(px, 3, 256));
    lemma_header_len(dist_used());
    lemma_pixel_bits_len(px, px.len() as int);
    lemma_bitseq_len(0, 1);
}

/// The payload of the RIFF file [`riff_spec`] writes is the payload it was given.
proof fn lemma_riff_round_trip(payload: Seq<u8>)
    requires
        payload.len() < 0x1_0000_0000,
    ensures
        riff_payload(riff_spec(payload)) == Some(payload),
{
    let chunk = if payload.len() % 2 == 1 { payload.push(0u8) } else { payload };
    let f = riff_spec(payload);
    let hd = riff_tag() + le32((12 + chunk.len()) as int) + webp_tag() + vp8l_tag() + le32(payload.len() as int);
    assert(f == hd + chunk);
    assert(hd.len() == 20);
    assert(f.subrange(16, 20) =~= le32(payload.len() as int));
    lemma_le32_read(f, 16, payload.len() as int);
    assert(f[0] == 0x52 && f[1] == 0x49 && f[2] == 0x46 && f[3] == 0x46);
    assert(f[8] == 0x57 && f[9] == 0x45 && f[10] == 0x42 && f[11] == 0x50);
    assert(f[12] == 0x56 && f[13] == 0x50 && f[14] == 0x38 && f[15] == 0x4c);
    assert(f.subrange(20, 20 + payload.len() as int) =~= payload);
}

/// RGBA bytes taken apart into ARGB pixels and put back together are the same bytes.
proof fn lemma_rgba_argb(px: Seq<u8>, n: int)
    requires
        n >= 0,
        px.len() == 4 * n,
    ensures
        argb_to_rgba(rgba_to_argb(px, n)) == px,
{
    let a = rgba_to_argb(px, n);
    assert forall|i: int| 0 <= i < 4 * n implies #[trigger] argb_to_rgba(a)[i] == px[i] by {
        let j = i / 4;
        assert(0 <= j < n && i == 4 * j + i % 4);
        lemma_channels_undo_combine(px[4 * j + 3], px[4 * j], px[4 * j + 1], px[4 * j + 2]);
        assert(a[j] == rgba_pixel(px, j));
    }
    assert(argb_to_rgba(a) =~= px);
}

/// The VP8L header fields read back where [`stream_header`] wrote them.
#[verifier::rlimit(40)]
proof fn lemma_read_stream_header(b: Seq<bool>, w: int, h: int, alpha: bool)
    requires
        bits_at(b, 0, stream_header(w, h, alpha)),
        1 <= w <= 16384,
        1 <= h <= 16384,
    ensures
        stream_header(w, h, alpha).len() == 41,
        bits_ok(pack(b), 0, 8) && bits_le(pack(b), 0, 8) == 0x2f,
        bits_ok(pack(b), 8, 32),
        bits_le(pack(b), 8, 14) == w - 1,
        bits_le(pack(b), 22, 14) == h - 1,
        bits_le(pack(b), 37, 3) == 0,
        bits_ok(pack(b), 40, 1) && bits_le(pack(b), 40, 1) == 0,
{
    let av: int = if alpha { 1 } else { 0 };
    lemma_bitseq_len(0x2f, 8);
    lemma_bitseq_len(w - 1, 14);
    lemma_bitseq_len(h - 1, 14);
    lemma_bitseq_len(av, 1);
    lemma_bitseq_len(0, 3);
    lemma_bitseq_len(0, 1);
    let b0 = bitseq(0x2f, 8);
    let b1 = bitseq(w - 1, 14);
    let b2 = bitseq(h - 1, 14);
    let b3 = bitseq(av, 1);
    let b4 = bitseq(0, 3);
    let b5 = bitseq(0, 1);
    assert(stream_header(w, h, alpha) == b0 + b1 + b2 + b3 + b4 + b5);
    lemma_bits_at_split(b, 0, b0 + b1 + b2 + b3 + b4, b5);
    lemma_bits_at_split(b, 0, b0 + b1 + b2 + b3, b4);
    lemma_bits_at_split(b, 0, b0 + b1 + b2, b3);
    lemma_bits_at_split(b, 0, b0 + b1, b2);
    lemma_bits_at_split(b, 0, b0, b1);
    assert(super::zlib::pow2(1) == 2 && super::zlib::pow2(3) == 8 && super::zlib::pow2(8) == 256 && super::zlib::pow2(14) == 16384) by {
        reveal_with_fuel(super::zlib::pow2, 15);
    }
    lemma_read_value(b, 0, 0x2f, 8);
    lemma_read_value(b, 8, w - 1, 14);
    lemma_read_value(b, 22, h - 1, 14);
    lemma_read_value(b, 37, 0, 3);
    lemma_read_value(b, 40, 0, 1);
}

proof fn lemma_no_transforms(d: Seq<u8>, w: int, h: int)
    requires
        bits_ok(d, 40, 1),
        bits_le(d, 40, 1) == 0,
    ensures
        transforms_spec(d, 40, w, h) == Ok::<(int, Seq<super::webp::TransformView>, int), crate::ConvertError>((41, seq![], w)),
{
}

/// The decoder's steps on a file whose parts read back as written.
#[verifier::spinoff_prover]
proof fn lemma_decode_parts(f: Seq<u8>, d: Seq<u8>, w: int, h: int, a: Seq<u32>, e: int, px: Seq<u8>)
    requires
        riff_payload(f) == Some(d),
        bits_ok(d, 0, 8) && bits_le(d, 0, 8) == 0x2f,
        bits_ok(d, 8, 32),
        bits_le(d, 8, 14) == w - 1,
        bits_le(d, 22, 14) == h - 1,
        bits_le(d, 37, 3) == 0,
        transforms_spec(d, 40, w, h) == Ok::<(int, Seq<super::webp::TransformView>, int), crate::ConvertError>((41, seq![], w)),
        dims_ok(w, h),
        image_stream(d, 41, w, h, true) == Some((e, a)),
        argb_to_rgba(a) == px,
    ensures
        decode_spec(f) == Ok::<(u32, u32, Seq<u8>), crate::ConvertError>((w as u32, h as u32, px)),
{
    assert(undo_all(a, seq![], w, h) == Ok::<Seq<u32>, crate::ConvertError>(a));
}

/// Decoding the file for the ARGB pixels `a` gives their RGBA bytes `px`.
#[verifier::spinoff_prover]
#[verifier::rlimit(60)]
proof fn lemma_webp_file_reads_back(w: int, h: int, alpha: bool, a: Seq<u32>, px: Seq<u8>)
    requires
        1 <= w <= 16384,
        1 <= h <= 16384,
        w * h <= MAX_PIXELS,
        a.len() == w * h,
        argb_to_rgba(a) == px,
    ensures
        decode_spec(riff_spec(pack(stream_header(w, h, alpha) + stream_bits(a)))) == Ok::<(u32, u32, Seq<u8>), crate::ConvertError>((
            w as u32,
            h as u32,
            px,
        )),
{
    let n = w * h;
    let sh = stream_header(w, h, alpha);
    let s = sh + stream_bits(a);
    let d = pack(s);
    lemma_stream_bits_len(a);
    lemma_pack_len(s);
    assert(s.subrange(0, s.len() as int) =~= s);
    lemma_bits_at_split(s, 0, sh, stream_bits(a));
    lemma_read_stream_header(s, w, h, alpha);
    assert(n <= 16777216);
    assert(d.len() < 0x1_0000_0000) by (nonlinear_arith)
        requires d.len() == (s.len() + 7) / 8, s.len() <= 41 + 5000 + 48 * n, n <= 16777216;
    lemma_riff_round_trip(d);
    lemma_no_transforms(d, w, h);
    lemma_image_stream_round_trip(s, 41, a, w, h);
    lemma_decode_parts(riff_spec(d), d, w, h, a, 41 + stream_bits(a).len() as int, px);
}

/// What the WebP decoder reads back of what the encoder writes: decoding the file
/// [`encode_spec`] gives for a `width x height` RGBA image gives the same size and every byte of
/// every pixel, alpha included.
#[verifier::spinoff_prover]
#[verifier::rlimit(80)]
pub proof fn lemma_webp_round_trip(width: u32, height: u32, px: Seq<u8>)
    requires
        1 <= width <= 16384,
        1 <= height <= 16384,
        width * height <= MAX_PIXELS,
        px.len() == 4 * width * height,
    ensures
        decode_spec(encode_spec(width as int, height as int, px)) == Ok::<(u32, u32, Seq<u8>), crate::ConvertError>((width, height, px)),
{
    let w = width as int;
    let h = height as int;
    let n = w * h;
    let a = rgba_to_argb(px, n);
    let f = riff_spec(pack(stream_header(w, h, uses_alpha(px, n)) + stream_bits(a)));
    assert(encode_spec(w, h, px) == f);
    assert(px.len() == 4 * n) by (nonlinear_arith)
        requires px.len() == 4 * width * height, n == width * height;
    lemma_rgba_argb(px, n);
    lemma_webp_file_reads_back(w, h, uses_alpha(px, n), a, px);
    assert(w as u32 == width && h as u32 == height);
}

} // verus!
