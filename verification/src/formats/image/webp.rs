//! WebP lossless (VP8L) decode and encode: the RIFF container, the four pixel transforms
//! (predictor, color, subtract-green, color-indexing) around the VP8L pixel stream, and the
//! bridge to [`RawImage`]. Lossy WebP (`VP8 `) is out of scope.

use vstd::prelude::*;

use super::raster::{checked_rgba_len, dims_ok, image_matches, RawImage};
use super::vp8l::{self, bits_ok, div_ceil, image_stream, BitReader, BitWriter, Stop};
use super::zlib::{bits_le, pow2};
use crate::bytes::{le32, u32_le};
use crate::{ConvertError, ConvertOptions, Format};

verus! {

/// The byte a VP8L stream starts with.
pub const VP8L_SIGNATURE: u8 = 0x2f;
/// The largest width or height VP8L's 14-bit fields hold.
pub const MAX_DIMENSION: u32 = 16384;

// ─── Pixels ────────────────────────────────────────────────────────────────

/// Channel `i` of an ARGB pixel: 0 alpha, 1 red, 2 green, 3 blue.
pub open spec fn ch(argb: u32, i: int) -> u8 {
    if i == 0 {
        (argb / 16777216) as u8
    } else if i == 1 {
        ((argb / 65536) % 256) as u8
    } else if i == 2 {
        ((argb / 256) % 256) as u8
    } else {
        (argb % 256) as u8
    }
}

/// The ARGB pixel with channels `a r g b`.
pub open spec fn comb(a: u8, r: u8, g: u8, b: u8) -> u32 {
    (a * 16777216 + r * 65536 + g * 256 + b) as u32
}

/// The channels of a pixel: alpha, red, green, blue.
pub fn channels(argb: u32) -> (r: [u8; 4])
    ensures
        r@ == seq![ch(argb, 0), ch(argb, 1), ch(argb, 2), ch(argb, 3)],
{
    let r = [(argb / 16777216) as u8, ((argb / 65536) % 256) as u8, ((argb / 256) % 256) as u8, (argb % 256) as u8];
    assert(r@ =~= seq![ch(argb, 0), ch(argb, 1), ch(argb, 2), ch(argb, 3)]);
    r
}

/// The pixel with channels `c` (alpha, red, green, blue).
pub fn combine(c: [u8; 4]) -> (r: u32)
    ensures
        r == comb(c@[0], c@[1], c@[2], c@[3]),
{
    (c[0] as u32) * 16777216 + (c[1] as u32) * 65536 + (c[2] as u32) * 256 + c[3] as u32
}

/// Splitting a combined pixel gives back its channels: [`channels`] undoes [`combine`].
pub proof fn lemma_channels_undo_combine(a: u8, r: u8, g: u8, b: u8)
    ensures
        ch(comb(a, r, g, b), 0) == a,
        ch(comb(a, r, g, b), 1) == r,
        ch(comb(a, r, g, b), 2) == g,
        ch(comb(a, r, g, b), 3) == b,
{
    let v = comb(a, r, g, b);
    assert(v == a * 16777216 + r * 65536 + g * 256 + b);
    assert(v / 16777216 == a);
    assert(v / 65536 == a * 256 + r);
    assert(v / 256 == a * 65536 + r * 256 + g);
}

/// `(a + b) / 2`.
pub fn average2(a: u8, b: u8) -> (r: u8)
    ensures
        r == (a + b) / 2,
{
    ((a as u16 + b as u16) / 2) as u8
}

/// The channel-wise average of two pixels.
pub open spec fn avg_px(a: u32, b: u32) -> u32 {
    comb(
        ((ch(a, 0) + ch(b, 0)) / 2) as u8,
        ((ch(a, 1) + ch(b, 1)) / 2) as u8,
        ((ch(a, 2) + ch(b, 2)) / 2) as u8,
        ((ch(a, 3) + ch(b, 3)) / 2) as u8,
    )
}

/// The channel-wise average of two pixels.
pub fn average2_argb(a: u32, b: u32) -> (r: u32)
    ensures
        r == avg_px(a, b),
{
    let ca = channels(a);
    let cb = channels(b);
    combine([average2(ca[0], cb[0]), average2(ca[1], cb[1]), average2(ca[2], cb[2]), average2(ca[3], cb[3])])
}

/// `v` clamped to `0..=255`.
pub open spec fn clamp_spec(v: int) -> u8 {
    if v < 0 {
        0
    } else if v > 255 {
        255
    } else {
        v as u8
    }
}

/// `v` clamped to `0..=255`.
pub fn clamp(v: i32) -> (r: u8)
    ensures
        r == clamp_spec(v as int),
{
    if v < 0 {
        0
    } else if v > 255 {
        255
    } else {
        v as u8
    }
}

/// `|x|`.
pub open spec fn absi(x: int) -> int {
    if x < 0 {
        -x
    } else {
        x
    }
}

/// The sum over channels of `|l + t - tl - c|` for a candidate pixel `c`.
pub open spec fn sel_dist(l: u32, t: u32, tl: u32, c: u32) -> int {
    absi(ch(l, 0) + ch(t, 0) - ch(tl, 0) - ch(c, 0)) + absi(ch(l, 1) + ch(t, 1) - ch(tl, 1) - ch(c, 1)) + absi(
        ch(l, 2) + ch(t, 2) - ch(tl, 2) - ch(c, 2),
    ) + absi(ch(l, 3) + ch(t, 3) - ch(tl, 3) - ch(c, 3))
}

/// The predictor "select" mode: `l` if it is strictly closer than `t` to `l + t - tl`.
pub open spec fn select_spec(l: u32, t: u32, tl: u32) -> u32 {
    if sel_dist(l, t, tl, l) < sel_dist(l, t, tl, t) {
        l
    } else {
        t
    }
}

fn abs_diff(p: i32, c: u8) -> (r: i32)
    requires
        -255 <= p <= 510,
    ensures
        r == absi(p - c),
{
    let d = p - c as i32;
    if d < 0 {
        -d
    } else {
        d
    }
}

/// The predictor "select" mode.
#[verifier::spinoff_prover]
#[verifier::rlimit(30)]
pub fn select(l: u32, t: u32, tl: u32) -> (r: u32)
    ensures
        r == select_spec(l, t, tl),
{
    let cl = channels(l);
    let ct = channels(t);
    let ctl = channels(tl);
    let p0 = cl[0] as i32 + ct[0] as i32 - ctl[0] as i32;
    let p1 = cl[1] as i32 + ct[1] as i32 - ctl[1] as i32;
    let p2 = cl[2] as i32 + ct[2] as i32 - ctl[2] as i32;
    let p3 = cl[3] as i32 + ct[3] as i32 - ctl[3] as i32;
    let dl = abs_diff(p0, cl[0]) + abs_diff(p1, cl[1]) + abs_diff(p2, cl[2]) + abs_diff(p3, cl[3]);
    let dt = abs_diff(p0, ct[0]) + abs_diff(p1, ct[1]) + abs_diff(p2, ct[2]) + abs_diff(p3, ct[3]);
    if dl < dt {
        l
    } else {
        t
    }
}

/// The predictor modes (0..=13) of the VP8L predictor transform; `None` for 14 and 15.
pub open spec fn predict_spec(mode: u8, l: u32, t: u32, tl: u32, tr: u32) -> Option<u32> {
    if mode == 0 {
        Some(0xff00_0000u32)
    } else if mode == 1 {
        Some(l)
    } else if mode == 2 {
        Some(t)
    } else if mode == 3 {
        Some(tr)
    } else if mode == 4 {
        Some(tl)
    } else if mode == 5 {
        Some(avg_px(avg_px(l, tr), t))
    } else if mode == 6 {
        Some(avg_px(l, tl))
    } else if mode == 7 {
        Some(avg_px(l, t))
    } else if mode == 8 {
        Some(avg_px(tl, t))
    } else if mode == 9 {
        Some(avg_px(t, tr))
    } else if mode == 10 {
        Some(avg_px(avg_px(l, tl), avg_px(t, tr)))
    } else if mode == 11 {
        Some(select_spec(l, t, tl))
    } else if mode == 12 {
        Some(
            comb(
                clamp_spec(ch(l, 0) + ch(t, 0) - ch(tl, 0)),
                clamp_spec(ch(l, 1) + ch(t, 1) - ch(tl, 1)),
                clamp_spec(ch(l, 2) + ch(t, 2) - ch(tl, 2)),
                clamp_spec(ch(l, 3) + ch(t, 3) - ch(tl, 3)),
            ),
        )
    } else if mode == 13 {
        let a = avg_px(l, t);
        Some(
            comb(
                clamp_spec(ch(a, 0) + trunc_half(ch(a, 0) - ch(tl, 0))),
                clamp_spec(ch(a, 1) + trunc_half(ch(a, 1) - ch(tl, 1))),
                clamp_spec(ch(a, 2) + trunc_half(ch(a, 2) - ch(tl, 2))),
                clamp_spec(ch(a, 3) + trunc_half(ch(a, 3) - ch(tl, 3))),
            ),
        )
    } else {
        None
    }
}

/// `clamp(a + (a - b) / 2)`, the division truncating toward zero as Rust's does.
fn clamp_add_subtract_half(a: i32, b: i32) -> (r: u8)
    requires
        0 <= a <= 255,
        0 <= b <= 255,
    ensures
        r == clamp_spec(a + trunc_half(a - b)),
{
    let d = a - b;
    let h = if d >= 0 {
        d / 2
    } else {
        -((-d) / 2)
    };
    clamp(a + h)
}

/// `x / 2` rounded toward zero.
pub open spec fn trunc_half(x: int) -> int {
    if x >= 0 {
        x / 2
    } else {
        -((-x) / 2)
    }
}

/// `clamp(a + b - c)`.
fn clamp_add_subtract_full(a: i32, b: i32, c: i32) -> (r: u8)
    requires
        0 <= a <= 255,
        0 <= b <= 255,
        0 <= c <= 255,
    ensures
        r == clamp_spec(a + b - c),
{
    clamp(a + b - c)
}

/// The value of predictor `mode` from the left, top, top-left and top-right pixels; `None` for a
/// mode above 13.
pub fn predict(mode: u8, l: u32, t: u32, tl: u32, tr: u32) -> (r: Option<u32>)
    ensures
        r == predict_spec(mode, l, t, tl, tr),
{
    if mode == 0 {
        Some(0xff00_0000)
    } else if mode == 1 {
        Some(l)
    } else if mode == 2 {
        Some(t)
    } else if mode == 3 {
        Some(tr)
    } else if mode == 4 {
        Some(tl)
    } else if mode == 5 {
        Some(average2_argb(average2_argb(l, tr), t))
    } else if mode == 6 {
        Some(average2_argb(l, tl))
    } else if mode == 7 {
        Some(average2_argb(l, t))
    } else if mode == 8 {
        Some(average2_argb(tl, t))
    } else if mode == 9 {
        Some(average2_argb(t, tr))
    } else if mode == 10 {
        Some(average2_argb(average2_argb(l, tl), average2_argb(t, tr)))
    } else if mode == 11 {
        Some(select(l, t, tl))
    } else if mode == 12 {
        let cl = channels(l);
        let ct = channels(t);
        let ctl = channels(tl);
        Some(
            combine(
                [
                    clamp_add_subtract_full(cl[0] as i32, ct[0] as i32, ctl[0] as i32),
                    clamp_add_subtract_full(cl[1] as i32, ct[1] as i32, ctl[1] as i32),
                    clamp_add_subtract_full(cl[2] as i32, ct[2] as i32, ctl[2] as i32),
                    clamp_add_subtract_full(cl[3] as i32, ct[3] as i32, ctl[3] as i32),
                ],
            ),
        )
    } else if mode == 13 {
        let ca = channels(average2_argb(l, t));
        let ctl = channels(tl);
        Some(
            combine(
                [
                    clamp_add_subtract_half(ca[0] as i32, ctl[0] as i32),
                    clamp_add_subtract_half(ca[1] as i32, ctl[1] as i32),
                    clamp_add_subtract_half(ca[2] as i32, ctl[2] as i32),
                    clamp_add_subtract_half(ca[3] as i32, ctl[3] as i32),
                ],
            ),
        )
    } else {
        None
    }
}

/// The channel-wise sum, mod 256, of two pixels.
pub open spec fn add_px(a: u32, b: u32) -> u32 {
    comb(
        ((ch(a, 0) + ch(b, 0)) % 256) as u8,
        ((ch(a, 1) + ch(b, 1)) % 256) as u8,
        ((ch(a, 2) + ch(b, 2)) % 256) as u8,
        ((ch(a, 3) + ch(b, 3)) % 256) as u8,
    )
}

fn add_pixels(a: u32, b: u32) -> (r: u32)
    ensures
        r == add_px(a, b),
{
    let ca = channels(a);
    let cb = channels(b);
    combine(
        [
            ((ca[0] as u16 + cb[0] as u16) % 256) as u8,
            ((ca[1] as u16 + cb[1] as u16) % 256) as u8,
            ((ca[2] as u16 + cb[2] as u16) % 256) as u8,
            ((ca[3] as u16 + cb[3] as u16) % 256) as u8,
        ],
    )
}

// ─── Transforms (their inverses: the encoder never writes one) ──────────────

/// The block index of pixel `(x, y)` in a transform sub-image of blocks `div` pixels square,
/// `tw` blocks wide.
pub open spec fn block_of(x: int, y: int, div: int, tw: int) -> int {
    (y / div) * tw + x / div
}

proof fn lemma_block_in_range(x: int, y: int, width: int, height: int, div: int)
    requires
        0 <= x < width,
        0 <= y < height,
        div >= 1,
    ensures
        0 <= block_of(x, y, div, div_ceil(width, div)) < div_ceil(width, div) * div_ceil(height, div),
{
    let tw = div_ceil(width, div);
    let th = div_ceil(height, div);
    assert(x / div < tw && 0 <= x / div) by (nonlinear_arith)
        requires 0 <= x < width, div >= 1, tw == (width + div - 1) / div;
    assert(y / div < th && 0 <= y / div) by (nonlinear_arith)
        requires 0 <= y < height, div >= 1, th == (height + div - 1) / div;
    assert((y / div) * tw + x / div < th * tw) by (nonlinear_arith)
        requires y / div < th, 0 <= x / div < tw, 0 <= y / div;
    assert(th * tw == tw * th) by (nonlinear_arith);
    assert(0 <= (y / div) * tw) by (nonlinear_arith)
        requires 0 <= y / div, tw >= 0;
}

/// The prediction for pixel `idx` of `q` (`width` wide) under the predictor transform with
/// sub-image `tdata`: opaque black for the first pixel, left on the top row, above on the left
/// column, else the mode the sub-image's green channel names, with the first pixel of the row
/// above standing in for the missing top-right of the last column.
pub open spec fn pred_value(q: Seq<u32>, width: int, div: int, tw: int, tdata: Seq<u32>, idx: int) -> Option<u32> {
    let x = idx % width;
    let y = idx / width;
    if x == 0 && y == 0 {
        Some(0xff00_0000u32)
    } else if y == 0 {
        Some(q[idx - 1])
    } else if x == 0 {
        Some(q[idx - width])
    } else {
        let mode = ((tdata[block_of(x, y, div, tw)] / 256) % 256) as u8;
        let tr = if x == width - 1 { q[(y - 1) * width] } else { q[idx - width + 1] };
        predict_spec(mode, q[idx - 1], q[idx - width], q[idx - width - 1], tr)
    }
}

/// The predictor transform undone on the first `k` pixels, in scan order.
pub open spec fn predictor_inverse(px: Seq<u32>, width: int, div: int, tw: int, tdata: Seq<u32>, k: int) -> Option<Seq<u32>>
    decreases k,
{
    if k <= 0 {
        Some(px)
    } else {
        match predictor_inverse(px, width, div, tw, tdata, k - 1) {
            None => None,
            Some(q) => match pred_value(q, width, div, tw, tdata, k - 1) {
                None => None,
                Some(p) => Some(q.update(k - 1, add_px(q[k - 1], p))),
            },
        }
    }
}

proof fn lemma_predictor_len(px: Seq<u32>, width: int, div: int, tw: int, tdata: Seq<u32>, k: int)
    requires
        k <= px.len(),
    ensures
        predictor_inverse(px, width, div, tw, tdata, k) matches Some(q) ==> q.len() == px.len(),
    decreases k,
{
    if k > 0 {
        lemma_predictor_len(px, width, div, tw, tdata, k - 1);
    }
}

/// Undoes the predictor transform in place; `MalformedInput` for a mode above 13.
pub fn apply_predictor_inverse(
    pixels: &mut Vec<u32>,
    width: usize,
    height: usize,
    size_bits: u32,
    tw: usize,
    tdata: &[u32],
) -> (r: Result<(), ConvertError>)
    requires
        1 <= width <= 16384,
        1 <= height <= 16384,
        old(pixels)@.len() == width * height,
        size_bits <= 9,
        tw == div_ceil(width as int, pow2(size_bits as nat) as int),
        tdata@.len() == tw * div_ceil(height as int, pow2(size_bits as nat) as int),
    ensures
        match predictor_inverse(old(pixels)@, width as int, pow2(size_bits as nat) as int, tw as int, tdata@, (width * height) as int) {
            Some(q) => r is Ok && final(pixels)@ == q,
            None => r == Err::<(), ConvertError>(ConvertError::MalformedInput { format: Format::Webp }),
        },
{
    let div = vp8l::pow2_usize(size_bits);
    proof {
        assert(width * height <= 16384 * 16384) by (nonlinear_arith)
            requires width <= 16384, height <= 16384;
    }
    let n = width * height;
    let ghost px0 = pixels@;
    let mut idx: usize = 0;
    while idx < n
        invariant
            idx <= n == width * height <= 16384 * 16384,
            1 <= width <= 16384,
            1 <= height <= 16384,
            div == pow2(size_bits as nat),
            1 <= div,
            tw == div_ceil(width as int, div as int),
            tdata@.len() == tw * div_ceil(height as int, div as int),
            px0 == old(pixels)@,
            predictor_inverse(px0, width as int, div as int, tw as int, tdata@, idx as int) == Some(pixels@),
            pixels@.len() == n,
        decreases n - idx,
    {
        let x = idx % width;
        let y = idx / width;
        proof {
            assert(y < height && y * width + x == idx) by (nonlinear_arith)
                requires idx < width * height, y == idx / width, x == idx % width, width >= 1;
            assert(y >= 1 ==> idx >= width) by (nonlinear_arith)
                requires y * width + x == idx, x >= 0, width >= 1;
            assert(y >= 1 && x >= 1 ==> idx >= width + 1) by (nonlinear_arith)
                requires y * width + x == idx, width >= 1;
        }
        let pred: u32 = if x == 0 && y == 0 {
            0xff00_0000
        } else if y == 0 {
            pixels[idx - 1]
        } else if x == 0 {
            pixels[idx - width]
        } else {
            let l = pixels[idx - 1];
            let t = pixels[idx - width];
            let tl = pixels[idx - width - 1];
            proof {
                assert((y - 1) * width < idx) by (nonlinear_arith)
                    requires y * width + x == idx, y >= 1, width >= 1;
            }
            let tr = if x == width - 1 {
                pixels[(y - 1) * width]
            } else {
                pixels[idx - width + 1]
            };
            let tlen = tdata.len();
            proof {
                lemma_block_in_range(x as int, y as int, width as int, height as int, div as int);
                assert(block_of(x as int, y as int, div as int, tw as int) < tlen);
                assert(0 <= (y / div) * tw <= block_of(x as int, y as int, div as int, tw as int));
            }
            let e = (y / div) * tw + x / div;
            let mode = ((tdata[e] / 256) % 256) as u8;
            match predict(mode, l, t, tl, tr) {
                Some(p) => p,
                None => {
                    proof {
                        lemma_predictor_none(px0, width as int, div as int, tw as int, tdata@, idx + 1, n as int);
                    }
                    return Err(ConvertError::MalformedInput { format: Format::Webp });
                },
            }
        };
        let v = add_pixels(pixels[idx], pred);
        pixels.set(idx, v);
        idx = idx + 1;
    }
    Ok(())
}

proof fn lemma_predictor_none(px: Seq<u32>, width: int, div: int, tw: int, tdata: Seq<u32>, k: int, n: int)
    requires
        1 <= k <= n,
        predictor_inverse(px, width, div, tw, tdata, k) is None,
    ensures
        predictor_inverse(px, width, div, tw, tdata, n) is None,
    decreases n - k,
{
    if k < n {
        lemma_predictor_none(px, width, div, tw, tdata, k, n - 1);
    }
}

/// A byte read as a signed 8-bit value.
pub open spec fn signed8(v: u8) -> int {
    if v >= 128 {
        v - 256
    } else {
        v as int
    }
}

/// The color transform's delta: both operands read as signed 8-bit values, their product divided
/// by 32 rounding down.
pub open spec fn ctd(t: u8, c: u8) -> int {
    (signed8(t) * signed8(c)) / 32
}

/// The color transform's delta (see [`ctd`]).
pub fn color_transform_delta(t: u8, c: u8) -> (r: i32)
    ensures
        r == ctd(t, c),
{
    let st: i32 = if t >= 128 { t as i32 - 256 } else { t as i32 };
    let sc: i32 = if c >= 128 { c as i32 - 256 } else { c as i32 };
    assert(-16384 <= st * sc <= 16384) by (nonlinear_arith)
        requires -128 <= st <= 127, -128 <= sc <= 127;
    let m = st * sc;
    if m >= 0 {
        m / 32
    } else {
        let q = -((-m + 31) / 32);
        assert(q == m / 32) by (nonlinear_arith)
            requires m < 0, q == -((-m + 31) / 32);
        q
    }
}

/// `(a + d) mod 256` for a delta `d`.
pub open spec fn add_delta(a: u8, d: int) -> u8 {
    ((a + d) % 256) as u8
}

fn add_delta_exec(a: u8, d: i32) -> (r: u8)
    requires
        -512 <= d <= 512,
    ensures
        r == add_delta(a, d as int),
{
    let v = a as i32 + d + 1024;
    proof {
        vstd::arithmetic::div_mod::lemma_mod_add_multiples_vanish(a + d + 768, 256);
        vstd::arithmetic::div_mod::lemma_mod_add_multiples_vanish(a + d + 512, 256);
        vstd::arithmetic::div_mod::lemma_mod_add_multiples_vanish(a + d + 256, 256);
        vstd::arithmetic::div_mod::lemma_mod_add_multiples_vanish(a + d, 256);
    }
    (v % 256) as u8
}

/// One pixel with the color transform undone, given the sub-image element `e` (green-to-red in
/// its blue channel, green-to-blue in its green channel, red-to-blue in its red channel).
pub open spec fn color_px(p: u32, e: u32) -> u32 {
    let red = add_delta(ch(p, 1), ctd(ch(e, 3), ch(p, 2)));
    let blue1 = add_delta(ch(p, 3), ctd(ch(e, 2), ch(p, 2)));
    let blue = add_delta(blue1, ctd(ch(e, 1), red));
    comb(ch(p, 0), red, ch(p, 2), blue)
}

/// The color transform undone on every pixel of an image `width` pixels wide.
pub open spec fn color_inverse(px: Seq<u32>, width: int, div: int, tw: int, tdata: Seq<u32>) -> Seq<u32> {
    Seq::new(px.len(), |i: int| color_px(px[i], tdata[block_of(i % width, i / width, div, tw)]))
}

proof fn lemma_ctd_range(t: u8, c: u8)
    ensures
        -512 <= ctd(t, c) <= 512,
{
    let a = signed8(t);
    let b = signed8(c);
    assert(-16384 <= a * b <= 16384) by (nonlinear_arith)
        requires -128 <= a <= 127, -128 <= b <= 127;
}

/// Undoes the color transform in place.
pub fn apply_color_transform_inverse(
    pixels: &mut Vec<u32>,
    width: usize,
    height: usize,
    size_bits: u32,
    tw: usize,
    tdata: &[u32],
)
    requires
        1 <= width <= 16384,
        1 <= height <= 16384,
        old(pixels)@.len() == width * height,
        size_bits <= 9,
        tw == div_ceil(width as int, pow2(size_bits as nat) as int),
        tdata@.len() == tw * div_ceil(height as int, pow2(size_bits as nat) as int),
    ensures
        final(pixels)@ == color_inverse(old(pixels)@, width as int, pow2(size_bits as nat) as int, tw as int, tdata@),
{
    let div = vp8l::pow2_usize(size_bits);
    proof {
        assert(width * height <= 16384 * 16384) by (nonlinear_arith)
            requires width <= 16384, height <= 16384;
    }
    let n = width * height;
    let ghost px0 = pixels@;
    let tlen = tdata.len();
    let mut idx: usize = 0;
    while idx < n
        invariant
            idx <= n == width * height <= 16384 * 16384,
            1 <= width <= 16384,
            1 <= height <= 16384,
            div == pow2(size_bits as nat),
            1 <= div,
            tw == div_ceil(width as int, div as int),
            tlen == tdata@.len(),
            tdata@.len() == tw * div_ceil(height as int, div as int),
            px0 == old(pixels)@,
            px0.len() == n,
            pixels@.len() == n,
            forall|i: int| 0 <= i < idx ==> pixels@[i] == color_inverse(px0, width as int, div as int, tw as int, tdata@)[i],
            forall|i: int| idx <= i < n ==> pixels@[i] == px0[i],
        decreases n - idx,
    {
        let x = idx % width;
        let y = idx / width;
        proof {
            assert(y < height) by (nonlinear_arith)
                requires idx < width * height, y == idx / width, width >= 1;
            lemma_block_in_range(x as int, y as int, width as int, height as int, div as int);
            assert(0 <= (y / div) * tw <= block_of(x as int, y as int, div as int, tw as int));
        }
        let element = tdata[(y / div) * tw + x / div];
        let c = channels(pixels[idx]);
        let e = channels(element);
        proof {
            lemma_ctd_range(e[3], c[2]);
            lemma_ctd_range(e[2], c[2]);
        }
        let red = add_delta_exec(c[1], color_transform_delta(e[3], c[2]));
        let blue1 = add_delta_exec(c[3], color_transform_delta(e[2], c[2]));
        proof {
            lemma_ctd_range(e[1], red);
        }
        let blue = add_delta_exec(blue1, color_transform_delta(e[1], red));
        let v = combine([c[0], red, c[2], blue]);
        proof {
            assert(element == tdata@[block_of((idx as int) % (width as int), (idx as int) / (width as int), div as int, tw as int)]);
            assert(pixels@[idx as int] == px0[idx as int]);
            assert(v == color_px(px0[idx as int], element));
            assert(v == color_inverse(px0, width as int, div as int, tw as int, tdata@)[idx as int]);
        }
        pixels.set(idx, v);
        idx = idx + 1;
    }
    proof {
        assert(pixels@ =~= color_inverse(px0, width as int, div as int, tw as int, tdata@));
    }
}

/// One pixel with subtract-green undone: green added back to red and blue.
pub open spec fn add_green_px(p: u32) -> u32 {
    comb(ch(p, 0), ((ch(p, 1) + ch(p, 2)) % 256) as u8, ch(p, 2), ((ch(p, 3) + ch(p, 2)) % 256) as u8)
}

/// Undoes the subtract-green transform in place.
pub fn apply_subtract_green_inverse(pixels: &mut Vec<u32>)
    ensures
        final(pixels)@ == Seq::new(old(pixels)@.len(), |i: int| add_green_px(old(pixels)@[i])),
{
    let ghost px0 = pixels@;
    let n = pixels.len();
    let mut i: usize = 0;
    while i < n
        invariant
            i <= n == px0.len(),
            px0 == old(pixels)@,
            pixels@.len() == n,
            forall|k: int| 0 <= k < i ==> pixels@[k] == add_green_px(px0[k]),
            forall|k: int| i <= k < n ==> pixels@[k] == px0[k],
        decreases n - i,
    {
        let c = channels(pixels[i]);
        let g = c[2];
        let v = combine([c[0], ((c[1] as u16 + g as u16) % 256) as u8, g, ((c[3] as u16 + g as u16) % 256) as u8]);
        pixels.set(i, v);
        i = i + 1;
    }
    proof {
        assert(pixels@ =~= Seq::new(px0.len(), |k: int| add_green_px(px0[k])));
    }
}

/// The color-table index of output pixel `i` under the color-indexing transform: the green
/// channel of the packed pixel, whose `8 / 2^width_bits`-bit fields hold `2^width_bits` indices
/// each, least significant field first.
pub open spec fn ci_index(pixels: Seq<u32>, i: int, width_bits: u32, orig_width: int) -> int {
    if width_bits == 0 {
        (pixels[i] / 256) as int % 256
    } else {
        let bundle = pow2(width_bits as nat) as int;
        let bits_per = 8int / bundle;
        let x = i % orig_width;
        let y = i / orig_width;
        let green = (pixels[y * div_ceil(orig_width, bundle) + x / bundle] / 256) as int % 256;
        (green / pow2(((x % bundle) * bits_per) as nat) as int) % pow2(bits_per as nat) as int
    }
}

/// How many pixels the color-indexing transform yields.
pub open spec fn ci_len(pixels: Seq<u32>, height: int, width_bits: u32, orig_width: int) -> int {
    if width_bits == 0 {
        pixels.len() as int
    } else {
        orig_width * height
    }
}

/// The color-indexing transform undone: every output pixel looked up in `table`, or `None` if
/// an index falls outside it.
pub open spec fn color_indexing_inverse(pixels: Seq<u32>, height: int, table: Seq<u32>, width_bits: u32, orig_width: int) -> Option<
    Seq<u32>,
> {
    let n = ci_len(pixels, height, width_bits, orig_width);
    if exists|i: int| 0 <= i < n && ci_index(pixels, i, width_bits, orig_width) >= table.len() {
        None
    } else {
        Some(Seq::new(n as nat, |i: int| table[ci_index(pixels, i, width_bits, orig_width)]))
    }
}

/// Undoes the color-indexing transform; `MalformedInput` if an index falls outside `table`.
pub fn apply_color_indexing_inverse(
    pixels: Vec<u32>,
    height: usize,
    table: &[u32],
    width_bits: u32,
    orig_width: usize,
) -> (r: Result<Vec<u32>, ConvertError>)
    requires
        width_bits <= 3,
        1 <= orig_width <= 16384,
        1 <= height <= 16384,
        width_bits > 0 ==> pixels@.len() == div_ceil(orig_width as int, pow2(width_bits as nat) as int) * height,
        width_bits == 0 ==> pixels@.len() <= 16384 * 16384,
    ensures
        match color_indexing_inverse(pixels@, height as int, table@, width_bits, orig_width as int) {
            Some(q) => r matches Ok(v) && v@ == q,
            None => r == Err::<Vec<u32>, ConvertError>(ConvertError::MalformedInput { format: Format::Webp }),
        },
{
    let ghost px = pixels@;
    let mut out: Vec<u32> = Vec::new();
    if width_bits == 0 {
        let n = pixels.len();
        let mut i: usize = 0;
        while i < n
            invariant
                i <= n == px.len(),
                width_bits == 0,
                px == pixels@,
                out@.len() == i,
                forall|k: int| 0 <= k < i ==> #[trigger] ci_index(px, k, width_bits, orig_width as int) < table@.len() && out@[k] == table@[ci_index(px, k, width_bits, orig_width as int)],
            decreases n - i,
        {
            let idx = ((pixels[i] / 256) % 256) as usize;
            if idx >= table.len() {
                proof {
                    assert(ci_index(px, i as int, width_bits, orig_width as int) >= table@.len());
                }
                return Err(ConvertError::MalformedInput { format: Format::Webp });
            }
            let ghost before = out@;
            out.push(table[idx]);
            proof {
                assert(ci_index(px, i as int, width_bits, orig_width as int) == idx);
                assert forall|k: int| 0 <= k < i + 1 implies #[trigger] ci_index(px, k, width_bits, orig_width as int) < table@.len() && out@[k] == table@[ci_index(px, k, width_bits, orig_width as int)] by {
                    if k < i {
                        assert(out@[k] == before[k]);
                    }
                }
            }
            i = i + 1;
        }
        proof {
            assert(out@ =~= Seq::new(n as nat, |k: int| table@[ci_index(px, k, width_bits, orig_width as int)]));
            assert(!exists|k: int| 0 <= k < n && ci_index(px, k, width_bits, orig_width as int) >= table@.len());
        }
        return Ok(out);
    }
    let bundle = vp8l::pow2_usize(width_bits);
    proof {
        assert(pow2(3) == 8 && pow2(2) == 4 && pow2(1) == 2 && pow2(0) == 1) by {
            reveal_with_fuel(pow2, 4);
        }
        assert(bundle == 2 || bundle == 4 || bundle == 8);
    }
    let bits_per = 8 / bundle;
    let fields = vp8l::pow2_usize(bits_per as u32);
    let bw = (orig_width + bundle - 1) / bundle;
    proof {
        assert(orig_width * height <= 16384 * 16384) by (nonlinear_arith)
            requires orig_width <= 16384, height <= 16384;
    }
    let n = orig_width * height;
    let mut i: usize = 0;
    while i < n
        invariant
            i <= n == orig_width * height <= 16384 * 16384,
            1 <= orig_width <= 16384,
            1 <= height <= 16384,
            1 <= width_bits <= 3,
            bundle == pow2(width_bits as nat),
            bundle == 2 || bundle == 4 || bundle == 8,
            bits_per == 8usize / bundle,
            fields == pow2(bits_per as nat),
            fields >= 1,
            bw == div_ceil(orig_width as int, bundle as int),
            px == pixels@,
            px.len() == bw * height,
            out@.len() == i,
            forall|k: int| 0 <= k < i ==> #[trigger] ci_index(px, k, width_bits, orig_width as int) < table@.len() && out@[k] == table@[ci_index(px, k, width_bits, orig_width as int)],
        decreases n - i,
    {
        let plen = pixels.len();
        let x = i % orig_width;
        let y = i / orig_width;
        proof {
            assert(y < height) by (nonlinear_arith)
                requires i < orig_width * height, y == i / orig_width, orig_width >= 1;
            assert((x as int) / (bundle as int) < bw) by (nonlinear_arith)
                requires (x as int) < (orig_width as int), (bundle as int) >= 1, (bw as int) == ((orig_width as int) + (bundle as int) - 1) / (bundle as int);
            assert(y * bw + x / bundle < bw * height) by (nonlinear_arith)
                requires y < height, x / bundle < bw, x / bundle >= 0;
            assert(y * bw + x / bundle < plen);
        }
        let src = pixels[y * bw + x / bundle];
        let green = ((src / 256) % 256) as usize;
        let sub = x % bundle;
        proof {
            assert(sub * bits_per <= 7) by (nonlinear_arith)
                requires sub < bundle, bits_per == 8usize / bundle, bundle == 2 || bundle == 4 || bundle == 8;
        }
        let shift = vp8l::pow2_usize((sub * bits_per) as u32);
        let idx = (green / shift) % fields;
        if idx >= table.len() {
            proof {
                assert(ci_index(px, i as int, width_bits, orig_width as int) >= table@.len());
            }
            return Err(ConvertError::MalformedInput { format: Format::Webp });
        }
        let ghost before = out@;
        out.push(table[idx]);
        proof {
            assert(ci_index(px, i as int, width_bits, orig_width as int) == idx);
            assert forall|k: int| 0 <= k < i + 1 implies #[trigger] ci_index(px, k, width_bits, orig_width as int) < table@.len() && out@[k] == table@[ci_index(px, k, width_bits, orig_width as int)] by {
                if k < i {
                    assert(out@[k] == before[k]);
                }
            }
        }
        i = i + 1;
    }
    proof {
        assert(out@ =~= Seq::new(n as nat, |k: int| table@[ci_index(px, k, width_bits, orig_width as int)]));
        assert(!exists|k: int| 0 <= k < n && ci_index(px, k, width_bits, orig_width as int) >= table@.len());
    }
    Ok(out)
}


// ─── RIFF container ──────────────────────────────────────────────────────────

/// `"RIFF"`.
pub open spec fn riff_tag() -> Seq<u8> {
    seq![0x52u8, 0x49, 0x46, 0x46]
}

/// `"WEBP"`.
pub open spec fn webp_tag() -> Seq<u8> {
    seq![0x57u8, 0x45, 0x42, 0x50]
}

/// `"VP8L"`.
pub open spec fn vp8l_tag() -> Seq<u8> {
    seq![0x56u8, 0x50, 0x38, 0x4c]
}

/// Whether the four bytes of `d` at `i` are `t`.
pub open spec fn tag_at(d: Seq<u8>, i: int, t: Seq<u8>) -> bool {
    d[i] == t[0] && d[i + 1] == t[1] && d[i + 2] == t[2] && d[i + 3] == t[3]
}

/// The VP8L payload of a RIFF/WEBP/VP8L file: the bytes after the 20-byte header, as many as
/// its length field says; `None` if the header is short or wrong or the payload runs past the end.
pub open spec fn riff_payload(d: Seq<u8>) -> Option<Seq<u8>> {
    if d.len() < 20 || !tag_at(d, 0, riff_tag()) || !tag_at(d, 8, webp_tag()) || !tag_at(d, 12, vp8l_tag()) {
        None
    } else if 20 + u32_le(d, 16) > d.len() {
        None
    } else {
        Some(d.subrange(20, 20 + u32_le(d, 16)))
    }
}

/// A RIFF file holding the one VP8L chunk `payload`, padded to an even length.
pub open spec fn riff_spec(payload: Seq<u8>) -> Seq<u8> {
    let chunk = if payload.len() % 2 == 1 { payload.push(0u8) } else { payload };
    riff_tag() + le32((12 + chunk.len()) as int) + webp_tag() + vp8l_tag() + le32(payload.len() as int) + chunk
}

/// The `MalformedInput` error of this format.
pub open spec fn malformed() -> ConvertError {
    ConvertError::MalformedInput { format: Format::Webp }
}

fn tag_matches(input: &[u8], i: usize, a: u8, b: u8, c: u8, e: u8) -> (r: bool)
    requires
        i + 4 <= input@.len(),
    ensures
        r == tag_at(input@, i as int, seq![a, b, c, e]),
{
    input[i] == a && input[i + 1] == b && input[i + 2] == c && input[i + 3] == e
}

/// The VP8L payload of a RIFF/WEBP/VP8L file (see [`riff_payload`]).
fn parse_riff(input: &[u8]) -> (r: Result<&[u8], ConvertError>)
    ensures
        match riff_payload(input@) {
            Some(p) => r matches Ok(s) && s@ == p,
            None => r == Err::<&[u8], ConvertError>(malformed()),
        },
{
    if input.len() < 20 {
        return Err(ConvertError::MalformedInput { format: Format::Webp });
    }
    if !tag_matches(input, 0, 0x52, 0x49, 0x46, 0x46) || !tag_matches(input, 8, 0x57, 0x45, 0x42, 0x50)
        || !tag_matches(input, 12, 0x56, 0x50, 0x38, 0x4c) {
        return Err(ConvertError::MalformedInput { format: Format::Webp });
    }
    let payload_len = crate::bytes::read_u32_le(input, 16) as usize;
    if payload_len > input.len() - 20 {
        return Err(ConvertError::MalformedInput { format: Format::Webp });
    }
    Ok(vstd::slice::slice_subrange(input, 20, 20 + payload_len))
}

/// Wraps `payload` in a RIFF/WEBP/VP8L container (see [`riff_spec`]).
fn write_riff(payload: &[u8]) -> (r: Vec<u8>)
    requires
        payload@.len() + 13 < 0x1_0000_0000,
    ensures
        r@ == riff_spec(payload@),
{
    let mut chunk = crate::bytes::to_vec(payload);
    if chunk.len() % 2 == 1 {
        chunk.push(0);
    }
    let riff_size = (4 + 8 + chunk.len()) as u32;
    let mut out: Vec<u8> = Vec::new();
    crate::bytes::push_all(&mut out, &[0x52u8, 0x49, 0x46, 0x46]);
    crate::bytes::push_u32_le(&mut out, riff_size);
    crate::bytes::push_all(&mut out, &[0x57u8, 0x45, 0x42, 0x50]);
    crate::bytes::push_all(&mut out, &[0x56u8, 0x50, 0x38, 0x4c]);
    crate::bytes::push_u32_le(&mut out, payload.len() as u32);
    crate::bytes::push_all(&mut out, chunk.as_slice());
    proof {
        assert([0x52u8, 0x49, 0x46, 0x46]@ =~= riff_tag());
        assert([0x57u8, 0x45, 0x42, 0x50]@ =~= webp_tag());
        assert([0x56u8, 0x50, 0x38, 0x4c]@ =~= vp8l_tag());
        assert(out@ =~= riff_spec(payload@));
    }
    out
}


// ─── Reading the transforms ──────────────────────────────────────────────────

/// A transform as read from the stream, sub-image data included.
pub enum TransformView {
    Predictor { size_bits: u32, tw: int, data: Seq<u32> },
    Color { size_bits: u32, tw: int, data: Seq<u32> },
    SubtractGreen,
    ColorIndexing { table: Seq<u32>, width_bits: u32, orig_width: int },
}

/// A transform read from the stream, to be undone after the pixels are decoded.
pub enum Transform {
    /// The predictor transform: `2^size_bits`-pixel blocks, `tw` blocks per row, a mode per block.
    Predictor { size_bits: u32, tw: usize, data: Vec<u32> },
    /// The color transform: `2^size_bits`-pixel blocks, `tw` blocks per row, multipliers per block.
    Color { size_bits: u32, tw: usize, data: Vec<u32> },
    /// The subtract-green transform.
    SubtractGreen,
    /// The color-indexing transform: the palette, the bundling and the width before bundling.
    ColorIndexing { table: Vec<u32>, width_bits: u32, orig_width: usize },
}

impl View for Transform {
    type V = TransformView;

    open spec fn view(&self) -> TransformView {
        match self {
            Transform::Predictor { size_bits, tw, data } => TransformView::Predictor { size_bits: *size_bits, tw: *tw as int, data: data@ },
            Transform::Color { size_bits, tw, data } => TransformView::Color { size_bits: *size_bits, tw: *tw as int, data: data@ },
            Transform::SubtractGreen => TransformView::SubtractGreen,
            Transform::ColorIndexing { table, width_bits, orig_width } => TransformView::ColorIndexing {
                table: table@,
                width_bits: *width_bits,
                orig_width: *orig_width as int,
            },
        }
    }
}

/// The views of a list of transforms.
pub open spec fn views(ts: Seq<Transform>) -> Seq<TransformView> {
    ts.map_values(|t: Transform| t@)
}

/// The color table after the first `k` raw entries: each channel the running sum, mod 256.
pub open spec fn table_entry(raw: Seq<u32>, k: int) -> u32
    decreases k,
{
    if k <= 0 {
        0
    } else {
        let a = table_entry(raw, k - 1);
        let c = raw[k - 1];
        comb(
            ((ch(a, 0) + ch(c, 0)) % 256) as u8,
            ((ch(a, 1) + ch(c, 1)) % 256) as u8,
            ((ch(a, 2) + ch(c, 2)) % 256) as u8,
            ((ch(a, 3) + ch(c, 3)) % 256) as u8,
        )
    }
}

/// The color table coded as `raw`: entry `i` is the per-channel sum of `raw[0..=i]`, mod 256.
pub open spec fn color_table_spec(raw: Seq<u32>) -> Seq<u32> {
    Seq::new(raw.len(), |i: int| table_entry(raw, i + 1))
}

/// How many bits of a packed pixel's green channel each index takes, as a power of two: more
/// indices share a pixel the smaller the table.
pub open spec fn width_bits_for(size: int) -> u32 {
    if size <= 2 {
        3
    } else if size <= 4 {
        2
    } else if size <= 16 {
        1
    } else {
        0
    }
}

/// The color-indexing transform bundles as many indices into one pixel's 8-bit green channel as
/// fit: with `b = width_bits_for(size)`, each of the `2^b` indices of a pixel gets `8 / 2^b`
/// bits, which hold every index below `size`; and bundling twice as many would not fit (or
/// `b` is already the largest, 3).
pub proof fn lemma_width_bits_bundle_as_many_as_fit(size: int)
    requires
        1 <= size <= 256,
    ensures
        width_bits_for(size) <= 3,
        size <= pow2(pow2((3 - width_bits_for(size)) as nat)),
        width_bits_for(size) < 3 ==> pow2(pow2((2 - width_bits_for(size)) as nat)) < size,
{
    reveal_with_fuel(pow2, 9);
    assert(pow2(0) == 1 && pow2(1) == 2 && pow2(2) == 4 && pow2(3) == 8);
    assert(pow2(4) == 16 && pow2(8) == 256);
}

/// The coded width after transform `t`, read when the image was `w` wide.
pub open spec fn width_after(t: TransformView, w: int) -> int {
    match t {
        TransformView::ColorIndexing { width_bits, .. } => if width_bits > 0 {
            div_ceil(w, pow2(width_bits as nat) as int)
        } else {
            w
        },
        _ => w,
    }
}

/// The coded width after all of `ts`, starting `w` wide.
pub open spec fn width_after_all(ts: Seq<TransformView>, w: int) -> int
    decreases ts.len(),
{
    if ts.len() == 0 {
        w
    } else {
        width_after(ts.last(), width_after_all(ts.drop_last(), w))
    }
}

/// Transform `t` fits an image `w x h` at the point it was read.
pub open spec fn step_ok(t: TransformView, w: int, h: int) -> bool {
    &&& 1 <= w <= 16384
    &&& match t {
        TransformView::Predictor { size_bits, tw, data } => 2 <= size_bits <= 9 && tw == div_ceil(w, pow2(size_bits as nat) as int)
            && data.len() == tw * div_ceil(h, pow2(size_bits as nat) as int),
        TransformView::Color { size_bits, tw, data } => 2 <= size_bits <= 9 && tw == div_ceil(w, pow2(size_bits as nat) as int)
            && data.len() == tw * div_ceil(h, pow2(size_bits as nat) as int),
        TransformView::SubtractGreen => true,
        TransformView::ColorIndexing { width_bits, orig_width, .. } => width_bits <= 3 && orig_width == w,
    }
}

/// Every transform of `ts` fits the image as it was when the transform was read, from `w x h`.
pub open spec fn chain_ok(ts: Seq<TransformView>, w: int, h: int) -> bool
    decreases ts.len(),
{
    ts.len() == 0 || (chain_ok(ts.drop_last(), w, h) && step_ok(ts.last(), width_after_all(ts.drop_last(), w), h))
}

/// What reading transforms yields: the position after them, the transforms in stream order and
/// the coded width they leave.
pub type TransformsRead = Result<(int, Seq<TransformView>, int), ConvertError>;

/// `ts` in front of the transforms `rest` reads.
pub open spec fn cons_all(ts: Seq<TransformView>, rest: TransformsRead) -> TransformsRead {
    match rest {
        Ok((q, us, w)) => Ok((q, ts + us, w)),
        Err(e) => Err(e),
    }
}

/// One transform of type `t` whose type bits end at bit `q`, read when the image is coded
/// `width x height`: the position after it and the transform. Predictor and color transforms
/// (types 0 and 1) carry a 3-bit block size and a sub-image of one pixel per block; subtract-green
/// (2) carries nothing; color indexing (3) carries an 8-bit table size and the table as a
/// sub-image.
pub open spec fn transform_body(d: Seq<u8>, q: int, t: int, width: int, height: int) -> Result<(int, TransformView), ConvertError> {
    if t == 0 || t == 1 {
        if !bits_ok(d, q, 3) {
            Err(malformed())
        } else {
            let size_bits = (2 + bits_le(d, q, 3)) as u32;
            let div = pow2(size_bits as nat) as int;
            let tw = div_ceil(width, div);
            match image_stream(d, q + 3, tw, div_ceil(height, div), false) {
                None => Err(malformed()),
                Some((q2, data)) => Ok((
                    q2,
                    if t == 0 {
                        TransformView::Predictor { size_bits, tw, data }
                    } else {
                        TransformView::Color { size_bits, tw, data }
                    },
                )),
            }
        }
    } else if t == 2 {
        Ok((q, TransformView::SubtractGreen))
    } else if !bits_ok(d, q, 8) {
        Err(malformed())
    } else {
        let size = bits_le(d, q, 8) + 1;
        match image_stream(d, q + 8, size, 1, false) {
            None => Err(malformed()),
            Some((q2, raw)) => Ok((
                q2,
                TransformView::ColorIndexing { table: color_table_spec(raw), width_bits: width_bits_for(size), orig_width: width },
            )),
        }
    }
}

pub proof fn lemma_transform_body_advances(d: Seq<u8>, q: int, t: int, width: int, height: int)
    ensures
        transform_body(d, q, t, width, height) matches Ok((q2, _)) ==> q <= q2,
{
    if t == 0 || t == 1 {
        let size_bits = (2 + bits_le(d, q, 3)) as u32;
        let div = pow2(size_bits as nat) as int;
        vp8l::lemma_image_stream_advances(d, q + 3, div_ceil(width, div), div_ceil(height, div), false);
    } else if t != 2 {
        vp8l::lemma_image_stream_advances(d, q + 8, bits_le(d, q, 8) + 1, 1, false);
    }
}

/// The transforms from bit `p` of `d` for an image coded `width x height`: each announced by a
/// 1 bit and a 2-bit type (see [`transform_body`]), the list ended by a 0 bit. Color indexing
/// narrows the coded width of what follows when small tables bundle several indices per pixel.
pub open spec fn transforms_spec(d: Seq<u8>, p: int, width: int, height: int) -> TransformsRead
    decreases (if p <= d.len() * 8 { d.len() * 8 - p } else { 0 }),
{
    if !bits_ok(d, p, 1) {
        Err(malformed())
    } else if bits_le(d, p, 1) == 0 {
        Ok((p + 1, seq![], width))
    } else if !bits_ok(d, p + 1, 2) {
        Err(malformed())
    } else {
        match transform_body(d, p + 3, bits_le(d, p + 1, 2), width, height) {
            Err(e) => Err(e),
            Ok((q2, tf)) => {
                proof {
                    lemma_transform_body_advances(d, p + 3, bits_le(d, p + 1, 2), width, height);
                }
                cons_all(seq![tf], transforms_spec(d, q2, width_after(tf, width), height))
            },
        }
    }
}

/// The error a VP8L stream stop turns into.
pub open spec fn stop_err(s: Stop) -> ConvertError {
    match s {
        Stop::Malformed => malformed(),
        Stop::Cancelled => ConvertError::Cancelled,
    }
}

fn from_stop(s: Stop) -> (r: ConvertError)
    ensures
        r == stop_err(s),
{
    match s {
        Stop::Malformed => ConvertError::MalformedInput { format: Format::Webp },
        Stop::Cancelled => ConvertError::Cancelled,
    }
}

/// The color table coded as `raw` (see [`color_table_spec`]).
fn color_table(raw: &Vec<u32>) -> (r: Vec<u32>)
    ensures
        r@ == color_table_spec(raw@),
{
    let mut table: Vec<u32> = Vec::new();
    let mut acc: u32 = 0;
    let n = raw.len();
    let mut i: usize = 0;
    while i < n
        invariant
            i <= n == raw@.len(),
            acc == table_entry(raw@, i as int),
            table@.len() == i,
            forall|k: int| 0 <= k < i ==> table@[k] == table_entry(raw@, k + 1),
        decreases n - i,
    {
        let a = channels(acc);
        let c = channels(raw[i]);
        acc = combine([
            ((a[0] as u16 + c[0] as u16) % 256) as u8,
            ((a[1] as u16 + c[1] as u16) % 256) as u8,
            ((a[2] as u16 + c[2] as u16) % 256) as u8,
            ((a[3] as u16 + c[3] as u16) % 256) as u8,
        ]);
        table.push(acc);
        i = i + 1;
    }
    proof {
        assert(table@ =~= color_table_spec(raw@));
    }
    table
}

proof fn lemma_cons_all_push(ts: Seq<TransformView>, t: TransformView, rest: TransformsRead)
    ensures
        cons_all(ts.push(t), rest) == cons_all(ts, cons_all(seq![t], rest)),
{
    if let Ok((q, us, w)) = rest {
        assert(ts.push(t) + us =~= ts + (seq![t] + us));
    }
}

proof fn lemma_cons_all_empty(rest: TransformsRead)
    ensures
        cons_all(Seq::<TransformView>::empty(), rest) == rest,
{
    if let Ok((q, us, w)) = rest {
        assert(Seq::<TransformView>::empty() + us =~= us);
    }
}

/// Reads one transform of type `ty`, its type bits just read (see [`transform_body`]).
fn read_transform(reader: &mut BitReader, ty: u32, width: usize, height: usize, options: &ConvertOptions) -> (r: Result<
    Transform,
    ConvertError,
>)
    requires
        old(reader).wf(),
        ty < 4,
        1 <= width <= 16384,
        1 <= height <= 16384,
    ensures
        final(reader).wf(),
        final(reader).data() == old(reader).data(),
        (options.may_cancel() && r == Err::<Transform, ConvertError>(ConvertError::Cancelled)) || match transform_body(
            old(reader).data(),
            old(reader).pos(),
            ty as int,
            width as int,
            height as int,
        ) {
            Ok((q, tv)) => r matches Ok(t) && t@ == tv && final(reader).pos() == q,
            Err(e) => r == Err::<Transform, ConvertError>(e),
        },
        r matches Ok(t) ==> step_ok(t@, width as int, height as int) && 1 <= width_after(t@, width as int) <= 16384,
{
    let ghost d = reader.data();
    let ghost p = reader.pos();
    proof {
        reader.lemma_pos_range();
        assert(pow2(2) == 4 && pow2(3) == 8 && pow2(8) == 256) by {
            reveal_with_fuel(pow2, 9);
        }
    }
    if ty == 0 || ty == 1 {
        let sb = match reader.read_bits(3) {
            Some(v) => v,
            None => {
                return Err(ConvertError::MalformedInput { format: Format::Webp });
            },
        };
        proof {
            super::zlib::lemma_bits_le_bound(d, p, 3);
        }
        let size_bits = 2 + sb;
        let div = vp8l::pow2_usize(size_bits);
        let tw = (width + div - 1) / div;
        let th = (height + div - 1) / div;
        proof {
            assert(1 <= tw <= 16384) by (nonlinear_arith)
                requires tw == (width + div - 1) / (div as int), 1 <= width <= 16384, div >= 1;
            assert(1 <= th <= 16384) by (nonlinear_arith)
                requires th == (height + div - 1) / (div as int), 1 <= height <= 16384, div >= 1;
            vp8l::lemma_image_stream_len(d, p + 3, tw as int, th as int, false);
        }
        let data = match vp8l::decode_image_stream(reader, tw, th, false, options, false) {
            Ok(v) => v,
            Err(e) => {
                return Err(from_stop(e));
            },
        };
        if ty == 0 {
            Ok(Transform::Predictor { size_bits, tw, data })
        } else {
            Ok(Transform::Color { size_bits, tw, data })
        }
    } else if ty == 2 {
        Ok(Transform::SubtractGreen)
    } else {
        let s = match reader.read_bits(8) {
            Some(v) => v,
            None => {
                return Err(ConvertError::MalformedInput { format: Format::Webp });
            },
        };
        proof {
            super::zlib::lemma_bits_le_bound(d, p, 8);
        }
        let size = s as usize + 1;
        let raw = match vp8l::decode_image_stream(reader, size, 1, false, options, false) {
            Ok(v) => v,
            Err(e) => {
                return Err(from_stop(e));
            },
        };
        let table = color_table(&raw);
        let width_bits: u32 = if size <= 2 {
            3
        } else if size <= 4 {
            2
        } else if size <= 16 {
            1
        } else {
            0
        };
        proof {
            if width_bits > 0 {
                let bundle = pow2(width_bits as nat) as int;
                assert(bundle >= 1) by {
                    super::zlib::lemma_pow2_mono(0, width_bits as nat);
                    reveal_with_fuel(pow2, 1);
                }
                assert(1 <= div_ceil(width as int, bundle) <= 16384) by (nonlinear_arith)
                    requires 1 <= width <= 16384, bundle >= 1;
            }
        }
        proof {
            assert(size == bits_le(d, p, 8) + 1);
            assert(width_bits == width_bits_for(size as int));
        }
        let t = Transform::ColorIndexing { table, width_bits, orig_width: width };
        proof {
            assert(t@ == TransformView::ColorIndexing { table: color_table_spec(raw@), width_bits: width_bits_for(size as int), orig_width: width as int });
        }
        Ok(t)
    }
}

/// Reads the transforms (see [`transforms_spec`]) for an image coded `width x height`, with the
/// coded width they leave.
#[verifier::spinoff_prover]
#[verifier::rlimit(40)]
fn read_transforms(reader: &mut BitReader, width: usize, height: usize, options: &ConvertOptions) -> (r: Result<
    (Vec<Transform>, usize),
    ConvertError,
>)
    requires
        old(reader).wf(),
        1 <= width <= 16384,
        1 <= height <= 16384,
    ensures
        final(reader).wf(),
        final(reader).data() == old(reader).data(),
        (options.may_cancel() && r == Err::<(Vec<Transform>, usize), ConvertError>(ConvertError::Cancelled)) || match transforms_spec(
            old(reader).data(),
            old(reader).pos(),
            width as int,
            height as int,
        ) {
            Ok((q, ts, cw)) => r matches Ok((v, w)) && views(v@) == ts && w == cw && final(reader).pos() == q,
            Err(e) => r == Err::<(Vec<Transform>, usize), ConvertError>(e),
        },
        r matches Ok((v, w)) ==> chain_ok(views(v@), width as int, height as int) && w == width_after_all(views(v@), width as int) && 1
            <= w <= 16384,
{
    let ghost d = reader.data();
    let ghost p0 = reader.pos();
    let mut ts: Vec<Transform> = Vec::new();
    let mut w = width;
    proof {
        assert(views(ts@) =~= Seq::<TransformView>::empty());
        lemma_cons_all_empty(transforms_spec(d, p0, width as int, height as int));
    }
    loop
        invariant
            reader.wf(),
            reader.data() == d,
            d == old(reader).data(),
            p0 == old(reader).pos(),
            1 <= w <= 16384,
            1 <= width <= 16384,
            1 <= height <= 16384,
            chain_ok(views(ts@), width as int, height as int),
            w == width_after_all(views(ts@), width as int),
            transforms_spec(d, p0, width as int, height as int) == cons_all(views(ts@), transforms_spec(d, reader.pos(), w as int, height as int)),
        decreases d.len() * 8 - reader.pos(),
    {
        let ghost p = reader.pos();
        proof {
            reader.lemma_pos_range();
        }
        let has = match reader.read_bits(1) {
            Some(v) => v,
            None => {
                return Err(ConvertError::MalformedInput { format: Format::Webp });
            },
        };
        if has == 0 {
            proof {
                assert(views(ts@) + Seq::<TransformView>::empty() =~= views(ts@));
            }
            return Ok((ts, w));
        }
        let ty = match reader.read_bits(2) {
            Some(v) => v,
            None => {
                return Err(ConvertError::MalformedInput { format: Format::Webp });
            },
        };
        proof {
            super::zlib::lemma_bits_le_bound(d, p + 1, 2);
            assert(pow2(2) == 4) by {
                reveal_with_fuel(pow2, 3);
            }
            lemma_transform_body_advances(d, p + 3, ty as int, w as int, height as int);
        }
        let ghost old_views = views(ts@);
        let ghost here = transforms_spec(d, p, w as int, height as int);
        proof {
            assert(here == match transform_body(d, p + 3, ty as int, w as int, height as int) {
                Err(e) => Err(e),
                Ok((q2, tf)) => cons_all(seq![tf], transforms_spec(d, q2, width_after(tf, w as int), height as int)),
            });
        }
        let tf = match read_transform(reader, ty, w, height, options) {
            Ok(t) => {
                proof {
                    reader.lemma_pos_range();
                    assert(reader.pos() >= p + 3);
                }
                t
            },
            Err(e) => {
                proof {
                    if !(options.may_cancel() && e == ConvertError::Cancelled) {
                        assert(here == Err::<(int, Seq<TransformView>, int), ConvertError>(e));
                        assert(cons_all(old_views, here) == here);
                    }
                }
                return Err(e);
            },
        };
        let ghost rest = transforms_spec(d, reader.pos(), width_after(tf@, w as int), height as int);
        proof {
            assert(here == cons_all(seq![tf@], rest));
        }
        w = match &tf {
            Transform::ColorIndexing { width_bits, .. } => if *width_bits > 0 {
                let bundle = vp8l::pow2_usize(*width_bits);
                (w + bundle - 1) / bundle
            } else {
                w
            },
            _ => w,
        };
        ts.push(tf);
        proof {
            assert(views(ts@) =~= old_views.push(tf@));
            assert(views(ts@).drop_last() =~= old_views);
            lemma_cons_all_push(old_views, tf@, rest);
        }
    }
}


// ─── Undoing the transforms ─────────────────────────────────────────────────

/// Transform `t` undone on the pixels `px` of an image `h` high, coded `w` wide when `t` was
/// read (color indexing widens the image back to its `orig_width`).
pub open spec fn undo(t: TransformView, px: Seq<u32>, w: int, h: int) -> Result<Seq<u32>, ConvertError> {
    match t {
        TransformView::Predictor { size_bits, tw, data } => match predictor_inverse(px, w, pow2(size_bits as nat) as int, tw, data, w * h) {
            None => Err(malformed()),
            Some(q) => Ok(q),
        },
        TransformView::Color { size_bits, tw, data } => Ok(color_inverse(px, w, pow2(size_bits as nat) as int, tw, data)),
        TransformView::SubtractGreen => Ok(Seq::new(px.len(), |i: int| add_green_px(px[i]))),
        TransformView::ColorIndexing { table, width_bits, orig_width } => match color_indexing_inverse(px, h, table, width_bits, orig_width) {
            None => Err(malformed()),
            Some(q) => Ok(q),
        },
    }
}

/// The transforms `ts`, read from an image coded `w x h`, undone on `px`, last read first.
pub open spec fn undo_all(px: Seq<u32>, ts: Seq<TransformView>, w: int, h: int) -> Result<Seq<u32>, ConvertError>
    decreases ts.len(),
{
    if ts.len() == 0 {
        Ok(px)
    } else {
        match undo(ts.last(), px, width_after_all(ts.drop_last(), w), h) {
            Err(e) => Err(e),
            Ok(q) => undo_all(q, ts.drop_last(), w, h),
        }
    }
}

proof fn lemma_chain_prefix(ts: Seq<TransformView>, w: int, h: int, i: int)
    requires
        chain_ok(ts, w, h),
        0 <= i <= ts.len(),
    ensures
        chain_ok(ts.take(i), w, h),
    decreases ts.len(),
{
    if i < ts.len() {
        lemma_chain_prefix(ts.drop_last(), w, h, i);
        assert(ts.drop_last().take(i) =~= ts.take(i));
    } else {
        assert(ts.take(i) =~= ts);
    }
}

/// Undoes one transform `t`, read when the image was coded `wr` wide, on `pixels` (coded `cur`
/// wide, `height` high): the pixels and their new coded width.
fn undo_one(pixels: Vec<u32>, t: &Transform, cur: usize, height: usize, Ghost(wr): Ghost<int>) -> (r: Result<
    (Vec<u32>, usize),
    ConvertError,
>)
    requires
        1 <= height <= 16384,
        step_ok(t@, wr, height as int),
        cur == width_after(t@, wr),
        1 <= cur <= 16384,
        pixels@.len() == cur * height,
    ensures
        match undo(t@, pixels@, wr, height as int) {
            Ok(q) => r matches Ok((v, w)) && v@ == q && w == wr && q.len() == w * height,
            Err(e) => r == Err::<(Vec<u32>, usize), ConvertError>(e),
        },
{
    proof {
        assert(cur * height <= 16384 * 16384) by (nonlinear_arith)
            requires cur <= 16384, height <= 16384;
    }
    let mut pixels = pixels;
    match t {
        Transform::Predictor { size_bits, tw, data } => {
            let ghost old_px = pixels@;
            let res = apply_predictor_inverse(&mut pixels, cur, height, *size_bits, *tw, data.as_slice());
            proof {
                lemma_predictor_len(old_px, cur as int, pow2(*size_bits as nat) as int, *tw as int, data@, (cur * height) as int);
            }
            if res.is_err() {
                return Err(ConvertError::MalformedInput { format: Format::Webp });
            }
            Ok((pixels, cur))
        },
        Transform::Color { size_bits, tw, data } => {
            apply_color_transform_inverse(&mut pixels, cur, height, *size_bits, *tw, data.as_slice());
            Ok((pixels, cur))
        },
        Transform::SubtractGreen => {
            apply_subtract_green_inverse(&mut pixels);
            Ok((pixels, cur))
        },
        Transform::ColorIndexing { table, width_bits, orig_width } => {
            match apply_color_indexing_inverse(pixels, height, table.as_slice(), *width_bits, *orig_width) {
                Ok(v) => Ok((v, *orig_width)),
                Err(e) => Err(e),
            }
        },
    }
}

/// Undoes the transforms `ts` (read from an image coded `width x height`, the pixels `pixels`
/// decoded at the coded width `coded`), last read first, checking for cancellation before each.
#[verifier::spinoff_prover]
#[verifier::loop_isolation(false)]
fn undo_transforms(
    pixels: Vec<u32>,
    ts: &Vec<Transform>,
    width: usize,
    coded: usize,
    height: usize,
    options: &ConvertOptions,
) -> (r: Result<Vec<u32>, ConvertError>)
    requires
        1 <= width <= 16384,
        1 <= height <= 16384,
        chain_ok(views(ts@), width as int, height as int),
        coded == width_after_all(views(ts@), width as int),
        1 <= coded <= 16384,
        pixels@.len() == coded * height,
    ensures
        (options.may_cancel() && r == Err::<Vec<u32>, ConvertError>(ConvertError::Cancelled)) || match undo_all(
            pixels@,
            views(ts@),
            width as int,
            height as int,
        ) {
            Ok(q) => r matches Ok(v) && v@ == q,
            Err(e) => r == Err::<Vec<u32>, ConvertError>(e),
        },
        r matches Ok(v) ==> v@.len() == width * height,
{
    let ghost vs = views(ts@);
    let ghost px0 = pixels@;
    let mut pixels = pixels;
    let mut cur = coded;
    let mut i = ts.len();
    proof {
        assert(vs.take(i as int) =~= vs);
    }
    while i > 0
        invariant
            i <= ts@.len(),
            vs == views(ts@),
            1 <= width <= 16384,
            1 <= height <= 16384,
            1 <= cur <= 16384,
            chain_ok(vs, width as int, height as int),
            chain_ok(vs.take(i as int), width as int, height as int),
            cur == width_after_all(vs.take(i as int), width as int),
            pixels@.len() == cur * height,
            undo_all(px0, vs, width as int, height as int) == undo_all(pixels@, vs.take(i as int), width as int, height as int),
        decreases i,
    {
        if options.is_cancelled() {
            return Err(ConvertError::Cancelled);
        }
        let ghost pre = vs.take(i as int);
        let ghost before = vs.take(i - 1);
        let ghost wr = width_after_all(before, width as int);
        proof {
            assert(pre.drop_last() =~= before);
            assert(pre.last() == ts@[i - 1]@);
            lemma_chain_prefix(vs, width as int, height as int, i - 1);
        }
        let ghost old_px = pixels@;
        proof {
            assert(undo_all(old_px, pre, width as int, height as int) == match undo(pre.last(), old_px, wr, height as int) {
                Err(e) => Err(e),
                Ok(q) => undo_all(q, before, width as int, height as int),
            });
        }
        match undo_one(pixels, &ts[i - 1], cur, height, Ghost(wr)) {
            Ok((v, w)) => {
                pixels = v;
                cur = w;
            },
            Err(e) => {
                proof {
                    assert(undo_all(old_px, pre, width as int, height as int) == Err::<Seq<u32>, ConvertError>(e));
                    assert(undo_all(px0, vs, width as int, height as int) == Err::<Seq<u32>, ConvertError>(e));
                }
                return Err(e);
            },
        }
        i = i - 1;
    }
    proof {
        assert(vs.take(0) =~= Seq::<TransformView>::empty());
    }
    Ok(pixels)
}

// ─── Top-level decode ───────────────────────────────────────────────────────

/// The RGBA8 bytes of ARGB pixels.
pub open spec fn argb_to_rgba(px: Seq<u32>) -> Seq<u8> {
    Seq::new(px.len() * 4, |i: int| {
        let p = px[i / 4];
        if i % 4 == 0 {
            ch(p, 1)
        } else if i % 4 == 1 {
            ch(p, 2)
        } else if i % 4 == 2 {
            ch(p, 3)
        } else {
            ch(p, 0)
        }
    })
}

/// What decoding a WebP file gives: a RIFF/WEBP/VP8L container; a VP8L stream starting with
/// the `0x2f` signature byte, then 14-bit width and height less one, an alpha hint bit and a
/// 3-bit version that must be 0; the transforms; the main image at the coded width (which must
/// be a size a decoder accepts); the transforms undone, last read first; the image at its full
/// width, again a size a decoder accepts.
pub open spec fn decode_spec(input: Seq<u8>) -> Result<(u32, u32, Seq<u8>), ConvertError> {
    match riff_payload(input) {
        None => Err(malformed()),
        Some(d) => if !bits_ok(d, 0, 8) || bits_le(d, 0, 8) != 0x2f || !bits_ok(d, 8, 32) {
            Err(malformed())
        } else if bits_le(d, 37, 3) != 0 {
            Err(ConvertError::UnsupportedFeature { format: Format::Webp, feature: "webp-version" })
        } else {
            let width = bits_le(d, 8, 14) + 1;
            let height = bits_le(d, 22, 14) + 1;
            match transforms_spec(d, 40, width, height) {
                Err(e) => Err(e),
                Ok((q, ts, coded)) => if !dims_ok(coded, height) {
                    Err(malformed())
                } else {
                    match image_stream(d, q, coded, height, true) {
                        None => Err(malformed()),
                        Some((_, px)) => match undo_all(px, ts, width, height) {
                            Err(e) => Err(e),
                            Ok(out) => if !dims_ok(width, height) {
                                Err(malformed())
                            } else {
                                Ok((width as u32, height as u32, argb_to_rgba(out)))
                            },
                        },
                    }
                },
            }
        },
    }
}

/// ARGB pixels as RGBA8 bytes.
fn to_rgba(pixels: &Vec<u32>) -> (r: Vec<u8>)
    requires
        pixels@.len() <= 0x100_0000,
    ensures
        r@ == argb_to_rgba(pixels@),
{
    let mut out: Vec<u8> = Vec::new();
    let n = pixels.len();
    let mut i: usize = 0;
    while i < n
        invariant
            i <= n == pixels@.len() <= 0x100_0000,
            out@.len() == 4 * i,
            forall|k: int| 0 <= k < 4 * i ==> out@[k] == argb_to_rgba(pixels@)[k],
        decreases n - i,
    {
        let c = channels(pixels[i]);
        out.push(c[1]);
        out.push(c[2]);
        out.push(c[3]);
        out.push(c[0]);
        proof {
            assert forall|k: int| 4 * i <= k < 4 * i + 4 implies out@[k] == argb_to_rgba(pixels@)[k] by {
                assert(k / 4 == i);
            }
        }
        i = i + 1;
    }
    proof {
        assert(out@ =~= argb_to_rgba(pixels@));
    }
    out
}

/// Decodes a WebP lossless (VP8L) file (see [`decode_spec`]). Checks `options` for
/// cancellation before starting, while decoding and before undoing each transform; reports the
/// first half of a decode-then-encode conversion's progress.
pub fn decode(input: &[u8], options: &ConvertOptions) -> (r: Result<RawImage, ConvertError>)
    ensures
        image_matches(r, decode_spec(input@)) || (options.may_cancel() && r == Err::<RawImage, ConvertError>(
            ConvertError::Cancelled,
        )),
{
    if options.is_cancelled() {
        return Err(ConvertError::Cancelled);
    }
    let payload = parse_riff(input)?;
    let ghost d = payload@;
    let mut reader = BitReader::new(payload);
    proof {
        assert(pow2(14) == 16384 && pow2(8) == 256 && pow2(3) == 8) by {
            reveal_with_fuel(pow2, 15);
        }
    }
    let sig = match reader.read_bits(8) {
        Some(v) => v,
        None => {
            return Err(ConvertError::MalformedInput { format: Format::Webp });
        },
    };
    if sig != 0x2f {
        return Err(ConvertError::MalformedInput { format: Format::Webp });
    }
    let w = match reader.read_bits(14) {
        Some(v) => v,
        None => {
            return Err(ConvertError::MalformedInput { format: Format::Webp });
        },
    };
    let h = match reader.read_bits(14) {
        Some(v) => v,
        None => {
            return Err(ConvertError::MalformedInput { format: Format::Webp });
        },
    };
    let alpha_hint = reader.read_bits(1);
    if alpha_hint.is_none() {
        return Err(ConvertError::MalformedInput { format: Format::Webp });
    }
    let version = match reader.read_bits(3) {
        Some(v) => v,
        None => {
            return Err(ConvertError::MalformedInput { format: Format::Webp });
        },
    };
    if version != 0 {
        return Err(ConvertError::UnsupportedFeature { format: Format::Webp, feature: "webp-version" });
    }
    proof {
        super::zlib::lemma_bits_le_bound(d, 8, 14);
        super::zlib::lemma_bits_le_bound(d, 22, 14);
    }
    let width = w as usize + 1;
    let height = h as usize + 1;
    let (transforms, coded) = read_transforms(&mut reader, width, height, options)?;
    checked_rgba_len(coded as u32, height as u32, Format::Webp)?;
    let ghost q = reader.pos();
    proof {
        vp8l::lemma_image_stream_len(d, q, coded as int, height as int, true);
    }
    let pixels = match vp8l::decode_image_stream(&mut reader, coded, height, true, options, true) {
        Ok(v) => v,
        Err(e) => {
            return Err(from_stop(e));
        },
    };
    let pixels = undo_transforms(pixels, &transforms, width, coded, height, options)?;
    checked_rgba_len(width as u32, height as u32, Format::Webp)?;
    proof {
        assert(pixels@.len() <= 0x100_0000);
    }
    let rgba = to_rgba(&pixels);
    options.report_progress(1, 2);
    RawImage::new(width as u32, height as u32, rgba, Format::Webp)
}


// ─── Top-level encode ───────────────────────────────────────────────────────

/// RGBA8 pixel `i` of `px` as an ARGB pixel.
pub open spec fn rgba_pixel(px: Seq<u8>, i: int) -> u32 {
    comb(px[4 * i + 3], px[4 * i], px[4 * i + 1], px[4 * i + 2])
}

/// The first `n` RGBA8 pixels of `px` as ARGB pixels.
pub open spec fn rgba_to_argb(px: Seq<u8>, n: int) -> Seq<u32> {
    Seq::new(n as nat, |i: int| rgba_pixel(px, i))
}

/// The alpha byte of RGBA8 pixel `i` of `px`.
pub open spec fn alpha_of(px: Seq<u8>, i: int) -> u8 {
    px[4 * i + 3]
}

/// Whether any of the first `n` RGBA8 pixels of `px` is not opaque.
pub open spec fn uses_alpha(px: Seq<u8>, n: int) -> bool {
    exists|i: int| 0 <= i < n && #[trigger] alpha_of(px, i) != 255
}

/// The VP8L header for a `w x h` image: the signature byte, the 14-bit width and height less
/// one, the alpha hint, version 0 and no transforms.
pub open spec fn stream_header(w: int, h: int, alpha: bool) -> Seq<bool> {
    vp8l::bitseq(0x2f, 8) + vp8l::bitseq(w - 1, 14) + vp8l::bitseq(h - 1, 14) + vp8l::bitseq(if alpha { 1 } else { 0 }, 1)
        + vp8l::bitseq(0, 3) + vp8l::bitseq(0, 1)
}

/// The file [`encode`] writes for the `w x h` RGBA8 pixels `px`: one VP8L stream, header and
/// image data packed together, in a RIFF container.
pub open spec fn encode_spec(w: int, h: int, px: Seq<u8>) -> Seq<u8> {
    riff_spec(vp8l::pack(stream_header(w, h, uses_alpha(px, w * h)) + vp8l::stream_bits(rgba_to_argb(px, w * h))))
}

/// The error for an image too large for VP8L's 14-bit size fields.
pub open spec fn too_large() -> ConvertError {
    ConvertError::UnsupportedFeature { format: Format::Webp, feature: "webp-size-too-large" }
}

/// The image's pixels as ARGB, and whether any is not opaque.
fn argb_pixels(image: &RawImage) -> (r: (Vec<u32>, bool))
    requires
        image.width <= MAX_DIMENSION,
        image.height <= MAX_DIMENSION,
        image.pixels@.len() >= image.width * image.height * 4,
    ensures
        r.0@ == rgba_to_argb(image.pixels@, image.width * image.height),
        r.1 == uses_alpha(image.pixels@, image.width * image.height),
{
    let ghost w = image.width as int;
    let ghost h = image.height as int;
    proof {
        assert(w * h <= 0x1000_0000) by (nonlinear_arith)
            requires 0 <= w <= 16384, 0 <= h <= 16384;
    }
    let ghost px = image.pixels@;
    let pixel_count = (image.width as usize) * (image.height as usize);
    let mut pixels: Vec<u32> = Vec::new();
    let mut alpha_is_used = false;
    let mut i: usize = 0;
    while i < pixel_count
        invariant
            i <= pixel_count == w * h <= 0x1000_0000,
            px == image.pixels@,
            px.len() >= 4 * pixel_count,
            pixels@ == rgba_to_argb(px, i as int),
            alpha_is_used == uses_alpha(px, i as int),
        decreases pixel_count - i,
    {
        let base = i * 4;
        let r = image.pixels[base];
        let g = image.pixels[base + 1];
        let b = image.pixels[base + 2];
        let a = image.pixels[base + 3];
        proof {
            assert(a == alpha_of(px, i as int));
            if alpha_is_used {
                let k = choose|k: int| 0 <= k < i && #[trigger] alpha_of(px, k) != 255;
                assert(0 <= k < i + 1 && alpha_of(px, k) != 255);
            }
            if uses_alpha(px, i + 1) && a == 255 {
                let k = choose|k: int| 0 <= k < i + 1 && #[trigger] alpha_of(px, k) != 255;
                assert(k < i);
            }
        }
        if a != 255 {
            alpha_is_used = true;
        }
        pixels.push(combine([a, r, g, b]));
        proof {
            assert(pixels@ =~= rgba_to_argb(px, (i + 1) as int));
        }
        i = i + 1;
    }
    (pixels, alpha_is_used)
}

/// Writes the VP8L header for a `width x height` image (see [`stream_header`]).
fn write_header(writer: &mut BitWriter, width: u32, height: u32, alpha: bool)
    requires
        old(writer).wf(),
        old(writer).bits().len() == 0,
        1 <= width <= MAX_DIMENSION,
        1 <= height <= MAX_DIMENSION,
    ensures
        final(writer).wf(),
        final(writer).bits() == stream_header(width as int, height as int, alpha),
        final(writer).bits().len() == 41,
{
    proof {
        vp8l::lemma_bitseq_len(0x2f, 8);
        vp8l::lemma_bitseq_len(width - 1, 14);
        vp8l::lemma_bitseq_len(height - 1, 14);
        vp8l::lemma_bitseq_len(if alpha { 1 } else { 0 }, 1);
        vp8l::lemma_bitseq_len(0, 3);
        vp8l::lemma_bitseq_len(0, 1);
    }
    let ghost w0 = writer.bits();
    writer.write_bits(VP8L_SIGNATURE as u32, 8);
    writer.write_bits(width - 1, 14);
    writer.write_bits(height - 1, 14);
    writer.write_bits(if alpha { 1 } else { 0 }, 1);
    writer.write_bits(0, 3);
    writer.write_bits(0, 1);
    proof {
        assert(w0 =~= Seq::<bool>::empty());
        assert(writer.bits() =~= stream_header(width as int, height as int, alpha));
    }
}

/// Encodes an image as a minimal WebP lossless file (see [`encode_spec`]): no transforms, no
/// color cache, no backward references, one group of codes. An image wider or higher than
/// [`MAX_DIMENSION`] is refused. Checks `options` for cancellation before starting and while
/// writing; reports the second half of a decode-then-encode conversion's progress.
#[verifier::spinoff_prover]
pub fn encode(image: &RawImage, options: &ConvertOptions) -> (r: Result<Vec<u8>, ConvertError>)
    requires
        image.width <= MAX_DIMENSION && image.height <= MAX_DIMENSION ==> image.width >= 1 && image.height >= 1
            && image.pixels@.len() >= image.width * image.height * 4,
    ensures
        (options.may_cancel() && r == Err::<Vec<u8>, ConvertError>(ConvertError::Cancelled)) || if image.width > MAX_DIMENSION
            || image.height > MAX_DIMENSION {
            r == Err::<Vec<u8>, ConvertError>(too_large())
        } else {
            r matches Ok(v) && v@ == encode_spec(image.width as int, image.height as int, image.pixels@)
        },
{
    if options.is_cancelled() {
        return Err(ConvertError::Cancelled);
    }
    if image.width > MAX_DIMENSION || image.height > MAX_DIMENSION {
        return Err(ConvertError::UnsupportedFeature { format: Format::Webp, feature: "webp-size-too-large" });
    }
    let ghost w = image.width as int;
    let ghost h = image.height as int;
    let (pixels, alpha_is_used) = argb_pixels(image);
    let mut writer = BitWriter::new();
    write_header(&mut writer, image.width, image.height, alpha_is_used);
    let ghost head = writer.bits();
    proof {
        assert(w * h <= 0x1000_0000) by (nonlinear_arith)
            requires 0 <= w <= 16384, 0 <= h <= 16384;
    }
    match vp8l::encode_image_stream(&mut writer, pixels.as_slice(), options) {
        Ok(()) => {},
        Err(e) => {
            return Err(from_stop(e));
        },
    }
    let ghost all = writer.bits();
    let payload = writer.finish();
    proof {
        vp8l::lemma_pack_len(all);
        assert(w * h <= 0x1000_0000) by (nonlinear_arith)
            requires 0 <= w <= 16384, 0 <= h <= 16384;
        assert(all.len() <= 41 + 5000 + 48 * 0x1000_0000);
    }
    options.report_progress(1, 1);
    Ok(write_riff(payload.as_slice()))
}

} // verus!
