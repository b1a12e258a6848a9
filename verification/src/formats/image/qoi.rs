//! QOI ("Quite OK Image") decode and encode: a 14-byte header (`qoif`, big-endian width and
//! height, channels, colorspace), a stream of chunks that each describe pixels relative to the
//! previous pixel and a 64-slot index of recently seen pixels, and an 8-byte end marker.

use vstd::prelude::*;

use super::raster::{checked_rgba_len, dims_ok, image_matches, RawImage};
use crate::bytes::{be32, u32_be};
use crate::{ConvertError, ConvertOptions, Format};

verus! {

/// How many pixels pass between two cancellation checks and progress reports.
pub const PROGRESS_GRANULARITY: usize = 4096;

/// A pixel: red, green, blue, alpha.
pub type Pixel = (u8, u8, u8, u8);

/// `qoif`.
pub open spec fn magic() -> Seq<u8> {
    seq![0x71u8, 0x6Fu8, 0x69u8, 0x66u8]
}

/// Seven zero bytes and a one.
pub open spec fn end_marker() -> Seq<u8> {
    seq![0u8, 0u8, 0u8, 0u8, 0u8, 0u8, 0u8, 1u8]
}

/// The index slot of a pixel.
pub open spec fn qoi_hash(p: Pixel) -> int {
    (p.0 * 3 + p.1 * 5 + p.2 * 7 + p.3 * 11) % 64
}

/// The index slot of a pixel.
pub fn hash(p: Pixel) -> (r: usize)
    ensures
        r == qoi_hash(p),
        r < 64,
{
    (p.0 as usize * 3 + p.1 as usize * 5 + p.2 as usize * 7 + p.3 as usize * 11) % 64
}

/// The four bytes of a pixel.
pub open spec fn px_bytes(p: Pixel) -> Seq<u8> {
    seq![p.0, p.1, p.2, p.3]
}

/// `n` copies of a pixel's bytes.
pub open spec fn repeat_px(p: Pixel, n: nat) -> Seq<u8>
    decreases n,
{
    if n == 0 {
        seq![]
    } else {
        repeat_px(p, (n - 1) as nat) + px_bytes(p)
    }
}

/// The pixel both sides start from.
pub open spec fn start_prev() -> Pixel {
    (0u8, 0u8, 0u8, 255u8)
}

/// The index both sides start from: 64 all-zero pixels.
pub open spec fn start_index() -> Seq<Pixel> {
    Seq::new(64, |i: int| (0u8, 0u8, 0u8, 0u8))
}

/// `(a + d) mod 256`.
pub open spec fn add8(a: u8, d: int) -> u8 {
    ((a + d) % 256) as u8
}

/// `x` reduced into `-128..=127`, as an `i8` wraps.
pub open spec fn wrap8(x: int) -> int {
    if x > 127 {
        x - 256
    } else if x < -128 {
        x + 256
    } else {
        x
    }
}

/// The pixel a chunk decodes to is stored in the index under its hash.
pub open spec fn seen(index: Seq<Pixel>, p: Pixel) -> Seq<Pixel> {
    index.update(qoi_hash(p), p)
}

/// The pixel a `DIFF` chunk `b` makes of `prev`.
pub open spec fn diff_px(prev: Pixel, b: u8) -> Pixel {
    (add8(prev.0, (b / 16) % 4 - 2), add8(prev.1, (b / 4) % 4 - 2), add8(prev.2, b % 4 - 2), prev.3)
}

/// The pixel a `LUMA` chunk `b b2` makes of `prev`.
pub open spec fn luma_px(prev: Pixel, b: u8, b2: u8) -> Pixel {
    let dg = b % 64 - 32;
    (add8(prev.0, dg + b2 / 16 - 8), add8(prev.1, dg), add8(prev.2, dg + b2 % 16 - 8), prev.3)
}

/// Decodes the one chunk at byte `pos` of `body`, with the previous pixel `prev`, the index
/// `index` and `remaining` pixels still owed: the position after it, the new previous pixel, the
/// new index, and how many pixels it stands for; `None` if it runs past the end of `body`.
#[verifier::opaque]
pub open spec fn decode_chunk(body: Seq<u8>, pos: int, prev: Pixel, index: Seq<Pixel>, remaining: nat) -> Option<
    (int, Pixel, Seq<Pixel>, nat),
> {
    if pos < 0 || pos >= body.len() {
        None
    } else {
        let b = body[pos];
        if b == 0xFE {
            if pos + 4 > body.len() {
                None
            } else {
                let p = (body[pos + 1], body[pos + 2], body[pos + 3], prev.3);
                Some((pos + 4, p, seen(index, p), 1))
            }
        } else if b == 0xFF {
            if pos + 5 > body.len() {
                None
            } else {
                let p = (body[pos + 1], body[pos + 2], body[pos + 3], body[pos + 4]);
                Some((pos + 5, p, seen(index, p), 1))
            }
        } else if b < 64 {
            let p = index[b as int];
            Some((pos + 1, p, seen(index, p), 1))
        } else if b < 128 {
            let p = diff_px(prev, b);
            Some((pos + 1, p, seen(index, p), 1))
        } else if b < 192 {
            if pos + 2 > body.len() {
                None
            } else {
                let p = luma_px(prev, b, body[pos + 1]);
                Some((pos + 2, p, seen(index, p), 1))
            }
        } else {
            let run = b % 64 + 1;
            let take: nat = if run < remaining { run as nat } else { remaining };
            Some((pos + 1, prev, index, take))
        }
    }
}

/// Decodes chunks of `body` from byte `pos` on until `remaining` more pixels are out, with the
/// previous pixel `prev`, the index `index` and the pixel bytes `out` so far: the position after
/// the last chunk and all pixel bytes, or `None` if the chunks run past the end of `body`.
#[verifier::opaque]
pub open spec fn decode_from(body: Seq<u8>, pos: int, prev: Pixel, index: Seq<Pixel>, out: Seq<u8>, remaining: nat) -> Option<
    (int, Seq<u8>),
>
    decreases remaining,
{
    if remaining == 0 {
        Some((pos, out))
    } else {
        match decode_chunk(body, pos, prev, index, remaining) {
            None => None,
            Some((q, p, idx, k)) => if 1 <= k <= remaining {
                decode_from(body, q, p, idx, out + repeat_px(p, k), (remaining - k) as nat)
            } else {
                None
            },
        }
    }
}

/// The decode result once the chunks have decoded to `res`: the chunk stream must be followed by
/// the end marker and nothing else.
pub open spec fn finish(body: Seq<u8>, res: Option<(int, Seq<u8>)>, w: u32, h: u32) -> Result<(u32, u32, Seq<u8>), ConvertError> {
    match res {
        None => Err(ConvertError::MalformedInput { format: Format::Qoi }),
        Some((pos, px)) => if pos + 8 == body.len() && body.subrange(pos, pos + 8) == end_marker() {
            Ok((w, h, px))
        } else {
            Err(ConvertError::MalformedInput { format: Format::Qoi })
        },
    }
}

/// What decoding `input` as QOI gives: `(width, height, RGBA pixels)` or the error. The chunk
/// stream must be followed by the end marker and nothing else.
pub open spec fn decode_spec(input: Seq<u8>) -> Result<(u32, u32, Seq<u8>), ConvertError> {
    let malformed = ConvertError::MalformedInput { format: Format::Qoi };
    if input.len() < 22 || input.take(4) != magic() {
        Err(malformed)
    } else {
        let w = u32_be(input, 4);
        let h = u32_be(input, 8);
        if input[12] < 3 || input[12] > 4 || input[13] > 1 || !dims_ok(w, h) {
            Err(malformed)
        } else {
            let body = input.subrange(14, input.len() as int);
            finish(body, decode_from(body, 0, start_prev(), start_index(), seq![], (w * h) as nat), w as u32, h as u32)
        }
    }
}

/// The index a QOI decoder keeps files each pixel it decodes (every chunk but a run) under slot
/// `(3 r + 5 g + 7 b + 11 a) mod 64`: right after such a chunk, an `INDEX` chunk naming that
/// slot decodes to the same pixel.
pub proof fn lemma_index_chunk_recalls_pixel(
    body: Seq<u8>,
    pos: int,
    prev: Pixel,
    index: Seq<Pixel>,
    remaining: nat,
    q: int,
    p: Pixel,
    idx: Seq<Pixel>,
    k: nat,
    later: nat,
)
    requires
        index.len() == 64,
        decode_chunk(body, pos, prev, index, remaining) == Some((q, p, idx, k)),
        body[pos] < 0xC0 || body[pos] >= 0xFE,
        q < body.len(),
        body[q] == ((3 * p.0 + 5 * p.1 + 7 * p.2 + 11 * p.3) % 64) as u8,
    ensures
        decode_chunk(body, q, p, idx, later) == Some((q + 1, p, idx, 1nat)),
{
    reveal(decode_chunk);
    assert(0 <= qoi_hash(p) < 64);
}

proof fn lemma_repeat_len(p: Pixel, n: nat)
    ensures
        repeat_px(p, n).len() == 4 * n,
    decreases n,
{
    if n > 0 {
        lemma_repeat_len(p, (n - 1) as nat);
    }
}

/// A chunk advances within `body` and stands for between one and `remaining` pixels.
proof fn lemma_decode_chunk(body: Seq<u8>, pos: int, prev: Pixel, index: Seq<Pixel>, remaining: nat)
    requires
        remaining >= 1,
    ensures
        decode_chunk(body, pos, prev, index, remaining) matches Some((q, p, idx, k)) ==> pos < q <= body.len() && 1
            <= k <= remaining && k <= 64,
{
    reveal(decode_chunk);
}

/// One step of [`decode_from`].
proof fn lemma_decode_from_step(body: Seq<u8>, pos: int, prev: Pixel, index: Seq<Pixel>, out: Seq<u8>, remaining: nat)
    requires
        remaining >= 1,
    ensures
        decode_from(body, pos, prev, index, out, remaining) == match decode_chunk(body, pos, prev, index, remaining) {
            None => None,
            Some((q, p, idx, k)) => if 1 <= k <= remaining {
                decode_from(body, q, p, idx, out + repeat_px(p, k), (remaining - k) as nat)
            } else {
                None
            },
        },
{
    reveal(decode_from);
}

/// A successful decode writes four bytes per pixel and ends inside `body`.
proof fn lemma_decode_from_len(body: Seq<u8>, pos: int, prev: Pixel, index: Seq<Pixel>, out: Seq<u8>, remaining: nat)
    ensures
        decode_from(body, pos, prev, index, out, remaining) matches Some((q, o)) ==> o.len() == out.len() + 4
            * remaining && (q == pos || q <= body.len()),
    decreases remaining,
{
    reveal(decode_from);
    if remaining > 0 {
        lemma_decode_chunk(body, pos, prev, index, remaining);
        if let Some((q, p, idx, k)) = decode_chunk(body, pos, prev, index, remaining) {
            lemma_repeat_len(p, k);
            lemma_decode_from_len(body, q, p, idx, out + repeat_px(p, k), (remaining - k) as nat);
        }
    }
}

/// `(a + d - 256) mod 256`: `a` plus an offset in `-256..256` given as the offset plus 256.
fn add_wrapping(a: u8, d: u16) -> (r: u8)
    requires
        d < 512,
    ensures
        r == add8(a, d - 256),
{
    proof {
        vstd::arithmetic::div_mod::lemma_mod_add_multiples_vanish(a + d - 256, 256);
    }
    ((a as u16 + d) % 256) as u8
}

fn diff_pixel(prev: Pixel, b: u8) -> (r: Pixel)
    ensures
        r == diff_px(prev, b),
{
    (
        add_wrapping(prev.0, 254 + ((b / 16) % 4) as u16),
        add_wrapping(prev.1, 254 + ((b / 4) % 4) as u16),
        add_wrapping(prev.2, 254 + (b % 4) as u16),
        prev.3,
    )
}

fn luma_pixel(prev: Pixel, b: u8, b2: u8) -> (r: Pixel)
    ensures
        r == luma_px(prev, b, b2),
{
    let dg = (b % 64) as u16;
    (
        add_wrapping(prev.0, 216 + dg + (b2 / 16) as u16),
        add_wrapping(prev.1, 224 + dg),
        add_wrapping(prev.2, 216 + dg + (b2 % 16) as u16),
        prev.3,
    )
}

/// Decodes the chunk at byte `pos` of `body`, updating `index`: the position after it, the pixel
/// it ends on, and how many pixels it stands for.
fn read_chunk(body: &[u8], pos: usize, prev: Pixel, index: &mut Vec<Pixel>, remaining: usize) -> (r: Option<
    (usize, Pixel, usize),
>)
    requires
        old(index)@.len() == 64,
        remaining >= 1,
    ensures
        final(index)@.len() == 64,
        match decode_chunk(body@, pos as int, prev, old(index)@, remaining as nat) {
            None => r is None,
            Some((q, p, idx, k)) => r == Some((q as usize, p, k as usize)) && final(index)@ == idx,
        },
{
    proof {
        reveal(decode_chunk);
    }
    if pos >= body.len() {
        return None;
    }
    let b = body[pos];
    let p: Pixel = if b == 0xFE {
        if body.len() - pos < 4 {
            return None;
        }
        (body[pos + 1], body[pos + 2], body[pos + 3], prev.3)
    } else if b == 0xFF {
        if body.len() - pos < 5 {
            return None;
        }
        (body[pos + 1], body[pos + 2], body[pos + 3], body[pos + 4])
    } else if b < 64 {
        index[b as usize]
    } else if b < 128 {
        diff_pixel(prev, b)
    } else if b < 192 {
        if body.len() - pos < 2 {
            return None;
        }
        luma_pixel(prev, b, body[pos + 1])
    } else {
        let run = (b % 64) as usize + 1;
        let take = if run < remaining { run } else { remaining };
        return Some((pos + 1, prev, take));
    };
    let h = hash(p);
    index.set(h, p);
    let q = if b == 0xFE {
        pos + 4
    } else if b == 0xFF {
        pos + 5
    } else if b >= 128 {
        pos + 2
    } else {
        pos + 1
    };
    proof {
        assert(final(index)@ == seen(old(index)@, p));
    }
    Some((q, p, 1))
}

/// Decodes a QOI stream into a [`RawImage`].
///
/// Checks `options` for cancellation and reports the first half of the progress of a
/// decode-then-encode conversion at least once every [`PROGRESS_GRANULARITY`] pixels.
pub fn decode(input: &[u8], options: &ConvertOptions) -> (r: Result<RawImage, ConvertError>)
    ensures
        image_matches(r, decode_spec(input@)) || (options.may_cancel() && r == Err::<RawImage, ConvertError>(
            ConvertError::Cancelled,
        )),
{
    if input.len() < 22 || !(input[0] == 0x71 && input[1] == 0x6F && input[2] == 0x69 && input[3] == 0x66) {
        proof {
            if input@.len() >= 22 && input@.take(4) == magic() {
                assert(input@.take(4)[0] == magic()[0]);
                assert(input@.take(4)[1] == magic()[1]);
                assert(input@.take(4)[2] == magic()[2]);
                assert(input@.take(4)[3] == magic()[3]);
            }
        }
        return Err(ConvertError::MalformedInput { format: Format::Qoi });
    }
    proof {
        assert(input@.take(4) =~= magic());
    }
    let width = crate::bytes::read_u32_be(input, 4);
    let height = crate::bytes::read_u32_be(input, 8);
    let channels = input[12];
    let colorspace = input[13];
    if channels < 3 || channels > 4 || colorspace > 1 {
        return Err(ConvertError::MalformedInput { format: Format::Qoi });
    }
    let rgba_len = checked_rgba_len(width, height, Format::Qoi)?;
    let pixel_count = (rgba_len / 4) as usize;
    let body = &input[14..input.len()];
    let ghost target = decode_from(body@, 0, start_prev(), start_index(), seq![], pixel_count as nat);
    proof {
        assert(decode_spec(input@) == finish(body@, target, width, height));
    }
    let mut index: Vec<Pixel> = Vec::new();
    let mut k: usize = 0;
    while k < 64
        invariant
            k <= 64,
            index@ == Seq::new(k as nat, |i: int| (0u8, 0u8, 0u8, 0u8)),
        decreases 64 - k,
    {
        index.push((0, 0, 0, 0));
        proof {
            assert(index@ =~= Seq::new((k + 1) as nat, |i: int| (0u8, 0u8, 0u8, 0u8)));
        }
        k = k + 1;
    }
    let mut prev: Pixel = (0, 0, 0, 255);
    let mut pixels: Vec<u8> = Vec::new();
    let mut pos: usize = 0;
    let mut decoded: usize = 0;
    let mut since_check: usize = PROGRESS_GRANULARITY;
    while decoded < pixel_count
        invariant
            decoded <= pixel_count,
            pixel_count <= 16777216,
            index@.len() == 64,
            decode_from(body@, pos as int, prev, index@, pixels@, (pixel_count - decoded) as nat) == target,
            decode_spec(input@) == finish(body@, target, width, height),
            since_check <= PROGRESS_GRANULARITY + 64,
        decreases pixel_count - decoded,
    {
        if since_check >= PROGRESS_GRANULARITY {
            if options.is_cancelled() {
                return Err(ConvertError::Cancelled);
            }
            options.report_progress(decoded as u64, 2 * pixel_count as u64);
            since_check = 0;
        }
        let remaining = pixel_count - decoded;
        let blen = body.len();
        let ghost old_index = index@;
        proof {
            lemma_decode_chunk(body@, pos as int, prev, index@, remaining as nat);
            lemma_decode_from_step(body@, pos as int, prev, index@, pixels@, remaining as nat);
        }
        let (q, p, take) = match read_chunk(body, pos, prev, &mut index, remaining) {
            Some(t) => t,
            None => {
                return Err(ConvertError::MalformedInput { format: Format::Qoi });
            },
        };
        let ghost before = pixels@;
        let ghost idx_new = index@;
        proof {
            let dc = decode_chunk(body@, pos as int, prev, old_index, remaining as nat);
            assert(dc is Some);
            let (q2, p2, i2, k2) = dc->0;
            assert(q2 <= blen);
            assert(q2 == q);
            assert(p2 == p);
            assert(i2 == idx_new);
            assert(k2 == take);
            assert(decode_from(body@, pos as int, prev, old_index, before, remaining as nat) == target);
            assert(decode_from(body@, q as int, p, idx_new, before + repeat_px(p, take as nat), (remaining - take) as nat) == target);
        }
        let mut j: usize = 0;
        while j < take
            invariant
                j <= take,
                pixels@ == before + repeat_px(p, j as nat),
            decreases take - j,
        {
            pixels.push(p.0);
            pixels.push(p.1);
            pixels.push(p.2);
            pixels.push(p.3);
            proof {
                assert(pixels@ =~= before + repeat_px(p, (j + 1) as nat));
            }
            j = j + 1;
        }
        proof {
            assert(decode_from(body@, pos as int, prev, old_index, before, remaining as nat) == target);
            assert(index@.len() == 64);
            assert(index@ == idx_new);
            assert(pixels@ == before + repeat_px(p, take as nat));
            assert(decode_from(body@, q as int, p, index@, pixels@, (remaining - take) as nat) == target);
        }
        pos = q;
        prev = p;
        decoded = decoded + take;
        since_check = since_check + take;
    }
    proof {
        lemma_decode_from_len(body@, 0, start_prev(), start_index(), seq![], pixel_count as nat);
        reveal(decode_from);
        assert(target == Some((pos as int, pixels@)));
    }
    if body.len() < pos || body.len() - pos != 8 {
        return Err(ConvertError::MalformedInput { format: Format::Qoi });
    }
    if !(body[pos] == 0 && body[pos + 1] == 0 && body[pos + 2] == 0 && body[pos + 3] == 0 && body[pos + 4] == 0
        && body[pos + 5] == 0 && body[pos + 6] == 0 && body[pos + 7] == 1) {
        proof {
            if body@.subrange(pos as int, pos + 8) == end_marker() {
                let m = body@.subrange(pos as int, pos + 8);
                assert(m[0] == 0 && m[1] == 0 && m[2] == 0 && m[3] == 0 && m[4] == 0 && m[5] == 0 && m[6] == 0
                    && m[7] == 1);
            }
        }
        return Err(ConvertError::MalformedInput { format: Format::Qoi });
    }
    proof {
        assert(body@.subrange(pos as int, pos + 8) =~= end_marker());
    }
    options.report_progress(1, 2);
    RawImage::new(width, height, pixels, Format::Qoi)
}

// ─── Encoding ──────────────────────────────────────────────────────────────

/// The `RUN` chunk for `run` (1..=62) repeats of the previous pixel.
pub open spec fn op_run(run: int) -> u8 {
    (0xC0 + run - 1) as u8
}

/// The chunk for a pixel `p` that differs from `prev` and is not in the index: `DIFF` when every
/// channel moved by -2..=1, `LUMA` when green moved by -32..=31 and red and blue by -8..=7 more
/// than green, else `RGB`; `RGBA` when the alpha changed.
pub open spec fn pixel_chunk(p: Pixel, prev: Pixel) -> Seq<u8> {
    if p.3 == prev.3 {
        let dr = wrap8(p.0 - prev.0);
        let dg = wrap8(p.1 - prev.1);
        let db = wrap8(p.2 - prev.2);
        if -2 <= dr <= 1 && -2 <= dg <= 1 && -2 <= db <= 1 {
            seq![(0x40 + (dr + 2) * 16 + (dg + 2) * 4 + (db + 2)) as u8]
        } else {
            let dr_dg = wrap8(dr - dg);
            let db_dg = wrap8(db - dg);
            if -32 <= dg <= 31 && -8 <= dr_dg <= 7 && -8 <= db_dg <= 7 {
                seq![(0x80 + dg + 32) as u8, ((dr_dg + 8) * 16 + db_dg + 8) as u8]
            } else {
                seq![0xFEu8, p.0, p.1, p.2]
            }
        }
    } else {
        seq![0xFFu8, p.0, p.1, p.2, p.3]
    }
}

/// Pixel `i` of RGBA bytes.
pub open spec fn pixel_at(px: Seq<u8>, i: int) -> Pixel {
    (px[4 * i], px[4 * i + 1], px[4 * i + 2], px[4 * i + 3])
}

/// The chunks for pixels `i..count` of `px`, appended to `out`, with the previous pixel `prev`,
/// the index `index` and a pending run of `run` repeats of `prev`.
#[verifier::opaque]
pub open spec fn encode_from(px: Seq<u8>, count: int, i: int, prev: Pixel, index: Seq<Pixel>, run: int, out: Seq<u8>) -> Seq<u8>
    decreases count - i,
{
    if i >= count {
        out
    } else {
        let p = pixel_at(px, i);
        if p == prev {
            if run + 1 == 62 || i == count - 1 {
                encode_from(px, count, i + 1, prev, index, 0, out.push(op_run(run + 1)))
            } else {
                encode_from(px, count, i + 1, prev, index, run + 1, out)
            }
        } else {
            let out1 = if run > 0 { out.push(op_run(run)) } else { out };
            let h = qoi_hash(p);
            if index[h] == p {
                encode_from(px, count, i + 1, p, index, 0, out1.push(h as u8))
            } else {
                encode_from(px, count, i + 1, p, index.update(h, p), 0, out1 + pixel_chunk(p, prev))
            }
        }
    }
}

/// What [`encode`] writes for a `width x height` image with RGBA pixels `px`: 4 channels, sRGB.
pub open spec fn encode_spec(width: int, height: int, px: Seq<u8>) -> Seq<u8> {
    magic() + be32(width) + be32(height) + seq![4u8, 0u8] + encode_from(
        px,
        (px.len() / 4) as int,
        0,
        start_prev(),
        start_index(),
        0,
        seq![],
    ) + end_marker()
}

/// The difference `a - b` as an `i8` wraps it.
fn wrapping_diff(a: i16, b: i16) -> (r: i16)
    requires
        -256 < a - b < 256,
    ensures
        r == wrap8(a - b),
{
    let d = a - b;
    if d > 127 {
        d - 256
    } else if d < -128 {
        d + 256
    } else {
        d
    }
}

/// Appends [`pixel_chunk`] for `p` after `prev`.
fn push_pixel_chunk(out: &mut Vec<u8>, p: Pixel, prev: Pixel)
    ensures
        final(out)@ == old(out)@ + pixel_chunk(p, prev),
{
    if p.3 == prev.3 {
        let dr = wrapping_diff(p.0 as i16, prev.0 as i16);
        let dg = wrapping_diff(p.1 as i16, prev.1 as i16);
        let db = wrapping_diff(p.2 as i16, prev.2 as i16);
        if -2 <= dr && dr <= 1 && -2 <= dg && dg <= 1 && -2 <= db && db <= 1 {
            out.push((0x40 + (dr + 2) * 16 + (dg + 2) * 4 + (db + 2)) as u8);
        } else {
            let dr_dg = wrapping_diff(dr, dg);
            let db_dg = wrapping_diff(db, dg);
            if -32 <= dg && dg <= 31 && -8 <= dr_dg && dr_dg <= 7 && -8 <= db_dg && db_dg <= 7 {
                out.push((0x80 + dg + 32) as u8);
                out.push(((dr_dg + 8) * 16 + db_dg + 8) as u8);
            } else {
                out.push(0xFE);
                out.push(p.0);
                out.push(p.1);
                out.push(p.2);
            }
        }
    } else {
        out.push(0xFF);
        out.push(p.0);
        out.push(p.1);
        out.push(p.2);
        out.push(p.3);
    }
    proof {
        assert(final(out)@ =~= old(out)@ + pixel_chunk(p, prev));
    }
}

/// Encodes a [`RawImage`] as QOI, always declaring 4 channels and the sRGB colorspace.
///
/// Checks `options` for cancellation and reports the second half of the progress of a
/// decode-then-encode conversion every [`PROGRESS_GRANULARITY`] pixels.
pub fn encode(image: &RawImage, options: &ConvertOptions) -> (r: Result<Vec<u8>, ConvertError>)
    ensures
        (r matches Ok(v) && v@ == encode_spec(image.width as int, image.height as int, image.pixels@)) || (
        options.may_cancel() && r == Err::<Vec<u8>, ConvertError>(ConvertError::Cancelled)),
{
    let mut out: Vec<u8> = Vec::new();
    out.push(0x71);
    out.push(0x6F);
    out.push(0x69);
    out.push(0x66);
    crate::bytes::push_u32_be(&mut out, image.width);
    crate::bytes::push_u32_be(&mut out, image.height);
    out.push(4);
    out.push(0);
    let ghost header = out@;
    let mut index: Vec<Pixel> = Vec::new();
    let mut k: usize = 0;
    while k < 64
        invariant
            k <= 64,
            index@ == Seq::new(k as nat, |i: int| (0u8, 0u8, 0u8, 0u8)),
        decreases 64 - k,
    {
        index.push((0, 0, 0, 0));
        proof {
            assert(index@ =~= Seq::new((k + 1) as nat, |i: int| (0u8, 0u8, 0u8, 0u8)));
        }
        k = k + 1;
    }
    let mut prev: Pixel = (0, 0, 0, 255);
    let mut run: u8 = 0;
    let total_len = image.pixels.len();
    let pixel_count = total_len / 4;
    let ghost px = image.pixels@;
    let ghost target = encode_from(px, pixel_count as int, 0, start_prev(), start_index(), 0, seq![]);
    let mut chunks: Vec<u8> = Vec::new();
    let mut i: usize = 0;
    while i < pixel_count
        invariant
            i <= pixel_count,
            pixel_count == image.pixels@.len() / 4,
            pixel_count * 4 <= total_len,
            total_len == image.pixels@.len(),
            px == image.pixels@,
            index@.len() == 64,
            run < 62,
            encode_from(px, pixel_count as int, i as int, prev, index@, run as int, chunks@) == target,
        decreases pixel_count - i,
    {
        if i % PROGRESS_GRANULARITY == 0 {
            if options.is_cancelled() {
                return Err(ConvertError::Cancelled);
            }
            options.report_progress((pixel_count + i) as u64, 2 * pixel_count as u64);
        }
        proof {
            reveal(encode_from);
        }
        let base = i * 4;
        let p: Pixel = (image.pixels[base], image.pixels[base + 1], image.pixels[base + 2], image.pixels[base + 3]);
        assert(p == pixel_at(px, i as int));
        if p.0 == prev.0 && p.1 == prev.1 && p.2 == prev.2 && p.3 == prev.3 {
            run = run + 1;
            if run == 62 || i == pixel_count - 1 {
                chunks.push(0xC0 + (run - 1));
                run = 0;
            }
        } else {
            if run > 0 {
                chunks.push(0xC0 + (run - 1));
                run = 0;
            }
            let h = hash(p);
            let slot = index[h];
            if slot.0 == p.0 && slot.1 == p.1 && slot.2 == p.2 && slot.3 == p.3 {
                chunks.push(h as u8);
            } else {
                index.set(h, p);
                push_pixel_chunk(&mut chunks, p, prev);
            }
            prev = p;
        }
        i = i + 1;
    }
    crate::bytes::push_all(&mut out, chunks.as_slice());
    out.push(0);
    out.push(0);
    out.push(0);
    out.push(0);
    out.push(0);
    out.push(0);
    out.push(0);
    out.push(1);
    options.report_progress(1, 1);
    proof {
        reveal(encode_from);
        assert(target == chunks@);
        assert(header =~= magic() + be32(image.width as int) + be32(image.height as int) + seq![4u8, 0u8]);
        assert(out@ =~= encode_spec(image.width as int, image.height as int, image.pixels@));
    }
    Ok(out)
}

// ─── Round trip ──────────────────────────────────────────────────────────────

proof fn lemma_add8_wrap(a: u8, b: u8)
    ensures
        add8(a, wrap8(b - a)) == b,
{
    let x = wrap8(b - a);
    if b - a > 127 {
        assert(a + x == b - 256);
    } else if b - a < -128 {
        assert(a + x == b + 256);
    } else {
        assert(a + x == b);
    }
}

proof fn lemma_add8_luma(a: u8, b: u8, dg: int, dr: int)
    requires
        dr == wrap8(b - a),
        -128 <= dg <= 127,
    ensures
        add8(a, dg + wrap8(dr - dg)) == b,
{
    lemma_add8_wrap(a, b);
    let y = dg + wrap8(dr - dg);
    assert(y == dr || y == dr + 256 || y == dr - 256);
    if y == dr + 256 {
        assert((a + dr + 256) % 256 == (a + dr) % 256) by {
            vstd::arithmetic::div_mod::lemma_mod_add_multiples_vanish(a + dr, 256);
        }
    } else if y == dr - 256 {
        assert((a + dr - 256) % 256 == (a + dr) % 256) by {
            vstd::arithmetic::div_mod::lemma_mod_add_multiples_vanish(a + dr - 256, 256);
        }
    }
}

proof fn lemma_diff_byte(a: u8, c: u8, d: u8)
    requires
        a < 4,
        c < 4,
        d < 4,
    ensures
        ({
            let b = (0x40 + a * 16 + c * 4 + d) as u8;
            64 <= b < 128 && (b / 16) % 4 == a && (b / 4) % 4 == c && b % 4 == d
        }),
{
    assert(({
        let b = (0x40 + a * 16 + c * 4 + d) as u8;
        64 <= b < 128 && (b / 16) % 4 == a && (b / 4) % 4 == c && b % 4 == d
    })) by (bit_vector)
        requires
            a < 4,
            c < 4,
            d < 4,
    ;
}

proof fn lemma_luma_bytes(g: u8, r: u8, bl: u8)
    requires
        g < 64,
        r < 16,
        bl < 16,
    ensures
        ({
            let b = (0x80 + g) as u8;
            let b2 = (r * 16 + bl) as u8;
            128 <= b < 192 && b % 64 == g && b2 / 16 == r && b2 % 16 == bl
        }),
{
    assert(({
        let b = (0x80 + g) as u8;
        let b2 = (r * 16 + bl) as u8;
        128 <= b < 192 && b % 64 == g && b2 / 16 == r && b2 % 16 == bl
    })) by (bit_vector)
        requires
            g < 64,
            r < 16,
            bl < 16,
    ;
}

/// The chunk [`encode`] writes for a pixel that is not in the index decodes to that pixel.
proof fn lemma_pixel_chunk_decodes(p: Pixel, prev: Pixel, index: Seq<Pixel>, body: Seq<u8>, pos: int, remaining: nat)
    requires
        remaining >= 1,
        0 <= pos,
        pos + pixel_chunk(p, prev).len() <= body.len(),
        body.subrange(pos, pos + pixel_chunk(p, prev).len()) == pixel_chunk(p, prev),
    ensures
        decode_chunk(body, pos, prev, index, remaining) == Some((pos + pixel_chunk(p, prev).len(), p, seen(index, p), 1nat)),
{
    reveal(decode_chunk);
    let c = pixel_chunk(p, prev);
    assert(body[pos] == c[0]);
    if p.3 == prev.3 {
        let dr = wrap8(p.0 - prev.0);
        let dg = wrap8(p.1 - prev.1);
        let db = wrap8(p.2 - prev.2);
        lemma_add8_wrap(prev.0, p.0);
        lemma_add8_wrap(prev.1, p.1);
        lemma_add8_wrap(prev.2, p.2);
        if -2 <= dr <= 1 && -2 <= dg <= 1 && -2 <= db <= 1 {
            lemma_diff_byte((dr + 2) as u8, (dg + 2) as u8, (db + 2) as u8);
            assert(diff_px(prev, c[0]) == p);
        } else {
            let dr_dg = wrap8(dr - dg);
            let db_dg = wrap8(db - dg);
            if -32 <= dg <= 31 && -8 <= dr_dg <= 7 && -8 <= db_dg <= 7 {
                lemma_luma_bytes((dg + 32) as u8, (dr_dg + 8) as u8, (db_dg + 8) as u8);
                assert(body[pos + 1] == c[1]);
                lemma_add8_luma(prev.0, p.0, dg, dr);
                lemma_add8_luma(prev.2, p.2, dg, db);
                assert(luma_px(prev, c[0], c[1]) == p);
            } else {
                assert(body[pos + 1] == c[1] && body[pos + 2] == c[2] && body[pos + 3] == c[3]);
            }
        }
    } else {
        assert(body[pos + 1] == c[1] && body[pos + 2] == c[2] && body[pos + 3] == c[3] && body[pos + 4] == c[4]);
    }
}

/// The encoding appends to what was written before.
proof fn lemma_encode_prefix(px: Seq<u8>, count: int, i: int, prev: Pixel, index: Seq<Pixel>, run: int, out: Seq<u8>)
    ensures
        encode_from(px, count, i, prev, index, run, out).len() >= out.len(),
        encode_from(px, count, i, prev, index, run, out).take(out.len() as int) == out,
    decreases count - i,
{
    reveal(encode_from);
    if i < count {
        let p = pixel_at(px, i);
        if p == prev {
            if run + 1 == 62 || i == count - 1 {
                lemma_encode_prefix(px, count, i + 1, prev, index, 0, out.push(op_run(run + 1)));
                let e = encode_from(px, count, i + 1, prev, index, 0, out.push(op_run(run + 1)));
                assert(e.take(out.len() as int) =~= e.take(out.len() + 1 as int).take(out.len() as int));
            } else {
                lemma_encode_prefix(px, count, i + 1, prev, index, run + 1, out);
            }
        } else {
            let out1 = if run > 0 { out.push(op_run(run)) } else { out };
            assert(out1.take(out.len() as int) =~= out);
            let h = qoi_hash(p);
            let out2 = if index[h] == p { out1.push(h as u8) } else { out1 + pixel_chunk(p, prev) };
            let idx2 = if index[h] == p { index } else { index.update(h, p) };
            assert(out2.take(out.len() as int) =~= out);
            lemma_encode_prefix(px, count, i + 1, p, idx2, 0, out2);
            let e = encode_from(px, count, i + 1, p, idx2, 0, out2);
            assert(e.take(out.len() as int) =~= e.take(out2.len() as int).take(out.len() as int));
        }
    } else {
        assert(out.take(out.len() as int) =~= out);
    }
}

/// Pixels `a..b` all equal to `prev` are `b - a` copies of its bytes.
proof fn lemma_run_pixels(px: Seq<u8>, prev: Pixel, a: int, b: int)
    requires
        0 <= a <= b,
        4 * b <= px.len(),
        forall|j: int| a <= j < b ==> #[trigger] pixel_at(px, j) == prev,
    ensures
        px.subrange(4 * a, 4 * b) == repeat_px(prev, (b - a) as nat),
    decreases b - a,
{
    if a < b {
        lemma_run_pixels(px, prev, a, b - 1);
        assert(pixel_at(px, b - 1) == prev);
        assert(px.subrange(4 * a, 4 * b) =~= px.subrange(4 * a, 4 * (b - 1)) + px_bytes(prev));
    } else {
        assert(px.subrange(4 * a, 4 * b) =~= Seq::<u8>::empty());
    }
}

/// Where `body` holds `e` from index `a` on at byte `p0`, it holds `e` from index `b` on at
/// byte `p0 + b - a`, and `e[a..b]` just before.
proof fn lemma_skip_shift(body: Seq<u8>, p0: int, e: Seq<u8>, a: int, b: int)
    requires
        0 <= p0,
        0 <= a <= b <= e.len(),
        p0 + e.len() - a <= body.len(),
        body.subrange(p0, p0 + e.len() - a) == e.skip(a),
    ensures
        body.subrange(p0 + b - a, p0 + e.len() - a) == e.skip(b),
        body.subrange(p0, p0 + b - a) == e.subrange(a, b),
{
    let t = body.subrange(p0, p0 + e.len() - a);
    assert forall|k: int| 0 <= k < e.len() - b implies #[trigger] body.subrange(p0 + b - a, p0 + e.len() - a)[k]
        == e.skip(b)[k] by {
        assert(t[b - a + k] == body[p0 + b - a + k]);
        assert(e.skip(a)[b - a + k] == e[b + k]);
    }
    assert(body.subrange(p0 + b - a, p0 + e.len() - a) =~= e.skip(b));
    assert forall|k: int| 0 <= k < b - a implies #[trigger] body.subrange(p0, p0 + b - a)[k] == e.subrange(a, b)[k] by {
        assert(t[k] == body[p0 + k]);
        assert(e.skip(a)[k] == e[a + k]);
    }
    assert(body.subrange(p0, p0 + b - a) =~= e.subrange(a, b));
}

/// A `RUN` chunk for `run` pixels, at byte `p0`, with at least that many owed.
proof fn lemma_run_chunk(body: Seq<u8>, p0: int, prev: Pixel, index: Seq<Pixel>, run: int, remaining: nat)
    requires
        1 <= run <= 62,
        run <= remaining,
        0 <= p0 < body.len(),
        body[p0] == op_run(run),
    ensures
        decode_chunk(body, p0, prev, index, remaining) == Some((p0 + 1, prev, index, run as nat)),
{
    reveal(decode_chunk);
    let b = body[p0];
    assert(b == 0xC0 + run - 1);
    assert(b % 64 == run - 1);
}

/// The step of [`lemma_encoded_decodes`] for a pixel that differs from the previous one.
#[verifier::rlimit(40)]
proof fn lemma_new_pixel_step(
    px: Seq<u8>,
    count: int,
    i: int,
    prev: Pixel,
    index: Seq<Pixel>,
    run: int,
    out: Seq<u8>,
    out1: Seq<u8>,
    chunk: Seq<u8>,
    e: Seq<u8>,
    body: Seq<u8>,
    p0: int,
    acc: Seq<u8>,
    rest: Option<(int, Seq<u8>)>,
)
    requires
        0 <= run <= i < count,
        px.len() == 4 * count,
        run < 62,
        index.len() == 64,
        forall|j: int| i - run <= j < i ==> #[trigger] pixel_at(px, j) == prev,
        pixel_at(px, i) != prev,
        out1 == (if run > 0 { out.push(op_run(run)) } else { out }),
        chunk == (if index[qoi_hash(pixel_at(px, i))] == pixel_at(px, i) { seq![qoi_hash(pixel_at(px, i)) as u8] } else { pixel_chunk(pixel_at(px, i), prev) }),
        (out1 + chunk).len() <= e.len(),
        e.take((out1 + chunk).len() as int) == out1 + chunk,
        0 <= p0,
        p0 + e.len() - out.len() <= body.len(),
        body.subrange(p0, p0 + e.len() - out.len()) == e.skip(out.len() as int),
        rest == decode_from(body, p0 + (out1 + chunk).len() - out.len(), pixel_at(px, i), seen(index, pixel_at(px, i)),
            acc + px.subrange(4 * (i - run), 4 * i) + px_bytes(pixel_at(px, i)), (count - i - 1) as nat),
    ensures
        decode_from(body, p0, prev, index, acc, (count - i + run) as nat) == rest,
{
    let p = pixel_at(px, i);
    let h = qoi_hash(p);
    let out2 = out1 + chunk;
    let p1 = p0 + out1.len() - out.len();
    let p2 = p1 + chunk.len();
    lemma_skip_shift(body, p0, e, out.len() as int, out1.len() as int);
    lemma_skip_shift(body, p1, e, out1.len() as int, out2.len() as int);
    assert(e.subrange(out1.len() as int, out2.len() as int) =~= chunk) by {
        assert forall|k: int| 0 <= k < chunk.len() implies #[trigger] e.subrange(out1.len() as int, out2.len() as int)[k]
            == chunk[k] by {
            assert(e.take(out2.len() as int)[out1.len() + k] == out2[out1.len() + k]);
        }
    }
    let acc1 = acc + px.subrange(4 * (i - run), 4 * i);
    if index[h] == p {
        reveal(decode_chunk);
        assert(body[p1] == body.subrange(p1, p2)[0]);
        assert(index.update(h, p) =~= index);
        assert(decode_chunk(body, p1, prev, index, (count - i) as nat) == Some((p2, p, seen(index, p), 1nat)));
    } else {
        lemma_pixel_chunk_decodes(p, prev, index, body, p1, (count - i) as nat);
    }
    lemma_decode_from_step(body, p1, prev, index, acc1, (count - i) as nat);
    assert(repeat_px(p, 0) =~= Seq::<u8>::empty());
    assert(repeat_px(p, 1) =~= px_bytes(p));
    lemma_run_pixels(px, prev, i - run, i);
    if run > 0 {
        assert(e.take(out2.len() as int)[out.len() as int] == out2[out.len() as int]);
        assert(body.subrange(p0, p1)[0] == body[p0]);
        lemma_run_chunk(body, p0, prev, index, run, (count - i + run) as nat);
        lemma_decode_from_step(body, p0, prev, index, acc, (count - i + run) as nat);
    } else {
        assert(px.subrange(4 * i, 4 * i) =~= Seq::<u8>::empty());
        assert(acc1 =~= acc);
    }
}

/// Decoding what [`encode_from`] appends, from the same previous pixel and index (the decoder
/// owing the pending run too), yields the pixels from the start of the run to the end.
#[verifier::rlimit(40)]
proof fn lemma_encoded_decodes(
    px: Seq<u8>,
    count: int,
    i: int,
    prev: Pixel,
    index: Seq<Pixel>,
    run: int,
    out: Seq<u8>,
    body: Seq<u8>,
    p0: int,
    acc: Seq<u8>,
)
    requires
        0 <= run <= i <= count,
        px.len() == 4 * count,
        run < 62,
        run > 0 ==> i < count,
        index.len() == 64,
        forall|j: int| i - run <= j < i ==> #[trigger] pixel_at(px, j) == prev,
        0 <= p0,
        p0 + encode_from(px, count, i, prev, index, run, out).len() - out.len() <= body.len(),
        body.subrange(p0, p0 + encode_from(px, count, i, prev, index, run, out).len() - out.len())
            == encode_from(px, count, i, prev, index, run, out).skip(out.len() as int),
    ensures
        decode_from(body, p0, prev, index, acc, (count - i + run) as nat) == Some((
            p0 + encode_from(px, count, i, prev, index, run, out).len() - out.len(),
            acc + px.subrange(4 * (i - run), 4 * count),
        )),
    decreases count - i,
{
    let e = encode_from(px, count, i, prev, index, run, out);
    lemma_encode_prefix(px, count, i, prev, index, run, out);
    if i == count {
        assert(e == out) by {
            reveal(encode_from);
        }
        reveal(decode_from);
        assert(px.subrange(4 * count, 4 * count) =~= Seq::<u8>::empty());
        assert(acc + Seq::<u8>::empty() =~= acc);
    } else {
        let p = pixel_at(px, i);
        let remaining = (count - i + run) as nat;
        if p == prev {
            if run + 1 == 62 || i == count - 1 {
                let out2 = out.push(op_run(run + 1));
                assert(e == encode_from(px, count, i + 1, prev, index, 0, out2)) by {
                    reveal(encode_from);
                }
                lemma_encode_prefix(px, count, i + 1, prev, index, 0, out2);
                lemma_skip_shift(body, p0, e, out.len() as int, out2.len() as int);
                assert(e.take(out2.len() as int)[out.len() as int] == out2[out.len() as int]);
                assert(body.subrange(p0, p0 + 1)[0] == body[p0]);
                lemma_run_pixels(px, prev, i - run, i + 1);
                let acc2 = acc + repeat_px(prev, (run + 1) as nat);
                lemma_encoded_decodes(px, count, i + 1, prev, index, 0, out2, body, p0 + 1, acc2);
                lemma_run_chunk(body, p0, prev, index, run + 1, remaining);
                lemma_decode_from_step(body, p0, prev, index, acc, remaining);
                assert(acc2 + px.subrange(4 * (i + 1), 4 * count) =~= acc + px.subrange(4 * (i - run), 4 * count));
            } else {
                assert(e == encode_from(px, count, i + 1, prev, index, run + 1, out)) by {
                    reveal(encode_from);
                }
                lemma_encoded_decodes(px, count, i + 1, prev, index, run + 1, out, body, p0, acc);
            }
        } else {
            let h = qoi_hash(p);
            let hit = index[h] == p;
            let chunk = if hit { seq![h as u8] } else { pixel_chunk(p, prev) };
            let idx2 = if hit { index } else { index.update(h, p) };
            let out1 = if run > 0 { out.push(op_run(run)) } else { out };
            let out2 = out1 + chunk;
            assert(e == encode_from(px, count, i + 1, p, idx2, 0, out2)) by {
                reveal(encode_from);
                if hit {
                    assert(out1.push(h as u8) =~= out2);
                }
            }
            lemma_encode_prefix(px, count, i + 1, p, idx2, 0, out2);
            assert(idx2 =~= seen(index, p)) by {
                if hit {
                    assert(index.update(h, p) =~= index);
                }
            }
            let p2 = p0 + out2.len() - out.len();
            lemma_skip_shift(body, p0, e, out.len() as int, out2.len() as int);
            assert(px.subrange(4 * i, 4 * i + 4) =~= px_bytes(p));
            let acc2 = acc + px.subrange(4 * (i - run), 4 * i) + px_bytes(p);
            lemma_encoded_decodes(px, count, i + 1, p, idx2, 0, out2, body, p2, acc2);
            assert(acc2 + px.subrange(4 * (i + 1), 4 * count) =~= acc + px.subrange(4 * (i - run), 4 * count));
            lemma_new_pixel_step(px, count, i, prev, index, run, out, out1, chunk, e, body, p0, acc,
                decode_from(body, p2, p, idx2, acc2, (count - i - 1) as nat));
        }
    }
}

/// What [`encode`] writes, [`decode`] reads back unchanged: QOI is lossless.
#[verifier::spinoff_prover]
pub proof fn lemma_qoi_round_trip(width: u32, height: u32, px: Seq<u8>)
    requires
        dims_ok(width as int, height as int),
        px.len() == width * height * 4,
    ensures
        decode_spec(encode_spec(width as int, height as int, px)) == Ok::<(u32, u32, Seq<u8>), ConvertError>(
            (width, height, px),
        ),
{
    let w = width as int;
    let h = height as int;
    let count = w * h;
    let e = encode_spec(w, h, px);
    let chunks = encode_from(px, count, 0, start_prev(), start_index(), 0, seq![]);
    assert(px.len() / 4 == count);
    assert(e == magic() + be32(w) + be32(h) + seq![4u8, 0u8] + chunks + end_marker());
    let body = e.subrange(14, e.len() as int);
    assert(body =~= chunks + end_marker());
    assert(e.take(4) =~= magic());
    assert(e.subrange(4, 8) =~= be32(w));
    assert(e.subrange(8, 12) =~= be32(h));
    super::png::lemma_be32_read(e, 4, w);
    super::png::lemma_be32_read(e, 8, h);
    assert(e[12] == 4 && e[13] == 0);
    assert(chunks.skip(0) =~= chunks);
    assert(body.subrange(0, chunks.len() as int) =~= chunks);
    lemma_encoded_decodes(px, count, 0, start_prev(), start_index(), 0, seq![], body, 0, seq![]);
    assert(px.subrange(0, 4 * count) =~= px);
    assert(seq![] + px =~= px);
    assert(body.subrange(chunks.len() as int, chunks.len() + 8 as int) =~= end_marker());
}

} // verus!
