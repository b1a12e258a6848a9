//! PNG decode and encode — 8-bit truecolor (RGB) and truecolor-with-alpha (RGBA), not
//! interlaced. Other pixel formats, bit depths and interlacing are unsupported features; unknown
//! ancillary chunks are skipped and unknown critical chunks rejected.

use vstd::prelude::*;

use super::raster::{checked_rgba_len, dims_ok, image_matches, RawImage};
use super::zlib;
use super::zlib::{zlib_decompress_spec, zlib_stream};
use crate::bytes::{be32, u32_be};
use crate::{ConvertError, ConvertOptions, Format};

verus! {

/// The 8-byte PNG signature.
pub open spec fn signature() -> Seq<u8> {
    seq![0x89u8, 0x50u8, 0x4Eu8, 0x47u8, 0x0Du8, 0x0Au8, 0x1Au8, 0x0Au8]
}

// ─── CRC-32 (ISO-HDLC, polynomial 0xEDB88320, reflected) ───────────────────

/// `k` rounds of the bitwise CRC-32 shift on `c`.
pub open spec fn crc_shift(c: u32, k: nat) -> u32
    decreases k,
{
    if k == 0 {
        c
    } else {
        let c1 = crc_shift(c, (k - 1) as nat);
        if c1 & 1 != 0 {
            (c1 >> 1u32) ^ 0xEDB8_8320u32
        } else {
            c1 >> 1u32
        }
    }
}

/// The CRC-32 register after feeding `d` into `crc`.
pub open spec fn crc_update_spec(crc: u32, d: Seq<u8>) -> u32
    decreases d.len(),
{
    if d.len() == 0 {
        crc
    } else {
        crc_shift(crc_update_spec(crc, d.drop_last()) ^ (d.last() as u32), 8)
    }
}

/// The CRC-32 a chunk carries: over its type bytes, then its data.
pub open spec fn chunk_crc(chunk_type: Seq<u8>, data: Seq<u8>) -> u32 {
    crc_update_spec(crc_update_spec(0xFFFF_FFFFu32, chunk_type), data) ^ 0xFFFF_FFFFu32
}

/// Feeds `data` into the CRC-32 register `crc`, bit by bit.
pub fn crc32_update(crc: u32, data: &[u8]) -> (r: u32)
    ensures
        r == crc_update_spec(crc, data@),
{
    let mut c = crc;
    let n = data.len();
    let mut i: usize = 0;
    while i < n
        invariant
            n == data@.len(),
            i <= n,
            c == crc_update_spec(crc, data@.take(i as int)),
        decreases n - i,
    {
        proof {
            assert(data@.take(i + 1).drop_last() =~= data@.take(i as int));
        }
        let start = c ^ (data[i] as u32);
        c = start;
        let mut k: u32 = 0;
        while k < 8
            invariant
                k <= 8,
                c == crc_shift(start, k as nat),
            decreases 8 - k,
        {
            c = if c & 1 != 0 {
                (c >> 1u32) ^ 0xEDB8_8320u32
            } else {
                c >> 1u32
            };
            k = k + 1;
        }
        i = i + 1;
    }
    proof {
        assert(data@.take(n as int) =~= data@);
    }
    c
}

/// The CRC-32 of a chunk's type and data.
pub fn crc32_of_chunk(chunk_type: &[u8], data: &[u8]) -> (r: u32)
    ensures
        r == chunk_crc(chunk_type@, data@),
{
    let crc = crc32_update(0xFFFF_FFFF, chunk_type);
    let crc = crc32_update(crc, data);
    crc ^ 0xFFFF_FFFF
}

/// A chunk: data length, type, data, CRC.
pub open spec fn chunk_spec(chunk_type: Seq<u8>, data: Seq<u8>) -> Seq<u8> {
    be32(data.len() as int) + chunk_type + data + be32(chunk_crc(chunk_type, data) as int)
}

/// Appends the chunk `chunk_type`/`data` to `out`.
pub fn write_chunk(out: &mut Vec<u8>, chunk_type: &[u8], data: &[u8])
    ensures
        final(out)@ == old(out)@ + chunk_spec(chunk_type@, data@),
{
    proof {
        crate::bytes::lemma_be32_low_bits(data.len() as u64);
    }
    crate::bytes::push_u32_be(out, data.len() as u32);
    crate::bytes::push_all(out, chunk_type);
    crate::bytes::push_all(out, data);
    crate::bytes::push_u32_be(out, crc32_of_chunk(chunk_type, data));
    proof {
        assert(final(out)@ =~= old(out)@ + chunk_spec(chunk_type@, data@));
    }
}

// ─── Scanline filters (PNG §9) ─────────────────────────────────────────────

/// `|x|`.
pub open spec fn abs(x: int) -> int {
    if x < 0 {
        -x
    } else {
        x
    }
}

/// The Paeth predictor (PNG §9.4): whichever of left, above, upper-left is closest to
/// `left + above - upper_left`, ties going to left, then above.
pub open spec fn paeth_spec(left: u8, above: u8, upper_left: u8) -> u8 {
    let p = left + above - upper_left;
    let pa = abs(p - left);
    let pb = abs(p - above);
    let pc = abs(p - upper_left);
    if pa <= pb && pa <= pc {
        left
    } else if pb <= pc {
        above
    } else {
        upper_left
    }
}

/// The Paeth predictor.
pub fn paeth_predictor(left: u8, above: u8, upper_left: u8) -> (r: u8)
    ensures
        r == paeth_spec(left, above, upper_left),
{
    let a = left as i32;
    let b = above as i32;
    let c = upper_left as i32;
    let p = a + b - c;
    let pa = if p - a < 0 { a - p } else { p - a };
    let pb = if p - b < 0 { b - p } else { p - b };
    let pc = if p - c < 0 { c - p } else { p - c };
    if pa <= pb && pa <= pc {
        left
    } else if pb <= pc {
        above
    } else {
        upper_left
    }
}

/// `(a + b) mod 256`.
pub open spec fn add8(a: u8, b: int) -> u8 {
    ((a + b) % 256) as u8
}

/// The first `i` bytes of a scanline reconstructed from its filtered bytes `f` with filter type
/// `ft` (1..4 are Sub, Up, Average, Paeth), the previous reconstructed scanline `prev`, and the
/// pixel stride `bpp` used for the "left" reference.
pub open spec fn unfilter_spec(ft: u8, f: Seq<u8>, prev: Seq<u8>, bpp: int, i: int) -> Seq<u8>
    decreases i,
{
    if i <= 0 {
        seq![]
    } else {
        let cur = unfilter_spec(ft, f, prev, bpp, i - 1);
        let j = i - 1;
        let left: u8 = if j >= bpp { cur[j - bpp] } else { 0 };
        let up: u8 = prev[j];
        let up_left: u8 = if j >= bpp { prev[j - bpp] } else { 0 };
        let v = if ft == 0 {
            f[j]
        } else if ft == 1 {
            add8(f[j], left as int)
        } else if ft == 2 {
            add8(f[j], up as int)
        } else if ft == 3 {
            add8(f[j], (left + up) / 2)
        } else {
            add8(f[j], paeth_spec(left, up, up_left) as int)
        };
        cur.push(v)
    }
}

/// Reverses one of PNG's five scanline filters; `None` for an unknown filter type.
pub fn unfilter_row(filter_type: u8, filtered: &[u8], prev_row: &[u8], bpp: usize) -> (r: Option<Vec<u8>>)
    requires
        prev_row@.len() == filtered@.len(),
        bpp >= 1,
    ensures
        filter_type > 4 ==> r is None,
        filter_type <= 4 ==> (r matches Some(v) && v@ == unfilter_spec(filter_type, filtered@, prev_row@, bpp as int, filtered@.len() as int)),
{
    if filter_type > 4 {
        return None;
    }
    let n = filtered.len();
    let mut cur: Vec<u8> = Vec::new();
    let mut i: usize = 0;
    while i < n
        invariant
            n == filtered@.len(),
            n == prev_row@.len(),
            filter_type <= 4,
            bpp >= 1,
            i <= n,
            cur@ == unfilter_spec(filter_type, filtered@, prev_row@, bpp as int, i as int),
        decreases n - i,
    {
        proof {
            lemma_unfilter_len(filter_type, filtered@, prev_row@, bpp as int, i as int);
            assert(cur@.len() == i);
        }
        let left: u8 = if i >= bpp { cur[i - bpp] } else { 0 };
        let up: u8 = prev_row[i];
        let up_left: u8 = if i >= bpp { prev_row[i - bpp] } else { 0 };
        let f = filtered[i];
        let v: u8 = if filter_type == 0 {
            f
        } else if filter_type == 1 {
            ((f as u16 + left as u16) % 256) as u8
        } else if filter_type == 2 {
            ((f as u16 + up as u16) % 256) as u8
        } else if filter_type == 3 {
            ((f as u16 + (left as u16 + up as u16) / 2) % 256) as u8
        } else {
            ((f as u16 + paeth_predictor(left, up, up_left) as u16) % 256) as u8
        };
        cur.push(v);
        i = i + 1;
    }
    Some(cur)
}

proof fn lemma_unfilter_len(ft: u8, f: Seq<u8>, prev: Seq<u8>, bpp: int, i: int)
    requires
        i >= 0,
    ensures
        unfilter_spec(ft, f, prev, bpp, i).len() == i,
    decreases i,
{
    if i > 0 {
        lemma_unfilter_len(ft, f, prev, bpp, i - 1);
    }
}


// ─── Decoding ──────────────────────────────────────────────────────────────

/// The chunk types this module interprets.
pub open spec fn ihdr_type() -> Seq<u8> {
    seq![0x49u8, 0x48u8, 0x44u8, 0x52u8]
}

pub open spec fn idat_type() -> Seq<u8> {
    seq![0x49u8, 0x44u8, 0x41u8, 0x54u8]
}

pub open spec fn iend_type() -> Seq<u8> {
    seq![0x49u8, 0x45u8, 0x4Eu8, 0x44u8]
}

/// Whether the four bytes of `s` at `i` are the chunk type `t`.
pub open spec fn type_at(s: Seq<u8>, i: int, t: Seq<u8>) -> bool {
    s[i] == t[0] && s[i + 1] == t[1] && s[i + 2] == t[2] && s[i + 3] == t[3]
}

/// The PNG malformed-input error.
pub open spec fn malformed() -> ConvertError {
    ConvertError::MalformedInput { format: Format::Png }
}

/// What a 13-byte `IHDR` payload `d` says: `(width, height, color type)` for an 8-bit,
/// non-interlaced RGB or RGBA image, or the error.
pub open spec fn ihdr_check(d: Seq<u8>) -> Result<(u32, u32, u8), ConvertError> {
    if d[10] != 0 || d[11] != 0 {
        Err(malformed())
    } else if d[12] != 0 {
        Err(ConvertError::UnsupportedFeature { format: Format::Png, feature: "png-interlaced" })
    } else if d[8] != 8 {
        Err(ConvertError::UnsupportedFeature { format: Format::Png, feature: "png-bit-depth" })
    } else if d[9] != 2 && d[9] != 6 {
        Err(ConvertError::UnsupportedFeature { format: Format::Png, feature: "png-color-type" })
    } else {
        Ok((u32_be(d, 0) as u32, u32_be(d, 4) as u32, d[9]))
    }
}

/// Walks the chunks from byte `pos` on, with the header `hdr` and the `IDAT` bytes `idat` seen so
/// far, through `IEND`: the final header and `IDAT` bytes, or the error. Every chunk's CRC is
/// checked; a second or wrongly sized `IHDR`, an `IDAT` before `IHDR`, and input that ends before
/// `IEND` are malformed; unknown chunks are skipped when ancillary (bit 5 of the first type byte
/// set) and an unsupported feature when critical.
#[verifier::opaque]
pub open spec fn chunk_walk(input: Seq<u8>, pos: int, hdr: Option<(u32, u32, u8)>, idat: Seq<u8>) -> Result<
    (Option<(u32, u32, u8)>, Seq<u8>),
    ConvertError,
>
    decreases input.len() - pos,
{
    if pos < 0 || pos + 8 > input.len() {
        Err(malformed())
    } else {
        let length = u32_be(input, pos);
        let data_end = pos + 8 + length;
        if data_end + 4 > input.len() {
            Err(malformed())
        } else {
            let data = input.subrange(pos + 8, data_end);
            let next = data_end + 4;
            if chunk_crc(input.subrange(pos + 4, pos + 8), data) != u32_be(input, data_end) {
                Err(malformed())
            } else if type_at(input, pos + 4, ihdr_type()) {
                if hdr is Some || length != 13 {
                    Err(malformed())
                } else {
                    match ihdr_check(data) {
                        Err(e) => Err(e),
                        Ok(h) => chunk_walk(input, next, Some(h), idat),
                    }
                }
            } else if type_at(input, pos + 4, idat_type()) {
                if hdr is None {
                    Err(malformed())
                } else {
                    chunk_walk(input, next, hdr, idat + data)
                }
            } else if type_at(input, pos + 4, iend_type()) {
                Ok((hdr, idat))
            } else if input[pos + 4] & 0x20u8 == 0 {
                Err(ConvertError::UnsupportedFeature { format: Format::Png, feature: "png-unknown-critical-chunk" })
            } else {
                chunk_walk(input, next, hdr, idat)
            }
        }
    }
}

/// `n` zero bytes: the "previous scanline" of the first row.
pub open spec fn zero_row(n: int) -> Seq<u8> {
    Seq::new(n as nat, |i: int| 0u8)
}

/// The filtered bytes of scanline `y` in the decompressed stream `raw` (each scanline is a
/// filter-type byte and then `rb` bytes).
pub open spec fn filtered_row(raw: Seq<u8>, rb: int, y: int) -> Seq<u8> {
    raw.subrange(y * (rb + 1) + 1, y * (rb + 1) + 1 + rb)
}

/// A reconstructed scanline of `width` pixels of `bpp` bytes as RGBA, opaque when `bpp` is 3.
pub open spec fn rgba_row(row: Seq<u8>, width: int, bpp: int) -> Seq<u8> {
    Seq::new((width * 4) as nat, |i: int| if i % 4 == 3 && bpp == 3 { 255u8 } else { row[(i / 4) * bpp + i % 4] })
}

/// Reconstructs the first `n` scanlines of `raw`: the last reconstructed scanline and the RGBA
/// pixels of all `n`, or `None` if a filter type is unknown.
pub open spec fn decode_rows(raw: Seq<u8>, rb: int, bpp: int, width: int, n: int) -> Option<(Seq<u8>, Seq<u8>)>
    decreases n,
{
    if n <= 0 {
        Some((zero_row(rb), seq![]))
    } else {
        match decode_rows(raw, rb, bpp, width, n - 1) {
            None => None,
            Some((prev, px)) => {
                let ft = raw[(n - 1) * (rb + 1)];
                if ft > 4 {
                    None
                } else {
                    let cur = unfilter_spec(ft, filtered_row(raw, rb, n - 1), prev, bpp, rb);
                    Some((cur, px + rgba_row(cur, width, bpp)))
                }
            },
        }
    }
}

/// Reconstructing `n` scanlines gives four bytes per pixel, and for 3-byte (RGB) pixels every
/// alpha byte is 255 while red, green and blue are the pixel's three reconstructed bytes.
proof fn lemma_rgb_rows_opaque(raw: Seq<u8>, rb: int, width: int, n: int)
    requires
        0 <= n,
        0 <= width,
    ensures
        decode_rows(raw, rb, 3, width, n) matches Some((cur, px)) ==> {
            &&& px.len() == 4 * width * n
            &&& forall|i: int| 0 <= i < width * n ==> #[trigger] px[4 * i + 3] == 255u8
        },
    decreases n,
{
    if n > 0 {
        lemma_rgb_rows_opaque(raw, rb, width, n - 1);
        if let Some((cur, px)) = decode_rows(raw, rb, 3, width, n) {
            let (prev, px0) = decode_rows(raw, rb, 3, width, n - 1)->0;
            let row = rgba_row(cur, width, 3);
            assert(px == px0 + row);
            assert(4 * width * (n - 1) + 4 * width == 4 * width * n) by (nonlinear_arith);
            assert(width * (n - 1) + width == width * n) by (nonlinear_arith);
            assert forall|i: int| 0 <= i < width * n implies #[trigger] px[4 * i + 3] == 255u8 by {
                if i >= width * (n - 1) {
                    let j = i - width * (n - 1);
                    assert(4 * i + 3 == 4 * width * (n - 1) + (4 * j + 3)) by (nonlinear_arith)
                        requires j == i - width * (n - 1);
                    assert(0 <= j < width);
                    assert(row[4 * j + 3] == 255u8);
                    assert(px[4 * i + 3] == row[4 * j + 3]);
                } else {
                    assert(4 * i + 3 < 4 * width * (n - 1)) by (nonlinear_arith)
                        requires 0 <= i < width * (n - 1);
                    assert(px0[4 * i + 3] == 255u8);
                    assert(px[4 * i + 3] == px0[4 * i + 3]);
                }
            }
        }
    } else {
        assert(4 * width * n == 0) by (nonlinear_arith)
            requires n == 0;
    }
}

/// An RGB (color type 2) PNG decodes to opaque pixels: when the header the chunks carry says
/// color type 2, every alpha byte of the decoded image is 255.
pub proof fn lemma_rgb_png_is_opaque(input: Seq<u8>)
    ensures
        decode_spec(input) matches Ok((w, h, px)) ==> (chunk_walk(input, 8, None, seq![]) matches Ok((Some((_, _, ct)), _))
            && ct == 2 ==> px.len() == 4 * w * h && forall|i: int| 0 <= i < w * h ==> #[trigger] px[4 * i + 3] == 255u8),
{
    if let Ok((w, h, px)) = decode_spec(input) {
        if let Ok((Some((w0, h0, ct)), idat)) = chunk_walk(input, 8, None, seq![]) {
            if ct == 2 {
                let rb = w0 * 3;
                if let Some(raw) = zlib_decompress_spec(idat, ((rb + 1) * h0) as nat) {
                    lemma_rgb_rows_opaque(raw, rb, w0 as int, h0 as int);
                    assert(w * h == w0 * h0);
                }
            }
        }
    }
}

/// What decoding `input` as PNG gives: `(width, height, RGBA pixels)` or the error.
pub open spec fn decode_spec(input: Seq<u8>) -> Result<(u32, u32, Seq<u8>), ConvertError> {
    if input.len() < 8 || input.take(8) != signature() {
        Err(malformed())
    } else {
        match chunk_walk(input, 8, None, seq![]) {
            Err(e) => Err(e),
            Ok((None, _)) => Err(malformed()),
            Ok((Some((w, h, ct)), idat)) => if !dims_ok(w as int, h as int) {
                Err(malformed())
            } else {
                let bpp: int = if ct == 6 { 4 } else { 3 };
                let rb = w * bpp;
                match zlib_decompress_spec(idat, ((rb + 1) * h) as nat) {
                    None => Err(malformed()),
                    Some(raw) => rows_result(raw, rb, bpp, w, h),
                }
            },
        }
    }
}

/// Whether `input` starts with the PNG signature.
pub fn has_signature(input: &[u8]) -> (r: bool)
    ensures
        r == (input@.len() >= 8 && input@.take(8) == signature()),
{
    if input.len() < 8 {
        return false;
    }
    let r = input[0] == 0x89 && input[1] == 0x50 && input[2] == 0x4E && input[3] == 0x47 && input[4] == 0x0D
        && input[5] == 0x0A && input[6] == 0x1A && input[7] == 0x0A;
    proof {
        if r {
            assert(input@.take(8) =~= signature());
        } else {
            if input@.take(8) == signature() {
                assert(input@.take(8)[0] == signature()[0]);
                assert(input@.take(8)[1] == signature()[1]);
                assert(input@.take(8)[2] == signature()[2]);
                assert(input@.take(8)[3] == signature()[3]);
                assert(input@.take(8)[4] == signature()[4]);
                assert(input@.take(8)[5] == signature()[5]);
                assert(input@.take(8)[6] == signature()[6]);
                assert(input@.take(8)[7] == signature()[7]);
            }
        }
    }
    r
}

/// Whether the four bytes of `input` at `i` are the chunk type `t0 t1 t2 t3`.
fn type_is(input: &[u8], i: usize, t0: u8, t1: u8, t2: u8, t3: u8) -> (r: bool)
    requires
        i + 4 <= input@.len(),
    ensures
        r == (input@[i as int] == t0 && input@[i + 1] == t1 && input@[i + 2] == t2 && input@[i + 3] == t3),
{
    input[i] == t0 && input[i + 1] == t1 && input[i + 2] == t2 && input[i + 3] == t3
}

/// Walks the chunks of `input` after the signature: the accepted header and the concatenated
/// `IDAT` bytes, or the error.
fn walk_chunks(input: &[u8]) -> (r: Result<(Option<(u32, u32, u8)>, Vec<u8>), ConvertError>)
    ensures
        match chunk_walk(input@, 8, None, seq![]) {
            Ok((h, d)) => r matches Ok((h2, d2)) && h2 == h && d2@ == d,
            Err(e) => r == Err::<(Option<(u32, u32, u8)>, Vec<u8>), ConvertError>(e),
        },
{
    let ghost walk0 = chunk_walk(input@, 8, None, seq![]);
    let n = input.len();
    let mut pos: usize = 8;
    let mut hdr: Option<(u32, u32, u8)> = None;
    let mut idat: Vec<u8> = Vec::new();
    loop
        invariant
            n == input@.len(),
            pos >= 8,
            walk0 == chunk_walk(input@, 8, None, seq![]),
            chunk_walk(input@, pos as int, hdr, idat@) == walk0,
        decreases n - pos,
    {
        proof {
            reveal(chunk_walk);
        }
        if pos >= n || n - pos < 8 {
            return Err(ConvertError::MalformedInput { format: Format::Png });
        }
        let length = crate::bytes::read_u32_be(input, pos);
        if length as u64 + 4 > (n - pos - 8) as u64 {
            return Err(ConvertError::MalformedInput { format: Format::Png });
        }
        let data_start = pos + 8;
        let data_end = data_start + length as usize;
        let chunk_type = &input[pos + 4..pos + 8];
        let data = &input[data_start..data_end];
        let stored_crc = crate::bytes::read_u32_be(input, data_end);
        if crc32_of_chunk(chunk_type, data) != stored_crc {
            return Err(ConvertError::MalformedInput { format: Format::Png });
        }
        if type_is(input, pos + 4, 0x49, 0x48, 0x44, 0x52) {
            if hdr.is_some() || length != 13 {
                return Err(ConvertError::MalformedInput { format: Format::Png });
            }
            let width = crate::bytes::read_u32_be(data, 0);
            let height = crate::bytes::read_u32_be(data, 4);
            let bit_depth = data[8];
            let color_type = data[9];
            let compression_method = data[10];
            let filter_method = data[11];
            let interlace_method = data[12];
            if compression_method != 0 || filter_method != 0 {
                return Err(ConvertError::MalformedInput { format: Format::Png });
            }
            if interlace_method != 0 {
                return Err(ConvertError::UnsupportedFeature { format: Format::Png, feature: "png-interlaced" });
            }
            if bit_depth != 8 {
                return Err(ConvertError::UnsupportedFeature { format: Format::Png, feature: "png-bit-depth" });
            }
            if color_type != 2 && color_type != 6 {
                return Err(ConvertError::UnsupportedFeature { format: Format::Png, feature: "png-color-type" });
            }
            hdr = Some((width, height, color_type));
        } else if type_is(input, pos + 4, 0x49, 0x44, 0x41, 0x54) {
            if hdr.is_none() {
                return Err(ConvertError::MalformedInput { format: Format::Png });
            }
            crate::bytes::push_all(&mut idat, data);
        } else if type_is(input, pos + 4, 0x49, 0x45, 0x4E, 0x44) {
            return Ok((hdr, idat));
        } else if input[pos + 4] & 0x20 == 0 {
            return Err(ConvertError::UnsupportedFeature { format: Format::Png, feature: "png-unknown-critical-chunk" });
        }
        pos = data_end + 4;
    }
}


/// The RGBA pixels of the first `n` rows have `n * width * 4` bytes, and the last row `rb`.
proof fn lemma_decode_rows_len(raw: Seq<u8>, rb: int, bpp: int, width: int, n: int)
    requires
        0 <= n,
        0 <= width,
        0 <= rb,
    ensures
        decode_rows(raw, rb, bpp, width, n) matches Some((last, px)) ==> last.len() == rb && px.len() == n * width * 4,
    decreases n,
{
    if n > 0 {
        lemma_decode_rows_len(raw, rb, bpp, width, n - 1);
        if let Some((prev, px)) = decode_rows(raw, rb, bpp, width, n - 1) {
            let ft = raw[(n - 1) * (rb + 1)];
            lemma_unfilter_len(ft, filtered_row(raw, rb, n - 1), prev, bpp, rb);
            assert((n - 1) * width * 4 + width * 4 == n * width * 4) by (nonlinear_arith);
        }
    } else {
        assert(n * width * 4 == 0) by (nonlinear_arith)
            requires n == 0;
    }
}

/// Once a row fails to reconstruct, every later row count fails too.
proof fn lemma_decode_rows_none(raw: Seq<u8>, rb: int, bpp: int, width: int, m: int, n: int)
    requires
        1 <= m <= n,
        decode_rows(raw, rb, bpp, width, m) is None,
    ensures
        decode_rows(raw, rb, bpp, width, n) is None,
    decreases n - m,
{
    if m < n {
        lemma_decode_rows_none(raw, rb, bpp, width, m, n - 1);
    }
}

/// The decode result once the `IDAT` stream has decompressed to `raw`.
pub open spec fn rows_result(raw: Seq<u8>, rb: int, bpp: int, w: u32, h: u32) -> Result<(u32, u32, Seq<u8>), ConvertError> {
    match decode_rows(raw, rb, bpp, w as int, h as int) {
        None => Err(malformed()),
        Some((_, px)) => Ok((w, h, px)),
    }
}

/// Decodes an 8-bit RGB or RGBA, non-interlaced PNG into a [`RawImage`].
///
/// Checks `options` for cancellation before starting and once per scanline, and reports the
/// first half of the progress of a decode-then-encode conversion once per scanline.
pub fn decode(input: &[u8], options: &ConvertOptions) -> (r: Result<RawImage, ConvertError>)
    ensures
        image_matches(r, decode_spec(input@)) || (options.may_cancel() && r == Err::<RawImage, ConvertError>(
            ConvertError::Cancelled,
        )),
{
    if options.is_cancelled() {
        return Err(ConvertError::Cancelled);
    }
    if !has_signature(input) {
        return Err(ConvertError::MalformedInput { format: Format::Png });
    }
    let (header, idat) = walk_chunks(input)?;
    let (width, height, color_type) = match header {
        Some(h) => h,
        None => {
            return Err(ConvertError::MalformedInput { format: Format::Png });
        },
    };
    let rgba_len = checked_rgba_len(width, height, Format::Png)?;
    let ghost w = width as int;
    let ghost h = height as int;
    let bpp: usize = if color_type == 6 { 4 } else { 3 };
    proof {
        assert(h <= 16777216) by (nonlinear_arith)
            requires w * h <= 16777216, w >= 1;
        assert(w <= 16777216) by (nonlinear_arith)
            requires w * h <= 16777216, h >= 1;
        assert((w * bpp + 1) * h <= 5 * 16777216) by (nonlinear_arith)
            requires w * h <= 16777216, h >= 1, w >= 1, bpp <= 4;
    }
    let width = width as usize;
    let height = height as usize;
    let row_bytes = width * bpp;
    let expected = (row_bytes + 1) * height;
    let raw = match zlib::zlib_decompress(idat.as_slice(), expected) {
        Some(v) => v,
        None => {
            return Err(ConvertError::MalformedInput { format: Format::Png });
        },
    };
    let ghost rb = row_bytes as int;
    proof {
        assert(decode_spec(input@) == rows_result(raw@, row_bytes as int, bpp as int, width as u32, height as u32));
    }
    let mut pixels: Vec<u8> = Vec::new();
    let mut prev: Vec<u8> = Vec::new();
    let mut k: usize = 0;
    while k < row_bytes
        invariant
            k <= row_bytes,
            prev@ == zero_row(k as int),
        decreases row_bytes - k,
    {
        prev.push(0);
        proof {
            assert(prev@ =~= zero_row(k + 1));
        }
        k = k + 1;
    }
    let mut y: usize = 0;
    while y < height
        invariant
            y <= height,
            width == w,
            height == h,
            bpp == 3 || bpp == 4,
            row_bytes == width * bpp,
            width >= 1,
            width * height <= 16777216,
            (row_bytes + 1) * height <= 5 * 16777216,
            raw@.len() == (row_bytes + 1) * height,
            decode_rows(raw@, row_bytes as int, bpp as int, width as int, y as int) == Some((prev@, pixels@)),
            height <= 16777216,
            decode_spec(input@) == rows_result(raw@, row_bytes as int, bpp as int, width as u32, height as u32),
        decreases height - y,
    {
        if options.is_cancelled() {
            return Err(ConvertError::Cancelled);
        }
        options.report_progress(y as u64, 2 * height as u64);
        proof {
            lemma_decode_rows_len(raw@, row_bytes as int, bpp as int, width as int, y as int);
            assert(y * (row_bytes + 1) + row_bytes + 1 <= (row_bytes + 1) * height) by (nonlinear_arith)
                requires y < height;
        }
        let row_start = y * (row_bytes + 1);
        let filter_type = raw[row_start];
        let filtered = &raw[row_start + 1..row_start + 1 + row_bytes];
        let cur = match unfilter_row(filter_type, filtered, prev.as_slice(), bpp) {
            Some(c) => c,
            None => {
                proof {
                    assert(((y + 1) - 1) * (row_bytes + 1) == y * (row_bytes + 1));
                    assert(decode_rows(raw@, row_bytes as int, bpp as int, width as int, y + 1) is None);
                    lemma_decode_rows_none(raw@, row_bytes as int, bpp as int, width as int, y + 1, height as int);
                }
                return Err(ConvertError::MalformedInput { format: Format::Png });
            },
        };
        proof {
            lemma_unfilter_len(filter_type, filtered@, prev@, bpp as int, row_bytes as int);
        }
        let ghost before = pixels@;
        let mut x: usize = 0;
        while x < width
            invariant
                x <= width,
                bpp == 3 || bpp == 4,
                row_bytes == width * bpp,
                cur@.len() == row_bytes,
                pixels@ == before + rgba_row(cur@, width as int, bpp as int).take(4 * x),
            decreases width - x,
        {
            proof {
                assert(x * bpp + bpp <= width * bpp) by (nonlinear_arith)
                    requires x < width, bpp >= 0;
            }
            let src = x * bpp;
            let a = if bpp == 4 { cur[src + 3] } else { 255u8 };
            pixels.push(cur[src]);
            pixels.push(cur[src + 1]);
            pixels.push(cur[src + 2]);
            pixels.push(a);
            proof {
                let row = rgba_row(cur@, width as int, bpp as int);
                assert((4 * x) / 4 == x && (4 * x + 1) / 4 == x && (4 * x + 2) / 4 == x && (4 * x + 3) / 4 == x);
                assert(row[4 * x] == cur@[src as int]);
                assert(row[4 * x + 1] == cur@[src + 1]);
                assert(row[4 * x + 2] == cur@[src + 2]);
                assert(row[4 * x + 3] == a);
                assert(row.take(4 * x + 4) =~= row.take(4 * x) + seq![cur@[src as int], cur@[src + 1], cur@[src + 2], a]);
            }
            x = x + 1;
        }
        proof {
            let row = rgba_row(cur@, width as int, bpp as int);
            assert(row.take(4 * width as int) =~= row);
            assert(filtered@ == filtered_row(raw@, row_bytes as int, y as int));
            assert(((y + 1) - 1) * (row_bytes + 1) == y * (row_bytes + 1));
        }
        prev = cur;
        y = y + 1;
    }
    options.report_progress(1, 2);
    proof {
        lemma_decode_rows_len(raw@, row_bytes as int, bpp as int, width as int, height as int);
    }
    RawImage::new(width as u32, height as u32, pixels, Format::Png)
}


// ─── Encoding ──────────────────────────────────────────────────────────────

/// The first `y` scanlines of an RGBA image `width` pixels wide, each with filter type `None`.
pub open spec fn scanlines(px: Seq<u8>, width: int, y: int) -> Seq<u8>
    decreases y,
{
    if y <= 0 {
        seq![]
    } else {
        scanlines(px, width, y - 1) + seq![0u8] + px.subrange((y - 1) * width * 4, y * width * 4)
    }
}

/// The `IHDR` payload [`encode`] writes: 8-bit RGBA, no interlacing.
pub open spec fn ihdr_data(width: int, height: int) -> Seq<u8> {
    be32(width) + be32(height) + seq![8u8, 6u8, 0u8, 0u8, 0u8]
}

/// What [`encode`] writes for a `width x height` image with RGBA pixels `px`.
pub open spec fn encode_spec(width: int, height: int, px: Seq<u8>) -> Seq<u8> {
    signature() + chunk_spec(ihdr_type(), ihdr_data(width, height)) + chunk_spec(
        idat_type(),
        zlib_stream(scanlines(px, width, height)),
    ) + chunk_spec(iend_type(), seq![])
}

/// The first `y` scanlines take `y * (4 * width + 1)` bytes.
pub proof fn lemma_scanlines_len(px: Seq<u8>, width: int, y: int)
    requires
        0 <= y,
        0 <= width,
        y * width * 4 <= px.len(),
    ensures
        scanlines(px, width, y).len() == y * (width * 4 + 1),
    decreases y,
{
    if y > 0 {
        assert((y - 1) * width * 4 <= y * width * 4) by (nonlinear_arith)
            requires y >= 1, width >= 0;
        lemma_scanlines_len(px, width, y - 1);
        assert((y - 1) * (width * 4 + 1) + 1 + (y * width * 4 - (y - 1) * width * 4) == y * (width * 4 + 1))
            by (nonlinear_arith);
    } else {
        assert(y * (width * 4 + 1) == 0) by (nonlinear_arith)
            requires y == 0;
    }
}

/// A four-byte chunk type.
fn chunk_type(a: u8, b: u8, c: u8, d: u8) -> (r: Vec<u8>)
    ensures
        r@ == seq![a, b, c, d],
{
    let mut v: Vec<u8> = Vec::new();
    v.push(a);
    v.push(b);
    v.push(c);
    v.push(d);
    proof {
        assert(v@ =~= seq![a, b, c, d]);
    }
    v
}

/// Encodes a [`RawImage`] as PNG: 8-bit RGBA, filter type `None` on every scanline, no
/// interlacing, the scanlines compressed with [`zlib::zlib_compress`].
///
/// Checks `options` for cancellation once per scanline and reports the second half of the
/// progress of a decode-then-encode conversion.
pub fn encode(image: &RawImage, options: &ConvertOptions) -> (r: Result<Vec<u8>, ConvertError>)
    requires
        image.pixels@.len() >= image.width * image.height * 4,
    ensures
        (r matches Ok(v) && v@ == encode_spec(image.width as int, image.height as int, image.pixels@)) || (
        options.may_cancel() && r == Err::<Vec<u8>, ConvertError>(ConvertError::Cancelled)),
{
    let ghost w = image.width as int;
    let ghost h = image.height as int;
    let total_len = image.pixels.len();
    let width = image.width as usize;
    let height = image.height as usize;
    let mut raw: Vec<u8> = Vec::new();
    let mut y: usize = 0;
    while y < height
        invariant
            y <= height,
            width == image.width,
            height == image.height,
            total_len == image.pixels@.len(),
            total_len >= width * height * 4,
            raw@ == scanlines(image.pixels@, width as int, y as int),
        decreases height - y,
    {
        if options.is_cancelled() {
            return Err(ConvertError::Cancelled);
        }
        options.report_progress(image.height as u64 + y as u64, 2 * (image.height as u64));
        proof {
            assert(width * 4 <= width * height * 4 && y * (width * 4) + width * 4 <= width * height * 4) by (nonlinear_arith)
                requires y < height;
        }
        let row_bytes = width * 4;
        raw.push(0);
        let row_start = y * row_bytes;
        crate::bytes::push_all(&mut raw, &image.pixels.as_slice()[row_start..row_start + row_bytes]);
        proof {
            assert(y * width * 4 == y * row_bytes && (y + 1) * width * 4 == y * row_bytes + row_bytes)
                by (nonlinear_arith)
                requires row_bytes == width * 4;
            assert(raw@ =~= scanlines(image.pixels@, width as int, y + 1));
        }
        y = y + 1;
    }
    let compressed = zlib::zlib_compress(raw.as_slice());
    let mut out: Vec<u8> = Vec::new();
    out.push(0x89);
    out.push(0x50);
    out.push(0x4E);
    out.push(0x47);
    out.push(0x0D);
    out.push(0x0A);
    out.push(0x1A);
    out.push(0x0A);
    proof {
        assert(out@ =~= signature());
    }
    let mut ihdr: Vec<u8> = Vec::new();
    crate::bytes::push_u32_be(&mut ihdr, image.width);
    crate::bytes::push_u32_be(&mut ihdr, image.height);
    ihdr.push(8);
    ihdr.push(6);
    ihdr.push(0);
    ihdr.push(0);
    ihdr.push(0);
    proof {
        assert(ihdr@ =~= ihdr_data(w, h));
    }
    let empty: Vec<u8> = Vec::new();
    write_chunk(&mut out, chunk_type(0x49, 0x48, 0x44, 0x52).as_slice(), ihdr.as_slice());
    write_chunk(&mut out, chunk_type(0x49, 0x44, 0x41, 0x54).as_slice(), compressed.as_slice());
    write_chunk(&mut out, chunk_type(0x49, 0x45, 0x4E, 0x44).as_slice(), empty.as_slice());
    options.report_progress(1, 1);
    proof {
        assert(empty@ =~= Seq::<u8>::empty());
        assert(out@ =~= encode_spec(w, h, image.pixels@));
    }
    Ok(out)
}


// ─── Round trip ──────────────────────────────────────────────────────────────

pub proof fn lemma_be32_read(s: Seq<u8>, i: int, v: int)
    requires
        0 <= v < 0x1_0000_0000,
        0 <= i,
        i + 4 <= s.len(),
        s.subrange(i, i + 4) == be32(v),
    ensures
        u32_be(s, i) == v,
{
    assert(s[i] == be32(v)[0]);
    assert(s[i + 1] == be32(v)[1]);
    assert(s[i + 2] == be32(v)[2]);
    assert(s[i + 3] == be32(v)[3]);
    let x = v as u32;
    assert(16777216 * ((x / 16777216) % 256) + 65536 * ((x / 65536) % 256) + 256 * ((x / 256) % 256) + x % 256 == x)
        by (bit_vector);
}

/// Reading back a chunk written by [`write_chunk`] at byte `pos` of `e`.
proof fn lemma_read_chunk(e: Seq<u8>, pos: int, t: Seq<u8>, data: Seq<u8>)
    requires
        0 <= pos,
        t.len() == 4,
        data.len() < 0x1_0000_0000,
        pos + 12 + data.len() <= e.len(),
        e.subrange(pos, pos + 12 + data.len()) == chunk_spec(t, data),
    ensures
        u32_be(e, pos) == data.len(),
        e.subrange(pos + 4, pos + 8) == t,
        type_at(e, pos + 4, t),
        e.subrange(pos + 8, pos + 8 + data.len()) == data,
        u32_be(e, pos + 8 + data.len()) == chunk_crc(t, data),
{
    let n = data.len() as int;
    let c = chunk_spec(t, data);
    assert(e.subrange(pos, pos + 4) =~= c.subrange(0, 4));
    assert(c.subrange(0, 4) =~= be32(n));
    lemma_be32_read(e, pos, n);
    assert(e.subrange(pos + 4, pos + 8) =~= c.subrange(4, 8));
    assert(c.subrange(4, 8) =~= t);
    assert(e[pos + 4] == t[0] && e[pos + 5] == t[1] && e[pos + 6] == t[2] && e[pos + 7] == t[3]) by {
        assert(e.subrange(pos + 4, pos + 8)[0] == t[0]);
        assert(e.subrange(pos + 4, pos + 8)[1] == t[1]);
        assert(e.subrange(pos + 4, pos + 8)[2] == t[2]);
        assert(e.subrange(pos + 4, pos + 8)[3] == t[3]);
    }
    assert(e.subrange(pos + 8, pos + 8 + n) =~= c.subrange(8, 8 + n));
    assert(c.subrange(8, 8 + n) =~= data);
    assert(e.subrange(pos + 8 + n, pos + 12 + n) =~= c.subrange(8 + n, 12 + n));
    assert(c.subrange(8 + n, 12 + n) =~= be32(chunk_crc(t, data) as int));
    lemma_be32_read(e, pos + 8 + n, chunk_crc(t, data) as int);
}

proof fn lemma_scanlines_prefix(px: Seq<u8>, width: int, y: int, total: int)
    requires
        0 <= y <= total,
        0 <= width,
        total * width * 4 <= px.len(),
    ensures
        scanlines(px, width, total).take(y * (width * 4 + 1)) == scanlines(px, width, y),
    decreases total,
{
    lemma_scanlines_len(px, width, total);
    if y == total {
        assert(scanlines(px, width, total).take(y * (width * 4 + 1)) =~= scanlines(px, width, y));
    } else {
        assert((total - 1) * width * 4 <= total * width * 4) by (nonlinear_arith)
            requires total >= 1, width >= 0;
        lemma_scanlines_prefix(px, width, y, total - 1);
        lemma_scanlines_len(px, width, total - 1);
        assert(y * (width * 4 + 1) <= (total - 1) * (width * 4 + 1)) by (nonlinear_arith)
            requires y <= total - 1, width >= 0;
        assert(scanlines(px, width, total).take(y * (width * 4 + 1)) =~= scanlines(px, width, total - 1).take(
            y * (width * 4 + 1),
        ));
    }
}

/// Scanline `y` of the encoding is filter type `None` followed by image row `y`.
proof fn lemma_scanline_row(px: Seq<u8>, width: int, y: int, total: int)
    requires
        0 <= y < total,
        0 <= width,
        total * width * 4 <= px.len(),
    ensures
        scanlines(px, width, total)[y * (width * 4 + 1)] == 0,
        filtered_row(scanlines(px, width, total), width * 4, y) == px.subrange(y * width * 4, (y + 1) * width * 4),
{
    let raw = scanlines(px, width, total);
    let rb = width * 4;
    assert((y + 1) * width * 4 <= total * width * 4) by (nonlinear_arith)
        requires y + 1 <= total, width >= 0;
    lemma_scanlines_prefix(px, width, y + 1, total);
    assert(y * width * 4 <= (y + 1) * width * 4) by (nonlinear_arith)
        requires y >= 0, width >= 0;
    lemma_scanlines_len(px, width, y);
    lemma_scanlines_len(px, width, total);
    let pre = scanlines(px, width, y + 1);
    assert(pre == scanlines(px, width, y) + seq![0u8] + px.subrange(y * width * 4, (y + 1) * width * 4));
    assert((y + 1) * (rb + 1) == y * (rb + 1) + 1 + rb) by (nonlinear_arith);
    assert((y + 1) * width * 4 - y * width * 4 == rb) by (nonlinear_arith)
        requires rb == width * 4;
    assert(y * (rb + 1) < (y + 1) * (rb + 1)) by (nonlinear_arith)
        requires rb >= 0;
    let k = y * (rb + 1);
    assert((y + 1) * (rb + 1) <= total * (rb + 1)) by (nonlinear_arith)
        requires y + 1 <= total, rb >= 0;
    assert(raw.len() == total * (rb + 1));
    assert(raw.take(k + 1 + rb) == pre);
    assert(pre.len() == k + 1 + rb);
    assert(raw.take(k + 1 + rb)[k] == raw[k]);
    assert(pre[k] == 0);
    assert forall|i: int| 0 <= i < rb implies #[trigger] filtered_row(raw, rb, y)[i] == pre[k + 1 + i] by {
        assert(raw.take(k + 1 + rb)[k + 1 + i] == raw[k + 1 + i]);
    }
    assert(filtered_row(raw, rb, y) =~= pre.subrange(k + 1, k + 1 + rb));
    assert(pre.subrange(y * (rb + 1) + 1, y * (rb + 1) + 1 + rb) =~= px.subrange(y * width * 4, (y + 1) * width * 4));
}

proof fn lemma_unfilter_none(f: Seq<u8>, prev: Seq<u8>, bpp: int, i: int)
    requires
        0 <= i <= f.len(),
    ensures
        unfilter_spec(0, f, prev, bpp, i) == f.take(i),
    decreases i,
{
    if i > 0 {
        lemma_unfilter_none(f, prev, bpp, i - 1);
        assert(f.take(i - 1).push(f[i - 1]) =~= f.take(i));
    } else {
        assert(f.take(0) =~= Seq::<u8>::empty());
    }
}

/// Reconstructing the scanlines [`encode`] writes gives back the image rows.
#[verifier::spinoff_prover]
proof fn lemma_decode_scanlines(px: Seq<u8>, width: int, y: int, total: int)
    requires
        0 <= y <= total,
        1 <= width,
        px.len() == total * width * 4,
    ensures
        decode_rows(scanlines(px, width, total), width * 4, 4, width, y) == Some((
            if y == 0 { zero_row(width * 4) } else { px.subrange((y - 1) * width * 4, y * width * 4) },
            px.take(y * width * 4),
        )),
    decreases y,
{
    let raw = scanlines(px, width, total);
    let rb = width * 4;
    if y == 0 {
        assert(px.take(0) =~= Seq::<u8>::empty());
    } else {
        lemma_decode_scanlines(px, width, y - 1, total);
        assert(total * width * 4 <= px.len());
        lemma_scanline_row(px, width, y - 1, total);
        let prev = if y - 1 == 0 { zero_row(rb) } else { px.subrange((y - 2) * width * 4, (y - 1) * width * 4) };
        let f = filtered_row(raw, rb, y - 1);
        assert((y - 1) * width * 4 + rb == y * width * 4) by (nonlinear_arith)
            requires rb == width * 4;
        assert(y * width * 4 <= total * width * 4) by (nonlinear_arith)
            requires y <= total, width >= 0;
        assert(((y - 1) + 1) * width * 4 == y * width * 4);
        assert(f == px.subrange((y - 1) * width * 4, y * width * 4));
        assert(f.len() == rb);
        assert(raw[(y - 1) * (rb + 1)] == 0);
        lemma_unfilter_none(f, prev, 4, rb);
        assert(f.take(rb) =~= f);
        let cur = unfilter_spec(0, f, prev, 4, rb);
        assert(cur == f);
        assert(rgba_row(cur, width, 4) =~= cur) by {
            assert forall|i: int| 0 <= i < rb implies #[trigger] rgba_row(cur, width, 4)[i] == cur[i] by {
                assert((i / 4) * 4 + i % 4 == i);
            }
        }
        assert(px.take((y - 1) * width * 4) + cur =~= px.take(y * width * 4));
        assert(decode_rows(raw, rb, 4, width, y) == Some((cur, px.take((y - 1) * width * 4) + rgba_row(cur, width, 4))));
    }
}

/// The chunks [`encode`] writes walk to its header and its compressed scanlines.
#[verifier::rlimit(50)]
#[verifier::spinoff_prover]
proof fn lemma_walk_encoded(width: u32, height: u32, px: Seq<u8>)
    requires
        dims_ok(width as int, height as int),
        px.len() == width * height * 4,
    ensures
        chunk_walk(encode_spec(width as int, height as int, px), 8, None, seq![]) == Ok::<
            (Option<(u32, u32, u8)>, Seq<u8>),
            ConvertError,
        >((Some((width, height, 6u8)), zlib_stream(scanlines(px, width as int, height as int)))),
{
    let w = width as int;
    let h = height as int;
    let e = encode_spec(w, h, px);
    let ihdr = ihdr_data(w, h);
    let raw = scanlines(px, w, h);
    let z = zlib_stream(raw);
    assert(px.len() == h * w * 4) by (nonlinear_arith)
        requires px.len() == w * h * 4;
    lemma_scanlines_len(px, w, h);
    assert(h * (w * 4 + 1) <= 5 * 16777216) by (nonlinear_arith)
        requires w * h <= 16777216, w >= 1, h >= 1;
    zlib::lemma_zlib_stream_len(raw);
    let len = z.len() as int;
    let c1 = chunk_spec(ihdr_type(), ihdr);
    let c2 = chunk_spec(idat_type(), z);
    let c3 = chunk_spec(iend_type(), seq![]);
    assert(e == signature() + c1 + c2 + c3);
    assert(c1.len() == 25);
    assert(c2.len() == 12 + len);
    assert(c3.len() == 12);
    assert(e.take(8) =~= signature());
    assert(e.subrange(8, 33) =~= c1);
    assert(e.subrange(33, 45 + len) =~= c2);
    assert(e.subrange(45 + len, 57 + len) =~= c3);
    lemma_read_chunk(e, 8, ihdr_type(), ihdr);
    lemma_read_chunk(e, 33, idat_type(), z);
    lemma_read_chunk(e, 45 + len, iend_type(), seq![]);
    assert(ihdr.subrange(0, 4) =~= be32(w));
    assert(ihdr.subrange(4, 8) =~= be32(h));
    lemma_be32_read(ihdr, 0, w);
    lemma_be32_read(ihdr, 4, h);
    assert(ihdr_check(ihdr) == Ok::<(u32, u32, u8), ConvertError>((width, height, 6u8)));
    let hd = Some((width, height, 6u8));
    assert(seq![] + z =~= z);
    assert(chunk_walk(e, 45 + len, hd, z) == Ok::<(Option<(u32, u32, u8)>, Seq<u8>), ConvertError>((hd, z))) by {
        reveal(chunk_walk);
    }
    assert(chunk_walk(e, 33, hd, seq![]) == chunk_walk(e, 45 + len, hd, z)) by {
        reveal(chunk_walk);
    }
    assert(chunk_walk(e, 8, None, seq![]) == chunk_walk(e, 33, hd, seq![])) by {
        reveal(chunk_walk);
    }
}

/// What [`encode`] writes, [`decode`] reads back unchanged: decoding the PNG encoding of a valid
/// image gives the same width, height and pixels.
pub proof fn lemma_png_round_trip(width: u32, height: u32, px: Seq<u8>)
    requires
        dims_ok(width as int, height as int),
        px.len() == width * height * 4,
    ensures
        decode_spec(encode_spec(width as int, height as int, px)) == Ok::<(u32, u32, Seq<u8>), ConvertError>(
            (width, height, px),
        ),
{
    let w = width as int;
    let h = height as int;
    let raw = scanlines(px, w, h);
    assert(px.len() == h * w * 4) by (nonlinear_arith)
        requires px.len() == w * h * 4;
    lemma_scanlines_len(px, w, h);
    lemma_walk_encoded(width, height, px);
    let e = encode_spec(w, h, px);
    let z = zlib_stream(raw);
    assert(e.take(8) =~= signature());
    assert((w * 4 + 1) * h == h * (w * 4 + 1)) by (nonlinear_arith);
    zlib::lemma_zlib_round_trip(raw);
    assert(zlib_decompress_spec(z, ((w * 4 + 1) * h) as nat) == Some(raw));
    lemma_decode_scanlines(px, w, h, h);
    assert(px.take(h * w * 4) =~= px);
    assert(rows_result(raw, w * 4, 4, width, height) == Ok::<(u32, u32, Seq<u8>), ConvertError>((width, height, px)));
}

} // verus!
