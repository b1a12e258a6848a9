//! ICO decode and encode: a thin container around PNG or raw 32-bit DIB entries.
//!
//! Decoding picks the entry with the largest declared `width x height` (the first of equals)
//! and decodes only that one: a PNG entry through [`super::png`], a raw entry as a
//! `BITMAPINFOHEADER` and bottom-up BGRA rows (the AND mask is not read). Encoding always writes
//! one PNG entry.

use vstd::prelude::*;

use super::png;
use super::raster::{checked_rgba_len, dims_ok, image_matches, RawImage};
use crate::bytes::{i32_le, le16, le32, read_i32_le, read_u16_le, read_u32_le, u16_le, u32_le};
use crate::{ConvertError, ConvertOptions, Format};

verus! {

/// Length of `ICONDIR`.
pub const ICONDIR_LEN: usize = 6;
/// Length of one `ICONDIRENTRY`.
pub const ICONDIRENTRY_LEN: usize = 16;
/// Length of the `BITMAPINFOHEADER` a raw entry starts with.
pub const DIB_HEADER_LEN: usize = 40;
/// The largest width or height one `ICONDIRENTRY` byte can declare.
pub const MAX_ICO_DIMENSION: u32 = 256;

/// The `MalformedInput` error of this format.
pub open spec fn malformed() -> ConvertError {
    ConvertError::MalformedInput { format: Format::Ico }
}

/// A directory byte's dimension: `0` means 256.
pub open spec fn declared(b: u8) -> int {
    if b == 0 {
        256
    } else {
        b as int
    }
}

/// Where directory entry `i` starts.
pub open spec fn entry_at(i: int) -> int {
    6 + 16 * i
}

/// The declared area of directory entry `i`.
pub open spec fn entry_area(d: Seq<u8>, i: int) -> int {
    declared(d[entry_at(i)]) * declared(d[entry_at(i) + 1])
}

/// Of the first `k` entries, the first one with the largest declared area.
pub open spec fn best_entry(d: Seq<u8>, k: int) -> int
    decreases k,
{
    if k <= 1 {
        0
    } else {
        let b = best_entry(d, k - 1);
        if entry_area(d, k - 1) > entry_area(d, b) {
            k - 1
        } else {
            b
        }
    }
}

/// A PNG entry's error, reported as this format's.
pub open spec fn tag_as_ico_spec(e: ConvertError) -> ConvertError {
    match e {
        ConvertError::MalformedInput { .. } => ConvertError::MalformedInput { format: Format::Ico },
        ConvertError::UnsupportedFeature { feature, .. } => ConvertError::UnsupportedFeature { format: Format::Ico, feature },
        other => other,
    }
}

/// A decode result with its error reported as this format's.
pub open spec fn tagged(s: Result<(u32, u32, Seq<u8>), ConvertError>) -> Result<(u32, u32, Seq<u8>), ConvertError> {
    match s {
        Ok(v) => Ok(v),
        Err(e) => Err(tag_as_ico_spec(e)),
    }
}

/// Image row `y` of a raw entry `w` pixels wide and `h` high: BGRA from stored row `h - 1 - y`.
pub open spec fn dib_row(data: Seq<u8>, w: int, h: int, y: int) -> Seq<u8> {
    Seq::new((w * 4) as nat, |i: int| {
        let src = 40 + (h - 1 - y) * (4 * w) + 4 * (i / 4);
        if i % 4 == 0 {
            data[src + 2]
        } else if i % 4 == 1 {
            data[src + 1]
        } else if i % 4 == 2 {
            data[src]
        } else {
            data[src + 3]
        }
    })
}

/// Image rows `0..y` of a raw entry, concatenated.
pub open spec fn dib_rows(data: Seq<u8>, w: int, h: int, y: int) -> Seq<u8>
    decreases y,
{
    if y <= 0 {
        seq![]
    } else {
        dib_rows(data, w, h, y - 1) + dib_row(data, w, h, y - 1)
    }
}

/// What decoding a raw (DIB) entry gives: a 40-byte `BITMAPINFOHEADER` with one plane, no
/// compression and 32 bits per pixel; a positive width and a positive, even height counting the
/// AND mask too (the image is half as high); a size a decoder accepts; and all the BGRA rows.
pub open spec fn dib_spec(data: Seq<u8>) -> Result<(u32, u32, Seq<u8>), ConvertError> {
    if data.len() < 40 {
        Err(malformed())
    } else if u32_le(data, 0) != 40 {
        Err(ConvertError::UnsupportedFeature { format: Format::Ico, feature: "ico-dib-header-variant" })
    } else if u16_le(data, 12) != 1 {
        Err(malformed())
    } else if u32_le(data, 16) != 0 {
        Err(ConvertError::UnsupportedFeature { format: Format::Ico, feature: "ico-dib-compression" })
    } else if u16_le(data, 14) != 32 {
        Err(ConvertError::UnsupportedFeature { format: Format::Ico, feature: "ico-dib-bit-depth" })
    } else if i32_le(data, 4) <= 0 || i32_le(data, 8) <= 0 || i32_le(data, 8) % 2 != 0 {
        Err(malformed())
    } else {
        let w = i32_le(data, 4);
        let h = i32_le(data, 8) / 2;
        if !dims_ok(w, h) || 40 + 4 * w * h > data.len() {
            Err(malformed())
        } else {
            Ok((w as u32, h as u32, dib_rows(data, w, h, h)))
        }
    }
}

/// What decoding an ICO file gives: an `ICONDIR` of type 1 (type 2, a cursor, is unsupported)
/// with at least one entry, all entries present; the entry with the largest declared area (the
/// first of equals), whose data must lie inside the file; decoded as PNG if it starts with the
/// PNG signature (errors reported as this format's), else as a raw DIB.
pub open spec fn decode_spec(input: Seq<u8>) -> Result<(u32, u32, Seq<u8>), ConvertError> {
    if input.len() < 6 {
        Err(malformed())
    } else if u16_le(input, 2) == 2 {
        Err(ConvertError::UnsupportedFeature { format: Format::Ico, feature: "ico-cursor-format" })
    } else if u16_le(input, 2) != 1 || u16_le(input, 4) == 0 || entry_at(u16_le(input, 4)) > input.len() {
        Err(malformed())
    } else {
        let b = best_entry(input, u16_le(input, 4));
        let size = u32_le(input, entry_at(b) + 8);
        let off = u32_le(input, entry_at(b) + 12);
        if off + size > input.len() {
            Err(malformed())
        } else {
            let entry = input.subrange(off, off + size);
            if entry.len() >= 8 && entry.take(8) == png::signature() {
                tagged(png::decode_spec(entry))
            } else {
                dib_spec(entry)
            }
        }
    }
}

/// A directory byte's dimension: `0` means 256.
pub fn declared_dimension(byte: u8) -> (r: u32)
    ensures
        r == declared(byte),
        1 <= r <= 256,
{
    if byte == 0 {
        256
    } else {
        byte as u32
    }
}

/// The directory byte for a dimension: `0` for 256 or more.
pub fn encoded_dimension(value: u32) -> (r: u8)
    ensures
        r == (if value >= 256 { 0 } else { value as int }),
{
    if value >= 256 {
        0
    } else {
        value as u8
    }
}

/// Reports a PNG entry's error as this format's (see [`tag_as_ico_spec`]).
pub fn tag_as_ico(err: ConvertError) -> (r: ConvertError)
    ensures
        r == tag_as_ico_spec(err),
{
    match err {
        ConvertError::MalformedInput { .. } => ConvertError::MalformedInput { format: Format::Ico },
        ConvertError::UnsupportedFeature { feature, .. } => ConvertError::UnsupportedFeature { format: Format::Ico, feature },
        other => other,
    }
}

proof fn lemma_dib_rows_len(data: Seq<u8>, w: int, h: int, y: int)
    requires
        0 <= y,
        w >= 0,
    ensures
        dib_rows(data, w, h, y).len() == y * w * 4,
    decreases y,
{
    if y > 0 {
        lemma_dib_rows_len(data, w, h, y - 1);
        assert((y - 1) * w * 4 + w * 4 == y * w * 4) by (nonlinear_arith);
    } else {
        assert(y * w * 4 == 0) by (nonlinear_arith)
            requires y == 0;
    }
}

/// Decodes a raw 32-bit DIB entry (see [`dib_spec`]), checking for cancellation before each row
/// and reporting the first half of a decode-then-encode conversion's progress.
pub fn decode_dib_entry(data: &[u8], options: &ConvertOptions) -> (r: Result<RawImage, ConvertError>)
    ensures
        image_matches(r, dib_spec(data@)) || (options.may_cancel() && r == Err::<RawImage, ConvertError>(ConvertError::Cancelled)),
{
    if data.len() < DIB_HEADER_LEN {
        return Err(ConvertError::MalformedInput { format: Format::Ico });
    }
    let bi_size = read_u32_le(data, 0);
    if bi_size != 40 {
        return Err(ConvertError::UnsupportedFeature { format: Format::Ico, feature: "ico-dib-header-variant" });
    }
    let bi_width = read_i32_le(data, 4);
    let bi_height = read_i32_le(data, 8);
    let bi_planes = read_u16_le(data, 12);
    let bi_bit_count = read_u16_le(data, 14);
    let bi_compression = read_u32_le(data, 16);
    if bi_planes != 1 {
        return Err(ConvertError::MalformedInput { format: Format::Ico });
    }
    if bi_compression != 0 {
        return Err(ConvertError::UnsupportedFeature { format: Format::Ico, feature: "ico-dib-compression" });
    }
    if bi_bit_count != 32 {
        return Err(ConvertError::UnsupportedFeature { format: Format::Ico, feature: "ico-dib-bit-depth" });
    }
    if bi_width <= 0 || bi_height <= 0 || bi_height % 2 != 0 {
        return Err(ConvertError::MalformedInput { format: Format::Ico });
    }
    let width = bi_width as u32;
    let height = (bi_height as u32) / 2;
    checked_rgba_len(width, height, Format::Ico)?;
    let w = width as u64;
    let h = height as u64;
    proof {
        assert(w * h <= 16777216);
        assert(4 * w * h <= 4 * 16777216) by (nonlinear_arith)
            requires w * h <= 16777216;
    }
    let pixel_end = 40 + 4 * w * h;
    if pixel_end > data.len() as u64 {
        return Err(ConvertError::MalformedInput { format: Format::Ico });
    }
    let width = width as usize;
    let height = height as usize;
    proof {
        assert(h <= 16777216) by (nonlinear_arith)
            requires w * h <= 16777216, w >= 1;
        assert(w <= 16777216) by (nonlinear_arith)
            requires w * h <= 16777216, h >= 1;
    }
    let row_bytes = 4 * width;
    proof {
        assert(40 + row_bytes * height <= data@.len()) by (nonlinear_arith)
            requires row_bytes == 4 * width, 40 + 4 * w * h <= data@.len(), width == w, height == h;
    }
    let dlen = data.len();
    let mut pixels: Vec<u8> = Vec::new();
    let mut y: usize = 0;
    while y < height
        invariant
            dlen == data@.len(),
            y <= height,
            row_bytes == 4 * width,
            40 + row_bytes * height <= data@.len(),
            width >= 1,
            height <= 16777216,
            width * height <= 16777216,
            pixels@ == dib_rows(data@, width as int, height as int, y as int),
        decreases height - y,
    {
        if options.is_cancelled() {
            return Err(ConvertError::Cancelled);
        }
        options.report_progress(y as u64, 2 * height as u64);
        let file_row = height - 1 - y;
        proof {
            assert(file_row * row_bytes + row_bytes <= row_bytes * height) by (nonlinear_arith)
                requires file_row < height, file_row >= 0;
        }
        let row_start = 40 + file_row * row_bytes;
        let ghost before = pixels@;
        let mut x: usize = 0;
        while x < width
            invariant
                x <= width,
                dlen == data@.len(),
                y < height,
                file_row == height - 1 - y,
                row_start == 40 + file_row * row_bytes,
                row_start + row_bytes <= data@.len(),
                row_bytes == 4 * width,
                pixels@ == before + dib_row(data@, width as int, height as int, y as int).take(4 * x),
            decreases width - x,
        {
            let src = row_start + x * 4;
            let b = data[src];
            let g = data[src + 1];
            let r = data[src + 2];
            let a = data[src + 3];
            pixels.push(r);
            pixels.push(g);
            pixels.push(b);
            pixels.push(a);
            proof {
                let row = dib_row(data@, width as int, height as int, y as int);
                assert(row.take(4 * x + 4) =~= row.take(4 * x) + seq![r, g, b, a]);
            }
            x = x + 1;
        }
        proof {
            let row = dib_row(data@, width as int, height as int, y as int);
            assert(row.take(4 * width as int) =~= row);
        }
        y = y + 1;
    }
    proof {
        lemma_dib_rows_len(data@, width as int, height as int, height as int);
        assert(height * width * 4 == width * height * 4) by (nonlinear_arith);
        assert(width as int == i32_le(data@, 4));
        assert(height as int == i32_le(data@, 8) / 2);
    }
    options.report_progress(1, 2);
    RawImage::new(width as u32, height as u32, pixels, Format::Ico)
}

/// The index of the entry [`decode`] picks (see [`best_entry`]).
fn pick_entry(input: &[u8], count: usize) -> (r: usize)
    requires
        1 <= count <= 65535,
        entry_at(count as int) <= input@.len(),
    ensures
        r == best_entry(input@, count as int),
        r < count,
{
    let mut best: usize = 0;
    let dw = declared_dimension(input[6]);
    let dh = declared_dimension(input[7]);
    proof {
        assert(dw * dh <= 65536) by (nonlinear_arith)
            requires dw <= 256, dh <= 256;
    }
    let mut best_area: u32 = dw * dh;
    let mut i: usize = 1;
    while i < count
        invariant
            1 <= i <= count <= 65535,
            entry_at(count as int) <= input@.len(),
            best == best_entry(input@, i as int),
            best < i,
            best_area == entry_area(input@, best as int),
        decreases count - i,
    {
        let off = 6 + i * 16;
        let dw = declared_dimension(input[off]);
        let dh = declared_dimension(input[off + 1]);
        proof {
            assert(dw * dh <= 65536) by (nonlinear_arith)
                requires dw <= 256, dh <= 256;
        }
        let area = dw * dh;
        if area > best_area {
            best = i;
            best_area = area;
        }
        i = i + 1;
    }
    best
}

/// Decodes the largest image of an ICO file (see [`decode_spec`]). Checks `options` for
/// cancellation before starting and while decoding.
pub fn decode(input: &[u8], options: &ConvertOptions) -> (r: Result<RawImage, ConvertError>)
    ensures
        image_matches(r, decode_spec(input@)) || (options.may_cancel() && r == Err::<RawImage, ConvertError>(
            ConvertError::Cancelled,
        )),
{
    if options.is_cancelled() {
        return Err(ConvertError::Cancelled);
    }
    if input.len() < ICONDIR_LEN {
        return Err(ConvertError::MalformedInput { format: Format::Ico });
    }
    let resource_type = read_u16_le(input, 2);
    let count = read_u16_le(input, 4) as usize;
    if resource_type == 2 {
        return Err(ConvertError::UnsupportedFeature { format: Format::Ico, feature: "ico-cursor-format" });
    }
    if resource_type != 1 {
        return Err(ConvertError::MalformedInput { format: Format::Ico });
    }
    if count == 0 {
        return Err(ConvertError::MalformedInput { format: Format::Ico });
    }
    let entries_end = ICONDIR_LEN + count * ICONDIRENTRY_LEN;
    if entries_end > input.len() {
        return Err(ConvertError::MalformedInput { format: Format::Ico });
    }
    let best = pick_entry(input, count);
    let entry_off = 6 + best * 16;
    let size = read_u32_le(input, entry_off + 8) as usize;
    let offset = read_u32_le(input, entry_off + 12) as usize;
    if offset > input.len() || size > input.len() - offset {
        return Err(ConvertError::MalformedInput { format: Format::Ico });
    }
    let entry = vstd::slice::slice_subrange(input, offset, offset + size);
    if png::has_signature(entry) {
        match png::decode(entry, options) {
            Ok(img) => Ok(img),
            Err(e) => Err(tag_as_ico(e)),
        }
    } else {
        decode_dib_entry(entry, options)
    }
}

/// The file [`encode`] writes around the PNG bytes `png` of a `width x height` image: an
/// `ICONDIR` of type 1 with one entry, the entry (dimensions, one plane, 32 bits, the PNG's
/// length and its offset 22), then the PNG.
pub open spec fn container_spec(width: int, height: int, png: Seq<u8>) -> Seq<u8> {
    le16(0) + le16(1) + le16(1) + seq![
        (if width >= 256 { 0 } else { width }) as u8,
        (if height >= 256 { 0 } else { height }) as u8,
        0u8,
        0u8,
    ] + le16(1) + le16(32) + le32((png.len() as u32) as int) + le32(22) + png
}

/// The error for an image too large for one directory entry.
pub open spec fn too_large() -> ConvertError {
    ConvertError::UnsupportedFeature { format: Format::Ico, feature: "ico-size-too-large" }
}

/// Encodes an image as a single-entry ICO holding its PNG encoding (see [`container_spec`]);
/// an image wider or higher than [`MAX_ICO_DIMENSION`] is refused. Checks `options` for
/// cancellation before starting and while encoding.
pub fn encode(image: &RawImage, options: &ConvertOptions) -> (r: Result<Vec<u8>, ConvertError>)
    requires
        image.width <= MAX_ICO_DIMENSION && image.height <= MAX_ICO_DIMENSION ==> image.pixels@.len() >= image.width
            * image.height * 4,
    ensures
        (options.may_cancel() && r == Err::<Vec<u8>, ConvertError>(ConvertError::Cancelled)) || if image.width > MAX_ICO_DIMENSION
            || image.height > MAX_ICO_DIMENSION {
            r == Err::<Vec<u8>, ConvertError>(too_large())
        } else {
            r matches Ok(v) && v@ == container_spec(
                image.width as int,
                image.height as int,
                png::encode_spec(image.width as int, image.height as int, image.pixels@),
            )
        },
{
    if options.is_cancelled() {
        return Err(ConvertError::Cancelled);
    }
    if image.width > MAX_ICO_DIMENSION || image.height > MAX_ICO_DIMENSION {
        return Err(ConvertError::UnsupportedFeature { format: Format::Ico, feature: "ico-size-too-large" });
    }
    let png_bytes = png::encode(image, options)?;
    let mut out: Vec<u8> = Vec::new();
    crate::bytes::push_u16_le(&mut out, 0);
    crate::bytes::push_u16_le(&mut out, 1);
    crate::bytes::push_u16_le(&mut out, 1);
    out.push(encoded_dimension(image.width));
    out.push(encoded_dimension(image.height));
    out.push(0);
    out.push(0);
    crate::bytes::push_u16_le(&mut out, 1);
    crate::bytes::push_u16_le(&mut out, 32);
    crate::bytes::push_u32_le(&mut out, png_bytes.len() as u32);
    crate::bytes::push_u32_le(&mut out, 22);
    crate::bytes::push_all(&mut out, png_bytes.as_slice());
    proof {
        assert(out@ =~= container_spec(
            image.width as int,
            image.height as int,
            png::encode_spec(image.width as int, image.height as int, image.pixels@),
        ));
    }
    Ok(out)
}


/// What [`encode`] writes, [`decode`] reads back unchanged: decoding the ICO encoding of a valid
/// image no larger than 256 x 256 gives the same width, height and pixels.
pub proof fn lemma_ico_round_trip(width: u32, height: u32, px: Seq<u8>)
    requires
        dims_ok(width as int, height as int),
        px.len() == width * height * 4,
        width <= MAX_ICO_DIMENSION,
        height <= MAX_ICO_DIMENSION,
    ensures
        decode_spec(container_spec(width as int, height as int, png::encode_spec(width as int, height as int, px)))
            == Ok::<(u32, u32, Seq<u8>), ConvertError>((width, height, px)),
{
    let w = width as int;
    let h = height as int;
    let p = png::encode_spec(w, h, px);
    png::lemma_png_round_trip(width, height, px);
    let raw = png::scanlines(px, w, h);
    png::lemma_scanlines_len(px, w, h);
    super::zlib::lemma_zlib_stream_len(raw);
    assert(h * (w * 4 + 1) <= 256 * 1025) by (nonlinear_arith)
        requires 1 <= w <= 256, 1 <= h <= 256;
    assert(p.len() < 0x1_0000_0000);
    assert((p.len() as u32) as int == p.len());
    let c = container_spec(w, h, p);
    assert(c.len() == 22 + p.len());
    assert(c.subrange(2, 4) =~= le16(1));
    crate::bytes::lemma_le16_read(c, 2, 1);
    assert(c.subrange(4, 6) =~= le16(1));
    crate::bytes::lemma_le16_read(c, 4, 1);
    assert(c.subrange(14, 18) =~= le32(p.len() as int));
    crate::bytes::lemma_le32_read(c, 14, p.len() as int);
    assert(c.subrange(18, 22) =~= le32(22));
    crate::bytes::lemma_le32_read(c, 18, 22);
    assert(best_entry(c, 1) == 0);
    assert(c.subrange(22, 22 + p.len() as int) =~= p);
    assert(p.take(8) =~= png::signature());
}

} // verus!
