//! Uncompressed 24-bit BMP (`BITMAPFILEHEADER` + 40-byte `BITMAPINFOHEADER`, `BI_RGB`,
//! bottom-up rows) decode and encode. Other BMP variants are reported as unsupported features.

use vstd::prelude::*;

use super::raster::{checked_rgba_len, dims_ok, RawImage};
use crate::bytes::{i32_le, le16, le32, read_i32_le, read_u16_le, read_u32_le, u16_le, u32_le};
use crate::{ConvertError, Format};

verus! {

/// Length of `BITMAPFILEHEADER`.
pub const FILE_HEADER_LEN: usize = 14;
/// Length of `BITMAPINFOHEADER`.
pub const INFO_HEADER_LEN: usize = 40;

/// Bytes in one stored row of a `width`-pixel 24-bit image: `3 * width` rounded up to 4.
pub open spec fn row_stride(width: int) -> int {
    ((3 * width + 3) / 4) * 4
}

/// Image row `y` of the decoded image: RGBA from file row `height - 1 - y`, alpha opaque.
pub open spec fn decoded_row(input: Seq<u8>, off: int, stride: int, width: int, height: int, y: int) -> Seq<u8> {
    Seq::new((width * 4) as nat, |i: int| {
        let x = i / 4;
        let src = off + (height - 1 - y) * stride + 3 * x;
        if i % 4 == 0 {
            input[src + 2]
        } else if i % 4 == 1 {
            input[src + 1]
        } else if i % 4 == 2 {
            input[src]
        } else {
            255u8
        }
    })
}

/// Image rows `0..y` of the decoded image, concatenated.
pub open spec fn decoded_rows(input: Seq<u8>, off: int, stride: int, width: int, height: int, y: int) -> Seq<u8>
    decreases y,
{
    if y <= 0 {
        seq![]
    } else {
        decoded_rows(input, off, stride, width, height, y - 1) + decoded_row(input, off, stride, width, height, y - 1)
    }
}

/// What decoding `input` as BMP gives: `(width, height, RGBA pixels)` or the error.
pub open spec fn decode_spec(input: Seq<u8>) -> Result<(u32, u32, Seq<u8>), ConvertError> {
    let malformed = ConvertError::MalformedInput { format: Format::Bmp };
    if input.len() < 54 || input[0] != 0x42 || input[1] != 0x4d {
        Err(malformed)
    } else if u32_le(input, 14) != 40 {
        Err(ConvertError::UnsupportedFeature { format: Format::Bmp, feature: "bmp-header-variant" })
    } else if u16_le(input, 26) != 1 {
        Err(malformed)
    } else if u32_le(input, 30) != 0 {
        Err(ConvertError::UnsupportedFeature { format: Format::Bmp, feature: "bmp-compression" })
    } else if u16_le(input, 28) != 24 {
        Err(ConvertError::UnsupportedFeature { format: Format::Bmp, feature: "bmp-bit-depth" })
    } else if i32_le(input, 18) <= 0 {
        Err(malformed)
    } else if i32_le(input, 22) < 0 {
        Err(ConvertError::UnsupportedFeature { format: Format::Bmp, feature: "bmp-top-down" })
    } else if i32_le(input, 22) == 0 {
        Err(malformed)
    } else {
        let w = i32_le(input, 18);
        let h = i32_le(input, 22);
        let off = u32_le(input, 10);
        if !dims_ok(w, h) {
            Err(malformed)
        } else if off + row_stride(w) * h > input.len() {
            Err(malformed)
        } else {
            Ok((w as u32, h as u32, decoded_rows(input, off, row_stride(w), w, h, h)))
        }
    }
}

/// File row `fr` of the encoding: image row `height - 1 - fr` as BGR, then zero padding.
pub open spec fn encoded_row(pixels: Seq<u8>, width: int, height: int, fr: int) -> Seq<u8> {
    Seq::new(row_stride(width) as nat, |i: int| {
        let x = i / 3;
        let src = ((height - 1 - fr) * width + x) * 4;
        if i >= 3 * width {
            0u8
        } else if i % 3 == 0 {
            pixels[src + 2]
        } else if i % 3 == 1 {
            pixels[src + 1]
        } else {
            pixels[src]
        }
    })
}

/// File rows `0..fr` of the encoding, concatenated.
pub open spec fn encoded_rows(pixels: Seq<u8>, width: int, height: int, fr: int) -> Seq<u8>
    decreases fr,
{
    if fr <= 0 {
        seq![]
    } else {
        encoded_rows(pixels, width, height, fr - 1) + encoded_row(pixels, width, height, fr - 1)
    }
}

/// The 54 header bytes [`encode`] writes for a `width x height` image.
pub open spec fn header_spec(width: int, height: int) -> Seq<u8> {
    let data_len = row_stride(width) * height;
    seq![0x42u8, 0x4du8] + le32(54 + data_len) + le16(0) + le16(0) + le32(54) + le32(40) + le32(width)
        + le32(height) + le16(1) + le16(24) + le32(0) + le32(data_len) + le32(0) + le32(0) + le32(0)
        + le32(0)
}

/// What [`encode`] writes for an image.
pub open spec fn encode_spec(width: int, height: int, pixels: Seq<u8>) -> Seq<u8> {
    header_spec(width, height) + encoded_rows(pixels, width, height, height)
}

/// Decodes a 24-bit, uncompressed, bottom-up BMP into a [`RawImage`].
pub fn decode(input: &[u8]) -> (r: Result<RawImage, ConvertError>)
    ensures
        match decode_spec(input@) {
            Ok((w, h, px)) => r matches Ok(img) && img.width == w && img.height == h && img.pixels@ == px && img.wf(),
            Err(e) => r == Err::<RawImage, ConvertError>(e),
        },
{
    let malformed = ConvertError::MalformedInput { format: Format::Bmp };
    if input.len() < FILE_HEADER_LEN + INFO_HEADER_LEN {
        return Err(malformed);
    }
    if input[0] != 0x42 || input[1] != 0x4d {
        return Err(malformed);
    }
    let bf_off_bits = read_u32_le(input, 10);
    let bi_size = read_u32_le(input, 14);
    if bi_size != INFO_HEADER_LEN as u32 {
        return Err(ConvertError::UnsupportedFeature { format: Format::Bmp, feature: "bmp-header-variant" });
    }
    let bi_width = read_i32_le(input, 18);
    let bi_height = read_i32_le(input, 22);
    let bi_planes = read_u16_le(input, 26);
    let bi_bit_count = read_u16_le(input, 28);
    let bi_compression = read_u32_le(input, 30);
    if bi_planes != 1 {
        return Err(malformed);
    }
    if bi_compression != 0 {
        return Err(ConvertError::UnsupportedFeature { format: Format::Bmp, feature: "bmp-compression" });
    }
    if bi_bit_count != 24 {
        return Err(ConvertError::UnsupportedFeature { format: Format::Bmp, feature: "bmp-bit-depth" });
    }
    if bi_width <= 0 {
        return Err(malformed);
    }
    if bi_height < 0 {
        return Err(ConvertError::UnsupportedFeature { format: Format::Bmp, feature: "bmp-top-down" });
    }
    if bi_height == 0 {
        return Err(malformed);
    }
    let width = bi_width as u32;
    let height = bi_height as u32;
    let rgba_len = checked_rgba_len(width, height, Format::Bmp)?;
    let w = width as u64;
    let h = height as u64;
    let row_bytes = w * 3;
    let stride = ((row_bytes + 3) / 4) * 4;
    proof {
        assert(w * h <= 16777216);
        assert(stride <= 3 * w + 3);
        assert(stride >= 3 * w);
        assert(h <= 16777216) by (nonlinear_arith)
            requires w * h <= 16777216, w >= 1;
        assert(w <= 16777216) by (nonlinear_arith)
            requires w * h <= 16777216, h >= 1;
        assert(stride <= 0xffff_ffff);
        assert(stride * h <= 7 * 16777216) by (nonlinear_arith)
            requires stride <= 3 * w + 3, w * h <= 16777216, h <= 16777216, w >= 1;
    }
    let pixel_data_len = stride * h;
    let end = bf_off_bits as u64 + pixel_data_len;
    if end > input.len() as u64 {
        return Err(malformed);
    }
    let ghost stride64 = stride;
    let off = bf_off_bits as usize;
    let stride = stride as usize;
    let width = width as usize;
    let height = height as usize;
    proof {
        assert(stride as int == stride64 as int);
        assert(width as int == w as int);
        assert(stride64 == ((w * 3 + 3) / 4) * 4);
        assert(stride == row_stride(width as int));
        assert(off + stride * height <= input@.len());
    }
    let mut pixels: Vec<u8> = Vec::new();
    let ilen = input.len();
    let mut y: usize = 0;
    while y < height
        invariant
            ilen == input@.len(),
            y <= height,
            off + stride * height <= input@.len(),
            stride == row_stride(width as int),
            width >= 1,
            width * height <= 16777216,
            pixels@ == decoded_rows(input@, off as int, stride as int, width as int, height as int, y as int),
        decreases height - y,
    {
        let file_row = height - 1 - y;
        proof {
            assert(file_row * stride + stride <= stride * height) by (nonlinear_arith)
                requires file_row < height, file_row >= 0;
        }
        let row_start = off + file_row * stride;
        let ghost before = pixels@;
        let mut x: usize = 0;
        while x < width
            invariant
                x <= width,
                ilen == input@.len(),
                y < height,
                file_row == height - 1 - y,
                row_start == off + file_row * stride,
                row_start + stride <= input@.len(),
                stride == row_stride(width as int),
                3 * width <= stride,
                pixels@ == before + decoded_row(input@, off as int, stride as int, width as int, height as int, y as int).take(4 * x),
            decreases width - x,
        {
            let src = row_start + x * 3;
            let b = input[src];
            let g = input[src + 1];
            let r = input[src + 2];
            pixels.push(r);
            pixels.push(g);
            pixels.push(b);
            pixels.push(255);
            proof {
                let row = decoded_row(input@, off as int, stride as int, width as int, height as int, y as int);
                assert(row.take(4 * x + 4) =~= row.take(4 * x) + seq![r, g, b, 255u8]);
            }
            x = x + 1;
        }
        proof {
            let row = decoded_row(input@, off as int, stride as int, width as int, height as int, y as int);
            assert(row.take(4 * width as int) =~= row);
        }
        y = y + 1;
    }
    proof {
        lemma_decoded_rows_len(input@, off as int, stride as int, width as int, height as int, height as int);
    }
    RawImage::new(width as u32, height as u32, pixels, Format::Bmp)
}

proof fn lemma_decoded_rows_len(input: Seq<u8>, off: int, stride: int, width: int, height: int, y: int)
    requires
        0 <= y,
        width >= 0,
    ensures
        decoded_rows(input, off, stride, width, height, y).len() == y * width * 4,
    decreases y,
{
    if y > 0 {
        lemma_decoded_rows_len(input, off, stride, width, height, y - 1);
        assert(decoded_row(input, off, stride, width, height, y - 1).len() == width * 4);
        assert((y - 1) * width * 4 + width * 4 == y * width * 4) by (nonlinear_arith);
    } else {
        assert(y * width * 4 == 0) by (nonlinear_arith)
            requires y == 0;
    }
}

/// Encodes a [`RawImage`] as a 24-bit, uncompressed, bottom-up BMP; alpha is dropped, since
/// `BI_RGB` has no alpha channel.
#[verifier::spinoff_prover]
#[verifier::rlimit(40)]
pub fn encode(image: &RawImage) -> (r: Vec<u8>)
    requires
        image.pixels@.len() >= image.width * image.height * 4,
    ensures
        r@ == encode_spec(image.width as int, image.height as int, image.pixels@),
{
    let width = image.width as u64;
    let height = image.height as u64;
    let stride = ((width * 3 + 3) / 4) * 4;
    let total_len = image.pixels.len();
    proof {
        assert(stride <= 3 * width + 3);
        assert(width * height * 4 <= total_len);
        assert(stride * height <= 3 * (width * height) + 3 * height) by (nonlinear_arith)
            requires stride <= 3 * width + 3, height >= 0, width >= 0;
        assert(total_len <= 0xffff_ffff_ffff_ffff);
        assert(height <= 0xffff_ffff);
    }
    let pixel_data_len = stride * height;
    let file_size = 54 + pixel_data_len;
    let mut out: Vec<u8> = Vec::new();
    out.push(0x42);
    out.push(0x4d);
    crate::bytes::push_u32_le(&mut out, file_size as u32);
    crate::bytes::push_u16_le(&mut out, 0);
    crate::bytes::push_u16_le(&mut out, 0);
    crate::bytes::push_u32_le(&mut out, 54);
    crate::bytes::push_u32_le(&mut out, 40);
    crate::bytes::push_u32_le(&mut out, image.width);
    crate::bytes::push_u32_le(&mut out, image.height);
    crate::bytes::push_u16_le(&mut out, 1);
    crate::bytes::push_u16_le(&mut out, 24);
    crate::bytes::push_u32_le(&mut out, 0);
    crate::bytes::push_u32_le(&mut out, pixel_data_len as u32);
    crate::bytes::push_u32_le(&mut out, 0);
    crate::bytes::push_u32_le(&mut out, 0);
    crate::bytes::push_u32_le(&mut out, 0);
    crate::bytes::push_u32_le(&mut out, 0);
    let ghost header = out@;
    proof {
        crate::bytes::lemma_le32_low_bits(file_size);
        crate::bytes::lemma_le32_low_bits(pixel_data_len);
        assert(header =~= header_spec(width as int, height as int));
    }
    if image.height == 0 {
        proof {
            assert(encoded_rows(image.pixels@, width as int, 0, 0) =~= Seq::<u8>::empty());
            assert(out@ =~= encode_spec(image.width as int, image.height as int, image.pixels@));
        }
        return out;
    }
    proof {
        assert(width <= width * height) by (nonlinear_arith)
            requires height >= 1, width >= 0;
    }
    let w = image.width as usize;
    let h = image.height as usize;
    let stride = stride as usize;
    let mut fr: usize = 0;
    while fr < h
        invariant
            fr <= h,
            w == image.width,
            h == image.height,
            image.pixels@.len() >= w * h * 4,
            total_len == image.pixels@.len(),
            stride == row_stride(w as int),
            out@ == header + encoded_rows(image.pixels@, w as int, h as int, fr as int),
        decreases h - fr,
    {
        let image_row = h - 1 - fr;
        let ghost before = out@;
        let mut i: usize = 0;
        while i < stride
            invariant
                i <= stride,
                fr < h,
                image_row == h - 1 - fr,
                w == image.width,
                h == image.height,
                image.pixels@.len() >= w * h * 4,
                total_len == image.pixels@.len(),
                stride == row_stride(w as int),
                out@ == before + encoded_row(image.pixels@, w as int, h as int, fr as int).take(i as int),
            decreases stride - i,
        {
            let byte = if i >= 3 * w {
                0u8
            } else {
                let x = i / 3;
                proof {
                    assert((image_row * w + x) * 4 + 3 < w * h * 4) by (nonlinear_arith)
                        requires image_row < h, x < w;
                    assert(image_row * w + x < w * h) by (nonlinear_arith)
                        requires image_row < h, x < w;
                }
                let src = (image_row * w + x) * 4;
                if i % 3 == 0 {
                    image.pixels[src + 2]
                } else if i % 3 == 1 {
                    image.pixels[src + 1]
                } else {
                    image.pixels[src]
                }
            };
            out.push(byte);
            proof {
                let row = encoded_row(image.pixels@, w as int, h as int, fr as int);
                assert(out@ =~= before + row.take(i + 1));
            }
            i = i + 1;
        }
        proof {
            let row = encoded_row(image.pixels@, w as int, h as int, fr as int);
            assert(row.take(stride as int) =~= row);
            assert(out@ =~= header + encoded_rows(image.pixels@, w as int, h as int, fr + 1));
        }
        fr = fr + 1;
    }
    out
}

/// `pixels` with every alpha byte set to 255: what survives a trip through 24-bit BMP.
pub open spec fn opaque(pixels: Seq<u8>) -> Seq<u8> {
    Seq::new(pixels.len(), |i: int| if i % 4 == 3 { 255u8 } else { pixels[i] })
}

proof fn lemma_encoded_rows_len(pixels: Seq<u8>, width: int, height: int, n: int)
    requires
        0 <= n,
        0 <= width,
    ensures
        encoded_rows(pixels, width, height, n).len() == n * row_stride(width),
    decreases n,
{
    if n > 0 {
        lemma_encoded_rows_len(pixels, width, height, n - 1);
        assert((n - 1) * row_stride(width) + row_stride(width) == n * row_stride(width)) by (nonlinear_arith);
    } else {
        assert(n * row_stride(width) == 0) by (nonlinear_arith)
            requires n == 0;
    }
}

proof fn lemma_encoded_rows_index(pixels: Seq<u8>, width: int, height: int, n: int, fr: int, j: int)
    requires
        0 <= fr < n,
        0 <= j < row_stride(width),
        0 <= width,
    ensures
        encoded_rows(pixels, width, height, n)[fr * row_stride(width) + j] == encoded_row(pixels, width, height, fr)[j],
    decreases n,
{
    lemma_encoded_rows_len(pixels, width, height, n - 1);
    if fr < n - 1 {
        lemma_encoded_rows_index(pixels, width, height, n - 1, fr, j);
        assert(fr * row_stride(width) + j < (n - 1) * row_stride(width)) by (nonlinear_arith)
            requires fr < n - 1, 0 <= j < row_stride(width);
    }
}

/// One byte of a decoded row of an encoding is the pixel byte it came from, or 255 for alpha.
proof fn lemma_round_trip_byte(enc: Seq<u8>, width: int, height: int, pixels: Seq<u8>, y: int, j: int)
    requires
        dims_ok(width, height),
        pixels.len() == width * height * 4,
        enc.len() == 54 + height * row_stride(width),
        enc.subrange(54, enc.len() as int) == encoded_rows(pixels, width, height, height),
        0 <= y < height,
        0 <= j < width * 4,
    ensures
        decoded_row(enc, 54, row_stride(width), width, height, y)[j] == opaque(pixels)[y * width * 4 + j],
{
    let stride = row_stride(width);
    let x = j / 4;
    let c = j % 4;
    let fr = height - 1 - y;
    assert(y * width * 4 + j < width * height * 4) by (nonlinear_arith)
        requires 0 <= y < height, 0 <= j < width * 4;
    assert(y * width * 4 + j == (y * width + x) * 4 + c) by (nonlinear_arith)
        requires x == j / 4, c == j % 4;
    if c != 3 {
        let k = 2 - c;
        assert(3 * x + k < 3 * width);
        assert(3 * x + k < stride);
        lemma_encoded_rows_index(pixels, width, height, height, fr, 3 * x + k);
        assert(fr * stride + 3 * x + k < height * stride) by (nonlinear_arith)
            requires 0 <= fr < height, 0 <= 3 * x + k < stride;
        assert(enc[54 + fr * stride + 3 * x + k] == enc.subrange(54, enc.len() as int)[fr * stride + 3 * x + k]);
        assert((3 * x + k) / 3 == x);
        assert((3 * x + k) % 3 == k);
    }
}

proof fn lemma_decoded_rows_opaque(enc: Seq<u8>, width: int, height: int, pixels: Seq<u8>, n: int)
    requires
        dims_ok(width, height),
        pixels.len() == width * height * 4,
        enc.len() == 54 + height * row_stride(width),
        enc.subrange(54, enc.len() as int) == encoded_rows(pixels, width, height, height),
        0 <= n <= height,
    ensures
        n * width * 4 <= pixels.len(),
        decoded_rows(enc, 54, row_stride(width), width, height, n) == opaque(pixels).take(n * width * 4),
    decreases n,
{
    let stride = row_stride(width);
    assert(n * width * 4 <= width * height * 4) by (nonlinear_arith)
        requires 0 <= n <= height, width >= 0;
    if n > 0 {
        lemma_decoded_rows_opaque(enc, width, height, pixels, n - 1);
        let row = decoded_row(enc, 54, stride, width, height, n - 1);
        let prev = opaque(pixels).take((n - 1) * width * 4);
        assert((n - 1) * width * 4 + width * 4 == n * width * 4) by (nonlinear_arith);
        assert forall|j: int| 0 <= j < width * 4 implies #[trigger] row[j] == opaque(pixels)[(n - 1) * width * 4 + j] by {
            lemma_round_trip_byte(enc, width, height, pixels, n - 1, j);
        }
        assert(prev + row =~= opaque(pixels).take(n * width * 4));
    } else {
        assert(n * width * 4 == 0) by (nonlinear_arith)
            requires n == 0;
    }
}

/// The fields [`decode`] reads from a header that [`encode`] wrote.
proof fn lemma_header_reads(enc: Seq<u8>, w: int, h: int)
    requires
        enc.len() >= 54,
        enc.subrange(0, 54) == header_spec(w, h),
        1 <= w <= 16777216,
        1 <= h <= 16777216,
    ensures
        enc[0] == 0x42,
        enc[1] == 0x4d,
        u32_le(enc, 10) == 54,
        u32_le(enc, 14) == 40,
        u32_le(enc, 18) == w,
        u32_le(enc, 22) == h,
        u16_le(enc, 26) == 1,
        u16_le(enc, 28) == 24,
        u32_le(enc, 30) == 0,
{
    let data_len = row_stride(w) * h;
    let b = le32(54) + le32(40) + le32(w) + le32(h) + le16(1) + le16(24) + le32(0);
    lemma_header_split(w, h);
    assert(enc[0] == header_spec(w, h)[0] && enc[1] == header_spec(w, h)[1]);
    assert(enc.subrange(10, 34) =~= b);
    lemma_fields(enc.subrange(10, 34), w, h);
}

proof fn lemma_header_split(w: int, h: int)
    ensures
        header_spec(w, h).subrange(10, 34) == le32(54) + le32(40) + le32(w) + le32(h) + le16(1) + le16(24) + le32(0),
        header_spec(w, h)[0] == 0x42,
        header_spec(w, h)[1] == 0x4d,
{
    let data_len = row_stride(w) * h;
    let a = seq![0x42u8, 0x4du8] + le32(54 + data_len) + le16(0) + le16(0);
    let b = le32(54) + le32(40) + le32(w) + le32(h) + le16(1) + le16(24) + le32(0);
    let c = le32(data_len) + le32(0) + le32(0) + le32(0) + le32(0);
    assert(header_spec(w, h) =~= a + b + c);
    assert((a + b + c).subrange(10, 34) =~= b);
}

proof fn lemma_fields(b: Seq<u8>, w: int, h: int)
    requires
        b == le32(54) + le32(40) + le32(w) + le32(h) + le16(1) + le16(24) + le32(0),
        1 <= w <= 16777216,
        1 <= h <= 16777216,
    ensures
        u32_le(b, 0) == 54,
        u32_le(b, 4) == 40,
        u32_le(b, 8) == w,
        u32_le(b, 12) == h,
        u16_le(b, 16) == 1,
        u16_le(b, 18) == 24,
        u32_le(b, 20) == 0,
{
    assert(b.subrange(0, 4) =~= le32(54));
    crate::bytes::lemma_le32_read(b, 0, 54);
    assert(b.subrange(4, 8) =~= le32(40));
    crate::bytes::lemma_le32_read(b, 4, 40);
    assert(b.subrange(8, 12) =~= le32(w));
    crate::bytes::lemma_le32_read(b, 8, w);
    assert(b.subrange(12, 16) =~= le32(h));
    crate::bytes::lemma_le32_read(b, 12, h);
    assert(b.subrange(16, 18) =~= le16(1));
    crate::bytes::lemma_le16_read(b, 16, 1);
    assert(b.subrange(18, 20) =~= le16(24));
    crate::bytes::lemma_le16_read(b, 18, 24);
    assert(b.subrange(20, 24) =~= le32(0));
    crate::bytes::lemma_le32_read(b, 20, 0);
}

/// Decoding what [`encode`] writes gives back the image, every alpha byte 255: BMP keeps the
/// width, the height and each pixel's red, green and blue.
#[verifier::spinoff_prover]
#[verifier::rlimit(30)]
pub proof fn lemma_bmp_round_trip(width: u32, height: u32, pixels: Seq<u8>)
    requires
        dims_ok(width as int, height as int),
        pixels.len() == width * height * 4,
    ensures
        decode_spec(encode_spec(width as int, height as int, pixels)) == Ok::<(u32, u32, Seq<u8>), ConvertError>(
            (width, height, opaque(pixels)),
        ),
{
    let w = width as int;
    let h = height as int;
    let stride = row_stride(w);
    let data_len = stride * h;
    let hd = header_spec(w, h);
    let rows = encoded_rows(pixels, w, h, h);
    let enc = encode_spec(w, h, pixels);
    assert(stride <= 3 * w + 3);
    assert(h <= 16777216) by (nonlinear_arith)
        requires w * h <= 16777216, w >= 1;
    assert(data_len <= 7 * 16777216) by (nonlinear_arith)
        requires stride <= 3 * w + 3, w * h <= 16777216, h <= 16777216, w >= 1, h >= 1, data_len == stride * h;
    assert(data_len >= 0) by (nonlinear_arith)
        requires stride >= 0, h >= 0, data_len == stride * h;
    lemma_encoded_rows_len(pixels, w, h, h);
    assert(h * stride == data_len) by (nonlinear_arith)
        requires data_len == stride * h;
    assert(hd.len() == 54);
    assert(enc == hd + rows);
    assert(enc.len() == 54 + data_len);
    assert(enc.subrange(54, enc.len() as int) =~= rows);
    assert(w <= 16777216) by (nonlinear_arith)
        requires w * h <= 16777216, h >= 1;
    assert(enc.subrange(0, 54) =~= hd);
    lemma_header_reads(enc, w, h);
    lemma_decoded_rows_opaque(enc, w, h, pixels, h);
    assert(h * w * 4 == pixels.len()) by (nonlinear_arith)
        requires pixels.len() == w * h * 4;
    assert(opaque(pixels).take(h * w * 4) =~= opaque(pixels));
}

} // verus!
