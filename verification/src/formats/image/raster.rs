//! [`RawImage`]: the common decode target every raster format converts through.

use vstd::prelude::*;

use crate::{ConvertError, Format};

verus! {

/// The largest `width * height` any decoder here accepts, however small the encoded bytes.
pub const MAX_PIXELS: u64 = 16777216;

/// A decoded raster image: RGBA8, row-major, top-to-bottom, no padding between rows.
#[derive(Debug)]
pub struct RawImage {
    /// Width in pixels.
    pub width: u32,
    /// Height in pixels.
    pub height: u32,
    /// `width * height * 4` bytes, RGBA8, row-major, top-to-bottom.
    pub pixels: Vec<u8>,
}

/// Whether `width x height` is a size a decoder accepts.
pub open spec fn dims_ok(width: int, height: int) -> bool {
    width > 0 && height > 0 && width * height <= MAX_PIXELS
}

impl RawImage {
    /// Non-zero dimensions within [`MAX_PIXELS`], and exactly `width * height * 4` pixel bytes.
    pub open spec fn wf(&self) -> bool {
        &&& dims_ok(self.width as int, self.height as int)
        &&& self.pixels@.len() == self.width * self.height * 4
    }

    /// Builds a [`RawImage`], checking the dimensions and that `pixels` is exactly
    /// `width * height * 4` bytes long; anything else is `MalformedInput` for `format`.
    pub fn new(width: u32, height: u32, pixels: Vec<u8>, format: Format) -> (r: Result<Self, ConvertError>)
        ensures
            dims_ok(width as int, height as int) && pixels@.len() == width * height * 4 ==> (r matches Ok(img) && img.width == width && img.height == height && img.pixels@ == pixels@ && img.wf()),
            !(dims_ok(width as int, height as int) && pixels@.len() == width * height * 4) ==> r == Err::<RawImage, ConvertError>(ConvertError::MalformedInput { format }),
    {
        let expected = checked_rgba_len(width, height, format)?;
        if pixels.len() as u64 != expected {
            return Err(ConvertError::MalformedInput { format });
        }
        Ok(RawImage { width, height, pixels })
    }
}

/// Checks `width`/`height` are non-zero and `width * height` is at most [`MAX_PIXELS`], and
/// returns the pixel count. Call this before allocating a pixel buffer.
pub fn checked_pixel_count(width: u32, height: u32, format: Format) -> (r: Result<u64, ConvertError>)
    ensures
        dims_ok(width as int, height as int) ==> r == Ok::<u64, ConvertError>((width * height) as u64),
        !dims_ok(width as int, height as int) ==> r == Err::<u64, ConvertError>(ConvertError::MalformedInput { format }),
{
    if width == 0 || height == 0 {
        return Err(ConvertError::MalformedInput { format });
    }
    let w = width as u64;
    let h = height as u64;
    if w > MAX_PIXELS / h {
        proof {
            assert(w * h > MAX_PIXELS) by (nonlinear_arith)
                requires w > MAX_PIXELS / h, h > 0;
        }
        return Err(ConvertError::MalformedInput { format });
    }
    proof {
        assert(w * h <= MAX_PIXELS) by (nonlinear_arith)
            requires w <= MAX_PIXELS / h, h > 0;
    }
    let pixel_count = w * h;
    Ok(pixel_count)
}

/// Same as [`checked_pixel_count`], but returns the RGBA8 byte count (`4` per pixel).
pub fn checked_rgba_len(width: u32, height: u32, format: Format) -> (r: Result<u64, ConvertError>)
    ensures
        dims_ok(width as int, height as int) ==> r == Ok::<u64, ConvertError>((width * height * 4) as u64),
        !dims_ok(width as int, height as int) ==> r == Err::<u64, ConvertError>(ConvertError::MalformedInput { format }),
{
    let pixel_count = checked_pixel_count(width, height, format)?;
    Ok(pixel_count * 4)
}

/// `r` is the image or the error `s` describes.
pub open spec fn image_matches(r: Result<RawImage, ConvertError>, s: Result<(u32, u32, Seq<u8>), ConvertError>) -> bool {
    match s {
        Ok((w, h, px)) => r matches Ok(img) && img.width == w && img.height == h && img.pixels@ == px && img.wf(),
        Err(e) => r == Err::<RawImage, ConvertError>(e),
    }
}

} // verus!
