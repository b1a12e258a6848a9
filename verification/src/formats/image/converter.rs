//! [`RasterConverter`]: one [`Converter`] for every raster pair, decoding `from` to a
//! [`RawImage`] and encoding that as `to`.

use vstd::prelude::*;

use super::raster::{image_matches, RawImage};
use super::{bmp, ico, png, qoi, webp};
use crate::{ConvertError, ConvertOptions, Converter, Format};

verus! {

/// Decodes `from`, then encodes as `to`.
#[derive(Debug, Default, Clone, Copy)]
pub struct RasterConverter;

/// The raster formats this module reads and writes.
pub fn formats() -> (r: Vec<Format>)
    ensures
        r@ == seq![Format::Bmp, Format::Qoi, Format::Png, Format::Ico, Format::Webp],
{
    let r = vec![Format::Bmp, Format::Qoi, Format::Png, Format::Ico, Format::Webp];
    assert(r@ =~= seq![Format::Bmp, Format::Qoi, Format::Png, Format::Ico, Format::Webp]);
    r
}

/// What decoding `input` as `from` gives; a format this module does not read is the
/// unsupported pair `from -> from`.
pub open spec fn decode_result(input: Seq<u8>, from: Format) -> Result<(u32, u32, Seq<u8>), ConvertError> {
    match from {
        Format::Bmp => bmp::decode_spec(input),
        Format::Qoi => qoi::decode_spec(input),
        Format::Png => png::decode_spec(input),
        Format::Ico => ico::decode_spec(input),
        Format::Webp => webp::decode_spec(input),
        _ => Err(ConvertError::UnsupportedPair { from, to: from }),
    }
}

/// What encoding a `width x height` image `pixels`, decoded from `from`, as `to` gives.
pub open spec fn encode_result(width: int, height: int, pixels: Seq<u8>, from: Format, to: Format) -> Result<Seq<u8>, ConvertError> {
    match to {
        Format::Bmp => Ok(bmp::encode_spec(width, height, pixels)),
        Format::Qoi => Ok(qoi::encode_spec(width, height, pixels)),
        Format::Png => Ok(png::encode_spec(width, height, pixels)),
        Format::Ico => if width > ico::MAX_ICO_DIMENSION || height > ico::MAX_ICO_DIMENSION {
            Err(ico::too_large())
        } else {
            Ok(ico::container_spec(width, height, png::encode_spec(width, height, pixels)))
        },
        Format::Webp => if width > webp::MAX_DIMENSION || height > webp::MAX_DIMENSION {
            Err(webp::too_large())
        } else {
            Ok(webp::encode_spec(width, height, pixels))
        },
        _ => Err(ConvertError::UnsupportedPair { from, to }),
    }
}

/// What converting `input` from `from` to `to` gives: the decode's error, or the encode's result.
pub open spec fn convert_result(input: Seq<u8>, from: Format, to: Format) -> Result<Seq<u8>, ConvertError> {
    match decode_result(input, from) {
        Err(e) => Err(e),
        Ok((w, h, px)) => encode_result(w as int, h as int, px, from, to),
    }
}

/// Decodes `input` as `from` (see [`decode_result`]).
pub fn decode(input: &[u8], from: Format, options: &ConvertOptions) -> (r: Result<RawImage, ConvertError>)
    ensures
        image_matches(r, decode_result(input@, from)) || (options.may_cancel() && r == Err::<RawImage, ConvertError>(
            ConvertError::Cancelled,
        )),
{
    match from {
        Format::Bmp => bmp::decode(input),
        Format::Qoi => qoi::decode(input, options),
        Format::Png => png::decode(input, options),
        Format::Ico => ico::decode(input, options),
        Format::Webp => webp::decode(input, options),
        _ => Err(ConvertError::UnsupportedPair { from, to: from }),
    }
}

/// Encodes `image`, decoded from `from`, as `to` (see [`encode_result`]).
pub fn encode(image: &RawImage, from: Format, to: Format, options: &ConvertOptions) -> (r: Result<Vec<u8>, ConvertError>)
    requires
        image.wf(),
    ensures
        (options.may_cancel() && r == Err::<Vec<u8>, ConvertError>(ConvertError::Cancelled)) || match encode_result(
            image.width as int,
            image.height as int,
            image.pixels@,
            from,
            to,
        ) {
            Ok(v) => r matches Ok(b) && b@ == v,
            Err(e) => r == Err::<Vec<u8>, ConvertError>(e),
        },
{
    match to {
        Format::Bmp => Ok(bmp::encode(image)),
        Format::Qoi => qoi::encode(image, options),
        Format::Png => png::encode(image, options),
        Format::Ico => ico::encode(image, options),
        Format::Webp => webp::encode(image, options),
        _ => Err(ConvertError::UnsupportedPair { from, to }),
    }
}

impl RasterConverter {
    /// The conversion itself (see [`convert_result`]): a cancellation check, the decode, then the
    /// encode.
    pub fn convert_raster(&self, input: &[u8], from: Format, to: Format, options: &ConvertOptions) -> (r: Result<
        Vec<u8>,
        ConvertError,
    >)
        ensures
            (options.may_cancel() && r == Err::<Vec<u8>, ConvertError>(ConvertError::Cancelled)) || match convert_result(
                input@,
                from,
                to,
            ) {
                Ok(v) => r matches Ok(b) && b@ == v,
                Err(e) => r == Err::<Vec<u8>, ConvertError>(e),
            },
    {
        if options.is_cancelled() {
            return Err(ConvertError::Cancelled);
        }
        let image = decode(input, from, options)?;
        encode(&image, from, to, options)
    }
}

impl Converter for RasterConverter {
    fn convert(
        &self,
        input: &[u8],
        from: Format,
        to: Format,
        options: &ConvertOptions,
    ) -> (r: Result<Vec<u8>, ConvertError>)
        ensures
            (options.may_cancel() && r == Err::<Vec<u8>, ConvertError>(ConvertError::Cancelled)) || match convert_result(
                input@,
                from,
                to,
            ) {
                Ok(v) => r matches Ok(b) && b@ == v,
                Err(e) => r == Err::<Vec<u8>, ConvertError>(e),
            },
    {
        self.convert_raster(input, from, to, options)
    }
}

} // verus!
