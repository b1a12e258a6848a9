//! `conv_core` — the conversion engine: a catalog of formats, a `(from, to)` dispatch table,
//! and the raster codecs (BMP, QOI, PNG with its zlib/DEFLATE layer, ICO, lossless WebP, and the
//! integer parts of baseline JPEG) that convert through a shared RGBA8 image.
//!
//! Every parser here takes bytes nobody has vetted; every function states in its contract what it
//! returns for every input, and none of them panics.

use vstd::prelude::*;

mod bytes;
mod converter;
mod error;
mod options;
mod progress;
mod registry;

pub mod bindings;
pub mod formats;

pub use converter::Converter;
pub use error::ConvertError;
pub use options::ConvertOptions;
pub use progress::{NoopProgress, ProgressSink};
pub use registry::{Category, Format, Registry};

verus! {

/// Whether `input` is over the dispatcher's size limit in `options`.
pub open spec fn over_size_limit(input_len: nat, options: ConvertOptions) -> bool {
    options.max_input_bytes matches Some(limit) && input_len > limit
}

/// Converts `input` from `from` to `to` through `registry`.
///
/// In order: input larger than `options.max_input_bytes` is rejected with
/// [`ConvertError::SizeLimitExceeded`] before any converter sees it; a cancelled sink stops the
/// call with [`ConvertError::Cancelled`]; a pair with no registered converter is
/// [`ConvertError::UnsupportedPair`]; otherwise the registered converter's own result is returned.
pub fn convert_with<C: ?Sized + Converter>(
    registry: &Registry<C>,
    input: &[u8],
    from: Format,
    to: Format,
    options: &ConvertOptions,
) -> (r: Result<Vec<u8>, ConvertError>)
    ensures
        over_size_limit(input@.len(), *options) ==> r == Err::<Vec<u8>, ConvertError>(
            ConvertError::SizeLimitExceeded {
                limit: options.max_input_bytes->0,
                actual: input@.len() as u64,
            },
        ),
        !over_size_limit(input@.len(), *options) && r == Err::<Vec<u8>, ConvertError>(
            ConvertError::Cancelled,
        ) ==> options.progress is Some || registry@.contains_key((from, to)),
        !over_size_limit(input@.len(), *options) && !registry@.contains_key((from, to)) ==> (r
            == Err::<Vec<u8>, ConvertError>(ConvertError::UnsupportedPair { from, to }) || (r
            == Err::<Vec<u8>, ConvertError>(ConvertError::Cancelled) && options.progress is Some)),
        !over_size_limit(input@.len(), *options) && !registry@.contains_key((from, to))
            && options.progress is None ==> r == Err::<Vec<u8>, ConvertError>(
            ConvertError::UnsupportedPair { from, to },
        ),
        !over_size_limit(input@.len(), *options) && registry@.contains_key((from, to)) ==> (r
            == Err::<Vec<u8>, ConvertError>(ConvertError::Cancelled) && options.progress is Some)
            || call_ensures(C::convert, (&*registry@[(from, to)], input, from, to, options), r),
{
    if let Some(limit) = options.max_input_bytes {
        let actual = input.len() as u64;
        if actual > limit {
            return Err(ConvertError::SizeLimitExceeded { limit, actual });
        }
    }
    if options.is_cancelled() {
        return Err(ConvertError::Cancelled);
    }
    match registry.resolve(from, to) {
        Some(converter) => converter.convert(input, from, to, options),
        None => Err(ConvertError::UnsupportedPair { from, to }),
    }
}

} // verus!
