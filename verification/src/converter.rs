//! The [`Converter`] trait: the one interface every conversion algorithm implements.

use vstd::prelude::*;

use crate::error::ConvertError;
use crate::options::ConvertOptions;
use crate::registry::Format;

verus! {

/// Converts bytes from one [`Format`] to another.
///
/// Implementations decode `input` as `from` and produce bytes shaped like `to`. They never
/// panic on `input`: every malformed input is a typed [`ConvertError`]. Long-running
/// implementations poll [`ConvertOptions::is_cancelled`] at safe checkpoints and report progress
/// through [`ConvertOptions::report_progress`].
pub trait Converter: Send + Sync {
    /// Performs the conversion.
    fn convert(
        &self,
        input: &[u8],
        from: Format,
        to: Format,
        options: &ConvertOptions,
    ) -> Result<Vec<u8>, ConvertError>;
}

} // verus!
