//! A trivial passthrough [`Converter`], registered for `PlainText -> PlainText`.

use vstd::prelude::*;

use crate::{ConvertError, ConvertOptions, Converter, Format};

verus! {

/// Returns `input` unchanged, still checking cancellation and reporting progress like a real
/// converter.
#[derive(Debug, Default, Clone, Copy)]
pub struct IdentityConverter;

impl IdentityConverter {
    /// The conversion itself: `input` unchanged, or [`ConvertError::Cancelled`] when the sink
    /// asks to stop.
    pub fn passthrough(&self, input: &[u8], options: &ConvertOptions) -> (r: Result<Vec<u8>, ConvertError>)
        ensures
            r matches Ok(v) ==> v@ == input@,
            r is Err ==> r == Err::<Vec<u8>, ConvertError>(ConvertError::Cancelled) && options.may_cancel(),
            !options.may_cancel() ==> r is Ok,
    {
        if options.is_cancelled() {
            return Err(ConvertError::Cancelled);
        }
        options.report_progress(1, 1);
        Ok(crate::bytes::to_vec(input))
    }
}

impl Converter for IdentityConverter {
    fn convert(
        &self,
        input: &[u8],
        from: Format,
        to: Format,
        options: &ConvertOptions,
    ) -> (r: Result<Vec<u8>, ConvertError>)
        ensures
            r matches Ok(v) ==> v@ == input@,
            r is Err ==> r == Err::<Vec<u8>, ConvertError>(ConvertError::Cancelled) && options.may_cancel(),
            !options.may_cancel() ==> r is Ok,
    {
        self.passthrough(input, options)
    }
}

/// What the dispatcher hands back from an identity converter: whenever the converter's result is
/// one its contract allows and no sink can cancel, it is the input, unchanged.
pub proof fn lemma_identity_dispatch_returns_input(
    c: &IdentityConverter,
    input: &[u8],
    from: Format,
    to: Format,
    options: &ConvertOptions,
    r: Result<Vec<u8>, ConvertError>,
)
    requires
        call_ensures(IdentityConverter::convert, (c, input, from, to, options), r),
        !options.may_cancel(),
    ensures
        r matches Ok(v) && v@ == input@,
{
}

} // verus!
