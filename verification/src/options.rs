//! [`ConvertOptions`]: the per-call parameters every [`crate::Converter`] receives.

use std::sync::Arc;
use vstd::prelude::*;

use crate::progress::ProgressSink;

verus! {

/// Per-call knobs for a conversion. `ConvertOptions::default()` sets no size limit, no progress
/// sink and the default JPEG quality.
#[derive(Clone)]
pub struct ConvertOptions {
    /// If set, input longer than this many bytes is rejected before a converter sees it.
    pub max_input_bytes: Option<u64>,
    /// Where to report progress and check for cancellation, if anywhere.
    pub progress: Option<Arc<dyn ProgressSink>>,
    /// JPEG encode quality (`1..=100`); `None` means the encoder's default. Out-of-range values
    /// are clamped.
    pub jpeg_quality: Option<u8>,
}

impl Default for ConvertOptions {
    fn default() -> (r: Self)
        ensures
            r.max_input_bytes is None,
            r.progress is None,
            r.jpeg_quality is None,
    {
        ConvertOptions { max_input_bytes: None, progress: None, jpeg_quality: None }
    }
}

impl ConvertOptions {
    /// Whether a sink is attached that could ask for cancellation.
    pub open spec fn may_cancel(&self) -> bool {
        self.progress is Some
    }

    /// Reports the fraction `done / total` to the configured sink, if any.
    pub fn report_progress(&self, done: u64, total: u64) {
        match &self.progress {
            Some(sink) => sink.on_progress(done, total),
            None => {},
        }
    }

    /// Returns `true` if a configured sink has asked the conversion to stop; always `false`
    /// without a sink.
    pub fn is_cancelled(&self) -> (r: bool)
        ensures
            r ==> self.may_cancel(),
    {
        match &self.progress {
            Some(sink) => sink.is_cancelled(),
            None => false,
        }
    }
}

} // verus!
