//! Progress reporting and cooperative cancellation for long-running conversions.

use vstd::prelude::*;

verus! {

/// Receives progress updates from a running conversion and can ask it to stop early.
///
/// Progress is reported as the exact fraction `done / total` (`done <= total`, `total > 0`), so
/// a host can render it however it likes; converters poll [`ProgressSink::is_cancelled`] only at
/// points where stopping early is safe.
pub trait ProgressSink: Send + Sync {
    /// Called as the conversion makes headway; `done / total` is the fraction complete.
    fn on_progress(&self, done: u64, total: u64);

    /// Polled at safe checkpoints; `true` asks the conversion to stop with
    /// [`crate::ConvertError::Cancelled`].
    fn is_cancelled(&self) -> (r: bool)
        default_ensures
            !r,
    {
        false
    }
}

/// A [`ProgressSink`] that discards every update and never asks for cancellation.
#[derive(Debug, Default, Clone, Copy)]
pub struct NoopProgress;

impl ProgressSink for NoopProgress {
    fn on_progress(&self, done: u64, total: u64) {
    }
}

} // verus!
