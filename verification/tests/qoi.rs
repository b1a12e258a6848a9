use conv_core::formats::image::qoi::{decode, encode, PROGRESS_GRANULARITY};
use conv_core::formats::image::RawImage;
use conv_core::{ConvertError, ConvertOptions, Format, ProgressSink};
use std::sync::atomic::{AtomicUsize, Ordering};
use std::sync::Arc;

struct CancelAfterNPolls {
    calls: AtomicUsize,
    cancel_after: usize,
}

impl ProgressSink for CancelAfterNPolls {
    fn on_progress(&self, _done: u64, _total: u64) {}
    fn is_cancelled(&self) -> bool {
        self.calls.fetch_add(1, Ordering::SeqCst) >= self.cancel_after
    }
}

fn options_cancelling_after(cancel_after: usize) -> (ConvertOptions, Arc<CancelAfterNPolls>) {
    let sink = Arc::new(CancelAfterNPolls { calls: AtomicUsize::new(0), cancel_after });
    let options = ConvertOptions { progress: Some(sink.clone() as Arc<dyn ProgressSink>), ..ConvertOptions::default() };
    (options, sink)
}

const TEST_PIXEL_COUNT: usize = PROGRESS_GRANULARITY * 2;

fn solid_white_image() -> RawImage {
    RawImage::new(TEST_PIXEL_COUNT as u32, 1, vec![255u8; TEST_PIXEL_COUNT * 4], Format::Qoi).unwrap()
}

#[test]
fn decode_checks_cancellation_past_the_first_granularity_window() {
    let bytes = encode(&solid_white_image(), &ConvertOptions::default()).unwrap();
    let (options, sink) = options_cancelling_after(1);
    let result = decode(&bytes, &options);
    assert!(matches!(result, Err(ConvertError::Cancelled)));
    assert!(sink.calls.load(Ordering::SeqCst) >= 2);
}

#[test]
fn encode_checks_cancellation_past_the_first_granularity_window() {
    let (options, sink) = options_cancelling_after(1);
    let result = encode(&solid_white_image(), &options);
    assert!(matches!(result, Err(ConvertError::Cancelled)));
    assert!(sink.calls.load(Ordering::SeqCst) >= 2);
}

#[test]
fn qoi_round_trip_preserves_pixels() {
    let pixels = vec![1, 2, 3, 255, 1, 2, 3, 255, 200, 100, 50, 128, 0, 0, 0, 0, 9, 8, 7, 6, 9, 8, 7, 6];
    let image = RawImage::new(3, 2, pixels.clone(), Format::Qoi).unwrap();
    let bytes = encode(&image, &ConvertOptions::default()).unwrap();
    let decoded = decode(&bytes, &ConvertOptions::default()).unwrap();
    assert_eq!((decoded.width, decoded.height), (3, 2));
    assert_eq!(decoded.pixels, pixels);
}

#[test]
fn qoi_encode_writes_header_and_end_marker() {
    let image = RawImage::new(1, 1, vec![0, 0, 0, 255], Format::Qoi).unwrap();
    let bytes = encode(&image, &ConvertOptions::default()).unwrap();
    assert_eq!(&bytes[..4], b"qoif");
    assert_eq!(&bytes[4..8], &[0, 0, 0, 1]);
    assert_eq!(&bytes[8..12], &[0, 0, 0, 1]);
    assert_eq!(&bytes[bytes.len() - 8..], &[0, 0, 0, 0, 0, 0, 0, 1]);
}

#[test]
fn qoi_decode_rejects_bad_magic() {
    let image = RawImage::new(1, 1, vec![0, 0, 0, 255], Format::Qoi).unwrap();
    let mut bytes = encode(&image, &ConvertOptions::default()).unwrap();
    bytes[0] = b'x';
    assert!(matches!(decode(&bytes, &ConvertOptions::default()), Err(ConvertError::MalformedInput { format: Format::Qoi })));
}

#[test]
fn encode_accepts_an_image_with_no_pixels() {
    let img = RawImage { width: 0, height: 3, pixels: Vec::new() };
    let out = encode(&img, &ConvertOptions::default()).unwrap();
    assert_eq!(&out[..4], b"qoif");
    assert_eq!(out.len(), 14 + 8);
    assert_eq!(&out[14..], &[0, 0, 0, 0, 0, 0, 0, 1]);
}
