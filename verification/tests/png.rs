use conv_core::formats::image::png::{crc32_of_chunk, decode, encode, paeth_predictor, unfilter_row};
use conv_core::formats::image::RawImage;
use conv_core::{ConvertError, ConvertOptions, Format, ProgressSink};
use std::sync::atomic::{AtomicUsize, Ordering};
use std::sync::Arc;

/// A PNG built independently (zlib plus hand-written chunk framing) using all five scanline
/// filter types against a 4x5 RGBA image.
const PNG_ALL_FILTERS: &[u8] = &[
    0x89, 0x50, 0x4e, 0x47, 0x0d, 0x0a, 0x1a, 0x0a, 0x00, 0x00, 0x00, 0x0d, 0x49, 0x48, 0x44,
    0x52, 0x00, 0x00, 0x00, 0x04, 0x00, 0x00, 0x00, 0x05, 0x08, 0x06, 0x00, 0x00, 0x00, 0x62,
    0xad, 0x4d, 0xdb, 0x00, 0x00, 0x00, 0x43, 0x49, 0x44, 0x41, 0x54, 0x78, 0xda, 0x63, 0x60,
    0x60, 0x60, 0x38, 0xa1, 0xca, 0xce, 0x78, 0xda, 0x8b, 0x8f, 0xe5, 0x5c, 0xbe, 0x28, 0xe7,
    0x45, 0x46, 0x6e, 0x53, 0xc6, 0xb3, 0x40, 0x01, 0x66, 0x55, 0x76, 0x66, 0x20, 0x66, 0x65,
    0x66, 0x02, 0x0a, 0xb0, 0x22, 0x63, 0x66, 0xb1, 0x2c, 0xa6, 0x3c, 0x09, 0x39, 0x46, 0x16,
    0x09, 0x39, 0x26, 0x20, 0x66, 0x66, 0x61, 0x01, 0xcb, 0x00, 0xb5, 0xc0, 0x30, 0x00, 0x0b,
    0x75, 0x09, 0x3b, 0xd2, 0xb3, 0x3b, 0x55, 0x00, 0x00, 0x00, 0x00, 0x49, 0x45, 0x4e, 0x44,
    0xae, 0x42, 0x60, 0x82,
];

const PNG_ALL_FILTERS_RGBA: &[u8] = &[
    0x00, 0x00, 0x00, 0xc8, 0x25, 0x07, 0x01, 0xcb, 0x4a, 0x0e, 0x04, 0xce, 0x6f, 0x15, 0x09,
    0xd1, 0x0b, 0x35, 0x01, 0xcd, 0x30, 0x3c, 0x02, 0xd0, 0x55, 0x43, 0x05, 0xd3, 0x7a, 0x4a,
    0x0a, 0xd6, 0x16, 0x6a, 0x02, 0xd2, 0x3b, 0x71, 0x03, 0xd5, 0x60, 0x78, 0x06, 0xd8, 0x85,
    0x7f, 0x0b, 0xdb, 0x21, 0x9f, 0x03, 0xd7, 0x46, 0xa6, 0x04, 0xda, 0x6b, 0xad, 0x07, 0xdd,
    0x90, 0xb4, 0x0c, 0xe0, 0x2c, 0xd4, 0x04, 0xdc, 0x51, 0xdb, 0x05, 0xdf, 0x76, 0xe2, 0x08,
    0xe2, 0x9b, 0xe9, 0x0d, 0xe5,
];

struct CancelAfterNPolls {
    calls: AtomicUsize,
    cancel_after: usize,
}

impl ProgressSink for CancelAfterNPolls {
    fn on_progress(&self, _done: u64, _total: u64) {}
    fn is_cancelled(&self) -> bool {
        self.calls.fetch_add(1, Ordering::SeqCst) >= self.cancel_after
    }
}

fn options_cancelling_after(cancel_after: usize) -> (ConvertOptions, Arc<CancelAfterNPolls>) {
    let sink = Arc::new(CancelAfterNPolls { calls: AtomicUsize::new(0), cancel_after });
    let options = ConvertOptions { progress: Some(sink.clone() as Arc<dyn ProgressSink>), ..ConvertOptions::default() };
    (options, sink)
}

fn checkerboard(width: u32, height: u32) -> RawImage {
    let mut pixels = vec![0u8; (width * height * 4) as usize];
    for y in 0..height {
        for x in 0..width {
            let idx = ((y * width + x) * 4) as usize;
            let v = if (x + y) % 2 == 0 { 255 } else { 0 };
            pixels[idx] = v;
            pixels[idx + 1] = v;
            pixels[idx + 2] = v;
            pixels[idx + 3] = 255;
        }
    }
    RawImage::new(width, height, pixels, Format::Png).unwrap()
}

#[test]
fn decode_matches_an_independently_built_png_exercising_every_filter_type() {
    let decoded = decode(PNG_ALL_FILTERS, &ConvertOptions::default()).unwrap();
    assert_eq!(decoded.width, 4);
    assert_eq!(decoded.height, 5);
    assert_eq!(decoded.pixels, PNG_ALL_FILTERS_RGBA);
}

#[test]
fn png_round_trip_preserves_pixels_exactly() {
    let image = checkerboard(5, 3);
    let bytes = encode(&image, &ConvertOptions::default()).unwrap();
    let decoded = decode(&bytes, &ConvertOptions::default()).unwrap();
    assert_eq!(decoded.width, image.width);
    assert_eq!(decoded.height, image.height);
    assert_eq!(decoded.pixels, image.pixels);
}

#[test]
fn png_round_trip_preserves_alpha() {
    let mut image = checkerboard(2, 2);
    image.pixels[3] = 128;
    let bytes = encode(&image, &ConvertOptions::default()).unwrap();
    let decoded = decode(&bytes, &ConvertOptions::default()).unwrap();
    assert_eq!(decoded.pixels, image.pixels);
}

#[test]
fn png_decode_rejects_bad_signature() {
    let mut bytes = encode(&checkerboard(2, 2), &ConvertOptions::default()).unwrap();
    bytes[1] ^= 0xFF;
    assert!(matches!(
        decode(&bytes, &ConvertOptions::default()),
        Err(ConvertError::MalformedInput { format: Format::Png })
    ));
}

#[test]
fn decode_rejects_a_corrupted_chunk_crc() {
    let mut bytes = encode(&checkerboard(3, 3), &ConvertOptions::default()).unwrap();
    let last = bytes.len() - 1;
    bytes[last] ^= 0xFF;
    assert!(matches!(
        decode(&bytes, &ConvertOptions::default()),
        Err(ConvertError::MalformedInput { format: Format::Png })
    ));
}

#[test]
fn png_decode_rejects_truncated_input() {
    let bytes = encode(&checkerboard(4, 4), &ConvertOptions::default()).unwrap();
    let truncated = &bytes[..bytes.len() / 2];
    assert!(matches!(
        decode(truncated, &ConvertOptions::default()),
        Err(ConvertError::MalformedInput { format: Format::Png })
    ));
}

#[test]
fn decode_reports_palette_color_type_as_unsupported_not_malformed() {
    let mut bytes = encode(&checkerboard(2, 2), &ConvertOptions::default()).unwrap();
    let color_type_offset = 8 + 4 + 4 + 4 + 4 + 1;
    bytes[color_type_offset] = 3;
    let ihdr_crc_start = color_type_offset + 1 + 1 + 1 + 1;
    let crc = crc32_of_chunk(b"IHDR", &bytes[8 + 8..ihdr_crc_start]);
    bytes[ihdr_crc_start..ihdr_crc_start + 4].copy_from_slice(&crc.to_be_bytes());
    assert!(matches!(
        decode(&bytes, &ConvertOptions::default()),
        Err(ConvertError::UnsupportedFeature { format: Format::Png, feature: "png-color-type" })
    ));
}

#[test]
fn decode_checks_cancellation_on_more_than_just_the_first_row() {
    let bytes = encode(&checkerboard(1, 3), &ConvertOptions::default()).unwrap();
    let (options, sink) = options_cancelling_after(1);
    let result = decode(&bytes, &options);
    assert!(matches!(result, Err(ConvertError::Cancelled)));
    assert!(sink.calls.load(Ordering::SeqCst) >= 2);
}

#[test]
fn encode_checks_cancellation_on_more_than_just_the_first_row() {
    let image = checkerboard(1, 3);
    let (options, sink) = options_cancelling_after(1);
    let result = encode(&image, &options);
    assert!(matches!(result, Err(ConvertError::Cancelled)));
    assert!(sink.calls.load(Ordering::SeqCst) >= 2);
}

#[test]
fn paeth_predictor_matches_spec_examples() {
    assert_eq!(paeth_predictor(10, 20, 30), 10);
    assert_eq!(paeth_predictor(5, 5, 5), 5);
}

#[test]
fn paeth_predictor_picks_above_and_upper_left_when_closest() {
    // p = 1 + 10 - 0 = 11: |p - above| = 1 is the smallest.
    assert_eq!(paeth_predictor(1, 10, 0), 10);
    // p = 10 + 10 - 9 = 11: |p - left| = |p - above| = 1, ties go to left.
    assert_eq!(paeth_predictor(10, 10, 9), 10);
    // p = 10 + 20 - 15 = 15: upper_left is closest.
    assert_eq!(paeth_predictor(10, 20, 15), 15);
}

#[test]
fn unfilter_row_undoes_each_filter_type() {
    let prev = [10u8, 20, 30, 40];
    assert_eq!(unfilter_row(0, &[1, 2, 3, 4], &prev, 2), Some(vec![1, 2, 3, 4]));
    assert_eq!(unfilter_row(1, &[1, 2, 3, 4], &prev, 2), Some(vec![1, 2, 4, 6]));
    assert_eq!(unfilter_row(2, &[1, 2, 3, 4], &prev, 2), Some(vec![11, 22, 33, 44]));
    assert_eq!(unfilter_row(3, &[1, 2, 3, 4], &prev, 2), Some(vec![6, 12, 21, 30]));
    assert_eq!(unfilter_row(5, &[1, 2, 3, 4], &prev, 2), None);
}

#[test]
fn png_encode_starts_with_the_signature_and_ends_with_iend() {
    let bytes = encode(&checkerboard(2, 2), &ConvertOptions::default()).unwrap();
    assert_eq!(&bytes[..8], &[0x89, 0x50, 0x4e, 0x47, 0x0d, 0x0a, 0x1a, 0x0a]);
    assert_eq!(&bytes[bytes.len() - 12..], &[0, 0, 0, 0, 0x49, 0x45, 0x4e, 0x44, 0xae, 0x42, 0x60, 0x82]);
}

#[test]
fn encode_accepts_an_image_with_no_rows() {
    let img = RawImage { width: 4, height: 0, pixels: Vec::new() };
    let out = encode(&img, &ConvertOptions::default()).unwrap();
    assert_eq!(&out[..8], &[0x89, 0x50, 0x4E, 0x47, 0x0D, 0x0A, 0x1A, 0x0A]);
    assert_eq!(&out[out.len() - 8..out.len() - 4], b"IEND");
}
