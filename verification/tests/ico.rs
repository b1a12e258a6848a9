use conv_core::formats::image::ico::{decode, encode, ICONDIRENTRY_LEN, ICONDIR_LEN};
use conv_core::formats::image::{png, RawImage};
use conv_core::{ConvertError, ConvertOptions, Format, ProgressSink};
use std::sync::atomic::{AtomicUsize, Ordering};
use std::sync::Arc;

const RESOURCE_TYPE_ICON: u16 = 1;
const RESOURCE_TYPE_CURSOR: u16 = 2;

/// A real 32bpp raw-DIB ICO, built by Pillow (`Image.save(..., bitmap_format="bmp")`) — an
/// independent encoder, not this module's own (which only ever emits PNG-compressed
/// entries). Confirms `decode_dib_entry` against ground truth this module had no hand in
/// producing, the same cross-validation strategy `png.rs`'s filter-coverage test uses.
const ICO_DIB: &[u8] = &[
    0x00, 0x00, 0x01, 0x00, 0x01, 0x00, 0x03, 0x03, 0x00, 0x00, 0x00, 0x00, 0x20, 0x00, 0x4c,
    0x00, 0x00, 0x00, 0x16, 0x00, 0x00, 0x00, 0x28, 0x00, 0x00, 0x00, 0x03, 0x00, 0x00, 0x00,
    0x06, 0x00, 0x00, 0x00, 0x01, 0x00, 0x20, 0x00, 0x00, 0x00, 0x00, 0x00, 0x24, 0x00, 0x00,
    0x00, 0xc4, 0x0e, 0x00, 0x00, 0xc4, 0x0e, 0x00, 0x00, 0x00, 0x00, 0x00, 0x00, 0x00, 0x00,
    0x00, 0x00, 0x05, 0xa0, 0x0a, 0xff, 0x41, 0xa0, 0x46, 0xb4, 0x7d, 0xa0, 0x82, 0xff, 0x05,
    0x5a, 0x0a, 0xb4, 0x23, 0x5a, 0x46, 0xff, 0x41, 0x5a, 0x82, 0xb4, 0x05, 0x14, 0x0a, 0xff,
    0x05, 0x14, 0x46, 0xb4, 0x05, 0x14, 0x82, 0xff,
];

/// `ICO_DIB`'s pixels, RGBA row-major top-to-bottom — read directly from the RGBA tuples fed
/// into Pillow before encoding, not derived from this module in any way.
const ICO_DIB_RGBA: &[u8] = &[
    0x0a, 0x14, 0x05, 0xff, 0x46, 0x14, 0x05, 0xb4, 0x82, 0x14, 0x05, 0xff, 0x0a, 0x5a, 0x05,
    0xb4, 0x46, 0x5a, 0x23, 0xff, 0x82, 0x5a, 0x41, 0xb4, 0x0a, 0xa0, 0x05, 0xff, 0x46, 0xa0,
    0x41, 0xb4, 0x82, 0xa0, 0x7d, 0xff,
];

#[test]
fn decode_matches_an_independently_built_raw_dib_ico() {
    let decoded = decode(ICO_DIB, &ConvertOptions::default()).unwrap();
    assert_eq!(decoded.width, 3);
    assert_eq!(decoded.height, 3);
    assert_eq!(decoded.pixels, ICO_DIB_RGBA);
}

fn checkerboard(width: u32, height: u32) -> RawImage {
    let mut pixels = vec![0u8; (width * height * 4) as usize];
    for y in 0..height {
        for x in 0..width {
            let idx = ((y * width + x) * 4) as usize;
            let v = if (x + y) % 2 == 0 { 255 } else { 0 };
            pixels[idx] = v;
            pixels[idx + 1] = v;
            pixels[idx + 2] = v;
            pixels[idx + 3] = 255;
        }
    }
    RawImage::new(width, height, pixels, Format::Ico).unwrap()
}

#[test]
fn ico_round_trip_preserves_pixels_exactly() {
    let image = checkerboard(5, 3);
    let bytes = encode(&image, &ConvertOptions::default()).unwrap();
    let decoded = decode(&bytes, &ConvertOptions::default()).unwrap();
    assert_eq!(decoded.width, image.width);
    assert_eq!(decoded.height, image.height);
    assert_eq!(decoded.pixels, image.pixels);
}

#[test]
fn encode_rejects_images_larger_than_256() {
    let image = checkerboard(300, 10);
    let result = encode(&image, &ConvertOptions::default());
    assert!(matches!(
        result,
        Err(ConvertError::UnsupportedFeature {
            format: Format::Ico,
            feature: "ico-size-too-large"
        })
    ));
}

#[test]
fn encode_dimension_256_maps_to_the_zero_sentinel() {
    let image = checkerboard(256, 1);
    let bytes = encode(&image, &ConvertOptions::default()).unwrap();
    assert_eq!(bytes[6], 0); // bWidth
                             // Round trip still recovers the true size via the DIB/PNG header, not the byte field.
    let decoded = decode(&bytes, &ConvertOptions::default()).unwrap();
    assert_eq!(decoded.width, 256);
}

#[test]
fn decode_rejects_a_cursor_resource_type_as_unsupported() {
    let mut bytes = encode(&checkerboard(2, 2), &ConvertOptions::default()).unwrap();
    bytes[2..4].copy_from_slice(&RESOURCE_TYPE_CURSOR.to_le_bytes());
    assert!(matches!(
        decode(&bytes, &ConvertOptions::default()),
        Err(ConvertError::UnsupportedFeature {
            format: Format::Ico,
            feature: "ico-cursor-format"
        })
    ));
}

#[test]
fn decode_rejects_zero_entries() {
    let mut bytes = encode(&checkerboard(2, 2), &ConvertOptions::default()).unwrap();
    bytes[4..6].copy_from_slice(&0u16.to_le_bytes());
    assert!(matches!(
        decode(&bytes, &ConvertOptions::default()),
        Err(ConvertError::MalformedInput {
            format: Format::Ico
        })
    ));
}

#[test]
fn ico_decode_rejects_truncated_input() {
    let bytes = encode(&checkerboard(4, 4), &ConvertOptions::default()).unwrap();
    let truncated = &bytes[..bytes.len() / 2];
    assert!(matches!(
        decode(truncated, &ConvertOptions::default()),
        Err(ConvertError::MalformedInput {
            format: Format::Ico
        })
    ));
}

#[test]
fn decode_picks_the_largest_entry_among_several() {
    // Two entries pointing at the same PNG bytes but declaring different sizes — decode
    // should pick the one this test can tell apart, i.e. the larger declared size.
    let small = checkerboard(2, 2);
    let large = checkerboard(6, 6);
    let small_png = png::encode(&small, &ConvertOptions::default()).unwrap();
    let large_png = png::encode(&large, &ConvertOptions::default()).unwrap();

    let mut out = Vec::new();
    out.extend_from_slice(&0u16.to_le_bytes());
    out.extend_from_slice(&RESOURCE_TYPE_ICON.to_le_bytes());
    out.extend_from_slice(&2u16.to_le_bytes()); // two entries

    let first_entry_off = ICONDIR_LEN as u32;
    let second_entry_off = first_entry_off + ICONDIRENTRY_LEN as u32;
    let small_offset = second_entry_off + ICONDIRENTRY_LEN as u32;
    let large_offset = small_offset + small_png.len() as u32;

    // Entry 0: declares the *small* size, points at the small PNG.
    out.push(2);
    out.push(2);
    out.extend_from_slice(&[0, 0]);
    out.extend_from_slice(&1u16.to_le_bytes());
    out.extend_from_slice(&32u16.to_le_bytes());
    out.extend_from_slice(&(small_png.len() as u32).to_le_bytes());
    out.extend_from_slice(&small_offset.to_le_bytes());

    // Entry 1: declares the *large* size, points at the large PNG.
    out.push(6);
    out.push(6);
    out.extend_from_slice(&[0, 0]);
    out.extend_from_slice(&1u16.to_le_bytes());
    out.extend_from_slice(&32u16.to_le_bytes());
    out.extend_from_slice(&(large_png.len() as u32).to_le_bytes());
    out.extend_from_slice(&large_offset.to_le_bytes());

    out.extend_from_slice(&small_png);
    out.extend_from_slice(&large_png);

    let decoded = decode(&out, &ConvertOptions::default()).unwrap();
    assert_eq!(decoded.width, 6);
    assert_eq!(decoded.height, 6);
}

struct CancelAfterNPolls {
    calls: AtomicUsize,
    cancel_after: usize,
}

impl ProgressSink for CancelAfterNPolls {
    fn on_progress(&self, _done: u64, _total: u64) {}
    fn is_cancelled(&self) -> bool {
        self.calls.fetch_add(1, Ordering::SeqCst) >= self.cancel_after
    }
}

fn options_cancelling_after(cancel_after: usize) -> (ConvertOptions, Arc<CancelAfterNPolls>) {
    let sink = Arc::new(CancelAfterNPolls {
        calls: AtomicUsize::new(0),
        cancel_after,
    });
    let options = ConvertOptions {
        progress: Some(sink.clone() as Arc<dyn ProgressSink>),
        ..ConvertOptions::default()
    };
    (options, sink)
}

#[test]
fn decode_dib_entry_checks_cancellation_on_more_than_just_the_first_row() {
    let (options, sink) = options_cancelling_after(1);
    let result = decode(ICO_DIB, &options);
    assert!(matches!(result, Err(ConvertError::Cancelled)));
    assert!(sink.calls.load(Ordering::SeqCst) >= 2);
}
