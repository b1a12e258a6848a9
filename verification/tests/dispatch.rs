use std::sync::atomic::{AtomicBool, Ordering};
use std::sync::Arc;

use conv_core::formats::identity::IdentityConverter;
use conv_core::formats::image::converter::{encode, formats};
use conv_core::formats::image::{RasterConverter, RawImage};
use conv_core::{convert_with, ConvertError, ConvertOptions, Converter, Format, ProgressSink, Registry};

#[test]
fn convert_with_reports_unsupported_pair_for_an_empty_registry() {
    let empty: Registry = Registry::new();
    let result = convert_with(&empty, b"x", Format::PlainText, Format::PlainText, &ConvertOptions::default());
    assert!(matches!(result, Err(ConvertError::UnsupportedPair { .. })));
}

#[test]
fn unsupported_pair_is_a_typed_error_not_a_panic() {
    let empty: Registry = Registry::new();
    let result = convert_with(&empty, b"anything", Format::PlainText, Format::PlainText, &ConvertOptions::default());
    assert!(matches!(result, Err(ConvertError::UnsupportedPair { .. })));
}

fn identity_registry() -> Registry {
    let mut registry: Registry = Registry::new();
    registry.register(Format::PlainText, Format::PlainText, Box::new(IdentityConverter));
    registry
}

#[test]
fn identity_converts_end_to_end_through_a_registry() {
    let input = b"round trip me";
    let output = convert_with(&identity_registry(), input, Format::PlainText, Format::PlainText, &ConvertOptions::default())
        .expect("PlainText -> PlainText is registered");
    assert_eq!(output, input);
}

#[test]
fn size_limit_is_enforced_before_the_registry_is_consulted() {
    let options = ConvertOptions { max_input_bytes: Some(1), ..ConvertOptions::default() };
    let result = convert_with(&identity_registry(), b"ab", Format::PlainText, Format::PlainText, &options);
    assert!(matches!(result, Err(ConvertError::SizeLimitExceeded { limit: 1, actual: 2 })));
}

struct AlwaysCancelled {
    was_polled: AtomicBool,
}

impl ProgressSink for AlwaysCancelled {
    fn on_progress(&self, _done: u64, _total: u64) {}

    fn is_cancelled(&self) -> bool {
        self.was_polled.store(true, Ordering::SeqCst);
        true
    }
}

#[test]
fn cancellation_short_circuits_a_dispatched_conversion() {
    let sink = Arc::new(AlwaysCancelled { was_polled: AtomicBool::new(false) });
    let options = ConvertOptions { progress: Some(sink.clone() as Arc<dyn ProgressSink>), ..ConvertOptions::default() };
    let result = convert_with(&identity_registry(), b"data", Format::PlainText, Format::PlainText, &options);
    assert!(matches!(result, Err(ConvertError::Cancelled)));
    assert!(sink.was_polled.load(Ordering::SeqCst));
}

#[test]
fn registering_again_replaces_the_converter() {
    let mut registry: Registry = Registry::new();
    registry.register(Format::Png, Format::Bmp, Box::new(IdentityConverter));
    registry.register(Format::Png, Format::Bmp, Box::new(RasterConverter));
    assert!(registry.resolve(Format::Png, Format::Bmp).is_some());
    assert!(registry.resolve(Format::Bmp, Format::Png).is_none());
}

#[test]
fn every_pair_in_formats_is_wired_up_in_decode_and_convert() {
    let options = ConvertOptions::default();
    let image = RawImage::new(1, 1, vec![10, 20, 30, 255], Format::Bmp).expect("a 1x1 RGBA image is always valid");
    let converter = RasterConverter;
    for from in formats() {
        let encoded = encode(&image, from, from, &options).expect("encoding a valid 1x1 RawImage should never fail");
        for to in formats() {
            if from == to {
                continue;
            }
            let result = converter.convert(&encoded, from, to, &options);
            assert!(
                !matches!(result, Err(ConvertError::UnsupportedPair { .. })),
                "{from:?} -> {to:?} is listed but not handled"
            );
        }
    }
}

#[test]
fn raster_converter_keeps_opaque_pixels_across_every_pair() {
    let options = ConvertOptions::default();
    let image = RawImage::new(1, 1, vec![10, 20, 30, 255], Format::Bmp).unwrap();
    for from in formats() {
        let encoded = encode(&image, from, from, &options).unwrap();
        for to in formats() {
            let converted = RasterConverter.convert_raster(&encoded, from, to, &options).unwrap();
            let back = conv_core::formats::image::converter::decode(&converted, to, &options).unwrap();
            assert_eq!(back.pixels, vec![10, 20, 30, 255], "{from:?} -> {to:?}");
        }
    }
}

#[test]
fn raster_converter_reports_formats_it_does_not_read() {
    let result = RasterConverter.convert_raster(b"x", Format::PlainText, Format::Png, &ConvertOptions::default());
    assert!(matches!(result, Err(ConvertError::UnsupportedPair { from: Format::PlainText, to: Format::PlainText })));
}
