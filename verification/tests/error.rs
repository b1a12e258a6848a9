use conv_core::{ConvertError, Format};

#[test]
fn message_names_an_unsupported_pair_by_ids() {
    let e = ConvertError::UnsupportedPair { from: Format::Png, to: Format::UnitsMass };
    assert_eq!(e.message(), "unsupported conversion pair: png -> units_mass");
}

#[test]
fn message_for_malformed_input() {
    let e = ConvertError::MalformedInput { format: Format::Webp };
    assert_eq!(e.message(), "malformed input for format: webp");
}

#[test]
fn message_quotes_the_unsupported_feature() {
    let e = ConvertError::UnsupportedFeature { format: Format::Jpeg, feature: "progressive-scan" };
    assert_eq!(e.message(), "unsupported feature 'progressive-scan' for format: jpeg");
}

#[test]
fn message_writes_sizes_in_decimal() {
    let e = ConvertError::SizeLimitExceeded { limit: 10, actual: 1234567 };
    assert_eq!(e.message(), "input size 1234567 bytes exceeds limit of 10 bytes");
    let z = ConvertError::SizeLimitExceeded { limit: 0, actual: u64::MAX };
    assert_eq!(z.message(), "input size 18446744073709551615 bytes exceeds limit of 0 bytes");
}

#[test]
fn message_for_cancellation_and_internal_errors() {
    assert_eq!(ConvertError::Cancelled.message(), "conversion cancelled");
    assert_eq!(ConvertError::Internal { detail: "registry-lock-poisoned" }.message(), "internal error: registry-lock-poisoned");
}

#[test]
fn format_ids_are_lowercase_words() {
    for f in conv_core::bindings::known_formats() {
        let id = f.id();
        assert!(!id.is_empty());
        assert!(id.chars().all(|c| c.is_ascii_lowercase() || c.is_ascii_digit() || c == '_'));
    }
    assert_eq!(Format::PlainText.id(), "plain_text");
}
