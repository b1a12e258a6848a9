use conv_core::formats::units::payload::parse_request;
use conv_core::formats::units::UnitsConverter;
use conv_core::{ConvertError, ConvertOptions, Format};

#[test]
fn parses_a_well_formed_request() {
    let req = parse_request(b"celsius|fahrenheit|0", Format::PlainText).unwrap();
    assert_eq!(req.from_unit, "celsius");
    assert_eq!(req.to_unit, "fahrenheit");
    assert_eq!(req.raw_value, "0");
}

#[test]
fn rejects_wrong_field_count() {
    assert!(parse_request(b"celsius|fahrenheit", Format::PlainText).is_err());
    assert!(parse_request(b"celsius|fahrenheit|0|extra", Format::PlainText).is_err());
    assert!(parse_request(b"", Format::PlainText).is_err());
}

#[test]
fn rejects_empty_fields() {
    assert!(parse_request(b"|fahrenheit|0", Format::PlainText).is_err());
    assert!(parse_request(b"celsius||0", Format::PlainText).is_err());
    assert!(parse_request(b"celsius|fahrenheit|", Format::PlainText).is_err());
}

#[test]
fn rejects_invalid_utf8() {
    assert!(parse_request(&[0xff, 0xfe, b'|', b'a', b'|', b'1'], Format::PlainText).is_err());
}

#[test]
fn errors_name_the_requested_format() {
    assert!(matches!(
        parse_request(b"a|b", Format::UnitsLength),
        Err(ConvertError::MalformedInput { format: Format::UnitsLength })
    ));
}

#[test]
fn prepare_rejects_a_format_that_is_no_unit_category() {
    let err = UnitsConverter.prepare(b"a|b|1", Format::PlainText, Format::PlainText, &ConvertOptions::default());
    assert!(matches!(err, Err(ConvertError::UnsupportedPair { .. })));
}

#[test]
fn prepare_names_the_category_and_splits_the_request() {
    let (category, req) = UnitsConverter
        .prepare(b"meter|foot|1", Format::UnitsLength, Format::UnitsLength, &ConvertOptions::default())
        .unwrap();
    assert_eq!(category, "length");
    assert_eq!((req.from_unit, req.to_unit, req.raw_value), ("meter", "foot", "1"));
}
