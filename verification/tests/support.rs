/// Asserts `actual` is within `tolerance` (a fraction) of `expected`.
fn assert_size_within_tolerance(actual: usize, expected: usize, tolerance: f64) {
    assert!((0.0..=1.0).contains(&tolerance), "tolerance must be a fraction in 0.0..=1.0, got {tolerance}");
    let expected_f = expected as f64;
    let actual_f = actual as f64;
    let allowed = expected_f * tolerance;
    let diff = (actual_f - expected_f).abs();
    assert!(
        diff <= allowed,
        "output size {actual} bytes is outside the ±{:.0}% tolerance band around {expected} bytes (diff {diff}, allowed {allowed})",
        tolerance * 100.0
    );
}

/// Asserts `bytes` starts with `magic`.
fn assert_starts_with_magic(bytes: &[u8], magic: &[u8], format_label: &str) {
    let head = &bytes[..bytes.len().min(magic.len())];
    assert!(
        head == magic,
        "output does not start with the expected {format_label} magic bytes {magic:02x?} — got {head:02x?}"
    );
}

#[test]
fn size_within_tolerance_accepts_values_inside_the_band() {
    assert_size_within_tolerance(105, 100, 0.10);
    assert_size_within_tolerance(95, 100, 0.10);
    assert_size_within_tolerance(100, 100, 0.0);
}

#[test]
#[should_panic(expected = "outside the")]
fn size_within_tolerance_rejects_a_value_outside_the_band() {
    assert_size_within_tolerance(120, 100, 0.10);
}

#[test]
fn starts_with_magic_accepts_a_matching_header() {
    assert_starts_with_magic(b"\x89PNG\r\n\x1a\nrest-of-file", b"\x89PNG\r\n\x1a\n", "PNG");
}

#[test]
#[should_panic(expected = "does not start with")]
fn starts_with_magic_rejects_a_wrong_header() {
    assert_starts_with_magic(b"not a png", b"\x89PNG\r\n\x1a\n", "PNG");
}

#[test]
#[should_panic(expected = "does not start with")]
fn starts_with_magic_rejects_output_shorter_than_the_magic() {
    assert_starts_with_magic(b"\x89PN", b"\x89PNG\r\n\x1a\n", "PNG");
}
