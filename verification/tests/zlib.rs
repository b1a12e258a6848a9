use conv_core::formats::image::zlib::{adler32, inflate, zlib_compress, zlib_decompress};

/// A dynamic-Huffman stream from an independent zlib encoder (repetitive text).
const DYNAMIC_COMPRESSED: &[u8] = &[
    0x2b, 0xc9, 0x48, 0x55, 0x28, 0x2c, 0xcd, 0x4c, 0xce, 0x56, 0x48, 0x2a, 0xca, 0x2f, 0xcf,
    0x53, 0x48, 0xcb, 0xaf, 0x50, 0xc8, 0x2a, 0xcd, 0x2d, 0x28, 0x56, 0xc8, 0x2f, 0x4b, 0x2d,
    0x52, 0x28, 0x01, 0x4a, 0xe7, 0x24, 0x56, 0x55, 0x2a, 0xa4, 0xe4, 0xa7, 0xeb, 0x81, 0x79,
    0xa3, 0x8a, 0x47, 0x15, 0x8f, 0x2a, 0xa6, 0xaa, 0x62, 0x00,
];
const DYNAMIC_INPUT_REPEAT: &[u8] = b"the quick brown fox jumps over the lazy dog. ";
const DYNAMIC_INPUT_COUNT: usize = 20;

/// The same encoder forced onto fixed Huffman codes.
const FIXED_COMPRESSED: &[u8] = &[
    0x73, 0x74, 0x72, 0xa4, 0x39, 0x8c, 0x88, 0x8c, 0x32, 0x34, 0x32, 0x06, 0x00,
];
const FIXED_INPUT: &[u8] = b"ABABABABABABABABABABABABABABABABABABABABABABABABABABABABABABABABABABABABABABABABABABABABABABABABABABXYZ123";

const STORED_COMPRESSED: &[u8] = &[
    0x01, 0x36, 0x00, 0xc9, 0xff, 0x68, 0x65, 0x6c, 0x6c, 0x6f, 0x20, 0x73, 0x74, 0x6f, 0x72,
    0x65, 0x64, 0x20, 0x77, 0x6f, 0x72, 0x6c, 0x64, 0x68, 0x65, 0x6c, 0x6c, 0x6f, 0x20, 0x73,
    0x74, 0x6f, 0x72, 0x65, 0x64, 0x20, 0x77, 0x6f, 0x72, 0x6c, 0x64, 0x68, 0x65, 0x6c, 0x6c,
    0x6f, 0x20, 0x73, 0x74, 0x6f, 0x72, 0x65, 0x64, 0x20, 0x77, 0x6f, 0x72, 0x6c, 0x64,
];
const STORED_INPUT: &[u8] = b"hello stored worldhello stored worldhello stored world";

#[test]
fn inflate_decodes_a_real_dynamic_huffman_stream_from_an_independent_encoder() {
    let expected = DYNAMIC_INPUT_REPEAT.repeat(DYNAMIC_INPUT_COUNT);
    let out = inflate(DYNAMIC_COMPRESSED, expected.len()).expect("valid stream");
    assert_eq!(out, expected);
}

#[test]
fn inflate_decodes_a_real_fixed_huffman_stream_from_an_independent_encoder() {
    let out = inflate(FIXED_COMPRESSED, FIXED_INPUT.len()).expect("valid stream");
    assert_eq!(out, FIXED_INPUT);
}

#[test]
fn inflate_decodes_a_real_stored_stream_from_an_independent_encoder() {
    let out = inflate(STORED_COMPRESSED, STORED_INPUT.len()).expect("valid stream");
    assert_eq!(out, STORED_INPUT);
}

#[test]
fn inflate_rejects_output_longer_than_expected() {
    let expected = DYNAMIC_INPUT_REPEAT.repeat(DYNAMIC_INPUT_COUNT);
    assert!(inflate(DYNAMIC_COMPRESSED, expected.len() - 1).is_none());
}

#[test]
fn inflate_rejects_truncated_input() {
    let truncated = &DYNAMIC_COMPRESSED[..DYNAMIC_COMPRESSED.len() / 2];
    let expected = DYNAMIC_INPUT_REPEAT.repeat(DYNAMIC_INPUT_COUNT);
    assert!(inflate(truncated, expected.len()).is_none());
}

#[test]
fn inflate_rejects_a_back_reference_before_the_start_of_output() {
    assert!(inflate(FIXED_COMPRESSED, 0).is_none());
}

#[test]
fn zlib_round_trip_matches_python_zlib_compressed_and_our_own_stored_encoder() {
    let input = STORED_INPUT;
    let wrapped = zlib_compress(input);
    let out = zlib_decompress(&wrapped, input.len()).expect("valid stream");
    assert_eq!(out, input);
}

#[test]
fn zlib_decompress_rejects_a_corrupted_adler32_trailer() {
    let mut wrapped = zlib_compress(STORED_INPUT);
    let last = wrapped.len() - 1;
    wrapped[last] ^= 0xFF;
    assert!(zlib_decompress(&wrapped, STORED_INPUT.len()).is_none());
}

#[test]
fn zlib_decompress_rejects_a_preset_dictionary_flag() {
    let mut wrapped = zlib_compress(STORED_INPUT);
    wrapped[1] = 0x20;
    assert!(zlib_decompress(&wrapped, STORED_INPUT.len()).is_none());
}

#[test]
fn deflate_stored_splits_blocks_larger_than_65535_bytes() {
    let input = vec![0x42u8; 70_000];
    let wrapped = zlib_compress(&input);
    let out = zlib_decompress(&wrapped, input.len()).expect("valid stream");
    assert_eq!(out, input);
}

#[test]
fn adler32_matches_a_known_value() {
    assert_eq!(adler32(b"Wikipedia"), 0x11E6_0398);
}

#[test]
fn zlib_stream_starts_with_the_fixed_header_and_ends_with_adler32() {
    let wrapped = zlib_compress(b"abc");
    assert_eq!(&wrapped[..2], &[0x78, 0x01]);
    let n = wrapped.len();
    assert_eq!(&wrapped[n - 4..], &adler32(b"abc").to_be_bytes());
    assert_eq!(zlib_decompress(&wrapped, 3), Some(b"abc".to_vec()));
}

#[test]
fn zlib_round_trip_of_empty_input() {
    let wrapped = zlib_compress(&[]);
    assert_eq!(zlib_decompress(&wrapped, 0), Some(Vec::new()));
}
