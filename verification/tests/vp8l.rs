use conv_core::formats::image::vp8l::{
    build_huffman, decode_image_stream, decode_symbol, read_huffman_code_lengths, encode_image_stream, prefix_decode_value, BitReader,
    BitWriter, Stop,
};
use conv_core::ConvertOptions;

#[test]
fn huffman_single_symbol_round_trips_with_zero_bits() {
    let mut lengths = vec![0u8; 10];
    lengths[3] = 1;
    let table = build_huffman(&lengths).unwrap();
    let mut reader = BitReader::new(&[]);
    assert_eq!(decode_symbol(&mut reader, &table), Some(3));
}

#[test]
fn huffman_empty_table_never_decodes() {
    let lengths = vec![0u8; 10];
    let table = build_huffman(&lengths).unwrap();
    let mut reader = BitReader::new(&[0xff]);
    assert!(decode_symbol(&mut reader, &table).is_none());
}

#[test]
fn huffman_rejects_an_over_subscribed_code() {
    assert!(build_huffman(&[1, 1, 1]).is_none());
}

#[test]
fn bit_writer_round_trips_through_bit_reader() {
    let mut writer = BitWriter::new();
    writer.write_bits(0b101, 3);
    writer.write_bits(0b1, 1);
    writer.write_bits(0b11001, 5);
    let bytes = writer.finish();

    let mut reader = BitReader::new(&bytes);
    assert_eq!(reader.read_bits(3), Some(0b101));
    assert_eq!(reader.read_bits(1), Some(0b1));
    assert_eq!(reader.read_bits(5), Some(0b11001));
}

#[test]
fn prefix_decode_value_matches_known_ranges() {
    assert_eq!(prefix_decode_value(&mut BitReader::new(&[]), 0).unwrap(), 1);
    assert_eq!(prefix_decode_value(&mut BitReader::new(&[]), 3).unwrap(), 4);
    assert_eq!(prefix_decode_value(&mut BitReader::new(&[0b0]), 4).unwrap(), 5);
    assert_eq!(prefix_decode_value(&mut BitReader::new(&[0b1]), 4).unwrap(), 6);
}

#[test]
fn prefix_decode_value_without_its_extra_bits_is_malformed() {
    assert_eq!(prefix_decode_value(&mut BitReader::new(&[]), 4), Err(Stop::Malformed));
}

#[test]
fn encode_then_decode_round_trips_a_small_image() {
    let width = 4usize;
    let height = 3usize;
    let mut pixels = Vec::with_capacity(width * height);
    for y in 0..height {
        for x in 0..width {
            let r = (x * 37 + y * 11) as u32 % 256;
            let g = (x * 7 + y * 53) as u32 % 256;
            let b = (x * x + y) as u32 % 256;
            let a = (200 + x * 3 + y * 5) as u32 % 256;
            pixels.push((a << 24) | (r << 16) | (g << 8) | b);
        }
    }

    let options = ConvertOptions::default();
    let mut writer = BitWriter::new();
    encode_image_stream(&mut writer, &pixels, &options)
        .unwrap_or_else(|_| panic!("encoding a valid pixel buffer should never fail"));
    let encoded = writer.finish();

    let mut reader = BitReader::new(&encoded);
    let decoded = decode_image_stream(&mut reader, width, height, true, &options, false)
        .unwrap_or_else(|_| panic!("decoding this encoder's own output should never fail"));

    assert_eq!(decoded, pixels);
}

#[test]
fn truncated_image_stream_is_malformed() {
    let options = ConvertOptions::default();
    let mut reader = BitReader::new(&[]);
    assert_eq!(decode_image_stream(&mut reader, 1, 1, true, &options, false), Err(Stop::Malformed));
}

#[test]
fn huffman_tables_over_large_alphabets_decode() {
    let mut lengths = vec![0u8; 5000];
    lengths[4500] = 1;
    lengths[4999] = 1;
    let table = build_huffman(&lengths).unwrap();
    let mut reader = BitReader::new(&[0b10]);
    assert_eq!(decode_symbol(&mut reader, &table), Some(4500));
    assert_eq!(decode_symbol(&mut reader, &table), Some(4999));
}

#[test]
fn huffman_single_symbol_past_a_large_alphabet_start() {
    let mut lengths = vec![0u8; 6000];
    lengths[5001] = 3;
    let table = build_huffman(&lengths).unwrap();
    let mut reader = BitReader::new(&[]);
    assert_eq!(decode_symbol(&mut reader, &table), Some(5001));
}

#[test]
fn simple_code_lengths_for_a_large_alphabet() {
    // simple code, two symbols, first one 8 bits wide: 200 and 7.
    let mut writer = BitWriter::new();
    writer.write_bits(1, 1);
    writer.write_bits(1, 1);
    writer.write_bits(1, 1);
    writer.write_bits(200, 8);
    writer.write_bits(7, 8);
    let bytes = writer.finish();
    let mut reader = BitReader::new(&bytes);
    let lengths = read_huffman_code_lengths(&mut reader, 5000).unwrap();
    assert_eq!(lengths.len(), 5000);
    assert_eq!(lengths[200], 1);
    assert_eq!(lengths[7], 1);
    assert_eq!(lengths.iter().filter(|&&l| l != 0).count(), 2);
}

#[test]
fn simple_code_symbol_outside_the_alphabet_is_malformed() {
    let mut writer = BitWriter::new();
    writer.write_bits(1, 1);
    writer.write_bits(0, 1);
    writer.write_bits(1, 1);
    writer.write_bits(200, 8);
    let bytes = writer.finish();
    let mut reader = BitReader::new(&bytes);
    assert_eq!(read_huffman_code_lengths(&mut reader, 100), Err(Stop::Malformed));
}
