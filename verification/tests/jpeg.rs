use conv_core::formats::image::jpeg::{
    build_encode_huff, build_huff_table, category_and_bits, clamp_to_category, decode_block, decode_huff,
    decode_scan_blocks, encode_coefficients, encode_mcus, encode_quality, encode_scan, extend, natural_to_zigzag,
    parse_dht, parse_dqt, parse_dri, parse_sof, quant_tables, read_headers, read_u16_be, scale_quant_table,
    skip_segment, std_ac_luma_bits, std_ac_luma_values, std_dc_luma_bits, std_dc_values, std_luma_qt, write_dht,
    write_marker_with_len, write_sof0, zigzag, BitReader, BitWriter, ScanTables, MAX_AC_CATEGORY,
};
use conv_core::{ConvertError, ConvertOptions, Format};

#[test]
fn category_and_bits_round_trips_through_extend() {
    for v in -2000..=2000 {
        let (size, bits) = category_and_bits(v);
        assert_eq!(extend(bits, size), v, "failed for v={v}");
    }
}

#[test]
fn category_and_bits_matches_known_codes() {
    assert_eq!(category_and_bits(0), (0, 0));
    assert_eq!(category_and_bits(1), (1, 1));
    assert_eq!(category_and_bits(-1), (1, 0));
    assert_eq!(category_and_bits(5), (3, 5));
    assert_eq!(category_and_bits(-5), (3, 2));
    assert_eq!(category_and_bits(1023), (10, 1023));
}

#[test]
fn extend_maps_low_fields_to_negative_values() {
    assert_eq!(extend(0, 0), 0);
    assert_eq!(extend(0, 1), -1);
    assert_eq!(extend(1, 1), 1);
    assert_eq!(extend(2, 3), -5);
    assert_eq!(extend(4, 3), 4);
}

#[test]
fn clamp_to_category_limits_to_the_category_range() {
    assert_eq!(clamp_to_category(5000, MAX_AC_CATEGORY), 1023);
    assert_eq!(clamp_to_category(-5000, MAX_AC_CATEGORY), -1023);
    assert_eq!(clamp_to_category(17, MAX_AC_CATEGORY), 17);
}

#[test]
fn scale_quant_table_at_quality_50_keeps_the_base_table() {
    let base = std_luma_qt();
    assert_eq!(scale_quant_table(&base, 50), base);
}

#[test]
fn scale_quant_table_matches_known_quality_scalings() {
    let base = std_luma_qt();
    // quality 100: scale 0, every entry floors at 1.
    assert_eq!(scale_quant_table(&base, 100), [1u16; 64]);
    // quality 25: scale 200, entry 16 becomes (16 * 200 + 50) / 100 = 32.
    assert_eq!(scale_quant_table(&base, 25)[0], 32);
    // quality 1: scale 5000, entry 16 becomes 800, limited to 255.
    assert_eq!(scale_quant_table(&base, 1)[0], 255);
    // quality 0 is clamped to 1.
    assert_eq!(scale_quant_table(&base, 0), scale_quant_table(&base, 1));
}

#[test]
fn natural_to_zigzag_follows_the_scan_order() {
    let mut natural = [0u16; 64];
    for (i, v) in natural.iter_mut().enumerate() {
        *v = i as u16;
    }
    let zz = natural_to_zigzag(&natural);
    let order = zigzag();
    for i in 0..64 {
        assert_eq!(zz[i] as usize, order[i]);
    }
    assert_eq!(&zz[..6], &[0, 1, 8, 16, 9, 2]);
}

#[test]
fn read_u16_be_reads_big_endian_and_stops_at_the_end() {
    assert_eq!(read_u16_be(&[0x12, 0x34], 0), Some(0x1234));
    assert_eq!(read_u16_be(&[0x12, 0x34], 1), None);
}

#[test]
fn skip_segment_moves_past_the_segment() {
    let mut pos = 0;
    assert!(skip_segment(&[0, 4, 9, 9, 7], &mut pos).is_ok());
    assert_eq!(pos, 4);
    let mut pos = 0;
    assert_eq!(skip_segment(&[0, 9, 1], &mut pos), Err(ConvertError::MalformedInput { format: Format::Jpeg }));
    assert_eq!(pos, 0);
}

#[test]
fn parse_dri_reads_the_interval() {
    let mut pos = 0;
    assert_eq!(parse_dri(&[0, 4, 0, 7], &mut pos), Ok(7));
    assert_eq!(pos, 4);
    let mut pos = 0;
    assert_eq!(parse_dri(&[0, 5, 0, 7, 0], &mut pos), Err(ConvertError::MalformedInput { format: Format::Jpeg }));
}

#[test]
fn parse_sof_reads_size_and_components() {
    // length 17, precision 8, height 10, width 12, three components.
    let seg = [0, 17, 8, 0, 10, 0, 12, 3, 1, 0x22, 0, 2, 0x11, 1, 3, 0x11, 1];
    let mut pos = 0;
    let sof = parse_sof(&seg, &mut pos).unwrap();
    assert_eq!((sof.width, sof.height), (12, 10));
    assert_eq!(sof.components.len(), 3);
    assert_eq!((sof.components[0].h, sof.components[0].v, sof.components[0].qt), (2, 2, 0));
    assert_eq!(pos, 17);
}

#[test]
fn parse_sof_rejects_twelve_bit_samples_and_two_components() {
    let mut seg = [0, 17, 12, 0, 10, 0, 12, 3, 1, 0x22, 0, 2, 0x11, 1, 3, 0x11, 1];
    let mut pos = 0;
    assert!(matches!(
        parse_sof(&seg, &mut pos),
        Err(ConvertError::UnsupportedFeature { format: Format::Jpeg, feature: "jpeg-sample-precision" })
    ));
    seg[2] = 8;
    seg[7] = 2;
    assert!(matches!(
        parse_sof(&seg, &mut pos),
        Err(ConvertError::UnsupportedFeature { format: Format::Jpeg, feature: "jpeg-component-count" })
    ));
}

#[test]
fn parse_dqt_fills_the_named_slot() {
    let mut seg = vec![0u8, 67, 0x01];
    seg.extend((1..=64).map(|v| v as u8));
    let mut pos = 0;
    let mut tables = [None, None, None, None];
    assert!(parse_dqt(&seg, &mut pos, &mut tables).is_ok());
    assert_eq!(pos, 67);
    assert!(tables[0].is_none());
    assert_eq!(tables[1].unwrap()[63], 64);
    seg[2] = 0x05;
    let mut pos = 0;
    assert!(parse_dqt(&seg, &mut pos, &mut tables).is_err());
}

fn malformed() -> ConvertError {
    ConvertError::MalformedInput { format: Format::Jpeg }
}

/// A whole baseline file of one 8x8 MCU, every coefficient zero.
fn tiny_jpeg() -> Vec<u8> {
    let (luma, chroma) = quant_tables(75);
    encode_mcus(8, 8, &luma, &chroma, &[[[0i32; 64]; 3]]).unwrap()
}

#[test]
fn bit_writer_stuffs_ff_bytes_and_pads_with_ones() {
    let mut w = BitWriter::new();
    w.put_bits(0xff, 8);
    w.put_bits(0b101, 3);
    assert_eq!(w.finish(), vec![0xff, 0x00, 0xbf]);
}

#[test]
fn bit_reader_destuffs_and_pads_after_a_marker() {
    let data = [0xff, 0x00, 0xab, 0xff, 0xd9];
    let mut r = BitReader::new(&data, 0);
    assert_eq!(r.get_bits(8), 0xff);
    assert_eq!(r.get_bits(4), 0xa);
    assert_eq!(r.get_bits(4), 0xb);
    assert_eq!(r.position(), 3);
    // A marker follows: the data continues as one-bits and the reader stays put.
    assert_eq!(r.get_bits(16), 0xffff);
    assert_eq!(r.position(), 3);
    r.byte_align();
    assert_eq!(r.expect_restart_marker(), Err(malformed()));
}

#[test]
fn bit_reader_steps_over_a_restart_marker() {
    let data = [0x80, 0xff, 0xd3, 0x40];
    let mut r = BitReader::new(&data, 0);
    assert!(r.get_bit());
    r.byte_align();
    assert_eq!(r.position(), 1);
    assert_eq!(r.expect_restart_marker(), Ok(()));
    assert_eq!(r.position(), 3);
    assert!(!r.get_bit());
    assert!(r.get_bit());
}

#[test]
fn standard_dc_luma_table_has_the_annex_k_codes() {
    let t = build_encode_huff(&std_dc_luma_bits(), &std_dc_values());
    assert_eq!(t.codes[0], Some((0b00, 2)));
    assert_eq!(t.codes[1], Some((0b010, 3)));
    assert_eq!(t.codes[5], Some((0b110, 3)));
    assert_eq!(t.codes[6], Some((0b1110, 4)));
    assert_eq!(t.codes[11], Some((0b1_1111_1110, 9)));
    assert_eq!(t.codes[12], None);
}

#[test]
fn decode_table_of_the_standard_dc_luma_code() {
    let t = build_huff_table(&std_dc_luma_bits(), std_dc_values().to_vec()).unwrap();
    assert_eq!((t.mincode[2], t.maxcode[2], t.valptr[2]), (0, 0, 0));
    assert_eq!((t.mincode[3], t.maxcode[3], t.valptr[3]), (2, 6, 1));
    assert_eq!(t.maxcode[1], -1);
    // More symbols than counts is malformed.
    assert!(matches!(build_huff_table(&std_dc_luma_bits(), vec![0; 13]), Err(ConvertError::MalformedInput { .. })));
    // Two codes of length 1 leave no 16-bit code for a longer one.
    let mut counts = [0u8; 16];
    counts[0] = 2;
    counts[15] = 1;
    assert!(matches!(build_huff_table(&counts, vec![1, 2, 3]), Err(ConvertError::MalformedInput { .. })));
    counts[0] = 0;
    counts[15] = 255;
    assert!(build_huff_table(&counts, vec![0; 255]).is_ok());
}

#[test]
fn decode_huff_reads_standard_dc_codes() {
    let t = build_huff_table(&std_dc_luma_bits(), std_dc_values().to_vec()).unwrap();
    // 010 -> 1, 1110 -> 6, 00 -> 0, then padding.
    let data = [0b0101_1100, 0b0111_1111];
    let mut r = BitReader::new(&data, 0);
    assert_eq!(decode_huff(&t, &mut r), Ok(1));
    assert_eq!(decode_huff(&t, &mut r), Ok(6));
    assert_eq!(decode_huff(&t, &mut r), Ok(0));
}

#[test]
fn a_zero_block_codes_as_dc_zero_then_end_of_block() {
    let dc = build_encode_huff(&std_dc_luma_bits(), &std_dc_values());
    let ac = build_encode_huff(&std_ac_luma_bits(), &std_ac_luma_values());
    let mut w = BitWriter::new();
    let mut pred = 0;
    assert!(encode_coefficients(&mut w, &[0; 64], &dc, &ac, &mut pred, MAX_AC_CATEGORY).is_ok());
    assert_eq!(pred, 0);
    // 00 (DC size 0), 1010 (end of block), padded with ones.
    assert_eq!(w.finish(), vec![0b0010_1011]);
}

#[test]
fn encode_scan_of_one_zero_mcu() {
    let tables = ScanTables::standard();
    // Y: 00 1010; Cb: 00 00; Cr: 00 00; then two padding ones.
    assert_eq!(encode_scan(&[[[0; 64]; 3]], &tables), Ok(vec![0x28, 0x03]));
}

#[test]
fn coefficients_survive_encode_and_decode() {
    let mut mcus = vec![[[0i32; 64]; 3]; 2];
    mcus[0][0][0] = 37;
    mcus[0][0][1] = -5;
    mcus[0][0][40] = 3;
    mcus[0][1][0] = -12;
    mcus[0][2][63] = 1;
    mcus[1][0][0] = 40;
    mcus[1][0][17] = 700;
    mcus[1][1][0] = -12;
    let (luma, chroma) = quant_tables(50);
    let file = encode_mcus(16, 8, &luma, &chroma, &mcus).unwrap();
    let h = read_headers(&file).unwrap();
    assert_eq!((h.sof.width, h.sof.height), (16, 8));
    assert_eq!(h.scan.len(), 3);
    assert_eq!(h.quant[0], Some(luma));
    let blocks = decode_scan_blocks(&file, h.scan_start, &h.sof, &h.scan, &h.quant, &h.dc, &h.ac, h.restart_interval, &ConvertOptions::default()).unwrap();
    assert_eq!(blocks.len(), 6);
    for (i, mcu) in mcus.iter().enumerate() {
        for c in 0..3 {
            assert_eq!(blocks[3 * i + c], mcu[c], "mcu {i} component {c}");
        }
    }
}

#[test]
fn decode_block_adds_the_dc_difference_to_the_prediction() {
    let dc = build_huff_table(&std_dc_luma_bits(), std_dc_values().to_vec()).unwrap();
    let ac = build_huff_table(&std_ac_luma_bits(), std_ac_luma_values().to_vec()).unwrap();
    // DC size 2 (011), magnitude 10 (= 2), end of block (1010), padding.
    let data = [0b0111_0101, 0b0111_1111];
    let mut r = BitReader::new(&data, 0);
    let mut pred = 5;
    let block = decode_block(&mut r, &dc, &ac, &mut pred).unwrap();
    assert_eq!(pred, 7);
    assert_eq!(block[0], 7);
    assert!(block[1..].iter().all(|&c| c == 0));
}

#[test]
fn parse_dht_defines_the_named_slot() {
    let mut seg = Vec::new();
    write_dht(&mut seg, 1, 2, &std_ac_luma_bits(), &std_ac_luma_values());
    assert_eq!(&seg[..5], &[0xff, 0xc4, 0, 181, 0x12]);
    let mut dc = [None, None, None, None];
    let mut ac = [None, None, None, None];
    let mut pos = 2;
    assert_eq!(parse_dht(&seg, &mut pos, &mut dc, &mut ac), Ok(()));
    assert_eq!(pos, seg.len());
    assert!(dc.iter().all(|t| t.is_none()));
    assert!(ac[2].is_some());
    seg[4] = 0x24;
    let mut pos = 2;
    assert_eq!(parse_dht(&seg, &mut pos, &mut dc, &mut ac), Err(malformed()));
}

#[test]
fn segment_writers_write_the_length_and_fields() {
    let mut out = Vec::new();
    write_marker_with_len(&mut out, 0xdb, 65);
    assert_eq!(out, vec![0xff, 0xdb, 0, 67]);
    let mut out = Vec::new();
    write_sof0(&mut out, 300, 2);
    assert_eq!(out, vec![0xff, 0xc0, 0, 17, 8, 0, 2, 1, 44, 3, 1, 0x11, 0, 2, 0x11, 1, 3, 0x11, 1]);
}

#[test]
fn encode_quality_defaults_and_clamps() {
    assert_eq!(encode_quality(None), 75);
    assert_eq!(encode_quality(Some(0)), 1);
    assert_eq!(encode_quality(Some(200)), 100);
    assert_eq!(encode_quality(Some(42)), 42);
}

#[test]
fn encoded_file_starts_with_soi_and_app0_and_ends_with_eoi() {
    let file = tiny_jpeg();
    assert_eq!(&file[..4], &[0xff, 0xd8, 0xff, 0xe0]);
    assert_eq!(&file[file.len() - 2..], &[0xff, 0xd9]);
}

#[test]
fn jpeg_decode_rejects_bad_signature() {
    assert!(matches!(read_headers(b"NOTAJPEGFILE"), Err(ConvertError::MalformedInput { .. })));
}

#[test]
fn jpeg_decode_rejects_truncated_input() {
    let mut encoded = tiny_jpeg();
    encoded.truncate(20);
    assert!(matches!(read_headers(&encoded), Err(ConvertError::MalformedInput { .. })));
}

#[test]
fn decode_rejects_progressive_scan_marker() {
    let mut encoded = tiny_jpeg();
    let sof_marker_pos = encoded.windows(2).position(|w| w == [0xff, 0xc0]).expect("encoded output has a SOF0 marker");
    encoded[sof_marker_pos + 1] = 0xc2;
    assert!(matches!(read_headers(&encoded), Err(ConvertError::UnsupportedFeature { .. })));
}

#[test]
fn headers_without_a_frame_before_the_scan_are_malformed() {
    let file = tiny_jpeg();
    let sof = file.windows(2).position(|w| w == [0xff, 0xc0]).unwrap();
    let mut no_frame = file[..sof].to_vec();
    no_frame.extend_from_slice(&file[sof + 19..]);
    assert_eq!(read_headers(&no_frame).err(), Some(malformed()));
}

#[test]
fn bit_reader_reads_what_bit_writer_wrote() {
    let fields: [(u32, u8); 6] = [(0b1, 1), (0xff, 8), (0x1234, 16), (0, 3), (0b1011, 4), (0x7f, 7)];
    let mut w = BitWriter::new();
    for &(v, n) in &fields {
        w.put_bits(v, n);
    }
    let bytes = w.finish();
    let mut r = BitReader::new(&bytes, 0);
    for &(v, n) in &fields {
        assert_eq!(r.get_bits(n), v);
    }
    // The last byte is padded with one bits.
    assert_eq!(r.get_bits(1), 1);
}

#[test]
fn a_scan_naming_a_missing_table_slot_is_malformed() {
    let mcus = vec![[[0i32; 64]; 3]; 1];
    let (luma, chroma) = quant_tables(50);
    let file = encode_mcus(8, 8, &luma, &chroma, &mcus).unwrap();
    let mut h = read_headers(&file).unwrap();
    h.scan[1].ac_table = 4;
    let r = decode_scan_blocks(&file, h.scan_start, &h.sof, &h.scan, &h.quant, &h.dc, &h.ac, h.restart_interval, &ConvertOptions::default());
    assert_eq!(r, Err(ConvertError::MalformedInput { format: Format::Jpeg }));
}

#[test]
fn a_block_lands_at_its_origin_and_nowhere_else() {
    let mut plane = vec![7u8; 16 * 16];
    let mut block = [0u8; 64];
    for (i, b) in block.iter_mut().enumerate() {
        *b = i as u8;
    }
    conv_core::formats::image::jpeg::place_block(&mut plane, 16, 8, 8, &block);
    for y in 0..16 {
        for x in 0..16 {
            let expected = if y >= 8 && x >= 8 { ((y - 8) * 8 + (x - 8)) as u8 } else { 7 };
            assert_eq!(plane[y * 16 + x], expected, "({x}, {y})");
        }
    }
}
