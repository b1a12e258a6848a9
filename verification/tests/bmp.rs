use conv_core::formats::image::bmp::{decode, encode};
use conv_core::formats::image::RawImage;
use conv_core::{ConvertError, Format};

fn image(width: u32, height: u32) -> RawImage {
    let mut pixels = Vec::new();
    for i in 0..width * height {
        pixels.extend_from_slice(&[(i * 3) as u8, (i * 5 + 1) as u8, (i * 7 + 2) as u8, 128]);
    }
    RawImage::new(width, height, pixels, Format::Bmp).unwrap()
}

#[test]
fn bmp_round_trip_keeps_colors_and_makes_alpha_opaque() {
    let original = image(3, 2);
    let decoded = decode(&encode(&original)).unwrap();
    assert_eq!((decoded.width, decoded.height), (3, 2));
    for (i, (a, b)) in original.pixels.iter().zip(decoded.pixels.iter()).enumerate() {
        if i % 4 == 3 {
            assert_eq!(*b, 255);
        } else {
            assert_eq!(a, b);
        }
    }
}

#[test]
fn bmp_encode_writes_the_headers_and_padded_bottom_up_rows() {
    let out = encode(&image(1, 2));
    // 54 header bytes, then two rows of 3 bytes padded to 4.
    assert_eq!(out.len(), 62);
    assert_eq!(&out[..2], b"BM");
    assert_eq!(&out[2..6], &62u32.to_le_bytes());
    assert_eq!(&out[10..14], &54u32.to_le_bytes());
    assert_eq!(&out[18..26], &[1, 0, 0, 0, 2, 0, 0, 0]);
    assert_eq!(&out[28..30], &24u16.to_le_bytes());
    // The first stored row is the bottom image row (pixel 1), as blue, green, red.
    assert_eq!(&out[54..58], &[9, 6, 3, 0]);
    assert_eq!(&out[58..62], &[2, 1, 0, 0]);
}

#[test]
fn bmp_decode_rejects_bad_signature_and_top_down_rows() {
    let mut out = encode(&image(2, 2));
    out[0] = b'X';
    assert_eq!(decode(&out).err(), Some(ConvertError::MalformedInput { format: Format::Bmp }));
    let mut out = encode(&image(2, 2));
    out[22..26].copy_from_slice(&(-2i32).to_le_bytes());
    assert_eq!(
        decode(&out).err(),
        Some(ConvertError::UnsupportedFeature { format: Format::Bmp, feature: "bmp-top-down" })
    );
}

#[test]
fn bmp_decode_rejects_truncated_pixel_data() {
    let mut out = encode(&image(2, 2));
    out.truncate(out.len() - 1);
    assert_eq!(decode(&out).err(), Some(ConvertError::MalformedInput { format: Format::Bmp }));
}

#[test]
fn encode_ignores_pixel_bytes_past_the_image() {
    let mut pixels = vec![10u8, 20, 30, 255];
    pixels.extend_from_slice(&[1, 2, 3, 4, 5]);
    let img = RawImage { width: 1, height: 1, pixels };
    let out = encode(&img);
    assert_eq!(out.len(), 54 + 4);
    assert_eq!(&out[54..57], &[30, 20, 10]);
}
