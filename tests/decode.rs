use qoi::{Colors, DecodeError, Qoi, QOI_HEADER_SIZE, QOI_PADDING};

fn header(width: u32, height: u32, channels: u8, colorspace: u8) -> Vec<u8> {
    let mut v = b"qoif".to_vec();
    v.extend_from_slice(&width.to_be_bytes());
    v.extend_from_slice(&height.to_be_bytes());
    v.push(channels);
    v.push(colorspace);
    v
}

fn stream(width: u32, height: u32, channels: u8, tokens: &[u8]) -> Vec<u8> {
    let mut v = header(width, height, channels, 0);
    v.extend_from_slice(tokens);
    v.extend_from_slice(&[0, 0, 0, 0, 0, 0, 0, 1]);
    v
}

#[test]
fn header_constants() {
    assert_eq!(QOI_HEADER_SIZE, 14);
    assert_eq!(QOI_PADDING, 8);
}

#[test]
fn header_reads_every_mode() {
    let cases = [
        (3, 0, Colors::Srgb),
        (4, 0, Colors::SrgbLinA),
        (3, 1, Colors::Rgb),
        (4, 1, Colors::Rgba),
    ];
    for (ch, cs, colors) in cases {
        let q = Qoi::decode_header(&header(640, 480, ch, cs)).unwrap();
        assert_eq!(q, Qoi { width: 640, height: 480, colors });
    }
}

#[test]
fn header_reads_big_endian_dimensions() {
    let q = Qoi::decode_header(&header(0x01020304, 0x0a0b0c0d, 4, 1)).unwrap();
    assert_eq!(q.width, 0x01020304);
    assert_eq!(q.height, 0x0a0b0c0d);
}

#[test]
fn header_too_short() {
    let h = header(1, 1, 3, 0);
    assert_eq!(Qoi::decode_header(&h[..13]), Err(DecodeError::DataIsTooSmall));
    assert_eq!(Qoi::decode_header(&[]), Err(DecodeError::DataIsTooSmall));
}

#[test]
fn header_bad_magic() {
    let mut h = header(1, 1, 3, 0);
    h[0] = b'Q';
    assert_eq!(Qoi::decode_header(&h), Err(DecodeError::InvalidMagic));
}

#[test]
fn header_bad_channels() {
    assert_eq!(Qoi::decode_header(&header(1, 1, 5, 0)), Err(DecodeError::InvalidChannelsValue));
    assert_eq!(Qoi::decode_header(&header(1, 1, 0, 1)), Err(DecodeError::InvalidChannelsValue));
}

#[test]
fn header_bad_colorspace() {
    assert_eq!(Qoi::decode_header(&header(1, 1, 3, 2)), Err(DecodeError::InvalidColorSpaceValue));
    assert_eq!(Qoi::decode_header(&header(1, 1, 7, 9)), Err(DecodeError::InvalidColorSpaceValue));
}

#[test]
fn header_parse_twice_is_identical() {
    let h = stream(7, 9, 4, &[0xc0]);
    assert_eq!(Qoi::decode_header(&h), Qoi::decode_header(&h));
}

#[test]
fn decoded_size_counts_channels() {
    let rgb = Qoi { width: 3, height: 2, colors: Colors::Srgb };
    let rgba = Qoi { width: 3, height: 2, colors: Colors::Rgba };
    assert_eq!(rgb.decoded_size(), 18);
    assert_eq!(rgba.decoded_size(), 24);
}

#[test]
fn zero_dimension_writes_nothing() {
    let q = Qoi { width: 0, height: 5, colors: Colors::Rgba };
    let mut out = [7u8; 4];
    assert_eq!(q.decode_skip_header(&[0xff, 0x01], &mut out), Ok(()));
    assert_eq!(out, [7u8; 4]);
    let q = Qoi { width: 5, height: 0, colors: Colors::Srgb };
    assert_eq!(q.decode_skip_header(&[], &mut []), Ok(()));
}

#[test]
fn literal_rgba_then_missing_pixel_fails() {
    let bytes = stream(2, 1, 4, &[0b11111111, 10, 20, 30, 255]);
    let mut out = [0u8; 8];
    let r = Qoi::decode(&bytes, &mut out);
    assert!(matches!(r, Err(DecodeError::DataIsTooSmall) | Err(DecodeError::OutputIsTooSmall)));
    assert_eq!(&out[..4], &[10, 20, 30, 255]);
}

#[test]
fn literal_rgb_keeps_alpha() {
    let bytes = stream(2, 1, 4, &[0xff, 1, 2, 3, 4, 0xfe, 5, 6, 7]);
    let mut out = [0u8; 8];
    assert!(Qoi::decode(&bytes, &mut out).is_ok());
    assert_eq!(out, [1, 2, 3, 4, 5, 6, 7, 4]);
}

#[test]
fn small_delta_wraps_below_zero() {
    // red field 0 means -2, green and blue fields 2 mean no change
    let bytes = stream(1, 1, 3, &[0b01_00_10_10]);
    let mut out = [0u8; 3];
    assert!(Qoi::decode(&bytes, &mut out).is_ok());
    assert_eq!(out, [254, 0, 0]);
}

#[test]
fn small_delta_adds_one() {
    // red and green +1, blue -1
    let bytes = stream(2, 1, 3, &[0xfe, 255, 10, 20, 0b01_11_11_01]);
    let mut out = [0u8; 6];
    assert!(Qoi::decode(&bytes, &mut out).is_ok());
    assert_eq!(out, [255, 10, 20, 0, 11, 19]);
}

#[test]
fn luma_delta() {
    // green +8, red-green +1, blue-green -1
    let bytes = stream(1, 1, 3, &[0x80 | 40, (9 << 4) | 7]);
    let mut out = [0u8; 3];
    assert!(Qoi::decode(&bytes, &mut out).is_ok());
    assert_eq!(out, [9, 8, 7]);
}

#[test]
fn luma_delta_wraps() {
    let bytes = stream(1, 1, 4, &[0x80, 0x00]);
    let mut out = [0u8; 4];
    assert!(Qoi::decode(&bytes, &mut out).is_ok());
    assert_eq!(out, [216, 224, 216, 255]);
}

#[test]
fn cache_lookup_finds_stored_pixel() {
    // (1, 2, 3, 4) hashes to (3 + 10 + 21 + 44) % 64 = 14
    let bytes = stream(3, 1, 4, &[0xff, 1, 2, 3, 4, 0xfe, 9, 9, 9, 14]);
    let mut out = [0u8; 12];
    assert!(Qoi::decode(&bytes, &mut out).is_ok());
    assert_eq!(out, [1, 2, 3, 4, 9, 9, 9, 4, 1, 2, 3, 4]);
}

#[test]
fn cache_lookup_of_unwritten_slot_is_transparent_black() {
    let bytes = stream(2, 1, 4, &[0xfe, 1, 2, 3, 5]);
    let mut out = [9u8; 8];
    assert!(Qoi::decode(&bytes, &mut out).is_ok());
    assert_eq!(out, [1, 2, 3, 255, 0, 0, 0, 0]);
}

#[test]
fn run_reaching_last_pixel_succeeds() {
    let bytes = stream(4, 1, 3, &[0xfe, 5, 6, 7, 0xc2]);
    let mut out = [0u8; 12];
    assert!(Qoi::decode(&bytes, &mut out).is_ok());
    assert_eq!(out, [5, 6, 7, 5, 6, 7, 5, 6, 7, 5, 6, 7]);
}

#[test]
fn run_past_last_pixel_fails() {
    let bytes = stream(4, 1, 3, &[0xfe, 5, 6, 7, 0xc3]);
    let mut out = [0u8; 12];
    assert_eq!(Qoi::decode(&bytes, &mut out), Err(DecodeError::OutputIsTooSmall));
}

#[test]
fn run_of_initial_pixel_is_opaque_black() {
    let bytes = stream(2, 1, 4, &[0xc1]);
    let mut out = [1u8; 8];
    assert!(Qoi::decode(&bytes, &mut out).is_ok());
    assert_eq!(out, [0, 0, 0, 255, 0, 0, 0, 255]);
}

#[test]
fn truncated_stream_is_too_small() {
    let bytes = stream(1, 1, 3, &[0x05]);
    let mut out = [1u8; 3];
    assert!(Qoi::decode(&bytes, &mut out).is_ok());
    assert_eq!(out, [0, 0, 0]);
    let cut = &bytes[..bytes.len() - 1];
    assert_eq!(Qoi::decode(cut, &mut out), Err(DecodeError::DataIsTooSmall));
}

#[test]
fn body_shorter_than_header_is_too_small() {
    let q = Qoi { width: 1, height: 1, colors: Colors::Rgb };
    let mut out = [0u8; 3];
    assert_eq!(q.decode_skip_header(&[0u8; 10], &mut out), Err(DecodeError::DataIsTooSmall));
}

#[test]
fn output_too_small() {
    let bytes = stream(2, 2, 4, &[0xc3]);
    let mut out = [0u8; 15];
    assert_eq!(Qoi::decode(&bytes, &mut out), Err(DecodeError::OutputIsTooSmall));
}

#[test]
fn larger_output_keeps_its_tail() {
    let bytes = stream(1, 1, 3, &[0xfe, 1, 2, 3]);
    let mut out = [9u8; 5];
    assert!(Qoi::decode(&bytes, &mut out).is_ok());
    assert_eq!(out, [1, 2, 3, 9, 9]);
}

#[test]
fn decode_reports_header_errors() {
    let mut out = [0u8; 3];
    assert_eq!(Qoi::decode(&header(1, 1, 3, 5), &mut out), Err(DecodeError::InvalidColorSpaceValue));
}

#[test]
fn hand_encoded_image_round_trips() {
    // 3x2 RGB image: red, red, green / green+1, red (from cache), blue
    let pixels: Vec<u8> = vec![255, 0, 0, 255, 0, 0, 0, 255, 0, 1, 255, 1, 255, 0, 0, 0, 0, 255];
    // red (255,0,0,255) hashes to (765 + 2805) % 64 = 50
    let tokens = [0xfe, 255, 0, 0, 0xc0, 0xfe, 0, 255, 0, 0b01_11_10_11, 50, 0xfe, 0, 0, 255];
    let bytes = stream(3, 2, 3, &tokens);
    let (q, out) = Qoi::decode_alloc(&bytes).unwrap();
    assert_eq!(q, Qoi { width: 3, height: 2, colors: Colors::Srgb });
    assert_eq!(out, pixels);
}

#[test]
fn decode_alloc_sizes_output() {
    let bytes = stream(2, 1, 4, &[0xc1]);
    let (q, out) = Qoi::decode_alloc(&bytes).unwrap();
    assert_eq!(q.colors, Colors::SrgbLinA);
    assert_eq!(out, vec![0, 0, 0, 255, 0, 0, 0, 255]);
    assert_eq!(Qoi::decode_alloc(&bytes[..20]), Err(DecodeError::DataIsTooSmall));
}

#[test]
fn decode_skip_header_matches_decode() {
    let bytes = stream(2, 1, 3, &[0xfe, 4, 5, 6, 0x41]);
    let q = Qoi::decode_header(&bytes).unwrap();
    let mut a = [0u8; 6];
    let mut b = [0u8; 6];
    assert_eq!(q.decode_skip_header(&bytes, &mut a), Ok(()));
    assert_eq!(Qoi::decode(&bytes, &mut b), Ok(q));
    assert_eq!(a, b);
    assert_eq!(a, [4, 5, 6, 2, 3, 5]);
}
