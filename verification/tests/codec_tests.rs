use rusty_ppm::canvas::{Canvas, Pixel};
use rusty_ppm::ppm_reader::{
    decode, decode_binary_pixels, parse_header, DecodedHeader, PpmReaderError, PpmVariant,
};
use rusty_ppm::ppm_writer::{encode_binary, encode_string};

fn px(r: u8, g: u8, b: u8) -> Pixel {
    Pixel { r, g, b }
}

fn canvas_2x2() -> Canvas {
    let mut c = Canvas::new(2, 2);
    assert!(c.set(0, 0, px(1, 2, 3)).is_ok());
    assert!(c.set(0, 1, px(4, 5, 6)).is_ok());
    assert!(c.set(1, 0, px(7, 8, 9)).is_ok());
    assert!(c.set(1, 1, px(250, 251, 252)).is_ok());
    c
}

#[test]
fn scenario_binary_2x1() {
    let mut bytes: Vec<u8> = b"P6\n2 1\n255\n".to_vec();
    bytes.extend_from_slice(&[10, 20, 30, 40, 50, 60]);
    let c = decode(&bytes).unwrap();
    assert_eq!(c.width, 2);
    assert_eq!(c.height, 1);
    assert_eq!(c.get(0, 0), Some(px(10, 20, 30)));
    assert_eq!(c.get(0, 1), Some(px(40, 50, 60)));
}

#[test]
fn scenario_text_1x1() {
    let bytes = b"P3\n1 1\n255\n255 0 128\n".to_vec();
    let c = decode(&bytes).unwrap();
    assert_eq!(c.width, 1);
    assert_eq!(c.height, 1);
    assert_eq!(c.get(0, 0), Some(px(255, 0, 128)));
}

#[test]
fn scenario_encode_3x3_zero_binary() {
    let c = Canvas::new(3, 3);
    let out = encode_binary(&c);
    let mut expected: Vec<u8> = b"P6\n3 3\n255\n".to_vec();
    expected.extend_from_slice(&[0u8; 27]);
    assert_eq!(out, expected);
}

#[test]
fn scenario_text_one_channel_short() {
    let bytes = b"P3\n2 2\n255\n0 0 0 0 0".to_vec();
    let r = decode(&bytes);
    assert_eq!(
        r.unwrap_err(),
        PpmReaderError::SizeMismatch { expected: 12, actual: 5 }
    );
}

#[test]
fn binary_payload_one_byte_short() {
    let mut bytes: Vec<u8> = b"P6\n2 2\n255\n".to_vec();
    bytes.extend_from_slice(&[0u8; 11]);
    let r = decode(&bytes);
    assert_eq!(
        r.unwrap_err(),
        PpmReaderError::SizeMismatch { expected: 12, actual: 11 }
    );
}

#[test]
fn round_trip_binary() {
    let c = canvas_2x2();
    let encoded = encode_binary(&c);
    let back = decode(&encoded).unwrap();
    assert_eq!(back, c);
}

#[test]
fn round_trip_text() {
    let c = canvas_2x2();
    let encoded = encode_string(&c);
    let back = decode(&encoded).unwrap();
    assert_eq!(back, c);
}

#[test]
fn encode_is_idempotent() {
    let c = canvas_2x2();
    assert_eq!(encode_binary(&c), encode_binary(&c));
    assert_eq!(encode_string(&c), encode_string(&c));
}

#[test]
fn header_fidelity() {
    let mut c = Canvas::new(5, 7);
    assert!(c.set(6, 4, px(9, 9, 9)).is_ok());
    let from_binary = decode(&encode_binary(&c)).unwrap();
    assert_eq!(from_binary.width, 5);
    assert_eq!(from_binary.height, 7);
    let from_text = decode(&encode_string(&c)).unwrap();
    assert_eq!(from_text.width, 5);
    assert_eq!(from_text.height, 7);
}

#[test]
fn text_encoding_exact_bytes() {
    let mut c = Canvas::new(1, 2);
    assert!(c.set(0, 0, px(255, 0, 128)).is_ok());
    assert!(c.set(1, 0, px(1, 22, 33)).is_ok());
    let out = encode_string(&c);
    assert_eq!(out, b"P3\n1 2\n255\n255 0 128\n1 22 33\n".to_vec());
}

#[test]
fn text_tokens_split_across_any_whitespace() {
    let canonical = decode(b"P3\n2 1\n255\n1 2 3\n4 5 6\n").unwrap();
    let flat = decode(b"P3 2 1 255 1 2 3 4 5 6").unwrap();
    assert_eq!(canonical, flat);
    assert_eq!(canonical.get(0, 1), Some(px(4, 5, 6)));
}

#[test]
fn binary_header_any_nondigit_separator() {
    let mut bytes: Vec<u8> = b"P6\n2 1 255\n".to_vec();
    bytes.extend_from_slice(&[10, 20, 30, 40, 50, 60]);
    let c = decode(&bytes).unwrap();
    assert_eq!(c.width, 2);
    assert_eq!(c.height, 1);
    assert_eq!(c.get(0, 1), Some(px(40, 50, 60)));
}

#[test]
fn binary_pixels_may_look_like_whitespace() {
    let mut bytes: Vec<u8> = b"P6\n1 1\n255\n".to_vec();
    bytes.extend_from_slice(&[10, 32, 10]);
    let c = decode(&bytes).unwrap();
    assert_eq!(c.get(0, 0), Some(px(10, 32, 10)));
}

#[test]
fn unrecognized_magic_rejected() {
    assert_eq!(
        decode(b"P5\n1 1\n255\n0").unwrap_err(),
        PpmReaderError::UnrecognizedFormat
    );
    assert_eq!(decode(b"").unwrap_err(), PpmReaderError::UnrecognizedFormat);
    assert_eq!(decode(b"X").unwrap_err(), PpmReaderError::UnrecognizedFormat);
}

#[test]
fn malformed_headers_rejected() {
    // zero dimension
    assert_eq!(
        decode(b"P3\n0 1\n255\n").unwrap_err(),
        PpmReaderError::MalformedHeader
    );
    // non-numeric width
    assert_eq!(
        decode(b"P3\nab 1\n255\n1 2 3\n").unwrap_err(),
        PpmReaderError::MalformedHeader
    );
    // missing tokens after the magic
    assert_eq!(decode(b"P3\n").unwrap_err(), PpmReaderError::MalformedHeader);
    assert_eq!(decode(b"P6\n").unwrap_err(), PpmReaderError::MalformedHeader);
    // binary header whose width run is empty
    assert_eq!(
        decode(b"P6\n \n255\n").unwrap_err(),
        PpmReaderError::MalformedHeader
    );
    // magic token alone, with nothing after it
    assert_eq!(decode(b"P6").unwrap_err(), PpmReaderError::MalformedHeader);
}

#[test]
fn maxval_is_parsed_but_not_policed() {
    let c = decode(b"P3\n1 1\n100\n1 2 3\n").unwrap();
    assert_eq!(c.get(0, 0), Some(px(1, 2, 3)));
}

#[test]
fn invalid_pixel_values_rejected() {
    assert_eq!(
        decode(b"P3\n1 1\n255\n300 0 0\n").unwrap_err(),
        PpmReaderError::InvalidPixelValue
    );
    assert_eq!(
        decode(b"P3\n1 1\n255\nx 0 0\n").unwrap_err(),
        PpmReaderError::InvalidPixelValue
    );
}

#[test]
fn strict_size_check_rejects_divisible_but_wrong_payload() {
    // a 2x1 image needs 6 bytes; 9 bytes are divisible by 3 yet still wrong
    let mut bytes: Vec<u8> = b"P6\n2 1\n255\n".to_vec();
    bytes.extend_from_slice(&[0u8; 9]);
    assert_eq!(
        decode(&bytes).unwrap_err(),
        PpmReaderError::SizeMismatch { expected: 6, actual: 9 }
    );
}

#[test]
fn binary_header_at_end_of_stream_has_empty_payload() {
    // the maxval run reaches the end of the stream: no payload at all
    assert_eq!(
        decode(b"P6\n1 1\n255").unwrap_err(),
        PpmReaderError::SizeMismatch { expected: 3, actual: 0 }
    );
}

#[test]
fn parse_header_surfaces_all_fields() {
    let mut bytes: Vec<u8> = b"P6\n2 1\n255\n".to_vec();
    bytes.extend_from_slice(&[10, 20, 30, 40, 50, 60]);
    assert_eq!(
        parse_header(&bytes).unwrap(),
        DecodedHeader { variant: PpmVariant::Binary, width: 2, height: 1, maxval: 255 }
    );
    // the maxval is surfaced even when it is not 255
    assert_eq!(
        parse_header(b"P3\n6 4\n100\n").unwrap(),
        DecodedHeader { variant: PpmVariant::Text, width: 6, height: 4, maxval: 100 }
    );
    assert_eq!(
        parse_header(b"P4\n1 1\n255\n").unwrap_err(),
        PpmReaderError::UnrecognizedFormat
    );
    assert_eq!(
        parse_header(b"P6\n2 0\n255\n").unwrap_err(),
        PpmReaderError::MalformedHeader
    );
}

#[test]
fn truncated_binary_pixel_stream() {
    let r = decode_binary_pixels(&[1, 2, 3, 4, 5], 1, 2);
    assert_eq!(r.unwrap_err(), PpmReaderError::TruncatedData);
    let ok = decode_binary_pixels(&[1, 2, 3, 4, 5, 6], 1, 2).unwrap();
    assert_eq!(ok, vec![px(1, 2, 3), px(4, 5, 6)]);
    // extra bytes beyond the required count are ignored
    let extra = decode_binary_pixels(&[1, 2, 3, 9, 9], 1, 1).unwrap();
    assert_eq!(extra, vec![px(1, 2, 3)]);
}
