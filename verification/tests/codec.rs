use stego::bits::bin_string_to_ascii;
use stego::bits::string_to_binary;
use stego::codec::decode_image;
use stego::codec::decode_image_text;
use stego::codec::encode_image;
use stego::codec::encode_msg;
use stego::error::StegoError;
use stego::header::create_msg_header;
use stego::header::parse_msg_header;
use stego::locator::locate_payload;
use stego::parity::decode_bit;
use stego::parity::encode_bit;

/// A small image: three text header lines, then `payload` as the pixel bytes.
fn image_with_payload(payload: &[u8]) -> Vec<u8> {
    let mut file = Vec::new();
    file.extend_from_slice(b"P6\n2 2\n255\n");
    file.extend_from_slice(payload);
    file
}

#[test]
fn string_to_binary_hi() {
    let bits = string_to_binary(&"Hi".to_string());
    assert_eq!(bits, "0100100001101001");
}

#[test]
fn string_to_binary_empty() {
    assert_eq!(string_to_binary(&String::new()), "");
}

#[test]
fn header_for_hi_at_depth_zero() {
    let header = create_msg_header(&16, &32);
    assert_eq!(header, "00000000000100000000000000100000");
}

#[test]
fn header_parse_inverts_create() {
    let header = create_msg_header(&1234, &567);
    assert_eq!(parse_msg_header(&header), (1234, 567));
}

#[test]
fn bin_string_to_ascii_hi() {
    let bytes = bin_string_to_ascii(&"0100100001101001".to_string()).unwrap();
    assert_eq!(bytes, vec![72, 105]);
}

#[test]
fn bin_string_to_ascii_rejects_partial_group() {
    assert_eq!(
        bin_string_to_ascii(&"0101010".to_string()),
        Err(StegoError::Parse)
    );
}

#[test]
fn bin_string_to_ascii_rejects_non_digit() {
    assert_eq!(
        bin_string_to_ascii(&"0a000000".to_string()),
        Err(StegoError::Parse)
    );
}

#[test]
fn encode_bit_forces_parity_within_one() {
    assert_eq!(encode_bit(&4, '0'), 4);
    assert_eq!(encode_bit(&4, '1'), 5);
    assert_eq!(encode_bit(&5, '1'), 5);
    assert_eq!(encode_bit(&5, '0'), 6);
    assert_eq!(encode_bit(&9, '0'), 10);
    assert_eq!(encode_bit(&255, '1'), 255);
    assert_eq!(encode_bit(&255, '0'), 254);
    assert_eq!(decode_bit(254), '0');
    assert_eq!(decode_bit(255), '1');
}

#[test]
fn locate_payload_positions() {
    assert_eq!(locate_payload(&b"P6\n2 2\n255\nabc".to_vec()), 11);
    assert_eq!(locate_payload(&b"no line feed at all".to_vec()), 0);
    assert_eq!(locate_payload(&b"ends with one\n".to_vec()), 14);
    assert_eq!(locate_payload(&Vec::new()), 0);
}

#[test]
fn concrete_scenario_hi_depth_zero() {
    // 48 even pixel bytes, none the line-feed byte: every parity starts as '0'.
    let payload: Vec<u8> = (0..48u8).map(|i| 100 + 2 * i).collect();
    let file = image_with_payload(&payload);
    let out = encode_image(&file, &"Hi".to_string(), 0).unwrap();

    // Header lines are untouched.
    assert_eq!(&out[..11], &file[..11]);
    let out_payload = &out[11..];
    assert_eq!(out_payload.len(), 48);

    let header_bits: Vec<u8> = "00000000000100000000000000100000"
        .bytes()
        .map(|b| b - b'0')
        .collect();
    let msg_bits: Vec<u8> = "0100100001101001".bytes().map(|b| b - b'0').collect();

    for i in 0..32 {
        // Parity carries the header bit; the byte moved by at most one.
        assert_eq!(out_payload[i] % 2, header_bits[i]);
        assert!(out_payload[i].abs_diff(payload[i]) <= 1);
    }
    for i in 0..16 {
        assert_eq!(out_payload[32 + i] % 2, msg_bits[i]);
        assert!(out_payload[32 + i].abs_diff(payload[32 + i]) <= 1);
    }
    assert_eq!(&out_payload[48..], &payload[48..]);

    assert_eq!(decode_image(&out).unwrap(), b"Hi".to_vec());
    assert_eq!(decode_image_text(&out).unwrap(), "Hi");
}

#[test]
fn round_trip_with_depth() {
    let payload: Vec<u8> = (0..200u32).map(|i| (100 + i % 100) as u8).collect();
    let file = image_with_payload(&payload);
    let msg = "parity stego".to_string();
    let out = encode_image(&file, &msg, 25).unwrap();

    // Non-overlap: the gap between header and body, and the tail, are untouched.
    let out_payload = &out[11..];
    assert_eq!(&out_payload[32..57], &payload[32..57]);
    let body_end = 57 + 8 * msg.len();
    assert_eq!(&out_payload[body_end..], &payload[body_end..]);

    assert_eq!(decode_image_text(&out).unwrap(), msg);
}

#[test]
fn round_trip_multibyte_text() {
    let payload: Vec<u8> = (0..160u32).map(|i| (40 + i % 200) as u8).collect();
    let file = image_with_payload(&payload);
    let msg = "héllo ✓".to_string();
    let out = encode_image(&file, &msg, 3).unwrap();
    assert_eq!(decode_image_text(&out).unwrap(), msg);
}

#[test]
fn round_trip_without_header_lines() {
    // A file with no line feed at all: the whole file is the payload.
    let file: Vec<u8> = (0..120u32).map(|i| (61 + i % 150) as u8).collect();
    assert!(file.iter().all(|&b| b != 10));
    let out = encode_image(&file, &"ok".to_string(), 0).unwrap();
    assert_eq!(out.len(), file.len());
    assert_eq!(decode_image_text(&out).unwrap(), "ok");
}

#[test]
fn overflow_rejection_message_too_long() {
    // 8192 bytes of message is 65536 bits: one past the 16-bit ceiling.
    let payload = vec![0u8; 70000];
    let file = image_with_payload(&payload);
    let msg = "a".repeat(8192);
    assert_eq!(encode_image(&file, &msg, 0), Err(StegoError::Overflow));
    // 8191 bytes (65528 bits) still fits; only the payload length decides now.
    let msg = "a".repeat(8191);
    assert!(encode_image(&file, &msg, 0).is_ok());
}

#[test]
fn overflow_rejection_depth_too_deep() {
    let file = image_with_payload(&[0u8; 64]);
    // A body offset of 32 + 65504 = 65536 does not fit 16 bits.
    assert_eq!(
        encode_image(&file, &"x".to_string(), 65504),
        Err(StegoError::Overflow)
    );
}

#[test]
fn range_rejection_payload_too_short() {
    let file = image_with_payload(&[2u8; 40]);
    // "Hi" needs 32 + 16 payload bytes at depth zero.
    assert_eq!(
        encode_image(&file, &"Hi".to_string(), 0),
        Err(StegoError::Range)
    );
    assert!(encode_image(&image_with_payload(&[2u8; 48]), &"Hi".to_string(), 0).is_ok());
}

#[test]
fn decode_range_rejection_short_payload() {
    // Payload of fewer than 32 bytes cannot hold a header.
    assert_eq!(
        decode_image(&image_with_payload(&[7u8; 20])),
        Err(StegoError::Range)
    );
    // A file that ends with a line feed has an empty payload.
    assert_eq!(decode_image(&b"P6\n".to_vec()), Err(StegoError::Range));
}

#[test]
fn decode_utf8_rejection() {
    // Header: bit length 8, body offset 32; message bits 11111111 = byte 0xFF.
    let mut payload = Vec::new();
    for c in "00000000000010000000000000100000".bytes() {
        payload.push(c - b'0');
    }
    payload.extend_from_slice(&[1u8; 8]);
    let file = image_with_payload(&payload);
    assert_eq!(decode_image(&file).unwrap(), vec![255u8]);
    assert_eq!(decode_image_text(&file), Err(StegoError::Utf8));
}

#[test]
fn decode_garbage_is_deterministic() {
    // An image no encoder produced: whatever decoding yields, it yields twice.
    let file: Vec<u8> = (0..300u32).map(|i| (i * 7 + 3) as u8).collect();
    let first = decode_image_text(&file);
    let second = decode_image_text(&file);
    assert_eq!(first, second);
    let first_raw = decode_image(&file);
    let second_raw = decode_image(&file);
    assert_eq!(first_raw, second_raw);
}

#[test]
fn encode_msg_touches_only_marked_regions() {
    let pixels: Vec<u8> = (0..64u8).collect();
    let header = create_msg_header(&8, &40);
    let msg = "10101010".to_string();
    let out = encode_msg(&pixels, &header, &msg, &40);
    assert_eq!(out.len(), 64);
    // The eight bytes from offset 40 carry the message bits by parity.
    for (i, bit) in msg.bytes().enumerate() {
        assert_eq!(out[40 + i] % 2, bit - b'0');
    }
    // The gap and the tail are copied unchanged.
    assert_eq!(&out[32..40], &pixels[32..40]);
    assert_eq!(&out[48..], &pixels[48..]);
}

#[test]
fn error_descriptions_name_the_failure() {
    assert!(StegoError::Overflow.describe().contains("16 bits"));
    assert!(StegoError::Range.describe().contains("payload"));
    assert!(StegoError::Utf8.describe().contains("UTF-8"));
    assert!(StegoError::Parse.describe().contains("8-digit"));
}
