use binwire::codec::{decode_from_slice, encode_to_vec};
use binwire::config;
use binwire::error::DecodeError;

#[test]
fn varint_single_byte_values() {
    let config = config::standard();
    for v in [0u64, 1, 100, 250] {
        let data = encode_to_vec(&v, config);
        assert_eq!(data, vec![v as u8]);
        let (back, consumed): (u64, usize) = decode_from_slice(&data, config).unwrap();
        assert_eq!((back, consumed), (v, 1));
    }
}

#[test]
fn varint_two_byte_payload() {
    let config = config::standard();
    let data = encode_to_vec(&300u64, config);
    assert_eq!(data, vec![251, 0x2C, 0x01]);
    let (back, consumed): (u64, usize) = decode_from_slice(&data, config).unwrap();
    assert_eq!((back, consumed), (300, 3));
}

#[test]
fn varint_two_byte_payload_big_endian() {
    let config = config::standard().with_big_endian();
    let data = encode_to_vec(&300u64, config);
    assert_eq!(data, vec![251, 0x01, 0x2C]);
    let (back, _): (u64, usize) = decode_from_slice(&data, config).unwrap();
    assert_eq!(back, 300);
}

#[test]
fn varint_wide_values_round_trip() {
    let config = config::standard();
    for v in [251u64, 0xFFFF, 0x1_0000, 0xFFFF_FFFF, 0x1_0000_0000, u64::MAX] {
        let data = encode_to_vec(&v, config);
        let (back, consumed): (u64, usize) = decode_from_slice(&data, config).unwrap();
        assert_eq!((back, consumed), (v, data.len()));
    }
}

#[test]
fn varint_boundary_sizes() {
    let config = config::standard();
    assert_eq!(encode_to_vec(&250u64, config).len(), 1);
    assert_eq!(encode_to_vec(&251u64, config).len(), 3);
    assert_eq!(encode_to_vec(&0xFFFFu64, config).len(), 3);
    assert_eq!(encode_to_vec(&0x1_0000u64, config).len(), 5);
    assert_eq!(encode_to_vec(&0xFFFF_FFFFu64, config).len(), 5);
    assert_eq!(encode_to_vec(&0x1_0000_0000u64, config).len(), 9);
}

#[test]
fn fixed_int_encoding_is_eight_bytes() {
    let config = config::standard().with_fixed_int_encoding();
    let data = encode_to_vec(&300u64, config);
    assert_eq!(data, vec![0x2C, 0x01, 0, 0, 0, 0, 0, 0]);
    let (back, consumed): (u64, usize) = decode_from_slice(&data, config).unwrap();
    assert_eq!((back, consumed), (300, 8));
}

#[test]
fn fixed_int_big_endian() {
    let config = config::standard().with_fixed_int_encoding().with_big_endian();
    let data = encode_to_vec(&300u64, config);
    assert_eq!(data, vec![0, 0, 0, 0, 0, 0, 0x01, 0x2C]);
    let (back, _): (u64, usize) = decode_from_slice(&data, config).unwrap();
    assert_eq!(back, 300);
}

#[test]
fn varint_reserved_tag_rejected() {
    let config = config::standard();
    for tag in [254u8, 255] {
        let result: Result<(u64, usize), DecodeError> =
            decode_from_slice(&[tag, 1, 2, 3, 4, 5, 6, 7, 8], config);
        assert!(matches!(result, Err(DecodeError::InvalidIntegerTag)));
    }
}

#[test]
fn varint_truncated_payload_fails() {
    let config = config::standard();
    let result: Result<(u64, usize), DecodeError> = decode_from_slice(&[251, 0x2C], config);
    assert!(matches!(result, Err(DecodeError::UnexpectedEnd)));
}

#[test]
fn decode_empty_input_fails() {
    let config = config::standard();
    let result: Result<(u64, usize), DecodeError> = decode_from_slice(&[], config);
    assert!(matches!(result, Err(DecodeError::UnexpectedEnd)));
}

#[test]
fn u8_round_trip() {
    let config = config::standard();
    for v in [0u8, 100, 251, 255] {
        let data = encode_to_vec(&v, config);
        assert_eq!(data, vec![v]);
        let (back, _): (u8, usize) = decode_from_slice(&data, config).unwrap();
        assert_eq!(back, v);
    }
}

#[test]
fn vec_round_trip() {
    let config = config::standard();
    let value: Vec<u64> = vec![0, 250, 251, 70_000, u64::MAX];
    let data = encode_to_vec(&value, config);
    let (back, consumed): (Vec<u64>, usize) = decode_from_slice(&data, config).unwrap();
    assert_eq!((back, consumed), (value, data.len()));
}

#[test]
fn vec_floor_fail_fast() {
    let config = config::standard().with_limit(50);
    let result: Result<(Vec<u64>, usize), DecodeError> = decode_from_slice(&[100], config);
    assert!(matches!(result, Err(DecodeError::LimitExceeded)));
}

#[test]
fn tuple_round_trip() {
    let config = config::standard();
    let value = (5u8, "hi".to_string(), 900u64);
    let data = encode_to_vec(&value, config);
    let (back, consumed): ((u8, String, u64), usize) = decode_from_slice(&data, config).unwrap();
    assert_eq!((back, consumed), (value, data.len()));
}
