use binwire::codec::{decode_from_slice, encode_to_vec};
use binwire::config;
use binwire::error::DecodeError;

#[test]
fn decode_small_str() {
    let config = config::standard();
    let data = encode_to_vec(&"aaa".to_string(), config);

    let s: String = decode_from_slice(&data, config).unwrap().0;
    assert_eq!(s, "aaa")
}

#[test]
fn decode_small_invalid() {
    let config = config::standard();

    let result: Result<(String, usize), DecodeError> =
        decode_from_slice(&[3, 0xFF, 0xFF, 0xFF], config);
    assert!(matches!(result, Err(DecodeError::Utf8)))
}

#[test]
fn decode_large_str() {
    let config = config::standard();
    let data = encode_to_vec(&"123456789123456789123456789123456789".to_string(), config);

    let s: String = decode_from_slice(&data, config).unwrap().0;
    assert_eq!(s, "123456789123456789123456789123456789")
}

#[test]
fn decode_large_invalid() {
    let config = config::standard();

    let mut data = [0xFFu8; 40];
    data[0] = (data.len() - 1) as u8;

    let result: Result<(String, usize), DecodeError> =
        decode_from_slice(data.as_slice(), config);
    assert!(matches!(result, Err(DecodeError::Utf8)))
}

#[test]
fn decode_str_reports_consumed_bytes() {
    let config = config::standard();
    let data = encode_to_vec(&"hello".to_string(), config);
    assert_eq!(data, vec![5, b'h', b'e', b'l', b'l', b'o']);

    let (s, consumed): (String, usize) = decode_from_slice(&data, config).unwrap();
    assert_eq!((s.as_str(), consumed), ("hello", 6));
}

#[test]
fn decode_borrowed_str_points_into_input() {
    let config = config::standard();
    let data = encode_to_vec(&"shared".to_string(), config);

    let (s, consumed): (&str, usize) =
        binwire::codec::borrow_decode_from_slice(&data, config).unwrap();
    assert_eq!((s, consumed), ("shared", 7));
}

#[test]
fn decode_borrowed_str_invalid_fails() {
    let config = config::standard();

    let result: Result<(&str, usize), DecodeError> =
        binwire::codec::borrow_decode_from_slice(&[2, 0xC0, 0x20], config);
    assert!(matches!(result, Err(DecodeError::Utf8)))
}

#[test]
fn decode_str_truncated_payload_fails() {
    let config = config::standard();

    let result: Result<(String, usize), DecodeError> = decode_from_slice(&[5, b'a'], config);
    assert!(matches!(result, Err(DecodeError::UnexpectedEnd)))
}

#[test]
fn string_round_trip_empty() {
    let config = config::standard();
    let data = encode_to_vec(&String::new(), config);
    assert_eq!(data, vec![0]);

    let s: String = decode_from_slice(&data, config).unwrap().0;
    assert_eq!(s, "");
}
