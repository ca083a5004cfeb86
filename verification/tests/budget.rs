use binwire::codec::{encode_to_vec, Decode};
use binwire::collections::{decode_ordered_set, OrderedMap, OrderedSet};
use binwire::config;
use binwire::de::{DecoderImpl, WithContext};
use binwire::error::DecodeError;
use binwire::reader::SliceReader;

#[test]
fn floor_fail_fast_rejects_huge_length() {
    // The prefix claims 100 one-byte items against a limit of 10; the
    // decode must fail at the floor claim, though the input ends right
    // after the prefix.
    let config = config::standard().with_limit(10);
    let reader = SliceReader::new(&[100]);
    let mut d = DecoderImpl::new(reader, config, ());
    let result: Result<OrderedSet, DecodeError> = decode_ordered_set(&mut d);
    assert!(matches!(result, Err(DecodeError::LimitExceeded)));
}

#[test]
fn truncated_sequence_without_limit_runs_out_of_input() {
    let config = config::standard();
    let reader = SliceReader::new(&[100]);
    let mut d = DecoderImpl::new(reader, config, ());
    let result: Result<OrderedSet, DecodeError> = decode_ordered_set(&mut d);
    assert!(matches!(result, Err(DecodeError::UnexpectedEnd)));
}

#[test]
fn net_budget_counts_real_bytes_not_floor() {
    // Items of encoded sizes 1, 3 and 5: the final claimed count must be
    // the prefix byte plus 1 + 3 + 5, not three times any floor.
    let config = config::standard().with_limit(1000);
    let mut set = OrderedSet::new();
    set.insert(1);
    set.insert(300);
    set.insert(70_000);
    let data = encode_to_vec(&set, config);
    assert_eq!(data.len(), 10);

    let reader = SliceReader::new(&data);
    let mut d = DecoderImpl::new(reader, config, ());
    let back: OrderedSet = decode_ordered_set(&mut d).unwrap();
    assert_eq!(back.items(), &vec![1, 300, 70_000]);
    assert_eq!(d.bytes_read(), 10);
    assert_eq!(d.bytes_consumed(), 10);
}

#[test]
fn limit_zero_rejects_any_read() {
    let config = config::standard().with_limit(0);
    let reader = SliceReader::new(&[7]);
    let mut d = DecoderImpl::new(reader, config, ());
    assert!(matches!(d.decode_u64(), Err(DecodeError::LimitExceeded)));
}

#[test]
fn string_over_limit_fails_before_payload() {
    let config = config::standard().with_limit(2);
    let data = encode_to_vec(&"aaa".to_string(), config::standard());
    let result: Result<(String, usize), DecodeError> =
        binwire::codec::decode_from_slice(&data, config);
    assert!(matches!(result, Err(DecodeError::LimitExceeded)));
}

#[test]
fn string_within_limit_succeeds() {
    let config = config::standard().with_limit(4);
    let data = encode_to_vec(&"aaa".to_string(), config::standard());
    let (s, _): (String, usize) = binwire::codec::decode_from_slice(&data, config).unwrap();
    assert_eq!(s, "aaa");
}

#[test]
fn tuple_error_in_middle_leaves_rest_unread() {
    // (u8, String, u8): the text payload is invalid, so the third
    // element's byte must never be consumed.
    let config = config::standard();
    let data = [7u8, 3, 0xFF, 0xFF, 0xFF, 9];
    let reader = SliceReader::new(&data);
    let mut d = DecoderImpl::new(reader, config, ());
    let result: Result<(u8, String, u8), DecodeError> = Decode::decode(&mut d);
    assert!(matches!(result, Err(DecodeError::Utf8)));
    assert_eq!(d.bytes_consumed(), 5);
}

#[test]
fn tuple_consumes_elements_in_order() {
    let config = config::standard();
    let data = [10u8, 20, 30];
    let reader = SliceReader::new(&data);
    let mut d = DecoderImpl::new(reader, config, ());
    let (a, b, c): (u8, u8, u8) = Decode::decode(&mut d).unwrap();
    assert_eq!((a, b, c), (10, 20, 30));
}

#[test]
fn wide_tuple_consumes_elements_in_order() {
    let config = config::standard();
    let data = [1u8, 2, 3, 4, 5, 6];
    let reader = SliceReader::new(&data);
    let mut d = DecoderImpl::new(reader, config, ());
    let t: (u8, u8, u8, u8, u8, u8) = Decode::decode(&mut d).unwrap();
    assert_eq!(t, (1, 2, 3, 4, 5, 6));
}

#[test]
fn decode_with_context() {
    // The inner value decodes under the adapter's context while the
    // outer context is held aside and comes back untouched.
    let config = config::standard();
    let data = encode_to_vec(&7u64, config);
    let reader = SliceReader::new(&data);
    let outer = DecoderImpl::new(reader, config, 100u32);
    let mut w = WithContext::new(outer, 42u64);
    let seen = *w.decoder.ctx();
    let v = w.decoder.decode_u64().unwrap();
    let (restored, adapter_ctx) = w.finish();
    assert!(seen == 42 && adapter_ctx == 42 && *restored.ctx() == 100 && v == 7);
}

#[test]
fn map_round_trip_keeps_insertion_order() {
    let config = config::standard();
    let mut map: OrderedMap<u64> = OrderedMap::new();
    map.insert(9, 90);
    map.insert(2, 20);
    map.insert(5, 50);
    let data = encode_to_vec(&map, config);

    let reader = SliceReader::new(&data);
    let mut d = DecoderImpl::new(reader, config, ());
    let back: OrderedMap<u64> = Decode::decode(&mut d).unwrap();
    assert_eq!(back.entries(), &vec![(9, 90), (2, 20), (5, 50)]);
}

#[test]
fn map_insert_replaces_existing_key() {
    let mut map: OrderedMap<u64> = OrderedMap::new();
    map.insert(1, 10);
    map.insert(2, 20);
    map.insert(1, 11);
    assert_eq!(map.entries(), &vec![(1, 11), (2, 20)]);
}

#[test]
fn map_decode_merges_duplicate_wire_keys() {
    // Two entries with the same key on the wire: the later value wins
    // and the map stays one entry long.
    let config = config::standard();
    let data = [2u8, 1, 10, 1, 11];
    let reader = SliceReader::new(&data);
    let mut d = DecoderImpl::new(reader, config, ());
    let back: OrderedMap<u64> = Decode::decode(&mut d).unwrap();
    assert_eq!(back.entries(), &vec![(1, 11)]);
}

#[test]
fn map_floor_fail_fast_counts_pairs() {
    // 200 declared pairs at a floor of 2 bytes each passes a limit of
    // 300, with no pair bytes present at all.
    let config = config::standard().with_limit(300);
    let reader = SliceReader::new(&[200]);
    let mut d = DecoderImpl::new(reader, config, ());
    let result: Result<OrderedMap<u64>, DecodeError> = Decode::decode(&mut d);
    assert!(matches!(result, Err(DecodeError::LimitExceeded)));
}

#[test]
fn set_round_trip_fixed_int_config() {
    let config = config::standard().with_fixed_int_encoding();
    let mut set = OrderedSet::new();
    set.insert(3);
    set.insert(1);
    let data = encode_to_vec(&set, config);
    assert_eq!(data.len(), 8 + 16);

    let reader = SliceReader::new(&data);
    let mut d = DecoderImpl::new(reader, config, ());
    let back: OrderedSet = Decode::decode(&mut d).unwrap();
    assert_eq!(back.items(), &vec![3, 1]);
}

#[test]
fn set_insert_ignores_duplicates() {
    let mut set = OrderedSet::new();
    set.insert(4);
    set.insert(4);
    set.insert(6);
    assert_eq!(set.items(), &vec![4, 6]);
    assert!(set.contains(6) && !set.contains(5));
}

#[test]
fn map_borrow_decode_values_reference_input() {
    let config = config::standard();
    let mut map: OrderedMap<String> = OrderedMap::new();
    map.insert(1, "one".to_string());
    map.insert(2, "two".to_string());
    let data = encode_to_vec(&map, config);

    let reader = SliceReader::new(&data);
    let mut d = DecoderImpl::new(reader, config, ());
    let back: OrderedMap<&str> = binwire::codec::BorrowDecode::borrow_decode(&mut d).unwrap();
    assert_eq!(back.entries(), &vec![(1, "one"), (2, "two")]);
}

#[test]
fn floor_fail_fast_fixed_width_counts_eight_per_item() {
    // Under fixed-width integers the least encoded item is eight bytes:
    // a declared length of 3 must be charged 24 against a limit of 20
    // and fail at the floor, not with an unexpected-end error later.
    let config = config::standard().with_fixed_int_encoding().with_limit(20);
    let prefix = [3u8, 0, 0, 0, 0, 0, 0, 0];
    let reader = SliceReader::new(&prefix);
    let mut d = DecoderImpl::new(reader, config, ());
    let result: Result<OrderedSet, DecodeError> = decode_ordered_set(&mut d);
    assert!(matches!(result, Err(DecodeError::LimitExceeded)));
}

#[test]
fn set_decode_succeeds_at_exact_limit() {
    // The floor is released before each item's real claim, so a limit
    // equal to the input's byte count is enough.
    let config = config::standard().with_limit(10);
    let mut set = OrderedSet::new();
    set.insert(1);
    set.insert(300);
    set.insert(70_000);
    let data = encode_to_vec(&set, config::standard());
    assert_eq!(data.len(), 10);

    let reader = SliceReader::new(&data);
    let mut d = DecoderImpl::new(reader, config, ());
    let back: OrderedSet = decode_ordered_set(&mut d).unwrap();
    assert_eq!(back.items(), &vec![1, 300, 70_000]);
}

#[test]
fn ctx_write_accessor_swaps_value() {
    let config = config::standard();
    let data = encode_to_vec(&1u64, config);
    let reader = SliceReader::new(&data);
    let mut d = DecoderImpl::new(reader, config, 5u32);
    let prev = d.set_ctx(9u32);
    assert!(prev == 5 && *d.ctx() == 9);
}

#[test]
fn config_builders_compose() {
    let c = config::standard()
        .with_big_endian()
        .with_fixed_int_encoding()
        .with_limit(16)
        .with_variable_int_encoding()
        .with_little_endian()
        .with_no_limit();
    assert!(c.limit.is_none());
}
