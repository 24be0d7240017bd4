use hap_wire::tlv::decode::{collect_items, decode, decode_items};
use hap_wire::tlv::encode::{encode, encode_item, encode_items};
use hap_wire::tlv::format::{DecodeError, DuplicatePolicy, CHUNK_MAX};
use std::collections::HashMap;

const LENGTHS: [usize; 8] = [0, 1, 254, 255, 256, 509, 510, 511];

fn payload(len: usize, seed: u8) -> Vec<u8> {
    (0..len).map(|i| (i as u8).wrapping_mul(31).wrapping_add(seed)).collect()
}

fn policies() -> Vec<DuplicatePolicy> {
    vec![DuplicatePolicy::Overwrite, DuplicatePolicy::Append, DuplicatePolicy::Reject]
}

/// The chunks of a stream, read by hand: tag and value of each.
fn chunks(stream: &[u8]) -> Vec<(u8, Vec<u8>)> {
    let mut found = Vec::new();
    let mut pos = 0;
    while pos < stream.len() {
        let len = stream[pos + 1] as usize;
        found.push((stream[pos], stream[pos + 2..pos + 2 + len].to_vec()));
        pos += 2 + len;
    }
    found
}

#[test]
fn chunk_max_is_255() {
    assert_eq!(CHUNK_MAX, 255);
}

#[test]
fn one_byte_item_is_three_bytes() {
    let mut out = Vec::new();
    encode_item(1, &[0x02], &mut out);
    assert_eq!(out, vec![0x01, 0x01, 0x02]);
}

#[test]
fn encode_item_appends_to_what_is_there() {
    let mut out = vec![0xEE];
    encode_item(7, &[1, 2, 3], &mut out);
    assert_eq!(out, vec![0xEE, 7, 3, 1, 2, 3]);
}

#[test]
fn empty_payload_is_one_empty_chunk() {
    let mut out = Vec::new();
    encode_item(5, &[], &mut out);
    assert_eq!(out, vec![5, 0]);
}

#[test]
fn payload_of_260_is_two_chunks() {
    let mut items = HashMap::new();
    items.insert(9u8, vec![0xAAu8; 260]);
    let out = encode(items);
    let mut expected = vec![0x09, 0xFF];
    expected.extend(vec![0xAAu8; 255]);
    expected.extend(vec![0x09, 0x05]);
    expected.extend(vec![0xAAu8; 5]);
    assert_eq!(out, expected);
}

#[test]
fn payload_of_255_is_one_full_chunk() {
    let mut out = Vec::new();
    encode_item(3, &payload(255, 0), &mut out);
    assert_eq!(out.len(), 257);
    assert_eq!(&out[..2], &[3, 255]);
    assert_eq!(&out[2..], &payload(255, 0)[..]);
}

#[test]
fn chunk_count_law() {
    for &len in LENGTHS.iter() {
        let data = payload(len, 7);
        let mut out = Vec::new();
        encode_item(0x42, &data, &mut out);
        let found = chunks(&out);
        let expected = if len == 0 { 1 } else { (len + 254) / 255 };
        assert_eq!(found.len(), expected, "chunks for length {}", len);
        for (i, (tag, value)) in found.iter().enumerate() {
            assert_eq!(*tag, 0x42);
            if i + 1 < found.len() {
                assert_eq!(value.len(), 255);
            } else {
                assert_eq!(value.len(), len - 255 * (expected - 1));
            }
        }
        let joined: Vec<u8> = found.iter().flat_map(|c| c.1.clone()).collect();
        assert_eq!(joined, data);
        assert_eq!(out.len(), 2 * expected + len);
    }
}

#[test]
fn encoded_length_is_headers_and_payloads() {
    let items: Vec<(u8, Vec<u8>)> = LENGTHS
        .iter()
        .enumerate()
        .map(|(i, &len)| (i as u8, payload(len, i as u8)))
        .collect();
    let out = encode_items(&items);
    // chunks: 1 + 1 + 1 + 1 + 2 + 2 + 2 + 3 = 13
    // payload bytes: 0 + 1 + 254 + 255 + 256 + 509 + 510 + 511 = 2296
    assert_eq!(out.len(), 2 * 13 + 2296);
}

#[test]
fn encode_items_keeps_the_order_given() {
    let items = vec![(9u8, vec![1u8]), (2u8, vec![]), (9u8, vec![3u8, 4])];
    assert_eq!(encode_items(&items), vec![9, 1, 1, 2, 0, 9, 2, 3, 4]);
}

#[test]
fn encode_of_nothing_is_empty() {
    assert_eq!(encode(HashMap::new()), Vec::<u8>::new());
    assert_eq!(encode_items(&[]), Vec::<u8>::new());
}

#[test]
fn encode_writes_entries_by_ascending_tag() {
    let mut items = HashMap::new();
    items.insert(200u8, vec![1u8]);
    items.insert(0u8, vec![2u8]);
    items.insert(255u8, vec![]);
    items.insert(17u8, vec![3u8, 4]);
    assert_eq!(encode(items), vec![0, 1, 2, 17, 2, 3, 4, 200, 1, 1, 255, 0]);
}

#[test]
fn round_trip_of_a_mapping() {
    let mut items = HashMap::new();
    for (i, &len) in LENGTHS.iter().enumerate() {
        items.insert(i as u8 * 3, payload(len, i as u8));
    }
    let stream = encode(items.clone());
    for policy in policies() {
        assert_eq!(decode(&stream, policy), Ok(items.clone()));
    }
}

#[test]
fn round_trip_of_each_length_alone() {
    for &len in LENGTHS.iter() {
        let mut items = HashMap::new();
        items.insert(0x0Au8, payload(len, 1));
        let stream = encode(items.clone());
        assert_eq!(decode(&stream, DuplicatePolicy::Reject), Ok(items));
    }
}

#[test]
fn round_trip_of_a_sequence() {
    let items: Vec<(u8, Vec<u8>)> = LENGTHS
        .iter()
        .enumerate()
        .map(|(i, &len)| (i as u8, payload(len, 100)))
        .collect();
    assert_eq!(decode_items(&encode_items(&items)), Ok(items));
}

#[test]
fn round_trip_of_an_empty_stream() {
    assert_eq!(decode_items(&[]), Ok(vec![]));
    for policy in policies() {
        assert_eq!(decode(&[], policy), Ok(HashMap::new()));
    }
}

#[test]
fn full_chunk_runs_on_into_the_same_tag() {
    let first = payload(255, 1);
    let second = payload(10, 2);
    // one item of 265 bytes and two items of 255 and 10 have the same bytes
    let mut whole = first.clone();
    whole.extend(second.clone());
    let as_one = encode_items(&[(6, whole.clone())]);
    let as_two = encode_items(&[(6, first), (6, second)]);
    assert_eq!(as_one, as_two);
    assert_eq!(decode_items(&as_two), Ok(vec![(6, whole)]));
}

#[test]
fn empty_chunk_keeps_same_tag_items_apart() {
    let first = payload(255, 1);
    let second = payload(10, 2);
    let stream = encode_items(&[(6, first.clone()), (6, vec![]), (6, second.clone())]);
    assert_eq!(stream.len(), 257 + 2 + 12);
    assert_eq!(decode_items(&stream), Ok(vec![(6, first), (6, second)]));
}

#[test]
fn full_chunk_does_not_run_on_into_another_tag() {
    let first = payload(255, 1);
    let second = payload(10, 2);
    let items = vec![(6, first), (7, second)];
    assert_eq!(decode_items(&encode_items(&items)), Ok(items));
}

#[test]
fn short_chunk_ends_its_item() {
    // a tag that comes again after a short chunk is a new item
    let stream = vec![1, 2, 10, 11, 1, 1, 12];
    assert_eq!(decode_items(&stream), Ok(vec![(1, vec![10, 11]), (1, vec![12])]));
}

#[test]
fn run_of_full_chunks_ends_with_the_stream() {
    let mut stream = vec![4, 255];
    stream.extend(payload(255, 0));
    stream.extend(vec![4, 255]);
    stream.extend(payload(255, 9));
    let mut whole = payload(255, 0);
    whole.extend(payload(255, 9));
    assert_eq!(decode_items(&stream), Ok(vec![(4, whole)]));
}

#[test]
fn truncation_is_always_malformed() {
    let items = vec![(1u8, payload(3, 0)), (2u8, payload(300, 1)), (3u8, vec![])];
    let stream = encode_items(&items);
    // the ends of whole chunks: 5, 262, 309, 311
    let boundaries = [0usize, 5, 262, 309, 311];
    assert_eq!(stream.len(), 311);
    for cut in 0..=stream.len() {
        let result = decode_items(&stream[..cut]);
        if boundaries.contains(&cut) {
            assert!(result.is_ok(), "cut at {}", cut);
        } else {
            assert_eq!(result, Err(DecodeError::MalformedStream), "cut at {}", cut);
            for policy in policies() {
                assert_eq!(decode(&stream[..cut], policy), Err(DecodeError::MalformedStream));
            }
        }
    }
}

#[test]
fn stream_cut_in_header_is_malformed() {
    assert_eq!(decode_items(&[1]), Err(DecodeError::MalformedStream));
    assert_eq!(decode_items(&[1, 0, 2]), Err(DecodeError::MalformedStream));
}

#[test]
fn stream_cut_in_value_is_malformed() {
    assert_eq!(decode_items(&[1, 3, 9, 9]), Err(DecodeError::MalformedStream));
    assert_eq!(decode(&[1, 1], DuplicatePolicy::Overwrite), Err(DecodeError::MalformedStream));
}

#[test]
fn duplicate_tag_overwrite_keeps_the_later() {
    let stream = vec![1, 1, 10, 2, 1, 20, 1, 2, 30, 31];
    let mut expected = HashMap::new();
    expected.insert(1u8, vec![30u8, 31]);
    expected.insert(2u8, vec![20u8]);
    assert_eq!(decode(&stream, DuplicatePolicy::Overwrite), Ok(expected));
}

#[test]
fn duplicate_tag_append_joins_both() {
    let stream = vec![1, 1, 10, 2, 1, 20, 1, 2, 30, 31];
    let mut expected = HashMap::new();
    expected.insert(1u8, vec![10u8, 30, 31]);
    expected.insert(2u8, vec![20u8]);
    assert_eq!(decode(&stream, DuplicatePolicy::Append), Ok(expected));
}

#[test]
fn duplicate_tag_reject_refuses_the_stream() {
    let stream = vec![1, 1, 10, 2, 1, 20, 1, 2, 30, 31];
    assert_eq!(decode(&stream, DuplicatePolicy::Reject), Err(DecodeError::DuplicateTag));
}

#[test]
fn malformed_takes_precedence_over_duplicate() {
    let stream = vec![1, 1, 10, 1, 1, 20, 1, 5];
    for policy in policies() {
        assert_eq!(decode(&stream, policy), Err(DecodeError::MalformedStream));
    }
}

#[test]
fn continuation_is_no_duplicate() {
    let whole = payload(600, 3);
    let stream = encode_items(&[(8, whole.clone())]);
    let mut expected = HashMap::new();
    expected.insert(8u8, whole);
    assert_eq!(decode(&stream, DuplicatePolicy::Reject), Ok(expected));
}

#[test]
fn collect_items_follows_the_policy() {
    let items = vec![(1u8, vec![1u8]), (1u8, vec![2u8]), (1u8, vec![3u8])];
    let mut last = HashMap::new();
    last.insert(1u8, vec![3u8]);
    let mut joined = HashMap::new();
    joined.insert(1u8, vec![1u8, 2, 3]);
    assert_eq!(collect_items(&items, DuplicatePolicy::Overwrite), Ok(last));
    assert_eq!(collect_items(&items, DuplicatePolicy::Append), Ok(joined));
    assert_eq!(collect_items(&items, DuplicatePolicy::Reject), Err(DecodeError::DuplicateTag));
}
