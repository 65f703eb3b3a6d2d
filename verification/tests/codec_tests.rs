use block_codec::postings::{decode_posting_list, encode_posting_list, sort_postings, Posting};
use block_codec::stream::{read_varint, streamed_varint_value, VecSource};
use block_codec::varint::{decode_varint, encode_varint};
use block_codec::CodecError;

fn p(doc_id: u32, content_freq: u32, title_freq: u32) -> Posting {
    Posting { doc_id, content_freq, title_freq }
}

#[test]
fn varint_round_trip_values() {
    for v in [0u64, 1, 127, 128, 255, 300, (1u64 << 35) - 1, u64::MAX] {
        let e = encode_varint(v);
        let (decoded, consumed) = decode_varint(&e).unwrap();
        assert_eq!(decoded, v);
        assert_eq!(consumed, e.len());
    }
}

#[test]
fn varint_concrete_300() {
    assert_eq!(encode_varint(300), vec![0xAC, 0x02]);
    assert_eq!(decode_varint(&vec![0xAC, 0x02]).unwrap(), (300, 2));
}

#[test]
fn varint_single_bytes() {
    assert_eq!(encode_varint(0), vec![0x00]);
    assert_eq!(encode_varint(127), vec![0x7F]);
    assert_eq!(encode_varint(128), vec![0x80, 0x01]);
}

#[test]
fn varint_max_value_is_ten_bytes() {
    let e = encode_varint(u64::MAX);
    assert_eq!(e.len(), 10);
    assert_eq!(decode_varint(&e).unwrap(), (u64::MAX, 10));
}

#[test]
fn varint_truncated_stream_fails() {
    assert_eq!(decode_varint(&vec![0x80]), Err(CodecError::MalformedVarint));
    assert_eq!(decode_varint(&vec![]), Err(CodecError::MalformedVarint));
}

#[test]
fn varint_too_many_continuation_bytes_fails() {
    let bytes = vec![0x80u8; 11];
    assert_eq!(decode_varint(&bytes), Err(CodecError::MalformedVarint));
}

#[test]
fn varint_decode_ignores_trailing_bytes() {
    let data = vec![0xAC, 0x02, 0x55, 0x66];
    assert_eq!(decode_varint(&data).unwrap(), (300, 2));
}

#[test]
fn posting_list_empty_round_trip() {
    let empty: Vec<Posting> = Vec::new();
    assert_eq!(encode_posting_list(&empty, false), Vec::<u8>::new());
    assert_eq!(decode_posting_list(&Vec::new()).unwrap(), Vec::<Posting>::new());
}

#[test]
fn posting_list_unsorted_input_round_trips_sorted() {
    let input = vec![p(5, 2, 1), p(3, 0, 4), p(10, 1, 1)];
    let encoded = encode_posting_list(&input, false);
    // deltas 3, 2, 5, every value below 128, so one byte each
    assert_eq!(encoded, vec![3, 0, 4, 2, 2, 1, 5, 1, 1]);
    let decoded = decode_posting_list(&encoded).unwrap();
    assert_eq!(decoded, vec![p(3, 0, 4), p(5, 2, 1), p(10, 1, 1)]);
}

#[test]
fn posting_list_sorted_flag_matches_sorted_input() {
    let sorted = vec![p(1, 9, 0), p(7, 2, 3), p(400, 1, 1)];
    assert_eq!(encode_posting_list(&sorted, true), encode_posting_list(&sorted, false));
}

#[test]
fn posting_list_large_values_round_trip() {
    let input = vec![p(u32::MAX, u32::MAX, 0), p(300, 0, u32::MAX), p(0, 1, 2)];
    let decoded = decode_posting_list(&encode_posting_list(&input, false)).unwrap();
    assert_eq!(decoded, vec![p(0, 1, 2), p(300, 0, u32::MAX), p(u32::MAX, u32::MAX, 0)]);
}

#[test]
fn posting_list_truncated_triple_fails() {
    let input = vec![p(3, 0, 4)];
    let mut encoded = encode_posting_list(&input, false);
    encoded.pop();
    assert_eq!(decode_posting_list(&encoded), Err(CodecError::MalformedVarint));
}

#[test]
fn sort_postings_orders_by_doc_id() {
    let input = vec![p(9, 0, 0), p(2, 5, 5), p(9, 1, 1), p(1, 0, 0)];
    let sorted = sort_postings(&input);
    let ids: Vec<u32> = sorted.iter().map(|q| q.doc_id).collect();
    assert_eq!(ids, vec![1, 2, 9, 9]);
    assert_eq!(sorted.len(), input.len());
}

#[test]
fn read_varint_from_buffer() {
    let mut src = VecSource::new(vec![0xAC, 0x02, 0x07]);
    assert_eq!(read_varint(&mut src), Ok(Some(300)));
    assert_eq!(read_varint(&mut src), Ok(Some(7)));
    assert_eq!(read_varint(&mut src), Ok(None));
}

#[test]
fn read_varint_exhausted_mid_value_is_end_of_input() {
    let mut src = VecSource::new(vec![0x80]);
    assert_eq!(read_varint(&mut src), Ok(None));
}

#[test]
fn read_varint_rejects_oversized_value() {
    let mut src = VecSource::new(vec![0x80, 0x80, 0x80, 0x80, 0x80, 0x01]);
    assert_eq!(read_varint(&mut src), Err(CodecError::MalformedVarint));
}

#[test]
fn streamed_value_matches_in_memory_decoder() {
    let buf = vec![0xAC, 0x02];
    assert_eq!(streamed_varint_value(&buf), 300);
    assert_eq!(decode_varint(&buf).unwrap(), (300, 2));
}
