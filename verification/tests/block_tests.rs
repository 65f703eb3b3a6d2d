use block_codec::block::{encode_block, get_stats, iter_entries, read_entry_at, BlockEntry};
use block_codec::postings::Posting;
use block_codec::CodecError;

fn p(doc_id: u32, content_freq: u32, title_freq: u32) -> Posting {
    Posting { doc_id, content_freq, title_freq }
}

fn two_term_block() -> Vec<u8> {
    let terms = vec!["apple".to_string(), "banana".to_string()];
    let doc_freqs = vec![(2u64, 1u64), (5u64, 0u64)];
    let postings = vec![vec![p(1, 1, 0), p(4, 0, 1)], vec![p(2, 2, 2)]];
    encode_block(&terms, &doc_freqs, &postings).unwrap()
}

#[test]
fn write_then_stats_and_iterate() {
    let data = two_term_block();
    let (num_terms, file_size) = get_stats(&data).unwrap();
    assert_eq!(num_terms, 2);
    assert!(file_size > 0);
    assert_eq!(file_size, data.len() as u64);

    let entries = iter_entries(&data).unwrap();
    assert_eq!(entries.len(), 2);
    assert_eq!(entries[0].term, "apple");
    assert_eq!(entries[0].doc_freq_content, 2);
    assert_eq!(entries[0].doc_freq_title, 1);
    assert_eq!(entries[0].postings, vec![p(1, 1, 0), p(4, 0, 1)]);
    assert_eq!(entries[1].term, "banana");
    assert_eq!(entries[1].doc_freq_content, 5);
    assert_eq!(entries[1].doc_freq_title, 0);
    assert_eq!(entries[1].postings, vec![p(2, 2, 2)]);
}

#[test]
fn chained_offsets_reproduce_iteration() {
    let data = two_term_block();
    let entries = iter_entries(&data).unwrap();

    let mut chained: Vec<BlockEntry> = Vec::new();
    let mut offset = 8u64;
    while let Some(entry) = read_entry_at(&data, offset).unwrap() {
        offset = entry.next_offset;
        chained.push(entry);
    }
    assert_eq!(offset, data.len() as u64);
    assert_eq!(chained.len(), entries.len());
    for (a, b) in chained.iter().zip(entries.iter()) {
        assert_eq!(a.term, b.term);
        assert_eq!(a.doc_freq_content, b.doc_freq_content);
        assert_eq!(a.doc_freq_title, b.doc_freq_title);
        assert_eq!(a.postings, b.postings);
    }
}

#[test]
fn read_past_end_is_none() {
    let data = two_term_block();
    assert_eq!(read_entry_at(&data, data.len() as u64).unwrap().is_none(), true);
    assert_eq!(read_entry_at(&data, u64::MAX).unwrap().is_none(), true);
}

#[test]
fn mismatched_lengths_fail_without_output() {
    let terms = vec!["apple".to_string(), "banana".to_string()];
    let doc_freqs = vec![(2u64, 1u64)];
    let postings = vec![vec![p(1, 1, 0)], vec![p(2, 2, 2)]];
    assert_eq!(encode_block(&terms, &doc_freqs, &postings), Err(CodecError::LengthMismatch));
}

#[test]
fn writer_sorts_posting_lists() {
    let terms = vec!["pear".to_string()];
    let doc_freqs = vec![(3u64, 3u64)];
    let postings = vec![vec![p(9, 1, 0), p(2, 0, 1)]];
    let data = encode_block(&terms, &doc_freqs, &postings).unwrap();
    let entries = iter_entries(&data).unwrap();
    assert_eq!(entries[0].postings, vec![p(2, 0, 1), p(9, 1, 0)]);
}

#[test]
fn non_ascii_term_round_trips() {
    let terms = vec!["caf\u{e9} \u{2603}".to_string()];
    let doc_freqs = vec![(1u64, 0u64)];
    let postings = vec![vec![p(1, 1, 1)]];
    let data = encode_block(&terms, &doc_freqs, &postings).unwrap();
    let entries = iter_entries(&data).unwrap();
    assert_eq!(entries[0].term, "caf\u{e9} \u{2603}");
}

#[test]
fn empty_block_round_trips() {
    let data = encode_block(&Vec::new(), &Vec::new(), &Vec::new()).unwrap();
    assert_eq!(data.len(), 8);
    assert_eq!(get_stats(&data).unwrap(), (0, 8));
    assert_eq!(iter_entries(&data).unwrap().len(), 0);
    assert!(read_entry_at(&data, 8).unwrap().is_none());
}

#[test]
fn stats_on_short_data_fail() {
    assert_eq!(get_stats(&vec![1, 2, 3]), Err(CodecError::IoError));
    assert_eq!(iter_entries(&vec![1, 2, 3]).unwrap_err(), CodecError::IoError);
}

#[test]
fn torn_record_is_io_error() {
    // one declared entry whose term length runs past the end of the data
    let mut data = Vec::new();
    data.extend_from_slice(&[1, 0, 0, 0, 0, 0, 0, 0]);
    data.extend_from_slice(&[10, 0, 0, 0]);
    data.extend_from_slice(&[b'a', b'b']);
    assert_eq!(read_entry_at(&data, 8).unwrap_err(), CodecError::IoError);
}

#[test]
fn invalid_utf8_term_is_decode_error() {
    // one entry: term length 1, term byte 0xFF, zero frequencies, empty list
    let data = vec![1, 0, 0, 0, 0, 0, 0, 0, 1, 0, 0, 0, 0xFF, 0, 0, 0];
    assert_eq!(read_entry_at(&data, 8).unwrap_err(), CodecError::Utf8DecodeError);
}

#[test]
fn torn_varint_in_record_is_malformed() {
    // term "a" followed by a varint that never terminates
    let data = vec![1, 0, 0, 0, 0, 0, 0, 0, 1, 0, 0, 0, b'a', 0x80, 0x80];
    assert_eq!(read_entry_at(&data, 8).unwrap_err(), CodecError::MalformedVarint);
}

#[test]
fn header_larger_than_contents_stops_cleanly() {
    // header claims five entries, none present
    let data = vec![5, 0, 0, 0, 0, 0, 0, 0];
    assert_eq!(iter_entries(&data).unwrap().len(), 0);
}
