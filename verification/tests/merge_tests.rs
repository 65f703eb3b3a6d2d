use block_codec::merge::{merge_posting_lists, rank_postings};
use block_codec::postings::{decode_posting_list, encode_posting_list, Posting};
use block_codec::CodecError;

fn p(doc_id: u32, content_freq: u32, title_freq: u32) -> Posting {
    Posting { doc_id, content_freq, title_freq }
}

fn sorted_by_id(mut v: Vec<Posting>) -> Vec<Posting> {
    v.sort_by_key(|q| (q.doc_id, q.content_freq, q.title_freq));
    v
}

#[test]
fn merge_preserves_the_pooled_postings() {
    let a = vec![p(1, 3, 0), p(7, 1, 2)];
    let b = vec![p(2, 0, 5), p(7, 4, 4), p(30, 1, 1)];
    let lists = vec![encode_posting_list(&a, false), encode_posting_list(&b, false)];
    let merged = merge_posting_lists(&lists, 4).unwrap();
    let decoded = decode_posting_list(&merged).unwrap();

    let mut expected = a.clone();
    expected.extend_from_slice(&b);
    assert_eq!(sorted_by_id(decoded), sorted_by_id(expected));
}

#[test]
fn merge_output_is_ascending_by_doc_id() {
    let a = vec![p(50, 9, 9), p(3, 1, 0)];
    let b = vec![p(20, 0, 1)];
    let lists = vec![encode_posting_list(&a, false), encode_posting_list(&b, false)];
    let decoded = decode_posting_list(&merge_posting_lists(&lists, 1).unwrap()).unwrap();
    let ids: Vec<u32> = decoded.iter().map(|q| q.doc_id).collect();
    assert_eq!(ids, vec![3, 20, 50]);
}

#[test]
fn merge_of_nothing_is_empty() {
    assert_eq!(merge_posting_lists(&Vec::new(), 4).unwrap(), Vec::<u8>::new());
}

#[test]
fn merge_rejects_malformed_input() {
    let lists = vec![vec![0x80u8]];
    assert_eq!(merge_posting_lists(&lists, 4), Err(CodecError::MalformedVarint));
}

#[test]
fn ranking_orders_by_weighted_key_then_tie_breaks() {
    let input = vec![p(1, 1, 1), p(2, 5, 0), p(3, 0, 2)];
    // weight 4: keys are 5, 5 and 8
    let ranked = rank_postings(&input, 4);
    assert_eq!(ranked, vec![p(3, 0, 2), p(2, 5, 0), p(1, 1, 1)]);
}

#[test]
fn ranking_final_tie_break_is_ascending_doc_id() {
    let input = vec![p(9, 2, 3), p(4, 2, 3), p(6, 2, 3)];
    let ranked = rank_postings(&input, 2);
    assert_eq!(ranked, vec![p(4, 2, 3), p(6, 2, 3), p(9, 2, 3)]);
}
