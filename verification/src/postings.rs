//! Posting-list codec: delta-compressed varint triples.
//!
//! A posting list is stored as one varint triple per posting: the gap from
//! the previous document id (starting from zero), the content frequency and
//! the title frequency. Gaps only work when the postings are laid out in
//! ascending document-id order, so the encoder sorts first unless the caller
//! vouches for the order.

use vstd::prelude::*;

verus! {

use vstd::arithmetic::div_mod::lemma_small_mod;
use vstd::seq_lib::{to_multiset_build, to_multiset_insert};
use crate::CodecError;
use crate::varint::{
    decode_varint_at, encode_varint_to_vec, is_varint_prefix, lemma_varint_encoded_at,
    varint_encode, varint_ok, varint_size, varint_u64,
};

/// One document's contribution to a term's index entry.
#[derive(Clone, Copy, Debug, PartialEq, Eq, Structural)]
pub struct Posting {
    pub doc_id: u32,
    pub content_freq: u32,
    pub title_freq: u32,
}

/// Ascending document-id order, the canonical on-disk order.
pub open spec fn sorted_by_doc(s: Seq<Posting>) -> bool {
    forall|i: int, j: int| 0 <= i < j < s.len() ==> s[i].doc_id <= s[j].doc_id
}

/// The bytes a posting list encodes to when the previous document id was
/// `prev`: one triple of varints per posting, gaps first.
pub open spec fn postings_encode(ps: Seq<Posting>, prev: nat) -> Seq<u8>
    recommends
        ps.len() > 0 ==> prev <= ps[0].doc_id,
    decreases ps.len(),
{
    if ps.len() == 0 {
        Seq::empty()
    } else {
        varint_encode((ps[0].doc_id - prev) as nat) + varint_encode(ps[0].content_freq as nat)
            + varint_encode(ps[0].title_freq as nat) + postings_encode(
            ps.drop_first(),
            ps[0].doc_id as nat,
        )
    }
}

/// What decoding `s` yields when the running document id stands at `prev`:
/// triples of varints until the input is exhausted, document ids
/// accumulated modulo `2^32`, frequencies truncated the same way. `None`
/// when the input ends inside a triple or a varint is malformed.
pub open spec fn decode_postings_rec(s: Seq<u8>, prev: u32) -> Option<Seq<Posting>>
    decreases s.len(),
{
    if s.len() == 0 {
        Some(Seq::empty())
    } else if !varint_ok(s) {
        None
    } else {
        let n1 = varint_size(s);
        let delta = varint_u64(s);
        let s1 = s.skip(n1 as int);
        if !varint_ok(s1) {
            None
        } else {
            let n2 = varint_size(s1);
            let cf = varint_u64(s1);
            let s2 = s1.skip(n2 as int);
            if !varint_ok(s2) {
                None
            } else {
                let n3 = varint_size(s2);
                let tf = varint_u64(s2);
                let s3 = s2.skip(n3 as int);
                let doc = ((prev + delta) % 0x1_0000_0000) as u32;
                match decode_postings_rec(s3, doc) {
                    Some(rest) => Some(
                        seq![
                            Posting {
                                doc_id: doc,
                                content_freq: (cf % 0x1_0000_0000) as u32,
                                title_freq: (tf % 0x1_0000_0000) as u32,
                            },
                        ] + rest,
                    ),
                    None => None,
                }
            }
        }
    }
}

/// Decoding what the encoder produced for an ascending posting list gives
/// the list back, whatever the starting document id.
#[verifier::rlimit(100)]
#[verifier::spinoff_prover]
pub proof fn lemma_decode_of_encode(ps: Seq<Posting>, prev: u32)
    requires
        sorted_by_doc(ps),
        forall|k: int| 0 <= k < ps.len() ==> ps[k].doc_id >= prev,
    ensures
        decode_postings_rec(postings_encode(ps, prev as nat), prev) == Some(ps),
    decreases ps.len(),
{
    if ps.len() == 0 {
        assert(decode_postings_rec(postings_encode(ps, prev as nat), prev) == Some(
            Seq::<Posting>::empty(),
        ));
        assert(ps =~= Seq::<Posting>::empty());
    } else {
        let p = ps[0];
        let delta: u64 = (p.doc_id - prev) as u64;
        let e1 = varint_encode(delta as nat);
        let e2 = varint_encode(p.content_freq as nat);
        let e3 = varint_encode(p.title_freq as nat);
        let tail = postings_encode(ps.drop_first(), p.doc_id as nat);
        let s = postings_encode(ps, prev as nat);
        assert(s =~= e1 + (e2 + (e3 + tail)));
        lemma_varint_encoded_at(delta, e2 + (e3 + tail));
        let s1 = s.skip(varint_size(s) as int);
        assert(s1 =~= e2 + (e3 + tail));
        lemma_varint_encoded_at(p.content_freq as u64, e3 + tail);
        let s2 = s1.skip(varint_size(s1) as int);
        assert(s2 =~= e3 + tail);
        lemma_varint_encoded_at(p.title_freq as u64, tail);
        let s3 = s2.skip(varint_size(s2) as int);
        assert(s3 =~= tail);
        assert(((prev + delta) % 0x1_0000_0000) as u32 == p.doc_id) by {
            lemma_small_mod(p.doc_id as nat, 0x1_0000_0000);
        }
        assert((p.content_freq as u64 % 0x1_0000_0000) as u32 == p.content_freq) by {
            lemma_small_mod(p.content_freq as nat, 0x1_0000_0000);
        }
        assert((p.title_freq as u64 % 0x1_0000_0000) as u32 == p.title_freq) by {
            lemma_small_mod(p.title_freq as nat, 0x1_0000_0000);
        }
        assert(forall|k: int|
            0 <= k < ps.drop_first().len() ==> ps.drop_first()[k].doc_id >= p.doc_id);
        lemma_decode_of_encode(ps.drop_first(), p.doc_id);
        assert(decode_postings_rec(s3, p.doc_id) == Some(ps.drop_first()));
        assert(seq![p] + ps.drop_first() =~= ps);
    }
}

/// Round trip of the posting-list codec: an ascending posting list decodes
/// from its own encoding, unchanged and in full.
pub proof fn lemma_posting_list_round_trip(ps: Seq<Posting>)
    requires
        sorted_by_doc(ps),
    ensures
        decode_postings_rec(postings_encode(ps, 0), 0) == Some(ps),
{
    lemma_decode_of_encode(ps, 0);
}

/// The empty posting list encodes to no bytes, and no bytes decode to the
/// empty posting list.
pub proof fn lemma_empty_posting_list()
    ensures
        postings_encode(Seq::empty(), 0) == Seq::<u8>::empty(),
        decode_postings_rec(Seq::empty(), 0) == Some(Seq::<Posting>::empty()),
{
    assert(postings_encode(Seq::empty(), 0) =~= Seq::<u8>::empty());
}

/// Sort postings into ascending document-id order.
pub fn sort_postings(postings: &Vec<Posting>) -> (r: Vec<Posting>)
    ensures
        sorted_by_doc(r@),
        r@.to_multiset() == postings@.to_multiset(),
        r@.len() == postings@.len(),
{
    let mut out: Vec<Posting> = Vec::new();
    let mut i: usize = 0;
    proof {
        assert(postings@.take(0) =~= Seq::<Posting>::empty());
        assert(out@.to_multiset() =~= postings@.take(0).to_multiset());
    }
    while i < postings.len()
        invariant
            i <= postings@.len(),
            out@.len() == i,
            sorted_by_doc(out@),
            out@.to_multiset() == postings@.take(i as int).to_multiset(),
        decreases postings@.len() - i,
    {
        let x = postings[i];
        let mut j: usize = out.len();
        while j > 0 && out[j - 1].doc_id > x.doc_id
            invariant
                j <= out@.len(),
                forall|k: int| j <= k < out@.len() ==> out@[k].doc_id > x.doc_id,
            decreases j,
        {
            j = j - 1;
        }
        let ghost before = out@;
        out.insert(j, x);
        proof {
            before.insert_ensures(j as int, x);
            assert forall|p: int, q: int| 0 <= p < q < out@.len() implies out@[p].doc_id
                <= out@[q].doc_id by {
                if q < j {
                    assert(before[p].doc_id <= before[q].doc_id);
                } else if p < j && q == j {
                    assert(before[p].doc_id <= before[j - 1].doc_id);
                } else if p < j && q > j {
                    assert(before[p].doc_id <= before[q - 1].doc_id);
                } else if p == j {
                    assert(before[q - 1].doc_id > x.doc_id);
                } else {
                    assert(before[p - 1].doc_id <= before[q - 1].doc_id);
                }
            }
            to_multiset_insert(before, j as int, x);
            assert(postings@.take(i + 1) =~= postings@.take(i as int).push(x));
            to_multiset_build(postings@.take(i as int), x);
        }
        i = i + 1;
    }
    proof {
        assert(postings@.take(postings@.len() as int) =~= postings@);
    }
    out
}

/// Encode an ascending posting list, gaps taken against `prev` = 0.
fn encode_sorted(ps: &Vec<Posting>) -> (r: Vec<u8>)
    requires
        sorted_by_doc(ps@),
    ensures
        r@ == postings_encode(ps@, 0),
{
    let mut out: Vec<u8> = Vec::new();
    let mut prev: u32 = 0;
    let mut i: usize = 0;
    proof {
        assert(ps@.skip(0) =~= ps@);
        assert(Seq::<u8>::empty() + postings_encode(ps@, 0) =~= postings_encode(ps@, 0));
    }
    while i < ps.len()
        invariant
            sorted_by_doc(ps@),
            i <= ps@.len(),
            prev == (if i == 0 {
                0u32
            } else {
                ps@[i - 1].doc_id
            }),
            postings_encode(ps@, 0) == out@ + postings_encode(ps@.skip(i as int), prev as nat),
        decreases ps@.len() - i,
    {
        let p = ps[i];
        proof {
            if i > 0 {
                assert(ps@[i - 1].doc_id <= ps@[i as int].doc_id);
            }
        }
        let delta = p.doc_id - prev;
        let ghost mid = out@;
        encode_varint_to_vec(&mut out, delta as u64);
        encode_varint_to_vec(&mut out, p.content_freq as u64);
        encode_varint_to_vec(&mut out, p.title_freq as u64);
        proof {
            let suffix = ps@.skip(i as int);
            assert(suffix[0] == p);
            assert(suffix.drop_first() =~= ps@.skip(i + 1));
            assert(postings_encode(suffix, prev as nat) == varint_encode(delta as nat)
                + varint_encode(p.content_freq as nat) + varint_encode(p.title_freq as nat)
                + postings_encode(ps@.skip(i + 1), p.doc_id as nat));
            assert(out@ =~= mid + varint_encode(delta as nat) + varint_encode(
                p.content_freq as nat,
            ) + varint_encode(p.title_freq as nat));
            assert(mid + postings_encode(suffix, prev as nat) =~= out@ + postings_encode(
                ps@.skip(i + 1),
                p.doc_id as nat,
            ));
        }
        prev = p.doc_id;
        i = i + 1;
    }
    proof {
        assert(ps@.skip(ps@.len() as int) =~= Seq::<Posting>::empty());
        assert(out@ + postings_encode(ps@.skip(ps@.len() as int), prev as nat) =~= out@);
    }
    out
}

/// Encode a posting list.
///
/// When `assume_sorted` is set the caller vouches that the postings are
/// already in ascending document-id order and they are encoded as given;
/// otherwise they are sorted first. The empty list encodes to no bytes.
pub fn encode_posting_list(postings: &Vec<Posting>, assume_sorted: bool) -> (r: Vec<u8>)
    requires
        assume_sorted ==> sorted_by_doc(postings@),
    ensures
        assume_sorted ==> r@ == postings_encode(postings@, 0),
        !assume_sorted ==> exists|s: Seq<Posting>|
            {
                &&& sorted_by_doc(s)
                &&& s.to_multiset() == postings@.to_multiset()
                &&& s.len() == postings@.len()
                &&& r@ == postings_encode(s, 0)
            },
{
    if assume_sorted {
        encode_sorted(postings)
    } else {
        let sorted = sort_postings(postings);
        let r = encode_sorted(&sorted);
        proof {
            let s = sorted@;
            assert({
                &&& sorted_by_doc(s)
                &&& s.to_multiset() == postings@.to_multiset()
                &&& s.len() == postings@.len()
                &&& r@ == postings_encode(s, 0)
            });
        }
        r
    }
}

/// Decode a posting list from its delta-compressed bytes.
///
/// Succeeds exactly when the bytes are a whole number of well-formed varint
/// triples; fails with `MalformedVarint` when the input ends mid-triple or
/// a varint is malformed.
#[verifier::rlimit(100)]
pub fn decode_posting_list(data: &Vec<u8>) -> (r: Result<Vec<Posting>, CodecError>)
    ensures
        ({
            match decode_postings_rec(data@, 0) {
                Some(ps) => r matches Ok(v) && v@ == ps,
                None => r == Err::<Vec<Posting>, CodecError>(CodecError::MalformedVarint),
            }
        }),
{
    let mut out: Vec<Posting> = Vec::new();
    let mut pos: usize = 0;
    let mut prev: u32 = 0;
    proof {
        assert(data@.skip(0) =~= data@);
        match decode_postings_rec(data@, 0) {
            Some(t) => {
                assert(Seq::<Posting>::empty() + t =~= t);
            },
            None => {},
        }
    }
    while pos < data.len()
        invariant
            pos <= data@.len(),
            ({
                let full = decode_postings_rec(data@, 0);
                match decode_postings_rec(data@.skip(pos as int), prev) {
                    Some(t) => full == Some(out@ + t),
                    None => full is None,
                }
            }),
        decreases data@.len() - pos,
    {
        let ghost s = data@.skip(pos as int);
        let (delta, n1) = match decode_varint_at(data, pos) {
            Ok(x) => x,
            Err(e) => {
                return Err(e);
            },
        };
        let pos1 = pos + n1;
        proof {
            assert(data@.skip(pos1 as int) =~= s.skip(n1 as int));
        }
        let (cf, n2) = match decode_varint_at(data, pos1) {
            Ok(x) => x,
            Err(e) => {
                return Err(e);
            },
        };
        let pos2 = pos1 + n2;
        proof {
            assert(data@.skip(pos2 as int) =~= s.skip(n1 as int).skip(n2 as int));
        }
        let (tf, n3) = match decode_varint_at(data, pos2) {
            Ok(x) => x,
            Err(e) => {
                return Err(e);
            },
        };
        let pos3 = pos2 + n3;
        proof {
            assert(data@.skip(pos3 as int) =~= s.skip(n1 as int).skip(n2 as int).skip(n3 as int));
        }
        let doc = ((prev as u128 + delta as u128) % 0x1_0000_0000) as u32;
        let p = Posting {
            doc_id: doc,
            content_freq: (cf % 0x1_0000_0000) as u32,
            title_freq: (tf % 0x1_0000_0000) as u32,
        };
        let ghost mid = out@;
        out.push(p);
        proof {
            let t3 = decode_postings_rec(data@.skip(pos3 as int), doc);
            match t3 {
                Some(rest) => {
                    assert(decode_postings_rec(s, prev) == Some(seq![p] + rest));
                    assert(mid + (seq![p] + rest) =~= out@ + rest);
                },
                None => {
                    assert(decode_postings_rec(s, prev) is None);
                },
            }
        }
        pos = pos3;
        prev = doc;
    }
    proof {
        assert(data@.skip(pos as int) =~= Seq::<u8>::empty());
        assert(out@ + Seq::<Posting>::empty() =~= out@);
    }
    Ok(out)
}

} // verus!
