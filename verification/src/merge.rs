//! Merging several encoded posting lists into one.
//!
//! Every input list is decoded independently, the postings are pooled,
//! ranked by a descending relevance key, and the pool is re-encoded as one
//! posting list. The emitted bytes always follow the ascending
//! document-id delta order that the codec requires; the ranking pass only
//! decides how postings that share a document id are ordered among
//! themselves.

use vstd::prelude::*;

verus! {

use vstd::arithmetic::mul::lemma_mul_upper_bound;
use vstd::seq_lib::{to_multiset_build, to_multiset_insert};
use crate::CodecError;
use crate::postings::{
    decode_posting_list, decode_postings_rec, encode_posting_list, lemma_posting_list_round_trip,
    postings_encode, sorted_by_doc, Posting,
};

/// The relevance key: content frequency plus the caller-chosen weight on
/// the title frequency.
pub open spec fn rank_key(p: Posting, w: u32) -> int {
    p.content_freq + w * p.title_freq
}

/// `a` ranks no worse than `b`: higher relevance key first, ties broken by
/// higher content frequency, then higher title frequency, then lower
/// document id.
pub open spec fn rank_before_eq(a: Posting, b: Posting, w: u32) -> bool {
    if rank_key(a, w) != rank_key(b, w) {
        rank_key(a, w) > rank_key(b, w)
    } else if a.content_freq != b.content_freq {
        a.content_freq > b.content_freq
    } else if a.title_freq != b.title_freq {
        a.title_freq > b.title_freq
    } else {
        a.doc_id <= b.doc_id
    }
}

/// Descending relevance order under weight `w`.
pub open spec fn sorted_by_rank(s: Seq<Posting>, w: u32) -> bool {
    forall|i: int, j: int| 0 <= i < j < s.len() ==> rank_before_eq(s[i], s[j], w)
}

/// Compare two postings under the relevance order.
fn rank_le(a: &Posting, b: &Posting, w: u32) -> (r: bool)
    ensures
        r == rank_before_eq(*a, *b, w),
{
    proof {
        lemma_mul_upper_bound(w as int, 0xFFFF_FFFF, a.title_freq as int, 0xFFFF_FFFF);
        lemma_mul_upper_bound(w as int, 0xFFFF_FFFF, b.title_freq as int, 0xFFFF_FFFF);
    }
    let ka: u64 = a.content_freq as u64 + (w as u64) * (a.title_freq as u64);
    let kb: u64 = b.content_freq as u64 + (w as u64) * (b.title_freq as u64);
    if ka != kb {
        ka > kb
    } else if a.content_freq != b.content_freq {
        a.content_freq > b.content_freq
    } else if a.title_freq != b.title_freq {
        a.title_freq > b.title_freq
    } else {
        a.doc_id <= b.doc_id
    }
}

/// Sort postings by descending relevance under weight `w`.
pub fn rank_postings(postings: &Vec<Posting>, w: u32) -> (r: Vec<Posting>)
    ensures
        sorted_by_rank(r@, w),
        r@.to_multiset() == postings@.to_multiset(),
        r@.len() == postings@.len(),
{
    let mut out: Vec<Posting> = Vec::new();
    let mut i: usize = 0;
    proof {
        assert(postings@.take(0) =~= Seq::<Posting>::empty());
        assert(out@.to_multiset() =~= postings@.take(0).to_multiset());
    }
    while i < postings.len()
        invariant
            i <= postings@.len(),
            out@.len() == i,
            sorted_by_rank(out@, w),
            out@.to_multiset() == postings@.take(i as int).to_multiset(),
        decreases postings@.len() - i,
    {
        let x = postings[i];
        let mut j: usize = out.len();
        loop
            invariant
                j <= out@.len(),
                forall|k: int| j <= k < out@.len() ==> !rank_before_eq(#[trigger] out@[k], x, w),
            ensures
                j <= out@.len(),
                forall|k: int| j <= k < out@.len() ==> !rank_before_eq(#[trigger] out@[k], x, w),
                j == 0 || rank_before_eq(out@[j - 1], x, w),
            decreases j,
        {
            if j == 0 {
                break ;
            }
            if rank_le(&out[j - 1], &x, w) {
                break ;
            }
            j = j - 1;
        }
        let ghost before = out@;
        out.insert(j, x);
        proof {
            before.insert_ensures(j as int, x);
            assert forall|p: int, q: int| 0 <= p < q < out@.len() implies rank_before_eq(
                out@[p],
                out@[q],
                w,
            ) by {
                if q < j {
                    assert(rank_before_eq(before[p], before[q], w));
                } else if p < j && q == j {
                    assert(rank_before_eq(before[j - 1], x, w));
                    if p < j - 1 {
                        assert(rank_before_eq(before[p], before[j - 1], w));
                    }
                } else if p < j && q > j {
                    assert(rank_before_eq(before[p], before[q - 1], w));
                } else if p == j {
                    assert(!rank_before_eq(before[q - 1], x, w));
                } else {
                    assert(rank_before_eq(before[p - 1], before[q - 1], w));
                }
            }
            to_multiset_insert(before, j as int, x);
            assert(postings@.take(i + 1) =~= postings@.take(i as int).push(x));
            to_multiset_build(postings@.take(i as int), x);
        }
        i = i + 1;
    }
    proof {
        assert(postings@.take(postings@.len() as int) =~= postings@);
    }
    out
}

/// The postings of the first `k` lists, decoded and concatenated in input
/// order; a list that fails to decode contributes nothing.
pub open spec fn decoded_concat(lists: Seq<Vec<u8>>, k: int) -> Seq<Posting>
    decreases k,
{
    if k <= 0 {
        Seq::empty()
    } else {
        match decode_postings_rec(lists[k - 1]@, 0) {
            Some(t) => decoded_concat(lists, k - 1) + t,
            None => decoded_concat(lists, k - 1),
        }
    }
}

/// Merge several encoded posting lists into one encoded posting list.
///
/// Succeeds exactly when every input list decodes; the output holds the
/// pooled postings of all inputs, ranked under `title_weight` and then
/// re-encoded in ascending document-id order, so decoding it gives the
/// same multiset of postings that the inputs held together. No inputs
/// merge to no bytes.
pub fn merge_posting_lists(lists: &Vec<Vec<u8>>, title_weight: u32) -> (r: Result<
    Vec<u8>,
    CodecError,
>)
    ensures
        (r is Ok) <==> (forall|k: int|
            0 <= k < lists@.len() ==> decode_postings_rec(#[trigger] lists@[k]@, 0) is Some),
        r matches Err(e) ==> e == CodecError::MalformedVarint,
        r matches Ok(bytes) ==> exists|s: Seq<Posting>|
            {
                &&& sorted_by_doc(s)
                &&& #[trigger] s.to_multiset() == decoded_concat(
                    lists@,
                    lists@.len() as int,
                ).to_multiset()
                &&& bytes@ == postings_encode(s, 0)
                &&& decode_postings_rec(bytes@, 0) == Some(s)
            },
{
    let mut all: Vec<Posting> = Vec::new();
    let mut i: usize = 0;
    proof {
        assert(all@ =~= decoded_concat(lists@, 0));
    }
    while i < lists.len()
        invariant
            i <= lists@.len(),
            forall|k: int|
                0 <= k < i ==> decode_postings_rec(#[trigger] lists@[k]@, 0) is Some,
            all@ == decoded_concat(lists@, i as int),
        decreases lists@.len() - i,
    {
        let item: &Vec<u8> = &lists[i];
        let mut ps = match decode_posting_list(item) {
            Ok(v) => v,
            Err(e) => {
                return Err(e);
            },
        };
        let ghost t = ps@;
        all.append(&mut ps);
        proof {
            assert(decoded_concat(lists@, i + 1) == decoded_concat(lists@, i as int) + t);
        }
        i = i + 1;
    }
    let ranked = rank_postings(&all, title_weight);
    let bytes = encode_posting_list(&ranked, false);
    proof {
        let s = choose|s: Seq<Posting>|
            {
                &&& sorted_by_doc(s)
                &&& s.to_multiset() == ranked@.to_multiset()
                &&& s.len() == ranked@.len()
                &&& bytes@ == postings_encode(s, 0)
            };
        lemma_posting_list_round_trip(s);
        assert({
            &&& sorted_by_doc(s)
            &&& s.to_multiset() == decoded_concat(lists@, lists@.len() as int).to_multiset()
            &&& bytes@ == postings_encode(s, 0)
            &&& decode_postings_rec(bytes@, 0) == Some(s)
        });
    }
    Ok(bytes)
}

} // verus!
