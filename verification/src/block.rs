//! Binary block files: an ordered term dictionary with inline compressed
//! posting lists.
//!
//! Layout, all integers little-endian: an 8-byte entry count, then one
//! record per term holding a 4-byte term length, the term's UTF-8 bytes,
//! two varint document frequencies, a varint byte length and the encoded
//! posting list. Records carry no padding, so the end of one record is the
//! offset of the next; readers may walk the file sequentially or jump to
//! any previously learned offset.
//!
//! Everything here works on an in-memory image of the file; the embedding
//! program moves the bytes to and from disk.

use vstd::prelude::*;

verus! {

use vstd::arithmetic::div_mod::lemma_fundamental_div_mod;
use vstd::arithmetic::mul::lemma_mul_inequality;
use vstd::seq_lib::lemma_concat_associative;
use vstd::utf8::{decode_utf8, encode_utf8, valid_utf8};
use crate::CodecError;
use crate::postings::{
    decode_posting_list, decode_postings_rec, encode_posting_list, lemma_decode_of_encode,
    sort_postings, sorted_by_doc, postings_encode, Posting,
};
use crate::varint::{
    decode_varint_at, encode_varint_to_vec, lemma_varint_encoded_at, varint_encode, varint_ok,
    varint_size, varint_u64,
};

/// `256^n`: the weight of the `n`-th byte of a little-endian integer.
pub open spec fn pow256(n: nat) -> nat
    decreases n,
{
    if n == 0 {
        1
    } else {
        256 * pow256((n - 1) as nat)
    }
}

/// The `n` low-order bytes of `v`, least significant first.
pub open spec fn le_bytes(v: nat, n: nat) -> Seq<u8>
    decreases n,
{
    if n == 0 {
        Seq::empty()
    } else {
        seq![(v % 256) as u8] + le_bytes(v / 256, (n - 1) as nat)
    }
}

/// The unsigned integer held by `s` read as little-endian bytes.
pub open spec fn le_value(s: Seq<u8>) -> nat
    decreases s.len(),
{
    if s.len() == 0 {
        0
    } else {
        s[0] as nat + 256 * le_value(s.drop_first())
    }
}

pub proof fn lemma_le_bytes_len(v: nat, n: nat)
    ensures
        le_bytes(v, n).len() == n,
    decreases n,
{
    if n > 0 {
        lemma_le_bytes_len(v / 256, (n - 1) as nat);
    }
}

pub proof fn lemma_pow256_values()
    ensures
        pow256(4) == 0x1_0000_0000,
        pow256(7) == 0x100_0000_0000_0000,
        pow256(8) == 0x1_0000_0000_0000_0000,
{
    assert(pow256(0) == 1);
    assert(pow256(1) == 0x100);
    assert(pow256(2) == 0x1_0000);
    assert(pow256(3) == 0x100_0000);
    assert(pow256(4) == 0x1_0000_0000);
    assert(pow256(5) == 0x100_0000_0000);
    assert(pow256(6) == 0x1_0000_0000_0000);
    assert(pow256(7) == 0x100_0000_0000_0000);
    assert(pow256(8) == 0x1_0000_0000_0000_0000);
}

/// A little-endian byte sequence holds a value below `256^len`.
pub proof fn lemma_le_value_bound(s: Seq<u8>)
    ensures
        le_value(s) < pow256(s.len()),
    decreases s.len(),
{
    if s.len() > 0 {
        let d = s.drop_first();
        lemma_le_value_bound(d);
        assert(256 * le_value(d) <= 256 * (pow256(d.len()) - 1)) by {
            lemma_mul_inequality(le_value(d) as int, pow256(d.len()) - 1, 256);
        }
        assert(256 * (pow256(d.len()) - 1) == 256 * pow256(d.len()) - 256) by {
            vstd::arithmetic::mul::lemma_mul_is_distributive_add(256, pow256(d.len()) - 1, 1);
        }
    }
}

/// Reading back the little-endian bytes of a value below `256^n` yields the
/// value.
pub proof fn lemma_le_round_trip(v: nat, n: nat)
    requires
        v < pow256(n),
    ensures
        le_value(le_bytes(v, n)) == v,
    decreases n,
{
    if n > 0 {
        assert(v / 256 < pow256((n - 1) as nat)) by {
            vstd::arithmetic::div_mod::lemma_multiply_divide_lt(
                v as int,
                256,
                pow256((n - 1) as nat) as int,
            );
        }
        lemma_le_round_trip(v / 256, (n - 1) as nat);
        let b = le_bytes(v, n);
        assert(b.drop_first() =~= le_bytes(v / 256, (n - 1) as nat));
        lemma_fundamental_div_mod(v as int, 256);
    }
}

/// Append the `n` low-order bytes of `v` to `out`, least significant first.
fn push_le(out: &mut Vec<u8>, v: u64, n: usize)
    requires
        n <= 8,
    ensures
        final(out)@ == old(out)@ + le_bytes(v as nat, n as nat),
{
    let ghost start = out@;
    let mut vc: u64 = v;
    let mut k: usize = 0;
    proof {
        assert(start + le_bytes(v as nat, n as nat) =~= out@ + le_bytes(v as nat, n as nat));
    }
    while k < n
        invariant
            k <= n,
            start + le_bytes(v as nat, n as nat) == out@ + le_bytes(vc as nat, (n - k) as nat),
        decreases n - k,
    {
        let ghost before = vc;
        out.push((vc % 256) as u8);
        vc = vc / 256;
        proof {
            assert(le_bytes(before as nat, (n - k) as nat) =~= seq![(before % 256) as u8]
                + le_bytes(vc as nat, (n - k - 1) as nat));
            assert(start + le_bytes(v as nat, n as nat) =~= out@ + le_bytes(
                vc as nat,
                (n - k - 1) as nat,
            ));
        }
        k = k + 1;
    }
    proof {
        assert(le_bytes(vc as nat, 0) =~= Seq::<u8>::empty());
        assert(out@ + le_bytes(vc as nat, 0) =~= out@);
    }
}

/// Read the `n`-byte little-endian integer that starts at `pos`.
fn read_le(data: &Vec<u8>, pos: usize, n: usize) -> (r: u64)
    requires
        n <= 8,
        pos + n <= data@.len(),
    ensures
        r as nat == le_value(data@.subrange(pos as int, pos + n)),
{
    let l = data.len();
    let mut acc: u64 = 0;
    let mut k: usize = n;
    proof {
        lemma_pow256_values();
        assert(data@.subrange(pos + n, pos + n) =~= Seq::<u8>::empty());
    }
    while k > 0
        invariant
            k <= n <= 8,
            pos + n <= l,
            l == data@.len(),
            acc as nat == le_value(data@.subrange(pos + k, pos + n)),
            (acc as nat) < pow256((n - k) as nat),
            pow256(7) == 0x100_0000_0000_0000,
        decreases k,
    {
        k = k - 1;
        let b = data[pos + k];
        proof {
            let tail = data@.subrange(pos + k + 1, pos + n);
            let cur = data@.subrange(pos + k, pos + n);
            assert(cur[0] == b);
            assert(cur.drop_first() =~= tail);
            assert(le_value(cur) == b as nat + 256 * le_value(tail));
            assert(pow256((n - k) as nat) == 256 * pow256((n - k - 1) as nat));
            assert(256 * le_value(tail) <= 256 * (pow256((n - k - 1) as nat) - 1)) by {
                lemma_mul_inequality(
                    le_value(tail) as int,
                    pow256((n - k - 1) as nat) - 1,
                    256,
                );
            }
            assert(256 * (pow256((n - k - 1) as nat) - 1) == 256 * pow256((n - k - 1) as nat)
                - 256) by {
                vstd::arithmetic::mul::lemma_mul_is_distributive_add(
                    256,
                    pow256((n - k - 1) as nat) - 1,
                    1,
                );
            }
            assert(pow256((n - k) as nat) <= pow256(8)) by {
                lemma_pow256_le((n - k) as nat, 8);
            }
            lemma_pow256_values();
        }
        acc = acc * 256 + b as u64;
    }
    proof {
        assert(data@.subrange(pos as int, pos + n) =~= data@.subrange(pos + 0, pos + n));
    }
    acc
}

pub proof fn lemma_pow256_le(i: nat, j: nat)
    requires
        i <= j,
    ensures
        pow256(i) <= pow256(j),
    decreases j,
{
    if i < j {
        lemma_pow256_le(i, (j - 1) as nat);
        assert(pow256((j - 1) as nat) <= 256 * pow256((j - 1) as nat)) by {
            lemma_mul_inequality(1, 256, pow256((j - 1) as nat) as int);
        }
    }
}

/// What one dictionary record holds, at the level of the mathematical
/// model: the decoded term, the two document frequencies, the decoded
/// posting list, and the offset of the following record.
pub ghost struct EntryData {
    pub term: Seq<char>,
    pub doc_freq_content: u64,
    pub doc_freq_title: u64,
    pub postings: Seq<Posting>,
    pub next: nat,
}

/// Outcome of reading one record at an offset: end of input where a record
/// would start, a malformed record, or the record itself.
pub ghost enum EntryParse {
    Eof,
    Fail(CodecError),
    Found(EntryData),
}

/// Parse the dictionary record that starts at `off`.
///
/// Fewer than four bytes at `off` is the clean end of the walk. After that,
/// a record whose declared pieces run past the end of the data fails with
/// `IoError`, term bytes that are not UTF-8 with `Utf8DecodeError`, and a
/// bad varint or a torn posting list with `MalformedVarint`.
pub open spec fn parse_entry(data: Seq<u8>, off: nat) -> EntryParse {
    let o = off as int;
    if o + 4 > data.len() {
        EntryParse::Eof
    } else {
        let tl = le_value(data.subrange(o, o + 4)) as int;
        if o + 4 + tl > data.len() {
            EntryParse::Fail(CodecError::IoError)
        } else {
            let tb = data.subrange(o + 4, o + 4 + tl);
            if !valid_utf8(tb) {
                EntryParse::Fail(CodecError::Utf8DecodeError)
            } else {
                let s1 = data.skip(o + 4 + tl);
                if !varint_ok(s1) {
                    EntryParse::Fail(CodecError::MalformedVarint)
                } else {
                    let n1 = varint_size(s1) as int;
                    let dfc = varint_u64(s1);
                    let s2 = s1.skip(n1);
                    if !varint_ok(s2) {
                        EntryParse::Fail(CodecError::MalformedVarint)
                    } else {
                        let n2 = varint_size(s2) as int;
                        let dft = varint_u64(s2);
                        let s3 = s2.skip(n2);
                        if !varint_ok(s3) {
                            EntryParse::Fail(CodecError::MalformedVarint)
                        } else {
                            let n3 = varint_size(s3) as int;
                            let pl = varint_u64(s3) as int;
                            let pstart = o + 4 + tl + n1 + n2 + n3;
                            if pstart + pl > data.len() {
                                EntryParse::Fail(CodecError::IoError)
                            } else {
                                let pb = data.subrange(pstart, pstart + pl);
                                match decode_postings_rec(pb, 0) {
                                    Some(ps) => EntryParse::Found(
                                        EntryData {
                                            term: decode_utf8(tb),
                                            doc_freq_content: dfc,
                                            doc_freq_title: dft,
                                            postings: ps,
                                            next: (pstart + pl) as nat,
                                        },
                                    ),
                                    None => EntryParse::Fail(CodecError::MalformedVarint),
                                }
                            }
                        }
                    }
                }
            }
        }
    }
}

/// Parse up to `count` records starting at `off`, stopping cleanly at end
/// of input and propagating the first failure.
pub open spec fn parse_entries(data: Seq<u8>, off: nat, count: nat) -> Result<
    Seq<EntryData>,
    CodecError,
>
    decreases count,
{
    if count == 0 {
        Ok(Seq::empty())
    } else {
        match parse_entry(data, off) {
            EntryParse::Eof => Ok(Seq::empty()),
            EntryParse::Fail(e) => Err(e),
            EntryParse::Found(e) => match parse_entries(data, e.next, (count - 1) as nat) {
                Ok(rest) => Ok(seq![e] + rest),
                Err(err) => Err(err),
            },
        }
    }
}

/// Parse a whole block image: the 8-byte header gives how many records to
/// read from offset 8.
pub open spec fn parse_block(data: Seq<u8>) -> Result<Seq<EntryData>, CodecError> {
    if data.len() < 8 {
        Err(CodecError::IoError)
    } else {
        parse_entries(data, 8, le_value(data.subrange(0, 8)))
    }
}

/// One dictionary record as handed to callers.
#[derive(Debug)]
pub struct BlockEntry {
    pub term: String,
    pub doc_freq_content: u64,
    pub doc_freq_title: u64,
    pub postings: Vec<Posting>,
    /// Offset of the record that follows this one; handing it back to
    /// [`read_entry_at`] resumes the walk.
    pub next_offset: u64,
}

/// The executable entry carries exactly what the model says the record
/// holds.
pub open spec fn entry_matches(e: BlockEntry, g: EntryData) -> bool {
    &&& e.term@ == g.term
    &&& e.doc_freq_content == g.doc_freq_content
    &&& e.doc_freq_title == g.doc_freq_title
    &&& e.postings@ == g.postings
    &&& e.next_offset as nat == g.next
}

/// Relies on `core::str::from_utf8`: it returns `Ok` exactly on valid
/// UTF-8 input, and the string it returns holds the characters those bytes
/// encode.
#[verifier::external_body]
fn bytes_to_string(bytes: &Vec<u8>) -> (r: Option<String>)
    ensures
        r matches Some(t) ==> valid_utf8(bytes@) && t@ == decode_utf8(bytes@),
        r is None ==> !valid_utf8(bytes@),
{
    match core::str::from_utf8(bytes.as_slice()) {
        Ok(s) => Some(s.to_owned()),
        Err(_) => None,
    }
}

/// Copy `count` bytes of `data` starting at `pos` into a fresh vector.
fn copy_range(data: &Vec<u8>, pos: usize, count: usize) -> (r: Vec<u8>)
    requires
        pos + count <= data@.len(),
    ensures
        r@ == data@.subrange(pos as int, pos + count),
{
    let l = data.len();
    let mut out: Vec<u8> = Vec::new();
    let mut k: usize = 0;
    proof {
        assert(out@ =~= data@.subrange(pos as int, pos as int));
    }
    while k < count
        invariant
            k <= count,
            pos + count <= l,
            l == data@.len(),
            out@ == data@.subrange(pos as int, pos + k),
        decreases count - k,
    {
        out.push(data[pos + k]);
        proof {
            assert(out@ =~= data@.subrange(pos as int, pos + k + 1));
        }
        k = k + 1;
    }
    out
}

/// Read the dictionary record that starts at byte `offset`.
///
/// `Ok(None)` means the offset sits at (or past) the end of the data, the
/// clean end of an offset-chained walk. Each returned entry carries the
/// offset where the following record starts.
#[verifier::rlimit(100)]
pub fn read_entry_at(data: &Vec<u8>, offset: u64) -> (r: Result<Option<BlockEntry>, CodecError>)
    ensures
        ({
            match parse_entry(data@, offset as nat) {
                EntryParse::Eof => r == Ok::<Option<BlockEntry>, CodecError>(None),
                EntryParse::Fail(e) => r == Err::<Option<BlockEntry>, CodecError>(e),
                EntryParse::Found(g) => r matches Ok(Some(e)) && entry_matches(e, g),
            }
        }),
{
    let len = data.len();
    if offset >= len as u64 {
        return Ok(None);
    }
    let pos = offset as usize;
    if len - pos < 4 {
        return Ok(None);
    }
    let tl64 = read_le(data, pos, 4);
    proof {
        lemma_le_value_bound(data@.subrange(pos as int, pos + 4));
        lemma_pow256_values();
    }
    if tl64 > (len - (pos + 4)) as u64 {
        return Err(CodecError::IoError);
    }
    let tl = tl64 as usize;
    let tstart = pos + 4;
    let tb = copy_range(data, tstart, tl);
    let term = match bytes_to_string(&tb) {
        Some(t) => t,
        None => {
            return Err(CodecError::Utf8DecodeError);
        },
    };
    let vstart = tstart + tl;
    let (dfc, n1) = match decode_varint_at(data, vstart) {
        Ok(x) => x,
        Err(e) => {
            return Err(e);
        },
    };
    let p1 = vstart + n1;
    proof {
        assert(data@.skip(p1 as int) =~= data@.skip(vstart as int).skip(n1 as int));
    }
    let (dft, n2) = match decode_varint_at(data, p1) {
        Ok(x) => x,
        Err(e) => {
            return Err(e);
        },
    };
    let p2 = p1 + n2;
    proof {
        assert(data@.skip(p2 as int) =~= data@.skip(vstart as int).skip(n1 as int).skip(
            n2 as int,
        ));
    }
    let (pl64, n3) = match decode_varint_at(data, p2) {
        Ok(x) => x,
        Err(e) => {
            return Err(e);
        },
    };
    let p3 = p2 + n3;
    if pl64 > (len - p3) as u64 {
        return Err(CodecError::IoError);
    }
    let pl = pl64 as usize;
    let pb = copy_range(data, p3, pl);
    let postings = match decode_posting_list(&pb) {
        Ok(v) => v,
        Err(e) => {
            return Err(e);
        },
    };
    let next = (p3 + pl) as u64;
    Ok(
        Some(
            BlockEntry {
                term,
                doc_freq_content: dfc,
                doc_freq_title: dft,
                postings,
                next_offset: next,
            },
        ),
    )
}

/// Block statistics without decoding any entry: the header's entry count
/// and the total size in bytes. Fails with `IoError` when not even the
/// header is present.
pub fn get_stats(data: &Vec<u8>) -> (r: Result<(u64, u64), CodecError>)
    ensures
        data@.len() < 8 ==> r == Err::<(u64, u64), CodecError>(CodecError::IoError),
        data@.len() >= 8 ==> r == Ok::<(u64, u64), CodecError>(
            (le_value(data@.subrange(0, 8)) as u64, data@.len() as u64),
        ),
{
    if data.len() < 8 {
        return Err(CodecError::IoError);
    }
    let count = read_le(data, 0, 8);
    Ok((count, data.len() as u64))
}

/// Decode every dictionary record, in file order.
///
/// Reads the header's entry count and then that many records from offset
/// 8, stopping early without error where the data ends at a record
/// boundary; a record that is present but torn is an error, as in
/// [`read_entry_at`].
pub fn iter_entries(data: &Vec<u8>) -> (r: Result<Vec<BlockEntry>, CodecError>)
    ensures
        ({
            match parse_block(data@) {
                Ok(es) => r matches Ok(v) && v@.len() == es.len() && (forall|k: int|
                    0 <= k < es.len() ==> entry_matches(v@[k], es[k])),
                Err(e) => r == Err::<Vec<BlockEntry>, CodecError>(e),
            }
        }),
{
    if data.len() < 8 {
        return Err(CodecError::IoError);
    }
    let count = read_le(data, 0, 8);
    let mut out: Vec<BlockEntry> = Vec::new();
    let ghost mut done: Seq<EntryData> = Seq::empty();
    let mut off: u64 = 8;
    let mut i: u64 = 0;
    while i < count
        invariant
            i <= count,
            data@.len() >= 8,
            count as nat == le_value(data@.subrange(0, 8)),
            out@.len() == done.len(),
            forall|k: int| 0 <= k < done.len() ==> entry_matches(out@[k], done[k]),
            ({
                match parse_entries(data@, off as nat, (count - i) as nat) {
                    Ok(tail) => parse_block(data@) == Ok::<Seq<EntryData>, CodecError>(
                        done + tail,
                    ),
                    Err(e) => parse_block(data@) == Err::<Seq<EntryData>, CodecError>(e),
                }
            }),
        decreases count - i,
    {
        match read_entry_at(data, off) {
            Err(e) => {
                return Err(e);
            },
            Ok(None) => {
                proof {
                    assert(done + Seq::<EntryData>::empty() =~= done);
                }
                return Ok(out);
            },
            Ok(Some(e)) => {
                let next = e.next_offset;
                out.push(e);
                proof {
                    match parse_entry(data@, off as nat) {
                        EntryParse::Found(g) => {
                            let ghost prior = done;
                            done = done.push(g);
                            assert(next as nat == g.next);
                            match parse_entries(data@, g.next, (count - i - 1) as nat) {
                                Ok(rest) => {
                                    assert(parse_entries(data@, off as nat, (count - i) as nat)
                                        == Ok::<Seq<EntryData>, CodecError>(seq![g] + rest));
                                    assert(prior + (seq![g] + rest) =~= done + rest);
                                },
                                Err(_) => {},
                            }
                        },
                        _ => {
                            assert(false);
                        },
                    }
                }
                off = next;
                i = i + 1;
            },
        }
    }
    proof {
        assert(parse_entries(data@, off as nat, 0) == Ok::<Seq<EntryData>, CodecError>(
            Seq::empty(),
        ));
        assert(done + Seq::<EntryData>::empty() =~= done);
    }
    Ok(out)
}

/// The bytes of one dictionary record: length-prefixed term, two document
/// frequencies, and the length-prefixed encoded posting list, which is
/// laid out in ascending document-id order.
pub open spec fn entry_bytes(term: Seq<char>, dfc: u64, dft: u64, ps: Seq<Posting>) -> Seq<u8> {
    let tb = encode_utf8(term);
    let pb = postings_encode(ps, 0);
    le_bytes(tb.len(), 4) + tb + varint_encode(dfc as nat) + varint_encode(dft as nat)
        + varint_encode(pb.len()) + pb
}

/// The bytes of the first `k` records, in input order.
pub open spec fn entries_bytes_prefix(
    terms: Seq<Seq<char>>,
    dfs: Seq<(u64, u64)>,
    pss: Seq<Seq<Posting>>,
    k: int,
) -> Seq<u8>
    decreases k,
{
    if k <= 0 {
        Seq::empty()
    } else {
        entries_bytes_prefix(terms, dfs, pss, k - 1) + entry_bytes(
            terms[k - 1],
            dfs[k - 1].0,
            dfs[k - 1].1,
            pss[k - 1],
        )
    }
}

/// The whole block image: the record count, then every record.
pub open spec fn block_bytes(
    terms: Seq<Seq<char>>,
    dfs: Seq<(u64, u64)>,
    pss: Seq<Seq<Posting>>,
) -> Seq<u8> {
    le_bytes(terms.len(), 8) + entries_bytes_prefix(terms, dfs, pss, terms.len() as int)
}

/// The first `k` records' bytes do not depend on later posting lists.
proof fn lemma_entries_prefix_push(
    terms: Seq<Seq<char>>,
    dfs: Seq<(u64, u64)>,
    pss: Seq<Seq<Posting>>,
    x: Seq<Posting>,
    k: int,
)
    requires
        k <= pss.len(),
    ensures
        entries_bytes_prefix(terms, dfs, pss.push(x), k) == entries_bytes_prefix(
            terms,
            dfs,
            pss,
            k,
        ),
    decreases k,
{
    if k > 0 {
        lemma_entries_prefix_push(terms, dfs, pss, x, k - 1);
    }
}

/// Serialize a whole block.
///
/// The three arrays run in parallel: entry `i` is `terms[i]`, its two
/// document frequencies, and its posting list, which is sorted into
/// ascending document-id order before encoding. Fails with
/// `LengthMismatch`, writing nothing, exactly when the arrays disagree in
/// length. Term lengths are limited by the 4-byte length prefix.
#[verifier::rlimit(100)]
pub fn encode_block(
    terms: &Vec<String>,
    doc_freqs: &Vec<(u64, u64)>,
    postings: &Vec<Vec<Posting>>,
) -> (r: Result<Vec<u8>, CodecError>)
    requires
        forall|k: int| 0 <= k < terms@.len() ==> encode_utf8(#[trigger] terms@[k]@).len() <= u32::MAX,
    ensures
        (terms@.len() == doc_freqs@.len() && terms@.len() == postings@.len()) <==> r is Ok,
        r matches Err(e) ==> e == CodecError::LengthMismatch,
        r matches Ok(bytes) ==> exists|ss: Seq<Seq<Posting>>|
            {
                &&& #[trigger] ss.len() == postings@.len()
                &&& forall|k: int|
                    0 <= k < ss.len() ==> sorted_by_doc(#[trigger] ss[k]) && ss[k].to_multiset()
                        == postings@[k]@.to_multiset()
                &&& bytes@ == block_bytes(terms@.map_values(|t: String| t@), doc_freqs@, ss)
            },
{
    if terms.len() != doc_freqs.len() || terms.len() != postings.len() {
        return Err(CodecError::LengthMismatch);
    }
    let ghost tvs = terms@.map_values(|t: String| t@);
    let mut out: Vec<u8> = Vec::new();
    push_le(&mut out, terms.len() as u64, 8);
    proof {
        assert(out@ =~= le_bytes(tvs.len(), 8));
        assert(out@ + entries_bytes_prefix(tvs, doc_freqs@, Seq::empty(), 0) =~= out@);
    }
    let ghost mut ss: Seq<Seq<Posting>> = Seq::empty();
    let mut i: usize = 0;
    while i < terms.len()
        invariant
            i <= terms@.len(),
            terms@.len() == doc_freqs@.len(),
            terms@.len() == postings@.len(),
            tvs == terms@.map_values(|t: String| t@),
            forall|k: int|
                0 <= k < terms@.len() ==> encode_utf8(#[trigger] terms@[k]@).len() <= u32::MAX,
            ss.len() == i,
            forall|k: int|
                0 <= k < ss.len() ==> sorted_by_doc(#[trigger] ss[k]) && ss[k].to_multiset()
                    == postings@[k]@.to_multiset(),
            out@ == le_bytes(tvs.len(), 8) + entries_bytes_prefix(tvs, doc_freqs@, ss, i as int),
        decreases terms@.len() - i,
    {
        let ghost out0 = out@;
        let term: &String = &terms[i];
        let tb: &[u8] = term.as_str().as_bytes();
        let tlen = tb.len();
        push_le(&mut out, tlen as u64, 4);
        let mut tbv = vstd::slice::slice_to_vec(tb);
        out.append(&mut tbv);
        let df = doc_freqs[i];
        encode_varint_to_vec(&mut out, df.0);
        encode_varint_to_vec(&mut out, df.1);
        let sorted = sort_postings(&postings[i]);
        let pb = encode_posting_list(&sorted, true);
        encode_varint_to_vec(&mut out, pb.len() as u64);
        let mut pbm = pb;
        out.append(&mut pbm);
        proof {
            let ghost prior = ss;
            ss = ss.push(sorted@);
            assert(tvs[i as int] == terms@[i as int]@);
            lemma_entries_prefix_push(tvs, doc_freqs@, prior, sorted@, i as int);
            assert(entries_bytes_prefix(tvs, doc_freqs@, ss, i + 1) == entries_bytes_prefix(
                tvs,
                doc_freqs@,
                ss,
                i as int,
            ) + entry_bytes(tvs[i as int], df.0, df.1, sorted@));
            assert(out@ =~= out0 + entry_bytes(tvs[i as int], df.0, df.1, sorted@));
            assert(out@ =~= le_bytes(tvs.len(), 8) + entries_bytes_prefix(
                tvs,
                doc_freqs@,
                ss,
                i + 1,
            ));
        }
        i = i + 1;
    }
    proof {
        assert(out@ == block_bytes(tvs, doc_freqs@, ss));
    }
    Ok(out)
}


/// The bytes of records `i` (inclusive) through `j` (exclusive).
pub open spec fn entries_bytes_range(
    terms: Seq<Seq<char>>,
    dfs: Seq<(u64, u64)>,
    pss: Seq<Seq<Posting>>,
    i: int,
    j: int,
) -> Seq<u8>
    decreases j - i,
{
    if i >= j {
        Seq::empty()
    } else {
        entry_bytes(terms[i], dfs[i].0, dfs[i].1, pss[i]) + entries_bytes_range(
            terms,
            dfs,
            pss,
            i + 1,
            j,
        )
    }
}

proof fn lemma_range_concat(
    terms: Seq<Seq<char>>,
    dfs: Seq<(u64, u64)>,
    pss: Seq<Seq<Posting>>,
    a: int,
    b: int,
    c: int,
)
    requires
        a <= b <= c,
    ensures
        entries_bytes_range(terms, dfs, pss, a, c) == entries_bytes_range(terms, dfs, pss, a, b)
            + entries_bytes_range(terms, dfs, pss, b, c),
    decreases b - a,
{
    if a == b {
        assert(entries_bytes_range(terms, dfs, pss, a, b) =~= Seq::<u8>::empty());
        assert(Seq::<u8>::empty() + entries_bytes_range(terms, dfs, pss, b, c)
            =~= entries_bytes_range(terms, dfs, pss, b, c));
    } else {
        lemma_range_concat(terms, dfs, pss, a + 1, b, c);
        let e = entry_bytes(terms[a], dfs[a].0, dfs[a].1, pss[a]);
        assert(e + (entries_bytes_range(terms, dfs, pss, a + 1, b) + entries_bytes_range(
            terms,
            dfs,
            pss,
            b,
            c,
        )) =~= (e + entries_bytes_range(terms, dfs, pss, a + 1, b)) + entries_bytes_range(
            terms,
            dfs,
            pss,
            b,
            c,
        ));
    }
}

proof fn lemma_prefix_eq_range(
    terms: Seq<Seq<char>>,
    dfs: Seq<(u64, u64)>,
    pss: Seq<Seq<Posting>>,
    k: int,
)
    requires
        k >= 0,
    ensures
        entries_bytes_prefix(terms, dfs, pss, k) == entries_bytes_range(terms, dfs, pss, 0, k),
    decreases k,
{
    if k > 0 {
        lemma_prefix_eq_range(terms, dfs, pss, k - 1);
        lemma_range_concat(terms, dfs, pss, 0, k - 1, k);
        let e = entry_bytes(terms[k - 1], dfs[k - 1].0, dfs[k - 1].1, pss[k - 1]);
        assert(entries_bytes_range(terms, dfs, pss, k, k) =~= Seq::<u8>::empty());
        assert(entries_bytes_range(terms, dfs, pss, k - 1, k) =~= e + Seq::<u8>::empty());
        assert(e + Seq::<u8>::empty() =~= e);
    }
}

/// Splitting a known concatenation at the seam.
proof fn lemma_split_at(s: Seq<u8>, a: Seq<u8>, b: Seq<u8>)
    requires
        s == a + b,
    ensures
        s.take(a.len() as int) == a,
        s.skip(a.len() as int) == b,
        s.len() == a.len() + b.len(),
{
    assert(s.take(a.len() as int) =~= a);
    assert(s.skip(a.len() as int) =~= b);
}

/// A record's bytes, placed at `off` with anything after them, parse back
/// to exactly the values they were built from, with `next` pointing right
/// past them.
#[verifier::rlimit(100)]
#[verifier::spinoff_prover]
pub proof fn lemma_parse_entry_of_bytes(
    data: Seq<u8>,
    off: nat,
    rest: Seq<u8>,
    term: Seq<char>,
    dfc: u64,
    dft: u64,
    ps: Seq<Posting>,
)
    requires
        off <= data.len(),
        data.skip(off as int) == entry_bytes(term, dfc, dft, ps) + rest,
        sorted_by_doc(ps),
        encode_utf8(term).len() < 0x1_0000_0000,
        postings_encode(ps, 0).len() < 0x1_0000_0000_0000_0000,
    ensures
        parse_entry(data, off) == EntryParse::Found(
            EntryData {
                term: term,
                doc_freq_content: dfc,
                doc_freq_title: dft,
                postings: ps,
                next: (off + entry_bytes(term, dfc, dft, ps).len()) as nat,
            },
        ),
{
    broadcast use vstd::seq_lib::lemma_seq_skip_of_skip;

    let o = off as int;
    let s = data.skip(o);
    let tb = encode_utf8(term);
    let pb = postings_encode(ps, 0);
    let hd = le_bytes(tb.len(), 4);
    let e1 = varint_encode(dfc as nat);
    let e2 = varint_encode(dft as nat);
    let e3 = varint_encode(pb.len());
    let eb = entry_bytes(term, dfc, dft, ps);
    lemma_le_bytes_len(tb.len(), 4);
    // Rotate the record's concatenation into head-first form.
    let r0 = pb + rest;
    let r1 = e3 + r0;
    let r2 = e2 + r1;
    let r3 = e1 + r2;
    let r4 = tb + r3;
    lemma_concat_associative(hd + tb + e1 + e2 + e3, pb, rest);
    lemma_concat_associative(hd + tb + e1 + e2, e3, r0);
    lemma_concat_associative(hd + tb + e1, e2, r1);
    lemma_concat_associative(hd + tb, e1, r2);
    lemma_concat_associative(hd, tb, r3);
    assert(s == hd + r4);
    // Peel the pieces off one by one.
    lemma_split_at(s, hd, r4);
    let tl = tb.len() as int;
    assert(data.subrange(o, o + 4) =~= s.take(4));
    lemma_pow256_values();
    lemma_le_round_trip(tb.len(), 4);
    assert(le_value(data.subrange(o, o + 4)) == tb.len());
    lemma_split_at(r4, tb, r3);
    assert(o + 4 + tl <= data.len());
    assert(data.subrange(o + 4, o + 4 + tl) =~= s.skip(4).take(tl));
    assert(data.subrange(o + 4, o + 4 + tl) == tb);
    vstd::utf8::encode_utf8_valid_utf8(term);
    vstd::utf8::encode_utf8_decode_utf8(term);
    let s1 = data.skip(o + 4 + tl);
    assert(s1 =~= s.skip(4).skip(tl));
    assert(s1 == r3);
    lemma_varint_encoded_at(dfc, r2);
    let n1 = varint_size(s1) as int;
    assert(n1 == e1.len());
    assert(varint_u64(s1) == dfc);
    let s2 = s1.skip(n1);
    assert(s2 == r2);
    lemma_varint_encoded_at(dft, r1);
    let n2 = varint_size(s2) as int;
    assert(n2 == e2.len());
    assert(varint_u64(s2) == dft);
    let s3 = s2.skip(n2);
    assert(s3 == r1);
    assert(((pb.len() as u64) as nat) == pb.len());
    lemma_varint_encoded_at(pb.len() as u64, r0);
    let n3 = varint_size(s3) as int;
    assert(n3 == e3.len());
    assert(varint_u64(s3) == pb.len() as u64);
    let s4 = s3.skip(n3);
    assert(s4 == r0);
    let pstart = o + 4 + tl + n1 + n2 + n3;
    let pl = pb.len() as int;
    lemma_split_at(r0, pb, rest);
    assert(s.len() == eb.len() + rest.len());
    assert(eb.len() == 4 + tl + n1 + n2 + n3 + pl);
    assert(pstart + pl <= data.len());
    assert(s4 =~= data.skip(pstart));
    assert(data.subrange(pstart, pstart + pl) =~= data.skip(pstart).take(pl));
    assert(data.subrange(pstart, pstart + pl) == pb);
    lemma_decode_of_encode(ps, 0);
    assert(decode_postings_rec(pb, 0) == Some(ps));
    assert(pstart + pl == o + eb.len());
}

/// The model entry that record `k` of a block built from these inputs
/// holds: the inputs themselves, and the offset just past the record.
pub open spec fn block_entry_data(
    terms: Seq<Seq<char>>,
    dfs: Seq<(u64, u64)>,
    pss: Seq<Seq<Posting>>,
    k: int,
) -> EntryData {
    EntryData {
        term: terms[k],
        doc_freq_content: dfs[k].0,
        doc_freq_title: dfs[k].1,
        postings: pss[k],
        next: (8 + entries_bytes_prefix(terms, dfs, pss, k + 1).len()) as nat,
    }
}

/// Inputs a block can be built from: parallel arrays, each posting list
/// ascending, each term's UTF-8 length within the 4-byte prefix, each
/// posting list's byte length within a varint, and a record count that
/// fits the 8-byte header.
pub open spec fn block_inputs_wf(
    terms: Seq<Seq<char>>,
    dfs: Seq<(u64, u64)>,
    pss: Seq<Seq<Posting>>,
) -> bool {
    &&& terms.len() == dfs.len()
    &&& terms.len() == pss.len()
    &&& terms.len() < 0x1_0000_0000_0000_0000
    &&& forall|k: int| 0 <= k < terms.len() ==> encode_utf8(#[trigger] terms[k]).len() < 0x1_0000_0000
    &&& forall|k: int| 0 <= k < pss.len() ==> sorted_by_doc(#[trigger] pss[k])
    &&& forall|k: int|
        0 <= k < pss.len() ==> postings_encode(#[trigger] pss[k], 0).len()
            < 0x1_0000_0000_0000_0000
}

#[verifier::rlimit(100)]
#[verifier::spinoff_prover]
proof fn lemma_parse_entries_of_block(
    terms: Seq<Seq<char>>,
    dfs: Seq<(u64, u64)>,
    pss: Seq<Seq<Posting>>,
    i: int,
)
    requires
        block_inputs_wf(terms, dfs, pss),
        0 <= i <= terms.len(),
    ensures
        parse_entries(
            block_bytes(terms, dfs, pss),
            (8 + entries_bytes_prefix(terms, dfs, pss, i).len()) as nat,
            (terms.len() - i) as nat,
        ) == Ok::<Seq<EntryData>, CodecError>(
            Seq::new((terms.len() - i) as nat, |k: int| block_entry_data(terms, dfs, pss, i + k)),
        ),
    decreases terms.len() - i,
{
    let n = terms.len() as int;
    let data = block_bytes(terms, dfs, pss);
    let start = (8 + entries_bytes_prefix(terms, dfs, pss, i).len()) as nat;
    let expected = Seq::new((n - i) as nat, |k: int| block_entry_data(terms, dfs, pss, i + k));
    if i == n {
        assert(parse_entries(data, start, 0) == Ok::<Seq<EntryData>, CodecError>(Seq::empty()));
        assert(expected =~= Seq::<EntryData>::empty());
    } else {
        let e = entry_bytes(terms[i], dfs[i].0, dfs[i].1, pss[i]);
        let after = entries_bytes_range(terms, dfs, pss, i + 1, n);
        assert(start <= data.len() && data.skip(start as int) == e + after) by {
            lemma_le_bytes_len(terms.len(), 8);
            lemma_prefix_eq_range(terms, dfs, pss, i);
            lemma_prefix_eq_range(terms, dfs, pss, n);
            lemma_range_concat(terms, dfs, pss, 0, i, n);
            lemma_split_at(
                data,
                le_bytes(terms.len(), 8),
                entries_bytes_range(terms, dfs, pss, 0, n),
            );
            lemma_split_at(
                entries_bytes_range(terms, dfs, pss, 0, n),
                entries_bytes_range(terms, dfs, pss, 0, i),
                entries_bytes_range(terms, dfs, pss, i, n),
            );
            assert(data.skip(start as int) =~= entries_bytes_range(
                terms,
                dfs,
                pss,
                0,
                n,
            ).skip(entries_bytes_range(terms, dfs, pss, 0, i).len() as int));
        }
        lemma_parse_entry_of_bytes(data, start, after, terms[i], dfs[i].0, dfs[i].1, pss[i]);
        assert(start + e.len() == (8 + entries_bytes_prefix(terms, dfs, pss, i + 1).len())) by {
            lemma_prefix_eq_range(terms, dfs, pss, i);
            lemma_prefix_eq_range(terms, dfs, pss, i + 1);
            lemma_range_concat(terms, dfs, pss, 0, i, i + 1);
            assert(entries_bytes_range(terms, dfs, pss, i + 1, i + 1) =~= Seq::<u8>::empty());
            assert(entries_bytes_range(terms, dfs, pss, i, i + 1) =~= e + Seq::<u8>::empty());
            assert(e + Seq::<u8>::empty() =~= e);
        }
        let found = block_entry_data(terms, dfs, pss, i);
        assert(parse_entry(data, start) == EntryParse::Found(found));
        lemma_parse_entries_of_block(terms, dfs, pss, i + 1);
        let rest = Seq::new(
            (n - i - 1) as nat,
            |k: int| block_entry_data(terms, dfs, pss, i + 1 + k),
        );
        assert(parse_entries(data, found.next, (n - i - 1) as nat) == Ok::<
            Seq<EntryData>,
            CodecError,
        >(rest));
        assert(seq![found] + rest =~= expected);
    }
}

/// Round trip of a whole block: parsing the image built from well-formed
/// inputs yields every record, in order, with the written terms,
/// frequencies and posting lists, and each record's `next` offset is where
/// the following record starts; the last one's `next` is the image's
/// length, where a further read reports the clean end of the walk.
#[verifier::rlimit(100)]
#[verifier::spinoff_prover]
pub proof fn lemma_block_round_trip(
    terms: Seq<Seq<char>>,
    dfs: Seq<(u64, u64)>,
    pss: Seq<Seq<Posting>>,
)
    requires
        block_inputs_wf(terms, dfs, pss),
    ensures
        parse_block(block_bytes(terms, dfs, pss)) == Ok::<Seq<EntryData>, CodecError>(
            Seq::new(terms.len(), |k: int| block_entry_data(terms, dfs, pss, k)),
        ),
        terms.len() > 0 ==> block_entry_data(terms, dfs, pss, terms.len() - 1).next
            == block_bytes(terms, dfs, pss).len(),
        parse_entry(block_bytes(terms, dfs, pss), block_bytes(terms, dfs, pss).len())
            is Eof,
{
    let data = block_bytes(terms, dfs, pss);
    let n = terms.len() as int;
    lemma_le_bytes_len(terms.len(), 8);
    assert(data.len() == 8 + entries_bytes_prefix(terms, dfs, pss, n).len());
    assert(le_value(data.subrange(0, 8)) == terms.len()) by {
        lemma_le_bytes_len(terms.len(), 8);
        lemma_split_at(data, le_bytes(terms.len(), 8), entries_bytes_prefix(terms, dfs, pss, n));
        assert(data.subrange(0, 8) =~= data.take(8));
        lemma_pow256_values();
        lemma_le_round_trip(terms.len(), 8);
    }
    assert(entries_bytes_prefix(terms, dfs, pss, 0).len() == 0);
    lemma_parse_entries_of_block(terms, dfs, pss, 0);
    assert(Seq::new((n - 0) as nat, |k: int| block_entry_data(terms, dfs, pss, 0 + k)) =~= Seq::new(
        terms.len(),
        |k: int| block_entry_data(terms, dfs, pss, k),
    ));
    if n > 0 {
        assert(block_entry_data(terms, dfs, pss, n - 1).next == (8 + entries_bytes_prefix(
            terms,
            dfs,
            pss,
            n,
        ).len()) as nat);
    }
    assert(data.len() + 4 > data.len());
}

/// The offset where a chained walk stands before reading entry `i`: the
/// starting offset for the first entry, and afterwards always the `next`
/// of the entry just read.
pub open spec fn chain_offset(es: Seq<EntryData>, off: nat, i: int) -> nat {
    if i == 0 {
        off
    } else {
        es[i - 1].next
    }
}

/// Sequential iteration and offset-chained random access see the same
/// records: when parsing `count` records from `off` yields `es`, then
/// reading one record at a time, each time resuming at the offset the
/// previous record handed back, finds exactly `es[0]`, `es[1]`, ... — and
/// where iteration stopped early, the chained read meets the same clean
/// end of input.
pub proof fn lemma_offset_chain(data: Seq<u8>, off: nat, count: nat)
    requires
        parse_entries(data, off, count) is Ok,
    ensures
        ({
            let es = parse_entries(data, off, count).unwrap();
            &&& forall|i: int|
                0 <= i < es.len() ==> parse_entry(data, chain_offset(es, off, i))
                    == EntryParse::Found(#[trigger] es[i])
            &&& es.len() < count ==> parse_entry(data, chain_offset(es, off, es.len() as int))
                is Eof
        }),
    decreases count,
{
    let es = parse_entries(data, off, count).unwrap();
    if count == 0 {
    } else {
        match parse_entry(data, off) {
            EntryParse::Eof => {
                assert(es =~= Seq::<EntryData>::empty());
            },
            EntryParse::Fail(_) => {
                assert(false);
            },
            EntryParse::Found(e) => {
                lemma_offset_chain(data, e.next, (count - 1) as nat);
                let rest = parse_entries(data, e.next, (count - 1) as nat).unwrap();
                assert(es =~= seq![e] + rest);
                assert(es[0] == e);
                assert(chain_offset(es, off, 0) == off);
                assert forall|i: int|
                    0 <= i < es.len() implies parse_entry(data, chain_offset(es, off, i))
                    == EntryParse::Found(#[trigger] es[i]) by {
                    if i > 0 {
                        assert(es[i] == rest[i - 1]);
                        assert(chain_offset(es, off, i) == chain_offset(rest, e.next, i - 1));
                        assert(parse_entry(data, chain_offset(rest, e.next, i - 1))
                            == EntryParse::Found(rest[i - 1]));
                    }
                }
                if es.len() < count {
                    assert(rest.len() < count - 1);
                    assert(chain_offset(es, off, es.len() as int) == chain_offset(
                        rest,
                        e.next,
                        rest.len() as int,
                    ));
                }
            },
        }
    }
}


} // verus!
