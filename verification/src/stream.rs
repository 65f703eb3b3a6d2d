//! Incremental reading from an abstract byte source.
//!
//! A caller that feeds the codec one byte at a time — from a socket, a
//! file handle, or any other stream — implements [`ByteSource`]; the core
//! never depends on where the bytes come from. `None` from `read_byte`
//! means the source is exhausted.

use vstd::prelude::*;

verus! {

use vstd::arithmetic::div_mod::lemma_small_mod;
use crate::CodecError;
use crate::varint::{
    decode_varint_at, is_varint_prefix, lemma_pow128_mono, lemma_varint_prefix_unique,
    lemma_varint_value_bound, pow128, varint_ok, varint_size, varint_u64, varint_value,
};

/// An incremental source of bytes; `None` means end of input.
///
/// Nothing is assumed about an implementation: what a stream yields is the
/// stream's business. The codec's contracts therefore speak of the bytes
/// actually drawn, never of the source itself.
pub trait ByteSource {
    fn read_byte(&mut self) -> (r: Option<u8>);
}

/// A byte source over an in-memory buffer.
pub struct VecSource {
    pub data: Vec<u8>,
    pub pos: usize,
}

impl VecSource {
    /// Start reading `data` from its first byte.
    pub fn new(data: Vec<u8>) -> (r: VecSource)
        ensures
            r.data == data,
            r.pos == 0,
    {
        VecSource { data, pos: 0 }
    }

    /// The next byte of the buffer, advancing the cursor; `None` at the
    /// end, leaving everything unchanged.
    pub fn next_byte(&mut self) -> (r: Option<u8>)
        ensures
            old(self).pos < old(self).data@.len() ==> {
                &&& r == Some(old(self).data@[old(self).pos as int])
                &&& final(self).pos == old(self).pos + 1
                &&& final(self).data == old(self).data
            },
            old(self).pos >= old(self).data@.len() ==> {
                &&& r is None
                &&& final(self).pos == old(self).pos
                &&& final(self).data == old(self).data
            },
    {
        if self.pos < self.data.len() {
            let b = self.data[self.pos];
            self.pos = self.pos + 1;
            Some(b)
        } else {
            None
        }
    }
}

impl ByteSource for VecSource {
    fn read_byte(&mut self) -> (r: Option<u8>) {
        self.next_byte()
    }
}

/// The value of one complete varint whose bytes have already been drawn
/// from a source: `buf` must be exactly the drawn bytes, continuation bits
/// set on all but the last.
pub fn streamed_varint_value(buf: &Vec<u8>) -> (v: u64)
    requires
        is_varint_prefix(buf@, buf@.len() as nat),
    ensures
        v == varint_u64(buf@),
{
    proof {
        assert(buf@.skip(0) =~= buf@);
    }
    match decode_varint_at(buf, 0) {
        Ok((v, _)) => v,
        Err(_) => {
            proof {
                assert(false);
            }
            0
        },
    }
}

/// Read one varint from a byte source, one byte at a time.
///
/// `Ok(None)` reports a source that ran out, at the first byte or at any
/// later one. A returned value is the value of the bytes that were drawn:
/// a complete varint of at most five bytes, so it always sits below
/// `2^35`; a fifth drawn byte that still carries a continuation bit fails
/// with `MalformedVarint`. What the bytes mean is up to the caller:
/// nothing is assumed about the source behind the trait.
pub fn read_varint<S: ByteSource>(source: &mut S) -> (r: Result<Option<u64>, CodecError>)
    ensures
        r matches Ok(Some(v)) ==> exists|buf: Seq<u8>|
            {
                &&& is_varint_prefix(buf, buf.len() as nat)
                &&& buf.len() <= 5
                &&& v == #[trigger] varint_u64(buf)
            },
        r matches Ok(Some(v)) ==> v < 0x8_0000_0000,
        r matches Err(e) ==> e == CodecError::MalformedVarint,
{
    let mut buf: Vec<u8> = Vec::new();
    loop
        invariant_except_break
            buf@.len() <= 4,
            forall|k: int| 0 <= k < buf@.len() ==> buf@[k] >= 128,
        ensures
            is_varint_prefix(buf@, buf@.len() as nat),
            buf@.len() <= 5,
        decreases 5 - buf@.len(),
    {
        let byte = match source.read_byte() {
            Some(b) => b,
            None => {
                return Ok(None);
            },
        };
        buf.push(byte);
        if byte < 128 {
            proof {
                assert(buf@[buf@.len() - 1] < 128);
            }
            break ;
        }
        if buf.len() == 5 {
            return Err(CodecError::MalformedVarint);
        }
    }
    let value = streamed_varint_value(&buf);
    proof {
        let n = buf@.len() as nat;
        assert(varint_ok(buf@));
        lemma_varint_prefix_unique(buf@, varint_size(buf@), n);
        lemma_varint_value_bound(buf@, n);
        lemma_pow128_mono(n, 5);
        assert(pow128(5) == 0x8_0000_0000) by {
            assert(pow128(0) == 1);
            assert(pow128(1) == 128);
            assert(pow128(2) == 0x4000);
            assert(pow128(3) == 0x20_0000);
            assert(pow128(4) == 0x1000_0000);
        }
        assert(varint_value(buf@, n) < 0x8_0000_0000);
        lemma_small_mod(varint_value(buf@, n), 0x10000000000000000);
        assert(value == varint_u64(buf@));
        assert(value < 0x8_0000_0000);
    }
    Ok(Some(value))
}

} // verus!
