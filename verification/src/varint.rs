//! Unsigned variable-length integer codec.
//!
//! A value is stored seven bits per byte, low-order group first; every byte
//! except the last sets its high bit to say that more bytes follow. A
//! decoder therefore reads bytes until it meets one with a clear high bit,
//! and gives up after ten bytes, which is as many as any 64-bit value needs.

use vstd::prelude::*;

verus! {

use vstd::arithmetic::div_mod::{lemma_fundamental_div_mod, lemma_small_mod};
use vstd::arithmetic::mul::{
    lemma_mul_inequality, lemma_mul_is_associative, lemma_mul_is_distributive_add,
};
use crate::CodecError;

/// `128^n`: the weight of the `n`-th seven-bit group.
pub open spec fn pow128(n: nat) -> nat
    decreases n,
{
    if n == 0 {
        1
    } else {
        128 * pow128((n - 1) as nat)
    }
}

/// The byte sequence the codec produces for `v`.
pub open spec fn varint_encode(v: nat) -> Seq<u8>
    decreases v,
{
    if v < 128 {
        seq![v as u8]
    } else {
        seq![(128 + v % 128) as u8] + varint_encode(v / 128)
    }
}

/// True when the first `n` bytes of `s` form one complete varint: the
/// terminating byte has a clear high bit and every byte before it a set one.
pub open spec fn is_varint_prefix(s: Seq<u8>, n: nat) -> bool {
    &&& 1 <= n <= 10
    &&& n <= s.len()
    &&& s[n - 1] < 128
    &&& forall|k: int| 0 <= k < n - 1 ==> s[k] >= 128
}

/// True when `s` starts with a complete varint.
pub open spec fn varint_ok(s: Seq<u8>) -> bool {
    exists|n: nat| is_varint_prefix(s, n)
}

/// How many bytes the varint at the head of `s` occupies.
pub open spec fn varint_size(s: Seq<u8>) -> nat
    recommends
        varint_ok(s),
{
    choose|n: nat| is_varint_prefix(s, n)
}

/// The number held by the first `n` payload groups of `s`, as a mathematical
/// integer (it can exceed `u64::MAX` for a ten-byte varint).
pub open spec fn varint_value(s: Seq<u8>, n: nat) -> nat
    decreases n,
{
    if n == 0 {
        0
    } else {
        (s[0] % 128) as nat + 128 * varint_value(s.drop_first(), (n - 1) as nat)
    }
}

/// The `u64` a decoder returns for the varint at the head of `s`: the
/// payload value with bits above the 64th discarded.
pub open spec fn varint_u64(s: Seq<u8>) -> u64
    recommends
        varint_ok(s),
{
    (varint_value(s, varint_size(s)) % 0x10000000000000000) as u64
}

/// A sequence starts with at most one complete varint.
pub proof fn lemma_varint_prefix_unique(s: Seq<u8>, n1: nat, n2: nat)
    requires
        is_varint_prefix(s, n1),
        is_varint_prefix(s, n2),
    ensures
        n1 == n2,
{
    if n1 < n2 {
        assert(s[n1 - 1] >= 128);
        assert(false);
    }
    if n2 < n1 {
        assert(s[n2 - 1] >= 128);
        assert(false);
    }
}

pub proof fn lemma_pow128_mono(i: nat, j: nat)
    requires
        i <= j,
    ensures
        pow128(i) <= pow128(j),
    decreases j,
{
    if i < j {
        lemma_pow128_mono(i, (j - 1) as nat);
        assert(pow128(j) == 128 * pow128((j - 1) as nat));
        assert(pow128((j - 1) as nat) <= 128 * pow128((j - 1) as nat)) by {
            lemma_mul_inequality(1, 128, pow128((j - 1) as nat) as int);
        }
    }
}

/// The seven-bit group weights that the decoder's bound makes relevant.
pub proof fn lemma_pow128_values()
    ensures
        pow128(9) == 0x8000_0000_0000_0000,
        pow128(10) == 0x40_0000_0000_0000_0000,
{
    assert(pow128(0) == 1);
    assert(pow128(1) == 128);
    assert(pow128(2) == 0x4000);
    assert(pow128(3) == 0x20_0000);
    assert(pow128(4) == 0x1000_0000);
    assert(pow128(5) == 0x8_0000_0000);
    assert(pow128(6) == 0x400_0000_0000);
    assert(pow128(7) == 0x2_0000_0000_0000);
    assert(pow128(8) == 0x100_0000_0000_0000);
    assert(pow128(9) == 0x8000_0000_0000_0000);
    assert(pow128(10) == 0x40_0000_0000_0000_0000);
}

/// Reading one more byte adds its payload at the next group weight.
pub proof fn lemma_varint_value_snoc(s: Seq<u8>, i: nat)
    requires
        i < s.len(),
    ensures
        varint_value(s, i + 1) == varint_value(s, i) + (s[i as int] % 128) * pow128(i),
    decreases i,
{
    if i == 0 {
        assert(varint_value(s, 1) == (s[0] % 128) as nat + 128 * varint_value(s.drop_first(), 0));
        assert(varint_value(s.drop_first(), 0) == 0);
        assert(varint_value(s, 0) == 0);
        assert(pow128(0) == 1);
        assert((s[0] % 128) * pow128(0) == (s[0] % 128) as nat);
    } else {
        let d = s.drop_first();
        lemma_varint_value_snoc(d, (i - 1) as nat);
        assert(d[i - 1] == s[i as int]);
        let p = (s[i as int] % 128) as int;
        let w = pow128((i - 1) as nat) as int;
        assert(128 * (varint_value(d, (i - 1) as nat) + p * w) == 128 * varint_value(
            d,
            (i - 1) as nat,
        ) + 128 * (p * w)) by {
            lemma_mul_is_distributive_add(128, varint_value(d, (i - 1) as nat) as int, p * w);
        }
        assert(128 * (p * w) == p * (128 * w)) by {
            lemma_mul_is_associative(128, p, w);
            lemma_mul_is_associative(p, 128, w);
            assert(128 * (p * w) == (128 * p) * w);
            assert((p * 128) * w == p * (128 * w));
        }
        assert(pow128(i) == 128 * w);
    }
}

/// The first `n` payload groups are worth less than `128^n`.
pub proof fn lemma_varint_value_bound(s: Seq<u8>, n: nat)
    ensures
        varint_value(s, n) < pow128(n),
    decreases n,
{
    if n > 0 {
        let d = s.drop_first();
        lemma_varint_value_bound(d, (n - 1) as nat);
        assert(128 * varint_value(d, (n - 1) as nat) <= 128 * (pow128((n - 1) as nat) - 1)) by {
            lemma_mul_inequality(
                varint_value(d, (n - 1) as nat) as int,
                pow128((n - 1) as nat) - 1,
                128,
            );
        }
        assert(128 * (pow128((n - 1) as nat) - 1) == 128 * pow128((n - 1) as nat) - 128) by {
            lemma_mul_is_distributive_add(128, pow128((n - 1) as nat) - 1, 1);
        }
    }
}

/// Shape of an encoded varint: at least one byte, continuation bits set on
/// all but the last byte, clear on the last.
pub proof fn lemma_varint_encode_shape(v: nat)
    ensures
        varint_encode(v).len() >= 1,
        varint_encode(v).last() < 128,
        forall|k: int| 0 <= k < varint_encode(v).len() - 1 ==> varint_encode(v)[k] >= 128,
    decreases v,
{
    if v >= 128 {
        lemma_varint_encode_shape(v / 128);
        let e = varint_encode(v);
        let t = varint_encode(v / 128);
        assert(e.last() == t.last());
        assert forall|k: int| 0 <= k < e.len() - 1 implies e[k] >= 128 by {
            if k > 0 {
                assert(e[k] == t[k - 1]);
            }
        }
    }
}

/// A value below `128^k` encodes into at most `k` bytes.
pub proof fn lemma_varint_encode_len(v: nat, k: nat)
    requires
        1 <= k,
        v < pow128(k),
    ensures
        varint_encode(v).len() <= k,
    decreases v,
{
    if v >= 128 {
        if k == 1 {
            assert(false);
        }
        assert(v / 128 < pow128((k - 1) as nat)) by {
            vstd::arithmetic::div_mod::lemma_multiply_divide_lt(
                v as int,
                128,
                pow128((k - 1) as nat) as int,
            );
        }
        lemma_varint_encode_len(v / 128, (k - 1) as nat);
    }
}

/// Decoding the bytes that `varint_encode` produced, with anything after
/// them, finds exactly those bytes and recovers the value.
pub proof fn lemma_varint_value_of_encode(v: nat, rest: Seq<u8>)
    ensures
        varint_value(varint_encode(v) + rest, varint_encode(v).len()) == v,
    decreases v,
{
    let e = varint_encode(v);
    let s = e + rest;
    if v < 128 {
        assert(s[0] == v as u8);
        assert(varint_value(s, 1) == (s[0] % 128) as nat + 128 * varint_value(s.drop_first(), 0));
        lemma_small_mod(v, 128);
    } else {
        lemma_varint_value_of_encode(v / 128, rest);
        let t = varint_encode(v / 128);
        assert(s.drop_first() =~= t + rest);
        assert(s[0] == (128 + v % 128) as u8);
        assert((s[0] % 128) as nat == v % 128) by {
            assert(0 <= v % 128 < 128) by {
                vstd::arithmetic::div_mod::lemma_mod_division_less_than_divisor(v as int, 128);
            }
        }
        assert(varint_value(s, e.len() as nat) == v % 128 + 128 * (v / 128));
        lemma_fundamental_div_mod(v as int, 128);
    }
}

/// The workhorse fact about encoded varints placed in front of other data:
/// the decoder's scan finds exactly the encoded bytes and returns the value.
pub proof fn lemma_varint_encoded_at(v: u64, rest: Seq<u8>)
    ensures
        varint_encode(v as nat).len() >= 1,
        varint_encode(v as nat).len() <= 10,
        varint_ok(varint_encode(v as nat) + rest),
        varint_size(varint_encode(v as nat) + rest) == varint_encode(v as nat).len(),
        varint_u64(varint_encode(v as nat) + rest) == v,
        (varint_encode(v as nat) + rest).skip(varint_encode(v as nat).len() as int) =~= rest,
{
    let e = varint_encode(v as nat);
    let s = e + rest;
    lemma_varint_encode_shape(v as nat);
    assert(v < pow128(10)) by {
        lemma_pow128_values();
    }
    lemma_varint_encode_len(v as nat, 10);
    assert(is_varint_prefix(s, e.len() as nat)) by {
        assert(s[e.len() - 1] == e.last());
        assert(forall|k: int| 0 <= k < e.len() - 1 ==> s[k] == e[k]);
    }
    lemma_varint_prefix_unique(s, varint_size(s), e.len() as nat);
    lemma_varint_value_of_encode(v as nat, rest);
    lemma_small_mod(v as nat, 0x10000000000000000);
}

/// Round trip at the level of whole values: decoding what `encode_varint`
/// produced yields the value back, consuming every produced byte.
pub proof fn lemma_varint_round_trip(v: u64)
    ensures
        varint_ok(varint_encode(v as nat)),
        varint_size(varint_encode(v as nat)) == varint_encode(v as nat).len(),
        varint_u64(varint_encode(v as nat)) == v,
{
    lemma_varint_encoded_at(v, Seq::empty());
    assert(varint_encode(v as nat) + Seq::<u8>::empty() =~= varint_encode(v as nat));
}

/// Append the varint encoding of `value` to `out`.
pub fn encode_varint_to_vec(out: &mut Vec<u8>, value: u64)
    ensures
        final(out)@ == old(out)@ + varint_encode(value as nat),
{
    let ghost start = out@;
    let mut n: u64 = value;
    while n >= 128
        invariant
            start + varint_encode(value as nat) == out@ + varint_encode(n as nat),
        decreases n,
    {
        let ghost before = n;
        out.push((128 + n % 128) as u8);
        n = n / 128;
        proof {
            assert(varint_encode(before as nat) =~= seq![(128 + before % 128) as u8]
                + varint_encode(n as nat));
            assert(start + varint_encode(value as nat) =~= out@ + varint_encode(n as nat));
        }
    }
    out.push(n as u8);
    proof {
        assert(varint_encode(n as nat) =~= seq![n as u8]);
        assert(out@ =~= start + varint_encode(value as nat));
    }
}

/// Encode one unsigned value as a varint.
pub fn encode_varint(value: u64) -> (r: Vec<u8>)
    ensures
        r@ == varint_encode(value as nat),
{
    let mut out: Vec<u8> = Vec::new();
    encode_varint_to_vec(&mut out, value);
    out
}

/// Decode the varint that starts at `pos` in `data`.
///
/// Returns the value (bits above the 64th discarded, as only a malformed
/// ten-byte varint can carry any) and the number of bytes consumed. Fails
/// with `MalformedVarint` when ten bytes pass without a terminating byte or
/// the data ends first.
pub fn decode_varint_at(data: &Vec<u8>, pos: usize) -> (r: Result<(u64, usize), CodecError>)
    requires
        pos <= data@.len(),
    ensures
        ({
            let s = data@.skip(pos as int);
            match r {
                Ok((v, n)) => {
                    &&& is_varint_prefix(s, n as nat)
                    &&& varint_size(s) == n as nat
                    &&& v == varint_u64(s)
                    &&& 1 <= n <= 10
                    &&& pos + n <= data@.len()
                },
                Err(e) => e == CodecError::MalformedVarint && !varint_ok(s),
            }
        }),
{
    let ghost s = data@.skip(pos as int);
    let len = data.len();
    let mut i: usize = 0;
    let mut value: u64 = 0;
    let mut mult: u64 = 1;
    proof {
        lemma_pow128_values();
    }
    loop
        invariant
            pos <= len,
            len == data@.len(),
            s == data@.skip(pos as int),
            i <= 10,
            i <= len - pos,
            forall|k: int| 0 <= k < i ==> s[k] >= 128,
            i <= 9 ==> mult == pow128(i as nat),
            i <= 9 ==> value == varint_value(s, i as nat),
            i <= 9 ==> value < pow128(i as nat),
            pow128(9) == 0x8000_0000_0000_0000,
        decreases 11 - i,
    {
        if i >= 10 {
            proof {
                assert forall|n: nat| !is_varint_prefix(s, n) by {
                    if 1 <= n <= 10 && n <= s.len() {
                        assert(s[n - 1] >= 128);
                    }
                }
            }
            return Err(CodecError::MalformedVarint);
        }
        if i >= len - pos {
            proof {
                assert(s.len() == len - pos);
                assert forall|n: nat| !is_varint_prefix(s, n) by {
                    if 1 <= n <= 10 && n <= s.len() {
                        assert(s[n - 1] >= 128);
                    }
                }
            }
            return Err(CodecError::MalformedVarint);
        }
        let byte = data[pos + i];
        proof {
            assert(byte == s[i as int]);
            lemma_varint_value_snoc(s, i as nat);
        }
        let p: u64 = (byte % 128) as u64;
        if i == 9 {
            // The tenth payload group has weight `2^63`; only its lowest bit
            // still lands inside a `u64`, the rest falls off the top.
            let top_add: u64 = if p % 2 == 1 {
                mult
            } else {
                0
            };
            proof {
                let full = varint_value(s, 10);
                let a = varint_value(s, 9) as int;
                let pi = (s[9] % 128) as int;
                assert(full == a + pi * pow128(9));
                assert(pi * 0x8000_0000_0000_0000 == (pi / 2) * 0x10000000000000000 + (pi % 2)
                    * 0x8000_0000_0000_0000) by (nonlinear_arith);
                assert(full % 0x10000000000000000 == (a + (pi % 2) * 0x8000_0000_0000_0000) % 0x10000000000000000) by {
                    vstd::arithmetic::div_mod::lemma_mod_multiples_vanish(
                        pi / 2,
                        a + (pi % 2) * 0x8000_0000_0000_0000,
                        0x10000000000000000,
                    );
                }
                assert((a + (pi % 2) * 0x8000_0000_0000_0000) % 0x10000000000000000 == a + (pi % 2)
                    * 0x8000_0000_0000_0000) by {
                    lemma_small_mod(
                        (a + (pi % 2) * 0x8000_0000_0000_0000) as nat,
                        0x10000000000000000,
                    );
                }
            }
            let wide: u64 = value + top_add;
            if byte < 128 {
                proof {
                    assert(is_varint_prefix(s, 10));
                    assert(varint_ok(s));
                    lemma_varint_prefix_unique(s, varint_size(s), 10);
                }
                return Ok((wide, 10));
            }
            proof {
                assert(s[9] >= 128);
            }
            i = 10;
        } else {
            proof {
                let pi = (s[i as int] % 128) as int;
                assert(pi * pow128(i as nat) <= 127 * pow128(i as nat)) by {
                    lemma_mul_inequality(pi, 127, pow128(i as nat) as int);
                }
                assert(128 * pow128(i as nat) == pow128((i + 1) as nat));
                lemma_pow128_mono((i + 1) as nat, 9);
            }
            value = value + p * mult;
            if byte < 128 {
                proof {
                    assert(is_varint_prefix(s, (i + 1) as nat));
                    assert(varint_ok(s));
                    lemma_varint_prefix_unique(s, varint_size(s), (i + 1) as nat);
                    lemma_small_mod(varint_value(s, (i + 1) as nat), 0x10000000000000000);
                    assert(pow128((i + 1) as nat) <= 0x8000_0000_0000_0000) by {
                        lemma_pow128_mono((i + 1) as nat, 9);
                    }
                }
                return Ok((value, i + 1));
            }
            mult = mult * 128;
            i = i + 1;
        }
    }
}

/// Decode the varint at the start of `data`, per the contract of
/// [`decode_varint_at`].
pub fn decode_varint(data: &Vec<u8>) -> (r: Result<(u64, usize), CodecError>)
    ensures
        ({
            let s = data@;
            match r {
                Ok((v, n)) => {
                    &&& is_varint_prefix(s, n as nat)
                    &&& varint_size(s) == n as nat
                    &&& v == varint_u64(s)
                    &&& 1 <= n <= 10
                },
                Err(e) => e == CodecError::MalformedVarint && !varint_ok(s),
            }
        }),
{
    proof {
        assert(data@.skip(0) =~= data@);
    }
    decode_varint_at(data, 0)
}

} // verus!
