//! The length codec: a non-negative bit count is encoded as a variable-length
//! compact prefix. A 2-bit tag in the low bits of the first byte selects one
//! of four size classes:
//!
//! * tag `00`: the value fits in 6 bits and sits in the high 6 bits of a
//!   single byte;
//! * tag `01`: the value fits in 14 bits; two bytes, little-endian, hold the
//!   value shifted past the tag;
//! * tag `10`: the value fits in 30 bits; four bytes, little-endian, likewise;
//! * tag `11`: the high 6 bits of the first byte hold the count of value
//!   bytes minus four, and that many little-endian bytes follow with the
//!   value itself.
//!
//! Encoding always picks the smallest class; decoding reads the tag and
//! reconstructs the value, reporting truncation or a value too large for the
//! addressable size.

use vstd::prelude::*;
use vstd::arithmetic::div_mod::{
    lemma_div_decreases, lemma_div_is_ordered, lemma_fundamental_div_mod,
    lemma_fundamental_div_mod_converse, lemma_fundamental_div_mod_converse_div,
    lemma_mod_bound, lemma_mod_multiples_vanish, lemma_multiply_divide_lt,
};
use vstd::arithmetic::mul::{lemma_mul_inequality, lemma_mul_is_associative};

use crate::width::DecodeError;

verus! {

/// 256 raised to the `k`-th power: the weight of the `k`-th byte of a
/// little-endian value.
pub open spec fn pow256(k: nat) -> nat
    decreases k,
{
    if k == 0 {
        1
    } else {
        256 * pow256((k - 1) as nat)
    }
}

/// The value of a byte string read as a little-endian integer.
pub open spec fn le_value(s: Seq<u8>) -> nat
    decreases s.len(),
{
    if s.len() == 0 {
        0
    } else {
        s[0] as nat + 256 * le_value(s.drop_first())
    }
}

/// The `k` little-endian bytes of a value.
pub open spec fn le_bytes(v: nat, k: nat) -> Seq<u8>
    decreases k,
{
    if k == 0 {
        Seq::empty()
    } else {
        seq![(v % 256) as u8] + le_bytes(v / 256, (k - 1) as nat)
    }
}

/// The number of bytes needed to hold a value: the length of its shortest
/// little-endian representation.
pub open spec fn byte_len(v: nat) -> nat
    decreases v,
{
    if v == 0 {
        0
    } else {
        1 + byte_len(v / 256)
    }
}

/// The compact encoding of a length value, always in its smallest size class.
pub open spec fn spec_compact_encode(n: nat) -> Seq<u8> {
    if n < 64 {
        seq![(n * 4) as u8]
    } else if n < 16384 {
        le_bytes(n * 4 + 1, 2)
    } else if n < 1073741824 {
        le_bytes(n * 4 + 2, 4)
    } else {
        seq![((byte_len(n) - 4) * 4 + 3) as u8] + le_bytes(n, byte_len(n))
    }
}

/// The result of reading a compact length prefix from the front of a buffer:
/// the value and the number of bytes it occupied, or the truncation error.
/// The value is unbounded here; the executable decoder reports `LengthOverflow`
/// for values beyond `usize`.
pub open spec fn spec_compact_decode(s: Seq<u8>) -> Result<(nat, nat), DecodeError> {
    if s.len() == 0 {
        Err(DecodeError::TruncatedLengthPrefix)
    } else {
        let tag = s[0] as nat % 4;
        if tag == 0 {
            Ok(((s[0] as nat) / 4, 1))
        } else if tag == 1 {
            if s.len() < 2 {
                Err(DecodeError::TruncatedLengthPrefix)
            } else {
                Ok((le_value(s.subrange(0, 2)) / 4, 2))
            }
        } else if tag == 2 {
            if s.len() < 4 {
                Err(DecodeError::TruncatedLengthPrefix)
            } else {
                Ok((le_value(s.subrange(0, 4)) / 4, 4))
            }
        } else {
            let cnt = (s[0] as nat) / 4 + 4;
            if s.len() < 1 + cnt {
                Err(DecodeError::TruncatedLengthPrefix)
            } else {
                Ok((le_value(s.subrange(1, 1 + cnt as int)), 1 + cnt))
            }
        }
    }
}

pub proof fn lemma_pow256_pos(k: nat)
    ensures
        pow256(k) >= 1,
    decreases k,
{
    if k > 0 {
        lemma_pow256_pos((k - 1) as nat);
    }
}

pub proof fn lemma_pow256_increases(k1: nat, k2: nat)
    requires
        k1 <= k2,
    ensures
        pow256(k1) <= pow256(k2),
    decreases k2,
{
    if k1 < k2 && k2 > 0 {
        lemma_pow256_increases(k1, (k2 - 1) as nat);
        lemma_pow256_pos((k2 - 1) as nat);
    }
}

/// A little-endian byte string is bounded by the weight of the byte just past
/// its end.
pub proof fn lemma_le_value_bound(s: Seq<u8>)
    ensures
        le_value(s) < pow256(s.len()),
    decreases s.len(),
{
    if s.len() > 0 {
        lemma_le_value_bound(s.drop_first());
    }
}

/// A little-endian byte string with a non-zero byte is at least that byte's
/// weight.
pub proof fn lemma_le_value_lower(s: Seq<u8>, j: int)
    requires
        0 <= j < s.len(),
        s[j] != 0,
    ensures
        le_value(s) >= pow256(j as nat),
    decreases j,
{
    if j == 0 {
    } else {
        lemma_le_value_lower(s.drop_first(), j - 1);
        lemma_pow256_pos((j - 1) as nat);
    }
}

/// An all-zero little-endian byte string has value zero.
pub proof fn lemma_le_value_zero(s: Seq<u8>)
    requires
        forall|i: int| 0 <= i < s.len() ==> s[i] == 0,
    ensures
        le_value(s) == 0,
    decreases s.len(),
{
    if s.len() > 0 {
        lemma_le_value_zero(s.drop_first());
    }
}

/// Splitting a little-endian byte string splits its value at the weight of
/// the split point.
pub proof fn lemma_le_split(s: Seq<u8>, k: int)
    requires
        0 <= k <= s.len(),
    ensures
        le_value(s) == le_value(s.take(k)) + pow256(k as nat) * le_value(s.skip(k)),
    decreases k,
{
    if k == 0 {
        assert(s.skip(0) =~= s);
        assert(le_value(s.take(0)) == 0);
        assert(pow256(0) == 1);
        vstd::arithmetic::mul::lemma_mul_basics(le_value(s.skip(k)) as int);
        assert(le_value(s) == le_value(s.take(k)) + pow256(k as nat) * le_value(s.skip(k)));
    } else {
        let d = s.drop_first();
        lemma_le_split(d, k - 1);
        assert(d.take(k - 1) =~= s.take(k).drop_first());
        assert(d.skip(k - 1) =~= s.skip(k));
        assert(le_value(s) == s[0] + 256 * le_value(d));
        assert(s.take(k).len() == k && s.take(k)[0] == s[0]);
        assert(le_value(s.take(k)) == s[0] + 256 * le_value(d.take(k - 1)));
        assert(le_value(d) == le_value(d.take(k - 1))
            + pow256((k - 1) as nat) * le_value(s.skip(k)));
        assert(256 * (pow256((k - 1) as nat) * le_value(s.skip(k)))
            == (256 * pow256((k - 1) as nat)) * le_value(s.skip(k))) by {
            lemma_mul_is_associative(256, pow256((k - 1) as nat) as int,
                le_value(s.skip(k)) as int);
        }
        assert(pow256(k as nat) == 256 * pow256((k - 1) as nat));
        assert(le_value(s) == le_value(s.take(k)) + pow256(k as nat) * le_value(s.skip(k)));
    }
}

pub proof fn lemma_le_bytes_len(v: nat, k: nat)
    ensures
        le_bytes(v, k).len() == k,
    decreases k,
{
    if k > 0 {
        lemma_le_bytes_len(v / 256, (k - 1) as nat);
    }
}

/// Reading back the `k` little-endian bytes of a value below `256^k` yields
/// the value.
pub proof fn lemma_le_bytes_le_value(v: nat, k: nat)
    requires
        v < pow256(k),
    ensures
        le_value(le_bytes(v, k)) == v,
    decreases k,
{
    if k == 0 {
    } else {
        assert(v / 256 < pow256((k - 1) as nat)) by {
            lemma_multiply_divide_lt(v as int, 256, pow256((k - 1) as nat) as int);
        }
        lemma_le_bytes_le_value(v / 256, (k - 1) as nat);
        lemma_le_bytes_len(v / 256, (k - 1) as nat);
        assert(le_bytes(v, k).drop_first() =~= le_bytes(v / 256, (k - 1) as nat));
        lemma_fundamental_div_mod(v as int, 256);
    }
}

/// Bounds on `byte_len`: a value needs its byte length, and no fewer bytes.
pub proof fn lemma_byte_len_bound(v: nat)
    ensures
        v < pow256(byte_len(v)),
        v > 0 ==> pow256((byte_len(v) - 1) as nat) <= v,
    decreases v,
{
    if v > 0 {
        lemma_div_decreases(v as int, 256);
        lemma_byte_len_bound(v / 256);
        let l = byte_len(v / 256);
        lemma_fundamental_div_mod(v as int, 256);
        lemma_mod_bound(v as int, 256);
        assert(v < 256 * pow256(l)) by {
            assert(v == 256 * (v / 256) + v % 256);
            assert(v / 256 <= pow256(l) - 1);
            assert((v / 256) * 256 <= (pow256(l) - 1) * 256) by {
                lemma_mul_inequality((v / 256) as int, pow256(l) as int - 1, 256);
            }
        }
        if v / 256 > 0 {
            assert(pow256((l - 1) as nat) <= v / 256);
            assert(256 * pow256((l - 1) as nat) <= 256 * (v / 256));
            assert(256 * (v / 256) <= v);
        }
    }
}

/// The compact prefix decodes back to the value it encodes, whatever bytes
/// follow it, consuming exactly its own length.
pub proof fn lemma_compact_round_trip(n: nat, rest: Seq<u8>)
    requires
        n <= usize::MAX,
    ensures
        spec_compact_decode(spec_compact_encode(n) + rest)
            == Ok::<(nat, nat), DecodeError>((n, spec_compact_encode(n).len())),
{
    let e = spec_compact_encode(n);
    let s = e + rest;
    if n < 64 {
        assert(s[0] == (n * 4) as u8);
        assert(n * 4 < 256);
        assert((n * 4) % 4 == 0 && (n * 4) / 4 == n) by {
            lemma_fundamental_div_mod_converse((n * 4) as int, 4, n as int, 0);
        }
    } else if n < 16384 {
        let v = n * 4 + 1;
        assert(v < pow256(2)) by {
            reveal_with_fuel(pow256, 3);
        }
        lemma_le_bytes_len(v, 2);
        lemma_le_bytes_le_value(v, 2);
        assert(s.subrange(0, 2) =~= le_bytes(v, 2));
        assert(s[0] == le_bytes(v, 2)[0]);
        assert(le_bytes(v, 2)[0] == (v % 256) as u8);
        assert(v % 256 % 4 == v % 4) by {
            lemma_fundamental_div_mod(v as int, 256);
            assert(v == 256 * (v / 256) + v % 256);
            lemma_mod_bound(v as int, 256);
            lemma_mod_multiples_vanish((64 * (v / 256)) as int, (v % 256) as int, 4);
            assert(4 * (64 * (v / 256)) == 256 * (v / 256)) by {
                lemma_mul_is_associative(4, 64, (v / 256) as int);
            }
        }
        assert(v % 4 == 1 && v / 4 == n) by {
            lemma_fundamental_div_mod_converse(v as int, 4, n as int, 1);
        }
    } else if n < 1073741824 {
        let v = n * 4 + 2;
        assert(v < pow256(4)) by {
            reveal_with_fuel(pow256, 5);
        }
        lemma_le_bytes_len(v, 4);
        lemma_le_bytes_le_value(v, 4);
        assert(s.subrange(0, 4) =~= le_bytes(v, 4));
        assert(s[0] == le_bytes(v, 4)[0]);
        assert(le_bytes(v, 4)[0] == (v % 256) as u8);
        assert(v % 256 % 4 == v % 4) by {
            lemma_fundamental_div_mod(v as int, 256);
            assert(v == 256 * (v / 256) + v % 256);
            lemma_mod_bound(v as int, 256);
            lemma_mod_multiples_vanish((64 * (v / 256)) as int, (v % 256) as int, 4);
            assert(4 * (64 * (v / 256)) == 256 * (v / 256)) by {
                lemma_mul_is_associative(4, 64, (v / 256) as int);
            }
        }
        assert(v % 4 == 2 && v / 4 == n) by {
            lemma_fundamental_div_mod_converse(v as int, 4, n as int, 2);
        }
    } else {
        let l = byte_len(n);
        lemma_byte_len_bound(n);
        assert(4 <= l <= 8) by {
            reveal_with_fuel(pow256, 10);
            if l > 8 {
                lemma_pow256_increases(8, (l - 1) as nat);
                assert(false);
            }
            if l < 4 {
                lemma_pow256_increases(l, 3);
                assert(false);
            }
        }
        let t = ((l - 4) * 4 + 3) as u8;
        assert(e == seq![t] + le_bytes(n, l));
        lemma_le_bytes_len(n, l);
        assert(s[0] == t);
        assert((l - 4) * 4 + 3 < 256);
        assert(t as nat % 4 == 3 && t as nat / 4 == l - 4) by {
            lemma_fundamental_div_mod_converse(((l - 4) * 4 + 3) as int, 4, (l - 4) as int, 3);
        }
        assert(s.len() >= 1 + l);
        assert(s.subrange(1, 1 + l as int) =~= le_bytes(n, l));
        lemma_le_bytes_le_value(n, l);
        assert(e.len() == 1 + l);
    }
}

/// Whenever the prefix decoder succeeds it has consumed at least one byte and
/// no more than the buffer holds.
pub proof fn lemma_compact_decode_consumed(s: Seq<u8>)
    ensures
        spec_compact_decode(s) matches Ok(p) ==> 1 <= p.1 <= s.len(),
{
}

/// Encodes a length value as a compact prefix.
pub fn compact_encode(n: usize) -> (out: Vec<u8>)
    ensures
        out@ == spec_compact_encode(n as nat),
{
    if n < 64 {
        let mut out: Vec<u8> = Vec::new();
        out.push((n as u8) * 4);
        proof {
            assert(out@ =~= spec_compact_encode(n as nat));
        }
        out
    } else if n < 16384 {
        let v = n * 4 + 1;
        let mut out: Vec<u8> = Vec::new();
        out.push((v % 256) as u8);
        out.push(((v / 256) % 256) as u8);
        proof {
            reveal_with_fuel(le_bytes, 3);
            assert(out@ =~= spec_compact_encode(n as nat));
        }
        out
    } else if n < 1073741824 {
        let v = n * 4 + 2;
        let mut out: Vec<u8> = Vec::new();
        out.push((v % 256) as u8);
        out.push(((v / 256) % 256) as u8);
        out.push(((v / 65536) % 256) as u8);
        out.push(((v / 16777216) % 256) as u8);
        proof {
            reveal_with_fuel(le_bytes, 5);
            assert((v / 256) / 256 == v / 65536 && (v / 65536) / 256 == v / 16777216) by {
                vstd::arithmetic::div_mod::lemma_div_denominator(v as int, 256, 256);
                vstd::arithmetic::div_mod::lemma_div_denominator(v as int, 65536, 256);
            }
            assert(out@ =~= spec_compact_encode(n as nat));
        }
        out
    } else {
        // count the value bytes of n
        let mut cnt: usize = 0;
        let mut m: usize = n;
        proof {
            lemma_byte_len_bound(n as nat);
            reveal_with_fuel(pow256, 10);
            if byte_len(n as nat) > 8 {
                lemma_pow256_increases(8, (byte_len(n as nat) - 1) as nat);
                assert(false);
            }
            if byte_len(n as nat) < 4 {
                lemma_pow256_increases(byte_len(n as nat), 3);
                assert(false);
            }
        }
        while m > 0
            invariant
                byte_len(n as nat) == cnt + byte_len(m as nat),
                cnt <= byte_len(n as nat),
                4 <= byte_len(n as nat) <= 8,
            decreases m,
        {
            proof {
                lemma_div_decreases(m as int, 256);
            }
            m = m / 256;
            cnt = cnt + 1;
        }
        assert(cnt == byte_len(n as nat));
        let mut out: Vec<u8> = Vec::new();
        out.push(((cnt - 4) * 4 + 3) as u8);
        let ghost tag = out@;
        let mut m2: usize = n;
        let mut step: usize = 0;
        while step < cnt
            invariant
                step <= cnt,
                4 <= cnt <= 8,
                cnt == byte_len(n as nat),
                out@.len() == 1 + step,
                out@.take(1) == tag,
                out@.skip(1) + le_bytes(m2 as nat, (cnt - step) as nat)
                    == le_bytes(n as nat, cnt as nat),
            decreases cnt - step,
        {
            let ghost pre = out@;
            out.push((m2 % 256) as u8);
            proof {
                assert(out@.take(1) =~= tag);
                assert(out@.skip(1) =~= pre.skip(1).push((m2 % 256) as u8));
            }
            m2 = m2 / 256;
            step = step + 1;
            proof {
                assert(out@.skip(1) + le_bytes(m2 as nat, (cnt - step) as nat)
                    =~= le_bytes(n as nat, cnt as nat));
            }
        }
        proof {
            assert(out@.skip(1) =~= le_bytes(n as nat, cnt as nat));
            assert(out@ =~= tag + le_bytes(n as nat, cnt as nat));
            assert(out@ =~= spec_compact_encode(n as nat));
        }
        out
    }
}

/// Decodes a compact length prefix from the front of a buffer, returning the
/// value and the number of bytes consumed. A value beyond `usize` is reported
/// as `LengthOverflow`; the byte footprint of such a bit count could never be
/// addressed.
pub fn compact_decode(bytes: &[u8]) -> (r: Result<(usize, usize), DecodeError>)
    ensures
        ({
            match spec_compact_decode(bytes@) {
                Ok(p) => if p.0 <= usize::MAX {
                    r == Ok::<(usize, usize), DecodeError>((p.0 as usize, p.1 as usize))
                } else {
                    r == Err::<(usize, usize), DecodeError>(DecodeError::LengthOverflow)
                },
                Err(e) => r == Err::<(usize, usize), DecodeError>(e),
            }
        }),
{
    if bytes.len() == 0 {
        return Err(DecodeError::TruncatedLengthPrefix);
    }
    let b0 = bytes[0];
    let tag = b0 % 4;
    if tag == 0 {
        Ok(((b0 / 4) as usize, 1))
    } else if tag == 1 {
        if bytes.len() < 2 {
            return Err(DecodeError::TruncatedLengthPrefix);
        }
        let v: usize = (b0 as usize) + 256 * (bytes[1] as usize);
        proof {
            reveal_with_fuel(le_value, 3);
            let s = bytes@.subrange(0, 2);
            assert(s.drop_first() =~= bytes@.subrange(1, 2));
            assert(s.drop_first().drop_first() =~= Seq::<u8>::empty());
            assert(le_value(s) == v);
        }
        Ok((v / 4, 2))
    } else if tag == 2 {
        if bytes.len() < 4 {
            return Err(DecodeError::TruncatedLengthPrefix);
        }
        let v: usize = (bytes[0] as usize) + 256 * (bytes[1] as usize)
            + 65536 * (bytes[2] as usize) + 16777216 * (bytes[3] as usize);
        proof {
            reveal_with_fuel(le_value, 5);
            let s = bytes@.subrange(0, 4);
            assert(s.drop_first() =~= bytes@.subrange(1, 4));
            assert(s.drop_first().drop_first() =~= bytes@.subrange(2, 4));
            assert(s.drop_first().drop_first().drop_first() =~= bytes@.subrange(3, 4));
            assert(s.drop_first().drop_first().drop_first().drop_first()
                =~= Seq::<u8>::empty());
            assert(le_value(s) == v);
        }
        Ok((v / 4, 4))
    } else {
        let cnt: usize = (b0 / 4) as usize + 4;
        if bytes.len() < 1 + cnt {
            return Err(DecodeError::TruncatedLengthPrefix);
        }
        let ghost full = bytes@.subrange(1, 1 + cnt as int);
        // Bytes at or above the weight 256^8 push the value past any usize.
        let mut j: usize = 8;
        while j < cnt
            invariant
                8 <= j,
                j <= cnt || cnt < 8,
                4 <= cnt <= 67,
                bytes@.len() >= 1 + cnt,
                (bytes@[0] as nat) % 4 == 3,
                cnt == (bytes@[0] as nat) / 4 + 4,
                full == bytes@.subrange(1, 1 + cnt as int),
                forall|jj: int| 8 <= jj < j && jj < cnt ==> full[jj] == 0,
            decreases cnt - j,
        {
            if bytes[1 + j] != 0 {
                proof {
                    lemma_le_value_lower(full, j as int);
                    lemma_pow256_increases(8, j as nat);
                    reveal_with_fuel(pow256, 10);
                    assert(usize::MAX < pow256(8));
                    assert(le_value(full) > usize::MAX);
                }
                return Err(DecodeError::LengthOverflow);
            }
            j = j + 1;
        }
        let k: usize = if cnt < 8 { cnt } else { 8 };
        let ghost low = bytes@.subrange(1, 1 + k as int);
        let mut v: u64 = 0;
        let mut t: usize = k;
        proof {
            assert(low.skip(t as int) =~= Seq::<u8>::empty());
        }
        while t > 0
            invariant
                t <= k,
                k <= 8,
                bytes@.len() >= 1 + k,
                low == bytes@.subrange(1, 1 + k as int),
                v == le_value(low.skip(t as int)),
                le_value(low.skip(t as int)) < pow256((k - t) as nat),
            decreases t,
        {
            proof {
                lemma_le_value_bound(low.skip(t as int));
                lemma_pow256_increases((k - t) as nat, 7);
                reveal_with_fuel(pow256, 10);
            }
            t = t - 1;
            let byte = bytes[1 + t];
            proof {
                assert(low.skip(t as int).drop_first() =~= low.skip(t as int + 1));
                assert(low.skip(t as int)[0] == byte);
                lemma_le_value_bound(low.skip(t as int));
            }
            v = v * 256 + byte as u64;
            proof {
                assert(v == le_value(low.skip(t as int)));
            }
        }
        proof {
            assert(low.skip(0) =~= low);
            if cnt > 8 {
                lemma_le_split(full, 8);
                assert(full.take(8) =~= low);
                lemma_le_value_zero(full.skip(8));
                assert(pow256(8) * le_value(full.skip(8)) == pow256(8) * 0);
                assert(pow256(8) * 0 == 0) by {
                    vstd::arithmetic::mul::lemma_mul_basics(pow256(8) as int);
                }
            } else {
                assert(full =~= low);
            }
            assert(le_value(full) == v);
        }
        if v > usize::MAX as u64 {
            Err(DecodeError::LengthOverflow)
        } else {
            Ok((v as usize, 1 + cnt))
        }
    }
}

} // verus!
