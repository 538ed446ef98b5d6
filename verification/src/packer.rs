//! The bit packer: a boolean sequence is packed into bytes under a
//! word-width convention. Logical bit `i` lives in word `i / word_bits` at
//! offset `i % word_bits`, where offset 0 is the word's most significant bit,
//! and each word is serialized little-endian. Padding bits in the last word
//! beyond the sequence length are always zero in packed output.

use vstd::prelude::*;
use vstd::arithmetic::div_mod::{
    lemma_div_is_ordered, lemma_fundamental_div_mod,
    lemma_fundamental_div_mod_converse, lemma_fundamental_div_mod_converse_div,
    lemma_hoist_over_denominator, lemma_mod_bound, lemma_mod_multiples_vanish,
};
use vstd::arithmetic::mul::{lemma_mul_inequality, lemma_mul_is_distributive_sub_other_way};
use vstd::arithmetic::power2::{lemma2_to64, lemma_pow2_adds, lemma_pow2_pos, lemma_pow2_unfold, pow2};

use crate::footprint::{lemma_required_bytes_in_range, spec_fits, spec_required_bytes, required_bytes};
use crate::width::{DecodeError, PaddingMode, WordWidth};

verus! {

/// The byte of the packed buffer that holds logical bit `i`: the bit sits in
/// word `i / word_bits` at word bit position `word_bits - 1 - i % word_bits`
/// (position 0 being least significant), and the word's bytes appear in
/// little-endian order.
pub open spec fn spec_byte_index(i: int, width: WordWidth) -> int {
    let w = width.word_bits() as int;
    (i / w) * (width.word_bytes() as int) + (w - 1 - i % w) / 8
}

/// The position of logical bit `i` within its byte, 0 being least
/// significant.
pub open spec fn spec_bit_in_byte(i: int, width: WordWidth) -> int {
    let w = width.word_bits() as int;
    (w - 1 - i % w) % 8
}

/// The logical bit index stored at bit `b` (least-significant first) of byte
/// `j` of the packed buffer: the inverse of `spec_byte_index` and
/// `spec_bit_in_byte`.
pub open spec fn spec_bit_index(j: int, b: int, width: WordWidth) -> int {
    let w = width.word_bits() as int;
    let wb = width.word_bytes() as int;
    (j / wb) * w + (w - 1 - (8 * (j % wb) + b))
}

/// Whether byte `j`, bit `b` of the packed form of `s` is set: it is when the
/// logical index it stores lies within the sequence and that bit is true.
pub open spec fn spec_bit_at(s: Seq<bool>, width: WordWidth, j: int, b: int) -> bool {
    let i = spec_bit_index(j, b, width);
    0 <= i < s.len() && s[i]
}

/// The value contributed by bits `0 .. b` of byte `j` of the packed form.
pub open spec fn spec_packed_byte_partial(s: Seq<bool>, width: WordWidth, j: int, b: nat) -> nat
    decreases b,
{
    if b == 0 {
        0
    } else {
        spec_packed_byte_partial(s, width, j, (b - 1) as nat)
            + if spec_bit_at(s, width, j, b - 1) {
                pow2((b - 1) as nat)
            } else {
                0
            }
    }
}

/// Byte `j` of the packed form of `s`.
pub open spec fn spec_packed_byte(s: Seq<bool>, width: WordWidth, j: int) -> nat {
    spec_packed_byte_partial(s, width, j, 8)
}

/// The packed bytes of a boolean sequence: exactly the required footprint,
/// each byte assembled from the bits it stores.
pub open spec fn spec_packed(s: Seq<bool>, width: WordWidth) -> Seq<u8> {
    Seq::new(spec_required_bytes(s.len(), width), |j: int| spec_packed_byte(s, width, j) as u8)
}

/// Whether logical bit `i` of a packed buffer is set.
pub open spec fn spec_extracted_bit(bytes: Seq<u8>, width: WordWidth, i: int) -> bool {
    (bytes[spec_byte_index(i, width)] as nat / pow2(spec_bit_in_byte(i, width) as nat)) % 2 == 1
}

/// The boolean sequence of length `len` read back from a packed buffer.
pub open spec fn spec_unpacked(bytes: Seq<u8>, len: nat, width: WordWidth) -> Seq<bool> {
    Seq::new(len, |i: int| spec_extracted_bit(bytes, width, i))
}

/// Whether every bit of the buffer beyond the logical length is zero.
pub open spec fn spec_padding_zero(bytes: Seq<u8>, len: nat, width: WordWidth) -> bool {
    forall|i: int| len <= i < 8 * bytes.len() ==> !spec_extracted_bit(bytes, width, i)
}

/// Basic facts about the word geometry and the position of a bit: the bit
/// maps into a byte of its own word, and mapping the byte and bit position
/// back yields the original index.
pub proof fn lemma_index_round_trip(i: int, width: WordWidth)
    requires
        0 <= i,
    ensures
        0 <= spec_bit_in_byte(i, width) < 8,
        (i / width.word_bits() as int) * (width.word_bytes() as int) <= spec_byte_index(i, width)
            < (i / width.word_bits() as int) * (width.word_bytes() as int)
                + width.word_bytes() as int,
        spec_bit_index(spec_byte_index(i, width), spec_bit_in_byte(i, width), width) == i,
{
    let w = width.word_bits() as int;
    let wb = width.word_bytes() as int;
    let q = i / w;
    let o = i % w;
    lemma_fundamental_div_mod(i, w);
    lemma_mod_bound(i, w);
    let p = w - 1 - o;
    let jq = p / 8;
    let jb = p % 8;
    lemma_fundamental_div_mod(p, 8);
    lemma_mod_bound(p, 8);
    assert(jq <= (w - 1) / 8) by {
        lemma_div_is_ordered(p, w - 1, 8);
    }
    assert((w - 1) / 8 == wb - 1) by {
        lemma_fundamental_div_mod_converse_div(w - 1, 8, wb - 1, 7);
    }
    assert(0 <= jq < wb);
    let j = q * wb + jq;
    assert(j / wb == q && j % wb == jq) by {
        lemma_fundamental_div_mod_converse(j, wb, q, jq);
    }
    assert(spec_byte_index(i, width) == j);
    assert(spec_bit_index(j, jb, width) == q * w + (w - 1 - (8 * jq + jb)));
    assert(8 * jq + jb == p);
    assert(q * w + o == i);
}

/// Every bit index within the padded word span maps to a byte inside the
/// required footprint.
pub proof fn lemma_byte_index_in_range(i: int, len: nat, width: WordWidth)
    requires
        spec_fits(len, width),
        0 <= i < 8 * spec_required_bytes(len, width),
    ensures
        0 <= spec_byte_index(i, width) < spec_required_bytes(len, width),
        len <= 8 * spec_required_bytes(len, width),
{
    let w = width.word_bits() as int;
    let wb = width.word_bytes() as int;
    let nwords = (len + w - 1) / w;
    lemma_required_bytes_in_range(len, width);
    assert(8 * spec_required_bytes(len, width) == nwords * w);
    lemma_index_round_trip(i, width);
    let q = i / w;
    assert(q <= nwords - 1) by {
        assert((nwords * w - 1) / w == nwords - 1) by {
            lemma_fundamental_div_mod_converse_div(nwords * w - 1, w, nwords - 1, w - 1);
            assert((nwords - 1) * w + (w - 1) == nwords * w - 1) by {
                lemma_mul_is_distributive_sub_other_way(w, nwords, 1);
            }
        }
        lemma_div_is_ordered(i, nwords * w - 1, w);
    }
    assert(0 <= q) by {
        vstd::arithmetic::div_mod::lemma_div_pos_is_pos(i, w);
    }
    assert(q * wb <= (nwords - 1) * wb) by {
        lemma_mul_inequality(q, nwords - 1, wb);
    }
    assert((nwords - 1) * wb == nwords * wb - wb) by {
        lemma_mul_is_distributive_sub_other_way(wb, nwords, 1);
    }
    assert(spec_required_bytes(len, width) == nwords * wb);
}

/// Bits below `b` contribute less than `2^b` to a packed byte.
pub proof fn lemma_partial_bound(s: Seq<bool>, width: WordWidth, j: int, b: nat)
    ensures
        spec_packed_byte_partial(s, width, j, b) < pow2(b),
    decreases b,
{
    if b == 0 {
        lemma2_to64();
    } else {
        lemma_partial_bound(s, width, j, (b - 1) as nat);
        lemma_pow2_unfold(b);
    }
}

/// Dividing a packed byte by the weight of bit `b` and taking parity reads
/// exactly that bit.
proof fn lemma_partial_extract(s: Seq<bool>, width: WordWidth, j: int, b: nat, c: nat)
    requires
        b < c,
        c <= 8,
    ensures
        (spec_packed_byte_partial(s, width, j, c) as int / pow2(b) as int) % 2
            == if spec_bit_at(s, width, j, b as int) { 1int } else { 0int },
    decreases c,
{
    lemma_pow2_pos(b);
    if c == b + 1 {
        let low = spec_packed_byte_partial(s, width, j, b);
        let t: int = if spec_bit_at(s, width, j, b as int) { 1 } else { 0 };
        lemma_partial_bound(s, width, j, b);
        assert(spec_packed_byte_partial(s, width, j, c)
            == t * pow2(b) + low) by {
            vstd::arithmetic::mul::lemma_mul_basics(pow2(b) as int);
        }
        assert((t * pow2(b) + low) / pow2(b) as int == t) by {
            lemma_fundamental_div_mod_converse(
                t * pow2(b) + low, pow2(b) as int, t, low as int);
        }
    } else {
        lemma_partial_extract(s, width, j, b, (c - 1) as nat);
        let prev = spec_packed_byte_partial(s, width, j, (c - 1) as nat) as int;
        let cur = spec_packed_byte_partial(s, width, j, c) as int;
        if spec_bit_at(s, width, j, c - 1) {
            assert(cur == prev + pow2((c - 1) as nat));
            assert(pow2((c - 1) as nat) == pow2(b) * pow2((c - 1 - b) as nat)) by {
                lemma_pow2_adds(b, (c - 1 - b) as nat);
            }
            let k = pow2((c - 1 - b) as nat) as int;
            assert(cur / pow2(b) as int == prev / pow2(b) as int + k) by {
                lemma_hoist_over_denominator(prev, k, pow2(b));
                assert(k * pow2(b) == pow2(b) * k) by {
                    vstd::arithmetic::mul::lemma_mul_is_commutative(k, pow2(b) as int);
                }
            }
            assert(k % 2 == 0) by {
                lemma_pow2_unfold((c - 1 - b) as nat);
            }
            assert((prev / pow2(b) as int + k) % 2 == (prev / pow2(b) as int) % 2) by {
                lemma_mod_multiples_vanish(k / 2, prev / pow2(b) as int, 2);
            }
        } else {
            assert(cur == prev);
        }
    }
}

/// Reading bit `b` of packed byte `j` by division and parity yields the bit
/// the byte stores there.
pub proof fn lemma_packed_byte_extract(s: Seq<bool>, width: WordWidth, j: int, b: nat)
    requires
        b < 8,
    ensures
        spec_packed_byte(s, width, j) < 256,
        ((spec_packed_byte(s, width, j) as int / pow2(b) as int) % 2 == 1)
            == spec_bit_at(s, width, j, b as int),
{
    lemma_partial_bound(s, width, j, 8);
    lemma2_to64();
    lemma_partial_extract(s, width, j, b, 8);
}

/// Packing then unpacking restores the sequence, and all padding bits of the
/// packed form are zero.
pub proof fn lemma_pack_unpack(s: Seq<bool>, width: WordWidth)
    requires
        spec_fits(s.len(), width),
    ensures
        spec_unpacked(spec_packed(s, width), s.len(), width) == s,
        spec_padding_zero(spec_packed(s, width), s.len(), width),
{
    let packed = spec_packed(s, width);
    lemma_required_bytes_in_range(s.len(), width);
    assert forall|i: int| 0 <= i < 8 * packed.len() implies
        #[trigger] spec_extracted_bit(packed, width, i) == (i < s.len() && s[i]) by {
        lemma_byte_index_in_range(i, s.len(), width);
        lemma_index_round_trip(i, width);
        let j = spec_byte_index(i, width);
        let b = spec_bit_in_byte(i, width);
        lemma_packed_byte_extract(s, width, j, b as nat);
        assert(packed[j] == spec_packed_byte(s, width, j) as u8);
        assert(packed[j] as nat == spec_packed_byte(s, width, j));
        assert(spec_bit_at(s, width, j, b) == (i < s.len() && s[i]));
    }
    assert(s.len() <= 8 * packed.len());
    assert(spec_unpacked(packed, s.len(), width) =~= s);
}

/// The weight of bit `b` of a byte.
fn pow2_u8(b: usize) -> (r: u8)
    requires
        b < 8,
    ensures
        r == pow2(b as nat),
{
    proof {
        lemma2_to64();
    }
    if b == 0 {
        1
    } else if b == 1 {
        2
    } else if b == 2 {
        4
    } else if b == 3 {
        8
    } else if b == 4 {
        16
    } else if b == 5 {
        32
    } else if b == 6 {
        64
    } else {
        128
    }
}

/// Reads logical bit `i` from a packed buffer.
pub(crate) fn extract_bit(bytes: &[u8], i: usize, width: WordWidth) -> (r: bool)
    requires
        spec_byte_index(i as int, width) < bytes@.len(),
    ensures
        r == spec_extracted_bit(bytes@, width, i as int),
{
    proof {
        lemma_index_round_trip(i as int, width);
    }
    let n = bytes.len();
    let w = width.bits_usize();
    let wb = width.bytes_usize();
    let q = i / w;
    let o = i % w;
    proof {
        lemma_mod_bound(i as int, w as int);
        vstd::arithmetic::div_mod::lemma_div_pos_is_pos(i as int, w as int);
        vstd::arithmetic::div_mod::lemma_div_pos_is_pos(
            w as int - 1 - (i as int % w as int), 8);
        assert((q as int) * (wb as int)
            + (w as int - 1 - i as int % w as int) / 8 == spec_byte_index(i as int, width));
        assert((q as int) * (wb as int) <= spec_byte_index(i as int, width));
    }
    let p = w - 1 - o;
    let hi = q * wb;
    let j = hi + p / 8;
    let b = p % 8;
    let byte = bytes[j];
    let mask = pow2_u8(b);
    proof {
        lemma_pow2_pos(b as nat);
        assert(j == spec_byte_index(i as int, width));
        assert(b == spec_bit_in_byte(i as int, width));
    }
    (byte / mask) % 2 == 1
}

/// Packs a boolean sequence into bytes: exactly the required footprint, with
/// all padding bits zero.
pub fn pack(bits: &[bool], width: WordWidth) -> (out: Vec<u8>)
    requires
        spec_fits(bits@.len(), width),
    ensures
        out@ == spec_packed(bits@, width),
{
    let total = required_bytes(bits.len(), width);
    let w = width.bits_usize();
    let wb = width.bytes_usize();
    proof {
        lemma_required_bytes_in_range(bits@.len(), width);
    }
    let mut out: Vec<u8> = Vec::new();
    let mut j: usize = 0;
    while j < total
        invariant
            j <= total,
            out@.len() == j,
            w == width.word_bits(),
            wb == width.word_bytes(),
            spec_fits(bits@.len(), width),
            total == spec_required_bytes(bits@.len(), width),
            forall|jj: int| 0 <= jj < j
                ==> out@[jj] == spec_packed_byte(bits@, width, jj) as u8,
        decreases total - j,
    {
        let word_index = j / wb;
        let byte_in_word = j % wb;
        proof {
            lemma_mod_bound(j as int, wb as int);
        }
        let mut byte: u8 = 0;
        let mut b: usize = 0;
        while b < 8
            invariant
                b <= 8,
                j < total,
                w == width.word_bits(),
                wb == width.word_bytes(),
                spec_fits(bits@.len(), width),
                total == spec_required_bytes(bits@.len(), width),
                word_index == j as int / wb as int,
                byte_in_word == j as int % wb as int,
                0 <= byte_in_word < wb,
                byte == spec_packed_byte_partial(bits@, width, j as int, b as nat),
            decreases 8 - b,
        {
            let pos = 8 * byte_in_word + b;
            proof {
                lemma_required_bytes_in_range(bits@.len(), width);
                assert(8 * spec_required_bytes(bits@.len(), width)
                    == ((bits@.len() + w - 1) / (w as int)) * (w as int));
                let nwords = (bits@.len() + w - 1) / (w as int);
                assert(word_index <= nwords - 1) by {
                    assert((nwords * wb - 1) / (wb as int) == nwords - 1) by {
                        lemma_fundamental_div_mod_converse_div(
                            nwords * wb - 1, wb as int, nwords - 1, wb - 1);
                        assert((nwords - 1) * wb + (wb - 1) == nwords * wb - 1) by {
                            lemma_mul_is_distributive_sub_other_way(wb as int, nwords, 1);
                        }
                    }
                    lemma_div_is_ordered(j as int, nwords * wb - 1, wb as int);
                    assert(total == nwords * wb);
                }
                assert(word_index * (w as int) <= (nwords - 1) * (w as int)) by {
                    lemma_mul_inequality(word_index as int, nwords - 1, w as int);
                }
                assert((nwords - 1) * (w as int) == nwords * (w as int) - w) by {
                    lemma_mul_is_distributive_sub_other_way(w as int, nwords, 1);
                }
                assert(nwords * (w as int) <= bits@.len() + w - 1);
                assert(word_index * w + (w - 1 - pos) < nwords * (w as int));
            }
            let i = word_index * w + (w - 1 - pos);
            proof {
                assert(i == spec_bit_index(j as int, b as int, width));
            }
            let set = i < bits.len() && bits[i];
            proof {
                assert(set == spec_bit_at(bits@, width, j as int, b as int));
                lemma_partial_bound(bits@, width, j as int, b as nat);
                lemma_partial_bound(bits@, width, j as int, (b + 1) as nat);
                lemma_pow2_unfold((b + 1) as nat);
                lemma2_to64();
            }
            if set {
                byte = byte + pow2_u8(b);
            }
            b = b + 1;
        }
        out.push(byte);
        j = j + 1;
    }
    proof {
        assert(out@ =~= spec_packed(bits@, width));
    }
    out
}

/// Unpacks `len` bits from a packed buffer, validating the buffer length
/// and, in strict mode, that every padding bit is zero.
pub fn unpack(bytes: &[u8], len: usize, width: WordWidth, mode: PaddingMode) -> (r: Result<
    Vec<bool>,
    DecodeError,
>)
    requires
        spec_fits(len as nat, width),
    ensures
        bytes@.len() != spec_required_bytes(len as nat, width)
            ==> r == Err::<Vec<bool>, DecodeError>(DecodeError::TruncatedBody),
        bytes@.len() == spec_required_bytes(len as nat, width) && mode == PaddingMode::Strict
            && !spec_padding_zero(bytes@, len as nat, width)
            ==> r == Err::<Vec<bool>, DecodeError>(DecodeError::NonZeroPadding),
        bytes@.len() == spec_required_bytes(len as nat, width) && (mode == PaddingMode::Lenient
            || spec_padding_zero(bytes@, len as nat, width))
            ==> (r matches Ok(v) && v@ == spec_unpacked(bytes@, len as nat, width)),
{
    let total = required_bytes(len, width);
    if bytes.len() != total {
        return Err(DecodeError::TruncatedBody);
    }
    proof {
        lemma_required_bytes_in_range(len as nat, width);
    }
    let strict = match mode {
        PaddingMode::Strict => true,
        PaddingMode::Lenient => false,
    };
    if strict {
        let total8 = 8 * total;
        let mut i: usize = len;
        proof {
            if len as int >= 8 * total {
                assert(spec_padding_zero(bytes@, len as nat, width));
            }
        }
        while i < total8
            invariant
                len <= i,
                i <= total8 || len as int >= total8,
                total8 == 8 * total,
                mode == PaddingMode::Strict,
                bytes@.len() == total,
                total == spec_required_bytes(len as nat, width),
                spec_fits(len as nat, width),
                forall|ii: int| len <= ii < i ==> !spec_extracted_bit(bytes@, width, ii),
            decreases total8 - i,
        {
            proof {
                lemma_byte_index_in_range(i as int, len as nat, width);
            }
            if extract_bit(bytes, i, width) {
                proof {
                    assert(!spec_padding_zero(bytes@, len as nat, width));
                }
                return Err(DecodeError::NonZeroPadding);
            }
            i = i + 1;
        }
        proof {
            assert(spec_padding_zero(bytes@, len as nat, width));
        }
    }
    let mut out: Vec<bool> = Vec::new();
    let mut i: usize = 0;
    while i < len
        invariant
            i <= len,
            out@.len() == i,
            bytes@.len() == total,
            total == spec_required_bytes(len as nat, width),
            spec_fits(len as nat, width),
            forall|ii: int| 0 <= ii < i ==> out@[ii] == spec_extracted_bit(bytes@, width, ii),
        decreases len - i,
    {
        proof {
            lemma_required_bytes_in_range(len as nat, width);
            lemma_byte_index_in_range(i as int, len as nat, width);
        }
        out.push(extract_bit(bytes, i, width));
        i = i + 1;
    }
    proof {
        assert(out@ =~= spec_unpacked(bytes@, len as nat, width));
    }
    Ok(out)
}

} // verus!
