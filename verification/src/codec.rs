//! The bit-sequence codec: `encode` is the compact length prefix followed by
//! the packed body, `decode` reverses it, validating lengths and reporting
//! how many bytes it consumed so callers composing larger structures can
//! continue parsing after the encoded sequence.

use vstd::prelude::*;
use vstd::slice::slice_subrange;

use crate::compact::{
    compact_decode, compact_encode, lemma_compact_round_trip, spec_compact_decode,
    spec_compact_encode,
};
use crate::footprint::{
    lemma_required_bytes_in_range, required_bytes, spec_fits, spec_required_bytes,
};
use crate::packer::{
    extract_bit, lemma_byte_index_in_range, lemma_pack_unpack, pack, spec_packed,
    spec_unpacked, spec_padding_zero, unpack,
};
use crate::width::{DecodeError, PaddingMode, WordWidth};

verus! {

/// The wire form of a boolean sequence: its length as a compact prefix, then
/// its bits packed into words.
pub open spec fn spec_encode(s: Seq<bool>, width: WordWidth) -> Seq<u8> {
    spec_compact_encode(s.len()) + spec_packed(s, width)
}

/// The result of decoding a buffer: the boolean sequence and the bytes
/// consumed, or the error. Bytes beyond the consumed region are ignored.
pub open spec fn spec_decode(bytes: Seq<u8>, width: WordWidth, mode: PaddingMode) -> Result<
    (Seq<bool>, nat),
    DecodeError,
> {
    match spec_compact_decode(bytes) {
        Err(e) => Err(e),
        Ok(p) => {
            let n = p.0;
            let c = p.1;
            if !spec_fits(n, width) {
                Err(DecodeError::LengthOverflow)
            } else {
                let body_len = spec_required_bytes(n, width);
                if bytes.len() < c + body_len {
                    Err(DecodeError::TruncatedBody)
                } else {
                    let body = bytes.subrange(c as int, (c + body_len) as int);
                    if mode == PaddingMode::Strict && !spec_padding_zero(body, n, width) {
                        Err(DecodeError::NonZeroPadding)
                    } else {
                        Ok((spec_unpacked(body, n, width), c + body_len))
                    }
                }
            }
        },
    }
}

/// Encodes the bits of a borrowed slice without copying them first.
pub fn encode_slice(bits: &[bool], width: WordWidth) -> (out: Vec<u8>)
    requires
        spec_fits(bits@.len(), width),
    ensures
        out@ == spec_encode(bits@, width),
{
    let mut out = compact_encode(bits.len());
    let mut body = pack(bits, width);
    out.append(&mut body);
    out
}

/// Decodes a bit sequence from the front of a buffer, returning it in the
/// owned growable form together with the total bytes consumed.
pub fn decode(bytes: &[u8], width: WordWidth, mode: PaddingMode) -> (r: Result<
    (BitSequence, usize),
    DecodeError,
>)
    ensures
        spec_decode(bytes@, width, mode) matches Ok(p) ==> r matches Ok(q) && q.0@ == p.0
            && q.1 == p.1,
        spec_decode(bytes@, width, mode) matches Err(e) ==> r matches Err(e2) && e2 == e,
{
    let n: usize;
    let consumed: usize;
    match compact_decode(bytes) {
        Err(e) => {
            return Err(e);
        },
        Ok(p) => {
            n = p.0;
            consumed = p.1;
        },
    }
    let w = width.bits_usize();
    if n > usize::MAX - (w - 1) {
        return Err(DecodeError::LengthOverflow);
    }
    let body_len = required_bytes(n, width);
    proof {
        crate::compact::lemma_compact_decode_consumed(bytes@);
    }
    if bytes.len() - consumed < body_len {
        return Err(DecodeError::TruncatedBody);
    }
    let body = slice_subrange(bytes, consumed, consumed + body_len);
    match unpack(body, n, width, mode) {
        Err(e) => Err(e),
        Ok(v) => Ok((BitSequence { bits: v }, consumed + body_len)),
    }
}

/// A bit sequence in its owned growable shape: it owns its backing storage
/// and may be extended or truncated. Its logical content is the sequence of
/// booleans it views to; the storage layout plays no role in equality of
/// content or in the wire form.
pub struct BitSequence {
    bits: Vec<bool>,
}

impl View for BitSequence {
    type V = Seq<bool>;

    closed spec fn view(&self) -> Seq<bool> {
        self.bits@
    }
}

impl BitSequence {
    /// The empty sequence.
    pub fn new() -> (r: BitSequence)
        ensures
            r@ == Seq::<bool>::empty(),
    {
        BitSequence { bits: Vec::new() }
    }

    /// Wraps a vector of booleans as a bit sequence.
    pub fn from_bools(bits: Vec<bool>) -> (r: BitSequence)
        ensures
            r@ == bits@,
    {
        BitSequence { bits }
    }

    /// Reads every bit of a byte slice, most significant bit of each byte
    /// first, as a bit sequence of eight bits per byte.
    pub fn from_bytes(bytes: &[u8]) -> (r: BitSequence)
        requires
            8 * bytes@.len() <= usize::MAX,
        ensures
            r@ == spec_unpacked(bytes@, (8 * bytes@.len()) as nat, WordWidth::W8),
    {
        let total = 8 * bytes.len();
        let mut out: Vec<bool> = Vec::new();
        let mut i: usize = 0;
        while i < total
            invariant
                i <= total,
                total == 8 * bytes@.len(),
                out@.len() == i,
                forall|ii: int| 0 <= ii < i
                    ==> out@[ii] == crate::packer::spec_extracted_bit(bytes@, WordWidth::W8, ii),
            decreases total - i,
        {
            proof {
                vstd::arithmetic::div_mod::lemma_multiply_divide_lt(
                    i as int, 8, bytes@.len() as int);
                vstd::arithmetic::div_mod::lemma_mod_bound(i as int, 8);
                vstd::arithmetic::div_mod::lemma_basic_div(7 - (i as int % 8), 8);
                assert(crate::packer::spec_byte_index(i as int, WordWidth::W8)
                    == i as int / 8);
            }
            out.push(extract_bit(bytes, i, WordWidth::W8));
            i = i + 1;
        }
        proof {
            assert(out@ =~= spec_unpacked(bytes@, (8 * bytes@.len()) as nat, WordWidth::W8));
        }
        BitSequence { bits: out }
    }

    /// The number of bits.
    pub fn len(&self) -> (r: usize)
        ensures
            r == self@.len(),
    {
        self.bits.len()
    }

    /// The bit at a position.
    pub fn get(&self, i: usize) -> (r: bool)
        requires
            i < self@.len(),
        ensures
            r == self@[i as int],
    {
        self.bits[i]
    }

    /// Appends a bit.
    pub fn push(&mut self, bit: bool)
        ensures
            final(self)@ == old(self)@.push(bit),
    {
        self.bits.push(bit);
    }

    /// Shortens the sequence to at most `len` bits, keeping the front.
    pub fn truncate(&mut self, len: usize)
        ensures
            len <= old(self)@.len() ==> final(self)@ == old(self)@.subrange(0, len as int),
            len > old(self)@.len() ==> final(self)@ == old(self)@,
    {
        self.bits.truncate(len);
    }

    /// Encodes the sequence into its wire form.
    pub fn encode(&self, width: WordWidth) -> (out: Vec<u8>)
        requires
            spec_fits(self@.len(), width),
        ensures
            out@ == spec_encode(self@, width),
    {
        encode_slice(self.bits.as_slice(), width)
    }

    /// Transfers ownership of the bit content into the fixed shape without
    /// copying it.
    pub fn into_fixed(self) -> (r: FixedBitSequence)
        ensures
            r@ == self@,
    {
        FixedBitSequence { bits: self.bits }
    }
}

/// A bit sequence in its boxed fixed shape: it owns its backing storage
/// immutably for its lifetime and offers no mutation. It encodes and decodes
/// over exactly the same wire format as the growable shape.
pub struct FixedBitSequence {
    bits: Vec<bool>,
}

impl View for FixedBitSequence {
    type V = Seq<bool>;

    closed spec fn view(&self) -> Seq<bool> {
        self.bits@
    }
}

impl FixedBitSequence {
    /// Reads every bit of a byte slice, most significant bit of each byte
    /// first, as a fixed bit sequence of eight bits per byte.
    pub fn from_bytes(bytes: &[u8]) -> (r: FixedBitSequence)
        requires
            8 * bytes@.len() <= usize::MAX,
        ensures
            r@ == spec_unpacked(bytes@, (8 * bytes@.len()) as nat, WordWidth::W8),
    {
        BitSequence::from_bytes(bytes).into_fixed()
    }

    /// The number of bits.
    pub fn len(&self) -> (r: usize)
        ensures
            r == self@.len(),
    {
        self.bits.len()
    }

    /// The bit at a position.
    pub fn get(&self, i: usize) -> (r: bool)
        requires
            i < self@.len(),
        ensures
            r == self@[i as int],
    {
        self.bits[i]
    }

    /// Encodes the sequence into its wire form.
    pub fn encode(&self, width: WordWidth) -> (out: Vec<u8>)
        requires
            spec_fits(self@.len(), width),
        ensures
            out@ == spec_encode(self@, width),
    {
        encode_slice(self.bits.as_slice(), width)
    }

    /// Decodes a bit sequence and takes ownership of it in the fixed shape.
    pub fn decode(bytes: &[u8], width: WordWidth, mode: PaddingMode) -> (r: Result<
        (FixedBitSequence, usize),
        DecodeError,
    >)
        ensures
            spec_decode(bytes@, width, mode) matches Ok(p) ==> r matches Ok(q) && q.0@ == p.0
                && q.1 == p.1,
            spec_decode(bytes@, width, mode) matches Err(e) ==> r matches Err(e2) && e2 == e,
    {
        match decode(bytes, width, mode) {
            Err(e) => Err(e),
            Ok(p) => Ok((p.0.into_fixed(), p.1)),
        }
    }

    /// Transfers ownership of the bit content into the growable shape
    /// without copying it.
    pub fn into_growable(self) -> (r: BitSequence)
        ensures
            r@ == self@,
    {
        BitSequence { bits: self.bits }
    }
}

/// Round trip: decoding an encoding, under the same word width and either
/// padding mode, yields the original sequence and consumes the whole
/// encoding.
pub proof fn lemma_round_trip(s: Seq<bool>, width: WordWidth, mode: PaddingMode)
    requires
        spec_fits(s.len(), width),
    ensures
        spec_decode(spec_encode(s, width), width, mode) matches Ok(p) && p.0 == s
            && p.1 == spec_encode(s, width).len(),
{
    let prefix = spec_compact_encode(s.len());
    let body = spec_packed(s, width);
    let enc = spec_encode(s, width);
    lemma_compact_round_trip(s.len(), body);
    lemma_required_bytes_in_range(s.len(), width);
    let c = prefix.len();
    let body_len = spec_required_bytes(s.len(), width);
    assert(body.len() == body_len);
    assert(enc.len() == c + body_len);
    assert(enc.subrange(c as int, (c + body_len) as int) =~= body);
    lemma_pack_unpack(s, width);
    assert(spec_unpacked(body, s.len(), width) =~= s);
}

/// Canonical determinism: two sequences with the same logical content have
/// byte-identical encodings, regardless of how either backing buffer was
/// built.
pub proof fn lemma_canonical_encoding(a: BitSequence, b: BitSequence, width: WordWidth)
    requires
        a@ == b@,
    ensures
        spec_encode(a@, width) == spec_encode(b@, width),
{
}

/// Width sensitivity, shown on 9-bit patterns across widths 8 and 16:
/// decoding bytes packed under one of the two widths using the other either
/// fails validation or yields different content. The excluded patterns are
/// the ones whose cross-width reading coincides with them: first and last
/// bit equal, every bit between them zero.
pub proof fn lemma_cross_width_nine_bits(s: Seq<bool>, mode: PaddingMode)
    requires
        s.len() == 9,
        !(s[0] == s[8] && (forall|i: int| 1 <= i < 8 ==> !s[i])),
    ensures
        spec_decode(spec_encode(s, WordWidth::W8), WordWidth::W16, mode) matches Ok(p)
            ==> p.0 != s,
        spec_decode(spec_encode(s, WordWidth::W16), WordWidth::W8, mode) matches Ok(p)
            ==> p.0 != s,
{
    let w8 = WordWidth::W8;
    let w16 = WordWidth::W16;
    lemma_cross_width_nine_bits_one(s, mode, w8, w16);
    lemma_cross_width_nine_bits_one(s, mode, w16, w8);
}

/// One direction of the width-sensitivity argument: bits packed under
/// `enc_w` read back under `dec_w` (8 and 16 in either order) move the first
/// and last bit past each other and drop the bits between them.
proof fn lemma_cross_width_nine_bits_one(
    s: Seq<bool>,
    mode: PaddingMode,
    enc_w: WordWidth,
    dec_w: WordWidth,
)
    requires
        s.len() == 9,
        !(s[0] == s[8] && (forall|i: int| 1 <= i < 8 ==> !s[i])),
        enc_w == WordWidth::W8 && dec_w == WordWidth::W16 || enc_w == WordWidth::W16
            && dec_w == WordWidth::W8,
    ensures
        spec_decode(spec_encode(s, enc_w), dec_w, mode) matches Ok(p) ==> p.0 != s,
{
    let body = spec_packed(s, enc_w);
    let enc = spec_encode(s, enc_w);
    lemma_compact_round_trip(9, body);
    assert(spec_compact_encode(9) =~= seq![36u8]);
    assert(spec_required_bytes(9, enc_w) == 2) by {
        assert((9 + 8 - 1) / 8int == 2);
        assert((9 + 16 - 1) / 16int == 1);
    }
    assert(spec_required_bytes(9, dec_w) == 2) by {
        assert((9 + 8 - 1) / 8int == 2);
        assert((9 + 16 - 1) / 16int == 1);
    }
    assert(body.len() == 2);
    assert(enc.len() == 3);
    assert(spec_compact_decode(enc) == Ok::<(nat, nat), DecodeError>((9, 1)));
    let bodyr = enc.subrange(1, 3);
    assert(bodyr =~= body);
    let r = spec_decode(enc, dec_w, mode);
    if r is Ok {
        let d = spec_unpacked(body, 9, dec_w);
        assert(r matches Ok(p) && p.0 == d);
        assert forall|i: int| 0 <= i < 9 implies #[trigger] d[i] == crate::packer::spec_bit_at(
            s,
            enc_w,
            crate::packer::spec_byte_index(i, dec_w),
            crate::packer::spec_bit_in_byte(i, dec_w),
        ) by {
            lemma_byte_index_in_range(i, 9, dec_w);
            crate::packer::lemma_index_round_trip(i, dec_w);
            let j = crate::packer::spec_byte_index(i, dec_w);
            let b = crate::packer::spec_bit_in_byte(i, dec_w);
            crate::packer::lemma_packed_byte_extract(s, enc_w, j, b as nat);
            assert(body[j] == crate::packer::spec_packed_byte(s, enc_w, j) as u8);
        }
        if s[0] != s[8] {
            assert(d[0] == s[8]) by {
                if dec_w == WordWidth::W16 {
                    assert(crate::packer::spec_byte_index(0, WordWidth::W16) == 1
                        && crate::packer::spec_bit_in_byte(0, WordWidth::W16) == 7) by {
                        assert(0int / 16 == 0 && 0int % 16 == 0);
                        assert(15int / 8 == 1 && 15int % 8 == 7);
                    }
                    assert(crate::packer::spec_bit_index(1, 7, WordWidth::W8) == 8) by {
                        assert(1int / 1 == 1 && 1int % 1 == 0);
                    }
                } else {
                    assert(crate::packer::spec_byte_index(0, WordWidth::W8) == 0
                        && crate::packer::spec_bit_in_byte(0, WordWidth::W8) == 7) by {
                        assert(0int / 8 == 0 && 0int % 8 == 0);
                        assert(7int / 8 == 0 && 7int % 8 == 7);
                    }
                    assert(crate::packer::spec_bit_index(0, 7, WordWidth::W16) == 8) by {
                        assert(0int / 2 == 0 && 0int % 2 == 0);
                    }
                }
            }
            assert(d[0] != s[0]);
            assert(d != s);
        } else {
            let m = choose|m: int| 1 <= m < 8 && s[m];
            assert(1 <= m < 8 && s[m]);
            assert(!d[m]) by {
                if dec_w == WordWidth::W16 {
                    assert(crate::packer::spec_byte_index(m, WordWidth::W16) == 1
                        && crate::packer::spec_bit_in_byte(m, WordWidth::W16) == 7 - m) by {
                        vstd::arithmetic::div_mod::lemma_basic_div(m, 16);
                        vstd::arithmetic::div_mod::lemma_small_mod(m as nat, 16);
                        vstd::arithmetic::div_mod::lemma_fundamental_div_mod_converse(
                            15 - m, 8, 1, 7 - m);
                    }
                    assert(crate::packer::spec_bit_index(1, 7 - m, WordWidth::W8) == 8 + m) by {
                        assert(1int / 1 == 1 && 1int % 1 == 0);
                    }
                } else {
                    assert(crate::packer::spec_byte_index(m, WordWidth::W8) == 0
                        && crate::packer::spec_bit_in_byte(m, WordWidth::W8) == 7 - m) by {
                        vstd::arithmetic::div_mod::lemma_basic_div(m, 8);
                        vstd::arithmetic::div_mod::lemma_small_mod(m as nat, 8);
                        vstd::arithmetic::div_mod::lemma_basic_div(7 - m, 8);
                        vstd::arithmetic::div_mod::lemma_small_mod((7 - m) as nat, 8);
                    }
                    assert(crate::packer::spec_bit_index(0, 7 - m, WordWidth::W16) == 8 + m) by {
                        assert(0int / 2 == 0 && 0int % 2 == 0);
                    }
                }
            }
            assert(d[m] != s[m]);
            assert(d != s);
        }
    }
}

/// Truncation safety: removing the final byte of any encoding makes decoding
/// fail with a truncation error, under either padding mode.
pub proof fn lemma_truncation_detected(s: Seq<bool>, width: WordWidth, mode: PaddingMode)
    requires
        spec_fits(s.len(), width),
    ensures
        ({
            let enc = spec_encode(s, width);
            let r = spec_decode(enc.take(enc.len() - 1), width, mode);
            r == Err::<(Seq<bool>, nat), DecodeError>(DecodeError::TruncatedBody)
                || r == Err::<(Seq<bool>, nat), DecodeError>(DecodeError::TruncatedLengthPrefix)
        }),
{
    let prefix = spec_compact_encode(s.len());
    let body = spec_packed(s, width);
    let enc = spec_encode(s, width);
    lemma_required_bytes_in_range(s.len(), width);
    if s.len() == 0 {
        assert(prefix =~= seq![0u8]);
        assert(body.len() == 0);
        assert(enc.take(enc.len() - 1) =~= Seq::<u8>::empty());
    } else {
        let w = width.word_bits() as int;
        let nwords = (s.len() + w - 1) / w;
        assert(body.len() >= 1) by {
            assert(nwords >= 1) by {
                vstd::arithmetic::div_mod::lemma_div_is_ordered(
                    w, s.len() + w - 1, w);
                vstd::arithmetic::div_mod::lemma_div_by_self(w);
            }
            assert(spec_required_bytes(s.len(), width) == nwords * (width.word_bytes() as int));
            vstd::arithmetic::mul::lemma_mul_inequality(1, nwords, width.word_bytes() as int);
        }
        let cut = body.take(body.len() - 1);
        assert(enc.take(enc.len() - 1) =~= prefix + cut);
        lemma_compact_round_trip(s.len(), cut);
        assert((prefix + cut).len() < prefix.len() + spec_required_bytes(s.len(), width));
    }
}

} // verus!