//! The word padding calculator: the exact byte footprint of a packed bit
//! sequence, `ceil(bits / word_bits) * word_bytes`. This value is both the
//! exact body length produced by encoding and the exact body length expected
//! by decoding.

use vstd::prelude::*;
use vstd::arithmetic::div_mod::{
    lemma_div_is_ordered, lemma_fundamental_div_mod, lemma_fundamental_div_mod_converse_div,
};
use vstd::arithmetic::mul::lemma_mul_inequality;

use crate::width::WordWidth;

verus! {

/// The number of bytes needed to store `bits` bits in words of the given
/// width: the bit count rounded up to whole words, in bytes.
pub open spec fn spec_required_bytes(bits: nat, width: WordWidth) -> nat {
    (((bits + width.word_bits() - 1) / (width.word_bits() as int))
        * (width.word_bytes() as int)) as nat
}

/// Whether a bit count is small enough for the byte footprint to be computed
/// without overflowing the addressable size. Bounding the sequence length so
/// that this holds is a caller obligation of encoding, not a codec-detected
/// error.
pub open spec fn spec_fits(bits: nat, width: WordWidth) -> bool {
    bits + width.word_bits() - 1 <= usize::MAX
}

/// The byte footprint never exceeds what the bit count itself needs plus one
/// partial word, so it stays within `usize` whenever `spec_fits` holds.
pub proof fn lemma_required_bytes_in_range(bits: nat, width: WordWidth)
    requires
        spec_fits(bits, width),
    ensures
        spec_required_bytes(bits, width) <= usize::MAX,
        8 * spec_required_bytes(bits, width) == ((bits + width.word_bits() - 1)
            / (width.word_bits() as int)) * (width.word_bits() as int),
        bits <= 8 * spec_required_bytes(bits, width),
        8 * spec_required_bytes(bits, width) <= bits + width.word_bits() - 1,
{
    let w = width.word_bits() as int;
    let wb = width.word_bytes() as int;
    let x = (bits + width.word_bits() - 1) as int;
    let q = x / w;
    lemma_fundamental_div_mod(x, w);
    assert(q * w <= x);
    vstd::arithmetic::div_mod::lemma_div_pos_is_pos(x, w);
    assert(0 <= q);
    assert(8 * (q * wb) == q * w && q * wb <= q * w) by (nonlinear_arith)
        requires
            w == 8 * wb,
            1 <= wb,
            0 <= q,
    ;
    assert(bits <= q * w) by {
        assert((q + 1) * w == q * w + w) by (nonlinear_arith);
        assert(x < (q + 1) * w);
    }
}

/// Calculates the bytes required to store the given amount of bits in words
/// of the given width.
pub fn required_bytes(bits: usize, width: WordWidth) -> (r: usize)
    requires
        spec_fits(bits as nat, width),
    ensures
        r == spec_required_bytes(bits as nat, width),
{
    let w = width.bits_usize();
    let wb = width.bytes_usize();
    let words = (bits + (w - 1)) / w;
    proof {
        lemma_required_bytes_in_range(bits as nat, width);
    }
    words * wb
}

/// The footprint is non-decreasing in the bit count for a fixed word width.
pub proof fn lemma_required_bytes_monotonic(bits1: nat, bits2: nat, width: WordWidth)
    requires
        bits1 <= bits2,
    ensures
        spec_required_bytes(bits1, width) <= spec_required_bytes(bits2, width),
{
    let w = width.word_bits() as int;
    let wb = width.word_bytes() as int;
    lemma_div_is_ordered((bits1 + w - 1) as int, (bits2 + w - 1) as int, w);
    lemma_mul_inequality((bits1 + w - 1) / w, (bits2 + w - 1) / w, wb);
}

/// At an exact multiple of the word width no padding word is added: the
/// footprint of `k` full words is exactly `k` words of bytes.
pub proof fn lemma_required_bytes_word_multiple(k: nat, width: WordWidth)
    ensures
        spec_required_bytes(k * width.word_bits(), width) == k * width.word_bytes(),
{
    let w = width.word_bits() as int;
    lemma_fundamental_div_mod_converse_div((k * w + w - 1) as int, w, k as int, w - 1);
}

/// Spot checks of the footprint at the boundaries of each word width.
pub fn required_bytes_test() {
    let r = required_bytes(0, WordWidth::W8);
    assert(r == 0);
    let r = required_bytes(1, WordWidth::W8);
    assert(r == 1);
    let r = required_bytes(7, WordWidth::W8);
    assert(r == 1);
    let r = required_bytes(8, WordWidth::W8);
    assert(r == 1);
    let r = required_bytes(9, WordWidth::W8);
    assert(r == 2);

    let r = required_bytes(0, WordWidth::W16);
    assert(r == 0);
    let r = required_bytes(1, WordWidth::W16);
    assert(r == 2);
    let r = required_bytes(15, WordWidth::W16);
    assert(r == 2);
    let r = required_bytes(16, WordWidth::W16);
    assert(r == 2);
    let r = required_bytes(17, WordWidth::W16);
    assert(r == 4);

    let r = required_bytes(0, WordWidth::W32);
    assert(r == 0) by {
        assert((0 + 32 - 1) / 32int == 0);
    }
    let r = required_bytes(1, WordWidth::W32);
    assert(r == 4);
    let r = required_bytes(31, WordWidth::W32);
    assert(r == 4);
    let r = required_bytes(32, WordWidth::W32);
    assert(r == 4);
    let r = required_bytes(33, WordWidth::W32);
    assert(r == 8);

    let r = required_bytes(0, WordWidth::W64);
    assert(r == 0) by {
        assert((0 + 64 - 1) / 64int == 0);
    }
    let r = required_bytes(1, WordWidth::W64);
    assert(r == 8);
    let r = required_bytes(63, WordWidth::W64);
    assert(r == 8);
    let r = required_bytes(64, WordWidth::W64);
    assert(r == 8);
    let r = required_bytes(65, WordWidth::W64);
    assert(r == 16);
}

} // verus!
