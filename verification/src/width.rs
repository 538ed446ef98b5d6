//! Per-call configuration of the codec: the storage word width, the padding
//! validation mode of decoding, and the decode error kinds.

use vstd::prelude::*;

verus! {

/// Width of the storage words that bits are packed into.
///
/// The width is fixed per encode/decode call pair; the wire format is not
/// self-describing with respect to it, so a decode must use the same width
/// as the encode that produced the bytes.
#[derive(Clone, Copy, Debug, PartialEq, Eq, Structural)]
pub enum WordWidth {
    W8,
    W16,
    W32,
    W64,
}

impl WordWidth {
    /// Number of bits in one storage word.
    pub open spec fn word_bits(self) -> nat {
        match self {
            WordWidth::W8 => 8,
            WordWidth::W16 => 16,
            WordWidth::W32 => 32,
            WordWidth::W64 => 64,
        }
    }

    /// Number of bytes in one storage word.
    pub open spec fn word_bytes(self) -> nat {
        match self {
            WordWidth::W8 => 1,
            WordWidth::W16 => 2,
            WordWidth::W32 => 4,
            WordWidth::W64 => 8,
        }
    }

    pub fn bits_usize(self) -> (r: usize)
        ensures
            r == self.word_bits(),
    {
        match self {
            WordWidth::W8 => 8,
            WordWidth::W16 => 16,
            WordWidth::W32 => 32,
            WordWidth::W64 => 64,
        }
    }

    pub fn bytes_usize(self) -> (r: usize)
        ensures
            r == self.word_bytes(),
    {
        match self {
            WordWidth::W8 => 1,
            WordWidth::W16 => 2,
            WordWidth::W32 => 4,
            WordWidth::W64 => 8,
        }
    }
}

/// Whether decoding rejects non-zero padding bits beyond the logical length.
///
/// Strict mode enforces the canonical encoding; lenient mode only reads the
/// meaningful bits. Either mode reconstructs the same logical content from a
/// canonical encoding.
#[derive(Clone, Copy, Debug, PartialEq, Eq, Structural)]
pub enum PaddingMode {
    Strict,
    Lenient,
}

/// Errors reported by decoding; encoding of a well-formed in-memory sequence
/// never fails.
#[derive(Clone, Copy, Debug, PartialEq, Eq, Structural)]
pub enum DecodeError {
    /// Fewer bytes are available than the selected length-prefix size class
    /// requires.
    TruncatedLengthPrefix,
    /// Fewer bytes are available than the packed body requires for the
    /// decoded bit count.
    TruncatedBody,
    /// In strict mode: a padding bit beyond the logical length is set.
    NonZeroPadding,
    /// The decoded bit count is too large for the byte footprint to be
    /// computed within the addressable size.
    LengthOverflow,
}

} // verus!
