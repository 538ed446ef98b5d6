//! A verified codec for bit sequences: an ordered sequence of booleans is
//! serialized as a compact variable-length bit-count prefix followed by the
//! bits packed most-significant-bit-first into fixed-width storage words,
//! each word written in little-endian byte order.

pub mod width;
pub mod footprint;
pub mod compact;
pub mod packer;
pub mod codec;
