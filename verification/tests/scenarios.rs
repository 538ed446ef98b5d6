use bitseq::codec::{decode, BitSequence};
use bitseq::compact::{compact_decode, compact_encode};
use bitseq::footprint::{required_bytes, required_bytes_test};
use bitseq::width::{DecodeError, PaddingMode, WordWidth};

#[test]
fn empty_sequence_encodes_to_one_zero_byte() {
    let s = BitSequence::new();
    let encoded = s.encode(WordWidth::W8);
    assert_eq!(encoded, vec![0x00]);
    let (decoded, consumed) = decode(&[0x00], WordWidth::W8, PaddingMode::Strict).unwrap();
    assert_eq!(consumed, 1);
    assert_eq!(decoded.len(), 0);
}

#[test]
fn single_true_bit_encodes_to_prefix_and_high_bit() {
    let mut s = BitSequence::new();
    s.push(true);
    let encoded = s.encode(WordWidth::W8);
    assert_eq!(encoded, vec![0x04, 0x80]);
}

#[test]
fn compact_prefix_size_classes() {
    assert_eq!(compact_encode(0), vec![0x00]);
    assert_eq!(compact_encode(1), vec![0x04]);
    assert_eq!(compact_encode(63), vec![0xFC]);
    assert_eq!(compact_encode(64), vec![0x01, 0x01]);
    assert_eq!(compact_encode(16383), vec![0xFD, 0xFF]);
    assert_eq!(compact_encode(16384), vec![0x02, 0x00, 0x01, 0x00]);
    assert_eq!(compact_encode(1073741823), vec![0xFE, 0xFF, 0xFF, 0xFF]);
    assert_eq!(
        compact_encode(1073741824),
        vec![0x03, 0x00, 0x00, 0x00, 0x40]
    );
}

#[test]
fn compact_prefix_roundtrip() {
    for &n in [
        0usize,
        1,
        63,
        64,
        65,
        16383,
        16384,
        1073741823,
        1073741824,
        usize::MAX,
    ]
    .iter()
    {
        let encoded = compact_encode(n);
        assert_eq!(compact_decode(&encoded), Ok((n, encoded.len())));
    }
}

#[test]
fn truncated_length_prefix_is_reported() {
    assert!(matches!(
        decode(&[], WordWidth::W8, PaddingMode::Strict),
        Err(DecodeError::TruncatedLengthPrefix)
    ));
    // Tag 01 announces two prefix bytes; only one is present.
    assert!(matches!(
        decode(&[0x01], WordWidth::W8, PaddingMode::Strict),
        Err(DecodeError::TruncatedLengthPrefix)
    ));
    // Tag 10 announces four prefix bytes.
    assert!(matches!(
        decode(&[0x02, 0x00], WordWidth::W16, PaddingMode::Lenient),
        Err(DecodeError::TruncatedLengthPrefix)
    ));
}

#[test]
fn truncated_body_is_reported() {
    // Prefix says 8 bits; the one body byte is missing.
    assert!(matches!(
        decode(&[0x20], WordWidth::W8, PaddingMode::Strict),
        Err(DecodeError::TruncatedBody)
    ));
    // Prefix says 1 bit under a 64-bit word: eight body bytes owed, one given.
    assert!(matches!(
        decode(&[0x04, 0x00], WordWidth::W64, PaddingMode::Lenient),
        Err(DecodeError::TruncatedBody)
    ));
}

#[test]
fn every_encoding_truncated_by_one_byte_fails() {
    let widths = [WordWidth::W8, WordWidth::W16, WordWidth::W32, WordWidth::W64];
    for &width in widths.iter() {
        for count in 0..70usize {
            let pattern: Vec<bool> = (0..count).map(|i| i % 3 == 1).collect();
            let encoded = BitSequence::from_bools(pattern).encode(width);
            let cut = &encoded[..encoded.len() - 1];
            let r = decode(cut, width, PaddingMode::Strict);
            assert!(matches!(
                r,
                Err(DecodeError::TruncatedBody) | Err(DecodeError::TruncatedLengthPrefix)
            ));
        }
    }
}

#[test]
fn nonzero_padding_strict_rejects_lenient_reads() {
    // One bit announced, but a padding bit of the body byte is set.
    let bytes = [0x04, 0xC0];
    assert!(matches!(
        decode(&bytes, WordWidth::W8, PaddingMode::Strict),
        Err(DecodeError::NonZeroPadding)
    ));
    let (decoded, consumed) = decode(&bytes, WordWidth::W8, PaddingMode::Lenient).unwrap();
    assert_eq!(consumed, 2);
    assert_eq!(decoded.len(), 1);
    assert!(decoded.get(0));
}

#[test]
fn length_overflow_is_reported() {
    // Eight value bytes of 0xFF: a bit count whose footprint cannot be
    // addressed.
    let mut bytes = vec![0x13];
    bytes.extend(std::iter::repeat(0xFF).take(8));
    assert!(matches!(
        decode(&bytes, WordWidth::W8, PaddingMode::Strict),
        Err(DecodeError::LengthOverflow)
    ));
    // Nine value bytes with the ninth non-zero: past any usize.
    let mut bytes = vec![0x17];
    bytes.extend(std::iter::repeat(0x00).take(8));
    bytes.push(0x01);
    assert!(matches!(
        decode(&bytes, WordWidth::W32, PaddingMode::Lenient),
        Err(DecodeError::LengthOverflow)
    ));
}

#[test]
fn trailing_bytes_stay_unconsumed() {
    // A caller composing a larger structure can keep parsing after the
    // consumed region.
    let bytes = [0x04, 0x80, 0xFF, 0x33];
    let (decoded, consumed) = decode(&bytes, WordWidth::W8, PaddingMode::Strict).unwrap();
    assert_eq!(consumed, 2);
    assert_eq!(decoded.len(), 1);
    assert!(decoded.get(0));
}

#[test]
fn canonical_encoding_ignores_buffer_history() {
    // The same three bits, built by appends and built by truncation.
    let mut by_push = BitSequence::new();
    by_push.push(true);
    by_push.push(false);
    by_push.push(true);
    let mut by_truncate =
        BitSequence::from_bools(vec![true, false, true, true, true, false, true]);
    by_truncate.truncate(3);
    let widths = [WordWidth::W8, WordWidth::W16, WordWidth::W32, WordWidth::W64];
    for &width in widths.iter() {
        assert_eq!(by_push.encode(width), by_truncate.encode(width));
    }
}

#[test]
fn width_changes_the_bytes() {
    // The same 9-bit pattern packed under widths 8 and 16: different body
    // bytes, and decoding the bytes of one width under the other never
    // returns the original content.
    let mut pattern = vec![true];
    pattern.extend(std::iter::repeat(false).take(8));
    let s = BitSequence::from_bools(pattern.clone());
    let enc8 = s.encode(WordWidth::W8);
    let enc16 = s.encode(WordWidth::W16);
    assert_eq!(enc8, vec![0x24, 0x80, 0x00]);
    assert_eq!(enc16, vec![0x24, 0x00, 0x80]);
    assert_ne!(enc8, enc16);

    let (cross, _) = decode(&enc8, WordWidth::W16, PaddingMode::Strict).unwrap();
    let cross_bits: Vec<bool> = (0..cross.len()).map(|i| cross.get(i)).collect();
    assert_ne!(cross_bits, pattern);

    let (cross, _) = decode(&enc16, WordWidth::W8, PaddingMode::Strict).unwrap();
    let cross_bits: Vec<bool> = (0..cross.len()).map(|i| cross.get(i)).collect();
    assert_ne!(cross_bits, pattern);
}

#[test]
fn footprint_formula() {
    required_bytes_test();
    assert_eq!(required_bytes(9, WordWidth::W16), 2);
    assert_eq!(required_bytes(129, WordWidth::W64), 24);
}

#[test]
fn footprint_monotonic_and_exact_at_multiples() {
    let widths = [
        (WordWidth::W8, 8usize),
        (WordWidth::W16, 16),
        (WordWidth::W32, 32),
        (WordWidth::W64, 64),
    ];
    for &(width, w) in widths.iter() {
        let mut prev = 0;
        for bits in 0..=(3 * w) {
            let r = required_bytes(bits, width);
            assert!(r >= prev);
            prev = r;
            if bits % w == 0 {
                assert_eq!(r, (bits / w) * (w / 8));
            }
        }
    }
}
