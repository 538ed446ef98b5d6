use bitseq::codec::{decode, encode_slice, BitSequence, FixedBitSequence};
use bitseq::width::{PaddingMode, WordWidth};

fn fixtures() -> Vec<Vec<bool>> {
    let b = |v: &[u8]| -> Vec<bool> { v.iter().map(|&x| x != 0).collect() };
    vec![
        b(&[]),
        b(&[0]),
        b(&[1]),
        b(&[0, 0]),
        b(&[1, 0]),
        b(&[0, 1]),
        b(&[1, 1]),
        b(&[1, 0, 1]),
        b(&[0, 1, 0, 1, 0, 1, 1]),
        b(&[0, 1, 0, 1, 0, 1, 1, 0]),
        b(&[1, 1, 0, 1, 0, 1, 1, 0, 1]),
        b(&[1, 0, 1, 0, 1, 1, 0, 0, 1, 0, 1, 0, 1, 1, 0]),
        b(&[0, 1, 0, 1, 0, 1, 1, 0, 0, 1, 0, 1, 0, 1, 1, 0]),
        b(&[0, 1, 0, 1, 0, 1, 1, 0, 0, 1, 0, 1, 0, 1, 1, 0, 0]),
        vec![false; 15],
        vec![true; 16],
        vec![false; 17],
        vec![true; 31],
        vec![false; 32],
        vec![true; 33],
        vec![false; 63],
        vec![true; 64],
        vec![false; 65],
    ]
}

fn assert_content(s: &BitSequence, expected: &[bool]) {
    assert_eq!(s.len(), expected.len());
    for (i, &bit) in expected.iter().enumerate() {
        assert_eq!(s.get(i), bit);
    }
}

fn check_roundtrip(pattern: &[bool], width: WordWidth, mode: PaddingMode) {
    let owned = BitSequence::from_bools(pattern.to_vec());
    let encoded = owned.encode(width);
    let (decoded, consumed) = decode(&encoded, width, mode).unwrap();
    assert_eq!(consumed, encoded.len());
    assert_content(&decoded, pattern);
}

fn check_all(width: WordWidth) {
    for pattern in fixtures() {
        check_roundtrip(&pattern, width, PaddingMode::Strict);
        check_roundtrip(&pattern, width, PaddingMode::Lenient);
    }
}

#[test]
fn bitvec_u8() {
    check_all(WordWidth::W8);
}

#[test]
fn bitvec_u16() {
    check_all(WordWidth::W16);
}

#[test]
fn bitvec_u32() {
    check_all(WordWidth::W32);
}

#[test]
fn bitvec_u64() {
    check_all(WordWidth::W64);
}

#[test]
fn bitslice() {
    // The 8-bit pattern 01101001 viewed as a borrowed slice over byte 0x69.
    let slice = BitSequence::from_bytes(&[0x69]);
    let expected = [false, true, true, false, true, false, false, true];
    assert_content(&slice, &expected);
    let bools: Vec<bool> = expected.to_vec();
    let encoded = encode_slice(&bools, WordWidth::W8);
    let (decoded, consumed) = decode(&encoded, WordWidth::W8, PaddingMode::Strict).unwrap();
    assert_eq!(consumed, encoded.len());
    assert_content(&decoded, &expected);
}

#[test]
fn bitbox() {
    // A boxed fixed sequence built from the 16 bits of the bytes [5, 10].
    let boxed = FixedBitSequence::from_bytes(&[5, 10]);
    assert_eq!(boxed.len(), 16);
    let encoded = boxed.encode(WordWidth::W8);
    let (decoded, consumed) =
        FixedBitSequence::decode(&encoded, WordWidth::W8, PaddingMode::Strict).unwrap();
    assert_eq!(consumed, encoded.len());
    assert_eq!(decoded.len(), boxed.len());
    for i in 0..boxed.len() {
        assert_eq!(decoded.get(i), boxed.get(i));
    }
}

#[test]
fn roundtrip_sizes_and_patterns() {
    // Every listed bit count, with a mixed pattern, under every width.
    let counts = [0, 1, 2, 7, 8, 9, 15, 16, 17, 31, 32, 33, 63, 64, 65];
    let widths = [WordWidth::W8, WordWidth::W16, WordWidth::W32, WordWidth::W64];
    for &count in counts.iter() {
        let pattern: Vec<bool> = (0..count).map(|i| (i * 7 + 3) % 5 < 2).collect();
        for &width in widths.iter() {
            check_roundtrip(&pattern, width, PaddingMode::Strict);
            check_roundtrip(&pattern, width, PaddingMode::Lenient);
        }
    }
}

#[test]
fn ownership_transfers_keep_content() {
    let pattern = [true, false, true, true, false];
    let owned = BitSequence::from_bools(pattern.to_vec());
    let fixed = owned.into_fixed();
    assert_eq!(fixed.len(), 5);
    let back = fixed.into_growable();
    assert_content(&back, &pattern);
}
