use litearrow::compression::xor;
use litearrow::compression::{bca, decode, encode, pack, packed_length, rle, unpack, Encoding, Error};

#[test]
fn runs_encode_exactly() {
    assert_eq!(rle::encode(&[0b0000_0111], 5), vec![1, 3, 0, 0, 0, 2, 0, 0, 0]);
    assert_eq!(rle::encode(&[0b0000_0000], 3), vec![0, 3, 0, 0, 0]);
    assert_eq!(rle::encode(&[], 0), Vec::<u8>::new());
    assert_eq!(rle::decode(&[1, 3, 0, 0, 0, 2, 0, 0, 0], 5), Ok(vec![0b0000_0111]));
}

#[test]
fn runs_round_trip() {
    let bits = [0b1010_1100_u8, 0xff, 0x00, 0b0000_0001];
    for count in 1..=32 {
        let encoded = rle::encode(&bits, count);
        let decoded = rle::decode(&encoded, count).unwrap();
        for i in 0..count {
            assert_eq!(decoded[i / 8] >> (i % 8) & 1, bits[i / 8] >> (i % 8) & 1);
        }
    }
}

#[test]
fn run_errors() {
    assert_eq!(rle::decode(&[], 1), Err(Error("missing RLE value")));
    assert_eq!(rle::decode(&[2], 1), Err(Error("invalid boolean RLE")));
    assert_eq!(rle::decode(&[1, 0, 0], 1), Err(Error("invalid boolean RLE")));
    assert_eq!(rle::decode(&[1, 9, 0, 0, 0], 5), Err(Error("invalid boolean run")));
    assert_eq!(rle::decode(&[1, 3, 0, 0, 0], 5), Err(Error("boolean runs do not fill column")));
}

#[test]
fn blocks_encode_exactly() {
    assert_eq!(bca::encode(&[0xff, 0x01], 9), vec![0xf2]);
    assert_eq!(bca::encode(&[0b0000_0101], 3), vec![0b0000_0101]);
    assert_eq!(bca::decode(&[0xf2], 9), Ok(vec![0xff, 0x01]));
}

#[test]
fn blocks_round_trip() {
    let bits = [0b1011_0110_u8, 0b1101_1011, 0b0110_1101, 0x00, 0xff];
    for count in 0..=40 {
        let encoded = bca::encode(&bits, count);
        let decoded = bca::decode(&encoded, count).unwrap();
        assert_eq!(decoded.len(), count.div_ceil(8));
        for i in 0..count {
            assert_eq!(decoded[i / 8] >> (i % 8) & 1, bits[i / 8] >> (i % 8) & 1);
        }
    }
}

#[test]
fn block_errors() {
    assert_eq!(bca::decode(&[0, 0], 7), Err(Error("extra BCA block")));
    assert_eq!(bca::decode(&[0x80], 2), Err(Error("BCA block exceeds column")));
    assert_eq!(bca::decode(&[], 3), Err(Error("BCA blocks do not fill column")));
}

#[test]
fn constant_words_use_xor() {
    let (encoding, bytes) = xor::encode(&[5, 5, 5, 5], 8);
    assert_eq!(encoding, xor::Encoding::Xor { first: 5, bit_width: 0 });
    assert!(bytes.is_empty());
    assert_eq!(xor::decode(encoding, &bytes, 4, 8), Ok(vec![5, 5, 5, 5]));
}

#[test]
fn varied_words_stay_raw() {
    let values = [0x1234_u64, 0xfedc, 0x0001];
    let (encoding, bytes) = xor::encode(&values, 2);
    assert_eq!(encoding, xor::Encoding::Raw);
    assert_eq!(bytes, vec![0x34, 0x12, 0xdc, 0xfe, 0x01, 0x00]);
    assert_eq!(xor::decode(encoding, &bytes, 3, 2), Ok(values.to_vec()));
}

#[test]
fn xor_errors() {
    assert_eq!(
        xor::decode(xor::Encoding::Raw, &[1, 2], 1, 8),
        Err(Error("invalid raw float length"))
    );
    assert_eq!(
        xor::decode(xor::Encoding::Xor { first: 0, bit_width: 8 }, &[], 3, 8),
        Err(Error("invalid XOR float length"))
    );
}

#[test]
fn packing_lengths() {
    assert_eq!(packed_length(3, 5), 2);
    assert_eq!(packed_length(0, 64), 0);
    assert_eq!(packed_length(usize::MAX, 2), usize::MAX / 8 + 1);
    assert_eq!(pack(&[1, 2, 3], 2), vec![0b0011_1001]);
    assert_eq!(unpack(&[0b0011_1001], 3, 2), vec![1, 2, 3]);
    assert_eq!(unpack(&[], 2, 8), vec![0, 0]);
}

#[test]
fn each_algorithm_decodes() {
    assert_eq!(decode(Encoding::Raw, &[1, 0, 0, 0, 0, 0, 0, 0], 1), Ok(vec![1]));
    assert_eq!(
        decode(Encoding::FrameOfReferenceBitPacked { minimum: -5, bit_width: 2 }, &[0b0011_1001], 3),
        Ok(vec![-4, -3, -2])
    );
    assert_eq!(
        decode(Encoding::DeltaBitPacked { first_value: 10, bit_width: 2 }, &[0b0000_0101], 3),
        Ok(vec![10, 9, 8])
    );
    assert_eq!(
        decode(Encoding::DeltaOfDelta { first_value: 1, first_delta: 2, bit_width: 2 }, &[0b0000_0010], 3),
        Ok(vec![1, 3, 6])
    );
}

#[test]
fn algorithm_errors() {
    assert_eq!(decode(Encoding::Raw, &[0; 7], 1), Err(Error("invalid raw value length")));
    assert_eq!(
        decode(Encoding::FrameOfReferenceBitPacked { minimum: i64::MAX, bit_width: 8 }, &[1], 1),
        Err(Error("frame-of-reference value overflow"))
    );
    assert_eq!(
        decode(Encoding::DeltaBitPacked { first_value: i64::MAX, bit_width: 2 }, &[0b10], 2),
        Err(Error("delta value overflow"))
    );
    assert_eq!(
        decode(Encoding::DeltaOfDelta { first_value: i64::MAX, first_delta: 1, bit_width: 0 }, &[], 2),
        Err(Error("delta-of-delta value overflow"))
    );
    assert_eq!(
        decode(Encoding::DeltaOfDelta { first_value: 0, first_delta: i64::MAX, bit_width: 2 }, &[0b10], 3),
        Err(Error("delta-of-delta overflow"))
    );
}

#[test]
fn selector_picks_the_smallest_and_the_earliest_on_ties() {
    let (encoding, bytes) = encode(&[]).unwrap();
    assert_eq!(encoding, Encoding::Raw);
    assert!(bytes.is_empty());
    let (encoding, bytes) = encode(&[42]).unwrap();
    assert_eq!(encoding, Encoding::FrameOfReferenceBitPacked { minimum: 42, bit_width: 0 });
    assert!(bytes.is_empty());
    let mut values = vec![0_i64];
    for row in 1..64 {
        values.push(values[row - 1] + if row % 2 == 1 { 1 } else { 3 });
    }
    let (encoding, _) = encode(&values).unwrap();
    assert!(matches!(encoding, Encoding::DeltaBitPacked { bit_width: 3, .. }));
}

#[test]
fn packing_keeps_its_length_for_any_values() {
    assert_eq!(pack(&[255, 1], 2).len(), 1);
    assert_eq!(pack(&[u64::MAX, u64::MAX, 7], 3).len(), 2);
    assert!(pack(&[5, 6], 0).is_empty());
    assert_eq!(pack(&[u64::MAX; 3], 64).len(), 24);
}
