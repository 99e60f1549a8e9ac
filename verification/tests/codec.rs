use litearrow::codec::boolean;
use litearrow::codec::float;
use litearrow::codec::integer;
use litearrow::codec::string;
use litearrow::codec::validity::{self, Validity};
use litearrow::codec::{fallback, get, specialized, CodecKind, ColumnType};
use litearrow::compression::Encoding;
use litearrow::Error;

fn bit(bitmap: &[u8], i: usize) -> bool {
    bitmap[i / 8] & (1 << (i % 8)) != 0
}

fn flags(validity: &Validity, length: usize) -> Vec<bool> {
    match validity {
        Validity::AllValid => vec![true; length],
        Validity::AllNull => vec![false; length],
        Validity::Bitmap(bitmap) => (0..length).map(|i| bit(bitmap, i)).collect(),
    }
}

#[test]
fn codec_ids_name_each_codec() {
    assert_eq!(
        specialized(),
        [CodecKind::Integer, CodecKind::Float, CodecKind::Boolean, CodecKind::String]
    );
    assert_eq!(fallback(), CodecKind::Ipc);
    assert_eq!(get(1), Some(CodecKind::Integer));
    assert_eq!(get(2), Some(CodecKind::Float));
    assert_eq!(get(3), Some(CodecKind::Boolean));
    assert_eq!(get(4), Some(CodecKind::String));
    assert_eq!(get(255), Some(CodecKind::Ipc));
    assert_eq!(get(0), None);
    assert_eq!(get(7), None);
    assert_eq!(CodecKind::Ipc.id(), 255);
}

#[test]
fn validity_bytes_for_each_mode() {
    let mut out = vec![9];
    validity::encode(&[true, true, true], &mut out);
    assert_eq!(out, vec![9, 0]);
    let mut out = Vec::new();
    validity::encode(&[false, false], &mut out);
    assert_eq!(out, vec![1]);
    let mut out = Vec::new();
    validity::encode(&[], &mut out);
    assert_eq!(out, vec![0]);
    let mut out = Vec::new();
    validity::encode(&[true, false, true, false, false, false, false, false, true], &mut out);
    assert_eq!(out, vec![2, 0b0000_0101, 0b0000_0001]);
}

#[test]
fn validity_round_trips_and_moves_past_itself() {
    let valid = [true, false, true, true, false];
    let mut bytes = vec![7, 7];
    validity::encode(&valid, &mut bytes);
    bytes.push(42);
    let mut at = 2;
    let decoded = validity::decode(&bytes, &mut at, valid.len()).unwrap();
    assert_eq!(decoded, Validity::Bitmap(vec![0b0000_1101]));
    assert_eq!(flags(&decoded, valid.len()), valid);
    assert_eq!(bytes[at], 42);
}

#[test]
fn validity_errors() {
    let mut at = 0;
    assert_eq!(validity::decode(&[], &mut at, 3), Err(Error::UnexpectedEndOfInput));
    let mut at = 0;
    assert_eq!(
        validity::decode(&[3], &mut at, 3),
        Err(Error::InvalidMetadata("invalid validity encoding"))
    );
    let mut at = 0;
    assert_eq!(validity::decode(&[2, 0xff], &mut at, 9), Err(Error::UnexpectedEndOfInput));
    let mut at = 0;
    assert_eq!(validity::decode(&[1], &mut at, 9), Ok(Validity::AllNull));
    assert_eq!(at, 1);
}

#[test]
fn integer_header_round_trips() {
    let encodings = [
        Encoding::Raw,
        Encoding::FrameOfReferenceBitPacked { minimum: -1, bit_width: 3 },
        Encoding::DeltaBitPacked { first_value: i64::MIN, bit_width: 64 },
        Encoding::DeltaOfDelta { first_value: 5, first_delta: -7, bit_width: 0 },
    ];
    for encoding in encodings {
        let mut out = Vec::new();
        integer::put_encoding(&mut out, encoding);
        let length = out.len();
        out.extend([1, 2, 3]);
        assert_eq!(integer::read_encoding(&out), Ok((encoding, length)));
    }
    let mut out = Vec::new();
    integer::put_encoding(&mut out, Encoding::FrameOfReferenceBitPacked { minimum: -1, bit_width: 3 });
    assert_eq!(out, vec![1, 0xff, 0xff, 0xff, 0xff, 0xff, 0xff, 0xff, 0xff, 3]);
}

#[test]
fn integer_header_errors() {
    assert_eq!(integer::read_encoding(&[]), Err(Error::UnexpectedEndOfInput));
    assert_eq!(integer::read_encoding(&[1, 0, 0]), Err(Error::UnexpectedEndOfInput));
    assert_eq!(integer::read_encoding(&[3; 17]), Err(Error::UnexpectedEndOfInput));
    assert_eq!(
        integer::read_encoding(&[9]),
        Err(Error::InvalidMetadata("invalid Int64 encoding"))
    );
    let mut wide = vec![1; 10];
    wide[9] = 65;
    assert!(!integer::header_decodable(&wide));
    wide[9] = 64;
    assert!(integer::header_decodable(&wide));
}

#[test]
fn null_rows_carry_the_previous_value() {
    assert_eq!(integer::carry_forward(&[3, 4, 5, 6], &[false, true, false, true]), vec![0, 4, 4, 6]);
}

#[test]
fn empty_integer_column_is_raw_and_all_valid() {
    let chunk = integer::encode(&[], &[]);
    assert_eq!(chunk, vec![0, 0]);
    assert_eq!(integer::decode(ColumnType::Int32, 0, &chunk), Ok((Validity::AllValid, vec![])));
}

#[test]
fn integer_column_round_trips_with_nulls() {
    let values = [5, 7, -100, 9, i64::MAX, i64::MIN];
    let valid = [true, true, false, true, true, true];
    let chunk = integer::encode(&values, &valid);
    let (validity, decoded) = integer::decode(ColumnType::Int64, values.len(), &chunk).unwrap();
    assert_eq!(flags(&validity, values.len()), valid);
    assert_eq!(decoded, vec![5, 7, 7, 9, i64::MAX, i64::MIN]);
}

#[test]
fn integer_column_of_timestamps_round_trips() {
    let values: Vec<i64> = (0..1_000).map(|row| 1_735_689_600_000 + row * 1_000).collect();
    let valid = vec![true; values.len()];
    let chunk = integer::encode(&values, &valid);
    assert_eq!(chunk[0], 3);
    assert!(chunk.len() < 100);
    let (validity, decoded) = integer::decode(ColumnType::UInt64, values.len(), &chunk).unwrap();
    assert_eq!(validity, Validity::AllValid);
    assert_eq!(decoded, values);
}

#[test]
fn integer_decode_errors() {
    let chunk = integer::encode(&[1, 2, 3], &[true; 3]);
    assert_eq!(
        integer::decode(ColumnType::Utf8, 3, &chunk),
        Err(Error::InvalidMetadata("integer codec used for another type"))
    );
    assert_eq!(
        integer::decode(ColumnType::Int8, 3, &[0, 0, 1, 2]),
        Err(Error::InvalidMetadata("invalid raw value length"))
    );
    assert_eq!(integer::decode(ColumnType::Int8, 3, &[0]), Err(Error::UnexpectedEndOfInput));
}

#[test]
fn constant_booleans_use_a_short_layout() {
    let values = vec![true; 1_000];
    let valid = vec![true; 1_000];
    let chunk = boolean::encode(&values, &valid);
    assert_ne!(chunk[0], 0);
    assert!(chunk.len() < 20);
    let (validity, bitmap) = boolean::decode(ColumnType::Boolean, 1_000, &chunk).unwrap();
    assert_eq!(validity, Validity::AllValid);
    assert!((0..1_000).all(|i| bit(&bitmap, i)));
}

#[test]
fn boolean_runs_encode_exactly() {
    let values = [true, true, true, true, true, true, true, true, true, true, true, true, true, true, true, true, true, true, true, true, true, true, true, true, true, true, true, true, true, true, true, true, true, true, true, true, true, true, true, true, false, false, false, false, false, false, false, false, false, false, false, false, false, false, false, false, false, false, false, false, false, false, false, false, false, false, false, false, false, false, false, false, false, false, false, false, false, false, false, false];
    let valid = [true; 80];
    let chunk = boolean::encode(&values, &valid);
    let (validity, bitmap) = boolean::decode(ColumnType::Boolean, 80, &chunk).unwrap();
    assert_eq!(validity, Validity::AllValid);
    assert!((0..80).all(|i| bit(&bitmap, i) == values[i]));
}

#[test]
fn boolean_column_round_trips_with_nulls() {
    let values = [true, false, true, false, true];
    let valid = [true, true, false, true, true];
    let chunk = boolean::encode(&values, &valid);
    assert_eq!(chunk, vec![0, 2, 0b0001_1011, 0b0001_0001]);
    let (validity, bitmap) = boolean::decode(ColumnType::Boolean, 5, &chunk).unwrap();
    assert_eq!(flags(&validity, 5), valid);
    assert_eq!(bitmap, vec![0b0001_0001]);
}

#[test]
fn boolean_decode_errors() {
    assert_eq!(
        boolean::decode(ColumnType::Int8, 1, &[0, 0, 1]),
        Err(Error::InvalidMetadata("boolean codec used for another type"))
    );
    assert_eq!(boolean::decode(ColumnType::Boolean, 1, &[]), Err(Error::UnexpectedEndOfInput));
    assert_eq!(
        boolean::decode(ColumnType::Boolean, 9, &[0, 0, 1]),
        Err(Error::InvalidMetadata("invalid boolean bitmap length"))
    );
    assert_eq!(
        boolean::decode(ColumnType::Boolean, 1, &[1, 0]),
        Err(Error::InvalidMetadata("missing RLE value"))
    );
    assert_eq!(
        boolean::decode(ColumnType::Boolean, 1, &[5, 0, 1]),
        Err(Error::InvalidMetadata("invalid boolean encoding"))
    );
}

fn float_bytes(values: &[f64]) -> Vec<u8> {
    values.iter().flat_map(|value| value.to_le_bytes()).collect()
}

#[test]
fn float_column_round_trips_with_nulls() {
    let values = [1.5_f64, -2.25, 0.0, 1e300, f64::NAN];
    let valid = [true, false, true, true, true];
    let data = float_bytes(&values);
    let chunk = float::encode(ColumnType::Float64, &data, &valid).unwrap();
    let (validity, decoded) = float::decode(ColumnType::Float64, values.len(), &chunk).unwrap();
    assert_eq!(flags(&validity, values.len()), valid);
    assert_eq!(decoded.len(), data.len());
    for i in (0..values.len()).filter(|&i| valid[i]) {
        assert_eq!(decoded[8 * i..8 * i + 8], data[8 * i..8 * i + 8]);
    }
    assert_eq!(decoded[8..16], data[0..8]);
}

#[test]
fn repeated_floats_use_xor() {
    let data: Vec<u8> = std::iter::repeat(2.5_f32.to_le_bytes()).take(100).flatten().collect();
    let valid = vec![true; 100];
    let chunk = float::encode(ColumnType::Float32, &data, &valid).unwrap();
    assert_eq!(chunk[0], 1);
    assert_eq!(chunk[1..5], 2.5_f32.to_le_bytes());
    assert_eq!(chunk[5], 0);
    let (_, decoded) = float::decode(ColumnType::Float32, 100, &chunk).unwrap();
    assert_eq!(decoded, data);
}

#[test]
fn half_floats_round_trip() {
    let data = vec![0x00, 0x3c, 0x00, 0xc0, 0xff, 0x7b];
    let chunk = float::encode(ColumnType::Float16, &data, &[true, true, true]).unwrap();
    let (_, decoded) = float::decode(ColumnType::Float16, 3, &chunk).unwrap();
    assert_eq!(decoded, data);
}

#[test]
fn float_codec_refuses_other_types() {
    assert_eq!(float::encode(ColumnType::Int64, &[0; 8], &[true]), None);
    assert_eq!(
        float::decode(ColumnType::Boolean, 1, &[0, 0]),
        Err(Error::InvalidMetadata("float codec used for another type"))
    );
    assert_eq!(
        float::decode(ColumnType::Float64, 1, &[]),
        Err(Error::InvalidMetadata("invalid float encoding"))
    );
    assert_eq!(
        float::decode(ColumnType::Float64, 1, &[2, 0]),
        Err(Error::InvalidMetadata("invalid float encoding"))
    );
    assert_eq!(float::decode(ColumnType::Float32, 1, &[1, 0, 0]), Err(Error::UnexpectedEndOfInput));
    assert_eq!(
        float::decode(ColumnType::Float64, 2, &[0, 0, 1, 2, 3]),
        Err(Error::InvalidMetadata("invalid raw float length"))
    );
    assert!(!float::check_header(ColumnType::Float16, &[1, 0, 0, 65]));
    assert!(float::check_header(ColumnType::Float16, &[1, 0, 0, 64]));
}

fn offsets(values: &[u64], width: usize) -> Vec<u8> {
    values.iter().flat_map(|value| value.to_le_bytes()[..width].to_vec()).collect()
}

#[test]
fn short_strings_are_stored_raw() {
    let chunk = string::encode(ColumnType::Utf8, &[b"ab".to_vec()], &[true]).unwrap();
    assert_eq!(chunk, vec![0, 0, 0, 0, 0, 0, 2, 0, 0, 0, b'a', b'b']);
}

#[test]
fn strings_round_trip_with_nulls() {
    let values = vec![b"alpha".to_vec(), b"ignored".to_vec(), b"alpha".to_vec(), b"beta".to_vec()];
    let valid = [true, false, true, true];
    for (column, width) in [(ColumnType::Utf8, 4), (ColumnType::LargeUtf8, 8)] {
        let chunk = string::encode(column, &values, &valid).unwrap();
        let (validity, decoded_offsets, data) = string::decode(column, 4, &chunk).unwrap();
        assert_eq!(flags(&validity, 4), valid);
        assert_eq!(decoded_offsets, offsets(&[0, 5, 5, 10, 14], width));
        assert_eq!(data, b"alphaalphabeta".to_vec());
    }
}

#[test]
fn repeated_strings_use_a_dictionary() {
    let values: Vec<Vec<u8>> = (0..100).map(|row| [b"a long value".to_vec(), b"another".to_vec()][row % 2].clone()).collect();
    let valid = vec![true; 100];
    let chunk = string::encode(ColumnType::LargeUtf8, &values, &valid).unwrap();
    assert_eq!(chunk[0], 1);
    assert_eq!(chunk[2..6], [2, 0, 0, 0]);
    let (_, decoded_offsets, data) = string::decode(ColumnType::LargeUtf8, 100, &chunk).unwrap();
    let mut expected_offsets = vec![0_u64];
    let mut expected_data = Vec::new();
    for value in &values {
        expected_data.extend(value);
        expected_offsets.push(expected_data.len() as u64);
    }
    assert_eq!(decoded_offsets, offsets(&expected_offsets, 8));
    assert_eq!(data, expected_data);
}

#[test]
fn string_decode_errors() {
    assert_eq!(
        string::encode(ColumnType::Boolean, &[], &[]),
        None
    );
    assert_eq!(
        string::decode(ColumnType::Int64, 1, &[0, 0]),
        Err(Error::InvalidMetadata("string codec used for another type"))
    );
    assert_eq!(string::decode(ColumnType::Utf8, 1, &[]), Err(Error::UnexpectedEndOfInput));
    assert_eq!(
        string::decode(ColumnType::Utf8, 1, &[2, 0]),
        Err(Error::InvalidMetadata("invalid string encoding"))
    );
    assert_eq!(
        string::decode(ColumnType::Utf8, 1, &[0, 0, 0, 0, 0, 0]),
        Err(Error::InvalidMetadata("invalid string offsets"))
    );
    assert_eq!(
        string::decode(ColumnType::Utf8, 1, &[0, 0, 0, 0, 0, 0, 3, 0, 0, 0, b'a']),
        Err(Error::InvalidMetadata("invalid string data length"))
    );
    assert_eq!(string::decode(ColumnType::Utf8, 1, &[1, 0, 1, 0]), Err(Error::UnexpectedEndOfInput));
    assert_eq!(
        string::decode(ColumnType::Utf8, 1, &[1, 0, 1, 0, 0, 0, 1, 0, 0, 0, 0, 0, 0, 0, b'x']),
        Err(Error::UnexpectedEndOfInput)
    );
    assert_eq!(
        string::decode(ColumnType::Utf8, 1, &[1, 0, 1, 0, 0, 0, 1, 0, 0, 0, 0, 0, 0, 0, b'x', 3, 0]),
        Err(Error::InvalidMetadata("invalid dictionary indices"))
    );
    assert_eq!(
        string::decode(ColumnType::Utf8, 1, &[1, 0, 1, 0, 0, 0, 1, 0, 0, 0, 0, 0, 0, 0, b'x', 1, 1]),
        Err(Error::InvalidMetadata("invalid dictionary index"))
    );
    assert_eq!(
        string::decode(ColumnType::Utf8, 2, &[1, 0, 1, 0, 0, 0, 1, 0, 0, 0, 0, 0, 0, 0, b'x', 1, 0, 0]),
        Ok((Validity::AllValid, offsets(&[0, 1, 2], 4), b"xx".to_vec()))
    );
    assert_eq!(
        string::decode(ColumnType::Utf8, usize::MAX, &[1, 0, 0, 0, 0, 0, 4]),
        Err(Error::IntegerOverflow)
    );
}
