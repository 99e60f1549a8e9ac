use litearrow::codec::validity::Validity;
use litearrow::codec::{boolean, float, integer, string, CodecKind, ColumnType};
use litearrow::format::HEADER;
use litearrow::reader;
use litearrow::writer::WriterState;

/// Lays out blocks of (codec id, chunk bytes) as a file.
fn write_file(blocks: &[(usize, Vec<(u8, Vec<u8>)>)], fields: usize) -> Vec<u8> {
    let mut state = WriterState::new();
    let mut file = HEADER.to_vec();
    for (rows, chunks) in blocks {
        let mut placed = Vec::new();
        for (codec, bytes) in chunks {
            placed.push(state.place(*codec, bytes));
            file.extend(bytes);
        }
        state.push_block(*rows, placed).unwrap();
    }
    file.extend(state.finish(b"schema".to_vec(), fields).unwrap());
    file
}

/// Opens a file and returns a block's row count and its chunks.
fn read_block(file: &[u8], fields: usize, index: usize) -> (usize, Vec<(CodecKind, Vec<u8>)>) {
    let length = file.len() as u64;
    reader::check_file_length(length).unwrap();
    reader::check_header(file[..8].try_into().unwrap()).unwrap();
    let (footer_length, checksum) =
        litearrow::format::read_trailer(file[file.len() - 16..].try_into().unwrap()).unwrap();
    let offset = reader::footer_offset(length, footer_length).unwrap() as usize;
    let metadata = reader::read_footer(&file[offset..file.len() - 16], checksum).unwrap();
    reader::check_field_count(&metadata, fields).unwrap();
    let block = reader::block(&metadata, index).unwrap();
    let chunks = block
        .columns
        .iter()
        .map(|chunk| {
            let start = chunk.offset as usize;
            (
                reader::chunk_codec(chunk.codec).unwrap(),
                file[start..start + chunk.length as usize].to_vec(),
            )
        })
        .collect();
    (block.rows as usize, chunks)
}

fn valid_rows(validity: &Validity, length: usize) -> Vec<bool> {
    match validity {
        Validity::AllValid => vec![true; length],
        Validity::AllNull => vec![false; length],
        Validity::Bitmap(bitmap) => (0..length).map(|i| bitmap[i / 8] >> (i % 8) & 1 == 1).collect(),
    }
}

fn integers(values: &[Option<i64>]) -> (u8, Vec<u8>) {
    let valid: Vec<bool> = values.iter().map(Option::is_some).collect();
    let raw: Vec<i64> = values.iter().map(|value| value.unwrap_or(0)).collect();
    (CodecKind::Integer.id(), integer::encode(&raw, &valid))
}

fn decoded_integers(column: ColumnType, rows: usize, bytes: &[u8]) -> Vec<Option<i64>> {
    let (validity, values) = integer::decode(column, rows, bytes).unwrap();
    valid_rows(&validity, rows)
        .into_iter()
        .zip(values)
        .map(|(valid, value)| valid.then_some(value))
        .collect()
}

#[test]
fn arrow_roundtrip_multiple_nullable_arrow_batches_round_trip() {
    let batches = [
        (vec![Some(1), Some(2), Some(3)], vec![Some(10), None, Some(30)]),
        (vec![Some(4), Some(5)], vec![None, None]),
    ];
    let blocks: Vec<_> = batches
        .iter()
        .map(|(id, reading)| (id.len(), vec![integers(id), integers(reading)]))
        .collect();
    let file = write_file(&blocks, 2);
    for (index, (id, reading)) in batches.iter().enumerate() {
        let (rows, chunks) = read_block(&file, 2, index);
        assert_eq!(rows, id.len());
        assert_eq!(chunks[0].0, CodecKind::Integer);
        assert_eq!(&decoded_integers(ColumnType::Int64, rows, &chunks[0].1), id);
        assert_eq!(&decoded_integers(ColumnType::Int64, rows, &chunks[1].1), reading);
    }
}

fn strings(column: ColumnType, values: &[Option<&str>]) -> (u8, Vec<u8>) {
    let valid: Vec<bool> = values.iter().map(Option::is_some).collect();
    let bytes: Vec<Vec<u8>> =
        values.iter().map(|value| value.unwrap_or("").as_bytes().to_vec()).collect();
    (CodecKind::String.id(), string::encode(column, &bytes, &valid).unwrap())
}

fn decoded_strings(column: ColumnType, width: usize, rows: usize, bytes: &[u8]) -> Vec<Option<String>> {
    let (validity, offsets, data) = string::decode(column, rows, bytes).unwrap();
    let offset = |i: usize| {
        let mut word = [0; 8];
        word[..width].copy_from_slice(&offsets[width * i..width * i + width]);
        u64::from_le_bytes(word) as usize
    };
    valid_rows(&validity, rows)
        .into_iter()
        .enumerate()
        .map(|(i, valid)| {
            valid.then(|| String::from_utf8(data[offset(i)..offset(i + 1)].to_vec()).unwrap())
        })
        .collect()
}

#[test]
fn string_offsets_and_dictionaries_round_trip_natively() {
    let utf8 = [Some("alpha"), None, Some("alpha"), Some("beta")];
    let large = [Some("a long value"), Some("another"), Some("a long value"), Some("unique")];
    let file = write_file(
        &[(4, vec![strings(ColumnType::Utf8, &utf8), strings(ColumnType::LargeUtf8, &large)])],
        2,
    );
    let (rows, chunks) = read_block(&file, 2, 0);
    let expect = |values: &[Option<&str>]| -> Vec<Option<String>> {
        values.iter().map(|value| value.map(str::to_string)).collect()
    };
    assert_eq!(decoded_strings(ColumnType::Utf8, 4, rows, &chunks[0].1), expect(&utf8));
    assert_eq!(decoded_strings(ColumnType::LargeUtf8, 8, rows, &chunks[1].1), expect(&large));
}

fn booleans(values: &[Option<bool>]) -> (u8, Vec<u8>) {
    let valid: Vec<bool> = values.iter().map(Option::is_some).collect();
    let raw: Vec<bool> = values.iter().map(|value| value.unwrap_or(false)).collect();
    (CodecKind::Boolean.id(), boolean::encode(&raw, &valid))
}

fn decoded_booleans(rows: usize, bytes: &[u8]) -> Vec<Option<bool>> {
    let (validity, bitmap) = boolean::decode(ColumnType::Boolean, rows, bytes).unwrap();
    valid_rows(&validity, rows)
        .into_iter()
        .enumerate()
        .map(|(i, valid)| valid.then_some(bitmap[i / 8] >> (i % 8) & 1 == 1))
        .collect()
}

#[test]
fn boolean_bitpacking_and_runs_round_trip_natively() {
    let columns = [
        vec![Some(true); 5],
        vec![Some(true), Some(false), Some(true), Some(false), Some(true)],
        vec![Some(true), None, Some(false), None, Some(true)],
    ];
    let file = write_file(&[(5, columns.iter().map(|values| booleans(values)).collect())], 3);
    let (rows, chunks) = read_block(&file, 3, 0);
    for (values, (kind, bytes)) in columns.iter().zip(&chunks) {
        assert_eq!(*kind, CodecKind::Boolean);
        assert_eq!(&decoded_booleans(rows, bytes), values);
    }
}

#[test]
fn every_integer_type_round_trips_natively() {
    let columns = [
        (ColumnType::Int8, vec![i8::MIN as i64, 0, i8::MAX as i64]),
        (ColumnType::Int16, vec![i16::MIN as i64, 0, i16::MAX as i64]),
        (ColumnType::Int32, vec![i32::MIN as i64, 0, i32::MAX as i64]),
        (ColumnType::Int64, vec![i64::MIN, 0, i64::MAX]),
        (ColumnType::UInt8, vec![u8::MIN as i64, 1, u8::MAX as i64]),
        (ColumnType::UInt16, vec![u16::MIN as i64, 1, u16::MAX as i64]),
        (ColumnType::UInt32, vec![u32::MIN as i64, 1, u32::MAX as i64]),
        (ColumnType::UInt64, vec![u64::MIN as i64, 1, u64::MAX as i64]),
    ];
    let chunks: Vec<_> = columns
        .iter()
        .map(|(_, values)| integers(&values.iter().map(|&value| Some(value)).collect::<Vec<_>>()))
        .collect();
    let file = write_file(&[(3, chunks)], 8);
    let (rows, read) = read_block(&file, 8, 0);
    for ((column, values), (_, bytes)) in columns.iter().zip(&read) {
        let expected: Vec<Option<i64>> = values.iter().map(|&value| Some(value)).collect();
        assert_eq!(decoded_integers(*column, rows, bytes), expected);
    }
    assert_eq!(u64::MAX as i64 as u64, u64::MAX);
}

#[test]
fn every_float_type_round_trips_natively() {
    let half: Vec<u8> = [0xfbff_u16, 0x0000, 0x7bff].iter().flat_map(|bits| bits.to_le_bytes()).collect();
    let single: Vec<u8> = [f32::MIN, -0.0, f32::MAX].iter().flat_map(|value| value.to_le_bytes()).collect();
    let double: Vec<u8> = [f64::MIN, -0.0, f64::MAX].iter().flat_map(|value| value.to_le_bytes()).collect();
    let columns = [(ColumnType::Float16, half), (ColumnType::Float32, single), (ColumnType::Float64, double)];
    let chunks: Vec<_> = columns
        .iter()
        .map(|(column, data)| (CodecKind::Float.id(), float::encode(*column, data, &[true; 3]).unwrap()))
        .collect();
    let file = write_file(&[(3, chunks)], 3);
    let (rows, read) = read_block(&file, 3, 0);
    for ((column, data), (kind, bytes)) in columns.iter().zip(&read) {
        assert_eq!(*kind, CodecKind::Float);
        let (validity, values) = float::decode(*column, rows, bytes).unwrap();
        assert_eq!(validity, Validity::AllValid);
        assert_eq!(&values, data);
    }
}
