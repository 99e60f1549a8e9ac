use litearrow::codec::CodecKind;
use litearrow::format::{Block, Chunk, Metadata, HEADER, MAGIC, TRAILER_LENGTH};
use litearrow::reader;
use litearrow::writer::{shortest, ColumnEncodings, WriterState};
use litearrow::{crc32c, Error};

fn sample() -> Metadata {
    Metadata {
        schema: b"schema".to_vec(),
        field_count: 2,
        blocks: vec![
            Block {
                rows: 3,
                columns: vec![
                    Chunk { codec: 1, offset: 8, length: 5 },
                    Chunk { codec: 255, offset: 13, length: 7 },
                ],
            },
            Block {
                rows: 1,
                columns: vec![
                    Chunk { codec: 4, offset: 20, length: 2 },
                    Chunk { codec: 3, offset: 22, length: 1 },
                ],
            },
        ],
    }
}

fn end_of_buffer() -> Error {
    Error::Io("failed to fill whole buffer".to_string())
}

#[test]
fn footer_layout_is_little_endian() {
    let metadata = Metadata {
        schema: vec![7],
        field_count: 1,
        blocks: vec![Block { rows: 2, columns: vec![Chunk { codec: 1, offset: 8, length: 3 }] }],
    };
    let bytes = litearrow::format::encode(&metadata).unwrap();
    assert_eq!(
        bytes,
        vec![
            1, 0, 0, 0, 7, 1, 0, 0, 0, 1, 0, 0, 0, 2, 0, 0, 0, 1, 8, 0, 0, 0, 0, 0, 0, 0, 3, 0, 0,
            0, 0, 0, 0, 0,
        ]
    );
}

#[test]
fn footer_round_trips() {
    let metadata = sample();
    let bytes = litearrow::format::encode(&metadata).unwrap();
    assert_eq!(litearrow::format::decode(&bytes), Ok(metadata));
}

#[test]
fn footer_errors() {
    let bytes = litearrow::format::encode(&sample()).unwrap();
    for cut in [0, 3, 5, 12, bytes.len() - 1] {
        assert_eq!(litearrow::format::decode(&bytes[..cut]), Err(end_of_buffer()));
    }
    let mut longer = bytes.clone();
    longer.push(0);
    assert_eq!(
        litearrow::format::decode(&longer),
        Err(Error::InvalidMetadata("trailing footer bytes"))
    );
}

#[test]
fn trailer_round_trips() {
    let footer = litearrow::format::encode(&sample()).unwrap();
    let trailer = litearrow::format::trailer(&footer);
    assert_eq!(trailer.len() as u64, TRAILER_LENGTH);
    assert_eq!(trailer[12..], MAGIC);
    assert_eq!(litearrow::format::read_trailer(trailer), Ok((footer.len() as u64, crc32c(&footer))));
    let mut broken = trailer;
    broken[15] = 0;
    assert_eq!(
        litearrow::format::read_trailer(broken),
        Err(Error::InvalidMagic { structure: "trailer" })
    );
}

#[test]
fn reader_checks_length_and_header() {
    assert_eq!(reader::check_file_length(23), Err(Error::UnexpectedEndOfInput));
    assert_eq!(reader::check_file_length(24), Ok(()));
    assert_eq!(reader::check_header(HEADER), Ok(()));
    let mut other = HEADER;
    other[4] = 2;
    assert_eq!(
        reader::check_header(other),
        Err(Error::InvalidMagic { structure: "header" })
    );
}

#[test]
fn reader_places_the_footer() {
    assert_eq!(reader::footer_offset(100, 76), Ok(8));
    assert_eq!(reader::footer_offset(100, 0), Ok(84));
    assert_eq!(
        reader::footer_offset(100, 77),
        Err(Error::InvalidMetadata("footer length exceeds file"))
    );
}

#[test]
fn reader_checks_the_footer_checksum() {
    let footer = litearrow::format::encode(&sample()).unwrap();
    let checksum = crc32c(&footer);
    assert_eq!(reader::read_footer(&footer, checksum), Ok(sample()));
    assert_eq!(
        reader::read_footer(&footer, checksum ^ 1),
        Err(Error::ChecksumMismatch { structure: "footer" })
    );
}

#[test]
fn reader_checks_fields_blocks_and_codecs() {
    let metadata = sample();
    assert_eq!(reader::check_field_count(&metadata, 2), Ok(()));
    assert_eq!(
        reader::check_field_count(&metadata, 3),
        Err(Error::InvalidMetadata("schema field count changed"))
    );
    assert_eq!(reader::block(&metadata, 1), Ok(&metadata.blocks[1]));
    assert_eq!(
        reader::block(&metadata, 2),
        Err(Error::InvalidMetadata("batch index is out of bounds"))
    );
    assert_eq!(reader::chunk_codec(4), Ok(CodecKind::String));
    assert_eq!(
        reader::chunk_codec(9),
        Err(Error::InvalidMetadata("unknown column codec"))
    );
}

#[test]
fn writer_places_chunks_one_after_another() {
    let mut state = WriterState::new();
    assert_eq!(state.offset(), 8);
    let first = state.place(1, &[1, 2, 3]);
    let second = state.place(255, &[4, 5]);
    assert_eq!(first, Chunk { codec: 1, offset: 8, length: 3 });
    assert_eq!(second, Chunk { codec: 255, offset: 11, length: 2 });
    assert_eq!(state.offset(), 13);
    assert_eq!(state.push_block(3, vec![first, second]), Ok(()));
    assert_eq!(state.block_count(), 1);
}

#[test]
fn writer_refuses_a_block_beyond_u32_rows() {
    let mut state = WriterState::new();
    let chunk = state.place(1, &[0]);
    assert_eq!(
        state.push_block(u32::MAX as usize + 1, vec![chunk]),
        Err(Error::IntegerOverflow)
    );
    assert_eq!(state.block_count(), 0);
    assert_eq!(state.finish(vec![], u32::MAX as usize + 1), Err(Error::IntegerOverflow));
}

#[test]
fn a_written_file_reads_back() {
    let mut state = WriterState::new();
    let mut file = HEADER.to_vec();
    let chunks = [vec![1_u8, 2, 3], vec![4, 5], vec![6]];
    let mut placed = Vec::new();
    for (codec, bytes) in [(1, &chunks[0]), (3, &chunks[1])] {
        placed.push(state.place(codec, bytes));
        file.extend(bytes);
    }
    state.push_block(2, placed).unwrap();
    let chunk = state.place(4, &chunks[2]);
    file.extend(&chunks[2]);
    state.push_block(1, vec![chunk, chunk]).unwrap();
    let end = state.finish(b"schema".to_vec(), 2).unwrap();
    file.extend(&end);

    let length = file.len() as u64;
    reader::check_file_length(length).unwrap();
    reader::check_header(file[..8].try_into().unwrap()).unwrap();
    let (footer_length, checksum) =
        litearrow::format::read_trailer(file[file.len() - 16..].try_into().unwrap()).unwrap();
    let offset = reader::footer_offset(length, footer_length).unwrap();
    assert_eq!(offset, 14);
    let footer = &file[offset as usize..file.len() - 16];
    let metadata = reader::read_footer(footer, checksum).unwrap();
    reader::check_field_count(&metadata, 2).unwrap();
    assert_eq!(metadata.schema, b"schema".to_vec());
    assert_eq!(metadata.blocks.len(), 2);
    let block = reader::block(&metadata, 0).unwrap();
    assert_eq!(block.rows, 2);
    for (chunk, bytes) in block.columns.iter().zip(&chunks) {
        let start = chunk.offset as usize;
        assert_eq!(&file[start..start + chunk.length as usize], bytes.as_slice());
    }
}

#[test]
fn writer_keeps_the_shortest_candidate() {
    let candidates = vec![
        (CodecKind::Integer, vec![1, 2, 3]),
        (CodecKind::Float, vec![1]),
        (CodecKind::Boolean, vec![2]),
    ];
    assert_eq!(shortest(candidates), Some((CodecKind::Float, vec![1])));
    assert_eq!(shortest(vec![]), None);
}

#[test]
fn a_block_without_rows_is_skipped() {
    let mut state = WriterState::new();
    assert_eq!(state.write_block(0, vec![]), Ok(vec![]));
    assert_eq!(state.offset(), 8);
    assert_eq!(state.block_count(), 0);
}

#[test]
fn a_block_places_each_columns_shortest_bytes() {
    let mut state = WriterState::new();
    let columns = vec![
        ColumnEncodings {
            candidates: vec![(CodecKind::Integer, vec![1, 2, 3]), (CodecKind::Float, vec![4, 5])],
            fallback: None,
        },
        ColumnEncodings { candidates: vec![], fallback: Some(vec![6, 7, 8, 9]) },
        ColumnEncodings {
            candidates: vec![(CodecKind::Boolean, vec![1]), (CodecKind::String, vec![2])],
            fallback: None,
        },
    ];
    let chunks = state.write_block(7, columns).unwrap();
    assert_eq!(chunks, vec![vec![4, 5], vec![6, 7, 8, 9], vec![1]]);
    assert_eq!(state.offset(), 15);
    assert_eq!(state.block_count(), 1);
    let end = state.finish(vec![], 3).unwrap();
    let footer = &end[..end.len() - 16];
    let metadata = litearrow::format::decode(footer).unwrap();
    assert_eq!(
        metadata.blocks,
        vec![Block {
            rows: 7,
            columns: vec![
                Chunk { codec: 2, offset: 8, length: 2 },
                Chunk { codec: 255, offset: 10, length: 4 },
                Chunk { codec: 3, offset: 14, length: 1 },
            ],
        }]
    );
}

#[test]
fn a_block_is_refused_whole() {
    let mut state = WriterState::new();
    let columns = vec![
        ColumnEncodings { candidates: vec![(CodecKind::Integer, vec![1])], fallback: None },
        ColumnEncodings { candidates: vec![], fallback: None },
    ];
    assert_eq!(
        state.write_block(1, columns),
        Err(Error::InvalidMetadata("fallback rejected column"))
    );
    let columns = vec![ColumnEncodings { candidates: vec![(CodecKind::Integer, vec![1])], fallback: None }];
    assert_eq!(state.write_block(u32::MAX as usize + 1, columns), Err(Error::IntegerOverflow));
    assert_eq!(state.offset(), 8);
    assert_eq!(state.block_count(), 0);
}

#[test]
fn any_changed_footer_byte_fails_the_checksum() {
    let footer = litearrow::format::encode(&sample()).unwrap();
    let checksum = crc32c(&footer);
    for at in 0..footer.len() {
        for bit in 0..8 {
            let mut changed = footer.clone();
            changed[at] ^= 1 << bit;
            assert_eq!(
                reader::read_footer(&changed, checksum),
                Err(Error::ChecksumMismatch { structure: "footer" })
            );
        }
    }
}
