//! File = header, opaque column chunks, footer, footer length, footer CRC, magic.
//!
//! The footer (file metadata) is: the schema's length as a `u32` and its
//! bytes, the field count and the block count as `u32`s, then per block its
//! row count as a `u32` and per column a codec byte and the chunk's offset and
//! length as `u64`s. All integers are little-endian.
use crate::checksum::{crc32c, spec_crc32c};
use crate::error::{end_of_buffer, end_of_buffer_text, Error, Result};
use crate::le::{read_le, write_le};
use crate::math::{
    le_bytes, le_value, lemma_le_bytes_len, lemma_le_round, lemma_le_value_bound, lemma_pow2_facts,
};
use vstd::prelude::*;

verus! {

/// The eight bytes every LiteArrow file starts with: `LTAR`, version 1.
pub const HEADER: [u8; 8] = [0x4c, 0x54, 0x41, 0x52, 0x01, 0x00, 0x00, 0x00];

/// Length of the trailer that ends every file.
pub const TRAILER_LENGTH: u64 = 16;

/// The four bytes that end every file: `LTAR`.
pub const MAGIC: [u8; 4] = [0x4c, 0x54, 0x41, 0x52];

/// Where one column chunk of one block lies, and which codec wrote it.
#[derive(Debug, Clone, Copy, PartialEq, Eq)]
pub struct Chunk {
    pub codec: u8,
    pub offset: u64,
    pub length: u64,
}

/// One block of rows: its row count and one chunk per column.
#[derive(Debug, PartialEq, Eq)]
pub struct Block {
    pub rows: u32,
    pub columns: Vec<Chunk>,
}

/// The file metadata stored in the footer.
#[derive(Debug, PartialEq, Eq)]
pub struct Metadata {
    pub schema: Vec<u8>,
    pub field_count: u32,
    pub blocks: Vec<Block>,
}

/// A block as a mathematical value.
pub struct BlockView {
    pub rows: u32,
    pub columns: Seq<Chunk>,
}

/// File metadata as a mathematical value.
pub struct MetadataView {
    pub schema: Seq<u8>,
    pub field_count: u32,
    pub blocks: Seq<BlockView>,
}

impl View for Block {
    type V = BlockView;

    open spec fn view(&self) -> BlockView {
        BlockView { rows: self.rows, columns: self.columns@ }
    }
}

impl View for Metadata {
    type V = MetadataView;

    open spec fn view(&self) -> MetadataView {
        MetadataView {
            schema: self.schema@,
            field_count: self.field_count,
            blocks: self.blocks@.map_values(|block: Block| block@),
        }
    }
}

// --- layout ---------------------------------------------------------------------

/// Bytes of one chunk entry: codec, offset, length.
pub open spec fn chunk_bytes(chunk: Chunk) -> Seq<u8> {
    seq![chunk.codec] + le_bytes(chunk.offset as nat, 8) + le_bytes(chunk.length as nat, 8)
}

pub open spec fn chunks_bytes(chunks: Seq<Chunk>) -> Seq<u8>
    decreases chunks.len(),
{
    if chunks.len() == 0 {
        seq![]
    } else {
        chunks_bytes(chunks.drop_last()) + chunk_bytes(chunks.last())
    }
}

/// Bytes of one block entry: row count, then its chunks.
pub open spec fn block_bytes(block: BlockView) -> Seq<u8> {
    le_bytes(block.rows as nat, 4) + chunks_bytes(block.columns)
}

pub open spec fn blocks_bytes(blocks: Seq<BlockView>) -> Seq<u8>
    decreases blocks.len(),
{
    if blocks.len() == 0 {
        seq![]
    } else {
        blocks_bytes(blocks.drop_last()) + block_bytes(blocks.last())
    }
}

/// The footer bytes of `metadata`.
pub open spec fn spec_encode_metadata(metadata: MetadataView) -> Seq<u8> {
    le_bytes(metadata.schema.len(), 4) + metadata.schema + le_bytes(metadata.field_count as nat, 4)
        + le_bytes(metadata.blocks.len(), 4) + blocks_bytes(metadata.blocks)
}

/// Every block has one chunk per field, and the counts fit in a `u32`.
pub open spec fn well_formed(metadata: MetadataView) -> bool {
    &&& metadata.schema.len() <= u32::MAX
    &&& metadata.blocks.len() <= u32::MAX
    &&& forall|k: int|
        0 <= k < metadata.blocks.len() ==> (#[trigger] metadata.blocks[k]).columns.len()
            == metadata.field_count
}

/// Little-endian `u32` at `at`.
pub open spec fn u32_at(bytes: Seq<u8>, at: int) -> nat {
    le_value(bytes.subrange(at, at + 4))
}

/// Little-endian `u64` at `at`.
pub open spec fn u64_at(bytes: Seq<u8>, at: int) -> nat {
    le_value(bytes.subrange(at, at + 8))
}

/// Size of one block entry with `fields` chunks.
pub open spec fn block_size(fields: nat) -> nat {
    4 + 17 * fields
}

/// The schema length a footer declares.
pub open spec fn schema_length(bytes: Seq<u8>) -> nat {
    u32_at(bytes, 0)
}

/// The field count a footer declares.
pub open spec fn declared_fields(bytes: Seq<u8>) -> nat {
    u32_at(bytes, 4 + schema_length(bytes) as int)
}

/// The block count a footer declares.
pub open spec fn declared_blocks(bytes: Seq<u8>) -> nat {
    u32_at(bytes, 8 + schema_length(bytes) as int)
}

/// Where block entry `k` starts.
pub open spec fn block_start(bytes: Seq<u8>, k: int) -> int {
    12 + schema_length(bytes) + k * block_size(declared_fields(bytes))
}

/// The footer length its counts call for, once they can be read.
pub open spec fn declared_length(bytes: Seq<u8>) -> Option<nat> {
    if bytes.len() < 4 || bytes.len() < 12 + schema_length(bytes) {
        None
    } else {
        Some((12 + schema_length(bytes) + declared_blocks(bytes) * block_size(declared_fields(bytes))) as nat)
    }
}

/// The chunk entry at `at`.
pub open spec fn chunk_at(bytes: Seq<u8>, at: int) -> Chunk {
    Chunk { codec: bytes[at], offset: u64_at(bytes, at + 1) as u64, length: u64_at(bytes, at + 9) as u64 }
}

/// Block entry `k`.
pub open spec fn block_at(bytes: Seq<u8>, k: int) -> BlockView {
    BlockView {
        rows: u32_at(bytes, block_start(bytes, k)) as u32,
        columns: Seq::new(
            declared_fields(bytes),
            |j: int| chunk_at(bytes, block_start(bytes, k) + 4 + 17 * j),
        ),
    }
}

/// The metadata a footer of exactly the declared length holds.
pub open spec fn parsed_metadata(bytes: Seq<u8>) -> MetadataView {
    MetadataView {
        schema: bytes.subrange(4, 4 + schema_length(bytes) as int),
        field_count: declared_fields(bytes) as u32,
        blocks: Seq::new(declared_blocks(bytes), |k: int| block_at(bytes, k)),
    }
}

/// How reading a footer ends.
pub enum FooterParse {
    /// The bytes end before the counts they declare are satisfied.
    Truncated,
    /// Bytes are left over after the last block.
    Trailing,
    Parsed(MetadataView),
}

pub open spec fn spec_decode_metadata(bytes: Seq<u8>) -> FooterParse {
    match declared_length(bytes) {
        None => FooterParse::Truncated,
        Some(length) => if length > bytes.len() {
            FooterParse::Truncated
        } else if length < bytes.len() {
            FooterParse::Trailing
        } else {
            FooterParse::Parsed(parsed_metadata(bytes))
        },
    }
}

/// `error` is the one that reading past the end of a buffer reports.
pub open spec fn is_end_of_buffer(error: Error) -> bool {
    error matches Error::Io(text) && text@ == end_of_buffer_text()
}

// --- layout lemmas -----------------------------------------------------------------

proof fn lemma_chunks_layout(chunks: Seq<Chunk>, j: int)
    requires
        0 <= j < chunks.len(),
    ensures
        chunks_bytes(chunks).len() == 17 * chunks.len(),
        chunks_bytes(chunks).subrange(17 * j, 17 * j + 17) == chunk_bytes(chunks[j]),
    decreases chunks.len(),
{
    lemma_chunks_len(chunks);
    let rest = chunks.drop_last();
    lemma_chunks_len(rest);
    lemma_chunk_len(chunks.last());
    if j < rest.len() {
        lemma_chunks_layout(rest, j);
        assert(chunks_bytes(chunks).subrange(17 * j, 17 * j + 17) =~= chunks_bytes(rest).subrange(
            17 * j,
            17 * j + 17,
        ));
    } else {
        assert(chunks_bytes(chunks).subrange(17 * j, 17 * j + 17) =~= chunk_bytes(chunks.last()));
    }
}

proof fn lemma_chunk_len(chunk: Chunk)
    ensures
        chunk_bytes(chunk).len() == 17,
{
    lemma_le_bytes_len(chunk.offset as nat, 8);
    lemma_le_bytes_len(chunk.length as nat, 8);
}

proof fn lemma_chunks_len(chunks: Seq<Chunk>)
    ensures
        chunks_bytes(chunks).len() == 17 * chunks.len(),
    decreases chunks.len(),
{
    if chunks.len() > 0 {
        lemma_chunks_len(chunks.drop_last());
        lemma_chunk_len(chunks.last());
    }
}

proof fn lemma_blocks_layout(blocks: Seq<BlockView>, fields: nat, k: int)
    requires
        0 <= k < blocks.len(),
        forall|i: int| 0 <= i < blocks.len() ==> (#[trigger] blocks[i]).columns.len() == fields,
    ensures
        blocks_bytes(blocks).len() == blocks.len() * block_size(fields),
        blocks_bytes(blocks).subrange(k * block_size(fields), (k + 1) * block_size(fields))
            == block_bytes(blocks[k]),
    decreases blocks.len(),
{
    lemma_blocks_len(blocks, fields);
    let rest = blocks.drop_last();
    lemma_blocks_len(rest, fields);
    let size = block_size(fields);
    assert(blocks.len() * size == rest.len() * size + size) by (nonlinear_arith)
        requires
            blocks.len() == rest.len() + 1,
    ;
    assert((k + 1) * size == k * size + size) by (nonlinear_arith);
    if k < rest.len() {
        lemma_blocks_layout(rest, fields, k);
        assert((k + 1) * size <= rest.len() * size) by (nonlinear_arith)
            requires
                k + 1 <= rest.len(),
        ;
        assert(blocks_bytes(blocks).subrange(k * size, (k + 1) * size) =~= blocks_bytes(
            rest,
        ).subrange(k * size, (k + 1) * size));
    } else {
        lemma_block_len(blocks.last(), fields);
        assert(blocks_bytes(blocks).subrange(k * size, (k + 1) * size) =~= block_bytes(
            blocks.last(),
        ));
    }
}

proof fn lemma_block_len(block: BlockView, fields: nat)
    requires
        block.columns.len() == fields,
    ensures
        block_bytes(block).len() == block_size(fields),
{
    lemma_le_bytes_len(block.rows as nat, 4);
    lemma_chunks_len(block.columns);
}

proof fn lemma_blocks_len(blocks: Seq<BlockView>, fields: nat)
    requires
        forall|i: int| 0 <= i < blocks.len() ==> (#[trigger] blocks[i]).columns.len() == fields,
    ensures
        blocks_bytes(blocks).len() == blocks.len() * block_size(fields),
    decreases blocks.len(),
{
    if blocks.len() > 0 {
        let rest = blocks.drop_last();
        lemma_blocks_len(rest, fields);
        lemma_block_len(blocks.last(), fields);
        assert(blocks.len() * block_size(fields) == rest.len() * block_size(fields) + block_size(
            fields,
        )) by (nonlinear_arith)
            requires
                blocks.len() == rest.len() + 1,
        ;
    }
}

/// Reading the footer of well-formed metadata gives the metadata back.
pub proof fn lemma_metadata_round_trip(metadata: MetadataView)
    requires
        well_formed(metadata),
    ensures
        spec_decode_metadata(spec_encode_metadata(metadata)) == FooterParse::Parsed(metadata),
{
    lemma_pow2_facts();
    let bytes = spec_encode_metadata(metadata);
    let l = metadata.schema.len();
    let fields = metadata.field_count as nat;
    let count = metadata.blocks.len();
    let size = block_size(fields);
    lemma_le_round(l, 4);
    lemma_le_round(fields, 4);
    lemma_le_round(count, 4);
    lemma_blocks_len(metadata.blocks, fields);
    let body = blocks_bytes(metadata.blocks);
    let header = le_bytes(l, 4) + metadata.schema + le_bytes(fields, 4) + le_bytes(count, 4);
    assert(header.len() == 12 + l);
    assert(bytes =~= header + body);
    assert(bytes.len() == 12 + l + count * size);
    assert(bytes.subrange(0, 4) =~= le_bytes(l, 4));
    assert(schema_length(bytes) == l);
    assert(bytes.subrange(4 + l as int, 8 + l as int) =~= le_bytes(fields, 4));
    assert(declared_fields(bytes) == fields);
    assert(bytes.subrange(8 + l as int, 12 + l as int) =~= le_bytes(count, 4));
    assert(declared_blocks(bytes) == count);
    assert(declared_length(bytes) == Some(bytes.len()));
    let parsed = parsed_metadata(bytes);
    assert(parsed.schema =~= metadata.schema);
    assert forall|k: int| 0 <= k < count implies #[trigger] block_at(bytes, k) == metadata.blocks[k] by {
        let block = metadata.blocks[k];
        lemma_blocks_layout(metadata.blocks, fields, k);
        let start = block_start(bytes, k);
        assert(start == 12 + l + k * size);
        lemma_block_bounds(fields, k as nat, count, size);
        assert(bytes.subrange(start, start + size) =~= body.subrange(k * size, (k + 1) * size));
        assert(bytes.subrange(start, start + size) =~= block_bytes(block));
        lemma_le_round(block.rows as nat, 4);
        assert(bytes.subrange(start, start + 4) =~= le_bytes(block.rows as nat, 4));
        lemma_chunks_len(block.columns);
        assert forall|j: int| 0 <= j < fields implies chunk_at(bytes, start + 4 + 17 * j)
            == block.columns[j] by {
            let chunk = block.columns[j];
            lemma_chunks_layout(block.columns, j);
            let at = start + 4 + 17 * j;
            let inner = block_bytes(block);
            assert(inner.subrange(4 + 17 * j, 21 + 17 * j) =~= chunks_bytes(block.columns).subrange(
                17 * j,
                17 * j + 17,
            ));
            assert(bytes.subrange(at, at + 17) =~= inner.subrange(4 + 17 * j, 21 + 17 * j));
            assert(bytes.subrange(at, at + 17) =~= chunk_bytes(chunk));
            lemma_le_bytes_len(chunk.offset as nat, 8);
            assert(chunk_bytes(chunk).subrange(1, 9) =~= le_bytes(chunk.offset as nat, 8));
            assert(chunk_bytes(chunk).subrange(9, 17) =~= le_bytes(chunk.length as nat, 8));
            lemma_le_round(chunk.offset as nat, 8);
            lemma_le_round(chunk.length as nat, 8);
            assert(bytes[at] == bytes.subrange(at, at + 17)[0]);
            assert(bytes.subrange(at + 1, at + 9) =~= bytes.subrange(at, at + 17).subrange(1, 9));
            assert(bytes.subrange(at + 9, at + 17) =~= bytes.subrange(at, at + 17).subrange(9, 17));
            assert(u64_at(bytes, at + 1) == chunk.offset);
            assert(u64_at(bytes, at + 9) == chunk.length);
        }
        assert(block_at(bytes, k).columns =~= block.columns);
    }
    assert(parsed.blocks =~= metadata.blocks);
}

// --- executable code -----------------------------------------------------------------

/// A length as a `u32`, or `IntegerOverflow`.
fn length(value: usize) -> (result: Result<u32>)
    ensures
        match result {
            Ok(v) => v == value,
            Err(e) => value > u32::MAX && e is IntegerOverflow,
        },
{
    if value > u32::MAX as usize {
        Err(Error::IntegerOverflow)
    } else {
        Ok(value as u32)
    }
}

fn write_u32(out: &mut Vec<u8>, value: u32)
    ensures
        final(out)@ == old(out)@ + le_bytes(value as nat, 4),
{
    write_le(out, value as u64, 4)
}

fn write_u64(out: &mut Vec<u8>, value: u64)
    ensures
        final(out)@ == old(out)@ + le_bytes(value as nat, 8),
{
    write_le(out, value, 8)
}

/// Serializes the metadata into footer bytes.
pub fn encode(metadata: &Metadata) -> (result: Result<Vec<u8>>)
    ensures
        match result {
            Ok(bytes) => metadata@.schema.len() <= u32::MAX && metadata@.blocks.len() <= u32::MAX
                && bytes@ == spec_encode_metadata(metadata@),
            Err(e) => e is IntegerOverflow && (metadata@.schema.len() > u32::MAX
                || metadata@.blocks.len() > u32::MAX),
        },
{
    let mut out: Vec<u8> = Vec::new();
    let schema_length = length(metadata.schema.len())?;
    let block_count = length(metadata.blocks.len())?;
    write_u32(&mut out, schema_length);
    let mut i: usize = 0;
    while i < metadata.schema.len()
        invariant
            i <= metadata.schema.len(),
            out@ == le_bytes(schema_length as nat, 4) + metadata.schema@.take(i as int),
        decreases metadata.schema.len() - i,
    {
        out.push(metadata.schema[i]);
        i = i + 1;
        proof {
            assert(out@ =~= le_bytes(schema_length as nat, 4) + metadata.schema@.take(i as int));
        }
    }
    proof {
        assert(metadata.schema@.take(i as int) =~= metadata.schema@);
    }
    write_u32(&mut out, metadata.field_count);
    write_u32(&mut out, block_count);
    let ghost prefix = out@;
    let ghost blocks = metadata@.blocks;
    let mut k: usize = 0;
    proof {
        assert(blocks.take(0) =~= Seq::<BlockView>::empty());
        assert(out@ =~= prefix + blocks_bytes(blocks.take(0)));
    }
    while k < metadata.blocks.len()
        invariant
            k <= metadata.blocks.len(),
            blocks == metadata@.blocks,
            blocks.len() == metadata.blocks.len(),
            out@ == prefix + blocks_bytes(blocks.take(k as int)),
        decreases metadata.blocks.len() - k,
    {
        let block = &metadata.blocks[k];
        proof {
            assert(blocks[k as int] == block@);
            assert(blocks.take(k + 1).drop_last() =~= blocks.take(k as int));
        }
        let ghost before = out@;
        write_u32(&mut out, block.rows);
        let mut j: usize = 0;
        proof {
            assert(block.columns@.take(0) =~= Seq::<Chunk>::empty());
            assert(out@ =~= before + le_bytes(block.rows as nat, 4) + chunks_bytes(
                block.columns@.take(0),
            ));
        }
        while j < block.columns.len()
            invariant
                j <= block.columns.len(),
                out@ == before + le_bytes(block.rows as nat, 4) + chunks_bytes(
                    block.columns@.take(j as int),
                ),
            decreases block.columns.len() - j,
        {
            let column = block.columns[j];
            proof {
                assert(block.columns@.take(j + 1).drop_last() =~= block.columns@.take(j as int));
            }
            out.push(column.codec);
            write_u64(&mut out, column.offset);
            write_u64(&mut out, column.length);
            j = j + 1;
            proof {
                assert(out@ =~= before + le_bytes(block.rows as nat, 4) + chunks_bytes(
                    block.columns@.take(j as int),
                ));
            }
        }
        proof {
            assert(block.columns@.take(j as int) =~= block.columns@);
            assert(out@ =~= prefix + blocks_bytes(blocks.take(k + 1)));
        }
        k = k + 1;
    }
    proof {
        assert(blocks.take(k as int) =~= blocks);
    }
    Ok(out)
}

/// Reads a little-endian `u32` at `*pos` and moves past it.
fn read_u32(bytes: &[u8], pos: &mut usize) -> (result: Result<u32>)
    requires
        *old(pos) <= bytes.len(),
    ensures
        match result {
            Ok(v) => *old(pos) + 4 <= bytes.len() && *final(pos) == *old(pos) + 4 && v as nat
                == u32_at(bytes@, *old(pos) as int),
            Err(e) => *old(pos) + 4 > bytes.len() && is_end_of_buffer(e),
        },
{
    if bytes.len() - *pos < 4 {
        return Err(end_of_buffer());
    }
    let word = read_le(bytes, *pos, 4);
    proof {
        lemma_pow2_facts();
        lemma_le_value_bound(bytes@.subrange(*pos as int, *pos + 4));
    }
    *pos = *pos + 4;
    Ok(word as u32)
}

/// Reads a little-endian `u64` at `*pos` and moves past it.
fn read_u64(bytes: &[u8], pos: &mut usize) -> (result: Result<u64>)
    requires
        *old(pos) <= bytes.len(),
    ensures
        match result {
            Ok(v) => *old(pos) + 8 <= bytes.len() && *final(pos) == *old(pos) + 8 && v as nat
                == u64_at(bytes@, *old(pos) as int),
            Err(e) => *old(pos) + 8 > bytes.len() && is_end_of_buffer(e),
        },
{
    if bytes.len() - *pos < 8 {
        return Err(end_of_buffer());
    }
    let word = read_le(bytes, *pos, 8);
    *pos = *pos + 8;
    Ok(word)
}

/// Reads one byte at `*pos` and moves past it.
fn read(bytes: &[u8], pos: &mut usize) -> (result: Result<u8>)
    requires
        *old(pos) <= bytes.len(),
    ensures
        match result {
            Ok(v) => *old(pos) + 1 <= bytes.len() && *final(pos) == *old(pos) + 1 && v
                == bytes@[*old(pos) as int],
            Err(e) => *old(pos) + 1 > bytes.len() && is_end_of_buffer(e),
        },
{
    if bytes.len() - *pos < 1 {
        return Err(end_of_buffer());
    }
    let byte = bytes[*pos];
    *pos = *pos + 1;
    Ok(byte)
}

proof fn lemma_block_bounds(fields: nat, k: nat, count: nat, inside: nat)
    requires
        k < count,
        inside <= block_size(fields),
    ensures
        k * block_size(fields) + inside <= count * block_size(fields),
        (k + 1) * block_size(fields) == k * block_size(fields) + block_size(fields),
{
    let size = block_size(fields);
    assert((k + 1) * size == k * size + size) by (nonlinear_arith);
    assert((k + 1) * size <= count * size) by (nonlinear_arith)
        requires
            k + 1 <= count,
    ;
}

/// Parses footer bytes into metadata.
pub fn decode(bytes: &[u8]) -> (result: Result<Metadata>)
    ensures
        match result {
            Ok(metadata) => spec_decode_metadata(bytes@) == FooterParse::Parsed(metadata@),
            Err(e) => match spec_decode_metadata(bytes@) {
                FooterParse::Truncated => is_end_of_buffer(e),
                FooterParse::Trailing => e == Error::InvalidMetadata("trailing footer bytes"),
                FooterParse::Parsed(_) => false,
            },
        },
{
    let ghost b = bytes@;
    let mut pos: usize = 0;
    let schema_len = read_u32(bytes, &mut pos)?;
    if bytes.len() - pos < schema_len as usize {
        return Err(end_of_buffer());
    }
    let mut schema: Vec<u8> = Vec::new();
    let mut i: usize = 0;
    while i < schema_len as usize
        invariant
            b == bytes@,
            pos == 4,
            4 + schema_len <= bytes.len(),
            i <= schema_len,
            schema@ == b.subrange(4, 4 + i),
        decreases schema_len - i,
    {
        schema.push(bytes[pos + i]);
        i = i + 1;
        proof {
            assert(schema@ =~= b.subrange(4, 4 + i));
        }
    }
    pos = pos + schema_len as usize;
    let field_count = match read_u32(bytes, &mut pos) {
        Ok(v) => v,
        Err(e) => {
            return Err(e);
        },
    };
    let block_count = match read_u32(bytes, &mut pos) {
        Ok(v) => v,
        Err(e) => {
            return Err(e);
        },
    };
    let ghost size = block_size(field_count as nat);
    proof {
        assert(schema_length(b) == schema_len);
        assert(declared_length(b) == Some(
            (12 + schema_len + block_count * size) as nat,
        ));
    }
    let mut blocks: Vec<Block> = Vec::new();
    let mut k: u32 = 0;
    while k < block_count
        invariant
            b == bytes@,
            schema_length(b) == schema_len,
            declared_fields(b) == field_count,
            declared_blocks(b) == block_count,
            size == block_size(field_count as nat),
            declared_length(b) == Some((12 + schema_len + block_count * size) as nat),
            k <= block_count,
            pos == block_start(b, k as int),
            pos <= bytes.len(),
            blocks@.len() == k,
            forall|m: int| 0 <= m < k ==> (#[trigger] blocks@[m])@ == block_at(b, m),
        decreases block_count - k,
    {
        let ghost start = pos as int;
        proof {
            lemma_block_bounds(field_count as nat, k as nat, block_count as nat, 4);
        }
        let rows = match read_u32(bytes, &mut pos) {
            Ok(v) => v,
            Err(e) => {
                return Err(e);
            },
        };
        let mut columns: Vec<Chunk> = Vec::new();
        let mut j: u32 = 0;
        while j < field_count
            invariant
                b == bytes@,
                declared_fields(b) == field_count,
                declared_blocks(b) == block_count,
                schema_length(b) == schema_len,
                size == block_size(field_count as nat),
                declared_length(b) == Some((12 + schema_len + block_count * size) as nat),
                k < block_count,
                start == block_start(b, k as int),
                start == 12 + schema_len + k * size,
                j <= field_count,
                pos == start + 4 + 17 * j,
                pos <= bytes.len(),
                columns@.len() == j,
                forall|m: int|
                    0 <= m < j ==> #[trigger] columns@[m] == chunk_at(b, start + 4 + 17 * m),
            decreases field_count - j,
        {
            proof {
                lemma_block_bounds(field_count as nat, k as nat, block_count as nat, (4 + 17 * j
                    + 17) as nat);
            }
            let at = pos;
            let codec = match read(bytes, &mut pos) {
                Ok(v) => v,
                Err(e) => {
                    return Err(e);
                },
            };
            let offset = match read_u64(bytes, &mut pos) {
                Ok(v) => v,
                Err(e) => {
                    return Err(e);
                },
            };
            let length = match read_u64(bytes, &mut pos) {
                Ok(v) => v,
                Err(e) => {
                    return Err(e);
                },
            };
            columns.push(Chunk { codec, offset, length });
            j = j + 1;
        }
        proof {
            assert(columns@ =~= block_at(b, k as int).columns);
            lemma_block_bounds(field_count as nat, k as nat, block_count as nat, size);
        }
        blocks.push(Block { rows, columns });
        k = k + 1;
    }
    proof {
        lemma_block_bounds(field_count as nat, 0, 1, 0);
    }
    if pos != bytes.len() {
        return Err(Error::InvalidMetadata("trailing footer bytes"));
    }
    let metadata = Metadata { schema, field_count, blocks };
    proof {
        assert(metadata@.blocks =~= parsed_metadata(b).blocks);
        assert(metadata@.schema =~= parsed_metadata(b).schema);
    }
    Ok(metadata)
}

/// The trailer of a footer: its length, its checksum, and the magic bytes.
pub open spec fn spec_trailer(footer: Seq<u8>) -> Seq<u8> {
    le_bytes(footer.len(), 8) + le_bytes(spec_crc32c(footer) as nat, 4) + MAGIC@
}

/// Builds the trailer that follows `footer`.
pub fn trailer(footer: &[u8]) -> (out: [u8; 16])
    ensures
        out@ == spec_trailer(footer@),
{
    let mut bytes: Vec<u8> = Vec::new();
    write_le(&mut bytes, footer.len() as u64, 8);
    write_le(&mut bytes, crc32c(footer) as u64, 4);
    proof {
        lemma_le_bytes_len(footer@.len(), 8);
        lemma_le_bytes_len(spec_crc32c(footer@) as nat, 4);
    }
    let out: [u8; 16] = [
        bytes[0],
        bytes[1],
        bytes[2],
        bytes[3],
        bytes[4],
        bytes[5],
        bytes[6],
        bytes[7],
        bytes[8],
        bytes[9],
        bytes[10],
        bytes[11],
        MAGIC[0],
        MAGIC[1],
        MAGIC[2],
        MAGIC[3],
    ];
    proof {
        assert(out@ =~= spec_trailer(footer@));
    }
    out
}

/// What reading a trailer gives: the footer length and checksum, or an error
/// when the magic bytes are wrong.
pub open spec fn spec_read_trailer(bytes: Seq<u8>) -> Option<(u64, u32)> {
    if bytes.subrange(12, 16) != MAGIC@ {
        None
    } else {
        Some((u64_at(bytes, 0) as u64, u32_at(bytes, 8) as u32))
    }
}

/// Splits a trailer into the footer length and checksum.
pub fn read_trailer(bytes: [u8; 16]) -> (result: Result<(u64, u32)>)
    ensures
        match result {
            Ok(parts) => spec_read_trailer(bytes@) == Some(parts),
            Err(e) => spec_read_trailer(bytes@) is None && e == Error::InvalidMagic {
                structure: "trailer",
            },
        },
{
    if bytes[12] != MAGIC[0] || bytes[13] != MAGIC[1] || bytes[14] != MAGIC[2] || bytes[15]
        != MAGIC[3] {
        proof {
            if bytes@.subrange(12, 16) == MAGIC@ {
                assert(bytes@.subrange(12, 16)[0] == bytes@[12]);
                assert(bytes@.subrange(12, 16)[1] == bytes@[13]);
                assert(bytes@.subrange(12, 16)[2] == bytes@[14]);
                assert(bytes@.subrange(12, 16)[3] == bytes@[15]);
            }
        }
        return Err(Error::InvalidMagic { structure: "trailer" });
    }
    proof {
        assert(bytes@.subrange(12, 16) =~= MAGIC@);
        lemma_pow2_facts();
        lemma_le_value_bound(bytes@.subrange(8, 12));
    }
    let slice = bytes.as_slice();
    let length = read_le(slice, 0, 8);
    let checksum = read_le(slice, 8, 4);
    Ok((length, checksum as u32))
}

/// Reading the trailer of a footer gives its length and checksum back.
pub proof fn lemma_trailer_round_trip(footer: Seq<u8>)
    requires
        footer.len() <= u64::MAX,
    ensures
        spec_read_trailer(spec_trailer(footer)) == Some((footer.len() as u64, spec_crc32c(footer))),
{
    lemma_pow2_facts();
    let t = spec_trailer(footer);
    lemma_le_round(footer.len(), 8);
    lemma_le_round(spec_crc32c(footer) as nat, 4);
    assert(t.subrange(0, 8) =~= le_bytes(footer.len(), 8));
    assert(t.subrange(8, 12) =~= le_bytes(spec_crc32c(footer) as nat, 4));
    assert(t.subrange(12, 16) =~= MAGIC@);
}

} // verus!
