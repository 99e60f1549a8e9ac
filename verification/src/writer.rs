//! What a file writer decides: which chunk to keep for a column, where each
//! chunk goes, and the footer and trailer that end the file. The bytes
//! themselves are written by the caller, in the order this state hands out
//! offsets.
use crate::codec::string::{joined, lemma_joined_len, lemma_take_last, lemma_total_prefix, total_length};
use crate::codec::CodecKind;
use crate::error::Error;
use crate::format::{
    spec_encode_metadata, spec_trailer, Block, BlockView, Chunk, Metadata, MetadataView, HEADER,
};
use vstd::prelude::*;

verus! {

/// The blocks laid out so far and the offset of the next chunk.
pub struct WriterState {
    blocks: Vec<Block>,
    offset: u64,
    written: Ghost<Seq<u8>>,
}

impl WriterState {
    /// The blocks closed so far.
    pub closed spec fn blocks(&self) -> Seq<BlockView> {
        self.blocks@.map_values(|block: Block| block@)
    }

    /// Where the next chunk starts in the file.
    pub closed spec fn next_offset(&self) -> u64 {
        self.offset
    }

    /// The chunk bytes placed so far, in file order, after the header.
    pub closed spec fn written(&self) -> Seq<u8> {
        self.written@
    }

    /// The next offset follows the header and the chunks placed so far, and
    /// every chunk of every closed block lies within them.
    pub closed spec fn well_formed(&self) -> bool {
        &&& self.offset == HEADER@.len() + self.written@.len()
        &&& forall|k: int, j: int|
            0 <= k < self.blocks@.len() && 0 <= j < self.blocks@[k].columns@.len() ==> {
                let chunk = #[trigger] self.blocks@[k].columns@[j];
                HEADER@.len() <= chunk.offset && chunk.offset + chunk.length <= self.offset
            }
    }

    /// The state of a file that holds only its header.
    pub fn new() -> (state: Self)
        ensures
            state.well_formed(),
            state.blocks() == Seq::<BlockView>::empty(),
            state.next_offset() == HEADER@.len(),
            state.written() == Seq::<u8>::empty(),
    {
        let state = WriterState { blocks: Vec::new(), offset: 8, written: Ghost(Seq::empty()) };
        proof {
            assert(state.blocks() =~= Seq::<BlockView>::empty());
        }
        state
    }

    /// Where the next chunk starts in the file.
    pub fn offset(&self) -> (offset: u64)
        ensures
            offset == self.next_offset(),
    {
        self.offset
    }

    /// Number of blocks closed so far.
    pub fn block_count(&self) -> (count: usize)
        ensures
            count == self.blocks().len(),
    {
        self.blocks.len()
    }

    /// Places the chunk `bytes`, written with `codec`, at the next offset.
    pub fn place(&mut self, codec: u8, bytes: &[u8]) -> (chunk: Chunk)
        requires
            old(self).well_formed(),
            old(self).next_offset() + bytes.len() <= u64::MAX,
        ensures
            final(self).well_formed(),
            chunk == (Chunk { codec, offset: old(self).next_offset(), length: bytes.len() as u64 }),
            final(self).written() == old(self).written() + bytes@,
            final(self).next_offset() == old(self).next_offset() + bytes.len(),
            final(self).blocks() == old(self).blocks(),
    {
        let chunk = Chunk { codec, offset: self.offset, length: bytes.len() as u64 };
        self.offset = self.offset + bytes.len() as u64;
        self.written = Ghost(self.written@ + bytes@);
        chunk
    }

    /// Closes a block of `rows` rows with these chunks; a row count beyond
    /// `u32` is refused and changes nothing.
    pub fn push_block(&mut self, rows: usize, columns: Vec<Chunk>) -> (result: Result<(), Error>)
        requires
            old(self).well_formed(),
            forall|j: int|
                0 <= j < columns@.len() ==> HEADER@.len() <= (#[trigger] columns@[j]).offset
                    && columns@[j].offset + columns@[j].length <= old(self).next_offset(),
        ensures
            final(self).well_formed(),
            final(self).written() == old(self).written(),
            final(self).next_offset() == old(self).next_offset(),
            match result {
                Ok(()) => rows <= u32::MAX && final(self).blocks() == old(self).blocks().push(
                    BlockView { rows: rows as u32, columns: columns@ },
                ),
                Err(e) => rows > u32::MAX && e == Error::IntegerOverflow && final(self).blocks()
                    == old(self).blocks(),
            },
    {
        if rows > u32::MAX as usize {
            return Err(Error::IntegerOverflow);
        }
        let ghost before = self.blocks@;
        self.blocks.push(Block { rows: rows as u32, columns });
        proof {
            assert(self.blocks() =~= old(self).blocks().push(
                BlockView { rows: rows as u32, columns: columns@ },
            ));
            assert forall|k: int, j: int|
                0 <= k < self.blocks@.len() && 0 <= j < self.blocks@[k].columns@.len() implies {
                let chunk = #[trigger] self.blocks@[k].columns@[j];
                HEADER@.len() <= chunk.offset && chunk.offset + chunk.length <= self.offset
            } by {
                if k < before.len() {
                    assert(self.blocks@[k] == before[k]);
                }
            }
        }
        Ok(())
    }

    /// The footer and trailer that end the file: the metadata of the closed
    /// blocks with this schema, then its length, checksum and magic.
    pub fn finish(self, schema: Vec<u8>, field_count: usize) -> (result: Result<Vec<u8>, Error>)
        ensures
            match result {
                Ok(bytes) => field_count <= u32::MAX && schema@.len() <= u32::MAX
                    && self.blocks().len() <= u32::MAX && bytes@ == spec_encode_metadata(
                    MetadataView {
                        schema: schema@,
                        field_count: field_count as u32,
                        blocks: self.blocks(),
                    },
                ) + spec_trailer(
                    spec_encode_metadata(
                        MetadataView {
                            schema: schema@,
                            field_count: field_count as u32,
                            blocks: self.blocks(),
                        },
                    ),
                ),
                Err(e) => e == Error::IntegerOverflow && (field_count > u32::MAX
                    || schema@.len() > u32::MAX || self.blocks().len() > u32::MAX),
            },
    {
        if field_count > u32::MAX as usize {
            return Err(Error::IntegerOverflow);
        }
        let ghost blocks = self.blocks();
        let metadata = Metadata { schema, field_count: field_count as u32, blocks: self.blocks };
        proof {
            assert(metadata@.blocks =~= blocks);
        }
        let footer = crate::format::encode(&metadata)?;
        let end = crate::format::trailer(footer.as_slice());
        let mut out = footer;
        let ghost start = out@;
        let mut k: usize = 0;
        while k < 16
            invariant
                k <= 16,
                out@ == start + end@.take(k as int),
            decreases 16 - k,
        {
            out.push(end[k]);
            k = k + 1;
            proof {
                assert(out@ =~= start + end@.take(k as int));
            }
        }
        proof {
            assert(end@.take(16) =~= end@);
        }
        Ok(out)
    }
}

/// A list of candidates as mathematical values.
pub open spec fn candidates_view(candidates: Seq<(CodecKind, Vec<u8>)>) -> Seq<(CodecKind, Seq<u8>)> {
    candidates.map_values(|candidate: (CodecKind, Vec<u8>)| (candidate.0, candidate.1@))
}

/// Index of the first of the shortest candidates.
pub open spec fn first_shortest(candidates: Seq<(CodecKind, Seq<u8>)>) -> int
    decreases candidates.len(),
{
    if candidates.len() <= 1 {
        0
    } else {
        let best = first_shortest(candidates.drop_last());
        if candidates.last().1.len() < candidates[best].1.len() {
            candidates.len() - 1
        } else {
            best
        }
    }
}

/// The first shortest candidate is no longer than any candidate, and
/// shorter than every one before it.
pub proof fn lemma_first_shortest(candidates: Seq<(CodecKind, Seq<u8>)>)
    requires
        candidates.len() > 0,
    ensures
        0 <= first_shortest(candidates) < candidates.len(),
        forall|j: int|
            0 <= j < candidates.len() ==> candidates[first_shortest(candidates)].1.len()
                <= (#[trigger] candidates[j]).1.len(),
        forall|j: int|
            0 <= j < first_shortest(candidates) ==> candidates[first_shortest(candidates)].1.len()
                < (#[trigger] candidates[j]).1.len(),
    decreases candidates.len(),
{
    if candidates.len() > 1 {
        let rest = candidates.drop_last();
        lemma_first_shortest(rest);
        assert forall|j: int| 0 <= j < rest.len() implies rest[j] == candidates[j] by {}
    }
}

/// The candidate to write: the first of the shortest.
pub fn shortest(candidates: Vec<(CodecKind, Vec<u8>)>) -> (best: Option<(CodecKind, Vec<u8>)>)
    ensures
        candidates@.len() == 0 ==> best is None,
        candidates@.len() > 0 ==> best == Some(
            candidates@[first_shortest(candidates_view(candidates@))],
        ),
{
    let ghost all = candidates@;
    let ghost view = candidates_view(all);
    let mut best: Option<(CodecKind, Vec<u8>)> = None;
    let ghost mut best_index: int = 0;
    let mut rest = candidates;
    let mut i: usize = 0;
    let n = rest.len();
    proof {
        assert(rest@.skip(0) =~= all);
    }
    while rest.len() > 0
        invariant
            n == all.len(),
            view == candidates_view(all),
            i + rest@.len() == n,
            rest@ == all.skip(i as int),
            i == 0 <==> best is None,
            i > 0 ==> best_index == first_shortest(view.take(i as int)) && 0 <= best_index < i
                && best == Some(all[best_index]),
        decreases rest.len(),
    {
        let candidate = rest.remove(0);
        proof {
            assert(candidate == all[i as int]);
            assert(rest@ =~= all.skip(i + 1));
            lemma_take_last(view, i as int);
            if i > 0 {
                lemma_first_shortest(view.take(i as int));
                assert(view.take(i as int)[best_index] == view[best_index]);
            } else {
                assert(view.take(1).len() == 1);
            }
        }
        let better = match &best {
            None => true,
            Some(chosen) => candidate.1.len() < chosen.1.len(),
        };
        if better {
            proof {
                best_index = i as int;
            }
            best = Some(candidate);
        }
        i = i + 1;
    }
    proof {
        assert(view.take(n as int) =~= view);
    }
    best
}

/// What the codecs made of one column: each native codec's bytes, in the
/// order they were tried, and the fallback's bytes when no native codec took
/// the column.
pub struct ColumnEncodings {
    pub candidates: Vec<(CodecKind, Vec<u8>)>,
    pub fallback: Option<Vec<u8>>,
}

/// The codec and bytes a column is written with: the first of the shortest
/// native encodings, else the fallback's, if it gave any.
pub open spec fn chosen(column: ColumnEncodings) -> Option<(CodecKind, Seq<u8>)> {
    let candidates = candidates_view(column.candidates@);
    if candidates.len() > 0 {
        Some(candidates[first_shortest(candidates)])
    } else {
        match column.fallback {
            Some(bytes) => Some((CodecKind::Ipc, bytes@)),
            None => None,
        }
    }
}

/// The bytes written for each column.
pub open spec fn chosen_bytes(columns: Seq<ColumnEncodings>) -> Seq<Seq<u8>> {
    Seq::new(columns.len(), |j: int| chosen(columns[j])->Some_0.1)
}

/// The chunk entry of column `j` of a block whose chunks start at `base`.
pub open spec fn placed_chunk(columns: Seq<ColumnEncodings>, base: u64, j: int) -> Chunk {
    Chunk {
        codec: chosen(columns[j])->Some_0.0.spec_id(),
        offset: (base + total_length(chosen_bytes(columns).take(j))) as u64,
        length: chosen_bytes(columns)[j].len() as u64,
    }
}

/// The block of `rows` rows whose chunks are written one after another from
/// `base`.
pub open spec fn placed_block(rows: usize, columns: Seq<ColumnEncodings>, base: u64) -> BlockView {
    BlockView {
        rows: rows as u32,
        columns: Seq::new(columns.len(), |j: int| placed_chunk(columns, base, j)),
    }
}

/// Every column has bytes to write.
pub open spec fn all_chosen(columns: Seq<ColumnEncodings>) -> bool {
    forall|j: int| 0 <= j < columns.len() ==> #[trigger] chosen(columns[j]) is Some
}

impl WriterState {
    /// Lays out one block of `rows` rows: a block without rows is skipped; a
    /// column that neither a native codec nor the fallback took is refused,
    /// as is a row count beyond `u32`. Otherwise each column's chosen bytes
    /// follow one another from the next offset, and they are returned in
    /// column order for the caller to write.
    pub fn write_block(&mut self, rows: usize, columns: Vec<ColumnEncodings>) -> (result: Result<
        Vec<Vec<u8>>,
        Error,
    >)
        requires
            old(self).well_formed(),
            all_chosen(columns@) ==> old(self).next_offset() + total_length(
                chosen_bytes(columns@),
            ) <= u64::MAX,
        ensures
            final(self).well_formed(),
            match result {
                Ok(chunks) => if rows == 0 {
                    &&& chunks@.len() == 0
                    &&& final(self).blocks() == old(self).blocks()
                    &&& final(self).written() == old(self).written()
                    &&& final(self).next_offset() == old(self).next_offset()
                } else {
                    &&& rows <= u32::MAX
                    &&& all_chosen(columns@)
                    &&& chunks@.len() == columns@.len()
                    &&& forall|j: int|
                        0 <= j < chunks@.len() ==> (#[trigger] chunks@[j])@ == chosen_bytes(
                            columns@,
                        )[j]
                    &&& final(self).written() == old(self).written() + joined(
                        chosen_bytes(columns@),
                    )
                    &&& final(self).next_offset() == old(self).next_offset() + total_length(
                        chosen_bytes(columns@),
                    )
                    &&& final(self).blocks() == old(self).blocks().push(
                        placed_block(rows, columns@, old(self).next_offset()),
                    )
                },
                Err(e) => {
                    &&& rows > 0
                    &&& final(self).blocks() == old(self).blocks()
                    &&& final(self).written() == old(self).written()
                    &&& final(self).next_offset() == old(self).next_offset()
                    &&& if all_chosen(columns@) {
                        rows > u32::MAX && e == Error::IntegerOverflow
                    } else {
                        e == Error::InvalidMetadata("fallback rejected column")
                    }
                },
            },
    {
        if rows == 0 {
            return Ok(Vec::new());
        }
        let ghost all = columns@;
        let n = columns.len();
        let mut j: usize = 0;
        while j < n
            invariant
                n == columns@.len(),
                all == columns@,
                rows > 0,
                j <= n,
                forall|k: int| 0 <= k < j ==> #[trigger] chosen(all[k]) is Some,
                self.well_formed(),
                self.blocks() == old(self).blocks(),
                self.written() == old(self).written(),
                self.next_offset() == old(self).next_offset(),
            decreases n - j,
        {
            if columns[j].candidates.len() == 0 && columns[j].fallback.is_none() {
                proof {
                    assert(chosen(all[j as int]) is None);
                    assert(!all_chosen(all));
                }
                return Err(Error::InvalidMetadata("fallback rejected column"));
            }
            j = j + 1;
        }
        if rows > u32::MAX as usize {
            return Err(Error::IntegerOverflow);
        }
        let ghost base = self.offset;
        let ghost bytes = chosen_bytes(all);
        let mut chunks: Vec<Vec<u8>> = Vec::new();
        let mut placed: Vec<Chunk> = Vec::new();
        let mut rest = columns;
        let mut i: usize = 0;
        proof {
            assert(rest@.skip(0) =~= all);
            assert(bytes.take(0) =~= Seq::<Seq<u8>>::empty());
            assert(self.written() =~= old(self).written() + joined(bytes.take(0)));
            lemma_total_prefix(bytes, n as int);
            assert(bytes.take(n as int) =~= bytes);
        }
        while rest.len() > 0
            invariant
                n == all.len(),
                bytes == chosen_bytes(all),
                all_chosen(all),
                i + rest@.len() == n,
                rest@ == all.skip(i as int),
                self.well_formed(),
                base == old(self).next_offset(),
                base + total_length(bytes) <= u64::MAX,
                self.blocks() == old(self).blocks(),
                self.next_offset() == base + total_length(bytes.take(i as int)),
                self.written() == old(self).written() + joined(bytes.take(i as int)),
                chunks@.len() == i,
                forall|k: int| 0 <= k < i ==> (#[trigger] chunks@[k])@ == bytes[k],
                placed@.len() == i,
                forall|k: int|
                    0 <= k < i ==> #[trigger] placed@[k] == placed_chunk(all, base, k)
                        && HEADER@.len() <= placed@[k].offset && placed@[k].offset
                        + placed@[k].length <= self.next_offset(),
            decreases rest.len(),
        {
            let ColumnEncodings { candidates, fallback } = rest.remove(0);
            proof {
                assert(all[i as int].candidates == candidates);
                assert(all[i as int].fallback == fallback);
                assert(rest@ =~= all.skip(i + 1));
                assert(chosen(all[i as int]) is Some);
                lemma_take_last(bytes, i as int);
                lemma_total_prefix(bytes, i + 1);
                assert(bytes.take(n as int) =~= bytes);
                lemma_total_prefix(bytes.take(n as int), i + 1);
            }
            let ghost view = candidates_view(candidates@);
            proof {
                if view.len() > 0 {
                    lemma_first_shortest(view);
                }
            }
            let ghost listed = candidates@;
            let (kind, data) = match shortest(candidates) {
                Some(best) => best,
                None => match fallback {
                    Some(data) => (crate::codec::fallback(), data),
                    None => {
                        proof {
                            assert(false);
                        }
                        (crate::codec::fallback(), Vec::new())
                    },
                },
            };
            proof {
                if view.len() > 0 {
                    assert(view[first_shortest(view)] == (
                        listed[first_shortest(view)].0,
                        listed[first_shortest(view)].1@,
                    ));
                }
                assert(chosen(all[i as int]) == Some((kind, data@)));
                assert(bytes[i as int] == data@);
            }
            let chunk = self.place(kind.id(), data.as_slice());
            proof {
                assert(chunk == placed_chunk(all, base, i as int));
                assert(self.written() =~= old(self).written() + joined(bytes.take(i + 1)));
            }
            placed.push(chunk);
            chunks.push(data);
            i = i + 1;
        }
        proof {
            assert(bytes.take(i as int) =~= bytes);
        }
        let ghost entries = placed@;
        match self.push_block(rows, placed) {
            Ok(()) => {},
            Err(_) => {
                proof {
                    assert(false);
                }
            },
        }
        proof {
            assert(entries =~= placed_block(rows, all, base).columns);
        }
        Ok(chunks)
    }
}

proof fn lemma_joined_prefix(bytes: Seq<Seq<u8>>, k: int)
    requires
        0 <= k <= bytes.len(),
    ensures
        joined(bytes.take(k)).len() <= joined(bytes).len(),
        joined(bytes).subrange(0, joined(bytes.take(k)).len() as int) == joined(bytes.take(k)),
    decreases bytes.len() - k,
{
    if k < bytes.len() {
        lemma_joined_prefix(bytes, k + 1);
        lemma_take_last(bytes, k);
        let small = joined(bytes.take(k));
        let big = joined(bytes.take(k + 1));
        assert(big.subrange(0, small.len() as int) =~= small);
        assert(joined(bytes).subrange(0, small.len() as int) =~= big.subrange(
            0,
            small.len() as int,
        ));
    } else {
        assert(bytes.take(k) =~= bytes);
        assert(joined(bytes).subrange(0, joined(bytes).len() as int) =~= joined(bytes));
    }
}

/// The bytes of column `j` of a written block lie in the written bytes at its
/// chunk entry's place: after the bytes written before the block and the
/// block's earlier chunks.
pub proof fn lemma_block_chunk_bytes(earlier: Seq<u8>, bytes: Seq<Seq<u8>>, j: int)
    requires
        0 <= j < bytes.len(),
    ensures
        ({
            let start: int = (earlier.len() + total_length(bytes.take(j))) as int;
            (earlier + joined(bytes)).subrange(start, start + bytes[j].len() as int) == bytes[j]
        }),
{
    lemma_joined_prefix(bytes, j + 1);
    lemma_take_last(bytes, j);
    lemma_joined_len(bytes.take(j));
    let before = joined(bytes.take(j));
    let through = joined(bytes.take(j + 1));
    assert(through == before + bytes[j]);
    let all = earlier + joined(bytes);
    let start: int = (earlier.len() + total_length(bytes.take(j))) as int;
    assert(all.subrange(start, start + bytes[j].len() as int) =~= through.subrange(
        before.len() as int,
        through.len() as int,
    ));
}

} // verus!
