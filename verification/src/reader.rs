//! What a file reader decides: whether the file is long enough, whether its
//! header and trailer are LiteArrow's, where the footer lies, whether its
//! checksum holds, and which block and codec a read names. The caller reads
//! the bytes these decisions ask for.
use crate::checksum::{crc32c, lemma_crc32c_detects_one_change, spec_crc32c};
use crate::codec::{self, CodecKind};
use crate::error::{end_of_buffer_text, Error};
use crate::format::{
    spec_decode_metadata, spec_encode_metadata, spec_read_trailer, spec_trailer, well_formed,
    Block, BlockView, FooterParse, Metadata, MetadataView, HEADER, TRAILER_LENGTH,
};
use vstd::prelude::*;

verus! {

/// The shortest file: a header and a trailer.
pub open spec fn minimum_file_length() -> nat {
    HEADER@.len() + TRAILER_LENGTH as nat
}

/// Refuses a file too short to hold a header and a trailer.
pub fn check_file_length(file_length: u64) -> (result: Result<(), Error>)
    ensures
        match result {
            Ok(()) => file_length >= minimum_file_length(),
            Err(e) => file_length < minimum_file_length() && e == Error::UnexpectedEndOfInput,
        },
{
    if file_length < 8 + TRAILER_LENGTH {
        Err(Error::UnexpectedEndOfInput)
    } else {
        Ok(())
    }
}

/// Refuses a file that does not start with the LiteArrow header.
pub fn check_header(header: [u8; 8]) -> (result: Result<(), Error>)
    ensures
        match result {
            Ok(()) => header@ == HEADER@,
            Err(e) => header@ != HEADER@ && e == (Error::InvalidMagic { structure: "header" }),
        },
{
    let mut k: usize = 0;
    while k < 8
        invariant
            k <= 8,
            forall|j: int| 0 <= j < k ==> header@[j] == HEADER@[j],
        decreases 8 - k,
    {
        if header[k] != HEADER[k] {
            return Err(Error::InvalidMagic { structure: "header" });
        }
        k = k + 1;
    }
    proof {
        assert(header@ =~= HEADER@);
    }
    Ok(())
}

/// Where a footer of `footer_length` bytes starts in a file of
/// `file_length` bytes, or why it cannot.
pub fn footer_offset(file_length: u64, footer_length: u64) -> (result: Result<u64, Error>)
    requires
        file_length >= minimum_file_length(),
    ensures
        match result {
            Ok(offset) => footer_length <= file_length - minimum_file_length() && offset
                == file_length - TRAILER_LENGTH - footer_length,
            Err(e) => footer_length > file_length - minimum_file_length() && e
                == Error::InvalidMetadata("footer length exceeds file"),
        },
{
    if footer_length > file_length - TRAILER_LENGTH - 8 {
        return Err(Error::InvalidMetadata("footer length exceeds file"));
    }
    Ok(file_length - TRAILER_LENGTH - footer_length)
}

/// What reading footer bytes whose checksum should be `checksum` gives: the
/// metadata, or `None` when the checksum or the layout is wrong.
pub open spec fn spec_read_footer(footer: Seq<u8>, checksum: u32) -> Option<MetadataView> {
    if spec_crc32c(footer) != checksum {
        None
    } else {
        match spec_decode_metadata(footer) {
            FooterParse::Parsed(metadata) => Some(metadata),
            _ => None,
        }
    }
}

/// Checks the footer against its checksum and parses it.
pub fn read_footer(footer: &[u8], checksum: u32) -> (result: Result<Metadata, Error>)
    ensures
        match result {
            Ok(metadata) => spec_read_footer(footer@, checksum) == Some(metadata@),
            Err(e) => spec_read_footer(footer@, checksum) is None && if spec_crc32c(footer@)
                != checksum {
                e == (Error::ChecksumMismatch { structure: "footer" })
            } else {
                match spec_decode_metadata(footer@) {
                    FooterParse::Truncated => e matches Error::Io(text) && text@
                        == end_of_buffer_text(),
                    FooterParse::Trailing => e == Error::InvalidMetadata("trailing footer bytes"),
                    FooterParse::Parsed(_) => false,
                }
            },
        },
{
    if crc32c(footer) != checksum {
        return Err(Error::ChecksumMismatch { structure: "footer" });
    }
    crate::format::decode(footer)
}

/// Refuses metadata whose field count is not the schema's.
pub fn check_field_count(metadata: &Metadata, field_count: usize) -> (result: Result<(), Error>)
    ensures
        match result {
            Ok(()) => metadata.field_count == field_count,
            Err(e) => metadata.field_count != field_count && e == Error::InvalidMetadata(
                "schema field count changed",
            ),
        },
{
    if field_count != metadata.field_count as usize {
        Err(Error::InvalidMetadata("schema field count changed"))
    } else {
        Ok(())
    }
}

/// The block a batch index names.
pub fn block(metadata: &Metadata, index: usize) -> (result: Result<&Block, Error>)
    ensures
        match result {
            Ok(block) => index < metadata@.blocks.len() && block@ == metadata@.blocks[index as int],
            Err(e) => index >= metadata@.blocks.len() && e == Error::InvalidMetadata(
                "batch index is out of bounds",
            ),
        },
{
    if index >= metadata.blocks.len() {
        return Err(Error::InvalidMetadata("batch index is out of bounds"));
    }
    Ok(&metadata.blocks[index])
}

/// The codec a chunk entry names.
pub fn chunk_codec(id: u8) -> (result: Result<CodecKind, Error>)
    ensures
        match result {
            Ok(kind) => kind.spec_id() == id,
            Err(e) => (forall|kind: CodecKind| #[trigger] kind.spec_id() != id) && e
                == Error::InvalidMetadata("unknown column codec"),
        },
{
    match codec::get(id) {
        Some(kind) => Ok(kind),
        None => Err(Error::InvalidMetadata("unknown column codec")),
    }
}

/// A file as a writer leaves it: the header, the chunk bytes, the footer of
/// `metadata`, then the trailer.
pub open spec fn spec_file(chunks: Seq<u8>, metadata: MetadataView) -> Seq<u8> {
    HEADER@ + chunks + spec_encode_metadata(metadata) + spec_trailer(spec_encode_metadata(metadata))
}

/// Every step of opening a written file succeeds and finds its metadata: the
/// length, header and trailer checks pass, the footer lies right after the
/// chunk bytes, and its checksum and layout hold.
pub proof fn lemma_open_written_file(chunks: Seq<u8>, metadata: MetadataView)
    requires
        well_formed(metadata),
        spec_file(chunks, metadata).len() <= u64::MAX,
    ensures
        ({
            let file = spec_file(chunks, metadata);
            let footer = spec_encode_metadata(metadata);
            let length = file.len();
            &&& length >= minimum_file_length()
            &&& file.subrange(0, 8) == HEADER@
            &&& spec_read_trailer(file.subrange(length - 16, length as int)) == Some(
                (footer.len() as u64, spec_crc32c(footer)),
            )
            &&& footer.len() <= length - minimum_file_length()
            &&& length - TRAILER_LENGTH - footer.len() == HEADER@.len() + chunks.len()
            &&& file.subrange(
                length - TRAILER_LENGTH - footer.len(),
                length - TRAILER_LENGTH,
            ) == footer
            &&& spec_read_footer(footer, spec_crc32c(footer)) == Some(metadata)
        }),
{
    let file = spec_file(chunks, metadata);
    let footer = spec_encode_metadata(metadata);
    let end = spec_trailer(footer);
    crate::math::lemma_le_bytes_len(footer.len(), 8);
    crate::math::lemma_le_bytes_len(spec_crc32c(footer) as nat, 4);
    assert(end.len() == 16);
    let length = file.len();
    assert(file.subrange(0, 8) =~= HEADER@);
    assert(file.subrange(length - 16, length as int) =~= end);
    crate::format::lemma_trailer_round_trip(footer);
    assert(file.subrange(8 + chunks.len() as int, length - 16) =~= footer);
    crate::format::lemma_metadata_round_trip(metadata);
}

/// Bytes placed at `at` among the chunk bytes are found at `8 + at` in the
/// file.
pub proof fn lemma_chunk_in_file(chunks: Seq<u8>, metadata: MetadataView, at: int, bytes: Seq<u8>)
    requires
        0 <= at,
        at + bytes.len() <= chunks.len(),
        chunks.subrange(at, at + bytes.len()) == bytes,
    ensures
        spec_file(chunks, metadata).subrange(
            HEADER@.len() + at,
            HEADER@.len() + at + bytes.len(),
        ) == bytes,
{
    let file = spec_file(chunks, metadata);
    assert(file.subrange(8 + at, 8 + at + bytes.len()) =~= chunks.subrange(
        at,
        at + bytes.len(),
    ));
}

/// Changing any one byte of a written file's footer leaves the header, the
/// trailer and the footer's place as they were, and makes the footer fail
/// its checksum, so `read_footer` refuses it with `ChecksumMismatch`.
pub proof fn lemma_changed_footer_refused(
    chunks: Seq<u8>,
    metadata: MetadataView,
    at: int,
    byte: u8,
)
    requires
        well_formed(metadata),
        spec_file(chunks, metadata).len() <= u64::MAX,
        HEADER@.len() + chunks.len() <= at < spec_file(chunks, metadata).len() - TRAILER_LENGTH,
        byte != spec_file(chunks, metadata)[at],
    ensures
        ({
            let file = spec_file(chunks, metadata);
            let changed = file.update(at, byte);
            let footer = spec_encode_metadata(metadata);
            let length = file.len();
            &&& changed.len() == length
            &&& changed.subrange(0, 8) == HEADER@
            &&& spec_read_trailer(changed.subrange(length - 16, length as int)) == Some(
                (footer.len() as u64, spec_crc32c(footer)),
            )
            &&& length - TRAILER_LENGTH - footer.len() == HEADER@.len() + chunks.len()
            &&& spec_crc32c(
                changed.subrange(length - TRAILER_LENGTH - footer.len(), length - TRAILER_LENGTH),
            ) != spec_crc32c(footer)
            &&& spec_read_footer(
                changed.subrange(length - TRAILER_LENGTH - footer.len(), length - TRAILER_LENGTH),
                spec_crc32c(footer),
            ) is None
        }),
{
    let file = spec_file(chunks, metadata);
    let changed = file.update(at, byte);
    let footer = spec_encode_metadata(metadata);
    let length = file.len();
    lemma_open_written_file(chunks, metadata);
    let start = length - TRAILER_LENGTH - footer.len();
    assert(changed.subrange(0, 8) =~= file.subrange(0, 8));
    assert(changed.subrange(length - 16, length as int) =~= file.subrange(
        length - 16,
        length as int,
    ));
    let inner = at - start;
    assert(changed.subrange(start, length - TRAILER_LENGTH) =~= footer.update(inner, byte));
    assert(footer[inner] == file[at]);
    lemma_crc32c_detects_one_change(footer, inner, byte);
}

} // verus!
