//! Column codecs: how one column of one block is laid out in its chunk.
//!
//! A native chunk starts with the codec's own header, then the column's
//! validity, then the encoded values. Columns of other types go through the
//! Arrow IPC fallback, which lives outside this crate.
pub mod boolean;
pub mod float;
pub mod integer;
pub mod string;
pub mod validity;

use vstd::prelude::*;

verus! {

/// The column types the native codecs tell apart.
#[derive(Clone, Copy, Debug, PartialEq, Eq, Structural)]
pub enum ColumnType {
    Int8,
    Int16,
    Int32,
    Int64,
    UInt8,
    UInt16,
    UInt32,
    UInt64,
    Float16,
    Float32,
    Float64,
    Boolean,
    Utf8,
    LargeUtf8,
    Other,
}

impl ColumnType {
    pub open spec fn spec_is_integer(&self) -> bool {
        match self {
            ColumnType::Int8 | ColumnType::Int16 | ColumnType::Int32 | ColumnType::Int64
            | ColumnType::UInt8 | ColumnType::UInt16 | ColumnType::UInt32
            | ColumnType::UInt64 => true,
            _ => false,
        }
    }

    /// Whether the type is one of the eight integer types.
    #[verifier::when_used_as_spec(spec_is_integer)]
    pub fn is_integer(&self) -> (result: bool)
        ensures
            result == self.spec_is_integer(),
    {
        match self {
            ColumnType::Int8 | ColumnType::Int16 | ColumnType::Int32 | ColumnType::Int64
            | ColumnType::UInt8 | ColumnType::UInt16 | ColumnType::UInt32
            | ColumnType::UInt64 => true,
            _ => false,
        }
    }

    pub open spec fn spec_float_width(&self) -> Option<usize> {
        match self {
            ColumnType::Float16 => Some(2),
            ColumnType::Float32 => Some(4),
            ColumnType::Float64 => Some(8),
            _ => None,
        }
    }

    /// Bytes per value of a floating-point type.
    #[verifier::when_used_as_spec(spec_float_width)]
    pub fn float_width(&self) -> (width: Option<usize>)
        ensures
            width == self.spec_float_width(),
    {
        match self {
            ColumnType::Float16 => Some(2),
            ColumnType::Float32 => Some(4),
            ColumnType::Float64 => Some(8),
            _ => None,
        }
    }

    pub open spec fn spec_offset_width(&self) -> Option<usize> {
        match self {
            ColumnType::Utf8 => Some(4),
            ColumnType::LargeUtf8 => Some(8),
            _ => None,
        }
    }

    /// Bytes per offset of a string type.
    #[verifier::when_used_as_spec(spec_offset_width)]
    pub fn offset_width(&self) -> (width: Option<usize>)
        ensures
            width == self.spec_offset_width(),
    {
        match self {
            ColumnType::Utf8 => Some(4),
            ColumnType::LargeUtf8 => Some(8),
            _ => None,
        }
    }
}

/// The codecs a chunk can be written with.
#[derive(Clone, Copy, Debug, PartialEq, Eq, Structural)]
pub enum CodecKind {
    Integer,
    Float,
    Boolean,
    String,
    Ipc,
}

impl CodecKind {
    pub open spec fn spec_id(&self) -> u8 {
        match self {
            CodecKind::Integer => 1,
            CodecKind::Float => 2,
            CodecKind::Boolean => 3,
            CodecKind::String => 4,
            CodecKind::Ipc => 255,
        }
    }

    /// The byte that names this codec in a chunk entry.
    #[verifier::when_used_as_spec(spec_id)]
    pub fn id(&self) -> (id: u8)
        ensures
            id == self.spec_id(),
    {
        match self {
            CodecKind::Integer => 1,
            CodecKind::Float => 2,
            CodecKind::Boolean => 3,
            CodecKind::String => 4,
            CodecKind::Ipc => 255,
        }
    }
}

/// No two codecs share an id, so the id in a chunk entry names one codec.
pub proof fn lemma_ids_distinct(first: CodecKind, second: CodecKind)
    ensures
        first.spec_id() == second.spec_id() ==> first == second,
{
}

/// The native codecs, in the order a writer tries them.
pub fn specialized() -> (codecs: [CodecKind; 4])
    ensures
        codecs@ == seq![CodecKind::Integer, CodecKind::Float, CodecKind::Boolean, CodecKind::String],
{
    let codecs = [CodecKind::Integer, CodecKind::Float, CodecKind::Boolean, CodecKind::String];
    proof {
        assert(codecs@ =~= seq![
            CodecKind::Integer,
            CodecKind::Float,
            CodecKind::Boolean,
            CodecKind::String,
        ]);
    }
    codecs
}

/// The codec for columns no native codec takes.
pub fn fallback() -> (codec: CodecKind)
    ensures
        codec == CodecKind::Ipc,
{
    CodecKind::Ipc
}

/// The codec a chunk entry names, if any.
pub fn get(id: u8) -> (codec: Option<CodecKind>)
    ensures
        match codec {
            Some(kind) => kind.spec_id() == id,
            None => forall|kind: CodecKind| #[trigger] kind.spec_id() != id,
        },
{
    let codecs = specialized();
    let mut i: usize = 0;
    while i < 4
        invariant
            i <= 4,
            codecs@ == seq![
                CodecKind::Integer,
                CodecKind::Float,
                CodecKind::Boolean,
                CodecKind::String,
            ],
            forall|j: int| 0 <= j < i ==> (#[trigger] codecs@[j]).spec_id() != id,
        decreases 4 - i,
    {
        if codecs[i].id() == id {
            return Some(codecs[i]);
        }
        i = i + 1;
    }
    let last = fallback();
    if last.id() == id {
        Some(last)
    } else {
        proof {
            assert forall|kind: CodecKind| #[trigger] kind.spec_id() != id by {
                match kind {
                    CodecKind::Integer => assert(codecs@[0] == kind),
                    CodecKind::Float => assert(codecs@[1] == kind),
                    CodecKind::Boolean => assert(codecs@[2] == kind),
                    CodecKind::String => assert(codecs@[3] == kind),
                    CodecKind::Ipc => {},
                }
            }
        }
        None
    }
}

/// The bytes of `bytes` from `at` on.
pub(crate) fn slice_from(bytes: &[u8], at: usize) -> (rest: Vec<u8>)
    requires
        at <= bytes.len(),
    ensures
        rest@ == bytes@.subrange(at as int, bytes.len() as int),
{
    let mut rest: Vec<u8> = Vec::new();
    let mut k: usize = at;
    while k < bytes.len()
        invariant
            at <= k <= bytes.len(),
            rest@ == bytes@.subrange(at as int, k as int),
        decreases bytes.len() - k,
    {
        rest.push(bytes[k]);
        k = k + 1;
        proof {
            assert(rest@ =~= bytes@.subrange(at as int, k as int));
        }
    }
    rest
}

} // verus!
