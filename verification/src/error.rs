//! Errors of LiteArrow files and codecs.
use crate::compression;
use vstd::prelude::*;

verus! {

/// Why reading or writing a LiteArrow file failed.
#[derive(Debug, PartialEq, Eq)]
pub enum Error {
    UnexpectedEndOfInput,
    InvalidMagic { structure: &'static str },
    InvalidUtf8,
    InvalidMetadata(&'static str),
    ChecksumMismatch { structure: &'static str },
    Arrow(String),
    Io(String),
    IntegerOverflow,
}

/// Result of LiteArrow operations.
pub type Result<T> = std::result::Result<T, Error>;

/// A compression error reported as invalid metadata with the same text.
pub fn from_compression(error: compression::Error) -> (converted: Error)
    ensures
        converted == Error::InvalidMetadata(error.0),
{
    Error::InvalidMetadata(error.0)
}

/// Text of the error that reading past the end of a byte buffer reports.
pub open spec fn end_of_buffer_text() -> Seq<char> {
    "failed to fill whole buffer"@
}

/// The error that reading past the end of a byte buffer reports.
pub fn end_of_buffer() -> (error: Error)
    ensures
        error matches Error::Io(text) && text@ == end_of_buffer_text(),
{
    Error::Io(<String as vstd::string::StringExecFns>::from_str("failed to fill whole buffer"))
}

} // verus!
