//! LiteArrow: an Arrow-oriented columnar file format.
//!
//! One file describes one table. Rows are divided into blocks; every block
//! stores one independently encoded chunk per column. The schema and block
//! index live near the end of the file, followed by a fixed-size trailer.
//!
//! This crate holds the byte-level parts of the format with their proofs:
//! the checksum; the integer, boolean and floating-point compression schemes;
//! the chunk layouts of integer, float, boolean and string columns; the file
//! metadata and trailer; every decision of the reader and the writer; and the
//! benchmark's generated workloads.

mod le;
pub mod bitmap;
mod math;

pub mod bench;
pub mod checksum;
pub mod codec;
pub mod compression;
pub mod error;
pub mod format;
pub mod reader;
pub mod writer;

pub use checksum::crc32c;
pub use error::{Error, Result};
