//! A verified reader, writer, and indexer for the TFRecord container
//! format: a self-delimiting sequence of length-prefixed, CRC-protected
//! binary records.
//!
//! The on-disk frame and its integrity rules live in [`frame`] and
//! [`crc32c`]; [`sync_writer`] and [`sync_reader`] stream whole frames
//! over an in-memory byte sink or source; [`indexing`] reads and writes
//! the fixed-width `(offset, length)` sidecar index.  The asynchronous
//! engines' decision logic lives in [`ticket`] (the per-file read state
//! machine), [`single_file`] (depth-one reading), [`multi_files`]
//! (interleaved reading of many files), [`random_reader`] (one vectored
//! read per index entry), and [`chunk_reader`] (whole-file chunking,
//! reordering, and buffered parsing).  The laws that tie the writer and
//! every reader together are stated and proved in [`laws`].

pub mod chunk_reader;
pub mod crc32c;
pub mod error;
pub mod frame;
pub mod indexing;
pub mod laws;
pub mod multi_files;
pub mod random_reader;
pub mod sharding;
pub mod single_file;
pub mod sync_reader;
pub mod sync_writer;
pub mod tensorflow;
pub mod ticket;

use vstd::prelude::*;

verus! {

pub fn add(left: usize, right: usize) -> (r: usize)
    requires
        left + right <= usize::MAX,
    ensures
        r == left + right,
{
    left + right
}

} // verus!
