//! The uniform failure kinds of the library.

use vstd::prelude::*;

verus! {

/// Everything that can go wrong while reading, writing or indexing a
/// record file.
///
/// Each record read is independently fallible; an error terminates the
/// reader that produced it but does not poison sibling readers.
#[derive(Debug, Clone, PartialEq, Eq)]
pub enum Error {
    /// An underlying byte-source or byte-sink failure, with the message
    /// of the host error.
    IoError(String),
    /// CRC verification failed; both 32-bit values are reported.
    ChecksumMismatch { found: u32, expect: u32 },
    /// An index position beyond the end of the sidecar index.
    OutOfRange,
    /// A truncated frame, an impossible length, or a short read that is
    /// not at a frame boundary.
    DataLoss(String),
    /// A payload schema decoder failure, propagated from a collaborator.
    DecodeError(String),
    /// An asynchronous submission queue rejected a push beyond the
    /// configured queue depth.
    PushError,
}

impl Error {
    /// True exactly for the `ChecksumMismatch` variant.
    pub fn is_checksum_mismatch(&self) -> (r: bool)
        ensures
            r == self is ChecksumMismatch,
    {
        match self {
            Error::ChecksumMismatch { .. } => true,
            _ => false,
        }
    }

    /// True exactly for the `DataLoss` variant.
    pub fn is_data_loss(&self) -> (r: bool)
        ensures
            r == self is DataLoss,
    {
        match self {
            Error::DataLoss(_) => true,
            _ => false,
        }
    }
}

} // verus!
