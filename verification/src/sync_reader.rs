//! The synchronous streaming record reader: frame consumption over an
//! in-memory byte source, with optional checksum verification and
//! byte-offset tracking.
//!
//! Each call to [`TfrecordReader::read`] returns an owned copy of exactly
//! one payload.  Once the reader has returned an error, further calls
//! return a clean end.

use crate::crc32c::verify_masked_crc;
use crate::error::Error;
use crate::frame::{parse_step, ParseStep};
use vstd::bytes::{u32_from_le_bytes, u64_from_le_bytes};
use vstd::prelude::*;
use vstd::slice::{slice_subrange, slice_to_vec};

verus! {

/// Streaming frame consumption over a byte source.
pub struct TfrecordReader {
    reader: Vec<u8>,
    pos: usize,
    check_integrity: bool,
    failed: bool,
}

impl TfrecordReader {
    /// The bytes of the source.
    pub closed spec fn bytes(&self) -> Seq<u8> {
        self.reader@
    }

    /// The current byte offset into the source.
    pub closed spec fn pos(&self) -> int {
        self.pos as int
    }

    /// Whether CRC verification is on.
    pub closed spec fn check(&self) -> bool {
        self.check_integrity
    }

    /// Whether a previous read returned an error.
    pub closed spec fn failed(&self) -> bool {
        self.failed
    }

    /// The position never runs past the end of the source.
    pub open spec fn wf(&self) -> bool {
        0 <= self.pos() <= self.bytes().len()
    }

    /// Wrap a byte source, starting at offset zero.
    pub fn new(reader: Vec<u8>, check_integrity: bool) -> (r: Self)
        ensures
            r.wf(),
            r.bytes() == reader@,
            r.pos() == 0,
            r.check() == check_integrity,
            !r.failed(),
    {
        TfrecordReader { reader, pos: 0, check_integrity, failed: false }
    }

    /// Read one record.
    ///
    /// Returns `Ok(Some(payload))` for a whole frame, `Ok(None)` at a
    /// clean end of file, `DataLoss` for a partial frame, and
    /// `ChecksumMismatch` when verification is on and a CRC field
    /// disagrees — exactly as `parse_step` describes at the current
    /// position.
    pub fn read(&mut self) -> (r: Result<Option<Vec<u8>>, Error>)
        requires
            old(self).wf(),
        ensures
            final(self).wf(),
            final(self).bytes() == old(self).bytes(),
            final(self).check() == old(self).check(),
            old(self).failed() ==> (r matches Ok(None) && *final(self) == *old(self)),
            !old(self).failed() ==> match parse_step(
                old(self).bytes(),
                old(self).pos(),
                old(self).check(),
            ) {
                ParseStep::Rec { payload, next } => {
                    &&& r matches Ok(Some(v)) && v@ == payload
                    &&& final(self).pos() == next
                    &&& !final(self).failed()
                },
                ParseStep::End => {
                    &&& r matches Ok(None)
                    &&& *final(self) == *old(self)
                },
                ParseStep::Truncated => {
                    &&& r matches Err(e) && e is DataLoss
                    &&& final(self).failed()
                },
                ParseStep::Corrupt { found, expect } => {
                    &&& r matches Err(e) && e == (Error::ChecksumMismatch { found, expect })
                    &&& final(self).failed()
                },
            },
    {
        if self.failed {
            return Ok(None);
        }
        let n = self.reader.len();
        if self.pos == n {
            return Ok(None);
        }
        if n - self.pos < 12 {
            self.failed = true;
            return Err(Error::DataLoss("frame truncated inside the record header".to_owned()));
        }
        let length_slice = slice_subrange(self.reader.as_slice(), self.pos, self.pos + 8);
        let length_crc_slice = slice_subrange(self.reader.as_slice(), self.pos + 8, self.pos + 12);
        let expect_length_crc = u32_from_le_bytes(length_crc_slice);
        if self.check_integrity {
            match verify_masked_crc(length_slice, expect_length_crc) {
                Ok(_) => {},
                Err(e) => {
                    self.failed = true;
                    return Err(e);
                },
            }
        }
        let length = u64_from_le_bytes(length_slice);
        let remaining = n - self.pos;
        if remaining < 16 || length > (remaining - 16) as u64 {
            self.failed = true;
            return Err(Error::DataLoss("frame truncated inside the payload".to_owned()));
        }
        let length_us = length as usize;
        let payload_slice = slice_subrange(
            self.reader.as_slice(),
            self.pos + 12,
            self.pos + 12 + length_us,
        );
        let data_crc_slice = slice_subrange(
            self.reader.as_slice(),
            self.pos + 12 + length_us,
            self.pos + 16 + length_us,
        );
        let expect_data_crc = u32_from_le_bytes(data_crc_slice);
        if self.check_integrity {
            match verify_masked_crc(payload_slice, expect_data_crc) {
                Ok(_) => {},
                Err(e) => {
                    self.failed = true;
                    return Err(e);
                },
            }
        }
        let out = slice_to_vec(payload_slice);
        self.pos = self.pos + 16 + length_us;
        Ok(Some(out))
    }

    /// Turn CRC verification on or off for subsequent reads.
    pub fn set_check_integrity(&mut self, check_integrity: bool)
        ensures
            final(self).bytes() == old(self).bytes(),
            final(self).pos() == old(self).pos(),
            final(self).failed() == old(self).failed(),
            final(self).check() == check_integrity,
    {
        self.check_integrity = check_integrity;
    }

    /// The current byte offset into the source.
    pub fn position(&mut self) -> (r: Result<u64, Error>)
        ensures
            *final(self) == *old(self),
            r matches Ok(p) && p == old(self).pos(),
    {
        Ok(self.pos as u64)
    }

    /// Read one record and report it as its `(offset, total_length)`
    /// index entry: the offset where its frame starts and the whole
    /// framed length.
    pub fn read_index(&mut self) -> (r: Result<Option<(u64, u64)>, Error>)
        requires
            old(self).wf(),
        ensures
            final(self).wf(),
            final(self).bytes() == old(self).bytes(),
            final(self).check() == old(self).check(),
            old(self).failed() ==> (r matches Ok(None) && *final(self) == *old(self)),
            !old(self).failed() ==> match parse_step(
                old(self).bytes(),
                old(self).pos(),
                old(self).check(),
            ) {
                ParseStep::Rec { payload, next } => {
                    &&& r matches Ok(Some(p)) && p.0 == old(self).pos() && p.1 == next - old(
                        self,
                    ).pos()
                    &&& final(self).pos() == next
                    &&& !final(self).failed()
                },
                ParseStep::End => {
                    &&& r matches Ok(None)
                    &&& *final(self) == *old(self)
                },
                ParseStep::Truncated => {
                    &&& r matches Err(e) && e is DataLoss
                    &&& final(self).failed()
                },
                ParseStep::Corrupt { found, expect } => {
                    &&& r matches Err(e) && e == (Error::ChecksumMismatch { found, expect })
                    &&& final(self).failed()
                },
            },
    {
        let start = self.pos;
        match self.read() {
            Ok(Some(_)) => Ok(Some((start as u64, (self.pos - start) as u64))),
            Ok(None) => Ok(None),
            Err(e) => Err(e),
        }
    }

    /// Consume the reader into a lazy sequence of index entries.
    pub fn indices(self) -> (r: Indices)
        ensures
            r.bytes() == self.bytes(),
            r.pos() == self.pos(),
            r.check() == self.check(),
            r.failed() == self.failed(),
    {
        Indices { reader: self }
    }
}

/// A lazy sequence yielding the `(offset, total_length)` pair of each
/// record, obtained by observing the reader position before and after
/// reading it.  This is how the sidecar indexer is built.
pub struct Indices {
    reader: TfrecordReader,
}

impl Indices {
    /// The bytes of the source.
    pub closed spec fn bytes(&self) -> Seq<u8> {
        self.reader.bytes()
    }

    /// The current byte offset into the source.
    pub closed spec fn pos(&self) -> int {
        self.reader.pos()
    }

    /// Whether CRC verification is on.
    pub closed spec fn check(&self) -> bool {
        self.reader.check()
    }

    /// Whether a previous step returned an error.
    pub closed spec fn failed(&self) -> bool {
        self.reader.failed()
    }

    /// The position never runs past the end of the source.
    pub open spec fn wf(&self) -> bool {
        0 <= self.pos() <= self.bytes().len()
    }

    /// The next index entry, or `None` once the source is exhausted or
    /// a previous step failed.
    pub fn next(&mut self) -> (r: Option<Result<(u64, u64), Error>>)
        requires
            old(self).wf(),
        ensures
            final(self).wf(),
            final(self).bytes() == old(self).bytes(),
            final(self).check() == old(self).check(),
            old(self).failed() ==> r is None && *final(self) == *old(self),
            !old(self).failed() ==> match parse_step(
                old(self).bytes(),
                old(self).pos(),
                old(self).check(),
            ) {
                ParseStep::Rec { payload, next } => {
                    &&& r matches Some(Ok(p)) && p.0 == old(self).pos() && p.1 == next - old(
                        self,
                    ).pos()
                    &&& final(self).pos() == next
                    &&& !final(self).failed()
                },
                ParseStep::End => {
                    &&& r is None
                    &&& *final(self) == *old(self)
                },
                ParseStep::Truncated => {
                    &&& r matches Some(Err(e)) && e is DataLoss
                    &&& final(self).failed()
                },
                ParseStep::Corrupt { found, expect } => {
                    &&& r matches Some(Err(e)) && e == (Error::ChecksumMismatch { found, expect })
                    &&& final(self).failed()
                },
            },
    {
        match self.reader.read_index() {
            Ok(Some(p)) => Some(Ok(p)),
            Ok(None) => None,
            Err(e) => Some(Err(e)),
        }
    }
}

} // verus!
