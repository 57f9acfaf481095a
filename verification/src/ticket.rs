//! The per-file read state machine of the asynchronous engines.
//!
//! A file is consumed by alternating two vectored-read shapes: a
//! *header-shape* read (8 length bytes, 4 length-CRC bytes) and a
//! *body-shape* read (payload, payload CRC, and the next record's 8
//! length bytes and 4 length-CRC bytes).  The cursor below decides, from
//! one completion at a time, what was read, what to verify, what to
//! deliver, and what to submit next.  The host that owns the kernel
//! queue performs the reads and hands the filled regions back.
//!
//! Short reads follow the engine's cross-mode rule: a completion that
//! ends inside a record discards the partial data and is a clean end of
//! the file.  A CRC mismatch is fatal for the file: the frame boundary
//! is no longer trustworthy, so no further records are produced from it.

use crate::crc32c::verify_masked_crc;
use crate::error::Error;
use vstd::bytes::{spec_u32_from_le_bytes, spec_u64_from_le_bytes, u64_from_le_bytes, u32_from_le_bytes};
use vstd::prelude::*;

verus! {

/// One vectored read to submit: the file offset it starts at and the
/// byte size of each region, in order.
pub struct ReadPlan {
    /// The file offset of the first region.
    pub offset: u64,
    /// The size of each iovec region, in order.
    pub region_sizes: Vec<u64>,
}

/// Which read shape the cursor is waiting on.
pub enum CursorState {
    /// Waiting on a header-shape read: the record's length field and
    /// its CRC.
    Header,
    /// Waiting on a body-shape read: `payload_len` payload bytes, the
    /// payload CRC, and the next record's header.
    Body { payload_len: u64 },
}

/// The read state machine of one file.
pub struct FileCursor {
    state: CursorState,
    offset: u64,
    check_integrity: bool,
    done: bool,
}

/// What one completion produced.
pub enum Step {
    /// Clean end of this file: nothing further is submitted for it.
    Finished,
    /// A header was decoded; the next plan reads the record body.
    Advanced,
    /// One payload finished materializing.  When `more` is false the
    /// file ended right after it and nothing further is submitted.
    Delivered { payload: Vec<u8>, more: bool },
}

impl FileCursor {
    /// Which read shape the cursor is waiting on.
    pub closed spec fn state(&self) -> CursorState {
        self.state
    }

    /// The file offset the next submitted read starts at.
    pub closed spec fn offset(&self) -> u64 {
        self.offset
    }

    /// Whether CRC verification is on.
    pub closed spec fn check(&self) -> bool {
        self.check_integrity
    }

    /// Whether the file has ended (cleanly or fatally): no further
    /// reads are submitted for it.
    pub closed spec fn done(&self) -> bool {
        self.done
    }

    /// The total bytes the pending read shape asks for.
    pub open spec fn requested(&self) -> int {
        match self.state() {
            CursorState::Header => 12,
            CursorState::Body { payload_len } => payload_len + 16,
        }
    }

    /// A fresh cursor: a header-shape read at offset zero.
    pub fn new(check_integrity: bool) -> (r: Self)
        ensures
            r.state() is Header,
            r.offset() == 0,
            r.check() == check_integrity,
            !r.done(),
    {
        FileCursor { state: CursorState::Header, offset: 0, check_integrity, done: false }
    }

    /// The vectored read to submit next: a header shape or a body
    /// shape, at the cursor's offset.
    pub fn plan(&self) -> (r: ReadPlan)
        requires
            !self.done(),
        ensures
            r.offset == self.offset(),
            self.state() is Header ==> r.region_sizes@ == seq![8u64, 4u64],
            (self.state() matches CursorState::Body { payload_len } ==> r.region_sizes@ == seq![
                payload_len,
                4u64,
                8u64,
                4u64,
            ]),
    {
        match self.state {
            CursorState::Header => {
                let mut sizes: Vec<u64> = Vec::new();
                sizes.push(8);
                sizes.push(4);
                proof {
                    assert(sizes@ =~= seq![8u64, 4u64]);
                }
                ReadPlan { offset: self.offset, region_sizes: sizes }
            },
            CursorState::Body { payload_len } => {
                let mut sizes: Vec<u64> = Vec::new();
                sizes.push(payload_len);
                sizes.push(4);
                sizes.push(8);
                sizes.push(4);
                proof {
                    assert(sizes@ =~= seq![payload_len, 4u64, 8u64, 4u64]);
                }
                ReadPlan { offset: self.offset, region_sizes: sizes }
            },
        }
    }

    /// The regions handed back match the pending read shape.
    pub open spec fn regions_match(&self, regions: Seq<Vec<u8>>) -> bool {
        match self.state() {
            CursorState::Header => {
                &&& regions.len() == 2
                &&& regions[0]@.len() == 8
                &&& regions[1]@.len() == 4
            },
            CursorState::Body { payload_len } => {
                &&& regions.len() == 4
                &&& regions[0]@.len() == payload_len
                &&& regions[1]@.len() == 4
                &&& regions[2]@.len() == 8
                &&& regions[3]@.len() == 4
            },
        }
    }

    /// What a completion of a header-shape read leads to.
    pub open spec fn header_outcome(
        &self,
        regions: Seq<Vec<u8>>,
        bytes_read: int,
        r: Result<Step, Error>,
        post: FileCursor,
    ) -> bool {
        let len_bytes = regions[0]@;
        let stored = spec_u32_from_le_bytes(regions[1]@);
        if bytes_read < 12 {
            r == Ok::<Step, Error>(Step::Finished) && post.done()
        } else if self.check() && masked(len_bytes) != stored {
            r == Err::<Step, Error>(
                Error::ChecksumMismatch { found: masked(len_bytes), expect: stored },
            ) && post.done()
        } else {
            &&& r == Ok::<Step, Error>(Step::Advanced)
            &&& !post.done()
            &&& post.state() == (CursorState::Body {
                payload_len: spec_u64_from_le_bytes(len_bytes),
            })
            &&& post.offset() == self.offset() + 12
        }
    }

    /// What a completion of a body-shape read leads to.
    pub open spec fn body_outcome(
        &self,
        payload_len: u64,
        regions: Seq<Vec<u8>>,
        bytes_read: int,
        r: Result<Step, Error>,
        post: FileCursor,
    ) -> bool {
        let payload = regions[0]@;
        let stored_payload_crc = spec_u32_from_le_bytes(regions[1]@);
        let next_len_bytes = regions[2]@;
        let stored_next_crc = spec_u32_from_le_bytes(regions[3]@);
        if bytes_read < payload_len + 4 {
            r == Ok::<Step, Error>(Step::Finished) && post.done()
        } else if self.check() && masked(payload) != stored_payload_crc {
            r == Err::<Step, Error>(
                Error::ChecksumMismatch { found: masked(payload), expect: stored_payload_crc },
            ) && post.done()
        } else if bytes_read < payload_len + 16 {
            &&& r matches Ok(Step::Delivered { payload: v, more }) && v@ == payload && more
                == false
            &&& post.done()
        } else if self.check() && masked(next_len_bytes) != stored_next_crc {
            r == Err::<Step, Error>(
                Error::ChecksumMismatch { found: masked(next_len_bytes), expect: stored_next_crc },
            ) && post.done()
        } else {
            &&& r matches Ok(Step::Delivered { payload: v, more }) && v@ == payload && more == true
            &&& !post.done()
            &&& post.state() == (CursorState::Body {
                payload_len: spec_u64_from_le_bytes(next_len_bytes),
            })
            &&& post.offset() == self.offset() + payload_len + 16
        }
    }

    /// Consume one completion: `regions` are the filled iovec regions of
    /// the read this cursor planned, of which the kernel filled the
    /// first `bytes_read` bytes.
    pub fn on_completion(&mut self, regions: Vec<Vec<u8>>, bytes_read: usize) -> (r: Result<
        Step,
        Error,
    >)
        requires
            !old(self).done(),
            old(self).regions_match(regions@),
            bytes_read <= old(self).requested(),
            old(self).offset() + old(self).requested() <= u64::MAX,
        ensures
            final(self).check() == old(self).check(),
            match old(self).state() {
                CursorState::Header => old(self).header_outcome(
                    regions@,
                    bytes_read as int,
                    r,
                    *final(self),
                ),
                CursorState::Body { payload_len } => old(self).body_outcome(
                    payload_len,
                    regions@,
                    bytes_read as int,
                    r,
                    *final(self),
                ),
            },
    {
        match self.state {
            CursorState::Header => {
                if bytes_read < 12 {
                    self.done = true;
                    return Ok(Step::Finished);
                }
                let length = u64_from_le_bytes(regions[0].as_slice());
                if self.check_integrity {
                    let stored = u32_from_le_bytes(regions[1].as_slice());
                    match verify_masked_crc(regions[0].as_slice(), stored) {
                        Ok(_) => {},
                        Err(e) => {
                            self.done = true;
                            return Err(e);
                        },
                    }
                }
                self.state = CursorState::Body { payload_len: length };
                self.offset = self.offset + 12;
                Ok(Step::Advanced)
            },
            CursorState::Body { payload_len } => {
                let br = bytes_read as u64;
                if br < payload_len || br - payload_len < 4 {
                    self.done = true;
                    return Ok(Step::Finished);
                }
                if self.check_integrity {
                    let stored = u32_from_le_bytes(regions[1].as_slice());
                    match verify_masked_crc(regions[0].as_slice(), stored) {
                        Ok(_) => {},
                        Err(e) => {
                            self.done = true;
                            return Err(e);
                        },
                    }
                }
                if br - payload_len < 16 {
                    self.done = true;
                    let mut regions = regions;
                    let payload = regions.remove(0);
                    return Ok(Step::Delivered { payload, more: false });
                }
                let next_length = u64_from_le_bytes(regions[2].as_slice());
                if self.check_integrity {
                    let stored = u32_from_le_bytes(regions[3].as_slice());
                    match verify_masked_crc(regions[2].as_slice(), stored) {
                        Ok(_) => {},
                        Err(e) => {
                            self.done = true;
                            return Err(e);
                        },
                    }
                }
                self.state = CursorState::Body { payload_len: next_length };
                self.offset = self.offset + payload_len + 16;
                let mut regions = regions;
                let payload = regions.remove(0);
                Ok(Step::Delivered { payload, more: true })
            },
        }
    }
}

/// Abbreviation used by the outcome predicates above.
pub open spec fn masked(bytes: Seq<u8>) -> u32 {
    crate::crc32c::masked_crc_of(bytes)
}

} // verus!
