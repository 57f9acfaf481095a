//! The depth-one engine over a single file: one in-flight read, the
//! cheapest asynchronous mode.
//!
//! The per-record decision logic lives in [`crate::ticket::FileCursor`];
//! this module advances that cursor over an in-memory file image exactly
//! as a kernel-queue host advances it over a real file: plan a read,
//! hand the filled regions back, collect what is delivered.  A read that
//! would run past the end of the image completes short, and a short read
//! mid-record ends the stream cleanly.

use crate::error::Error;
use crate::frame::{parse_step, records_from, seq_views, stop_step, ParseStep};
use crate::ticket::{CursorState, FileCursor, Step};
use vstd::bytes::{spec_u32_from_le_bytes, spec_u64_from_le_bytes};
use vstd::prelude::*;
use vstd::slice::{slice_subrange, slice_to_vec};

verus! {

/// The record boundary a cursor has consumed up to: the start of the
/// record its pending read belongs to.
pub open spec fn cursor_boundary(c: FileCursor) -> int {
    match c.state() {
        CursorState::Header => 0,
        CursorState::Body { .. } => c.offset() - 12,
    }
}

/// The cursor's state is faithful to `file`: its offset sits just after
/// a record boundary whose header it has already decoded and, with
/// verification on, already checked.
pub open spec fn cursor_tracks(c: FileCursor, file: Seq<u8>) -> bool {
    let b = cursor_boundary(c);
    &&& !c.done()
    &&& 0 <= b <= file.len()
    &&& (c.state() is Header ==> c.offset() == 0)
    &&& (c.state() matches CursorState::Body { payload_len } ==> {
        &&& c.offset() == b + 12
        &&& b + 12 <= file.len()
        &&& payload_len == spec_u64_from_le_bytes(file.subrange(b, b + 8))
        &&& (c.check() ==> crate::crc32c::masked_crc_of(file.subrange(b, b + 8))
            == spec_u32_from_le_bytes(file.subrange(b + 8, b + 12)))
    })
}

/// What one engine step over a file produced.
pub enum SlotStep {
    /// A header was consumed; nothing is delivered yet.
    Advanced,
    /// One payload finished materializing.  When `more` is false the
    /// file ended right after it.
    Delivered { payload: Vec<u8>, more: bool },
    /// The file ended cleanly with nothing further to deliver.
    Ended,
}

/// Drive one read of `cursor` against the in-memory file image:
/// simulate the kernel completing the cursor's planned read (short
/// where the image ends) and let the cursor consume it.
pub fn file_step(cursor: &mut FileCursor, file: &Vec<u8>) -> (r: Result<SlotStep, Error>)
    requires
        cursor_tracks(*old(cursor), file@),
        file@.len() + 32 <= u64::MAX,
    ensures
        final(cursor).check() == old(cursor).check(),
        ({
            let check = old(cursor).check();
            let b = cursor_boundary(*old(cursor));
            match r {
                Ok(SlotStep::Advanced) => {
                    &&& cursor_tracks(*final(cursor), file@)
                    &&& cursor_boundary(*final(cursor)) == b
                    &&& final(cursor).offset() > old(cursor).offset()
                },
                Ok(SlotStep::Delivered { payload, more }) => {
                    &&& parse_step(file@, b, check) matches ParseStep::Rec { payload: p, next }
                    &&& payload@ == parse_step(file@, b, check)->Rec_payload
                    &&& ({
                        let next = parse_step(file@, b, check)->Rec_next;
                        &&& b < next <= file@.len()
                        &&& if more {
                            &&& cursor_tracks(*final(cursor), file@)
                            &&& cursor_boundary(*final(cursor)) == next
                            &&& final(cursor).offset() > old(cursor).offset()
                        } else {
                            &&& records_from(file@, next, check) == Seq::<Seq<u8>>::empty()
                            &&& !(stop_step(file@, next, check) is Corrupt)
                        }
                    })
                },
                Ok(SlotStep::Ended) => {
                    &&& records_from(file@, b, check) == Seq::<Seq<u8>>::empty()
                    &&& !(stop_step(file@, b, check) is Corrupt)
                },
                Err(e) => {
                    &&& stop_step(file@, b, check) matches ParseStep::Corrupt { found, expect }
                    &&& e == (Error::ChecksumMismatch {
                        found: stop_step(file@, b, check)->Corrupt_found,
                        expect: stop_step(file@, b, check)->Corrupt_expect,
                    })
                },
            }
        }),
{
    let ghost check = old(cursor).check();
    let ghost b = cursor_boundary(*old(cursor));
    let flen = file.len();
    let plan = cursor.plan();
    if plan.region_sizes.len() == 2 {
        // Header-shape read at the start of the file.
        if flen < 12 {
            return Ok(SlotStep::Ended);
        }
        let mut regions: Vec<Vec<u8>> = Vec::new();
        regions.push(slice_to_vec(slice_subrange(file.as_slice(), 0, 8)));
        regions.push(slice_to_vec(slice_subrange(file.as_slice(), 8, 12)));
        match cursor.on_completion(regions, 12) {
            Ok(Step::Advanced) => Ok(SlotStep::Advanced),
            Ok(_) => {
                proof {
                    assert(false);
                }
                Ok(SlotStep::Ended)
            },
            Err(e) => Err(e),
        }
    } else {
        // Body-shape read: payload, payload CRC, next header.
        let offset = plan.offset;
        let length = plan.region_sizes[0];
        let avail = flen as u64 - offset;
        if avail < 4 || avail - 4 < length {
            // The read would complete short inside the record: the
            // partial data is discarded and the stream ends.
            return Ok(SlotStep::Ended);
        }
        let lus = length as usize;
        let o = offset as usize;
        let mut regions: Vec<Vec<u8>> = Vec::new();
        regions.push(slice_to_vec(slice_subrange(file.as_slice(), o, o + lus)));
        regions.push(slice_to_vec(slice_subrange(file.as_slice(), o + lus, o + lus + 4)));
        let full = avail - 4 - length >= 12;
        let bytes_read: usize;
        if full {
            regions.push(slice_to_vec(slice_subrange(file.as_slice(), o + lus + 4, o + lus + 12)));
            regions.push(
                slice_to_vec(slice_subrange(file.as_slice(), o + lus + 12, o + lus + 16)),
            );
            bytes_read = lus + 16;
        } else {
            regions.push(vec![0u8; 8]);
            regions.push(vec![0u8; 4]);
            bytes_read = avail as usize;
        }
        let ghost payload_seq = file@.subrange(b + 12, b + 12 + length as int);
        let ghost next = b + 16 + length as int;
        match cursor.on_completion(regions, bytes_read) {
            Ok(Step::Delivered { payload, more }) => {
                proof {
                    assert(parse_step(file@, b, check) == (ParseStep::Rec {
                        payload: payload_seq,
                        next,
                    }));
                    if !more {
                        assert(records_from(file@, next, check) =~= Seq::<Seq<u8>>::empty());
                    }
                }
                Ok(SlotStep::Delivered { payload, more })
            },
            Ok(_) => {
                proof {
                    assert(false);
                }
                Ok(SlotStep::Ended)
            },
            Err(e) => {
                proof {
                    if check && crate::ticket::masked(payload_seq) != spec_u32_from_le_bytes(
                        file@.subrange(b + 12 + length as int, b + 16 + length as int),
                    ) {
                    } else {
                        assert(parse_step(file@, b, check) == (ParseStep::Rec {
                            payload: payload_seq,
                            next,
                        }));
                    }
                }
                Err(e)
            },
        }
    }
}

/// Read every record of the in-memory file image through the depth-one
/// cursor, delivering payloads in file order.
///
/// The result is exactly what the streaming reader describes: every
/// whole record before the stream stops, and a `ChecksumMismatch` error
/// only where verification is on and a stored CRC disagrees.  A file
/// that merely ends inside a frame ends the stream cleanly.
pub fn read_file_records(file: &Vec<u8>, check_integrity: bool) -> (r: Result<Vec<Vec<u8>>, Error>)
    requires
        file@.len() + 32 <= u64::MAX,
    ensures
        match stop_step(file@, 0, check_integrity) {
            ParseStep::Corrupt { found, expect } => r == Err::<Vec<Vec<u8>>, Error>(
                Error::ChecksumMismatch { found, expect },
            ),
            _ => (r matches Ok(out) && seq_views(out@) == records_from(file@, 0, check_integrity)),
        },
{
    let mut cursor = FileCursor::new(check_integrity);
    let mut out: Vec<Vec<u8>> = Vec::new();
    proof {
        assert(seq_views(out@) + records_from(file@, 0, check_integrity) =~= records_from(
            file@,
            0,
            check_integrity,
        ));
    }
    loop
        invariant
            file@.len() + 32 <= u64::MAX,
            cursor.check() == check_integrity,
            cursor_tracks(cursor, file@),
            records_from(file@, 0, check_integrity) == seq_views(out@) + records_from(
                file@,
                cursor_boundary(cursor),
                check_integrity,
            ),
            stop_step(file@, 0, check_integrity) == stop_step(
                file@,
                cursor_boundary(cursor),
                check_integrity,
            ),
        decreases file@.len() + 17 - cursor.offset(),
    {
        let ghost b = cursor_boundary(cursor);
        match file_step(&mut cursor, file) {
            Ok(SlotStep::Advanced) => {},
            Ok(SlotStep::Delivered { payload, more }) => {
                let ghost v = payload@;
                let ghost next = parse_step(file@, b, check_integrity)->Rec_next;
                let ghost prev = out@;
                out.push(payload);
                proof {
                    assert(seq_views(out@) =~= seq_views(prev).push(v));
                    assert(seq_views(prev).push(v) + records_from(file@, next, check_integrity)
                        =~= seq_views(prev) + (seq![v] + records_from(
                        file@,
                        next,
                        check_integrity,
                    )));
                }
                if !more {
                    proof {
                        assert(seq_views(out@) + Seq::<Seq<u8>>::empty() =~= seq_views(out@));
                    }
                    return Ok(out);
                }
            },
            Ok(SlotStep::Ended) => {
                proof {
                    assert(seq_views(out@) + Seq::<Seq<u8>>::empty() =~= seq_views(out@));
                }
                return Ok(out);
            },
            Err(e) => {
                return Err(e);
            },
        }
    }
}

} // verus!
