//! The indexed random reader: one whole-record vectored read per record,
//! with the four region sizes taken from a sidecar index entry.
//!
//! There is no per-record state machine: every completion yields one
//! payload, and both CRCs can be verified against the four regions
//! directly.  Records are read in whatever order the index presents
//! them, so shuffling or reversing the index reorders the stream.

use crate::crc32c::verify_masked_crc;
use crate::error::Error;
use crate::frame::seq_views;
use crate::indexing::IndexReader;
use crate::ticket::ReadPlan;
use vstd::bytes::{spec_u32_from_le_bytes, spec_u64_from_le_bytes};
use vstd::prelude::*;
use vstd::slice::{slice_subrange, slice_to_vec};

verus! {

/// An index entry addresses a whole frame inside the file: at least the
/// 16 bytes of overhead, ending within the file.
pub open spec fn entry_in_range(file: Seq<u8>, entry: (u64, u64)) -> bool {
    &&& entry.1 >= 16
    &&& entry.0 + entry.1 <= file.len()
}

/// What reading every indexed record of `file` yields.
pub enum IndexedOutcome {
    /// Every record came back whole: the payloads, in index order.
    Records(Seq<Seq<u8>>),
    /// A CRC field of some record disagreed with the recomputed value.
    Corrupt { found: u32, expect: u32 },
    /// An entry addressed bytes outside the file, or fewer than one
    /// frame of them.
    BadEntry,
}

/// Read the records `entries` address inside `file`, first to last,
/// verifying CRCs when `check` is set.
pub open spec fn indexed_read(file: Seq<u8>, entries: Seq<(u64, u64)>, check: bool) -> IndexedOutcome
    decreases entries.len(),
{
    if entries.len() == 0 {
        IndexedOutcome::Records(Seq::empty())
    } else {
        let e = entries[0];
        if !entry_in_range(file, e) {
            IndexedOutcome::BadEntry
        } else {
            let off = e.0 as int;
            let total = e.1 as int;
            let len_bytes = file.subrange(off, off + 8);
            let stored_len_crc = spec_u32_from_le_bytes(file.subrange(off + 8, off + 12));
            let payload = file.subrange(off + 12, off + total - 4);
            let stored_payload_crc = spec_u32_from_le_bytes(
                file.subrange(off + total - 4, off + total),
            );
            if check && crate::crc32c::masked_crc_of(len_bytes) != stored_len_crc {
                IndexedOutcome::Corrupt {
                    found: crate::crc32c::masked_crc_of(len_bytes),
                    expect: stored_len_crc,
                }
            } else if check && crate::crc32c::masked_crc_of(payload) != stored_payload_crc {
                IndexedOutcome::Corrupt {
                    found: crate::crc32c::masked_crc_of(payload),
                    expect: stored_payload_crc,
                }
            } else {
                match indexed_read(file, entries.drop_first(), check) {
                    IndexedOutcome::Records(rest) => IndexedOutcome::Records(seq![payload] + rest),
                    other => other,
                }
            }
        }
    }
}

/// The whole-record read for one index entry: 8 length bytes, 4 length
/// CRC bytes, `length - 16` payload bytes, 4 payload CRC bytes, at the
/// entry's offset.  An entry shorter than one frame is impossible data.
pub fn whole_record_plan(offset: u64, length: u64) -> (r: Result<ReadPlan, Error>)
    ensures
        length >= 16 ==> (r matches Ok(p) && p.offset == offset && p.region_sizes@ == seq![
            8u64,
            4u64,
            (length - 16) as u64,
            4u64,
        ]),
        length < 16 ==> (r matches Err(e) && e is DataLoss),
{
    if length < 16 {
        return Err(Error::DataLoss("index entry shorter than one frame".to_owned()));
    }
    let mut sizes: Vec<u64> = Vec::new();
    sizes.push(8);
    sizes.push(4);
    sizes.push(length - 16);
    sizes.push(4);
    proof {
        assert(sizes@ =~= seq![8u64, 4u64, (length - 16) as u64, 4u64]);
    }
    Ok(ReadPlan { offset, region_sizes: sizes })
}

/// Verify the four regions of one completed whole-record read and hand
/// the payload out: the length CRC is checked first, then the payload
/// CRC, and the payload region is returned untouched.
pub fn check_whole_record(regions: Vec<Vec<u8>>, check_integrity: bool) -> (r: Result<
    Vec<u8>,
    Error,
>)
    requires
        regions@.len() == 4,
        regions@[0]@.len() == 8,
        regions@[1]@.len() == 4,
        regions@[3]@.len() == 4,
    ensures
        ({
            let len_bytes = regions@[0]@;
            let stored_len_crc = spec_u32_from_le_bytes(regions@[1]@);
            let payload = regions@[2]@;
            let stored_payload_crc = spec_u32_from_le_bytes(regions@[3]@);
            if check_integrity && crate::crc32c::masked_crc_of(len_bytes) != stored_len_crc {
                r == Err::<Vec<u8>, Error>(
                    Error::ChecksumMismatch {
                        found: crate::crc32c::masked_crc_of(len_bytes),
                        expect: stored_len_crc,
                    },
                )
            } else if check_integrity && crate::crc32c::masked_crc_of(payload)
                != stored_payload_crc {
                r == Err::<Vec<u8>, Error>(
                    Error::ChecksumMismatch {
                        found: crate::crc32c::masked_crc_of(payload),
                        expect: stored_payload_crc,
                    },
                )
            } else {
                r matches Ok(v) && v@ == payload
            }
        }),
{
    if check_integrity {
        let stored_len_crc = vstd::bytes::u32_from_le_bytes(regions[1].as_slice());
        match verify_masked_crc(regions[0].as_slice(), stored_len_crc) {
            Ok(_) => {},
            Err(e) => {
                return Err(e);
            },
        }
        let stored_payload_crc = vstd::bytes::u32_from_le_bytes(regions[3].as_slice());
        match verify_masked_crc(regions[2].as_slice(), stored_payload_crc) {
            Ok(_) => {},
            Err(e) => {
                return Err(e);
            },
        }
    }
    let mut regions = regions;
    let payload = regions.remove(2);
    Ok(payload)
}

/// Read every record the index addresses inside the in-memory file
/// image, in index order, through the same whole-record verification the
/// asynchronous engine uses.
pub fn read_indexed(file: &Vec<u8>, index: &IndexReader, check_integrity: bool) -> (r: Result<
    Vec<Vec<u8>>,
    Error,
>)
    ensures
        match indexed_read(file@, index.entries(), check_integrity) {
            IndexedOutcome::Records(payloads) => r matches Ok(out) && seq_views(out@) == payloads,
            IndexedOutcome::Corrupt { found, expect } => r == Err::<Vec<Vec<u8>>, Error>(
                Error::ChecksumMismatch { found, expect },
            ),
            IndexedOutcome::BadEntry => r matches Err(e) && e is DataLoss,
        },
{
    let ghost entries = index.entries();
    let n = index.len();
    let flen = file.len();
    let mut out: Vec<Vec<u8>> = Vec::new();
    let mut i: usize = 0;
    proof {
        assert(entries.skip(0) =~= entries);
    }
    while i < n
        invariant
            0 <= i <= n,
            n == entries.len(),
            entries == index.entries(),
            flen == file@.len(),
            match indexed_read(file@, entries.skip(i as int), check_integrity) {
                IndexedOutcome::Records(payloads) => indexed_read(file@, entries, check_integrity)
                    == IndexedOutcome::Records(seq_views(out@) + payloads),
                other => indexed_read(file@, entries, check_integrity) == other,
            },
        decreases n - i,
    {
        let (offset, length) = index.read_index(i);
        proof {
            assert(entries.skip(i as int)[0] == entries[i as int]);
            assert(entries.skip(i as int).drop_first() =~= entries.skip(i as int + 1));
        }
        if !(length >= 16 && offset <= flen as u64 && length <= flen as u64 - offset) {
            return Err(Error::DataLoss("index entry outside the file".to_owned()));
        }
        let off = offset as usize;
        let total = length as usize;
        let mut regions: Vec<Vec<u8>> = Vec::new();
        regions.push(slice_to_vec(slice_subrange(file.as_slice(), off, off + 8)));
        regions.push(slice_to_vec(slice_subrange(file.as_slice(), off + 8, off + 12)));
        regions.push(slice_to_vec(slice_subrange(file.as_slice(), off + 12, off + total - 4)));
        regions.push(slice_to_vec(slice_subrange(file.as_slice(), off + total - 4, off + total)));
        match check_whole_record(regions, check_integrity) {
            Ok(payload) => {
                let ghost p = payload@;
                proof {
                    let e = entries[i as int];
                    let si = entries.skip(i as int);
                    assert(entry_in_range(file@, e));
                    assert(p == file@.subrange(e.0 as int + 12, e.0 as int + e.1 as int - 4));
                    match indexed_read(file@, entries.skip(i as int + 1), check_integrity) {
                        IndexedOutcome::Records(rest) => {
                            assert(indexed_read(file@, si, check_integrity)
                                == IndexedOutcome::Records(seq![p] + rest));
                        },
                        _ => {
                            assert(indexed_read(file@, si, check_integrity) == indexed_read(
                                file@,
                                entries.skip(i as int + 1),
                                check_integrity,
                            ));
                        },
                    }
                }
                let ghost prev = out@;
                out.push(payload);
                proof {
                    let rest = indexed_rest(file@, entries, i as int + 1, check_integrity);
                    assert(seq_views(out@) =~= seq_views(prev).push(p));
                    assert(seq_views(prev).push(p) + rest =~= seq_views(prev) + (seq![p] + rest));
                }
            },
            Err(e) => {
                return Err(e);
            },
        }
        i = i + 1;
    }
    proof {
        assert(entries.skip(n as int) =~= Seq::<(u64, u64)>::empty());
        assert(seq_views(out@) + Seq::<Seq<u8>>::empty() =~= seq_views(out@));
    }
    Ok(out)
}

/// The payloads still to come after the first `i` entries, where the
/// whole indexed read succeeds.
pub open spec fn indexed_rest(file: Seq<u8>, entries: Seq<(u64, u64)>, i: int, check: bool) -> Seq<
    Seq<u8>,
> {
    match indexed_read(file, entries.skip(i), check) {
        IndexedOutcome::Records(payloads) => payloads,
        _ => Seq::empty(),
    }
}

} // verus!
