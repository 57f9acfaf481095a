//! The on-disk record frame: a 64-bit little-endian payload length, the
//! masked CRC-32C of those 8 length bytes, the payload itself, and the
//! masked CRC-32C of the payload.
//!
//! A file is a concatenation of zero or more frames.  End-of-file after a
//! whole number of frames is legal; a partial frame at end-of-file is a
//! data-loss error.

use crate::crc32c::masked_crc_of;
use crate::error::Error;
use vstd::bytes::*;
use vstd::prelude::*;

verus! {

/// Bytes of fixed overhead in one frame: 8 (length) + 4 (length CRC)
/// + 4 (payload CRC).
pub const FRAME_OVERHEAD: usize = 16;

/// The frame that carries `payload`: the four contiguous on-disk fields.
pub open spec fn frame_of(payload: Seq<u8>) -> Seq<u8>
    recommends
        payload.len() <= u64::MAX,
{
    let len_bytes = spec_u64_to_le_bytes(payload.len() as u64);
    len_bytes + spec_u32_to_le_bytes(masked_crc_of(len_bytes)) + payload + spec_u32_to_le_bytes(
        masked_crc_of(payload),
    )
}

/// The concatenation of the frames of `payloads`, in order: the whole
/// byte image of a record file.
pub open spec fn frames_of(payloads: Seq<Seq<u8>>) -> Seq<u8>
    decreases payloads.len(),
{
    if payloads.len() == 0 {
        Seq::empty()
    } else {
        frame_of(payloads[0]) + frames_of(payloads.drop_first())
    }
}

/// The total framed length of `payloads`: the sum over records of
/// `FRAME_OVERHEAD + payload_len`.
pub open spec fn total_framed_len(payloads: Seq<Seq<u8>>) -> int
    decreases payloads.len(),
{
    if payloads.len() == 0 {
        0
    } else {
        16 + payloads[0].len() + total_framed_len(payloads.drop_first())
    }
}

/// What one attempt to read a frame at a byte position yields.
pub enum ParseStep {
    /// A whole frame: its payload, and the position just after it.
    Rec { payload: Seq<u8>, next: int },
    /// Clean end of file, exactly at the position.
    End,
    /// A partial frame: the file ends inside the frame.
    Truncated,
    /// A CRC field disagrees with the recomputed checksum (only with
    /// integrity checking on).
    Corrupt { found: u32, expect: u32 },
}

/// Read one frame of `bytes` at `pos`, verifying CRCs when `check` is
/// set.  The length CRC is verified before the payload is looked at, so
/// a corrupt length never causes an oversized payload read.
pub open spec fn parse_step(bytes: Seq<u8>, pos: int, check: bool) -> ParseStep
    recommends
        0 <= pos <= bytes.len(),
{
    if pos == bytes.len() {
        ParseStep::End
    } else if pos + 12 > bytes.len() {
        ParseStep::Truncated
    } else {
        let len_bytes = bytes.subrange(pos, pos + 8);
        let len_crc = spec_u32_from_le_bytes(bytes.subrange(pos + 8, pos + 12));
        if check && masked_crc_of(len_bytes) != len_crc {
            ParseStep::Corrupt { found: masked_crc_of(len_bytes), expect: len_crc }
        } else {
            let len = spec_u64_from_le_bytes(len_bytes) as int;
            if pos + 16 + len > bytes.len() {
                ParseStep::Truncated
            } else {
                let payload = bytes.subrange(pos + 12, pos + 12 + len);
                let data_crc = spec_u32_from_le_bytes(
                    bytes.subrange(pos + 12 + len, pos + 16 + len),
                );
                if check && masked_crc_of(payload) != data_crc {
                    ParseStep::Corrupt { found: masked_crc_of(payload), expect: data_crc }
                } else {
                    ParseStep::Rec { payload, next: pos + 16 + len }
                }
            }
        }
    }
}

/// All payloads a streaming reader starting at `pos` delivers before it
/// stops, in order.
pub open spec fn records_from(bytes: Seq<u8>, pos: int, check: bool) -> Seq<Seq<u8>>
    recommends
        0 <= pos <= bytes.len(),
    decreases bytes.len() - pos,
{
    match parse_step(bytes, pos, check) {
        ParseStep::Rec { payload, next } => {
            if pos < next <= bytes.len() {
                seq![payload] + records_from(bytes, next, check)
            } else {
                Seq::empty()
            }
        },
        _ => Seq::empty(),
    }
}

/// Whether a streaming reader starting at `pos` reaches a clean end of
/// file rather than an error.
pub open spec fn reads_clean(bytes: Seq<u8>, pos: int, check: bool) -> bool
    recommends
        0 <= pos <= bytes.len(),
    decreases bytes.len() - pos,
{
    match parse_step(bytes, pos, check) {
        ParseStep::Rec { payload, next } => pos < next <= bytes.len() && reads_clean(
            bytes,
            next,
            check,
        ),
        ParseStep::End => true,
        _ => false,
    }
}

/// The byte sequences carried by a vector of owned buffers.
pub open spec fn seq_views(s: Seq<Vec<u8>>) -> Seq<Seq<u8>> {
    s.map_values(|v: Vec<u8>| v@)
}

/// Every payload is small enough for its length to be written as a
/// 64-bit value.
pub open spec fn wf_payloads(payloads: Seq<Seq<u8>>) -> bool {
    forall|i: int| 0 <= i < payloads.len() ==> #[trigger] payloads[i].len() <= u64::MAX
}

/// One frame is exactly `FRAME_OVERHEAD` bytes longer than its payload.
pub proof fn lemma_frame_of_len(payload: Seq<u8>)
    requires
        payload.len() <= u64::MAX,
    ensures
        frame_of(payload).len() == 16 + payload.len(),
{
    lemma_auto_spec_u64_to_from_le_bytes();
    lemma_auto_spec_u32_to_from_le_bytes();
}

/// The total framed length is never negative.
pub proof fn lemma_total_framed_len_nonneg(payloads: Seq<Seq<u8>>)
    ensures
        0 <= total_framed_len(payloads),
    decreases payloads.len(),
{
    if payloads.len() > 0 {
        lemma_total_framed_len_nonneg(payloads.drop_first());
    }
}

/// A file image is as long as the total framed length of its records.
pub proof fn lemma_frames_of_len(payloads: Seq<Seq<u8>>)
    requires
        wf_payloads(payloads),
    ensures
        frames_of(payloads).len() == total_framed_len(payloads),
    decreases payloads.len(),
{
    if payloads.len() > 0 {
        lemma_frame_of_len(payloads[0]);
        lemma_frames_of_len(payloads.drop_first());
    }
}

/// Appending one record appends one frame.
pub proof fn lemma_frames_of_push(payloads: Seq<Seq<u8>>, payload: Seq<u8>)
    ensures
        frames_of(payloads.push(payload)) == frames_of(payloads) + frame_of(payload),
    decreases payloads.len(),
{
    let pushed = payloads.push(payload);
    if payloads.len() == 0 {
        assert(pushed[0] == payload);
        assert(pushed.drop_first() =~= Seq::<Seq<u8>>::empty());
        assert(frames_of(pushed.drop_first()) =~= Seq::<u8>::empty());
        assert(frames_of(pushed) =~= frames_of(payloads) + frame_of(payload));
    } else {
        assert(pushed[0] == payloads[0]);
        assert(pushed.drop_first() =~= payloads.drop_first().push(payload));
        lemma_frames_of_push(payloads.drop_first(), payload);
        assert(frames_of(pushed) =~= frames_of(payloads) + frame_of(payload));
    }
}

/// Appending one record grows the total framed length by its frame.
pub proof fn lemma_total_framed_len_push(payloads: Seq<Seq<u8>>, payload: Seq<u8>)
    ensures
        total_framed_len(payloads.push(payload)) == total_framed_len(payloads) + 16
            + payload.len(),
    decreases payloads.len(),
{
    let pushed = payloads.push(payload);
    if payloads.len() == 0 {
        assert(pushed[0] == payload);
        assert(pushed.drop_first() =~= Seq::<Seq<u8>>::empty());
        assert(total_framed_len(pushed.drop_first()) == 0);
    } else {
        assert(pushed[0] == payloads[0]);
        assert(pushed.drop_first() =~= payloads.drop_first().push(payload));
        lemma_total_framed_len_push(payloads.drop_first(), payload);
    }
}

/// The total framed length splits at any record boundary.
pub proof fn lemma_total_framed_len_split(payloads: Seq<Seq<u8>>, i: int)
    requires
        0 <= i <= payloads.len(),
    ensures
        total_framed_len(payloads) == total_framed_len(payloads.take(i)) + total_framed_len(
            payloads.skip(i),
        ),
    decreases i,
{
    if i == 0 {
        assert(payloads.take(0) =~= Seq::<Seq<u8>>::empty());
        assert(payloads.skip(0) =~= payloads);
    } else {
        lemma_total_framed_len_split(payloads, i - 1);
        assert(payloads.take(i) =~= payloads.take(i - 1).push(payloads[i - 1]));
        lemma_total_framed_len_push(payloads.take(i - 1), payloads[i - 1]);
        assert(payloads.skip(i - 1).drop_first() =~= payloads.skip(i));
        assert(total_framed_len(payloads.skip(i - 1)) == 16 + payloads[i - 1].len()
            + total_framed_len(payloads.skip(i)));
    }
}

/// Where the bytes from `pos` start with the frame of `p`, one read at
/// `pos` yields exactly `p` and stops just after the frame, with CRC
/// checking on or off.
pub proof fn lemma_parse_step_frame(bytes: Seq<u8>, pos: int, p: Seq<u8>, check: bool)
    requires
        0 <= pos,
        p.len() <= u64::MAX,
        pos + 16 + p.len() <= bytes.len(),
        bytes.subrange(pos, pos + 16 + p.len()) == frame_of(p),
    ensures
        parse_step(bytes, pos, check) == (ParseStep::Rec {
            payload: p,
            next: pos + 16 + p.len(),
        }),
{
    lemma_auto_spec_u64_to_from_le_bytes();
    lemma_auto_spec_u32_to_from_le_bytes();
    let len = p.len() as int;
    let f = frame_of(p);
    let len_bytes = spec_u64_to_le_bytes(p.len() as u64);
    let len_crc_bytes = spec_u32_to_le_bytes(masked_crc_of(len_bytes));
    let data_crc_bytes = spec_u32_to_le_bytes(masked_crc_of(p));
    assert forall|k: int| pos <= k < pos + 16 + len implies bytes[k] == f[k - pos] by {
        assert(bytes.subrange(pos, pos + 16 + len)[k - pos] == bytes[k]);
    }
    assert(bytes.subrange(pos, pos + 8) =~= len_bytes);
    assert(bytes.subrange(pos + 8, pos + 12) =~= len_crc_bytes);
    assert(spec_u64_from_le_bytes(bytes.subrange(pos, pos + 8)) == p.len());
    assert(spec_u32_from_le_bytes(bytes.subrange(pos + 8, pos + 12)) == masked_crc_of(len_bytes));
    assert(bytes.subrange(pos + 12, pos + 12 + len) =~= p);
    assert(bytes.subrange(pos + 12 + len, pos + 16 + len) =~= data_crc_bytes);
    assert(spec_u32_from_le_bytes(bytes.subrange(pos + 12 + len, pos + 16 + len)) == masked_crc_of(
        p,
    ));
}

/// Where the bytes from `pos` to the end are exactly the frames of
/// `payloads`, a streaming reader at `pos` delivers `payloads` and ends
/// cleanly, with CRC checking on or off.
pub proof fn lemma_records_from_frames(
    bytes: Seq<u8>,
    pos: int,
    payloads: Seq<Seq<u8>>,
    check: bool,
)
    requires
        0 <= pos,
        wf_payloads(payloads),
        pos + total_framed_len(payloads) == bytes.len(),
        bytes.subrange(pos, bytes.len() as int) == frames_of(payloads),
    ensures
        records_from(bytes, pos, check) == payloads,
        reads_clean(bytes, pos, check),
    decreases payloads.len(),
{
    lemma_frames_of_len(payloads);
    if payloads.len() == 0 {
        assert(pos == bytes.len());
    } else {
        let p = payloads[0];
        let rest = payloads.drop_first();
        let len = p.len() as int;
        lemma_frame_of_len(p);
        lemma_frames_of_len(rest);
        lemma_total_framed_len_nonneg(rest);
        assert forall|k: int| pos <= k < bytes.len() implies bytes[k] == frames_of(payloads)[k
            - pos] by {
            assert(bytes.subrange(pos, bytes.len() as int)[k - pos] == bytes[k]);
        }
        assert(bytes.subrange(pos, pos + 16 + len) =~= frame_of(p));
        lemma_parse_step_frame(bytes, pos, p, check);
        assert(bytes.subrange(pos + 16 + len, bytes.len() as int) =~= frames_of(rest));
        lemma_records_from_frames(bytes, pos + 16 + len, rest, check);
        assert(records_from(bytes, pos, check) =~= seq![p] + rest);
        assert(seq![p] + rest =~= payloads);
    }
}

/// The step a streaming reader starting at `pos` finally stops on:
/// `End` for a clean end of file, `Truncated` for a partial frame,
/// `Corrupt` for a CRC mismatch.
pub open spec fn stop_step(bytes: Seq<u8>, pos: int, check: bool) -> ParseStep
    recommends
        0 <= pos <= bytes.len(),
    decreases bytes.len() - pos,
{
    match parse_step(bytes, pos, check) {
        ParseStep::Rec { payload, next } => {
            if pos < next <= bytes.len() {
                stop_step(bytes, next, check)
            } else {
                ParseStep::End
            }
        },
        s => s,
    }
}

/// The `(offset, total_length)` index entries a position-tracking
/// reader starting at `pos` observes, one per record it delivers.
pub open spec fn index_stream(bytes: Seq<u8>, pos: int, check: bool) -> Seq<(u64, u64)>
    recommends
        0 <= pos <= bytes.len(),
    decreases bytes.len() - pos,
{
    match parse_step(bytes, pos, check) {
        ParseStep::Rec { payload, next } => {
            if pos < next <= bytes.len() {
                seq![(pos as u64, (next - pos) as u64)] + index_stream(bytes, next, check)
            } else {
                Seq::empty()
            }
        },
        _ => Seq::empty(),
    }
}

/// A stream that reads cleanly stops on `End`.
pub proof fn lemma_reads_clean_stops_end(bytes: Seq<u8>, pos: int, check: bool)
    requires
        reads_clean(bytes, pos, check),
    ensures
        stop_step(bytes, pos, check) is End,
    decreases bytes.len() - pos,
{
    match parse_step(bytes, pos, check) {
        ParseStep::Rec { payload, next } => {
            if pos < next <= bytes.len() {
                lemma_reads_clean_stops_end(bytes, next, check);
            }
        },
        _ => {},
    }
}

/// Emit the four fields of the frame that carries `payload`.
pub fn encode_frame(payload: &[u8]) -> (r: Vec<u8>)
    requires
        payload@.len() + 16 <= usize::MAX,
    ensures
        r@ == frame_of(payload@),
        r@.len() == payload@.len() + 16,
{
    proof {
        lemma_auto_spec_u64_to_from_le_bytes();
        lemma_auto_spec_u32_to_from_le_bytes();
    }
    let length: u64 = payload.len() as u64;
    let length_buf = u64_to_le_bytes(length);
    let masked_crc_of_length = crate::crc32c::get_masked_crc(length_buf.as_slice());
    let mut out: Vec<u8> = Vec::new();
    out.extend_from_slice(length_buf.as_slice());
    out.extend_from_slice(u32_to_le_bytes(masked_crc_of_length).as_slice());
    out.extend_from_slice(payload);
    out.extend_from_slice(u32_to_le_bytes(crate::crc32c::get_masked_crc(payload)).as_slice());
    proof {
        assert(out@ =~= frame_of(payload@));
    }
    out
}

} // verus!
