//! The laws the library is held to: round trips between the writer and
//! the readers, the shape of the sidecar index of a well-formed file, and
//! the integrity of every stored CRC field.

use crate::crc32c::masked_crc_of;
use crate::frame::{
    frame_of, frames_of, lemma_frame_of_len, lemma_frames_of_len, lemma_records_from_frames,
    lemma_total_framed_len_nonneg, lemma_total_framed_len_push, lemma_total_framed_len_split,
    reads_clean, records_from, total_framed_len, wf_payloads,
};
use crate::indexing::index_of;
use vstd::bytes::{spec_u32_from_le_bytes, spec_u64_from_le_bytes, spec_u64_to_le_bytes};
use vstd::prelude::*;

verus! {

/// Writing any sequence of payloads and then reading the resulting file
/// with the streaming reader — checksum verification on or off — yields
/// exactly those payloads, in order, ending cleanly.
pub proof fn lemma_round_trip(payloads: Seq<Seq<u8>>, check: bool)
    requires
        wf_payloads(payloads),
    ensures
        records_from(frames_of(payloads), 0, check) == payloads,
        reads_clean(frames_of(payloads), 0, check),
{
    lemma_frames_of_len(payloads);
    lemma_total_framed_len_nonneg(payloads);
    let file = frames_of(payloads);
    assert(file.subrange(0, file.len() as int) =~= file);
    lemma_records_from_frames(file, 0, payloads, check);
}

/// A file of zero records reads as an empty sequence with no error.
pub proof fn lemma_empty_file_reads_empty(check: bool)
    ensures
        records_from(Seq::empty(), 0, check) == Seq::<Seq<u8>>::empty(),
        reads_clean(Seq::empty(), 0, check),
{
}

/// The total bytes written for `payloads` are the sum over records of
/// `FRAME_OVERHEAD + payload_len` — which is what `total_framed_len`
/// sums up.
pub proof fn lemma_total_bytes_written(payloads: Seq<Seq<u8>>)
    requires
        wf_payloads(payloads),
    ensures
        frames_of(payloads).len() == total_framed_len(payloads),
{
    lemma_frames_of_len(payloads);
}

/// A record's frame boundary: the prefix sum of framed lengths up to
/// record `i` stays within the file, leaving room for frame `i` itself.
proof fn lemma_offset_bounds(payloads: Seq<Seq<u8>>, i: int)
    requires
        wf_payloads(payloads),
        0 <= i < payloads.len(),
    ensures
        0 <= total_framed_len(payloads.take(i)),
        total_framed_len(payloads.take(i)) + 16 + payloads[i].len() <= total_framed_len(payloads),
{
    lemma_total_framed_len_nonneg(payloads.take(i));
    lemma_total_framed_len_split(payloads, i);
    let tail = payloads.skip(i);
    assert(tail[0] == payloads[i]);
    lemma_total_framed_len_nonneg(tail.drop_first());
    assert(total_framed_len(tail) == 16 + payloads[i].len() + total_framed_len(tail.drop_first()));
}

/// Taking one more record extends the prefix sum by that record's frame.
proof fn lemma_take_one_more(payloads: Seq<Seq<u8>>, i: int)
    requires
        0 <= i < payloads.len(),
    ensures
        total_framed_len(payloads.take(i + 1)) == total_framed_len(payloads.take(i)) + 16
            + payloads[i].len(),
{
    assert(payloads.take(i + 1) =~= payloads.take(i).push(payloads[i]));
    lemma_total_framed_len_push(payloads.take(i), payloads[i]);
}

/// In the index of a well-formed file, entry `i` records the whole
/// framed length `FRAME_OVERHEAD + payload_len_i`, and adjacent entries
/// are gapless: `offset_{i+1} - offset_i == length_i`.
pub proof fn lemma_index_entries_adjacent(payloads: Seq<Seq<u8>>)
    requires
        wf_payloads(payloads),
        total_framed_len(payloads) <= u64::MAX,
    ensures
        index_of(payloads).len() == payloads.len(),
        forall|i: int|
            0 <= i < payloads.len() ==> (#[trigger] index_of(payloads)[i]).1 == 16
                + payloads[i].len(),
        forall|i: int|
            0 <= i < payloads.len() - 1 ==> (#[trigger] index_of(payloads)[i + 1]).0 == index_of(
                payloads,
            )[i].0 + index_of(payloads)[i].1,
{
    assert forall|i: int| 0 <= i < payloads.len() implies (#[trigger] index_of(payloads)[i]).1
        == 16 + payloads[i].len() by {
        lemma_offset_bounds(payloads, i);
    }
    assert forall|i: int| 0 <= i < payloads.len() - 1 implies (#[trigger] index_of(
        payloads,
    )[i + 1]).0 == index_of(payloads)[i].0 + index_of(payloads)[i].1 by {
        lemma_offset_bounds(payloads, i);
        lemma_offset_bounds(payloads, i + 1);
        lemma_take_one_more(payloads, i);
        lemma_total_framed_len_nonneg(payloads.skip(i + 1));
        lemma_total_framed_len_split(payloads, i + 1);
    }
}

/// Reading the suffix of a well-formed file's own index, entry by
/// entry, yields the corresponding suffix of its payloads.
proof fn lemma_indexed_suffix(payloads: Seq<Seq<u8>>, i: int, check: bool)
    requires
        wf_payloads(payloads),
        total_framed_len(payloads) <= u64::MAX,
        0 <= i <= payloads.len(),
    ensures
        crate::random_reader::indexed_read(
            frames_of(payloads),
            index_of(payloads).skip(i),
            check,
        ) == crate::random_reader::IndexedOutcome::Records(payloads.skip(i)),
    decreases payloads.len() - i,
{
    let file = frames_of(payloads);
    let entries = index_of(payloads);
    lemma_frames_of_len(payloads);
    if i == payloads.len() {
        assert(entries.skip(i) =~= Seq::<(u64, u64)>::empty());
        assert(payloads.skip(i) =~= Seq::<Seq<u8>>::empty());
    } else {
        lemma_indexed_suffix(payloads, i + 1, check);
        lemma_offset_bounds(payloads, i);
        lemma_stored_crcs_match(payloads, i);
        let e = entries[i];
        assert(entries.skip(i)[0] == e);
        assert(entries.skip(i).drop_first() =~= entries.skip(i + 1));
        assert(e.0 as int == total_framed_len(payloads.take(i)));
        assert(e.1 as int == 16 + payloads[i].len());
        assert(crate::random_reader::entry_in_range(file, e));
        assert(seq![payloads[i]] + payloads.skip(i + 1) =~= payloads.skip(i));
    }
}

/// Indexing a written file, then reading it record by record through
/// the indexed random reader in index order, yields exactly the
/// payloads that were written — checksum verification on or off.
pub proof fn lemma_indexed_round_trip(payloads: Seq<Seq<u8>>, check: bool)
    requires
        wf_payloads(payloads),
        total_framed_len(payloads) <= u64::MAX,
    ensures
        crate::random_reader::indexed_read(frames_of(payloads), index_of(payloads), check)
            == crate::random_reader::IndexedOutcome::Records(payloads),
{
    lemma_indexed_suffix(payloads, 0, check);
    assert(index_of(payloads).skip(0) =~= index_of(payloads));
    assert(payloads.skip(0) =~= payloads);
}

/// Where the bytes from `pos` to the end are exactly the frames of
/// `payloads`, the index entries a position-tracking reader observes
/// are the prefix-sum offsets and whole framed lengths of `payloads`,
/// shifted by `pos`.
proof fn lemma_index_stream_frames(bytes: Seq<u8>, pos: int, payloads: Seq<Seq<u8>>, check: bool)
    requires
        0 <= pos,
        bytes.len() <= u64::MAX,
        wf_payloads(payloads),
        pos + total_framed_len(payloads) == bytes.len(),
        bytes.subrange(pos, bytes.len() as int) == frames_of(payloads),
    ensures
        crate::frame::index_stream(bytes, pos, check) == Seq::new(
            payloads.len(),
            |i: int|
                (
                    (pos + total_framed_len(payloads.take(i))) as u64,
                    (16 + payloads[i].len()) as u64,
                ),
        ),
    decreases payloads.len(),
{
    lemma_frames_of_len(payloads);
    let want = Seq::new(
        payloads.len(),
        |i: int|
            ((pos + total_framed_len(payloads.take(i))) as u64, (16 + payloads[i].len()) as u64),
    );
    if payloads.len() == 0 {
        assert(crate::frame::index_stream(bytes, pos, check) =~= want);
    } else {
        let p = payloads[0];
        let rest = payloads.drop_first();
        let len = p.len() as int;
        lemma_frame_of_len(p);
        lemma_frames_of_len(rest);
        lemma_total_framed_len_nonneg(rest);
        assert forall|k: int| pos <= k < bytes.len() implies bytes[k] == frames_of(payloads)[k
            - pos] by {
            assert(bytes.subrange(pos, bytes.len() as int)[k - pos] == bytes[k]);
        }
        assert(bytes.subrange(pos, pos + 16 + len) =~= frame_of(p));
        crate::frame::lemma_parse_step_frame(bytes, pos, p, check);
        assert(bytes.subrange(pos + 16 + len, bytes.len() as int) =~= frames_of(rest));
        lemma_index_stream_frames(bytes, pos + 16 + len, rest, check);
        let want_rest = Seq::new(
            rest.len(),
            |i: int|
                (
                    (pos + 16 + len + total_framed_len(rest.take(i))) as u64,
                    (16 + rest[i].len()) as u64,
                ),
        );
        assert forall|i: int| 0 <= i < payloads.len() implies (seq![
            (pos as u64, (16 + len) as u64),
        ] + want_rest)[i] == want[i] by {
            if i == 0 {
                assert(payloads.take(0) =~= Seq::<Seq<u8>>::empty());
            } else {
                assert(payloads.take(i)[0] == p);
                assert(payloads.take(i).drop_first() =~= rest.take(i - 1));
                assert(total_framed_len(payloads.take(i)) == 16 + len + total_framed_len(
                    rest.take(i - 1),
                ));
                assert(rest[i - 1] == payloads[i]);
            }
        }
        assert(crate::frame::index_stream(bytes, pos, check) =~= want);
    }
}

/// Indexing a written file observes exactly the index `index_of`
/// describes: gapless prefix-sum offsets and whole framed lengths, one
/// entry per record written.
pub proof fn lemma_index_stream_round_trip(payloads: Seq<Seq<u8>>, check: bool)
    requires
        wf_payloads(payloads),
        total_framed_len(payloads) <= u64::MAX,
    ensures
        crate::frame::index_stream(frames_of(payloads), 0, check) == index_of(payloads),
{
    lemma_frames_of_len(payloads);
    lemma_total_framed_len_nonneg(payloads);
    let file = frames_of(payloads);
    assert(file.subrange(0, file.len() as int) =~= file);
    lemma_index_stream_frames(file, 0, payloads, check);
    assert(crate::frame::index_stream(file, 0, check) =~= index_of(payloads));
}

/// With integrity checking off, no read ever reports a checksum
/// mismatch, whatever the bytes hold: a reader either succeeds against
/// the stored lengths or fails as data loss.
pub proof fn lemma_unchecked_read_never_mismatches(bytes: Seq<u8>, pos: int)
    requires
        0 <= pos <= bytes.len(),
    ensures
        !(crate::frame::parse_step(bytes, pos, false) is Corrupt),
        !(crate::frame::stop_step(bytes, pos, false) is Corrupt),
    decreases bytes.len() - pos,
{
    match crate::frame::parse_step(bytes, pos, false) {
        crate::frame::ParseStep::Rec { payload, next } => {
            if pos < next <= bytes.len() {
                lemma_unchecked_read_never_mismatches(bytes, next);
            }
        },
        _ => {},
    }
}

/// Every reading mode agrees on a written file.  The streaming reader,
/// the depth-one engine, the interleaved engine and the chunked reader
/// all describe their output as `records_from` and their stopping step
/// as `stop_step`; the indexed random reader describes its output as
/// `indexed_read` over the file's own index.  On the frames of any
/// payload sequence, all of those denote exactly the payloads written,
/// ending cleanly.
pub proof fn lemma_modes_agree(payloads: Seq<Seq<u8>>, check: bool)
    requires
        wf_payloads(payloads),
        total_framed_len(payloads) <= u64::MAX,
    ensures
        records_from(frames_of(payloads), 0, check) == payloads,
        crate::frame::stop_step(frames_of(payloads), 0, check) is End,
        crate::random_reader::indexed_read(frames_of(payloads), index_of(payloads), check)
            == crate::random_reader::IndexedOutcome::Records(payloads),
{
    lemma_round_trip(payloads, check);
    crate::frame::lemma_reads_clean_stops_end(frames_of(payloads), 0, check);
    lemma_indexed_round_trip(payloads, check);
}

/// The bytes of record `i`'s frame, cut out of the whole file image,
/// are exactly the frame of payload `i`.
pub proof fn lemma_frame_at(payloads: Seq<Seq<u8>>, i: int)
    requires
        wf_payloads(payloads),
        0 <= i < payloads.len(),
    ensures
        ({
            let off = total_framed_len(payloads.take(i));
            &&& 0 <= off
            &&& off + 16 + payloads[i].len() <= frames_of(payloads).len()
            &&& frames_of(payloads).subrange(off, off + 16 + payloads[i].len()) == frame_of(
                payloads[i],
            )
        }),
    decreases i,
{
    lemma_frames_of_len(payloads);
    lemma_offset_bounds(payloads, i);
    let off = total_framed_len(payloads.take(i));
    let len = payloads[i].len() as int;
    let file = frames_of(payloads);
    let head = frame_of(payloads[0]);
    let rest = payloads.drop_first();
    lemma_frame_of_len(payloads[0]);
    lemma_frames_of_len(rest);
    if i == 0 {
        assert(payloads.take(0) =~= Seq::<Seq<u8>>::empty());
        assert(off == 0);
        assert(file.subrange(0, 16 + len) =~= head);
    } else {
        lemma_frame_at(rest, i - 1);
        let off_rest = total_framed_len(rest.take(i - 1));
        assert(payloads.take(i)[0] == payloads[0]);
        assert(payloads.take(i).drop_first() =~= rest.take(i - 1));
        assert(off == 16 + payloads[0].len() + off_rest);
        assert(rest[i - 1] == payloads[i]);
        let head_len = head.len() as int;
        assert forall|j: int| 0 <= j < 16 + len implies file.subrange(off, off + 16 + len)[j]
            == frame_of(payloads[i])[j] by {
            assert(file.subrange(off, off + 16 + len)[j] == file[off + j]);
            assert(file[off + j] == frames_of(rest)[off + j - head_len]);
            assert(frames_of(rest).subrange(off_rest, off_rest + 16 + len)[off + j - head_len
                - off_rest] == frames_of(rest)[off + j - head_len]);
            assert(frame_of(payloads[i])[j] == frames_of(rest).subrange(
                off_rest,
                off_rest + 16 + len,
            )[j]);
        }
        assert(file.subrange(off, off + 16 + len) =~= frame_of(payloads[i]));
    }
}

/// In a well-formed file, every record's stored CRC fields equal the
/// recomputed masked CRC-32C of its length bytes and of its payload, and
/// its stored length field equals its payload's length.
pub proof fn lemma_stored_crcs_match(payloads: Seq<Seq<u8>>, i: int)
    requires
        wf_payloads(payloads),
        0 <= i < payloads.len(),
    ensures
        ({
            let file = frames_of(payloads);
            let off = total_framed_len(payloads.take(i));
            let len = payloads[i].len() as int;
            let len_bytes = file.subrange(off, off + 8);
            let payload = file.subrange(off + 12, off + 12 + len);
            &&& payload == payloads[i]
            &&& spec_u64_from_le_bytes(len_bytes) == payloads[i].len()
            &&& spec_u32_from_le_bytes(file.subrange(off + 8, off + 12)) == masked_crc_of(
                len_bytes,
            )
            &&& spec_u32_from_le_bytes(file.subrange(off + 12 + len, off + 16 + len))
                == masked_crc_of(payload)
        }),
{
    vstd::bytes::lemma_auto_spec_u64_to_from_le_bytes();
    vstd::bytes::lemma_auto_spec_u32_to_from_le_bytes();
    lemma_frame_at(payloads, i);
    let file = frames_of(payloads);
    let off = total_framed_len(payloads.take(i));
    let p = payloads[i];
    let len = p.len() as int;
    let f = frame_of(p);
    let len_bytes = spec_u64_to_le_bytes(p.len() as u64);
    assert forall|k: int| off <= k < off + 16 + len implies file[k] == f[k - off] by {
        assert(file.subrange(off, off + 16 + len)[k - off] == file[k]);
    }
    assert(file.subrange(off, off + 8) =~= len_bytes);
    assert(file.subrange(off + 8, off + 12) =~= vstd::bytes::spec_u32_to_le_bytes(
        masked_crc_of(len_bytes),
    ));
    assert(file.subrange(off + 12, off + 12 + len) =~= p);
    assert(file.subrange(off + 12 + len, off + 16 + len) =~= vstd::bytes::spec_u32_to_le_bytes(
        masked_crc_of(p),
    ));
}

} // verus!
