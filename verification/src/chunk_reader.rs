//! The whole-file chunk reader: a single file is read as contiguous,
//! fixed-size chunks with many in flight, the chunks are reordered into
//! stream order, and a buffered adapter exposes the reordered chunks as
//! one byte stream to the frame parser.
//!
//! Completions arrive out of offset order; the reorderer releases a
//! chunk only when it is the next expected one, so the adapter never
//! sees a gap.  A chunk shorter than the chunk size is a tail chunk.

use crate::crc32c::verify_masked_crc;
use crate::error::Error;
use crate::frame::{parse_step, records_from, seq_views, stop_step, ParseStep};
use vstd::bytes::{spec_u32_from_le_bytes, spec_u64_from_le_bytes, u32_from_le_bytes, u64_from_le_bytes};
use vstd::prelude::*;
use vstd::slice::{slice_subrange, slice_to_vec};

verus! {

/// One completed chunk: its bytes and its starting offset in the file.
pub struct Buffer {
    /// The bytes the kernel filled.
    pub data: Vec<u8>,
    /// The file offset the chunk starts at.
    pub offset: u64,
}

/// The position of the first chunk at `offset` in `pending`, or the
/// length of `pending` if none is there.
pub open spec fn find_chunk(pending: Seq<(u64, Seq<u8>)>, offset: u64) -> int
    decreases pending.len(),
{
    if pending.len() == 0 {
        0
    } else if pending[0].0 == offset {
        0
    } else {
        1 + find_chunk(pending.drop_first(), offset)
    }
}

/// `find_chunk` points at the first match, or past the end.
pub proof fn lemma_find_chunk(pending: Seq<(u64, Seq<u8>)>, offset: u64)
    ensures
        0 <= find_chunk(pending, offset) <= pending.len(),
        find_chunk(pending, offset) < pending.len() ==> pending[find_chunk(pending, offset)].0
            == offset,
        forall|j: int| 0 <= j < find_chunk(pending, offset) ==> (#[trigger] pending[j]).0 != offset,
    decreases pending.len(),
{
    if pending.len() > 0 && pending[0].0 != offset {
        lemma_find_chunk(pending.drop_first(), offset);
        let rest = pending.drop_first();
        assert forall|j: int| 0 <= j < find_chunk(pending, offset) implies (#[trigger] pending[j]).0
            != offset by {
            if j > 0 {
                assert(pending[j] == rest[j - 1]);
            }
        }
        if find_chunk(pending, offset) < pending.len() {
            assert(pending[find_chunk(pending, offset)] == rest[find_chunk(rest, offset) as int]);
        }
    }
}

/// Reorders completed chunks into stream order.  Chunks may arrive in
/// any order; only the chunk at the next expected offset is released,
/// and the expected offset advances by one chunk size at a time.
pub struct ChunkReorderer {
    pending: Vec<Buffer>,
    next_offset: u64,
    chunk_size: u64,
}

impl ChunkReorderer {
    /// The chunks held back, as `(offset, bytes)` pairs in arrival
    /// order.
    pub closed spec fn pending_view(&self) -> Seq<(u64, Seq<u8>)> {
        self.pending@.map_values(|b: Buffer| (b.offset, b.data@))
    }

    /// The offset the stream consumer expects next.
    pub closed spec fn next_offset(&self) -> u64 {
        self.next_offset
    }

    /// The fixed size every non-tail chunk was read with.
    pub closed spec fn chunk_size(&self) -> u64 {
        self.chunk_size
    }

    /// An empty reorderer expecting the chunk at offset zero.
    pub fn new(chunk_size: u64) -> (r: Self)
        ensures
            r.pending_view() == Seq::<(u64, Seq<u8>)>::empty(),
            r.next_offset() == 0,
            r.chunk_size() == chunk_size,
    {
        let r = ChunkReorderer { pending: Vec::new(), next_offset: 0, chunk_size };
        proof {
            assert(r.pending_view() =~= Seq::<(u64, Seq<u8>)>::empty());
        }
        r
    }

    /// Hold a completed chunk until its turn comes.
    pub fn push(&mut self, chunk: Buffer)
        ensures
            final(self).pending_view() == old(self).pending_view().push(
                (chunk.offset, chunk.data@),
            ),
            final(self).next_offset() == old(self).next_offset(),
            final(self).chunk_size() == old(self).chunk_size(),
    {
        let ghost c = (chunk.offset, chunk.data@);
        self.pending.push(chunk);
        proof {
            assert(self.pending_view() =~= old(self).pending_view().push(c));
        }
    }

    /// Release the chunk at the next expected offset, if it has
    /// arrived: the first pending chunk bearing that offset comes out,
    /// and the expectation advances by one chunk size.
    #[verifier::loop_isolation(false)]
    pub fn pop_ready(&mut self) -> (r: Option<Buffer>)
        requires
            old(self).next_offset() + old(self).chunk_size() <= u64::MAX,
        ensures
            final(self).chunk_size() == old(self).chunk_size(),
            ({
                let i = find_chunk(old(self).pending_view(), old(self).next_offset());
                if i < old(self).pending_view().len() {
                    &&& r matches Some(b) && b.offset == old(self).next_offset() && b.data@ == old(
                        self,
                    ).pending_view()[i].1
                    &&& final(self).pending_view() == old(self).pending_view().remove(i)
                    &&& final(self).next_offset() == old(self).next_offset() + old(
                        self,
                    ).chunk_size()
                } else {
                    &&& r is None
                    &&& final(self).pending_view() == old(self).pending_view()
                    &&& final(self).next_offset() == old(self).next_offset()
                }
            }),
    {
        proof {
            lemma_find_chunk(old(self).pending_view(), old(self).next_offset());
        }
        let n = self.pending.len();
        let mut i: usize = 0;
        while i < n
            invariant
                0 <= i <= n,
                n == self.pending@.len(),
                *self == *old(self),
                forall|j: int|
                    0 <= j < i ==> (#[trigger] self.pending@[j]).offset != self.next_offset,
            decreases n - i,
        {
            if self.pending[i].offset == self.next_offset {
                proof {
                    assert(self.pending_view()[i as int].0 == self.next_offset());
                    assert(find_chunk(old(self).pending_view(), old(self).next_offset())
                        == i as int) by {
                        let fv = find_chunk(old(self).pending_view(), old(self).next_offset());
                        if fv < i as int {
                            assert(self.pending@[fv].offset != self.next_offset);
                            assert(old(self).pending_view()[fv].0 == self.pending@[fv].offset);
                        }
                        if fv > i as int {
                            assert(old(self).pending_view()[i as int].0 != old(
                                self,
                            ).next_offset());
                        }
                    }
                }
                let b = self.pending.remove(i);
                self.next_offset = self.next_offset + self.chunk_size;
                proof {
                    assert(self.pending_view() =~= old(self).pending_view().remove(i as int));
                }
                return Some(b);
            }
            i = i + 1;
        }
        proof {
            assert(find_chunk(old(self).pending_view(), old(self).next_offset()) == old(
                self,
            ).pending_view().len()) by {
                let fv = find_chunk(old(self).pending_view(), old(self).next_offset());
                if fv < old(self).pending_view().len() {
                    assert(self.pending@[fv].offset != self.next_offset);
                    assert(old(self).pending_view()[fv].0 == self.pending@[fv].offset);
                }
            }
        }
        None
    }
}

/// The single byte stream that a sequence of chunks carries, in order.
pub open spec fn concat_of(chunks: Seq<Seq<u8>>) -> Seq<u8>
    decreases chunks.len(),
{
    if chunks.len() == 0 {
        Seq::empty()
    } else {
        chunks[0] + concat_of(chunks.drop_first())
    }
}

/// Appending one chunk appends its bytes.
pub proof fn lemma_concat_push(chunks: Seq<Seq<u8>>, chunk: Seq<u8>)
    ensures
        concat_of(chunks.push(chunk)) == concat_of(chunks) + chunk,
    decreases chunks.len(),
{
    let pushed = chunks.push(chunk);
    if chunks.len() == 0 {
        assert(pushed[0] == chunk);
        assert(pushed.drop_first() =~= Seq::<Seq<u8>>::empty());
        assert(concat_of(pushed.drop_first()) =~= Seq::<u8>::empty());
        assert(concat_of(pushed) =~= concat_of(chunks) + chunk);
    } else {
        assert(pushed[0] == chunks[0]);
        assert(pushed.drop_first() =~= chunks.drop_first().push(chunk));
        lemma_concat_push(chunks.drop_first(), chunk);
        assert(concat_of(pushed) == pushed[0] + concat_of(pushed.drop_first()));
        assert(concat_of(chunks) == chunks[0] + concat_of(chunks.drop_first()));
        assert(concat_of(pushed) =~= concat_of(chunks) + chunk);
    }
}

/// Taking one more chunk appends its bytes to the taken prefix.
pub proof fn lemma_concat_take_succ(chunks: Seq<Seq<u8>>, i: int)
    requires
        0 <= i < chunks.len(),
    ensures
        concat_of(chunks.take(i + 1)) == concat_of(chunks.take(i)) + chunks[i],
{
    assert(chunks.take(i + 1) =~= chunks.take(i).push(chunks[i]));
    lemma_concat_push(chunks.take(i), chunks[i]);
}

/// The stream splits at any chunk boundary.
pub proof fn lemma_concat_split(chunks: Seq<Seq<u8>>, i: int)
    requires
        0 <= i <= chunks.len(),
    ensures
        concat_of(chunks) == concat_of(chunks.take(i)) + concat_of(chunks.skip(i)),
    decreases i,
{
    if i == 0 {
        assert(chunks.take(0) =~= Seq::<Seq<u8>>::empty());
        assert(chunks.skip(0) =~= chunks);
        assert(concat_of(chunks) =~= concat_of(chunks.take(0)) + concat_of(chunks.skip(0)));
    } else {
        lemma_concat_split(chunks, i - 1);
        lemma_concat_take_succ(chunks, i - 1);
        assert(chunks.skip(i - 1)[0] == chunks[i - 1]);
        assert(chunks.skip(i - 1).drop_first() =~= chunks.skip(i));
        assert(concat_of(chunks.skip(i - 1)) == chunks[i - 1] + concat_of(chunks.skip(i)));
        assert(concat_of(chunks.take(i - 1)) + (chunks[i - 1] + concat_of(chunks.skip(i)))
            =~= (concat_of(chunks.take(i - 1)) + chunks[i - 1]) + concat_of(chunks.skip(i)));
    }
}

/// Where byte `k` of chunk `i` sits inside the whole stream.
pub proof fn lemma_concat_index(chunks: Seq<Seq<u8>>, i: int, k: int)
    requires
        0 <= i < chunks.len(),
        0 <= k < chunks[i].len(),
    ensures
        0 <= concat_of(chunks.take(i)).len() + k < concat_of(chunks).len(),
        concat_of(chunks)[concat_of(chunks.take(i)).len() + k] == chunks[i][k],
{
    lemma_concat_split(chunks, i);
    assert(chunks.skip(i)[0] == chunks[i]);
    assert(concat_of(chunks.skip(i)) == chunks[i] + concat_of(chunks.skip(i).drop_first()));
    let p = concat_of(chunks.take(i)).len();
    assert(concat_of(chunks)[p + k] == concat_of(chunks.skip(i))[k]);
}

/// Exposes a sequence of reordered chunks as one blocking byte stream:
/// reads cross chunk boundaries, and a read comes back shorter than
/// asked only at true end of stream.
pub struct AsyncBufReader {
    source: Vec<Buffer>,
    idx: usize,
    off: usize,
}

impl AsyncBufReader {
    /// The byte payload of each chunk, in stream order.
    pub closed spec fn chunks(&self) -> Seq<Seq<u8>> {
        self.source@.map_values(|b: Buffer| b.data@)
    }

    /// The whole byte stream the chunks carry.
    pub open spec fn stream(&self) -> Seq<u8> {
        concat_of(self.chunks())
    }

    /// How many bytes of the stream have been consumed.
    pub closed spec fn pos(&self) -> int {
        concat_of(self.chunks().take(self.idx as int)).len() + self.off
    }

    /// The cursor sits inside the current chunk, or at the very end.
    pub closed spec fn wf(&self) -> bool {
        &&& self.idx <= self.source@.len()
        &&& (self.idx < self.source@.len() ==> self.off <= self.source@[self.idx as int].data@.len())
        &&& (self.idx == self.source@.len() ==> self.off == 0)
    }

    /// The consumed prefix never runs past the end of the stream.
    proof fn lemma_pos_bound(&self)
        requires
            self.wf(),
        ensures
            0 <= self.pos() <= self.stream().len(),
    {
        let cs = self.chunks();
        let i = self.idx as int;
        if i < cs.len() {
            lemma_concat_take_succ(cs, i);
            lemma_concat_split(cs, i + 1);
        } else {
            assert(cs.take(i) =~= cs);
        }
    }

    /// Wrap chunks already in stream order, starting at the first byte.
    pub fn new(source: Vec<Buffer>) -> (r: Self)
        ensures
            r.wf(),
            r.stream() == concat_of(source@.map_values(|b: Buffer| b.data@)),
            r.pos() == 0,
    {
        let r = AsyncBufReader { source, idx: 0, off: 0 };
        proof {
            assert(r.chunks().take(0) =~= Seq::<Seq<u8>>::empty());
        }
        r
    }

    /// Read up to `n` bytes.  The result is shorter than `n` only when
    /// the stream has ended; it is empty only at true end of stream.
    #[verifier::loop_isolation(false)]
    pub fn read(&mut self, n: usize) -> (r: Vec<u8>)
        requires
            old(self).wf(),
        ensures
            final(self).wf(),
            final(self).stream() == old(self).stream(),
            ({
                let want = vstd::math::min(n as int, old(self).stream().len() - old(self).pos());
                &&& r@.len() == want
                &&& r@ == old(self).stream().subrange(old(self).pos(), old(self).pos() + want)
                &&& final(self).pos() == old(self).pos() + want
            }),
    {
        proof {
            old(self).lemma_pos_bound();
        }
        let ghost p0 = old(self).pos();
        let ghost s = old(self).stream();
        let n_chunks = self.source.len();
        let mut out: Vec<u8> = Vec::new();
        proof {
            assert(out@ =~= s.subrange(p0, p0));
        }
        while out.len() < n && self.idx < n_chunks
            invariant
                self.wf(),
                self.source@ == old(self).source@,
                out@.len() <= n,
                self.pos() == p0 + out@.len(),
                self.pos() <= s.len(),
                out@ == s.subrange(p0, self.pos()),
            decreases n - out.len(), n_chunks - self.idx,
        {
            let cur_len = self.source[self.idx].data.len();
            if self.off == cur_len {
                proof {
                    lemma_concat_take_succ(self.chunks(), self.idx as int);
                }
                self.idx = self.idx + 1;
                self.off = 0;
            } else {
                let byte = self.source[self.idx].data[self.off];
                proof {
                    lemma_concat_index(self.chunks(), self.idx as int, self.off as int);
                }
                let ghost prev = out@;
                out.push(byte);
                self.off = self.off + 1;
                proof {
                    assert(out@ =~= s.subrange(p0, p0 + out@.len() as int));
                }
            }
        }
        proof {
            if self.idx == n_chunks {
                assert(self.chunks().take(self.idx as int) =~= self.chunks());
            }
        }
        out
    }
}

/// Read one record frame out of the buffered chunk stream, exactly as
/// the streaming reader would: an immediate clean end of stream is
/// `None`, a stream ending inside the frame is `DataLoss`, and a CRC
/// field disagreeing under verification is `ChecksumMismatch`.
pub fn read_stream_record(reader: &mut AsyncBufReader, check_integrity: bool) -> (r: Result<
    Option<Vec<u8>>,
    Error,
>)
    requires
        old(reader).wf(),
        old(reader).stream().len() <= usize::MAX,
    ensures
        final(reader).wf(),
        final(reader).stream() == old(reader).stream(),
        match parse_step(old(reader).stream(), old(reader).pos(), check_integrity) {
            ParseStep::Rec { payload, next } => {
                &&& r matches Ok(Some(v)) && v@ == payload
                &&& final(reader).pos() == next
            },
            ParseStep::End => r matches Ok(None),
            ParseStep::Truncated => r matches Err(e) && e is DataLoss,
            ParseStep::Corrupt { found, expect } => r == Err::<Option<Vec<u8>>, Error>(
                Error::ChecksumMismatch { found, expect },
            ),
        },
{
    let ghost s = old(reader).stream();
    let ghost p0 = old(reader).pos();
    proof {
        old(reader).lemma_pos_bound();
    }
    let len_buf = reader.read(8);
    if len_buf.len() == 0 {
        return Ok(None);
    }
    if len_buf.len() < 8 {
        return Err(Error::DataLoss("stream ended inside the record header".to_owned()));
    }
    let crc_buf = reader.read(4);
    if crc_buf.len() < 4 {
        return Err(Error::DataLoss("stream ended inside the record header".to_owned()));
    }
    proof {
        assert(len_buf@ =~= s.subrange(p0, p0 + 8));
        assert(crc_buf@ =~= s.subrange(p0 + 8, p0 + 12));
    }
    if check_integrity {
        let stored = u32_from_le_bytes(crc_buf.as_slice());
        match verify_masked_crc(len_buf.as_slice(), stored) {
            Ok(_) => {},
            Err(e) => {
                return Err(e);
            },
        }
    }
    let length = u64_from_le_bytes(len_buf.as_slice());
    if length > usize::MAX as u64 {
        return Err(Error::DataLoss("stream ended inside the payload".to_owned()));
    }
    let payload = reader.read(length as usize);
    if payload.len() < length as usize {
        return Err(Error::DataLoss("stream ended inside the payload".to_owned()));
    }
    let crc2_buf = reader.read(4);
    if crc2_buf.len() < 4 {
        return Err(Error::DataLoss("stream ended inside the payload".to_owned()));
    }
    proof {
        assert(payload@ =~= s.subrange(p0 + 12, p0 + 12 + length as int));
        assert(crc2_buf@ =~= s.subrange(p0 + 12 + length as int, p0 + 16 + length as int));
    }
    if check_integrity {
        let stored = u32_from_le_bytes(crc2_buf.as_slice());
        match verify_masked_crc(payload.as_slice(), stored) {
            Ok(_) => {},
            Err(e) => {
                return Err(e);
            },
        }
    }
    Ok(Some(payload))
}

/// Read a whole in-memory file through the chunked pipeline: cut it
/// into `chunk_size`-byte chunks, reorder them, and parse the buffered
/// stream record by record.  The outcome is exactly the streaming
/// reader's: its records in order, or its first error.
pub fn read_chunked(file: &Vec<u8>, chunk_size: usize, check_integrity: bool) -> (r: Result<
    Vec<Vec<u8>>,
    Error,
>)
    requires
        chunk_size > 0,
        file@.len() + chunk_size <= u64::MAX,
    ensures
        match stop_step(file@, 0, check_integrity) {
            ParseStep::End => (r matches Ok(out) && seq_views(out@) == records_from(
                file@,
                0,
                check_integrity,
            )),
            ParseStep::Truncated => r matches Err(e) && e is DataLoss,
            ParseStep::Corrupt { found, expect } => r == Err::<Vec<Vec<u8>>, Error>(
                Error::ChecksumMismatch { found, expect },
            ),
            ParseStep::Rec { payload, next } => false,
        },
{
    let flen = file.len();
    let mut reorder = ChunkReorderer::new(chunk_size as u64);
    let mut ordered: Vec<Buffer> = Vec::new();
    let mut start: usize = 0;
    proof {
        assert(ordered@.map_values(|b: Buffer| b.data@) =~= Seq::<Seq<u8>>::empty());
        assert(concat_of(ordered@.map_values(|b: Buffer| b.data@)) =~= file@.take(0));
    }
    while start < flen
        invariant
            0 <= start <= flen,
            flen == file@.len(),
            file@.len() + chunk_size <= u64::MAX,
            chunk_size > 0,
            reorder.pending_view() == Seq::<(u64, Seq<u8>)>::empty(),
            start < flen ==> reorder.next_offset() == start as u64,
            reorder.chunk_size() == chunk_size as u64,
            concat_of(ordered@.map_values(|b: Buffer| b.data@)) == file@.take(start as int),
        decreases flen - start,
    {
        let end = if flen - start < chunk_size {
            flen
        } else {
            start + chunk_size
        };
        let chunk = Buffer {
            data: slice_to_vec(slice_subrange(file.as_slice(), start, end)),
            offset: start as u64,
        };
        let ghost c = (chunk.offset, chunk.data@);
        reorder.push(chunk);
        proof {
            assert(Seq::<(u64, Seq<u8>)>::empty().push(c)[0] == c);
            assert(find_chunk(reorder.pending_view(), reorder.next_offset()) == 0);
        }
        match reorder.pop_ready() {
            Some(b) => {
                let ghost prev = ordered@.map_values(|bb: Buffer| bb.data@);
                ordered.push(b);
                proof {
                    assert(Seq::<(u64, Seq<u8>)>::empty().push(c).remove(0) =~= Seq::<
                        (u64, Seq<u8>),
                    >::empty());
                    assert(ordered@.map_values(|bb: Buffer| bb.data@) =~= prev.push(
                        file@.subrange(start as int, end as int),
                    ));
                    lemma_concat_push(prev, file@.subrange(start as int, end as int));
                    assert(file@.take(start as int) + file@.subrange(start as int, end as int)
                        =~= file@.take(end as int));
                }
            },
            None => {
                proof {
                    assert(false);
                }
            },
        }
        start = end;
    }
    proof {
        assert(file@.take(flen as int) =~= file@);
    }
    let mut stream = AsyncBufReader::new(ordered);
    let mut out: Vec<Vec<u8>> = Vec::new();
    proof {
        assert(seq_views(out@) + records_from(file@, 0, check_integrity) =~= records_from(
            file@,
            0,
            check_integrity,
        ));
    }
    loop
        invariant
            stream.wf(),
            stream.stream() == file@,
            file@.len() <= usize::MAX,
            0 <= stream.pos() <= file@.len(),
            records_from(file@, 0, check_integrity) == seq_views(out@) + records_from(
                file@,
                stream.pos(),
                check_integrity,
            ),
            stop_step(file@, 0, check_integrity) == stop_step(
                file@,
                stream.pos(),
                check_integrity,
            ),
        decreases file@.len() - stream.pos(),
    {
        let ghost p = stream.pos();
        match read_stream_record(&mut stream, check_integrity) {
            Ok(Some(payload)) => {
                let ghost v = payload@;
                let ghost prev = out@;
                out.push(payload);
                proof {
                    assert(seq_views(out@) =~= seq_views(prev).push(v));
                    assert(seq_views(prev).push(v) + records_from(
                        file@,
                        stream.pos(),
                        check_integrity,
                    ) =~= seq_views(prev) + (seq![v] + records_from(
                        file@,
                        stream.pos(),
                        check_integrity,
                    )));
                }
            },
            Ok(None) => {
                proof {
                    assert(records_from(file@, p, check_integrity) =~= Seq::<Seq<u8>>::empty());
                    assert(seq_views(out@) + Seq::<Seq<u8>>::empty() =~= seq_views(out@));
                }
                return Ok(out);
            },
            Err(e) => {
                return Err(e);
            },
        }
    }
}

} // verus!
