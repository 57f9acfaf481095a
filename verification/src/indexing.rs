//! The sidecar index: a flat array of 16-byte entries, each two 64-bit
//! little-endian values `(offset, length)` — the offset where a record's
//! frame starts, and the whole framed length.
//!
//! The reader works over an in-memory byte image; a memory-mapped host
//! can hand each entry's bytes to [`read_index_entry`] and must see the
//! same values.

use crate::error::Error;
use vstd::bytes::*;
use vstd::prelude::*;

verus! {

/// Bytes of one index entry: two little-endian 64-bit values.
pub const INDEX_ENTRY_SIZE: usize = 16;

/// The `(offset, length)` pair stored at entry `i` of an index image.
pub open spec fn index_entry_at(bytes: Seq<u8>, i: int) -> (u64, u64)
    recommends
        0 <= i,
        16 * i + 16 <= bytes.len(),
{
    (
        spec_u64_from_le_bytes(bytes.subrange(16 * i, 16 * i + 8)),
        spec_u64_from_le_bytes(bytes.subrange(16 * i + 8, 16 * i + 16)),
    )
}

/// All whole entries of an index image, in order.
pub open spec fn index_entries(bytes: Seq<u8>) -> Seq<(u64, u64)> {
    Seq::new((bytes.len() / 16) as nat, |i: int| index_entry_at(bytes, i))
}

/// The serialized form of one entry.
pub open spec fn index_entry_bytes(offset: u64, length: u64) -> Seq<u8> {
    spec_u64_to_le_bytes(offset) + spec_u64_to_le_bytes(length)
}

/// The index of a well-formed file holding exactly `payloads`: entry `i`
/// is the byte offset where record `i`'s frame starts, and the whole
/// framed length of that record.
pub open spec fn index_of(payloads: Seq<Seq<u8>>) -> Seq<(u64, u64)> {
    Seq::new(
        payloads.len(),
        |i: int|
            (
                crate::frame::total_framed_len(payloads.take(i)) as u64,
                (16 + payloads[i].len()) as u64,
            ),
    )
}

/// Entry `index` of the index image `buf`, or `None` past the end.
pub fn read_index_entry(buf: &[u8], index: usize) -> (r: Option<(u64, u64)>)
    ensures
        index < index_entries(buf@).len() ==> r == Some(index_entries(buf@)[index as int]),
        index >= index_entries(buf@).len() ==> r is None,
{
    let n = buf.len();
    if index < n / 16 {
        proof {
            lemma_entry_in_bounds(buf@.len() as int, index as int);
        }
        let base = index * 16;
        let offset = u64_from_le_bytes(vstd::slice::slice_subrange(buf, base, base + 8));
        let length = u64_from_le_bytes(vstd::slice::slice_subrange(buf, base + 8, base + 16));
        Some((offset, length))
    } else {
        None
    }
}

/// An entry index below `len / 16` addresses 16 whole bytes of the image.
proof fn lemma_entry_in_bounds(len: int, i: int)
    requires
        0 <= i,
        i < len / 16,
    ensures
        16 * i + 16 <= len,
{
    assert(16 * (len / 16) + len % 16 == len) by (nonlinear_arith);
    assert(16 * i + 16 <= 16 * (len / 16));
}

/// Appending one serialized entry to a whole number of entries appends
/// one parsed entry.
pub proof fn lemma_index_entries_append(bytes: Seq<u8>, offset: u64, length: u64)
    requires
        bytes.len() % 16 == 0,
    ensures
        index_entries(bytes + index_entry_bytes(offset, length)) == index_entries(bytes).push(
            (offset, length),
        ),
{
    lemma_auto_spec_u64_to_from_le_bytes();
    let ext = bytes + index_entry_bytes(offset, length);
    let count = bytes.len() as int / 16;
    assert(16 * count == bytes.len());
    assert(ext.len() == bytes.len() + 16);
    assert(ext.len() as int / 16 == count + 1) by {
        assert((16 * count + 16) / 16 == count + 1) by (nonlinear_arith);
    }
    assert forall|i: int| 0 <= i < count + 1 implies index_entries(ext)[i] == index_entries(
        bytes,
    ).push((offset, length))[i] by {
        lemma_entry_in_bounds(ext.len() as int, i);
        if i < count {
            lemma_entry_in_bounds(bytes.len() as int, i);
            assert(ext.subrange(16 * i, 16 * i + 8) =~= bytes.subrange(16 * i, 16 * i + 8));
            assert(ext.subrange(16 * i + 8, 16 * i + 16) =~= bytes.subrange(
                16 * i + 8,
                16 * i + 16,
            ));
        } else {
            assert(ext.subrange(16 * i, 16 * i + 8) =~= spec_u64_to_le_bytes(offset));
            assert(ext.subrange(16 * i + 8, 16 * i + 16) =~= spec_u64_to_le_bytes(length));
        }
    }
    assert(index_entries(ext) =~= index_entries(bytes).push((offset, length)));
}

/// Read the record file image once, front to back, and serialize the
/// `(offset, total_length)` entry of every record: the sidecar index of
/// the file.  The resulting image parses back to exactly the entries
/// the position-tracking reader observed; a file ending inside a frame
/// is data loss, and a corrupt CRC field under verification is a
/// checksum mismatch.
#[verifier::loop_isolation(false)]
pub fn build_index(file: Vec<u8>, check_integrity: bool) -> (r: Result<Vec<u8>, Error>)
    ensures
        match crate::frame::stop_step(file@, 0, check_integrity) {
            crate::frame::ParseStep::Corrupt { found, expect } => r == Err::<Vec<u8>, Error>(
                Error::ChecksumMismatch { found, expect },
            ),
            crate::frame::ParseStep::Truncated => r matches Err(e) && e is DataLoss,
            _ => r matches Ok(out) && index_entries(out@) == crate::frame::index_stream(
                file@,
                0,
                check_integrity,
            ),
        },
{
    let ghost file_seq = file@;
    let flen = file.len();
    let mut reader = crate::sync_reader::TfrecordReader::new(file, check_integrity);
    let mut writer = SyncIndexWriter::new(Vec::new());
    proof {
        assert(writer.sink() =~= Seq::<u8>::empty());
        assert(index_entries(writer.sink()) =~= Seq::<(u64, u64)>::empty());
        assert(index_entries(writer.sink()) + crate::frame::index_stream(
            file_seq,
            0,
            check_integrity,
        ) =~= crate::frame::index_stream(file_seq, 0, check_integrity));
    }
    loop
        invariant
            reader.wf(),
            !reader.failed(),
            reader.bytes() == file_seq,
            reader.check() == check_integrity,
            writer.sink().len() % 16 == 0,
            writer.sink().len() <= reader.pos(),
            crate::frame::index_stream(file_seq, 0, check_integrity) == index_entries(
                writer.sink(),
            ) + crate::frame::index_stream(file_seq, reader.pos(), check_integrity),
            crate::frame::stop_step(file_seq, 0, check_integrity) == crate::frame::stop_step(
                file_seq,
                reader.pos(),
                check_integrity,
            ),
        decreases file_seq.len() - reader.pos(),
    {
        let ghost pos = reader.pos();
        let ghost prev_sink = writer.sink();
        match reader.read_index() {
            Ok(Some((offset, length))) => {
                proof {
                    lemma_auto_spec_u64_to_from_le_bytes();
                    lemma_index_entries_append(prev_sink, offset, length);
                    assert(index_entries(prev_sink).push((offset, length))
                        + crate::frame::index_stream(file_seq, reader.pos(), check_integrity)
                        =~= index_entries(prev_sink) + (seq![(offset, length)]
                        + crate::frame::index_stream(file_seq, reader.pos(), check_integrity)));
                }
                match writer.write_index(offset, length) {
                    Ok(_) => {},
                    Err(e) => {
                        proof {
                            assert(false);
                        }
                        return Err(e);
                    },
                }
            },
            Ok(None) => {
                proof {
                    assert(crate::frame::index_stream(file_seq, pos, check_integrity) =~= Seq::<
                        (u64, u64),
                    >::empty());
                    assert(index_entries(writer.sink()) + Seq::<(u64, u64)>::empty()
                        =~= index_entries(writer.sink()));
                }
                return Ok(writer.into_inner());
            },
            Err(e) => {
                return Err(e);
            },
        }
    }
}

/// An ordered, restartable, finite sequence of `(offset, length)` pairs,
/// read into memory.
pub struct IndexReader {
    buf: Vec<u8>,
}

impl IndexReader {
    /// The bytes of the index image.
    pub closed spec fn bytes(&self) -> Seq<u8> {
        self.buf@
    }

    /// The entries of the index, in order.
    pub open spec fn entries(&self) -> Seq<(u64, u64)> {
        index_entries(self.bytes())
    }

    /// Wrap an index image.  Trailing bytes short of a whole entry are
    /// ignored.
    pub fn new(buf: Vec<u8>) -> (r: Self)
        ensures
            r.bytes() == buf@,
    {
        IndexReader { buf }
    }

    /// The pair at entry `index`, which must be in range.
    pub fn read_index(&self, index: usize) -> (r: (u64, u64))
        requires
            index < self.entries().len(),
        ensures
            r == self.entries()[index as int],
    {
        let n = self.buf.len();
        proof {
            lemma_entry_in_bounds(n as int, index as int);
        }
        let base = index * 16;
        let offset = u64_from_le_bytes(vstd::slice::slice_subrange(
            self.buf.as_slice(),
            base,
            base + 8,
        ));
        let length = u64_from_le_bytes(vstd::slice::slice_subrange(
            self.buf.as_slice(),
            base + 8,
            base + 16,
        ));
        (offset, length)
    }

    /// The pair at entry `index`, or `None` past the end.
    pub fn get(&self, index: usize) -> (r: Option<(u64, u64)>)
        ensures
            index < self.entries().len() ==> r == Some(self.entries()[index as int]),
            index >= self.entries().len() ==> r is None,
    {
        if index < self.len() {
            Some(self.read_index(index))
        } else {
            None
        }
    }

    /// How many whole entries the index holds.
    pub fn len(&self) -> (r: usize)
        ensures
            r == self.entries().len(),
    {
        self.buf.len() / 16
    }

    /// A borrowing cursor over the entries, from the first.
    pub fn iter(&self) -> (r: Iter2<'_>)
        ensures
            r.entries() == self.entries(),
            r.index() == 0,
    {
        Iter2 { reader: self, index: 0 }
    }

    /// An owning cursor over the entries, from the first.
    pub fn into_iter(self) -> (r: IntoIter2)
        ensures
            r.entries() == self.entries(),
            r.index() == 0,
    {
        IntoIter2 { reader: self, index: 0 }
    }
}

/// A borrowing cursor over an index.
pub struct Iter2<'a> {
    reader: &'a IndexReader,
    index: usize,
}

impl<'a> Iter2<'a> {
    /// The entries walked over.
    pub closed spec fn entries(&self) -> Seq<(u64, u64)> {
        self.reader.entries()
    }

    /// The position of the next entry to yield.
    pub closed spec fn index(&self) -> int {
        self.index as int
    }

    /// The next entry, or `None` once every entry has been yielded.
    pub fn next(&mut self) -> (r: Option<(u64, u64)>)
        ensures
            final(self).entries() == old(self).entries(),
            old(self).index() < old(self).entries().len() ==> r == Some(
                old(self).entries()[old(self).index()],
            ) && final(self).index() == old(self).index() + 1,
            old(self).index() >= old(self).entries().len() ==> r is None && final(self).index()
                == old(self).index(),
    {
        let l = self.reader.len();
        if self.index < l {
            let p = self.reader.read_index(self.index);
            self.index = self.index + 1;
            Some(p)
        } else {
            None
        }
    }
}

/// An owning cursor over an index.
pub struct IntoIter2 {
    reader: IndexReader,
    index: usize,
}

impl IntoIter2 {
    /// The entries walked over.
    pub closed spec fn entries(&self) -> Seq<(u64, u64)> {
        self.reader.entries()
    }

    /// The position of the next entry to yield.
    pub closed spec fn index(&self) -> int {
        self.index as int
    }

    /// The next entry, or `None` once every entry has been yielded.
    pub fn next(&mut self) -> (r: Option<(u64, u64)>)
        ensures
            final(self).entries() == old(self).entries(),
            old(self).index() < old(self).entries().len() ==> r == Some(
                old(self).entries()[old(self).index()],
            ) && final(self).index() == old(self).index() + 1,
            old(self).index() >= old(self).entries().len() ==> r is None && final(self).index()
                == old(self).index(),
    {
        let l = self.reader.len();
        if self.index < l {
            let p = self.reader.read_index(self.index);
            self.index = self.index + 1;
            Some(p)
        } else {
            None
        }
    }
}

/// Append-only emission of index entries over a byte sink.
pub struct SyncIndexWriter {
    writer: Vec<u8>,
}

impl SyncIndexWriter {
    /// The bytes written to the sink so far.
    pub closed spec fn sink(&self) -> Seq<u8> {
        self.writer@
    }

    /// Wrap a byte sink.  Bytes already in it are kept and appended to.
    pub fn new(writer: Vec<u8>) -> (r: Self)
        ensures
            r.sink() == writer@,
    {
        SyncIndexWriter { writer }
    }

    /// Append one 16-byte entry: `offset` then `length`, each
    /// little-endian.
    pub fn write_index(&mut self, offset: u64, length: u64) -> (r: Result<(), Error>)
        requires
            old(self).sink().len() + 16 <= usize::MAX,
        ensures
            r is Ok,
            final(self).sink() == old(self).sink() + index_entry_bytes(offset, length),
    {
        proof {
            lemma_auto_spec_u64_to_from_le_bytes();
        }
        self.writer.extend_from_slice(u64_to_le_bytes(offset).as_slice());
        self.writer.extend_from_slice(u64_to_le_bytes(length).as_slice());
        proof {
            assert(self.writer@ =~= old(self).sink() + index_entry_bytes(offset, length));
        }
        Ok(())
    }

    /// Force buffered bytes to the sink.  The in-memory sink holds every
    /// byte as soon as it is written, so there is nothing left to move.
    pub fn flush(&mut self) -> (r: Result<(), Error>)
        ensures
            r is Ok,
            final(self).sink() == old(self).sink(),
    {
        Ok(())
    }

    /// Take the sink back, with every entry written so far.
    pub fn into_inner(self) -> (r: Vec<u8>)
        ensures
            r@ == self.sink(),
    {
        self.writer
    }
}

} // verus!
