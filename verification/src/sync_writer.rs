//! The synchronous, append-only record writer.
//!
//! The writer owns an in-memory byte sink and appends one whole frame per
//! record.  It never rewrites or truncates.  A host that wants the frames
//! on disk takes the sink back with [`TfrecordWriter::into_inner`] and
//! commits it itself.

use crate::error::Error;
use crate::frame::{encode_frame, frame_of, frames_of, lemma_frames_of_push, seq_views};
use vstd::prelude::*;

verus! {

broadcast use vstd::std_specs::vec::axiom_spec_len;

/// Append-only frame emission over a byte sink.
pub struct TfrecordWriter {
    writer: Vec<u8>,
}

impl TfrecordWriter {
    /// The bytes written to the sink so far.
    pub closed spec fn sink(&self) -> Seq<u8> {
        self.writer@
    }

    /// Wrap a byte sink.  Bytes already in it are kept and appended to.
    pub fn new(writer: Vec<u8>) -> (r: Self)
        ensures
            r.sink() == writer@,
    {
        TfrecordWriter { writer }
    }

    /// Append one record: the frame that carries `buf`.
    ///
    /// The bytes appended are exactly `frame_of(buf)`, which is
    /// `FRAME_OVERHEAD + buf.len()` bytes long.
    pub fn write(&mut self, buf: &[u8]) -> (r: Result<(), Error>)
        requires
            old(self).sink().len() + buf@.len() + 16 <= usize::MAX,
        ensures
            r is Ok,
            final(self).sink() == old(self).sink() + frame_of(buf@),
    {
        let frame = encode_frame(buf);
        self.writer.extend_from_slice(frame.as_slice());
        Ok(())
    }

    /// Append one record per payload, in order: the sink grows by
    /// exactly the concatenated frames of `payloads`.
    pub fn write_many(&mut self, payloads: &Vec<Vec<u8>>) -> (r: Result<(), Error>)
        requires
            old(self).sink().len() + crate::frame::total_framed_len(seq_views(payloads@))
                <= usize::MAX,
        ensures
            r is Ok,
            final(self).sink() == old(self).sink() + frames_of(seq_views(payloads@)),
    {
        let ghost views = seq_views(payloads@);
        let n = payloads.len();
        let mut i: usize = 0;
        proof {
            assert(views.take(0) =~= Seq::<Seq<u8>>::empty());
            assert(old(self).sink() + frames_of(views.take(0)) =~= old(self).sink());
        }
        #[verifier::loop_isolation(false)]
        while i < n
            invariant
                0 <= i <= n,
                self.sink() == old(self).sink() + frames_of(views.take(i as int)),
            decreases n - i,
        {
            proof {
                assert forall|k: int| 0 <= k <= views.len() implies crate::frame::wf_payloads(
                    #[trigger] views.take(k),
                ) by {
                    assert forall|j: int| 0 <= j < k implies #[trigger] views.take(k)[j].len()
                        <= u64::MAX by {
                        assert(views.take(k)[j] == payloads@[j]@);
                        assert(payloads@[j].len() == payloads@[j]@.len());
                    }
                }
                crate::frame::lemma_frames_of_len(views.take(i as int));
                crate::frame::lemma_total_framed_len_split(views, i as int);
                crate::frame::lemma_total_framed_len_nonneg(views.skip(i as int));
                assert(views.skip(i as int)[0] == views[i as int]);
                crate::frame::lemma_total_framed_len_nonneg(views.skip(i as int).drop_first());
                assert(crate::frame::total_framed_len(views.skip(i as int)) == 16
                    + views[i as int].len() + crate::frame::total_framed_len(
                    views.skip(i as int).drop_first(),
                ));
            }
            proof {
                assert(views[i as int] == payloads@[i as int]@);
            }
            match self.write(payloads[i].as_slice()) {
                Ok(_) => {},
                Err(e) => {
                    proof {
                        assert(false);
                    }
                    return Err(e);
                },
            }
            proof {
                lemma_frames_of_push(views.take(i as int), views[i as int]);
                assert(views.take(i as int + 1) =~= views.take(i as int).push(views[i as int]));
                assert(self.sink() =~= old(self).sink() + frames_of(views.take(i as int + 1)));
            }
            i = i + 1;
        }
        proof {
            assert(views.take(n as int) =~= views);
        }
        Ok(())
    }

    /// Force buffered bytes to the sink.  The in-memory sink holds every
    /// byte as soon as it is written, so there is nothing left to move.
    pub fn flush(&mut self) -> (r: Result<(), Error>)
        ensures
            r is Ok,
            final(self).sink() == old(self).sink(),
    {
        Ok(())
    }

    /// Take the sink back, with every frame written so far.
    pub fn into_inner(self) -> (r: Vec<u8>)
        ensures
            r@ == self.sink(),
    {
        self.writer
    }
}

} // verus!
