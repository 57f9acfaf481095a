//! The multi-file interleaved engine: up to a queue depth of distinct
//! files progress concurrently, one read in flight for each.  When a
//! file ends, its slot is freed and the next file from the source takes
//! it.  Delivery order across files is not guaranteed, but the records
//! of each single file are delivered in that file's order.
//!
//! Per-file decisions are the same state machine as the depth-one
//! engine; this module adds the slot bookkeeping, drives each slot over
//! its in-memory file image, and tags every delivered payload with the
//! index of the file it came from.

use crate::error::Error;
use crate::frame::{parse_step, records_from, stop_step, ParseStep};
use crate::single_file::{cursor_boundary, cursor_tracks, file_step, SlotStep};
use crate::ticket::FileCursor;
use vstd::prelude::*;

verus! {

/// The payloads delivered for file `f`, in delivery order.
pub open spec fn outputs_for(out: Seq<(usize, Vec<u8>)>, f: int) -> Seq<Seq<u8>>
    decreases out.len(),
{
    if out.len() == 0 {
        Seq::empty()
    } else if out[0].0 == f {
        seq![out[0].1@] + outputs_for(out.drop_first(), f)
    } else {
        outputs_for(out.drop_first(), f)
    }
}

/// Delivering one more record extends that file's output and nobody
/// else's.
pub proof fn lemma_outputs_for_push(out: Seq<(usize, Vec<u8>)>, x: (usize, Vec<u8>), f: int)
    ensures
        outputs_for(out.push(x), f) == if x.0 == f {
            outputs_for(out, f).push(x.1@)
        } else {
            outputs_for(out, f)
        },
    decreases out.len(),
{
    let pushed = out.push(x);
    if out.len() == 0 {
        assert(pushed[0] == x);
        assert(pushed.drop_first() =~= Seq::<(usize, Vec<u8>)>::empty());
        assert(outputs_for(pushed.drop_first(), f) =~= Seq::<Seq<u8>>::empty());
        if x.0 == f {
            assert(outputs_for(pushed, f) =~= outputs_for(out, f).push(x.1@));
        }
    } else {
        assert(pushed[0] == out[0]);
        assert(pushed.drop_first() =~= out.drop_first().push(x));
        lemma_outputs_for_push(out.drop_first(), x, f);
        if x.0 == f {
            if out[0].0 == f {
                assert(seq![out[0].1@] + outputs_for(out.drop_first(), f).push(x.1@)
                    =~= (seq![out[0].1@] + outputs_for(out.drop_first(), f)).push(x.1@));
            }
            assert(outputs_for(pushed, f) =~= outputs_for(out, f).push(x.1@));
        } else {
            assert(outputs_for(pushed, f) =~= outputs_for(out, f));
        }
    }
}

/// One slot is sound: its cursor is faithful to its file, and what was
/// delivered for that file so far is exactly the records before the
/// cursor's boundary.
pub open spec fn slot_ok(
    s: (usize, FileCursor),
    files: Seq<Vec<u8>>,
    out: Seq<(usize, Vec<u8>)>,
    check: bool,
) -> bool {
    let f = s.0 as int;
    &&& f < files.len()
    &&& s.1.check() == check
    &&& cursor_tracks(s.1, files[f]@)
    &&& records_from(files[f]@, 0, check) == outputs_for(out, f) + records_from(
        files[f]@,
        cursor_boundary(s.1),
        check,
    )
    &&& stop_step(files[f]@, 0, check) == stop_step(files[f]@, cursor_boundary(s.1), check)
}

/// Whether some slot is reading file `f`.
pub open spec fn slot_active(slots: Seq<(usize, FileCursor)>, f: int) -> bool {
    exists|j: int| 0 <= j < slots.len() && (#[trigger] slots[j]).0 == f
}

/// How much reading one slot still has in front of it.
pub open spec fn slot_work(s: (usize, FileCursor), files: Seq<Vec<u8>>) -> int {
    files[s.0 as int]@.len() + 17 - s.1.offset()
}

/// How much reading the slots still have in front of them.
pub open spec fn slots_measure(slots: Seq<(usize, FileCursor)>, files: Seq<Vec<u8>>) -> int
    decreases slots.len(),
{
    if slots.len() == 0 {
        0
    } else {
        slot_work(slots[0], files) + slots_measure(slots.drop_first(), files)
    }
}

/// Adding a slot adds its work.
pub proof fn lemma_slots_measure_push(
    slots: Seq<(usize, FileCursor)>,
    x: (usize, FileCursor),
    files: Seq<Vec<u8>>,
)
    ensures
        slots_measure(slots.push(x), files) == slots_measure(slots, files) + slot_work(x, files),
    decreases slots.len(),
{
    let pushed = slots.push(x);
    if slots.len() == 0 {
        assert(pushed[0] == x);
        assert(pushed.drop_first() =~= Seq::<(usize, FileCursor)>::empty());
        assert(slots_measure(pushed.drop_first(), files) == 0);
    } else {
        assert(pushed[0] == slots[0]);
        assert(pushed.drop_first() =~= slots.drop_first().push(x));
        lemma_slots_measure_push(slots.drop_first(), x, files);
    }
}

/// Putting a slot in front adds its work.
pub proof fn lemma_slots_measure_insert_front(
    slots: Seq<(usize, FileCursor)>,
    x: (usize, FileCursor),
    files: Seq<Vec<u8>>,
)
    ensures
        slots_measure(slots.insert(0, x), files) == slot_work(x, files) + slots_measure(
            slots,
            files,
        ),
{
    let ins = slots.insert(0, x);
    assert(ins[0] == x);
    assert(ins.drop_first() =~= slots);
}

/// A measure over slots with work left is never negative.
proof fn lemma_slots_measure_nonneg(slots: Seq<(usize, FileCursor)>, files: Seq<Vec<u8>>)
    requires
        forall|j: int| 0 <= j < slots.len() ==> slot_work(#[trigger] slots[j], files) >= 0,
    ensures
        slots_measure(slots, files) >= 0,
    decreases slots.len(),
{
    if slots.len() > 0 {
        assert forall|j: int| 0 <= j < slots.drop_first().len() implies slot_work(
            #[trigger] slots.drop_first()[j],
            files,
        ) >= 0 by {
            assert(slots.drop_first()[j] == slots[j + 1]);
        }
        lemma_slots_measure_nonneg(slots.drop_first(), files);
    }
}

/// Read every record of every file, keeping up to `queue_depth` files
/// in flight, and tag each delivered payload with the index of its
/// file.
///
/// Whatever order delivery interleaves the files in, the payloads
/// delivered for any single file are exactly that file's records, in
/// file order.  The engine stops with a `ChecksumMismatch` only where
/// verification is on and some file's stream stops on a corrupt CRC
/// field; with no corrupt file it always succeeds.
#[verifier::loop_isolation(false)]
#[verifier::rlimit(60)]
pub fn read_files_interleaved(
    files: &Vec<Vec<u8>>,
    queue_depth: usize,
    check_integrity: bool,
) -> (r: Result<Vec<(usize, Vec<u8>)>, Error>)
    requires
        queue_depth >= 1,
        forall|f: int| 0 <= f < files@.len() ==> (#[trigger] files@[f])@.len() + 32 <= u64::MAX,
    ensures
        (r matches Ok(out) ==> forall|f: int|
            0 <= f < files@.len() ==> outputs_for(out@, f) == records_from(
                files@[f]@,
                0,
                check_integrity,
            )),
        (r matches Err(e) ==> exists|f: int|
            {
                &&& 0 <= f < files@.len()
                &&& (#[trigger] stop_step(files@[f]@, 0, check_integrity)) matches ParseStep::Corrupt {
                    found,
                    expect,
                } && e == (Error::ChecksumMismatch { found, expect })
            }),
        (forall|f: int|
            0 <= f < files@.len() ==> !(stop_step(files@[f]@, 0, check_integrity) is Corrupt))
            ==> r is Ok,
{
    let nf = files.len();
    let mut slots: Vec<(usize, FileCursor)> = Vec::new();
    let mut next_file: usize = 0;
    let mut out: Vec<(usize, Vec<u8>)> = Vec::new();
    while slots.len() < queue_depth && next_file < nf
        invariant
            next_file <= nf,
            slots@.len() == next_file,
            out@.len() == 0,
            forall|j: int| 0 <= j < slots@.len() ==> (#[trigger] slots@[j]).0 == j,
            forall|j: int|
                0 <= j < slots@.len() ==> slot_ok(
                    #[trigger] slots@[j],
                    files@,
                    out@,
                    check_integrity,
                ),
        decreases nf - next_file,
    {
        let ghost prev_slots = slots@;
        slots.push((next_file, FileCursor::new(check_integrity)));
        proof {
            assert(outputs_for(out@, next_file as int) =~= Seq::<Seq<u8>>::empty());
            assert(outputs_for(out@, next_file as int) + records_from(
                files@[next_file as int]@,
                0,
                check_integrity,
            ) =~= records_from(files@[next_file as int]@, 0, check_integrity));
            assert forall|j: int| 0 <= j < slots@.len() implies slot_ok(
                #[trigger] slots@[j],
                files@,
                out@,
                check_integrity,
            ) by {
                if j < prev_slots.len() {
                    assert(slots@[j] == prev_slots[j]);
                }
            }
        }
        next_file = next_file + 1;
    }
    proof {
        assert forall|f: int| next_file <= f < nf implies outputs_for(out@, f) == Seq::<
            Seq<u8>,
        >::empty() by {
            assert(outputs_for(out@, f) =~= Seq::<Seq<u8>>::empty());
        }
        assert forall|f: int| 0 <= f < next_file implies slot_active(slots@, f) by {
            assert((#[trigger] slots@[f]).0 == f);
        }
    }
    while slots.len() > 0
        invariant
            next_file <= nf,
            forall|j: int| 0 <= j < slots@.len() ==> (#[trigger] slots@[j]).0 < next_file,
            forall|j1: int, j2: int|
                0 <= j1 < j2 < slots@.len() ==> (#[trigger] slots@[j1]).0 != (
                #[trigger] slots@[j2]).0,
            forall|j: int|
                0 <= j < slots@.len() ==> slot_ok(
                    #[trigger] slots@[j],
                    files@,
                    out@,
                    check_integrity,
                ),
            forall|f: int|
                next_file <= f < nf ==> outputs_for(out@, f) == Seq::<Seq<u8>>::empty(),
            forall|f: int|
                0 <= f < next_file && !slot_active(slots@, f) ==> outputs_for(out@, f)
                    == records_from(files@[f]@, 0, check_integrity),
            slots@.len() == 0 ==> next_file == nf,
        decreases nf - next_file, slots_measure(slots@, files@),
    {
        proof {
            assert forall|j: int| 0 <= j < slots@.len() implies slot_work(
                #[trigger] slots@[j],
                files@,
            ) >= 0 by {}
            lemma_slots_measure_nonneg(slots@, files@);
        }
        let ghost slots0 = slots@;
        let ghost out0 = out@;
        let popped = slots.pop().unwrap();
        let fid = popped.0;
        let mut cursor = popped.1;
        proof {
            assert(slots0[slots0.len() - 1] == popped);
            assert(slots0 =~= slots@.push(popped));
            lemma_slots_measure_push(slots@, popped, files@);
            lemma_slots_measure_nonneg(slots@, files@);
            assert(slot_ok(popped, files@, out0, check_integrity));
            assert forall|j: int| 0 <= j < slots@.len() implies (#[trigger] slots@[j]).0
                != fid by {
                assert(slots@[j] == slots0[j]);
            }
        }
        let ghost b = cursor_boundary(cursor);
        let ghost file_seq = files@[fid as int]@;
        let file_vec = &files[fid];
        let mut survives = false;
        match file_step(&mut cursor, file_vec) {
            Ok(SlotStep::Advanced) => {
                survives = true;
            },
            Ok(SlotStep::Delivered { payload, more }) => {
                let ghost v = payload@;
                let ghost next = parse_step(file_seq, b, check_integrity)->Rec_next;
                let ghost delivered = (fid, payload);
                out.push((fid, payload));
                proof {
                    assert(out@ =~= out0.push(delivered));
                    lemma_outputs_for_push(out0, delivered, fid as int);
                    assert(outputs_for(out0, fid as int).push(v) + records_from(
                        file_seq,
                        next,
                        check_integrity,
                    ) =~= outputs_for(out0, fid as int) + (seq![v] + records_from(
                        file_seq,
                        next,
                        check_integrity,
                    )));
                    assert(records_from(file_seq, 0, check_integrity) == outputs_for(
                        out@,
                        fid as int,
                    ) + records_from(file_seq, next, check_integrity));
                    if !more {
                        assert(outputs_for(out@, fid as int) + Seq::<Seq<u8>>::empty()
                            =~= outputs_for(out@, fid as int));
                    }
                }
                if more {
                    survives = true;
                }
            },
            Ok(SlotStep::Ended) => {
                proof {
                    assert(outputs_for(out0, fid as int) + Seq::<Seq<u8>>::empty() =~= outputs_for(
                        out0,
                        fid as int,
                    ));
                }
            },
            Err(e) => {
                proof {
                    assert({
                        &&& 0 <= fid as int
                        &&& (fid as int) < files@.len()
                        &&& stop_step(files@[fid as int]@, 0, check_integrity) matches ParseStep::Corrupt {
                            found,
                            expect,
                        } && e == (Error::ChecksumMismatch { found, expect })
                    });
                }
                return Err(e);
            },
        }
        // Bookkeeping shared by every path below: records delivered in
        // this step belong to `fid` and change no other file's output.
        proof {
            assert forall|f: int| f != fid as int implies outputs_for(out@, f) == outputs_for(
                out0,
                f,
            ) by {
                if out@ != out0 {
                    lemma_outputs_for_push(out0, out@[out@.len() - 1], f);
                }
            }
            assert forall|j: int| 0 <= j < slots@.len() implies slot_ok(
                #[trigger] slots@[j],
                files@,
                out@,
                check_integrity,
            ) by {
                assert(slots@[j].0 != fid);
            }
        }
        if survives {
            let ghost mid_slots = slots@;
            slots.insert(0, (fid, cursor));
            proof {
                lemma_slots_measure_insert_front(mid_slots, (fid, cursor), files@);
                assert forall|j: int| 0 <= j < slots@.len() implies slot_ok(
                    #[trigger] slots@[j],
                    files@,
                    out@,
                    check_integrity,
                ) by {
                    if j > 0 {
                        assert(slots@[j] == mid_slots[j - 1]);
                    }
                }
                assert forall|j1: int, j2: int| 0 <= j1 < j2 < slots@.len() implies (
                #[trigger] slots@[j1]).0 != (#[trigger] slots@[j2]).0 by {
                    if j1 > 0 {
                        assert(slots@[j1] == mid_slots[j1 - 1]);
                    }
                    assert(slots@[j2] == mid_slots[j2 - 1]);
                }
                assert forall|f: int|
                    0 <= f < next_file && !slot_active(slots@, f) implies outputs_for(out@, f)
                    == records_from(files@[f]@, 0, check_integrity) by {
                    assert(f != fid as int) by {
                        assert(slots@[0].0 == fid);
                    }
                    assert(!slot_active(slots0, f)) by {
                        if slot_active(slots0, f) {
                            let j = choose|j: int|
                                0 <= j < slots0.len() && (#[trigger] slots0[j]).0 == f;
                            assert(slots0[j] == mid_slots[j]);
                            assert(slots@[j + 1] == mid_slots[j]);
                            assert(slot_active(slots@, f));
                        }
                    }
                }
            }
        } else {
            proof {
                assert(outputs_for(out@, fid as int) == records_from(
                    files@[fid as int]@,
                    0,
                    check_integrity,
                ));
            }
            if next_file < nf {
                let ghost mid_slots = slots@;
                slots.push((next_file, FileCursor::new(check_integrity)));
                proof {
                    assert(fid < next_file);
                    assert(outputs_for(out@, next_file as int) == outputs_for(
                        out0,
                        next_file as int,
                    ));
                    assert(outputs_for(out@, next_file as int) == Seq::<Seq<u8>>::empty());
                    assert(outputs_for(out@, next_file as int) + records_from(
                        files@[next_file as int]@,
                        0,
                        check_integrity,
                    ) =~= records_from(files@[next_file as int]@, 0, check_integrity));
                    assert forall|j: int| 0 <= j < slots@.len() implies slot_ok(
                        #[trigger] slots@[j],
                        files@,
                        out@,
                        check_integrity,
                    ) by {
                        if j < mid_slots.len() {
                            assert(slots@[j] == mid_slots[j]);
                        }
                    }
                    assert forall|j1: int, j2: int| 0 <= j1 < j2 < slots@.len() implies (
                    #[trigger] slots@[j1]).0 != (#[trigger] slots@[j2]).0 by {
                        assert(slots@[j1] == mid_slots[j1]);
                        if j2 < mid_slots.len() {
                            assert(slots@[j2] == mid_slots[j2]);
                        }
                    }
                    assert forall|f: int|
                        0 <= f < next_file + 1 && !slot_active(slots@, f) implies outputs_for(
                        out@,
                        f,
                    ) == records_from(files@[f]@, 0, check_integrity) by {
                        if f == fid as int {
                        } else if f == next_file as int {
                            assert(slots@[slots@.len() - 1].0 == next_file);
                            assert(slot_active(slots@, f));
                        } else if f < next_file {
                            assert(!slot_active(slots0, f)) by {
                                if slot_active(slots0, f) {
                                    let j = choose|j: int|
                                        0 <= j < slots0.len() && (#[trigger] slots0[j]).0 == f;
                                    assert(slots0[j] == mid_slots[j]);
                                    assert(slots@[j] == mid_slots[j]);
                                    assert(slot_active(slots@, f));
                                }
                            }
                        }
                    }
                }
                next_file = next_file + 1;
            } else {
                proof {
                    assert forall|f: int|
                        0 <= f < next_file && !slot_active(slots@, f) implies outputs_for(out@, f)
                        == records_from(files@[f]@, 0, check_integrity) by {
                        if f != fid as int {
                            assert(!slot_active(slots0, f)) by {
                                if slot_active(slots0, f) {
                                    let j = choose|j: int|
                                        0 <= j < slots0.len() && (#[trigger] slots0[j]).0 == f;
                                    assert(slots@[j] == slots0[j]);
                                    assert(slot_active(slots@, f));
                                }
                            }
                        }
                    }
                }
            }
        }
        proof {
            assert forall|f: int| next_file <= f < nf implies outputs_for(out@, f) == Seq::<
                Seq<u8>,
            >::empty() by {
                assert(fid < next_file);
                assert(outputs_for(out@, f) == outputs_for(out0, f));
            }
        }
    }
    proof {
        assert forall|f: int| 0 <= f < files@.len() implies outputs_for(out@, f) == records_from(
            files@[f]@,
            0,
            check_integrity,
        ) by {
            assert(!slot_active(slots@, f));
        }
    }
    Ok(out)
}

} // verus!
