//! What the readers of a log ask of the directory, and in which order.

use vstd::prelude::*;

use crate::disk;
use crate::faults;
use crate::faults::Reading;
use crate::head;
use crate::io;
use crate::log;
use crate::log::SegmentedLog;
use crate::open::{OpenPhase, OpenView};
use crate::pos::Pos;
use crate::read;
use crate::read::{PeekView, ReadBatchView, ReadPhase, VisitStepView, VisitView};
use crate::reader::ReaderView;

verus! {

/// A read of a batch begins with the head lock. A read of nothing asks for
/// nothing, gives nothing and changes nothing.
pub proof fn law_read_begins_with_the_head_lock(limit: nat, log: SegmentedLog)
    ensures
        ({
            let (_, after, step) = ReadBatchView::start(limit).step(log, io::EventView::Start);
            &&& limit > 0 ==> step == io::StepView::<read::Records>::Do(io::ActionView::LockHead)
            &&& limit == 0 ==> step is Done && step->Done_0.len() == 0
            &&& after == log
        }),
{
}

/// What is appended while a batch is read stays: once the read has the writer
/// lock, it moves the writer only if the writer still stands where the reader
/// does. If something was appended, by then `now`, it ends with its records and
/// leaves the writer, what is readable and the reader's position as they are.
pub proof fn law_append_during_a_read_survives(
    op: ReadBatchView,
    log: SegmentedLog,
    event: io::EventView,
    now: SegmentedLog,
)
    requires
        op.step(log, event).2 == io::StepView::<read::Records>::Do(io::ActionView::LockWriter),
    ensures
        ({
            let waiting = op.step(log, event).0;
            let (_, after, step) = waiting.step(now, io::EventView::Performed);
            &&& now.writer != now.head ==> {
                &&& step == io::StepView::Done(waiting.reader.out)
                &&& after.writer == now.writer
                &&& after.committed == now.committed
                &&& after.head == now.head
                &&& after.unread == if now.unread >= waiting.reader.out.len() {
                    now.unread - waiting.reader.out.len()
                } else {
                    0
                }
            }
            &&& now.writer == now.head && now.writer.seg < u64::MAX ==> step == io::StepView::<
                read::Records,
            >::Do(io::ActionView::Create { seg: (now.writer.seg + 1) as u64 }) && after == now
        }),
{
}

/// The writer of a drained log moves to the start of the next segment, with
/// nothing unsynced from that time on, and lets the writer lock go; the count
/// of unread records and the reader's position are not touched by that.
pub proof fn law_reclaiming_moves_the_writer(
    op: ReadBatchView,
    log: SegmentedLog,
    event: io::EventView,
)
    ensures
        ({
            let (_, after, step) = op.step(log, event);
            &&& after.writer != log.writer ==> {
                &&& step == io::StepView::<read::Records>::Do(io::ActionView::UnlockWriter)
                &&& after.writer == (Pos { seg: (log.writer.seg + 1) as u64, off: 0 })
                &&& after.committed == after.writer
                &&& !after.dirty
                &&& event matches io::EventView::Time(now) ==> after.last_sync == now
                &&& after.head == log.head
                &&& after.unread == log.unread
            }
            &&& after.writer == log.writer ==> after.committed == log.committed || step
                == io::StepView::<read::Records>::Do(io::ActionView::UnlockWriter)
            &&& after.segment_bytes == log.segment_bytes
            &&& after.fsync_interval == log.fsync_interval
            &&& !(step == io::StepView::<read::Records>::Do(io::ActionView::UnlockWriter))
                ==> after.dirty == log.dirty && after.last_sync == log.last_sync
        }),
{
}

/// Stage `j` wrote a head file that names `pos`, and that was performed.
pub open spec fn wrote_head(stages: Seq<Reading>, j: int, pos: Pos) -> bool {
    &&& 0 <= j < stages.len() - 1
    &&& stages[j].next().2 == io::StepView::<read::Records>::Do(
        io::ActionView::WriteHead { bytes: head::head_bytes(pos) },
    )
    &&& stages[j + 1].event is Performed
}

/// Phases in which the new head was written.
spec fn is_late(phase: ReadPhase) -> bool {
    ||| phase == ReadPhase::Unlink
    ||| phase == ReadPhase::ReclaimLock
    ||| phase == ReadPhase::ReclaimCreate
    ||| phase == ReadPhase::ReclaimClock
    ||| phase == ReadPhase::ReclaimUnlock
    ||| phase == ReadPhase::ReclaimPersist
}

/// What was written by stage `i`.
proof fn lemma_head_written(
    stages: Seq<Reading>,
    log: SegmentedLog,
    d: disk::DiskView,
    limit: nat,
    i: int,
)
    requires
        faults::is_course(stages, log, d, limit),
        0 <= i < stages.len(),
    ensures
        stages[i].op.phase == ReadPhase::Persist ==> i > 0 && stages[i - 1].next().2
            == io::StepView::<read::Records>::Do(
            io::ActionView::WriteHead { bytes: head::head_bytes(stages[i].op.reader.pos) },
        ),
        stages[i].op.phase == ReadPhase::Unlink ==> stages[i].op.gone < stages[i].op.reader.pos.seg,
        is_late(stages[i].op.phase) ==> exists|j: int| #[trigger]
            wrote_head(stages, j, stages[i].op.reader.pos) && j < i,
        stages[i].op.phase == ReadPhase::ReclaimUnlock || stages[i].op.phase
            == ReadPhase::ReclaimPersist ==> stages[i].op.gone < u64::MAX,
        stages[i].op.phase == ReadPhase::ReclaimPersist ==> i > 0 && stages[i - 1].next().2
            == io::StepView::<read::Records>::Do(
            io::ActionView::WriteHead {
                bytes: head::head_bytes(log::start_after(stages[i].op.gone)),
            },
        ),
    decreases i,
{
    if i > 0 {
        lemma_head_written(stages, log, d, limit, i - 1);
        assert(faults::goes_on_at(stages, i - 1));
        let before = stages[i - 1];
        if before.op.phase == ReadPhase::Persist && is_late(stages[i].op.phase) {
            assert(wrote_head(stages, i - 2, stages[i].op.reader.pos));
        } else if is_late(before.op.phase) {
            let j = choose|j: int| #[trigger]
                wrote_head(stages, j, before.op.reader.pos) && j < i - 1;
            assert(wrote_head(stages, j, stages[i].op.reader.pos) || !is_late(stages[i].op.phase));
        }
    }
}

/// A segment is unlinked only behind a head that was written: whenever a read
/// asks for a segment to be removed, it has before that written a head file that
/// names a later segment. So a crash never leaves a head file that names a
/// segment which the read removed.
pub proof fn law_segments_are_unlinked_behind_a_written_head(
    stages: Seq<Reading>,
    log: SegmentedLog,
    d: disk::DiskView,
    limit: nat,
    i: int,
)
    requires
        faults::is_course(stages, log, d, limit),
        0 <= i < stages.len(),
        stages[i].next().2 is Do,
        stages[i].next().2->Do_0 is Remove,
    ensures
        exists|j: int, pos: Pos| #[trigger]
            wrote_head(stages, j, pos) && j < i && stages[i].next().2->Do_0->Remove_seg < pos.seg,
{
    lemma_head_written(stages, log, d, limit, i);
    let r = stages[i];
    if r.op.phase == ReadPhase::Persist {
        assert(wrote_head(stages, i - 1, r.op.reader.pos));
    } else if r.op.phase == ReadPhase::Unlink {
        let j = choose|j: int| #[trigger] wrote_head(stages, j, r.op.reader.pos) && j < i;
        assert(wrote_head(stages, j, r.op.reader.pos));
    } else {
        assert(r.op.phase == ReadPhase::ReclaimPersist);
        assert(wrote_head(stages, i - 1, log::start_after(r.op.gone)));
    }
}

/// The phase of a read says what it asked for last.
proof fn lemma_asked_last(
    stages: Seq<Reading>,
    log: SegmentedLog,
    d: disk::DiskView,
    limit: nat,
    i: int,
)
    requires
        faults::is_course(stages, log, d, limit),
        0 <= i < stages.len(),
    ensures
        ({
            let phase = stages[i].op.phase;
            let asked = stages[i - 1].next().2;
            &&& phase == ReadPhase::ReclaimLock ==> i > 0 && asked == io::StepView::<
                read::Records,
            >::Do(io::ActionView::LockWriter)
            &&& phase == ReadPhase::ReclaimCreate ==> i > 1 && asked is Do && asked->Do_0 is Create
                && stages[i - 1].op.phase == ReadPhase::ReclaimLock && stages[i - 1].event
                == io::EventView::Performed
            &&& phase == ReadPhase::ReclaimClock ==> i > 2 && stages[i - 1].op.phase
                == ReadPhase::ReclaimCreate && stages[i - 1].event == io::EventView::Performed
            &&& phase != ReadPhase::Start ==> i > 0
            &&& i > 0 ==> phase != ReadPhase::Start
            &&& i == 0 ==> phase == ReadPhase::Start
        }),
{
    if i > 0 {
        assert(faults::goes_on_at(stages, i - 1));
        if i > 1 {
            assert(faults::goes_on_at(stages, i - 2));
        } else {
            assert(stages[0].op.phase == ReadPhase::Start);
        }
    }
}

/// A read locks before it acts. Its first action takes the head lock. It creates
/// a segment for the writer only right after it got the writer lock, with the
/// writer and the reader at the same place, and moves the writer only after that
/// segment was created, under the same lock.
pub proof fn law_reads_act_under_their_locks(
    stages: Seq<Reading>,
    log: SegmentedLog,
    d: disk::DiskView,
    limit: nat,
    i: int,
)
    requires
        faults::is_course(stages, log, d, limit),
        0 <= i < stages.len(),
        limit > 0,
    ensures
        stages[0].next().2 == io::StepView::<read::Records>::Do(io::ActionView::LockHead),
        ({
            let r = stages[i];
            let (_, after, step) = r.next();
            &&& step is Do && step->Do_0 is Create ==> {
                &&& i > 0
                &&& stages[i - 1].next().2 == io::StepView::<read::Records>::Do(
                    io::ActionView::LockWriter,
                )
                &&& r.event is Performed
                &&& r.log.writer == r.log.head
                &&& step->Do_0->Create_seg == r.log.writer.seg + 1
            }
            &&& after.writer != r.log.writer ==> {
                &&& i > 2
                &&& stages[i - 1].next().2 == io::StepView::<read::Records>::Do(io::ActionView::Now)
                &&& stages[i - 2].next().2 is Do && stages[i - 2].next().2->Do_0 is Create
                &&& stages[i - 1].event is Performed
                &&& stages[i - 3].next().2 == io::StepView::<read::Records>::Do(
                    io::ActionView::LockWriter,
                )
                &&& stages[i - 2].event is Performed
            }
        }),
{
    lemma_asked_last(stages, log, d, limit, i);
    if i > 0 {
        assert(faults::goes_on_at(stages, i - 1));
        lemma_asked_last(stages, log, d, limit, i - 1);
    }
    if i > 1 {
        assert(faults::goes_on_at(stages, i - 2));
        lemma_asked_last(stages, log, d, limit, i - 2);
    }
    if i > 2 {
        assert(faults::goes_on_at(stages, i - 3));
    }
}

/// A peek and a visit only look: beside locks, they ask for lengths and bytes
/// of segments alone. Both begin with the head lock. A visit never lets it go,
/// so that nothing is consumed while it walks; a peek lets it go once it knows
/// where the reader stands. A failed action fails them.
pub proof fn law_looking_changes_nothing(
    peek: PeekView,
    visit: VisitView,
    log: SegmentedLog,
    event: io::EventView,
    limit: nat,
)
    ensures
        ({
            let looked = peek.step(log, event).1;
            &&& looked is Do ==> {
                ||| looked->Do_0 is LockHead
                ||| looked->Do_0 is UnlockHead
                ||| looked->Do_0 is Measure
                ||| looked->Do_0 is Read
            }
            &&& event is Failed ==> looked is Failed
        }),
        ({
            let visited = visit.step(log, event).1;
            &&& visited is Do ==> {
                ||| visited->Do_0 is LockHead
                ||| visited->Do_0 is Measure
                ||| visited->Do_0 is Read
            }
            &&& event is Failed ==> visited is Failed
        }),
        PeekView::start(limit).step(log, io::EventView::Start).1 == io::StepView::<
            read::Records,
        >::Do(io::ActionView::LockHead),
        VisitView::start().step(log, io::EventView::Start).1 == VisitStepView::Do(
            io::ActionView::LockHead,
        ),
        ({
            let locked = PeekView::start(limit).step(log, io::EventView::Start).0;
            let (known, next) = locked.step(log, io::EventView::Performed);
            next == io::StepView::<read::Records>::Do(io::ActionView::UnlockHead) && known.head
                == log.head
        }),
{
}

/// An opening unlinks only segments before the position from which reading
/// resumes, writes only that position to the head file, and fails if anything
/// but such an unlinking fails.
pub proof fn law_opening_a_log_keeps_what_is_unread(op: OpenView, event: io::EventView)
    ensures
        ({
            let (after, step) = op.step(event);
            &&& step is Do && step->Do_0 is Remove ==> step->Do_0->Remove_seg < after.head.seg
            &&& step is Do && step->Do_0 is WriteHead ==> step->Do_0->WriteHead_bytes
                == head::head_bytes(after.head)
            &&& step is Done ==> {
                let log = step->Done_0;
                &&& log.head == op.head
                &&& log.writer == op.tail
                &&& log.committed == op.tail
                &&& !log.dirty
                &&& log.last_sync == op.now
                &&& log.segment_bytes == op.segment_bytes
                &&& log.fsync_interval == op.fsync_interval
            }
            &&& event is Failed && op.phase != OpenPhase::Unlink ==> step is Failed
            &&& step is Do ==> !(step->Do_0 is Write) && !(step->Do_0 is Create)
        }),
{
}

/// A walk reads within its segment, and never more at once than one record may
/// take, 64 MiB and a header. It begins each segment with at most 1 MiB.
pub proof fn law_reads_are_bounded(
    walk: ReaderView,
    pos: Pos,
    end: Pos,
    limit: nat,
    len: u64,
)
    requires
        walk.wf(),
        !walk.finished(),
    ensures
        walk.action() matches io::ActionView::Read { seg, off, len } ==> {
            &&& seg == walk.pos.seg
            &&& off == walk.pos.off
            &&& 0 < len <= 67_108_872
            &&& off + len <= walk.seg_end->0
        },
        ({
            let begun = ReaderView::start(pos, end, limit).measured(len);
            !begun.finished() && begun.action() is Read ==> begun.action()->Read_len <= 1_048_576
        }),
{
}

} // verus!
