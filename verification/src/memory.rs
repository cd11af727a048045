//! The operations of a log over a directory in memory, each driven to its
//! end.

use vstd::prelude::*;

use crate::append;
use crate::append::{Append, AppendPhase, Flush, FlushPhase};
use crate::disk;
use crate::disk::Disk;
use crate::head;
use crate::io;
use crate::io::{Event, Step};
use crate::log;
use crate::laws;
use crate::log::SegmentedLog;
use crate::pos::Pos;
use crate::queue;
use crate::read;
use crate::read::{Peek, PeekPhase, ReadBatch, ReadPhase, Visit, VisitPhase, VisitStep, VISIT_BATCH};
use crate::reader::Record;
use crate::record;
use crate::record::RECORD_HEADER;

verus! {

/// The log and its directory belong together: what was written is readable,
/// the last segment ends where the writer stands, and every segment lies
/// between the reader and the writer.
pub open spec fn anchored(log: SegmentedLog, d: disk::DiskView) -> bool {
    &&& log.committed == log.writer
    &&& !log.writer.before(log.head)
    &&& d.segs.contains_key(log.writer.seg)
    &&& d.segs[log.writer.seg].len() == log.writer.off
    &&& forall|seg: u64| #[trigger]
        d.segs.contains_key(seg) ==> log.head.seg <= seg <= log.writer.seg
}

/// The log once its writer has room: it rolls to a new segment if the current
/// one is full.
pub open spec fn roomy_log(log: SegmentedLog, d: disk::DiskView) -> SegmentedLog {
    if log.full() {
        log.rolled(d.now)
    } else {
        log
    }
}

/// The directory of `roomy_log`.
pub open spec fn roomy_disk(log: SegmentedLog, d: disk::DiskView) -> disk::DiskView {
    if log.full() {
        d.with(log::start_after(log.writer.seg).seg, Seq::empty())
    } else {
        d
    }
}

/// The log after `payload` was appended.
pub open spec fn appended_log(
    log: SegmentedLog,
    d: disk::DiskView,
    payload: Seq<u8>,
) -> SegmentedLog {
    let wrote = roomy_log(log, d).wrote(record::frame(payload).len() as u64);
    (if wrote.due(d.now) {
        wrote.synced(d.now)
    } else {
        wrote
    }).published()
}

/// The directory after `payload` was appended: the last segment is longer by
/// one record.
pub open spec fn appended_disk(
    log: SegmentedLog,
    d: disk::DiskView,
    payload: Seq<u8>,
) -> disk::DiskView {
    let seg = roomy_log(log, d).writer.seg;
    let roomy = roomy_disk(log, d);
    roomy.with(seg, roomy.segs[seg] + record::frame(payload))
}

/// How an append stands after it was given the answers of a directory.
pub open spec fn appending(
    op: append::AppendView,
    log: SegmentedLog,
    d: disk::DiskView,
    e: io::EventView,
    log0: SegmentedLog,
    d0: disk::DiskView,
    payload: Seq<u8>,
) -> bool {
    let frame = record::frame(payload);
    let roomy = roomy_log(log0, d0);
    let wrote = roomy.wrote(op.len);
    let ready = op.frame == frame && op.len == frame.len();
    let done = op.len == frame.len() && op.at == roomy.writer && d == appended_disk(
        log0,
        d0,
        payload,
    );
    let performed = e == io::EventView::Performed;
    let clock = e == io::EventView::Time(d0.now);
    match op.phase {
        AppendPhase::Start => ready && log == log0 && d == d0 && e == io::EventView::Start,
        AppendPhase::Lock => ready && log == log0 && d == d0 && performed,
        AppendPhase::RollSync => ready && log == log0 && log0.full() && d == d0 && performed,
        AppendPhase::RollCreate => ready && log == log0 && log0.full() && d == roomy_disk(log0, d0)
            && performed,
        AppendPhase::RollClock => ready && log == log0 && log0.full() && d == roomy_disk(log0, d0)
            && clock,
        AppendPhase::Write => done && log == roomy && performed,
        AppendPhase::DueClock => done && log == wrote && clock,
        AppendPhase::DueSync => done && log == wrote && wrote.due(d0.now) && performed,
        AppendPhase::SyncClock => done && log == wrote && wrote.due(d0.now) && clock,
        AppendPhase::Over => false,
    }
}

/// Steps that an append still takes at most.
pub open spec fn append_left(phase: AppendPhase) -> nat {
    match phase {
        AppendPhase::Start => 9,
        AppendPhase::Lock => 8,
        AppendPhase::RollSync => 7,
        AppendPhase::RollCreate => 6,
        AppendPhase::RollClock => 5,
        AppendPhase::Write => 4,
        AppendPhase::DueClock => 3,
        AppendPhase::DueSync => 2,
        AppendPhase::SyncClock => 1,
        AppendPhase::Over => 0,
    }
}

/// Steps that a flush still takes at most.
spec fn flush_left(phase: FlushPhase) -> nat {
    match phase {
        FlushPhase::Start => 4,
        FlushPhase::Lock => 3,
        FlushPhase::Sync => 2,
        FlushPhase::Clock => 1,
        FlushPhase::Over => 0,
    }
}

/// A step of an append whose last action was answered leads to the next
/// action, or to its end.
pub proof fn lemma_append_steps(
    op: append::AppendView,
    log: SegmentedLog,
    d: disk::DiskView,
    e: io::EventView,
    log0: SegmentedLog,
    d0: disk::DiskView,
    payload: Seq<u8>,
)
    requires
        anchored(log0, d0),
        log0.writer.seg < u64::MAX,
        log0.writer.off + record::frame(payload).len() <= u64::MAX,
        appending(op, log, d, e, log0, d0, payload),
    ensures
        ({
            let (op2, log2, step) = op.step(log, e);
            match step {
                io::StepView::Do(a) => append_left(op2.phase) < append_left(op.phase) && (forall|
                    e2: io::EventView,
                    d2: disk::DiskView,
                |
                    #[trigger] disk::answers(d, a, e2, d2) ==> appending(
                        op2,
                        log2,
                        d2,
                        e2,
                        log0,
                        d0,
                        payload,
                    )),
                io::StepView::Done(key) => {
                    &&& key == roomy_log(log0, d0).writer.key()
                    &&& log2 == appended_log(log0, d0, payload)
                    &&& d == appended_disk(log0, d0, payload)
                },
                io::StepView::Failed => false,
            }
        }),
{
    let (op2, log2, step) = op.step(log, e);
    if step is Do {
        let a = step->Do_0;
        assert forall|e2: io::EventView, d2: disk::DiskView| #[trigger]
            disk::answers(d, a, e2, d2) implies appending(op2, log2, d2, e2, log0, d0, payload) by {
            if op2.phase == AppendPhase::Write {
                let seg = log2.writer.seg;
                assert(disk::written(d.segs[seg], log2.writer.off as int, op.frame) =~= d.segs[seg]
                    + op.frame);
            }
        }
    }
}

impl SegmentedLog {
    /// Appends one record and returns its key.
    ///
    /// A payload of 1 to `MAX_RECORD` bytes becomes the last unread record.
    /// An empty one, or a larger one of up to `u32::MAX` bytes, is written and
    /// counted all the same, but reads as corruption: it is never handed out,
    /// and hides what is appended after it in its segment.
    pub fn append(&mut self, disk: &mut Disk, payload: &[u8]) -> (key: Option<Vec<u8>>)
        requires
            old(disk).wf(),
            anchored(*old(self), old(disk)@),
            old(self).writer.seg < u64::MAX,
            old(self).writer.off + RECORD_HEADER + payload@.len() <= u64::MAX,
        ensures
            final(disk).wf(),
            key is Some,
            key->0@ == roomy_log(*old(self), old(disk)@).writer.key(),
            *final(self) == appended_log(*old(self), old(disk)@, payload@),
            final(disk)@ == appended_disk(*old(self), old(disk)@, payload@),
            laws::in_order(*old(self), old(disk)@) && record::storable(payload@) && old(
                self,
            ).unread < u64::MAX ==> {
                &&& laws::in_order(*final(self), final(disk)@)
                &&& laws::contents(*final(self), final(disk)@) == laws::contents(
                    *old(self),
                    old(disk)@,
                ).push((key->0@, payload@))
            },
            laws::in_order(*old(self), old(disk)@) && record::unreadable(payload@)
                ==> laws::contents(*final(self), final(disk)@) == laws::contents(
                *old(self),
                old(disk)@,
            ),
    {
        let mut op: Append = Append::new(payload);
        let mut event: Event = Event::Start;
        proof {
            record::lemma_frame_len(payload@);
        }
        let ghost (log0, d0) = (*self, disk@);
        loop
            invariant
                disk.wf(),
                anchored(log0, d0),
                log0 == *old(self),
                d0 == old(disk)@,
                log0.writer.seg < u64::MAX,
                log0.writer.off + record::frame(payload@).len() <= u64::MAX,
                appending(op@, *self, disk@, event@, log0, d0, payload@),
            decreases append_left(op.phase),
        {
            proof {
                lemma_append_steps(op@, *self, disk@, event@, log0, d0, payload@);
            }
            match op.step(self, event) {
                Step::Do(action) => {
                    event = disk.perform(&action);
                },
                Step::Done(key) => {
                    assert(key.deep_view() =~= key@);
                    proof {
                        record::lemma_frame_len(payload@);
                        if laws::in_order(log0, d0) && record::unreadable(payload@) {
                            laws::law_unreadable_payload_is_only_counted(log0, d0, payload@);
                        } else if laws::in_order(log0, d0) && record::storable(payload@)
                            && log0.unread < u64::MAX {
                            laws::law_append_adds_last(log0, d0, payload@);
                        }
                    }
                    return Some(key);
                },
                Step::Failed => {
                    return None;
                },
            }
        }
    }

    /// Forces pending appends to disk.
    pub fn sync(&mut self, disk: &mut Disk) -> (done: bool)
        requires
            old(disk).wf(),
        ensures
            final(disk).wf(),
            final(disk)@ == old(disk)@,
            done == (!old(self).dirty || old(disk)@.segs.contains_key(old(self).writer.seg)),
            *final(self) == if old(self).dirty && done {
                old(self).synced(old(disk)@.now)
            } else {
                *old(self)
            },
    {
        let mut op: Flush = Flush::new();
        let mut event: Event = Event::Start;
        loop
            invariant
                disk.wf(),
                disk@ == old(disk)@,
                *self == *old(self),
                match op.phase {
                    FlushPhase::Start => event@ == io::EventView::Start,
                    FlushPhase::Lock => event@ == io::EventView::Performed,
                    FlushPhase::Sync => self.dirty && event@ == if disk@.segs.contains_key(
                        self.writer.seg,
                    ) {
                        io::EventView::Performed
                    } else {
                        io::EventView::Failed
                    },
                    FlushPhase::Clock => self.dirty && disk@.segs.contains_key(self.writer.seg)
                        && event@ == io::EventView::Time(disk@.now),
                    FlushPhase::Over => false,
                },
            decreases flush_left(op.phase),
        {
            match op.step(self, event) {
                Step::Do(action) => {
                    event = disk.perform(&action);
                },
                Step::Done(_) => {
                    return true;
                },
                Step::Failed => {
                    return false;
                },
            }
        }
    }
}

/// What is left of the segments once those in `[from, to)` were unlinked.
pub open spec fn unlinked(segs: Map<u64, Seq<u8>>, from: u64, to: u64) -> Map<u64, Seq<u8>> {
    Map::new(|seg: u64| segs.contains_key(seg) && !(from <= seg < to), |seg: u64| segs[seg])
}

/// The directory once its head file names `pos`.
pub open spec fn headed(d: disk::DiskView, pos: Pos) -> disk::DiskView {
    disk::DiskView { head: disk::written(d.head, 0, head::head_bytes(pos)), ..d }
}

/// What a read of a batch hands out and leaves behind.
pub struct Batch {
    pub out: read::Records,
    pub log: SegmentedLog,
    pub disk: disk::DiskView,
}

/// The batch of at most `limit` records, after a walk that took `t`.
pub open spec fn batch_of(log: SegmentedLog, d: disk::DiskView, t: queue::Taken) -> Batch {
    let n = t.out.len();
    let behind = disk::DiskView { segs: unlinked(d.segs, log.head.seg, t.pos.seg), ..d };
    if t.pos == log.head {
        Batch { out: t.out, log, disk: d }
    } else if t.pos == log.committed && t.pos.off > 0 {
        let next = log::start_after(log.writer.seg);
        Batch {
            out: t.out,
            log: log.reclaimed(d.now).advanced(next).consumed(n),
            disk: headed(
                disk::DiskView {
                    segs: behind.segs.insert(next.seg, Seq::empty()).remove(log.writer.seg),
                    ..d
                },
                next,
            ),
        }
    } else {
        Batch { out: t.out, log: log.advanced(t.pos).consumed(n), disk: headed(behind, t.pos) }
    }
}

/// Writing the head file again leaves nothing of what was written before.
pub proof fn lemma_headed_twice(d: disk::DiskView, a: Pos, b: Pos)
    ensures
        headed(headed(d, a), b) =~= headed(d, b),
{
    head::lemma_head_len(a);
    head::lemma_head_len(b);
}

/// How a read of a batch stands after it was given the answers of a
/// directory.
pub open spec fn reading(
    op: read::ReadBatchView,
    log: SegmentedLog,
    d: disk::DiskView,
    e: io::EventView,
    log0: SegmentedLog,
    d0: disk::DiskView,
    limit: nat,
) -> bool {
    let goal = queue::taken(d0.segs, log0.head, log0.committed, limit);
    let pos = op.reader.pos;
    let next = log::start_after(log0.writer.seg);
    let arrived = {
        &&& op.reader.end == log0.committed
        &&& goal is Some
        &&& goal->0.out =~= op.reader.out
        &&& goal->0.pos == pos
        &&& pos != log0.head
    };
    let drained = arrived && pos == log0.committed && pos.off > 0;
    let behind = headed(
        disk::DiskView { segs: unlinked(d0.segs, log0.head.seg, pos.seg), ..d0 },
        pos,
    );
    let performed = e == io::EventView::Performed;
    &&& op.limit == limit
    &&& op.wf()
    &&& match op.phase {
        ReadPhase::Start => log == log0 && d == d0 && e == io::EventView::Start,
        ReadPhase::Lock => limit > 0 && log == log0 && d == d0 && performed,
        ReadPhase::Walk => {
            &&& log == log0
            &&& d == d0
            &&& op.reader.end == log0.committed
            &&& queue::heading_for(op.reader, d0.segs, goal)
            &&& !op.reader.finished()
            &&& disk::answers(d0, op.reader.action(), e, d0)
        },
        ReadPhase::Persist => arrived && log == log0 && d == headed(d0, pos) && performed,
        ReadPhase::Unlink => arrived && log == log0 && log0.head.seg <= op.gone < pos.seg && d
            == headed(
            disk::DiskView {
                segs: unlinked(d0.segs, log0.head.seg, (op.gone + 1) as u64),
                ..d0
            },
            pos,
        ),
        ReadPhase::ReclaimLock => drained && log == log0.advanced(pos) && d == behind && performed,
        ReadPhase::ReclaimCreate => drained && log == log0.advanced(pos) && d == behind.with(
            next.seg,
            Seq::empty(),
        ) && performed,
        ReadPhase::ReclaimClock => drained && log == log0.advanced(pos) && d == behind.with(
            next.seg,
            Seq::empty(),
        ) && e == io::EventView::Time(d0.now),
        ReadPhase::ReclaimUnlock => drained && op.gone == log0.writer.seg && log == log0.advanced(
            pos,
        ).reclaimed(d0.now) && d == behind.with(next.seg, Seq::empty()) && performed,
        ReadPhase::ReclaimPersist => drained && op.gone == log0.writer.seg && log == log0.advanced(
            pos,
        ).reclaimed(d0.now) && d == headed(behind.with(next.seg, Seq::empty()), next) && performed,
        ReadPhase::ReclaimUnlink => drained && op.gone == log0.writer.seg && log
            == log0.reclaimed(d0.now).advanced(next) && d == batch_of(log0, d0, goal->0).disk,
        ReadPhase::Over => false,
    }
}

/// How far a read of a batch is from its end.
pub open spec fn read_left(op: read::ReadBatchView) -> (int, int, int, int, int) {
    let rank = match op.phase {
        ReadPhase::Start => 11,
        ReadPhase::Lock => 10,
        ReadPhase::Walk => 9,
        ReadPhase::Persist => 8,
        ReadPhase::Unlink => 7,
        ReadPhase::ReclaimLock => 6,
        ReadPhase::ReclaimCreate => 5,
        ReadPhase::ReclaimClock => 4,
        ReadPhase::ReclaimUnlock => 3,
        ReadPhase::ReclaimPersist => 2,
        ReadPhase::ReclaimUnlink => 1int,
        ReadPhase::Over => 0,
    };
    if op.phase == ReadPhase::Walk {
        let far = queue::distance(op.reader);
        (rank, far.0, far.1, far.2, far.3)
    } else if op.phase == ReadPhase::Unlink {
        (rank, op.reader.pos.seg - op.gone, 0, 0, 0)
    } else {
        (rank, 0, 0, 0, 0)
    }
}

/// `b` is nearer to the end than `a`.
pub open spec fn read_nearer(a: (int, int, int, int, int), b: (int, int, int, int, int)) -> bool {
    ||| 0 <= b.0 < a.0
    ||| b.0 == a.0 && queue::nearer((a.1, a.2, a.3, a.4), (b.1, b.2, b.3, b.4))
}

/// The walk of a read goes on or arrives.
proof fn lemma_read_walks(
    op: read::ReadBatchView,
    log0: SegmentedLog,
    d0: disk::DiskView,
    limit: nat,
)
    requires
        op.limit == limit,
        op.phase == ReadPhase::Lock || op.phase == ReadPhase::Walk,
        op.reader.end == log0.committed,
        queue::heading_for(
            op.reader,
            d0.segs,
            queue::taken(d0.segs, log0.head, log0.committed, limit),
        ),
    ensures
        ({
            let (op2, log2, step) = op.walk(log0);
            let goal = queue::taken(d0.segs, log0.head, log0.committed, limit);
            match step {
                io::StepView::Do(a) => {
                    &&& op2.phase == ReadPhase::Walk || op2.phase == ReadPhase::Persist
                    &&& op2.reader == op.reader
                    &&& op2.phase == ReadPhase::Walk ==> !op.reader.finished()
                    &&& forall|e2: io::EventView, d2: disk::DiskView| #[trigger]
                        disk::answers(d0, a, e2, d2) ==> reading(op2, log2, d2, e2, log0, d0, limit)
                },
                io::StepView::Done(out) => {
                    &&& goal is Some
                    &&& out =~= goal->0.out
                    &&& log2 == batch_of(log0, d0, goal->0).log
                    &&& d0 == batch_of(log0, d0, goal->0).disk
                },
                io::StepView::Failed => false,
            }
        }),
{
    let goal = queue::taken(d0.segs, log0.head, log0.committed, limit);
    if op.reader.finished() {
        queue::lemma_walk_ends(op.reader, d0.segs, goal);
    }
}

/// Unlinking the segments behind the head goes on or ends.
proof fn lemma_read_unlinks(
    op: read::ReadBatchView,
    d: disk::DiskView,
    log0: SegmentedLog,
    d0: disk::DiskView,
    limit: nat,
)
    requires
        anchored(log0, d0),
        op.limit == limit,
        op.reader.wf(),
        op.reader.end == log0.committed,
        ({
            let goal = queue::taken(d0.segs, log0.head, log0.committed, limit);
            &&& goal is Some
            &&& goal->0.out =~= op.reader.out
            &&& goal->0.pos == op.reader.pos
        }),
        op.reader.pos != log0.head,
        !op.reader.pos.before(log0.head),
        log0.head.seg <= op.gone <= op.reader.pos.seg,
        d == headed(
            disk::DiskView { segs: unlinked(d0.segs, log0.head.seg, op.gone), ..d0 },
            op.reader.pos,
        ),
    ensures
        ({
            let (op2, log2, step) = op.unlink(log0);
            let goal = queue::taken(d0.segs, log0.head, log0.committed, limit);
            match step {
                io::StepView::Do(a) => {
                    &&& op2.phase == ReadPhase::Unlink || op2.phase == ReadPhase::ReclaimLock
                    &&& op2.gone == op.gone
                    &&& op2.reader == op.reader
                    &&& op2.phase == ReadPhase::Unlink ==> op.gone < op.reader.pos.seg
                    &&& forall|e2: io::EventView, d2: disk::DiskView| #[trigger]
                        disk::answers(d, a, e2, d2) ==> reading(op2, log2, d2, e2, log0, d0, limit)
                },
                io::StepView::Done(out) => {
                    &&& out == goal->0.out
                    &&& log2 == batch_of(log0, d0, goal->0).log
                    &&& d == batch_of(log0, d0, goal->0).disk
                },
                io::StepView::Failed => false,
            }
        }),
{
    let (op2, log2, step) = op.unlink(log0);
    if step is Do && op2.phase == ReadPhase::Unlink {
        let a = step->Do_0;
        assert forall|e2: io::EventView, d2: disk::DiskView| #[trigger]
            disk::answers(d, a, e2, d2) implies reading(op2, log2, d2, e2, log0, d0, limit) by {
            let rest = unlinked(d0.segs, log0.head.seg, (op.gone + 1) as u64);
            assert(d.segs.remove(op.gone) =~= rest);
            if !d.segs.contains_key(op.gone) {
                assert(d.segs =~= rest);
            }
        }
    }
}

/// Moving the writer of a drained log to a fresh segment goes on or ends.
proof fn lemma_read_reclaims(
    op: read::ReadBatchView,
    log: SegmentedLog,
    d: disk::DiskView,
    e: io::EventView,
    log0: SegmentedLog,
    d0: disk::DiskView,
    limit: nat,
)
    requires
        anchored(log0, d0),
        log0.writer.seg < u64::MAX,
        reading(op, log, d, e, log0, d0, limit),
        op.phase == ReadPhase::ReclaimLock || op.phase == ReadPhase::ReclaimCreate || op.phase
            == ReadPhase::ReclaimClock || op.phase == ReadPhase::ReclaimUnlock || op.phase
            == ReadPhase::ReclaimPersist || op.phase == ReadPhase::ReclaimUnlink,
    ensures
        ({
            let (op2, log2, step) = op.step(log, e);
            let goal = queue::taken(d0.segs, log0.head, log0.committed, limit);
            match step {
                io::StepView::Do(a) => {
                    &&& 0 <= read_left(op2).0 < read_left(op).0
                    &&& forall|e2: io::EventView, d2: disk::DiskView| #[trigger]
                        disk::answers(d, a, e2, d2) ==> reading(op2, log2, d2, e2, log0, d0, limit)
                },
                io::StepView::Done(out) => {
                    &&& goal is Some
                    &&& out =~= goal->0.out
                    &&& log2 == batch_of(log0, d0, goal->0).log
                    &&& d == batch_of(log0, d0, goal->0).disk
                },
                io::StepView::Failed => false,
            }
        }),
{
    let (op2, log2, step) = op.step(log, e);
    let goal = queue::taken(d0.segs, log0.head, log0.committed, limit);
    let pos = op.reader.pos;
    let next = log::start_after(log0.writer.seg);
    if step is Do && op2.phase == ReadPhase::ReclaimUnlink {
        let a = step->Do_0;
        assert forall|e2: io::EventView, d2: disk::DiskView| #[trigger]
            disk::answers(d, a, e2, d2) implies reading(op2, log2, d2, e2, log0, d0, limit) by {
            let behind = disk::DiskView { segs: unlinked(d0.segs, log0.head.seg, pos.seg), ..d0 };
            lemma_headed_twice(behind.with(next.seg, Seq::empty()), pos, next);
            assert(headed(behind, pos).with(next.seg, Seq::empty()) =~= headed(
                behind.with(next.seg, Seq::empty()),
                pos,
            ));
            assert(d2 =~= batch_of(log0, d0, goal->0).disk);
        }
    }
}

/// A step of a read whose last action was answered leads to the next action,
/// or to its end.
pub proof fn lemma_read_steps(
    op: read::ReadBatchView,
    log: SegmentedLog,
    d: disk::DiskView,
    e: io::EventView,
    log0: SegmentedLog,
    d0: disk::DiskView,
    limit: nat,
)
    requires
        d0.wf(),
        anchored(log0, d0),
        log0.writer.seg < u64::MAX,
        reading(op, log, d, e, log0, d0, limit),
    ensures
        ({
            let (op2, log2, step) = op.step(log, e);
            let goal = queue::taken(d0.segs, log0.head, log0.committed, limit);
            match step {
                io::StepView::Do(a) => {
                    &&& read_nearer(read_left(op), read_left(op2))
                    &&& forall|e2: io::EventView, d2: disk::DiskView| #[trigger]
                        disk::answers(d, a, e2, d2) ==> reading(op2, log2, d2, e2, log0, d0, limit)
                },
                io::StepView::Done(out) => {
                    &&& goal is Some
                    &&& out =~= goal->0.out
                    &&& log2 == batch_of(log0, d0, goal->0).log
                    &&& d == batch_of(log0, d0, goal->0).disk
                },
                io::StepView::Failed => goal is None && log2 == log0 && d == d0,
            }
        }),
{
    let goal = queue::taken(d0.segs, log0.head, log0.committed, limit);
    match op.phase {
        ReadPhase::Start => {},
        ReadPhase::Lock => {
            queue::lemma_walk_starts(d0.segs, log0.head, log0.committed, limit);
            let started = read::ReadBatchView {
                reader: crate::reader::ReaderView::start(log0.head, log0.committed, limit),
                ..op
            };
            lemma_read_walks(started, log0, d0, limit);
        },
        ReadPhase::Walk => {
            queue::lemma_walk_steps(op.reader, d0, e, d0, goal);
            if e != io::EventView::Failed {
                let fed = read::ReadBatchView { reader: op.reader.after(e), ..op };
                lemma_read_walks(fed, log0, d0, limit);
            } else {
                assert(!op.reader.fits(e));
            }
        },
        ReadPhase::Persist => {
            queue::lemma_taken_goes_on(d0.segs, log0.head, log0.committed, limit);
            assert(unlinked(d0.segs, log0.head.seg, log0.head.seg) =~= d0.segs);
            let ready = read::ReadBatchView { gone: log0.head.seg, ..op };
            lemma_read_unlinks(ready, d, log0, d0, limit);
        },
        ReadPhase::Unlink => {
            queue::lemma_taken_goes_on(d0.segs, log0.head, log0.committed, limit);
            let ready = read::ReadBatchView { gone: (op.gone + 1) as u64, ..op };
            lemma_read_unlinks(ready, d, log0, d0, limit);
        },
        _ => {
            lemma_read_reclaims(op, log, d, e, log0, d0, limit);
        },
    }
}

/// How a peek stands after it was given the answers of a directory.
spec fn peeking(
    op: read::PeekView,
    log: SegmentedLog,
    d: disk::DiskView,
    e: io::EventView,
    limit: nat,
) -> bool {
    let goal = queue::taken(d.segs, log.head, log.committed, limit);
    &&& op.limit == limit
    &&& match op.phase {
        PeekPhase::Start => e == io::EventView::Start,
        PeekPhase::Lock => e == io::EventView::Performed,
        PeekPhase::Unlock => op.head == log.head && e == io::EventView::Performed,
        PeekPhase::Walk => {
            &&& op.reader.end == log.committed
            &&& queue::heading_for(op.reader, d.segs, goal)
            &&& !op.reader.finished()
            &&& disk::answers(d, op.reader.action(), e, d)
        },
        PeekPhase::Over => false,
    }
}

/// How far a peek is from its end.
spec fn peek_left(op: read::PeekView) -> (int, int, int, int, int) {
    match op.phase {
        PeekPhase::Start => (4, 0, 0, 0, 0),
        PeekPhase::Lock => (3, 0, 0, 0, 0),
        PeekPhase::Unlock => (2, 0, 0, 0, 0),
        PeekPhase::Walk => {
            let far = queue::distance(op.reader);
            (1, far.0, far.1, far.2, far.3)
        },
        PeekPhase::Over => (0, 0, 0, 0, 0),
    }
}

/// A step of a peek whose last action was answered leads to the next action,
/// or to its end.
proof fn lemma_peek_steps(
    op: read::PeekView,
    log: SegmentedLog,
    d: disk::DiskView,
    e: io::EventView,
    limit: nat,
)
    requires
        d.wf(),
        queue::reaches(d.segs, log.committed),
        peeking(op, log, d, e, limit),
    ensures
        ({
            let (op2, step) = op.step(log, e);
            let goal = queue::taken(d.segs, log.head, log.committed, limit);
            match step {
                io::StepView::Do(a) => {
                    &&& read_nearer(peek_left(op), peek_left(op2))
                    &&& forall|e2: io::EventView, d2: disk::DiskView| #[trigger]
                        disk::answers(d, a, e2, d2) ==> d2 == d && peeking(op2, log, d, e2, limit)
                },
                io::StepView::Done(out) => goal is Some && out =~= goal->0.out,
                io::StepView::Failed => goal is None,
            }
        }),
{
    let goal = queue::taken(d.segs, log.head, log.committed, limit);
    match op.phase {
        PeekPhase::Unlock => {
            let start = crate::reader::ReaderView::start(op.head, log.committed, limit);
            queue::lemma_walk_starts(d.segs, log.head, log.committed, limit);
            if start.finished() {
                queue::lemma_walk_ends(start, d.segs, goal);
            }
        },
        PeekPhase::Walk => {
            queue::lemma_walk_steps(op.reader, d, e, d, goal);
            if e != io::EventView::Failed && op.reader.after(e).finished() {
                queue::lemma_walk_ends(op.reader.after(e), d.segs, goal);
            }
        },
        _ => {},
    }
}

/// How a visit stands after it was given the answers of a directory, with
/// `seen` visited.
spec fn visiting(
    op: read::VisitView,
    log: SegmentedLog,
    d: disk::DiskView,
    e: io::EventView,
    seen: Seq<Seq<u8>>,
) -> bool {
    let all = queue::queue(d.segs, log.head, log.committed);
    let on_the_way = {
        &&& op.end == log.committed
        &&& !op.end.before(op.pos)
        &&& !op.pos.before(log.head)
        &&& read::payloads_of(all) =~= seen + read::payloads_of(
            queue::queue(d.segs, op.pos, op.end),
        )
        &&& forall|seg: u64| log.head.seg <= seg < op.pos.seg ==> #[trigger] d.segs.contains_key(seg)
    };
    match op.phase {
        VisitPhase::Start => e == io::EventView::Start && seen.len() == 0,
        VisitPhase::Lock => e == io::EventView::Performed && seen.len() == 0,
        VisitPhase::Batch => on_the_way && e == io::EventView::Performed,
        VisitPhase::Walk => {
            &&& on_the_way
            &&& op.pos.before(op.end)
            &&& op.reader.end == op.end
            &&& op.reader.limit == VISIT_BATCH
            &&& queue::heading_for(
                op.reader,
                d.segs,
                queue::taken(d.segs, op.pos, op.end, VISIT_BATCH as nat),
            )
            &&& !op.reader.finished()
            &&& disk::answers(d, op.reader.action(), e, d)
        },
        VisitPhase::Over => false,
    }
}

/// How far a visit is from its end: segments, bytes, then what is left of the
/// current batch.
spec fn visit_left(op: read::VisitView) -> (int, int, int, (int, int, int, int)) {
    let zero = (0int, 0int, 0int, 0int);
    match op.phase {
        VisitPhase::Start => (u64::MAX + 2, 0, 0, zero),
        VisitPhase::Lock => (u64::MAX + 1, 0, 0, zero),
        VisitPhase::Batch => (op.end.seg - op.pos.seg, u64::MAX - op.pos.off, 1, zero),
        VisitPhase::Walk => (
            op.end.seg - op.pos.seg,
            u64::MAX - op.pos.off,
            0,
            queue::distance(op.reader),
        ),
        VisitPhase::Over => (0, 0, 0, zero),
    }
}

/// `b` is nearer to the end of a visit than `a`.
spec fn visit_nearer(
    a: (int, int, int, (int, int, int, int)),
    b: (int, int, int, (int, int, int, int)),
) -> bool {
    ||| 0 <= b.0 < a.0
    ||| b.0 == a.0 && 0 <= b.1 < a.1
    ||| b.0 == a.0 && b.1 == a.1 && 0 <= b.2 < a.2
    ||| b.0 == a.0 && b.1 == a.1 && b.2 == a.2 && queue::nearer(a.3, b.3)
}

/// The payloads of records taken together are those of each part.
proof fn lemma_payloads_join(a: read::Records, b: read::Records)
    ensures
        read::payloads_of(a + b) =~= read::payloads_of(a) + read::payloads_of(b),
{
}

/// The walk of a visit goes on, or hands out a batch, or shows that nothing is
/// left.
proof fn lemma_visit_walks(
    op: read::VisitView,
    log: SegmentedLog,
    d: disk::DiskView,
    seen: Seq<Seq<u8>>,
)
    requires
        d.wf(),
        anchored(log, d),
        op.end == log.committed,
        op.pos.before(op.end),
        !op.pos.before(log.head),
        read::payloads_of(queue::queue(d.segs, log.head, log.committed)) =~= seen
            + read::payloads_of(queue::queue(d.segs, op.pos, op.end)),
        forall|seg: u64|
            log.head.seg <= seg < op.pos.seg ==> #[trigger] d.segs.contains_key(seg),
        op.reader.end == op.end,
        op.reader.limit == VISIT_BATCH,
        queue::heading_for(
            op.reader,
            d.segs,
            queue::taken(d.segs, op.pos, op.end, VISIT_BATCH as nat),
        ),
    ensures
        ({
            let (op2, step) = op.walk();
            let all = queue::queue(d.segs, log.head, log.committed);
            match step {
                read::VisitStepView::Do(a) => {
                    &&& op2.phase == VisitPhase::Walk
                    &&& op2.reader == op.reader
                    &&& op2.pos == op.pos
                    &&& op2.end == op.end
                    &&& !op.reader.finished()
                    &&& forall|e2: io::EventView, d2: disk::DiskView| #[trigger]
                        disk::answers(d, a, e2, d2) ==> d2 == d && visiting(op2, log, d, e2, seen)
                },
                read::VisitStepView::Visit(more) => {
                    &&& visiting(op2, log, d, io::EventView::Performed, seen + more)
                    &&& op2.phase == VisitPhase::Batch
                    &&& op2.end == op.end
                    &&& op.pos.before(op2.pos)
                },
                read::VisitStepView::Done => {
                    &&& seen =~= read::payloads_of(all)
                    &&& queue::connected(d.segs, log.head, log.committed)
                },
                read::VisitStepView::Failed => false,
            }
        }),
{
    let goal = queue::taken(d.segs, op.pos, op.end, VISIT_BATCH as nat);
    if op.reader.finished() {
        queue::lemma_walk_ends(op.reader, d.segs, goal);
        queue::lemma_taken_before_rest(d.segs, op.pos, op.end, VISIT_BATCH as nat);
        queue::lemma_taken_goes_on(d.segs, op.pos, op.end, VISIT_BATCH as nat);
        let out = op.reader.out;
        lemma_payloads_join(out, queue::queue(d.segs, op.reader.pos, op.end));
        if out.len() == 0 || op.reader.pos == op.pos {
            assert(op.reader.pos == op.end);
            assert(queue::queue(d.segs, op.end, op.end) =~= Seq::empty());
            assert(queue::connected(d.segs, log.head, log.committed));
        } else {
            let more = read::payloads_of(out);
            let rest = read::payloads_of(queue::queue(d.segs, op.reader.pos, op.end));
            assert(seen + (more + rest) =~= (seen + more) + rest);
        }
    }
}

/// A step of a visit whose last action was answered leads to the next action
/// or batch, or to its end.
proof fn lemma_visit_steps(
    op: read::VisitView,
    log: SegmentedLog,
    d: disk::DiskView,
    e: io::EventView,
    seen: Seq<Seq<u8>>,
)
    requires
        d.wf(),
        anchored(log, d),
        visiting(op, log, d, e, seen),
    ensures
        ({
            let (op2, step) = op.step(log, e);
            let all = queue::queue(d.segs, log.head, log.committed);
            match step {
                read::VisitStepView::Do(a) => {
                    &&& visit_nearer(visit_left(op), visit_left(op2))
                    &&& forall|e2: io::EventView, d2: disk::DiskView| #[trigger]
                        disk::answers(d, a, e2, d2) ==> d2 == d && visiting(op2, log, d, e2, seen)
                },
                read::VisitStepView::Visit(more) => {
                    &&& visit_nearer(visit_left(op), visit_left(op2))
                    &&& visiting(op2, log, d, io::EventView::Performed, seen + more)
                },
                read::VisitStepView::Done => {
                    &&& seen =~= read::payloads_of(all)
                    &&& queue::connected(d.segs, log.head, log.committed)
                },
                read::VisitStepView::Failed => !queue::connected(
                    d.segs,
                    log.head,
                    log.committed,
                ),
            }
        }),
{
    let batch = VISIT_BATCH as nat;
    match op.phase {
        VisitPhase::Start => {},
        VisitPhase::Lock => {
            let ready = read::VisitView { pos: log.head, end: log.committed, ..op };
            assert(seen + read::payloads_of(queue::queue(d.segs, log.head, log.committed))
                =~= read::payloads_of(queue::queue(d.segs, log.head, log.committed)));
            if log.head.before(log.committed) {
                queue::lemma_walk_starts(d.segs, log.head, log.committed, batch);
                let started = read::VisitView {
                    reader: crate::reader::ReaderView::start(log.head, log.committed, batch),
                    ..ready
                };
                lemma_visit_walks(started, log, d, seen);
            }
        },
        VisitPhase::Batch => {
            if op.pos.before(op.end) {
                queue::lemma_walk_starts(d.segs, op.pos, op.end, batch);
                let started = read::VisitView {
                    reader: crate::reader::ReaderView::start(op.pos, op.end, batch),
                    ..op
                };
                lemma_visit_walks(started, log, d, seen);
            } else {
                assert(queue::queue(d.segs, op.pos, op.end) =~= Seq::empty());
            }
        },
        VisitPhase::Walk => {
            let goal = queue::taken(d.segs, op.pos, op.end, batch);
            queue::lemma_walk_steps(op.reader, d, e, d, goal);
            if e != io::EventView::Failed {
                let fed = read::VisitView { reader: op.reader.after(e), ..op };
                lemma_visit_walks(fed, log, d, seen);
            } else {
                assert(!op.reader.fits(e));
                if queue::connected(d.segs, log.head, log.committed) {
                    queue::law_walk_takes_first(d.segs, op.pos, op.end, batch);
                }
            }
        },
        VisitPhase::Over => {},
    }
}

impl SegmentedLog {
    /// Reads and consumes up to `limit` records in arrival order. Fails if a
    /// segment on the way is missing.
    pub fn read_batch(&mut self, disk: &mut Disk, limit: usize) -> (out: Option<Vec<Record>>)
        requires
            old(disk).wf(),
            anchored(*old(self), old(disk)@),
            old(self).writer.seg < u64::MAX,
        ensures
            final(disk).wf(),
            match queue::taken(
                old(disk)@.segs,
                old(self).head,
                old(self).committed,
                limit as nat,
            ) {
                Some(t) => {
                    let batch = batch_of(*old(self), old(disk)@, t);
                    &&& out is Some
                    &&& out->0.deep_view() == batch.out
                    &&& *final(self) == batch.log
                    &&& final(disk)@ == batch.disk
                },
                None => out is None && *final(self) == *old(self) && final(disk)@ == old(disk)@,
            },
    {
        let mut op: ReadBatch = ReadBatch::new(limit);
        let mut event: Event = Event::Start;
        let ghost (log0, d0) = (*self, disk@);
        proof {
            disk.lemma_views();
        }
        loop
            invariant
                disk.wf(),
                d0.wf(),
                anchored(log0, d0),
                log0 == *old(self),
                d0 == old(disk)@,
                log0.writer.seg < u64::MAX,
                reading(op@, *self, disk@, event@, log0, d0, limit as nat),
            decreases
                    read_left(op@).0,
                    read_left(op@).1,
                    read_left(op@).2,
                    read_left(op@).3,
                    read_left(op@).4,
        {
            proof {
                lemma_read_steps(op@, *self, disk@, event@, log0, d0, limit as nat);
            }
            match op.step(self, event) {
                Step::Do(action) => {
                    event = disk.perform(&action);
                },
                Step::Done(out) => {
                    return Some(out);
                },
                Step::Failed => {
                    return None;
                },
            }
        }
    }

    /// Reads up to `limit` records without consuming them. Fails if a segment
    /// on the way is missing.
    pub fn peek(&self, disk: &mut Disk, limit: usize) -> (out: Option<Vec<Record>>)
        requires
            old(disk).wf(),
            queue::reaches(old(disk)@.segs, self.committed),
        ensures
            final(disk).wf(),
            final(disk)@ == old(disk)@,
            match queue::taken(old(disk)@.segs, self.head, self.committed, limit as nat) {
                Some(t) => out is Some && out->0.deep_view() == t.out,
                None => out is None,
            },
    {
        let mut op: Peek = Peek::new(limit);
        let mut event: Event = Event::Start;
        let ghost d0 = disk@;
        proof {
            disk.lemma_views();
        }
        loop
            invariant
                disk.wf(),
                op@.wf(),
                disk@ == d0,
                d0 == old(disk)@,
                d0.wf(),
                queue::reaches(d0.segs, self.committed),
                peeking(op@, *self, d0, event@, limit as nat),
            decreases
                    peek_left(op@).0,
                    peek_left(op@).1,
                    peek_left(op@).2,
                    peek_left(op@).3,
                    peek_left(op@).4,
        {
            proof {
                lemma_peek_steps(op@, *self, d0, event@, limit as nat);
            }
            match op.step(self, event) {
                Step::Do(action) => {
                    event = disk.perform(&action);
                },
                Step::Done(out) => {
                    return Some(out);
                },
                Step::Failed => {
                    return None;
                },
            }
        }
    }

    /// The payloads of all unread records, in order, without consuming any.
    /// Fails if a segment on the way is missing.
    pub fn for_each_unread(&self, disk: &mut Disk) -> (out: Option<Vec<Vec<u8>>>)
        requires
            old(disk).wf(),
            anchored(*self, old(disk)@),
        ensures
            final(disk).wf(),
            final(disk)@ == old(disk)@,
            out is Some <==> queue::connected(old(disk)@.segs, self.head, self.committed),
            out is Some ==> out->0.deep_view() == read::payloads_of(
                queue::queue(old(disk)@.segs, self.head, self.committed),
            ),
    {
        let mut op: Visit = Visit::new();
        let mut event: Event = Event::Start;
        let mut seen: Vec<Vec<u8>> = Vec::new();
        let ghost d0 = disk@;
        proof {
            disk.lemma_views();
            assert(seen.deep_view() =~= Seq::<Seq<u8>>::empty());
        }
        loop
            invariant
                disk.wf(),
                op@.wf(),
                disk@ == d0,
                d0 == old(disk)@,
                d0.wf(),
                anchored(*self, d0),
                visiting(op@, *self, d0, event@, seen.deep_view()),
            decreases
                    visit_left(op@).0,
                    visit_left(op@).1,
                    visit_left(op@).2,
                    visit_left(op@).3.0,
                    visit_left(op@).3.1,
                    visit_left(op@).3.2,
                    visit_left(op@).3.3,
        {
            let ghost before = seen.deep_view();
            proof {
                lemma_visit_steps(op@, *self, d0, event@, before);
            }
            match op.step(self, event) {
                VisitStep::Do(action) => {
                    event = disk.perform(&action);
                },
                VisitStep::Visit(mut more) => {
                    let ghost batch = more.deep_view();
                    seen.append(&mut more);
                    assert(seen.deep_view() =~= before + batch);
                    event = Event::Performed;
                },
                VisitStep::Done => {
                    return Some(seen);
                },
                VisitStep::Failed => {
                    return None;
                },
            }
        }
    }
}

} // verus!
