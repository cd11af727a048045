//! What a read with actions that fail hands out and leaves.

use vstd::prelude::*;

use crate::disk;
use crate::io;
use crate::laws;
use crate::log;
use crate::log::SegmentedLog;
use crate::pos::Pos;
use crate::queue;
use crate::read;
use crate::read::ReadPhase;
use crate::reader;
use crate::record;

verus! {

/// What action `a` comes to from `d` on: it leads to event `e` and leaves `d2`.
/// Any action may fail. A failed one leaves the directory as it was, but for
/// the head file, which a write that failed may have left with any bytes.
pub open spec fn comes_to(
    d: disk::DiskView,
    a: io::ActionView,
    e: io::EventView,
    d2: disk::DiskView,
) -> bool {
    ||| disk::answers(d, a, e, d2)
    ||| {
        &&& e is Failed
        &&& d2.segs == d.segs
        &&& a is WriteHead || d2.head == d.head
    }
}

/// A read of a batch on its way, with the answer to its last action.
pub struct Reading {
    pub op: read::ReadBatchView,
    pub log: SegmentedLog,
    pub disk: disk::DiskView,
    pub event: io::EventView,
}

impl Reading {
    /// What the read does next.
    pub open spec fn next(self) -> (read::ReadBatchView, SegmentedLog, io::StepView<read::Records>) {
        self.op.step(self.log, self.event)
    }

    /// The read goes on with an action, which comes to what `to` holds.
    pub open spec fn goes_on(self, to: Reading) -> bool {
        let (op, log, step) = self.next();
        &&& step is Do
        &&& to.op == op
        &&& to.log == log
        &&& comes_to(self.disk, step->Do_0, to.event, to.disk)
    }
}

/// Each stage of `stages` but the last goes on with the one behind it.
pub open spec fn goes_on_at(stages: Seq<Reading>, i: int) -> bool {
    stages[i].goes_on(stages[i + 1])
}

/// `stages` is the course of a read of at most `limit` records, from its start
/// to some stage of it.
pub open spec fn is_course(
    stages: Seq<Reading>,
    log: SegmentedLog,
    d: disk::DiskView,
    limit: nat,
) -> bool {
    &&& stages.len() > 0
    &&& stages[0] == (Reading {
        op: read::ReadBatchView::start(limit),
        log,
        disk: d,
        event: io::EventView::Start,
    })
    &&& forall|i: int| 0 <= i < stages.len() - 1 ==> #[trigger] goes_on_at(stages, i)
}

/// The new head was not written yet.
spec fn is_early(phase: ReadPhase) -> bool {
    ||| phase == ReadPhase::Start
    ||| phase == ReadPhase::Lock
    ||| phase == ReadPhase::Walk
    ||| phase == ReadPhase::Persist
}

/// Until the new head was written, nothing was consumed.
proof fn lemma_early(
    stages: Seq<Reading>,
    log: SegmentedLog,
    d: disk::DiskView,
    limit: nat,
    i: int,
)
    requires
        is_course(stages, log, d, limit),
        0 <= i < stages.len(),
    ensures
        stages[i].op.phase != ReadPhase::Over,
        is_early(stages[i].op.phase) ==> stages[i].log == log && stages[i].disk.segs == d.segs,
    decreases i,
{
    if i > 0 {
        lemma_early(stages, log, d, limit, i - 1);
        assert(goes_on_at(stages, i - 1));
    }
}

/// A read that fails loses nothing: whichever of its actions failed, the log is
/// as it was before the read, with the same count of unread records, and no
/// segment was changed, so that the records are still there to be read. Once
/// the new head was written the read does not fail any more, and hands the
/// records out.
pub proof fn law_failed_read_loses_nothing(
    stages: Seq<Reading>,
    log: SegmentedLog,
    d: disk::DiskView,
    limit: nat,
)
    requires
        is_course(stages, log, d, limit),
        stages.last().next().2 is Failed,
    ensures
        ({
            let (_, after, _) = stages.last().next();
            &&& after == log
            &&& stages.last().disk.segs == d.segs
            &&& laws::contents(after, stages.last().disk) == laws::contents(log, d)
        }),
{
    lemma_early(stages, log, d, limit, stages.len() - 1);
}

/// The segments from that of the new head on are those that were there.
spec fn kept(segs: Map<u64, Seq<u8>>, d: disk::DiskView, pos: Pos, end: Pos) -> bool {
    forall|seg: u64|
        pos.seg <= seg <= end.seg ==> (#[trigger] d.segs.contains_key(seg) == segs.contains_key(
            seg,
        )) && (d.segs.contains_key(seg) ==> d.segs[seg] == segs[seg])
}

/// How a read stands, whichever of its actions failed.
spec fn under_way(r: Reading, log0: SegmentedLog, d0: disk::DiskView, limit: nat) -> bool {
    let goal = queue::taken(d0.segs, log0.head, log0.committed, limit);
    let pos = r.op.reader.pos;
    let next = log::start_after(log0.writer.seg);
    let arrived = {
        &&& r.op.reader.end == log0.committed
        &&& goal is Some
        &&& goal->0.out =~= r.op.reader.out
        &&& goal->0.pos == pos
        &&& pos != log0.head
        &&& kept(d0.segs, r.disk, pos, log0.committed)
    };
    let drained = arrived && pos == log0.committed && pos.off > 0;
    &&& r.op.limit == limit
    &&& match r.op.phase {
        ReadPhase::Start => r.event is Start && r.log == log0 && r.disk == d0,
        ReadPhase::Lock => limit > 0 && r.log == log0 && r.disk.segs == d0.segs,
        ReadPhase::Walk => {
            &&& r.log == log0
            &&& r.disk.segs == d0.segs
            &&& r.op.reader.end == log0.committed
            &&& queue::heading_for(r.op.reader, d0.segs, goal)
            &&& !r.op.reader.finished()
            &&& r.event is Failed || disk::answers(r.disk, r.op.reader.action(), r.event, r.disk)
        },
        ReadPhase::Persist => arrived && r.log == log0,
        ReadPhase::Unlink => arrived && r.log == log0 && r.op.gone < pos.seg,
        ReadPhase::ReclaimLock => drained && r.log == log0.advanced(pos),
        ReadPhase::ReclaimCreate | ReadPhase::ReclaimClock => drained && r.log == log0.advanced(pos)
            && log0.writer.seg < u64::MAX,
        ReadPhase::ReclaimUnlock | ReadPhase::ReclaimPersist => {
            &&& drained
            &&& log0.writer.seg < u64::MAX
            &&& r.op.gone == log0.writer.seg
            &&& r.log.head == pos
            &&& r.log.committed == next
            &&& r.log.unread == log0.unread
        },
        ReadPhase::ReclaimUnlink => {
            &&& goal is Some
            &&& goal->0.out =~= r.op.reader.out
            &&& goal->0.pos == log0.committed
            &&& log0.writer.seg < u64::MAX
            &&& r.log.head == next
            &&& r.log.committed == next
            &&& r.log.unread == log0.unread
        },
        ReadPhase::Over => false,
    }
}

/// What a walk takes and leaves.
proof fn lemma_taken(log: SegmentedLog, d: disk::DiskView, limit: nat)
    requires
        laws::in_order(log, d),
    ensures
        ({
            let t = queue::taken(d.segs, log.head, log.committed, limit);
            let all = laws::contents(log, d);
            let n = laws::handed_out(limit, all.len());
            &&& t is Some
            &&& t->0.out =~= all.take(n)
            &&& queue::queue(d.segs, t->0.pos, log.committed) =~= all.skip(n)
            &&& !t->0.pos.before(log.head)
            &&& t->0.pos == log.head ==> n == 0
        }),
{
    let (pos, end) = (log.head, log.committed);
    assert(queue::fits(d.segs));
    queue::law_walk_takes_first(d.segs, pos, end, limit);
    queue::lemma_taken_before_rest(d.segs, pos, end, limit);
    queue::lemma_taken_goes_on(d.segs, pos, end, limit);
    assert(queue::queue(d.segs, end, end) =~= Seq::empty());
}

/// A walk goes on or arrives.
proof fn lemma_walks(
    r: Reading,
    op: read::ReadBatchView,
    log0: SegmentedLog,
    d0: disk::DiskView,
    limit: nat,
)
    requires
        laws::in_order(log0, d0),
        r.log == log0,
        r.disk.segs == d0.segs,
        r.next() == op.walk(log0),
        op.limit == limit,
        op.phase == ReadPhase::Lock || op.phase == ReadPhase::Walk,
        op.reader.end == log0.committed,
        queue::heading_for(
            op.reader,
            d0.segs,
            queue::taken(d0.segs, log0.head, log0.committed, limit),
        ),
    ensures
        went_well(r, log0, d0, limit),
{
    let goal = queue::taken(d0.segs, log0.head, log0.committed, limit);
    if op.reader.finished() {
        queue::lemma_walk_ends(op.reader, d0.segs, goal);
    }
    if r.next().2 is Done {
        lemma_taken(log0, d0, limit);
    }
}

/// The read goes on from here, or ends with the records that it was to hand
/// out.
spec fn went_well(r: Reading, log0: SegmentedLog, d0: disk::DiskView, limit: nat) -> bool {
    let (op, log, step) = r.next();
    match step {
        io::StepView::Do(a) => forall|to: Reading| #[trigger]
            r.goes_on(to) ==> under_way(to, log0, d0, limit),
        io::StepView::Done(out) => ends_well(out, log, r.disk, log0, d0, limit),
        io::StepView::Failed => true,
    }
}

/// The first records were handed out, and the others are still there.
pub open spec fn ends_well(
    out: read::Records,
    log: SegmentedLog,
    d: disk::DiskView,
    log0: SegmentedLog,
    d0: disk::DiskView,
    limit: nat,
) -> bool {
    let all = laws::contents(log0, d0);
    let n = laws::handed_out(limit, all.len());
    &&& out =~= all.take(n)
    &&& laws::contents(log, d) =~= all.skip(n)
    &&& log.unread == all.len() - n
}

/// A log that was drained, with the writer in a fresh segment and the head
/// where it was or there, holds nothing.
proof fn lemma_drained(segs: Map<u64, Seq<u8>>, pos: Pos)
    requires
        pos.seg < u64::MAX,
        segs.contains_key(pos.seg),
        segs[pos.seg].len() == pos.off,
    ensures
        queue::queue(segs, pos, log::start_after(pos.seg)) =~= Seq::empty(),
{
    let next = log::start_after(pos.seg);
    record::lemma_records_empty();
    assert(queue::left(segs, pos, next) =~= Seq::<u8>::empty());
    assert(queue::queue(segs, next, next) =~= Seq::empty());
    assert(queue::next_segment(pos) == next);
}

/// A step of a read that has arrived, whatever its last action came to.
proof fn lemma_late_steps(r: Reading, log0: SegmentedLog, d0: disk::DiskView, limit: nat)
    requires
        laws::in_order(log0, d0),
        under_way(r, log0, d0, limit),
        r.op.phase != ReadPhase::Start,
        r.op.phase != ReadPhase::Lock,
        r.op.phase != ReadPhase::Walk,
    ensures
        went_well(r, log0, d0, limit),
{
    let pos = r.op.reader.pos;
    let next = log::start_after(log0.writer.seg);
    let (op, log, step) = r.next();
    lemma_taken(log0, d0, limit);
    if step is Do {
        assert forall|to: Reading| #[trigger] r.goes_on(to) implies under_way(
            to,
            log0,
            d0,
            limit,
        ) by {
            assert(to.op == op && to.log == log);
            if r.op.phase != ReadPhase::ReclaimPersist {
                assert(kept(d0.segs, to.disk, pos, log0.committed));
            }
        }
    } else if step is Done {
        assert(queue::queue(d0.segs, log0.committed, log0.committed) =~= Seq::empty());
        if r.op.phase == ReadPhase::ReclaimUnlink {
            assert(queue::queue(r.disk.segs, next, next) =~= Seq::empty());
        } else if r.op.phase == ReadPhase::ReclaimPersist {
            assert(d0.segs.contains_key(pos.seg));
            assert(r.disk.segs.contains_key(pos.seg));
            lemma_drained(r.disk.segs, pos);
        } else {
            laws::lemma_queue_agrees(r.disk.segs, d0.segs, pos, log0.committed);
        }
    }
}

/// A step of a read, whatever its last action came to.
proof fn lemma_steps(r: Reading, log0: SegmentedLog, d0: disk::DiskView, limit: nat)
    requires
        laws::in_order(log0, d0),
        under_way(r, log0, d0, limit),
    ensures
        went_well(r, log0, d0, limit),
{
    let goal = queue::taken(d0.segs, log0.head, log0.committed, limit);
    let all = laws::contents(log0, d0);
    match r.op.phase {
        ReadPhase::Start => {
            assert(all.skip(0) =~= all);
            assert(all.take(0) =~= Seq::empty());
        },
        ReadPhase::Lock => {
            queue::lemma_walk_starts(d0.segs, log0.head, log0.committed, limit);
            if r.event is Performed {
                let started = read::ReadBatchView {
                    reader: reader::ReaderView::start(log0.head, log0.committed, limit),
                    ..r.op
                };
                lemma_walks(r, started, log0, d0, limit);
            }
        },
        ReadPhase::Walk => {
            if r.op.reader.fits(r.event) {
                queue::lemma_walk_steps(r.op.reader, r.disk, r.event, r.disk, goal);
                let fed = read::ReadBatchView { reader: r.op.reader.after(r.event), ..r.op };
                lemma_walks(r, fed, log0, d0, limit);
            }
        },
        _ => {
            lemma_late_steps(r, log0, d0, limit);
        },
    }
}

/// Every stage of a read stands as it should, whichever of its actions failed.
proof fn lemma_under_way(
    stages: Seq<Reading>,
    log: SegmentedLog,
    d: disk::DiskView,
    limit: nat,
    i: int,
)
    requires
        laws::in_order(log, d),
        is_course(stages, log, d, limit),
        0 <= i < stages.len(),
    ensures
        under_way(stages[i], log, d, limit),
    decreases i,
{
    if i > 0 {
        lemma_under_way(stages, log, d, limit, i - 1);
        lemma_steps(stages[i - 1], log, d, limit);
        assert(goes_on_at(stages, i - 1));
    }
}

/// A read that ends without an error hands out the first unread records, up to
/// the limit, and the others are still there to be read, whichever of the
/// actions failed by which it unlinks segments or reclaims space.
pub proof fn law_wasted_space_costs_no_record(
    stages: Seq<Reading>,
    log: SegmentedLog,
    d: disk::DiskView,
    limit: nat,
)
    requires
        laws::in_order(log, d),
        is_course(stages, log, d, limit),
        stages.last().next().2 is Done,
    ensures
        ({
            let (_, after, step) = stages.last().next();
            ends_well(step->Done_0, after, stages.last().disk, log, d, limit)
        }),
{
    lemma_under_way(stages, log, d, limit, stages.len() - 1);
    lemma_steps(stages.last(), log, d, limit);
}

} // verus!
