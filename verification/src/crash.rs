//! What a crash in the middle of an operation leaves to the next opening.

use vstd::prelude::*;

use crate::append::{AppendPhase, AppendView};
use crate::disk;
use crate::faults;
use crate::faults::Reading;
use crate::head;
use crate::io;
use crate::laws;
use crate::log;
use crate::log::SegmentedLog;
use crate::memory;
use crate::pos::Pos;
use crate::queue;
use crate::read::ReadPhase;
use crate::record;
use crate::record::RECORD_HEADER;
use crate::recovery;

verus! {

/// Part of a record is no record.
proof fn lemma_torn_frame(payload: Seq<u8>, n: int)
    requires
        record::storable(payload),
        0 <= n < record::frame(payload).len(),
    ensures
        !(record::reading(record::frame(payload).take(n)) is Record),
{
    let frame = record::frame(payload);
    let part = frame.take(n);
    record::law_record_round_trip(payload, Seq::empty());
    assert(frame + Seq::<u8>::empty() =~= frame);
    record::lemma_frame_len(payload);
    if n >= RECORD_HEADER {
        assert(part.subrange(0, 4) =~= frame.subrange(0, 4));
    }
}

/// The log once its writer has room is in order and holds the same records.
proof fn lemma_roomy_in_order(log: SegmentedLog, d: disk::DiskView)
    requires
        laws::in_order(log, d),
        log.writer.seg < u64::MAX,
    ensures
        ({
            let roomy = memory::roomy_log(log, d);
            let ready = SegmentedLog { committed: roomy.writer, ..roomy };
            let d2 = memory::roomy_disk(log, d);
            &&& laws::in_order(ready, d2)
            &&& laws::contents(ready, d2) =~= laws::contents(log, d)
        }),
{
    let roomy = memory::roomy_log(log, d);
    let ready = SegmentedLog { committed: roomy.writer, ..roomy };
    let d2 = memory::roomy_disk(log, d);
    if log.full() {
        laws::lemma_queue_rolls(d.segs, log.head, log.writer);
        record::lemma_records_empty();
        assert(d.segs.contains_key(log.head.seg));
        assert(d2.segs[log.head.seg] == d.segs[log.head.seg]);
        assert(queue::connected(d2.segs, ready.head, ready.committed));
    } else {
        assert(ready == log);
    }
}

/// A crash in the middle of an append loses nothing that was there: whatever
/// part of the record was written, the log opens with the same unread records,
/// and with the new one last if it was written whole.
pub proof fn law_crash_during_append(
    log: SegmentedLog,
    d: disk::DiskView,
    payload: Seq<u8>,
    n: int,
    segment_bytes: u64,
    fsync_interval: u128,
)
    requires
        laws::in_order(log, d),
        record::storable(payload),
        log.writer.seg < u64::MAX,
        log.writer.off + RECORD_HEADER + payload.len() <= u64::MAX,
        log.unread < u64::MAX,
        0 <= n <= record::frame(payload).len(),
    ensures
        ({
            let seg = memory::roomy_log(log, d).writer.seg;
            let roomy = memory::roomy_disk(log, d);
            let crashed = roomy.with(seg, roomy.segs[seg] + record::frame(payload).take(n));
            let log2 = recovery::opened_log(crashed, segment_bytes, fsync_interval);
            let d2 = recovery::opened_disk(crashed);
            let key = memory::roomy_log(log, d).writer.key();
            laws::contents(log2, d2) =~= if n == record::frame(payload).len() {
                laws::contents(log, d).push((key, payload))
            } else {
                laws::contents(log, d)
            }
        }),
{
    let frame = record::frame(payload);
    let roomy = memory::roomy_log(log, d);
    let ready = SegmentedLog { committed: roomy.writer, ..roomy };
    let d2 = memory::roomy_disk(log, d);
    lemma_roomy_in_order(log, d);
    record::lemma_frame_len(payload);
    if n == frame.len() {
        assert(frame.take(n) =~= frame);
        laws::law_append_adds_last(log, d, payload);
        laws::law_reopen_resumes(
            memory::appended_log(log, d, payload),
            memory::appended_disk(log, d, payload),
            segment_bytes,
            fsync_interval,
        );
    } else {
        lemma_torn_frame(payload, n);
        laws::law_torn_tail_is_cut(ready, d2, frame.take(n), segment_bytes, fsync_interval);
    }
}

/// Opening a directory whose head file names `pos`, in the newest segment but
/// one that is used up, with an empty segment after it.
proof fn lemma_opens_drained(
    d: disk::DiskView,
    pos: Pos,
    next: Pos,
    segment_bytes: u64,
    fsync_interval: u128,
)
    requires
        head::head_of(d.head) == Some(pos),
        pos.seg < u64::MAX,
        next == log::start_after(pos.seg),
        d.segs.contains_key(pos.seg),
        d.segs[pos.seg].len() == pos.off,
        d.segs.contains_key(next.seg),
        d.segs[next.seg].len() == 0,
        forall|seg: u64| #[trigger] d.segs.contains_key(seg) ==> pos.seg <= seg <= next.seg,
    ensures
        laws::contents(
            recovery::opened_log(d, segment_bytes, fsync_interval),
            recovery::opened_disk(d),
        ).len() == 0,
{
    recovery::lemma_first(d.segs, pos.seg);
    recovery::lemma_last(d.segs, next.seg);
    record::lemma_records_empty();
    assert(d.segs[next.seg] =~= Seq::<u8>::empty());
    assert(recovery::tail_of(d.segs) == next);
    assert(recovery::head_in(d) == pos);
    let segs = recovery::opened_disk(d).segs;
    assert(segs[pos.seg] == d.segs[pos.seg]);
    assert(queue::left(segs, pos, next) =~= Seq::<u8>::empty());
    assert(queue::queue(segs, next, next) =~= Seq::empty());
    assert(queue::next_segment(pos) == next);
}

/// A crash in the middle of a read loses nothing that is unread: once the new
/// head was written, and whatever of the rest was done, the log opens with the
/// records that the read left. (Before that, the directory is as it was, and
/// the batch is delivered again.)
pub proof fn law_crash_during_read(
    log: SegmentedLog,
    d: disk::DiskView,
    limit: nat,
    gone: u64,
    segment_bytes: u64,
    fsync_interval: u128,
)
    requires
        laws::in_order(log, d),
        log.writer.seg < u64::MAX,
        ({
            let t = queue::taken(d.segs, log.head, log.committed, limit);
            t is Some && t->0.pos != log.head && log.head.seg <= gone <= t->0.pos.seg
        }),
    ensures
        ({
            let pos = queue::taken(d.segs, log.head, log.committed, limit)->0.pos;
            let all = laws::contents(log, d);
            let rest = all.skip(laws::handed_out(limit, all.len()));
            // The head was written, and the segments before `gone` unlinked.
            let headed = memory::headed(
                disk::DiskView { segs: memory::unlinked(d.segs, log.head.seg, gone), ..d },
                pos,
            );
            // The writer of the drained log moved to a fresh segment.
            let next = log::start_after(log.writer.seg);
            let moved = memory::headed(
                disk::DiskView {
                    segs: memory::unlinked(d.segs, log.head.seg, pos.seg).insert(
                        next.seg,
                        Seq::empty(),
                    ),
                    ..d
                },
                pos,
            );
            // The head followed it there.
            let followed = memory::headed(moved, next);
            &&& laws::contents(
                recovery::opened_log(headed, segment_bytes, fsync_interval),
                recovery::opened_disk(headed),
            ) =~= rest
            &&& pos == log.committed && pos.off > 0 ==> {
                &&& laws::contents(
                    recovery::opened_log(moved, segment_bytes, fsync_interval),
                    recovery::opened_disk(moved),
                ) =~= rest
                &&& laws::contents(
                    recovery::opened_log(followed, segment_bytes, fsync_interval),
                    recovery::opened_disk(followed),
                ) =~= rest
            }
        }),
{
    let t = queue::taken(d.segs, log.head, log.committed, limit);
    let pos = t->0.pos;
    let all = laws::contents(log, d);
    let rest = all.skip(laws::handed_out(limit, all.len()));
    let next = log::start_after(log.writer.seg);
    laws::law_read_takes_first(log, d, limit);
    queue::lemma_taken_goes_on(d.segs, log.head, log.committed, limit);
    queue::lemma_taken_before_rest(d.segs, log.head, log.committed, limit);
    // The log whose head moved on, before the writer of a drained log moves.
    let kept = memory::unlinked(d.segs, log.head.seg, pos.seg);
    let behind = memory::headed(disk::DiskView { segs: kept, ..d }, pos);
    let on = log.advanced(pos).consumed(t->0.out.len());
    laws::lemma_advanced_in_order(log, d, limit);
    let left = Map::new(
        |seg: u64| d.segs.contains_key(seg) && gone <= seg < pos.seg,
        |seg: u64| d.segs[seg],
    );
    let headed = memory::headed(
        disk::DiskView { segs: memory::unlinked(d.segs, log.head.seg, gone), ..d },
        pos,
    );
    assert(headed.segs =~= left.union_prefer_right(behind.segs));
    assert(headed =~= disk::DiskView {
        segs: left.union_prefer_right(behind.segs),
        ..behind
    });
    laws::law_leftovers_are_unlinked(on, behind, left, segment_bytes, fsync_interval);
    laws::law_reopen_resumes(on, behind, segment_bytes, fsync_interval);
    if pos == log.committed && pos.off > 0 {
        let moved = memory::headed(
            disk::DiskView { segs: kept.insert(next.seg, Seq::empty()), ..d },
            pos,
        );
        laws::lemma_headed(
            disk::DiskView { segs: kept.insert(next.seg, Seq::empty()), ..d },
            pos,
        );
        assert(moved.segs[pos.seg] == d.segs[pos.seg]);
        lemma_opens_drained(moved, pos, next, segment_bytes, fsync_interval);
        assert(rest.len() == 0);
        // With the head at the fresh segment, the drained one is a leftover.
        let batch = memory::batch_of(log, d, t->0);
        let followed = memory::headed(moved, next);
        let old_segment = map![log.writer.seg => d.segs[log.writer.seg]];
        memory::lemma_headed_twice(
            disk::DiskView { segs: kept.insert(next.seg, Seq::empty()), ..d },
            pos,
            next,
        );
        assert(followed.segs =~= old_segment.union_prefer_right(batch.disk.segs)) by {
            assert(kept.contains_key(log.writer.seg));
            assert forall|seg: u64| #[trigger] kept.contains_key(seg) implies seg
                == log.writer.seg by {
                assert(d.segs.contains_key(seg));
            }
        }
        assert(followed =~= disk::DiskView {
            segs: old_segment.union_prefer_right(batch.disk.segs),
            ..batch.disk
        });
        laws::law_leftovers_are_unlinked(
            batch.log,
            batch.disk,
            old_segment,
            segment_bytes,
            fsync_interval,
        );
        laws::law_reopen_resumes(batch.log, batch.disk, segment_bytes, fsync_interval);
    }
}

/// The course of a read in which every action did what it does in the
/// directory.
pub open spec fn is_smooth(
    stages: Seq<Reading>,
    log: SegmentedLog,
    d: disk::DiskView,
    limit: nat,
) -> bool {
    &&& faults::is_course(stages, log, d, limit)
    &&& forall|i: int| 0 <= i < stages.len() - 1 ==> #[trigger] answered_at(stages, i)
}

/// The action of stage `i` was answered by the directory.
pub open spec fn answered_at(stages: Seq<Reading>, i: int) -> bool {
    disk::answers(
        stages[i].disk,
        stages[i].next().2->Do_0,
        stages[i + 1].event,
        stages[i + 1].disk,
    )
}

/// How the read stands at stage `i`.
proof fn lemma_stage(
    stages: Seq<Reading>,
    log: SegmentedLog,
    d: disk::DiskView,
    limit: nat,
    i: int,
)
    requires
        d.wf(),
        memory::anchored(log, d),
        log.writer.seg < u64::MAX,
        is_smooth(stages, log, d, limit),
        0 <= i < stages.len(),
    ensures
        memory::reading(
            stages[i].op,
            stages[i].log,
            stages[i].disk,
            stages[i].event,
            log,
            d,
            limit,
        ),
    decreases i,
{
    if i > 0 {
        lemma_stage(stages, log, d, limit, i - 1);
        let r = stages[i - 1];
        memory::lemma_read_steps(r.op, r.log, r.disk, r.event, log, d, limit);
        assert(faults::goes_on_at(stages, i - 1));
        assert(answered_at(stages, i - 1));
    }
}

/// A crash at any stage of a read loses nothing that is unread and delivers
/// nothing twice but the batch itself: the log that opens on what the directory
/// holds at that stage has all records that were unread, or those that the read
/// leaves. It has the latter once the new head was written.
pub proof fn law_crash_at_any_stage_of_a_read(
    stages: Seq<Reading>,
    log: SegmentedLog,
    d: disk::DiskView,
    limit: nat,
    i: int,
    segment_bytes: u64,
    fsync_interval: u128,
)
    requires
        laws::in_order(log, d),
        log.writer.seg < u64::MAX,
        is_smooth(stages, log, d, limit),
        0 <= i < stages.len(),
    ensures
        ({
            let left = stages[i].disk;
            let found = laws::contents(
                recovery::opened_log(left, segment_bytes, fsync_interval),
                recovery::opened_disk(left),
            );
            let all = laws::contents(log, d);
            let rest = all.skip(laws::handed_out(limit, all.len()));
            &&& found =~= all || found =~= rest
            &&& left.head != d.head ==> found =~= rest
        }),
{
    let r = stages[i];
    lemma_stage(stages, log, d, limit, i);
    laws::law_read_takes_first(log, d, limit);
    let pos = r.op.reader.pos;
    let next = log::start_after(log.writer.seg);
    let kept = memory::unlinked(d.segs, log.head.seg, pos.seg);
    match r.op.phase {
        ReadPhase::Start | ReadPhase::Lock | ReadPhase::Walk => {
            laws::law_reopen_resumes(log, d, segment_bytes, fsync_interval);
        },
        ReadPhase::Persist => {
            queue::lemma_taken_goes_on(d.segs, log.head, log.committed, limit);
            law_crash_during_read(log, d, limit, log.head.seg, segment_bytes, fsync_interval);
            assert(memory::unlinked(d.segs, log.head.seg, log.head.seg) =~= d.segs);
        },
        ReadPhase::Unlink => {
            law_crash_during_read(
                log,
                d,
                limit,
                (r.op.gone + 1) as u64,
                segment_bytes,
                fsync_interval,
            );
        },
        ReadPhase::ReclaimUnlink => {
            let t = queue::taken(d.segs, log.head, log.committed, limit);
            let batch = memory::batch_of(log, d, t->0);
            laws::law_reopen_resumes(batch.log, batch.disk, segment_bytes, fsync_interval);
        },
        _ => {
            queue::lemma_taken_goes_on(d.segs, log.head, log.committed, limit);
            law_crash_during_read(log, d, limit, pos.seg, segment_bytes, fsync_interval);
            let behind = memory::headed(disk::DiskView { segs: kept, ..d }, pos);
            let moved = memory::headed(
                disk::DiskView { segs: kept.insert(next.seg, Seq::empty()), ..d },
                pos,
            );
            assert(behind.with(next.seg, Seq::empty()) =~= moved);
        },
    }
}

/// An append on its way, with the directory and the answer to its last action.
pub struct AppendStage {
    pub op: AppendView,
    pub log: SegmentedLog,
    pub disk: disk::DiskView,
    pub event: io::EventView,
}

/// Stage `i` goes on with an action, which the directory answers.
pub open spec fn append_goes_on(stages: Seq<AppendStage>, i: int) -> bool {
    let (from, to) = (stages[i], stages[i + 1]);
    let (op, log, step) = from.op.step(from.log, from.event);
    &&& step is Do
    &&& to.op == op
    &&& to.log == log
    &&& disk::answers(from.disk, step->Do_0, to.event, to.disk)
}

/// `stages` is the course of an append of `payload`, from its start to some
/// stage of it.
pub open spec fn is_append(
    stages: Seq<AppendStage>,
    log: SegmentedLog,
    d: disk::DiskView,
    payload: Seq<u8>,
) -> bool {
    &&& stages.len() > 0
    &&& stages[0].op == (AppendView {
        phase: AppendPhase::Start,
        frame: record::frame(payload),
        len: (RECORD_HEADER + payload.len()) as u64,
        at: Pos { seg: 0, off: 0 },
    })
    &&& stages[0].log == log
    &&& stages[0].disk == d
    &&& stages[0].event is Start
    &&& forall|i: int| 0 <= i < stages.len() - 1 ==> #[trigger] append_goes_on(stages, i)
}

/// How the append stands at stage `i`.
proof fn lemma_append_stage(
    stages: Seq<AppendStage>,
    log: SegmentedLog,
    d: disk::DiskView,
    payload: Seq<u8>,
    i: int,
)
    requires
        memory::anchored(log, d),
        log.writer.seg < u64::MAX,
        log.writer.off + RECORD_HEADER + payload.len() <= u64::MAX,
        is_append(stages, log, d, payload),
        0 <= i < stages.len(),
    ensures
        memory::appending(
            stages[i].op,
            stages[i].log,
            stages[i].disk,
            stages[i].event,
            log,
            d,
            payload,
        ),
    decreases i,
{
    record::lemma_frame_len(payload);
    if i > 0 {
        lemma_append_stage(stages, log, d, payload, i - 1);
        let r = stages[i - 1];
        memory::lemma_append_steps(r.op, r.log, r.disk, r.event, log, d, payload);
        assert(append_goes_on(stages, i - 1));
    }
}

/// A crash at any stage of an append loses nothing that was there: the log that
/// opens on what the directory holds at that stage has the records that were
/// unread, and the new one last once it was written. From the end of the append
/// on, it has the new one.
pub proof fn law_crash_at_any_stage_of_an_append(
    stages: Seq<AppendStage>,
    log: SegmentedLog,
    d: disk::DiskView,
    payload: Seq<u8>,
    i: int,
    segment_bytes: u64,
    fsync_interval: u128,
)
    requires
        laws::in_order(log, d),
        record::storable(payload),
        log.writer.seg < u64::MAX,
        log.writer.off + RECORD_HEADER + payload.len() <= u64::MAX,
        log.unread < u64::MAX,
        is_append(stages, log, d, payload),
        0 <= i < stages.len(),
    ensures
        ({
            let r = stages[i];
            let found = laws::contents(
                recovery::opened_log(r.disk, segment_bytes, fsync_interval),
                recovery::opened_disk(r.disk),
            );
            let all = laws::contents(log, d);
            let more = all.push((memory::roomy_log(log, d).writer.key(), payload));
            &&& found =~= all || found =~= more
            &&& r.op.step(r.log, r.event).2 matches io::StepView::Done(key) ==> found
                =~= all.push((key, payload))
        }),
{
    let r = stages[i];
    let frame = record::frame(payload);
    lemma_append_stage(stages, log, d, payload, i);
    record::lemma_frame_len(payload);
    memory::lemma_append_steps(r.op, r.log, r.disk, r.event, log, d, payload);
    let seg = memory::roomy_log(log, d).writer.seg;
    let roomy = memory::roomy_disk(log, d);
    laws::law_reopen_resumes(log, d, segment_bytes, fsync_interval);
    law_crash_during_append(log, d, payload, 0, segment_bytes, fsync_interval);
    law_crash_during_append(
        log,
        d,
        payload,
        frame.len() as int,
        segment_bytes,
        fsync_interval,
    );
    assert(roomy.segs[seg] + frame.take(0) =~= roomy.segs[seg]);
    assert(roomy.with(seg, roomy.segs[seg]) =~= roomy);
    assert(frame.take(frame.len() as int) =~= frame);
}

} // verus!
