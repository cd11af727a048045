//! What an append and a flush ask of the directory, and in which order.

use vstd::prelude::*;

use crate::append::{AppendPhase, AppendView, Flush, FlushPhase};
use crate::disk;
use crate::io;
use crate::log::SegmentedLog;
use crate::memory;
use crate::pos::Pos;
use crate::record;
use crate::record::RECORD_HEADER;

verus! {

/// An action of a writer succeeded: the clock gave a time, anything else was
/// performed.
pub open spec fn succeeded(action: io::ActionView, event: io::EventView) -> bool {
    if action is Now {
        event is Time
    } else {
        event is Performed
    }
}

/// An append from its start: what it was given, what it asked for, and how it
/// and the log stood before each step and at the end.
pub struct Appending {
    pub events: Seq<io::EventView>,
    pub asked: Seq<io::StepView<Seq<u8>>>,
    pub ops: Seq<AppendView>,
    pub logs: Seq<SegmentedLog>,
}

impl Appending {
    /// Each step follows from the one before, beginning with the append of
    /// `payload` to `log`.
    pub open spec fn runs(self, log: SegmentedLog, payload: Seq<u8>) -> bool {
        &&& self.asked.len() > 0
        &&& self.events.len() == self.asked.len()
        &&& self.ops.len() == self.asked.len() + 1
        &&& self.logs.len() == self.asked.len() + 1
        &&& self.ops[0] == (AppendView {
            phase: AppendPhase::Start,
            frame: record::frame(payload),
            len: (RECORD_HEADER + payload.len()) as u64,
            at: Pos { seg: 0, off: 0 },
        })
        &&& self.logs[0] == log
        &&& forall|i: int|
            0 <= i < self.asked.len() ==> self.ops[i].step(self.logs[i], #[trigger] self.events[i])
                == (self.ops[i + 1], self.logs[i + 1], self.asked[i])
    }

    /// Every action succeeded, and the append ended well.
    pub open spec fn succeeds(self) -> bool {
        &&& self.events[0] is Start
        &&& self.asked.last() is Done
        &&& forall|i: int|
            0 <= i < self.asked.len() - 1 ==> (#[trigger] self.asked[i]) is Do && succeeded(
                self.asked[i]->Do_0,
                self.events[i + 1],
            )
    }

    /// The log at the end.
    pub open spec fn after(self) -> SegmentedLog {
        self.logs.last()
    }
}

/// Whether at least `interval` passed from `since` to `now`. A clock that ran
/// backwards has not advanced.
pub open spec fn passed(since: u128, now: u128, interval: u128) -> bool {
    interval == 0 || now >= since + interval
}

/// The course of an append that succeeds, action by action.
///
/// Under the writer lock, a segment that reached its size is synced first, and
/// only then the next one is created. The framed record is written where the
/// writer stands. If at least the sync interval passed from the last sync to
/// the time after the write, the segment that was written is synced, else not.
/// Only at the end is the record published: what was written is readable, one
/// record more is unread, and its key names where it starts.
pub proof fn law_append_course(run: Appending, log: SegmentedLog, payload: Seq<u8>)
    requires
        run.runs(log, payload),
        run.succeeds(),
        log.writer.seg < u64::MAX,
        log.writer.off + RECORD_HEADER + payload.len() <= u64::MAX,
    ensures
        ({
            let rolls = log.writer.off >= log.segment_bytes;
            let at = if rolls {
                Pos { seg: (log.writer.seg + 1) as u64, off: 0 }
            } else {
                log.writer
            };
            let w: int = if rolls {
                4
            } else {
                1
            };
            let since = if rolls {
                run.events[4]->Time_0
            } else {
                log.last_sync
            };
            let now = run.events[w + 2]->Time_0;
            let overdue = passed(since, now, log.fsync_interval);
            let end: int = if overdue {
                w + 4
            } else {
                w + 2
            };
            &&& run.asked.len() == end + 1
            &&& run.asked[0] == io::StepView::<Seq<u8>>::Do(io::ActionView::LockWriter)
            &&& rolls ==> {
                &&& run.asked[1] == io::StepView::<Seq<u8>>::Do(
                    io::ActionView::Sync { seg: log.writer.seg },
                )
                &&& run.asked[2] == io::StepView::<Seq<u8>>::Do(
                    io::ActionView::Create { seg: at.seg },
                )
                &&& run.asked[3] == io::StepView::<Seq<u8>>::Do(io::ActionView::Now)
            }
            &&& run.asked[w] == io::StepView::<Seq<u8>>::Do(
                io::ActionView::Write { seg: at.seg, off: at.off, bytes: record::frame(payload) },
            )
            &&& run.asked[w + 1] == io::StepView::<Seq<u8>>::Do(io::ActionView::Now)
            &&& overdue ==> {
                &&& run.asked[w + 2] == io::StepView::<Seq<u8>>::Do(
                    io::ActionView::Sync { seg: at.seg },
                )
                &&& run.asked[w + 3] == io::StepView::<Seq<u8>>::Do(io::ActionView::Now)
            }
            &&& run.asked[end] == io::StepView::Done(at.key())
            &&& run.after().writer == (Pos {
                seg: at.seg,
                off: (at.off + RECORD_HEADER + payload.len()) as u64,
            })
            &&& run.after().committed == run.after().writer
            &&& run.after().dirty == !overdue
            &&& run.after().last_sync == if overdue {
                run.events[w + 4]->Time_0
            } else {
                since
            }
            &&& log.unread < u64::MAX ==> run.after().unread == log.unread + 1
            &&& run.after().head == log.head
            &&& run.after().segment_bytes == log.segment_bytes
            &&& run.after().fsync_interval == log.fsync_interval
        }),
{
    let rolls = log.writer.off >= log.segment_bytes;
    record::lemma_frame_len(payload);
    let w: int = if rolls {
        4
    } else {
        1
    };
    assert(run.events[0] is Start);
    assert(run.asked[0] is Do);
    assert(run.events[1] is Performed);
    if rolls {
        assert(run.asked[1] is Do);
        assert(run.events[2] is Performed);
        assert(run.asked[2] is Do);
        assert(run.events[3] is Performed);
        assert(run.asked[3] is Do);
        assert(run.events[4] is Time);
    }
    assert(run.asked[w] is Do);
    assert(run.ops[w + 1].phase == AppendPhase::Write);
    assert(run.events[w + 1] is Performed);
    assert(run.asked[w + 1] is Do);
    assert(run.ops[w + 2].phase == AppendPhase::DueClock);
    assert(run.events[w + 2] is Time);
    if run.ops[w + 3].phase == AppendPhase::DueSync {
        assert(run.asked[w + 2] is Do);
        assert(run.events[w + 3] is Performed);
        assert(run.asked[w + 3] is Do);
        assert(run.events[w + 4] is Time);
    }
}

/// Appends are synced in time: one that succeeds never leaves the log with
/// something unsynced although at least the sync interval passed since the last
/// sync. It asked for a sync of the segment that it wrote, after it wrote it and
/// before it published the record, if that much time had passed, and for none
/// if less had. A writer that rolled was last synced when it did.
pub proof fn law_append_syncs_in_time(run: Appending, log: SegmentedLog, payload: Seq<u8>)
    requires
        run.runs(log, payload),
        run.succeeds(),
        log.writer.seg < u64::MAX,
        log.writer.off + RECORD_HEADER + payload.len() <= u64::MAX,
    ensures
        ({
            let rolls = log.writer.off >= log.segment_bytes;
            // The write, and the time after it.
            let w: int = if rolls {
                4
            } else {
                1
            };
            let now = run.events[w + 2]->Time_0;
            let since = if rolls {
                run.events[4]->Time_0
            } else {
                log.last_sync
            };
            let seg = run.asked[w]->Do_0->Write_seg;
            let after = run.after();
            &&& run.asked[w] is Do && run.asked[w]->Do_0 is Write
            &&& run.asked[w + 1] == io::StepView::<Seq<u8>>::Do(io::ActionView::Now)
            &&& after.dirty ==> now - after.last_sync < after.fsync_interval
            &&& now - since >= log.fsync_interval ==> {
                &&& exists|i: int|
                    w < i < run.asked.len() - 1 && #[trigger] run.asked[i] == io::StepView::<
                        Seq<u8>,
                    >::Do(io::ActionView::Sync { seg })
                &&& !after.dirty
                &&& after.last_sync == run.events.last()->Time_0
            }
            &&& 0 < log.fsync_interval && now - since < log.fsync_interval ==> {
                &&& forall|i: int|
                    w <= i < run.asked.len() ==> !((#[trigger] run.asked[i]) is Do
                        && run.asked[i]->Do_0 is Sync)
                &&& after.dirty
                &&& after.last_sync == since
            }
        }),
{
    law_append_course(run, log, payload);
    let rolls = log.writer.off >= log.segment_bytes;
    let w: int = if rolls {
        4
    } else {
        1
    };
    let now = run.events[w + 2]->Time_0;
    let since = if rolls {
        run.events[4]->Time_0
    } else {
        log.last_sync
    };
    let seg = run.asked[w]->Do_0->Write_seg;
    if now - since >= log.fsync_interval {
        assert(run.asked[w + 2] == io::StepView::<Seq<u8>>::Do(io::ActionView::Sync { seg }));
    } else if 0 < log.fsync_interval {
        assert forall|i: int| w <= i < run.asked.len() implies !((#[trigger] run.asked[i]) is Do
            && run.asked[i]->Do_0 is Sync) by {
            assert(i == w || i == w + 1 || i == w + 2);
        }
    }
}

/// The same of a whole append over a directory whose clock stands at `now`:
/// what it leaves unsynced is younger than the sync interval.
pub proof fn law_nothing_stays_unsynced_too_long(
    log: SegmentedLog,
    d: disk::DiskView,
    payload: Seq<u8>,
)
    ensures
        ({
            let after = memory::appended_log(log, d, payload);
            let since = if log.writer.off >= log.segment_bytes {
                d.now
            } else {
                log.last_sync
            };
            &&& after.dirty ==> after.last_sync == since && d.now - since < log.fsync_interval
            &&& !after.dirty ==> after.last_sync == d.now && (log.fsync_interval == 0 || d.now
                - since >= log.fsync_interval)
        }),
{
}

/// Nothing is published before the end of an append: until then, and where it
/// fails, the readable records, their count and the reader's position are as
/// they were. A failed action fails the append.
pub proof fn law_append_publishes_at_its_end(
    op: AppendView,
    log: SegmentedLog,
    event: io::EventView,
)
    ensures
        ({
            let (_, after, step) = op.step(log, event);
            &&& !(step is Done) ==> after.committed == log.committed && after.unread == log.unread
            &&& step is Done ==> after.committed == log.writer && step->Done_0 == op.at.key()
            &&& after.head == log.head
            &&& after.segment_bytes == log.segment_bytes
            &&& after.fsync_interval == log.fsync_interval
            &&& event is Failed ==> step is Failed && after == log
        }),
{
}

/// A flush from its start, as `Appending`.
pub struct Flushing {
    pub events: Seq<io::EventView>,
    pub asked: Seq<io::StepView<()>>,
    pub ops: Seq<Flush>,
    pub logs: Seq<SegmentedLog>,
}

impl Flushing {
    /// Each step follows from the one before, beginning with a flush of `log`.
    pub open spec fn runs(self, log: SegmentedLog) -> bool {
        &&& self.asked.len() > 0
        &&& self.events.len() == self.asked.len()
        &&& self.ops.len() == self.asked.len() + 1
        &&& self.logs.len() == self.asked.len() + 1
        &&& self.ops[0].phase == FlushPhase::Start
        &&& self.logs[0] == log
        &&& forall|i: int|
            0 <= i < self.asked.len() ==> self.ops[i].next(self.logs[i], #[trigger] self.events[i])
                == (self.ops[i + 1], self.logs[i + 1], self.asked[i])
    }

    /// Every action succeeded, and the flush ended well.
    pub open spec fn succeeds(self) -> bool {
        &&& self.events[0] is Start
        &&& self.asked.last() is Done
        &&& forall|i: int|
            0 <= i < self.asked.len() - 1 ==> (#[trigger] self.asked[i]) is Do && succeeded(
                self.asked[i]->Do_0,
                self.events[i + 1],
            )
    }
}

/// A flush that succeeds leaves nothing unsynced. If something was, it synced
/// the segment in which the writer stands, under the writer lock; if not, it
/// asked for the lock alone. What is readable stays as it was.
pub proof fn law_flush_course(run: Flushing, log: SegmentedLog)
    requires
        run.runs(log),
        run.succeeds(),
    ensures
        ({
            let after = run.logs.last();
            &&& run.asked[0] == io::StepView::<()>::Do(io::ActionView::LockWriter)
            &&& log.dirty ==> {
                &&& run.asked.len() == 4
                &&& run.asked[1] == io::StepView::<()>::Do(
                    io::ActionView::Sync { seg: log.writer.seg },
                )
                &&& run.asked[2] == io::StepView::<()>::Do(io::ActionView::Now)
                &&& after.last_sync == run.events[3]->Time_0
            }
            &&& !log.dirty ==> run.asked.len() == 2 && after.last_sync == log.last_sync
            &&& !after.dirty
            &&& after.writer == log.writer
            &&& after.committed == log.committed
            &&& after.head == log.head
            &&& after.unread == log.unread
        }),
{
    assert(run.events[0] is Start);
    assert(run.asked[0] is Do);
    assert(run.events[1] is Performed);
    if log.dirty {
        assert(run.asked[1] is Do);
        assert(run.events[2] is Performed);
        assert(run.asked[2] is Do);
        assert(run.events[3] is Time);
    }
}

/// A flush whose action failed fails, and leaves the log as it was.
pub proof fn law_failed_flush_changes_nothing(op: Flush, log: SegmentedLog)
    ensures
        ({
            let (_, after, step) = op.next(log, io::EventView::Failed);
            step is Failed && after == log
        }),
{
}

} // verus!
