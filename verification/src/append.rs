//! Appending a record, and forcing what was appended to disk.

use vstd::prelude::*;

use crate::io;
use crate::io::{Action, Event, Step};
use crate::log::SegmentedLog;
use crate::pos::Pos;
use crate::record;
use crate::record::encode_record;

verus! {

/// What an append asked for last.
#[derive(Clone, Copy, Debug, PartialEq, Eq, Structural)]
pub enum AppendPhase {
    Start,
    /// The writer lock.
    Lock,
    /// A sync of the full segment.
    RollSync,
    /// A fresh segment.
    RollCreate,
    /// The time at which the writer rolled.
    RollClock,
    /// The write of the record.
    Write,
    /// The time, to see whether a sync is due.
    DueClock,
    /// The sync that is due.
    DueSync,
    /// The time of that sync.
    SyncClock,
    /// Nothing: the operation has ended.
    Over,
}

/// Appends one record: rolls the writer to a new segment if the current one
/// is full, writes the record, and syncs if the sync interval has passed. A
/// payload that is empty, or larger than `MAX_RECORD` with up to `u32::MAX`
/// bytes, is written too, but reads as corruption: it is never handed out, and
/// hides what follows it in its segment.
#[derive(Debug)]
pub struct Append {
    pub phase: AppendPhase,
    /// The framed record, until it is handed out to be written.
    pub frame: Vec<u8>,
    pub len: u64,
    /// Where the record is written.
    pub at: Pos,
}

/// `Append` with its frame as a sequence.
#[verifier::ext_equal]
pub struct AppendView {
    pub phase: AppendPhase,
    pub frame: Seq<u8>,
    pub len: u64,
    pub at: Pos,
}

impl View for Append {
    type V = AppendView;

    open spec fn view(&self) -> AppendView {
        AppendView { phase: self.phase, frame: self.frame@, len: self.len, at: self.at }
    }
}

impl AppendView {
    pub open spec fn in_phase(self, phase: AppendPhase) -> AppendView {
        AppendView { phase, ..self }
    }

    /// Asks for the record to be written where the writer stands.
    pub open spec fn write(self, log: SegmentedLog) -> (AppendView, SegmentedLog, io::StepView<
        Seq<u8>,
    >) {
        (
            AppendView { phase: AppendPhase::Write, frame: Seq::empty(), at: log.writer, ..self },
            log,
            io::StepView::Do(
                io::ActionView::Write {
                    seg: log.writer.seg,
                    off: log.writer.off,
                    bytes: self.frame,
                },
            ),
        )
    }

    /// The record is readable from now on; its key is handed out.
    pub open spec fn finish(self, log: SegmentedLog) -> (AppendView, SegmentedLog, io::StepView<
        Seq<u8>,
    >) {
        (self.in_phase(AppendPhase::Over), log.published(), io::StepView::Done(self.at.key()))
    }

    /// The append, the log and the next step after `event`.
    pub open spec fn step(self, log: SegmentedLog, event: io::EventView) -> (
        AppendView,
        SegmentedLog,
        io::StepView<Seq<u8>>,
    ) {
        match (self.phase, event) {
            (AppendPhase::Start, io::EventView::Start) => (
                self.in_phase(AppendPhase::Lock),
                log,
                io::StepView::Do(io::ActionView::LockWriter),
            ),
            (AppendPhase::Lock, io::EventView::Performed) => if log.full() {
                (
                    self.in_phase(AppendPhase::RollSync),
                    log,
                    io::StepView::Do(io::ActionView::Sync { seg: log.writer.seg }),
                )
            } else {
                self.write(log)
            },
            (AppendPhase::RollSync, io::EventView::Performed) => (
                self.in_phase(AppendPhase::RollCreate),
                log,
                io::StepView::Do(
                    io::ActionView::Create { seg: crate::log::start_after(log.writer.seg).seg },
                ),
            ),
            (AppendPhase::RollCreate, io::EventView::Performed) => (
                self.in_phase(AppendPhase::RollClock),
                log,
                io::StepView::Do(io::ActionView::Now),
            ),
            (AppendPhase::RollClock, io::EventView::Time(now)) => self.write(log.rolled(now)),
            (AppendPhase::Write, io::EventView::Performed) => (
                self.in_phase(AppendPhase::DueClock),
                log.wrote(self.len),
                io::StepView::Do(io::ActionView::Now),
            ),
            (AppendPhase::DueClock, io::EventView::Time(now)) => if log.due(now) {
                (
                    self.in_phase(AppendPhase::DueSync),
                    log,
                    io::StepView::Do(io::ActionView::Sync { seg: log.writer.seg }),
                )
            } else {
                self.finish(log)
            },
            (AppendPhase::DueSync, io::EventView::Performed) => (
                self.in_phase(AppendPhase::SyncClock),
                log,
                io::StepView::Do(io::ActionView::Now),
            ),
            (AppendPhase::SyncClock, io::EventView::Time(now)) => self.finish(log.synced(now)),
            _ => (self.in_phase(AppendPhase::Over), log, io::StepView::Failed),
        }
    }
}

impl Append {
    /// The append of `payload`.
    pub fn new(payload: &[u8]) -> (op: Append)
        requires
            record::RECORD_HEADER + payload@.len() <= u64::MAX,
        ensures
            op@ == (AppendView {
                phase: AppendPhase::Start,
                frame: record::frame(payload@),
                len: (record::RECORD_HEADER + payload@.len()) as u64,
                at: Pos { seg: 0, off: 0 },
            }),
    {
        let mut frame: Vec<u8> = Vec::new();
        encode_record(&mut frame, payload);
        proof {
            record::lemma_frame_len(payload@);
            assert(frame@ =~= record::frame(payload@));
        }
        Append {
            phase: AppendPhase::Start,
            len: frame.len() as u64,
            frame,
            at: Pos { seg: 0, off: 0 },
        }
    }

    fn write(&mut self, log: &SegmentedLog) -> (step: Step<Vec<u8>>)
        ensures
            (final(self)@, *log, step@) == old(self)@.write(*log),
    {
        let mut bytes: Vec<u8> = Vec::new();
        std::mem::swap(&mut bytes, &mut self.frame);
        self.phase = AppendPhase::Write;
        self.at = log.writer;
        Step::Do(Action::Write { seg: log.writer.seg, off: log.writer.off, bytes })
    }

    fn finish(&mut self, log: &mut SegmentedLog) -> (step: Step<Vec<u8>>)
        ensures
            (final(self)@, *final(log), step@) == old(self)@.finish(*old(log)),
    {
        self.phase = AppendPhase::Over;
        log.committed = log.writer;
        log.unread = log.unread.wrapping_add(1);
        let key: Vec<u8> = self.at.to_key();
        assert(key.deep_view() =~= key@);
        Step::Done(key)
    }

    /// Takes in the answer to the last action and says what to do next. A
    /// failed action ends the append: a record that was written and not synced
    /// in time stays unpublished.
    pub fn step(&mut self, log: &mut SegmentedLog, event: Event) -> (step: Step<Vec<u8>>)
        requires
            old(self).phase == AppendPhase::RollSync || old(self).phase == AppendPhase::RollClock
                ==> old(log).writer.seg < u64::MAX,
            old(self).phase == AppendPhase::Write ==> old(log).writer.off + old(self).len
                <= u64::MAX,
        ensures
            (final(self)@, *final(log), step@) == old(self)@.step(*old(log), event@),
    {
        match (self.phase, event) {
            (AppendPhase::Start, Event::Start) => {
                self.phase = AppendPhase::Lock;
                Step::Do(Action::LockWriter)
            },
            (AppendPhase::Lock, Event::Performed) => {
                if log.roll_if_full() {
                    self.phase = AppendPhase::RollSync;
                    Step::Do(Action::Sync { seg: log.writer.seg })
                } else {
                    self.write(log)
                }
            },
            (AppendPhase::RollSync, Event::Performed) => {
                self.phase = AppendPhase::RollCreate;
                Step::Do(Action::Create { seg: log.writer.seg + 1 })
            },
            (AppendPhase::RollCreate, Event::Performed) => {
                self.phase = AppendPhase::RollClock;
                Step::Do(Action::Now)
            },
            (AppendPhase::RollClock, Event::Time(now)) => {
                log.writer = Pos { seg: log.writer.seg + 1, off: 0 };
                log.dirty = false;
                log.last_sync = now;
                self.write(log)
            },
            (AppendPhase::Write, Event::Performed) => {
                self.phase = AppendPhase::DueClock;
                log.writer = Pos { seg: log.writer.seg, off: log.writer.off + self.len };
                log.dirty = true;
                Step::Do(Action::Now)
            },
            (AppendPhase::DueClock, Event::Time(now)) => {
                if log.sync_if_due(now) {
                    self.phase = AppendPhase::DueSync;
                    Step::Do(Action::Sync { seg: log.writer.seg })
                } else {
                    self.finish(log)
                }
            },
            (AppendPhase::DueSync, Event::Performed) => {
                self.phase = AppendPhase::SyncClock;
                Step::Do(Action::Now)
            },
            (AppendPhase::SyncClock, Event::Time(now)) => {
                log.dirty = false;
                log.last_sync = now;
                self.finish(log)
            },
            _ => {
                self.phase = AppendPhase::Over;
                Step::Failed
            },
        }
    }
}

/// What a flush asked for last.
#[derive(Clone, Copy, Debug, PartialEq, Eq, Structural)]
pub enum FlushPhase {
    Start,
    /// The writer lock.
    Lock,
    /// The sync.
    Sync,
    /// The time of the sync.
    Clock,
    /// Nothing: the operation has ended.
    Over,
}

/// Forces pending appends to disk.
#[derive(Clone, Copy, Debug, PartialEq, Eq, Structural)]
pub struct Flush {
    pub phase: FlushPhase,
}

impl Flush {
    /// The flush, the log and the next step after `event`.
    pub open spec fn next(self, log: SegmentedLog, event: io::EventView) -> (
        Flush,
        SegmentedLog,
        io::StepView<()>,
    ) {
        match (self.phase, event) {
            (FlushPhase::Start, io::EventView::Start) => (
                Flush { phase: FlushPhase::Lock },
                log,
                io::StepView::Do(io::ActionView::LockWriter),
            ),
            (FlushPhase::Lock, io::EventView::Performed) => if log.dirty {
                (
                    Flush { phase: FlushPhase::Sync },
                    log,
                    io::StepView::Do(io::ActionView::Sync { seg: log.writer.seg }),
                )
            } else {
                (Flush { phase: FlushPhase::Over }, log, io::StepView::Done(()))
            },
            (FlushPhase::Sync, io::EventView::Performed) => (
                Flush { phase: FlushPhase::Clock },
                log,
                io::StepView::Do(io::ActionView::Now),
            ),
            (FlushPhase::Clock, io::EventView::Time(now)) => (
                Flush { phase: FlushPhase::Over },
                log.synced(now),
                io::StepView::Done(()),
            ),
            _ => (Flush { phase: FlushPhase::Over }, log, io::StepView::Failed),
        }
    }

    pub fn new() -> (op: Flush)
        ensures
            op.phase == FlushPhase::Start,
    {
        Flush { phase: FlushPhase::Start }
    }

    /// Takes in the answer to the last action and says what to do next.
    pub fn step(&mut self, log: &mut SegmentedLog, event: Event) -> (step: Step<()>)
        ensures
            (*final(self), *final(log), step@) == old(self).next(*old(log), event@),
    {
        match (self.phase, event) {
            (FlushPhase::Start, Event::Start) => {
                self.phase = FlushPhase::Lock;
                Step::Do(Action::LockWriter)
            },
            (FlushPhase::Lock, Event::Performed) => {
                if log.dirty {
                    self.phase = FlushPhase::Sync;
                    Step::Do(Action::Sync { seg: log.writer.seg })
                } else {
                    self.phase = FlushPhase::Over;
                    Step::Done(())
                }
            },
            (FlushPhase::Sync, Event::Performed) => {
                self.phase = FlushPhase::Clock;
                Step::Do(Action::Now)
            },
            (FlushPhase::Clock, Event::Time(now)) => {
                self.phase = FlushPhase::Over;
                log.dirty = false;
                log.last_sync = now;
                Step::Done(())
            },
            _ => {
                self.phase = FlushPhase::Over;
                Step::Failed
            },
        }
    }
}

/// Neither an append nor a flush asks for the head lock, so that they never
/// wait for a reader.
pub proof fn law_writers_never_take_the_head_lock(
    append: AppendView,
    flush: Flush,
    log: SegmentedLog,
    event: io::EventView,
)
    ensures
        append.step(log, event).2 != io::StepView::<Seq<u8>>::Do(io::ActionView::LockHead),
        flush.next(log, event).2 != io::StepView::<()>::Do(io::ActionView::LockHead),
{
}

} // verus!
