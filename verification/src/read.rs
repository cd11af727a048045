//! Reading records: consuming a batch, peeking, and visiting all of them.

use vstd::prelude::*;

use crate::head;
use crate::head::persist_head;
use crate::io;
use crate::io::{Action, Event, Step};
use crate::log;
use crate::log::SegmentedLog;
use crate::pos::Pos;
use crate::reader;
use crate::reader::{Reader, Record};

verus! {

/// Records with their keys, as mathematical values.
pub type Records = Seq<(Seq<u8>, Seq<u8>)>;

/// What a read of a batch asked for last.
#[derive(Clone, Copy, Debug, PartialEq, Eq, Structural)]
pub enum ReadPhase {
    Start,
    /// The head lock.
    Lock,
    /// Something of the segments.
    Walk,
    /// The write of the new head.
    Persist,
    /// The removal of a segment that was consumed.
    Unlink,
    /// The writer lock, since everything was read.
    ReclaimLock,
    /// A fresh segment for the writer.
    ReclaimCreate,
    /// The time at which the writer moved there.
    ReclaimClock,
    /// The end of the writer lock.
    ReclaimUnlock,
    /// The write of the head at the fresh segment.
    ReclaimPersist,
    /// The removal of the drained segment.
    ReclaimUnlink,
    /// Nothing: the operation has ended.
    Over,
}

/// Reads and consumes up to `limit` records in arrival order. Segments behind
/// the new head are unlinked. If nothing is left, the writer is moved to a
/// fresh segment and the old one is unlinked, so that a drained queue occupies
/// no space. Once the head was written the records are handed out: what cannot
/// be unlinked or reclaimed then is only wasted space.
#[derive(Debug)]
pub struct ReadBatch {
    pub phase: ReadPhase,
    pub limit: usize,
    pub reader: Reader,
    /// The segment that is being unlinked.
    pub gone: u64,
}

/// `ReadBatch` with its records as sequences.
pub struct ReadBatchView {
    pub phase: ReadPhase,
    pub limit: nat,
    pub reader: reader::ReaderView,
    pub gone: u64,
}

impl View for ReadBatch {
    type V = ReadBatchView;

    open spec fn view(&self) -> ReadBatchView {
        ReadBatchView {
            phase: self.phase,
            limit: self.limit as nat,
            reader: self.reader@,
            gone: self.gone,
        }
    }
}

impl SegmentedLog {
    /// The log once the reader resumes from `pos`.
    pub open spec fn advanced(self, pos: Pos) -> SegmentedLog {
        SegmentedLog { head: pos, ..self }
    }

    /// The log once `n` of its unread records were handed out.
    pub open spec fn consumed(self, n: nat) -> SegmentedLog {
        SegmentedLog {
            unread: if n <= self.unread {
                (self.unread - n) as u64
            } else {
                0
            },
            ..self
        }
    }

    /// The log once the writer of a drained log moved to a fresh segment.
    pub open spec fn reclaimed(self, now: u128) -> SegmentedLog {
        SegmentedLog { committed: log::start_after(self.writer.seg), ..self.rolled(now) }
    }
}

/// The time that a clock gave; without an answer it has not advanced since the
/// last sync.
pub open spec fn time_of(event: io::EventView, log: SegmentedLog) -> u128 {
    match event {
        io::EventView::Time(now) => now,
        _ => log.last_sync,
    }
}

impl ReadBatchView {
    pub open spec fn in_phase(self, phase: ReadPhase) -> ReadBatchView {
        ReadBatchView { phase, ..self }
    }

    /// The read of a batch that was not started yet.
    pub open spec fn start(limit: nat) -> ReadBatchView {
        let origin = Pos { seg: 0, off: 0 };
        ReadBatchView {
            phase: ReadPhase::Start,
            limit,
            reader: reader::ReaderView::start(origin, origin, limit),
            gone: 0,
        }
    }

    /// Asks for what the walk needs, or ends it.
    pub open spec fn walk(self, log: SegmentedLog) -> (
        ReadBatchView,
        SegmentedLog,
        io::StepView<Records>,
    ) {
        if !self.reader.finished() {
            (self.in_phase(ReadPhase::Walk), log, io::StepView::Do(self.reader.action()))
        } else if self.reader.pos == log.head {
            (self.in_phase(ReadPhase::Over), log, io::StepView::Done(self.reader.out))
        } else {
            (
                self.in_phase(ReadPhase::Persist),
                log,
                io::StepView::Do(
                    io::ActionView::WriteHead { bytes: head::head_bytes(self.reader.pos) },
                ),
            )
        }
    }

    /// Unlinks the segments before the new head, then moves the head there.
    pub open spec fn unlink(self, log: SegmentedLog) -> (
        ReadBatchView,
        SegmentedLog,
        io::StepView<Records>,
    ) {
        let pos = self.reader.pos;
        if self.gone < pos.seg {
            (
                self.in_phase(ReadPhase::Unlink),
                log,
                io::StepView::Do(io::ActionView::Remove { seg: self.gone }),
            )
        } else if pos == self.reader.end && pos.off > 0 {
            (
                self.in_phase(ReadPhase::ReclaimLock),
                log.advanced(pos),
                io::StepView::Do(io::ActionView::LockWriter),
            )
        } else {
            self.finish(log.advanced(pos))
        }
    }

    /// Hands the records out.
    pub open spec fn finish(self, log: SegmentedLog) -> (
        ReadBatchView,
        SegmentedLog,
        io::StepView<Records>,
    ) {
        (
            self.in_phase(ReadPhase::Over),
            log.consumed(self.reader.out.len()),
            io::StepView::Done(self.reader.out),
        )
    }

    /// The read, the log and the next step after `event`.
    pub open spec fn step(self, log: SegmentedLog, event: io::EventView) -> (
        ReadBatchView,
        SegmentedLog,
        io::StepView<Records>,
    ) {
        match (self.phase, event) {
            (ReadPhase::Start, io::EventView::Start) => if self.limit == 0 {
                (self.in_phase(ReadPhase::Over), log, io::StepView::Done(Seq::empty()))
            } else {
                (
                    self.in_phase(ReadPhase::Lock),
                    log,
                    io::StepView::Do(io::ActionView::LockHead),
                )
            },
            (ReadPhase::Lock, io::EventView::Performed) => ReadBatchView {
                reader: reader::ReaderView::start(log.head, log.committed, self.limit),
                ..self
            }.walk(log),
            (ReadPhase::Walk, event) if self.reader.fits(event) => ReadBatchView {
                reader: self.reader.after(event),
                ..self
            }.walk(log),
            (ReadPhase::Persist, io::EventView::Performed) => ReadBatchView {
                gone: log.head.seg,
                ..self
            }.unlink(log),
            (ReadPhase::Unlink, _) => ReadBatchView {
                gone: (self.gone + 1) as u64,
                ..self
            }.unlink(log),
            (ReadPhase::ReclaimLock, io::EventView::Performed) => if log.writer != log.head
                || log.writer.seg == u64::MAX {
                // Something was appended since the walk started, or segment
                // numbers are used up.
                self.finish(log)
            } else {
                (
                    self.in_phase(ReadPhase::ReclaimCreate),
                    log,
                    io::StepView::Do(
                        io::ActionView::Create { seg: log::start_after(log.writer.seg).seg },
                    ),
                )
            },
            (ReadPhase::ReclaimCreate, io::EventView::Performed) => (
                self.in_phase(ReadPhase::ReclaimClock),
                log,
                io::StepView::Do(io::ActionView::Now),
            ),
            (ReadPhase::ReclaimClock, event) => if log.writer.seg == u64::MAX {
                self.finish(log)
            } else {
                (
                    ReadBatchView { phase: ReadPhase::ReclaimUnlock, gone: log.writer.seg, ..self },
                    log.reclaimed(time_of(event, log)),
                    io::StepView::Do(io::ActionView::UnlockWriter),
                )
            },
            (ReadPhase::ReclaimUnlock, _) => (
                self.in_phase(ReadPhase::ReclaimPersist),
                log,
                io::StepView::Do(
                    io::ActionView::WriteHead {
                        bytes: head::head_bytes(log::start_after(self.gone)),
                    },
                ),
            ),
            (ReadPhase::ReclaimPersist, io::EventView::Performed) => (
                self.in_phase(ReadPhase::ReclaimUnlink),
                log.advanced(log::start_after(self.gone)),
                io::StepView::Do(io::ActionView::Remove { seg: self.gone }),
            ),
            // The space is not reclaimed, or not yet; the records were read.
            (ReadPhase::ReclaimLock, _)
            | (ReadPhase::ReclaimCreate, _)
            | (ReadPhase::ReclaimPersist, _)
            | (ReadPhase::ReclaimUnlink, _) => self.finish(log),
            _ => (self.in_phase(ReadPhase::Over), log, io::StepView::Failed),
        }
    }

    /// A segment that is being unlinked lies before the new head.
    pub open spec fn wf(self) -> bool {
        &&& self.phase != ReadPhase::Over ==> self.reader.wf()
        &&& self.phase == ReadPhase::Unlink ==> self.gone < self.reader.pos.seg
        &&& self.phase == ReadPhase::ReclaimUnlock || self.phase == ReadPhase::ReclaimPersist
            ==> self.gone < u64::MAX
    }
}

impl ReadBatch {
    pub fn new(limit: usize) -> (op: ReadBatch)
        ensures
            op@ == ReadBatchView::start(limit as nat),
            op@.wf(),
    {
        let origin: Pos = Pos { seg: 0, off: 0 };
        ReadBatch {
            phase: ReadPhase::Start,
            limit,
            reader: Reader::new(origin, origin, limit),
            gone: 0,
        }
    }

    fn take_out(&mut self) -> (out: Vec<Record>)
        ensures
            out.deep_view() == old(self)@.reader.out,
            final(self)@.phase == ReadPhase::Over,
    {
        let mut out: Vec<Record> = Vec::new();
        std::mem::swap(&mut out, &mut self.reader.out);
        self.phase = ReadPhase::Over;
        out
    }

    fn fail(&mut self) -> (step: Step<Vec<Record>>)
        ensures
            step@ == io::StepView::<Records>::Failed,
            final(self)@.phase == ReadPhase::Over,
    {
        self.phase = ReadPhase::Over;
        Step::Failed
    }

    fn walk(&mut self, log: &SegmentedLog) -> (step: Step<Vec<Record>>)
        requires
            old(self)@.reader.wf(),
            old(self)@.phase == ReadPhase::Lock || old(self)@.phase == ReadPhase::Walk,
        ensures
            ({
                let (op, log2, want) = old(self)@.walk(*log);
                &&& step@ == want
                &&& step@ is Do ==> final(self)@ == op
                &&& !(step@ is Do) ==> final(self)@.phase == ReadPhase::Over
            }),
            final(self)@.wf(),
    {
        match self.reader.next() {
            Some(action) => {
                self.phase = ReadPhase::Walk;
                Step::Do(action)
            },
            None => {
                if self.reader.pos == log.head {
                    Step::Done(self.take_out())
                } else {
                    self.phase = ReadPhase::Persist;
                    Step::Do(Action::WriteHead { bytes: persist_head(self.reader.pos) })
                }
            },
        }
    }

    fn unlink(&mut self, log: &mut SegmentedLog) -> (step: Step<Vec<Record>>)
        requires
            old(self)@.reader.wf(),
            old(self)@.phase == ReadPhase::Persist || old(self)@.phase == ReadPhase::Unlink,
        ensures
            ({
                let (op, log2, want) = old(self)@.unlink(*old(log));
                &&& step@ == want
                &&& *final(log) == log2
                &&& step@ is Do ==> final(self)@ == op
                &&& !(step@ is Do) ==> final(self)@.phase == ReadPhase::Over
            }),
            final(self)@.wf(),
    {
        if self.gone < self.reader.pos.seg {
            self.phase = ReadPhase::Unlink;
            return Step::Do(Action::Remove { seg: self.gone });
        }
        log.head = self.reader.pos;
        if self.reader.pos == self.reader.end && self.reader.pos.off > 0 {
            self.phase = ReadPhase::ReclaimLock;
            Step::Do(Action::LockWriter)
        } else {
            self.finish(log)
        }
    }

    fn finish(&mut self, log: &mut SegmentedLog) -> (step: Step<Vec<Record>>)
        ensures
            ({
                let (op, log2, want) = old(self)@.finish(*old(log));
                &&& step@ == want
                &&& *final(log) == log2
            }),
            final(self)@.phase == ReadPhase::Over,
    {
        let out: Vec<Record> = self.take_out();
        log.unread = log.unread.saturating_sub(out.len() as u64);
        assert(out.deep_view().len() == out@.len());
        Step::Done(out)
    }

    /// Takes in the answer to the last action and says what to do next. An
    /// action that fails before the head was written ends the read; one that
    /// fails later leaves space that is not reclaimed, no more.
    pub fn step(&mut self, log: &mut SegmentedLog, event: Event) -> (step: Step<Vec<Record>>)
        requires
            old(self)@.wf(),
        ensures
            ({
                let (op, log2, want) = old(self)@.step(*old(log), event@);
                &&& step@ == want
                &&& *final(log) == log2
                &&& step@ is Do ==> final(self)@ == op
                &&& !(step@ is Do) ==> final(self)@.phase == ReadPhase::Over
            }),
            final(self)@.wf(),
    {
        match (self.phase, event) {
            (ReadPhase::Start, Event::Start) => {
                if self.limit == 0 {
                    self.phase = ReadPhase::Over;
                    let none: Vec<Record> = Vec::new();
                    assert(none.deep_view() =~= Seq::<(Seq<u8>, Seq<u8>)>::empty());
                    Step::Done(none)
                } else {
                    self.phase = ReadPhase::Lock;
                    Step::Do(Action::LockHead)
                }
            },
            (ReadPhase::Lock, Event::Performed) => {
                self.reader = Reader::new(log.head, log.committed, self.limit);
                self.walk(log)
            },
            (ReadPhase::Walk, event) => {
                if self.reader.feed(&event) {
                    self.walk(log)
                } else {
                    self.fail()
                }
            },
            (ReadPhase::Persist, Event::Performed) => {
                self.gone = log.head.seg;
                self.unlink(log)
            },
            (ReadPhase::Unlink, _) => {
                self.gone = self.gone + 1;
                self.unlink(log)
            },
            (ReadPhase::ReclaimLock, Event::Performed) => {
                if log.writer != log.head || log.writer.seg == u64::MAX {
                    // Something was appended since the walk started, or segment
                    // numbers are used up.
                    self.finish(log)
                } else {
                    self.phase = ReadPhase::ReclaimCreate;
                    Step::Do(Action::Create { seg: log.writer.seg + 1 })
                }
            },
            (ReadPhase::ReclaimCreate, Event::Performed) => {
                self.phase = ReadPhase::ReclaimClock;
                Step::Do(Action::Now)
            },
            (ReadPhase::ReclaimClock, event) => {
                if log.writer.seg == u64::MAX {
                    return self.finish(log);
                }
                let now: u128 = match event {
                    Event::Time(now) => now,
                    _ => log.last_sync,
                };
                self.phase = ReadPhase::ReclaimUnlock;
                self.gone = log.writer.seg;
                log.writer = Pos { seg: log.writer.seg + 1, off: 0 };
                log.dirty = false;
                log.last_sync = now;
                log.committed = log.writer;
                Step::Do(Action::UnlockWriter)
            },
            (ReadPhase::ReclaimUnlock, _) => {
                self.phase = ReadPhase::ReclaimPersist;
                let next: Pos = Pos { seg: self.gone + 1, off: 0 };
                Step::Do(Action::WriteHead { bytes: persist_head(next) })
            },
            (ReadPhase::ReclaimPersist, Event::Performed) => {
                self.phase = ReadPhase::ReclaimUnlink;
                log.head = Pos { seg: self.gone + 1, off: 0 };
                Step::Do(Action::Remove { seg: self.gone })
            },
            (ReadPhase::ReclaimLock, _)
            | (ReadPhase::ReclaimCreate, _)
            | (ReadPhase::ReclaimPersist, _)
            | (ReadPhase::ReclaimUnlink, _) => self.finish(log),
            _ => self.fail(),
        }
    }
}

/// What a peek asked for last.
#[derive(Clone, Copy, Debug, PartialEq, Eq, Structural)]
pub enum PeekPhase {
    Start,
    /// The head lock.
    Lock,
    /// The end of the head lock.
    Unlock,
    /// Something of the segments.
    Walk,
    /// Nothing: the operation has ended.
    Over,
}

/// Reads up to `limit` records without consuming them.
#[derive(Debug)]
pub struct Peek {
    pub phase: PeekPhase,
    pub limit: usize,
    /// Where the reader stood while the head was locked.
    pub head: Pos,
    pub reader: Reader,
}

/// `Peek` with its records as sequences.
pub struct PeekView {
    pub phase: PeekPhase,
    pub limit: nat,
    pub head: Pos,
    pub reader: reader::ReaderView,
}

impl View for Peek {
    type V = PeekView;

    open spec fn view(&self) -> PeekView {
        PeekView {
            phase: self.phase,
            limit: self.limit as nat,
            head: self.head,
            reader: self.reader@,
        }
    }
}

impl PeekView {
    pub open spec fn in_phase(self, phase: PeekPhase) -> PeekView {
        PeekView { phase, ..self }
    }

    /// The peek that was not started yet.
    pub open spec fn start(limit: nat) -> PeekView {
        let origin = Pos { seg: 0, off: 0 };
        PeekView {
            phase: PeekPhase::Start,
            limit,
            head: origin,
            reader: reader::ReaderView::start(origin, origin, limit),
        }
    }

    /// Asks for what the walk needs, or ends it.
    pub open spec fn walk(self) -> (PeekView, io::StepView<Records>) {
        if self.reader.finished() {
            (self.in_phase(PeekPhase::Over), io::StepView::Done(self.reader.out))
        } else {
            (self.in_phase(PeekPhase::Walk), io::StepView::Do(self.reader.action()))
        }
    }

    /// The peek and the next step after `event`.
    pub open spec fn step(self, log: SegmentedLog, event: io::EventView) -> (
        PeekView,
        io::StepView<Records>,
    ) {
        match (self.phase, event) {
            (PeekPhase::Start, io::EventView::Start) => (
                self.in_phase(PeekPhase::Lock),
                io::StepView::Do(io::ActionView::LockHead),
            ),
            (PeekPhase::Lock, io::EventView::Performed) => (
                PeekView { phase: PeekPhase::Unlock, head: log.head, ..self },
                io::StepView::Do(io::ActionView::UnlockHead),
            ),
            (PeekPhase::Unlock, io::EventView::Performed) => PeekView {
                reader: reader::ReaderView::start(self.head, log.committed, self.limit),
                ..self
            }.walk(),
            (PeekPhase::Walk, event) if self.reader.fits(event) => PeekView {
                reader: self.reader.after(event),
                ..self
            }.walk(),
            _ => (self.in_phase(PeekPhase::Over), io::StepView::Failed),
        }
    }

    pub open spec fn wf(self) -> bool {
        self.phase != PeekPhase::Over ==> self.reader.wf()
    }
}

impl Peek {
    pub fn new(limit: usize) -> (op: Peek)
        ensures
            op@ == PeekView::start(limit as nat),
            op@.wf(),
    {
        let origin: Pos = Pos { seg: 0, off: 0 };
        Peek {
            phase: PeekPhase::Start,
            limit,
            head: origin,
            reader: Reader::new(origin, origin, limit),
        }
    }

    fn walk(&mut self) -> (step: Step<Vec<Record>>)
        requires
            old(self)@.reader.wf(),
        ensures
            ({
                let (op, want) = old(self)@.walk();
                &&& step@ == want
                &&& step@ is Do ==> final(self)@ == op
                &&& !(step@ is Do) ==> final(self)@.phase == PeekPhase::Over
            }),
            final(self)@.wf(),
    {
        match self.reader.next() {
            Some(action) => {
                self.phase = PeekPhase::Walk;
                Step::Do(action)
            },
            None => {
                let mut out: Vec<Record> = Vec::new();
                std::mem::swap(&mut out, &mut self.reader.out);
                self.phase = PeekPhase::Over;
                Step::Done(out)
            },
        }
    }

    /// Takes in the answer to the last action and says what to do next. The
    /// log stays as it is.
    pub fn step(&mut self, log: &SegmentedLog, event: Event) -> (step: Step<Vec<Record>>)
        requires
            old(self)@.wf(),
        ensures
            ({
                let (op, want) = old(self)@.step(*log, event@);
                &&& step@ == want
                &&& step@ is Do ==> final(self)@ == op
                &&& !(step@ is Do) ==> final(self)@.phase == PeekPhase::Over
            }),
            final(self)@.wf(),
    {
        match (self.phase, event) {
            (PeekPhase::Start, Event::Start) => {
                self.phase = PeekPhase::Lock;
                Step::Do(Action::LockHead)
            },
            (PeekPhase::Lock, Event::Performed) => {
                self.phase = PeekPhase::Unlock;
                self.head = log.head;
                Step::Do(Action::UnlockHead)
            },
            (PeekPhase::Unlock, Event::Performed) => {
                self.reader = Reader::new(self.head, log.committed, self.limit);
                self.walk()
            },
            (PeekPhase::Walk, event) => {
                if self.reader.feed(&event) {
                    self.walk()
                } else {
                    self.phase = PeekPhase::Over;
                    Step::Failed
                }
            },
            _ => {
                self.phase = PeekPhase::Over;
                Step::Failed
            },
        }
    }
}

/// Records that a visit takes from the segments at once.
pub const VISIT_BATCH: usize = 4096;

/// What a visit asked for last.
#[derive(Clone, Copy, Debug, PartialEq, Eq, Structural)]
pub enum VisitPhase {
    Start,
    /// The head lock.
    Lock,
    /// Something of the segments.
    Walk,
    /// The visit of some payloads.
    Batch,
    /// Nothing: the operation has ended.
    Over,
}

/// Visits every unread record without consuming any. Holds the head lock for
/// the whole walk, so it is a consistent snapshot and blocks concurrent
/// dequeues; meant for operator commands, not hot paths.
#[derive(Debug)]
pub struct Visit {
    pub phase: VisitPhase,
    /// Where the next batch starts.
    pub pos: Pos,
    /// Where the records end.
    pub end: Pos,
    pub reader: Reader,
}

/// What a visit does next.
#[derive(Debug)]
pub enum VisitStep {
    /// Perform the action and hand back the event.
    Do(Action),
    /// Visit these payloads, in order, and hand back that it is performed.
    Visit(Vec<Vec<u8>>),
    /// Every unread record was visited.
    Done,
    /// The visit failed, since its last action did.
    Failed,
}

/// `Visit` with its records as sequences.
pub struct VisitView {
    pub phase: VisitPhase,
    pub pos: Pos,
    pub end: Pos,
    pub reader: reader::ReaderView,
}

/// `VisitStep` with its payloads as sequences.
pub enum VisitStepView {
    Do(io::ActionView),
    Visit(Seq<Seq<u8>>),
    Done,
    Failed,
}

impl View for Visit {
    type V = VisitView;

    open spec fn view(&self) -> VisitView {
        VisitView { phase: self.phase, pos: self.pos, end: self.end, reader: self.reader@ }
    }
}

impl View for VisitStep {
    type V = VisitStepView;

    open spec fn view(&self) -> VisitStepView {
        match self {
            VisitStep::Do(action) => VisitStepView::Do(action@),
            VisitStep::Visit(payloads) => VisitStepView::Visit(payloads.deep_view()),
            VisitStep::Done => VisitStepView::Done,
            VisitStep::Failed => VisitStepView::Failed,
        }
    }
}

/// The payloads of the records.
pub open spec fn payloads_of(out: Records) -> Seq<Seq<u8>> {
    out.map_values(|record: (Seq<u8>, Seq<u8>)| record.1)
}

impl VisitView {
    pub open spec fn in_phase(self, phase: VisitPhase) -> VisitView {
        VisitView { phase, ..self }
    }

    /// The visit that was not started yet.
    pub open spec fn start() -> VisitView {
        let origin = Pos { seg: 0, off: 0 };
        VisitView {
            phase: VisitPhase::Start,
            pos: origin,
            end: origin,
            reader: reader::ReaderView::start(origin, origin, VISIT_BATCH as nat),
        }
    }

    /// Starts a batch where the last one ended.
    pub open spec fn batch(self) -> (VisitView, VisitStepView) {
        if self.pos.before(self.end) {
            VisitView {
                reader: reader::ReaderView::start(self.pos, self.end, VISIT_BATCH as nat),
                ..self
            }.walk()
        } else {
            (self.in_phase(VisitPhase::Over), VisitStepView::Done)
        }
    }

    /// Asks for what the walk needs, or hands out what it found.
    pub open spec fn walk(self) -> (VisitView, VisitStepView) {
        if !self.reader.finished() {
            (self.in_phase(VisitPhase::Walk), VisitStepView::Do(self.reader.action()))
        } else if self.reader.out.len() == 0 || self.reader.pos == self.pos {
            (self.in_phase(VisitPhase::Over), VisitStepView::Done)
        } else {
            (
                VisitView { phase: VisitPhase::Batch, pos: self.reader.pos, ..self },
                VisitStepView::Visit(payloads_of(self.reader.out)),
            )
        }
    }

    /// The visit and the next step after `event`.
    pub open spec fn step(self, log: SegmentedLog, event: io::EventView) -> (
        VisitView,
        VisitStepView,
    ) {
        match (self.phase, event) {
            (VisitPhase::Start, io::EventView::Start) => (
                self.in_phase(VisitPhase::Lock),
                VisitStepView::Do(io::ActionView::LockHead),
            ),
            (VisitPhase::Lock, io::EventView::Performed) => VisitView {
                pos: log.head,
                end: log.committed,
                ..self
            }.batch(),
            (VisitPhase::Batch, io::EventView::Performed) => self.batch(),
            (VisitPhase::Walk, event) if self.reader.fits(event) => VisitView {
                reader: self.reader.after(event),
                ..self
            }.walk(),
            _ => (self.in_phase(VisitPhase::Over), VisitStepView::Failed),
        }
    }

    pub open spec fn wf(self) -> bool {
        self.phase == VisitPhase::Walk ==> self.reader.wf()
    }
}

impl Visit {
    pub fn new() -> (op: Visit)
        ensures
            op@ == VisitView::start(),
            op@.wf(),
    {
        let origin: Pos = Pos { seg: 0, off: 0 };
        Visit {
            phase: VisitPhase::Start,
            pos: origin,
            end: origin,
            reader: Reader::new(origin, origin, VISIT_BATCH),
        }
    }

    /// The payloads that were read.
    fn payloads(&self) -> (out: Vec<Vec<u8>>)
        ensures
            out.deep_view() == payloads_of(self@.reader.out),
    {
        let mut out: Vec<Vec<u8>> = Vec::new();
        let mut i: usize = 0;
        assert(out.deep_view() =~= payloads_of(self@.reader.out).take(0));
        while i < self.reader.out.len()
            invariant
                i <= self.reader.out@.len(),
                self@.reader.out.len() == self.reader.out@.len(),
                out.deep_view() == payloads_of(self@.reader.out).take(i as int),
            decreases self.reader.out@.len() - i,
        {
            let ghost before = out.deep_view();
            let payload: Vec<u8> = vstd::slice::slice_to_vec(self.reader.out[i].1.as_slice());
            assert(payload.deep_view() =~= payload@);
            assert(self.reader.out@[i as int].1.deep_view() =~= payload@);
            out.push(payload);
            i = i + 1;
            assert(out.deep_view() =~= before.push(payload@));
            assert(out.deep_view() =~= payloads_of(self@.reader.out).take(i as int));
        }
        assert(payloads_of(self@.reader.out).take(i as int) =~= payloads_of(self@.reader.out));
        out
    }

    fn batch(&mut self) -> (step: VisitStep)
        ensures
            (final(self)@, step@) == old(self)@.batch(),
            final(self)@.wf(),
    {
        if self.pos.is_before(self.end) {
            self.reader = Reader::new(self.pos, self.end, VISIT_BATCH);
            self.walk()
        } else {
            self.phase = VisitPhase::Over;
            VisitStep::Done
        }
    }

    fn walk(&mut self) -> (step: VisitStep)
        requires
            old(self)@.reader.wf(),
        ensures
            (final(self)@, step@) == old(self)@.walk(),
            final(self)@.wf(),
    {
        match self.reader.next() {
            Some(action) => {
                self.phase = VisitPhase::Walk;
                VisitStep::Do(action)
            },
            None => {
                assert(self@.reader.out.len() == self.reader.out@.len());
                if self.reader.out.len() == 0 || self.reader.pos == self.pos {
                    self.phase = VisitPhase::Over;
                    VisitStep::Done
                } else {
                    self.phase = VisitPhase::Batch;
                    self.pos = self.reader.pos;
                    VisitStep::Visit(self.payloads())
                }
            },
        }
    }

    /// Takes in the answer to the last action and says what to do next. The
    /// log stays as it is.
    pub fn step(&mut self, log: &SegmentedLog, event: Event) -> (step: VisitStep)
        requires
            old(self)@.wf(),
        ensures
            (final(self)@, step@) == old(self)@.step(*log, event@),
            final(self)@.wf(),
    {
        match (self.phase, event) {
            (VisitPhase::Start, Event::Start) => {
                self.phase = VisitPhase::Lock;
                VisitStep::Do(Action::LockHead)
            },
            (VisitPhase::Lock, Event::Performed) => {
                self.pos = log.head;
                self.end = log.committed;
                self.batch()
            },
            (VisitPhase::Batch, Event::Performed) => self.batch(),
            (VisitPhase::Walk, event) => {
                if self.reader.feed(&event) {
                    self.walk()
                } else {
                    self.phase = VisitPhase::Over;
                    VisitStep::Failed
                }
            },
            _ => {
                self.phase = VisitPhase::Over;
                VisitStep::Failed
            },
        }
    }
}

/// A read takes the head lock first and keeps it: it asks for the writer lock
/// only after it has read under the head lock, and never lets that go before
/// its end. With writers that never take the head lock, no two operations wait
/// for each other.
pub proof fn law_reads_lock_head_before_writer(
    op: ReadBatchView,
    log: SegmentedLog,
    event: io::EventView,
)
    ensures
        ({
            let step = op.step(log, event).2;
            &&& step != io::StepView::<Records>::Do(io::ActionView::UnlockHead)
            &&& step == io::StepView::<Records>::Do(io::ActionView::LockHead) ==> op.phase
                == ReadPhase::Start
            &&& step == io::StepView::<Records>::Do(io::ActionView::LockWriter) ==> op.phase
                == ReadPhase::Persist || op.phase == ReadPhase::Unlink
        }),
{
}

} // verus!
