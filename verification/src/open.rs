//! Opening a log: finding its tail, its head and its unread records.

use vstd::prelude::*;

use crate::head;
use crate::head::{load_head, persist_head};
use crate::io;
use crate::io::{Action, Event, Step};
use crate::log::SegmentedLog;
use crate::names;
use crate::names::list_segments;
use crate::pos::Pos;
use crate::scan::Scan;

verus! {

/// Where to resume: from the persisted position, clamped into the range of
/// segments that still exist. A missing or corrupt head file delivers again
/// from the oldest segment, and never skips.
pub open spec fn placed(persisted: Option<Pos>, first: u64, tail: Pos) -> Pos {
    let head = match persisted {
        Some(pos) if pos.seg >= first => pos,
        _ => Pos { seg: first, off: 0 },
    };
    if tail.before(head) {
        tail
    } else {
        head
    }
}

/// Where to resume reading. See `placed`.
pub fn place_head(persisted: Option<Pos>, first: u64, tail: Pos) -> (head: Pos)
    ensures
        head == placed(persisted, first, tail),
{
    let mut head: Pos = Pos { seg: first, off: 0 };
    if let Some(pos) = persisted {
        if pos.seg >= first {
            head = pos;
        }
    }
    if tail.is_before(head) {
        head = tail;
    }
    head
}

/// What opening a log asked for last.
#[derive(Clone, Copy, Debug, PartialEq, Eq, Structural)]
pub enum OpenPhase {
    Start,
    /// The names of the files.
    List,
    /// The head file.
    Head,
    /// The length of the last segment.
    Tail,
    /// Bytes of the last segment.
    TailScan,
    /// The removal of a torn tail.
    Truncate,
    /// The removal of a segment that was consumed.
    Unlink,
    /// The length of a segment.
    Measure,
    /// Bytes of a segment.
    Count,
    /// The time.
    Clock,
    /// The write of the head.
    Persist,
    /// Nothing: the operation has ended.
    Over,
}

/// Opens or creates a log.
#[derive(Debug)]
pub struct Open {
    pub phase: OpenPhase,
    pub segment_bytes: u64,
    pub fsync_interval: u128,
    /// The segments, ascending.
    pub segs: Vec<u64>,
    /// The position in the head file.
    pub persisted: Option<Pos>,
    /// Just past the last complete record of the last segment.
    pub tail: Pos,
    /// Where to resume reading.
    pub head: Pos,
    /// The segment that is looked at.
    pub at: usize,
    /// Unread records in the segments before it.
    pub unread: u64,
    pub scan: Scan,
    pub now: u128,
}

/// `Open` with its segments as a sequence.
#[verifier::ext_equal]
pub struct OpenView {
    pub phase: OpenPhase,
    pub segment_bytes: u64,
    pub fsync_interval: u128,
    pub segs: Seq<u64>,
    pub persisted: Option<Pos>,
    pub tail: Pos,
    pub head: Pos,
    pub at: int,
    pub unread: u64,
    pub scan: Scan,
    pub now: u128,
}

impl View for Open {
    type V = OpenView;

    open spec fn view(&self) -> OpenView {
        OpenView {
            phase: self.phase,
            segment_bytes: self.segment_bytes,
            fsync_interval: self.fsync_interval,
            segs: self.segs@,
            persisted: self.persisted,
            tail: self.tail,
            head: self.head,
            at: self.at as int,
            unread: self.unread,
            scan: self.scan,
            now: self.now,
        }
    }
}

/// The segments to look at: a log without segments starts with segment 0.
pub open spec fn at_least_one(segs: Seq<u64>) -> Seq<u64> {
    if segs.len() == 0 {
        seq![0u64]
    } else {
        segs
    }
}

impl OpenView {
    pub open spec fn in_phase(self, phase: OpenPhase) -> OpenView {
        OpenView { phase, ..self }
    }

    /// The opening that was not started yet.
    pub open spec fn start(segment_bytes: u64, fsync_interval: u128) -> OpenView {
        let origin = Pos { seg: 0, off: 0 };
        OpenView {
            phase: OpenPhase::Start,
            segment_bytes,
            fsync_interval,
            segs: Seq::empty(),
            persisted: None,
            tail: origin,
            head: origin,
            at: 0,
            unread: 0,
            scan: Scan::start(0, 0),
            now: 0,
        }
    }

    /// Whether `event` answers the last read of the scan.
    pub open spec fn fits(self, event: io::EventView) -> bool {
        !self.scan.finished() && event is Bytes && event->Bytes_0.len() == self.scan.request()
    }

    /// Looks for the end of the last segment's records.
    pub open spec fn scan_tail(self) -> (OpenView, io::StepView<SegmentedLog>) {
        let tail = Pos { seg: self.tail.seg, off: self.scan.off };
        if !self.scan.finished() {
            (
                self.in_phase(OpenPhase::TailScan),
                io::StepView::Do(
                    io::ActionView::Read {
                        seg: self.tail.seg,
                        off: self.scan.off,
                        len: self.scan.request() as u64,
                    },
                ),
            )
        } else if self.scan.off < self.scan.to {
            (
                OpenView { phase: OpenPhase::Truncate, tail, ..self },
                io::StepView::Do(
                    io::ActionView::Truncate { seg: self.tail.seg, len: self.scan.off },
                ),
            )
        } else {
            OpenView { tail, ..self }.place()
        }
    }

    /// Places the head.
    pub open spec fn place(self) -> (OpenView, io::StepView<SegmentedLog>) {
        OpenView {
            head: placed(self.persisted, self.segs[0], self.tail),
            at: 0,
            ..self
        }.unlink()
    }

    /// Unlinks the segments before the head: an earlier crash may have left
    /// them.
    pub open spec fn unlink(self) -> (OpenView, io::StepView<SegmentedLog>) {
        if self.at < self.segs.len() && self.segs[self.at] < self.head.seg {
            (
                self.in_phase(OpenPhase::Unlink),
                io::StepView::Do(io::ActionView::Remove { seg: self.segs[self.at] }),
            )
        } else {
            self.measure()
        }
    }

    /// Goes on to the next segment, or to the end.
    pub open spec fn measure(self) -> (OpenView, io::StepView<SegmentedLog>) {
        if self.at < self.segs.len() {
            (
                self.in_phase(OpenPhase::Measure),
                io::StepView::Do(io::ActionView::Measure { seg: self.segs[self.at] }),
            )
        } else {
            (self.in_phase(OpenPhase::Clock), io::StepView::Do(io::ActionView::Now))
        }
    }

    /// The part of the current segment, of `len` bytes, that is unread.
    pub open spec fn to_count(self, len: u64) -> Scan {
        let seg = self.segs[self.at];
        Scan::start(
            if seg == self.head.seg {
                self.head.off
            } else {
                0
            },
            if seg == self.tail.seg {
                self.tail.off
            } else {
                len
            },
        )
    }

    /// Counts the unread records of the current segment.
    pub open spec fn count(self) -> (OpenView, io::StepView<SegmentedLog>) {
        if !self.scan.finished() {
            (
                self.in_phase(OpenPhase::Count),
                io::StepView::Do(
                    io::ActionView::Read {
                        seg: self.segs[self.at],
                        off: self.scan.off,
                        len: self.scan.request() as u64,
                    },
                ),
            )
        } else {
            OpenView {
                at: self.at + 1,
                unread: if self.unread + self.scan.count <= u64::MAX {
                    (self.unread + self.scan.count) as u64
                } else {
                    u64::MAX
                },
                ..self
            }.measure()
        }
    }

    /// The log that was opened.
    pub open spec fn log(self) -> SegmentedLog {
        SegmentedLog {
            segment_bytes: self.segment_bytes,
            fsync_interval: self.fsync_interval,
            writer: self.tail,
            dirty: false,
            last_sync: self.now,
            committed: self.tail,
            head: self.head,
            unread: self.unread,
        }
    }

    /// The opening and the next step after `event`.
    pub open spec fn step(self, event: io::EventView) -> (OpenView, io::StepView<SegmentedLog>) {
        match (self.phase, event) {
            (OpenPhase::Start, io::EventView::Start) => (
                self.in_phase(OpenPhase::List),
                io::StepView::Do(io::ActionView::List),
            ),
            (OpenPhase::List, io::EventView::Names(all)) => (
                OpenView {
                    phase: OpenPhase::Head,
                    segs: at_least_one(names::listed(all)),
                    ..self
                },
                io::StepView::Do(io::ActionView::ReadHead),
            ),
            (OpenPhase::Head, io::EventView::Bytes(buf)) => (
                OpenView {
                    phase: OpenPhase::Tail,
                    persisted: head::head_of(buf),
                    tail: Pos { seg: self.segs.last(), off: 0 },
                    ..self
                },
                io::StepView::Do(io::ActionView::OpenTail { seg: self.segs.last() }),
            ),
            (OpenPhase::Tail, io::EventView::Length(len)) => OpenView {
                scan: Scan::start(0, len),
                ..self
            }.scan_tail(),
            (OpenPhase::TailScan, event) if self.fits(event) => OpenView {
                scan: self.scan.after(event->Bytes_0),
                ..self
            }.scan_tail(),
            (OpenPhase::Truncate, io::EventView::Performed) => self.place(),
            (OpenPhase::Unlink, _) => OpenView { at: self.at + 1, ..self }.unlink(),
            (OpenPhase::Measure, io::EventView::Length(len)) => OpenView {
                scan: self.to_count(len),
                ..self
            }.count(),
            (OpenPhase::Count, event) if self.fits(event) => OpenView {
                scan: self.scan.after(event->Bytes_0),
                ..self
            }.count(),
            (OpenPhase::Clock, io::EventView::Time(now)) => (
                OpenView { phase: OpenPhase::Persist, now, ..self },
                io::StepView::Do(io::ActionView::WriteHead { bytes: head::head_bytes(self.head) }),
            ),
            (OpenPhase::Persist, io::EventView::Performed) => (
                self.in_phase(OpenPhase::Over),
                io::StepView::Done(self.log()),
            ),
            _ => (self.in_phase(OpenPhase::Over), io::StepView::Failed),
        }
    }

    /// Once the files were listed there is a segment, and the one that is
    /// looked at exists.
    pub open spec fn wf(self) -> bool {
        &&& self.scan.wf()
        &&& self.phase != OpenPhase::Start && self.phase != OpenPhase::List ==> self.segs.len() > 0
        &&& self.phase == OpenPhase::Unlink || self.phase == OpenPhase::Measure || self.phase
            == OpenPhase::Count ==> self.at < self.segs.len()
    }
}

impl Open {
    /// Opens a log whose segments are to be rolled at `segment_bytes` and
    /// whose appends are synced once per `fsync_interval` nanoseconds.
    pub fn new(segment_bytes: u64, fsync_interval: u128) -> (op: Open)
        ensures
            op@ == OpenView::start(segment_bytes, fsync_interval),
            op@.wf(),
    {
        let origin: Pos = Pos { seg: 0, off: 0 };
        Open {
            phase: OpenPhase::Start,
            segment_bytes,
            fsync_interval,
            segs: Vec::new(),
            persisted: None,
            tail: origin,
            head: origin,
            at: 0,
            unread: 0,
            scan: Scan::new(0, 0),
            now: 0,
        }
    }

    fn scan_tail(&mut self) -> (step: Step<SegmentedLog>)
        requires
            old(self).scan.wf(),
            old(self).segs@.len() > 0,
            old(self).phase == OpenPhase::Tail || old(self).phase == OpenPhase::TailScan,
        ensures
            (final(self)@, step@) == old(self)@.scan_tail(),
            final(self)@.wf(),
    {
        match self.scan.next() {
            Some(len) => {
                self.phase = OpenPhase::TailScan;
                Step::Do(Action::Read { seg: self.tail.seg, off: self.scan.off, len })
            },
            None => {
                self.tail = Pos { seg: self.tail.seg, off: self.scan.off };
                if self.scan.off < self.scan.to {
                    self.phase = OpenPhase::Truncate;
                    Step::Do(Action::Truncate { seg: self.tail.seg, len: self.scan.off })
                } else {
                    self.place()
                }
            },
        }
    }

    fn place(&mut self) -> (step: Step<SegmentedLog>)
        requires
            old(self).scan.wf(),
            old(self).segs@.len() > 0,
        ensures
            (final(self)@, step@) == old(self)@.place(),
            final(self)@.wf(),
    {
        self.head = place_head(self.persisted, self.segs[0], self.tail);
        self.at = 0;
        self.unlink()
    }

    fn unlink(&mut self) -> (step: Step<SegmentedLog>)
        requires
            old(self).scan.wf(),
            old(self).segs@.len() > 0,
        ensures
            (final(self)@, step@) == old(self)@.unlink(),
            final(self)@.wf(),
    {
        if self.at < self.segs.len() && self.segs[self.at] < self.head.seg {
            self.phase = OpenPhase::Unlink;
            Step::Do(Action::Remove { seg: self.segs[self.at] })
        } else {
            self.measure()
        }
    }

    fn measure(&mut self) -> (step: Step<SegmentedLog>)
        requires
            old(self).scan.wf(),
            old(self).segs@.len() > 0,
        ensures
            (final(self)@, step@) == old(self)@.measure(),
            final(self)@.wf(),
    {
        if self.at < self.segs.len() {
            self.phase = OpenPhase::Measure;
            Step::Do(Action::Measure { seg: self.segs[self.at] })
        } else {
            self.phase = OpenPhase::Clock;
            Step::Do(Action::Now)
        }
    }

    fn count(&mut self) -> (step: Step<SegmentedLog>)
        requires
            old(self).scan.wf(),
            old(self).at < old(self).segs@.len(),
        ensures
            (final(self)@, step@) == old(self)@.count(),
            final(self)@.wf(),
    {
        match self.scan.next() {
            Some(len) => {
                self.phase = OpenPhase::Count;
                Step::Do(Action::Read { seg: self.segs[self.at], off: self.scan.off, len })
            },
            None => {
                assert(self.at < self.segs.len());
                self.at = self.at + 1;
                self.unread = self.unread.saturating_add(self.scan.count);
                self.measure()
            },
        }
    }

    fn fail(&mut self) -> (step: Step<SegmentedLog>)
        requires
            old(self)@.wf(),
        ensures
            final(self)@.phase == OpenPhase::Over,
            step@ == io::StepView::<SegmentedLog>::Failed,
    {
        self.phase = OpenPhase::Over;
        Step::Failed
    }

    /// Takes in the answer to the last action and says what to do next. A
    /// segment that cannot be unlinked is only wasted space; any other action
    /// that fails ends the opening.
    pub fn step(&mut self, event: Event) -> (step: Step<SegmentedLog>)
        requires
            old(self)@.wf(),
        ensures
            ({
                let (op, want) = old(self)@.step(event@);
                &&& step@ == want
                &&& step@ is Do ==> final(self)@ == op && final(self)@.wf()
                &&& !(step@ is Do) ==> final(self)@.phase == OpenPhase::Over
            }),
    {
        match (self.phase, event) {
            (OpenPhase::Start, Event::Start) => {
                self.phase = OpenPhase::List;
                Step::Do(Action::List)
            },
            (OpenPhase::List, Event::Names(all)) => {
                let mut segs: Vec<u64> = list_segments(&all);
                if segs.len() == 0 {
                    segs.push(0);
                }
                assert(segs@ =~= at_least_one(names::listed(names::names_view(all@))));
                self.segs = segs;
                self.phase = OpenPhase::Head;
                Step::Do(Action::ReadHead)
            },
            (OpenPhase::Head, Event::Bytes(buf)) => {
                let seg: u64 = self.segs[self.segs.len() - 1];
                self.persisted = load_head(buf.as_slice());
                self.tail = Pos { seg, off: 0 };
                self.phase = OpenPhase::Tail;
                Step::Do(Action::OpenTail { seg })
            },
            (OpenPhase::Tail, Event::Length(len)) => {
                self.scan = Scan::new(0, len);
                self.scan_tail()
            },
            (OpenPhase::TailScan, Event::Bytes(buf)) => {
                if self.scan.feed(buf.as_slice()) {
                    self.scan_tail()
                } else {
                    self.fail()
                }
            },
            (OpenPhase::Truncate, Event::Performed) => self.place(),
            (OpenPhase::Unlink, _) => {
                assert(self.at < self.segs.len());
                self.at = self.at + 1;
                self.unlink()
            },
            (OpenPhase::Measure, Event::Length(len)) => {
                let seg: u64 = self.segs[self.at];
                let from: u64 = if seg == self.head.seg {
                    self.head.off
                } else {
                    0
                };
                let to: u64 = if seg == self.tail.seg {
                    self.tail.off
                } else {
                    len
                };
                self.scan = Scan::new(from, to);
                self.count()
            },
            (OpenPhase::Count, Event::Bytes(buf)) => {
                if self.scan.feed(buf.as_slice()) {
                    self.count()
                } else {
                    self.fail()
                }
            },
            (OpenPhase::Clock, Event::Time(now)) => {
                self.now = now;
                self.phase = OpenPhase::Persist;
                Step::Do(Action::WriteHead { bytes: persist_head(self.head) })
            },
            (OpenPhase::Persist, Event::Performed) => {
                self.phase = OpenPhase::Over;
                Step::Done(
                    SegmentedLog {
                        segment_bytes: self.segment_bytes,
                        fsync_interval: self.fsync_interval,
                        writer: self.tail,
                        dirty: false,
                        last_sync: self.now,
                        committed: self.tail,
                        head: self.head,
                        unread: self.unread,
                    },
                )
            },
            _ => self.fail(),
        }
    }
}

} // verus!
