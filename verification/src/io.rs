//! What an operation on a log asks of its directory, and what the directory
//! answers.
//!
//! An operation is driven step by step: it is given the answer to its last
//! action and says what is to be done next. Whoever drives it performs the
//! action and hands back the event.

use vstd::prelude::*;

verus! {

/// One thing to do in the log directory.
#[derive(Debug)]
pub enum Action {
    /// Create the directory if it is missing and name its files.
    List,
    /// Create the head file if it is missing and read its first bytes, as
    /// many of `HEAD_LEN` as it has.
    ReadHead,
    /// Open the segment for writing, creating it if it is missing, and
    /// measure it.
    OpenTail { seg: u64 },
    /// Open the segment for reading and measure it.
    Measure { seg: u64 },
    /// Read exactly `len` bytes of the segment.
    Read { seg: u64, off: u64, len: u64 },
    /// Cut the segment to `len` bytes and sync it.
    Truncate { seg: u64, len: u64 },
    /// Create the segment, which must not exist, and write to it from now on.
    Create { seg: u64 },
    /// Write `bytes` at `off` of the segment.
    Write { seg: u64, off: u64, bytes: Vec<u8> },
    /// Force the segment to disk.
    Sync { seg: u64 },
    /// Unlink the segment. Failure is only wasted space: the next open cleans
    /// up what is left.
    Remove { seg: u64 },
    /// Write `bytes` at the start of the head file.
    WriteHead { bytes: Vec<u8> },
    /// Read the clock, in nanoseconds from some fixed instant.
    Now,
    /// Take the head lock and keep it until the operation ends.
    LockHead,
    /// Let go of the head lock.
    UnlockHead,
    /// Take the writer lock and keep it until the operation ends.
    LockWriter,
    /// Let go of the writer lock.
    UnlockWriter,
}

/// The answer to an action.
#[derive(Debug)]
pub enum Event {
    /// Nothing was asked yet.
    Start,
    /// The action was performed.
    Performed,
    /// The action failed.
    Failed,
    /// The file names of the directory.
    Names(Vec<String>),
    /// The bytes that were read.
    Bytes(Vec<u8>),
    /// The length of the segment.
    Length(u64),
    /// The time.
    Time(u128),
}

/// What an operation does next.
#[derive(Debug)]
pub enum Step<T> {
    /// Perform the action and hand back the event.
    Do(Action),
    /// The operation succeeded.
    Done(T),
    /// The operation failed, since its last action did.
    Failed,
}

/// `Action` with its bytes as sequences.
pub enum ActionView {
    List,
    ReadHead,
    OpenTail { seg: u64 },
    Measure { seg: u64 },
    Read { seg: u64, off: u64, len: u64 },
    Truncate { seg: u64, len: u64 },
    Create { seg: u64 },
    Write { seg: u64, off: u64, bytes: Seq<u8> },
    Sync { seg: u64 },
    Remove { seg: u64 },
    WriteHead { bytes: Seq<u8> },
    Now,
    LockHead,
    UnlockHead,
    LockWriter,
    UnlockWriter,
}

/// `Event` with its bytes and names as sequences.
pub enum EventView {
    Start,
    Performed,
    Failed,
    Names(Seq<Seq<char>>),
    Bytes(Seq<u8>),
    Length(u64),
    Time(u128),
}

/// `Step` with its contents as mathematical values.
pub enum StepView<V> {
    Do(ActionView),
    Done(V),
    Failed,
}

impl View for Action {
    type V = ActionView;

    open spec fn view(&self) -> ActionView {
        match self {
            Action::List => ActionView::List,
            Action::ReadHead => ActionView::ReadHead,
            Action::OpenTail { seg } => ActionView::OpenTail { seg: *seg },
            Action::Measure { seg } => ActionView::Measure { seg: *seg },
            Action::Read { seg, off, len } => ActionView::Read { seg: *seg, off: *off, len: *len },
            Action::Truncate { seg, len } => ActionView::Truncate { seg: *seg, len: *len },
            Action::Create { seg } => ActionView::Create { seg: *seg },
            Action::Write { seg, off, bytes } => ActionView::Write {
                seg: *seg,
                off: *off,
                bytes: bytes@,
            },
            Action::Sync { seg } => ActionView::Sync { seg: *seg },
            Action::Remove { seg } => ActionView::Remove { seg: *seg },
            Action::WriteHead { bytes } => ActionView::WriteHead { bytes: bytes@ },
            Action::Now => ActionView::Now,
            Action::LockHead => ActionView::LockHead,
            Action::UnlockHead => ActionView::UnlockHead,
            Action::LockWriter => ActionView::LockWriter,
            Action::UnlockWriter => ActionView::UnlockWriter,
        }
    }
}

impl View for Event {
    type V = EventView;

    open spec fn view(&self) -> EventView {
        match self {
            Event::Start => EventView::Start,
            Event::Performed => EventView::Performed,
            Event::Failed => EventView::Failed,
            Event::Names(names) => EventView::Names(crate::names::names_view(names@)),
            Event::Bytes(bytes) => EventView::Bytes(bytes@),
            Event::Length(len) => EventView::Length(*len),
            Event::Time(now) => EventView::Time(*now),
        }
    }
}

impl<T: DeepView> View for Step<T> {
    type V = StepView<T::V>;

    open spec fn view(&self) -> StepView<T::V> {
        match self {
            Step::Do(action) => StepView::Do(action@),
            Step::Done(result) => StepView::Done(result.deep_view()),
            Step::Failed => StepView::Failed,
        }
    }
}

} // verus!
