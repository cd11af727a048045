//! The operations of the repository backfill queue, step by step. Whoever
//! drives one performs its actions on the logs of the levels and on the file
//! of marks, decodes the jobs, and hands back the events.

use vstd::prelude::*;

use crate::error::WintermuteError;
use crate::repo;
use crate::repo::{BackfillJob, Entry, Found, Job, Level, Marks, RepoBackfillQueue};

verus! {

/// One thing to do for an operation.
#[derive(Debug)]
pub enum RepoAction {
    /// Read and consume up to `limit` records of the level.
    Read { level: Level, limit: usize },
    /// Read up to `limit` records of the level without consuming them.
    Peek { level: Level, limit: usize },
    /// Visit every unread record of the level.
    Visit { level: Level },
    /// Replace the file of marks.
    Persist { bytes: Vec<u8> },
}

/// The answer to an action.
#[derive(Debug)]
pub enum RepoEvent {
    /// Nothing was asked yet.
    Start,
    /// The records that were read.
    Batch(Vec<Entry>),
    /// The action was performed.
    Performed,
    /// The action failed.
    Failed(WintermuteError),
}

/// What an operation does next.
#[derive(Debug)]
pub enum RepoStep<T> {
    /// Perform the action and hand back the event.
    Do(RepoAction),
    /// The operation succeeded.
    Done(T),
    /// The operation failed.
    Failed(WintermuteError),
}

/// `RepoAction` with its bytes as a sequence.
pub enum RepoActionView {
    Read { level: Level, limit: nat },
    Peek { level: Level, limit: nat },
    Visit { level: Level },
    Persist { bytes: Seq<u8> },
}

/// `RepoEvent` with its records as a sequence.
pub enum RepoEventView {
    Start,
    Batch(Seq<(Seq<u8>, Option<BackfillJob>)>),
    Performed,
    Failed(WintermuteError),
}

impl View for RepoAction {
    type V = RepoActionView;

    open spec fn view(&self) -> RepoActionView {
        match self {
            RepoAction::Read { level, limit } => RepoActionView::Read {
                level: *level,
                limit: *limit as nat,
            },
            RepoAction::Peek { level, limit } => RepoActionView::Peek {
                level: *level,
                limit: *limit as nat,
            },
            RepoAction::Visit { level } => RepoActionView::Visit { level: *level },
            RepoAction::Persist { bytes } => RepoActionView::Persist { bytes: bytes@ },
        }
    }
}

impl View for RepoEvent {
    type V = RepoEventView;

    open spec fn view(&self) -> RepoEventView {
        match self {
            RepoEvent::Start => RepoEventView::Start,
            RepoEvent::Batch(entries) => RepoEventView::Batch(repo::entries_of(entries@)),
            RepoEvent::Performed => RepoEventView::Performed,
            RepoEvent::Failed(error) => RepoEventView::Failed(*error),
        }
    }
}

/// The step asks for `action`.
pub open spec fn asks<T>(step: RepoStep<T>, action: RepoActionView) -> bool {
    step is Do && step->Do_0@ == action
}

/// The step asks for the file of marks to be replaced by `marks`.
pub open spec fn persists<T>(step: RepoStep<T>, marks: Marks) -> bool {
    step is Do && step->Do_0@ is Persist && repo::marks_in(step->Do_0@->Persist_bytes) == Some(
        marks,
    )
}

/// The step ends the operation with the error of the event. An event that
/// answers no action ends it too.
pub open spec fn gives_up<T>(step: RepoStep<T>, event: RepoEventView) -> bool {
    &&& step is Failed
    &&& event is Failed ==> step->Failed_0 == event->Failed_0
    &&& !(event is Failed) ==> step->Failed_0 is Other
}

/// The step for marks that were encoded, or were not.
pub fn persist<T>(encoded: Result<Vec<u8>, WintermuteError>) -> (step: RepoStep<T>)
    ensures
        match encoded {
            Ok(bytes) => step == RepoStep::<T>::Do(RepoAction::Persist { bytes }),
            Err(error) => step == RepoStep::<T>::Failed(error),
        },
{
    match encoded {
        Ok(bytes) => RepoStep::Do(RepoAction::Persist { bytes }),
        Err(error) => RepoStep::Failed(error),
    }
}

fn give_up<T>(event: RepoEvent) -> (step: RepoStep<T>)
    ensures
        gives_up(step, event@),
{
    match event {
        RepoEvent::Failed(error) => RepoStep::Failed(error),
        _ => RepoStep::Failed(WintermuteError::Other("unexpected event".to_owned())),
    }
}

/// What an operation asked for last.
#[derive(Clone, Copy, Debug, PartialEq, Eq, Structural)]
pub enum RepoPhase {
    Start,
    /// Records of a level.
    Level,
    /// The replacement of the file of marks.
    Persist,
    /// Nothing: the operation has ended.
    Over,
}

/// Consumes up to `count` jobs across the three levels, dropping any that an
/// operator cancelled. Gives the jobs and how many were dropped, so that the
/// caller can settle the gauge of the queue.
#[derive(Debug)]
pub struct RepoDequeue {
    pub phase: RepoPhase,
    pub count: usize,
    pub level: Level,
    pub out: Vec<Job>,
    pub dropped: usize,
}

/// `RepoDequeue` with its jobs as a sequence.
#[verifier::ext_equal]
pub struct RepoDequeueView {
    pub phase: RepoPhase,
    pub count: nat,
    pub level: Level,
    pub out: Seq<(Seq<u8>, BackfillJob)>,
    pub dropped: usize,
}

/// What a dequeue does next, but for the bytes of the marks.
pub enum DequeueNext {
    Read { level: Level, limit: nat },
    Persist,
    Done,
    Failed,
}

impl View for RepoDequeue {
    type V = RepoDequeueView;

    open spec fn view(&self) -> RepoDequeueView {
        RepoDequeueView {
            phase: self.phase,
            count: self.count as nat,
            level: self.level,
            out: repo::jobs_of(self.out@),
            dropped: self.dropped,
        }
    }
}

impl RepoDequeueView {
    pub open spec fn start(count: nat) -> RepoDequeueView {
        RepoDequeueView {
            phase: RepoPhase::Start,
            count,
            level: Level::Immediate,
            out: Seq::empty(),
            dropped: 0,
        }
    }

    /// Reads on in the level, unless there are enough jobs.
    pub open spec fn read_more(self) -> (RepoDequeueView, DequeueNext) {
        if self.out.len() < self.count {
            (
                RepoDequeueView { phase: RepoPhase::Level, ..self },
                DequeueNext::Read {
                    level: self.level,
                    limit: (self.count - self.out.len()) as nat,
                },
            )
        } else {
            (RepoDequeueView { phase: RepoPhase::Over, ..self }, DequeueNext::Done)
        }
    }

    /// The dequeue, the marks and what to do next after `event`.
    pub open spec fn step(self, marks: Marks, event: RepoEventView) -> (
        RepoDequeueView,
        Marks,
        DequeueNext,
    ) {
        match (self.phase, event) {
            (RepoPhase::Start, RepoEventView::Start) => {
                let (op, next) = self.read_more();
                (op, marks, next)
            },
            (RepoPhase::Level, RepoEventView::Batch(batch)) => if batch.len() == 0 {
                // The level is empty.
                match self.level.following() {
                    Some(level) => {
                        let (op, next) = RepoDequeueView { level, ..self }.read_more();
                        (op, marks, next)
                    },
                    None => (
                        RepoDequeueView { phase: RepoPhase::Over, ..self },
                        marks,
                        DequeueNext::Done,
                    ),
                }
            } else {
                let d = repo::drained(self.level, batch, marks, batch.len());
                let op = RepoDequeueView {
                    out: self.out + d.out,
                    dropped: repo::at_most_usize(self.dropped + d.dropped),
                    ..self
                };
                if d.changed {
                    (
                        RepoDequeueView { phase: RepoPhase::Persist, ..op },
                        d.marks,
                        DequeueNext::Persist,
                    )
                } else {
                    let (op, next) = op.read_more();
                    (op, d.marks, next)
                }
            },
            (RepoPhase::Persist, RepoEventView::Performed) => {
                let (op, next) = self.read_more();
                (op, marks, next)
            },
            _ => (
                RepoDequeueView { phase: RepoPhase::Over, ..self },
                marks,
                DequeueNext::Failed,
            ),
        }
    }
}

/// `step` does what `next` says.
pub open spec fn dequeues(
    step: RepoStep<(Vec<Job>, usize)>,
    next: DequeueNext,
    op: RepoDequeueView,
    marks: Marks,
    event: RepoEventView,
) -> bool {
    match next {
        DequeueNext::Read { level, limit } => asks(step, RepoActionView::Read { level, limit }),
        DequeueNext::Persist => persists(step, marks),
        DequeueNext::Done => step is Done && repo::jobs_of(step->Done_0.0@) =~= op.out
            && step->Done_0.1 == op.dropped,
        DequeueNext::Failed => gives_up(step, event),
    }
}

/// How a dequeue and the marks stand before and after `event`, and the step
/// that follows.
pub open spec fn dequeue_steps(
    before: RepoDequeueView,
    marks: Marks,
    event: RepoEventView,
    after: RepoDequeueView,
    left: Marks,
    step: RepoStep<(Vec<Job>, usize)>,
) -> bool {
    let (op, now, next) = before.step(marks, event);
    &&& dequeues(step, next, op, now, event)
    &&& left == now
    &&& step is Do ==> after =~= op
    &&& !(step is Do) ==> after.phase == RepoPhase::Over
}

impl RepoDequeue {
    pub fn new(count: usize) -> (op: RepoDequeue)
        ensures
            op@ =~= RepoDequeueView::start(count as nat),
    {
        RepoDequeue {
            phase: RepoPhase::Start,
            count,
            level: Level::Immediate,
            out: Vec::new(),
            dropped: 0,
        }
    }

    fn finish(&mut self) -> (step: RepoStep<(Vec<Job>, usize)>)
        ensures
            step is Done,
            step->Done_0.0 == old(self).out,
            step->Done_0.1 == old(self).dropped,
            final(self).phase == RepoPhase::Over,
    {
        let mut out: Vec<Job> = Vec::new();
        std::mem::swap(&mut out, &mut self.out);
        self.phase = RepoPhase::Over;
        RepoStep::Done((out, self.dropped))
    }

    fn read_more(&mut self) -> (step: RepoStep<(Vec<Job>, usize)>)
        ensures
            ({
                let (op, next) = old(self)@.read_more();
                &&& forall|marks: Marks, event: RepoEventView| #[trigger]
                    dequeues(step, next, op, marks, event)
                &&& step is Do ==> final(self)@ =~= op
                &&& !(step is Do) ==> final(self).phase == RepoPhase::Over
            }),
    {
        assert(self@.out.len() == self.out@.len());
        if self.out.len() < self.count {
            self.phase = RepoPhase::Level;
            RepoStep::Do(
                RepoAction::Read { level: self.level, limit: self.count - self.out.len() },
            )
        } else {
            self.finish()
        }
    }

    /// Takes in the answer to the last action and says what to do next.
    pub fn step(&mut self, queue: &mut RepoBackfillQueue, event: RepoEvent) -> (step: RepoStep<
        (Vec<Job>, usize),
    >)
        requires
            old(queue).wf(),
        ensures
            final(queue).wf(),
            dequeue_steps(
                old(self)@,
                old(queue)@,
                event@,
                final(self)@,
                final(queue)@,
                step,
            ),
    {
        match (self.phase, event) {
            (RepoPhase::Start, RepoEvent::Start) => self.read_more(),
            (RepoPhase::Level, RepoEvent::Batch(batch)) => {
                if batch.len() == 0 {
                    assert(repo::entries_of(batch@).len() == 0);
                    match self.level.next() {
                        Some(level) => {
                            self.level = level;
                            self.read_more()
                        },
                        None => self.finish(),
                    }
                } else {
                    assert(repo::entries_of(batch@).len() == batch@.len());
                    let room: usize = batch.len();
                    let (dropped, changed): (usize, bool) = queue.settle(
                        self.level,
                        batch,
                        room,
                        &mut self.out,
                    );
                    self.dropped = self.dropped.saturating_add(dropped);
                    if changed {
                        let step: RepoStep<(Vec<Job>, usize)> = persist(queue.persist_cancelled());
                        match &step {
                            RepoStep::Do(_) => {
                                self.phase = RepoPhase::Persist;
                            },
                            _ => {
                                self.phase = RepoPhase::Over;
                            },
                        }
                        step
                    } else {
                        self.read_more()
                    }
                }
            },
            (RepoPhase::Persist, RepoEvent::Performed) => self.read_more(),
            (_, event) => {
                self.phase = RepoPhase::Over;
                give_up(event)
            },
        }
    }
}

/// Reads up to `limit` jobs in the order of a dequeue without consuming them.
/// Cancelled jobs are still physically queued, so more is read to fill the
/// limit after leaving them out.
#[derive(Debug)]
pub struct RepoPeek {
    pub phase: RepoPhase,
    pub limit: usize,
    pub level: Level,
    pub out: Vec<Job>,
    /// The marks as they were at the start, less those that were used.
    pub marks: RepoBackfillQueue,
}

/// `RepoPeek` with its jobs as a sequence.
#[verifier::ext_equal]
pub struct RepoPeekView {
    pub phase: RepoPhase,
    pub limit: nat,
    pub level: Level,
    pub out: Seq<(Seq<u8>, BackfillJob)>,
    pub marks: Marks,
}

/// What a peek does next.
pub enum PeekNext {
    Peek { level: Level, limit: nat },
    Done,
    Failed,
}

impl View for RepoPeek {
    type V = RepoPeekView;

    open spec fn view(&self) -> RepoPeekView {
        RepoPeekView {
            phase: self.phase,
            limit: self.limit as nat,
            level: self.level,
            out: repo::jobs_of(self.out@),
            marks: self.marks@,
        }
    }
}

impl RepoPeekView {
    pub open spec fn start(limit: nat, marks: Marks) -> RepoPeekView {
        RepoPeekView {
            phase: RepoPhase::Start,
            limit,
            level: Level::Immediate,
            out: Seq::empty(),
            marks,
        }
    }

    /// Looks at the level, unless there are enough jobs.
    pub open spec fn look(self) -> (RepoPeekView, PeekNext) {
        if self.out.len() < self.limit {
            let extra = repo::at_most_usize(self.marks.total() as int);
            (
                RepoPeekView { phase: RepoPhase::Level, ..self },
                PeekNext::Peek {
                    level: self.level,
                    limit: repo::at_most_usize(self.limit - self.out.len() + extra) as nat,
                },
            )
        } else {
            (RepoPeekView { phase: RepoPhase::Over, ..self }, PeekNext::Done)
        }
    }

    /// The peek and what to do next after `event`.
    pub open spec fn step(self, event: RepoEventView) -> (RepoPeekView, PeekNext) {
        match (self.phase, event) {
            (RepoPhase::Start, RepoEventView::Start) => self.look(),
            (RepoPhase::Level, RepoEventView::Batch(batch)) => {
                let room = if self.out.len() < self.limit {
                    (self.limit - self.out.len()) as nat
                } else {
                    0
                };
                let d = repo::drained(self.level, batch, self.marks, room);
                let op = RepoPeekView { out: self.out + d.out, marks: d.marks, ..self };
                match self.level.following() {
                    Some(level) => RepoPeekView { level, ..op }.look(),
                    None => (RepoPeekView { phase: RepoPhase::Over, ..op }, PeekNext::Done),
                }
            },
            _ => (RepoPeekView { phase: RepoPhase::Over, ..self }, PeekNext::Failed),
        }
    }
}

/// `step` does what `next` says.
pub open spec fn peeks(
    step: RepoStep<Vec<Job>>,
    next: PeekNext,
    op: RepoPeekView,
    event: RepoEventView,
) -> bool {
    match next {
        PeekNext::Peek { level, limit } => asks(step, RepoActionView::Peek { level, limit }),
        PeekNext::Done => step is Done && repo::jobs_of(step->Done_0@) =~= op.out,
        PeekNext::Failed => gives_up(step, event),
    }
}

/// How a peek stands before and after `event`, and the step that follows.
pub open spec fn peek_steps(
    before: RepoPeekView,
    event: RepoEventView,
    after: RepoPeekView,
    step: RepoStep<Vec<Job>>,
) -> bool {
    let (op, next) = before.step(event);
    &&& peeks(step, next, op, event)
    &&& step is Do ==> after =~= op
    &&& !(step is Do) ==> after.phase == RepoPhase::Over
}

impl RepoPeek {
    /// A peek at the jobs that `queue` lets through.
    pub fn new(limit: usize, queue: &RepoBackfillQueue) -> (op: RepoPeek)
        requires
            queue.wf(),
        ensures
            op@ =~= RepoPeekView::start(limit as nat, queue@),
            op.marks.wf(),
    {
        RepoPeek {
            phase: RepoPhase::Start,
            limit,
            level: Level::Immediate,
            out: Vec::new(),
            marks: queue.copied(),
        }
    }

    fn finish(&mut self) -> (step: RepoStep<Vec<Job>>)
        ensures
            step is Done,
            step->Done_0 == old(self).out,
            final(self).phase == RepoPhase::Over,
            final(self).marks == old(self).marks,
    {
        let mut out: Vec<Job> = Vec::new();
        std::mem::swap(&mut out, &mut self.out);
        self.phase = RepoPhase::Over;
        RepoStep::Done(out)
    }

    fn look(&mut self) -> (step: RepoStep<Vec<Job>>)
        requires
            old(self).marks.wf(),
        ensures
            final(self).marks.wf(),
            ({
                let (op, next) = old(self)@.look();
                &&& forall|event: RepoEventView| #[trigger] peeks(step, next, op, event)
                &&& step is Do ==> final(self)@ =~= op
                &&& !(step is Do) ==> final(self).phase == RepoPhase::Over
            }),
    {
        assert(self@.out.len() == self.out@.len());
        if self.out.len() < self.limit {
            self.phase = RepoPhase::Level;
            let extra: usize = self.marks.total();
            let limit: usize = (self.limit - self.out.len()).saturating_add(extra);
            RepoStep::Do(RepoAction::Peek { level: self.level, limit })
        } else {
            self.finish()
        }
    }

    /// Takes in the answer to the last action and says what to do next.
    pub fn step(&mut self, event: RepoEvent) -> (step: RepoStep<Vec<Job>>)
        requires
            old(self).marks.wf(),
        ensures
            final(self).marks.wf(),
            peek_steps(old(self)@, event@, final(self)@, step),
    {
        match (self.phase, event) {
            (RepoPhase::Start, RepoEvent::Start) => self.look(),
            (RepoPhase::Level, RepoEvent::Batch(batch)) => {
                assert(self@.out.len() == self.out@.len());
                let room: usize = self.limit.saturating_sub(self.out.len());
                let _ = self.marks.settle(self.level, batch, room, &mut self.out);
                match self.level.next() {
                    Some(level) => {
                        self.level = level;
                        self.look()
                    },
                    None => self.finish(),
                }
            },
            (_, event) => {
                self.phase = RepoPhase::Over;
                give_up(event)
            },
        }
    }
}

/// Marks every queued job of one identifier as removed. Gives how many were
/// not marked before.
#[derive(Debug)]
pub struct RepoRemove {
    pub phase: RepoPhase,
    pub did: String,
    pub level: Level,
    /// Queued jobs of the identifier that were seen.
    pub found: Found,
    /// Those of them that were not marked before.
    pub newly: usize,
}

/// `RepoRemove` with its identifier as a sequence.
#[verifier::ext_equal]
pub struct RepoRemoveView {
    pub phase: RepoPhase,
    pub did: Seq<char>,
    pub level: Level,
    pub found: Found,
    pub newly: usize,
}

/// What a removal does next, but for the bytes of the marks.
pub enum RemoveNext {
    Visit { level: Level },
    Persist,
    Done,
    Failed,
}

impl View for RepoRemove {
    type V = RepoRemoveView;

    open spec fn view(&self) -> RepoRemoveView {
        RepoRemoveView {
            phase: self.phase,
            did: self.did@,
            level: self.level,
            found: self.found,
            newly: self.newly,
        }
    }
}

impl RepoRemoveView {
    pub open spec fn start(did: Seq<char>) -> RepoRemoveView {
        RepoRemoveView {
            phase: RepoPhase::Start,
            did,
            level: Level::Immediate,
            found: Found { immediate: 0, priority: 0, normal: 0 },
            newly: 0,
        }
    }

    /// The removal after it saw a record of the level that it visits.
    pub open spec fn saw(self, job: Option<BackfillJob>) -> RepoRemoveView {
        if job is Some && job->0.did@ == self.did {
            let more = repo::at_most_usize(self.found.at(self.level) + 1);
            RepoRemoveView {
                found: match self.level {
                    Level::Immediate => Found { immediate: more, ..self.found },
                    Level::Priority => Found { priority: more, ..self.found },
                    Level::Normal => Found { normal: more, ..self.found },
                },
                ..self
            }
        } else {
            self
        }
    }

    /// Marks what was seen in its levels, unless all of it is.
    pub open spec fn mark(self, marks: Marks) -> (
        RepoRemoveView,
        Marks,
        RemoveNext,
    ) {
        let newly = repo::unmarked(marks, self.did, self.found);
        if newly > 0 || marks.bare.contains_key(self.did) {
            (
                RepoRemoveView { phase: RepoPhase::Persist, newly, ..self },
                repo::all_marked(marks, self.did, self.found),
                RemoveNext::Persist,
            )
        } else {
            (RepoRemoveView { phase: RepoPhase::Over, newly, ..self }, marks, RemoveNext::Done)
        }
    }

    /// The removal, the marks and what to do next after `event`.
    pub open spec fn step(self, marks: Marks, event: RepoEventView) -> (
        RepoRemoveView,
        Marks,
        RemoveNext,
    ) {
        match (self.phase, event) {
            (RepoPhase::Start, RepoEventView::Start) => (
                RepoRemoveView { phase: RepoPhase::Level, ..self },
                marks,
                RemoveNext::Visit { level: self.level },
            ),
            (RepoPhase::Level, RepoEventView::Performed) => match self.level.following() {
                Some(level) => (
                    RepoRemoveView { level, ..self },
                    marks,
                    RemoveNext::Visit { level },
                ),
                None => self.mark(marks),
            },
            (RepoPhase::Persist, RepoEventView::Performed) => (
                RepoRemoveView { phase: RepoPhase::Over, ..self },
                marks,
                RemoveNext::Done,
            ),
            _ => (
                RepoRemoveView { phase: RepoPhase::Over, ..self },
                marks,
                RemoveNext::Failed,
            ),
        }
    }
}

/// `step` does what `next` says.
pub open spec fn removes(
    step: RepoStep<usize>,
    next: RemoveNext,
    op: RepoRemoveView,
    marks: Marks,
    event: RepoEventView,
) -> bool {
    match next {
        RemoveNext::Visit { level } => asks(step, RepoActionView::Visit { level }),
        RemoveNext::Persist => persists(step, marks),
        RemoveNext::Done => step == RepoStep::Done(op.newly),
        RemoveNext::Failed => gives_up(step, event),
    }
}

/// How a removal and the marks stand before and after `event`, and the step
/// that follows.
pub open spec fn remove_steps(
    before: RepoRemoveView,
    marks: Marks,
    event: RepoEventView,
    after: RepoRemoveView,
    left: Marks,
    step: RepoStep<usize>,
) -> bool {
    let (op, now, next) = before.step(marks, event);
    &&& removes(step, next, op, now, event)
    &&& left == now
    &&& step is Do ==> after =~= op
    &&& !(step is Do) ==> after.phase == RepoPhase::Over
}

impl RepoRemove {
    pub fn new(did: String) -> (op: RepoRemove)
        ensures
            op@ =~= RepoRemoveView::start(did@),
    {
        RepoRemove {
            phase: RepoPhase::Start,
            did,
            level: Level::Immediate,
            found: Found { immediate: 0, priority: 0, normal: 0 },
            newly: 0,
        }
    }

    /// Takes in a record of the level that is visited.
    pub fn see(&mut self, job: &Option<BackfillJob>)
        ensures
            final(self)@ =~= old(self)@.saw(*job),
    {
        match job {
            Some(job) => {
                if job.did == self.did {
                    match self.level {
                        Level::Immediate => {
                            self.found.immediate = self.found.immediate.saturating_add(1);
                        },
                        Level::Priority => {
                            self.found.priority = self.found.priority.saturating_add(1);
                        },
                        Level::Normal => {
                            self.found.normal = self.found.normal.saturating_add(1);
                        },
                    }
                }
            },
            None => {},
        }
    }

    /// Takes in the answer to the last action and says what to do next.
    pub fn step(&mut self, queue: &mut RepoBackfillQueue, event: RepoEvent) -> (step: RepoStep<
        usize,
    >)
        requires
            old(queue).wf(),
        ensures
            final(queue).wf(),
            remove_steps(
                old(self)@,
                old(queue)@,
                event@,
                final(self)@,
                final(queue)@,
                step,
            ),
    {
        match (self.phase, event) {
            (RepoPhase::Start, RepoEvent::Start) => {
                self.phase = RepoPhase::Level;
                RepoStep::Do(RepoAction::Visit { level: self.level })
            },
            (RepoPhase::Level, RepoEvent::Performed) => {
                match self.level.next() {
                    Some(level) => {
                        self.level = level;
                        RepoStep::Do(RepoAction::Visit { level })
                    },
                    None => {
                        self.newly = queue.unmarked(self.did.as_str(), &self.found);
                        if self.newly > 0 || queue.bare.get(self.did.as_str()).is_some() {
                            queue.mark(self.did.as_str(), &self.found);
                            let step: RepoStep<usize> = persist(queue.persist_cancelled());
                            match &step {
                                RepoStep::Do(_) => {
                                    self.phase = RepoPhase::Persist;
                                },
                                _ => {
                                    self.phase = RepoPhase::Over;
                                },
                            }
                            step
                        } else {
                            self.phase = RepoPhase::Over;
                            RepoStep::Done(self.newly)
                        }
                    },
                }
            },
            (RepoPhase::Persist, RepoEvent::Performed) => {
                self.phase = RepoPhase::Over;
                RepoStep::Done(self.newly)
            },
            (_, event) => {
                self.phase = RepoPhase::Over;
                give_up(event)
            },
        }
    }
}

/// Records that are read at once to clear a level.
pub const CLEAR_BATCH: usize = 4096;

/// Drops every queued job. Gives how many were not cancelled.
#[derive(Clone, Copy, Debug, PartialEq, Eq, Structural)]
pub struct RepoClear {
    pub phase: RepoPhase,
    pub level: Level,
    pub live: usize,
}

/// What clearing does next, but for the bytes of the marks.
pub enum ClearNext {
    Read { level: Level },
    Persist,
    Done,
    Failed,
}

/// How clearing and the marks stand before and after `event`, and the step
/// that follows.
pub open spec fn clear_steps(
    before: RepoClear,
    marks: Marks,
    event: RepoEventView,
    after: RepoClear,
    left: Marks,
    step: RepoStep<usize>,
) -> bool {
    let (op, now, next) = before.next(marks, event);
    &&& match next {
        ClearNext::Read { level } => asks(
            step,
            RepoActionView::Read { level, limit: CLEAR_BATCH as nat },
        ),
        ClearNext::Persist => persists(step, now),
        ClearNext::Done => step == RepoStep::Done(op.live),
        ClearNext::Failed => gives_up(step, event),
    }
    &&& left =~= now
    &&& step is Do ==> after == op
    &&& !(step is Do) ==> after.phase == RepoPhase::Over
}

impl RepoClear {
    /// The clearing, the marks and what to do next after `event`.
    pub open spec fn next(self, marks: Marks, event: RepoEventView) -> (
        RepoClear,
        Marks,
        ClearNext,
    ) {
        match (self.phase, event) {
            (RepoPhase::Start, RepoEventView::Start) => (
                RepoClear { phase: RepoPhase::Level, ..self },
                marks,
                ClearNext::Read { level: self.level },
            ),
            (RepoPhase::Level, RepoEventView::Batch(batch)) => if batch.len() > 0 {
                (self, marks, ClearNext::Read { level: self.level })
            } else {
                match self.level.following() {
                    Some(level) => (
                        RepoClear { level, ..self },
                        marks,
                        ClearNext::Read { level },
                    ),
                    None => (
                        RepoClear { phase: RepoPhase::Persist, ..self },
                        Marks::none(),
                        ClearNext::Persist,
                    ),
                }
            },
            (RepoPhase::Persist, RepoEventView::Performed) => (
                RepoClear { phase: RepoPhase::Over, ..self },
                marks,
                ClearNext::Done,
            ),
            _ => (RepoClear { phase: RepoPhase::Over, ..self }, marks, ClearNext::Failed),
        }
    }

    /// Clears a queue with `live` jobs.
    pub fn new(live: usize) -> (op: RepoClear)
        ensures
            op == (RepoClear { phase: RepoPhase::Start, level: Level::Immediate, live }),
    {
        RepoClear { phase: RepoPhase::Start, level: Level::Immediate, live }
    }

    /// Takes in the answer to the last action and says what to do next.
    pub fn step(&mut self, queue: &mut RepoBackfillQueue, event: RepoEvent) -> (step: RepoStep<
        usize,
    >)
        requires
            old(queue).wf(),
        ensures
            final(queue).wf(),
            clear_steps(
                *old(self),
                old(queue)@,
                event@,
                *final(self),
                final(queue)@,
                step,
            ),
    {
        match (self.phase, event) {
            (RepoPhase::Start, RepoEvent::Start) => {
                self.phase = RepoPhase::Level;
                RepoStep::Do(RepoAction::Read { level: self.level, limit: CLEAR_BATCH })
            },
            (RepoPhase::Level, RepoEvent::Batch(batch)) => {
                assert(repo::entries_of(batch@).len() == batch@.len());
                if batch.len() > 0 {
                    return RepoStep::Do(
                        RepoAction::Read { level: self.level, limit: CLEAR_BATCH },
                    );
                }
                match self.level.next() {
                    Some(level) => {
                        self.level = level;
                        RepoStep::Do(RepoAction::Read { level, limit: CLEAR_BATCH })
                    },
                    None => {
                        *queue = RepoBackfillQueue::new();
                        let step: RepoStep<usize> = persist(queue.persist_cancelled());
                        match &step {
                            RepoStep::Do(_) => {
                                self.phase = RepoPhase::Persist;
                            },
                            _ => {
                                self.phase = RepoPhase::Over;
                            },
                        }
                        step
                    },
                }
            },
            (RepoPhase::Persist, RepoEvent::Performed) => {
                self.phase = RepoPhase::Over;
                RepoStep::Done(self.live)
            },
            (_, event) => {
                self.phase = RepoPhase::Over;
                give_up(event)
            },
        }
    }
}

} // verus!
