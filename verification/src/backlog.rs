//! The repository backfill queue over levels in memory, each operation driven
//! to its end.

use vstd::prelude::*;

use crate::error::WintermuteError;
use crate::repo;
use crate::repo::{BackfillJob, Entry, Found, Job, Level, Marks, RepoBackfillQueue};
use crate::repo_ops;
use crate::repo_ops::{
    RepoAction, RepoClear, RepoDequeue, RepoEvent, RepoPeek, RepoPhase, RepoRemove, RepoStep,
};

verus! {

/// The records of the three levels, decoded, in arrival order.
#[derive(Debug)]
pub struct Backlog {
    pub immediate: Vec<Entry>,
    pub priority: Vec<Entry>,
    pub normal: Vec<Entry>,
}

/// Records with their keys.
pub type Records = Seq<(Seq<u8>, Option<BackfillJob>)>;

/// Jobs with the keys under which they are handed out.
pub type Jobs = Seq<(Seq<u8>, BackfillJob)>;

/// `Backlog` with its records as sequences.
#[verifier::ext_equal]
pub struct BacklogView {
    pub immediate: Records,
    pub priority: Records,
    pub normal: Records,
}

impl View for Backlog {
    type V = BacklogView;

    open spec fn view(&self) -> BacklogView {
        BacklogView {
            immediate: repo::entries_of(self.immediate@),
            priority: repo::entries_of(self.priority@),
            normal: repo::entries_of(self.normal@),
        }
    }
}

impl BacklogView {
    /// The records of a level.
    pub open spec fn at(self, level: Level) -> Records {
        match level {
            Level::Immediate => self.immediate,
            Level::Priority => self.priority,
            Level::Normal => self.normal,
        }
    }

    /// How many records there are.
    pub open spec fn size(self) -> nat {
        self.immediate.len() + self.priority.len() + self.normal.len()
    }

    /// The backlog with the records of `later` queued behind its own.
    pub open spec fn followed_by(self, later: BacklogView) -> BacklogView {
        BacklogView {
            immediate: self.immediate + later.immediate,
            priority: self.priority + later.priority,
            normal: self.normal + later.normal,
        }
    }

    /// The backlog with other records in a level.
    pub open spec fn with(self, level: Level, recs: Records) -> BacklogView {
        match level {
            Level::Immediate => BacklogView { immediate: recs, ..self },
            Level::Priority => BacklogView { priority: recs, ..self },
            Level::Normal => BacklogView { normal: recs, ..self },
        }
    }
}

/// What a dequeue hands out and leaves behind.
#[verifier::ext_equal]
pub struct Dequeued {
    pub out: Seq<(Seq<u8>, BackfillJob)>,
    pub dropped: nat,
    pub marks: Marks,
    pub left: BacklogView,
}

/// A dequeue that has taken `so_far` drains the normal level.
pub open spec fn dequeued_normal(so_far: Dequeued, count: nat) -> Dequeued {
    let d = repo::drained(
        Level::Normal,
        so_far.left.normal,
        so_far.marks,
        (count - so_far.out.len()) as nat,
    );
    Dequeued {
        out: so_far.out + d.out,
        dropped: so_far.dropped + d.dropped,
        marks: d.marks,
        left: so_far.left.with(Level::Normal, d.left),
    }
}

/// A dequeue that has taken `so_far` drains the priority level, then what
/// follows.
pub open spec fn dequeued_priority(so_far: Dequeued, count: nat) -> Dequeued {
    let d = repo::drained(
        Level::Priority,
        so_far.left.priority,
        so_far.marks,
        (count - so_far.out.len()) as nat,
    );
    dequeued_normal(
        Dequeued {
            out: so_far.out + d.out,
            dropped: so_far.dropped + d.dropped,
            marks: d.marks,
            left: so_far.left.with(Level::Priority, d.left),
        },
        count,
    )
}

/// A dequeue that has taken `so_far` drains the immediate level, then what
/// follows.
pub open spec fn dequeued_immediate(so_far: Dequeued, count: nat) -> Dequeued {
    let d = repo::drained(
        Level::Immediate,
        so_far.left.immediate,
        so_far.marks,
        (count - so_far.out.len()) as nat,
    );
    dequeued_priority(
        Dequeued {
            out: so_far.out + d.out,
            dropped: so_far.dropped + d.dropped,
            marks: d.marks,
            left: so_far.left.with(Level::Immediate, d.left),
        },
        count,
    )
}

/// A dequeue that has taken `so_far` goes on with `level`.
pub open spec fn dequeued_from(level: Level, so_far: Dequeued, count: nat) -> Dequeued {
    match level {
        Level::Immediate => dequeued_immediate(so_far, count),
        Level::Priority => dequeued_priority(so_far, count),
        Level::Normal => dequeued_normal(so_far, count),
    }
}

/// A dequeue of up to `count` jobs: the three levels in their order, each
/// drained until there are enough jobs.
pub open spec fn dequeued(
    backlog: BacklogView,
    marks: Marks,
    count: nat,
) -> Dequeued {
    dequeued_from(
        Level::Immediate,
        Dequeued { out: Seq::empty(), dropped: 0, marks, left: backlog },
        count,
    )
}

/// With enough jobs, no level is touched.
pub proof fn lemma_enough(level: Level, so_far: Dequeued, count: nat)
    requires
        so_far.out.len() == count,
    ensures
        dequeued_from(level, so_far, count) =~= so_far,
{
    let none = Seq::<(Seq<u8>, BackfillJob)>::empty();
    assert(so_far.out + none =~= so_far.out);
}

/// An empty level hands nothing out.
proof fn lemma_level_empty(level: Level, so_far: Dequeued, count: nat)
    requires
        so_far.out.len() <= count,
        so_far.left.at(level).len() == 0,
    ensures
        dequeued_from(level, so_far, count) =~= match level.following() {
            Some(next) => dequeued_from(next, so_far, count),
            None => so_far,
        },
{
    let none = Seq::<(Seq<u8>, BackfillJob)>::empty();
    assert(so_far.out + none =~= so_far.out);
    assert(so_far.left.with(level, so_far.left.at(level)) =~= so_far.left);
}

/// A batch of a level, then the rest of it.
proof fn lemma_level_batch(level: Level, so_far: Dequeued, count: nat, n: nat)
    requires
        so_far.out.len() + n <= count,
        n <= so_far.left.at(level).len(),
    ensures
        ({
            let batch = so_far.left.at(level).take(n as int);
            let d = repo::drained(level, batch, so_far.marks, batch.len());
            &&& d.out.len() <= n
            &&& dequeued_from(level, so_far, count) =~= dequeued_from(
                level,
                Dequeued {
                    out: so_far.out + d.out,
                    dropped: so_far.dropped + d.dropped,
                    marks: d.marks,
                    left: so_far.left.with(level, so_far.left.at(level).skip(n as int)),
                },
                count,
            )
        }),
{
    let recs = so_far.left.at(level);
    let room = (count - so_far.out.len()) as nat;
    let batch = recs.take(n as int);
    let d = repo::drained(level, batch, so_far.marks, batch.len());
    repo::lemma_drained_parts(level, recs, so_far.marks, room, n);
    repo::lemma_drained_room(level, batch, so_far.marks, room);
    repo::lemma_drained_stops(level, batch, so_far.marks, batch.len());
    let all = repo::drained(level, recs, so_far.marks, room);
    let rest = repo::drained(level, recs.skip(n as int), d.marks, (room - d.out.len()) as nat);
    assert(so_far.out + all.out =~= (so_far.out + d.out) + rest.out);
    assert(so_far.left.with(level, recs.skip(n as int)).with(level, rest.left)
        =~= so_far.left.with(level, rest.left));
}

impl Backlog {
    /// The first records of a level, up to `limit`.
    pub fn peek(&self, level: Level, limit: usize) -> (batch: Vec<Entry>)
        ensures
            repo::entries_of(batch@) =~= first(self@.at(level), limit as nat),
    {
        let recs: &Vec<Entry> = match level {
            Level::Immediate => &self.immediate,
            Level::Priority => &self.priority,
            Level::Normal => &self.normal,
        };
        let n: usize = if limit < recs.len() {
            limit
        } else {
            recs.len()
        };
        let mut batch: Vec<Entry> = Vec::new();
        let mut i: usize = 0;
        while i < n
            invariant
                i <= n <= recs@.len(),
                batch@.len() == i,
                forall|j: int|
                    0 <= j < i ==> (#[trigger] batch@[j]).0@ == recs@[j].0@ && batch@[j].1
                        == recs@[j].1,
            decreases n - i,
        {
            let key: Vec<u8> = vstd::slice::slice_to_vec(recs[i].0.as_slice());
            let job: Option<BackfillJob> = match &recs[i].1 {
                Some(job) => Some(job.clone()),
                None => None,
            };
            batch.push((key, job));
            i = i + 1;
        }
        batch
    }

    /// Takes the first records of a level, up to `limit`.
    pub fn read(&mut self, level: Level, limit: usize) -> (batch: Vec<Entry>)
        ensures
            ({
                let recs = old(self)@.at(level);
                let n = if limit < recs.len() {
                    limit as int
                } else {
                    recs.len() as int
                };
                &&& repo::entries_of(batch@) =~= recs.take(n)
                &&& final(self)@ =~= old(self)@.with(level, recs.skip(n))
            }),
    {
        let mut batch: Vec<Entry> = Vec::new();
        match level {
            Level::Immediate => std::mem::swap(&mut batch, &mut self.immediate),
            Level::Priority => std::mem::swap(&mut batch, &mut self.priority),
            Level::Normal => std::mem::swap(&mut batch, &mut self.normal),
        }
        let ghost all = batch@;
        let n: usize = if limit < batch.len() {
            limit
        } else {
            batch.len()
        };
        let rest: Vec<Entry> = batch.split_off(n);
        proof {
            assert(rest@ =~= all.skip(n as int));
            assert(batch@ =~= all.take(n as int));
            assert(repo::entries_of(rest@) =~= repo::entries_of(all).skip(n as int));
            assert(repo::entries_of(batch@) =~= repo::entries_of(all).take(n as int));
        }
        match level {
            Level::Immediate => {
                self.immediate = rest;
            },
            Level::Priority => {
                self.priority = rest;
            },
            Level::Normal => {
                self.normal = rest;
            },
        }
        batch
    }
}

/// The first records of a level, as a peek of the level gives them.
pub open spec fn first(recs: Records, limit: nat) -> Records {
    if limit < recs.len() {
        recs.take(limit as int)
    } else {
        recs
    }
}

/// The jobs that a peek shows from `level` on, after those in `out`, with
/// `marks` still to use up. It reads as many records of a level as there are
/// jobs to come and marks.
pub open spec fn peeked_from(
    level: Level,
    queue: BacklogView,
    out: Seq<(Seq<u8>, BackfillJob)>,
    marks: Marks,
    limit: nat,
) -> Seq<(Seq<u8>, BackfillJob)>
    decreases 3 - level.number(),
{
    if out.len() >= limit {
        out
    } else {
        let room = (limit - out.len()) as nat;
        let d = repo::drained(level, first(queue.at(level), over_read(room, marks)), marks, room);
        match level.following() {
            Some(next) => peeked_from(next, queue, out + d.out, d.marks, limit),
            None => out + d.out,
        }
    }
}

/// How many records are read to find `room` jobs that `marks` let through.
pub open spec fn over_read(room: nat, marks: Marks) -> nat {
    repo::at_most_usize(room + repo::at_most_usize(marks.total() as int)) as nat
}

/// The jobs that a peek shows.
pub open spec fn peeked(queue: BacklogView, marks: Marks, limit: nat) -> Seq<
    (Seq<u8>, BackfillJob),
> {
    peeked_from(Level::Immediate, queue, Seq::empty(), marks, limit)
}

/// How a peek stands, with the records that answer its last action.
spec fn peeking(
    op: repo_ops::RepoPeekView,
    event: repo_ops::RepoEventView,
    queue: BacklogView,
    goal: Seq<(Seq<u8>, BackfillJob)>,
) -> bool {
    &&& goal == peeked_from(op.level, queue, op.out, op.marks, op.limit)
    &&& match op.phase {
        RepoPhase::Start => event is Start,
        RepoPhase::Level => {
            &&& op.out.len() < op.limit
            &&& event == repo_ops::RepoEventView::Batch(
                first(queue.at(op.level), over_read((op.limit - op.out.len()) as nat, op.marks)),
            )
        },
        _ => false,
    }
}

/// How a dequeue stands, with the batch that answers its last action.
spec fn dequeuing(
    op: repo_ops::RepoDequeueView,
    event: repo_ops::RepoEventView,
    marks: Marks,
    backlog: BacklogView,
    dropped: nat,
    goal: Dequeued,
) -> bool {
    let so_far = Dequeued { out: op.out, dropped, marks, left: backlog };
    &&& op.dropped == repo::at_most_usize(dropped as int)
    &&& op.out.len() <= op.count
    &&& match op.phase {
        RepoPhase::Start => event is Start && dequeued_from(op.level, so_far, op.count) =~= goal,
        RepoPhase::Level => {
            &&& event is Batch
            &&& op.out.len() + event->Batch_0.len() <= op.count
            &&& event->Batch_0.len() == 0 ==> backlog.at(op.level).len() == 0
            &&& dequeued_from(
                op.level,
                Dequeued {
                    left: backlog.with(op.level, event->Batch_0 + backlog.at(op.level)),
                    ..so_far
                },
                op.count,
            ) =~= goal
        },
        RepoPhase::Persist => event is Performed && dequeued_from(op.level, so_far, op.count)
            =~= goal,
        RepoPhase::Over => false,
    }
}

/// Records that a dequeue may still read of the current level, and whether
/// the marks are to be written first.
spec fn dequeue_left(
    op: repo_ops::RepoDequeueView,
    event: repo_ops::RepoEventView,
    backlog: BacklogView,
) -> int {
    let size = backlog.at(op.level).len() as int;
    match op.phase {
        RepoPhase::Start => 2 * size + 1,
        RepoPhase::Level => 2 * (event->Batch_0.len() + size),
        RepoPhase::Persist => 2 * size + 1,
        RepoPhase::Over => 0,
    }
}

/// Jobs that were dropped once the batch was settled.
spec fn dropped_after(
    op: repo_ops::RepoDequeueView,
    event: repo_ops::RepoEventView,
    marks: Marks,
    dropped: nat,
) -> nat {
    if op.phase == RepoPhase::Level {
        let batch = event->Batch_0;
        dropped + repo::drained(op.level, batch, marks, batch.len()).dropped
    } else {
        dropped
    }
}

/// What is known once a dequeue was given the batch that it asked for.
spec fn dequeue_went_on(
    op: repo_ops::RepoDequeueView,
    event: repo_ops::RepoEventView,
    marks: Marks,
    backlog: BacklogView,
    dropped: nat,
    goal: Dequeued,
) -> bool {
    let (op2, marks2, next) = op.step(marks, event);
    let size = backlog.at(op2.level).len();
    let left = dequeue_left(op, event, backlog);
    let so_far = Dequeued {
        out: op2.out,
        dropped: dropped_after(op, event, marks, dropped),
        marks: marks2,
        left: backlog,
    };
    let on = {
        &&& op2.dropped == repo::at_most_usize(so_far.dropped as int)
        &&& op2.count == op.count
        &&& op2.out.len() <= op2.count
        &&& dequeued_from(op2.level, so_far, op2.count) =~= goal
        &&& op2.level == op.level || op2.level.number() > op.level.number()
    };
    match next {
        repo_ops::DequeueNext::Read { level, limit } => {
            &&& on
            &&& op2.phase == RepoPhase::Level
            &&& level == op2.level
            &&& limit == op2.count - op2.out.len()
            &&& limit > 0
            &&& op2.level == op.level ==> 2 * size < left
        },
        repo_ops::DequeueNext::Persist => {
            &&& on
            &&& op2.phase == RepoPhase::Persist
            &&& op2.level == op.level
            &&& 2 * size + 1 < left
        },
        repo_ops::DequeueNext::Done => {
            &&& so_far =~= goal
            &&& op2.dropped == repo::at_most_usize(so_far.dropped as int)
        },
        repo_ops::DequeueNext::Failed => false,
    }
}

/// The batch that a dequeue asked for brings it on.
proof fn lemma_dequeue_goes_on(
    op: repo_ops::RepoDequeueView,
    event: repo_ops::RepoEventView,
    marks: Marks,
    backlog: BacklogView,
    dropped: nat,
    goal: Dequeued,
)
    requires
        dequeuing(op, event, marks, backlog, dropped, goal),
    ensures
        dequeue_went_on(op, event, marks, backlog, dropped, goal),
{
    let (op2, marks2, next) = op.step(marks, event);
    let level = op.level;
    let so_far = Dequeued { out: op.out, dropped, marks, left: backlog };
    let after = Dequeued {
        out: op2.out,
        dropped: dropped_after(op, event, marks, dropped),
        marks: marks2,
        left: backlog,
    };
    if op.phase == RepoPhase::Level {
        let batch = event->Batch_0;
        let full = backlog.with(level, batch + backlog.at(level));
        if batch.len() == 0 {
            assert(batch + backlog.at(level) =~= backlog.at(level));
            assert(full =~= backlog);
            lemma_level_empty(level, so_far, op.count);
            assert(after =~= so_far);
        } else {
            let n = batch.len();
            lemma_level_batch(level, Dequeued { left: full, ..so_far }, op.count, n);
            assert(full.at(level).take(n as int) =~= batch);
            assert(full.at(level).skip(n as int) =~= backlog.at(level));
            assert(full.with(level, backlog.at(level)) =~= backlog);
        }
    }
    if op2.out.len() == op.count {
        lemma_enough(op2.level, after, op.count);
    }
}

/// The batch that is read stands before the rest of its level.
proof fn lemma_dequeue_reads(
    op: repo_ops::RepoDequeueView,
    marks: Marks,
    backlog: BacklogView,
    dropped: nat,
    goal: Dequeued,
    n: int,
)
    requires
        op.phase == RepoPhase::Level,
        op.dropped == repo::at_most_usize(dropped as int),
        op.out.len() + n <= op.count,
        0 <= n <= backlog.at(op.level).len(),
        n == 0 ==> backlog.at(op.level).len() == 0,
        dequeued_from(
            op.level,
            Dequeued { out: op.out, dropped, marks, left: backlog },
            op.count,
        ) =~= goal,
    ensures
        dequeuing(
            op,
            repo_ops::RepoEventView::Batch(backlog.at(op.level).take(n)),
            marks,
            backlog.with(op.level, backlog.at(op.level).skip(n)),
            dropped,
            goal,
        ),
{
    let recs = backlog.at(op.level);
    let rest = backlog.with(op.level, recs.skip(n));
    assert(recs.take(n) + rest.at(op.level) =~= recs);
    assert(rest.with(op.level, recs) =~= backlog);
}

impl RepoBackfillQueue {
    /// Consumes up to `count` jobs across the three levels, dropping any that
    /// an operator cancelled. Returns the jobs and how many were dropped.
    pub fn dequeue(&mut self, backlog: &mut Backlog, count: usize) -> (r: Result<
        (Vec<Job>, usize),
        WintermuteError,
    >)
        requires
            old(self).wf(),
        ensures
            final(self).wf(),
            r is Ok,
            ({
                let d = dequeued(old(backlog)@, old(self)@, count as nat);
                &&& repo::jobs_of(r->Ok_0.0@) =~= d.out
                &&& r->Ok_0.1 == repo::at_most_usize(d.dropped as int)
                &&& final(self)@ == d.marks
                &&& final(backlog)@ == d.left
            }),
    {
        let mut op: RepoDequeue = RepoDequeue::new(count);
        let mut event: RepoEvent = RepoEvent::Start;
        let ghost goal = dequeued(backlog@, self@, count as nat);
        let ghost mut dropped: nat = 0;
        loop
            invariant
                self.wf(),
                dequeuing(op@, event@, self@, backlog@, dropped, goal),
                goal == dequeued(old(backlog)@, old(self)@, count as nat),
            decreases 3 - op.level.number(), dequeue_left(op@, event@, backlog@),
        {
            let ghost rest = backlog@;
            proof {
                lemma_dequeue_goes_on(op@, event@, self@, rest, dropped, goal);
                dropped = dropped_after(op@, event@, self@, dropped);
            }
            match op.step(self, event) {
                RepoStep::Do(action) => {
                    match action {
                        RepoAction::Read { level, limit } => {
                            let batch: Vec<Entry> = backlog.read(level, limit);
                            proof {
                                lemma_dequeue_reads(
                                    op@,
                                    self@,
                                    rest,
                                    dropped,
                                    goal,
                                    batch@.len() as int,
                                );
                                assert(repo::entries_of(batch@).len() == batch@.len());
                            }
                            event = RepoEvent::Batch(batch);
                        },
                        _ => {
                            event = RepoEvent::Performed;
                        },
                    }
                },
                RepoStep::Done(out) => {
                    return Ok(out);
                },
                RepoStep::Failed(error) => {
                    return Err(error);
                },
            }
        }
    }

    /// Reads up to `limit` jobs in the order of a dequeue without consuming
    /// them.
    pub fn peek(&self, backlog: &Backlog, limit: usize) -> (r: Result<Vec<Job>, WintermuteError>)
        requires
            self.wf(),
        ensures
            r is Ok,
            repo::jobs_of(r->Ok_0@) == peeked(backlog@, self@, limit as nat),
    {
        let mut op: RepoPeek = RepoPeek::new(limit, self);
        let mut event: RepoEvent = RepoEvent::Start;
        let ghost goal = peeked(backlog@, self@, limit as nat);
        loop
            invariant
                op.marks.wf(),
                goal == peeked(backlog@, self@, limit as nat),
                peeking(op@, event@, backlog@, goal),
            decreases
                    if op.phase == RepoPhase::Start {
                        1int
                    } else {
                        0
                    },
                    3 - op.level.number(),
        {
            proof {
                reveal_with_fuel(peeked_from, 2);
            }
            match op.step(event) {
                RepoStep::Do(action) => {
                    match action {
                        RepoAction::Peek { level, limit } => {
                            event = RepoEvent::Batch(backlog.peek(level, limit));
                        },
                        _ => {
                            event = RepoEvent::Performed;
                        },
                    }
                },
                RepoStep::Done(out) => {
                    return Ok(out);
                },
                RepoStep::Failed(error) => {
                    return Err(error);
                },
            }
        }
    }

    /// Marks every queued job of `did` as removed. Returns how many were not
    /// marked before.
    pub fn remove_by_did(&mut self, backlog: &Backlog, did: &str) -> (r: Result<
        usize,
        WintermuteError,
    >)
        requires
            old(self).wf(),
        ensures
            final(self).wf(),
            r is Ok,
            r->Ok_0 == newly_removed(backlog@, old(self)@, did@),
            final(self)@ =~= marks_of_removal(backlog@, old(self)@, did@),
    {
        let mut op: RepoRemove = RepoRemove::new(did.to_owned());
        let mut event: RepoEvent = RepoEvent::Start;
        let ghost marks = self@;
        loop
            invariant
                self.wf(),
                marks == old(self)@,
                removing(op@, event@, self@, backlog@, marks, did@),
            decreases remove_left(op@),
        {
            match op.step(self, event) {
                RepoStep::Do(action) => {
                    match action {
                        RepoAction::Visit { level } => {
                            let recs: &Vec<Entry> = match level {
                                Level::Immediate => &backlog.immediate,
                                Level::Priority => &backlog.priority,
                                Level::Normal => &backlog.normal,
                            };
                            let ghost start = op@;
                            let ghost all = backlog@.at(level);
                            let mut i: usize = 0;
                            assert(all.take(0) =~= Seq::empty());
                            while i < recs.len()
                                invariant
                                    i <= recs@.len(),
                                    all == repo::entries_of(recs@),
                                    start.did == did@,
                                    start.level == level,
                                    start.found.at(level) == 0,
                                    op@ == (repo_ops::RepoRemoveView {
                                        found: found_with(
                                            start.found,
                                            level,
                                            repo::at_most_usize(
                                                repo::queued_of(all.take(i as int), did@) as int,
                                            ),
                                        ),
                                        ..start
                                    }),
                                decreases recs@.len() - i,
                            {
                                proof {
                                    let one = seq![all[i as int]];
                                    assert(all.take(i + 1) =~= all.take(i as int) + one);
                                    repo::lemma_queued_parts(all.take(i as int), one, did@);
                                    assert(one.skip(1) =~= Seq::empty());
                                    reveal_with_fuel(repo::queued_of, 2);
                                }
                                op.see(&recs[i].1);
                                i = i + 1;
                            }
                            assert(all.take(i as int) =~= all);
                        },
                        _ => {},
                    }
                    event = RepoEvent::Performed;
                },
                RepoStep::Done(newly) => {
                    return Ok(newly);
                },
                RepoStep::Failed(error) => {
                    return Err(error);
                },
            }
        }
    }

    /// Drops every queued job. Returns how many were not cancelled.
    pub fn clear(&mut self, backlog: &mut Backlog) -> (r: Result<usize, WintermuteError>)
        requires
            old(self).wf(),
        ensures
            final(self).wf(),
            final(self)@ =~= Marks::none(),
            final(backlog)@.immediate.len() == 0,
            final(backlog)@.priority.len() == 0,
            final(backlog)@.normal.len() == 0,
            r is Ok,
            r->Ok_0 == repo::live(
                repo::at_most_usize(old(backlog)@.size() as int),
                repo::at_most_usize(old(self)@.total() as int),
            ),
    {
        assert(backlog@.immediate.len() == backlog.immediate@.len());
        assert(backlog@.priority.len() == backlog.priority@.len());
        assert(backlog@.normal.len() == backlog.normal@.len());
        let live: usize = self.len(
            backlog.immediate.len(),
            backlog.priority.len(),
            backlog.normal.len(),
        );
        let mut op: RepoClear = RepoClear::new(live);
        let mut event: RepoEvent = RepoEvent::Start;
        loop
            invariant
                self.wf(),
                op.live == live,
                live == repo::live(
                    repo::at_most_usize(old(backlog)@.size() as int),
                    repo::at_most_usize(old(self)@.total() as int),
                ),
                clearing(op, event@, self@, backlog@),
            decreases clear_rank(op), clear_left(op, event@, backlog@),
        {
            match op.step(self, event) {
                RepoStep::Do(action) => {
                    match action {
                        RepoAction::Read { level, limit } => {
                            let batch: Vec<Entry> = backlog.read(level, limit);
                            assert(repo::entries_of(batch@).len() == batch@.len());
                            event = RepoEvent::Batch(batch);
                        },
                        _ => {
                            event = RepoEvent::Performed;
                        },
                    }
                },
                RepoStep::Done(live) => {
                    return Ok(live);
                },
                RepoStep::Failed(error) => {
                    return Err(error);
                },
            }
        }
    }
}

/// How many jobs of `did` are queued.
pub open spec fn queued_in(backlog: BacklogView, did: Seq<char>) -> nat {
    repo::queued_of(backlog.immediate, did) + repo::queued_of(backlog.priority, did)
        + repo::queued_of(backlog.normal, did)
}

/// How many jobs of `did` are queued in each level.
pub open spec fn found_in(backlog: BacklogView, did: Seq<char>) -> Found {
    Found {
        immediate: repo::at_most_usize(repo::queued_of(backlog.immediate, did) as int),
        priority: repo::at_most_usize(repo::queued_of(backlog.priority, did) as int),
        normal: repo::at_most_usize(repo::queued_of(backlog.normal, did) as int),
    }
}

/// How many queued jobs of `did` are not marked.
pub open spec fn newly_removed(
    backlog: BacklogView,
    marks: Marks,
    did: Seq<char>,
) -> usize {
    repo::unmarked(marks, did, found_in(backlog, did))
}

/// The marks once all queued jobs of `did` are marked.
pub open spec fn marks_of_removal(
    backlog: BacklogView,
    marks: Marks,
    did: Seq<char>,
) -> Marks {
    if newly_removed(backlog, marks, did) > 0 || marks.bare.contains_key(did) {
        repo::all_marked(marks, did, found_in(backlog, did))
    } else {
        marks
    }
}

/// What was found, with `n` jobs in `level`.
spec fn found_with(found: Found, level: Level, n: usize) -> Found {
    match level {
        Level::Immediate => Found { immediate: n, ..found },
        Level::Priority => Found { priority: n, ..found },
        Level::Normal => Found { normal: n, ..found },
    }
}

/// What was found in the levels up to `level`.
spec fn found_up_to(backlog: BacklogView, level: Level, did: Seq<char>) -> Found {
    let all = found_in(backlog, did);
    match level {
        Level::Immediate => Found { priority: 0, normal: 0, ..all },
        Level::Priority => Found { normal: 0, ..all },
        Level::Normal => all,
    }
}

/// How a removal stands.
spec fn removing(
    op: repo_ops::RepoRemoveView,
    event: repo_ops::RepoEventView,
    now: Marks,
    backlog: BacklogView,
    marks: Marks,
    did: Seq<char>,
) -> bool {
    &&& op.did == did
    &&& match op.phase {
        RepoPhase::Start => op == repo_ops::RepoRemoveView::start(did) && event is Start && now
            == marks,
        RepoPhase::Level => event is Performed && now == marks && op.found == found_up_to(
            backlog,
            op.level,
            did,
        ),
        RepoPhase::Persist => {
            &&& event is Performed
            &&& op.newly == newly_removed(backlog, marks, did)
            &&& now =~= marks_of_removal(backlog, marks, did)
        },
        RepoPhase::Over => false,
    }
}

/// How far a removal is from its end.
spec fn remove_left(op: repo_ops::RepoRemoveView) -> int {
    match op.phase {
        RepoPhase::Start => 5,
        RepoPhase::Level => 4 - op.level.number(),
        _ => 0,
    }
}

/// How clearing stands.
spec fn clearing(
    op: RepoClear,
    event: repo_ops::RepoEventView,
    marks: Marks,
    backlog: BacklogView,
) -> bool {
    &&& op.level != Level::Immediate ==> backlog.immediate.len() == 0
    &&& op.level == Level::Normal ==> backlog.priority.len() == 0
    &&& match op.phase {
        RepoPhase::Start => event is Start && op.level == Level::Immediate,
        RepoPhase::Level => event is Batch && (event->Batch_0.len() == 0 ==> backlog.at(
            op.level,
        ).len() == 0),
        RepoPhase::Persist => {
            &&& event is Performed
            &&& op.level == Level::Normal
            &&& backlog.normal.len() == 0
            &&& marks =~= Marks::none()
        },
        RepoPhase::Over => false,
    }
}

/// The levels that are to be cleared.
spec fn clear_rank(op: RepoClear) -> int {
    match op.phase {
        RepoPhase::Start => 5,
        RepoPhase::Level => 4 - op.level.number(),
        _ => 0,
    }
}

/// Records that are left in the current level.
spec fn clear_left(
    op: RepoClear,
    event: repo_ops::RepoEventView,
    backlog: BacklogView,
) -> int {
    if op.phase == RepoPhase::Level {
        (event->Batch_0.len() + backlog.at(op.level).len()) as int
    } else {
        0
    }
}

} // verus!
