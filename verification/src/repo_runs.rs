//! The operations of the repository backfill queue from their start to their
//! end: what they ask for, and what they leave in the file of marks.

use vstd::prelude::*;

use crate::repo;
use crate::repo::{BackfillJob, Job, Level, Marks};
use crate::repo_ops;
use crate::repo_ops::{
    RepoActionView, RepoClear, RepoDequeueView, RepoEventView, RepoPeekView, RepoPhase,
    RepoRemoveView, RepoStep,
};

verus! {

/// An operation from its start: what it was given, what it asked for, and how
/// it and the marks stood before each step and at the end.
pub struct Run<O, T> {
    pub events: Seq<RepoEventView>,
    pub asked: Seq<RepoStep<T>>,
    pub ops: Seq<O>,
    pub marks: Seq<Marks>,
}

impl<O, T> Run<O, T> {
    /// The run has a step, and each but the last asks for an action.
    pub open spec fn shaped(self) -> bool {
        &&& self.asked.len() > 0
        &&& self.events.len() == self.asked.len()
        &&& self.ops.len() == self.asked.len() + 1
        &&& self.marks.len() == self.asked.len() + 1
        &&& forall|i: int| 0 <= i < self.asked.len() - 1 ==> (#[trigger] self.asked[i]) is Do
    }

    /// Step `i` asks for the file of marks to be replaced.
    pub open spec fn replaces_file(self, i: int) -> bool {
        self.asked[i] is Do && self.asked[i]->Do_0@ is Persist
    }

    /// The marks in the file before step `i`, if it held `file` at the start.
    /// The file changes where its replacement was performed.
    pub open spec fn file_before(self, file: Option<Marks>, i: nat) -> Option<Marks>
        decreases i,
    {
        if i == 0 {
            file
        } else if self.replaces_file(i - 1) && self.events[i as int] is Performed {
            repo::marks_in(self.asked[i - 1]->Do_0@->Persist_bytes)
        } else {
            self.file_before(file, (i - 1) as nat)
        }
    }

    /// The marks in the file at the end.
    pub open spec fn file_after(self, file: Option<Marks>) -> Option<Marks> {
        self.file_before(file, (self.asked.len() - 1) as nat)
    }

    /// Some read of the level found nothing.
    pub open spec fn found_empty(self, level: Level) -> bool {
        exists|i: int|
            0 <= i < self.asked.len() - 1 && #[trigger] reads(self.asked[i], level)
                && self.events[i + 1] is Batch && self.events[i + 1]->Batch_0.len() == 0
    }
}

/// The step asks for records of the level to be read and consumed.
pub open spec fn reads<T>(step: RepoStep<T>, level: Level) -> bool {
    step is Do && step->Do_0@ is Read && step->Do_0@->Read_level == level
}

/// The step asks for the records of the level to be visited.
pub open spec fn visits<T>(step: RepoStep<T>, level: Level) -> bool {
    step is Do && step->Do_0@ == (RepoActionView::Visit { level })
}

/// A dequeue of up to `count` jobs.
pub open spec fn dequeue_runs(
    run: Run<RepoDequeueView, (Vec<Job>, usize)>,
    count: nat,
    marks: Marks,
) -> bool {
    &&& run.shaped()
    &&& run.ops[0] =~= RepoDequeueView::start(count)
    &&& run.marks[0] == marks
    &&& forall|i: int|
        0 <= i < run.asked.len() ==> repo_ops::dequeue_steps(
            run.ops[i],
            run.marks[i],
            #[trigger] run.events[i],
            run.ops[i + 1],
            run.marks[i + 1],
            run.asked[i],
        )
}

/// `b` is the removal `a` after it saw some records.
pub open spec fn may_have_seen(a: RepoRemoveView, b: RepoRemoveView) -> bool {
    a.phase == b.phase && a.did == b.did && a.level == b.level && a.newly == b.newly
}

/// A removal of the jobs of `did`. Between two steps it may see records;
/// `seen` holds the removal as it stood when step `i` was taken.
pub open spec fn remove_runs(
    run: Run<RepoRemoveView, usize>,
    seen: Seq<RepoRemoveView>,
    did: Seq<char>,
    marks: Marks,
) -> bool {
    &&& run.shaped()
    &&& run.ops[0] =~= RepoRemoveView::start(did)
    &&& run.marks[0] == marks
    &&& seen.len() == run.asked.len()
    &&& forall|i: int|
        0 <= i < run.asked.len() ==> may_have_seen(run.ops[i], #[trigger] seen[i])
            && repo_ops::remove_steps(
            seen[i],
            run.marks[i],
            run.events[i],
            run.ops[i + 1],
            run.marks[i + 1],
            run.asked[i],
        )
}

/// A clearing of a queue with `live` jobs.
pub open spec fn clear_runs(run: Run<RepoClear, usize>, live: usize, marks: Marks) -> bool {
    &&& run.shaped()
    &&& run.ops[0] == (RepoClear { phase: RepoPhase::Start, level: Level::Immediate, live })
    &&& run.marks[0] == marks
    &&& forall|i: int|
        0 <= i < run.asked.len() ==> repo_ops::clear_steps(
            run.ops[i],
            run.marks[i],
            #[trigger] run.events[i],
            run.ops[i + 1],
            run.marks[i + 1],
            run.asked[i],
        )
}

/// Draining that used no mark leaves the marks as they were.
proof fn lemma_unchanged(
    level: Level,
    recs: Seq<(Seq<u8>, Option<BackfillJob>)>,
    marks: Marks,
    room: nat,
)
    ensures
        !repo::drained(level, recs, marks, room).changed ==> repo::drained(
            level,
            recs,
            marks,
            room,
        ).marks == marks,
    decreases recs.len(),
{
    if room > 0 && recs.len() > 0 {
        let rest = recs.skip(1);
        match recs[0].1 {
            None => lemma_unchanged(level, rest, marks, room),
            Some(job) => if !marks.stand_for(level, job.did@) {
                lemma_unchanged(level, rest, marks, (room - 1) as nat);
            },
        }
    }
}

/// A step of a dequeue changes the marks only where it asks for them to be
/// written.
proof fn lemma_dequeue_step(op: RepoDequeueView, marks: Marks, event: RepoEventView)
    ensures
        op.step(marks, event).1 == marks || op.step(marks, event).2 is Persist,
{
    if event is Batch {
        let batch = event->Batch_0;
        lemma_unchanged(op.level, batch, marks, batch.len());
    }
}

/// How a dequeue and the file of marks stand before step `n`.
proof fn lemma_dequeue_file(
    run: Run<RepoDequeueView, (Vec<Job>, usize)>,
    count: nat,
    marks: Marks,
    n: nat,
)
    requires
        dequeue_runs(run, count, marks),
        n < run.asked.len(),
    ensures
        run.ops[n as int].phase != RepoPhase::Over,
        n > 0 && run.replaces_file(n - 1) <==> run.ops[n as int].phase == RepoPhase::Persist,
        n > 0 && run.replaces_file(n - 1) ==> repo::marks_in(
            run.asked[n - 1]->Do_0@->Persist_bytes,
        ) == Some(run.marks[n as int]),
        !(n > 0 && run.replaces_file(n - 1)) ==> run.file_before(Some(marks), n) == Some(
            run.marks[n as int],
        ),
    decreases n,
{
    if n > 0 {
        let m = (n - 1) as nat;
        lemma_dequeue_file(run, count, marks, m);
        lemma_dequeue_step(run.ops[m as int], run.marks[m as int], run.events[m as int]);
        assert(run.asked[m as int] is Do);
        assert(repo_ops::dequeue_steps(
            run.ops[m as int],
            run.marks[m as int],
            run.events[m as int],
            run.ops[m as int + 1],
            run.marks[m as int + 1],
            run.asked[m as int],
        ));
    }
}

/// How a removal and the file of marks stand before step `n`.
proof fn lemma_remove_file(
    run: Run<RepoRemoveView, usize>,
    seen: Seq<RepoRemoveView>,
    did: Seq<char>,
    marks: Marks,
    n: nat,
)
    requires
        remove_runs(run, seen, did, marks),
        n < run.asked.len(),
    ensures
        run.ops[n as int].phase != RepoPhase::Over,
        n > 0 && run.replaces_file(n - 1) <==> run.ops[n as int].phase == RepoPhase::Persist,
        n > 0 && run.replaces_file(n - 1) ==> repo::marks_in(
            run.asked[n - 1]->Do_0@->Persist_bytes,
        ) == Some(run.marks[n as int]),
        !(n > 0 && run.replaces_file(n - 1)) ==> run.file_before(Some(marks), n) == Some(
            run.marks[n as int],
        ),
    decreases n,
{
    if n > 0 {
        let m = (n - 1) as nat;
        lemma_remove_file(run, seen, did, marks, m);
        assert(run.asked[m as int] is Do);
        assert(may_have_seen(run.ops[m as int], seen[m as int]));
    }
}

/// How clearing and the file of marks stand before step `n`.
proof fn lemma_clear_file(run: Run<RepoClear, usize>, live: usize, marks: Marks, n: nat)
    requires
        clear_runs(run, live, marks),
        n < run.asked.len(),
    ensures
        run.ops[n as int].phase != RepoPhase::Over,
        run.ops[n as int].live == live,
        n > 0 && run.replaces_file(n - 1) <==> run.ops[n as int].phase == RepoPhase::Persist,
        n > 0 && run.replaces_file(n - 1) ==> repo::marks_in(
            run.asked[n - 1]->Do_0@->Persist_bytes,
        ) == Some(run.marks[n as int]) && run.marks[n as int] == Marks::none(),
        !(n > 0 && run.replaces_file(n - 1)) ==> run.file_before(Some(marks), n) == Some(
            run.marks[n as int],
        ) && run.marks[n as int] == marks,
    decreases n,
{
    if n > 0 {
        let m = (n - 1) as nat;
        lemma_clear_file(run, live, marks, m);
        assert(run.asked[m as int] is Do);
        assert(repo_ops::clear_steps(
            run.ops[m as int],
            run.marks[m as int],
            run.events[m as int],
            run.ops[m as int + 1],
            run.marks[m as int + 1],
            run.asked[m as int],
        ));
    }
}

/// The file of marks keeps up with a dequeue: if it held the marks before, and
/// the dequeue succeeded, it holds the marks that are left.
pub proof fn law_dequeue_keeps_the_file(
    run: Run<RepoDequeueView, (Vec<Job>, usize)>,
    count: nat,
    marks: Marks,
)
    requires
        dequeue_runs(run, count, marks),
        run.asked.last() is Done,
    ensures
        run.file_after(Some(marks)) == Some(run.marks.last()),
{
    let n = (run.asked.len() - 1) as nat;
    lemma_dequeue_file(run, count, marks, n);
    lemma_dequeue_step(run.ops[n as int], run.marks[n as int], run.events[n as int]);
    assert(repo_ops::dequeue_steps(
        run.ops[n as int],
        run.marks[n as int],
        run.events[n as int],
        run.ops[n as int + 1],
        run.marks[n as int + 1],
        run.asked[n as int],
    ));
}

/// The file of marks keeps up with a removal: if it held the marks before, and
/// the removal succeeded, it holds the marks with those of the removed jobs.
pub proof fn law_removal_keeps_the_file(
    run: Run<RepoRemoveView, usize>,
    seen: Seq<RepoRemoveView>,
    did: Seq<char>,
    marks: Marks,
)
    requires
        remove_runs(run, seen, did, marks),
        run.asked.last() is Done,
    ensures
        run.file_after(Some(marks)) == Some(run.marks.last()),
{
    let n = (run.asked.len() - 1) as nat;
    lemma_remove_file(run, seen, did, marks, n);
    assert(may_have_seen(run.ops[n as int], seen[n as int]));
}

/// Clearing empties the file of marks too: once it succeeded, neither the marks
/// in memory nor those in the file stand for any job, whatever they were
/// before. It gives the number of live jobs that it was told.
pub proof fn law_clearing_empties_the_file(
    run: Run<RepoClear, usize>,
    live: usize,
    marks: Marks,
    file: Option<Marks>,
)
    requires
        clear_runs(run, live, marks),
        run.asked.last() is Done,
    ensures
        run.marks.last() == Marks::none(),
        run.file_after(file) == Some(Marks::none()),
        forall|level: Level, did: Seq<char>| !run.marks.last().stand_for(level, did),
        run.asked.last()->Done_0 == live,
{
    let n = (run.asked.len() - 1) as nat;
    lemma_clear_file(run, live, marks, n);
    assert(repo_ops::clear_steps(
        run.ops[n as int],
        run.marks[n as int],
        run.events[n as int],
        run.ops[n as int + 1],
        run.marks[n as int + 1],
        run.asked[n as int],
    ));
}

/// Levels that clearing has passed before step `n` were found empty.
proof fn lemma_clear_levels(run: Run<RepoClear, usize>, live: usize, marks: Marks, n: nat)
    requires
        clear_runs(run, live, marks),
        n < run.asked.len(),
    ensures
        ({
            let op = run.ops[n as int];
            &&& op.phase == RepoPhase::Start <==> n == 0
            &&& op.phase == RepoPhase::Start ==> op.level == Level::Immediate
            &&& op.phase == RepoPhase::Level ==> reads(run.asked[n - 1], op.level)
            &&& op.level != Level::Immediate ==> run.found_empty(Level::Immediate)
            &&& op.level == Level::Normal ==> run.found_empty(Level::Priority)
            &&& op.phase == RepoPhase::Persist ==> op.level == Level::Normal && run.found_empty(
                Level::Normal,
            )
        }),
    decreases n,
{
    if n > 0 {
        let m = (n - 1) as nat;
        lemma_clear_levels(run, live, marks, m);
        lemma_clear_file(run, live, marks, m);
        assert(run.asked[m as int] is Do);
        assert(repo_ops::clear_steps(
            run.ops[m as int],
            run.marks[m as int],
            run.events[m as int],
            run.ops[m as int + 1],
            run.marks[m as int + 1],
            run.asked[m as int],
        ));
        if m > 0 && run.ops[m as int].phase == RepoPhase::Level {
            assert(reads(run.asked[m - 1], run.ops[m as int].level));
        }
    }
}

/// Clearing reads each level until nothing is left in it: once it succeeded,
/// the last read of every level found the level empty.
pub proof fn law_clearing_reads_everything(
    run: Run<RepoClear, usize>,
    live: usize,
    marks: Marks,
    level: Level,
)
    requires
        clear_runs(run, live, marks),
        run.asked.last() is Done,
    ensures
        run.found_empty(level),
{
    let n = (run.asked.len() - 1) as nat;
    lemma_clear_levels(run, live, marks, n);
    lemma_clear_file(run, live, marks, n);
    assert(repo_ops::clear_steps(
        run.ops[n as int],
        run.marks[n as int],
        run.events[n as int],
        run.ops[n as int + 1],
        run.marks[n as int + 1],
        run.asked[n as int],
    ));
}

/// How a dequeue stands before step `n`: the levels that it has passed were
/// found empty.
proof fn lemma_dequeue_levels(
    run: Run<RepoDequeueView, (Vec<Job>, usize)>,
    count: nat,
    marks: Marks,
    n: nat,
)
    requires
        dequeue_runs(run, count, marks),
        n < run.asked.len(),
    ensures
        ({
            let op = run.ops[n as int];
            &&& op.count == count
            &&& op.phase == RepoPhase::Start <==> n == 0
            &&& op.phase == RepoPhase::Start ==> op.level == Level::Immediate
            &&& op.phase == RepoPhase::Level ==> reads(run.asked[n - 1], op.level)
            &&& op.level != Level::Immediate ==> run.found_empty(Level::Immediate)
            &&& op.level == Level::Normal ==> run.found_empty(Level::Priority)
        }),
    decreases n,
{
    if n > 0 {
        let m = (n - 1) as nat;
        lemma_dequeue_levels(run, count, marks, m);
        lemma_dequeue_file(run, count, marks, m);
        assert(run.asked[m as int] is Do);
        assert(repo_ops::dequeue_steps(
            run.ops[m as int],
            run.marks[m as int],
            run.events[m as int],
            run.ops[m as int + 1],
            run.marks[m as int + 1],
            run.asked[m as int],
        ));
        if m > 0 && run.ops[m as int].phase == RepoPhase::Level {
            assert(reads(run.asked[m - 1], run.ops[m as int].level));
        }
    }
}

/// A dequeue gives fewer jobs than it was asked for only where nothing is left:
/// it found every level empty.
pub proof fn law_short_dequeue_saw_the_end(
    run: Run<RepoDequeueView, (Vec<Job>, usize)>,
    count: nat,
    marks: Marks,
    level: Level,
)
    requires
        dequeue_runs(run, count, marks),
        run.asked.last() is Done,
        run.asked.last()->Done_0.0@.len() < count,
    ensures
        run.found_empty(level),
{
    let n = (run.asked.len() - 1) as nat;
    lemma_dequeue_levels(run, count, marks, n);
    lemma_dequeue_file(run, count, marks, n);
    assert(repo_ops::dequeue_steps(
        run.ops[n as int],
        run.marks[n as int],
        run.events[n as int],
        run.ops[n as int + 1],
        run.marks[n as int + 1],
        run.asked[n as int],
    ));
    assert(repo::jobs_of(run.asked.last()->Done_0.0@).len() == run.asked.last()->Done_0.0@.len());
}

/// A dequeue never reads more records than it has room for jobs, so that it
/// consumes none that it could not hand out.
pub proof fn law_dequeue_reads_what_it_has_room_for(
    op: RepoDequeueView,
    marks: Marks,
    event: RepoEventView,
    after: RepoDequeueView,
    left: Marks,
    step: RepoStep<(Vec<Job>, usize)>,
)
    requires
        repo_ops::dequeue_steps(op, marks, event, after, left, step),
        step is Do,
    ensures
        step->Do_0@ is Read || step->Do_0@ is Persist,
        step->Do_0@ is Read ==> step->Do_0@->Read_limit + after.out.len() == op.count
            && step->Do_0@->Read_limit > 0,
{
}

/// A peek consumes nothing and leaves the file of marks alone: it only asks to
/// look at records. A removal consumes nothing either: it only asks to visit
/// records and to replace the file of marks.
pub proof fn law_looking_consumes_nothing(
    peek: RepoPeekView,
    peek_after: RepoPeekView,
    peek_step: RepoStep<Vec<Job>>,
    removal: RepoRemoveView,
    marks: Marks,
    removal_after: RepoRemoveView,
    left: Marks,
    removal_step: RepoStep<usize>,
    event: RepoEventView,
)
    requires
        repo_ops::peek_steps(peek, event, peek_after, peek_step),
        repo_ops::remove_steps(removal, marks, event, removal_after, left, removal_step),
    ensures
        peek_step is Do ==> peek_step->Do_0@ is Peek,
        removal_step is Do ==> removal_step->Do_0@ is Visit || removal_step->Do_0@ is Persist,
{
}

/// A removal visits every level, in their order, before it marks anything.
pub proof fn law_removal_visits_every_level(
    run: Run<RepoRemoveView, usize>,
    seen: Seq<RepoRemoveView>,
    did: Seq<char>,
    marks: Marks,
)
    requires
        remove_runs(run, seen, did, marks),
        run.asked.last() is Done,
    ensures
        run.asked.len() >= 4,
        visits(run.asked[0], Level::Immediate),
        visits(run.asked[1], Level::Priority),
        visits(run.asked[2], Level::Normal),
        run.marks[3] == marks,
{
    assert(may_have_seen(run.ops[0], seen[0]));
    assert(may_have_seen(run.ops[1], seen[1]));
    assert(may_have_seen(run.ops[2], seen[2]));
}

/// An operation whose action failed ends with that error, and leaves the marks
/// in memory as they were.
pub proof fn law_failed_action_ends_the_operation(
    event: RepoEventView,
    marks: Marks,
    left: Marks,
    dequeue: RepoDequeueView,
    dequeue_after: RepoDequeueView,
    dequeued: RepoStep<(Vec<Job>, usize)>,
    peek: RepoPeekView,
    peek_after: RepoPeekView,
    peeked: RepoStep<Vec<Job>>,
    removal: RepoRemoveView,
    removal_after: RepoRemoveView,
    removed: RepoStep<usize>,
    clearing: RepoClear,
    clearing_after: RepoClear,
    cleared: RepoStep<usize>,
)
    requires
        event is Failed,
    ensures
        repo_ops::dequeue_steps(dequeue, marks, event, dequeue_after, left, dequeued)
            ==> dequeued == RepoStep::<(Vec<Job>, usize)>::Failed(event->Failed_0) && left == marks,
        repo_ops::peek_steps(peek, event, peek_after, peeked) ==> peeked == RepoStep::<
            Vec<Job>,
        >::Failed(event->Failed_0),
        repo_ops::remove_steps(removal, marks, event, removal_after, left, removed) ==> removed
            == RepoStep::<usize>::Failed(event->Failed_0) && left == marks,
        repo_ops::clear_steps(clearing, marks, event, clearing_after, left, cleared) ==> cleared
            == RepoStep::<usize>::Failed(event->Failed_0) && left == marks,
{
}

/// Every change of the marks is written at once: a step that changes them asks
/// for the file to be replaced by the changed marks, before anything else is
/// read or handed out.
pub proof fn law_every_change_of_the_marks_is_written(
    event: RepoEventView,
    marks: Marks,
    left: Marks,
    dequeue: RepoDequeueView,
    dequeue_after: RepoDequeueView,
    dequeued: RepoStep<(Vec<Job>, usize)>,
    removal: RepoRemoveView,
    removal_after: RepoRemoveView,
    removed: RepoStep<usize>,
    clearing: RepoClear,
    clearing_after: RepoClear,
    cleared: RepoStep<usize>,
)
    requires
        left != marks,
    ensures
        repo_ops::dequeue_steps(dequeue, marks, event, dequeue_after, left, dequeued)
            ==> writes(dequeued, left),
        repo_ops::remove_steps(removal, marks, event, removal_after, left, removed) ==> writes(
            removed,
            left,
        ),
        repo_ops::clear_steps(clearing, marks, event, clearing_after, left, cleared) ==> writes(
            cleared,
            left,
        ),
{
    lemma_dequeue_step(dequeue, marks, event);
}

/// The step asks for the file of marks to be replaced by bytes that hold these.
pub open spec fn writes<T>(step: RepoStep<T>, marks: Marks) -> bool {
    step is Do && step->Do_0@ is Persist && repo::marks_in(step->Do_0@->Persist_bytes) == Some(
        marks,
    )
}

} // verus!
