//! The backfill queue over logs in memory, drained to the end.

use vstd::prelude::*;

use crate::backfill;
use crate::backfill::{
    BackfillDrain, DrainAction, DrainEvent, DrainPhase, DrainStep, BACKFILL_SHARDS,
};
use crate::bytes;
use crate::error::WintermuteError;

verus! {

/// The records of the priority log and of the shards, decoded, in arrival
/// order.
#[derive(Debug)]
pub struct Shards<T> {
    pub priority: Vec<(Vec<u8>, Option<T>)>,
    pub shards: Vec<Vec<(Vec<u8>, Option<T>)>>,
}

/// `Shards` with its records as sequences.
#[verifier::ext_equal]
pub struct ShardsView<T> {
    pub priority: Seq<(Seq<u8>, Option<T>)>,
    pub shards: Seq<Seq<(Seq<u8>, Option<T>)>>,
}

impl<T> View for Shards<T> {
    type V = ShardsView<T>;

    open spec fn view(&self) -> ShardsView<T> {
        ShardsView {
            priority: backfill::records_of(self.priority@),
            shards: self.shards@.map_values(
                |log: Vec<(Vec<u8>, Option<T>)>| backfill::records_of(log@),
            ),
        }
    }
}

/// How many records a read of at most `limit` takes.
pub open spec fn reads<T>(log: Seq<(Seq<u8>, Option<T>)>, limit: nat) -> nat {
    if limit < log.len() {
        limit
    } else {
        log.len()
    }
}

/// What a drain gives and leaves behind.
#[verifier::ext_equal]
pub struct Drained<T> {
    pub out: Seq<(Seq<u8>, T)>,
    /// Records that could not be decoded.
    pub dropped: nat,
    pub left: ShardsView<T>,
}

/// A drain that has `so_far` goes on with the shards from `shard` up to `end`.
pub open spec fn drained_from<T>(so_far: Drained<T>, shard: nat, end: nat, limit: nat) -> Drained<T>
    decreases end - shard,
{
    if shard < end && so_far.out.len() < limit {
        let log = so_far.left.shards[shard as int];
        let n = reads(log, (limit - so_far.out.len()) as nat);
        let jobs = backfill::kept(log.take(n as int));
        drained_from(
            Drained {
                out: so_far.out + backfill::tagged(shard, jobs),
                dropped: (so_far.dropped + n - jobs.len()) as nat,
                left: ShardsView {
                    shards: so_far.left.shards.update(shard as int, log.skip(n as int)),
                    ..so_far.left
                },
            },
            shard + 1,
            end,
            limit,
        )
    } else {
        so_far
    }
}

/// A drain of up to `limit` jobs: the priority log first, then the shards of
/// the range in order.
pub open spec fn drained<T>(queue: ShardsView<T>, start: nat, end: nat, limit: nat) -> Drained<T> {
    let n = reads(queue.priority, limit);
    let jobs = backfill::kept(queue.priority.take(n as int));
    drained_from(
        Drained {
            out: backfill::tagged(BACKFILL_SHARDS as nat, jobs),
            dropped: (n - jobs.len()) as nat,
            left: ShardsView { priority: queue.priority.skip(n as int), ..queue },
        },
        start,
        end,
        limit,
    )
}

/// Takes the first records of a log, up to `limit`.
fn read_log<T>(log: &mut Vec<(Vec<u8>, Option<T>)>, limit: usize) -> (batch: Vec<
    (Vec<u8>, Option<T>),
>)
    ensures
        ({
            let recs = backfill::records_of(old(log)@);
            let n = reads(recs, limit as nat) as int;
            &&& backfill::records_of(batch@) =~= recs.take(n)
            &&& backfill::records_of(final(log)@) =~= recs.skip(n)
        }),
{
    let n: usize = if limit < log.len() {
        limit
    } else {
        log.len()
    };
    let ghost all = log@;
    let mut rest: Vec<(Vec<u8>, Option<T>)> = log.split_off(n);
    std::mem::swap(log, &mut rest);
    proof {
        assert(rest@ =~= all.take(n as int));
        assert(log@ =~= all.skip(n as int));
        assert(backfill::records_of(rest@) =~= backfill::records_of(all).take(n as int));
        assert(backfill::records_of(log@) =~= backfill::records_of(all).skip(n as int));
    }
    rest
}

/// How a drain stands, with the batch that answers its last action.
spec fn draining<T>(
    op: backfill::BackfillDrainView<T>,
    event: backfill::DrainEventView<T>,
    queue: ShardsView<T>,
    old_queue: ShardsView<T>,
    dropped: nat,
    start: nat,
    goal: Drained<T>,
) -> bool {
    &&& op.wf()
    &&& op.dropped == backfill::at_most_usize(dropped as int)
    &&& op.end <= queue.shards.len()
    &&& match op.phase {
        DrainPhase::Start => {
            &&& event is Start
            &&& op.out =~= Seq::empty()
            &&& dropped == 0
            &&& op.shard == start
            &&& queue == old_queue
        },
        DrainPhase::Priority => {
            let n = reads(old_queue.priority, op.limit) as int;
            &&& event == backfill::DrainEventView::Batch(old_queue.priority.take(n))
            &&& op.out =~= Seq::empty()
            &&& dropped == 0
            &&& op.shard == start
            &&& queue =~= (ShardsView { priority: old_queue.priority.skip(n), ..old_queue })
        },
        DrainPhase::Shard => {
            let room = (op.limit - op.out.len()) as nat;
            &&& event is Batch
            &&& op.out.len() < op.limit
            &&& exists|before: ShardsView<T>| #[trigger]
                answered(before, op, event, queue) && drained_from(
                    Drained { out: op.out, dropped, left: before },
                    op.shard,
                    op.end,
                    op.limit,
                ) =~= goal
        },
        DrainPhase::Over => false,
    }
}

/// The batch was read of the shard that was asked for.
spec fn answered<T>(
    before: ShardsView<T>,
    op: backfill::BackfillDrainView<T>,
    event: backfill::DrainEventView<T>,
    queue: ShardsView<T>,
) -> bool {
    let log = before.shards[op.shard as int];
    let n = reads(log, (op.limit - op.out.len()) as nat) as int;
    &&& op.shard < before.shards.len()
    &&& event == backfill::DrainEventView::Batch(log.take(n))
    &&& queue =~= (ShardsView {
        shards: before.shards.update(op.shard as int, log.skip(n)),
        ..before
    })
}

/// Jobs that could not be decoded once the batch was taken.
spec fn dropped_after<T>(event: backfill::DrainEventView<T>, dropped: nat) -> nat {
    match event {
        backfill::DrainEventView::Batch(batch) => (dropped + batch.len() - backfill::kept(
            batch,
        ).len()) as nat,
        _ => dropped,
    }
}

/// The batch that a drain asked for brings it on.
proof fn lemma_drain_goes_on<T>(
    op: backfill::BackfillDrainView<T>,
    event: backfill::DrainEventView<T>,
    queue: ShardsView<T>,
    old_queue: ShardsView<T>,
    dropped: nat,
    start: nat,
)
    requires
        draining(
            op,
            event,
            queue,
            old_queue,
            dropped,
            start,
            drained(old_queue, start, op.end, op.limit),
        ),
        op.end <= old_queue.shards.len(),
        op.limit <= usize::MAX,
    ensures
        ({
            let (op2, next) = op.step(event);
            let goal = drained(old_queue, start, op.end, op.limit);
            let so_far = Drained { out: op2.out, dropped: dropped_after(event, dropped), left: queue };
            &&& op2.end == op.end
            &&& op2.limit == op.limit
            &&& op2.dropped == backfill::at_most_usize(so_far.dropped as int)
            &&& match next {
                backfill::DrainNext::Read(action) => {
                    ||| op.phase == DrainPhase::Start && op2.phase == DrainPhase::Priority
                        && op2.out =~= Seq::empty() && op2.shard == start && so_far.dropped == 0
                        && action == (DrainAction::ReadPriority { limit: op.limit as usize })
                    ||| {
                        &&& op2.phase == DrainPhase::Shard
                        &&& op2.shard < op.end
                        &&& op2.out.len() < op.limit
                        &&& op.phase == DrainPhase::Shard ==> op2.shard == op.shard + 1
                        &&& op.phase == DrainPhase::Shard || op.phase == DrainPhase::Priority
                        &&& action == (DrainAction::ReadShard {
                            shard: op2.shard as usize,
                            limit: (op.limit - op2.out.len()) as usize,
                        })
                        &&& drained_from(so_far, op2.shard, op.end, op.limit) =~= goal
                    }
                },
                backfill::DrainNext::Done => so_far =~= goal,
                backfill::DrainNext::Failed => false,
            }
        }),
{
    let goal = drained(old_queue, start, op.end, op.limit);
    let (op2, next) = op.step(event);
    let so_far = Drained { out: op2.out, dropped: dropped_after(event, dropped), left: queue };
    if event is Batch {
        backfill::lemma_kept_len(event->Batch_0);
    }
    if op.phase == DrainPhase::Priority {
        let n = reads(old_queue.priority, op.limit) as int;
        let jobs = backfill::kept(old_queue.priority.take(n));
        let tagged = backfill::tagged(BACKFILL_SHARDS as nat, jobs);
        assert(op.out + tagged =~= tagged);
        assert(so_far =~= Drained {
            out: tagged,
            dropped: (n - jobs.len()) as nat,
            left: ShardsView { priority: old_queue.priority.skip(n), ..old_queue },
        });
        assert(drained_from(so_far, start, op.end, op.limit) == goal);
    } else if op.phase == DrainPhase::Shard {
        let before = choose|before: ShardsView<T>| #[trigger]
            answered(before, op, event, queue) && drained_from(
                Drained { out: op.out, dropped, left: before },
                op.shard,
                op.end,
                op.limit,
            ) =~= goal;
        assert(answered(before, op, event, queue));
        let log = before.shards[op.shard as int];
        let n = reads(log, (op.limit - op.out.len()) as nat);
        let jobs = backfill::kept(log.take(n as int));
        assert(so_far =~= Drained {
            out: op.out + backfill::tagged(op.shard, jobs),
            dropped: (dropped + n - jobs.len()) as nat,
            left: ShardsView {
                shards: before.shards.update(op.shard as int, log.skip(n as int)),
                ..before
            },
        });
        assert(drained_from(so_far, op.shard + 1, op.end, op.limit) == goal);
    }
}

impl<T> Shards<T> {
    /// Drains up to `limit` jobs from the priority log, then from the shards
    /// `start..end` in order. Returns the jobs and how many records could not
    /// be decoded.
    pub fn drain_backfill(&mut self, start: usize, end: usize, limit: usize) -> (r: Result<
        (Vec<(Vec<u8>, T)>, usize),
        WintermuteError,
    >)
        requires
            end <= old(self).shards@.len(),
        ensures
            ({
                let d = drained(old(self)@, start as nat, end as nat, limit as nat);
                &&& r is Ok
                &&& backfill::jobs_of(r->Ok_0.0@) =~= d.out
                &&& r->Ok_0.1 == backfill::at_most_usize(d.dropped as int)
                &&& final(self)@ =~= d.left
            }),
    {
        let mut op: BackfillDrain<T> = BackfillDrain::new(start, end, limit);
        let mut event: DrainEvent<T> = DrainEvent::Start;
        let ghost old_queue = self@;
        let ghost goal = drained(self@, start as nat, end as nat, limit as nat);
        let ghost mut dropped: nat = 0;
        loop
            invariant
                old_queue == old(self)@,
                goal == drained(old_queue, start as nat, end as nat, limit as nat),
                op.end == end,
                op.limit == limit,
                end <= old_queue.shards.len(),
                draining(op@, event@, self@, old_queue, dropped, start as nat, goal),
            decreases
                    if op.phase == DrainPhase::Start {
                        2int
                    } else if op.phase == DrainPhase::Priority {
                        1
                    } else {
                        0
                    },
                    end - op.shard,
        {
            proof {
                lemma_drain_goes_on(op@, event@, self@, old_queue, dropped, start as nat);
                dropped = dropped_after(event@, dropped);
            }
            let ghost before = self@;
            match op.step(event) {
                DrainStep::Do(action) => {
                    match action {
                        DrainAction::ReadPriority { limit } => {
                            event = DrainEvent::Batch(read_log(&mut self.priority, limit));
                            assert(self@.shards =~= before.shards);
                        },
                        DrainAction::ReadShard { shard, limit } => {
                            let mut log: Vec<(Vec<u8>, Option<T>)> = Vec::new();
                            assert(before.shards[shard as int] == backfill::records_of(
                                self.shards@[shard as int]@,
                            ));
                            let ghost all = self.shards@[shard as int]@;
                            std::mem::swap(&mut log, &mut self.shards[shard]);
                            let batch: Vec<(Vec<u8>, Option<T>)> = read_log(&mut log, limit);
                            self.shards.set(shard, log);
                            event = DrainEvent::Batch(batch);
                            proof {
                                let recs = before.shards[shard as int];
                                let n = reads(recs, limit as nat) as int;
                                assert(self@.shards =~= before.shards.update(
                                    shard as int,
                                    recs.skip(n),
                                ));
                                assert(answered(before, op@, event@, self@));
                            }
                        },
                    }
                },
                DrainStep::Done { jobs, dropped } => {
                    return Ok((jobs, dropped));
                },
                DrainStep::Failed(error) => {
                    return Err(error);
                },
            }
        }
    }
}

/// Draining two neighbouring slices one after the other is draining them at
/// once: no job is lost between them and none comes twice.
pub proof fn law_slices_drain_as_one<T>(
    so_far: Drained<T>,
    a: nat,
    b: nat,
    c: nat,
    limit: nat,
)
    requires
        a <= b <= c,
    ensures
        drained_from(so_far, a, c, limit) == drained_from(
            drained_from(so_far, a, b, limit),
            b,
            c,
            limit,
        ),
    decreases b - a,
{
    if a < b && so_far.out.len() < limit {
        let log = so_far.left.shards[a as int];
        let n = reads(log, (limit - so_far.out.len()) as nat);
        let jobs = backfill::kept(log.take(n as int));
        let next = Drained {
            out: so_far.out + backfill::tagged(a, jobs),
            dropped: (so_far.dropped + n - jobs.len()) as nat,
            left: ShardsView {
                shards: so_far.left.shards.update(a as int, log.skip(n as int)),
                ..so_far.left
            },
        };
        law_slices_drain_as_one(next, a + 1, b, c, limit);
    }
}

/// A drain of a slice touches no other shard, keeps to the limit, and adds to
/// what there is.
pub proof fn law_drain_stays_in_its_slice<T>(
    so_far: Drained<T>,
    shard: nat,
    end: nat,
    limit: nat,
)
    requires
        end <= so_far.left.shards.len(),
        so_far.out.len() <= limit,
    ensures
        ({
            let d = drained_from(so_far, shard, end, limit);
            &&& d.left.shards.len() == so_far.left.shards.len()
            &&& d.left.priority == so_far.left.priority
            &&& forall|i: int|
                0 <= i < so_far.left.shards.len() && !(shard <= i < end)
                    ==> #[trigger] d.left.shards[i] == so_far.left.shards[i]
            &&& so_far.out.len() <= d.out.len() <= limit
            &&& d.out.take(so_far.out.len() as int) =~= so_far.out
        }),
    decreases end - shard,
{
    if shard < end && so_far.out.len() < limit {
        let log = so_far.left.shards[shard as int];
        let n = reads(log, (limit - so_far.out.len()) as nat);
        let jobs = backfill::kept(log.take(n as int));
        backfill::lemma_kept_len(log.take(n as int));
        let next = Drained {
            out: so_far.out + backfill::tagged(shard, jobs),
            dropped: (so_far.dropped + n - jobs.len()) as nat,
            left: ShardsView {
                shards: so_far.left.shards.update(shard as int, log.skip(n as int)),
                ..so_far.left
            },
        };
        law_drain_stays_in_its_slice(next, shard + 1, end, limit);
        let d = drained_from(so_far, shard, end, limit);
        assert(d.out.take(so_far.out.len() as int) =~= d.out.take(next.out.len() as int).take(
            so_far.out.len() as int,
        ));
    }
}

/// Every worker drains the priority log first: the priority jobs that are read
/// come before all others, whatever the slice, and while the priority log has
/// readable records left, no shard is read.
pub proof fn law_priority_jobs_first<T>(queue: ShardsView<T>, start: nat, end: nat, limit: nat)
    requires
        end <= queue.shards.len(),
    ensures
        ({
            let d = drained(queue, start, end, limit);
            let n = reads(queue.priority, limit);
            let jobs = backfill::tagged(
                BACKFILL_SHARDS as nat,
                backfill::kept(queue.priority.take(n as int)),
            );
            &&& d.out.len() >= jobs.len()
            &&& d.out.take(jobs.len() as int) =~= jobs
            &&& d.out.len() <= limit
            &&& d.left.priority =~= queue.priority.skip(n as int)
            &&& jobs.len() == n && d.left.priority.len() > 0 ==> d.left.shards == queue.shards
        }),
{
    let n = reads(queue.priority, limit);
    let kept = backfill::kept(queue.priority.take(n as int));
    backfill::lemma_kept_len(queue.priority.take(n as int));
    let so_far = Drained {
        out: backfill::tagged(BACKFILL_SHARDS as nat, kept),
        dropped: (n - kept.len()) as nat,
        left: ShardsView { priority: queue.priority.skip(n as int), ..queue },
    };
    law_drain_stays_in_its_slice(so_far, start, end, limit);
}

/// The jobs of the shards from `a` up to `b`, with their keys within the whole
/// queue.
pub open spec fn jobs_between<T>(
    shards: Seq<Seq<(Seq<u8>, Option<T>)>>,
    a: nat,
    b: nat,
) -> Seq<(Seq<u8>, T)>
    decreases b - a,
{
    if a < b {
        backfill::tagged(a, backfill::kept(shards[a as int])) + jobs_between(shards, a + 1, b)
    } else {
        Seq::empty()
    }
}

/// How many records the shards from `a` up to `b` hold.
pub open spec fn records_between<T>(
    shards: Seq<Seq<(Seq<u8>, Option<T>)>>,
    a: nat,
    b: nat,
) -> nat
    decreases b - a,
{
    if a < b {
        shards[a as int].len() + records_between(shards, a + 1, b)
    } else {
        0
    }
}

/// The shards once those from `a` up to `b` are empty.
pub open spec fn emptied<T>(shards: Seq<Seq<(Seq<u8>, Option<T>)>>, a: nat, b: nat) -> Seq<
    Seq<(Seq<u8>, Option<T>)>,
> {
    Seq::new(
        shards.len(),
        |i: int|
            if a <= i < b {
                Seq::empty()
            } else {
                shards[i]
            },
    )
}

/// What the first `n` of so many workers drain of their slices, one after the
/// other and each up to `limit` jobs: the jobs of all of them, and what is left.
pub open spec fn drained_by<T>(
    queue: ShardsView<T>,
    workers: nat,
    limit: nat,
    n: nat,
) -> Drained<T>
    decreases n,
{
    if n == 0 {
        Drained { out: Seq::empty(), dropped: 0, left: queue }
    } else {
        let before = drained_by(queue, workers, limit, (n - 1) as nat);
        let slice = backfill::slice_of((n - 1) as nat, workers);
        let d = drained(before.left, slice.0 as nat, slice.1 as nat, limit);
        Drained { out: before.out + d.out, dropped: before.dropped + d.dropped, left: d.left }
    }
}

/// No key occurs twice.
pub open spec fn keys_differ<T>(jobs: Seq<(Seq<u8>, T)>) -> bool {
    forall|i: int, j: int|
        0 <= i < j < jobs.len() ==> (#[trigger] jobs[i]).0 != (#[trigger] jobs[j]).0
}

/// Neighbouring shards together.
proof fn lemma_between_parts<T>(
    shards: Seq<Seq<(Seq<u8>, Option<T>)>>,
    a: nat,
    b: nat,
    c: nat,
)
    requires
        a <= b <= c,
    ensures
        jobs_between(shards, a, c) =~= jobs_between(shards, a, b) + jobs_between(shards, b, c),
        records_between(shards, a, c) == records_between(shards, a, b) + records_between(
            shards,
            b,
            c,
        ),
    decreases b - a,
{
    if a < b {
        lemma_between_parts(shards, a + 1, b, c);
    }
}

/// What the shards from `a` up to `b` hold depends on these alone.
proof fn lemma_between_same<T>(
    shards: Seq<Seq<(Seq<u8>, Option<T>)>>,
    other: Seq<Seq<(Seq<u8>, Option<T>)>>,
    a: nat,
    b: nat,
)
    requires
        forall|i: int| a <= i < b ==> #[trigger] shards[i] == other[i],
    ensures
        jobs_between(shards, a, b) == jobs_between(other, a, b),
        records_between(shards, a, b) == records_between(other, a, b),
    decreases b - a,
{
    if a < b {
        assert(shards[a as int] == other[a as int]);
        lemma_between_same(shards, other, a + 1, b);
    }
}

/// A drain with room for all records of its slice takes all of them.
proof fn lemma_drains_all<T>(so_far: Drained<T>, a: nat, b: nat, limit: nat)
    requires
        a <= b <= so_far.left.shards.len(),
        so_far.out.len() + records_between(so_far.left.shards, a, b) <= limit,
    ensures
        ({
            let d = drained_from(so_far, a, b, limit);
            let shards = so_far.left.shards;
            &&& d.out =~= so_far.out + jobs_between(shards, a, b)
            &&& d.dropped == so_far.dropped + records_between(shards, a, b) - jobs_between(
                shards,
                a,
                b,
            ).len()
            &&& d.left.shards =~= emptied(shards, a, b)
            &&& d.left.priority == so_far.left.priority
        }),
    decreases b - a,
{
    let shards = so_far.left.shards;
    if a < b {
        let log = shards[a as int];
        backfill::lemma_kept_len(log);
        assert(log.take(log.len() as int) =~= log);
        if so_far.out.len() < limit {
            let jobs = backfill::kept(log);
            let next = Drained {
                out: so_far.out + backfill::tagged(a, jobs),
                dropped: (so_far.dropped + log.len() - jobs.len()) as nat,
                left: ShardsView {
                    shards: shards.update(a as int, log.skip(log.len() as int)),
                    ..so_far.left
                },
            };
            lemma_between_same(next.left.shards, shards, a + 1, b);
            lemma_drains_all(next, a + 1, b, limit);
            assert(log.skip(log.len() as int) =~= Seq::empty());
            assert(emptied(next.left.shards, a + 1, b) =~= emptied(shards, a, b));
        } else {
            lemma_nothing_between(shards, a, b);
            assert(so_far.out + jobs_between(shards, a, b) =~= so_far.out);
            assert(emptied(shards, a, b) =~= shards);
        }
    } else {
        assert(so_far.out + jobs_between(shards, a, b) =~= so_far.out);
        assert(emptied(shards, a, b) =~= shards);
    }
}

/// Shards without records hold no jobs.
pub proof fn lemma_nothing_between<T>(shards: Seq<Seq<(Seq<u8>, Option<T>)>>, a: nat, b: nat)
    requires
        a <= b <= shards.len(),
        records_between(shards, a, b) == 0,
    ensures
        jobs_between(shards, a, b) =~= Seq::empty(),
        forall|i: int| a <= i < b ==> (#[trigger] shards[i]) =~= Seq::empty(),
    decreases b - a,
{
    if a < b {
        lemma_nothing_between(shards, a + 1, b);
        backfill::lemma_kept_len(shards[a as int]);
    }
}

/// A shard that is kept has its jobs under the keys of its records.
proof fn lemma_kept_keys<T>(recs: Seq<(Seq<u8>, Option<T>)>)
    requires
        forall|i: int, j: int|
            0 <= i < j < recs.len() ==> (#[trigger] recs[i]).0 != (#[trigger] recs[j]).0,
    ensures
        keys_differ(backfill::kept(recs)),
        forall|i: int|
            0 <= i < backfill::kept(recs).len() ==> exists|j: int|
                0 <= j < recs.len() && (#[trigger] backfill::kept(recs)[i]).0 == (
                #[trigger] recs[j]).0,
    decreases recs.len(),
{
    if recs.len() > 0 {
        let less = recs.drop_last();
        assert forall|i: int, j: int| 0 <= i < j < less.len() implies (#[trigger] less[i]).0 != (
        #[trigger] less[j]).0 by {
            assert(recs[i].0 != recs[j].0);
        }
        lemma_kept_keys(less);
        let (few, all) = (backfill::kept(less), backfill::kept(recs));
        let last = recs.len() - 1;
        assert forall|i: int| 0 <= i < all.len() implies exists|j: int|
            0 <= j < recs.len() && (#[trigger] all[i]).0 == (#[trigger] recs[j]).0 by {
            if i < few.len() {
                let j = choose|j: int| 0 <= j < less.len() && few[i].0 == (#[trigger] less[j]).0;
                assert(recs[j] == less[j]);
            } else {
                assert(all[i].0 == recs[last].0);
            }
        }
        assert forall|i: int, j: int| 0 <= i < j < all.len() implies (#[trigger] all[i]).0 != (
        #[trigger] all[j]).0 by {
            if j < few.len() {
                assert(few[i].0 != few[j].0);
            } else {
                let k = choose|k: int| 0 <= k < less.len() && few[i].0 == (#[trigger] less[k]).0;
                assert(recs[k] == less[k]);
                assert(recs[k].0 != recs[last].0);
            }
        }
    }
}

/// Keys of different shards differ, and so do different keys of one.
proof fn lemma_keys_in(a: nat, p: Seq<u8>, b: nat, q: Seq<u8>)
    requires
        a < 65536,
        b < 65536,
        backfill::key_in(a, p) == backfill::key_in(b, q),
    ensures
        a == b,
        p == q,
{
    reveal_with_fuel(bytes::be_bytes, 3);
    let (k, l) = (backfill::key_in(a, p), backfill::key_in(b, q));
    assert(k[0] == (a / 256) % 256 && k[1] == a % 256);
    assert(l[0] == (b / 256) % 256 && l[1] == b % 256);
    assert(k.skip(2) =~= p);
    assert(l.skip(2) =~= q);
}

/// `full` is a key of a shard from `a` up to `b`.
spec fn of_shards(full: Seq<u8>, a: nat, b: nat) -> bool {
    exists|s: nat, key: Seq<u8>| a <= s < b && full == #[trigger] backfill::key_in(s, key)
}

/// The keys of the jobs of shards, whose records have different keys within
/// each shard, differ.
proof fn lemma_between_keys<T>(shards: Seq<Seq<(Seq<u8>, Option<T>)>>, a: nat, b: nat)
    requires
        a <= b <= shards.len(),
        shards.len() <= 65536,
        forall|s: int, i: int, j: int|
            0 <= s < shards.len() && 0 <= i < j < shards[s].len() ==> (#[trigger] shards[s][i]).0
                != (#[trigger] shards[s][j]).0,
    ensures
        keys_differ(jobs_between(shards, a, b)),
        forall|i: int|
            0 <= i < jobs_between(shards, a, b).len() ==> of_shards(
                (#[trigger] jobs_between(shards, a, b)[i]).0,
                a,
                b,
            ),
    decreases b - a,
{
    if a < b {
        lemma_between_keys(shards, a + 1, b);
        let recs = shards[a as int];
        assert forall|i: int, j: int| 0 <= i < j < recs.len() implies (#[trigger] recs[i]).0 != (
        #[trigger] recs[j]).0 by {
            assert(shards[a as int][i].0 != shards[a as int][j].0);
        }
        lemma_kept_keys(recs);
        let kept = backfill::kept(recs);
        let mine = backfill::tagged(a, kept);
        let others = jobs_between(shards, a + 1, b);
        let all = jobs_between(shards, a, b);
        let m = mine.len() as int;
        assert forall|i: int| 0 <= i < all.len() implies of_shards((#[trigger] all[i]).0, a, b) by {
            if i < m {
                assert(all[i].0 == backfill::key_in(a, kept[i].0));
            } else {
                assert(all[i] == others[i - m]);
                assert(of_shards(others[i - m].0, a + 1, b));
                let (s, key) = choose|s: nat, key: Seq<u8>|
                    a + 1 <= s < b && others[i - m].0 == #[trigger] backfill::key_in(s, key);
                assert(all[i].0 == backfill::key_in(s, key));
            }
        }
        assert forall|i: int, j: int| 0 <= i < j < all.len() implies (#[trigger] all[i]).0 != (
        #[trigger] all[j]).0 by {
            if all[i].0 == all[j].0 {
                if j < m {
                    lemma_keys_in(a, kept[i].0, a, kept[j].0);
                } else {
                    assert(all[j] == others[j - m]);
                    assert(of_shards(others[j - m].0, a + 1, b));
                    let (s, key) = choose|s: nat, key: Seq<u8>|
                        a + 1 <= s < b && others[j - m].0 == #[trigger] backfill::key_in(s, key);
                    if i < m {
                        lemma_keys_in(a, kept[i].0, s, key);
                    } else {
                        assert(all[i] == others[i - m]);
                    }
                }
            }
        }
    }
}

/// What the first workers drained.
proof fn lemma_workers_drain<T>(queue: ShardsView<T>, workers: nat, limit: nat, n: nat)
    requires
        0 < n <= workers,
        queue.shards.len() == BACKFILL_SHARDS,
        queue.priority.len() == 0,
        records_between(queue.shards, 0, BACKFILL_SHARDS as nat) <= limit,
    ensures
        ({
            let d = drained_by(queue, workers, limit, n);
            let end = backfill::slice_of((n - 1) as nat, workers).1 as nat;
            &&& d.out =~= jobs_between(queue.shards, 0, end)
            &&& d.dropped == records_between(queue.shards, 0, end) - d.out.len()
            &&& d.left.shards =~= emptied(queue.shards, 0, end)
            &&& d.left.priority.len() == 0
        }),
    decreases n,
{
    let before = drained_by(queue, workers, limit, (n - 1) as nat);
    let (s, e) = backfill::slice_of((n - 1) as nat, workers);
    let (start, end) = (s as nat, e as nat);
    backfill::law_slices_cover_the_shards((n - 1) as nat, workers);
    if n > 1 {
        backfill::law_slices_cover_the_shards((n - 2) as nat, workers);
        lemma_workers_drain(queue, workers, limit, (n - 1) as nat);
    } else {
        assert(emptied(queue.shards, 0, 0) =~= queue.shards);
    }
    // The slice is untouched, and so is what this worker finds there.
    lemma_between_same(before.left.shards, queue.shards, start, end);
    let all = BACKFILL_SHARDS as nat;
    lemma_between_parts(queue.shards, 0, start, all);
    lemma_between_parts(queue.shards, start, end, all);
    lemma_between_parts(queue.shards, 0, start, end);
    let none = before.left.priority;
    assert(none.take(0) =~= Seq::empty() && none.skip(0) =~= none);
    assert(backfill::tagged(all, backfill::kept(none.take(0))) =~= Seq::empty());
    let so_far = Drained { out: Seq::empty(), dropped: 0, left: before.left };
    assert(so_far.left =~= ShardsView { priority: none.skip(0), ..before.left });
    lemma_drains_all(so_far, start, end, limit);
    assert(drained(before.left, start, end, limit) == drained_from(so_far, start, end, limit));
    assert(emptied(before.left.shards, start, end) =~= emptied(queue.shards, 0, end));
}

/// All workers together drain every job once: where nothing is queued with
/// priority and each worker has room for all records, their results joined are
/// all jobs of all shards, nothing is left, and what was not handed out could
/// not be decoded. No key occurs twice, neither in one result nor in two of
/// them, where each shard has its records under different keys, as a log has.
pub proof fn law_workers_drain_every_job_once<T>(queue: ShardsView<T>, workers: nat, limit: nat)
    requires
        workers > 0,
        queue.shards.len() == BACKFILL_SHARDS,
        queue.priority.len() == 0,
        records_between(queue.shards, 0, BACKFILL_SHARDS as nat) <= limit,
        forall|s: int, i: int, j: int|
            0 <= s < queue.shards.len() && 0 <= i < j < queue.shards[s].len() ==> (
            #[trigger] queue.shards[s][i]).0 != (#[trigger] queue.shards[s][j]).0,
    ensures
        ({
            let d = drained_by(queue, workers, limit, workers);
            let all = BACKFILL_SHARDS as nat;
            &&& d.out =~= jobs_between(queue.shards, 0, all)
            &&& keys_differ(d.out)
            &&& d.dropped == records_between(queue.shards, 0, all) - d.out.len()
            &&& d.left.priority.len() == 0
            &&& records_between(d.left.shards, 0, all) == 0
        }),
{
    let all = BACKFILL_SHARDS as nat;
    backfill::law_slices_cover_the_shards((workers - 1) as nat, workers);
    lemma_workers_drain(queue, workers, limit, workers);
    lemma_between_keys(queue.shards, 0, all);
    lemma_emptied(queue.shards, 0, all);
}

/// Emptied shards hold nothing.
proof fn lemma_emptied<T>(shards: Seq<Seq<(Seq<u8>, Option<T>)>>, a: nat, b: nat)
    requires
        a <= b <= shards.len(),
    ensures
        records_between(emptied(shards, 0, b), a, b) == 0,
    decreases b - a,
{
    if a < b {
        lemma_emptied(shards, a + 1, b);
    }
}

} // verus!
