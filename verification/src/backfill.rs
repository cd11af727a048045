//! The queue of backfilled records to index. Normal jobs are spread over many
//! logs, so that workers each own a disjoint slice of them and never contend on
//! a head lock; priority jobs go to one shared log that every worker drains
//! first.

use vstd::prelude::*;

use crate::bytes;
use crate::bytes::u16_be;
use crate::error::WintermuteError;

verus! {

/// Normal jobs are spread over this many shard logs; a worker owns a
/// contiguous slice of them.
pub const BACKFILL_SHARDS: usize = 240;

/// Calls `rand::random`. Nothing is known of the number.
#[verifier::external_body]
fn random_number() -> usize {
    rand::random::<usize>()
}

/// The shard that a number picks.
pub fn shard_of(number: usize) -> (shard: usize)
    ensures
        shard == number % BACKFILL_SHARDS,
        shard < BACKFILL_SHARDS,
{
    number % BACKFILL_SHARDS
}

/// A random shard.
pub fn random_shard() -> (shard: usize)
    ensures
        shard < BACKFILL_SHARDS,
{
    shard_of(random_number())
}

/// The slice of the shards that worker `worker` of `workers` owns, as its start
/// and its end. Every worker has as many shards as fit evenly, and the last one
/// takes the remainder. No workers count as one.
pub open spec fn slice_of(worker: nat, workers: nat) -> (int, int) {
    let n = if workers == 0 {
        1
    } else {
        workers as int
    };
    let size = BACKFILL_SHARDS as int / n;
    (
        at_most_all(worker * size),
        if worker + 1 == n {
            BACKFILL_SHARDS as int
        } else {
            at_most_all((worker + 1) * size)
        },
    )
}

/// `n`, or the number of shards.
pub open spec fn at_most_all(n: int) -> int {
    if n < BACKFILL_SHARDS {
        n
    } else {
        BACKFILL_SHARDS as int
    }
}

/// The slice of the shards that a worker owns. See `slice_of`.
pub fn partition(worker: usize, workers: usize) -> (slice: (usize, usize))
    requires
        worker < usize::MAX,
        (worker + 1) * (BACKFILL_SHARDS as int / (if workers == 0 {
            1
        } else {
            workers as int
        })) <= usize::MAX,
    ensures
        (slice.0 as int, slice.1 as int) == slice_of(worker as nat, workers as nat),
        slice.0 <= BACKFILL_SHARDS,
        slice.1 <= BACKFILL_SHARDS,
{
    let workers: usize = if workers == 0 {
        1
    } else {
        workers
    };
    let size: usize = BACKFILL_SHARDS / workers;
    proof {
        assert(worker * size <= (worker + 1) * size && 0 <= worker * size) by (nonlinear_arith)
            requires
                0 <= worker,
                0 <= size,
        ;
    }
    let start: usize = worker * size;
    let start: usize = if start < BACKFILL_SHARDS {
        start
    } else {
        BACKFILL_SHARDS
    };
    let end: usize = if worker + 1 == workers {
        BACKFILL_SHARDS
    } else {
        let end: usize = (worker + 1) * size;
        if end < BACKFILL_SHARDS {
            end
        } else {
            BACKFILL_SHARDS
        }
    };
    (start, end)
}

/// The slices of the workers follow each other without gap or overlap and
/// cover all shards: the first starts at the first shard, each other starts
/// where the one before it ends, and the last ends at the last shard.
pub proof fn law_slices_cover_the_shards(worker: nat, workers: nat)
    requires
        worker < workers,
    ensures
        slice_of(0, workers).0 == 0,
        slice_of((workers - 1) as nat, workers).1 == BACKFILL_SHARDS,
        worker + 1 < workers ==> slice_of(worker, workers).1 == slice_of(
            (worker + 1) as nat,
            workers,
        ).0,
        0 <= slice_of(worker, workers).0 <= slice_of(worker, workers).1 <= BACKFILL_SHARDS,
{
    let size = BACKFILL_SHARDS as int / workers as int;
    assert(0 * size == 0) by (nonlinear_arith);
    assert(size >= 0) by (nonlinear_arith)
        requires
            size == BACKFILL_SHARDS as int / workers as int,
            workers > 0,
            BACKFILL_SHARDS == 240,
    ;
    assert(0 <= worker * size <= (worker + 1) * size) by (nonlinear_arith)
        requires
            size >= 0,
    ;
}

/// Each shard belongs to exactly one worker.
pub proof fn law_each_shard_has_one_worker(shard: int, workers: nat)
    requires
        0 <= shard < BACKFILL_SHARDS,
        workers > 0,
    ensures
        exists|worker: nat|
            worker < workers && #[trigger] slice_of(worker, workers).0 <= shard < slice_of(
                worker,
                workers,
            ).1,
        forall|a: nat, b: nat|
            a < b < workers ==> #[trigger] slice_of(a, workers).1 <= #[trigger] slice_of(
                b,
                workers,
            ).0,
{
    assert forall|a: nat, b: nat| a < b < workers implies #[trigger] slice_of(a, workers).1
        <= #[trigger] slice_of(b, workers).0 by {
        lemma_slices_ascend(a, b, workers);
    }
    lemma_slice_found(shard, workers, (workers - 1) as nat);
}

proof fn lemma_slices_ascend(a: nat, b: nat, workers: nat)
    requires
        a < b < workers,
    ensures
        slice_of(a, workers).1 <= slice_of(b, workers).0,
    decreases b - a,
{
    law_slices_cover_the_shards(a, workers);
    if a + 1 < b {
        lemma_slices_ascend((a + 1) as nat, b, workers);
        law_slices_cover_the_shards((a + 1) as nat, workers);
    }
}

proof fn lemma_slice_found(shard: int, workers: nat, last: nat)
    requires
        0 <= shard < slice_of(last, workers).1,
        last < workers,
    ensures
        exists|worker: nat|
            worker < workers && #[trigger] slice_of(worker, workers).0 <= shard < slice_of(
                worker,
                workers,
            ).1,
    decreases last,
{
    law_slices_cover_the_shards(last, workers);
    if slice_of(last, workers).0 <= shard {
    } else {
        let before = (last - 1) as nat;
        law_slices_cover_the_shards(before, workers);
        lemma_slice_found(shard, workers, before);
    }
}

/// Records with their keys as sequences; a record that could not be decoded
/// holds nothing.
pub open spec fn records_of<T>(records: Seq<(Vec<u8>, Option<T>)>) -> Seq<(Seq<u8>, Option<T>)> {
    records.map_values(|r: (Vec<u8>, Option<T>)| (r.0@, r.1))
}

/// Jobs with their keys as sequences.
pub open spec fn jobs_of<T>(jobs: Seq<(Vec<u8>, T)>) -> Seq<(Seq<u8>, T)> {
    jobs.map_values(|j: (Vec<u8>, T)| (j.0@, j.1))
}

/// The records that could be decoded, in order.
pub open spec fn kept<T>(records: Seq<(Seq<u8>, Option<T>)>) -> Seq<(Seq<u8>, T)>
    decreases records.len(),
{
    if records.len() == 0 {
        Seq::empty()
    } else {
        let rest = kept(records.drop_last());
        match records.last().1 {
            Some(job) => rest.push((records.last().0, job)),
            None => rest,
        }
    }
}

/// No more is kept than there is.
pub proof fn lemma_kept_len<T>(records: Seq<(Seq<u8>, Option<T>)>)
    ensures
        kept(records).len() <= records.len(),
    decreases records.len(),
{
    if records.len() > 0 {
        lemma_kept_len(records.drop_last());
    }
}

/// Leaves out the records that could not be decoded, so that a poison entry
/// cannot wedge the queue. Returns the jobs and how many were left out.
pub fn decode_jobs<T>(records: Vec<(Vec<u8>, Option<T>)>) -> (r: (Vec<(Vec<u8>, T)>, usize))
    ensures
        jobs_of(r.0@) =~= kept(records_of(records@)),
        r.1 == records@.len() - r.0@.len(),
{
    let mut out: Vec<(Vec<u8>, T)> = Vec::new();
    let mut dropped: usize = 0;
    let ghost all = records@;
    let ghost recs = records_of(records@);
    let total: usize = records.len();
    assert(recs.take(0) =~= Seq::empty());
    for record in it: records
        invariant
            it.seq() == all,
            recs == records_of(all),
            total == all.len(),
            jobs_of(out@) =~= kept(recs.take(it.index() as int)),
            dropped + out@.len() == it.index(),
    {
        let ghost i = it.index() as int;
        let ghost before = jobs_of(out@);
        proof {
            assert(record == all[i]);
            assert(recs.take(i + 1).drop_last() =~= recs.take(i));
        }
        let (key, job) = record;
        match job {
            Some(job) => {
                out.push((key, job));
                assert(jobs_of(out@) =~= before.push((key@, job)));
            },
            None => {
                dropped = dropped + 1;
            },
        }
    }
    assert(recs.take(recs.len() as int) =~= recs);
    (out, dropped)
}

/// The key of a record within the whole queue: its shard, then its key there.
pub open spec fn key_in(shard: nat, key: Seq<u8>) -> Seq<u8> {
    bytes::be_bytes(shard % 0x10000, 2) + key
}

/// The key of a record within the whole queue: its shard in two bytes, then
/// its key there.
pub fn backfill_key(shard: usize, key: &[u8]) -> (full: Vec<u8>)
    ensures
        full@ == key_in(shard as nat, key@),
{
    let mut full: Vec<u8> = u16_be((shard % 0x10000) as u16);
    let mut rest: Vec<u8> = vstd::slice::slice_to_vec(key);
    full.append(&mut rest);
    full
}

/// Jobs of a shard with their keys within the whole queue.
pub open spec fn tagged<T>(shard: nat, jobs: Seq<(Seq<u8>, T)>) -> Seq<(Seq<u8>, T)> {
    jobs.map_values(|j: (Seq<u8>, T)| (key_in(shard, j.0), j.1))
}

fn add_tagged<T>(shard: usize, jobs: Vec<(Vec<u8>, T)>, out: &mut Vec<(Vec<u8>, T)>)
    ensures
        jobs_of(final(out)@) =~= jobs_of(old(out)@) + tagged(shard as nat, jobs_of(jobs@)),
{
    let ghost all = jobs@;
    let ghost start = jobs_of(out@);
    let ghost want = tagged(shard as nat, jobs_of(jobs@));
    assert(start + want.take(0) =~= start);
    for job in it: jobs
        invariant
            it.seq() == all,
            want == tagged(shard as nat, jobs_of(all)),
            jobs_of(out@) =~= start + want.take(it.index() as int),
    {
        let ghost i = it.index() as int;
        let ghost before = jobs_of(out@);
        assert(job == all[i]);
        let (key, job) = job;
        let full: Vec<u8> = backfill_key(shard, key.as_slice());
        out.push((full, job));
        proof {
            assert(jobs_of(out@) =~= before.push((full@, job)));
            assert(want.take(i + 1) =~= want.take(i).push(want[i]));
        }
    }
    assert(want.take(want.len() as int) =~= want);
}

/// What a drain of the queue asked for last.
#[derive(Clone, Copy, Debug, PartialEq, Eq, Structural)]
pub enum DrainPhase {
    Start,
    /// Records of the priority log.
    Priority,
    /// Records of a shard.
    Shard,
    /// Nothing: the operation has ended.
    Over,
}

/// One thing to do for a drain.
#[derive(Clone, Copy, Debug, PartialEq, Eq, Structural)]
pub enum DrainAction {
    /// Read and consume up to `limit` records of the priority log.
    ReadPriority { limit: usize },
    /// Read and consume up to `limit` records of the shard.
    ReadShard { shard: usize, limit: usize },
}

/// The answer to an action.
#[derive(Debug)]
pub enum DrainEvent<T> {
    /// Nothing was asked yet.
    Start,
    /// The records that were read.
    Batch(Vec<(Vec<u8>, Option<T>)>),
    /// The action failed.
    Failed(WintermuteError),
}

/// What a drain does next.
#[derive(Debug)]
pub enum DrainStep<T> {
    /// Perform the action and hand back the event.
    Do(DrainAction),
    /// The jobs, and how many records could not be decoded.
    Done { jobs: Vec<(Vec<u8>, T)>, dropped: usize },
    /// The drain failed.
    Failed(WintermuteError),
}

/// Drains up to `limit` jobs from the priority log, then from a range of shards
/// in order.
#[derive(Debug)]
pub struct BackfillDrain<T> {
    pub phase: DrainPhase,
    pub limit: usize,
    /// The shard that is read next.
    pub shard: usize,
    /// Where the range ends.
    pub end: usize,
    pub out: Vec<(Vec<u8>, T)>,
    pub dropped: usize,
}

/// `BackfillDrain` with its jobs as a sequence.
#[verifier::ext_equal]
pub struct BackfillDrainView<T> {
    pub phase: DrainPhase,
    pub limit: nat,
    pub shard: nat,
    pub end: nat,
    pub out: Seq<(Seq<u8>, T)>,
    pub dropped: nat,
}

/// `DrainEvent` with its records as a sequence.
pub enum DrainEventView<T> {
    Start,
    Batch(Seq<(Seq<u8>, Option<T>)>),
    Failed(WintermuteError),
}

/// What a drain does next.
pub enum DrainNext {
    Read(DrainAction),
    Done,
    Failed,
}

impl<T> View for BackfillDrain<T> {
    type V = BackfillDrainView<T>;

    open spec fn view(&self) -> BackfillDrainView<T> {
        BackfillDrainView {
            phase: self.phase,
            limit: self.limit as nat,
            shard: self.shard as nat,
            end: self.end as nat,
            out: jobs_of(self.out@),
            dropped: self.dropped as nat,
        }
    }
}

impl<T> View for DrainEvent<T> {
    type V = DrainEventView<T>;

    open spec fn view(&self) -> DrainEventView<T> {
        match self {
            DrainEvent::Start => DrainEventView::Start,
            DrainEvent::Batch(records) => DrainEventView::Batch(records_of(records@)),
            DrainEvent::Failed(error) => DrainEventView::Failed(*error),
        }
    }
}

/// `n`, or the largest number that fits.
pub open spec fn at_most_usize(n: int) -> nat {
    if n <= usize::MAX {
        n as nat
    } else {
        usize::MAX as nat
    }
}

impl<T> BackfillDrainView<T> {
    pub open spec fn start(start: nat, end: nat, limit: nat) -> BackfillDrainView<T> {
        BackfillDrainView {
            phase: DrainPhase::Start,
            limit,
            shard: start,
            end,
            out: Seq::empty(),
            dropped: 0,
        }
    }

    /// The drain with the records of a log, whose number is `shard`.
    pub open spec fn takes(self, shard: nat, batch: Seq<(Seq<u8>, Option<T>)>)
        -> BackfillDrainView<T> {
        let jobs = kept(batch);
        BackfillDrainView {
            out: self.out + tagged(shard, jobs),
            dropped: at_most_usize(self.dropped + batch.len() - jobs.len()),
            ..self
        }
    }

    /// Reads the next shard, unless there is none or there are enough jobs.
    pub open spec fn read_more(self) -> (BackfillDrainView<T>, DrainNext) {
        if self.shard < self.end && self.out.len() < self.limit {
            (
                BackfillDrainView { phase: DrainPhase::Shard, ..self },
                DrainNext::Read(
                    DrainAction::ReadShard {
                        shard: self.shard as usize,
                        limit: (self.limit - self.out.len()) as usize,
                    },
                ),
            )
        } else {
            (BackfillDrainView { phase: DrainPhase::Over, ..self }, DrainNext::Done)
        }
    }

    /// The drain and what to do next after `event`.
    pub open spec fn step(self, event: DrainEventView<T>) -> (BackfillDrainView<T>, DrainNext) {
        match (self.phase, event) {
            (DrainPhase::Start, DrainEventView::Start) => (
                BackfillDrainView { phase: DrainPhase::Priority, ..self },
                DrainNext::Read(DrainAction::ReadPriority { limit: self.limit as usize }),
            ),
            (DrainPhase::Priority, DrainEventView::Batch(batch)) => self.takes(
                BACKFILL_SHARDS as nat,
                batch,
            ).read_more(),
            (DrainPhase::Shard, DrainEventView::Batch(batch)) => BackfillDrainView {
                shard: self.shard + 1,
                ..self.takes(self.shard, batch)
            }.read_more(),
            _ => (BackfillDrainView { phase: DrainPhase::Over, ..self }, DrainNext::Failed),
        }
    }

    /// A shard that was asked for lies in the range.
    pub open spec fn wf(self) -> bool {
        self.phase == DrainPhase::Shard ==> self.shard < self.end
    }
}

/// `step` does what `next` says.
pub open spec fn drains<T>(
    step: DrainStep<T>,
    next: DrainNext,
    op: BackfillDrainView<T>,
    event: DrainEventView<T>,
) -> bool {
    match next {
        DrainNext::Read(action) => step == DrainStep::<T>::Do(action),
        DrainNext::Done => step is Done && jobs_of(step->jobs@) =~= op.out && step->dropped
            == op.dropped,
        DrainNext::Failed => {
            &&& step is Failed
            &&& event is Failed ==> step->Failed_0 == event->Failed_0
            &&& !(event is Failed) ==> step->Failed_0 is Other
        },
    }
}

impl<T> BackfillDrain<T> {
    /// A drain of the shards `start..end`.
    pub fn new(start: usize, end: usize, limit: usize) -> (op: BackfillDrain<T>)
        ensures
            op@ =~= BackfillDrainView::start(start as nat, end as nat, limit as nat),
            op@.wf(),
    {
        BackfillDrain {
            phase: DrainPhase::Start,
            limit,
            shard: start,
            end,
            out: Vec::new(),
            dropped: 0,
        }
    }

    fn take(&mut self, shard: usize, batch: Vec<(Vec<u8>, Option<T>)>)
        ensures
            final(self)@ =~= old(self)@.takes(shard as nat, records_of(batch@)),
    {
        proof {
            lemma_kept_len(records_of(batch@));
        }
        let (jobs, dropped): (Vec<(Vec<u8>, T)>, usize) = decode_jobs(batch);
        assert(jobs_of(jobs@).len() == jobs@.len());
        assert(records_of(batch@).len() == batch@.len());
        self.dropped = self.dropped.saturating_add(dropped);
        add_tagged(shard, jobs, &mut self.out);
    }

    fn read_more(&mut self) -> (step: DrainStep<T>)
        ensures
            ({
                let (op, next) = old(self)@.read_more();
                &&& forall|event: DrainEventView<T>| #[trigger] drains(step, next, op, event)
                &&& step is Do ==> final(self)@ =~= op && final(self)@.wf()
                &&& !(step is Do) ==> final(self).phase == DrainPhase::Over
            }),
    {
        assert(self@.out.len() == self.out@.len());
        if self.shard < self.end && self.out.len() < self.limit {
            self.phase = DrainPhase::Shard;
            DrainStep::Do(
                DrainAction::ReadShard {
                    shard: self.shard,
                    limit: self.limit - self.out.len(),
                },
            )
        } else {
            let mut jobs: Vec<(Vec<u8>, T)> = Vec::new();
            std::mem::swap(&mut jobs, &mut self.out);
            self.phase = DrainPhase::Over;
            DrainStep::Done { jobs, dropped: self.dropped }
        }
    }

    /// Takes in the answer to the last action and says what to do next.
    pub fn step(&mut self, event: DrainEvent<T>) -> (step: DrainStep<T>)
        requires
            old(self)@.wf(),
        ensures
            ({
                let (op, next) = old(self)@.step(event@);
                &&& drains(step, next, op, event@)
                &&& step is Do ==> final(self)@ =~= op && final(self)@.wf()
                &&& !(step is Do) ==> final(self).phase == DrainPhase::Over
            }),
    {
        match (self.phase, event) {
            (DrainPhase::Start, DrainEvent::Start) => {
                self.phase = DrainPhase::Priority;
                DrainStep::Do(DrainAction::ReadPriority { limit: self.limit })
            },
            (DrainPhase::Priority, DrainEvent::Batch(batch)) => {
                self.take(BACKFILL_SHARDS, batch);
                self.read_more()
            },
            (DrainPhase::Shard, DrainEvent::Batch(batch)) => {
                let shard: usize = self.shard;
                self.take(shard, batch);
                self.shard = shard + 1;
                self.read_more()
            },
            (_, event) => {
                self.phase = DrainPhase::Over;
                match event {
                    DrainEvent::Failed(error) => DrainStep::Failed(error),
                    _ => DrainStep::Failed(WintermuteError::Other("unexpected event".to_owned())),
                }
            },
        }
    }
}

} // verus!
