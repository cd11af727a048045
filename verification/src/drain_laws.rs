//! What a drain of the backfill queue takes, in which order and under which
//! keys, and how evenly the shards are dealt out.

use vstd::prelude::*;

use crate::backfill;
use crate::backfill::{BackfillDrainView, DrainAction, DrainEventView, DrainNext, DrainStep};
use crate::bytes;
use crate::shards;
use crate::shards::{Drained, ShardsView};

verus! {

/// Records of a log, with what could be decoded of them.
pub type Records<T> = Seq<(Seq<u8>, Option<T>)>;

/// What is kept of records is what is kept of their first part, then what is
/// kept of the rest: a record that could be decoded gives its job under its
/// key, and one that could not gives nothing.
pub proof fn law_decodable_records_are_kept_in_order<T>(
    a: Records<T>,
    b: Records<T>,
    key: Seq<u8>,
    job: T,
)
    ensures
        backfill::kept(a + b) =~= backfill::kept(a) + backfill::kept(b),
        backfill::kept(seq![(key, Some(job))]) =~= seq![(key, job)],
        backfill::kept(seq![(key, None::<T>)]) =~= Seq::empty(),
        backfill::kept(Seq::<(Seq<u8>, Option<T>)>::empty()) =~= Seq::empty(),
    decreases b.len(),
{
    let some = seq![(key, Some(job))];
    let none = seq![(key, None::<T>)];
    assert(some.drop_last() =~= Seq::empty());
    assert(none.drop_last() =~= Seq::empty());
    reveal_with_fuel(backfill::kept, 2);
    if b.len() == 0 {
        assert(a + b =~= a);
    } else {
        law_decodable_records_are_kept_in_order(a, b.drop_last(), key, job);
        assert((a + b).drop_last() =~= a + b.drop_last());
        assert((a + b).last() == b.last());
    }
}

/// Jobs keep their order when they get their keys within the whole queue: two
/// bytes that write the shard, the higher first, then the key in the shard.
pub proof fn law_keys_name_shard_and_record<T>(shard: nat, jobs: Seq<(Seq<u8>, T)>, i: int)
    requires
        shard <= 240,
        0 <= i < jobs.len(),
    ensures
        ({
            let (key, job) = backfill::tagged(shard, jobs)[i];
            &&& backfill::tagged(shard, jobs).len() == jobs.len()
            &&& job == jobs[i].1
            &&& key.len() == jobs[i].0.len() + 2
            &&& key[0] == 0
            &&& key[1] == shard
            &&& key.skip(2) =~= jobs[i].0
        }),
{
    reveal_with_fuel(bytes::be_bytes, 3);
}

/// The records of each shard that a drain took: those in front of what it left.
pub open spec fn taken_of<T>(
    before: Seq<Records<T>>,
    after: Seq<Records<T>>,
) -> Seq<Records<T>> {
    Seq::new(before.len(), |i: int| before[i].take(before[i].len() - after[i].len()))
}

/// Where the shards from `a` to `b` are the same, they hold the same jobs and
/// as many records.
proof fn lemma_between_same<T>(s: Seq<Records<T>>, t: Seq<Records<T>>, a: nat, b: nat)
    requires
        b <= s.len(),
        b <= t.len(),
        forall|i: int| a <= i < b ==> s[i] == #[trigger] t[i],
    ensures
        shards::jobs_between(s, a, b) == shards::jobs_between(t, a, b),
        shards::records_between(s, a, b) == shards::records_between(t, a, b),
    decreases b - a,
{
    if a < b {
        assert(s[a as int] == t[a as int]);
        lemma_between_same(s, t, a + 1, b);
    }
}

/// A drain of shards takes the first records of each, in the order of the
/// shards, and leaves the others: what it adds are the jobs of the records that
/// it took, and every record that it took was handed out or counted as dropped.
/// It stops before the end only with enough jobs: if it got fewer than it was
/// to get, and all could be decoded, nothing is left in its shards.
pub proof fn law_drain_takes_the_first_records<T>(
    so_far: Drained<T>,
    shard: nat,
    end: nat,
    limit: nat,
)
    requires
        shard <= end <= so_far.left.shards.len(),
        so_far.out.len() <= limit,
    ensures
        ({
            let d = shards::drained_from(so_far, shard, end, limit);
            let (before, after) = (so_far.left.shards, d.left.shards);
            let taken = taken_of(before, after);
            &&& forall|i: int|
                0 <= i < before.len() ==> {
                    &&& (#[trigger] after[i]).len() <= before[i].len()
                    &&& after[i] =~= before[i].skip(before[i].len() - after[i].len())
                }
            &&& d.out =~= so_far.out + shards::jobs_between(taken, shard, end)
            &&& d.out.len() - so_far.out.len() + d.dropped - so_far.dropped
                == shards::records_between(taken, shard, end)
            &&& d.dropped >= so_far.dropped
            &&& d.dropped == so_far.dropped && d.out.len() < limit ==> forall|i: int|
                shard <= i < end ==> (#[trigger] after[i]).len() == 0
        }),
    decreases end - shard,
{
    let d = shards::drained_from(so_far, shard, end, limit);
    let (before, after) = (so_far.left.shards, d.left.shards);
    let taken = taken_of(before, after);
    if shard < end && so_far.out.len() < limit {
        let log = before[shard as int];
        let n = shards::reads(log, (limit - so_far.out.len()) as nat);
        let jobs = backfill::kept(log.take(n as int));
        backfill::lemma_kept_len(log.take(n as int));
        let next = Drained {
            out: so_far.out + backfill::tagged(shard, jobs),
            dropped: (so_far.dropped + n - jobs.len()) as nat,
            left: ShardsView {
                shards: before.update(shard as int, log.skip(n as int)),
                ..so_far.left
            },
        };
        law_drain_takes_the_first_records(next, shard + 1, end, limit);
        shards::law_drain_stays_in_its_slice(next, shard + 1, end, limit);
        let later = taken_of(next.left.shards, after);
        assert(after[shard as int] == next.left.shards[shard as int]);
        assert(taken[shard as int] =~= log.take(n as int));
        assert forall|i: int| shard + 1 <= i < end implies later[i] == #[trigger] taken[i] by {
            assert(next.left.shards[i] == before[i]);
        }
        lemma_between_same(later, taken, shard + 1, end);
        let rest = shards::jobs_between(taken, shard + 1, end);
        assert((so_far.out + backfill::tagged(shard, jobs)) + rest =~= so_far.out + (
        backfill::tagged(shard, jobs) + rest));
        if d.dropped == so_far.dropped && d.out.len() < limit {
            assert(d.out.len() >= next.out.len());
            assert(n == log.len());
            assert(after[shard as int].len() == 0);
        }
        assert forall|i: int| 0 <= i < before.len() implies (#[trigger] after[i]).len()
            <= before[i].len() && after[i] =~= before[i].skip(
            before[i].len() - after[i].len(),
        ) by {
            if i != shard {
                assert(next.left.shards[i] == before[i]);
            }
        }
    } else {
        assert forall|i: int| shard <= i < end implies (#[trigger] taken[i]).len() == 0 by {
            assert(taken[i] =~= before[i].take(0));
        }
        lemma_nothing_taken(taken, shard, end);
        assert forall|i: int| 0 <= i < before.len() implies (#[trigger] after[i]).len()
            <= before[i].len() && after[i] =~= before[i].skip(
            before[i].len() - after[i].len(),
        ) by {
            assert(before[i].skip(0) =~= before[i]);
        }
        assert(so_far.out + Seq::<(Seq<u8>, T)>::empty() =~= so_far.out);
    }
}

/// Of no records there are no jobs.
proof fn lemma_nothing_taken<T>(taken: Seq<Records<T>>, a: nat, b: nat)
    requires
        b <= taken.len(),
        forall|i: int| a <= i < b ==> (#[trigger] taken[i]).len() == 0,
    ensures
        shards::jobs_between(taken, a, b) =~= Seq::empty(),
        shards::records_between(taken, a, b) == 0,
    decreases b - a,
{
    if a < b {
        assert(taken[a as int].len() == 0);
        lemma_nothing_taken(taken, a + 1, b);
    }
}

/// The shards are dealt out evenly: with up to as many workers as shards, each
/// worker has at least the whole part of its share, and each but the last has
/// exactly that. No workers count as one, which has all shards.
pub proof fn law_shards_are_dealt_out_evenly(worker: nat, workers: nat)
    requires
        worker < workers,
    ensures
        ({
            let (start, end) = backfill::slice_of(worker, workers);
            &&& end - start >= 240int / workers as int
            &&& worker + 1 < workers ==> end - start == 240int / workers as int
        }),
        backfill::slice_of(0, 0) == (0int, 240int),
{
    let size = 240int / workers as int;
    assert(0 <= size && workers * size <= 240) by (nonlinear_arith)
        requires
            size == 240int / workers as int,
            workers > 0,
    ;
    assert((worker + 1) * size <= workers * size) by (nonlinear_arith)
        requires
            worker + 1 <= workers,
            0 <= size,
    ;
    assert((worker + 1) * size == worker * size + size) by (nonlinear_arith);
    assert(0 <= worker * size) by (nonlinear_arith)
        requires
            0 <= size,
    ;
    assert(0 * 240int == 0);
}

/// A drain asks for the priority log first and then for one shard after the
/// other, each time for as many records as it has room for jobs. It ends when
/// there is no room or no shard left. A read that failed ends it with that
/// error.
pub proof fn law_drain_reads_what_it_has_room_for<T>(
    op: BackfillDrainView<T>,
    event: DrainEventView<T>,
)
    requires
        op.limit <= usize::MAX,
        op.end <= usize::MAX,
    ensures
        ({
            let (after, next) = op.step(event);
            &&& event is Start && next is Read ==> next == DrainNext::Read(
                DrainAction::ReadPriority { limit: op.limit as usize },
            ) && after.shard == op.shard
            &&& event is Batch && next is Read ==> {
                &&& next->Read_0 is ReadShard
                &&& next->Read_0->shard == after.shard
                &&& next->Read_0->ReadShard_limit + after.out.len() == op.limit
                &&& op.shard <= after.shard <= op.shard + 1
                &&& after.shard < op.end
            }
            &&& event is Batch && next is Done ==> after.out.len() >= op.limit || after.shard
                >= op.end
            &&& event is Failed ==> next is Failed
        }),
{
}

/// A drain that ends hands out what it found and says how many records could
/// not be decoded; one whose read failed gives the error of that read.
pub proof fn law_drain_ends_with_what_it_met<T>(
    op: BackfillDrainView<T>,
    event: DrainEventView<T>,
    step: DrainStep<T>,
)
    requires
        backfill::drains(step, op.step(event).1, op.step(event).0, event),
    ensures
        event matches DrainEventView::Failed(error) ==> step == DrainStep::<T>::Failed(error),
        event is Batch && step is Done ==> {
            let batch = event->Batch_0;
            let jobs = backfill::jobs_of(step->jobs@);
            &&& jobs.len() == op.out.len() + backfill::kept(batch).len()
            &&& jobs.take(op.out.len() as int) =~= op.out
            &&& op.dropped + batch.len() - backfill::kept(batch).len() <= usize::MAX
                ==> step->dropped == op.dropped + batch.len() - backfill::kept(batch).len()
        },
{
    if event is Batch {
        backfill::lemma_kept_len(event->Batch_0);
    }
}

/// No slice runs backwards or past the shards, whatever the numbers are.
pub proof fn law_slices_stay_within_the_shards(worker: nat, workers: nat)
    ensures
        ({
            let (start, end) = backfill::slice_of(worker, workers);
            0 <= start <= end <= 240
        }),
{
    let n = if workers == 0 {
        1
    } else {
        workers as int
    };
    let size = 240int / n;
    assert(0 <= size) by (nonlinear_arith)
        requires
            size == 240int / n,
            n > 0,
    ;
    assert(0 <= worker * size <= (worker + 1) * size) by (nonlinear_arith)
        requires
            0 <= size,
    ;
}

} // verus!
