//! What the workers drain of the logs of the shards.

use vstd::prelude::*;

use crate::backfill;
use crate::backfill::BACKFILL_SHARDS;
use crate::bytes;
use crate::laws;
use crate::laws::LogAndDisk;
use crate::pos;
use crate::read;
use crate::shards;

verus! {

/// The records of a log, decoded.
pub open spec fn decoded<T>(
    recs: read::Records,
    decode: spec_fn(Seq<u8>) -> Option<T>,
) -> Seq<(Seq<u8>, Option<T>)> {
    recs.map_values(|r: (Seq<u8>, Seq<u8>)| (r.0, decode(r.1)))
}

/// The shards whose records these logs hold, with nothing queued with
/// priority.
pub open spec fn held<T>(
    logs: Seq<LogAndDisk>,
    decode: spec_fn(Seq<u8>) -> Option<T>,
) -> shards::ShardsView<T> {
    shards::ShardsView {
        priority: Seq::empty(),
        shards: logs.map_values(|l: LogAndDisk| decoded(l.contents(), decode)),
    }
}

/// The logs after a drain of the shards from `shard` up to `end`, of which
/// `had` jobs were found before.
pub open spec fn logs_drained<T>(
    logs: Seq<LogAndDisk>,
    decode: spec_fn(Seq<u8>) -> Option<T>,
    had: nat,
    shard: nat,
    end: nat,
    limit: nat,
) -> Seq<LogAndDisk>
    decreases end - shard,
{
    if shard < end && had < limit {
        let room = (limit - had) as nat;
        let recs = decoded(logs[shard as int].contents(), decode);
        let jobs = backfill::kept(recs.take(shards::reads(recs, room) as int));
        logs_drained(
            logs.update(shard as int, logs[shard as int].after_read(room)),
            decode,
            had + jobs.len(),
            shard + 1,
            end,
            limit,
        )
    } else {
        logs
    }
}

/// The logs after the first `n` of so many workers drained their slices, one
/// after the other and each up to `limit` jobs.
pub open spec fn logs_drained_by<T>(
    logs: Seq<LogAndDisk>,
    decode: spec_fn(Seq<u8>) -> Option<T>,
    workers: nat,
    limit: nat,
    n: nat,
) -> Seq<LogAndDisk>
    decreases n,
{
    if n == 0 {
        logs
    } else {
        let before = logs_drained_by(logs, decode, workers, limit, (n - 1) as nat);
        let slice = backfill::slice_of((n - 1) as nat, workers);
        logs_drained(before, decode, 0, slice.0 as nat, slice.1 as nat, limit)
    }
}

/// A read of a log hands out the first of its records, and the others stay.
proof fn lemma_read<T>(l: LogAndDisk, decode: spec_fn(Seq<u8>) -> Option<T>, limit: nat)
    requires
        l.ready(),
    ensures
        ({
            let recs = decoded(l.contents(), decode);
            let n = shards::reads(recs, limit);
            let on = l.after_read(limit);
            &&& laws::in_order(on.log, on.disk)
            &&& decoded(on.contents(), decode) =~= recs.skip(n as int)
        }),
{
    laws::law_read_takes_first(l.log, l.disk, limit);
}

/// Draining the logs is draining the shards that they hold.
proof fn lemma_logs_drained<T>(
    logs: Seq<LogAndDisk>,
    decode: spec_fn(Seq<u8>) -> Option<T>,
    so_far: shards::Drained<T>,
    shard: nat,
    end: nat,
    limit: nat,
)
    requires
        end <= logs.len(),
        so_far.left == held(logs, decode),
        forall|i: int|
            0 <= i < logs.len() ==> laws::in_order((#[trigger] logs[i]).log, logs[i].disk),
        forall|i: int| shard <= i < end ==> (#[trigger] logs[i]).ready(),
    ensures
        ({
            let after = logs_drained(logs, decode, so_far.out.len(), shard, end, limit);
            &&& after.len() == logs.len()
            &&& held(after, decode) =~= shards::drained_from(so_far, shard, end, limit).left
            &&& forall|i: int|
                0 <= i < logs.len() ==> laws::in_order((#[trigger] after[i]).log, after[i].disk)
            &&& forall|i: int|
                0 <= i < logs.len() && !(shard <= i < end) ==> #[trigger] after[i] == logs[i]
        }),
    decreases end - shard,
{
    if shard < end && so_far.out.len() < limit {
        let room = (limit - so_far.out.len()) as nat;
        let l = logs[shard as int];
        assert(l.ready());
        lemma_read(l, decode, room);
        let recs = decoded(l.contents(), decode);
        let n = shards::reads(recs, room);
        let jobs = backfill::kept(recs.take(n as int));
        let on = logs.update(shard as int, l.after_read(room));
        assert(so_far.left.shards[shard as int] == recs);
        let next = shards::Drained {
            out: so_far.out + backfill::tagged(shard, jobs),
            dropped: (so_far.dropped + n - jobs.len()) as nat,
            left: shards::ShardsView {
                shards: so_far.left.shards.update(shard as int, recs.skip(n as int)),
                ..so_far.left
            },
        };
        assert(next.left =~= held(on, decode));
        assert forall|i: int| shard + 1 <= i < end implies (#[trigger] on[i]).ready() by {
            assert(logs[i].ready());
        }
        lemma_logs_drained(on, decode, next, shard + 1, end, limit);
    }
}

/// What the first workers leave of the logs.
proof fn lemma_logs_drained_by<T>(
    logs: Seq<LogAndDisk>,
    decode: spec_fn(Seq<u8>) -> Option<T>,
    workers: nat,
    limit: nat,
    n: nat,
)
    requires
        n <= workers,
        workers > 0,
        logs.len() == BACKFILL_SHARDS,
        forall|i: int| 0 <= i < logs.len() ==> (#[trigger] logs[i]).ready(),
    ensures
        ({
            let after = logs_drained_by(logs, decode, workers, limit, n);
            let end = if n == 0 {
                0
            } else {
                backfill::slice_of((n - 1) as nat, workers).1
            };
            &&& after.len() == logs.len()
            &&& held(after, decode) =~= shards::drained_by(held(logs, decode), workers, limit, n).left
            &&& forall|i: int|
                0 <= i < logs.len() ==> laws::in_order((#[trigger] after[i]).log, after[i].disk)
            &&& forall|i: int| end <= i < logs.len() ==> #[trigger] after[i] == logs[i]
        }),
    decreases n,
{
    if n > 0 {
        let m = (n - 1) as nat;
        lemma_logs_drained_by(logs, decode, workers, limit, m);
        backfill::law_slices_cover_the_shards(m, workers);
        if m > 0 {
            backfill::law_slices_cover_the_shards((m - 1) as nat, workers);
        }
        let before = logs_drained_by(logs, decode, workers, limit, m);
        let (s, e) = backfill::slice_of(m, workers);
        let queue = held(before, decode);
        let none = queue.priority;
        assert(none.take(0) =~= Seq::empty() && none.skip(0) =~= none);
        assert(backfill::tagged(
            BACKFILL_SHARDS as nat,
            backfill::kept(none.take(0)),
        ) =~= Seq::empty());
        let so_far = shards::Drained { out: Seq::empty(), dropped: 0, left: queue };
        assert(queue =~= shards::ShardsView { priority: none.skip(0), ..queue });
        assert(shards::drained(queue, s as nat, e as nat, limit) == shards::drained_from(
            so_far,
            s as nat,
            e as nat,
            limit,
        ));
        assert forall|i: int| s <= i < e implies (#[trigger] before[i]).ready() by {
            assert(before[i] == logs[i]);
            assert(logs[i].ready());
        }
        lemma_logs_drained(before, decode, so_far, s as nat, e as nat, limit);
    }
}

/// All workers together drain every job once: of logs in order, with nothing
/// queued with priority and with room for all records in each worker's limit,
/// their results joined are all jobs of all shards, no key occurs twice in
/// them, what was not handed out could not be decoded, and every log is empty
/// afterwards. This holds for any number of workers.
pub proof fn law_workers_drain_the_logs_once<T>(
    logs: Seq<LogAndDisk>,
    decode: spec_fn(Seq<u8>) -> Option<T>,
    workers: nat,
    limit: nat,
)
    requires
        workers > 0,
        logs.len() == BACKFILL_SHARDS,
        forall|i: int| 0 <= i < logs.len() ==> (#[trigger] logs[i]).ready(),
        shards::records_between(held(logs, decode).shards, 0, BACKFILL_SHARDS as nat) <= limit,
    ensures
        ({
            let queue = held(logs, decode);
            let d = shards::drained_by(queue, workers, limit, workers);
            let after = logs_drained_by(logs, decode, workers, limit, workers);
            let all = BACKFILL_SHARDS as nat;
            &&& d.out =~= shards::jobs_between(queue.shards, 0, all)
            &&& shards::keys_differ(d.out)
            &&& d.dropped == shards::records_between(queue.shards, 0, all) - d.out.len()
            &&& after.len() == BACKFILL_SHARDS
            &&& held(after, decode) =~= d.left
            &&& forall|i: int|
                0 <= i < after.len() ==> (#[trigger] after[i]).contents().len() == 0
                    && after[i].log.unread == 0
        }),
{
    let queue = held(logs, decode);
    let all = BACKFILL_SHARDS as nat;
    assert forall|s: int, i: int, j: int|
        0 <= s < queue.shards.len() && 0 <= i < j < queue.shards[s].len() implies (
    #[trigger] queue.shards[s][i]).0 != (#[trigger] queue.shards[s][j]).0 by {
        let l = logs[s];
        assert(l.ready());
        laws::law_keys_ascend(l.log, l.disk);
        assert(bytes::lex_before(l.contents()[i].0, l.contents()[j].0));
        pos::lemma_lex_irreflexive(l.contents()[i].0);
    }
    shards::law_workers_drain_every_job_once(queue, workers, limit);
    lemma_logs_drained_by(logs, decode, workers, limit, workers);
    let after = logs_drained_by(logs, decode, workers, limit, workers);
    let left = held(after, decode).shards;
    shards::lemma_nothing_between(left, 0, all);
    assert forall|i: int| 0 <= i < after.len() implies (#[trigger] after[i]).contents().len() == 0
        && after[i].log.unread == 0 by {
        assert(left[i] =~= Seq::empty());
        assert(left[i].len() == after[i].contents().len());
        assert(laws::in_order(after[i].log, after[i].disk));
    }
}

} // verus!
