//! How the functions of the storage fit together: what is queued by one is
//! taken by the other, and lengths are what they say.

use vstd::prelude::*;

use crate::backfill;
use crate::backfill::BackfillDrain;
use crate::error::WintermuteError;
use crate::files::FileRead;
use crate::log::SegmentedLog;
use crate::name_map;
use crate::repo::{Level, Marks};
use crate::repo_ops::{RepoClear, RepoDequeue, RepoPeek, RepoPhase, RepoRemove};
use crate::storage;
use crate::storage::{Dequeue, Enqueue, LogId, Storage};
use crate::storage_open;

verus! {

/// A live job is taken from the log to which it was queued, as it was queued,
/// and so is a label event; the two logs are not the same. One call takes one,
/// and a batch as many as it was asked for.
pub proof fn law_live_queues_are_read_where_they_are_written(
    state: &Storage,
    payload: Vec<u8>,
    limit: usize,
    live: Enqueue,
    one: Dequeue,
    batch: Dequeue,
    label: Enqueue,
    event: Dequeue,
)
    requires
        call_ensures(Storage::enqueue_firehose_live, (state, payload), live),
        call_ensures(Storage::dequeue_firehose_live, (state,), one),
        call_ensures(Storage::dequeue_firehose_live_batch, (state, limit), batch),
        call_ensures(Storage::enqueue_label_live, (state, payload), label),
        call_ensures(Storage::dequeue_label_live, (state,), event),
    ensures
        live.payload == payload && label.payload == payload,
        one.log == live.log && batch.log == live.log && event.log == label.log,
        live.log != label.log,
        one.limit == 1 && event.limit == 1 && batch.limit == limit,
        storage::is_log(live.log) && storage::is_log(label.log),
        !(live.log is RepoBackfill) && !(live.log is FirehoseBackfillShard) && !(
        live.log is FirehoseBackfillPriority),
        !(label.log is RepoBackfill) && !(label.log is FirehoseBackfillShard) && !(
        label.log is FirehoseBackfillPriority),
{
}

/// Repositories are queued as they are given, each kind in its own log:
/// immediate ones in the level that is drained first, priority ones in the one
/// after it, normal ones in the last. A dequeue starts with the first of these
/// levels, with nothing found yet; one job is one, and a batch as many as it was
/// asked for.
pub proof fn law_repositories_are_queued_by_urgency(
    state: &Storage,
    payload: Vec<u8>,
    count: usize,
    immediate: Enqueue,
    priority: Enqueue,
    normal: Enqueue,
    one: RepoDequeue,
    batch: RepoDequeue,
)
    requires
        call_ensures(Storage::enqueue_backfill_immediate, (state, payload), immediate),
        call_ensures(Storage::enqueue_backfill_priority, (state, payload), priority),
        call_ensures(Storage::enqueue_backfill, (state, payload), normal),
        call_ensures(Storage::dequeue_backfill, (state,), one),
        call_ensures(Storage::dequeue_backfill_batch, (state, count), batch),
    ensures
        immediate.payload == payload && priority.payload == payload && normal.payload == payload,
        immediate.log is RepoBackfill && priority.log is RepoBackfill && normal.log is RepoBackfill,
        ({
            let first = immediate.log->RepoBackfill_0;
            let second = priority.log->RepoBackfill_0;
            let third = normal.log->RepoBackfill_0;
            &&& first.following() == Some(second)
            &&& second.following() == Some(third)
            &&& third.following() is None
            &&& one@.level == first && batch@.level == first
        }),
        one@.count == 1 && batch@.count == count,
        one@.phase == RepoPhase::Start && batch@.phase == RepoPhase::Start,
        one@.out.len() == 0 && batch@.out.len() == 0,
        one@.dropped == 0 && batch@.dropped == 0,
{
}

/// Backfilled records are queued as they are given: urgent ones in the priority
/// log, others in a shard that there is. A drain without a slice covers every
/// shard; one job is one, and a batch as many as it was asked for.
pub proof fn law_backfilled_records_are_queued_by_urgency<T>(
    state: &Storage,
    payload: Vec<u8>,
    limit: usize,
    urgent: Enqueue,
    other: Enqueue,
    one: BackfillDrain<T>,
    batch: BackfillDrain<T>,
)
    requires
        call_ensures(Storage::enqueue_firehose_backfill_priority, (state, payload), urgent),
        call_ensures(Storage::enqueue_firehose_backfill, (state, payload), other),
        call_ensures(Storage::dequeue_firehose_backfill::<T>, (state,), one),
        call_ensures(Storage::dequeue_firehose_backfill_batch::<T>, (state, limit), batch),
    ensures
        urgent.payload == payload && other.payload == payload,
        urgent.log == LogId::FirehoseBackfillPriority,
        other.log is FirehoseBackfillShard && storage::is_log(other.log),
        one@.shard == 0 && one@.end == 240 && one@.limit == 1,
        batch@.shard == 0 && batch@.end == 240 && batch@.limit == limit,
        one@.out.len() == 0 && one@.dropped == 0 && batch@.out.len() == 0 && batch@.dropped == 0,
{
}

/// Batches are queued record by record, in their order, as each would be alone.
pub proof fn law_batches_are_queued_in_order(
    state: &Storage,
    payloads: Vec<Vec<u8>>,
    urgent: Vec<Enqueue>,
    others: Vec<Enqueue>,
    i: int,
)
    requires
        call_ensures(
            Storage::enqueue_firehose_backfill_priority_batch,
            (state, payloads),
            urgent,
        ),
        call_ensures(Storage::enqueue_firehose_backfill_batch, (state, payloads), others),
        0 <= i < payloads@.len(),
    ensures
        urgent@.len() == payloads@.len() && others@.len() == payloads@.len(),
        urgent@[i].payload == payloads@[i] && others@[i].payload == payloads@[i],
        urgent@[i].log == LogId::FirehoseBackfillPriority,
        others@[i].log is FirehoseBackfillShard && storage::is_log(others@[i].log),
{
    assert(others@[i].payload == payloads@[i]);
}

/// A number picks a shard that there is, and every shard is picked by some
/// number: the numbers below that of the shards pick themselves, and it goes
/// round from there.
pub proof fn law_every_shard_can_be_picked(number: usize, shard: usize)
    requires
        call_ensures(backfill::shard_of, (number,), shard),
    ensures
        shard < 240,
        number < 240 ==> shard == number,
        240 <= number ==> shard == (number - 240) % 240,
{
}

/// Decoding leaves nothing out but what could not be decoded, and counts that:
/// jobs and left-out records together are all records.
pub proof fn law_decoding_counts_what_it_leaves_out<T>(
    records: Vec<(Vec<u8>, Option<T>)>,
    r: (Vec<(Vec<u8>, T)>, usize),
)
    requires
        call_ensures(backfill::decode_jobs::<T>, (records,), r),
    ensures
        r.0@.len() + r.1 == records@.len(),
        (forall|i: int| 0 <= i < records@.len() ==> (#[trigger] records@[i]).1 is Some) ==> r.1
            == 0,
        (forall|i: int| 0 <= i < records@.len() ==> (#[trigger] records@[i]).1 is None)
            ==> r.0@.len() == 0,
{
    let recs = backfill::records_of(records@);
    if forall|i: int| 0 <= i < records@.len() ==> (#[trigger] records@[i]).1 is Some {
        assert forall|i: int| 0 <= i < recs.len() implies (#[trigger] recs[i]).1 is Some by {
            assert(records@[i].1 is Some);
        }
        lemma_all_kept(recs);
    }
    if forall|i: int| 0 <= i < records@.len() ==> (#[trigger] records@[i]).1 is None {
        assert forall|i: int| 0 <= i < recs.len() implies (#[trigger] recs[i]).1 is None by {
            assert(records@[i].1 is None);
        }
        lemma_none_kept(recs);
    }
    assert(backfill::jobs_of(r.0@).len() == r.0@.len());
}

proof fn lemma_all_kept<T>(recs: Seq<(Seq<u8>, Option<T>)>)
    requires
        forall|i: int| 0 <= i < recs.len() ==> (#[trigger] recs[i]).1 is Some,
    ensures
        backfill::kept(recs).len() == recs.len(),
    decreases recs.len(),
{
    if recs.len() > 0 {
        assert(recs[recs.len() - 1].1 is Some);
        lemma_all_kept(recs.drop_last());
    }
}

proof fn lemma_none_kept<T>(recs: Seq<(Seq<u8>, Option<T>)>)
    requires
        forall|i: int| 0 <= i < recs.len() ==> (#[trigger] recs[i]).1 is None,
    ensures
        backfill::kept(recs).len() == 0,
    decreases recs.len(),
{
    if recs.len() > 0 {
        assert(recs[recs.len() - 1].1 is None);
        lemma_none_kept(recs.drop_last());
    }
}

/// The first job of a batch is the first that was read, and there is none only
/// if nothing was.
pub proof fn law_first_job_is_the_first<T>(
    batch: Vec<(Vec<u8>, T)>,
    job: Option<(Vec<u8>, T)>,
)
    requires
        call_ensures(storage::first_job::<T>, (batch,), job),
    ensures
        job is None <==> batch@.len() == 0,
        job is Some ==> job->0 == batch@[0],
{
}

/// The length of a log is its count of unread records, and it is empty if that
/// is zero. Both names of a length say the same.
pub proof fn law_lengths_are_unread_counts(
    state: &Storage,
    log: &SegmentedLog,
    len: usize,
    empty: bool,
    live: Result<usize, WintermuteError>,
    live_approx: usize,
    label: Result<usize, WintermuteError>,
    label_approx: usize,
)
    requires
        call_ensures(SegmentedLog::len, (log,), len),
        call_ensures(SegmentedLog::is_empty, (log,), empty),
        call_ensures(Storage::firehose_live_len, (state, log), live),
        call_ensures(Storage::firehose_live_approx_len, (state, log), live_approx),
        call_ensures(Storage::label_live_len, (state, log), label),
        call_ensures(Storage::label_live_approx_len, (state, log), label_approx),
    ensures
        log.unread <= usize::MAX ==> len == log.unread,
        log.unread > usize::MAX ==> len == usize::MAX,
        empty <==> len == 0,
        live == Ok::<usize, WintermuteError>(len) && label == Ok::<usize, WintermuteError>(len),
        live_approx == len && label_approx == len,
{
}

/// Unread records of logs taken together are those of each part.
proof fn lemma_unread_joins(a: Seq<SegmentedLog>, b: Seq<SegmentedLog>)
    ensures
        storage::unread_of(a + b) == storage::unread_of(a) + storage::unread_of(b),
    decreases b.len(),
{
    if b.len() == 0 {
        assert(a + b =~= a);
    } else {
        lemma_unread_joins(a, b.drop_last());
        assert((a + b).drop_last() =~= a + b.drop_last());
    }
}

/// The length of the backfill queue counts every unread record of the priority
/// log and of each shard once: one more log adds its unread records.
pub proof fn law_backfill_length_counts_every_log(
    state: &Storage,
    priority: &SegmentedLog,
    shards: &Vec<SegmentedLog>,
    fewer: &Vec<SegmentedLog>,
    log: SegmentedLog,
    len: Result<usize, WintermuteError>,
    less: Result<usize, WintermuteError>,
    at: int,
)
    requires
        call_ensures(Storage::firehose_backfill_len, (state, priority, shards), len),
        call_ensures(Storage::firehose_backfill_len, (state, priority, fewer), less),
        0 <= at <= fewer@.len(),
        shards@ == fewer@.insert(at, log),
    ensures
        len is Ok && less is Ok,
        len->Ok_0 < usize::MAX ==> len->Ok_0 == less->Ok_0 + log.unread,
        fewer@.len() == 0 && priority.unread <= usize::MAX ==> less->Ok_0 == priority.unread,
{
    let (a, b) = (fewer@.take(at), fewer@.skip(at));
    let one = seq![log];
    lemma_unread_joins(a, b);
    lemma_unread_joins(a, one);
    lemma_unread_joins(a + one, b);
    assert(a + b =~= fewer@);
    assert((a + one) + b =~= shards@);
    assert(one.drop_last() =~= Seq::empty());
    reveal_with_fuel(storage::unread_of, 2);
}

/// How many repositories are queued: the records of the three levels less the
/// marks, and none if there are as many marks. Clearing gives that number.
pub proof fn law_repository_length_leaves_out_the_marked(
    state: &Storage,
    immediate: usize,
    priority: usize,
    normal: usize,
    len: Result<usize, WintermuteError>,
    approx: usize,
    clear: RepoClear,
)
    requires
        call_ensures(Storage::repo_backfill_len, (state, immediate, priority, normal), len),
        call_ensures(
            Storage::repo_backfill_approx_len,
            (state, immediate, priority, normal),
            approx,
        ),
        call_ensures(Storage::clear_repo_backfill, (state, immediate, priority, normal), clear),
        immediate + priority + normal <= usize::MAX,
    ensures
        ({
            let queued = immediate + priority + normal;
            let marked = state.repo_backfill@.total();
            &&& len == Ok::<usize, WintermuteError>(approx)
            &&& approx == if queued >= marked {
                queued - marked
            } else {
                0
            }
            &&& clear.live == approx
            &&& clear.phase == RepoPhase::Start
            &&& clear.level == Level::Immediate
        }),
{
}

/// The marks together are those of the levels and those without a level, and
/// the marks of a map are those of each of its names.
pub proof fn law_marks_are_counted_once(
    marks: Marks,
    map: Map<Seq<char>, u64>,
    did: Seq<char>,
    count: u64,
)
    requires
        map.dom().finite(),
        !map.contains_key(did),
    ensures
        name_map::total(map.insert(did, count)) == name_map::total(map) + count,
        name_map::total(Map::<Seq<char>, u64>::empty()) == 0,
        Marks::none().total() == 0,
        marks.total() == name_map::total(marks.immediate) + name_map::total(marks.priority)
            + name_map::total(marks.normal) + name_map::total(marks.bare),
{
    name_map::lemma_total_with(map, did, count);
    assert(map.remove(did) =~= map);
}

/// A peek shows what the marks of the storage let through, and a removal is one
/// of the identifier that it was given.
pub proof fn law_operator_helpers_use_the_marks(
    state: &Storage,
    limit: usize,
    did: &str,
    peek: RepoPeek,
    removal: RepoRemove,
)
    requires
        call_ensures(Storage::peek_backfill, (state, limit), peek),
        call_ensures(Storage::remove_backfill_by_did, (state, did), removal),
    ensures
        peek@.marks == state.repo_backfill@,
        peek@.limit == limit,
        peek@.level == Level::Immediate && peek@.out.len() == 0,
        removal@.did == did@,
        removal@.level == Level::Immediate,
        removal@.phase == RepoPhase::Start && peek@.phase == RepoPhase::Start,
        forall|level: Level| removal@.found.at(level) == 0,
{
}

/// Removing by key does nothing and succeeds: what was taken is gone already.
pub proof fn law_taken_jobs_need_no_removal(
    state: &Storage,
    key: &[u8],
    repository: Result<(), WintermuteError>,
    live: Result<(), WintermuteError>,
    backfill: Result<(), WintermuteError>,
    label: Result<(), WintermuteError>,
)
    requires
        call_ensures(Storage::remove_backfill, (state, key), repository),
        call_ensures(Storage::remove_firehose_live, (state, key), live),
        call_ensures(Storage::remove_firehose_backfill, (state, key), backfill),
        call_ensures(Storage::remove_label_live, (state, key), label),
    ensures
        repository is Ok && live is Ok && backfill is Ok && label is Ok,
{
}

/// A cursor has the value that it was given, and others none.
pub proof fn law_cursors_are_looked_up_by_name(
    state: &Storage,
    name: &str,
    value: Result<Option<i64>, WintermuteError>,
)
    requires
        call_ensures(Storage::get_cursor, (state, name), value),
    ensures
        value is Ok,
        value->Ok_0 is Some <==> state.cursors.map@.contains_key(name@),
        value->Ok_0 is Some ==> value->Ok_0->0 == state.cursors.map@[name@],
{
}

/// An event that has a file is what the file holds, one without a file is none,
/// and a file that cannot be read is an error of the operating system, not a
/// missing event.
pub proof fn law_only_a_missing_file_is_a_missing_event(
    file: FileRead,
    event: Result<Option<Vec<u8>>, WintermuteError>,
)
    requires
        call_ensures(storage::found_event, (file,), event),
    ensures
        event matches Ok(None) <==> file is Missing,
        event matches Ok(Some(bytes)) ==> file == FileRead::Bytes(bytes),
        file is Bytes ==> event is Ok && event->Ok_0 is Some,
        file matches FileRead::Failed(error) ==> event == Err::<
            Option<Vec<u8>>,
            WintermuteError,
        >(WintermuteError::Io(error)),
{
}

/// Only damage counts as damage: an error of the operating system, a value that
/// cannot be decoded or anything else is no reason to create the storage anew.
pub proof fn law_only_storage_errors_are_damage(error: &WintermuteError, damaged: bool)
    requires
        call_ensures(WintermuteError::is_storage_corrupted, (error,), damaged),
    ensures
        match error {
            WintermuteError::Storage(_) => damaged,
            WintermuteError::Serialization(_) => !damaged,
            WintermuteError::Io(_) => !damaged,
            WintermuteError::Other(_) => !damaged,
        },
{
}

/// The storage directory is the one that was named, or `backfill_cache`.
pub proof fn law_storage_directory(db_path: Option<String>, path: String)
    requires
        call_ensures(storage_open::storage_path, (db_path,), path),
    ensures
        db_path is Some ==> path@ == db_path->0@,
        db_path is None ==> path@ == "backfill_cache"@,
{
}

} // verus!
