//! The queues and the small state of the storage, and where each is kept.
//!
//! Layout under the storage directory:
//!
//! ```text
//! firehose_live/                 log of live jobs
//! label_live/                    log of label events
//! repo_backfill/{immediate,priority,normal}/
//!                                three logs drained in that order
//! repo_backfill/cancelled.cbor   marks of the jobs that operators removed
//! firehose_backfill/priority/    log that all workers drain first
//! firehose_backfill/shard_NNN/   logs sliced across workers
//! cursors.cbor                   map from names to numbers
//! firehose_events/<seq>.cbor     one file per event
//! ```

use vstd::prelude::*;
use vstd::string::StringExecFns;

use crate::backfill;
use crate::backfill::{partition, random_shard, BackfillDrain, BACKFILL_SHARDS};
use crate::cbor;
use crate::cursors;
use crate::cursors::{CursorChange, CursorFile};
use crate::error::WintermuteError;
use crate::files::{AtomicPhase, AtomicWrite, FileRead};
use crate::log::SegmentedLog;
use crate::names;
use crate::names::{event_path, shard_dir};
use crate::repo;
use crate::repo::{Level, RepoBackfillQueue};
use crate::repo_ops;
use crate::repo_ops::{RepoClear, RepoDequeue, RepoPeek, RepoRemove};

verus! {

/// The logs of the storage.
#[derive(Clone, Copy, Debug, PartialEq, Eq, Structural)]
pub enum LogId {
    RepoBackfill(Level),
    FirehoseLive,
    LabelLive,
    FirehoseBackfillPriority,
    FirehoseBackfillShard(usize),
}

/// The directory of a log, below the storage directory.
pub open spec fn directory_of(log: LogId) -> Seq<char> {
    match log {
        LogId::RepoBackfill(Level::Immediate) => "repo_backfill/immediate"@,
        LogId::RepoBackfill(Level::Priority) => "repo_backfill/priority"@,
        LogId::RepoBackfill(Level::Normal) => "repo_backfill/normal"@,
        LogId::FirehoseLive => "firehose_live"@,
        LogId::LabelLive => "label_live"@,
        LogId::FirehoseBackfillPriority => "firehose_backfill/priority"@,
        LogId::FirehoseBackfillShard(shard) => "firehose_backfill/"@ + names::shard_name(
            shard as nat,
        ),
    }
}

/// The directory of a log, below the storage directory.
pub fn log_dir(log: LogId) -> (dir: String)
    ensures
        dir@ == directory_of(log),
{
    match log {
        LogId::RepoBackfill(Level::Immediate) => "repo_backfill/immediate".to_owned(),
        LogId::RepoBackfill(Level::Priority) => "repo_backfill/priority".to_owned(),
        LogId::RepoBackfill(Level::Normal) => "repo_backfill/normal".to_owned(),
        LogId::FirehoseLive => "firehose_live".to_owned(),
        LogId::LabelLive => "label_live".to_owned(),
        LogId::FirehoseBackfillPriority => "firehose_backfill/priority".to_owned(),
        LogId::FirehoseBackfillShard(shard) => {
            let mut dir: String = "firehose_backfill/".to_owned();
            let name: String = shard_dir(shard);
            dir.append(name.as_str());
            dir
        },
    }
}

/// A log that there is.
pub open spec fn is_log(log: LogId) -> bool {
    log matches LogId::FirehoseBackfillShard(shard) ==> shard < BACKFILL_SHARDS
}

/// No two logs share a directory.
pub proof fn law_logs_have_their_own_directories(a: LogId, b: LogId)
    requires
        is_log(a),
        is_log(b),
        a != b,
    ensures
        directory_of(a) != directory_of(b),
{
    reveal_strlit("repo_backfill/immediate");
    reveal_strlit("repo_backfill/priority");
    reveal_strlit("repo_backfill/normal");
    reveal_strlit("firehose_live");
    reveal_strlit("label_live");
    reveal_strlit("firehose_backfill/priority");
    reveal_strlit("firehose_backfill/");
    let prefix = "firehose_backfill/"@;
    if a is FirehoseBackfillShard {
        let s = names::shard_name(a->FirehoseBackfillShard_0 as nat);
        names::lemma_shard_name(a->FirehoseBackfillShard_0 as nat);
        assert((prefix + s).skip(18) =~= s);
        assert(directory_of(a)[18] == 's');
        assert(directory_of(a)[9] == 'b');
    }
    if b is FirehoseBackfillShard {
        let s = names::shard_name(b->FirehoseBackfillShard_0 as nat);
        names::lemma_shard_name(b->FirehoseBackfillShard_0 as nat);
        assert((prefix + s).skip(18) =~= s);
        assert(directory_of(b)[18] == 's');
        assert(directory_of(b)[9] == 'b');
    }
    if a is FirehoseBackfillShard && b is FirehoseBackfillShard {
        names::law_shard_names_are_distinct(
            a->FirehoseBackfillShard_0 as nat,
            b->FirehoseBackfillShard_0 as nat,
        );
    }
    if directory_of(a) == directory_of(b) {
        let (x, y) = (directory_of(a), directory_of(b));
        assert(x.len() == y.len());
        assert(x[0] == y[0]);
        assert(x[9] == y[9]);
        if x.len() > 18 {
            assert(x[18] == y[18]);
        }
    }
}

/// A payload to append to a log.
#[derive(Debug)]
pub struct Enqueue {
    pub log: LogId,
    pub payload: Vec<u8>,
}

/// A number of records to read and consume of a log. Those that cannot be
/// decoded are left out by `decode_jobs`.
#[derive(Clone, Copy, Debug, PartialEq, Eq, Structural)]
pub struct Dequeue {
    pub log: LogId,
    pub limit: usize,
}

/// The small state of the storage: the cursors, and the marks of the
/// repository backfill queue. The queues themselves are logs.
#[derive(Debug)]
pub struct Storage {
    pub cursors: CursorFile,
    pub repo_backfill: RepoBackfillQueue,
}

/// The name of the file of cursors.
pub open spec fn cursors_name() -> Seq<char> {
    "cursors.cbor"@
}

/// The first job of a batch, if there is one.
pub fn first_job<T>(batch: Vec<(Vec<u8>, T)>) -> (job: Option<(Vec<u8>, T)>)
    ensures
        job == if batch@.len() == 0 {
            None
        } else {
            Some(batch@[0])
        },
{
    let mut batch: Vec<(Vec<u8>, T)> = batch;
    if batch.len() == 0 {
        None
    } else {
        Some(batch.remove(0))
    }
}

/// What was read of an event. An event without a file is none.
pub fn found_event(file: FileRead) -> (event: Result<Option<Vec<u8>>, WintermuteError>)
    ensures
        match file {
            FileRead::Bytes(bytes) => event == Ok::<Option<Vec<u8>>, WintermuteError>(Some(bytes)),
            FileRead::Missing => event == Ok::<Option<Vec<u8>>, WintermuteError>(None),
            FileRead::Failed(error) => event == Err::<Option<Vec<u8>>, WintermuteError>(
                WintermuteError::Io(error),
            ),
        },
{
    match file {
        FileRead::Bytes(bytes) => Ok(Some(bytes)),
        FileRead::Missing => Ok(None),
        FileRead::Failed(error) => Err(WintermuteError::Io(error)),
    }
}

impl Storage {
    pub open spec fn wf(&self) -> bool {
        self.cursors.wf() && self.repo_backfill.wf()
    }

    // ---- firehose_events ----

    /// Writes event `seq`, encoded as `bytes`, to its file.
    pub fn write_firehose_event(&self, seq: i64, bytes: Vec<u8>) -> (op: AtomicWrite)
        ensures
            op.phase == AtomicPhase::Start,
            op.name@ == names::event_name(seq),
            op.bytes == bytes,
    {
        AtomicWrite::new(event_path(seq), bytes)
    }

    /// The file of event `seq`, whose contents `found_event` takes.
    pub fn read_firehose_event(&self, seq: i64) -> (name: String)
        ensures
            name@ == names::event_name(seq),
    {
        event_path(seq)
    }

    // ---- repo_backfill ----

    /// Queues a backfill job with normal priority. Normal jobs are processed
    /// after all priority jobs.
    pub fn enqueue_backfill(&self, payload: Vec<u8>) -> (r: Enqueue)
        ensures
            r == (Enqueue { log: LogId::RepoBackfill(Level::Normal), payload }),
    {
        Enqueue { log: LogId::RepoBackfill(Level::Normal), payload }
    }

    /// Queues a backfill job with high priority. Priority jobs are processed
    /// before all normal jobs.
    pub fn enqueue_backfill_priority(&self, payload: Vec<u8>) -> (r: Enqueue)
        ensures
            r == (Enqueue { log: LogId::RepoBackfill(Level::Priority), payload }),
    {
        Enqueue { log: LogId::RepoBackfill(Level::Priority), payload }
    }

    /// Queues a backfill job that is processed before all others.
    pub fn enqueue_backfill_immediate(&self, payload: Vec<u8>) -> (r: Enqueue)
        ensures
            r == (Enqueue { log: LogId::RepoBackfill(Level::Immediate), payload }),
    {
        Enqueue { log: LogId::RepoBackfill(Level::Immediate), payload }
    }

    /// Takes one job.
    pub fn dequeue_backfill(&self) -> (op: RepoDequeue)
        ensures
            op@ =~= repo_ops::RepoDequeueView::start(1),
    {
        RepoDequeue::new(1)
    }

    /// Takes up to `count` jobs: immediate, then priority, then normal, each
    /// in arrival order.
    pub fn dequeue_backfill_batch(&self, count: usize) -> (op: RepoDequeue)
        ensures
            op@ =~= repo_ops::RepoDequeueView::start(count as nat),
    {
        RepoDequeue::new(count)
    }

    /// Does nothing: a job is removed when it is taken.
    pub fn remove_backfill(&self, key: &[u8]) -> (r: Result<(), WintermuteError>)
        ensures
            r == Ok::<(), WintermuteError>(()),
    {
        let _ = key;
        Ok(())
    }

    // ---- firehose_live ----

    /// Queues a live job. Keys are log positions, so that jobs are taken in
    /// arrival order.
    pub fn enqueue_firehose_live(&self, payload: Vec<u8>) -> (r: Enqueue)
        ensures
            r == (Enqueue { log: LogId::FirehoseLive, payload }),
    {
        Enqueue { log: LogId::FirehoseLive, payload }
    }

    /// Takes one live job.
    pub fn dequeue_firehose_live(&self) -> (r: Dequeue)
        ensures
            r == (Dequeue { log: LogId::FirehoseLive, limit: 1 }),
    {
        Dequeue { log: LogId::FirehoseLive, limit: 1 }
    }

    /// Takes up to `limit` live jobs in arrival order.
    pub fn dequeue_firehose_live_batch(&self, limit: usize) -> (r: Dequeue)
        ensures
            r == (Dequeue { log: LogId::FirehoseLive, limit }),
    {
        Dequeue { log: LogId::FirehoseLive, limit }
    }

    /// Does nothing: a job is removed when it is taken.
    pub fn remove_firehose_live(&self, key: &[u8]) -> (r: Result<(), WintermuteError>)
        ensures
            r == Ok::<(), WintermuteError>(()),
    {
        let _ = key;
        Ok(())
    }

    // ---- firehose_backfill ----

    /// Queues a backfilled record with normal priority in a random shard.
    pub fn enqueue_firehose_backfill(&self, payload: Vec<u8>) -> (r: Enqueue)
        ensures
            r.log is FirehoseBackfillShard,
            r.log->FirehoseBackfillShard_0 < BACKFILL_SHARDS,
            r.payload == payload,
    {
        Enqueue { log: LogId::FirehoseBackfillShard(random_shard()), payload }
    }

    /// Queues backfilled records with normal priority, each in a random shard,
    /// in their order.
    pub fn enqueue_firehose_backfill_batch(&self, payloads: Vec<Vec<u8>>) -> (r: Vec<Enqueue>)
        ensures
            r@.len() == payloads@.len(),
            forall|i: int|
                0 <= i < payloads@.len() ==> {
                    &&& (#[trigger] r@[i]).payload == payloads@[i]
                    &&& r@[i].log is FirehoseBackfillShard
                    &&& r@[i].log->FirehoseBackfillShard_0 < BACKFILL_SHARDS
                },
    {
        let mut out: Vec<Enqueue> = Vec::new();
        let ghost all = payloads@;
        for payload in it: payloads
            invariant
                it.seq() == all,
                out@.len() == it.index(),
                forall|i: int|
                    0 <= i < it.index() ==> {
                        &&& (#[trigger] out@[i]).payload == all[i]
                        &&& out@[i].log is FirehoseBackfillShard
                        &&& out@[i].log->FirehoseBackfillShard_0 < BACKFILL_SHARDS
                    },
        {
            out.push(self.enqueue_firehose_backfill(payload));
        }
        out
    }

    /// Queues a backfilled record with high priority. Priority records are
    /// indexed before all normal ones.
    pub fn enqueue_firehose_backfill_priority(&self, payload: Vec<u8>) -> (r: Enqueue)
        ensures
            r == (Enqueue { log: LogId::FirehoseBackfillPriority, payload }),
    {
        Enqueue { log: LogId::FirehoseBackfillPriority, payload }
    }

    /// Queues backfilled records with high priority, in their order.
    pub fn enqueue_firehose_backfill_priority_batch(&self, payloads: Vec<Vec<u8>>) -> (r: Vec<
        Enqueue,
    >)
        ensures
            r@ =~= payloads@.map_values(
                |payload: Vec<u8>| Enqueue { log: LogId::FirehoseBackfillPriority, payload },
            ),
    {
        let mut out: Vec<Enqueue> = Vec::new();
        let ghost all = payloads@;
        for payload in it: payloads
            invariant
                it.seq() == all,
                out@.len() == it.index(),
                forall|i: int|
                    0 <= i < it.index() ==> #[trigger] out@[i] == (Enqueue {
                        log: LogId::FirehoseBackfillPriority,
                        payload: all[i],
                    }),
        {
            out.push(self.enqueue_firehose_backfill_priority(payload));
        }
        out
    }

    /// Takes one backfilled record.
    pub fn dequeue_firehose_backfill<T>(&self) -> (op: BackfillDrain<T>)
        ensures
            op@ =~= backfill::BackfillDrainView::start(0, BACKFILL_SHARDS as nat, 1),
            op@.wf(),
    {
        BackfillDrain::new(0, BACKFILL_SHARDS, 1)
    }

    /// Takes up to `limit` backfilled records: priority first, then every shard
    /// in order.
    pub fn dequeue_firehose_backfill_batch<T>(&self, limit: usize) -> (op: BackfillDrain<T>)
        ensures
            op@ =~= backfill::BackfillDrainView::start(0, BACKFILL_SHARDS as nat, limit as nat),
            op@.wf(),
    {
        BackfillDrain::new(0, BACKFILL_SHARDS, limit)
    }

    /// Takes up to `limit` backfilled records for one of several workers:
    /// priority first, then the shards of its slice in order. Each shard is its
    /// own log with its own head, so that workers never contend except on the
    /// shared priority log.
    pub fn dequeue_firehose_backfill_partitioned<T>(
        &self,
        worker_id: usize,
        num_workers: usize,
        limit: usize,
    ) -> (op: BackfillDrain<T>)
        requires
            worker_id < usize::MAX,
            (worker_id + 1) * (BACKFILL_SHARDS as int / (if num_workers == 0 {
                1
            } else {
                num_workers as int
            })) <= usize::MAX,
        ensures
            ({
                let (start, end) = backfill::slice_of(worker_id as nat, num_workers as nat);
                op@ =~= backfill::BackfillDrainView::start(start as nat, end as nat, limit as nat)
            }),
            op@.wf(),
    {
        let (start, end): (usize, usize) = partition(worker_id, num_workers);
        BackfillDrain::new(start, end, limit)
    }

    /// Does nothing: a record is removed when it is taken.
    pub fn remove_firehose_backfill(&self, key: &[u8]) -> (r: Result<(), WintermuteError>)
        ensures
            r == Ok::<(), WintermuteError>(()),
    {
        let _ = key;
        Ok(())
    }

    // ---- label_live ----

    /// Queues a label event.
    pub fn enqueue_label_live(&self, payload: Vec<u8>) -> (r: Enqueue)
        ensures
            r == (Enqueue { log: LogId::LabelLive, payload }),
    {
        Enqueue { log: LogId::LabelLive, payload }
    }

    /// Takes one label event.
    pub fn dequeue_label_live(&self) -> (r: Dequeue)
        ensures
            r == (Dequeue { log: LogId::LabelLive, limit: 1 }),
    {
        Dequeue { log: LogId::LabelLive, limit: 1 }
    }

    /// Does nothing: an event is removed when it is taken.
    pub fn remove_label_live(&self, key: &[u8]) -> (r: Result<(), WintermuteError>)
        ensures
            r == Ok::<(), WintermuteError>(()),
    {
        let _ = key;
        Ok(())
    }

    // ---- cursors ----

    /// The value of cursor `name`, if it has one.
    pub fn get_cursor(&self, name: &str) -> (value: Result<Option<i64>, WintermuteError>)
        requires
            self.wf(),
        ensures
            value == Ok::<Option<i64>, WintermuteError>(
                if self.cursors.map@.contains_key(name@) {
                    Some(self.cursors.map@[name@])
                } else {
                    None
                },
            ),
    {
        Ok(self.cursors.get(name))
    }

    /// The replacement of the file of cursors after `change` was made.
    fn update_cursors(&mut self, change: CursorChange) -> (op: Result<
        AtomicWrite,
        WintermuteError,
    >)
        requires
            old(self).wf(),
        ensures
            final(self).wf(),
            final(self).cursors.map@ =~= cursors::changed(old(self).cursors.map@, change),
            final(self).repo_backfill == old(self).repo_backfill,
            writes_cursors(op, final(self).cursors.map@),
    {
        match self.cursors.update(change) {
            Ok(bytes) => Ok(AtomicWrite::new("cursors.cbor".to_owned(), bytes)),
            Err(error) => Err(error),
        }
    }

    /// Gives cursor `name` the value `value`. The file is to be replaced as
    /// the result says.
    pub fn set_cursor(&mut self, name: &str, value: i64) -> (op: Result<
        AtomicWrite,
        WintermuteError,
    >)
        requires
            old(self).wf(),
        ensures
            final(self).wf(),
            final(self).cursors.map@ =~= old(self).cursors.map@.insert(name@, value),
            final(self).repo_backfill == old(self).repo_backfill,
            writes_cursors(op, final(self).cursors.map@),
    {
        self.update_cursors(CursorChange::Put { name: name.to_owned(), value })
    }

    /// Deletes cursor `name`. The file is to be replaced as the result says.
    pub fn delete_cursor(&mut self, name: &str) -> (op: Result<AtomicWrite, WintermuteError>)
        requires
            old(self).wf(),
        ensures
            final(self).wf(),
            final(self).cursors.map@ =~= old(self).cursors.map@.remove(name@),
            final(self).repo_backfill == old(self).repo_backfill,
            writes_cursors(op, final(self).cursors.map@),
    {
        self.update_cursors(CursorChange::Delete { name: name.to_owned() })
    }

    // ---- lengths ----
    //
    // Every log tracks its unread count, so exact and approximate lengths are
    // the same read. Both names are kept for callers.

    /// How many repositories are queued, with so many records in the three
    /// levels.
    pub fn repo_backfill_len(&self, immediate: usize, priority: usize, normal: usize) -> (len:
        Result<usize, WintermuteError>)
        requires
            self.wf(),
        ensures
            len == Ok::<usize, WintermuteError>(
                repo::live(
                    repo::at_most_usize(immediate + priority + normal),
                    repo::at_most_usize(
                        self.repo_backfill@.total() as int,
                    ),
                ),
            ),
    {
        Ok(self.repo_backfill.len(immediate, priority, normal))
    }

    /// How many repositories are queued, with so many records in the three
    /// levels.
    pub fn repo_backfill_approx_len(&self, immediate: usize, priority: usize, normal: usize) -> (
        len: usize)
        requires
            self.wf(),
        ensures
            len == repo::live(
                repo::at_most_usize(immediate + priority + normal),
                repo::at_most_usize(self.repo_backfill@.total() as int),
            ),
    {
        self.repo_backfill.len(immediate, priority, normal)
    }

    /// How many live jobs are queued in their log.
    pub fn firehose_live_len(&self, log: &SegmentedLog) -> (len: Result<usize, WintermuteError>)
        ensures
            len == Ok::<usize, WintermuteError>(repo::at_most_usize(log.unread as int)),
    {
        Ok(log.len())
    }

    /// How many live jobs are queued in their log.
    pub fn firehose_live_approx_len(&self, log: &SegmentedLog) -> (len: usize)
        ensures
            len == repo::at_most_usize(log.unread as int),
    {
        log.len()
    }

    /// How many backfilled records are queued in their logs.
    pub fn firehose_backfill_len(&self, priority: &SegmentedLog, shards: &Vec<SegmentedLog>) -> (
        len: Result<usize, WintermuteError>)
        ensures
            len == Ok::<usize, WintermuteError>(
                repo::at_most_usize(priority.unread + unread_of(shards@)),
            ),
    {
        let mut len: usize = priority.len();
        let mut i: usize = 0;
        while i < shards.len()
            invariant
                i <= shards@.len(),
                len == repo::at_most_usize(priority.unread + unread_of(shards@.take(i as int))),
            decreases shards@.len() - i,
        {
            assert(shards@.take(i + 1).drop_last() =~= shards@.take(i as int));
            len = len.saturating_add(shards[i].len());
            i = i + 1;
        }
        assert(shards@.take(i as int) =~= shards@);
        Ok(len)
    }

    /// How many label events are queued in their log.
    pub fn label_live_len(&self, log: &SegmentedLog) -> (len: Result<usize, WintermuteError>)
        ensures
            len == Ok::<usize, WintermuteError>(repo::at_most_usize(log.unread as int)),
    {
        Ok(log.len())
    }

    /// How many label events are queued in their log.
    pub fn label_live_approx_len(&self, log: &SegmentedLog) -> (len: usize)
        ensures
            len == repo::at_most_usize(log.unread as int),
    {
        log.len()
    }

    // ---- operator helpers ----

    /// Shows the first repositories without removing them.
    pub fn peek_backfill(&self, limit: usize) -> (op: RepoPeek)
        requires
            self.wf(),
        ensures
            op@ =~= repo_ops::RepoPeekView::start(
                limit as nat,
                self.repo_backfill@,
            ),
            op.marks.wf(),
    {
        RepoPeek::new(limit, &self.repo_backfill)
    }

    /// Removes all entries of one identifier. Gives how many were removed.
    pub fn remove_backfill_by_did(&self, did: &str) -> (op: RepoRemove)
        ensures
            op@ =~= repo_ops::RepoRemoveView::start(did@),
    {
        RepoRemove::new(did.to_owned())
    }

    /// Removes all repositories, with so many records in the three levels.
    pub fn clear_repo_backfill(&self, immediate: usize, priority: usize, normal: usize) -> (op:
        RepoClear)
        requires
            self.wf(),
        ensures
            op == (RepoClear {
                phase: repo_ops::RepoPhase::Start,
                level: Level::Immediate,
                live: repo::live(
                    repo::at_most_usize(immediate + priority + normal),
                    repo::at_most_usize(
                        self.repo_backfill@.total() as int,
                    ),
                ),
            }),
    {
        RepoClear::new(self.repo_backfill.len(immediate, priority, normal))
    }
}

/// Unread records of the logs together.
pub open spec fn unread_of(logs: Seq<SegmentedLog>) -> nat
    decreases logs.len(),
{
    if logs.len() == 0 {
        0
    } else {
        unread_of(logs.drop_last()) + logs.last().unread as nat
    }
}

/// The file of cursors is to be replaced by `map`.
pub open spec fn writes_cursors(
    op: Result<AtomicWrite, WintermuteError>,
    map: Map<Seq<char>, i64>,
) -> bool {
    &&& op is Ok
    &&& op->Ok_0.phase == AtomicPhase::Start
    &&& op->Ok_0.name@ == cursors_name()
    &&& cbor::cbor_numbers(op->Ok_0.bytes@) == Some(map)
}

} // verus!
