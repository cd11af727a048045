//! The storage over directories in memory, with the payloads encoded as CBOR.

use std::collections::{HashMap, HashSet};

use wintermute_queue::backfill::{
    decode_jobs, BackfillDrain, DrainAction, DrainEvent, DrainStep,
};
use wintermute_queue::disk::Disk;
use wintermute_queue::error::WintermuteError;
use wintermute_queue::files::{AtomicStep, AtomicWrite, FileAction, FileRead};
use wintermute_queue::log::SegmentedLog;
use wintermute_queue::repo::{BackfillJob, Level};
use wintermute_queue::repo_ops::{RepoAction, RepoEvent, RepoStep};
use wintermute_queue::storage::{
    first_job, found_event, log_dir, Dequeue, Enqueue, LogId, Storage,
};
use wintermute_queue::storage_open::{
    NewEvent, NewStep, OpenAction, OpenEvent, OpenStep,
};

const SEGMENT_BYTES: u64 = 64 << 20;
const FSYNC_NANOS: u128 = 1_000_000_000;

/// What a storage directory holds.
#[derive(Default)]
struct World {
    disks: HashMap<String, Disk>,
    files: HashMap<String, Vec<u8>>,
}

/// An open storage.
struct Queues {
    world: World,
    logs: HashMap<String, SegmentedLog>,
    state: Storage,
}

struct IndexJob {
    uri: String,
    cid: String,
    action: String,
    record: Option<String>,
    indexed_at: String,
    rev: String,
    provenance: Option<String>,
}

type IndexTuple = (
    String,
    String,
    String,
    Option<String>,
    String,
    String,
    Option<String>,
);

impl IndexJob {
    fn encode(&self) -> Vec<u8> {
        let tuple = (
            &self.uri,
            &self.cid,
            &self.action,
            &self.record,
            &self.indexed_at,
            &self.rev,
            &self.provenance,
        );
        let mut out = Vec::new();
        ciborium::into_writer(&tuple, &mut out).unwrap();
        out
    }

    fn decode(bytes: &[u8]) -> Option<IndexJob> {
        let (uri, cid, action, record, indexed_at, rev, provenance): IndexTuple =
            ciborium::from_reader(bytes).ok()?;
        Some(IndexJob {
            uri,
            cid,
            action,
            record,
            indexed_at,
            rev,
            provenance,
        })
    }
}

fn encode_backfill(job: &BackfillJob) -> Vec<u8> {
    let mut out = Vec::new();
    ciborium::into_writer(&(&job.did, job.retry_count, job.priority), &mut out).unwrap();
    out
}

fn decode_backfill(bytes: &[u8]) -> Option<BackfillJob> {
    let (did, retry_count, priority): (String, u32, bool) = ciborium::from_reader(bytes).ok()?;
    Some(BackfillJob {
        did,
        retry_count,
        priority,
    })
}

fn index_job(uri: &str) -> IndexJob {
    IndexJob {
        uri: uri.to_owned(),
        cid: "cid".to_owned(),
        action: "create".to_owned(),
        record: Some("{\"test\":\"data\"}".to_owned()),
        indexed_at: "2025-01-01T00:00:00Z".to_owned(),
        rev: "rev".to_owned(),
        provenance: None,
    }
}

fn backfill_job(did: &str, priority: bool) -> BackfillJob {
    BackfillJob {
        did: did.to_owned(),
        retry_count: 0,
        priority,
    }
}

fn read_file(files: &HashMap<String, Vec<u8>>, path: &str) -> FileRead {
    match files.get(path) {
        Some(bytes) => FileRead::Bytes(bytes.clone()),
        None => FileRead::Missing,
    }
}

fn open_logs(
    world: &mut World,
) -> Result<(HashMap<String, SegmentedLog>, Storage), WintermuteError> {
    let mut logs = HashMap::new();
    let mut op = Storage::open_db();
    let mut event = OpenEvent::Start;
    loop {
        event = match op.step(event) {
            OpenStep::Do(OpenAction::CreateRoot | OpenAction::CreateDir { .. }) => {
                OpenEvent::Performed
            }
            OpenStep::Do(OpenAction::OpenLog { log }) => {
                let disk = world.disks.entry(log_dir(log)).or_insert_with(Disk::new);
                let opened = SegmentedLog::open(disk, SEGMENT_BYTES, FSYNC_NANOS).unwrap();
                logs.insert(log_dir(log), opened);
                OpenEvent::Performed
            }
            OpenStep::Do(OpenAction::ReadFile { path }) => {
                OpenEvent::File(read_file(&world.files, &path))
            }
            OpenStep::Done(storage) => return Ok((logs, storage)),
            OpenStep::Failed(error) => return Err(error),
        };
    }
}

fn new_storage(mut world: World) -> Result<Queues, WintermuteError> {
    let mut op = Storage::new();
    let mut event = NewEvent::Start;
    let mut logs = HashMap::new();
    loop {
        event = match op.step(event) {
            NewStep::Open => match open_logs(&mut world) {
                Ok((opened, storage)) => {
                    logs = opened;
                    NewEvent::Opened(Ok(storage))
                }
                Err(error) => NewEvent::Opened(Err(error)),
            },
            NewStep::RemoveAll => {
                world = World::default();
                NewEvent::Removed
            }
            NewStep::Done(state) => return Ok(Queues { world, logs, state }),
            NewStep::Failed(error) => return Err(error),
        };
    }
}

fn setup_test_storage() -> Queues {
    new_storage(World::default()).unwrap()
}

impl Queues {
    fn append(&mut self, enqueue: Enqueue) {
        let dir = log_dir(enqueue.log);
        let disk = self.world.disks.get_mut(&dir).unwrap();
        let log = self.logs.get_mut(&dir).unwrap();
        log.append(disk, &enqueue.payload).unwrap();
    }

    fn read(&mut self, log: LogId, limit: usize) -> Vec<(Vec<u8>, Vec<u8>)> {
        let dir = log_dir(log);
        let disk = self.world.disks.get_mut(&dir).unwrap();
        self.logs.get_mut(&dir).unwrap().read_batch(disk, limit).unwrap()
    }

    fn log(&self, log: LogId) -> &SegmentedLog {
        &self.logs[&log_dir(log)]
    }

    fn write(&mut self, prefix: &str, mut op: AtomicWrite) {
        let mut performed = false;
        loop {
            match op.step(performed) {
                AtomicStep::Do(FileAction::Write { name, bytes }) => {
                    self.world.files.insert(format!("{prefix}{name}"), bytes);
                }
                AtomicStep::Do(FileAction::Rename { from, to }) => {
                    let bytes = self.world.files.remove(&format!("{prefix}{from}")).unwrap();
                    self.world.files.insert(format!("{prefix}{to}"), bytes);
                }
                AtomicStep::Done => return,
                AtomicStep::Failed => panic!("a write failed"),
            }
            performed = true;
        }
    }

    fn perform_repo(&mut self, action: RepoAction) -> RepoEvent {
        let decode = |records: Vec<(Vec<u8>, Vec<u8>)>| {
            RepoEvent::Batch(
                records
                    .into_iter()
                    .map(|(key, bytes)| (key, decode_backfill(&bytes)))
                    .collect(),
            )
        };
        match action {
            RepoAction::Read { level, limit } => {
                decode(self.read(LogId::RepoBackfill(level), limit))
            }
            RepoAction::Peek { level, limit } => {
                let dir = log_dir(LogId::RepoBackfill(level));
                let disk = self.world.disks.get_mut(&dir).unwrap();
                decode(self.logs[&dir].peek(disk, limit).unwrap())
            }
            RepoAction::Visit { .. } => panic!("a visit is not read"),
            RepoAction::Persist { bytes } => {
                let write = AtomicWrite::new("cancelled.cbor".to_owned(), bytes);
                self.write("repo_backfill/", write);
                RepoEvent::Performed
            }
        }
    }

    fn enqueue_backfill(&mut self, job: &BackfillJob) {
        let enqueue = self.state.enqueue_backfill(encode_backfill(job));
        self.append(enqueue);
    }

    fn enqueue_backfill_priority(&mut self, job: &BackfillJob) {
        let enqueue = self.state.enqueue_backfill_priority(encode_backfill(job));
        self.append(enqueue);
    }

    fn enqueue_backfill_immediate(&mut self, job: &BackfillJob) {
        let enqueue = self.state.enqueue_backfill_immediate(encode_backfill(job));
        self.append(enqueue);
    }

    fn dequeue_backfill_batch(&mut self, count: usize) -> (Vec<(Vec<u8>, BackfillJob)>, usize) {
        let mut op = if count == 1 {
            self.state.dequeue_backfill()
        } else {
            self.state.dequeue_backfill_batch(count)
        };
        let mut event = RepoEvent::Start;
        loop {
            event = match op.step(&mut self.state.repo_backfill, event) {
                RepoStep::Do(action) => self.perform_repo(action),
                RepoStep::Done(out) => return out,
                RepoStep::Failed(error) => panic!("{error:?}"),
            };
        }
    }

    fn dequeue_backfill(&mut self) -> Option<(Vec<u8>, BackfillJob)> {
        first_job(self.dequeue_backfill_batch(1).0)
    }

    fn drain_dids(&mut self) -> Vec<String> {
        std::iter::from_fn(|| self.dequeue_backfill())
            .map(|(_, j)| j.did)
            .collect()
    }

    fn peek_backfill(&mut self, limit: usize) -> Vec<(Vec<u8>, BackfillJob)> {
        let mut op = self.state.peek_backfill(limit);
        let mut event = RepoEvent::Start;
        loop {
            event = match op.step(event) {
                RepoStep::Do(action) => self.perform_repo(action),
                RepoStep::Done(out) => return out,
                RepoStep::Failed(error) => panic!("{error:?}"),
            };
        }
    }

    fn remove_backfill_by_did(&mut self, did: &str) -> usize {
        let mut op = self.state.remove_backfill_by_did(did);
        let mut event = RepoEvent::Start;
        loop {
            event = match op.step(&mut self.state.repo_backfill, event) {
                RepoStep::Do(RepoAction::Visit { level }) => {
                    let dir = log_dir(LogId::RepoBackfill(level));
                    let disk = self.world.disks.get_mut(&dir).unwrap();
                    for payload in self.logs[&dir].for_each_unread(disk).unwrap() {
                        op.see(&decode_backfill(&payload));
                    }
                    RepoEvent::Performed
                }
                RepoStep::Do(action) => self.perform_repo(action),
                RepoStep::Done(removed) => return removed,
                RepoStep::Failed(error) => panic!("{error:?}"),
            };
        }
    }

    fn level_lens(&self) -> (usize, usize, usize) {
        (
            self.log(LogId::RepoBackfill(Level::Immediate)).len(),
            self.log(LogId::RepoBackfill(Level::Priority)).len(),
            self.log(LogId::RepoBackfill(Level::Normal)).len(),
        )
    }

    fn clear_repo_backfill(&mut self) -> usize {
        let (immediate, priority, normal) = self.level_lens();
        let mut op = self.state.clear_repo_backfill(immediate, priority, normal);
        let mut event = RepoEvent::Start;
        loop {
            event = match op.step(&mut self.state.repo_backfill, event) {
                RepoStep::Do(action) => self.perform_repo(action),
                RepoStep::Done(live) => return live,
                RepoStep::Failed(error) => panic!("{error:?}"),
            };
        }
    }

    fn repo_backfill_len(&self) -> usize {
        let (immediate, priority, normal) = self.level_lens();
        self.state
            .repo_backfill_len(immediate, priority, normal)
            .unwrap()
    }

    fn enqueue_firehose_live(&mut self, job: &IndexJob) {
        let enqueue = self.state.enqueue_firehose_live(job.encode());
        self.append(enqueue);
    }

    fn take(&mut self, dequeue: Dequeue) -> Vec<(Vec<u8>, IndexJob)> {
        let records = self.read(dequeue.log, dequeue.limit);
        decode_jobs(
            records
                .into_iter()
                .map(|(key, bytes)| (key, IndexJob::decode(&bytes)))
                .collect(),
        )
        .0
    }

    fn dequeue_firehose_live(&mut self) -> Option<(Vec<u8>, IndexJob)> {
        let dequeue = self.state.dequeue_firehose_live();
        first_job(self.take(dequeue))
    }

    fn dequeue_firehose_live_batch(&mut self, limit: usize) -> Vec<(Vec<u8>, IndexJob)> {
        let dequeue = self.state.dequeue_firehose_live_batch(limit);
        self.take(dequeue)
    }

    fn firehose_live_len(&self) -> usize {
        self.state
            .firehose_live_len(self.log(LogId::FirehoseLive))
            .unwrap()
    }

    fn enqueue_firehose_backfill(&mut self, job: &IndexJob) {
        let enqueue = self.state.enqueue_firehose_backfill(job.encode());
        self.append(enqueue);
    }

    fn enqueue_firehose_backfill_priority(&mut self, job: &IndexJob) {
        let enqueue = self.state.enqueue_firehose_backfill_priority(job.encode());
        self.append(enqueue);
    }

    fn drain(&mut self, mut op: BackfillDrain<IndexJob>) -> Vec<(Vec<u8>, IndexJob)> {
        let mut event = DrainEvent::Start;
        loop {
            let (log, limit) = match op.step(event) {
                DrainStep::Do(DrainAction::ReadPriority { limit }) => {
                    (LogId::FirehoseBackfillPriority, limit)
                }
                DrainStep::Do(DrainAction::ReadShard { shard, limit }) => {
                    (LogId::FirehoseBackfillShard(shard), limit)
                }
                DrainStep::Done { jobs, .. } => return jobs,
                DrainStep::Failed(error) => panic!("{error:?}"),
            };
            event = DrainEvent::Batch(
                self.read(log, limit)
                    .into_iter()
                    .map(|(key, bytes)| (key, IndexJob::decode(&bytes)))
                    .collect(),
            );
        }
    }

    fn dequeue_firehose_backfill(&mut self) -> Option<(Vec<u8>, IndexJob)> {
        let op = self.state.dequeue_firehose_backfill();
        first_job(self.drain(op))
    }

    fn dequeue_firehose_backfill_batch(&mut self, limit: usize) -> Vec<(Vec<u8>, IndexJob)> {
        let op = self.state.dequeue_firehose_backfill_batch(limit);
        self.drain(op)
    }

    fn dequeue_firehose_backfill_partitioned(
        &mut self,
        worker: usize,
        workers: usize,
        limit: usize,
    ) -> Vec<(Vec<u8>, IndexJob)> {
        let op = self
            .state
            .dequeue_firehose_backfill_partitioned(worker, workers, limit);
        self.drain(op)
    }

    fn firehose_backfill_len(&self) -> usize {
        let shards: Vec<SegmentedLog> = (0..240)
            .map(|i| *self.log(LogId::FirehoseBackfillShard(i)))
            .collect();
        self.state
            .firehose_backfill_len(self.log(LogId::FirehoseBackfillPriority), &shards)
            .unwrap()
    }

    fn set_cursor(&mut self, name: &str, value: i64) {
        let write = self.state.set_cursor(name, value).unwrap();
        self.write("", write);
    }

    fn delete_cursor(&mut self, name: &str) {
        let write = self.state.delete_cursor(name).unwrap();
        self.write("", write);
    }

    fn get_cursor(&self, name: &str) -> Option<i64> {
        self.state.get_cursor(name).unwrap()
    }

    fn reopen(self) -> Queues {
        new_storage(self.world).unwrap()
    }
}

type Commit = (String, Vec<String>, Vec<u8>, Option<String>);
type FirehoseEvent = (
    i64,
    String,
    String,
    String,
    Option<Commit>,
    Option<String>,
    Option<String>,
);

fn read_event(storage: &Queues, seq: i64) -> Option<FirehoseEvent> {
    let name = storage.state.read_firehose_event(seq);
    let file = read_file(&storage.world.files, &format!("firehose_events/{name}"));
    let bytes = found_event(file).unwrap()?;
    Some(ciborium::from_reader(bytes.as_slice()).unwrap())
}

#[test]
fn test_firehose_event_roundtrip() {
    let mut storage = setup_test_storage();

    let event: FirehoseEvent = (
        12345,
        "did:plc:test123".to_owned(),
        "2025-01-01T00:00:00Z".to_owned(),
        "commit".to_owned(),
        Some(("rev123".to_owned(), vec![], vec![], None)),
        None,
        None,
    );

    let mut bytes = Vec::new();
    ciborium::into_writer(&event, &mut bytes).unwrap();
    let write = storage.state.write_firehose_event(12345, bytes);
    storage.write("firehose_events/", write);
    let retrieved = read_event(&storage, 12345).unwrap();
    assert_eq!(retrieved.0, event.0);
    assert_eq!(retrieved.1, event.1);
    assert!(read_event(&storage, 99999).is_none());
}

#[test]
fn test_backfill_queue() {
    let mut storage = setup_test_storage();
    let job = backfill_job("did:plc:test456", false);

    storage.enqueue_backfill(&job);
    let (key, retrieved) = storage.dequeue_backfill().unwrap();
    assert_eq!(retrieved.did, job.did);
    assert_eq!(retrieved.retry_count, job.retry_count);

    storage.state.remove_backfill(&key).unwrap();
    assert!(storage.dequeue_backfill().is_none());
}

#[test]
fn test_backfill_priority_queue() {
    let mut storage = setup_test_storage();

    storage.enqueue_backfill(&backfill_job("did:plc:normal1", false));
    storage.enqueue_backfill(&backfill_job("did:plc:normal2", false));
    storage.enqueue_backfill_priority(&backfill_job("did:plc:priority1", true));
    storage.enqueue_backfill_priority(&backfill_job("did:plc:priority2", true));
    storage.enqueue_backfill_immediate(&backfill_job("did:plc:immediate", true));

    let order = storage.drain_dids();
    assert_eq!(
        order,
        [
            "did:plc:immediate",
            "did:plc:priority1",
            "did:plc:priority2",
            "did:plc:normal1",
            "did:plc:normal2",
        ]
    );
}

#[test]
fn test_firehose_live_queue() {
    let mut storage = setup_test_storage();
    let job = index_job("at://did:plc:test/app.bsky.feed.post/123");

    storage.enqueue_firehose_live(&job);
    let (key, retrieved) = storage.dequeue_firehose_live().unwrap();
    assert_eq!(retrieved.uri, job.uri);
    assert_eq!(retrieved.cid, job.cid);

    storage.state.remove_firehose_live(&key).unwrap();
    assert!(storage.dequeue_firehose_live().is_none());
}

#[test]
fn test_firehose_backfill_queue() {
    let mut storage = setup_test_storage();
    let job = index_job("at://did:plc:test/app.bsky.feed.post/456");

    storage.enqueue_firehose_backfill(&job);
    let (key, retrieved) = storage.dequeue_firehose_backfill().unwrap();
    assert_eq!(retrieved.uri, job.uri);

    storage.state.remove_firehose_backfill(&key).unwrap();
    assert!(storage.dequeue_firehose_backfill().is_none());
}

#[test]
fn test_firehose_backfill_priority_queue() {
    let mut storage = setup_test_storage();

    storage.enqueue_firehose_backfill(&index_job("at://did:plc:normal/app.bsky.feed.post/1"));
    storage.enqueue_firehose_backfill(&index_job("at://did:plc:normal/app.bsky.feed.post/2"));
    storage.enqueue_firehose_backfill_priority(&index_job(
        "at://did:plc:priority/app.bsky.feed.post/1",
    ));
    storage.enqueue_firehose_backfill_priority(&index_job(
        "at://did:plc:priority/app.bsky.feed.post/2",
    ));

    let (_, first) = storage.dequeue_firehose_backfill().unwrap();
    assert_eq!(first.uri, "at://did:plc:priority/app.bsky.feed.post/1");
    let (_, second) = storage.dequeue_firehose_backfill().unwrap();
    assert_eq!(second.uri, "at://did:plc:priority/app.bsky.feed.post/2");

    let mut rest: Vec<String> = std::iter::from_fn(|| storage.dequeue_firehose_backfill())
        .map(|(_, j)| j.uri)
        .collect();
    rest.sort();
    assert_eq!(
        rest,
        [
            "at://did:plc:normal/app.bsky.feed.post/1",
            "at://did:plc:normal/app.bsky.feed.post/2",
        ]
    );
}

#[test]
fn test_firehose_backfill_batch_dequeue() {
    let mut storage = setup_test_storage();
    for i in 0..10 {
        storage.enqueue_firehose_backfill(&index_job(&format!(
            "at://did:plc:test/app.bsky.feed.post/{i}"
        )));
    }
    assert_eq!(storage.firehose_backfill_len(), 10);
    let batch = storage.dequeue_firehose_backfill_batch(4);
    assert_eq!(batch.len(), 4);
    assert_eq!(storage.firehose_backfill_len(), 6);
    let batch = storage.dequeue_firehose_backfill_batch(100);
    assert_eq!(batch.len(), 6);
    assert!(storage.dequeue_firehose_backfill_batch(100).is_empty());
}

#[test]
fn test_firehose_backfill_partitioned_dequeue() {
    let mut storage = setup_test_storage();
    for i in 0..200 {
        storage.enqueue_firehose_backfill(&index_job(&format!(
            "at://did:plc:test/app.bsky.feed.post/{i}"
        )));
    }

    // Every worker's slice is disjoint, and the union is everything.
    let num_workers = 4;
    let mut seen = HashSet::new();
    for worker in 0..num_workers {
        for (key, _) in storage.dequeue_firehose_backfill_partitioned(worker, num_workers, 1000) {
            assert!(seen.insert(key), "job dequeued by two workers");
        }
    }
    assert_eq!(seen.len(), 200);
    assert_eq!(storage.firehose_backfill_len(), 0);
}

#[test]
fn test_firehose_backfill_partitioned_priority() {
    let mut storage = setup_test_storage();
    for i in 0..20 {
        storage.enqueue_firehose_backfill(&index_job(&format!(
            "at://did:plc:normal/app.bsky.feed.post/{i}"
        )));
    }
    storage.enqueue_firehose_backfill_priority(&index_job(
        "at://did:plc:priority/app.bsky.feed.post/1",
    ));

    // Any worker sees the priority item first.
    let batch = storage.dequeue_firehose_backfill_partitioned(3, 4, 5);
    assert_eq!(batch[0].1.uri, "at://did:plc:priority/app.bsky.feed.post/1");
}

type Label = (
    String,
    String,
    Option<String>,
    String,
    bool,
    String,
    Option<String>,
);
type LabelEvent = (i64, Vec<Label>);

fn dequeue_label(storage: &mut Queues) -> Option<(Vec<u8>, LabelEvent)> {
    let dequeue = storage.state.dequeue_label_live();
    let records = storage.read(dequeue.log, dequeue.limit);
    let (events, _) = decode_jobs(
        records
            .into_iter()
            .map(|(key, bytes)| (key, ciborium::from_reader(bytes.as_slice()).ok()))
            .collect(),
    );
    first_job(events)
}

#[test]
fn test_label_live_queue() {
    let mut storage = setup_test_storage();
    let event: LabelEvent = (
        1,
        vec![(
            "did:plc:labeler".to_owned(),
            "at://did:plc:test/app.bsky.feed.post/1".to_owned(),
            None,
            "spam".to_owned(),
            false,
            "2025-01-01T00:00:00Z".to_owned(),
            None,
        )],
    );
    let mut bytes = Vec::new();
    ciborium::into_writer(&event, &mut bytes).unwrap();
    let enqueue = storage.state.enqueue_label_live(bytes);
    storage.append(enqueue);
    let log = *storage.log(LogId::LabelLive);
    assert_eq!(storage.state.label_live_len(&log).unwrap(), 1);
    assert_eq!(storage.state.label_live_approx_len(&log), 1);
    let (key, retrieved) = dequeue_label(&mut storage).unwrap();
    assert_eq!(retrieved.1[0].3, "spam");
    storage.state.remove_label_live(&key).unwrap();
    assert!(dequeue_label(&mut storage).is_none());
}

#[test]
fn test_cursor() {
    let mut storage = setup_test_storage();
    assert_eq!(storage.get_cursor("firehose"), None);
    storage.set_cursor("firehose", 42);
    assert_eq!(storage.get_cursor("firehose"), Some(42));
    storage.set_cursor("firehose", -7);
    assert_eq!(storage.get_cursor("firehose"), Some(-7));
    storage.set_cursor("labels", 1);
    assert_eq!(storage.get_cursor("labels"), Some(1));
}

#[test]
fn test_delete_cursor() {
    let mut storage = setup_test_storage();
    storage.set_cursor("c", 5);
    assert_eq!(storage.get_cursor("c"), Some(5));
    storage.delete_cursor("c");
    assert_eq!(storage.get_cursor("c"), None);
    storage.delete_cursor("missing");
}

#[test]
fn test_is_storage_corrupted() {
    let corrupt = WintermuteError::Storage("segment corrupt beyond repair".to_owned());
    assert!(corrupt.is_storage_corrupted());
    let io: WintermuteError = std::io::Error::other("disk").into();
    assert!(!io.is_storage_corrupted());
    assert!(!WintermuteError::Other("x".to_owned()).is_storage_corrupted());
    assert!(!WintermuteError::Serialization("x".to_owned()).is_storage_corrupted());
}

#[test]
fn test_storage_reopen_preserves_state() {
    let mut storage = setup_test_storage();
    storage.set_cursor("test", 42);
    storage.enqueue_backfill(&backfill_job("did:plc:queued", false));
    storage.enqueue_firehose_backfill(&index_job("at://did:plc:a/app.bsky.feed.post/1"));

    let mut storage = storage.reopen();
    assert_eq!(storage.get_cursor("test"), Some(42));
    assert_eq!(storage.repo_backfill_len(), 1);
    assert_eq!(storage.firehose_backfill_len(), 1);
    assert_eq!(
        storage.dequeue_backfill().unwrap().1.did,
        "did:plc:queued"
    );
}

#[test]
fn test_remove_backfill_by_did() {
    let mut storage = setup_test_storage();
    storage.enqueue_backfill(&backfill_job("did:plc:keep1", false));
    storage.enqueue_backfill(&backfill_job("did:plc:remove", false));
    storage.enqueue_backfill_priority(&backfill_job("did:plc:remove", true));
    storage.enqueue_backfill(&backfill_job("did:plc:keep2", false));
    assert_eq!(storage.repo_backfill_len(), 4);

    assert_eq!(storage.remove_backfill_by_did("did:plc:remove"), 2);
    assert_eq!(storage.repo_backfill_len(), 2);
    // Removing again finds nothing new.
    assert_eq!(storage.remove_backfill_by_did("did:plc:remove"), 0);

    let peeked: Vec<String> = storage
        .peek_backfill(10)
        .into_iter()
        .map(|(_, j)| j.did)
        .collect();
    assert_eq!(peeked, ["did:plc:keep1", "did:plc:keep2"]);

    let order = storage.drain_dids();
    assert_eq!(order, ["did:plc:keep1", "did:plc:keep2"]);

    // A DID re-enqueued after removal is not swallowed by a stale mark.
    storage.enqueue_backfill(&backfill_job("did:plc:remove", false));
    assert_eq!(
        storage.dequeue_backfill().unwrap().1.did,
        "did:plc:remove"
    );
}

#[test]
fn a_removed_job_stays_removed_when_its_did_is_queued_again() {
    for reopened in [false, true] {
        let mut storage = setup_test_storage();
        storage.enqueue_backfill(&backfill_job("did:plc:x", false));
        assert_eq!(storage.remove_backfill_by_did("did:plc:x"), 1);
        if reopened {
            storage = storage.reopen();
        }
        let mut again = backfill_job("did:plc:x", true);
        again.retry_count = 1;
        storage.enqueue_backfill_immediate(&again);
        assert_eq!(storage.repo_backfill_len(), 1);

        let (key, job) = storage.dequeue_backfill().unwrap();
        assert_eq!(job.retry_count, 1);
        assert_eq!(key[0], 0);
        assert!(storage.dequeue_backfill().is_none());
        assert_eq!(storage.repo_backfill_len(), 0);
    }
}

#[test]
fn test_remove_backfill_by_did_not_found() {
    let mut storage = setup_test_storage();
    storage.enqueue_backfill(&backfill_job("did:plc:present", false));
    assert_eq!(storage.remove_backfill_by_did("did:plc:absent"), 0);
    assert_eq!(storage.repo_backfill_len(), 1);
}

#[test]
fn test_clear_repo_backfill() {
    let mut storage = setup_test_storage();
    storage.enqueue_backfill_priority(&backfill_job("did:plc:p", true));
    storage.enqueue_backfill(&backfill_job("did:plc:n", false));
    assert_eq!(storage.repo_backfill_len(), 2);
    assert_eq!(storage.clear_repo_backfill(), 2);
    assert_eq!(storage.repo_backfill_len(), 0);
    assert!(storage.dequeue_backfill().is_none());
}

#[test]
fn test_clear_empty_repo_backfill() {
    let mut storage = setup_test_storage();
    assert_eq!(storage.clear_repo_backfill(), 0);
    assert_eq!(storage.repo_backfill_len(), 0);
}

#[test]
fn live_queue_resumes_after_reopen() {
    let mut storage = setup_test_storage();
    for i in 0..6 {
        storage.enqueue_firehose_live(&index_job(&format!(
            "at://did:plc:a/app.bsky.feed.post/p{i}"
        )));
    }
    assert_eq!(storage.dequeue_firehose_live_batch(4).len(), 4);

    let mut storage = storage.reopen();
    assert_eq!(storage.firehose_live_len(), 2);
    let resumed = storage.dequeue_firehose_live_batch(10);
    assert_eq!(
        resumed.len(),
        2,
        "reopen must resume after the persisted head"
    );
    assert_eq!(resumed[0].1.uri, "at://did:plc:a/app.bsky.feed.post/p4");
    assert_eq!(resumed[1].1.uri, "at://did:plc:a/app.bsky.feed.post/p5");

    // A fully drained queue accepts and delivers new work after reopen.
    storage.enqueue_firehose_live(&index_job("at://did:plc:a/app.bsky.feed.post/fresh"));
    let fresh = storage.dequeue_firehose_live_batch(10);
    assert_eq!(fresh.len(), 1);
    assert_eq!(fresh[0].1.uri, "at://did:plc:a/app.bsky.feed.post/fresh");
}

#[test]
fn live_queue_dequeues_in_arrival_order() {
    let mut storage = setup_test_storage();
    for i in 0..5 {
        storage.enqueue_firehose_live(&index_job(&format!(
            "at://did:plc:a/app.bsky.feed.post/r{i}"
        )));
    }
    let batch = storage.dequeue_firehose_live_batch(10);
    assert_eq!(batch.len(), 5);
    for (i, (key, job)) in batch.iter().enumerate() {
        assert_eq!(job.uri, format!("at://did:plc:a/app.bsky.feed.post/r{i}"));
        assert_eq!(key.len(), 16);
    }
    assert!(batch.windows(2).all(|w| w[0].0 < w[1].0));
    storage.enqueue_firehose_live(&index_job("at://did:plc:a/app.bsky.feed.post/r5"));
    let next = storage.dequeue_firehose_live_batch(10);
    assert_eq!(next.len(), 1);
    assert_eq!(next[0].1.uri, "at://did:plc:a/app.bsky.feed.post/r5");
    assert!(storage.dequeue_firehose_live_batch(10).is_empty());
}

#[test]
fn live_queue_keys_stay_monotonic_across_reopen() {
    let mut storage = setup_test_storage();
    storage.enqueue_firehose_live(&index_job("at://did:plc:a/app.bsky.feed.post/first"));
    let mut storage = storage.reopen();
    storage.enqueue_firehose_live(&index_job("at://did:plc:a/app.bsky.feed.post/second"));
    let batch = storage.dequeue_firehose_live_batch(10);
    assert_eq!(batch.len(), 2);
    assert_eq!(batch[0].1.uri, "at://did:plc:a/app.bsky.feed.post/first");
    assert_eq!(batch[1].1.uri, "at://did:plc:a/app.bsky.feed.post/second");
    assert!(batch[0].0 < batch[1].0);
}

#[test]
fn drained_live_queue_holds_no_dead_data() {
    // After a full drain, nothing of the drained jobs remains on disk.
    let mut storage = setup_test_storage();
    for i in 0..500 {
        storage.enqueue_firehose_live(&index_job(&format!(
            "at://did:plc:a/app.bsky.feed.post/t{i}"
        )));
    }
    assert_eq!(storage.dequeue_firehose_live_batch(500).len(), 500);
    let log = *storage.log(LogId::FirehoseLive);
    assert_eq!(storage.state.firehose_live_approx_len(&log), 0);

    let live_dir = &storage.world.disks["firehose_live"];
    let bytes: usize = live_dir.head.len()
        + live_dir.segs.iter().map(|s| s.bytes.len()).sum::<usize>();
    // Only the head file and the (empty or near-empty) current segment.
    assert!(bytes < 1024, "drained queue still holds {bytes} bytes");

    let mut storage = storage.reopen();
    assert!(storage.dequeue_firehose_live_batch(1000).is_empty());
}

#[test]
fn marks_survive_reopening() {
    let mut storage = setup_test_storage();
    storage.enqueue_backfill(&backfill_job("did:plc:gone", false));
    storage.enqueue_backfill(&backfill_job("did:plc:stays", false));
    assert_eq!(storage.remove_backfill_by_did("did:plc:gone"), 1);
    let mut storage = storage.reopen();
    assert_eq!(storage.repo_backfill_len(), 1);
    let (jobs, dropped) = storage.dequeue_backfill_batch(10);
    assert_eq!(jobs.len(), 1);
    assert_eq!(jobs[0].1.did, "did:plc:stays");
    assert_eq!(dropped, 1);
    // The mark was used up, in the file too.
    let mut storage = storage.reopen();
    storage.enqueue_backfill(&backfill_job("did:plc:gone", false));
    assert_eq!(storage.drain_dids(), ["did:plc:gone"]);
}

#[test]
fn cursors_survive_reopening() {
    let mut storage = setup_test_storage();
    let long = "x".repeat(5000);
    storage.set_cursor("a", i64::MIN);
    storage.set_cursor(&long, i64::MAX);
    storage.set_cursor("b", 3);
    storage.delete_cursor("b");
    let storage = storage.reopen();
    assert_eq!(storage.get_cursor("a"), Some(i64::MIN));
    assert_eq!(storage.get_cursor(&long), Some(i64::MAX));
    assert_eq!(storage.get_cursor("b"), None);
}

#[test]
fn cursors_that_cannot_be_decoded_fail_the_opening() {
    let mut storage = setup_test_storage();
    storage.world.files.insert("cursors.cbor".to_owned(), b"garbage".to_vec());
    match new_storage(storage.world) {
        Err(WintermuteError::Serialization(text)) => {
            assert!(text.starts_with("failed to deserialize: "));
        }
        Err(error) => panic!("unexpected {error:?}"),
        Ok(_) => panic!("opened"),
    }
}

#[test]
fn a_poison_entry_is_dropped() {
    let mut storage = setup_test_storage();
    storage.append(Enqueue {
        log: LogId::FirehoseLive,
        payload: b"poison".to_vec(),
    });
    storage.enqueue_firehose_live(&index_job("at://good"));
    let batch = storage.dequeue_firehose_live_batch(10);
    assert_eq!(batch.len(), 1);
    assert_eq!(batch[0].1.uri, "at://good");

    storage.append(Enqueue {
        log: LogId::RepoBackfill(Level::Immediate),
        payload: b"poison".to_vec(),
    });
    storage.enqueue_backfill(&backfill_job("did:plc:good", false));
    let (jobs, dropped) = storage.dequeue_backfill_batch(5);
    assert_eq!(jobs.len(), 1);
    assert_eq!(dropped, 1);
    // The key names the level, then the position.
    assert_eq!(jobs[0].0.len(), 17);
    assert_eq!(jobs[0].0[0], 2);
}

#[test]
fn backfill_keys_name_the_shard() {
    let mut storage = setup_test_storage();
    storage.append(Enqueue {
        log: LogId::FirehoseBackfillShard(7),
        payload: index_job("at://seven").encode(),
    });
    storage.enqueue_firehose_backfill_priority(&index_job("at://first"));
    let batch = storage.dequeue_firehose_backfill_batch(10);
    assert_eq!(batch[0].0[..2], [0, 240]);
    assert_eq!(batch[1].0[..2], [0, 7]);
    assert_eq!(batch[1].0.len(), 18);
    assert_eq!(batch[1].1.uri, "at://seven");
}

#[test]
fn batches_are_queued_in_order() {
    let mut storage = setup_test_storage();
    let payloads: Vec<Vec<u8>> = (0..50).map(|i| index_job(&format!("at://{i}")).encode()).collect();
    for enqueue in storage.state.enqueue_firehose_backfill_priority_batch(payloads.clone()) {
        assert_eq!(enqueue.log, LogId::FirehoseBackfillPriority);
        storage.append(enqueue);
    }
    let batch = storage.dequeue_firehose_backfill_batch(100);
    let uris: Vec<String> = batch.into_iter().map(|(_, j)| j.uri).collect();
    assert_eq!(uris, (0..50).map(|i| format!("at://{i}")).collect::<Vec<_>>());

    let spread = storage.state.enqueue_firehose_backfill_batch(payloads.clone());
    let mut shards = HashSet::new();
    for (i, enqueue) in spread.into_iter().enumerate() {
        assert_eq!(enqueue.payload, payloads[i]);
        match enqueue.log {
            LogId::FirehoseBackfillShard(shard) => {
                assert!(shard < 240);
                shards.insert(shard);
            }
            log => panic!("unexpected {log:?}"),
        }
    }
    // Jobs are spread over the shards.
    assert!(shards.len() > 1);
}

#[test]
fn any_number_of_workers_drains_every_job_once() {
    for workers in [1, 7, 240, 300] {
        let mut storage = setup_test_storage();
        for i in 0..50 {
            storage.enqueue_firehose_backfill(&index_job(&format!("at://job/{i}")));
        }
        let mut keys = HashSet::new();
        let mut uris = HashSet::new();
        for worker in 0..workers {
            for (key, job) in storage.dequeue_firehose_backfill_partitioned(worker, workers, 50) {
                assert!(keys.insert(key));
                uris.insert(job.uri);
            }
        }
        assert_eq!(keys.len(), 50);
        assert_eq!(uris.len(), 50);
        assert_eq!(storage.firehose_backfill_len(), 0);
    }
}

#[test]
fn the_whole_storage_survives_reopening() {
    let mut storage = setup_test_storage();
    storage.enqueue_backfill_immediate(&backfill_job("did:plc:i", false));
    storage.enqueue_backfill_priority(&backfill_job("did:plc:gone", true));
    storage.enqueue_backfill_priority(&backfill_job("did:plc:p", true));
    storage.enqueue_backfill(&backfill_job("did:plc:n", false));
    storage.enqueue_firehose_live(&index_job("at://live"));
    storage.enqueue_firehose_backfill_priority(&index_job("at://urgent"));
    for i in 0..20 {
        storage.enqueue_firehose_backfill(&index_job(&format!("at://job/{i}")));
    }
    assert_eq!(storage.remove_backfill_by_did("did:plc:gone"), 1);
    storage.set_cursor("relay", 42);

    let mut storage = storage.reopen();
    assert_eq!(storage.get_cursor("relay"), Some(42));
    assert_eq!(storage.repo_backfill_len(), 3);
    assert_eq!(storage.firehose_live_len(), 1);
    assert_eq!(storage.firehose_backfill_len(), 21);
    assert_eq!(storage.drain_dids(), ["did:plc:i", "did:plc:p", "did:plc:n"]);
    assert_eq!(storage.dequeue_firehose_live().unwrap().1.uri, "at://live");
    let jobs = storage.dequeue_firehose_backfill_batch(100);
    assert_eq!(jobs.len(), 21);
    assert_eq!(jobs[0].1.uri, "at://urgent");
}
