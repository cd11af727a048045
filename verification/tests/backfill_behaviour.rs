//! The backfill queues, the small files and the opening of the storage.

use wintermute_queue::backfill::{
    backfill_key, decode_jobs, partition, random_shard, shard_of, BackfillDrain, DrainEvent,
    DrainStep,
};
use wintermute_queue::backlog::Backlog;
use wintermute_queue::cbor::{
    decode_counts, decode_maps, decode_numbers, decoded, encode_maps, encoded,
};
use wintermute_queue::cursors::{CursorChange, CursorFile};
use wintermute_queue::error::WintermuteError;
use wintermute_queue::files::{tmp_name, AtomicStep, AtomicWrite, FileAction, FileRead};
use wintermute_queue::name_map::NameMap;
use wintermute_queue::repo::{BackfillJob, Entry, Level, RepoBackfillQueue};
use wintermute_queue::repo_ops::{persist, RepoAction, RepoDequeue, RepoEvent, RepoPeek, RepoStep};
use wintermute_queue::shards::Shards;
use wintermute_queue::storage::{first_job, found_event, log_dir, LogId, Storage};
use wintermute_queue::storage_open::{
    storage_path, NewEvent, NewStep, OpenAction, OpenEvent, OpenStep,
};

fn job(did: &str) -> BackfillJob {
    BackfillJob {
        did: did.to_owned(),
        retry_count: 0,
        priority: false,
    }
}

fn entry(key: u8, did: &str) -> Entry {
    (vec![key], Some(job(did)))
}

fn queue() -> RepoBackfillQueue {
    RepoBackfillQueue::new()
}

fn dids(jobs: &[(Vec<u8>, BackfillJob)]) -> Vec<&str> {
    jobs.iter().map(|(_, j)| j.did.as_str()).collect()
}

#[test]
fn marks_drop_the_first_jobs_of_their_identifier() {
    let mut marks = queue();
    marks.bare.insert("a", 2);
    let mut backlog = Backlog {
        immediate: vec![entry(1, "a"), entry(2, "b")],
        priority: vec![(vec![3], None), entry(4, "a")],
        normal: vec![entry(5, "a"), entry(6, "c")],
    };
    let (jobs, dropped) = marks.dequeue(&mut backlog, 10).unwrap();
    assert_eq!(dids(&jobs), ["b", "a", "c"]);
    assert_eq!(jobs[0].0, [0, 2]);
    assert_eq!(jobs[1].0, [2, 5]);
    assert_eq!(dropped, 3);
    assert!(marks.total() == 0);
}

#[test]
fn marks_stand_for_jobs_of_their_level() {
    let mut marks = queue();
    marks.normal.insert("a", 1);
    let mut backlog = Backlog {
        immediate: vec![entry(1, "a")],
        priority: vec![entry(2, "a")],
        normal: vec![entry(3, "a"), entry(4, "a")],
    };
    let (jobs, dropped) = marks.dequeue(&mut backlog, 10).unwrap();
    let keys: Vec<&[u8]> = jobs.iter().map(|(key, _)| key.as_slice()).collect();
    assert_eq!(keys, [&[0, 1], &[1, 2], &[2, 4]]);
    assert_eq!(dropped, 1);
}

#[test]
fn a_bare_identifier_marks_jobs_of_any_level() {
    let mut marks = queue();
    marks.bare.insert("a", 2);
    marks.normal.insert("b", 1);
    let mut backlog = Backlog {
        immediate: vec![entry(1, "2b"), entry(2, "a")],
        priority: vec![entry(3, "a"), entry(4, "a")],
        normal: vec![entry(5, "b")],
    };
    let (jobs, dropped) = marks.dequeue(&mut backlog, 10).unwrap();
    assert_eq!(dids(&jobs), ["2b", "a"]);
    assert_eq!(jobs[1].0, [1, 4]);
    assert_eq!(dropped, 3);
    assert_eq!(marks.total(), 0);
}

#[test]
fn a_removal_takes_over_the_marks_of_a_bare_identifier() {
    let mut marks = queue();
    marks.bare.insert("a", 1);
    let mut backlog = Backlog {
        immediate: vec![entry(1, "a")],
        priority: vec![],
        normal: vec![entry(2, "a")],
    };
    assert_eq!(marks.remove_by_did(&backlog, "a").unwrap(), 1);
    assert_eq!(marks.bare.get("a"), None);
    assert_eq!(marks.immediate.get("a"), Some(1));
    assert_eq!(marks.normal.get("a"), Some(1));
    assert!(marks.dequeue(&mut backlog, 10).unwrap().0.is_empty());
}

#[test]
fn removed_jobs_stay_removed_and_later_ones_are_not_swallowed() {
    for count in 1..4 {
        let mut marks = queue();
        let mut backlog = Backlog {
            immediate: vec![],
            priority: vec![entry(1, "b")],
            normal: vec![entry(2, "a"), entry(3, "c"), entry(4, "a")],
        };
        assert_eq!(marks.remove_by_did(&backlog, "a").unwrap(), 2);
        backlog.immediate.push(entry(5, "a"));
        backlog.priority.push(entry(6, "a"));
        backlog.normal.push(entry(7, "a"));
        let mut keys = Vec::new();
        loop {
            let (jobs, _) = marks.dequeue(&mut backlog, count).unwrap();
            if jobs.is_empty() {
                break;
            }
            keys.extend(jobs.into_iter().map(|(key, _)| key));
        }
        assert_eq!(keys, [[0, 5], [1, 1], [1, 6], [2, 3], [2, 7]]);
        assert!(marks.total() == 0);
    }
}

#[test]
fn a_removal_leaves_the_other_jobs_as_they_were() {
    let (marks, backlog) = mixed_backlog();
    let before = marks.peek(&backlog, 100).unwrap();
    let (mut marks, backlog) = mixed_backlog();
    let removed = marks.remove_by_did(&backlog, "b").unwrap();
    let after = marks.peek(&backlog, 100).unwrap();
    assert_eq!(removed, 2);
    assert_eq!(before.len() - removed, after.len());
    let others: Vec<_> = before.into_iter().filter(|(_, job)| job.did != "b").collect();
    assert_eq!(after, others);
}

#[test]
fn a_dequeue_takes_no_more_than_it_needs() {
    let mut marks = queue();
    let mut backlog = Backlog {
        immediate: vec![entry(1, "a")],
        priority: vec![entry(2, "b"), entry(3, "c")],
        normal: vec![entry(4, "d")],
    };
    let (jobs, dropped) = marks.dequeue(&mut backlog, 2).unwrap();
    assert_eq!(dids(&jobs), ["a", "b"]);
    assert_eq!(dropped, 0);
    assert_eq!(backlog.priority, [entry(3, "c")]);
    assert_eq!(backlog.normal.len(), 1);
    assert!(marks.dequeue(&mut backlog, 0).unwrap().0.is_empty());
}

#[test]
fn a_removal_marks_what_is_queued_and_not_marked() {
    let mut marks = queue();
    let mut backlog = Backlog {
        immediate: vec![entry(1, "a")],
        priority: vec![(vec![2], None)],
        normal: vec![entry(3, "a"), entry(4, "b")],
    };
    assert_eq!(marks.remove_by_did(&backlog, "a").unwrap(), 2);
    assert_eq!(marks.immediate.get("a"), Some(1));
    assert_eq!(marks.priority.get("a"), None);
    assert_eq!(marks.normal.get("a"), Some(1));
    assert_eq!(marks.len(1, 1, 2), 2);
    assert_eq!(marks.remove_by_did(&backlog, "a").unwrap(), 0);
    assert_eq!(marks.remove_by_did(&backlog, "x").unwrap(), 0);
    assert_eq!(marks.total(), 2);
    backlog.normal.push(entry(5, "a"));
    assert_eq!(marks.remove_by_did(&backlog, "a").unwrap(), 1);
    let (jobs, _) = marks.dequeue(&mut backlog, 10).unwrap();
    assert_eq!(dids(&jobs), ["b"]);
}

#[test]
fn clearing_empties_everything() {
    let mut marks = queue();
    marks.bare.insert("a", 1);
    let mut backlog = Backlog {
        immediate: vec![entry(1, "a"), entry(2, "b")],
        priority: Vec::new(),
        normal: vec![entry(3, "c")],
    };
    assert_eq!(marks.clear(&mut backlog).unwrap(), 2);
    assert!(backlog.immediate.is_empty() && backlog.normal.is_empty());
    assert_eq!(marks.total(), 0);
    assert_eq!(marks.len(0, 0, 0), 0);
}

#[test]
fn lengths_saturate() {
    let mut marks = queue();
    marks.bare.insert("a", 3);
    assert_eq!(marks.len(1, 1, 0), 0);
    assert_eq!(marks.len(usize::MAX, 1, 1), usize::MAX - 3);
    marks.bare.insert("b", u64::MAX);
    assert_eq!(marks.total(), usize::MAX);
}

#[test]
fn a_peek_reads_past_cancelled_jobs() {
    let mut marks = queue();
    marks.bare.insert("gone", 2);
    let mut op = RepoPeek::new(1, &marks);
    match op.step(RepoEvent::Start) {
        RepoStep::Do(RepoAction::Peek { level, limit }) => {
            assert_eq!(level, Level::Immediate);
            assert_eq!(limit, 3);
        }
        step => panic!("unexpected {step:?}"),
    }
    let batch = vec![entry(1, "gone"), entry(2, "gone"), entry(3, "seen")];
    match op.step(RepoEvent::Batch(batch)) {
        RepoStep::Done(jobs) => {
            assert_eq!(dids(&jobs), ["seen"]);
            assert_eq!(jobs[0].0, [0, 3]);
        }
        step => panic!("unexpected {step:?}"),
    }
    // The marks themselves are untouched.
    assert_eq!(marks.bare.get("gone"), Some(2));
}

#[test]
fn a_peek_consumes_nothing() {
    let mut marks = queue();
    marks.bare.insert("a", 1);
    let backlog = Backlog {
        immediate: vec![entry(1, "a"), entry(2, "b")],
        priority: vec![entry(3, "a")],
        normal: vec![entry(4, "c")],
    };
    for _ in 0..2 {
        let jobs = marks.peek(&backlog, 2).unwrap();
        assert_eq!(dids(&jobs), ["b", "a"]);
        assert_eq!(jobs[0].0, [0, 2]);
        assert_eq!(jobs[1].0, [1, 3]);
    }
    assert_eq!(marks.total(), 1);
}

#[test]
fn an_undecodable_record_takes_a_place_in_a_peek() {
    let marks = queue();
    let backlog = Backlog {
        immediate: vec![(vec![1], None), entry(2, "a")],
        priority: vec![],
        normal: vec![entry(3, "b")],
    };
    assert_eq!(dids(&marks.peek(&backlog, 1).unwrap()), ["b"]);
    assert_eq!(dids(&marks.peek(&backlog, 2).unwrap()), ["a", "b"]);
    assert!(marks.peek(&backlog, 0).unwrap().is_empty());
}

#[test]
fn the_marks_are_persisted_before_more_is_read() {
    let mut marks = queue();
    marks.bare.insert("a", 1);
    let mut op = RepoDequeue::new(1);
    assert!(matches!(
        op.step(&mut marks, RepoEvent::Start),
        RepoStep::Do(RepoAction::Read { level: Level::Immediate, limit: 1 })
    ));
    match op.step(&mut marks, RepoEvent::Batch(vec![entry(1, "a")])) {
        RepoStep::Do(RepoAction::Persist { bytes }) => {
            let kept = RepoBackfillQueue::open(FileRead::Bytes(bytes)).unwrap();
            assert_eq!(kept.total(), 0);
        }
        step => panic!("unexpected {step:?}"),
    }
    assert!(matches!(
        op.step(&mut marks, RepoEvent::Performed),
        RepoStep::Do(RepoAction::Read { level: Level::Immediate, limit: 1 })
    ));
    match op.step(&mut marks, RepoEvent::Failed(WintermuteError::Other("disk".to_owned()))) {
        RepoStep::Failed(WintermuteError::Other(text)) => assert_eq!(text, "disk"),
        step => panic!("unexpected {step:?}"),
    }
    assert!(matches!(
        op.step(&mut marks, RepoEvent::Start),
        RepoStep::Failed(WintermuteError::Other(_))
    ));
}

#[test]
fn marks_that_cannot_be_encoded_end_the_operation() {
    let step: RepoStep<usize> = persist(Err(WintermuteError::Serialization("no".to_owned())));
    assert!(matches!(step, RepoStep::Failed(WintermuteError::Serialization(_))));
    match encoded(Err("why".to_owned())) {
        Err(WintermuteError::Serialization(text)) => assert_eq!(text, "failed to serialize: why"),
        other => panic!("unexpected {other:?}"),
    }
    match decoded::<u64>(Err("why".to_owned())) {
        Err(WintermuteError::Serialization(text)) => assert_eq!(text, "failed to deserialize: why"),
        other => panic!("unexpected {other:?}"),
    }
}

#[test]
fn counts_are_written_as_a_cbor_map() {
    let mut map: NameMap<u64> = NameMap::new();
    map.insert("a", 1);
    let bytes = encode_maps(vec![map, NameMap::new()]).unwrap();
    assert_eq!(bytes, [0x82, 0xa1, 0x61, b'a', 1, 0xa0]);
    let read = decode_maps(&bytes).unwrap();
    assert_eq!(read.len(), 2);
    assert_eq!(read[0].get("a"), Some(1));
    assert!(read[1].entries.is_empty());
    // A list of maps is no map, and a map is no list.
    assert!(decode_counts(&bytes).is_err());
    assert!(decode_maps(&[0xa1, 0x61, b'a', 1]).is_err());
    assert_eq!(decode_counts(&[0xa1, 0x61, b'a', 0x19, 1, 44]).unwrap().get("a"), Some(300));
    // A negative number is no count.
    assert!(decode_counts(&[0xa1, 0x61, b'a', 0x20]).is_err());
    assert_eq!(decode_numbers(&[0xa1, 0x61, b'a', 0x20]).unwrap().get("a"), Some(-1));
    // Of a name that occurs twice the last value counts.
    let twice = [0xa2, 0x61, b'a', 1, 0x61, b'a', 2];
    assert_eq!(decode_counts(&twice).unwrap().get("a"), Some(2));
    assert!(decode_counts(b"").is_err());
}

#[test]
fn names_are_kept_once() {
    let mut map: NameMap<i64> = NameMap::new();
    map.insert("a", 1);
    map.insert("b", 2);
    map.insert("a", 3);
    assert_eq!(map.entries.len(), 2);
    assert_eq!(map.get("a"), Some(3));
    map.remove("a");
    map.remove("zz");
    assert_eq!(map.get("a"), None);
    let copy = map.copied();
    assert_eq!(copy.get("b"), Some(2));
    assert_eq!(copy.entries.len(), 1);
}

#[test]
fn cursor_files_read_back_what_was_written() {
    let mut cursors = CursorFile::open(FileRead::Missing).unwrap();
    assert_eq!(cursors.get("a"), None);
    let bytes = cursors
        .update(CursorChange::Put {
            name: "a".to_owned(),
            value: -5,
        })
        .unwrap();
    assert_eq!(bytes, [0xa1, 0x61, b'a', 0x24]);
    let again = CursorFile::open(FileRead::Bytes(bytes)).unwrap();
    assert_eq!(again.get("a"), Some(-5));
    let bytes = cursors
        .update(CursorChange::Delete {
            name: "a".to_owned(),
        })
        .unwrap();
    assert_eq!(bytes, [0xa0]);
    let failed = CursorFile::open(FileRead::Failed(std::io::Error::other("disk")));
    assert!(matches!(failed, Err(WintermuteError::Io(_))));
    let damaged = CursorFile::open(FileRead::Bytes(b"\xff".to_vec()));
    assert!(matches!(damaged, Err(WintermuteError::Serialization(_))));
}

#[test]
fn the_marks_read_back_what_was_written() {
    let mut marks = queue();
    let mut backlog = Backlog {
        immediate: vec![entry(1, "a")],
        priority: vec![],
        normal: vec![entry(2, "b"), entry(3, "a")],
    };
    assert_eq!(marks.remove_by_did(&backlog, "a").unwrap(), 2);
    let bytes = marks.persist_cancelled().unwrap();
    let mut reopened = RepoBackfillQueue::open(FileRead::Bytes(bytes)).unwrap();
    assert_eq!(reopened.immediate.get("a"), Some(1));
    assert_eq!(reopened.normal.get("a"), Some(1));
    let (jobs, dropped) = reopened.dequeue(&mut backlog, 5).unwrap();
    assert_eq!(dids(&jobs), ["b"]);
    assert_eq!(dropped, 2);
}

#[test]
fn a_file_of_identifiers_alone_marks_their_first_jobs() {
    // {"0abc": 2, "b": 1}
    let file = [0xa2, 0x64, b'0', b'a', b'b', b'c', 2, 0x61, b'b', 1];
    let mut marks = RepoBackfillQueue::open(FileRead::Bytes(file.to_vec())).unwrap();
    assert_eq!(marks.len(1, 2, 3), 3);
    let mut backlog = Backlog {
        immediate: vec![entry(1, "abc")],
        priority: vec![entry(2, "0abc"), entry(3, "b")],
        normal: vec![entry(4, "0abc"), entry(5, "0abc"), entry(6, "b")],
    };
    let (jobs, dropped) = marks.dequeue(&mut backlog, 10).unwrap();
    assert_eq!(dids(&jobs), ["abc", "0abc", "b"]);
    assert_eq!(jobs[1].0, [2, 5]);
    assert_eq!(dropped, 3);
    assert_eq!(marks.total(), 0);
}

#[test]
fn marks_without_a_level_are_written_and_read_back() {
    let mut marks = queue();
    marks.bare.insert("a", 2);
    marks.priority.insert("a", 1);
    let bytes = marks.persist_cancelled().unwrap();
    let reopened = RepoBackfillQueue::open(FileRead::Bytes(bytes)).unwrap();
    assert_eq!(reopened.bare.get("a"), Some(2));
    assert_eq!(reopened.priority.get("a"), Some(1));
    assert_eq!(reopened.total(), 3);
}

#[test]
fn a_file_without_marks_is_refused() {
    for bytes in [&b""[..], &[0x01], &[0x83, 0xa0, 0xa0, 0xa0]] {
        assert!(matches!(
            RepoBackfillQueue::open(FileRead::Bytes(bytes.to_vec())),
            Err(WintermuteError::Serialization(_))
        ));
    }
    assert_eq!(RepoBackfillQueue::open(FileRead::Missing).unwrap().total(), 0);
}

#[test]
fn a_removal_without_anything_new_settles_the_levels() {
    let mut marks = queue();
    marks.bare.insert("a", 1);
    let mut backlog = Backlog {
        immediate: vec![],
        priority: vec![],
        normal: vec![entry(1, "a")],
    };
    assert_eq!(marks.remove_by_did(&backlog, "a").unwrap(), 0);
    assert_eq!(marks.normal.get("a"), Some(1));
    assert_eq!(marks.bare.get("a"), None);
    backlog.immediate.push(entry(2, "a"));
    let (jobs, _) = marks.dequeue(&mut backlog, 10).unwrap();
    assert_eq!(jobs.len(), 1);
    assert_eq!(jobs[0].0, [0, 2]);
}

#[test]
fn files_are_replaced_through_a_temporary_file() {
    assert_eq!(tmp_name("cursors.cbor"), "cursors.tmp");
    assert_eq!(tmp_name("-7.cbor"), "-7.tmp");
    assert_eq!(tmp_name("a.b.c"), "a.b.tmp");
    assert_eq!(tmp_name("plain"), "plain.tmp");
    assert_eq!(tmp_name(".hidden"), ".hidden.tmp");
    let mut op = AtomicWrite::new("cursors.cbor".to_owned(), vec![1, 2]);
    match op.step(false) {
        AtomicStep::Do(FileAction::Write { name, bytes }) => {
            assert_eq!(name, "cursors.tmp");
            assert_eq!(bytes, [1, 2]);
        }
        step => panic!("unexpected {step:?}"),
    }
    match op.step(true) {
        AtomicStep::Do(FileAction::Rename { from, to }) => {
            assert_eq!((from.as_str(), to.as_str()), ("cursors.tmp", "cursors.cbor"));
        }
        step => panic!("unexpected {step:?}"),
    }
    assert!(matches!(op.step(true), AtomicStep::Done));
    assert!(matches!(op.step(true), AtomicStep::Failed));
    let mut failing = AtomicWrite::new("x.cbor".to_owned(), Vec::new());
    failing.step(false);
    assert!(matches!(failing.step(false), AtomicStep::Failed));
}

#[test]
fn workers_slice_the_shards() {
    assert_eq!(partition(0, 4), (0, 60));
    assert_eq!(partition(3, 4), (180, 240));
    // The last worker takes the remainder.
    assert_eq!(partition(0, 7), (0, 34));
    assert_eq!(partition(6, 7), (204, 240));
    // No workers count as one.
    assert_eq!(partition(0, 0), (0, 240));
    // More workers than shards: the last one takes all.
    assert_eq!(partition(5, 300), (0, 0));
    assert_eq!(partition(299, 300), (0, 240));
    // A worker beyond the number of workers has nothing.
    assert_eq!(partition(9, 4), (240, 240));
    for workers in 1..250 {
        let mut next = 0;
        for worker in 0..workers {
            let (start, end) = partition(worker, workers);
            assert_eq!(start, next);
            assert!(start <= end);
            next = end;
        }
        assert_eq!(next, 240);
    }
}

#[test]
fn shards_are_picked_by_a_random_number() {
    assert_eq!(shard_of(0), 0);
    assert_eq!(shard_of(241), 1);
    let picked: std::collections::HashSet<usize> = (0..200).map(|_| random_shard()).collect();
    assert!(picked.iter().all(|s| *s < 240));
    assert!(picked.len() > 1);
}

#[test]
fn undecodable_records_are_counted() {
    let records = vec![(vec![1], Some("a")), (vec![2], None), (vec![3], Some("b"))];
    let (jobs, dropped) = decode_jobs(records);
    assert_eq!(jobs, [(vec![1], "a"), (vec![3], "b")]);
    assert_eq!(dropped, 1);
    assert_eq!(first_job(jobs), Some((vec![1], "a")));
    assert_eq!(first_job::<u8>(Vec::new()), None);
    assert_eq!(backfill_key(258, &[9]), [1, 2, 9]);
}

#[test]
fn priority_is_drained_before_the_slice() {
    let mut queue = Shards {
        priority: vec![(vec![1], Some("p")), (vec![2], None)],
        shards: vec![
            vec![(vec![3], Some("a"))],
            vec![(vec![4], None), (vec![5], Some("b")), (vec![6], Some("c"))],
            vec![(vec![7], Some("d"))],
        ],
    };
    let (jobs, dropped) = queue.drain_backfill(1, 3, 3).unwrap();
    assert_eq!(
        jobs,
        [
            (vec![0, 240, 1], "p"),
            (vec![0, 1, 5], "b"),
            (vec![0, 2, 7], "d"),
        ]
    );
    assert_eq!(dropped, 2);
    assert_eq!(queue.shards[0].len(), 1);
    assert_eq!(queue.shards[1], [(vec![6], Some("c"))]);
    assert!(queue.drain_backfill(0, 3, 0).unwrap().0.is_empty());
}

#[test]
fn a_failed_read_ends_the_drain() {
    let mut op: BackfillDrain<u8> = BackfillDrain::new(0, 2, 5);
    assert!(matches!(op.step(DrainEvent::Start), DrainStep::Do(_)));
    let error = WintermuteError::Storage("gone".to_owned());
    assert!(matches!(
        op.step(DrainEvent::Failed(error)),
        DrainStep::Failed(WintermuteError::Storage(_))
    ));
    assert!(matches!(
        op.step(DrainEvent::Start),
        DrainStep::Failed(WintermuteError::Other(_))
    ));
}

#[test]
fn logs_have_their_own_directories() {
    assert_eq!(log_dir(LogId::RepoBackfill(Level::Immediate)), "repo_backfill/immediate");
    assert_eq!(log_dir(LogId::RepoBackfill(Level::Priority)), "repo_backfill/priority");
    assert_eq!(log_dir(LogId::RepoBackfill(Level::Normal)), "repo_backfill/normal");
    assert_eq!(log_dir(LogId::FirehoseLive), "firehose_live");
    assert_eq!(log_dir(LogId::LabelLive), "label_live");
    assert_eq!(log_dir(LogId::FirehoseBackfillPriority), "firehose_backfill/priority");
    assert_eq!(log_dir(LogId::FirehoseBackfillShard(12)), "firehose_backfill/shard_012");
    assert_eq!(storage_path(None), "backfill_cache");
    assert_eq!(storage_path(Some("x".to_owned())), "x");
}

#[test]
fn events_without_a_file_are_none() {
    assert_eq!(found_event(FileRead::Missing).unwrap(), None);
    assert_eq!(found_event(FileRead::Bytes(vec![1])).unwrap(), Some(vec![1]));
    let failed = found_event(FileRead::Failed(std::io::Error::other("disk")));
    assert!(matches!(failed, Err(WintermuteError::Io(_))));
}

#[test]
fn the_storage_opens_its_parts_in_order() {
    let mut op = Storage::open_db();
    let mut event = OpenEvent::Start;
    let mut logs = Vec::new();
    let mut files = Vec::new();
    let storage = loop {
        event = match op.step(event) {
            OpenStep::Do(OpenAction::OpenLog { log }) => {
                logs.push(log);
                OpenEvent::Performed
            }
            OpenStep::Do(OpenAction::ReadFile { path }) => {
                files.push((path, logs.len()));
                OpenEvent::File(FileRead::Missing)
            }
            OpenStep::Do(_) => OpenEvent::Performed,
            OpenStep::Done(storage) => break storage,
            OpenStep::Failed(error) => panic!("{error:?}"),
        };
    };
    assert_eq!(logs.len(), 246);
    assert_eq!(logs[0], LogId::FirehoseBackfillShard(0));
    assert_eq!(logs[239], LogId::FirehoseBackfillShard(239));
    assert_eq!(logs[240], LogId::RepoBackfill(Level::Immediate));
    assert_eq!(logs[245], LogId::FirehoseBackfillPriority);
    assert_eq!(
        files,
        [
            ("repo_backfill/cancelled.cbor".to_owned(), 240),
            ("cursors.cbor".to_owned(), 246),
        ]
    );
    assert_eq!(storage.get_cursor("any").unwrap(), None);
    assert!(matches!(op.step(OpenEvent::Performed), OpenStep::Failed(_)));
}

#[test]
fn a_failure_ends_the_opening() {
    let mut op = Storage::open_db();
    op.step(OpenEvent::Start);
    let error = WintermuteError::Storage("damaged".to_owned());
    match op.step(OpenEvent::Failed(error)) {
        OpenStep::Failed(error) => assert!(error.is_storage_corrupted()),
        step => panic!("unexpected {step:?}"),
    }
}

#[test]
fn damaged_storage_is_created_anew_once() {
    let damaged = || WintermuteError::Storage("damaged".to_owned());
    let mut op = Storage::new();
    assert!(matches!(op.step(NewEvent::Start), NewStep::Open));
    assert!(matches!(op.step(NewEvent::Opened(Err(damaged()))), NewStep::RemoveAll));
    assert!(matches!(op.step(NewEvent::Removed), NewStep::Open));
    assert!(matches!(
        op.step(NewEvent::Opened(Err(damaged()))),
        NewStep::Failed(WintermuteError::Storage(_))
    ));
    let mut op = Storage::new();
    op.step(NewEvent::Start);
    let other = WintermuteError::Serialization("text".to_owned());
    assert!(matches!(
        op.step(NewEvent::Opened(Err(other))),
        NewStep::Failed(WintermuteError::Serialization(_))
    ));
}

fn mixed_backlog() -> (RepoBackfillQueue, Backlog) {
    let mut marks = queue();
    marks.immediate.insert("a", 1);
    marks.priority.insert("a", 1);
    marks.priority.insert("c", 1);
    let backlog = Backlog {
        immediate: vec![entry(1, "a"), entry(2, "b")],
        priority: vec![entry(3, "c"), entry(4, "c"), entry(5, "a")],
        normal: vec![entry(6, "a"), entry(7, "d"), entry(8, "b")],
    };
    (marks, backlog)
}

#[test]
fn the_length_is_what_a_dequeue_hands_out() {
    let (mut marks, mut backlog) = mixed_backlog();
    assert_eq!(marks.len(2, 3, 3), 5);
    let (jobs, dropped) = marks.dequeue(&mut backlog, 100).unwrap();
    assert_eq!(jobs.len(), 5);
    assert_eq!(dropped, 3);
    assert_eq!(marks.total(), 0);
}

#[test]
fn a_peek_foretells_a_dequeue() {
    for limit in 0..8 {
        let (marks, mut backlog) = mixed_backlog();
        let mut op = RepoPeek::new(limit, &marks);
        let mut event = RepoEvent::Start;
        let seen = loop {
            event = match op.step(event) {
                RepoStep::Do(RepoAction::Peek { level, limit }) => {
                    RepoEvent::Batch(backlog.read(level, limit))
                }
                RepoStep::Do(action) => panic!("unexpected {action:?}"),
                RepoStep::Done(jobs) => break jobs,
                RepoStep::Failed(error) => panic!("{error:?}"),
            };
        };
        let (mut marks, mut backlog) = mixed_backlog();
        assert_eq!(marks.peek(&backlog, limit).unwrap(), seen);
        let (jobs, _) = marks.dequeue(&mut backlog, limit).unwrap();
        assert_eq!(seen, jobs);
    }
}

#[test]
fn neighbouring_slices_drain_like_one() {
    let build = || Shards {
        priority: vec![(vec![0], Some(0))],
        shards: (1..7u8)
            .map(|i| vec![(vec![i], Some(i)), (vec![i, i], Some(i))])
            .collect(),
    };
    let mut whole = build();
    let (all, _) = whole.drain_backfill(0, 6, 100).unwrap();
    let mut parts = build();
    let mut joined = Vec::new();
    for worker in 0..3 {
        joined.extend(parts.drain_backfill(worker * 2, worker * 2 + 2, 100).unwrap().0);
    }
    assert_eq!(joined, all);
    assert_eq!(all.len(), 13);
}

#[test]
fn all_workers_together_drain_every_job_once() {
    for workers in [1, 4, 7, 240, 300] {
        let mut queue = Shards {
            priority: vec![],
            shards: (0..240u64).map(|i| vec![(vec![0], Some(i)), (vec![1], Some(i))]).collect(),
        };
        let mut keys = std::collections::HashSet::new();
        let mut drained = 0;
        for worker in 0..workers {
            let (start, end) = partition(worker, workers);
            let (jobs, dropped) = queue.drain_backfill(start, end, 480).unwrap();
            assert_eq!(dropped, 0);
            drained += jobs.len();
            keys.extend(jobs.into_iter().map(|(key, _)| key));
        }
        assert_eq!(drained, 480);
        assert_eq!(keys.len(), 480);
        assert!(queue.shards.iter().all(Vec::is_empty));
    }
}
