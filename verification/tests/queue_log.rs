use wintermute_queue::disk::Disk;
use wintermute_queue::io::{Action, Event};
use wintermute_queue::log::SegmentedLog;
use wintermute_queue::names::list_segments;
use wintermute_queue::scan::READ_CHUNK;

const SECOND: u128 = 1_000_000_000;

fn open(disk: &mut Disk, segment_bytes: u64) -> SegmentedLog {
    SegmentedLog::open(disk, segment_bytes, SECOND).unwrap()
}

fn payloads(records: &[(Vec<u8>, Vec<u8>)]) -> Vec<String> {
    records
        .iter()
        .map(|(_, p)| String::from_utf8(p.clone()).unwrap())
        .collect()
}

fn segments(disk: &mut Disk) -> Vec<u64> {
    match disk.perform(&Action::List) {
        Event::Names(names) => list_segments(&names),
        event => panic!("unexpected {event:?}"),
    }
}

#[test]
fn roundtrip_in_arrival_order_with_monotonic_keys() {
    let mut dir = Disk::new();
    let mut log = open(&mut dir, 1 << 20);
    for i in 0..5 {
        log.append(&mut dir, format!("r{i}").as_bytes()).unwrap();
    }
    assert_eq!(log.len(), 5);
    let batch = log.read_batch(&mut dir, 3).unwrap();
    assert_eq!(payloads(&batch), ["r0", "r1", "r2"]);
    assert!(batch[0].0 < batch[1].0 && batch[1].0 < batch[2].0);
    assert_eq!(batch[0].0.len(), 16);
    assert_eq!(log.len(), 2);
    let rest = log.read_batch(&mut dir, 10).unwrap();
    assert_eq!(payloads(&rest), ["r3", "r4"]);
    assert!(log.read_batch(&mut dir, 10).unwrap().is_empty());
    assert!(log.is_empty());
}

#[test]
fn reopen_resumes_after_persisted_head() {
    let mut dir = Disk::new();
    {
        let mut log = open(&mut dir, 1 << 20);
        for i in 0..6 {
            log.append(&mut dir, format!("r{i}").as_bytes()).unwrap();
        }
        assert_eq!(log.read_batch(&mut dir, 4).unwrap().len(), 4);
    }
    let mut log = open(&mut dir, 1 << 20);
    assert_eq!(log.len(), 2);
    assert_eq!(payloads(&log.read_batch(&mut dir, 10).unwrap()), ["r4", "r5"]);
    log.append(&mut dir, b"after").unwrap();
    assert_eq!(payloads(&log.read_batch(&mut dir, 10).unwrap()), ["after"]);
}

#[test]
fn consumed_segments_are_unlinked() {
    let mut dir = Disk::new();
    // Every record is 8 + 3 bytes, so a 20-byte segment holds two.
    let mut log = open(&mut dir, 20);
    for i in 0..9 {
        log.append(&mut dir, format!("r0{i}").as_bytes()).unwrap();
    }
    let segs = segments(&mut dir);
    assert_eq!(segs.len(), 5, "expected 5 segments, got {segs:?}");

    assert_eq!(log.read_batch(&mut dir, 5).unwrap().len(), 5);
    let segs = segments(&mut dir);
    assert_eq!(segs, [2, 3, 4], "segments behind the head must be gone");

    // Reopen preserves the count and the order across the roll.
    let mut log = open(&mut dir, 20);
    assert_eq!(log.len(), 4);
    assert_eq!(
        payloads(&log.read_batch(&mut dir, 10).unwrap()),
        ["r05", "r06", "r07", "r08"]
    );
    // Fully drained: the dead segment 4 is unlinked and the writer sits on a
    // fresh, empty segment 5.
    assert_eq!(segments(&mut dir), [5]);
}

#[test]
fn torn_tail_is_truncated_on_open() {
    let mut dir = Disk::new();
    {
        let mut log = open(&mut dir, 1 << 20);
        log.append(&mut dir, b"good1").unwrap();
        log.append(&mut dir, b"good2").unwrap();
    }
    // Simulate a crash mid-append: a header promising more than exists.
    let mut bytes = dir.segment(0).unwrap();
    bytes.extend_from_slice(&100u32.to_le_bytes());
    bytes.extend_from_slice(&0u32.to_le_bytes());
    bytes.extend_from_slice(b"partial");
    dir.set_segment(0, bytes);

    let mut log = open(&mut dir, 1 << 20);
    assert_eq!(log.len(), 2);
    log.append(&mut dir, b"good3").unwrap();
    assert_eq!(
        payloads(&log.read_batch(&mut dir, 10).unwrap()),
        ["good1", "good2", "good3"]
    );
}

#[test]
fn corrupt_head_file_redelivers_from_start() {
    let mut dir = Disk::new();
    {
        let mut log = open(&mut dir, 1 << 20);
        log.append(&mut dir, b"a").unwrap();
        log.append(&mut dir, b"b").unwrap();
        assert_eq!(log.read_batch(&mut dir, 1).unwrap().len(), 1);
    }
    dir.head = b"garbage".to_vec();
    let mut log = open(&mut dir, 1 << 20);
    assert_eq!(payloads(&log.read_batch(&mut dir, 10).unwrap()), ["a", "b"]);
}

#[test]
fn peek_does_not_consume() {
    let mut dir = Disk::new();
    let mut log = open(&mut dir, 1 << 20);
    log.append(&mut dir, b"x").unwrap();
    log.append(&mut dir, b"y").unwrap();
    assert_eq!(payloads(&log.peek(&mut dir, 10).unwrap()), ["x", "y"]);
    assert_eq!(log.len(), 2);
    assert_eq!(payloads(&log.read_batch(&mut dir, 1).unwrap()), ["x"]);
    assert_eq!(payloads(&log.peek(&mut dir, 10).unwrap()), ["y"]);
}

#[test]
fn records_larger_than_the_read_chunk_are_read_whole() {
    let mut dir = Disk::new();
    let mut log = open(&mut dir, 1 << 30);
    let big = vec![7u8; usize::try_from(READ_CHUNK).unwrap() * 2 + 13];
    log.append(&mut dir, b"small").unwrap();
    log.append(&mut dir, &big).unwrap();
    log.append(&mut dir, b"tail").unwrap();
    let batch = log.read_batch(&mut dir, 10).unwrap();
    assert_eq!(batch.len(), 3);
    assert_eq!(batch[1].1, big);
    assert_eq!(batch[2].1, b"tail");
}
