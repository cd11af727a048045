//! Edge cases of the log, its files and its steps.

use wintermute_queue::append::Append;
use wintermute_queue::bytes::{u16_be, u32_le, u64_be};
use wintermute_queue::disk::Disk;
use wintermute_queue::head::{load_head, persist_head};
use wintermute_queue::io::{Action, Event, Step};
use wintermute_queue::log::SegmentedLog;
use wintermute_queue::names::{event_path, list_segments, segment_path, shard_dir};
use wintermute_queue::open::{place_head, Open};
use wintermute_queue::pos::Pos;
use wintermute_queue::read::{ReadBatch, Visit, VisitStep};
use wintermute_queue::record::{encode_record, parse_record, Parsed, MAX_RECORD};
use wintermute_queue::scan::Scan;

const SECOND: u128 = 1_000_000_000;

fn open(disk: &mut Disk, segment_bytes: u64) -> SegmentedLog {
    SegmentedLog::open(disk, segment_bytes, SECOND).unwrap()
}

fn texts(records: &[(Vec<u8>, Vec<u8>)]) -> Vec<String> {
    records
        .iter()
        .map(|(_, p)| String::from_utf8(p.clone()).unwrap())
        .collect()
}

fn segments(disk: &mut Disk) -> Vec<u64> {
    match disk.perform(&Action::List) {
        Event::Names(names) => list_segments(&names),
        event => panic!("unexpected {event:?}"),
    }
}

#[test]
fn numbers_are_written_in_their_byte_order() {
    assert_eq!(u16_be(0x0102), [1, 2]);
    assert_eq!(u32_le(0x0102_0304), [4, 3, 2, 1]);
    assert_eq!(u64_be(0x0102_0304_0506_0708), [1, 2, 3, 4, 5, 6, 7, 8]);
}

#[test]
fn a_key_is_the_position_big_endian() {
    let key = Pos { seg: 1, off: 258 }.to_key();
    assert_eq!(key, [0, 0, 0, 0, 0, 0, 0, 1, 0, 0, 0, 0, 0, 0, 1, 2]);
    assert!(Pos { seg: 1, off: 5 }.is_before(Pos { seg: 2, off: 0 }));
    assert!(Pos { seg: 1, off: 5 }.is_before(Pos { seg: 1, off: 6 }));
    assert!(!Pos { seg: 1, off: 5 }.is_before(Pos { seg: 1, off: 5 }));
    assert!(Pos { seg: 1, off: u64::MAX }.to_key() < Pos { seg: 2, off: 0 }.to_key());
}

#[test]
fn a_record_carries_its_length_and_checksum() {
    // The checksum of "123456789" is the check value of the polynomial.
    let mut out = b"before".to_vec();
    encode_record(&mut out, b"123456789");
    assert_eq!(&out[..6], b"before");
    assert_eq!(out[6..10], 9u32.to_le_bytes());
    assert_eq!(out[10..14], 0xCBF4_3926u32.to_le_bytes());
    assert_eq!(&out[14..], b"123456789");
    match parse_record(&out[6..]) {
        Parsed::Record { payload, total } => {
            assert_eq!(payload, b"123456789");
            assert_eq!(total, 17);
        }
        other => panic!("unexpected {other:?}"),
    }
}

#[test]
fn short_and_damaged_records_are_told_apart() {
    let mut record = Vec::new();
    encode_record(&mut record, b"payload");
    assert!(matches!(parse_record(&record[..7]), Parsed::Incomplete { need: 8 }));
    assert!(matches!(parse_record(&record[..14]), Parsed::Incomplete { need: 15 }));
    let mut flipped = record.clone();
    flipped[10] ^= 1;
    assert!(matches!(parse_record(&flipped), Parsed::Corrupt));
    // A zero-filled region reads as empty records, which are refused.
    assert!(matches!(parse_record(&[0u8; 32]), Parsed::Corrupt));
    let mut huge = (MAX_RECORD as u32 + 1).to_le_bytes().to_vec();
    huge.extend_from_slice(&[0; 4]);
    assert!(matches!(parse_record(&huge), Parsed::Corrupt));
    let mut largest = (MAX_RECORD as u32).to_le_bytes().to_vec();
    largest.extend_from_slice(&[0; 4]);
    match parse_record(&largest) {
        Parsed::Incomplete { need } => assert_eq!(need, MAX_RECORD + 8),
        other => panic!("unexpected {other:?}"),
    }
}

#[test]
fn the_head_file_reads_back_and_detects_damage() {
    let pos = Pos { seg: 7, off: 4096 };
    let bytes = persist_head(pos);
    assert_eq!(bytes.len(), 24);
    assert_eq!(bytes[..16], pos.to_key());
    assert_eq!(bytes[20..], [0; 4]);
    assert_eq!(load_head(&bytes), Some(pos));
    assert_eq!(load_head(&bytes[..23]), None);
    let mut damaged = bytes.clone();
    damaged[0] ^= 1;
    assert_eq!(load_head(&damaged), None);
    let mut longer = bytes;
    longer.extend_from_slice(b"more");
    assert_eq!(load_head(&longer), Some(pos));
}

#[test]
fn the_head_is_clamped_into_the_segments() {
    let tail = Pos { seg: 5, off: 100 };
    let inside = Pos { seg: 4, off: 7 };
    assert_eq!(place_head(Some(inside), 3, tail), inside);
    assert_eq!(place_head(None, 3, tail), Pos { seg: 3, off: 0 });
    let gone = Pos { seg: 2, off: 9 };
    assert_eq!(place_head(Some(gone), 3, tail), Pos { seg: 3, off: 0 });
    assert_eq!(place_head(Some(Pos { seg: 5, off: 101 }), 3, tail), tail);
    assert_eq!(place_head(Some(Pos { seg: 9, off: 0 }), 3, tail), tail);
}

#[test]
fn files_are_named_by_their_numbers() {
    assert_eq!(segment_path(42), "00000000000000000042.seg");
    assert_eq!(segment_path(u64::MAX), "18446744073709551615.seg");
    assert_eq!(event_path(12345), "12345.cbor");
    assert_eq!(event_path(-7), "-7.cbor");
    assert_eq!(event_path(i64::MIN), "-9223372036854775808.cbor");
    assert_eq!(shard_dir(7), "shard_007");
    assert_eq!(shard_dir(239), "shard_239");
}

#[test]
fn only_segment_files_are_listed() {
    let names: Vec<String> = [
        "00000000000000000010.seg",
        "head",
        "2.seg",
        "+3.seg",
        "-4.seg",
        "x.seg",
        ".seg",
        "5.tmp",
        "5.seg.tmp",
        "18446744073709551616.seg",
        "00000000000000000001.seg",
    ]
    .iter()
    .map(|n| (*n).to_owned())
    .collect();
    assert_eq!(list_segments(&names), [1, 2, 3, 10]);
    assert!(list_segments(&Vec::new()).is_empty());
}

#[test]
fn a_new_log_has_one_empty_segment() {
    let mut dir = Disk::new();
    let log = open(&mut dir, 100);
    assert!(log.is_empty());
    assert_eq!(segments(&mut dir), [0]);
    assert_eq!(dir.segment(0), Some(Vec::new()));
    assert_eq!(load_head(&dir.head), Some(Pos { seg: 0, off: 0 }));
}

#[test]
fn reading_nothing_changes_nothing() {
    let mut dir = Disk::new();
    let mut log = open(&mut dir, 100);
    log.append(&mut dir, b"x").unwrap();
    let before = log;
    assert!(log.read_batch(&mut dir, 0).unwrap().is_empty());
    assert_eq!(log, before);
    assert!(log.peek(&mut dir, 0).unwrap().is_empty());
}

#[test]
fn an_empty_payload_hides_what_follows_in_its_segment() {
    // An empty record reads as corruption, so it and what follows it in the
    // segment are skipped.
    let mut dir = Disk::new();
    let mut log = open(&mut dir, 22);
    log.append(&mut dir, b"first").unwrap();
    log.append(&mut dir, b"").unwrap();
    log.append(&mut dir, b"lost").unwrap();
    log.append(&mut dir, b"later").unwrap();
    assert_eq!(segments(&mut dir), [0, 1]);
    assert_eq!(texts(&log.read_batch(&mut dir, 10).unwrap()), ["first", "later"]);
}

#[test]
fn a_corrupt_record_skips_the_rest_of_its_segment() {
    let mut dir = Disk::new();
    let mut log = open(&mut dir, 20);
    for i in 0..6 {
        log.append(&mut dir, format!("r0{i}").as_bytes()).unwrap();
    }
    assert_eq!(segments(&mut dir), [0, 1, 2]);
    let mut bytes = dir.segment(1).unwrap();
    bytes[9] ^= 1;
    dir.set_segment(1, bytes);
    assert_eq!(
        texts(&log.read_batch(&mut dir, 10).unwrap()),
        ["r00", "r01", "r04", "r05"]
    );
}

#[test]
fn a_missing_segment_fails_the_read_and_changes_nothing() {
    let mut dir = Disk::new();
    let mut log = open(&mut dir, 20);
    for i in 0..6 {
        log.append(&mut dir, format!("r0{i}").as_bytes()).unwrap();
    }
    assert!(matches!(dir.perform(&Action::Remove { seg: 1 }), Event::Performed));
    let before = log;
    assert!(log.read_batch(&mut dir, 10).is_none());
    assert_eq!(log, before);
    assert!(log.peek(&mut dir, 10).is_none());
    assert!(log.for_each_unread(&mut dir).is_none());
    // What comes before the gap can be read.
    assert_eq!(texts(&log.read_batch(&mut dir, 2).unwrap()), ["r00", "r01"]);
}

#[test]
fn every_unread_record_is_visited() {
    let mut dir = Disk::new();
    let mut log = open(&mut dir, 1000);
    for i in 0..5000 {
        log.append(&mut dir, format!("r{i}").as_bytes()).unwrap();
    }
    assert_eq!(log.read_batch(&mut dir, 100).unwrap().len(), 100);
    let seen = log.for_each_unread(&mut dir).unwrap();
    assert_eq!(seen.len(), 4900);
    assert_eq!(seen[0], b"r100");
    assert_eq!(seen[4899], b"r4999");
    assert_eq!(log.len(), 4900);
}

#[test]
fn keys_of_batches_ascend_across_segments_and_reopening() {
    let mut dir = Disk::new();
    let mut log = open(&mut dir, 20);
    let mut keys = Vec::new();
    for i in 0..7 {
        keys.push(log.append(&mut dir, format!("r0{i}").as_bytes()).unwrap());
    }
    assert!(keys.windows(2).all(|w| w[0] < w[1]));
    let first = log.read_batch(&mut dir, 3).unwrap();
    let mut log = open(&mut dir, 20);
    let rest = log.read_batch(&mut dir, 10).unwrap();
    let read: Vec<Vec<u8>> = first.into_iter().chain(rest).map(|(k, _)| k).collect();
    assert_eq!(read, keys);
    let next = log.append(&mut dir, b"r07").unwrap();
    assert!(keys[6] < next);
}

#[test]
fn a_head_that_is_behind_delivers_again() {
    let mut dir = Disk::new();
    let mut log = open(&mut dir, 1 << 20);
    for i in 0..4 {
        log.append(&mut dir, format!("r{i}").as_bytes()).unwrap();
    }
    log.read_batch(&mut dir, 1).unwrap();
    let stale = dir.head.clone();
    log.read_batch(&mut dir, 2).unwrap();
    dir.head = stale;
    let mut log = open(&mut dir, 1 << 20);
    assert_eq!(texts(&log.read_batch(&mut dir, 10).unwrap()), ["r1", "r2", "r3"]);
}

#[test]
fn segments_behind_the_head_are_unlinked_on_open() {
    let mut dir = Disk::new();
    let mut log = open(&mut dir, 20);
    for i in 0..6 {
        log.append(&mut dir, format!("r0{i}").as_bytes()).unwrap();
    }
    let old = dir.segment(0).unwrap();
    assert_eq!(log.read_batch(&mut dir, 3).unwrap().len(), 3);
    assert_eq!(segments(&mut dir), [1, 2]);
    // A crash between persisting the head and unlinking leaves the segment.
    dir.set_segment(0, old);
    let mut log = open(&mut dir, 20);
    assert_eq!(segments(&mut dir), [1, 2]);
    assert_eq!(log.len(), 3);
    assert_eq!(texts(&log.read_batch(&mut dir, 10).unwrap()), ["r03", "r04", "r05"]);
}

#[test]
fn a_drained_log_holds_no_bytes() {
    let mut dir = Disk::new();
    let mut log = open(&mut dir, 20);
    for i in 0..6 {
        log.append(&mut dir, format!("r0{i}").as_bytes()).unwrap();
    }
    assert_eq!(log.read_batch(&mut dir, 6).unwrap().len(), 6);
    assert_eq!(segments(&mut dir), [3]);
    assert_eq!(dir.segment(3), Some(Vec::new()));
    assert_eq!(load_head(&dir.head), Some(Pos { seg: 3, off: 0 }));
    log.append(&mut dir, b"again").unwrap();
    let mut log = open(&mut dir, 20);
    assert_eq!(texts(&log.read_batch(&mut dir, 10).unwrap()), ["again"]);
}

#[test]
fn appends_are_synced_once_per_interval() {
    let mut dir = Disk::new();
    let mut log = open(&mut dir, 1 << 20);
    log.append(&mut dir, b"a").unwrap();
    assert!(log.dirty);
    dir.now = SECOND - 1;
    log.append(&mut dir, b"b").unwrap();
    assert!(log.dirty);
    assert_eq!(log.last_sync, 0);
    dir.now = SECOND;
    log.append(&mut dir, b"c").unwrap();
    assert!(!log.dirty);
    assert_eq!(log.last_sync, SECOND);
    log.append(&mut dir, b"d").unwrap();
    assert!(log.dirty);
    dir.now = SECOND + 5;
    assert!(log.sync(&mut dir));
    assert!(!log.dirty);
    assert_eq!(log.last_sync, SECOND + 5);
    // A clock that ran backwards has not advanced.
    dir.now = 0;
    log.append(&mut dir, b"e").unwrap();
    assert!(log.dirty);
}

#[test]
fn a_sync_without_its_segment_fails() {
    let mut dir = Disk::new();
    let mut log = open(&mut dir, 1 << 20);
    log.append(&mut dir, b"a").unwrap();
    dir.perform(&Action::Remove { seg: 0 });
    let before = log;
    assert!(!log.sync(&mut dir));
    assert_eq!(log, before);
}

#[test]
fn a_record_whose_sync_failed_stays_unpublished() {
    let mut dir = Disk::new();
    let mut log = SegmentedLog::open(&mut dir, 1 << 20, 0).unwrap();
    let mut op = Append::new(b"late");
    let mut event = Event::Start;
    loop {
        match op.step(&mut log, event) {
            Step::Do(Action::Sync { .. }) => event = Event::Failed,
            Step::Do(action) => event = dir.perform(&action),
            Step::Done(key) => panic!("unexpected {key:?}"),
            Step::Failed => break,
        }
    }
    assert_eq!(log.writer, Pos { seg: 0, off: 12 });
    assert_eq!(log.committed, Pos { seg: 0, off: 0 });
    assert_eq!(log.unread, 0);
    assert!(log.dirty);
    assert!(matches!(op.step(&mut log, Event::Performed), Step::Failed));
}

#[test]
fn a_batch_whose_head_was_not_persisted_is_not_consumed() {
    let mut dir = Disk::new();
    let mut log = open(&mut dir, 1 << 20);
    log.append(&mut dir, b"x").unwrap();
    let before = log;
    let mut op = ReadBatch::new(10);
    let mut event = Event::Start;
    loop {
        match op.step(&mut log, event) {
            Step::Do(Action::WriteHead { .. }) => event = Event::Failed,
            Step::Do(action) => event = dir.perform(&action),
            Step::Done(out) => panic!("unexpected {out:?}"),
            Step::Failed => break,
        }
    }
    assert_eq!(log, before);
    assert_eq!(texts(&log.read_batch(&mut dir, 10).unwrap()), ["x"]);
}

#[test]
fn a_segment_that_cannot_be_unlinked_is_only_wasted_space() {
    let mut dir = Disk::new();
    let mut log = open(&mut dir, 20);
    for i in 0..4 {
        log.append(&mut dir, format!("r0{i}").as_bytes()).unwrap();
    }
    let mut op = ReadBatch::new(3);
    let mut event = Event::Start;
    let out = loop {
        match op.step(&mut log, event) {
            Step::Do(Action::Remove { .. }) => event = Event::Failed,
            Step::Do(action) => event = dir.perform(&action),
            Step::Done(out) => break out,
            Step::Failed => panic!("unexpected failure"),
        }
    };
    assert_eq!(texts(&out), ["r00", "r01", "r02"]);
    assert_eq!(segments(&mut dir), [0, 1]);
    let mut log = open(&mut dir, 20);
    assert_eq!(segments(&mut dir), [1]);
    assert_eq!(texts(&log.read_batch(&mut dir, 10).unwrap()), ["r03"]);
}

#[test]
fn an_append_during_a_read_keeps_its_segment() {
    // A record that arrives between the walk and the reclaiming of the drained
    // segment is not lost.
    let mut dir = Disk::new();
    let mut log = open(&mut dir, 1 << 20);
    log.append(&mut dir, b"one").unwrap();
    let mut op = ReadBatch::new(10);
    let mut event = Event::Start;
    let mut raced = false;
    let out = loop {
        match op.step(&mut log, event) {
            Step::Do(Action::LockWriter) if !raced => {
                raced = true;
                log.append(&mut dir, b"two").unwrap();
                event = Event::Performed;
            }
            Step::Do(action) => event = dir.perform(&action),
            Step::Done(out) => break out,
            Step::Failed => panic!("unexpected failure"),
        }
    };
    assert_eq!(texts(&out), ["one"]);
    assert_eq!(log.len(), 1);
    assert_eq!(texts(&log.read_batch(&mut dir, 10).unwrap()), ["two"]);
}

#[test]
fn an_unexpected_event_ends_an_operation() {
    let mut dir = Disk::new();
    let log = open(&mut dir, 100);
    let mut visit = Visit::new();
    assert!(matches!(visit.step(&log, Event::Length(3)), VisitStep::Failed));
    let mut op = Open::new(100, 0);
    assert!(matches!(op.step(Event::Start), Step::Do(Action::List)));
    assert!(matches!(op.step(Event::Failed), Step::Failed));
    assert!(matches!(op.step(Event::Start), Step::Failed));
}

#[test]
fn a_scan_counts_whole_records_and_stops_at_the_first_torn_one() {
    let mut bytes = Vec::new();
    encode_record(&mut bytes, b"one");
    encode_record(&mut bytes, b"two");
    let whole = bytes.len() as u64;
    bytes.extend_from_slice(&9u32.to_le_bytes());
    let mut scan = Scan::new(0, bytes.len() as u64);
    while let Some(len) = scan.next() {
        let from = scan.off as usize;
        assert!(scan.feed(&bytes[from..from + len as usize]));
    }
    assert_eq!((scan.off, scan.count), (whole, 2));
    let mut scan = Scan::new(0, 5);
    assert!(!scan.feed(&bytes[..4]));
    assert_eq!(Scan::new(7, 7).next(), None);
}

fn six_records() -> (Disk, SegmentedLog) {
    let mut dir = Disk::new();
    let mut log = open(&mut dir, 20);
    for i in 0..6 {
        log.append(&mut dir, format!("r0{i}").as_bytes()).unwrap();
    }
    (dir, log)
}

#[test]
fn a_crash_during_an_append_loses_nothing() {
    // Whatever part of the record reached the disk, in the current segment and
    // in a fresh one.
    for roll in [false, true] {
        let mut whole = Vec::new();
        encode_record(&mut whole, b"new");
        for n in 0..=whole.len() {
            let mut dir = Disk::new();
            let mut log = open(&mut dir, if roll { 11 } else { 100 });
            log.append(&mut dir, b"old").unwrap();
            let seg = u64::from(roll);
            let mut bytes = dir.segment(seg).unwrap_or_default();
            bytes.extend_from_slice(&whole[..n]);
            dir.set_segment(seg, bytes);
            let mut log = open(&mut dir, 100);
            let want: &[&str] = if n == whole.len() { &["old", "new"] } else { &["old"] };
            assert_eq!(log.len(), want.len());
            assert_eq!(texts(&log.read_batch(&mut dir, 10).unwrap()), want);
        }
    }
}

#[test]
fn a_crash_during_a_read_delivers_again_or_goes_on() {
    // The operation stops after each of its actions in turn.
    for limit in [1, 3, 6, 10] {
        let mut actions = 0;
        loop {
            let (mut dir, mut log) = six_records();
            let mut op = ReadBatch::new(limit);
            let mut event = Event::Start;
            let mut done = 0;
            let mut headed = false;
            let finished = loop {
                match op.step(&mut log, event) {
                    Step::Do(_) if done == actions => break false,
                    Step::Do(action) => {
                        headed |= matches!(action, Action::WriteHead { .. });
                        event = dir.perform(&action);
                        done += 1;
                    }
                    Step::Done(_) => break true,
                    Step::Failed => panic!("unexpected failure"),
                }
            };
            let mut log = open(&mut dir, 20);
            let taken = if headed { limit.min(6) } else { 0 };
            let want: Vec<String> = (taken..6).map(|i| format!("r0{i}")).collect();
            assert_eq!(log.len(), want.len());
            assert_eq!(texts(&log.read_batch(&mut dir, 10).unwrap()), want);
            if finished {
                break;
            }
            actions += 1;
        }
        assert!(actions > 3);
    }
}

#[test]
fn a_read_with_a_failing_action_loses_nothing() {
    let mut handed_out = 0;
    let mut failed = 0;
    for fault in 0..40 {
        let (mut dir, mut log) = six_records();
        let before = log;
        let all = texts(&log.peek(&mut dir, 100).unwrap());
        let mut op = ReadBatch::new(100);
        let mut event = Event::Start;
        let mut actions = 0;
        let out = loop {
            match op.step(&mut log, event) {
                Step::Do(action) => {
                    event = if actions == fault {
                        Event::Failed
                    } else {
                        dir.perform(&action)
                    };
                    actions += 1;
                }
                Step::Done(out) => break Some(out),
                Step::Failed => break None,
            }
        };
        match out {
            Some(out) => {
                handed_out += 1;
                assert_eq!(texts(&out), all);
                assert!(log.is_empty());
            }
            None => {
                failed += 1;
                assert_eq!(log, before);
                assert_eq!(texts(&log.read_batch(&mut dir, 100).unwrap()), all);
            }
        }
        // The log goes on as if nothing had happened.
        log.append(&mut dir, b"next").unwrap();
        assert_eq!(log.len(), 1);
        assert_eq!(texts(&log.read_batch(&mut dir, 100).unwrap()), ["next"]);
        log.append(&mut dir, b"last").unwrap();
        let mut log = open(&mut dir, log.segment_bytes);
        assert_eq!(texts(&log.read_batch(&mut dir, 100).unwrap()), ["last"]);
    }
    assert!(failed > 0 && handed_out > 0);
}

#[test]
fn an_empty_payload_is_only_counted() {
    let mut dir = Disk::new();
    let mut log = open(&mut dir, 1 << 20);
    log.append(&mut dir, b"first").unwrap();
    assert_eq!(log.len(), 1);
    log.append(&mut dir, b"").unwrap();
    assert_eq!(log.len(), 2);
    assert_eq!(texts(&log.peek(&mut dir, 10).unwrap()), ["first"]);
    let log = open(&mut dir, 1 << 20);
    assert_eq!(log.len(), 1);
}

#[test]
fn a_read_resumes_where_the_one_before_stopped() {
    let (mut dir, log) = six_records();
    let all = log.peek(&mut dir, 6).unwrap();
    assert_eq!(all.len(), 6);
    for first in 0..=6 {
        let (mut dir, mut log) = six_records();
        let mut read = log.read_batch(&mut dir, first).unwrap();
        assert_eq!(read.len(), first);
        read.extend(log.read_batch(&mut dir, 6 - first).unwrap());
        assert_eq!(read, all);
        assert_eq!(log.len(), 0);
    }
}

#[test]
fn a_payload_over_the_limit_hides_what_follows_in_its_segment() {
    let mut dir = Disk::new();
    let mut log = open(&mut dir, 1 << 40);
    log.append(&mut dir, b"first").unwrap();
    log.append(&mut dir, &vec![7; MAX_RECORD + 1]).unwrap();
    log.append(&mut dir, b"lost").unwrap();
    assert_eq!(log.len(), 3);
    assert_eq!(texts(&log.peek(&mut dir, 10).unwrap()), ["first"]);
    let log = open(&mut dir, 1 << 40);
    assert_eq!(log.len(), 1);
}
