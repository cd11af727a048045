//! What the operations of a log promise together.

use vstd::prelude::*;

use crate::bytes;
use crate::disk;
use crate::head;
use crate::log;
use crate::log::SegmentedLog;
use crate::memory;
use crate::pos;
use crate::pos::Pos;
use crate::queue;
use crate::read;
use crate::reader;
use crate::record;
use crate::record::RECORD_HEADER;
use crate::recovery;

verus! {

/// The unread records of a log, in arrival order, with their keys.
pub open spec fn contents(log: SegmentedLog, d: disk::DiskView) -> read::Records {
    queue::queue(d.segs, log.head, log.committed)
}

/// A record of `s` starts at `off`, or its records end there.
pub open spec fn is_boundary(s: Seq<u8>, off: int) -> bool {
    exists|k: nat| k <= record::records(s).len() && #[trigger] record::span(s, k) == off
}

/// The log and its directory are in order: they belong together, no segment
/// is missing, the last one holds whole records alone, the reader stands
/// between two records, the head file says where, and the count of unread
/// records is exact.
pub open spec fn in_order(log: SegmentedLog, d: disk::DiskView) -> bool {
    &&& d.wf()
    &&& memory::anchored(log, d)
    &&& queue::connected(d.segs, log.head, log.committed)
    &&& record::whole(d.segs[log.writer.seg])
    &&& is_boundary(d.segs[log.head.seg], log.head.off as int)
    &&& head::head_of(d.head) == Some(log.head)
    &&& log.unread == contents(log, d).len()
}

/// A log and its directory.
pub struct LogAndDisk {
    pub log: SegmentedLog,
    pub disk: disk::DiskView,
}

impl LogAndDisk {
    /// The log is in order and its writer can move to a further segment.
    pub open spec fn ready(self) -> bool {
        in_order(self.log, self.disk) && self.log.writer.seg < u64::MAX
    }

    /// The unread records.
    pub open spec fn contents(self) -> read::Records {
        contents(self.log, self.disk)
    }

    /// The log after its directory was opened again.
    pub open spec fn reopened(self, segment_bytes: u64, fsync_interval: u128) -> LogAndDisk {
        LogAndDisk {
            log: recovery::opened_log(self.disk, segment_bytes, fsync_interval),
            disk: recovery::opened_disk(self.disk),
        }
    }

    /// The log after a read of at most `limit` records.
    pub open spec fn after_read(self, limit: nat) -> LogAndDisk {
        let t = queue::taken(self.disk.segs, self.log.head, self.log.committed, limit);
        let batch = memory::batch_of(self.log, self.disk, t->0);
        LogAndDisk { log: batch.log, disk: batch.disk }
    }
}

/// The bytes from a boundary on hold whole records if all of them do.
proof fn lemma_whole_from(s: Seq<u8>, off: int)
    requires
        record::whole(s),
        is_boundary(s, off),
    ensures
        0 <= off <= s.len(),
        record::whole(s.skip(off)),
{
    let k = choose|k: nat| k <= record::records(s).len() && #[trigger] record::span(s, k) == off;
    record::lemma_records_split(s, k);
    record::lemma_span_split(s, k, record::records(s.skip(off)).len());
}

/// Records from `pos` on depend on the segments from there to `end` alone.
pub proof fn lemma_queue_agrees(a: Map<u64, Seq<u8>>, b: Map<u64, Seq<u8>>, pos: Pos, end: Pos)
    requires
        forall|seg: u64|
            pos.seg <= seg <= end.seg ==> (#[trigger] a.contains_key(seg) == b.contains_key(seg))
                && (a.contains_key(seg) ==> a[seg] == b[seg]),
    ensures
        queue::queue(a, pos, end) == queue::queue(b, pos, end),
    decreases end.seg - pos.seg,
{
    if pos.before(end) {
        assert(a.contains_key(pos.seg) == b.contains_key(pos.seg));
        if pos.seg < end.seg {
            lemma_queue_agrees(a, b, queue::next_segment(pos), end);
        }
    }
}

/// One record more at the end of the last segment is one more in the queue.
proof fn lemma_queue_grows(segs: Map<u64, Seq<u8>>, pos: Pos, end: Pos, payload: Seq<u8>)
    requires
        queue::connected(segs, pos, end),
        !end.before(pos),
        segs[end.seg].len() == end.off,
        record::whole(segs[end.seg]),
        pos.seg == end.seg ==> is_boundary(segs[end.seg], pos.off as int),
        record::storable(payload),
        end.off + record::frame(payload).len() <= u64::MAX,
    ensures
        ({
            let more = segs.insert(end.seg, segs[end.seg] + record::frame(payload));
            let far = Pos {
                seg: end.seg,
                off: (end.off + record::frame(payload).len()) as u64,
            };
            queue::queue(more, pos, far) =~= queue::queue(segs, pos, end).push(
                (end.key(), payload),
            )
        }),
    decreases end.seg - pos.seg,
{
    let frame = record::frame(payload);
    let more = segs.insert(end.seg, segs[end.seg] + frame);
    let far = Pos { seg: end.seg, off: (end.off + frame.len()) as u64 };
    record::lemma_records_of_frame(payload);
    assert(segs.contains_key(pos.seg));
    if pos.seg < end.seg {
        assert(is_boundary(segs[end.seg], 0)) by {
            assert(record::span(segs[end.seg], 0) == 0);
        }
        lemma_queue_grows(segs, queue::next_segment(pos), end, payload);
        assert(queue::left(more, pos, far) =~= queue::left(segs, pos, end));
    } else {
        let old = segs[end.seg].skip(pos.off as int);
        let s = queue::left(more, pos, far);
        lemma_whole_from(segs[end.seg], pos.off as int);
        assert(s =~= old + frame);
        record::lemma_records_concat(old, frame);
        let n = record::records(old).len();
        let keyed = reader::keyed(pos, s, (n + 1) as nat);
        assert(s.take(old.len() as int) =~= old);
        record::lemma_records_prefix(s, old.len() as int);
        assert(record::span(old, n) == record::span(s, n));
        if pos.before(end) {
            assert(queue::left(segs, pos, end) =~= old);
            let was = reader::keyed(pos, old, n);
            assert forall|i: int| 0 <= i < n implies keyed[i] == was[i] by {
                assert(record::span(old, i as nat) == record::span(s, i as nat));
                assert(record::records(s)[i] == record::records(old)[i]);
            }
        } else {
            assert(old =~= Seq::<u8>::empty());
            record::lemma_records_empty();
        }
        assert(keyed[n as int] == (end.key(), payload));
        assert(keyed =~= queue::queue(segs, pos, end).push((end.key(), payload)));
    }
}

/// An empty segment after the last one holds nothing yet.
pub proof fn lemma_queue_rolls(segs: Map<u64, Seq<u8>>, pos: Pos, end: Pos)
    requires
        queue::connected(segs, pos, end),
        !end.before(pos),
        end.seg < u64::MAX,
        segs[end.seg].len() == end.off,
    ensures
        ({
            let next = log::start_after(end.seg);
            queue::queue(segs.insert(next.seg, Seq::empty()), pos, next) =~= queue::queue(
                segs,
                pos,
                end,
            )
        }),
    decreases end.seg - pos.seg,
{
    let next = log::start_after(end.seg);
    let more = segs.insert(next.seg, Seq::empty());
    assert(segs.contains_key(pos.seg));
    if pos.seg < end.seg {
        lemma_queue_rolls(segs, queue::next_segment(pos), end);
        assert(queue::left(more, pos, next) =~= queue::left(segs, pos, end));
    } else {
        assert(queue::queue(more, next, next) =~= Seq::empty());
        assert(queue::next_segment(pos) == next);
        if pos.before(end) {
            assert(queue::left(more, pos, next) =~= queue::left(segs, pos, end));
        } else {
            assert(queue::left(more, pos, next) =~= Seq::<u8>::empty());
            record::lemma_records_empty();
        }
    }
}

/// Appending a storable payload puts it at the end of the unread records,
/// under the key that is returned, and leaves the log in order.
pub proof fn law_append_adds_last(log: SegmentedLog, d: disk::DiskView, payload: Seq<u8>)
    requires
        in_order(log, d),
        record::storable(payload),
        log.writer.seg < u64::MAX,
        log.writer.off + RECORD_HEADER + payload.len() <= u64::MAX,
        log.unread < u64::MAX,
    ensures
        ({
            let log2 = memory::appended_log(log, d, payload);
            let d2 = memory::appended_disk(log, d, payload);
            let key = memory::roomy_log(log, d).writer.key();
            &&& contents(log2, d2) =~= contents(log, d).push((key, payload))
            &&& in_order(log2, d2)
        }),
{
    let log2 = memory::appended_log(log, d, payload);
    let d2 = memory::appended_disk(log, d, payload);
    let roomy = memory::roomy_log(log, d);
    let segs = memory::roomy_disk(log, d).segs;
    let end = roomy.writer;
    record::lemma_records_of_frame(payload);
    record::lemma_records_empty();
    if log.full() {
        lemma_queue_rolls(d.segs, log.head, log.writer);
    }
    assert(queue::connected(segs, log.head, end));
    assert(segs.contains_key(log.head.seg));
    assert(segs[log.head.seg] == d.segs[log.head.seg]) by {
        assert(d.segs.contains_key(log.head.seg));
    }
    lemma_queue_grows(segs, log.head, end, payload);
    record::lemma_records_concat(segs[end.seg], record::frame(payload));
    assert(is_boundary(d2.segs[log.head.seg], log.head.off as int)) by {
        let s = segs[log.head.seg];
        let k = choose|k: nat|
            k <= record::records(s).len() && #[trigger] record::span(s, k) == log.head.off;
        if log.head.seg == end.seg {
            let grown = s + record::frame(payload);
            assert(grown.take(s.len() as int) =~= s);
            record::lemma_records_prefix(grown, s.len() as int);
            assert(record::span(s, k) == record::span(grown, k));
        }
    }
    assert(queue::connected(d2.segs, log2.head, log2.committed));
}

/// A walk that starts at a boundary and takes something ends at one.
proof fn lemma_taken_boundary(segs: Map<u64, Seq<u8>>, pos: Pos, end: Pos, limit: nat)
    requires
        queue::fits(segs),
        queue::connected(segs, pos, end),
        !end.before(pos),
        segs[end.seg].len() == end.off,
        record::whole(segs[end.seg]),
        is_boundary(segs[pos.seg], pos.off as int),
    ensures
        ({
            let t = queue::taken(segs, pos, end, limit);
            t is Some ==> pos.seg <= t->0.pos.seg <= end.seg && is_boundary(
                segs[t->0.pos.seg],
                t->0.pos.off as int,
            )
        }),
    decreases end.seg - pos.seg,
{
    let t = queue::taken(segs, pos, end, limit);
    assert(segs.contains_key(pos.seg));
    if limit > 0 && pos.before(end) {
        let s = queue::left(segs, pos, end);
        let file = segs[pos.seg];
        let k = choose|k: nat|
            k <= record::records(file).len() && #[trigger] record::span(file, k) == pos.off;
        record::lemma_records_split(file, k);
        assert(s =~= file.skip(pos.off as int));
        let found = record::records(s).len();
        if found >= limit {
            record::lemma_span_split(file, k, limit);
            queue::lemma_span_fits(s, limit);
            if pos.off + record::span(s, limit) >= queue::seg_end(segs, pos, end) && pos.seg
                < end.seg {
                assert(record::span(segs[(pos.seg + 1) as u64], 0) == 0);
            } else {
                assert(record::span(file, k + limit) == t->0.pos.off);
            }
        } else if pos.seg < end.seg {
            let next = queue::next_segment(pos);
            assert(segs.contains_key(next.seg));
            assert(record::span(segs[next.seg], 0) == 0);
            lemma_taken_boundary(segs, next, end, (limit - found) as nat);
        } else {
            assert(record::span(segs[end.seg], record::records(segs[end.seg]).len()) == end.off);
        }
    }
}

/// The head file names the position that was written to it.
pub proof fn lemma_headed(d: disk::DiskView, pos: Pos)
    ensures
        head::head_of(memory::headed(d, pos).head) == Some(pos),
{
    head::lemma_head_len(pos);
    let bytes = head::head_bytes(pos);
    let rest = if bytes.len() < d.head.len() {
        d.head.skip(bytes.len() as int)
    } else {
        Seq::empty()
    };
    assert(memory::headed(d, pos).head =~= bytes + rest);
    head::law_head_round_trip(pos, rest);
}

/// How many records a read of at most `limit` hands out.
pub open spec fn handed_out(limit: nat, unread: nat) -> int {
    if limit < unread {
        limit as int
    } else {
        unread as int
    }
}

/// Reading a batch hands out the first unread records in arrival order, up to
/// the limit; the others stay unread, and the log stays in order. No segment
/// that is left was rewritten.
pub proof fn law_read_takes_first(log: SegmentedLog, d: disk::DiskView, limit: nat)
    requires
        in_order(log, d),
        log.writer.seg < u64::MAX,
    ensures
        ({
            let t = queue::taken(d.segs, log.head, log.committed, limit);
            let batch = memory::batch_of(log, d, t->0);
            let all = contents(log, d);
            let n = handed_out(limit, all.len());
            &&& t is Some
            &&& batch.out =~= all.take(n)
            &&& contents(batch.log, batch.disk) =~= all.skip(n)
            &&& in_order(batch.log, batch.disk)
            &&& forall|seg: u64| #[trigger]
                batch.disk.segs.contains_key(seg) ==> batch.disk.segs[seg] == if d.segs.contains_key(
                    seg,
                ) {
                    d.segs[seg]
                } else {
                    Seq::empty()
                }
        }),
{
    let (pos, end) = (log.head, log.committed);
    let t = queue::taken(d.segs, pos, end, limit);
    let all = contents(log, d);
    let n = handed_out(limit, all.len());
    assert(queue::fits(d.segs));
    queue::law_walk_takes_first(d.segs, pos, end, limit);
    queue::lemma_taken_before_rest(d.segs, pos, end, limit);
    queue::lemma_taken_goes_on(d.segs, pos, end, limit);
    lemma_taken_boundary(d.segs, pos, end, limit);
    let batch = memory::batch_of(log, d, t->0);
    let at = t->0.pos;
    assert(queue::queue(d.segs, end, end) =~= Seq::empty());
    assert(t->0.out =~= all.take(n));
    assert(queue::queue(d.segs, at, end) =~= all.skip(n));
    if at == pos {
        assert(all.take(n).len() == 0);
    } else if at == end && at.off > 0 {
        let next = log::start_after(log.writer.seg);
        let segs = batch.disk.segs;
        assert(segs[next.seg] =~= Seq::<u8>::empty());
        record::lemma_records_empty();
        assert(record::span(segs[next.seg], 0) == 0);
        lemma_headed(
            disk::DiskView {
                segs: memory::unlinked(d.segs, pos.seg, at.seg).insert(
                    next.seg,
                    Seq::empty(),
                ).remove(log.writer.seg),
                ..d
            },
            next,
        );
        assert(queue::queue(segs, next, next) =~= Seq::empty());
        assert forall|seg: u64| #[trigger] segs.contains_key(seg) implies seg == next.seg by {
            assert(d.segs.contains_key(seg) || seg == next.seg);
        }
        assert(all.skip(n).len() == 0);
    } else {
        lemma_advanced_in_order(log, d, limit);
    }
}

/// The log whose head moved past a batch, with the segments behind it unlinked,
/// is in order and holds what the batch left.
pub proof fn lemma_advanced_in_order(log: SegmentedLog, d: disk::DiskView, limit: nat)
    requires
        in_order(log, d),
    ensures
        ({
            let t = queue::taken(d.segs, log.head, log.committed, limit)->0;
            let all = contents(log, d);
            let on = log.advanced(t.pos).consumed(t.out.len());
            let behind = memory::headed(
                disk::DiskView {
                    segs: memory::unlinked(d.segs, log.head.seg, t.pos.seg),
                    ..d
                },
                t.pos,
            );
            &&& in_order(on, behind)
            &&& contents(on, behind) =~= all.skip(handed_out(limit, all.len()))
        }),
{
    let (pos, end) = (log.head, log.committed);
    let t = queue::taken(d.segs, pos, end, limit);
    let all = contents(log, d);
    let n = handed_out(limit, all.len());
    assert(queue::fits(d.segs));
    queue::law_walk_takes_first(d.segs, pos, end, limit);
    queue::lemma_taken_before_rest(d.segs, pos, end, limit);
    queue::lemma_taken_goes_on(d.segs, pos, end, limit);
    lemma_taken_boundary(d.segs, pos, end, limit);
    let at = t->0.pos;
    let segs = memory::unlinked(d.segs, pos.seg, at.seg);
    assert(queue::queue(d.segs, end, end) =~= Seq::empty());
    assert(queue::queue(d.segs, at, end) =~= all.skip(n));
    lemma_headed(disk::DiskView { segs, ..d }, at);
    assert forall|seg: u64| at.seg <= seg <= end.seg implies (#[trigger] d.segs.contains_key(seg)
        == segs.contains_key(seg)) && (d.segs.contains_key(seg) ==> d.segs[seg]
        == segs[seg]) by {}
    lemma_queue_agrees(d.segs, segs, at, end);
    assert forall|seg: u64| at.seg <= seg <= end.seg implies #[trigger] segs.contains_key(
        seg,
    ) by {
        assert(d.segs.contains_key(seg));
    }
    assert(segs[at.seg] == d.segs[at.seg]) by {
        assert(d.segs.contains_key(at.seg));
    }
}

/// The oldest and the newest segment of a log in order.
proof fn lemma_ends(log: SegmentedLog, d: disk::DiskView)
    requires
        in_order(log, d),
    ensures
        recovery::first_of(d.segs) == log.head.seg,
        recovery::last_of(d.segs) == log.writer.seg,
        recovery::tail_of(d.segs) == log.writer,
        recovery::trimmed(d.segs) =~= d.segs,
        recovery::since(d.segs, log.head.seg) =~= d.segs,
{
    assert(d.segs.contains_key(log.head.seg));
    recovery::lemma_first(d.segs, log.head.seg);
    recovery::lemma_last(d.segs, log.writer.seg);
    let file = d.segs[log.writer.seg];
    assert(file.take(file.len() as int) =~= file);
}

/// Opening the directory of a log in order gives back the log with the same
/// unread records: reading resumes after the records that were consumed.
pub proof fn law_reopen_resumes(
    log: SegmentedLog,
    d: disk::DiskView,
    segment_bytes: u64,
    fsync_interval: u128,
)
    requires
        in_order(log, d),
    ensures
        ({
            let log2 = recovery::opened_log(d, segment_bytes, fsync_interval);
            let d2 = recovery::opened_disk(d);
            &&& log2 == (SegmentedLog {
                segment_bytes,
                fsync_interval,
                dirty: false,
                last_sync: d.now,
                ..log
            })
            &&& d2.segs =~= d.segs
            &&& contents(log2, d2) =~= contents(log, d)
            &&& in_order(log2, d2)
        }),
{
    lemma_ends(log, d);
    assert(recovery::head_in(d) == log.head);
    lemma_headed(
        disk::DiskView {
            segs: recovery::since(recovery::trimmed(d.segs), recovery::head_in(d).seg),
            ..d
        },
        log.head,
    );
}

/// What a crash left of an append, after the last complete record, is cut off
/// when the log is opened; everything before it is kept.
pub proof fn law_torn_tail_is_cut(
    log: SegmentedLog,
    d: disk::DiskView,
    torn: Seq<u8>,
    segment_bytes: u64,
    fsync_interval: u128,
)
    requires
        in_order(log, d),
        !(record::reading(torn) is Record),
        log.writer.off + torn.len() <= u64::MAX,
    ensures
        ({
            let crashed = d.with(log.writer.seg, d.segs[log.writer.seg] + torn);
            let log2 = recovery::opened_log(crashed, segment_bytes, fsync_interval);
            let d2 = recovery::opened_disk(crashed);
            &&& log2 == recovery::opened_log(d, segment_bytes, fsync_interval)
            &&& d2 =~= recovery::opened_disk(d)
            &&& contents(log2, d2) =~= contents(log, d)
        }),
{
    let seg = log.writer.seg;
    let file = d.segs[seg];
    let crashed = d.with(seg, file + torn);
    law_reopen_resumes(log, d, segment_bytes, fsync_interval);
    lemma_ends(log, d);
    record::lemma_records_concat(file, torn);
    assert(record::records(torn) =~= Seq::<Seq<u8>>::empty());
    assert(d.segs.contains_key(log.head.seg));
    recovery::lemma_first(crashed.segs, log.head.seg);
    recovery::lemma_last(crashed.segs, seg);
    assert((file + torn).take(file.len() as int) =~= file);
    assert(recovery::tail_of(crashed.segs) == log.writer);
    assert(recovery::trimmed(crashed.segs) =~= d.segs);
}

/// The records from an earlier boundary of the same segment end with those
/// from a later one.
proof fn lemma_queue_from_earlier(segs: Map<u64, Seq<u8>>, a: Pos, b: Pos, end: Pos)
    requires
        queue::fits(segs),
        queue::connected(segs, a, end),
        queue::reaches(segs, end),
        a.seg == b.seg,
        a.off <= b.off,
        !end.before(b),
        is_boundary(segs[a.seg], a.off as int),
        is_boundary(segs[a.seg], b.off as int),
    ensures
        ({
            let (more, less) = (queue::queue(segs, a, end), queue::queue(segs, b, end));
            &&& more.len() >= less.len()
            &&& more.skip(more.len() - less.len()) =~= less
        }),
{
    let file = segs[a.seg];
    let (more, less) = (queue::queue(segs, a, end), queue::queue(segs, b, end));
    assert(segs.contains_key(a.seg));
    if a.off == b.off {
        assert(more.skip(0) =~= more);
    } else {
        let j = choose|k: nat|
            k <= record::records(file).len() && #[trigger] record::span(file, k) == a.off;
        let k = choose|k: nat|
            k <= record::records(file).len() && #[trigger] record::span(file, k) == b.off;
        if k < j {
            record::lemma_span_split(file, k, (j - k) as nat);
        }
        let m = (k - j) as nat;
        record::lemma_records_split(file, j);
        record::lemma_records_split(file, k);
        record::lemma_span_split(file, j, m);
        let from_a = file.skip(a.off as int);
        let s = queue::left(segs, a, end);
        let n = queue::seg_end(segs, a, end) - a.off;
        assert(s =~= from_a.take(n));
        assert(record::span(from_a, m) == b.off - a.off);
        record::lemma_records_split(from_a, m);
        lemma_prefix_span(from_a, n, m);
        queue::lemma_taken_before_rest(segs, a, end, m);
        if m > 0 {
            let t = queue::taken(segs, a, end, m);
            assert(t is Some);
            let settled = t->0.pos;
            if settled != b {
                assert(settled == queue::next_segment(b));
                assert(queue::left(segs, b, end) =~= Seq::<u8>::empty());
                record::lemma_records_empty();
                assert(less =~= queue::queue(segs, settled, end));
            }
            assert(more =~= t->0.out + less);
        }
    }
}

/// Records that end within the first `n` bytes are among the records of these
/// bytes.
pub proof fn lemma_prefix_span(s: Seq<u8>, n: int, m: nat)
    requires
        0 <= n <= s.len(),
        m <= record::records(s).len(),
        record::span(s, m) <= n,
    ensures
        m <= record::records(s.take(n)).len(),
        record::span(s.take(n), m) == record::span(s, m),
    decreases m,
{
    if m > 0 {
        record::lemma_reading_bounds(s);
        let total = record::reading(s)->total as int;
        let payload = record::reading(s)->payload;
        let b = s.take(n);
        let rest = s.skip(total);
        assert(record::records(s) =~= seq![payload] + record::records(rest));
        assert(total <= n);
        assert(b.subrange(0, 4) =~= s.subrange(0, 4));
        assert(b.subrange(4, 8) =~= s.subrange(4, 8));
        assert(b.subrange(RECORD_HEADER as int, total) =~= s.subrange(
            RECORD_HEADER as int,
            total,
        ));
        assert(record::reading(b) == record::reading(s));
        lemma_prefix_span(rest, n - total, (m - 1) as nat);
        assert(b.skip(total) =~= rest.take(n - total));
        assert(record::records(b) =~= seq![payload] + record::records(b.skip(total)));
    }
}

/// A head file that is missing, corrupt or behind delivers records again, and
/// skips none: the unread records come last among those of the log that is
/// opened. Without a valid head file, reading starts at the oldest segment.
pub proof fn law_stale_head_never_skips(
    log: SegmentedLog,
    d: disk::DiskView,
    stale: Seq<u8>,
    segment_bytes: u64,
    fsync_interval: u128,
)
    requires
        in_order(log, d),
        head::head_of(stale) matches Some(h) ==> !log.head.before(h) && (h.seg == log.head.seg
            ==> is_boundary(d.segs[h.seg], h.off as int)),
    ensures
        ({
            let crashed = disk::DiskView { head: stale, ..d };
            let log2 = recovery::opened_log(crashed, segment_bytes, fsync_interval);
            let d2 = recovery::opened_disk(crashed);
            let (all, unread) = (contents(log2, d2), contents(log, d));
            &&& all.len() >= unread.len()
            &&& all.skip(all.len() - unread.len()) =~= unread
            &&& head::head_of(stale) is None ==> log2.head == (Pos {
                seg: recovery::first_of(d.segs),
                off: 0,
            })
        }),
{
    let crashed = disk::DiskView { head: stale, ..d };
    lemma_ends(log, d);
    let head = recovery::head_in(crashed);
    assert(head.seg == log.head.seg);
    assert(head.off <= log.head.off);
    assert(record::span(d.segs[head.seg], 0) == 0);
    lemma_queue_from_earlier(d.segs, head, log.head, log.committed);
}

/// A read that takes everything drains the log: nothing of what was consumed
/// remains in the directory, whose segments are all empty. A read that asks
/// for no more than what is left does so where every segment holds whole
/// records alone. (A log that was opened with nothing to read keeps its last
/// segment.)
pub proof fn law_drained_log_is_empty(log: SegmentedLog, d: disk::DiskView, limit: nat)
    requires
        in_order(log, d),
        log.writer.seg < u64::MAX,
        log.head != log.committed,
        0 < limit,
        contents(log, d).len() <= limit,
        contents(log, d).len() < limit || forall|seg: u64| #[trigger]
            d.segs.contains_key(seg) ==> record::whole(d.segs[seg]),
    ensures
        ({
            let t = queue::taken(d.segs, log.head, log.committed, limit);
            let batch = memory::batch_of(log, d, t->0);
            &&& batch.out =~= contents(log, d)
            &&& batch.log.unread == 0
            &&& forall|seg: u64| #[trigger]
                batch.disk.segs.contains_key(seg) ==> batch.disk.segs[seg].len() == 0
        }),
{
    let end = log.committed;
    let t = queue::taken(d.segs, log.head, end, limit);
    assert(queue::fits(d.segs));
    queue::law_walk_takes_first(d.segs, log.head, end, limit);
    queue::lemma_taken_goes_on(d.segs, log.head, end, limit);
    law_read_takes_first(log, d, limit);
    let batch = memory::batch_of(log, d, t->0);
    let segs = batch.disk.segs;
    let at = t->0.pos;
    if at == end && at.off > 0 {
        assert forall|seg: u64| #[trigger] segs.contains_key(seg) implies segs[seg].len() == 0 by {
            assert(batch.log.head.seg <= seg <= batch.log.writer.seg);
        }
    } else if at == end {
        assert forall|seg: u64| #[trigger] segs.contains_key(seg) implies segs[seg].len() == 0 by {
            assert(batch.log.head.seg <= seg <= batch.log.writer.seg);
        }
    } else {
        assert(contents(batch.log, batch.disk).len() == 0);
        lemma_taken_settles(d.segs, log.head, end, limit);
        lemma_taken_boundary(d.segs, log.head, end, limit);
        assert(d.segs.contains_key(at.seg));
        assert(at.off == 0) by {
            let file = d.segs[at.seg];
            lemma_whole_from(file, at.off as int);
            if at.off > 0 {
                let rest = file.skip(at.off as int);
                assert(queue::left(d.segs, at, end) =~= rest);
                assert(queue::queue(d.segs, at, end).len() >= record::records(rest).len());
            }
        }
        assert forall|seg: u64| #[trigger] segs.contains_key(seg) implies segs[seg].len() == 0 by {
            assert(at.seg <= seg <= end.seg);
            assert forall|s: u64| at.seg <= s <= end.seg implies record::whole(
                #[trigger] d.segs[s],
            ) by {
                assert(d.segs.contains_key(s));
            }
            lemma_nothing_left(d.segs, at, end, seg);
        }
    }
}

/// A walk does not stay at the end of a segment that others follow.
pub proof fn lemma_taken_settles(segs: Map<u64, Seq<u8>>, pos: Pos, end: Pos, limit: nat)
    requires
        queue::fits(segs),
        queue::reaches(segs, end),
        pos.before(end),
        0 < limit,
    ensures
        queue::taken(segs, pos, end, limit) matches Some(t) ==> (t.pos.seg < end.seg && t.pos.off > 0
            ==> t.pos.off < segs[t.pos.seg].len()),
    decreases end.seg - pos.seg,
{
    if segs.contains_key(pos.seg) {
        let s = queue::left(segs, pos, end);
        let found = record::records(s).len();
        if found >= limit {
            queue::lemma_span_fits(s, limit);
        } else if pos.seg < end.seg {
            let next = queue::next_segment(pos);
            if next.before(end) && limit - found > 0 {
                lemma_taken_settles(segs, next, end, (limit - found) as nat);
            }
        }
    }
}

/// Whole segments without unread records are empty.
proof fn lemma_nothing_left(segs: Map<u64, Seq<u8>>, pos: Pos, end: Pos, seg: u64)
    requires
        queue::connected(segs, pos, end),
        segs[end.seg].len() == end.off,
        pos.off == 0,
        pos.seg <= seg <= end.seg,
        forall|s: u64| pos.seg <= s <= end.seg ==> record::whole(#[trigger] segs[s]),
        queue::queue(segs, pos, end).len() == 0,
    ensures
        segs[seg].len() == 0,
    decreases end.seg - pos.seg,
{
    let file = segs[pos.seg];
    assert(segs.contains_key(pos.seg));
    if pos.before(end) {
        assert(queue::left(segs, pos, end) =~= file);
        assert(record::records(file).len() == 0);
        assert(file.len() == 0);
        if pos.seg < seg {
            lemma_nothing_left(segs, queue::next_segment(pos), end, seg);
        }
    }
}

/// An empty directory opens as an empty log, in order.
pub proof fn law_new_log_is_empty(
    d: disk::DiskView,
    segment_bytes: u64,
    fsync_interval: u128,
)
    requires
        d.segs =~= Map::<u64, Seq<u8>>::empty(),
    ensures
        ({
            let log = recovery::opened_log(d, segment_bytes, fsync_interval);
            let d2 = recovery::opened_disk(d);
            &&& contents(log, d2) =~= Seq::empty()
            &&& in_order(log, d2)
        }),
{
    recovery::lemma_first(d.segs, 0);
    recovery::lemma_last(d.segs, 0);
    record::lemma_records_empty();
    let origin = Pos { seg: 0, off: 0 };
    assert(recovery::tail_of(d.segs) == origin);
    assert(recovery::head_in(d) == origin);
    let d2 = recovery::opened_disk(d);
    assert(d2.segs[0] =~= Seq::<u8>::empty());
    assert(record::span(d2.segs[0], 0) == 0);
    lemma_headed(
        disk::DiskView { segs: recovery::since(recovery::trimmed(d.segs), 0), ..d },
        origin,
    );
}

/// Every key in the queue is that of a position between `pos` and `end`.
proof fn lemma_queue_keys(segs: Map<u64, Seq<u8>>, pos: Pos, end: Pos, i: int) -> (at: Pos)
    requires
        queue::fits(segs),
        queue::reaches(segs, end),
        0 <= i < queue::queue(segs, pos, end).len(),
    ensures
        queue::queue(segs, pos, end)[i].0 == at.key(),
        !at.before(pos),
        at.before(end),
        forall|j: int|
            i < j < queue::queue(segs, pos, end).len() ==> bytes::lex_before(
                at.key(),
                (#[trigger] queue::queue(segs, pos, end)[j]).0,
            ),
    decreases end.seg - pos.seg, queue::queue(segs, pos, end).len() - i,
{
    let all = queue::queue(segs, pos, end);
    let s = queue::left(segs, pos, end);
    let here = if segs.contains_key(pos.seg) {
        reader::keyed(pos, s, record::records(s).len())
    } else {
        Seq::empty()
    };
    let next = queue::next_segment(pos);
    let far = if pos.seg < end.seg {
        queue::queue(segs, next, end)
    } else {
        Seq::empty()
    };
    assert(all =~= here + far);
    if i < here.len() {
        let at = Pos { seg: pos.seg, off: (pos.off + record::span(s, i as nat)) as u64 };
        lemma_span_rises(s, i as nat, record::records(s).len());
        queue::lemma_span_fits(s, record::records(s).len());
        assert forall|j: int| i < j < all.len() implies bytes::lex_before(
            at.key(),
            (#[trigger] all[j]).0,
        ) by {
            if j < here.len() {
                let to = Pos { seg: pos.seg, off: (pos.off + record::span(s, j as nat)) as u64 };
                lemma_span_rises(s, i as nat, j as nat);
                lemma_span_rises(s, j as nat, record::records(s).len());
                pos::law_keys_keep_arrival_order(at, to);
                assert(all[j].0 == to.key());
            } else {
                let to = lemma_queue_keys(segs, next, end, j - here.len());
                pos::law_keys_keep_arrival_order(at, to);
                assert(all[j] == far[j - here.len()]);
            }
        }
        at
    } else {
        let at = lemma_queue_keys(segs, next, end, i - here.len());
        assert forall|j: int| i < j < all.len() implies bytes::lex_before(
            at.key(),
            (#[trigger] all[j]).0,
        ) by {
            assert(all[j] == far[j - here.len()]);
        }
        at
    }
}

/// Later records start later.
proof fn lemma_span_rises(s: Seq<u8>, j: nat, k: nat)
    requires
        j < k <= record::records(s).len(),
    ensures
        record::span(s, j) < record::span(s, k),
{
    record::lemma_span_split(s, j, (k - j) as nat);
    record::lemma_records_split(s, j);
    let rest = s.skip(record::span(s, j) as int);
    record::lemma_reading_bounds(rest);
    assert(record::records(rest).len() > 0);
    assert(record::span(rest, (k - j) as nat) > 0);
}

/// The keys of the unread records ascend, in dictionary order, as the records
/// arrived; and the key of the next append comes after all of them.
pub proof fn law_keys_ascend(log: SegmentedLog, d: disk::DiskView)
    requires
        in_order(log, d),
        log.writer.seg < u64::MAX,
    ensures
        ({
            let all = contents(log, d);
            let key = memory::roomy_log(log, d).writer.key();
            &&& forall|i: int, j: int|
                0 <= i < j < all.len() ==> bytes::lex_before(
                    (#[trigger] all[i]).0,
                    (#[trigger] all[j]).0,
                )
            &&& forall|i: int|
                0 <= i < all.len() ==> bytes::lex_before((#[trigger] all[i]).0, key)
        }),
{
    let all = contents(log, d);
    let end = memory::roomy_log(log, d).writer;
    assert(queue::fits(d.segs));
    assert forall|i: int, j: int| 0 <= i < j < all.len() implies bytes::lex_before(
        (#[trigger] all[i]).0,
        (#[trigger] all[j]).0,
    ) by {
        let at = lemma_queue_keys(d.segs, log.head, log.committed, i);
    }
    assert forall|i: int| 0 <= i < all.len() implies bytes::lex_before(
        (#[trigger] all[i]).0,
        end.key(),
    ) by {
        let at = lemma_queue_keys(d.segs, log.head, log.committed, i);
        pos::law_keys_keep_arrival_order(at, end);
    }
}

/// Where there is a segment there is an oldest one.
proof fn lemma_has_first(segs: Map<u64, Seq<u8>>, seg: u64)
    requires
        segs.contains_key(seg),
    ensures
        recovery::is_first(segs, recovery::first_of(segs)),
        recovery::first_of(segs) <= seg,
    decreases seg,
{
    if forall|s: u64| #[trigger] segs.contains_key(s) ==> seg <= s {
        recovery::lemma_first(segs, seg);
    } else {
        let s = choose|s: u64| #[trigger] segs.contains_key(s) && s < seg;
        lemma_has_first(segs, s);
    }
}

/// Segments behind the head, which a crash may have left, are unlinked when
/// the log is opened; nothing else changes.
pub proof fn law_leftovers_are_unlinked(
    log: SegmentedLog,
    d: disk::DiskView,
    left: Map<u64, Seq<u8>>,
    segment_bytes: u64,
    fsync_interval: u128,
)
    requires
        in_order(log, d),
        forall|seg: u64| #[trigger] left.contains_key(seg) ==> seg < log.head.seg,
    ensures
        ({
            let crashed = disk::DiskView { segs: left.union_prefer_right(d.segs), ..d };
            &&& recovery::opened_log(crashed, segment_bytes, fsync_interval)
                == recovery::opened_log(d, segment_bytes, fsync_interval)
            &&& recovery::opened_disk(crashed) =~= recovery::opened_disk(d)
        }),
{
    let crashed = disk::DiskView { segs: left.union_prefer_right(d.segs), ..d };
    lemma_ends(log, d);
    law_reopen_resumes(log, d, segment_bytes, fsync_interval);
    assert(d.segs.contains_key(log.head.seg));
    assert(crashed.segs.contains_key(log.head.seg));
    lemma_has_first(crashed.segs, log.head.seg);
    assert(recovery::is_last(crashed.segs, log.writer.seg)) by {
        assert forall|s: u64| #[trigger] crashed.segs.contains_key(s) implies s
            <= log.writer.seg by {
            assert(left.contains_key(s) || d.segs.contains_key(s));
        }
    }
    recovery::lemma_last(crashed.segs, log.writer.seg);
    assert(recovery::tail_of(crashed.segs) == log.writer);
    assert(recovery::head_in(crashed) == log.head);
    let kept = recovery::since(recovery::trimmed(crashed.segs), log.head.seg);
    let file = d.segs[log.writer.seg];
    assert(file.take(file.len() as int) =~= file);
    assert forall|s: u64| kept.contains_key(s) == d.segs.contains_key(s) by {
        if kept.contains_key(s) {
            assert(left.contains_key(s) || d.segs.contains_key(s));
        }
    }
    assert(kept =~= d.segs);
}

/// A peek shows the first unread records, up to the limit: those that a read
/// of as many would hand out.
pub proof fn law_peek_foretells_read(log: SegmentedLog, d: disk::DiskView, limit: nat)
    requires
        in_order(log, d),
        log.writer.seg < u64::MAX,
    ensures
        ({
            let t = queue::taken(d.segs, log.head, log.committed, limit);
            let all = contents(log, d);
            &&& t is Some
            &&& t->0.out =~= all.take(handed_out(limit, all.len()))
            &&& t->0.out == memory::batch_of(log, d, t->0).out
        }),
{
    law_read_takes_first(log, d, limit);
}

/// An append adds bytes at the end of one segment and rewrites nothing, and a
/// segment overshoots its size by one record at most: a record starts before
/// the size is reached, or at the start of a segment.
pub proof fn law_append_rewrites_nothing(log: SegmentedLog, d: disk::DiskView, payload: Seq<u8>)
    requires
        memory::anchored(log, d),
        log.writer.seg < u64::MAX,
    ensures
        ({
            let d2 = memory::appended_disk(log, d, payload);
            let at = memory::roomy_log(log, d).writer;
            &&& forall|seg: u64| #[trigger]
                d.segs.contains_key(seg) ==> d2.segs.contains_key(seg) && d2.segs[seg].len()
                    >= d.segs[seg].len() && d2.segs[seg].take(d.segs[seg].len() as int)
                    =~= d.segs[seg]
            &&& d2.segs[at.seg].len() == at.off + record::frame(payload).len()
            &&& at.off < log.segment_bytes || at.off == 0
            &&& d2.head == d.head
        }),
{
}

/// Bytes that start with no record add none to the end of the last segment.
proof fn lemma_queue_junk(segs: Map<u64, Seq<u8>>, pos: Pos, end: Pos, junk: Seq<u8>)
    requires
        queue::connected(segs, pos, end),
        !end.before(pos),
        segs[end.seg].len() == end.off,
        record::whole(segs[end.seg]),
        pos.seg == end.seg ==> is_boundary(segs[end.seg], pos.off as int),
        !(record::reading(junk) is Record),
        end.off + junk.len() <= u64::MAX,
    ensures
        ({
            let more = segs.insert(end.seg, segs[end.seg] + junk);
            let far = Pos { seg: end.seg, off: (end.off + junk.len()) as u64 };
            queue::queue(more, pos, far) =~= queue::queue(segs, pos, end)
        }),
    decreases end.seg - pos.seg,
{
    let more = segs.insert(end.seg, segs[end.seg] + junk);
    let far = Pos { seg: end.seg, off: (end.off + junk.len()) as u64 };
    assert(segs.contains_key(pos.seg));
    if pos.seg < end.seg {
        assert(is_boundary(segs[end.seg], 0)) by {
            assert(record::span(segs[end.seg], 0) == 0);
        }
        lemma_queue_junk(segs, queue::next_segment(pos), end, junk);
        assert(queue::left(more, pos, far) =~= queue::left(segs, pos, end));
    } else {
        let old = segs[end.seg].skip(pos.off as int);
        let s = old + junk;
        lemma_whole_from(segs[end.seg], pos.off as int);
        if pos.before(far) {
            assert(queue::left(more, pos, far) =~= s);
        }
        record::lemma_records_concat(old, junk);
        assert(record::records(junk) =~= Seq::<Seq<u8>>::empty());
        let n = record::records(old).len();
        assert(s.take(old.len() as int) =~= old);
        record::lemma_records_prefix(s, old.len() as int);
        if pos.before(end) {
            assert(queue::left(segs, pos, end) =~= old);
            let (now, was) = (reader::keyed(pos, s, n), reader::keyed(pos, old, n));
            assert forall|i: int| 0 <= i < n implies now[i] == was[i] by {
                assert(record::span(old, i as nat) == record::span(s, i as nat));
                assert(record::records(s)[i] == record::records(old)[i]);
            }
            assert(now =~= was);
        } else {
            assert(old =~= Seq::<u8>::empty());
            record::lemma_records_empty();
        }
    }
}

/// Whatever a directory holds, the log that opens on it counts its unread
/// records exactly.
pub proof fn law_count_is_exact_when_opened(
    d: disk::DiskView,
    segment_bytes: u64,
    fsync_interval: u128,
)
    requires
        contents(
            recovery::opened_log(d, segment_bytes, fsync_interval),
            recovery::opened_disk(d),
        ).len() <= u64::MAX,
    ensures
        ({
            let log = recovery::opened_log(d, segment_bytes, fsync_interval);
            log.unread == contents(log, recovery::opened_disk(d)).len()
        }),
{
}

/// The count of unread records stays exact from there on: an append of a
/// payload that can be read back adds one to it and to the records, and a read
/// takes as many from it as it hands out.
pub proof fn law_count_stays_exact(
    log: SegmentedLog,
    d: disk::DiskView,
    payload: Seq<u8>,
    limit: nat,
)
    requires
        in_order(log, d),
        record::storable(payload),
        log.writer.seg < u64::MAX,
        log.writer.off + RECORD_HEADER + payload.len() <= u64::MAX,
        log.unread < u64::MAX,
    ensures
        ({
            let log2 = memory::appended_log(log, d, payload);
            let d2 = memory::appended_disk(log, d, payload);
            let t = queue::taken(d.segs, log.head, log.committed, limit);
            let batch = memory::batch_of(log, d, t->0);
            &&& log.unread == contents(log, d).len()
            &&& log2.unread == log.unread + 1
            &&& log2.unread == contents(log2, d2).len()
            &&& batch.log.unread == log.unread - batch.out.len()
            &&& batch.log.unread == contents(batch.log, batch.disk).len()
        }),
{
    law_append_adds_last(log, d, payload);
    law_read_takes_first(log, d, limit);
}

/// The last segment with bytes at its end that start with no record: the unread
/// records are those from before.
proof fn lemma_junk_in_roomy(log: SegmentedLog, d: disk::DiskView, junk: Seq<u8>)
    requires
        in_order(log, d),
        log.writer.seg < u64::MAX,
        !(record::reading(junk) is Record),
        memory::roomy_log(log, d).writer.off + junk.len() <= u64::MAX,
    ensures
        ({
            let segs = memory::roomy_disk(log, d).segs;
            let end = memory::roomy_log(log, d).writer;
            let far = Pos { seg: end.seg, off: (end.off + junk.len()) as u64 };
            queue::queue(segs.insert(end.seg, segs[end.seg] + junk), log.head, far) =~= contents(
                log,
                d,
            )
        }),
{
    let segs = memory::roomy_disk(log, d).segs;
    let end = memory::roomy_log(log, d).writer;
    record::lemma_records_empty();
    if log.full() {
        lemma_queue_rolls(d.segs, log.head, log.writer);
    }
    assert(queue::connected(segs, log.head, end));
    assert(segs[log.head.seg] == d.segs[log.head.seg]) by {
        assert(d.segs.contains_key(log.head.seg));
    }
    lemma_queue_junk(segs, log.head, end, junk);
}

/// A payload that no reader accepts is counted when it is appended, but cannot
/// be read back, so that the count is then too high by one.
pub proof fn law_unreadable_payload_is_only_counted(
    log: SegmentedLog,
    d: disk::DiskView,
    payload: Seq<u8>,
)
    requires
        in_order(log, d),
        record::unreadable(payload),
        log.writer.seg < u64::MAX,
        log.writer.off + RECORD_HEADER + payload.len() <= u64::MAX,
    ensures
        ({
            let log2 = memory::appended_log(log, d, payload);
            let d2 = memory::appended_disk(log, d, payload);
            &&& contents(log2, d2) =~= contents(log, d)
            &&& log.unread < u64::MAX ==> log2.unread == contents(log2, d2).len() + 1
        }),
{
    let frame = record::frame(payload);
    record::lemma_frame_len(payload);
    record::lemma_unreadable(payload, Seq::empty());
    assert(frame + Seq::<u8>::empty() =~= frame);
    lemma_junk_in_roomy(log, d, frame);
}

/// The log and its directory after these payloads were appended in turn.
pub open spec fn after_appends(
    log: SegmentedLog,
    d: disk::DiskView,
    payloads: Seq<Seq<u8>>,
) -> (SegmentedLog, disk::DiskView)
    decreases payloads.len(),
{
    if payloads.len() == 0 {
        (log, d)
    } else {
        let (log1, d1) = after_appends(log, d, payloads.drop_last());
        let last = payloads.last();
        (memory::appended_log(log1, d1, last), memory::appended_disk(log1, d1, last))
    }
}

/// Appended in turn, these payloads all go to the segment in which the writer
/// stands.
pub open spec fn in_one_segment(
    log: SegmentedLog,
    d: disk::DiskView,
    payloads: Seq<Seq<u8>>,
) -> bool
    decreases payloads.len(),
{
    payloads.len() > 0 ==> {
        let before = after_appends(log, d, payloads.drop_last()).0;
        &&& in_one_segment(log, d, payloads.drop_last())
        &&& !before.full()
        &&& before.writer.off + RECORD_HEADER + payloads.last().len() <= u64::MAX
    }
}

/// The frames of these payloads, one after the other.
spec fn frames(payloads: Seq<Seq<u8>>) -> Seq<u8>
    decreases payloads.len(),
{
    if payloads.len() == 0 {
        Seq::empty()
    } else {
        frames(payloads.drop_last()) + record::frame(payloads.last())
    }
}

/// What appends that stay in one segment write.
proof fn lemma_after_appends(log: SegmentedLog, d: disk::DiskView, payloads: Seq<Seq<u8>>)
    requires
        log.committed == log.writer,
        d.segs.contains_key(log.writer.seg),
        in_one_segment(log, d, payloads),
    ensures
        ({
            let (log2, d2) = after_appends(log, d, payloads);
            let (seg, more) = (log.writer.seg, frames(payloads));
            &&& log.writer.off + more.len() <= u64::MAX
            &&& log2.head == log.head
            &&& log2.committed == log2.writer
            &&& log2.writer == (Pos { seg, off: (log.writer.off + more.len()) as u64 })
            &&& d2.segs =~= d.segs.insert(seg, d.segs[seg] + more)
        }),
    decreases payloads.len(),
{
    let (seg, more) = (log.writer.seg, frames(payloads));
    if payloads.len() == 0 {
        assert(d.segs[seg] + more =~= d.segs[seg]);
    } else {
        let less = frames(payloads.drop_last());
        let frame = record::frame(payloads.last());
        lemma_after_appends(log, d, payloads.drop_last());
        record::lemma_frame_len(payloads.last());
        assert((d.segs[seg] + less) + frame =~= d.segs[seg] + more);
    }
}

/// A payload that no reader accepts hides what is appended after it in its
/// segment: whatever follows there is skipped with it, and the unread records
/// are those from before it.
pub proof fn law_unreadable_payload_hides_its_segment(
    log: SegmentedLog,
    d: disk::DiskView,
    payload: Seq<u8>,
    others: Seq<Seq<u8>>,
)
    requires
        in_order(log, d),
        record::unreadable(payload),
        log.writer.seg < u64::MAX,
        log.writer.off + RECORD_HEADER + payload.len() <= u64::MAX,
        in_one_segment(
            memory::appended_log(log, d, payload),
            memory::appended_disk(log, d, payload),
            others,
        ),
    ensures
        ({
            let log1 = memory::appended_log(log, d, payload);
            let d1 = memory::appended_disk(log, d, payload);
            let (log2, d2) = after_appends(log1, d1, others);
            contents(log2, d2) =~= contents(log, d)
        }),
{
    let frame = record::frame(payload);
    record::lemma_frame_len(payload);
    record::lemma_unreadable(payload, frames(others));
    let log1 = memory::appended_log(log, d, payload);
    let d1 = memory::appended_disk(log, d, payload);
    lemma_after_appends(log1, d1, others);
    let junk = frame + frames(others);
    lemma_junk_in_roomy(log, d, junk);
    let segs = memory::roomy_disk(log, d).segs;
    let seg = memory::roomy_log(log, d).writer.seg;
    assert((segs[seg] + frame) + frames(others) =~= segs[seg] + junk);
    assert(after_appends(log1, d1, others).1.segs =~= segs.insert(seg, segs[seg] + junk));
}

} // verus!
