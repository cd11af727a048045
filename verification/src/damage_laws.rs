//! What segments hold, whole or damaged, and what opening makes of them.

use vstd::prelude::*;

use crate::disk;
use crate::head;
use crate::laws;
use crate::log::SegmentedLog;
use crate::memory;
use crate::pos::Pos;
use crate::queue;
use crate::read;
use crate::reader;
use crate::record;
use crate::recovery;

verus! {

/// The frames of these payloads, one after the other.
pub open spec fn joined(payloads: Seq<Seq<u8>>) -> Seq<u8>
    decreases payloads.len(),
{
    if payloads.len() == 0 {
        Seq::empty()
    } else {
        joined(payloads.drop_last()) + record::frame(payloads.last())
    }
}

/// Frames written one after the other read back as their payloads, in order,
/// and nothing is left between or behind them. Whatever follows them, they
/// come first.
pub proof fn law_frames_read_back(payloads: Seq<Seq<u8>>, rest: Seq<u8>)
    requires
        forall|i: int| 0 <= i < payloads.len() ==> record::storable(#[trigger] payloads[i]),
    ensures
        record::records(joined(payloads)) =~= payloads,
        record::valid_len(joined(payloads)) == joined(payloads).len(),
        record::records(joined(payloads) + rest) =~= payloads + record::records(rest),
    decreases payloads.len(),
{
    if payloads.len() == 0 {
        record::lemma_records_empty();
    } else {
        let (front, last) = (payloads.drop_last(), payloads.last());
        assert forall|i: int| 0 <= i < front.len() implies record::storable(
            #[trigger] front[i],
        ) by {
            assert(record::storable(payloads[i]));
        }
        assert(record::storable(payloads[payloads.len() - 1]));
        law_frames_read_back(front, record::frame(last));
        record::lemma_records_of_frame(last);
        record::lemma_records_concat(joined(front), record::frame(last));
        assert(front + seq![last] =~= payloads);
    }
    record::lemma_records_concat(joined(payloads), rest);
}

/// A damaged record costs what follows it in its segment and no more: of a
/// segment with others behind it, the records before the damage are read, then
/// all that is read from the next segment on.
pub proof fn law_damage_costs_the_rest_of_its_segment(
    segs: Map<u64, Seq<u8>>,
    seg: u64,
    end: Pos,
    good: Seq<Seq<u8>>,
    bad: Seq<u8>,
)
    requires
        seg < end.seg,
        segs.contains_key(seg),
        segs[seg] == joined(good) + bad,
        forall|i: int| 0 <= i < good.len() ==> record::storable(#[trigger] good[i]),
        !(record::reading(bad) is Record),
    ensures
        read::payloads_of(queue::queue(segs, Pos { seg, off: 0 }, end)) =~= good
            + read::payloads_of(
            queue::queue(segs, Pos { seg: (seg + 1) as u64, off: 0 }, end),
        ),
{
    let pos = Pos { seg, off: 0 };
    let s = segs[seg];
    law_frames_read_back(good, bad);
    assert(queue::left(segs, pos, end) =~= s);
    assert(record::records(bad) =~= Seq::<Seq<u8>>::empty());
    assert(record::records(s) =~= good);
    let here = reader::keyed(pos, s, record::records(s).len());
    assert(read::payloads_of(here) =~= good);
    assert(queue::next_segment(pos) == (Pos { seg: (seg + 1) as u64, off: 0 }));
}

/// Opening cuts nothing but the torn end of the newest segment: that segment
/// keeps its records, and holds nothing else afterwards; the other segments
/// from the reader's on are as they were, and none of them is removed. The log
/// appends where the newest segment ends, nothing is unsynced, and the head
/// file names where reading resumes.
pub proof fn law_opening_cuts_the_torn_end_alone(
    d: disk::DiskView,
    last: u64,
    first: u64,
    segment_bytes: u64,
    fsync_interval: u128,
)
    requires
        d.wf(),
        d.segs.contains_key(first),
        d.segs.contains_key(last),
        forall|seg: u64| #[trigger] d.segs.contains_key(seg) ==> first <= seg <= last,
    ensures
        ({
            let log = recovery::opened_log(d, segment_bytes, fsync_interval);
            let d2 = recovery::opened_disk(d);
            &&& d2.segs.contains_key(last)
            &&& d2.segs[last] =~= d.segs[last].take(d2.segs[last].len() as int)
            &&& record::records(d2.segs[last]) =~= record::records(d.segs[last])
            &&& record::whole(d2.segs[last])
            &&& forall|seg: u64| #[trigger]
                d2.segs.contains_key(seg) <==> d.segs.contains_key(seg) && log.head.seg <= seg
            &&& forall|seg: u64| #[trigger]
                d2.segs.contains_key(seg) && seg != last ==> d2.segs[seg] == d.segs[seg]
            &&& memory::anchored(log, d2)
            &&& head::head_of(d2.head) == Some(log.head)
            &&& log.writer == (Pos { seg: last, off: d2.segs[last].len() as u64 })
            &&& !log.dirty
            &&& log.last_sync == d.now
            &&& log.segment_bytes == segment_bytes
            &&& log.fsync_interval == fsync_interval
        }),
{
    recovery::lemma_first(d.segs, first);
    recovery::lemma_last(d.segs, last);
    let file = d.segs[last];
    let n = record::records(file).len();
    record::lemma_after_records(file);
    let len = record::valid_len(file) as int;
    record::lemma_records_prefix(file, len);
    laws::lemma_prefix_span(file, len, n);
    assert(len <= u64::MAX);
    let head = recovery::head_in(d);
    assert(first <= head.seg <= last);
    let cut = file.take(len);
    assert(record::records(cut) =~= record::records(file));
    assert(record::span(cut, n) == len);
    laws::lemma_headed(
        disk::DiskView { segs: recovery::since(recovery::trimmed(d.segs), head.seg), ..d },
        head,
    );
}

/// A segment is unlinked as soon as the reader is past its records: after a
/// read, no segment before the reader's is left, and the reader does not stay
/// at the end of a segment that others follow.
pub proof fn law_consumed_segments_are_unlinked(log: SegmentedLog, d: disk::DiskView, limit: nat)
    requires
        laws::in_order(log, d),
        log.writer.seg < u64::MAX,
        log.head.before(log.committed),
        limit > 0,
    ensures
        ({
            let t = queue::taken(d.segs, log.head, log.committed, limit);
            let batch = memory::batch_of(log, d, t->0);
            let head = batch.log.head;
            &&& t is Some
            &&& head != log.head
            &&& forall|seg: u64| #[trigger] batch.disk.segs.contains_key(seg) ==> seg >= head.seg
            &&& head.seg < batch.log.committed.seg ==> head.off == 0 || head.off
                < batch.disk.segs[head.seg].len()
        }),
{
    let t = queue::taken(d.segs, log.head, log.committed, limit);
    laws::law_read_takes_first(log, d, limit);
    laws::lemma_taken_settles(d.segs, log.head, log.committed, limit);
    lemma_walk_moves(d.segs, log.head, log.committed, limit);
    let batch = memory::batch_of(log, d, t->0);
    assert(batch.disk.segs.contains_key(batch.log.head.seg));
}

/// A walk that can take something moves.
proof fn lemma_walk_moves(segs: Map<u64, Seq<u8>>, pos: Pos, end: Pos, limit: nat)
    requires
        queue::fits(segs),
        queue::reaches(segs, end),
        pos.before(end),
        limit > 0,
    ensures
        queue::taken(segs, pos, end, limit) matches Some(t) ==> pos.before(t.pos),
{
    if segs.contains_key(pos.seg) {
        let found = record::records(queue::left(segs, pos, end)).len();
        if found >= limit {
            queue::lemma_taken_goes_on(segs, pos, end, limit);
        } else if pos.seg < end.seg {
            queue::lemma_taken_goes_on(
                segs,
                queue::next_segment(pos),
                end,
                (limit - found) as nat,
            );
        }
    }
}

/// A missing segment is not passed over: a read that comes to one fails, so
/// that the records behind it are not delivered before its own could be.
pub proof fn law_read_fails_at_a_missing_segment(
    segs: Map<u64, Seq<u8>>,
    pos: Pos,
    end: Pos,
    limit: nat,
    gap: u64,
)
    requires
        pos.seg <= gap <= end.seg,
        !segs.contains_key(gap),
        forall|seg: u64| pos.seg <= seg < gap ==> #[trigger] segs.contains_key(seg),
        pos.before(end),
        gap > pos.seg ==> gap < end.seg || end.off > 0,
        limit > queue::queue(segs, pos, Pos { seg: gap, off: 0 }).len(),
    ensures
        queue::taken(segs, pos, end, limit) is None,
    decreases gap - pos.seg,
{
    if pos.seg < gap {
        let stop = Pos { seg: gap, off: 0 };
        let s = queue::left(segs, pos, end);
        assert(segs.contains_key(pos.seg));
        assert(queue::left(segs, pos, stop) =~= s);
        let found = record::records(s).len();
        let next = queue::next_segment(pos);
        law_read_fails_at_a_missing_segment(segs, next, end, (limit - found) as nat, gap);
    }
}

} // verus!
