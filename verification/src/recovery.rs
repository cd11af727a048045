//! What opening a log recovers from its directory.

use vstd::prelude::*;

use crate::disk;
use crate::disk::Disk;
use crate::head;
use crate::head::HEAD_LEN;
use crate::io;
use crate::io::{Event, Step};
use crate::log::SegmentedLog;
use crate::memory;
use crate::names;
use crate::open;
use crate::open::{Open, OpenPhase};
use crate::pos::Pos;
use crate::queue;
use crate::record;
use crate::scan;
use crate::scan::Scan;

verus! {

/// `seg` is the oldest segment; a directory without segments starts with
/// segment 0.
pub open spec fn is_first(segs: Map<u64, Seq<u8>>, seg: u64) -> bool {
    &&& forall|s: u64| #[trigger] segs.contains_key(s) ==> seg <= s
    &&& segs.contains_key(seg) || (seg == 0 && segs.dom() =~= Set::empty())
}

/// `seg` is the newest segment; a directory without segments starts with
/// segment 0.
pub open spec fn is_last(segs: Map<u64, Seq<u8>>, seg: u64) -> bool {
    &&& forall|s: u64| #[trigger] segs.contains_key(s) ==> s <= seg
    &&& segs.contains_key(seg) || (seg == 0 && segs.dom() =~= Set::empty())
}

/// The oldest segment.
pub open spec fn first_of(segs: Map<u64, Seq<u8>>) -> u64 {
    choose|seg: u64| is_first(segs, seg)
}

/// The newest segment.
pub open spec fn last_of(segs: Map<u64, Seq<u8>>) -> u64 {
    choose|seg: u64| is_last(segs, seg)
}

/// The bytes of segment `seg`, none if it is missing.
pub open spec fn file_of(segs: Map<u64, Seq<u8>>, seg: u64) -> Seq<u8> {
    if segs.contains_key(seg) {
        segs[seg]
    } else {
        Seq::empty()
    }
}

/// Just past the last complete record of the newest segment.
pub open spec fn tail_of(segs: Map<u64, Seq<u8>>) -> Pos {
    let seg = last_of(segs);
    Pos { seg, off: record::valid_len(file_of(segs, seg)) as u64 }
}

/// Where reading resumes.
pub open spec fn head_in(d: disk::DiskView) -> Pos {
    open::placed(head::head_of(d.head), first_of(d.segs), tail_of(d.segs))
}

/// The segments with the newest one cut to its complete records.
pub open spec fn trimmed(segs: Map<u64, Seq<u8>>) -> Map<u64, Seq<u8>> {
    let tail = tail_of(segs);
    segs.insert(tail.seg, file_of(segs, tail.seg).take(tail.off as int))
}

/// The segments from `seg` on.
pub open spec fn since(segs: Map<u64, Seq<u8>>, seg: u64) -> Map<u64, Seq<u8>> {
    Map::new(|s: u64| segs.contains_key(s) && seg <= s, |s: u64| segs[s])
}

/// `n`, or the largest number of 64 bits.
pub open spec fn capped(n: nat) -> u64 {
    if n <= u64::MAX {
        n as u64
    } else {
        u64::MAX
    }
}

/// The directory once its log was opened: the torn tail is cut off, the
/// segments before the head are unlinked and the head file names the head.
pub open spec fn opened_disk(d: disk::DiskView) -> disk::DiskView {
    memory::headed(
        disk::DiskView { segs: since(trimmed(d.segs), head_in(d).seg), ..d },
        head_in(d),
    )
}

/// The log that is opened.
pub open spec fn opened_log(
    d: disk::DiskView,
    segment_bytes: u64,
    fsync_interval: u128,
) -> SegmentedLog {
    let tail = tail_of(d.segs);
    SegmentedLog {
        segment_bytes,
        fsync_interval,
        writer: tail,
        dirty: false,
        last_sync: d.now,
        committed: tail,
        head: head_in(d),
        unread: capped(queue::queue(opened_disk(d).segs, head_in(d), tail).len()),
    }
}

/// There is one oldest segment.
pub proof fn lemma_first(segs: Map<u64, Seq<u8>>, seg: u64)
    requires
        is_first(segs, seg),
    ensures
        first_of(segs) == seg,
{
    assert(is_first(segs, first_of(segs)));
    if segs.contains_key(seg) {
        assert(segs.dom().contains(seg));
        assert(segs.contains_key(first_of(segs)));
    } else {
        assert(!segs.dom().contains(first_of(segs)));
    }
}

/// There is one newest segment.
pub proof fn lemma_last(segs: Map<u64, Seq<u8>>, seg: u64)
    requires
        is_last(segs, seg),
    ensures
        last_of(segs) == seg,
{
    assert(is_last(segs, last_of(segs)));
    if segs.contains_key(seg) {
        assert(segs.dom().contains(seg));
        assert(segs.contains_key(last_of(segs)));
    } else {
        assert(!segs.dom().contains(last_of(segs)));
    }
}

/// `ids` are the segments, each once, ascending; segment 0 if there is none.
spec fn enumerates(ids: Seq<u64>, segs: Map<u64, Seq<u8>>) -> bool {
    &&& ids.len() > 0
    &&& forall|i: int, j: int| 0 <= i < j < ids.len() ==> ids[i] < ids[j]
    &&& forall|s: u64| #[trigger] segs.contains_key(s) ==> ids.contains(s)
    &&& (forall|i: int| 0 <= i < ids.len() ==> segs.contains_key(#[trigger] ids[i])) || (ids
        == seq![0u64] && segs.dom() =~= Set::empty())
}

/// What is listed of a directory enumerates its segments.
proof fn lemma_enumerates(all: Seq<Seq<char>>, segs: Map<u64, Seq<u8>>)
    requires
        disk::lists(all, segs.dom()),
    ensures
        enumerates(open::at_least_one(names::listed(all)), segs),
{
    broadcast use vstd::seq_lib::group_to_multiset_ensures;

    let ids = names::segment_ids(all);
    let sorted = names::listed(all);
    names::lemma_listed(all);
    assert forall|i: int, j: int| 0 <= i < j < sorted.len() implies sorted[i] < sorted[j] by {
        if sorted[i] == sorted[j] {
            let x = sorted[i];
            ids.lemma_multiset_has_no_duplicates();
            assert(ids.to_multiset().count(x) <= 1) by {
                if ids.contains(x) {
                    assert(ids.to_multiset().contains(x));
                }
            }
            let rest = sorted.remove(i);
            assert(rest[j - 1] == x);
            vstd::seq_lib::to_multiset_remove(sorted, i);
            assert(rest.to_multiset().count(x) >= 1) by {
                assert(rest.contains(x));
            }
            assert(sorted.to_multiset().count(x) >= 2);
        }
    }
    assert forall|s: u64| sorted.contains(s) == ids.contains(s) by {
        assert(sorted.contains(s) == (sorted.to_multiset().count(s) > 0));
        assert(ids.contains(s) == (ids.to_multiset().count(s) > 0));
    }
    assert forall|s: u64| ids.contains(s) == segs.contains_key(s) by {
        assert(ids.contains(s) == ids.to_set().contains(s));
        assert(segs.dom().contains(s) == ids.to_set().contains(s));
    }
    if sorted.len() == 0 {
        assert forall|s: u64| !segs.contains_key(s) by {
            if segs.contains_key(s) {
                assert(ids.contains(s));
                assert(sorted.contains(s));
            }
        }
        assert(segs.dom() =~= Set::empty());
    } else {
        assert forall|i: int| 0 <= i < sorted.len() implies segs.contains_key(
            #[trigger] sorted[i],
        ) by {
            assert(sorted.contains(sorted[i]));
        }
    }
}

/// The first and the last of an enumeration are the oldest and the newest.
proof fn lemma_enumeration_ends(ids: Seq<u64>, segs: Map<u64, Seq<u8>>)
    requires
        enumerates(ids, segs),
    ensures
        first_of(segs) == ids[0],
        last_of(segs) == ids.last(),
        is_first(segs, ids[0]),
        is_last(segs, ids.last()),
{
    assert(is_first(segs, ids[0])) by {
        assert forall|s: u64| #[trigger] segs.contains_key(s) implies ids[0] <= s by {
            let i = ids.index_of(s);
            assert(ids[i] == s);
        }
    }
    assert(is_last(segs, ids.last())) by {
        assert forall|s: u64| #[trigger] segs.contains_key(s) implies s <= ids.last() by {
            let i = ids.index_of(s);
            assert(ids[i] == s);
        }
    }
    lemma_first(segs, ids[0]);
    lemma_last(segs, ids.last());
}

/// The directory once its last segment was opened.
spec fn with_tail(d: disk::DiskView) -> disk::DiskView {
    let seg = last_of(d.segs);
    d.with(seg, file_of(d.segs, seg))
}

/// Where counting starts in the segment at `at`.
spec fn counting_from(ids: Seq<u64>, at: int, head: Pos, tail: Pos) -> Pos {
    if at >= ids.len() {
        tail
    } else if ids[at] == head.seg {
        head
    } else {
        Pos { seg: ids[at], off: 0 }
    }
}

/// The part of a segment file of `len` bytes that is counted from `pos` on.
spec fn to_count(pos: Pos, tail: Pos, len: u64) -> Scan {
    Scan::start(
        pos.off,
        if pos.seg == tail.seg {
            tail.off
        } else {
            len
        },
    )
}

/// The records in the segments that were counted.
spec fn counted(op: open::OpenView, segs: Map<u64, Seq<u8>>) -> int {
    queue::queue(segs, op.head, op.tail).len() - queue::queue(
        segs,
        counting_from(op.segs, op.at, op.head, op.tail),
        op.tail,
    ).len()
}

/// How opening stands after it was given the answers of a directory.
spec fn opening(
    op: open::OpenView,
    d: disk::DiskView,
    e: io::EventView,
    d0: disk::DiskView,
) -> bool {
    let last = last_of(d0.segs);
    let file = file_of(d0.segs, last);
    let cut = disk::DiskView { segs: trimmed(d0.segs), ..d0 };
    let kept = disk::DiskView { segs: since(cut.segs, head_in(d0).seg), ..d0 };
    let listed = enumerates(op.segs, d0.segs);
    let fresh = op.unread == 0;
    let found = {
        &&& listed
        &&& op.persisted == head::head_of(d0.head)
        &&& op.tail.seg == last
    };
    let placed = found && op.tail == tail_of(d0.segs) && op.head == head_in(d0);
    let performed = e == io::EventView::Performed;
    &&& op.wf()
    &&& match op.phase {
        OpenPhase::Start => fresh && d == d0 && e == io::EventView::Start,
        OpenPhase::List => fresh && d == d0 && e is Names && disk::lists(
            e->Names_0,
            d0.segs.dom(),
        ),
        OpenPhase::Head => fresh && listed && d == d0 && disk::answers(
            d0,
            io::ActionView::ReadHead,
            e,
            d0,
        ),
        OpenPhase::Tail => fresh && found && d == with_tail(d0) && e == io::EventView::Length(
            file.len() as u64,
        ),
        OpenPhase::TailScan => {
            &&& fresh && found && d == with_tail(d0)
            &&& op.scan.to == file.len()
            &&& scan::heading_for(
                op.scan,
                file,
                record::valid_len(file) as int,
                record::records(file).len() as int,
            )
            &&& !op.scan.finished()
            &&& disk::answers(
                d,
                io::ActionView::Read {
                    seg: last,
                    off: op.scan.off,
                    len: op.scan.request() as u64,
                },
                e,
                d,
            )
        },
        OpenPhase::Truncate => fresh && found && op.tail == tail_of(d0.segs) && d == cut
            && performed,
        OpenPhase::Unlink => fresh && placed && 0 <= op.at < op.segs.len() && op.segs[op.at]
            < op.head.seg && d == (disk::DiskView {
            segs: since(cut.segs, (op.segs[op.at] + 1) as u64),
            ..d0
        }),
        OpenPhase::Measure => {
            &&& placed && d == kept && 0 <= op.at < op.segs.len()
            &&& op.segs[op.at] >= op.head.seg
            &&& counted(op, kept.segs) >= 0
            &&& op.unread == capped(counted(op, kept.segs) as nat)
            &&& e == io::EventView::Length(kept.segs[op.segs[op.at]].len() as u64)
        },
        OpenPhase::Count => {
            let pos = counting_from(op.segs, op.at, op.head, op.tail);
            let seg = op.segs[op.at];
            let rest = scan::ahead(
                to_count(pos, op.tail, kept.segs[seg].len() as u64),
                kept.segs[seg],
            );
            &&& placed && d == kept && 0 <= op.at < op.segs.len()
            &&& op.segs[op.at] >= op.head.seg
            &&& counted(op, kept.segs) >= 0
            &&& op.unread == capped(counted(op, kept.segs) as nat)
            &&& scan::heading_for(
                op.scan,
                kept.segs[seg],
                pos.off + record::valid_len(rest),
                record::records(rest).len() as int,
            )
            &&& !op.scan.finished()
            &&& disk::answers(
                d,
                io::ActionView::Read { seg, off: op.scan.off, len: op.scan.request() as u64 },
                e,
                d,
            )
        },
        OpenPhase::Clock => {
            &&& placed && d == kept && e == io::EventView::Time(d0.now)
            &&& op.unread == capped(queue::queue(kept.segs, op.head, op.tail).len())
        },
        OpenPhase::Persist => {
            &&& placed && op.now == d0.now && d == opened_disk(d0) && performed
            &&& op.unread == capped(queue::queue(kept.segs, op.head, op.tail).len())
        },
        OpenPhase::Over => false,
    }
}

/// How far opening is from its end.
spec fn open_left(op: open::OpenView) -> (int, int, int, int, int) {
    let (far, grow) = scan::distance(op.scan);
    let left = op.segs.len() - op.at;
    match op.phase {
        OpenPhase::Start => (9, 0, 0, 0, 0),
        OpenPhase::List => (8, 0, 0, 0, 0),
        OpenPhase::Head => (7, 0, 0, 0, 0),
        OpenPhase::Tail => (6, 0, 0, 0, 0),
        OpenPhase::TailScan => (5, 0, 0, far, grow),
        OpenPhase::Truncate => (4, 0, 0, 0, 0),
        OpenPhase::Unlink => (3, left, 0, 0, 0),
        OpenPhase::Measure => (2, left, 1, 0, 0),
        OpenPhase::Count => (2, left, 0, far, grow),
        OpenPhase::Clock => (1, 0, 0, 0, 0),
        OpenPhase::Persist => (0, 0, 0, 0, 0),
        OpenPhase::Over => (0, 0, 0, 0, 0),
    }
}

/// `b` is nearer to the end than `a`.
spec fn open_nearer(a: (int, int, int, int, int), b: (int, int, int, int, int)) -> bool {
    ||| 0 <= b.0 < a.0
    ||| b.0 == a.0 && 0 <= b.1 < a.1
    ||| b.0 == a.0 && b.1 == a.1 && 0 <= b.2 < a.2
    ||| b.0 == a.0 && b.1 == a.1 && b.2 == a.2 && 0 <= b.3 < a.3
    ||| b.0 == a.0 && b.1 == a.1 && b.2 == a.2 && b.3 == a.3 && 0 <= b.4 < a.4
}

/// Every answer to `step` leads on.
spec fn leads_on(
    op2: open::OpenView,
    step: io::StepView<SegmentedLog>,
    d: disk::DiskView,
    d0: disk::DiskView,
) -> bool {
    &&& step is Do
    &&& forall|e2: io::EventView, d2: disk::DiskView| #[trigger]
        disk::answers(d, step->Do_0, e2, d2) ==> opening(op2, d2, e2, d0)
}

/// Everything that is known once the head was placed.
spec fn is_placed(op: open::OpenView, d0: disk::DiskView) -> bool {
    &&& d0.wf()
    &&& enumerates(op.segs, d0.segs)
    &&& op.scan.wf()
    &&& op.persisted == head::head_of(d0.head)
    &&& op.tail == tail_of(d0.segs)
    &&& op.head == head_in(d0)
}

/// The records of a file fit in it, so that a trimmed directory is as long as
/// its tail.
proof fn lemma_trimmed(d0: disk::DiskView)
    requires
        d0.wf(),
        is_last(d0.segs, last_of(d0.segs)),
    ensures
        ({
            let tail = tail_of(d0.segs);
            let file = file_of(d0.segs, tail.seg);
            &&& record::valid_len(file) <= file.len() <= u64::MAX
            &&& tail.off == record::valid_len(file)
            &&& trimmed(d0.segs).contains_key(tail.seg)
            &&& trimmed(d0.segs)[tail.seg].len() == tail.off
            &&& (disk::DiskView { segs: trimmed(d0.segs), ..d0 }).wf()
        }),
{
    let tail = tail_of(d0.segs);
    record::lemma_after_records(file_of(d0.segs, tail.seg));
}

proof fn lemma_open_measures(op: open::OpenView, d0: disk::DiskView)
    requires
        is_placed(op, d0),
        0 <= op.at <= op.segs.len(),
        op.at < op.segs.len() ==> op.segs[op.at] >= op.head.seg,
        ({
            let kept = since(trimmed(d0.segs), op.head.seg);
            let total = queue::queue(kept, op.head, op.tail).len();
            &&& 0 <= counted(op, kept) <= total
            &&& op.unread == capped(counted(op, kept) as nat)
        }),
    ensures
        ({
            let kept = disk::DiskView { segs: since(trimmed(d0.segs), op.head.seg), ..d0 };
            let (op2, step) = op.measure();
            &&& leads_on(op2, step, kept, d0)
            &&& if op.at < op.segs.len() {
                open_left(op2) == (2int, op.segs.len() - op.at, 1int, 0int, 0int)
            } else {
                open_left(op2).0 == 1
            }
        }),
{
    let kept = disk::DiskView { segs: since(trimmed(d0.segs), op.head.seg), ..d0 };
    let (op2, step) = op.measure();
    lemma_enumeration_ends(op.segs, d0.segs);
    lemma_trimmed(d0);
    if op.at < op.segs.len() {
        let seg = op.segs[op.at];
        assert(kept.segs.contains_key(seg)) by {
            if !d0.segs.contains_key(seg) {
                assert(op.segs == seq![0u64]);
                assert(seg == 0);
                assert(op.tail.seg == op.segs.last());
            }
        }
    } else {
        assert(queue::queue(kept.segs, op.tail, op.tail).len() == 0);
    }
    assert forall|e2: io::EventView, d2: disk::DiskView| #[trigger]
        disk::answers(kept, step->Do_0, e2, d2) implies opening(op2, d2, e2, d0) by {}
}

proof fn lemma_open_unlinks(op: open::OpenView, d: disk::DiskView, d0: disk::DiskView)
    requires
        is_placed(op, d0),
        op.unread == 0,
        0 <= op.at <= op.segs.len(),
        op.at > 0 ==> op.segs[op.at - 1] < op.head.seg,
        d == (disk::DiskView {
            segs: if op.at == 0 {
                trimmed(d0.segs)
            } else {
                since(trimmed(d0.segs), (op.segs[op.at - 1] + 1) as u64)
            },
            ..d0
        }),
    ensures
        ({
            let (op2, step) = op.unlink();
            &&& leads_on(op2, step, d, d0)
            &&& 0 <= open_left(op2).0 < 3 || (open_left(op2).0 == 3 && open_left(op2).1
                == op.segs.len() - op.at && op.at < op.segs.len())
        }),
{
    let (op2, step) = op.unlink();
    let all = trimmed(d0.segs);
    lemma_enumeration_ends(op.segs, d0.segs);
    lemma_trimmed(d0);
    assert(op.segs.contains(op.tail.seg));
    assert forall|s: u64| #[trigger] all.contains_key(s) implies op.segs.contains(s) by {
        if s != op.tail.seg {
            assert(d0.segs.contains_key(s));
        }
    }
    if op.at < op.segs.len() && op.segs[op.at] < op.head.seg {
        let seg = op.segs[op.at];
        let rest = since(all, (seg + 1) as u64);
        assert forall|s: u64| #[trigger] all.contains_key(s) && seg < s implies s >= seg + 1 by {}
        assert forall|s: u64| #[trigger]
            all.contains_key(s) && (op.at == 0 || s > op.segs[op.at - 1]) && s
                != seg implies s > seg by {
            let i = op.segs.index_of(s);
            assert(op.segs[i] == s);
            if i < op.at {
                if i < op.at - 1 {
                    assert(op.segs[i] < op.segs[op.at - 1]);
                }
            } else if i > op.at {
                assert(seg < op.segs[i]);
            }
        }
        assert(d.segs.remove(seg) =~= rest);
        if !d.segs.contains_key(seg) {
            assert(d.segs =~= rest);
        }
        assert forall|e2: io::EventView, d2: disk::DiskView| #[trigger]
            disk::answers(d, step->Do_0, e2, d2) implies opening(op2, d2, e2, d0) by {
            assert(d2 =~= disk::DiskView { segs: rest, ..d0 });
        }
    } else {
        let kept = since(all, op.head.seg);
        assert(!op.tail.before(op.head));
        assert forall|s: u64| #[trigger] d.segs.contains_key(s) implies s >= op.head.seg by {
            let i = op.segs.index_of(s);
            assert(op.segs[i] == s);
            if i < op.at {
                if i < op.at - 1 {
                    assert(op.segs[i] < op.segs[op.at - 1]);
                }
            } else if i > op.at {
                assert(op.segs[op.at] < op.segs[i]);
            }
        }
        assert(d.segs =~= kept);
        if op.at < op.segs.len() {
            let seg = op.segs[op.at];
            if seg > op.head.seg {
                assert forall|s: u64| op.head.seg <= s < seg implies !(
                #[trigger] kept.contains_key(s)) by {
                    if kept.contains_key(s) {
                        let i = op.segs.index_of(s);
                        assert(op.segs[i] == s);
                        if i > op.at {
                            assert(op.segs[op.at] < op.segs[i]);
                        } else if i < op.at - 1 {
                            assert(op.segs[i] < op.segs[op.at - 1]);
                        }
                    }
                }
                assert(seg <= op.tail.seg) by {
                    if op.at < op.segs.len() - 1 {
                        assert(op.segs[op.at] < op.segs.last());
                    }
                }
                queue::lemma_queue_skips(kept, op.head, seg, op.tail);
            }
        } else {
            assert(op.segs[op.at - 1] == op.tail.seg);
            assert(false);
        }
        lemma_open_measures(op, d0);
    }
}

proof fn lemma_open_places(op: open::OpenView, d0: disk::DiskView)
    requires
        d0.wf(),
        enumerates(op.segs, d0.segs),
        op.scan.wf(),
        op.unread == 0,
        op.persisted == head::head_of(d0.head),
        op.tail == tail_of(d0.segs),
    ensures
        ({
            let (op2, step) = op.place();
            &&& leads_on(op2, step, disk::DiskView { segs: trimmed(d0.segs), ..d0 }, d0)
            &&& 0 <= open_left(op2).0 <= 3
        }),
{
    lemma_enumeration_ends(op.segs, d0.segs);
    let ready = open::OpenView {
        head: open::placed(op.persisted, op.segs[0], op.tail),
        at: 0,
        ..op
    };
    lemma_open_unlinks(ready, disk::DiskView { segs: trimmed(d0.segs), ..d0 }, d0);
}

proof fn lemma_open_scans_tail(op: open::OpenView, d0: disk::DiskView)
    requires
        d0.wf(),
        enumerates(op.segs, d0.segs),
        op.unread == 0,
        op.persisted == head::head_of(d0.head),
        op.tail.seg == last_of(d0.segs),
        ({
            let file = file_of(d0.segs, op.tail.seg);
            &&& op.scan.to == file.len()
            &&& scan::heading_for(
                op.scan,
                file,
                record::valid_len(file) as int,
                record::records(file).len() as int,
            )
        }),
    ensures
        ({
            let (op2, step) = op.scan_tail();
            &&& leads_on(op2, step, with_tail(d0), d0)
            &&& if op.scan.finished() {
                0 <= open_left(op2).0 <= 4
            } else {
                open_left(op2) == (5int, 0int, 0int, scan::distance(op.scan).0, scan::distance(
                    op.scan,
                ).1)
            }
        }),
{
    let (op2, step) = op.scan_tail();
    let d = with_tail(d0);
    let file = file_of(d0.segs, op.tail.seg);
    lemma_enumeration_ends(op.segs, d0.segs);
    lemma_trimmed(d0);
    if op.scan.finished() {
        scan::lemma_scan_ends(
            op.scan,
            file,
            record::valid_len(file) as int,
            record::records(file).len() as int,
        );
        if op.scan.off < op.scan.to {
            assert forall|e2: io::EventView, d2: disk::DiskView| #[trigger]
                disk::answers(d, step->Do_0, e2, d2) implies opening(op2, d2, e2, d0) by {
                assert(d2.segs =~= trimmed(d0.segs));
            }
        } else {
            assert(file.take(file.len() as int) =~= file);
            assert(d =~= disk::DiskView { segs: trimmed(d0.segs), ..d0 });
            let ready = open::OpenView {
                tail: Pos { seg: op.tail.seg, off: op.scan.off },
                ..op
            };
            lemma_open_places(ready, d0);
        }
    } else {
        scan::lemma_scan_steps(
            op.scan,
            file,
            record::valid_len(file) as int,
            record::records(file).len() as int,
        );
        assert forall|e2: io::EventView, d2: disk::DiskView| #[trigger]
            disk::answers(d, step->Do_0, e2, d2) implies opening(op2, d2, e2, d0) by {}
    }
}

/// What is counted of a segment is what the queue holds of it.
proof fn lemma_open_counts(op: open::OpenView, d0: disk::DiskView)
    requires
        is_placed(op, d0),
        0 <= op.at < op.segs.len(),
        op.segs[op.at] >= op.head.seg,
        ({
            let kept = since(trimmed(d0.segs), op.head.seg);
            let pos = counting_from(op.segs, op.at, op.head, op.tail);
            let seg = op.segs[op.at];
            let rest = scan::ahead(to_count(pos, op.tail, kept[seg].len() as u64), kept[seg]);
            &&& counted(op, kept) >= 0
            &&& op.unread == capped(counted(op, kept) as nat)
            &&& scan::heading_for(
                op.scan,
                kept[seg],
                pos.off + record::valid_len(rest),
                record::records(rest).len() as int,
            )
        }),
    ensures
        ({
            let kept = disk::DiskView { segs: since(trimmed(d0.segs), op.head.seg), ..d0 };
            let (op2, step) = op.count();
            &&& leads_on(op2, step, kept, d0)
            &&& if op.scan.finished() {
                ||| 0 <= open_left(op2).0 < 2
                ||| open_left(op2).0 == 2 && 0 <= open_left(op2).1 < op.segs.len() - op.at
            } else {
                open_left(op2) == (2int, op.segs.len() - op.at, 0int, scan::distance(
                    op.scan,
                ).0, scan::distance(op.scan).1)
            }
        }),
{
    let kept = disk::DiskView { segs: since(trimmed(d0.segs), op.head.seg), ..d0 };
    let pos = counting_from(op.segs, op.at, op.head, op.tail);
    let seg = op.segs[op.at];
    let file = kept.segs[seg];
    let rest = scan::ahead(to_count(pos, op.tail, file.len() as u64), file);
    let (op2, step) = op.count();
    lemma_enumeration_ends(op.segs, d0.segs);
    lemma_trimmed(d0);
    assert(seg <= op.tail.seg) by {
        if op.at < op.segs.len() - 1 {
            assert(op.segs[op.at] < op.segs.last());
        }
    }
    assert(kept.segs.contains_key(seg)) by {
        if !d0.segs.contains_key(seg) {
            assert(op.segs == seq![0u64]);
        }
    }
    if op.scan.finished() {
        scan::lemma_scan_ends(
            op.scan,
            file,
            pos.off + record::valid_len(rest),
            record::records(rest).len() as int,
        );
        let next = open::OpenView {
            at: op.at + 1,
            unread: if op.unread + op.scan.count <= u64::MAX {
                (op.unread + op.scan.count) as u64
            } else {
                u64::MAX
            },
            ..op
        };
        let after = counting_from(op.segs, next.at, op.head, op.tail);
        assert(rest =~= queue::left(kept.segs, pos, op.tail));
        assert(queue::queue(kept.segs, pos, op.tail).len() == record::records(rest).len()
            + queue::queue(kept.segs, after, op.tail).len()) by {
            if !pos.before(op.tail) {
                assert(rest =~= Seq::<u8>::empty());
                record::lemma_records_empty();
                assert(op.at == op.segs.len() - 1) by {
                    if op.at < op.segs.len() - 1 {
                        assert(op.segs[op.at] < op.segs.last());
                    }
                }
            } else if seg < op.tail.seg {
                assert(op.at < op.segs.len() - 1);
                assert(op.segs[op.at] < op.segs[op.at + 1]);
                assert(op.segs[op.at + 1] <= op.tail.seg) by {
                    if op.at + 1 < op.segs.len() - 1 {
                        assert(op.segs[op.at + 1] < op.segs.last());
                    }
                }
                assert(after == Pos { seg: op.segs[op.at + 1], off: 0 });
                let follow = queue::next_segment(pos);
                if follow.seg < after.seg {
                    assert forall|s: u64| follow.seg <= s < after.seg implies !(
                    #[trigger] kept.segs.contains_key(s)) by {
                        if kept.segs.contains_key(s) {
                            if s != op.tail.seg {
                                assert(d0.segs.contains_key(s));
                            }
                            assert(op.segs.contains(s)) by {
                                if s == op.tail.seg {
                                    assert(op.segs.last() == s);
                                }
                            }
                            let i = op.segs.index_of(s);
                            assert(op.segs[i] == s);
                            if i <= op.at {
                                if i < op.at {
                                    assert(op.segs[i] < op.segs[op.at]);
                                }
                            } else if i > op.at + 1 {
                                assert(op.segs[op.at + 1] < op.segs[i]);
                            }
                        }
                    }
                    queue::lemma_queue_skips(kept.segs, follow, after.seg, op.tail);
                }
            } else {
                assert(op.at == op.segs.len() - 1) by {
                    if op.at < op.segs.len() - 1 {
                        assert(op.segs[op.at] < op.segs.last());
                    }
                }
                assert(queue::queue(kept.segs, op.tail, op.tail).len() == 0);
            }
        }
        if next.at < op.segs.len() {
            assert(op.segs[op.at] < op.segs[next.at]);
        }
        lemma_open_measures(next, d0);
    } else {
        scan::lemma_scan_steps(
            op.scan,
            file,
            pos.off + record::valid_len(rest),
            record::records(rest).len() as int,
        );
        assert forall|e2: io::EventView, d2: disk::DiskView| #[trigger]
            disk::answers(kept, step->Do_0, e2, d2) implies opening(op2, d2, e2, d0) by {}
    }
}

/// The bytes of the head file that are read name what the whole file names.
proof fn lemma_head_read(d0: disk::DiskView)
    ensures
        d0.head.len() >= HEAD_LEN ==> head::head_of(d0.head.take(HEAD_LEN as int))
            == head::head_of(d0.head),
{
    if d0.head.len() >= HEAD_LEN {
        let buf = d0.head.take(HEAD_LEN as int);
        assert(buf.subrange(0, 16) =~= d0.head.subrange(0, 16));
        assert(buf.subrange(16, 20) =~= d0.head.subrange(16, 20));
        assert(buf.subrange(0, 8) =~= d0.head.subrange(0, 8));
        assert(buf.subrange(8, 16) =~= d0.head.subrange(8, 16));
    }
}

/// A step of opening whose last action was answered leads to the next action,
/// or to the log.
proof fn lemma_open_steps(
    op: open::OpenView,
    d: disk::DiskView,
    e: io::EventView,
    d0: disk::DiskView,
)
    requires
        d0.wf(),
        opening(op, d, e, d0),
    ensures
        ({
            let (op2, step) = op.step(e);
            match step {
                io::StepView::Do(a) => {
                    &&& leads_on(op2, step, d, d0)
                    &&& open_nearer(open_left(op), open_left(op2))
                },
                io::StepView::Done(log) => {
                    &&& log == opened_log(d0, op.segment_bytes, op.fsync_interval)
                    &&& d == opened_disk(d0)
                },
                io::StepView::Failed => false,
            }
        }),
{
    let (op2, step) = op.step(e);
    match op.phase {
        OpenPhase::List => {
            lemma_enumerates(e->Names_0, d0.segs);
        },
        OpenPhase::Head => {
            lemma_head_read(d0);
            lemma_enumeration_ends(op.segs, d0.segs);
            assert forall|e2: io::EventView, d2: disk::DiskView| #[trigger]
                disk::answers(d, step->Do_0, e2, d2) implies opening(op2, d2, e2, d0) by {
                assert(d2 =~= with_tail(d0));
            }
        },
        OpenPhase::Tail => {
            let file = file_of(d0.segs, op.tail.seg);
            lemma_enumeration_ends(op.segs, d0.segs);
            lemma_trimmed(d0);
            scan::lemma_scan_starts(file, 0, file.len() as u64);
            assert(file.subrange(0, file.len() as int) =~= file);
            if file.len() == 0 {
                assert(file =~= Seq::<u8>::empty());
            }
            let ready = open::OpenView { scan: Scan::start(0, file.len() as u64), ..op };
            lemma_open_scans_tail(ready, d0);
        },
        OpenPhase::TailScan => {
            let file = file_of(d0.segs, op.tail.seg);
            scan::lemma_scan_steps(
                op.scan,
                file,
                record::valid_len(file) as int,
                record::records(file).len() as int,
            );
            let fed = open::OpenView { scan: op.scan.after(e->Bytes_0), ..op };
            lemma_open_scans_tail(fed, d0);
        },
        OpenPhase::Truncate => {
            lemma_open_places(op, d0);
        },
        OpenPhase::Unlink => {
            let next = open::OpenView { at: op.at + 1, ..op };
            lemma_open_unlinks(next, d, d0);
        },
        OpenPhase::Measure => {
            let kept = since(trimmed(d0.segs), op.head.seg);
            let pos = counting_from(op.segs, op.at, op.head, op.tail);
            let seg = op.segs[op.at];
            let want = to_count(pos, op.tail, kept[seg].len() as u64);
            lemma_enumeration_ends(op.segs, d0.segs);
            lemma_trimmed(d0);
            scan::lemma_scan_starts(kept[seg], want.off, want.to);
            let ready = open::OpenView { scan: want, ..op };
            lemma_open_counts(ready, d0);
        },
        OpenPhase::Count => {
            let kept = since(trimmed(d0.segs), op.head.seg);
            let pos = counting_from(op.segs, op.at, op.head, op.tail);
            let seg = op.segs[op.at];
            let rest = scan::ahead(
                to_count(pos, op.tail, kept[seg].len() as u64),
                kept[seg],
            );
            lemma_enumeration_ends(op.segs, d0.segs);
            lemma_trimmed(d0);
            scan::lemma_scan_steps(
                op.scan,
                kept[seg],
                pos.off + record::valid_len(rest),
                record::records(rest).len() as int,
            );
            let fed = open::OpenView { scan: op.scan.after(e->Bytes_0), ..op };
            lemma_open_counts(fed, d0);
        },
        _ => {},
    }
}

impl SegmentedLog {
    /// Opens or creates the log in `disk`. `segment_bytes` is the size at
    /// which the writer rolls to a new segment; segments may overshoot it by
    /// one record.
    pub fn open(disk: &mut Disk, segment_bytes: u64, fsync_interval: u128) -> (log: Option<
        SegmentedLog,
    >)
        requires
            old(disk).wf(),
        ensures
            final(disk).wf(),
            log == Some(opened_log(old(disk)@, segment_bytes, fsync_interval)),
            final(disk)@ == opened_disk(old(disk)@),
    {
        let mut op: Open = Open::new(segment_bytes, fsync_interval);
        let mut event: Event = Event::Start;
        let ghost d0 = disk@;
        proof {
            disk.lemma_views();
        }
        loop
            invariant
                disk.wf(),
                d0 == old(disk)@,
                d0.wf(),
                op.segment_bytes == segment_bytes,
                op.fsync_interval == fsync_interval,
                opening(op@, disk@, event@, d0),
            decreases
                    open_left(op@).0,
                    open_left(op@).1,
                    open_left(op@).2,
                    open_left(op@).3,
                    open_left(op@).4,
        {
            proof {
                lemma_open_steps(op@, disk@, event@, d0);
            }
            match op.step(event) {
                Step::Do(action) => {
                    event = disk.perform(&action);
                },
                Step::Done(log) => {
                    return Some(log);
                },
                Step::Failed => {
                    return None;
                },
            }
        }
    }
}

} // verus!
