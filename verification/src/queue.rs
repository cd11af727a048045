//! The records that lie between two positions of a log, and how a walk over
//! them takes the first ones.

use vstd::prelude::*;

use crate::disk;
use crate::io;
use crate::pos::Pos;
use crate::reader;
use crate::record;
use crate::record::{MAX_RECORD, RECORD_HEADER};

verus! {

/// Where the segment of `pos` is read to.
pub open spec fn seg_end(segs: Map<u64, Seq<u8>>, pos: Pos, end: Pos) -> int {
    if pos.seg < end.seg {
        segs[pos.seg].len() as int
    } else {
        end.off as int
    }
}

/// The bytes of the segment of `pos` that are still to be read.
pub open spec fn left(segs: Map<u64, Seq<u8>>, pos: Pos, end: Pos) -> Seq<u8> {
    if pos.off <= seg_end(segs, pos, end) {
        segs[pos.seg].subrange(pos.off as int, seg_end(segs, pos, end))
    } else {
        Seq::empty()
    }
}

/// The start of the segment after that of `pos`.
pub open spec fn next_segment(pos: Pos) -> Pos {
    Pos { seg: (pos.seg + 1) as u64, off: 0 }
}

/// The records from `pos` up to `end`, in order, with their keys. In each
/// segment they end at the first record that is torn or corrupt; a segment
/// that is missing holds none.
pub open spec fn queue(segs: Map<u64, Seq<u8>>, pos: Pos, end: Pos) -> Seq<(Seq<u8>, Seq<u8>)>
    decreases end.seg - pos.seg,
{
    if !pos.before(end) {
        Seq::empty()
    } else {
        let s = left(segs, pos, end);
        let here = if segs.contains_key(pos.seg) {
            reader::keyed(pos, s, record::records(s).len())
        } else {
            Seq::empty()
        };
        if pos.seg < end.seg {
            here + queue(segs, next_segment(pos), end)
        } else {
            here
        }
    }
}

/// Records that were taken, and the position to resume from.
pub struct Taken {
    pub out: Seq<(Seq<u8>, Seq<u8>)>,
    pub pos: Pos,
}

/// Puts `out` before what was taken.
pub open spec fn prepend(out: Seq<(Seq<u8>, Seq<u8>)>, taken: Option<Taken>) -> Option<Taken> {
    match taken {
        Some(t) => Some(Taken { out: out + t.out, pos: t.pos }),
        None => None,
    }
}

/// What a walk from `pos` up to `end` takes, at most `limit` records: none if
/// it comes to a segment that is missing. A segment that is used up is left
/// for the next one.
pub open spec fn taken(segs: Map<u64, Seq<u8>>, pos: Pos, end: Pos, limit: nat) -> Option<Taken>
    decreases end.seg - pos.seg,
{
    if limit == 0 || !pos.before(end) {
        Some(Taken { out: Seq::empty(), pos })
    } else if !segs.contains_key(pos.seg) {
        None
    } else {
        let s = left(segs, pos, end);
        let found = record::records(s).len();
        if found >= limit {
            let off = pos.off + record::span(s, limit);
            Some(
                Taken {
                    out: reader::keyed(pos, s, limit),
                    pos: if off >= seg_end(segs, pos, end) && pos.seg < end.seg {
                        next_segment(pos)
                    } else {
                        Pos { seg: pos.seg, off: off as u64 }
                    },
                },
            )
        } else if pos.seg < end.seg {
            prepend(
                reader::keyed(pos, s, found),
                taken(segs, next_segment(pos), end, (limit - found) as nat),
            )
        } else {
            Some(Taken { out: reader::keyed(pos, s, found), pos: end })
        }
    }
}

/// A walk does not go back, and it moves if it takes something.
pub proof fn lemma_taken_goes_on(segs: Map<u64, Seq<u8>>, pos: Pos, end: Pos, limit: nat)
    requires
        fits(segs),
        reaches(segs, end),
    ensures
        taken(segs, pos, end, limit) matches Some(t) ==> !t.pos.before(pos) && (t.out.len() > 0
            ==> pos.before(t.pos)),
    decreases end.seg - pos.seg,
{
    if limit > 0 && pos.before(end) && segs.contains_key(pos.seg) {
        let s = left(segs, pos, end);
        let found = record::records(s).len();
        if found >= limit {
            lemma_span_fits(s, limit);
            record::lemma_reading_bounds(s);
            assert(record::span(s, limit) > 0);
        } else if pos.seg < end.seg {
            lemma_taken_goes_on(segs, next_segment(pos), end, (limit - found) as nat);
        }
    }
}

/// Every segment from that of `pos` to that of `end` exists.
pub open spec fn connected(segs: Map<u64, Seq<u8>>, pos: Pos, end: Pos) -> bool {
    forall|seg: u64| pos.seg <= seg <= end.seg ==> #[trigger] segs.contains_key(seg)
}

/// The bytes before `end` exist.
pub open spec fn reaches(segs: Map<u64, Seq<u8>>, end: Pos) -> bool {
    segs.contains_key(end.seg) ==> end.off <= segs[end.seg].len()
}

/// The records of a buffer fit in it.
pub proof fn lemma_span_fits(s: Seq<u8>, k: nat)
    requires
        k <= record::records(s).len(),
    ensures
        record::span(s, k) <= s.len(),
{
    record::lemma_records_split(s, k);
}

/// Keys of later records of a buffer, seen from its start and from a later
/// record.
proof fn lemma_keyed_split(pos: Pos, s: Seq<u8>, j: nat, k: nat)
    requires
        j + k <= record::records(s).len(),
        pos.off + s.len() <= u64::MAX,
    ensures
        ({
            let used = record::span(s, j);
            reader::keyed(pos, s, j + k) =~= reader::keyed(pos, s, j) + reader::keyed(
                Pos { seg: pos.seg, off: (pos.off + used) as u64 },
                s.skip(used as int),
                k,
            )
        }),
{
    let used = record::span(s, j);
    record::lemma_records_split(s, j);
    let rest = s.skip(used as int);
    let from = Pos { seg: pos.seg, off: (pos.off + used) as u64 };
    let (a, b) = (reader::keyed(pos, s, j), reader::keyed(from, rest, k));
    assert forall|i: int| 0 <= i < j + k implies reader::keyed(pos, s, j + k)[i] == (a + b)[i] by {
        if i >= j {
            let n = (i - j) as nat;
            record::lemma_span_split(s, j, n);
            lemma_span_fits(s, i as nat);
            assert(record::records(rest)[n as int] == record::records(s)[i]);
        }
    }
}

/// After the first `m` records of a segment, with bytes left, the walk goes on
/// as if it had started there.
pub proof fn lemma_taken_part(segs: Map<u64, Seq<u8>>, pos: Pos, end: Pos, limit: nat, m: nat)
    requires
        pos.before(end),
        segs.contains_key(pos.seg),
        segs[pos.seg].len() <= u64::MAX,
        seg_end(segs, pos, end) <= segs[pos.seg].len(),
        m < limit,
        m <= record::records(left(segs, pos, end)).len(),
        record::span(left(segs, pos, end), m) < left(segs, pos, end).len(),
    ensures
        ({
            let s = left(segs, pos, end);
            let next = Pos { seg: pos.seg, off: (pos.off + record::span(s, m)) as u64 };
            taken(segs, pos, end, limit) == prepend(
                reader::keyed(pos, s, m),
                taken(segs, next, end, (limit - m) as nat),
            )
        }),
{
    let s = left(segs, pos, end);
    let used = record::span(s, m);
    let next = Pos { seg: pos.seg, off: (pos.off + used) as u64 };
    let rest = s.skip(used as int);
    assert(left(segs, next, end) =~= rest);
    record::lemma_records_split(s, m);
    let found = record::records(s).len();
    let more = record::records(rest).len();
    assert(more == found - m);
    if found >= limit {
        lemma_keyed_split(pos, s, m, (limit - m) as nat);
        record::lemma_span_split(s, m, (limit - m) as nat);
        lemma_span_fits(s, limit);
    } else {
        lemma_keyed_split(pos, s, m, (found - m) as nat);
        if pos.seg < end.seg {
            let far = taken(segs, next_segment(pos), end, (limit - found) as nat);
            let (a, b) = (reader::keyed(pos, s, m), reader::keyed(next, rest, more));
            if far is Some {
                assert((a + b) + far->0.out =~= a + (b + far->0.out));
            }
        }
    }
}

/// A walk that has taken `r.out` and stands at `r.pos` is on its way to `goal`.
pub open spec fn heading_for(
    r: reader::ReaderView,
    segs: Map<u64, Seq<u8>>,
    goal: Option<Taken>,
) -> bool {
    &&& r.wf()
    &&& goal == prepend(r.out, taken(segs, r.pos, r.end, (r.limit - r.out.len()) as nat))
    &&& r.seg_end is Some && !r.finished() ==> segs.contains_key(r.pos.seg) && r.seg_end->0
        == seg_end(segs, r.pos, r.end)
}

/// How far a walk has to go: segments, whether the current one is to be
/// measured, bytes, and how much the chunk can still grow.
pub open spec fn distance(r: reader::ReaderView) -> (int, int, int, int) {
    (
        r.end.seg - r.pos.seg,
        if r.seg_end is None {
            1
        } else {
            0
        },
        if r.seg_end is None {
            0
        } else {
            r.seg_end->0 - r.pos.off
        },
        RECORD_HEADER + MAX_RECORD - r.chunk,
    )
}

/// `b` is nearer than `a`.
pub open spec fn nearer(a: (int, int, int, int), b: (int, int, int, int)) -> bool {
    ||| 0 <= b.0 < a.0
    ||| b.0 == a.0 && 0 <= b.1 < a.1
    ||| b.0 == a.0 && b.1 == a.1 && 0 <= b.2 < a.2
    ||| b.0 == a.0 && b.1 == a.1 && b.2 == a.2 && 0 <= b.3 < a.3
}

/// A walk starts out for what it will take.
pub proof fn lemma_walk_starts(segs: Map<u64, Seq<u8>>, pos: Pos, end: Pos, limit: nat)
    ensures
        heading_for(
            reader::ReaderView::start(pos, end, limit),
            segs,
            taken(segs, pos, end, limit),
        ),
{
    let t = taken(segs, pos, end, limit);
    if t is Some {
        assert(Seq::<(Seq<u8>, Seq<u8>)>::empty() + t->0.out =~= t->0.out);
    }
}

/// A walk that is over has taken what it headed for.
pub proof fn lemma_walk_ends(r: reader::ReaderView, segs: Map<u64, Seq<u8>>, goal: Option<Taken>)
    requires
        heading_for(r, segs, goal),
        r.finished(),
    ensures
        goal is Some,
        goal->0.out =~= r.out,
        goal->0.pos == r.pos,
{
}

/// The records of a prefix have the keys that they have in the whole.
proof fn lemma_keyed_prefix(pos: Pos, s: Seq<u8>, n: int, k: nat)
    requires
        0 <= n <= s.len(),
        k <= record::records(s.take(n)).len(),
    ensures
        reader::keyed(pos, s.take(n), k) =~= reader::keyed(pos, s, k),
        k <= record::records(s).len(),
        record::span(s.take(n), k) == record::span(s, k),
{
    let b = s.take(n);
    record::lemma_records_prefix(s, n);
    assert forall|i: int| 0 <= i < k implies reader::keyed(pos, b, k)[i] == reader::keyed(
        pos,
        s,
        k,
    )[i] by {
        assert(record::span(b, i as nat) == record::span(s, i as nat));
        assert(record::records(b)[i] == record::records(s)[i]);
    }
    assert(record::span(b, k) == record::span(s, k));
}

/// A segment that turns out to be used up is passed over.
proof fn lemma_walk_measures(r: reader::ReaderView, segs: Map<u64, Seq<u8>>, goal: Option<Taken>)
    requires
        heading_for(r, segs, goal),
        !r.finished(),
        r.seg_end is None,
        segs.contains_key(r.pos.seg),
        segs[r.pos.seg].len() <= u64::MAX,
    ensures
        ({
            let after = r.measured(segs[r.pos.seg].len() as u64);
            &&& heading_for(after, segs, goal)
            &&& !after.finished() ==> nearer(distance(r), distance(after))
        }),
{
    let room = (r.limit - r.out.len()) as nat;
    let (pos, end) = (r.pos, r.end);
    let s = left(segs, pos, end);
    let after = r.measured(segs[pos.seg].len() as u64);
    if pos.seg < end.seg && pos.off >= segs[pos.seg].len() {
        assert(s =~= Seq::<u8>::empty());
        record::lemma_records_empty();
        assert(reader::keyed(pos, s, 0) =~= Seq::empty());
        let far = taken(segs, next_segment(pos), end, room);
        if far is Some {
            assert(Seq::<(Seq<u8>, Seq<u8>)>::empty() + far->0.out =~= far->0.out);
        }
        assert(taken(segs, pos, end, room) == far);
        assert(after.pos == next_segment(pos));
    } else {
        assert(after.pos == pos);
    }
}

/// A chunk that fills the limit ends the walk.
proof fn lemma_walk_fills(
    r: reader::ReaderView,
    segs: Map<u64, Seq<u8>>,
    goal: Option<Taken>,
    n: int,
)
    requires
        heading_for(r, segs, goal),
        !r.finished(),
        r.seg_end is Some,
        r.seg_end->0 <= segs[r.pos.seg].len() <= u64::MAX,
        0 <= n <= left(segs, r.pos, r.end).len(),
        record::records(left(segs, r.pos, r.end).take(n)).len() >= r.limit - r.out.len(),
    ensures
        heading_for(r.absorbed(left(segs, r.pos, r.end).take(n)), segs, goal),
        r.absorbed(left(segs, r.pos, r.end).take(n)).finished(),
{
    let room = (r.limit - r.out.len()) as nat;
    let s = left(segs, r.pos, r.end);
    let buf = s.take(n);
    let after = r.absorbed(buf);
    lemma_keyed_prefix(r.pos, s, n, room);
    lemma_span_fits(s, room);
    assert(after.out.len() == r.limit);
    assert(taken(segs, after.pos, r.end, 0) == Some(Taken { out: Seq::empty(), pos: after.pos }));
    assert(after.out + Seq::empty() =~= after.out);
}

/// A chunk that ends within a record is followed by another one.
proof fn lemma_walk_goes_on(
    r: reader::ReaderView,
    segs: Map<u64, Seq<u8>>,
    goal: Option<Taken>,
    n: int,
    need: nat,
)
    requires
        heading_for(r, segs, goal),
        !r.finished(),
        r.seg_end is Some,
        r.seg_end->0 <= segs[r.pos.seg].len() <= u64::MAX,
        n == r.request(),
        record::records(left(segs, r.pos, r.end).take(n)).len() < r.limit - r.out.len(),
        ({
            let s = left(segs, r.pos, r.end);
            let used = record::valid_len(s.take(n)) as int;
            &&& record::reading(s.take(n).skip(used)) == (record::Reading::Incomplete { need })
            &&& need <= s.len() - used
        }),
    ensures
        ({
            let after = r.absorbed(left(segs, r.pos, r.end).take(n));
            &&& heading_for(after, segs, goal)
            &&& nearer(distance(r), distance(after))
        }),
{
    let room = (r.limit - r.out.len()) as nat;
    let (pos, end) = (r.pos, r.end);
    let s = left(segs, pos, end);
    let buf = s.take(n);
    let after = r.absorbed(buf);
    let found = record::records(buf).len();
    let used = record::valid_len(buf);
    lemma_keyed_prefix(pos, s, n, found);
    record::lemma_reading_bounds(buf.skip(used as int));
    record::lemma_after_records(buf);
    lemma_taken_part(segs, pos, end, room, found);
    let next = Pos { seg: pos.seg, off: (pos.off + used) as u64 };
    assert(after.pos == next);
    let got = reader::keyed(pos, s, found);
    let far = taken(segs, next, end, (room - found) as nat);
    if far is Some {
        assert((r.out + got) + far->0.out =~= r.out + (got + far->0.out));
    }
    if used == 0 {
        assert(buf.skip(0) =~= buf);
        assert(after.chunk > r.chunk);
    }
}

/// A record that is torn or corrupt ends the segment.
proof fn lemma_walk_gives_up_segment(
    r: reader::ReaderView,
    segs: Map<u64, Seq<u8>>,
    goal: Option<Taken>,
    n: int,
)
    requires
        heading_for(r, segs, goal),
        !r.finished(),
        r.seg_end is Some,
        r.seg_end->0 <= segs[r.pos.seg].len() <= u64::MAX,
        0 <= n <= left(segs, r.pos, r.end).len(),
        record::records(left(segs, r.pos, r.end).take(n)).len() < r.limit - r.out.len(),
        ({
            let s = left(segs, r.pos, r.end);
            let used = record::valid_len(s.take(n)) as int;
            let stop = record::reading(s.take(n).skip(used));
            stop is Corrupt || (stop is Incomplete && stop->need > s.len() - used)
        }),
    ensures
        ({
            let after = r.absorbed(left(segs, r.pos, r.end).take(n));
            &&& heading_for(after, segs, goal)
            &&& !after.finished() ==> nearer(distance(r), distance(after))
        }),
{
    let room = (r.limit - r.out.len()) as nat;
    let (pos, end) = (r.pos, r.end);
    let s = left(segs, pos, end);
    let buf = s.take(n);
    let after = r.absorbed(buf);
    let found = record::records(buf).len();
    let used = record::valid_len(buf);
    lemma_keyed_prefix(pos, s, n, found);
    record::lemma_chunk(s, n);
    assert(record::records(s) =~= record::records(buf));
    let got = reader::keyed(pos, s, found);
    if pos.seg < end.seg {
        let far = taken(segs, next_segment(pos), end, (room - found) as nat);
        if far is Some {
            assert((r.out + got) + far->0.out =~= r.out + (got + far->0.out));
        }
        assert(after.pos == next_segment(pos));
    } else {
        assert(after.pos == end);
        assert(taken(segs, end, end, (room - found) as nat) == Some(
            Taken { out: Seq::empty(), pos: end },
        ));
        assert((r.out + got) + Seq::empty() =~= r.out + got);
    }
}

/// Each answer of the directory brings a walk nearer to its goal, or shows
/// that it comes to a segment that is missing.
pub proof fn lemma_walk_steps(
    r: reader::ReaderView,
    d: disk::DiskView,
    e: io::EventView,
    d2: disk::DiskView,
    goal: Option<Taken>,
)
    requires
        d.wf(),
        reaches(d.segs, r.end),
        heading_for(r, d.segs, goal),
        !r.finished(),
        disk::answers(d, r.action(), e, d2),
    ensures
        d2 == d,
        if e == io::EventView::Failed {
            goal is None
        } else {
            &&& r.fits(e)
            &&& heading_for(r.after(e), d.segs, goal)
            &&& !r.after(e).finished() ==> nearer(distance(r), distance(r.after(e)))
        },
{
    let segs = d.segs;
    let (pos, end) = (r.pos, r.end);
    let s = left(segs, pos, end);
    if r.seg_end is None {
        if segs.contains_key(pos.seg) {
            lemma_walk_measures(r, segs, goal);
        }
    } else {
        let n = r.request();
        let buf = s.take(n);
        assert(segs[pos.seg].subrange(pos.off as int, pos.off + n) =~= buf);
        assert(e == io::EventView::Bytes(buf));
        if record::records(buf).len() >= r.limit - r.out.len() {
            lemma_walk_fills(r, segs, goal, n);
        } else {
            let used = record::valid_len(buf) as int;
            let stop = record::reading(buf.skip(used));
            record::lemma_after_records(buf);
            if stop is Incomplete && stop->need <= s.len() - used {
                lemma_walk_goes_on(r, segs, goal, n, stop->need);
            } else {
                lemma_walk_gives_up_segment(r, segs, goal, n);
            }
        }
    }
}

/// The lengths of the segments fit in 64 bits.
pub open spec fn fits(segs: Map<u64, Seq<u8>>) -> bool {
    forall|seg: u64| #[trigger] segs.contains_key(seg) ==> segs[seg].len() <= u64::MAX
}

/// A walk takes the first records of the queue, up to the limit, in order;
/// the others are the queue from where it resumes. A walk that takes fewer
/// than the limit comes to the end.
pub proof fn law_walk_takes_first(segs: Map<u64, Seq<u8>>, pos: Pos, end: Pos, limit: nat)
    requires
        fits(segs),
        connected(segs, pos, end),
        reaches(segs, end),
        !end.before(pos),
    ensures
        ({
            let all = queue(segs, pos, end);
            let t = taken(segs, pos, end, limit);
            &&& t is Some
            &&& limit <= all.len() ==> t->0.out =~= all.take(limit as int) && queue(
                segs,
                t->0.pos,
                end,
            ) =~= all.skip(limit as int)
            &&& limit > all.len() ==> t->0.out =~= all && t->0.pos == end
            &&& !t->0.pos.before(pos)
            &&& !end.before(t->0.pos)
        }),
    decreases end.seg - pos.seg,
{
    let all = queue(segs, pos, end);
    let t = taken(segs, pos, end, limit);
    if limit == 0 {
        assert(all.skip(0) =~= all);
    } else if pos.before(end) {
        assert(segs.contains_key(pos.seg));
        let s = left(segs, pos, end);
        let found = record::records(s).len();
        let here = reader::keyed(pos, s, found);
        let far = if pos.seg < end.seg {
            queue(segs, next_segment(pos), end)
        } else {
            Seq::empty()
        };
        assert(all =~= here + far);
        if found >= limit {
            record::lemma_records_split(s, limit);
            lemma_keyed_split(pos, s, limit, (found - limit) as nat);
            let used = record::span(s, limit);
            let next = Pos { seg: pos.seg, off: (pos.off + used) as u64 };
            let rest = s.skip(used as int);
            assert(reader::keyed(pos, s, limit) =~= here.take(limit as int));
            if pos.off + used >= seg_end(segs, pos, end) && pos.seg < end.seg {
                assert(rest =~= Seq::<u8>::empty());
                record::lemma_records_empty();
                assert(all.skip(limit as int) =~= far);
            } else {
                assert(t->0.pos == next);
                assert(left(segs, next, end) =~= rest);
                if next.before(end) {
                    assert(queue(segs, next, end) =~= reader::keyed(
                        next,
                        rest,
                        (found - limit) as nat,
                    ) + far);
                } else {
                    assert(rest =~= Seq::<u8>::empty());
                    record::lemma_records_empty();
                }
            }
        } else if pos.seg < end.seg {
            law_walk_takes_first(segs, next_segment(pos), end, (limit - found) as nat);
        }
    }
}

/// A walk can be resumed from where it stopped: to stop after at most `a`
/// records and to resume for at most `b` more takes the same records, under the
/// same keys, and comes to the same position, as one walk of at most `a + b`.
/// It comes to a missing segment where that one does.
pub proof fn law_walk_resumes(segs: Map<u64, Seq<u8>>, pos: Pos, end: Pos, a: nat, b: nat)
    requires
        fits(segs),
        reaches(segs, end),
    ensures
        taken(segs, pos, end, a) matches Some(t) ==> {
            let on = taken(segs, t.pos, end, b);
            let once = taken(segs, pos, end, a + b);
            &&& once is Some <==> on is Some
            &&& on is Some ==> once->0.out =~= t.out + on->0.out && once->0.pos == on->0.pos
        },
        taken(segs, pos, end, a) is None ==> taken(segs, pos, end, a + b) is None,
    decreases end.seg - pos.seg,
{
    let t = taken(segs, pos, end, a);
    if a == 0 {
        let on = taken(segs, pos, end, b);
        if on is Some {
            assert(Seq::<(Seq<u8>, Seq<u8>)>::empty() + on->0.out =~= on->0.out);
        }
    } else if pos.before(end) && segs.contains_key(pos.seg) {
        let s = left(segs, pos, end);
        let found = record::records(s).len();
        let none = Seq::<(Seq<u8>, Seq<u8>)>::empty();
        if found >= a {
            lemma_span_fits(s, a);
            let here = reader::keyed(pos, s, a);
            assert(here + none =~= here);
            if b == 0 {
            } else if record::span(s, a) < s.len() {
                lemma_taken_part(segs, pos, end, a + b, a);
            } else {
                // The segment is used up by these records.
                record::lemma_records_split(s, a);
                assert(s.skip(record::span(s, a) as int) =~= Seq::<u8>::empty());
                record::lemma_records_empty();
                assert(found == a);
            }
        } else if pos.seg < end.seg {
            law_walk_resumes(segs, next_segment(pos), end, (a - found) as nat, b);
            let here = reader::keyed(pos, s, found);
            let far = taken(segs, next_segment(pos), end, (a - found) as nat);
            if far is Some {
                let on = taken(segs, t->0.pos, end, b);
                if on is Some {
                    assert((here + far->0.out) + on->0.out =~= here + (far->0.out + on->0.out));
                }
            }
        } else {
            let here = reader::keyed(pos, s, found);
            assert(here + none =~= here);
        }
    }
}

/// What a walk takes comes before the records from where it resumes, and the
/// segments that it left behind exist.
pub proof fn lemma_taken_before_rest(segs: Map<u64, Seq<u8>>, pos: Pos, end: Pos, limit: nat)
    requires
        fits(segs),
        reaches(segs, end),
        !end.before(pos),
    ensures
        taken(segs, pos, end, limit) matches Some(t) ==> {
            &&& queue(segs, pos, end) =~= t.out + queue(segs, t.pos, end)
            &&& t.out.len() <= limit
            &&& t.out.len() < limit ==> t.pos == end
            &&& !end.before(t.pos)
            &&& forall|seg: u64| pos.seg <= seg < t.pos.seg ==> #[trigger] segs.contains_key(seg)
        },
    decreases end.seg - pos.seg,
{
    let t = taken(segs, pos, end, limit);
    if limit > 0 && pos.before(end) && segs.contains_key(pos.seg) {
        let all = queue(segs, pos, end);
        let s = left(segs, pos, end);
        let found = record::records(s).len();
        let here = reader::keyed(pos, s, found);
        let far = if pos.seg < end.seg {
            queue(segs, next_segment(pos), end)
        } else {
            Seq::empty()
        };
        assert(all =~= here + far);
        if found >= limit {
            record::lemma_records_split(s, limit);
            lemma_keyed_split(pos, s, limit, (found - limit) as nat);
            let used = record::span(s, limit);
            let next = Pos { seg: pos.seg, off: (pos.off + used) as u64 };
            let rest = s.skip(used as int);
            if pos.off + used >= seg_end(segs, pos, end) && pos.seg < end.seg {
                assert(rest =~= Seq::<u8>::empty());
                record::lemma_records_empty();
            } else {
                assert(t->0.pos == next);
                assert(left(segs, next, end) =~= rest);
                if !next.before(end) {
                    assert(rest =~= Seq::<u8>::empty());
                    record::lemma_records_empty();
                }
            }
        } else if pos.seg < end.seg {
            lemma_taken_before_rest(segs, next_segment(pos), end, (limit - found) as nat);
        }
    }
}

/// Segments that are missing hold nothing.
pub proof fn lemma_queue_skips(segs: Map<u64, Seq<u8>>, pos: Pos, seg: u64, end: Pos)
    requires
        pos.seg < seg <= end.seg,
        forall|s: u64| pos.seg <= s < seg ==> !(#[trigger] segs.contains_key(s)),
    ensures
        queue(segs, pos, end) =~= queue(segs, Pos { seg, off: 0 }, end),
    decreases seg - pos.seg,
{
    let next = next_segment(pos);
    assert(!segs.contains_key(pos.seg));
    assert(queue(segs, pos, end) =~= queue(segs, next, end));
    if next.seg < seg {
        lemma_queue_skips(segs, next, seg, end);
    }
}

} // verus!
