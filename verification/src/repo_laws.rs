//! What the operations of the repository backfill queue promise together.

use vstd::prelude::*;

use crate::backlog;
use crate::cbor;
use crate::error::WintermuteError;
use crate::files::FileRead;
use crate::name_map;
use crate::repo;
use crate::repo::{BackfillJob, Found, Level, Marks, RepoBackfillQueue};

verus! {

/// How many jobs of `did` are marked.
pub open spec fn mark_of(map: Map<Seq<char>, u64>, did: Seq<char>) -> nat {
    if map.contains_key(did) {
        map[did] as nat
    } else {
        0
    }
}

/// How many of the first jobs of `did` in `level` are marked.
pub open spec fn mark_at(marks: Marks, level: Level, did: Seq<char>) -> nat {
    mark_of(marks.at(level), did)
}

/// How many of the first jobs of `did`, in whichever level, are marked.
pub open spec fn bare_of(marks: Marks, did: Seq<char>) -> nat {
    mark_of(marks.bare, did)
}

/// Every mark stands for a job.
pub open spec fn positive_map(map: Map<Seq<char>, u64>) -> bool {
    &&& map.dom().finite()
    &&& forall|did: Seq<char>| #[trigger] map.contains_key(did) ==> map[did] > 0
}

/// Every mark stands for a job.
pub open spec fn positive(marks: Marks) -> bool {
    &&& positive_map(marks.immediate)
    &&& positive_map(marks.priority)
    &&& positive_map(marks.normal)
    &&& positive_map(marks.bare)
}

/// Every mark says the level of its jobs.
pub open spec fn levelled(marks: Marks) -> bool {
    marks.bare =~= Map::empty()
}

/// The marks of a level are the same.
pub open spec fn same_at(a: Marks, b: Marks, level: Level) -> bool {
    forall|did: Seq<char>| #[trigger] mark_at(a, level, did) == mark_at(b, level, did)
}

/// The marks of `did` are the same.
pub open spec fn same_for(a: Marks, b: Marks, did: Seq<char>) -> bool {
    &&& mark_at(a, Level::Immediate, did) == mark_at(b, Level::Immediate, did)
    &&& mark_at(a, Level::Priority, did) == mark_at(b, Level::Priority, did)
    &&& mark_at(a, Level::Normal, did) == mark_at(b, Level::Normal, did)
    &&& bare_of(a, did) == bare_of(b, did)
}

/// The marks of others than `did` are the same.
pub open spec fn same_but(a: Marks, b: Marks, did: Seq<char>) -> bool {
    forall|other: Seq<char>| other != did ==> #[trigger] same_for(a, b, other)
}

/// There is a queued job for every mark of `did`: in its level, if it says one.
pub open spec fn covered_for(marks: Marks, queue: backlog::BacklogView, did: Seq<char>) -> bool {
    &&& mark_at(marks, Level::Immediate, did) <= repo::queued_of(queue.immediate, did)
    &&& mark_at(marks, Level::Priority, did) <= repo::queued_of(queue.priority, did)
    &&& mark_at(marks, Level::Normal, did) <= repo::queued_of(queue.normal, did)
    &&& mark_at(marks, Level::Immediate, did) + mark_at(marks, Level::Priority, did) + mark_at(
        marks,
        Level::Normal,
        did,
    ) + bare_of(marks, did) <= backlog::queued_in(queue, did)
}

/// The marks of a queue that started without any: there is a queued job for
/// every mark. Queueing, removing and dequeueing keep it so.
pub open spec fn sound(marks: Marks, queue: backlog::BacklogView) -> bool {
    positive(marks) && forall|did: Seq<char>| #[trigger] covered_for(marks, queue, did)
}

/// What is left of `m` after `c` were taken from it.
pub open spec fn beyond(m: nat, c: nat) -> nat {
    if c <= m {
        (m - c) as nat
    } else {
        0
    }
}

/// The lesser of two numbers.
pub open spec fn fewer(a: nat, b: nat) -> int {
    if a < b {
        a as int
    } else {
        b as int
    }
}

/// The records of a level that a dequeue consumed.
pub open spec fn consumed(
    recs: backlog::Records,
    left: backlog::Records,
) -> backlog::Records {
    recs.take(recs.len() - left.len())
}

/// What draining all of a level gives.
pub open spec fn whole(level: Level, recs: backlog::Records, marks: Marks) -> repo::Drained {
    repo::drained(level, recs, marks, recs.len())
}

/// The queued jobs that no mark stands for, in the order in which they are
/// handed out: what a dequeue of everything would give.
pub open spec fn live_jobs(queue: backlog::BacklogView, marks: Marks) -> backlog::Jobs {
    backlog::dequeued(queue, marks, queue.size()).out
}

/// The jobs of others than `did`, in their order.
pub open spec fn without(jobs: backlog::Jobs, did: Seq<char>) -> backlog::Jobs
    decreases jobs.len(),
{
    if jobs.len() == 0 {
        jobs
    } else if jobs[0].1.did@ == did {
        without(jobs.skip(1), did)
    } else {
        seq![jobs[0]] + without(jobs.skip(1), did)
    }
}

/// The jobs of `did`, in their order.
pub open spec fn only(jobs: backlog::Jobs, did: Seq<char>) -> backlog::Jobs
    decreases jobs.len(),
{
    if jobs.len() == 0 {
        jobs
    } else if jobs[0].1.did@ == did {
        seq![jobs[0]] + only(jobs.skip(1), did)
    } else {
        only(jobs.skip(1), did)
    }
}

/// The jobs that the records of a level hold, in arrival order, with the keys
/// under which they are handed out.
pub open spec fn jobs_in(level: Level, recs: backlog::Records) -> backlog::Jobs
    decreases recs.len(),
{
    if recs.len() == 0 {
        Seq::empty()
    } else {
        match recs[0].1 {
            Some(job) => seq![(repo::full_key(level, recs[0].0), job)] + jobs_in(
                level,
                recs.skip(1),
            ),
            None => jobs_in(level, recs.skip(1)),
        }
    }
}

/// The jobs of the whole queue, level by level, whether marked or not.
pub open spec fn all_jobs(queue: backlog::BacklogView) -> backlog::Jobs {
    jobs_in(Level::Immediate, queue.immediate) + jobs_in(Level::Priority, queue.priority)
        + jobs_in(Level::Normal, queue.normal)
}

/// Using a mark up leaves one less.
proof fn lemma_used_up(map: Map<Seq<char>, u64>, did: Seq<char>)
    requires
        positive_map(map),
        map.contains_key(did),
    ensures
        positive_map(repo::used_up(map, did)),
        name_map::total(map) == name_map::total(repo::used_up(map, did)) + 1,
        forall|d: Seq<char>| #[trigger]
            mark_of(repo::used_up(map, did), d) == if d == did {
                mark_of(map, d) - 1
            } else {
                mark_of(map, d) as int
            },
{
    let less = repo::used_up(map, did);
    name_map::lemma_total_without(map, did);
    if map[did] <= 1 {
        assert(less.dom() =~= map.dom().remove(did));
    } else {
        name_map::lemma_total_with(map, did, (map[did] - 1) as u64);
        assert(less.dom() =~= map.dom().insert(did));
    }
}

/// Dropping a job uses up a mark of its level, or else one that says no level.
proof fn lemma_less(marks: Marks, level: Level, did: Seq<char>)
    requires
        positive(marks),
    ensures
        marks.stand_for(level, did) <==> mark_at(marks, level, did) + bare_of(marks, did) > 0,
        marks.stand_for(level, did) ==> {
            let less = marks.less(level, did);
            let here = mark_at(marks, level, did) > 0;
            &&& positive(less)
            &&& less.total() + 1 == marks.total()
            &&& forall|l: Level, d: Seq<char>| #[trigger]
                mark_at(less, l, d) == if l == level && d == did && here {
                    mark_at(marks, l, d) - 1
                } else {
                    mark_at(marks, l, d) as int
                }
            &&& forall|d: Seq<char>| #[trigger]
                bare_of(less, d) == if d == did && !here {
                    bare_of(marks, d) - 1
                } else {
                    bare_of(marks, d) as int
                }
        },
{
    if marks.at(level).contains_key(did) {
        lemma_used_up(marks.at(level), did);
        let less = marks.less(level, did);
        assert forall|l: Level, d: Seq<char>| #[trigger]
            mark_at(less, l, d) == if l == level && d == did {
                mark_at(marks, l, d) - 1
            } else {
                mark_at(marks, l, d) as int
            } by {
            assert(mark_of(less.at(l), d) == mark_at(less, l, d));
        }
    } else if marks.bare.contains_key(did) {
        lemma_used_up(marks.bare, did);
        let less = marks.less(level, did);
        assert forall|d: Seq<char>| #[trigger]
            bare_of(less, d) == if d == did {
                bare_of(marks, d) - 1
            } else {
                bare_of(marks, d) as int
            } by {
            assert(mark_of(less.bare, d) == bare_of(less, d));
        }
    }
}

/// Picking the jobs of `did` part by part.
proof fn lemma_only_parts(a: backlog::Jobs, b: backlog::Jobs, did: Seq<char>)
    ensures
        only(a + b, did) =~= only(a, did) + only(b, did),
    decreases a.len(),
{
    if a.len() == 0 {
        assert(a + b =~= b);
    } else {
        assert((a + b).skip(1) =~= a.skip(1) + b);
        lemma_only_parts(a.skip(1), b, did);
    }
}

/// Leaving out the jobs of `did` part by part.
proof fn lemma_without_parts(a: backlog::Jobs, b: backlog::Jobs, did: Seq<char>)
    ensures
        without(a + b, did) =~= without(a, did) + without(b, did),
    decreases a.len(),
{
    if a.len() == 0 {
        assert(a + b =~= b);
    } else {
        assert((a + b).skip(1) =~= a.skip(1) + b);
        lemma_without_parts(a.skip(1), b, did);
    }
}

/// The jobs of records in two parts.
proof fn lemma_jobs_parts(level: Level, a: backlog::Records, b: backlog::Records)
    ensures
        jobs_in(level, a + b) =~= jobs_in(level, a) + jobs_in(level, b),
    decreases a.len(),
{
    if a.len() == 0 {
        assert(a + b =~= b);
    } else {
        assert((a + b).skip(1) =~= a.skip(1) + b);
        lemma_jobs_parts(level, a.skip(1), b);
    }
}

/// As many jobs of `did` as records that hold one.
proof fn lemma_only_counts(level: Level, recs: backlog::Records, did: Seq<char>)
    ensures
        only(jobs_in(level, recs), did).len() == repo::queued_of(recs, did),
    decreases recs.len(),
{
    if recs.len() > 0 {
        lemma_only_counts(level, recs.skip(1), did);
        let all = jobs_in(level, recs);
        if recs[0].1 is Some {
            assert(all.skip(1) =~= jobs_in(level, recs.skip(1)));
        }
    }
}

/// Of the jobs of `did` that a level gives up, the first ones are dropped, as
/// many as are marked in the level and without one, and the others are handed
/// out in order. Each drop uses one mark up, those of the level first; the
/// marks of other levels stay.
pub open spec fn drops_first(
    level: Level,
    recs: backlog::Records,
    marks: Marks,
    room: nat,
    did: Seq<char>,
) -> bool {
    let d = repo::drained(level, recs, marks, room);
    let given = only(jobs_in(level, consumed(recs, d.left)), did);
    let (m, b) = (mark_at(marks, level, did), bare_of(marks, did));
    &&& positive(d.marks)
    &&& only(d.out, did) =~= given.skip(fewer(m + b, given.len()))
    &&& mark_at(d.marks, level, did) == beyond(m, given.len())
    &&& bare_of(d.marks, did) == beyond(b, beyond(given.len(), m))
    &&& forall|l: Level|
        l != level ==> #[trigger] mark_at(d.marks, l, did) == mark_at(marks, l, did)
}

/// What a level gives up: its first record and what comes after.
proof fn lemma_given(
    level: Level,
    recs: backlog::Records,
    marks: Marks,
    room: nat,
    did: Seq<char>,
)
    requires
        room > 0,
        recs.len() > 0,
    ensures
        ({
            let left = repo::drained(level, recs, marks, room).left;
            let given = only(jobs_in(level, consumed(recs, left)), did);
            let after = only(jobs_in(level, consumed(recs.skip(1), left)), did);
            &&& left.len() < recs.len()
            &&& given =~= if repo::is_of(recs[0], did) {
                seq![(repo::full_key(level, recs[0].0), recs[0].1->0)] + after
            } else {
                after
            }
        }),
{
    let left = repo::drained(level, recs, marks, room).left;
    repo::lemma_drained_takes(level, recs, marks, room);
    let taken = consumed(recs, left);
    assert(taken[0] == recs[0]);
    assert(taken.skip(1) =~= consumed(recs.skip(1), left));
    if recs[0].1 is Some {
        assert(jobs_in(level, taken).skip(1) =~= jobs_in(level, taken.skip(1)));
    }
}

/// A level whose first job is dropped.
proof fn lemma_drop_first(
    level: Level,
    recs: backlog::Records,
    marks: Marks,
    room: nat,
    did: Seq<char>,
)
    requires
        positive(marks),
        room > 0,
        recs.len() > 0,
        recs[0].1 is Some,
        marks.stand_for(level, recs[0].1->0.did@),
        drops_first(level, recs.skip(1), marks.less(level, recs[0].1->0.did@), room, did),
    ensures
        drops_first(level, recs, marks, room, did),
{
    let d = repo::drained(level, recs, marks, room);
    let less = marks.less(level, recs[0].1->0.did@);
    lemma_less(marks, level, recs[0].1->0.did@);
    lemma_given(level, recs, marks, room, did);
    let given = only(jobs_in(level, consumed(recs, d.left)), did);
    let after = only(jobs_in(level, consumed(recs.skip(1), d.left)), did);
    let (m, b) = (mark_at(marks, level, did), bare_of(marks, did));
    assert(mark_at(less, level, did) <= m && bare_of(less, did) <= b);
    assert forall|l: Level| l != level implies #[trigger] mark_at(d.marks, l, did) == mark_at(
        marks,
        l,
        did,
    ) by {
        assert(mark_at(less, l, did) == mark_at(marks, l, did));
    }
    if repo::is_of(recs[0], did) {
        let k = fewer(m + b, given.len());
        assert(given.skip(k) =~= after.skip(k - 1));
    }
}

/// A level whose first job is handed out.
proof fn lemma_hand_first(
    level: Level,
    recs: backlog::Records,
    marks: Marks,
    room: nat,
    did: Seq<char>,
)
    requires
        positive(marks),
        room > 0,
        recs.len() > 0,
        recs[0].1 is Some,
        !marks.stand_for(level, recs[0].1->0.did@),
        drops_first(level, recs.skip(1), marks, (room - 1) as nat, did),
    ensures
        drops_first(level, recs, marks, room, did),
{
    let d = repo::drained(level, recs, marks, room);
    let e = repo::drained(level, recs.skip(1), marks, (room - 1) as nat);
    lemma_less(marks, level, recs[0].1->0.did@);
    lemma_given(level, recs, marks, room, did);
    let given = only(jobs_in(level, consumed(recs, d.left)), did);
    let after = only(jobs_in(level, consumed(recs.skip(1), d.left)), did);
    assert(d.out.skip(1) =~= e.out);
    if repo::is_of(recs[0], did) {
        assert(given.skip(0) =~= given);
        assert(after.skip(0) =~= after);
    }
}

/// Of the jobs of one identifier that a level gives up, the first ones are
/// dropped, as many as are marked in the level and without one, and the others
/// are handed out in order. Each drop uses one mark up, those of the level
/// first; the marks of other levels stay.
pub proof fn law_marks_drop_the_first_jobs(
    level: Level,
    recs: backlog::Records,
    marks: Marks,
    room: nat,
    did: Seq<char>,
)
    requires
        positive(marks),
    ensures
        drops_first(level, recs, marks, room, did),
    decreases recs.len(),
{
    let d = repo::drained(level, recs, marks, room);
    repo::lemma_drained_stops(level, recs, marks, room);
    let taken = consumed(recs, d.left);
    if room == 0 || recs.len() == 0 {
        assert(taken =~= Seq::empty());
        assert(only(jobs_in(level, taken), did) =~= Seq::empty());
    } else {
        let rest = recs.skip(1);
        lemma_given(level, recs, marks, room, did);
        match recs[0].1 {
            None => {
                law_marks_drop_the_first_jobs(level, rest, marks, room, did);
            },
            Some(job) => {
                lemma_less(marks, level, job.did@);
                if marks.stand_for(level, job.did@) {
                    let less = marks.less(level, job.did@);
                    law_marks_drop_the_first_jobs(level, rest, less, room, did);
                    lemma_drop_first(level, recs, marks, room, did);
                } else {
                    law_marks_drop_the_first_jobs(level, rest, marks, (room - 1) as nat, did);
                    lemma_hand_first(level, recs, marks, room, did);
                }
            },
        }
    }
}

/// The levels are drained in their order: a level gives nothing while an
/// earlier one has something left.
pub proof fn law_levels_in_order(
    queue: backlog::BacklogView,
    marks: Marks,
    count: nat,
)
    ensures
        ({
            let d = backlog::dequeued(queue, marks, count);
            let a = repo::drained(Level::Immediate, queue.immediate, marks, count);
            let b = repo::drained(
                Level::Priority,
                queue.priority,
                a.marks,
                (count - a.out.len()) as nat,
            );
            let c = repo::drained(
                Level::Normal,
                queue.normal,
                b.marks,
                (count - a.out.len() - b.out.len()) as nat,
            );
            &&& d.out =~= a.out + b.out + c.out
            &&& d.out.len() <= count
            &&& d.left =~= (backlog::BacklogView {
                immediate: a.left,
                priority: b.left,
                normal: c.left,
            })
            &&& d.marks == c.marks
            &&& d.dropped == a.dropped + b.dropped + c.dropped
            &&& b.out.len() > 0 || c.out.len() > 0 ==> a.left.len() == 0
            &&& c.out.len() > 0 ==> b.left.len() == 0
        }),
{
    let a = repo::drained(Level::Immediate, queue.immediate, marks, count);
    repo::lemma_drained_stops(Level::Immediate, queue.immediate, marks, count);
    let room = (count - a.out.len()) as nat;
    let b = repo::drained(Level::Priority, queue.priority, a.marks, room);
    repo::lemma_drained_stops(Level::Priority, queue.priority, a.marks, room);
    repo::lemma_drained_stops(
        Level::Normal,
        queue.normal,
        b.marks,
        (room - b.out.len()) as nat,
    );
    assert(Seq::<(Seq<u8>, BackfillJob)>::empty() + a.out =~= a.out);
    assert((a.out + b.out).len() == a.out.len() + b.out.len());
}

/// Where every record can be decoded and no job is marked, a level gives its
/// jobs in arrival order, and keeps the others.
pub proof fn law_unmarked_jobs_in_arrival_order(
    level: Level,
    recs: backlog::Records,
    marks: Marks,
    room: nat,
)
    requires
        forall|i: int|
            0 <= i < recs.len() ==> (#[trigger] recs[i]).1 is Some && !marks.stand_for(
                level,
                recs[i].1->0.did@,
            ),
    ensures
        ({
            let d = repo::drained(level, recs, marks, room);
            let n = if room < recs.len() {
                room
            } else {
                recs.len()
            };
            &&& d.out =~= Seq::new(
                n,
                |i: int| (repo::full_key(level, recs[i].0), recs[i].1->0),
            )
            &&& d.left =~= recs.skip(n as int)
            &&& d.dropped == 0
            &&& d.marks == marks
        }),
    decreases recs.len(),
{
    if room > 0 && recs.len() > 0 {
        let rest = recs.skip(1);
        assert forall|i: int| 0 <= i < rest.len() implies (#[trigger] rest[i]).1 is Some
            && !marks.stand_for(level, rest[i].1->0.did@) by {
            assert(rest[i] == recs[i + 1]);
        }
        assert(recs[0].1 is Some);
        law_unmarked_jobs_in_arrival_order(level, rest, marks, (room - 1) as nat);
        let d = repo::drained(level, recs, marks, room);
        let n = if room < recs.len() {
            room
        } else {
            recs.len()
        };
        let want = Seq::new(n, |i: int| (repo::full_key(level, recs[i].0), recs[i].1->0));
        assert forall|i: int| 0 <= i < n implies d.out[i] == want[i] by {
            if i > 0 {
                assert(rest[i - 1] == recs[i]);
            }
        }
    }
}

/// Every record holds a job.
pub open spec fn readable(recs: backlog::Records) -> bool {
    forall|i: int| 0 <= i < recs.len() ==> (#[trigger] recs[i]).1 is Some
}

/// A job is dropped for every mark that is used up, and where every record can
/// be decoded no other job is.
proof fn lemma_drained_drops(level: Level, recs: backlog::Records, marks: Marks, room: nat)
    requires
        positive(marks),
    ensures
        ({
            let d = repo::drained(level, recs, marks, room);
            &&& positive(d.marks)
            &&& d.marks.total() <= marks.total() <= d.marks.total() + d.dropped
            &&& readable(recs) ==> marks.total() == d.marks.total() + d.dropped
        }),
    decreases recs.len(),
{
    if room > 0 && recs.len() > 0 {
        let rest = recs.skip(1);
        if readable(recs) {
            assert(recs[0].1 is Some);
            assert forall|i: int| 0 <= i < rest.len() implies (#[trigger] rest[i]).1 is Some by {
                assert(rest[i] == recs[i + 1]);
            }
        }
        match recs[0].1 {
            None => {
                lemma_drained_drops(level, rest, marks, room);
            },
            Some(job) => {
                lemma_less(marks, level, job.did@);
                if marks.stand_for(level, job.did@) {
                    lemma_drained_drops(level, rest, marks.less(level, job.did@), room);
                } else {
                    lemma_drained_drops(level, rest, marks, (room - 1) as nat);
                }
            },
        }
    }
}

/// Marks of which no identifier has any are none.
proof fn lemma_no_marks(marks: Marks)
    requires
        positive(marks),
        forall|did: Seq<char>| #[trigger] same_for(marks, Marks::none(), did),
    ensures
        marks =~= Marks::none(),
        marks.total() == 0,
{
    assert forall|did: Seq<char>|
        !marks.immediate.contains_key(did) && !marks.priority.contains_key(did)
            && !marks.normal.contains_key(did) && !marks.bare.contains_key(did) by {
        assert(same_for(marks, Marks::none(), did));
        assert(mark_at(marks, Level::Immediate, did) == mark_of(marks.immediate, did));
        assert(mark_at(marks, Level::Priority, did) == mark_of(marks.priority, did));
        assert(mark_at(marks, Level::Normal, did) == mark_of(marks.normal, did));
    }
    assert(marks.immediate.dom() =~= Set::empty());
    assert(marks.priority.dom() =~= Set::empty());
    assert(marks.normal.dom() =~= Set::empty());
    assert(marks.bare.dom() =~= Set::empty());
}

/// The jobs of `did` that a dequeue consumed of the three levels.
pub open spec fn taken_of(
    queue: backlog::BacklogView,
    left: backlog::BacklogView,
    level: Level,
    did: Seq<char>,
) -> nat {
    repo::queued_of(consumed(queue.at(level), left.at(level)), did)
}

/// What a dequeue makes of the marks and of the queued jobs of `did`: each
/// level uses up its marks by the jobs of it that are consumed, and then those
/// that say no level.
proof fn lemma_dequeue_marks(
    queue: backlog::BacklogView,
    marks: Marks,
    count: nat,
    did: Seq<char>,
)
    requires
        positive(marks),
    ensures
        ({
            let (im, pr, no) = (Level::Immediate, Level::Priority, Level::Normal);
            let d = backlog::dequeued(queue, marks, count);
            let i = taken_of(queue, d.left, im, did);
            let p = taken_of(queue, d.left, pr, did);
            let n = taken_of(queue, d.left, no, did);
            &&& positive(d.marks)
            &&& mark_at(d.marks, im, did) == beyond(mark_at(marks, im, did), i)
            &&& mark_at(d.marks, pr, did) == beyond(mark_at(marks, pr, did), p)
            &&& mark_at(d.marks, no, did) == beyond(mark_at(marks, no, did), n)
            &&& bare_of(d.marks, did) == beyond(
                bare_of(marks, did),
                beyond(i, mark_at(marks, im, did)) + beyond(p, mark_at(marks, pr, did)) + beyond(
                    n,
                    mark_at(marks, no, did),
                ),
            )
            &&& forall|l: Level| #[trigger]
                d.left.at(l).len() <= queue.at(l).len() && repo::queued_of(queue.at(l), did)
                    == taken_of(queue, d.left, l, did) + repo::queued_of(d.left.at(l), did)
        }),
{
    let (im, pr, no) = (Level::Immediate, Level::Priority, Level::Normal);
    let a = repo::drained(im, queue.immediate, marks, count);
    let room = (count - a.out.len()) as nat;
    law_marks_drop_the_first_jobs(im, queue.immediate, marks, count, did);
    let b = repo::drained(pr, queue.priority, a.marks, room);
    let room2 = (room - b.out.len()) as nat;
    law_marks_drop_the_first_jobs(pr, queue.priority, a.marks, room, did);
    let c = repo::drained(no, queue.normal, b.marks, room2);
    law_marks_drop_the_first_jobs(no, queue.normal, b.marks, room2, did);
    law_levels_in_order(queue, marks, count);
    repo::lemma_drained_stops(im, queue.immediate, marks, count);
    repo::lemma_drained_stops(pr, queue.priority, a.marks, room);
    repo::lemma_drained_stops(no, queue.normal, b.marks, room2);
    lemma_only_counts(im, consumed(queue.immediate, a.left), did);
    lemma_only_counts(pr, consumed(queue.priority, b.left), did);
    lemma_only_counts(no, consumed(queue.normal, c.left), did);
    assert(mark_at(a.marks, pr, did) == mark_at(marks, pr, did));
    assert(mark_at(a.marks, no, did) == mark_at(marks, no, did));
    assert(mark_at(b.marks, im, did) == mark_at(a.marks, im, did));
    assert(mark_at(b.marks, no, did) == mark_at(a.marks, no, did));
    assert(mark_at(c.marks, im, did) == mark_at(b.marks, im, did));
    assert(mark_at(c.marks, pr, did) == mark_at(b.marks, pr, did));
    let left = backlog::dequeued(queue, marks, count).left;
    assert forall|l: Level| #[trigger]
        left.at(l).len() <= queue.at(l).len() && repo::queued_of(queue.at(l), did) == taken_of(
            queue,
            left,
            l,
            did,
        ) + repo::queued_of(left.at(l), did) by {
        let taken = consumed(queue.at(l), left.at(l));
        repo::lemma_queued_parts(taken, left.at(l), did);
        assert(taken + left.at(l) =~= queue.at(l));
    }
}

/// A dequeue of everything uses up all marks that stand for queued jobs.
proof fn lemma_uses_all(queue: backlog::BacklogView, marks: Marks, count: nat)
    requires
        sound(marks, queue),
        queue.size() <= count,
    ensures
        ({
            let d = backlog::dequeued(queue, marks, count);
            &&& d.marks =~= Marks::none()
            &&& d.left.size() == 0
            &&& d.out.len() + d.dropped == queue.size()
            &&& marks.total() <= d.dropped
            &&& readable(queue.immediate) && readable(queue.priority) && readable(queue.normal)
                ==> marks.total() == d.dropped
        }),
{
    let (im, pr, no) = (Level::Immediate, Level::Priority, Level::Normal);
    let d = backlog::dequeued(queue, marks, count);
    let a = repo::drained(im, queue.immediate, marks, count);
    let room = (count - a.out.len()) as nat;
    let b = repo::drained(pr, queue.priority, a.marks, room);
    let room2 = (room - b.out.len()) as nat;
    lemma_drained_drops(im, queue.immediate, marks, count);
    lemma_drained_drops(pr, queue.priority, a.marks, room);
    lemma_drained_drops(no, queue.normal, b.marks, room2);
    repo::lemma_drained_stops(im, queue.immediate, marks, count);
    repo::lemma_drained_stops(pr, queue.priority, a.marks, room);
    repo::lemma_drained_stops(no, queue.normal, b.marks, room2);
    repo::lemma_drained_room(im, queue.immediate, marks, count);
    repo::lemma_drained_room(pr, queue.priority, a.marks, room);
    repo::lemma_drained_room(no, queue.normal, b.marks, room2);
    law_levels_in_order(queue, marks, count);
    assert forall|did: Seq<char>| #[trigger] same_for(d.marks, Marks::none(), did) by {
        lemma_dequeue_marks(queue, marks, count, did);
        assert(covered_for(marks, queue, did));
        assert(queue.at(im) == queue.immediate && queue.at(pr) == queue.priority && queue.at(no)
            == queue.normal);
        assert(d.left.at(im).len() == 0 && d.left.at(pr).len() == 0 && d.left.at(no).len() == 0);
        assert(repo::queued_of(d.left.at(im), did) == 0);
        assert(repo::queued_of(d.left.at(pr), did) == 0);
        assert(repo::queued_of(d.left.at(no), did) == 0);
    }
    lemma_dequeue_marks(queue, marks, count, Seq::empty());
    lemma_no_marks(d.marks);
}

/// The length of a queue with these marks.
pub open spec fn length(queue: backlog::BacklogView, marks: Marks) -> usize {
    repo::live(
        repo::at_most_usize(queue.size() as int),
        repo::at_most_usize(marks.total() as int),
    )
}

/// The length of the queue is exact where every record can be decoded and
/// every mark stands for a queued job: a dequeue of everything hands out as
/// many jobs, and uses all marks up.
pub proof fn law_length_is_exact(queue: backlog::BacklogView, marks: Marks, count: nat)
    requires
        sound(marks, queue),
        readable(queue.immediate),
        readable(queue.priority),
        readable(queue.normal),
        queue.size() <= usize::MAX,
        queue.size() <= count,
    ensures
        ({
            let d = backlog::dequeued(queue, marks, count);
            &&& d.out.len() == length(queue, marks)
            &&& d.marks =~= Marks::none()
        }),
{
    lemma_uses_all(queue, marks, count);
}

/// Reading as many records more as there are marks is enough to see what a
/// level would hand out.
proof fn lemma_over_read(
    level: Level,
    recs: backlog::Records,
    marks: Marks,
    room: nat,
    n: nat,
)
    requires
        positive(marks),
        readable(recs),
        n >= room + marks.total(),
        n <= recs.len(),
    ensures
        repo::drained(level, recs.take(n as int), marks, room).out =~= repo::drained(
            level,
            recs,
            marks,
            room,
        ).out,
        repo::drained(level, recs.take(n as int), marks, room).marks == repo::drained(
            level,
            recs,
            marks,
            room,
        ).marks,
        positive(repo::drained(level, recs, marks, room).marks),
    decreases recs.len(),
{
    if room > 0 && recs.len() > 0 {
        let rest = recs.skip(1);
        let part = recs.take(n as int);
        assert forall|i: int| 0 <= i < rest.len() implies (#[trigger] rest[i]).1 is Some by {
            assert(rest[i] == recs[i + 1]);
        }
        assert(n > 0);
        assert(part.skip(1) =~= rest.take(n - 1));
        assert(part[0] == recs[0]);
        assert(recs[0].1 is Some);
        let job = recs[0].1->0;
        lemma_less(marks, level, job.did@);
        if marks.stand_for(level, job.did@) {
            lemma_over_read(level, rest, marks.less(level, job.did@), room, (n - 1) as nat);
        } else {
            lemma_over_read(level, rest, marks, (room - 1) as nat, (n - 1) as nat);
        }
    }
}

/// A peek from a level on shows what a dequeue from there hands out.
proof fn lemma_peek_foretells(
    level: Level,
    queue: backlog::BacklogView,
    so_far: backlog::Dequeued,
    limit: nat,
)
    requires
        positive(so_far.marks),
        readable(queue.immediate),
        readable(queue.priority),
        readable(queue.normal),
        limit + so_far.marks.total() <= usize::MAX,
        so_far.out.len() <= limit,
        level.number() <= 0 ==> so_far.left.immediate == queue.immediate,
        level.number() <= 1 ==> so_far.left.priority == queue.priority,
        so_far.left.normal == queue.normal,
    ensures
        backlog::peeked_from(level, queue, so_far.out, so_far.marks, limit)
            == backlog::dequeued_from(level, so_far, limit).out,
    decreases 3 - level.number(),
{
    if so_far.out.len() == limit {
        backlog::lemma_enough(level, so_far, limit);
    } else {
        let room = (limit - so_far.out.len()) as nat;
        let recs = queue.at(level);
        let n = backlog::over_read(room, so_far.marks);
        if n < recs.len() {
            lemma_over_read(level, recs, so_far.marks, room, n);
        }
        lemma_drained_drops(level, recs, so_far.marks, room);
        let d = repo::drained(level, recs, so_far.marks, room);
        repo::lemma_drained_stops(level, recs, so_far.marks, room);
        if let Some(next) = level.following() {
            let then = backlog::Dequeued {
                out: so_far.out + d.out,
                dropped: so_far.dropped + d.dropped,
                marks: d.marks,
                left: so_far.left.with(level, d.left),
            };
            lemma_peek_foretells(next, queue, then, limit);
        }
    }
}

/// A peek shows the jobs that a dequeue of as many would hand out, where every
/// record can be decoded. (A record that cannot be decoded takes the place of
/// a job that a peek would otherwise see.)
pub proof fn law_peek_foretells_dequeue(
    queue: backlog::BacklogView,
    marks: Marks,
    limit: nat,
)
    requires
        positive(marks),
        readable(queue.immediate),
        readable(queue.priority),
        readable(queue.normal),
        limit + marks.total() <= usize::MAX,
    ensures
        backlog::peeked(queue, marks, limit) == backlog::dequeued(queue, marks, limit).out,
{
    let start = backlog::Dequeued { out: Seq::empty(), dropped: 0, marks, left: queue };
    lemma_peek_foretells(Level::Immediate, queue, start, limit);
}

/// A dequeue leaves a job for every mark that is left, if there was one for
/// every mark before.
pub proof fn law_dequeue_keeps_marks_covered(
    queue: backlog::BacklogView,
    marks: Marks,
    count: nat,
)
    requires
        sound(marks, queue),
    ensures
        sound(
            backlog::dequeued(queue, marks, count).marks,
            backlog::dequeued(queue, marks, count).left,
        ),
{
    let d = backlog::dequeued(queue, marks, count);
    lemma_dequeue_marks(queue, marks, count, Seq::empty());
    assert forall|did: Seq<char>| #[trigger] covered_for(d.marks, d.left, did) by {
        lemma_dequeue_marks(queue, marks, count, did);
        assert(covered_for(marks, queue, did));
        let (im, pr, no) = (Level::Immediate, Level::Priority, Level::Normal);
        assert(d.left.at(im) == d.left.immediate && queue.at(im) == queue.immediate);
        assert(d.left.at(pr) == d.left.priority && queue.at(pr) == queue.priority);
        assert(d.left.at(no) == d.left.normal && queue.at(no) == queue.normal);
    }
}

/// Queueing a job more leaves a job for every mark.
pub proof fn law_enqueue_keeps_marks_covered(
    queue: backlog::BacklogView,
    marks: Marks,
    level: Level,
    rec: (Seq<u8>, Option<BackfillJob>),
)
    requires
        sound(marks, queue),
    ensures
        sound(marks, queue.with(level, queue.at(level).push(rec))),
{
    let more = queue.with(level, queue.at(level).push(rec));
    assert forall|did: Seq<char>| #[trigger] covered_for(marks, more, did) by {
        assert(covered_for(marks, queue, did));
        repo::lemma_queued_parts(queue.at(level), seq![rec], did);
        assert(queue.at(level).push(rec) =~= queue.at(level) + seq![rec]);
    }
}

/// Draining a level takes the first of its live jobs, and leaves the others.
proof fn lemma_level_takes(level: Level, recs: backlog::Records, marks: Marks, room: nat)
    ensures
        ({
            let d = repo::drained(level, recs, marks, room);
            let all = whole(level, recs, marks);
            let rest = whole(level, d.left, d.marks);
            let n = fewer(room, all.out.len());
            &&& d.out =~= all.out.take(n)
            &&& rest.out =~= all.out.skip(n)
            &&& rest.marks == all.marks
        }),
    decreases recs.len(),
{
    let all = whole(level, recs, marks).out;
    let n = fewer(room, all.len());
    if room == 0 || recs.len() == 0 {
        assert(all.skip(0) =~= all);
    } else {
        let rest = recs.skip(1);
        match recs[0].1 {
            None => {
                lemma_level_takes(level, rest, marks, room);
                repo::lemma_drained_room(level, rest, marks, recs.len());
            },
            Some(job) => if marks.stand_for(level, job.did@) {
                lemma_level_takes(level, rest, marks.less(level, job.did@), room);
                repo::lemma_drained_room(level, rest, marks.less(level, job.did@), recs.len());
            } else {
                lemma_level_takes(level, rest, marks, (room - 1) as nat);
                let later = whole(level, rest, marks).out;
                assert(all.skip(n) =~= later.skip(n - 1));
                assert(all.take(n) =~= seq![all[0]] + later.take(n - 1));
            },
        }
    }
}

/// The live jobs, level by level.
proof fn lemma_live_levels(queue: backlog::BacklogView, marks: Marks)
    ensures
        ({
            let a = whole(Level::Immediate, queue.immediate, marks);
            let b = whole(Level::Priority, queue.priority, a.marks);
            let c = whole(Level::Normal, queue.normal, b.marks);
            live_jobs(queue, marks) =~= a.out + b.out + c.out
        }),
{
    let (im, pr, no) = (Level::Immediate, Level::Priority, Level::Normal);
    let count = queue.size();
    let a = whole(im, queue.immediate, marks);
    repo::lemma_drained_room(im, queue.immediate, marks, count);
    repo::lemma_drained_stops(im, queue.immediate, marks, count);
    let room = (count - a.out.len()) as nat;
    let b = whole(pr, queue.priority, a.marks);
    repo::lemma_drained_room(pr, queue.priority, a.marks, room);
    repo::lemma_drained_stops(pr, queue.priority, a.marks, room);
    let room2 = (room - b.out.len()) as nat;
    repo::lemma_drained_room(no, queue.normal, b.marks, room2);
    law_levels_in_order(queue, marks, count);
}

/// Three parts that are taken from in turn.
proof fn lemma_taken_in_turn(
    a: backlog::Jobs,
    b: backlog::Jobs,
    c: backlog::Jobs,
    count: nat,
)
    ensures
        ({
            let i = fewer(count, a.len());
            let j = fewer((count - i) as nat, b.len());
            let k = fewer((count - i - j) as nat, c.len());
            let n = fewer(count, (a + b + c).len());
            &&& a.take(i) + b.take(j) + c.take(k) =~= (a + b + c).take(n)
            &&& a.skip(i) + b.skip(j) + c.skip(k) =~= (a + b + c).skip(n)
        }),
{
}

/// Draining a level up to more jobs than it has live ones is draining all of
/// it.
proof fn lemma_room_enough(level: Level, recs: backlog::Records, marks: Marks, room: nat)
    requires
        repo::drained(level, recs, marks, room).out.len() < room,
    ensures
        repo::drained(level, recs, marks, room) =~= whole(level, recs, marks),
    decreases recs.len(),
{
    if recs.len() > 0 {
        let rest = recs.skip(1);
        match recs[0].1 {
            None => {
                lemma_room_enough(level, rest, marks, room);
                repo::lemma_drained_room(level, rest, marks, recs.len());
            },
            Some(job) => if marks.stand_for(level, job.did@) {
                lemma_room_enough(level, rest, marks.less(level, job.did@), room);
                repo::lemma_drained_room(level, rest, marks.less(level, job.did@), recs.len());
            } else {
                lemma_room_enough(level, rest, marks, (room - 1) as nat);
            },
        }
    }
}

/// A dequeue hands out the first live jobs, as many as it is asked for, and
/// leaves the others: what it hands out and what is live afterwards is what was
/// live before, in the same order.
pub proof fn law_dequeue_takes_the_first_live_jobs(
    queue: backlog::BacklogView,
    marks: Marks,
    count: nat,
)
    ensures
        ({
            let d = backlog::dequeued(queue, marks, count);
            let all = live_jobs(queue, marks);
            let n = fewer(count, all.len());
            &&& d.out =~= all.take(n)
            &&& live_jobs(d.left, d.marks) =~= all.skip(n)
        }),
{
    let (im, pr, no) = (Level::Immediate, Level::Priority, Level::Normal);
    let d = backlog::dequeued(queue, marks, count);
    let wa = whole(im, queue.immediate, marks);
    let wb = whole(pr, queue.priority, wa.marks);
    let wc = whole(no, queue.normal, wb.marks);
    let a = repo::drained(im, queue.immediate, marks, count);
    let room = (count - a.out.len()) as nat;
    let b = repo::drained(pr, queue.priority, a.marks, room);
    let room2 = (room - b.out.len()) as nat;
    let c = repo::drained(no, queue.normal, b.marks, room2);
    law_levels_in_order(queue, marks, count);
    lemma_live_levels(queue, marks);
    lemma_live_levels(d.left, d.marks);
    repo::lemma_drained_stops(im, queue.immediate, marks, count);
    repo::lemma_drained_stops(pr, queue.priority, a.marks, room);
    repo::lemma_drained_stops(no, queue.normal, b.marks, room2);
    lemma_level_takes(im, queue.immediate, marks, count);
    lemma_taken_in_turn(wa.out, wb.out, wc.out, count);
    let none = Seq::<(Seq<u8>, BackfillJob)>::empty();
    if room == 0 {
        // The other levels are not touched.
        assert(wb.out.take(0) =~= none && wc.out.take(0) =~= none);
        assert(wb.out.skip(0) =~= wb.out && wc.out.skip(0) =~= wc.out);
    } else {
        lemma_room_enough(im, queue.immediate, marks, count);
        repo::lemma_drained_room(im, queue.immediate, marks, queue.immediate.len());
        lemma_level_takes(pr, queue.priority, wa.marks, room);
        assert(whole(im, a.left, d.marks).out =~= none);
        assert(whole(im, a.left, d.marks).marks == d.marks);
        if room2 == 0 {
            assert(wc.out.take(0) =~= none);
            assert(wc.out.skip(0) =~= wc.out);
        } else {
            lemma_room_enough(pr, queue.priority, wa.marks, room);
            repo::lemma_drained_room(pr, queue.priority, wa.marks, queue.priority.len());
            lemma_level_takes(no, queue.normal, wb.marks, room2);
            assert(whole(pr, b.left, d.marks).out =~= none);
            assert(whole(pr, b.left, d.marks).marks == d.marks);
        }
    }
}

/// Three parts of which the first ones are left out in turn.
proof fn lemma_left_out_in_turn(
    a: backlog::Jobs,
    b: backlog::Jobs,
    c: backlog::Jobs,
    m: nat,
)
    ensures
        ({
            let m2 = beyond(m, a.len());
            let m3 = beyond(m2, b.len());
            let all = a + b + c;
            a.skip(fewer(m, a.len())) + b.skip(fewer(m2, b.len())) + c.skip(fewer(m3, c.len()))
                =~= all.skip(fewer(m, all.len()))
        }),
{
}

/// What the marks of one identifier do over the whole queue. Marks that say no
/// level drop its first jobs over the levels in their order, as many as there
/// are, where it has no others. Marks of the levels drop the first jobs of each
/// level, as many as there are, where it has no others. All other jobs of it
/// are handed out, in order.
pub proof fn law_marks_over_the_levels(
    queue: backlog::BacklogView,
    marks: Marks,
    did: Seq<char>,
)
    requires
        positive(marks),
    ensures
        ({
            let (im, pr, no) = (Level::Immediate, Level::Priority, Level::Normal);
            let live = only(live_jobs(queue, marks), did);
            let all = only(all_jobs(queue), did);
            let bare = bare_of(marks, did);
            let after = |level: Level, jobs: backlog::Jobs| only(jobs, did).skip(
                fewer(mark_at(marks, level, did), only(jobs, did).len()),
            );
            &&& mark_at(marks, im, did) + mark_at(marks, pr, did) + mark_at(marks, no, did) == 0
                ==> live =~= all.skip(fewer(bare, all.len()))
            &&& bare == 0 ==> live =~= after(im, jobs_in(im, queue.immediate)) + after(
                pr,
                jobs_in(pr, queue.priority),
            ) + after(no, jobs_in(no, queue.normal))
        }),
{
    let (im, pr, no) = (Level::Immediate, Level::Priority, Level::Normal);
    lemma_live_levels(queue, marks);
    let a = whole(im, queue.immediate, marks);
    let b = whole(pr, queue.priority, a.marks);
    let c = whole(no, queue.normal, b.marks);
    lemma_whole_level(im, queue.immediate, marks, did);
    lemma_whole_level(pr, queue.priority, a.marks, did);
    lemma_whole_level(no, queue.normal, b.marks, did);
    assert(mark_at(a.marks, pr, did) == mark_at(marks, pr, did));
    assert(mark_at(a.marks, no, did) == mark_at(marks, no, did));
    assert(mark_at(b.marks, no, did) == mark_at(a.marks, no, did));
    lemma_only_parts(a.out + b.out, c.out, did);
    lemma_only_parts(a.out, b.out, did);
    let (x, y, z) = (
        jobs_in(im, queue.immediate),
        jobs_in(pr, queue.priority),
        jobs_in(no, queue.normal),
    );
    lemma_only_parts(x + y, z, did);
    lemma_only_parts(x, y, did);
    lemma_left_out_in_turn(only(x, did), only(y, did), only(z, did), bare_of(marks, did));
}

/// What the marks of one identifier do in a whole level.
proof fn lemma_whole_level(level: Level, recs: backlog::Records, marks: Marks, did: Seq<char>)
    requires
        positive(marks),
    ensures
        ({
            let d = whole(level, recs, marks);
            let given = only(jobs_in(level, recs), did);
            let (m, b) = (mark_at(marks, level, did), bare_of(marks, did));
            &&& positive(d.marks)
            &&& given.len() == repo::queued_of(recs, did)
            &&& only(d.out, did) =~= given.skip(fewer(m + b, given.len()))
            &&& mark_at(d.marks, level, did) == beyond(m, given.len())
            &&& bare_of(d.marks, did) == beyond(b, beyond(given.len(), m))
            &&& forall|l: Level|
                l != level ==> #[trigger] mark_at(d.marks, l, did) == mark_at(marks, l, did)
        }),
{
    law_marks_drop_the_first_jobs(level, recs, marks, recs.len(), did);
    repo::lemma_drained_room(level, recs, marks, recs.len());
    lemma_only_counts(level, recs, did);
    let left = repo::drained(level, recs, marks, recs.len()).left;
    assert(consumed(recs, left) =~= recs);
}

/// The live jobs of a level under other marks of `did`, enough for all its jobs
/// there.
proof fn lemma_level_without(
    level: Level,
    recs: backlog::Records,
    before: Marks,
    after: Marks,
    did: Seq<char>,
)
    requires
        positive(before),
        positive(after),
        same_but(after, before, did),
        repo::queued_of(recs, did) <= mark_at(after, level, did),
    ensures
        whole(level, recs, after).out =~= without(whole(level, recs, before).out, did),
        same_but(whole(level, recs, after).marks, whole(level, recs, before).marks, did),
        positive(whole(level, recs, after).marks),
        positive(whole(level, recs, before).marks),
    decreases recs.len(),
{
    if recs.len() > 0 {
        let rest = recs.skip(1);
        match recs[0].1 {
            None => {
                lemma_level_without(level, rest, before, after, did);
                repo::lemma_drained_room(level, rest, before, recs.len());
                repo::lemma_drained_room(level, rest, after, recs.len());
            },
            Some(job) => {
                let d = job.did@;
                lemma_less(before, level, d);
                lemma_less(after, level, d);
                if d != did {
                    assert(same_for(after, before, d));
                }
                let (p, q) = (met(before, level, d), met(after, level, d));
                assert(same_but(q, p, did)) by {
                    assert forall|e: Seq<char>| e != did implies #[trigger] same_for(q, p, e) by {
                        assert(same_for(after, before, e));
                        lemma_met_same(after, before, level, d, e);
                    }
                }
                assert(mark_at(q, level, did) <= mark_at(after, level, did));
                lemma_level_without(level, rest, p, q, did);
                repo::lemma_drained_room(level, rest, p, recs.len());
                repo::lemma_drained_room(level, rest, q, recs.len());
                let all = whole(level, recs, before).out;
                if !before.stand_for(level, d) {
                    assert(all.skip(1) =~= whole(level, rest, before).out);
                }
            },
        }
    }
}

/// The marks after a job of `did` came up in `level`, dropped or not.
spec fn met(marks: Marks, level: Level, did: Seq<char>) -> Marks {
    if marks.stand_for(level, did) {
        marks.less(level, did)
    } else {
        marks
    }
}

/// Marks of `e` that are the same stay so when a job of `d` comes up.
proof fn lemma_met_same(a: Marks, b: Marks, level: Level, d: Seq<char>, e: Seq<char>)
    requires
        positive(a),
        positive(b),
        same_for(a, b, e),
    ensures
        same_for(met(a, level, d), met(b, level, d), e),
{
    lemma_less(a, level, d);
    lemma_less(b, level, d);
    lemma_at_levels(a, level, d, e);
    lemma_at_levels(b, level, d, e);
}

/// What a job of `d` that comes up leaves of the marks of `e`.
proof fn lemma_at_levels(marks: Marks, level: Level, d: Seq<char>, e: Seq<char>)
    requires
        positive(marks),
    ensures
        ({
            let now = met(marks, level, d);
            let here = e == d && marks.stand_for(level, d);
            let own = mark_at(marks, level, d) > 0;
            &&& mark_at(now, level, e) == if here && own {
                mark_at(marks, level, e) - 1
            } else {
                mark_at(marks, level, e) as int
            }
            &&& bare_of(now, e) == if here && !own {
                bare_of(marks, e) - 1
            } else {
                bare_of(marks, e) as int
            }
            &&& level != Level::Immediate ==> mark_at(now, Level::Immediate, e) == mark_at(
                marks,
                Level::Immediate,
                e,
            )
            &&& level != Level::Priority ==> mark_at(now, Level::Priority, e) == mark_at(
                marks,
                Level::Priority,
                e,
            )
            &&& level != Level::Normal ==> mark_at(now, Level::Normal, e) == mark_at(
                marks,
                Level::Normal,
                e,
            )
        }),
{
    lemma_less(marks, level, d);
}

/// The marks of a level after the first jobs of `did` were marked.
proof fn lemma_marked(map: Map<Seq<char>, u64>, did: Seq<char>, count: usize)
    requires
        positive_map(map),
    ensures
        ({
            let after = repo::marked(map, did, count);
            &&& positive_map(after)
            &&& forall|d: Seq<char>| #[trigger]
                mark_of(after, d) == if d == did {
                    count as nat
                } else {
                    mark_of(map, d)
                }
            &&& name_map::total(after) + mark_of(map, did) == name_map::total(map) + count
        }),
{
    let after = repo::marked(map, did, count);
    name_map::lemma_total_with(map, did, count as u64);
    if count > 0 {
        assert(after.dom() =~= map.dom().insert(did));
    } else {
        assert(after.dom() =~= map.dom().remove(did));
    }
}

/// The marks after the jobs of `did` that were found were marked.
proof fn lemma_all_marked(marks: Marks, did: Seq<char>, found: Found)
    requires
        positive(marks),
    ensures
        ({
            let after = repo::all_marked(marks, did, found);
            &&& positive(after)
            &&& same_but(after, marks, did)
            &&& mark_at(after, Level::Immediate, did) == found.immediate
            &&& mark_at(after, Level::Priority, did) == found.priority
            &&& mark_at(after, Level::Normal, did) == found.normal
            &&& bare_of(after, did) == 0
            &&& after.total() + mark_at(marks, Level::Immediate, did) + mark_at(
                marks,
                Level::Priority,
                did,
            ) + mark_at(marks, Level::Normal, did) + bare_of(marks, did) == marks.total()
                + found.immediate + found.priority + found.normal
        }),
{
    let after = repo::all_marked(marks, did, found);
    lemma_marked(marks.immediate, did, found.immediate);
    lemma_marked(marks.priority, did, found.priority);
    lemma_marked(marks.normal, did, found.normal);
    lemma_marked(marks.bare, did, 0);
    assert forall|e: Seq<char>| e != did implies #[trigger] same_for(after, marks, e) by {
        assert(mark_of(after.immediate, e) == mark_of(marks.immediate, e));
        assert(mark_of(after.priority, e) == mark_of(marks.priority, e));
        assert(mark_of(after.normal, e) == mark_of(marks.normal, e));
        assert(mark_of(after.bare, e) == mark_of(marks.bare, e));
    }
    assert(mark_of(after.immediate, did) == found.immediate);
    assert(mark_of(after.priority, did) == found.priority);
    assert(mark_of(after.normal, did) == found.normal);
    assert(mark_of(after.bare, did) == 0);
}

/// There are no more jobs of `did` in a level than records.
proof fn lemma_queued_fits(recs: backlog::Records, did: Seq<char>)
    ensures
        repo::queued_of(recs, did) <= recs.len(),
    decreases recs.len(),
{
    if recs.len() > 0 {
        lemma_queued_fits(recs.skip(1), did);
    }
}

/// What a removal makes of the marks: in every level there is a mark for every
/// queued job of `did`, and the marks of others stay.
proof fn lemma_removal(queue: backlog::BacklogView, marks: Marks, did: Seq<char>)
    requires
        positive(marks),
        queue.size() <= usize::MAX,
    ensures
        ({
            let (im, pr, no) = (Level::Immediate, Level::Priority, Level::Normal);
            let after = backlog::marks_of_removal(queue, marks, did);
            let newly = backlog::newly_removed(queue, marks, did);
            let (i, p, n) = (
                repo::queued_of(queue.immediate, did),
                repo::queued_of(queue.priority, did),
                repo::queued_of(queue.normal, did),
            );
            &&& positive(after)
            &&& same_but(after, marks, did)
            &&& newly == beyond(
                beyond(i, mark_at(marks, im, did)) + beyond(p, mark_at(marks, pr, did)) + beyond(
                    n,
                    mark_at(marks, no, did),
                ),
                bare_of(marks, did),
            )
            &&& bare_of(after, did) == 0
            &&& i <= mark_at(after, im, did)
            &&& p <= mark_at(after, pr, did)
            &&& n <= mark_at(after, no, did)
            &&& newly == 0 && bare_of(marks, did) == 0 ==> after == marks
            &&& newly > 0 || bare_of(marks, did) > 0 ==> {
                &&& i == mark_at(after, im, did)
                &&& p == mark_at(after, pr, did)
                &&& n == mark_at(after, no, did)
                &&& after.total() + mark_at(marks, im, did) + mark_at(marks, pr, did) + mark_at(
                    marks,
                    no,
                    did,
                ) + bare_of(marks, did) == marks.total() + i + p + n
            }
        }),
{
    let found = backlog::found_in(queue, did);
    lemma_queued_fits(queue.immediate, did);
    lemma_queued_fits(queue.priority, did);
    lemma_queued_fits(queue.normal, did);
    lemma_all_marked(marks, did, found);
    lemma_unmarked(queue, marks, did);
}

/// How many queued jobs of `did` no mark stands for.
proof fn lemma_unmarked(queue: backlog::BacklogView, marks: Marks, did: Seq<char>)
    requires
        positive(marks),
        repo::queued_of(queue.immediate, did) + repo::queued_of(queue.priority, did)
            + repo::queued_of(queue.normal, did) <= usize::MAX,
    ensures
        backlog::newly_removed(queue, marks, did) == beyond(
            beyond(
                repo::queued_of(queue.immediate, did),
                mark_at(marks, Level::Immediate, did),
            ) + beyond(
                repo::queued_of(queue.priority, did),
                mark_at(marks, Level::Priority, did),
            ) + beyond(repo::queued_of(queue.normal, did), mark_at(marks, Level::Normal, did)),
            bare_of(marks, did),
        ),
        bare_of(marks, did) > 0 <==> marks.bare.contains_key(did),
{
}

/// The live jobs under other marks of `did`, enough for all its jobs.
proof fn lemma_live_without(
    queue: backlog::BacklogView,
    marks: Marks,
    after: Marks,
    did: Seq<char>,
)
    requires
        positive(marks),
        positive(after),
        same_but(after, marks, did),
        repo::queued_of(queue.immediate, did) <= mark_at(after, Level::Immediate, did),
        repo::queued_of(queue.priority, did) <= mark_at(after, Level::Priority, did),
        repo::queued_of(queue.normal, did) <= mark_at(after, Level::Normal, did),
    ensures
        live_jobs(queue, after) =~= without(live_jobs(queue, marks), did),
{
    let (im, pr, no) = (Level::Immediate, Level::Priority, Level::Normal);
    lemma_live_levels(queue, marks);
    lemma_live_levels(queue, after);
    let a = whole(im, queue.immediate, marks);
    let b = whole(pr, queue.priority, a.marks);
    let c = whole(no, queue.normal, b.marks);
    let a2 = whole(im, queue.immediate, after);
    let b2 = whole(pr, queue.priority, a2.marks);
    lemma_level_without(im, queue.immediate, marks, after, did);
    lemma_whole_level(im, queue.immediate, after, did);
    assert(mark_at(a2.marks, pr, did) == mark_at(after, pr, did));
    assert(mark_at(a2.marks, no, did) == mark_at(after, no, did));
    lemma_level_without(pr, queue.priority, a.marks, a2.marks, did);
    lemma_whole_level(pr, queue.priority, a2.marks, did);
    assert(mark_at(b2.marks, no, did) == mark_at(a2.marks, no, did));
    lemma_level_without(no, queue.normal, b.marks, b2.marks, did);
    lemma_without_parts(a.out + b.out, c.out, did);
    lemma_without_parts(a.out, b.out, did);
}

/// How many live jobs of `did` there are.
proof fn lemma_live_of(queue: backlog::BacklogView, marks: Marks, did: Seq<char>)
    requires
        positive(marks),
    ensures
        only(live_jobs(queue, marks), did).len() == beyond(
            beyond(
                repo::queued_of(queue.immediate, did),
                mark_at(marks, Level::Immediate, did),
            ) + beyond(
                repo::queued_of(queue.priority, did),
                mark_at(marks, Level::Priority, did),
            ) + beyond(repo::queued_of(queue.normal, did), mark_at(marks, Level::Normal, did)),
            bare_of(marks, did),
        ),
{
    let (im, pr, no) = (Level::Immediate, Level::Priority, Level::Normal);
    lemma_live_levels(queue, marks);
    let a = whole(im, queue.immediate, marks);
    let b = whole(pr, queue.priority, a.marks);
    let c = whole(no, queue.normal, b.marks);
    lemma_whole_level(im, queue.immediate, marks, did);
    lemma_whole_level(pr, queue.priority, a.marks, did);
    lemma_whole_level(no, queue.normal, b.marks, did);
    assert(mark_at(a.marks, pr, did) == mark_at(marks, pr, did));
    assert(mark_at(a.marks, no, did) == mark_at(marks, no, did));
    assert(mark_at(b.marks, no, did) == mark_at(a.marks, no, did));
    lemma_only_parts(a.out + b.out, c.out, did);
    lemma_only_parts(a.out, b.out, did);
}

/// A removal takes the live jobs of its identifier out, over all three levels,
/// and gives how many they were; the other live jobs stay as they are, in order
/// and under their keys. A second removal finds nothing new. A removal that
/// finds nothing changes nothing, unless marks of the identifier said no level:
/// then its jobs are marked in their levels from there on.
pub proof fn law_removal_takes_out_the_jobs(
    queue: backlog::BacklogView,
    marks: Marks,
    did: Seq<char>,
)
    requires
        positive(marks),
        queue.size() <= usize::MAX,
    ensures
        ({
            let after = backlog::marks_of_removal(queue, marks, did);
            let newly = backlog::newly_removed(queue, marks, did);
            &&& live_jobs(queue, after) =~= without(live_jobs(queue, marks), did)
            &&& newly == only(live_jobs(queue, marks), did).len()
            &&& backlog::newly_removed(queue, after, did) == 0
            &&& newly == 0 && bare_of(marks, did) == 0 ==> after == marks
        }),
{
    let after = backlog::marks_of_removal(queue, marks, did);
    lemma_removal(queue, marks, did);
    lemma_live_without(queue, marks, after, did);
    lemma_live_of(queue, marks, did);
    lemma_removal(queue, after, did);
}

/// A removal marks every queued job of its identifier in its level, so that the
/// length of the queue is less by the jobs that were not marked before. The
/// marks of others stay, and every mark still stands for a queued job.
pub proof fn law_removal_marks_every_job(
    queue: backlog::BacklogView,
    marks: Marks,
    did: Seq<char>,
)
    requires
        sound(marks, queue),
        queue.size() <= usize::MAX,
    ensures
        ({
            let after = backlog::marks_of_removal(queue, marks, did);
            let newly = backlog::newly_removed(queue, marks, did);
            &&& forall|level: Level|
                mark_at(after, level, did) == repo::queued_of(#[trigger] queue.at(level), did)
            &&& bare_of(after, did) == 0
            &&& same_but(after, marks, did)
            &&& after.total() == marks.total() + newly
            &&& length(queue, after) == length(queue, marks) - newly
            &&& sound(after, queue)
        }),
{
    let after = backlog::marks_of_removal(queue, marks, did);
    lemma_removal(queue, marks, did);
    assert(covered_for(marks, queue, did));
    assert forall|level: Level| mark_at(after, level, did) == repo::queued_of(
        #[trigger] queue.at(level),
        did,
    ) by {
        match level {
            Level::Immediate => {},
            Level::Priority => {},
            Level::Normal => {},
        }
    }
    assert(queue.at(Level::Immediate) == queue.immediate && queue.at(Level::Priority)
        == queue.priority && queue.at(Level::Normal) == queue.normal);
    assert forall|e: Seq<char>| #[trigger] covered_for(after, queue, e) by {
        assert(covered_for(marks, queue, e));
        if e != did {
            assert(same_for(after, marks, e));
        }
    }
    lemma_uses_all(queue, marks, queue.size());
    lemma_uses_all(queue, after, queue.size());
}

/// Removed jobs stay removed, and no later job of their identifier is swallowed
/// in their place: after a removal of `did`, and whatever is queued later in
/// whichever level, the live jobs of `did` are those that were queued later. A
/// dequeue of any number of jobs hands out the first live jobs and leaves the
/// others live.
pub proof fn law_removed_jobs_stay_removed(
    queue: backlog::BacklogView,
    marks: Marks,
    did: Seq<char>,
    later: backlog::BacklogView,
    count: nat,
)
    requires
        sound(marks, queue),
        queue.size() <= usize::MAX,
    ensures
        ({
            let after = backlog::marks_of_removal(queue, marks, did);
            let more = queue.followed_by(later);
            let d = backlog::dequeued(more, after, count);
            let live = live_jobs(more, after);
            let n = fewer(count, live.len());
            &&& only(live, did) =~= only(all_jobs(later), did)
            &&& d.out =~= live.take(n)
            &&& live_jobs(d.left, d.marks) =~= live.skip(n)
        }),
{
    let (im, pr, no) = (Level::Immediate, Level::Priority, Level::Normal);
    let after = backlog::marks_of_removal(queue, marks, did);
    let more = queue.followed_by(later);
    law_removal_marks_every_job(queue, marks, did);
    assert(queue.at(im) == queue.immediate && queue.at(pr) == queue.priority && queue.at(no)
        == queue.normal);
    law_dequeue_takes_the_first_live_jobs(more, after, count);
    law_marks_over_the_levels(more, after, did);
    lemma_later_ones(im, queue.immediate, later.immediate, did);
    lemma_later_ones(pr, queue.priority, later.priority, did);
    lemma_later_ones(no, queue.normal, later.normal, did);
    let (x, y, z) = (
        jobs_in(im, later.immediate),
        jobs_in(pr, later.priority),
        jobs_in(no, later.normal),
    );
    lemma_only_parts(x + y, z, did);
    lemma_only_parts(x, y, did);
}

/// Past the jobs of `did` that were queued are those that were queued later.
proof fn lemma_later_ones(
    level: Level,
    recs: backlog::Records,
    later: backlog::Records,
    did: Seq<char>,
)
    ensures
        ({
            let all = only(jobs_in(level, recs + later), did);
            all.skip(fewer(repo::queued_of(recs, did), all.len())) =~= only(
                jobs_in(level, later),
                did,
            )
        }),
{
    lemma_jobs_parts(level, recs, later);
    lemma_only_parts(jobs_in(level, recs), jobs_in(level, later), did);
    lemma_only_counts(level, recs, did);
}

/// Draining a level uses up marks of that level alone, where all marks say
/// their level.
proof fn lemma_drained_elsewhere(level: Level, recs: backlog::Records, marks: Marks, room: nat)
    requires
        positive(marks),
        levelled(marks),
    ensures
        ({
            let d = repo::drained(level, recs, marks, room);
            &&& positive(d.marks)
            &&& levelled(d.marks)
            &&& forall|l: Level| l != level ==> #[trigger] same_at(d.marks, marks, l)
        }),
{
    let d = repo::drained(level, recs, marks, room);
    law_marks_drop_the_first_jobs(level, recs, marks, room, Seq::empty());
    assert forall|did: Seq<char>| !d.marks.bare.contains_key(did) by {
        law_marks_drop_the_first_jobs(level, recs, marks, room, did);
        assert(bare_of(d.marks, did) == 0);
    }
    assert forall|l: Level| l != level implies #[trigger] same_at(d.marks, marks, l) by {
        assert forall|did: Seq<char>| #[trigger] mark_at(d.marks, l, did) == mark_at(
            marks,
            l,
            did,
        ) by {
            law_marks_drop_the_first_jobs(level, recs, marks, room, did);
        }
    }
}

/// Draining a level depends on the marks of that level alone, where all marks
/// say their level.
proof fn lemma_drained_same(level: Level, recs: backlog::Records, a: Marks, b: Marks, room: nat)
    requires
        positive(a),
        positive(b),
        levelled(a),
        levelled(b),
        same_at(a, b, level),
    ensures
        repo::drained(level, recs, a, room).out == repo::drained(level, recs, b, room).out,
    decreases recs.len(),
{
    if room > 0 && recs.len() > 0 {
        let rest = recs.skip(1);
        match recs[0].1 {
            None => {
                lemma_drained_same(level, rest, a, b, room);
            },
            Some(job) => {
                let did = job.did@;
                lemma_less(a, level, did);
                lemma_less(b, level, did);
                assert(mark_at(a, level, did) == mark_at(b, level, did));
                if a.stand_for(level, did) {
                    let (p, q) = (a.less(level, did), b.less(level, did));
                    assert forall|d: Seq<char>| #[trigger] mark_at(p, level, d) == mark_at(
                        q,
                        level,
                        d,
                    ) by {
                        assert(mark_at(a, level, d) == mark_at(b, level, d));
                        assert(mark_at(q, level, d) <= mark_at(b, level, d));
                    }
                    lemma_drained_same(level, rest, p, q, room);
                } else {
                    lemma_drained_same(level, rest, a, b, (room - 1) as nat);
                }
            },
        }
    }
}

/// The live jobs level by level, where all marks say their level.
proof fn lemma_live_levelled(queue: backlog::BacklogView, marks: Marks)
    requires
        positive(marks),
        levelled(marks),
    ensures
        live_jobs(queue, marks) =~= whole(Level::Immediate, queue.immediate, marks).out + whole(
            Level::Priority,
            queue.priority,
            marks,
        ).out + whole(Level::Normal, queue.normal, marks).out,
{
    let (im, pr, no) = (Level::Immediate, Level::Priority, Level::Normal);
    lemma_live_levels(queue, marks);
    let a = whole(im, queue.immediate, marks);
    let b = whole(pr, queue.priority, a.marks);
    lemma_drained_elsewhere(im, queue.immediate, marks, queue.immediate.len());
    lemma_drained_elsewhere(pr, queue.priority, a.marks, queue.priority.len());
    assert(same_at(a.marks, marks, pr) && same_at(a.marks, marks, no));
    assert(same_at(b.marks, a.marks, no));
    assert(same_at(b.marks, marks, no)) by {
        assert forall|did: Seq<char>| #[trigger] mark_at(b.marks, no, did) == mark_at(
            marks,
            no,
            did,
        ) by {
            assert(mark_at(a.marks, no, did) == mark_at(marks, no, did));
        }
    }
    lemma_drained_same(pr, queue.priority, a.marks, marks, queue.priority.len());
    lemma_drained_same(no, queue.normal, b.marks, marks, queue.normal.len());
}

/// Without marks, a level gives all its jobs.
proof fn lemma_no_marks_at(level: Level, recs: backlog::Records, marks: Marks)
    requires
        positive(marks),
        levelled(marks),
        forall|did: Seq<char>| #[trigger] mark_at(marks, level, did) == 0,
    ensures
        whole(level, recs, marks).out =~= jobs_in(level, recs),
    decreases recs.len(),
{
    if recs.len() > 0 {
        let rest = recs.skip(1);
        lemma_no_marks_at(level, rest, marks);
        repo::lemma_drained_room(level, rest, marks, recs.len());
        if recs[0].1 is Some {
            lemma_less(marks, level, recs[0].1->0.did@);
            assert(mark_at(marks, level, recs[0].1->0.did@) == 0);
        }
    }
}

/// Records that follow those that the marks of a level stand for are not
/// touched by them.
proof fn lemma_level_more(
    level: Level,
    recs: backlog::Records,
    later: backlog::Records,
    marks: Marks,
)
    requires
        positive(marks),
        levelled(marks),
        forall|did: Seq<char>| #[trigger]
            mark_at(marks, level, did) <= repo::queued_of(recs, did),
    ensures
        whole(level, recs + later, marks).out =~= whole(level, recs, marks).out + jobs_in(
            level,
            later,
        ),
    decreases recs.len(),
{
    let all = recs + later;
    if recs.len() == 0 {
        assert(all =~= later);
        assert forall|did: Seq<char>| #[trigger] mark_at(marks, level, did) == 0 by {
            assert(mark_at(marks, level, did) <= repo::queued_of(recs, did));
        }
        lemma_no_marks_at(level, later, marks);
    } else {
        let rest = recs.skip(1);
        assert(all.skip(1) =~= rest + later);
        match recs[0].1 {
            None => {
                assert forall|did: Seq<char>| #[trigger]
                    mark_at(marks, level, did) <= repo::queued_of(rest, did) by {
                    assert(mark_at(marks, level, did) <= repo::queued_of(recs, did));
                }
                lemma_level_more(level, rest, later, marks);
                repo::lemma_drained_room(level, rest, marks, recs.len());
                repo::lemma_drained_room(level, rest + later, marks, all.len());
            },
            Some(job) => {
                let d = job.did@;
                lemma_less(marks, level, d);
                if marks.stand_for(level, d) {
                    let less = marks.less(level, d);
                    assert forall|did: Seq<char>| #[trigger]
                        mark_at(less, level, did) <= repo::queued_of(rest, did) by {
                        assert(mark_at(marks, level, did) <= repo::queued_of(recs, did));
                    }
                    lemma_level_more(level, rest, later, less);
                    repo::lemma_drained_room(level, rest, less, recs.len());
                    repo::lemma_drained_room(level, rest + later, less, all.len());
                } else {
                    assert forall|did: Seq<char>| #[trigger]
                        mark_at(marks, level, did) <= repo::queued_of(rest, did) by {
                        assert(mark_at(marks, level, did) <= repo::queued_of(recs, did));
                    }
                    lemma_level_more(level, rest, later, marks);
                    let one = seq![(repo::full_key(level, recs[0].0), job)];
                    assert(all[0] == recs[0]);
                    assert(one + (whole(level, rest, marks).out + jobs_in(level, later)) =~= (one
                        + whole(level, rest, marks).out) + jobs_in(level, later));
                }
            },
        }
    }
}

/// What is queued later is not touched by the marks that there are, where all
/// of them say their level: every later job is live, behind the live jobs of
/// its level.
pub proof fn law_later_jobs_are_live(
    queue: backlog::BacklogView,
    marks: Marks,
    later: backlog::BacklogView,
)
    requires
        sound(marks, queue),
        levelled(marks),
    ensures
        ({
            let live = |level: Level| whole(level, queue.at(level), marks).out + jobs_in(
                level,
                later.at(level),
            );
            live_jobs(queue.followed_by(later), marks) =~= live(Level::Immediate) + live(
                Level::Priority,
            ) + live(Level::Normal)
        }),
{
    let more = queue.followed_by(later);
    lemma_live_levelled(more, marks);
    assert forall|level: Level| #[trigger] queue.at(level) == queue.at(level) implies whole(
        level,
        queue.at(level) + later.at(level),
        marks,
    ).out == whole(level, queue.at(level), marks).out + jobs_in(level, later.at(level)) by {
        assert forall|did: Seq<char>| #[trigger] mark_at(marks, level, did) <= repo::queued_of(
            queue.at(level),
            did,
        ) by {
            assert(covered_for(marks, queue, did));
        }
        lemma_level_more(level, queue.at(level), later.at(level), marks);
    }
    assert(queue.at(Level::Immediate) == queue.immediate && queue.at(Level::Priority)
        == queue.priority && queue.at(Level::Normal) == queue.normal);
}

/// A file that was written for `marks` opens again, and with these marks: what
/// was removed stays removed.
pub proof fn law_marks_survive_reopening(
    marks: Marks,
    bytes: Vec<u8>,
    reopened: Result<RepoBackfillQueue, WintermuteError>,
)
    requires
        repo::marks_in(bytes@) == Some(marks),
        repo::opens(FileRead::Bytes(bytes), reopened),
    ensures
        reopened is Ok,
        reopened->Ok_0.wf(),
        reopened->Ok_0@ == marks,
{
}

/// The marks that a file holds. One map of identifiers holds marks without a
/// level, and none of a level. A list of four maps holds those without a level,
/// then those of the three levels in the order in which they are drained.
/// Anything else holds no marks that can be used.
pub proof fn law_marks_of_a_file(bytes: Seq<u8>)
    ensures
        cbor::cbor_counts(bytes) matches Some(map) ==> {
            &&& repo::marks_in(bytes) is Some
            &&& repo::marks_in(bytes)->0.bare == map
            &&& forall|level: Level, did: Seq<char>|
                !(#[trigger] repo::marks_in(bytes)->0.at(level).contains_key(did))
        },
        cbor::cbor_counts(bytes) is None ==> {
            &&& repo::marks_in(bytes) is Some <==> cbor::cbor_maps(bytes) is Some
                && cbor::cbor_maps(bytes)->0.len() == 4
            &&& repo::marks_in(bytes) matches Some(marks) ==> cbor::cbor_maps(bytes)->0 =~= seq![
                marks.bare,
                marks.at(Level::Immediate),
                marks.at(Level::Priority),
                marks.at(Level::Normal),
            ]
        },
{
}

/// A dequeue accounts for every record: each was handed out, dropped, or is
/// left, and of each level the last ones are left, as they were. It leaves
/// something only if it handed out as many jobs as it was asked for, and never
/// hands out more.
pub proof fn law_dequeue_accounts_for_every_record(
    queue: backlog::BacklogView,
    marks: Marks,
    count: nat,
    level: Level,
)
    ensures
        ({
            let d = backlog::dequeued(queue, marks, count);
            let (was, left) = (queue.at(level), d.left.at(level));
            &&& d.out.len() + d.dropped + d.left.size() == queue.size()
            &&& d.out.len() <= count
            &&& d.left.size() > 0 ==> d.out.len() == count
            &&& left.len() <= was.len()
            &&& left =~= was.skip(was.len() - left.len())
        }),
{
    let (im, pr, no) = (Level::Immediate, Level::Priority, Level::Normal);
    let a = repo::drained(im, queue.immediate, marks, count);
    let room = (count - a.out.len()) as nat;
    repo::lemma_drained_stops(im, queue.immediate, marks, count);
    let b = repo::drained(pr, queue.priority, a.marks, room);
    let room2 = (room - b.out.len()) as nat;
    repo::lemma_drained_stops(pr, queue.priority, a.marks, room);
    let c = repo::drained(no, queue.normal, b.marks, room2);
    repo::lemma_drained_stops(no, queue.normal, b.marks, room2);
    let d = backlog::dequeued(queue, marks, count);
    assert(d.left.immediate == a.left);
    assert(d.left.priority == b.left);
    assert(d.left.normal == c.left);
}

} // verus!
