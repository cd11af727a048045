//! The queue of repositories to backfill: three levels, each its own log, and
//! a map of the identifiers whose jobs an operator asked to remove. A log
//! cannot delete from the middle, so a removal is recorded and applied when
//! the job reaches the head.
//!
//! A removal is recorded as a mark for each level and identifier: how many of
//! the first queued jobs of that identifier in that level are to be dropped.
//! Jobs of a level leave it in arrival order, so that the marks meet the jobs
//! that were queued when they were made, and no job that was queued later.

use vstd::prelude::*;

use crate::cbor;
use crate::cbor::{decode_counts, decode_maps, encode_maps};
use crate::error::WintermuteError;
use crate::files::FileRead;
use crate::name_map;
use crate::name_map::NameMap;

verus! {

/// A repository to backfill.
#[derive(Debug, PartialEq, Eq)]
pub struct BackfillJob {
    pub did: String,
    pub retry_count: u32,
    pub priority: bool,
}

impl Clone for BackfillJob {
    fn clone(&self) -> (job: BackfillJob)
        ensures
            job == *self,
    {
        BackfillJob {
            did: self.did.clone(),
            retry_count: self.retry_count,
            priority: self.priority,
        }
    }
}

/// The levels of the queue, in the order in which they are drained.
#[derive(Clone, Copy, Debug, PartialEq, Eq, Structural)]
pub enum Level {
    Immediate,
    Priority,
    Normal,
}

impl Level {
    /// The number of the level.
    pub open spec fn number(self) -> u8 {
        match self {
            Level::Immediate => 0,
            Level::Priority => 1,
            Level::Normal => 2,
        }
    }

    /// The number of the level.
    pub fn to_number(self) -> (n: u8)
        ensures
            n == self.number(),
    {
        match self {
            Level::Immediate => 0,
            Level::Priority => 1,
            Level::Normal => 2,
        }
    }

    /// The level that is drained after this one.
    pub open spec fn following(self) -> Option<Level> {
        match self {
            Level::Immediate => Some(Level::Priority),
            Level::Priority => Some(Level::Normal),
            Level::Normal => None,
        }
    }

    /// The level that is drained after this one.
    pub fn next(self) -> (level: Option<Level>)
        ensures
            level == self.following(),
    {
        match self {
            Level::Immediate => Some(Level::Priority),
            Level::Priority => Some(Level::Normal),
            Level::Normal => None,
        }
    }
}

/// A record of a level: its key, and the job in it unless that could not be
/// decoded.
pub type Entry = (Vec<u8>, Option<BackfillJob>);

/// A job that is handed out, with its key.
pub type Job = (Vec<u8>, BackfillJob);

/// Records with their keys as sequences.
pub open spec fn entries_of(entries: Seq<Entry>) -> Seq<(Seq<u8>, Option<BackfillJob>)> {
    entries.map_values(|e: Entry| (e.0@, e.1))
}

/// Jobs with their keys as sequences.
pub open spec fn jobs_of(jobs: Seq<Job>) -> Seq<(Seq<u8>, BackfillJob)> {
    jobs.map_values(|j: Job| (j.0@, j.1))
}

/// How many queued jobs are to be dropped: of each level and identifier the
/// first so many, and of each identifier the first so many in whichever level,
/// for marks that say no level. The latter come from a file that holds
/// identifiers alone; a removal makes none.
#[verifier::ext_equal]
pub struct Marks {
    pub immediate: Map<Seq<char>, u64>,
    pub priority: Map<Seq<char>, u64>,
    pub normal: Map<Seq<char>, u64>,
    pub bare: Map<Seq<char>, u64>,
}

impl Marks {
    /// No marks.
    pub open spec fn none() -> Marks {
        Marks {
            immediate: Map::empty(),
            priority: Map::empty(),
            normal: Map::empty(),
            bare: Map::empty(),
        }
    }

    /// The marks of a level.
    pub open spec fn at(self, level: Level) -> Map<Seq<char>, u64> {
        match level {
            Level::Immediate => self.immediate,
            Level::Priority => self.priority,
            Level::Normal => self.normal,
        }
    }

    /// The marks with those of a level replaced.
    pub open spec fn with(self, level: Level, map: Map<Seq<char>, u64>) -> Marks {
        match level {
            Level::Immediate => Marks { immediate: map, ..self },
            Level::Priority => Marks { priority: map, ..self },
            Level::Normal => Marks { normal: map, ..self },
        }
    }

    /// How many jobs are marked.
    pub open spec fn total(self) -> nat {
        name_map::total(self.bare) + name_map::total(self.immediate) + name_map::total(
            self.priority,
        ) + name_map::total(self.normal)
    }

    /// Whether a job of `did` in `level` is dropped.
    pub open spec fn stand_for(self, level: Level, did: Seq<char>) -> bool {
        self.at(level).contains_key(did) || self.bare.contains_key(did)
    }

    /// The marks after a job of `did` in `level` was dropped on account of
    /// them: one of its level is used up, or else one that says no level.
    pub open spec fn less(self, level: Level, did: Seq<char>) -> Marks {
        if self.at(level).contains_key(did) {
            self.with(level, used_up(self.at(level), did))
        } else {
            Marks { bare: used_up(self.bare, did), ..self }
        }
    }
}

/// The marks of `did` after one was used up. The last one goes with its job.
pub open spec fn used_up(marks: Map<Seq<char>, u64>, did: Seq<char>) -> Map<Seq<char>, u64> {
    if marks[did] <= 1 {
        marks.remove(did)
    } else {
        marks.insert(did, (marks[did] - 1) as u64)
    }
}

/// The key of a record within the whole queue: its level, then its key there.
pub open spec fn full_key(level: Level, key: Seq<u8>) -> Seq<u8> {
    seq![level.number()] + key
}

/// What draining a level gives.
#[verifier::ext_equal]
pub struct Drained {
    /// The jobs that are handed out.
    pub out: Seq<(Seq<u8>, BackfillJob)>,
    /// How many jobs were dropped.
    pub dropped: nat,
    /// Whether a mark was used.
    pub changed: bool,
    /// The marks that are left.
    pub marks: Marks,
    /// The records that are left.
    pub left: Seq<(Seq<u8>, Option<BackfillJob>)>,
}

/// Drains `recs` from the front until there is no room for another job. A
/// record that cannot be decoded is dropped, and so is a job that a mark stands
/// for, which uses the mark up.
pub open spec fn drained(
    level: Level,
    recs: Seq<(Seq<u8>, Option<BackfillJob>)>,
    marks: Marks,
    room: nat,
) -> Drained
    decreases recs.len(),
{
    if room == 0 || recs.len() == 0 {
        Drained { out: Seq::empty(), dropped: 0, changed: false, marks, left: recs }
    } else {
        let rest = recs.skip(1);
        match recs[0].1 {
            None => {
                let d = drained(level, rest, marks, room);
                Drained { dropped: d.dropped + 1, ..d }
            },
            Some(job) => if marks.stand_for(level, job.did@) {
                let d = drained(level, rest, marks.less(level, job.did@), room);
                Drained { dropped: d.dropped + 1, changed: true, ..d }
            } else {
                let d = drained(level, rest, marks, (room - 1) as nat);
                Drained { out: seq![(full_key(level, recs[0].0), job)] + d.out, ..d }
            },
        }
    }
}

/// Draining in two parts is draining at once.
pub proof fn lemma_drained_parts(
    level: Level,
    recs: Seq<(Seq<u8>, Option<BackfillJob>)>,
    marks: Marks,
    room: nat,
    i: nat,
)
    requires
        i <= recs.len(),
    ensures
        ({
            let d = drained(level, recs, marks, room);
            let a = drained(level, recs.take(i as int), marks, room);
            let b = drained(level, recs.skip(i as int), a.marks, (room - a.out.len()) as nat);
            &&& a.out.len() <= room
            &&& d.out =~= a.out + b.out
            &&& d.dropped == a.dropped + b.dropped
            &&& d.changed == (a.changed || b.changed)
            &&& d.marks == b.marks
            &&& a.left.len() == 0 ==> d.left == b.left
        }),
    decreases i,
{
    let part = recs.take(i as int);
    let d = drained(level, recs, marks, room);
    if i == 0 {
        assert(recs.skip(0) =~= recs);
        assert(Seq::<(Seq<u8>, BackfillJob)>::empty() + d.out =~= d.out);
    } else if room == 0 {
        assert(Seq::<(Seq<u8>, BackfillJob)>::empty() + d.out =~= d.out);
    } else {
        let rest = recs.skip(1);
        assert(part.skip(1) =~= rest.take(i - 1));
        assert(recs.skip(i as int) =~= rest.skip(i - 1));
        assert(part[0] == recs[0]);
        match recs[0].1 {
            None => {
                lemma_drained_parts(level, rest, marks, room, (i - 1) as nat);
            },
            Some(job) => if marks.stand_for(level, job.did@) {
                lemma_drained_parts(level, rest, marks.less(level, job.did@), room, (i - 1) as nat);
            } else {
                lemma_drained_parts(level, rest, marks, (room - 1) as nat, (i - 1) as nat);
                let first = seq![(full_key(level, recs[0].0), job)];
                let b = drained(level, rest.take(i - 1), marks, (room - 1) as nat);
                let c = drained(
                    level,
                    rest.skip(i - 1),
                    b.marks,
                    (room - 1 - b.out.len()) as nat,
                );
                assert(first + (b.out + c.out) =~= (first + b.out) + c.out);
            },
        }
    }
}

/// Room for more jobs than there are records makes no difference.
pub proof fn lemma_drained_room(
    level: Level,
    recs: Seq<(Seq<u8>, Option<BackfillJob>)>,
    marks: Marks,
    room: nat,
)
    requires
        recs.len() <= room,
    ensures
        drained(level, recs, marks, room) =~= drained(level, recs, marks, recs.len()),
        drained(level, recs, marks, room).left.len() == 0,
    decreases recs.len(),
{
    if recs.len() > 0 {
        let rest = recs.skip(1);
        match recs[0].1 {
            None => {
                lemma_drained_room(level, rest, marks, room);
                lemma_drained_room(level, rest, marks, recs.len());
            },
            Some(job) => if marks.stand_for(level, job.did@) {
                lemma_drained_room(level, rest, marks.less(level, job.did@), room);
                lemma_drained_room(level, rest, marks.less(level, job.did@), recs.len());
            } else {
                lemma_drained_room(level, rest, marks, (room - 1) as nat);
            },
        }
    }
}

/// What is left after a level was drained: nothing, or the room is used up.
pub proof fn lemma_drained_stops(
    level: Level,
    recs: Seq<(Seq<u8>, Option<BackfillJob>)>,
    marks: Marks,
    room: nat,
)
    ensures
        ({
            let d = drained(level, recs, marks, room);
            &&& d.out.len() <= room
            &&& d.left.len() > 0 ==> d.out.len() == room
            &&& d.left.len() <= recs.len()
            &&& d.left =~= recs.skip(recs.len() - d.left.len())
            &&& d.out.len() + d.dropped == recs.len() - d.left.len()
        }),
    decreases recs.len(),
{
    if room == 0 || recs.len() == 0 {
        assert(recs.skip(0) =~= recs);
    } else {
        let rest = recs.skip(1);
        match recs[0].1 {
            None => {
                lemma_drained_stops(level, rest, marks, room);
            },
            Some(job) => if marks.stand_for(level, job.did@) {
                lemma_drained_stops(level, rest, marks.less(level, job.did@), room);
            } else {
                lemma_drained_stops(level, rest, marks, (room - 1) as nat);
            },
        }
        let d = drained(level, recs, marks, room);
        assert(rest.skip(rest.len() - d.left.len()) =~= recs.skip(recs.len() - d.left.len()));
    }
}

/// With room, a level that has records gives one up.
pub proof fn lemma_drained_takes(
    level: Level,
    recs: Seq<(Seq<u8>, Option<BackfillJob>)>,
    marks: Marks,
    room: nat,
)
    requires
        room > 0,
        recs.len() > 0,
    ensures
        drained(level, recs, marks, room).left.len() < recs.len(),
{
    let rest = recs.skip(1);
    match recs[0].1 {
        None => {
            lemma_drained_stops(level, rest, marks, room);
        },
        Some(job) => if marks.stand_for(level, job.did@) {
            lemma_drained_stops(level, rest, marks.less(level, job.did@), room);
        } else {
            lemma_drained_stops(level, rest, marks, (room - 1) as nat);
        },
    }
}

/// Whether a record holds a job of `did`.
pub open spec fn is_of(rec: (Seq<u8>, Option<BackfillJob>), did: Seq<char>) -> bool {
    rec.1 is Some && rec.1->0.did@ == did
}

/// How many of the records hold a job of `did`.
pub open spec fn queued_of(recs: Seq<(Seq<u8>, Option<BackfillJob>)>, did: Seq<char>) -> nat
    decreases recs.len(),
{
    if recs.len() == 0 {
        0
    } else {
        (if is_of(recs[0], did) {
            1nat
        } else {
            0
        }) + queued_of(recs.skip(1), did)
    }
}

/// The jobs of records in two parts.
pub proof fn lemma_queued_parts(
    a: Seq<(Seq<u8>, Option<BackfillJob>)>,
    b: Seq<(Seq<u8>, Option<BackfillJob>)>,
    did: Seq<char>,
)
    ensures
        queued_of(a + b, did) == queued_of(a, did) + queued_of(b, did),
    decreases a.len(),
{
    if a.len() == 0 {
        assert(a + b =~= b);
    } else {
        assert((a + b).skip(1) =~= a.skip(1) + b);
        lemma_queued_parts(a.skip(1), b, did);
    }
}

/// How many jobs of one identifier were found in each level.
#[derive(Clone, Copy, Debug, PartialEq, Eq, Structural)]
pub struct Found {
    pub immediate: usize,
    pub priority: usize,
    pub normal: usize,
}

impl Found {
    /// Those that were found in `level`.
    pub open spec fn at(self, level: Level) -> usize {
        match level {
            Level::Immediate => self.immediate,
            Level::Priority => self.priority,
            Level::Normal => self.normal,
        }
    }
}

/// How many jobs of `did` are marked.
pub open spec fn count_of(marks: Map<Seq<char>, u64>, did: Seq<char>) -> usize {
    if marks.contains_key(did) {
        at_most_usize(marks[did] as int)
    } else {
        0
    }
}

/// How many of the jobs of `did` that were found no mark stands for.
pub open spec fn unmarked(marks: Marks, did: Seq<char>, found: Found) -> usize {
    live(
        at_most_usize(
            live(found.immediate, count_of(marks.immediate, did)) + live(
                found.priority,
                count_of(marks.priority, did),
            ) + live(found.normal, count_of(marks.normal, did)),
        ),
        count_of(marks.bare, did),
    )
}

/// The marks of a level once the first `count` jobs of `did` are marked, and no
/// other jobs of it.
pub open spec fn marked(marks: Map<Seq<char>, u64>, did: Seq<char>, count: usize) -> Map<
    Seq<char>,
    u64,
> {
    if count > 0 {
        marks.insert(did, count as u64)
    } else {
        marks.remove(did)
    }
}

/// The marks once the first jobs of `did` are marked, as many as were found in
/// each level. They take the place of marks that say no level.
pub open spec fn all_marked(marks: Marks, did: Seq<char>, found: Found) -> Marks {
    Marks {
        immediate: marked(marks.immediate, did, found.immediate),
        priority: marked(marks.priority, did, found.priority),
        normal: marked(marks.normal, did, found.normal),
        bare: marks.bare.remove(did),
    }
}

/// The marks of an operator: how many queued jobs of each level and identifier
/// are to be dropped, and of each identifier in whichever level.
#[derive(Debug)]
pub struct RepoBackfillQueue {
    pub immediate: NameMap<u64>,
    pub priority: NameMap<u64>,
    pub normal: NameMap<u64>,
    pub bare: NameMap<u64>,
}

impl View for RepoBackfillQueue {
    type V = Marks;

    open spec fn view(&self) -> Marks {
        Marks {
            immediate: self.immediate@,
            priority: self.priority@,
            normal: self.normal@,
            bare: self.bare@,
        }
    }
}

/// The marks that a file holds. A file of identifiers with their counts, which
/// is one map, holds marks that say no level. A list of four maps holds such
/// marks first, then those of the levels. No bytes are both.
pub open spec fn marks_in(bytes: Seq<u8>) -> Option<Marks> {
    match cbor::cbor_counts(bytes) {
        Some(bare) => Some(Marks { bare, ..Marks::none() }),
        None => match cbor::cbor_maps(bytes) {
            Some(maps) => if maps.len() == 4 {
                Some(
                    Marks { bare: maps[0], immediate: maps[1], priority: maps[2], normal: maps[3] },
                )
            } else {
                None
            },
            None => None,
        },
    }
}

/// `out` is what the file of marks is opened as: with the marks that it holds,
/// without any if it is missing, and not at all if its bytes hold no marks or
/// could not be read.
pub open spec fn opens(file: FileRead, out: Result<RepoBackfillQueue, WintermuteError>) -> bool {
    match file {
        FileRead::Bytes(bytes) => match out {
            Ok(queue) => queue.wf() && marks_in(bytes@) == Some(queue@),
            Err(error) => marks_in(bytes@) is None && error is Serialization,
        },
        FileRead::Missing => out is Ok && out->Ok_0.wf() && out->Ok_0@ =~= Marks::none(),
        FileRead::Failed(error) => out == Err::<RepoBackfillQueue, WintermuteError>(
            WintermuteError::Io(error),
        ),
    }
}

/// The marks that the maps of a list hold, as `marks_in` says.
pub fn marks_of_maps(maps: Vec<NameMap<u64>>) -> (out: Option<RepoBackfillQueue>)
    requires
        forall|i: int| 0 <= i < maps@.len() ==> (#[trigger] maps@[i]).wf(),
    ensures
        match out {
            Some(queue) => {
                &&& maps@.len() == 4
                &&& queue.wf()
                &&& queue@ == (Marks {
                    bare: maps@[0]@,
                    immediate: maps@[1]@,
                    priority: maps@[2]@,
                    normal: maps@[3]@,
                })
            },
            None => maps@.len() != 4,
        },
{
    let mut maps: Vec<NameMap<u64>> = maps;
    if maps.len() != 4 {
        return None;
    }
    let normal: NameMap<u64> = maps.remove(3);
    let priority: NameMap<u64> = maps.remove(2);
    let immediate: NameMap<u64> = maps.remove(1);
    let bare: NameMap<u64> = maps.remove(0);
    Some(RepoBackfillQueue { immediate, priority, normal, bare })
}

/// Uses up one of the `count` marks of `did`.
fn use_one(marks: &mut NameMap<u64>, did: &str, count: u64)
    requires
        old(marks).wf(),
        old(marks)@.contains_key(did@),
        old(marks)@[did@] == count,
    ensures
        final(marks).wf(),
        final(marks)@ =~= used_up(old(marks)@, did@),
{
    if count <= 1 {
        marks.remove(did);
    } else {
        marks.insert(did, count - 1);
    }
}

/// How many jobs of `did` are marked.
fn count_in(marks: &NameMap<u64>, did: &str) -> (count: usize)
    requires
        marks.wf(),
    ensures
        count == count_of(marks@, did@),
{
    match marks.get(did) {
        Some(count) => if count <= usize::MAX as u64 {
            count as usize
        } else {
            usize::MAX
        },
        None => 0,
    }
}

/// Marks the first `count` jobs of `did`.
fn mark_in(marks: &mut NameMap<u64>, did: &str, count: usize)
    requires
        old(marks).wf(),
    ensures
        final(marks).wf(),
        final(marks)@ =~= marked(old(marks)@, did@, count),
{
    if count > 0 {
        marks.insert(did, count as u64);
    } else {
        marks.remove(did);
    }
}

impl RepoBackfillQueue {
    pub open spec fn wf(&self) -> bool {
        self.immediate.wf() && self.priority.wf() && self.normal.wf() && self.bare.wf()
    }

    /// A queue without marks.
    pub fn new() -> (queue: RepoBackfillQueue)
        ensures
            queue.wf(),
            queue@ =~= Marks::none(),
    {
        RepoBackfillQueue {
            immediate: NameMap::new(),
            priority: NameMap::new(),
            normal: NameMap::new(),
            bare: NameMap::new(),
        }
    }

    /// The marks that the file holds. A file that is missing holds none.
    pub fn open(file: FileRead) -> (out: Result<RepoBackfillQueue, WintermuteError>)
        ensures
            opens(file, out),
    {
        match file {
            FileRead::Bytes(bytes) => match decode_counts(bytes.as_slice()) {
                Ok(bare) => Ok(
                    RepoBackfillQueue { bare, ..RepoBackfillQueue::new() },
                ),
                Err(error) => match decode_maps(bytes.as_slice()) {
                    Ok(maps) => match marks_of_maps(maps) {
                        Some(queue) => Ok(queue),
                        None => Err(error),
                    },
                    Err(_) => Err(error),
                },
            },
            FileRead::Missing => Ok(RepoBackfillQueue::new()),
            FileRead::Failed(error) => Err(WintermuteError::Io(error)),
        }
    }

    /// What the file is to hold.
    pub fn persist_cancelled(&self) -> (out: Result<Vec<u8>, WintermuteError>)
        requires
            self.wf(),
        ensures
            out is Ok,
            marks_in(out->Ok_0@) == Some(self@),
    {
        let maps: Vec<NameMap<u64>> = vec![
            self.bare.copied(),
            self.immediate.copied(),
            self.priority.copied(),
            self.normal.copied(),
        ];
        encode_maps(maps)
    }

    /// Uses up the mark that a job of `did` in `level` is dropped for, if there
    /// is one.
    fn use_up(&mut self, level: Level, did: &String) -> (marked: bool)
        requires
            old(self).wf(),
        ensures
            final(self).wf(),
            marked == old(self)@.stand_for(level, did@),
            final(self)@ =~= if marked {
                old(self)@.less(level, did@)
            } else {
                old(self)@
            },
    {
        let mark: Option<u64> = match level {
            Level::Immediate => self.immediate.get(did.as_str()),
            Level::Priority => self.priority.get(did.as_str()),
            Level::Normal => self.normal.get(did.as_str()),
        };
        if let Some(count) = mark {
            match level {
                Level::Immediate => use_one(&mut self.immediate, did.as_str(), count),
                Level::Priority => use_one(&mut self.priority, did.as_str(), count),
                Level::Normal => use_one(&mut self.normal, did.as_str(), count),
            }
            return true;
        }
        match self.bare.get(did.as_str()) {
            Some(count) => {
                use_one(&mut self.bare, did.as_str(), count);
                true
            },
            None => false,
        }
    }

    /// How many of the `found` jobs of `did` in the levels no mark stands for.
    pub fn unmarked(&self, did: &str, found: &Found) -> (newly: usize)
        requires
            self.wf(),
        ensures
            newly == unmarked(self@, did@, *found),
    {
        let immediate: usize = found.immediate.saturating_sub(count_in(&self.immediate, did));
        let priority: usize = found.priority.saturating_sub(count_in(&self.priority, did));
        let normal: usize = found.normal.saturating_sub(count_in(&self.normal, did));
        immediate.saturating_add(priority).saturating_add(normal).saturating_sub(
            count_in(&self.bare, did),
        )
    }

    /// Marks the first `found` jobs of `did` in the levels.
    pub fn mark(&mut self, did: &str, found: &Found)
        requires
            old(self).wf(),
        ensures
            final(self).wf(),
            final(self)@ =~= all_marked(old(self)@, did@, *found),
    {
        mark_in(&mut self.immediate, did, found.immediate);
        mark_in(&mut self.priority, did, found.priority);
        mark_in(&mut self.normal, did, found.normal);
        self.bare.remove(did);
    }

    /// How many jobs are marked.
    pub fn total(&self) -> (total: usize)
        requires
            self.wf(),
        ensures
            total == at_most_usize(self@.total() as int),
    {
        self.bare.total().saturating_add(self.immediate.total()).saturating_add(
            self.priority.total(),
        ).saturating_add(self.normal.total())
    }

    /// A copy of the marks.
    pub fn copied(&self) -> (queue: RepoBackfillQueue)
        requires
            self.wf(),
        ensures
            queue.wf(),
            queue@ =~= self@,
    {
        RepoBackfillQueue {
            immediate: self.immediate.copied(),
            priority: self.priority.copied(),
            normal: self.normal.copied(),
            bare: self.bare.copied(),
        }
    }

    /// Sorts a batch of a level into the jobs to hand out, which are added to
    /// `out`, and those to drop, until there is no room for another job.
    /// Returns how many were dropped and whether a mark was used.
    pub fn settle(
        &mut self,
        level: Level,
        batch: Vec<Entry>,
        room: usize,
        out: &mut Vec<Job>,
    ) -> (r: (usize, bool))
        requires
            old(self).wf(),
        ensures
            final(self).wf(),
            ({
                let d = drained(level, entries_of(batch@), old(self)@, room as nat);
                &&& jobs_of(final(out)@) =~= jobs_of(old(out)@) + d.out
                &&& final(self)@ == d.marks
                &&& r.0 == d.dropped
                &&& r.1 == d.changed
            }),
    {
        let mut dropped: usize = 0;
        let mut changed: bool = false;
        let mut left: usize = room;
        let ghost all = batch@;
        let ghost recs = entries_of(batch@);
        let ghost marks = self@;
        let ghost start = jobs_of(out@);
        let total: usize = batch.len();
        assert(recs.take(0) =~= Seq::empty());
        assert(start + Seq::<(Seq<u8>, BackfillJob)>::empty() =~= start);
        for entry in it: batch
            invariant
                self.wf(),
                it.seq() == all,
                recs == entries_of(all),
                total == all.len(),
                dropped <= it.index(),
                ({
                    let d = drained(level, recs.take(it.index() as int), marks, room as nat);
                    &&& jobs_of(out@) =~= start + d.out
                    &&& self@ == d.marks
                    &&& dropped == d.dropped
                    &&& changed == d.changed
                    &&& d.out.len() <= room
                    &&& left == room - d.out.len()
                }),
        {
            let ghost i = it.index() as int;
            let ghost before = jobs_of(out@);
            let ghost one = recs.take(i + 1);
            let ghost a = drained(level, recs.take(i), marks, room as nat);
            proof {
                assert(entry == all[i]);
                lemma_drained_parts(level, one, marks, room as nat, i as nat);
                assert(one.take(i) =~= recs.take(i));
                let rest = one.skip(i);
                assert(rest =~= seq![recs[i]]);
                assert(rest.skip(1) =~= Seq::empty());
                reveal_with_fuel(drained, 2);
                assert(a.out + Seq::<(Seq<u8>, BackfillJob)>::empty() =~= a.out);
            }
            let (key, job) = entry;
            if left > 0 {
                match job {
                    None => {
                        dropped = dropped + 1;
                    },
                    Some(job) => {
                        if self.use_up(level, &job.did) {
                            changed = true;
                            dropped = dropped + 1;
                        } else {
                            let ghost short = key@;
                            let mut full: Vec<u8> = vec![level.to_number()];
                            let mut rest: Vec<u8> = key;
                            full.append(&mut rest);
                            proof {
                                assert(full@ =~= full_key(level, short));
                                let last = seq![(full_key(level, short), job)];
                                assert(last + Seq::<(Seq<u8>, BackfillJob)>::empty() =~= last);
                                assert((start + a.out) + last =~= start + (a.out + last));
                            }
                            out.push((full, job));
                            left = left - 1;
                            assert(jobs_of(out@) =~= before.push((full@, job)));
                        }
                    },
                }
            }
        }
        assert(recs.take(recs.len() as int) =~= recs);
        (dropped, changed)
    }

    /// How many jobs are queued, not counting those that were cancelled, with
    /// so many records in the three levels.
    pub fn len(&self, immediate: usize, priority: usize, normal: usize) -> (len: usize)
        requires
            self.wf(),
        ensures
            len == live(
                at_most_usize(immediate + priority + normal),
                at_most_usize(self@.total() as int),
            ),
    {
        let queued: usize = immediate.saturating_add(priority).saturating_add(normal);
        queued.saturating_sub(self.total())
    }
}

/// `n`, or the largest number that fits.
pub open spec fn at_most_usize(n: int) -> usize {
    if n <= usize::MAX {
        n as usize
    } else {
        usize::MAX
    }
}

/// The jobs among `queued` that are not cancelled.
pub open spec fn live(queued: usize, cancelled: usize) -> usize {
    if cancelled <= queued {
        (queued - cancelled) as usize
    } else {
        0
    }
}

} // verus!
