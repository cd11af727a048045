//! What opening and creating the storage promise, and its small files.

use vstd::prelude::*;

use crate::cbor;
use crate::error::WintermuteError;
use crate::files;
use crate::files::{AtomicPhase, AtomicWrite, FileRead};
use crate::names;
use crate::repo;
use crate::repo::{Level, Marks};
use crate::storage;
use crate::storage::{LogId, Storage};
use crate::storage_open;
use crate::storage_open::{
    NewEvent, NewPhase, NewStep, NewStorage, OpenActionView, OpenEvent, OpenStep, OpenStorage,
    Opening, CURSORS_AT, MARKS_AT,
};

verus! {

// ---- opening ----

/// What an action comes to in a directory with these files, where nothing
/// fails but the reading of a file.
pub open spec fn comes_to(
    action: OpenActionView,
    files: spec_fn(Seq<char>) -> FileRead,
) -> OpenEvent {
    match action {
        OpenActionView::ReadFile { path } => OpenEvent::File(files(path)),
        _ => OpenEvent::Performed,
    }
}

/// The opening ended, and each of its actions came to what it comes to in a
/// directory with these files.
pub open spec fn opens_in(run: Opening, files: spec_fn(Seq<char>) -> FileRead) -> bool {
    &&& run.runs()
    &&& run.asked.len() > 0
    &&& run.events[0] is Start
    &&& !(run.asked.last() is Do)
    &&& forall|i: int|
        0 <= i < run.asked.len() - 1 ==> (#[trigger] run.asked[i]) is Do && run.events[i + 1]
            == comes_to(run.asked[i]->Do_0@, files)
}

/// The step asks for `action`.
pub open spec fn asks(step: OpenStep, action: OpenActionView) -> bool {
    step is Do && step->Do_0@ == action
}

/// How an opening stands before its step number `n`, where the files can be
/// used.
proof fn lemma_opening(
    run: Opening,
    files: spec_fn(Seq<char>) -> FileRead,
    marks: Marks,
    n: nat,
)
    requires
        opens_in(run, files),
        n <= MARKS_AT + 1 || storage_open::keeps_marks(
            files("repo_backfill/cancelled.cbor"@),
            marks,
        ),
        n <= CURSORS_AT + 1,
    ensures
        n < run.asked.len(),
        run.ops[n as int].at == n,
        !run.ops[n as int].over,
        n > MARKS_AT + 1 ==> run.ops[n as int].marks@ == marks,
        forall|i: int|
            0 <= i < n ==> asks(#[trigger] run.asked[i], storage_open::plan(i as nat)),
    decreases n,
{
    if n > 0 {
        let m = (n - 1) as nat;
        lemma_opening(run, files, marks, m);
        assert(storage_open::steps(
            run.ops[m as int],
            run.events[m as int],
            run.ops[m as int + 1],
            run.asked[m as int],
        ));
        if m > 0 {
            assert(asks(run.asked[m as int - 1], storage_open::plan((m - 1) as nat)));
        }
    }
}

/// An opening in a directory whose files can be used succeeds. The storage has
/// the marks of `repo_backfill/cancelled.cbor` and the cursors of
/// `cursors.cbor`, or none where such a file is missing.
pub proof fn law_opening_succeeds(
    run: Opening,
    files: spec_fn(Seq<char>) -> FileRead,
    marks: Marks,
    cursors: Map<Seq<char>, i64>,
)
    requires
        opens_in(run, files),
        storage_open::keeps_marks(files("repo_backfill/cancelled.cbor"@), marks),
        storage_open::keeps_cursors(files("cursors.cbor"@), cursors),
    ensures
        run.asked.last() matches OpenStep::Done(storage) && storage.wf()
            && storage.repo_backfill@ == marks && storage.cursors.map@ == cursors,
        run.asked.len() == CURSORS_AT + 2,
{
    let last = (CURSORS_AT + 1) as nat;
    lemma_opening(run, files, marks, last);
    assert(storage_open::steps(
        run.ops[last as int],
        run.events[last as int],
        run.ops[last as int + 1],
        run.asked[last as int],
    ));
    assert(asks(run.asked[CURSORS_AT as int], storage_open::plan(CURSORS_AT as nat)));
    assert(run.events[last as int] == OpenEvent::File(files("cursors.cbor"@)));
    assert(run.asked.len() == last + 1);
}

/// An opening that succeeds has created what is used later: the storage
/// directory first of all, then the directory `firehose_events`, in which the
/// event files are written and read, and no other directory of its own.
pub proof fn law_opening_creates_the_directories(
    run: Opening,
    files: spec_fn(Seq<char>) -> FileRead,
    marks: Marks,
    cursors: Map<Seq<char>, i64>,
)
    requires
        opens_in(run, files),
        storage_open::keeps_marks(files("repo_backfill/cancelled.cbor"@), marks),
        storage_open::keeps_cursors(files("cursors.cbor"@), cursors),
    ensures
        run.asked.last() is Done,
        asks(run.asked[0], OpenActionView::CreateRoot),
        exists|i: int|
            0 < i < run.asked.len() && asks(
                #[trigger] run.asked[i],
                OpenActionView::CreateDir { path: "firehose_events"@ },
            ),
        forall|i: int|
            0 <= i < run.asked.len() && (#[trigger] run.asked[i]) is Do
                && run.asked[i]->Do_0@ is CreateDir ==> run.asked[i]->Do_0@->CreateDir_path
                == "firehose_events"@,
{
    law_opening_succeeds(run, files, marks, cursors);
    lemma_opening(run, files, marks, (CURSORS_AT + 1) as nat);
    assert(asks(run.asked[0], storage_open::plan(0)));
    assert(asks(run.asked[1], storage_open::plan(1)));
    assert forall|i: int|
        0 <= i < run.asked.len() && (#[trigger] run.asked[i]) is Do
            && run.asked[i]->Do_0@ is CreateDir implies run.asked[i]->Do_0@->CreateDir_path
        == "firehose_events"@ by {
        assert(asks(run.asked[i], storage_open::plan(i as nat)));
    }
}

/// An opening that succeeds has opened every log, and each once.
pub proof fn law_opening_opens_every_log_once(
    run: Opening,
    files: spec_fn(Seq<char>) -> FileRead,
    marks: Marks,
    cursors: Map<Seq<char>, i64>,
    log: LogId,
)
    requires
        opens_in(run, files),
        storage_open::keeps_marks(files("repo_backfill/cancelled.cbor"@), marks),
        storage_open::keeps_cursors(files("cursors.cbor"@), cursors),
        storage::is_log(log),
    ensures
        exists|i: int|
            0 < i < run.asked.len() && asks(
                #[trigger] run.asked[i],
                OpenActionView::OpenLog { log },
            ),
        forall|i: int, j: int|
            0 <= i < run.asked.len() && 0 <= j < run.asked.len() && asks(
                #[trigger] run.asked[i],
                OpenActionView::OpenLog { log },
            ) && asks(#[trigger] run.asked[j], OpenActionView::OpenLog { log }) ==> i == j,
{
    law_opening_succeeds(run, files, marks, cursors);
    lemma_opening(run, files, marks, (CURSORS_AT + 1) as nat);
    storage_open::law_plan_opens_every_log_once(log);
    let at = choose|at: nat|
        at < CURSORS_AT && #[trigger] storage_open::plan(at) == (OpenActionView::OpenLog { log });
    assert(asks(run.asked[at as int], storage_open::plan(at)));
    assert forall|i: int, j: int|
        0 <= i < run.asked.len() && 0 <= j < run.asked.len() && asks(
            #[trigger] run.asked[i],
            OpenActionView::OpenLog { log },
        ) && asks(#[trigger] run.asked[j], OpenActionView::OpenLog { log }) implies i == j by {
        assert(asks(run.asked[i], storage_open::plan(i as nat)));
        assert(asks(run.asked[j], storage_open::plan(j as nat)));
        assert(storage_open::plan(i as nat) == (OpenActionView::OpenLog { log }));
        assert(storage_open::plan(j as nat) == (OpenActionView::OpenLog { log }));
    }
}

/// An opening fails with the error that it met: that of an action that failed,
/// `Io` for a file that could not be read, `Serialization` for one that could
/// not be decoded. It calls the storage damaged only where an action did, and
/// it never ends well over a file that could not be read or decoded.
pub proof fn law_opening_fails_with_what_it_met(
    before: OpenStorage,
    event: OpenEvent,
    after: OpenStorage,
    step: OpenStep,
)
    requires
        storage_open::steps(before, event, after, step),
        !before.over,
    ensures
        event matches OpenEvent::Failed(error) ==> step == OpenStep::Failed(error),
        event matches OpenEvent::File(FileRead::Failed(error)) ==> step is Failed && (
        step->Failed_0 == WintermuteError::Io(error) || step->Failed_0 is Other),
        event matches OpenEvent::File(FileRead::Bytes(bytes)) ==> repo::marks_in(bytes@) is None
            && cbor::cbor_numbers(bytes@) is None ==> step is Failed && (
        step->Failed_0 is Serialization || step->Failed_0 is Other),
        step is Failed && step->Failed_0 is Storage ==> event == OpenEvent::Failed(
            step->Failed_0,
        ),
        step is Done ==> event is File,
{
}

/// A file that cannot be used fails the opening: one that cannot be read with
/// the error of the operating system, one that cannot be decoded with one that
/// says so. The storage is not called damaged for it.
pub proof fn law_unusable_files_fail_the_opening(
    run: Opening,
    files: spec_fn(Seq<char>) -> FileRead,
    marks: Marks,
)
    requires
        opens_in(run, files),
    ensures
        ({
            let last = run.asked.last();
            match files("repo_backfill/cancelled.cbor"@) {
                FileRead::Failed(error) => last == OpenStep::Failed(WintermuteError::Io(error)),
                FileRead::Bytes(bytes) => repo::marks_in(bytes@) is None ==> last is Failed
                    && last->Failed_0 is Serialization,
                FileRead::Missing => true,
            }
        }),
        storage_open::keeps_marks(files("repo_backfill/cancelled.cbor"@), marks) ==> {
            let last = run.asked.last();
            match files("cursors.cbor"@) {
                FileRead::Failed(error) => last == OpenStep::Failed(WintermuteError::Io(error)),
                FileRead::Bytes(bytes) => cbor::cbor_numbers(bytes@) is None ==> last is Failed
                    && last->Failed_0 is Serialization,
                FileRead::Missing => last is Done,
            }
        },
{
    let m = (MARKS_AT + 1) as nat;
    lemma_opening(run, files, marks, m);
    assert(asks(run.asked[MARKS_AT as int], storage_open::plan(MARKS_AT as nat)));
    assert(storage_open::steps(
        run.ops[m as int],
        run.events[m as int],
        run.ops[m as int + 1],
        run.asked[m as int],
    ));
    if storage_open::keeps_marks(files("repo_backfill/cancelled.cbor"@), marks) {
        let c = (CURSORS_AT + 1) as nat;
        lemma_opening(run, files, marks, c);
        assert(asks(run.asked[CURSORS_AT as int], storage_open::plan(CURSORS_AT as nat)));
        assert(storage_open::steps(
            run.ops[c as int],
            run.events[c as int],
            run.ops[c as int + 1],
            run.asked[c as int],
        ));
    }
}

// ---- creating ----

/// The storage being created, from the start to the end: what was answered,
/// what was asked for, and how it stood before each step and at the end.
pub struct Creating {
    pub events: Seq<NewEvent>,
    pub asked: Seq<NewStep>,
    pub ops: Seq<NewStorage>,
}

impl Creating {
    /// Each step follows from the one before, each answer fits, and the last
    /// step asks for nothing.
    pub open spec fn runs(self) -> bool {
        &&& self.asked.len() > 0
        &&& self.events.len() == self.asked.len()
        &&& self.ops.len() == self.asked.len() + 1
        &&& self.ops[0].phase == NewPhase::Start
        &&& self.events[0] is Start
        &&& forall|i: int|
            0 <= i < self.asked.len() ==> storage_open::creates(
                self.ops[i],
                #[trigger] self.events[i],
                self.ops[i + 1],
                self.asked[i],
            )
        &&& forall|i: int|
            0 <= i < self.asked.len() - 1 ==> {
                ||| (#[trigger] self.asked[i]) is Open && self.events[i + 1] is Opened
                ||| self.asked[i] is RemoveAll && self.events[i + 1] is Removed
            }
        &&& self.asked.last() is Done || self.asked.last() is Failed
    }
}

/// The storage is removed only if the first opening found it damaged.
///
/// It is opened first. If that succeeds, that is the result; if it fails with
/// anything but damage, that error is the result, and nothing is removed. If it
/// is damaged, the directory is removed once and opened once more, and what
/// comes of that is the result, whatever it is.
pub proof fn law_only_damaged_storage_is_removed(run: Creating)
    requires
        run.runs(),
    ensures
        run.asked[0] is Open,
        ({
            let opened = run.events[1]->Opened_0;
            match opened {
                Ok(storage) => run.asked.len() == 2 && run.asked[1] == NewStep::Done(storage),
                Err(error) => match error {
                    WintermuteError::Storage(_) => {
                        &&& run.asked.len() == 4
                        &&& run.asked[1] is RemoveAll
                        &&& run.asked[2] is Open
                        &&& run.asked[3] == match run.events[3]->Opened_0 {
                            Ok(storage) => NewStep::Done(storage),
                            Err(error) => NewStep::Failed(error),
                        }
                    },
                    WintermuteError::Io(_)
                    | WintermuteError::Serialization(_)
                    | WintermuteError::Other(_) => run.asked.len() == 2 && run.asked[1]
                        == NewStep::Failed(error),
                },
            }
        }),
        forall|i: int|
            0 <= i < run.asked.len() && (#[trigger] run.asked[i]) is RemoveAll ==> i == 1
                && run.events[1]->Opened_0 is Err && run.events[1]->Opened_0->Err_0 is Storage,
{
    assert(run.events[0] is Start);
    assert(run.asked[0] is Open);
    let e1 = run.events[1];
    assert(e1 is Opened);
    if e1->Opened_0 is Err && e1->Opened_0->Err_0 is Storage {
        assert(run.asked[1] is RemoveAll);
        assert(run.events[2] is Removed);
        assert(run.asked[2] is Open);
        assert(run.events[3] is Opened);
    }
}

// ---- small files ----

/// Replacing a file: what was written is in the file at the end, its temporary
/// file is gone, and no other file is touched. Whatever fails, and wherever a
/// crash comes, the file holds what it held before or what it was given; and
/// the replacement says that it succeeded only if it did.
///
/// `begun`, `wrote` and `renamed` are the replacement before each of its steps.
pub proof fn law_replacing_a_file(
    begun: AtomicWrite,
    wrote: AtomicWrite,
    renamed: AtomicWrite,
    at_first: bool,
    files: Map<Seq<char>, Seq<u8>>,
    left: Map<Seq<char>, Seq<u8>>,
)
    requires
        begun.phase == AtomicPhase::Start,
        files::tmp_of(begun.name@) != begun.name@,
        wrote.name == begun.name,
        wrote.phase == begun.next(at_first).0,
        renamed.name == begun.name,
        renamed.phase == wrote.next(true).0,
    ensures
        ({
            let name = begun.name@;
            let first = begun.next(at_first).1;
            let second = wrote.next(true).1;
            let written = files::performed(files, first->Do_0);
            let done = files::performed(written, second->Do_0);
            let held = |now: Map<Seq<char>, Seq<u8>>|
                {
                    ||| now.contains_key(name) && now[name] == begun.bytes@
                    ||| now.contains_key(name) == files.contains_key(name) && (files.contains_key(
                        name,
                    ) ==> now[name] == files[name])
                };
            &&& first is Do
            &&& second is Do
            &&& renamed.next(true).1 is Done
            &&& done.contains_key(name) && done[name] == begun.bytes@
            &&& !done.contains_key(files::tmp_of(name))
            &&& forall|other: Seq<char>|
                other != name && other != files::tmp_of(name) ==> {
                    &&& #[trigger] done.contains_key(other) == files.contains_key(other)
                    &&& files.contains_key(other) ==> done[other] == files[other]
                }
            &&& wrote.next(false).1 is Failed
            &&& renamed.next(false).1 is Failed
            &&& files::crashed(files, first->Do_0, left) ==> held(left)
            &&& files::crashed(written, second->Do_0, left) ==> held(left)
        }),
{
    let name = begun.name@;
    let tmp = files::tmp_of(name);
    let first = begun.next(at_first).1;
    if files::crashed(files, first->Do_0, left) {
        assert(left.remove(tmp).contains_key(name) == left.contains_key(name));
        assert(files.remove(tmp).contains_key(name) == files.contains_key(name));
        if files.contains_key(name) {
            assert(left.remove(tmp)[name] == left[name]);
        }
    }
}

/// Events do not get in each other's way: the file of one event, and the
/// temporary file through which it is written, are none of another event's
/// file.
pub proof fn law_events_have_their_own_files(a: i64, b: i64)
    requires
        a != b,
    ensures
        names::event_name(a) != names::event_name(b),
        files::tmp_of(names::event_name(a)) != names::event_name(b),
        files::tmp_of(names::event_name(a)) != names::event_name(a),
{
    names::law_event_names_are_distinct(a, b);
    let ending = seq!['.', 'c', 'b', 'o', 'r'];
    let (x, y) = (names::event_name(a), names::event_name(b));
    let stem = x.take(x.len() - 5);
    names::lemma_event_name(a);
    names::lemma_event_name(b);
    assert(x =~= stem + ending);
    files::law_temporary_names(stem);
    let tmp = files::tmp_of(x);
    assert(tmp.last() == 'p');
    assert(y.last() == 'r');
}

/// The cursors are read from the file that a change of them replaces.
pub proof fn law_cursors_are_read_where_they_are_written(
    op: Result<AtomicWrite, WintermuteError>,
    map: Map<Seq<char>, i64>,
)
    requires
        storage::writes_cursors(op, map),
    ensures
        storage_open::plan(CURSORS_AT as nat) == (OpenActionView::ReadFile {
            path: op->Ok_0.name@,
        }),
        op->Ok_0.name@ == "cursors.cbor"@,
        files::tmp_of(op->Ok_0.name@) != op->Ok_0.name@,
        cbor::cbor_numbers(op->Ok_0.bytes@) == Some(map),
{
    reveal_strlit("cursors.cbor");
    let stem = seq!['c', 'u', 'r', 's', 'o', 'r', 's'];
    assert("cursors.cbor"@ =~= stem + seq!['.', 'c', 'b', 'o', 'r']);
    files::law_temporary_names(stem);
}

/// An event is read from the file to which it was written.
pub proof fn law_events_are_read_where_they_are_written(
    state: &Storage,
    seq: i64,
    bytes: Vec<u8>,
    op: AtomicWrite,
    name: String,
)
    requires
        call_ensures(Storage::write_firehose_event, (state, seq, bytes), op),
        call_ensures(Storage::read_firehose_event, (state, seq), name),
    ensures
        op.name@ == name@,
        op.bytes@ == bytes@,
        op.phase == AtomicPhase::Start,
{
}

/// Where the logs are kept, below the storage directory. A shard has three
/// digits that write its number.
pub proof fn law_directories_of_the_logs(log: LogId)
    requires
        storage::is_log(log),
    ensures
        match log {
            LogId::RepoBackfill(Level::Immediate) => storage::directory_of(log)
                == "repo_backfill/immediate"@,
            LogId::RepoBackfill(Level::Priority) => storage::directory_of(log)
                == "repo_backfill/priority"@,
            LogId::RepoBackfill(Level::Normal) => storage::directory_of(log)
                == "repo_backfill/normal"@,
            LogId::FirehoseLive => storage::directory_of(log) == "firehose_live"@,
            LogId::LabelLive => storage::directory_of(log) == "label_live"@,
            LogId::FirehoseBackfillPriority => storage::directory_of(log)
                == "firehose_backfill/priority"@,
            LogId::FirehoseBackfillShard(shard) => {
                let dir = storage::directory_of(log);
                let prefix = "firehose_backfill/shard_"@;
                &&& dir.len() == prefix.len() + 3
                &&& dir.take(prefix.len() as int) =~= prefix
                &&& names::all_digits(dir.skip(prefix.len() as int))
                &&& names::value(dir.skip(prefix.len() as int)) == shard
            },
        },
{
    if let LogId::FirehoseBackfillShard(shard) = log {
        reveal_strlit("firehose_backfill/shard_");
        reveal_strlit("firehose_backfill/");
        let dir = storage::directory_of(log);
        let prefix = "firehose_backfill/shard_"@;
        names::lemma_shard_name(shard as nat);
        names::lemma_shard_digits(shard as nat);
        let name = names::shard_name(shard as nat);
        assert(dir.skip(24) =~= name.skip(6));
        assert(dir.take(24) =~= "firehose_backfill/"@ + name.take(6));
        assert(dir.take(24) =~= prefix);
    }
}

/// An error of the operating system stays one.
pub proof fn law_io_errors_stay_io_errors(error: std::io::Error)
    ensures
        <WintermuteError as vstd::std_specs::convert::FromSpec<std::io::Error>>::from_spec(error)
            == WintermuteError::Io(error),
{
}

} // verus!
