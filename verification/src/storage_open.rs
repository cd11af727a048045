//! Opening the storage, and creating it anew where it is damaged.

use vstd::prelude::*;

use crate::backfill::BACKFILL_SHARDS;
use crate::cbor;
use crate::cursors::CursorFile;
use crate::error::WintermuteError;
use crate::files::FileRead;
use crate::laws;
use crate::laws::LogAndDisk;
use crate::repo;
use crate::repo::{Level, Marks, RepoBackfillQueue};
use crate::storage;
use crate::storage::{LogId, Storage};

verus! {

/// The directory of the storage, where none is named.
pub fn storage_path(db_path: Option<String>) -> (path: String)
    ensures
        path@ == match db_path {
            Some(path) => path@,
            None => "backfill_cache"@,
        },
{
    match db_path {
        Some(path) => path,
        None => "backfill_cache".to_owned(),
    }
}

/// One thing to do to open the storage. Paths are below the storage directory.
#[derive(Debug)]
pub enum OpenAction {
    /// Create the storage directory, with its parents, if it is missing.
    CreateRoot,
    /// Create the directory if it is missing.
    CreateDir { path: String },
    /// Open the log, creating it if it is missing.
    OpenLog { log: LogId },
    /// Read the file.
    ReadFile { path: String },
}

/// The answer to an action.
#[derive(Debug)]
pub enum OpenEvent {
    /// Nothing was asked yet.
    Start,
    /// The action was performed.
    Performed,
    /// What came of reading the file.
    File(FileRead),
    /// The action failed.
    Failed(WintermuteError),
}

/// What opening the storage does next.
#[derive(Debug)]
pub enum OpenStep {
    /// Perform the action and hand back the event.
    Do(OpenAction),
    /// The storage is open.
    Done(Storage),
    /// Opening failed.
    Failed(WintermuteError),
}

/// `OpenAction` with its paths as sequences.
pub enum OpenActionView {
    CreateRoot,
    CreateDir { path: Seq<char> },
    OpenLog { log: LogId },
    ReadFile { path: Seq<char> },
}

impl View for OpenAction {
    type V = OpenActionView;

    open spec fn view(&self) -> OpenActionView {
        match self {
            OpenAction::CreateRoot => OpenActionView::CreateRoot,
            OpenAction::CreateDir { path } => OpenActionView::CreateDir { path: path@ },
            OpenAction::OpenLog { log } => OpenActionView::OpenLog { log: *log },
            OpenAction::ReadFile { path } => OpenActionView::ReadFile { path: path@ },
        }
    }
}

/// The number of the action that reads the marks: the shards are opened before.
pub const MARKS_AT: usize = 2 + BACKFILL_SHARDS;

/// The number of the action that reads the cursors, which is the last.
pub const CURSORS_AT: usize = MARKS_AT + 7;

/// What opening the storage does, in order.
pub open spec fn plan(at: nat) -> OpenActionView {
    if at == 0 {
        OpenActionView::CreateRoot
    } else if at == 1 {
        OpenActionView::CreateDir { path: "firehose_events"@ }
    } else if at < MARKS_AT {
        OpenActionView::OpenLog { log: LogId::FirehoseBackfillShard((at - 2) as usize) }
    } else if at == MARKS_AT {
        OpenActionView::ReadFile { path: "repo_backfill/cancelled.cbor"@ }
    } else if at == MARKS_AT + 1 {
        OpenActionView::OpenLog { log: LogId::RepoBackfill(Level::Immediate) }
    } else if at == MARKS_AT + 2 {
        OpenActionView::OpenLog { log: LogId::RepoBackfill(Level::Priority) }
    } else if at == MARKS_AT + 3 {
        OpenActionView::OpenLog { log: LogId::RepoBackfill(Level::Normal) }
    } else if at == MARKS_AT + 4 {
        OpenActionView::OpenLog { log: LogId::FirehoseLive }
    } else if at == MARKS_AT + 5 {
        OpenActionView::OpenLog { log: LogId::LabelLive }
    } else if at == MARKS_AT + 6 {
        OpenActionView::OpenLog { log: LogId::FirehoseBackfillPriority }
    } else {
        OpenActionView::ReadFile { path: "cursors.cbor"@ }
    }
}

/// The action of the plan.
fn action_at(at: usize) -> (action: OpenAction)
    ensures
        action@ == plan(at as nat),
{
    if at == 0 {
        OpenAction::CreateRoot
    } else if at == 1 {
        OpenAction::CreateDir { path: "firehose_events".to_owned() }
    } else if at < MARKS_AT {
        OpenAction::OpenLog { log: LogId::FirehoseBackfillShard(at - 2) }
    } else if at == MARKS_AT {
        OpenAction::ReadFile { path: "repo_backfill/cancelled.cbor".to_owned() }
    } else if at == MARKS_AT + 1 {
        OpenAction::OpenLog { log: LogId::RepoBackfill(Level::Immediate) }
    } else if at == MARKS_AT + 2 {
        OpenAction::OpenLog { log: LogId::RepoBackfill(Level::Priority) }
    } else if at == MARKS_AT + 3 {
        OpenAction::OpenLog { log: LogId::RepoBackfill(Level::Normal) }
    } else if at == MARKS_AT + 4 {
        OpenAction::OpenLog { log: LogId::FirehoseLive }
    } else if at == MARKS_AT + 5 {
        OpenAction::OpenLog { log: LogId::LabelLive }
    } else if at == MARKS_AT + 6 {
        OpenAction::OpenLog { log: LogId::FirehoseBackfillPriority }
    } else {
        OpenAction::ReadFile { path: "cursors.cbor".to_owned() }
    }
}

/// Every log is opened once: each stands at one place in the plan.
pub proof fn law_plan_opens_every_log_once(log: LogId)
    requires
        storage::is_log(log),
    ensures
        exists|at: nat|
            at < CURSORS_AT && #[trigger] plan(at) == (OpenActionView::OpenLog { log }),
        forall|a: nat, b: nat|
            a <= CURSORS_AT && b <= CURSORS_AT && #[trigger] plan(a) == (OpenActionView::OpenLog {
                log,
            }) && #[trigger] plan(b) == (OpenActionView::OpenLog { log }) ==> a == b,
{
    let at: nat = match log {
        LogId::FirehoseBackfillShard(shard) => (shard + 2) as nat,
        LogId::RepoBackfill(Level::Immediate) => (MARKS_AT + 1) as nat,
        LogId::RepoBackfill(Level::Priority) => (MARKS_AT + 2) as nat,
        LogId::RepoBackfill(Level::Normal) => (MARKS_AT + 3) as nat,
        LogId::FirehoseLive => (MARKS_AT + 4) as nat,
        LogId::LabelLive => (MARKS_AT + 5) as nat,
        LogId::FirehoseBackfillPriority => (MARKS_AT + 6) as nat,
    };
    assert(plan(at) == (OpenActionView::OpenLog { log }));
}

/// Opens the storage. `at` is the next action of the plan, with the one before
/// it unanswered.
#[derive(Debug)]
pub struct OpenStorage {
    pub at: usize,
    pub marks: RepoBackfillQueue,
    pub over: bool,
}

/// Whether `event` answers the action of the plan at `at`.
pub open spec fn answers(at: nat, event: OpenEvent) -> bool {
    if at == MARKS_AT || at == CURSORS_AT {
        event is File
    } else {
        event is Performed
    }
}

/// The storage has the cursors of the file and these marks, or the file cannot
/// be used.
pub open spec fn opens_with(step: OpenStep, file: FileRead, marks: Marks) -> bool {
    match file {
        FileRead::Bytes(bytes) => match step {
            OpenStep::Done(storage) => {
                &&& storage.wf()
                &&& storage.repo_backfill@ == marks
                &&& cbor::cbor_numbers(bytes@) == Some(storage.cursors.map@)
            },
            OpenStep::Failed(error) => error is Serialization && cbor::cbor_numbers(
                bytes@,
            ) is None,
            OpenStep::Do(_) => false,
        },
        FileRead::Missing => {
            &&& step is Done
            &&& step->Done_0.wf()
            &&& step->Done_0.repo_backfill@ == marks
            &&& step->Done_0.cursors.map@ =~= Map::<Seq<char>, i64>::empty()
        },
        FileRead::Failed(error) => step == OpenStep::Failed(WintermuteError::Io(error)),
    }
}

/// The marks of the file are kept, or the file cannot be used.
pub open spec fn goes_on_with(
    step: OpenStep,
    file: FileRead,
    marks: Marks,
    next: OpenActionView,
) -> bool {
    let on = step is Do && step->Do_0@ == next;
    match file {
        FileRead::Bytes(bytes) => match step {
            OpenStep::Failed(error) => error is Serialization && repo::marks_in(
                bytes@,
            ) is None,
            _ => on && repo::marks_in(bytes@) == Some(marks),
        },
        FileRead::Missing => on && marks =~= Marks::none(),
        FileRead::Failed(error) => step == OpenStep::Failed(WintermuteError::Io(error)),
    }
}

/// How opening the storage goes on after `event`: any failure ends it, an
/// unexpected event is one, and else the next action of the plan follows.
pub open spec fn steps(
    before: OpenStorage,
    event: OpenEvent,
    after: OpenStorage,
    step: OpenStep,
) -> bool {
    &&& after.marks.wf()
    &&& step is Do ==> after.at == before.at + 1 && after.at <= CURSORS_AT + 1 && !after.over
    &&& !(step is Do) ==> after.over
    &&& before.over ==> step is Failed
    &&& !before.over && event is Failed ==> step == OpenStep::Failed(event->Failed_0)
    &&& !before.over && !(event is Failed) ==> {
        let at = before.at as nat;
        if at == 0 {
            if event is Start {
                step is Do && step->Do_0@ == plan(0) && after.marks == before.marks
            } else {
                step is Failed && step->Failed_0 is Other
            }
        } else if !answers((at - 1) as nat, event) {
            step is Failed && step->Failed_0 is Other
        } else if at - 1 == MARKS_AT {
            goes_on_with(step, event->File_0, after.marks@, plan(at))
        } else if at - 1 == CURSORS_AT {
            opens_with(step, event->File_0, before.marks@)
        } else {
            step is Do && step->Do_0@ == plan(at) && after.marks == before.marks
        }
    }
}

/// The file holds these marks. Where there are none it may be missing.
pub open spec fn keeps_marks(file: FileRead, marks: Marks) -> bool {
    match file {
        FileRead::Bytes(bytes) => repo::marks_in(bytes@) == Some(marks),
        FileRead::Missing => marks == Marks::none(),
        FileRead::Failed(_) => false,
    }
}

/// The file holds these cursors. Where there are none it may be missing.
pub open spec fn keeps_cursors(file: FileRead, cursors: Map<Seq<char>, i64>) -> bool {
    match file {
        FileRead::Bytes(bytes) => cbor::cbor_numbers(bytes@) == Some(cursors),
        FileRead::Missing => cursors == Map::<Seq<char>, i64>::empty(),
        FileRead::Failed(_) => false,
    }
}

/// An opening of the storage from its start: what it was given, what it asked
/// for, and how it stood before each step and at the end.
pub struct Opening {
    pub events: Seq<OpenEvent>,
    pub asked: Seq<OpenStep>,
    pub ops: Seq<OpenStorage>,
}

impl Opening {
    /// Each step follows from the one before.
    pub open spec fn runs(self) -> bool {
        &&& self.events.len() == self.asked.len()
        &&& self.ops.len() == self.asked.len() + 1
        &&& self.ops[0].at == 0 && !self.ops[0].over && self.ops[0].marks.wf()
        &&& forall|i: int|
            0 <= i < self.asked.len() ==> steps(
                self.ops[i],
                #[trigger] self.events[i],
                self.ops[i + 1],
                self.asked[i],
            )
    }

    /// Every action succeeded, up to the last of the plan, and the two files
    /// were read as these.
    pub open spec fn succeeds(self, marks_file: FileRead, cursors_file: FileRead) -> bool {
        &&& self.events.len() == CURSORS_AT + 2
        &&& self.events[0] is Start
        &&& forall|i: int|
            1 <= i < self.events.len() ==> (#[trigger] self.events[i]) == if i - 1 == MARKS_AT {
                OpenEvent::File(marks_file)
            } else if i - 1 == CURSORS_AT {
                OpenEvent::File(cursors_file)
            } else {
                OpenEvent::Performed
            }
    }
}

/// The step asks for the log to be opened.
pub open spec fn asks_for(step: OpenStep, log: LogId) -> bool {
    step matches OpenStep::Do(action) && action@ == (OpenActionView::OpenLog { log })
}

/// How the opening stands before its step number `n`.
proof fn lemma_opening(
    run: Opening,
    marks_file: FileRead,
    cursors_file: FileRead,
    marks: Marks,
    n: nat,
)
    requires
        run.runs(),
        run.succeeds(marks_file, cursors_file),
        keeps_marks(marks_file, marks),
        n <= CURSORS_AT + 1,
    ensures
        run.ops[n as int].at == n,
        !run.ops[n as int].over,
        n > MARKS_AT + 1 ==> run.ops[n as int].marks@ == marks,
        forall|i: int|
            0 <= i < n ==> (#[trigger] run.asked[i]) is Do && run.asked[i]->Do_0@ == plan(i as nat),
    decreases n,
{
    if n > 0 {
        let m = (n - 1) as nat;
        lemma_opening(run, marks_file, cursors_file, marks, m);
        assert(steps(
            run.ops[m as int],
            run.events[m as int],
            run.ops[m as int + 1],
            run.asked[m as int],
        ));
    }
}

/// The storage survives a reopening. Where its logs are in order, and its two
/// files hold its marks and its cursors, an opening whose actions succeed asks
/// for every log once, ends with the storage open, and with the same marks and
/// cursors; and each log opens with the records that were unread, in order.
pub proof fn law_storage_survives_reopening(
    logs: spec_fn(LogId) -> LogAndDisk,
    marks: Marks,
    cursors: Map<Seq<char>, i64>,
    marks_file: FileRead,
    cursors_file: FileRead,
    run: Opening,
    segment_bytes: u64,
    fsync_interval: u128,
)
    requires
        forall|log: LogId|
            storage::is_log(log) ==> laws::in_order((#[trigger] logs(log)).log, logs(log).disk),
        keeps_marks(marks_file, marks),
        keeps_cursors(cursors_file, cursors),
        run.runs(),
        run.succeeds(marks_file, cursors_file),
    ensures
        forall|log: LogId| #[trigger]
            storage::is_log(log) ==> {
                &&& exists|i: int| 0 <= i <= CURSORS_AT && #[trigger] asks_for(run.asked[i], log)
                &&& forall|i: int, j: int|
                    0 <= i <= CURSORS_AT && 0 <= j <= CURSORS_AT && #[trigger] asks_for(
                        run.asked[i],
                        log,
                    ) && #[trigger] asks_for(run.asked[j], log) ==> i == j
            },
        forall|log: LogId|
            storage::is_log(log) ==> {
                let again = (#[trigger] logs(log)).reopened(segment_bytes, fsync_interval);
                &&& again.contents() == logs(log).contents()
                &&& again.log.unread == logs(log).log.unread
                &&& laws::in_order(again.log, again.disk)
            },
        run.asked.last() matches OpenStep::Done(storage) && storage.wf()
            && storage.repo_backfill@ == marks && storage.cursors.map@ == cursors,
{
    let last = (CURSORS_AT + 1) as nat;
    lemma_opening(run, marks_file, cursors_file, marks, last);
    assert(steps(
        run.ops[last as int],
        run.events[last as int],
        run.ops[last as int + 1],
        run.asked[last as int],
    ));
    assert forall|log: LogId| storage::is_log(log) implies {
        let again = (#[trigger] logs(log)).reopened(segment_bytes, fsync_interval);
        &&& again.contents() == logs(log).contents()
        &&& again.log.unread == logs(log).log.unread
        &&& laws::in_order(again.log, again.disk)
    } by {
        laws::law_reopen_resumes(logs(log).log, logs(log).disk, segment_bytes, fsync_interval);
    }
    assert forall|log: LogId| #[trigger] storage::is_log(log) implies {
        &&& exists|i: int| 0 <= i <= CURSORS_AT && #[trigger] asks_for(run.asked[i], log)
        &&& forall|i: int, j: int|
            0 <= i <= CURSORS_AT && 0 <= j <= CURSORS_AT && #[trigger] asks_for(run.asked[i], log)
                && #[trigger] asks_for(run.asked[j], log) ==> i == j
    } by {
        law_plan_opens_every_log_once(log);
        let at = choose|at: nat|
            at < CURSORS_AT && #[trigger] plan(at) == (OpenActionView::OpenLog { log });
        assert(asks_for(run.asked[at as int], log));
        assert forall|i: int, j: int|
            0 <= i <= CURSORS_AT && 0 <= j <= CURSORS_AT && #[trigger] asks_for(run.asked[i], log)
                && #[trigger] asks_for(run.asked[j], log) implies i == j by {
            assert(plan(i as nat) == (OpenActionView::OpenLog { log }));
            assert(plan(j as nat) == (OpenActionView::OpenLog { log }));
        }
    }
}

impl OpenStorage {
    pub fn new() -> (op: OpenStorage)
        ensures
            op.at == 0,
            op.marks.wf(),
            op.marks@ =~= Marks::none(),
            !op.over,
    {
        OpenStorage {
            at: 0,
            marks: RepoBackfillQueue::new(),
            over: false,
        }
    }

    /// Takes in the answer to the last action and says what to do next. Any
    /// failure ends the opening.
    pub fn step(&mut self, event: OpenEvent) -> (step: OpenStep)
        requires
            old(self).marks.wf(),
            old(self).at <= CURSORS_AT + 1,
        ensures
            steps(*old(self), event, *final(self), step),
    {
        if self.over {
            return OpenStep::Failed(WintermuteError::Other("already open".to_owned()));
        }
        match event {
            OpenEvent::Failed(error) => {
                self.over = true;
                return OpenStep::Failed(error);
            },
            OpenEvent::Start => {
                if self.at == 0 {
                    self.at = 1;
                    return OpenStep::Do(action_at(0));
                }
            },
            OpenEvent::Performed => {
                if self.at > 0 && self.at - 1 != MARKS_AT && self.at - 1 != CURSORS_AT {
                    let at: usize = self.at;
                    self.at = at + 1;
                    return OpenStep::Do(action_at(at));
                }
            },
            OpenEvent::File(file) => {
                if self.at > 0 && self.at - 1 == MARKS_AT {
                    match RepoBackfillQueue::open(file) {
                        Ok(marks) => {
                            self.marks = marks;
                            let at: usize = self.at;
                            self.at = at + 1;
                            return OpenStep::Do(action_at(at));
                        },
                        Err(error) => {
                            self.over = true;
                            return OpenStep::Failed(error);
                        },
                    }
                }
                if self.at > 0 && self.at - 1 == CURSORS_AT {
                    self.over = true;
                    match CursorFile::open(file) {
                        Ok(cursors) => {
                            let mut marks: RepoBackfillQueue = RepoBackfillQueue::new();
                            std::mem::swap(&mut marks, &mut self.marks);
                            return OpenStep::Done(Storage { cursors, repo_backfill: marks });
                        },
                        Err(error) => {
                            return OpenStep::Failed(error);
                        },
                    }
                }
            },
        }
        self.over = true;
        OpenStep::Failed(WintermuteError::Other("unexpected event".to_owned()))
    }
}

/// What creating the storage asked for last.
#[derive(Clone, Copy, Debug, PartialEq, Eq, Structural)]
pub enum NewPhase {
    Start,
    /// The storage to be opened.
    Open,
    /// The damaged storage to be removed.
    Remove,
    /// The storage to be opened again.
    Reopen,
    /// Nothing: the operation has ended.
    Over,
}

/// Opens the storage. If it is damaged, it is removed and created anew, once.
#[derive(Clone, Copy, Debug, PartialEq, Eq, Structural)]
pub struct NewStorage {
    pub phase: NewPhase,
}

/// The answer to what was asked.
#[derive(Debug)]
pub enum NewEvent {
    /// Nothing was asked yet.
    Start,
    /// The storage was opened, or not.
    Opened(Result<Storage, WintermuteError>),
    /// The directory was removed. If it could not be, the next opening shows.
    Removed,
}

/// What creating the storage does next.
#[derive(Debug)]
pub enum NewStep {
    /// Open the storage.
    Open,
    /// Remove the storage directory with everything in it.
    RemoveAll,
    Done(Storage),
    Failed(WintermuteError),
}

/// How creating the storage goes on after `event`.
pub open spec fn creates(
    before: NewStorage,
    event: NewEvent,
    after: NewStorage,
    step: NewStep,
) -> bool {
    &&& after.phase == before.next_phase(event)
    &&& match after.phase {
        NewPhase::Open | NewPhase::Reopen => step is Open,
        NewPhase::Remove => step is RemoveAll,
        NewPhase::Over => match (before.phase, event) {
            (NewPhase::Open, NewEvent::Opened(Ok(storage))) => step == NewStep::Done(storage),
            (NewPhase::Open, NewEvent::Opened(Err(error))) => step == NewStep::Failed(error),
            (NewPhase::Reopen, NewEvent::Opened(Ok(storage))) => step == NewStep::Done(storage),
            (NewPhase::Reopen, NewEvent::Opened(Err(error))) => step == NewStep::Failed(error),
            _ => step is Failed && step->Failed_0 is Other,
        },
        NewPhase::Start => false,
    }
}

impl NewStorage {
    /// Where creating the storage stands after `event`.
    pub open spec fn next_phase(self, event: NewEvent) -> NewPhase {
        match (self.phase, event) {
            (NewPhase::Start, NewEvent::Start) => NewPhase::Open,
            (NewPhase::Open, NewEvent::Opened(Err(error))) => if error is Storage {
                NewPhase::Remove
            } else {
                NewPhase::Over
            },
            (NewPhase::Remove, NewEvent::Removed) => NewPhase::Reopen,
            _ => NewPhase::Over,
        }
    }

    /// Takes in the answer to what was asked and says what to do next.
    pub fn step(&mut self, event: NewEvent) -> (step: NewStep)
        ensures
            creates(*old(self), event, *final(self), step),
            step is RemoveAll ==> event is Opened && event->Opened_0 is Err
                && event->Opened_0->Err_0 is Storage,
            old(self).phase == NewPhase::Open && event is Opened && event->Opened_0 is Err && !(
            event->Opened_0->Err_0 is Storage) ==> step == NewStep::Failed(
                event->Opened_0->Err_0,
            ),
    {
        match (self.phase, event) {
            (NewPhase::Start, NewEvent::Start) => {
                self.phase = NewPhase::Open;
                NewStep::Open
            },
            (NewPhase::Open, NewEvent::Opened(Ok(storage))) => {
                self.phase = NewPhase::Over;
                NewStep::Done(storage)
            },
            (NewPhase::Open, NewEvent::Opened(Err(error))) => {
                if error.is_storage_corrupted() {
                    self.phase = NewPhase::Remove;
                    NewStep::RemoveAll
                } else {
                    self.phase = NewPhase::Over;
                    NewStep::Failed(error)
                }
            },
            (NewPhase::Remove, NewEvent::Removed) => {
                self.phase = NewPhase::Reopen;
                NewStep::Open
            },
            (NewPhase::Reopen, NewEvent::Opened(Ok(storage))) => {
                self.phase = NewPhase::Over;
                NewStep::Done(storage)
            },
            (NewPhase::Reopen, NewEvent::Opened(Err(error))) => {
                self.phase = NewPhase::Over;
                NewStep::Failed(error)
            },
            _ => {
                self.phase = NewPhase::Over;
                NewStep::Failed(WintermuteError::Other("unexpected event".to_owned()))
            },
        }
    }
}

impl Storage {
    /// Opens the storage, or creates it anew where it is damaged.
    pub fn new() -> (op: NewStorage)
        ensures
            op.phase == NewPhase::Start,
    {
        NewStorage { phase: NewPhase::Start }
    }

    /// Opens the storage.
    pub fn open_db() -> (op: OpenStorage)
        ensures
            op.at == 0,
            op.marks.wf(),
            op.marks@ =~= Marks::none(),
            !op.over,
    {
        OpenStorage::new()
    }
}

} // verus!
