//! Small files that are read and replaced as a whole.

use vstd::prelude::*;
use vstd::string::{StrSliceExecFns, StringExecFns};

verus! {

/// What came of reading a file.
#[derive(Debug)]
pub enum FileRead {
    Bytes(Vec<u8>),
    /// There is no such file.
    Missing,
    /// The file could not be read.
    Failed(std::io::Error),
}

/// Where the extension of `name` starts: at its last dot, unless that is its
/// first character.
pub open spec fn extension_at(name: Seq<char>) -> int
    decreases name.len(),
{
    if name.len() <= 1 {
        -1
    } else if name.last() == '.' {
        name.len() - 1
    } else {
        extension_at(name.drop_last())
    }
}

/// `name` with `tmp` for its extension.
pub open spec fn tmp_of(name: Seq<char>) -> Seq<char> {
    let at = extension_at(name);
    (if at < 0 {
        name
    } else {
        name.take(at)
    }) + seq!['.', 't', 'm', 'p']
}

/// The name of the temporary file for `name`, which is the name of a file and
/// no path: its extension is replaced by `tmp`.
pub fn tmp_name(name: &str) -> (tmp: String)
    ensures
        tmp@ == tmp_of(name@),
{
    let len: usize = name.unicode_len();
    let mut at: usize = len;
    assert(name@.take(len as int) =~= name@);
    while at > 1 && name.get_char(at - 1) != '.'
        invariant
            at <= len,
            len == name@.len(),
            extension_at(name@) == extension_at(name@.take(at as int)),
        decreases at,
    {
        assert(name@.take(at as int).drop_last() =~= name@.take(at - 1));
        at = at - 1;
    }
    let mut tmp: String = if at > 1 {
        assert(extension_at(name@) == at - 1);
        name.substring_char(0, at - 1).to_owned()
    } else {
        assert(extension_at(name@) == -1);
        name.to_owned()
    };
    tmp.append(".tmp");
    proof {
        reveal_strlit(".tmp");
        assert(name@.subrange(0, at - 1) =~= name@.take(at - 1) || at == 0);
        assert(tmp@ =~= tmp_of(name@));
    }
    tmp
}

/// What the replacement of a file asked for last.
#[derive(Clone, Copy, Debug, PartialEq, Eq, Structural)]
pub enum AtomicPhase {
    Start,
    /// The write of the temporary file.
    Write,
    /// The renaming.
    Rename,
    /// Nothing: the operation has ended.
    Over,
}

/// Writes a file through a temporary file and a rename, so that a crash leaves
/// either the old or the new contents, never a mix.
#[derive(Debug)]
pub struct AtomicWrite {
    pub phase: AtomicPhase,
    pub name: String,
    pub bytes: Vec<u8>,
}

/// What to do with a file.
#[derive(Debug)]
pub enum FileAction {
    /// Create the file or empty it, and write `bytes` to it.
    Write { name: String, bytes: Vec<u8> },
    /// Rename the file, in place of what `to` names.
    Rename { from: String, to: String },
}

/// What the replacement of a file does next.
#[derive(Debug)]
pub enum AtomicStep {
    /// Perform the action and say whether it was performed.
    Do(FileAction),
    Done,
    Failed,
}

/// `FileAction` with its names and bytes as sequences.
pub enum FileActionView {
    Write { name: Seq<char>, bytes: Seq<u8> },
    Rename { from: Seq<char>, to: Seq<char> },
}

/// `AtomicStep` with its contents as mathematical values.
pub enum AtomicStepView {
    Do(FileActionView),
    Done,
    Failed,
}

impl View for FileAction {
    type V = FileActionView;

    open spec fn view(&self) -> FileActionView {
        match self {
            FileAction::Write { name, bytes } => FileActionView::Write {
                name: name@,
                bytes: bytes@,
            },
            FileAction::Rename { from, to } => FileActionView::Rename { from: from@, to: to@ },
        }
    }
}

impl View for AtomicStep {
    type V = AtomicStepView;

    open spec fn view(&self) -> AtomicStepView {
        match self {
            AtomicStep::Do(action) => AtomicStepView::Do(action@),
            AtomicStep::Done => AtomicStepView::Done,
            AtomicStep::Failed => AtomicStepView::Failed,
        }
    }
}

impl AtomicWrite {
    /// The step after the last action was performed, or failed. The first
    /// action is asked for at the start.
    pub open spec fn next(self, performed: bool) -> (AtomicPhase, AtomicStepView) {
        match self.phase {
            AtomicPhase::Start => (
                AtomicPhase::Write,
                AtomicStepView::Do(
                    FileActionView::Write { name: tmp_of(self.name@), bytes: self.bytes@ },
                ),
            ),
            AtomicPhase::Write if performed => (
                AtomicPhase::Rename,
                AtomicStepView::Do(
                    FileActionView::Rename { from: tmp_of(self.name@), to: self.name@ },
                ),
            ),
            AtomicPhase::Rename if performed => (AtomicPhase::Over, AtomicStepView::Done),
            _ => (AtomicPhase::Over, AtomicStepView::Failed),
        }
    }

    /// The replacement of the file `name` by `bytes`.
    pub fn new(name: String, bytes: Vec<u8>) -> (op: AtomicWrite)
        ensures
            op.phase == AtomicPhase::Start,
            op.name == name,
            op.bytes == bytes,
    {
        AtomicWrite { phase: AtomicPhase::Start, name, bytes }
    }

    /// Takes in whether the last action was performed and says what to do
    /// next.
    pub fn step(&mut self, performed: bool) -> (step: AtomicStep)
        ensures
            (final(self).phase, step@) == old(self).next(performed),
            final(self).name == old(self).name,
    {
        match self.phase {
            AtomicPhase::Start => {
                self.phase = AtomicPhase::Write;
                let mut bytes: Vec<u8> = Vec::new();
                std::mem::swap(&mut bytes, &mut self.bytes);
                AtomicStep::Do(FileAction::Write { name: tmp_name(self.name.as_str()), bytes })
            },
            AtomicPhase::Write => {
                if performed {
                    self.phase = AtomicPhase::Rename;
                    AtomicStep::Do(
                        FileAction::Rename {
                            from: tmp_name(self.name.as_str()),
                            to: self.name.clone(),
                        },
                    )
                } else {
                    self.phase = AtomicPhase::Over;
                    AtomicStep::Failed
                }
            },
            AtomicPhase::Rename => {
                self.phase = AtomicPhase::Over;
                if performed {
                    AtomicStep::Done
                } else {
                    AtomicStep::Failed
                }
            },
            AtomicPhase::Over => AtomicStep::Failed,
        }
    }
}

/// The files of a directory after an action was performed.
pub open spec fn performed(
    files: Map<Seq<char>, Seq<u8>>,
    action: FileActionView,
) -> Map<Seq<char>, Seq<u8>> {
    match action {
        FileActionView::Write { name, bytes } => files.insert(name, bytes),
        FileActionView::Rename { from, to } => files.remove(from).insert(to, files[from]),
    }
}

/// The files that a crash leaves while an action is performed: a file that is
/// being written may hold anything, and a rename happens or does not.
pub open spec fn crashed(
    files: Map<Seq<char>, Seq<u8>>,
    action: FileActionView,
    left: Map<Seq<char>, Seq<u8>>,
) -> bool {
    match action {
        FileActionView::Write { name, bytes } => left.remove(name) == files.remove(name),
        FileActionView::Rename { from, to } => left == files || left == performed(files, action),
    }
}

/// A file that is not itself temporary holds, after a crash at any point of its
/// replacement, what it held before or what it was given.
pub proof fn law_atomic_write_is_all_or_nothing(
    files: Map<Seq<char>, Seq<u8>>,
    name: Seq<char>,
    bytes: Seq<u8>,
    left: Map<Seq<char>, Seq<u8>>,
)
    requires
        tmp_of(name) != name,
        ({
            let write = FileActionView::Write { name: tmp_of(name), bytes };
            let rename = FileActionView::Rename { from: tmp_of(name), to: name };
            crashed(files, write, left) || crashed(performed(files, write), rename, left)
        }),
    ensures
        ({
            ||| left.contains_key(name) == files.contains_key(name) && (files.contains_key(name)
                ==> left[name] == files[name])
            ||| left.contains_key(name) && left[name] == bytes
        }),
{
    let write = FileActionView::Write { name: tmp_of(name), bytes };
    if crashed(files, write, left) {
        assert(left.remove(tmp_of(name)).contains_key(name) == left.contains_key(name));
        assert(files.remove(tmp_of(name)).contains_key(name) == files.contains_key(name));
        if files.contains_key(name) {
            assert(left.remove(tmp_of(name))[name] == left[name]);
        }
    }
}

/// The temporary file of a CBOR file is another file of the same stem.
pub proof fn law_temporary_names(stem: Seq<char>)
    requires
        stem.len() > 0,
    ensures
        tmp_of(stem + seq!['.', 'c', 'b', 'o', 'r']) =~= stem + seq!['.', 't', 'm', 'p'],
        tmp_of(stem + seq!['.', 'c', 'b', 'o', 'r']) != stem + seq!['.', 'c', 'b', 'o', 'r'],
{
    let name = stem + seq!['.', 'c', 'b', 'o', 'r'];
    let n = stem.len() as int;
    assert(name.drop_last() =~= name.take(n + 4));
    assert(name.take(n + 4).drop_last() =~= name.take(n + 3));
    assert(name.take(n + 3).drop_last() =~= name.take(n + 2));
    assert(name.take(n + 2).drop_last() =~= name.take(n + 1));
    assert(name.take(n + 1).last() == '.');
    reveal_with_fuel(extension_at, 6);
    assert(extension_at(name) == n);
    assert(name.take(n) =~= stem);
    assert(tmp_of(name).len() != name.len());
}

} // verus!
