//! Named cursors, kept in one file.

use vstd::prelude::*;

use crate::cbor;
use crate::cbor::{decode_numbers, encode_numbers};
use crate::error::WintermuteError;
use crate::files::FileRead;
use crate::name_map::NameMap;

verus! {

/// Small map from names to values, persisted as one CBOR file.
#[derive(Debug)]
pub struct CursorFile {
    pub map: NameMap<i64>,
}

/// A change of the cursors.
#[derive(Debug)]
pub enum CursorChange {
    Put { name: String, value: i64 },
    Delete { name: String },
}

/// The cursors after a change.
pub open spec fn changed(map: Map<Seq<char>, i64>, change: CursorChange) -> Map<Seq<char>, i64> {
    match change {
        CursorChange::Put { name, value } => map.insert(name@, value),
        CursorChange::Delete { name } => map.remove(name@),
    }
}

/// `out` is what the file of cursors is opened as: with the cursors that it
/// holds, without any if it is missing, and not at all if its bytes are no map
/// or could not be read.
pub open spec fn opens(file: FileRead, out: Result<CursorFile, WintermuteError>) -> bool {
    match file {
        FileRead::Bytes(bytes) => match out {
            Ok(cursors) => cursors.wf() && cbor::cbor_numbers(bytes@) == Some(cursors.map@),
            Err(error) => cbor::cbor_numbers(bytes@) is None && error is Serialization,
        },
        FileRead::Missing => out is Ok && out->Ok_0.wf() && out->Ok_0.map@ =~= Map::<
            Seq<char>,
            i64,
        >::empty(),
        FileRead::Failed(error) => out == Err::<CursorFile, WintermuteError>(
            WintermuteError::Io(error),
        ),
    }
}

impl CursorFile {
    pub open spec fn wf(&self) -> bool {
        self.map.wf()
    }

    /// The cursors that the file holds. A file that is missing holds none.
    pub fn open(file: FileRead) -> (out: Result<CursorFile, WintermuteError>)
        ensures
            opens(file, out),
    {
        match file {
            FileRead::Bytes(bytes) => match decode_numbers(bytes.as_slice()) {
                Ok(map) => Ok(CursorFile { map }),
                Err(error) => Err(error),
            },
            FileRead::Missing => Ok(CursorFile { map: NameMap::new() }),
            FileRead::Failed(error) => Err(WintermuteError::Io(error)),
        }
    }

    /// The value of cursor `name`, if it has one.
    pub fn get(&self, name: &str) -> (value: Option<i64>)
        requires
            self.wf(),
        ensures
            value == if self.map@.contains_key(name@) {
                Some(self.map@[name@])
            } else {
                None
            },
    {
        self.map.get(name)
    }

    /// Makes the change and returns what the file is to hold.
    pub fn update(&mut self, change: CursorChange) -> (out: Result<Vec<u8>, WintermuteError>)
        requires
            old(self).wf(),
        ensures
            final(self).wf(),
            final(self).map@ =~= changed(old(self).map@, change),
            out is Ok,
            cbor::cbor_numbers(out->Ok_0@) == Some(final(self).map@),
    {
        match &change {
            CursorChange::Put { name, value } => {
                self.map.insert(name.as_str(), *value);
            },
            CursorChange::Delete { name } => {
                self.map.remove(name.as_str());
            },
        }
        encode_numbers(&self.map)
    }
}

/// Whatever is done to other cursors, a cursor keeps the value that it was
/// given last, and has none once it was deleted.
pub proof fn law_cursors_are_independent(
    map: Map<Seq<char>, i64>,
    name: Seq<char>,
    change: CursorChange,
)
    ensures
        ({
            let after = changed(map, change);
            match change {
                CursorChange::Put { name: put, value } => if put@ == name {
                    after.contains_key(name) && after[name] == value
                } else {
                    after.contains_key(name) == map.contains_key(name) && (map.contains_key(name)
                        ==> after[name] == map[name])
                },
                CursorChange::Delete { name: deleted } => if deleted@ == name {
                    !after.contains_key(name)
                } else {
                    after.contains_key(name) == map.contains_key(name) && (map.contains_key(name)
                        ==> after[name] == map[name])
                },
            }
        }),
{
}

/// A file that was written for a change of `map` opens again, and with the
/// changed cursors.
pub proof fn law_cursors_survive_reopening(
    map: Map<Seq<char>, i64>,
    change: CursorChange,
    bytes: Vec<u8>,
    reopened: Result<CursorFile, WintermuteError>,
)
    requires
        cbor::cbor_numbers(bytes@) == Some(changed(map, change)),
        opens(FileRead::Bytes(bytes), reopened),
    ensures
        reopened is Ok,
        reopened->Ok_0.wf(),
        reopened->Ok_0.map@ == changed(map, change),
{
}

} // verus!
