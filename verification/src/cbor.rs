//! Maps as CBOR.

use std::collections::HashMap;

use vstd::prelude::*;
use vstd::string::StringExecFns;

use crate::error::WintermuteError;
use crate::name_map;
use crate::name_map::NameMap;

verus! {

/// What `ciborium::from_reader` makes of `bytes` as a map from names to
/// signed numbers: none if it reports an error.
pub uninterp spec fn cbor_numbers(bytes: Seq<u8>) -> Option<Map<Seq<char>, i64>>;

/// What `ciborium::from_reader` makes of `bytes` as a map from names to
/// counts: none if it reports an error.
pub uninterp spec fn cbor_counts(bytes: Seq<u8>) -> Option<Map<Seq<char>, u64>>;

/// What `ciborium::from_reader` makes of `bytes` as a list of maps from names
/// to counts: none if it reports an error.
pub uninterp spec fn cbor_maps(bytes: Seq<u8>) -> Option<Seq<Map<Seq<char>, u64>>>;

/// The maps that lists of entries hold.
pub open spec fn maps_of(parts: Seq<Vec<(String, u64)>>) -> Seq<Map<Seq<char>, u64>> {
    parts.map_values(|p: Vec<(String, u64)>| name_map::map_of(p@))
}

/// In no list a name occurs twice.
pub open spec fn all_distinct(parts: Seq<Vec<(String, u64)>>) -> bool {
    forall|i: int| 0 <= i < parts.len() ==> name_map::distinct((#[trigger] parts[i])@)
}

/// Calls `ciborium::into_writer` on the map that `entries` holds. What it
/// writes, `ciborium::from_reader` reads back as the same map. The order of the
/// names in the bytes is left open, since a hash map has none. The call
/// succeeds: names and numbers can all be encoded, so that only the writer
/// could fail, and this one is a vector that grows.
#[verifier::external_body]
fn write_numbers(entries: &Vec<(String, i64)>) -> (out: Result<Vec<u8>, String>)
    requires
        name_map::distinct(entries@),
    ensures
        out is Ok,
        cbor_numbers(out->Ok_0@) == Some(name_map::map_of(entries@)),
{
    let map: HashMap<&str, i64> = entries.iter().map(|e| (e.0.as_str(), e.1)).collect();
    let mut out = Vec::new();
    match ciborium::into_writer(&map, &mut out) {
        Ok(()) => Ok(out),
        Err(e) => Err(format!("{e}")),
    }
}

/// Calls `ciborium::into_writer` on the list of the maps that `parts` holds.
/// What it writes, `ciborium::from_reader` reads back as the same maps in the
/// same order, and not as one map, since it is a list. The order of the names in
/// the bytes is left open, since a hash map has none. The call succeeds: names
/// and numbers can all be encoded, so that only the writer could fail, and this
/// one is a vector that grows.
#[verifier::external_body]
fn write_maps(parts: &Vec<Vec<(String, u64)>>) -> (out: Result<Vec<u8>, String>)
    requires
        all_distinct(parts@),
    ensures
        out is Ok,
        cbor_maps(out->Ok_0@) == Some(maps_of(parts@)),
        cbor_counts(out->Ok_0@) is None,
{
    let maps: Vec<HashMap<&str, u64>> =
        parts.iter().map(|p| p.iter().map(|e| (e.0.as_str(), e.1)).collect()).collect();
    let mut out = Vec::new();
    match ciborium::into_writer(&maps, &mut out) {
        Ok(()) => Ok(out),
        Err(e) => Err(format!("{e}")),
    }
}

/// Calls `ciborium::from_reader` for a hash map and hands out its entries, in
/// no particular order. An error comes as its text.
#[verifier::external_body]
fn read_numbers(bytes: &[u8]) -> (out: Result<Vec<(String, i64)>, String>)
    ensures
        match out {
            Ok(entries) => name_map::distinct(entries@) && cbor_numbers(bytes@) == Some(
                name_map::map_of(entries@),
            ),
            Err(_) => cbor_numbers(bytes@) is None,
        },
{
    match ciborium::from_reader::<HashMap<String, i64>, &[u8]>(bytes) {
        Ok(map) => Ok(map.into_iter().collect()),
        Err(e) => Err(format!("{e}")),
    }
}

/// Calls `ciborium::from_reader` for a hash map and hands out its entries, in
/// no particular order. An error comes as its text.
#[verifier::external_body]
fn read_counts(bytes: &[u8]) -> (out: Result<Vec<(String, u64)>, String>)
    ensures
        match out {
            Ok(entries) => name_map::distinct(entries@) && cbor_counts(bytes@) == Some(
                name_map::map_of(entries@),
            ),
            Err(_) => cbor_counts(bytes@) is None,
        },
{
    match ciborium::from_reader::<HashMap<String, u64>, &[u8]>(bytes) {
        Ok(map) => Ok(map.into_iter().collect()),
        Err(e) => Err(format!("{e}")),
    }
}

/// Calls `ciborium::from_reader` for a list of hash maps and hands out their
/// entries, in no particular order within a map. An error comes as its text.
#[verifier::external_body]
fn read_maps(bytes: &[u8]) -> (out: Result<Vec<Vec<(String, u64)>>, String>)
    ensures
        match out {
            Ok(parts) => all_distinct(parts@) && cbor_maps(bytes@) == Some(maps_of(parts@)),
            Err(_) => cbor_maps(bytes@) is None,
        },
{
    match ciborium::from_reader::<Vec<HashMap<String, u64>>, &[u8]>(bytes) {
        Ok(maps) => Ok(maps.into_iter().map(|m| m.into_iter().collect()).collect()),
        Err(e) => Err(format!("{e}")),
    }
}

/// `error` is the error of a codec that reported `text`, after `prefix`.
pub open spec fn reports(error: WintermuteError, prefix: Seq<char>, text: Seq<char>) -> bool {
    error is Serialization && error->Serialization_0@ == prefix + text
}

/// The error for a value that could not be encoded.
pub fn not_encoded(text: String) -> (error: WintermuteError)
    ensures
        reports(error, "failed to serialize: "@, text@),
{
    let mut message: String = "failed to serialize: ".to_owned();
    message.append(text.as_str());
    WintermuteError::Serialization(message)
}

/// The error for bytes that could not be decoded.
pub fn not_decoded(text: String) -> (error: WintermuteError)
    ensures
        reports(error, "failed to deserialize: "@, text@),
{
    let mut message: String = "failed to deserialize: ".to_owned();
    message.append(text.as_str());
    WintermuteError::Serialization(message)
}

/// What the codec made of a value, with its error as an error of the storage.
pub fn encoded(result: Result<Vec<u8>, String>) -> (out: Result<Vec<u8>, WintermuteError>)
    ensures
        match result {
            Ok(bytes) => out == Ok::<Vec<u8>, WintermuteError>(bytes),
            Err(text) => out is Err && reports(out->Err_0, "failed to serialize: "@, text@),
        },
{
    match result {
        Ok(bytes) => Ok(bytes),
        Err(text) => Err(not_encoded(text)),
    }
}

/// What the codec made of bytes, with its error as an error of the storage.
pub fn decoded<V: Copy>(result: Result<Vec<(String, V)>, String>) -> (out: Result<
    NameMap<V>,
    WintermuteError,
>)
    ensures
        match result {
            Ok(entries) => out is Ok && out->Ok_0.entries == entries,
            Err(text) => out is Err && reports(out->Err_0, "failed to deserialize: "@, text@),
        },
{
    match result {
        Ok(entries) => Ok(NameMap { entries }),
        Err(text) => Err(not_decoded(text)),
    }
}

/// Encodes a map from names to signed numbers.
pub fn encode_numbers(map: &NameMap<i64>) -> (out: Result<Vec<u8>, WintermuteError>)
    requires
        map.wf(),
    ensures
        out is Ok,
        cbor_numbers(out->Ok_0@) == Some(map@),
{
    encoded(write_numbers(&map.entries))
}

/// Decodes a map from names to signed numbers.
pub fn decode_numbers(bytes: &[u8]) -> (out: Result<NameMap<i64>, WintermuteError>)
    ensures
        match out {
            Ok(map) => map.wf() && cbor_numbers(bytes@) == Some(map@),
            Err(error) => cbor_numbers(bytes@) is None && error is Serialization,
        },
{
    decoded(read_numbers(bytes))
}

/// Decodes a map from names to counts.
pub fn decode_counts(bytes: &[u8]) -> (out: Result<NameMap<u64>, WintermuteError>)
    ensures
        match out {
            Ok(map) => map.wf() && cbor_counts(bytes@) == Some(map@),
            Err(error) => cbor_counts(bytes@) is None && error is Serialization,
        },
{
    decoded(read_counts(bytes))
}

/// Encodes a list of maps from names to counts.
pub fn encode_maps(maps: Vec<NameMap<u64>>) -> (out: Result<Vec<u8>, WintermuteError>)
    requires
        forall|i: int| 0 <= i < maps@.len() ==> (#[trigger] maps@[i]).wf(),
    ensures
        out is Ok,
        cbor_maps(out->Ok_0@) == Some(maps@.map_values(|m: NameMap<u64>| m@)),
        cbor_counts(out->Ok_0@) is None,
{
    let ghost all = maps@;
    let mut parts: Vec<Vec<(String, u64)>> = Vec::new();
    for map in it: maps
        invariant
            it.seq() == all,
            parts@.len() == it.index(),
            forall|i: int| 0 <= i < all.len() ==> (#[trigger] all[i]).wf(),
            forall|i: int| 0 <= i < parts@.len() ==> #[trigger] parts@[i] == all[i].entries,
    {
        parts.push(map.entries);
    }
    proof {
        assert forall|i: int| 0 <= i < parts@.len() implies name_map::distinct(
            (#[trigger] parts@[i])@,
        ) by {
            assert(all[i].wf());
        }
        assert(maps_of(parts@) =~= all.map_values(|m: NameMap<u64>| m@));
    }
    encoded(write_maps(&parts))
}

/// Decodes a list of maps from names to counts.
pub fn decode_maps(bytes: &[u8]) -> (out: Result<Vec<NameMap<u64>>, WintermuteError>)
    ensures
        match out {
            Ok(maps) => {
                &&& forall|i: int| 0 <= i < maps@.len() ==> (#[trigger] maps@[i]).wf()
                &&& cbor_maps(bytes@) == Some(maps@.map_values(|m: NameMap<u64>| m@))
            },
            Err(error) => cbor_maps(bytes@) is None && error is Serialization,
        },
{
    match read_maps(bytes) {
        Ok(parts) => {
            let maps: Vec<NameMap<u64>> = maps_from(parts);
            proof {
                assert(maps_of(parts@) =~= maps@.map_values(|m: NameMap<u64>| m@));
            }
            Ok(maps)
        },
        Err(text) => Err(not_decoded(text)),
    }
}

/// The lists of entries as maps.
pub fn maps_from(parts: Vec<Vec<(String, u64)>>) -> (maps: Vec<NameMap<u64>>)
    ensures
        maps@.len() == parts@.len(),
        forall|i: int| 0 <= i < maps@.len() ==> (#[trigger] maps@[i]).entries == parts@[i],
{
    let ghost all = parts@;
    let mut maps: Vec<NameMap<u64>> = Vec::new();
    for entries in it: parts
        invariant
            it.seq() == all,
            maps@.len() == it.index(),
            forall|i: int| 0 <= i < maps@.len() ==> (#[trigger] maps@[i]).entries == all[i],
    {
        maps.push(NameMap { entries });
    }
    maps
}

} // verus!
