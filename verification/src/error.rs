//! What can go wrong.

use vstd::prelude::*;

verus! {

/// An error of the operating system, as `std::io` reports it. Nothing is known
/// of what it holds.
#[verifier::external_type_specification]
#[verifier::external_body]
pub struct ExIoError(std::io::Error);

/// An error of the storage.
#[derive(Debug)]
pub enum WintermuteError {
    /// What is stored cannot be used.
    Storage(String),
    /// A value could not be encoded or decoded.
    Serialization(String),
    /// A file could not be used.
    Io(std::io::Error),
    /// Anything else.
    Other(String),
}

impl vstd::std_specs::convert::FromSpecImpl<std::io::Error> for WintermuteError {
    open spec fn obeys_from_spec() -> bool {
        true
    }

    open spec fn from_spec(error: std::io::Error) -> WintermuteError {
        WintermuteError::Io(error)
    }
}

impl From<std::io::Error> for WintermuteError {
    fn from(error: std::io::Error) -> (out: WintermuteError) {
        WintermuteError::Io(error)
    }
}

impl WintermuteError {
    /// Whether the storage is damaged and is to be created anew. A file that
    /// cannot be read is no such damage, nor is a value that cannot be decoded.
    pub fn is_storage_corrupted(&self) -> (corrupted: bool)
        ensures
            corrupted == (self is Storage),
    {
        match self {
            WintermuteError::Storage(_) => true,
            _ => false,
        }
    }
}

} // verus!
