//! The checksum that guards records and the head file.

use vstd::prelude::*;

verus! {

/// One bit of the register goes out; if it is set, the reversed polynomial of
/// CRC-32 (IEEE) is added.
pub open spec fn shifted(register: u32) -> u32 {
    if register & 1 == 1 {
        (register >> 1) ^ 0xEDB8_8320
    } else {
        register >> 1
    }
}

/// So many bits go out.
pub open spec fn shifted_by(register: u32, bits: nat) -> u32
    decreases bits,
{
    if bits == 0 {
        register
    } else {
        shifted(shifted_by(register, (bits - 1) as nat))
    }
}

/// The register after it took in `data`. It starts with all bits set.
pub open spec fn register_after(data: Seq<u8>) -> u32
    decreases data.len(),
{
    if data.len() == 0 {
        0xFFFF_FFFF
    } else {
        shifted_by(register_after(data.drop_last()) ^ (data.last() as u32), 8)
    }
}

/// The CRC-32 (IEEE) checksum of `data`.
#[verifier::opaque]
pub open spec fn crc32_of(data: Seq<u8>) -> u32 {
    register_after(data) ^ 0xFFFF_FFFF
}

/// Calls `crc32fast::hash`. Taken on trust: it computes the CRC-32 (IEEE)
/// checksum of `data`, bit by bit as `crc32_of` says.
#[verifier::external_body]
pub(crate) fn crc32(data: &[u8]) -> (sum: u32)
    ensures
        sum == crc32_of(data@),
{
    crc32fast::hash(data)
}

} // verus!
