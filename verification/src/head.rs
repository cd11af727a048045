//! The head file: `[u64 seg][u64 off][u32 crc32][u32 zero]`, the position
//! big-endian and the checksum little-endian.

use vstd::prelude::*;
use vstd::slice::slice_subrange;

use crate::bytes;
use crate::checksum;
use crate::bytes::{u32_from_le, u32_le, u64_from_be};
use crate::checksum::crc32;
use crate::pos::Pos;

verus! {

/// Length of the head file.
pub const HEAD_LEN: usize = 24;

/// The contents of the head file that names `pos`.
pub open spec fn head_bytes(pos: Pos) -> Seq<u8> {
    pos.key() + bytes::le_bytes(checksum::crc32_of(pos.key()) as nat, 4) + seq![
        0u8,
        0u8,
        0u8,
        0u8,
    ]
}

/// A head file has its length.
pub proof fn lemma_head_len(pos: Pos)
    ensures
        head_bytes(pos).len() == HEAD_LEN,
{
    bytes::lemma_be_bytes_len(pos.seg as nat, 8);
    bytes::lemma_be_bytes_len(pos.off as nat, 8);
    bytes::lemma_le_bytes_len(checksum::crc32_of(pos.key()) as nat, 4);
}

/// The position that a head file names: none if the file is too short or if
/// the checksum does not match.
pub open spec fn head_of(buf: Seq<u8>) -> Option<Pos> {
    if buf.len() < HEAD_LEN {
        None
    } else if checksum::crc32_of(buf.subrange(0, 16)) != bytes::le_value(
        buf.subrange(16, 20),
    ) {
        None
    } else {
        Some(
            Pos {
                seg: bytes::be_value(buf.subrange(0, 8)) as u64,
                off: bytes::be_value(buf.subrange(8, 16)) as u64,
            },
        )
    }
}

/// Writes the head file that names `pos`.
pub fn persist_head(pos: Pos) -> (buf: Vec<u8>)
    ensures
        buf@ == head_bytes(pos),
        buf@.len() == HEAD_LEN,
{
    let mut buf: Vec<u8> = pos.to_key();
    let check: u32 = crc32(buf.as_slice());
    let mut sum: Vec<u8> = u32_le(check);
    let mut zero: Vec<u8> = vec![0u8; 4];
    proof {
        bytes::lemma_le_bytes_len(check as nat, 4);
    }
    buf.append(&mut sum);
    buf.append(&mut zero);
    assert(buf@ =~= head_bytes(pos));
    buf
}

/// Reads the head file.
pub fn load_head(buf: &[u8]) -> (pos: Option<Pos>)
    ensures
        pos == head_of(buf@),
{
    if buf.len() < HEAD_LEN {
        return None;
    }
    let want: u32 = u32_from_le(buf, 16);
    if crc32(slice_subrange(buf, 0, 16)) != want {
        return None;
    }
    let seg: u64 = u64_from_be(buf, 0);
    let off: u64 = u64_from_be(buf, 8);
    Some(Pos { seg, off })
}

/// The head file gives back the position that was persisted, whatever follows
/// it in the file.
pub proof fn law_head_round_trip(pos: Pos, rest: Seq<u8>)
    ensures
        head_of(head_bytes(pos) + rest) == Some(pos),
{
    let buf = head_bytes(pos) + rest;
    let sum = checksum::crc32_of(pos.key()) as nat;
    bytes::lemma_pow256();
    bytes::lemma_be_bytes_len(pos.seg as nat, 8);
    bytes::lemma_be_bytes_len(pos.off as nat, 8);
    bytes::lemma_le_bytes_len(sum, 4);
    bytes::lemma_be_round_trip(pos.seg as nat, 8);
    bytes::lemma_be_round_trip(pos.off as nat, 8);
    bytes::lemma_le_round_trip(sum, 4);
    assert(buf.subrange(0, 16) =~= pos.key());
    assert(buf.subrange(16, 20) =~= bytes::le_bytes(sum, 4));
    assert(buf.subrange(0, 8) =~= bytes::be_bytes(pos.seg as nat, 8));
    assert(buf.subrange(8, 16) =~= bytes::be_bytes(pos.off as nat, 8));
}

} // verus!
