//! What the formats promise: records, the head file, and keys.

use vstd::prelude::*;

use crate::bytes;
use crate::checksum;
use crate::head;
use crate::head::HEAD_LEN;
use crate::open;
use crate::pos;
use crate::pos::Pos;
use crate::record;
use crate::record::{Reading, RECORD_HEADER};
use crate::repo;
use crate::repo::Level;

verus! {

/// A frame is four bytes that write the length of the payload, four that write
/// its checksum, both the lowest byte first, and the payload.
pub proof fn law_frame_layout(payload: Seq<u8>)
    requires
        payload.len() <= u32::MAX,
    ensures
        ({
            let f = record::frame(payload);
            let sum = checksum::crc32_of(payload);
            &&& f.len() == 8 + payload.len()
            &&& f[0] + 0x100 * f[1] + 0x1_0000 * f[2] + 0x100_0000 * f[3] == payload.len()
            &&& f[4] + 0x100 * f[5] + 0x1_0000 * f[6] + 0x100_0000 * f[7] == sum
            &&& f.skip(8) =~= payload
        }),
{
    record::lemma_frame_len(payload);
    reveal_with_fuel(bytes::le_bytes, 5);
}

/// The payloads that can be read back have one byte to 64 MiB.
pub proof fn law_payload_limits(payload: Seq<u8>)
    ensures
        record::storable(payload) <==> 1 <= payload.len() <= 67_108_864,
{
}

/// A reader takes nothing for a record but the frame of the payload that it
/// hands out: length, checksum and payload are as they were written.
pub proof fn law_reader_accepts_only_frames(buf: Seq<u8>)
    ensures
        record::reading(buf) matches Reading::Record { payload, total } ==> {
            &&& record::storable(payload)
            &&& total == record::frame(payload).len()
            &&& total <= buf.len()
            &&& buf.take(total as int) =~= record::frame(payload)
        },
{
    if let Reading::Record { payload, total } = record::reading(buf) {
        record::lemma_reading_bounds(buf);
        record::lemma_frame_len(payload);
        bytes::lemma_le_inverse(buf.subrange(0, 4));
        bytes::lemma_le_inverse(buf.subrange(4, 8));
        assert(buf.take(total as int) =~= buf.subrange(0, 4) + buf.subrange(4, 8) + payload);
    }
}

/// The start of a frame is no record yet: the reader says that more bytes are
/// needed, never more than the frame has.
pub proof fn law_part_of_a_frame_is_incomplete(payload: Seq<u8>, n: int)
    requires
        record::storable(payload),
        0 <= n < record::frame(payload).len(),
    ensures
        record::reading(record::frame(payload).take(n)) matches Reading::Incomplete { need } && n
            < need <= record::frame(payload).len(),
{
    let f = record::frame(payload);
    let part = f.take(n);
    record::lemma_frame_len(payload);
    record::law_record_round_trip(payload, Seq::empty());
    assert(f + Seq::<u8>::empty() =~= f);
    if n >= RECORD_HEADER {
        assert(part.subrange(0, 4) =~= f.subrange(0, 4));
    }
}

/// A head file names a position only if it holds that position and its
/// checksum, as they were written.
pub proof fn law_head_names_what_was_written(buf: Seq<u8>)
    ensures
        head::head_of(buf) matches Some(pos) ==> {
            &&& buf.len() >= HEAD_LEN
            &&& buf.take(20) =~= head::head_bytes(pos).take(20)
            &&& buf.take(16) =~= pos.key()
        },
{
    if let Some(pos) = head::head_of(buf) {
        let (seg, off) = (buf.subrange(0, 8), buf.subrange(8, 16));
        bytes::lemma_pow256();
        bytes::lemma_be_value_bound(seg);
        bytes::lemma_be_value_bound(off);
        bytes::lemma_be_inverse(seg);
        bytes::lemma_be_inverse(off);
        bytes::lemma_le_inverse(buf.subrange(16, 20));
        head::lemma_head_len(pos);
        assert(pos.key() =~= seg + off);
        assert(buf.subrange(0, 16) =~= pos.key());
        assert(buf.take(20) =~= seg + off + buf.subrange(16, 20));
        assert(head::head_bytes(pos).take(20) =~= buf.take(20));
    }
}

/// A head file has 24 bytes: the position as a key, the checksum of that with
/// the lowest byte first, and four zeros.
pub proof fn law_head_layout(pos: Pos)
    ensures
        ({
            let h = head::head_bytes(pos);
            let sum = checksum::crc32_of(pos.key());
            &&& h.len() == 24
            &&& h.take(16) =~= pos.key()
            &&& h[16] + 0x100 * h[17] + 0x1_0000 * h[18] + 0x100_0000 * h[19] == sum
            &&& h.skip(20) =~= seq![0u8, 0u8, 0u8, 0u8]
        }),
{
    head::lemma_head_len(pos);
    bytes::lemma_be_bytes_len(pos.seg as nat, 8);
    bytes::lemma_be_bytes_len(pos.off as nat, 8);
    reveal_with_fuel(bytes::le_bytes, 5);
}

/// A key has 16 bytes: the segment, then the offset, each in eight bytes with
/// the highest first.
pub proof fn law_key_layout(pos: Pos)
    ensures
        pos.key().len() == 16,
        bytes::be_value(pos.key().take(8)) == pos.seg,
        bytes::be_value(pos.key().skip(8)) == pos.off,
{
    bytes::lemma_pow256();
    bytes::lemma_be_bytes_len(pos.seg as nat, 8);
    bytes::lemma_be_bytes_len(pos.off as nat, 8);
    bytes::lemma_be_round_trip(pos.seg as nat, 8);
    bytes::lemma_be_round_trip(pos.off as nat, 8);
    assert(pos.key().take(8) =~= bytes::be_bytes(pos.seg as nat, 8));
    assert(pos.key().skip(8) =~= bytes::be_bytes(pos.off as nat, 8));
}

/// Reading resumes within the log: from the position that the head file names,
/// if that lies between the oldest segment and the end. One before the oldest
/// segment, or none, means the start of the oldest segment, so that nothing is
/// skipped; one past the end means the end.
pub proof fn law_head_is_placed_in_the_log(persisted: Option<Pos>, first: u64, tail: Pos)
    requires
        first <= tail.seg,
    ensures
        ({
            let head = open::placed(persisted, first, tail);
            let start = Pos { seg: first, off: 0 };
            &&& !head.before(start)
            &&& !tail.before(head)
            &&& persisted is None ==> head == start
            &&& persisted matches Some(p) ==> {
                &&& p.seg < first ==> head == start
                &&& p.seg >= first && (p.seg < tail.seg || p.seg == tail.seg && p.off <= tail.off)
                    ==> head == p
                &&& p.seg > tail.seg || p.seg == tail.seg && p.off > tail.off ==> head == tail
            }
        }),
{
}

/// One position comes before another if its segment does, or its offset in the
/// same segment.
pub proof fn law_positions_are_ordered(p: Pos, q: Pos)
    ensures
        p.before(q) <==> p.seg < q.seg || p.seg == q.seg && p.off < q.off,
        p.before(q) <==> bytes::lex_before(p.key(), q.key()),
{
    pos::law_keys_keep_arrival_order(p, q);
}

/// The key of a repository job names its level, then its record there: one
/// byte, 0 for immediate, 1 for priority and 2 for normal. Keys of a level that
/// is drained earlier come earlier in dictionary order.
pub proof fn law_repo_keys_name_level_and_record(
    level: Level,
    key: Seq<u8>,
    later: Level,
    other: Seq<u8>,
)
    ensures
        ({
            let full = repo::full_key(level, key);
            &&& full.len() == key.len() + 1
            &&& full[0] == match level {
                Level::Immediate => 0u8,
                Level::Priority => 1u8,
                Level::Normal => 2u8,
            }
            &&& full.skip(1) =~= key
            &&& level.following() == Some(later) ==> bytes::lex_before(
                full,
                repo::full_key(later, other),
            )
        }),
        repo::full_key(level, key) == repo::full_key(later, other) <==> level == later && key
            == other,
{
    let (a, b) = (repo::full_key(level, key), repo::full_key(later, other));
    assert(a.skip(1) =~= key);
    assert(b.skip(1) =~= other);
    assert(a[0] == level.number());
    assert(b[0] == later.number());
    reveal_with_fuel(bytes::lex_before, 2);
}

} // verus!
