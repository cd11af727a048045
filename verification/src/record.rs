//! The framing of one record: `[u32 len][u32 crc32][payload]`, both numbers
//! little-endian.

use vstd::prelude::*;
use vstd::slice::slice_subrange;

use crate::bytes;
use crate::checksum;
use crate::bytes::{u32_from_le, u32_le};
use crate::checksum::crc32;

verus! {

/// Bytes before the payload.
pub const RECORD_HEADER: usize = 8;

/// Anything larger is treated as corruption rather than allocated.
pub const MAX_RECORD: usize = 64 * 1024 * 1024;

/// What a buffer holds at its start.
#[derive(Debug)]
pub enum Parsed<'a> {
    Record { payload: &'a [u8], total: usize },
    /// The buffer ends before the record does; `need` bytes would hold it.
    Incomplete { need: usize },
    Corrupt,
}

/// `Parsed` with the payload as a sequence.
pub enum Reading {
    Record { payload: Seq<u8>, total: nat },
    Incomplete { need: nat },
    Corrupt,
}

impl<'a> View for Parsed<'a> {
    type V = Reading;

    open spec fn view(&self) -> Reading {
        match self {
            Parsed::Record { payload, total } => Reading::Record {
                payload: payload@,
                total: *total as nat,
            },
            Parsed::Incomplete { need } => Reading::Incomplete { need: *need as nat },
            Parsed::Corrupt => Reading::Corrupt,
        }
    }
}

/// The frame that holds `payload`. The length field keeps the low 32 bits of
/// the payload's length.
pub open spec fn frame(payload: Seq<u8>) -> Seq<u8> {
    bytes::le_bytes(payload.len(), 4) + bytes::le_bytes(
        checksum::crc32_of(payload) as nat,
        4,
    ) + payload
}

/// The payloads that a reader accepts: not empty, since a zero-filled region
/// reads as empty records, and not larger than `MAX_RECORD`.
pub open spec fn storable(payload: Seq<u8>) -> bool {
    0 < payload.len() <= MAX_RECORD
}

/// The payloads that can be framed but are never read back: a reader takes the
/// length of their frame for corruption.
pub open spec fn unreadable(payload: Seq<u8>) -> bool {
    payload.len() == 0 || MAX_RECORD < payload.len() <= u32::MAX
}

/// What `buf` holds at its start.
pub open spec fn reading(buf: Seq<u8>) -> Reading {
    if buf.len() < RECORD_HEADER {
        Reading::Incomplete { need: RECORD_HEADER as nat }
    } else {
        let len = bytes::le_value(buf.subrange(0, 4));
        let total = RECORD_HEADER as nat + len;
        if len == 0 || len > MAX_RECORD {
            Reading::Corrupt
        } else if buf.len() < total {
            Reading::Incomplete { need: total }
        } else if checksum::crc32_of(buf.subrange(RECORD_HEADER as int, total as int))
            != bytes::le_value(buf.subrange(4, 8)) {
            Reading::Corrupt
        } else {
            Reading::Record { payload: buf.subrange(RECORD_HEADER as int, total as int), total }
        }
    }
}

/// A frame is a header longer than its payload.
pub proof fn lemma_frame_len(payload: Seq<u8>)
    ensures
        frame(payload).len() == RECORD_HEADER + payload.len(),
{
    bytes::lemma_le_bytes_len(payload.len(), 4);
    bytes::lemma_le_bytes_len(checksum::crc32_of(payload) as nat, 4);
}

/// Appends the frame of `payload` to `out`.
pub fn encode_record(out: &mut Vec<u8>, payload: &[u8])
    ensures
        final(out)@ == old(out)@ + frame(payload@),
{
    let len: u32 = (payload.len() as u64 % 0x1_0000_0000u64) as u32;
    let mut len_field: Vec<u8> = u32_le(len);
    let mut sum_field: Vec<u8> = u32_le(crc32(payload));
    let mut body: Vec<u8> = vstd::slice::slice_to_vec(payload);
    proof {
        lemma_low_bytes(payload@.len());
    }
    out.append(&mut len_field);
    out.append(&mut sum_field);
    out.append(&mut body);
    assert(out@ =~= old(out)@ + frame(payload@));
}

/// Four bytes hold a number up to a multiple of `2^32`.
proof fn lemma_low_bytes(x: nat)
    ensures
        bytes::le_bytes(x, 4) == bytes::le_bytes(x % 0x1_0000_0000, 4),
{
    let q = x / 0x1_0000_0000;
    let y = x % 0x1_0000_0000;
    assert(x == q * 0x1_0000_0000 + y);
    assert(x / 256 == q * 0x100_0000 + y / 256);
    assert(x / 256 / 256 == q * 0x1_0000 + y / 256 / 256);
    assert(x / 256 / 256 / 256 == q * 0x100 + y / 256 / 256 / 256);
    assert(x % 256 == y % 256);
    assert((x / 256) % 256 == (y / 256) % 256);
    assert((x / 256 / 256) % 256 == (y / 256 / 256) % 256);
    assert((x / 256 / 256 / 256) % 256 == (y / 256 / 256 / 256) % 256);
    reveal_with_fuel(bytes::le_bytes, 5);
}

/// Reads the record at the start of `buf`.
pub fn parse_record<'a>(buf: &'a [u8]) -> (parsed: Parsed<'a>)
    ensures
        parsed@ == reading(buf@),
{
    if buf.len() < RECORD_HEADER {
        return Parsed::Incomplete { need: RECORD_HEADER };
    }
    let len: usize = u32_from_le(buf, 0) as usize;
    let want: u32 = u32_from_le(buf, 4);
    // A zero length with a zero checksum is what a zero-filled region parses
    // as, so empty records are rejected rather than trusted.
    if len == 0 || len > MAX_RECORD {
        return Parsed::Corrupt;
    }
    let total: usize = RECORD_HEADER + len;
    if buf.len() < total {
        return Parsed::Incomplete { need: total };
    }
    let payload: &[u8] = slice_subrange(buf, RECORD_HEADER, total);
    if crc32(payload) != want {
        return Parsed::Corrupt;
    }
    Parsed::Record { payload, total }
}

/// The payloads of the records that lie end to end from the start of `s`, up
/// to the first place where no whole valid record starts.
pub open spec fn records(s: Seq<u8>) -> Seq<Seq<u8>>
    decreases s.len(),
{
    match reading(s) {
        Reading::Record { payload, total } => if total <= s.len() && total > 0 {
            seq![payload] + records(s.skip(total as int))
        } else {
            Seq::empty()
        },
        _ => Seq::empty(),
    }
}

/// The number of bytes that the first `k` of those records take.
pub open spec fn span(s: Seq<u8>, k: nat) -> nat
    decreases k,
{
    if k == 0 {
        0
    } else {
        match reading(s) {
            Reading::Record { payload, total } => total + span(s.skip(total as int), (k - 1) as nat),
            _ => 0,
        }
    }
}

/// The number of bytes that all of those records take.
pub open spec fn valid_len(s: Seq<u8>) -> nat {
    span(s, records(s).len())
}

/// A storable payload reads back as itself, whatever follows its frame.
pub proof fn law_record_round_trip(payload: Seq<u8>, rest: Seq<u8>)
    requires
        storable(payload),
    ensures
        reading(frame(payload) + rest) == (Reading::Record {
            payload,
            total: RECORD_HEADER as nat + payload.len(),
        }),
{
    let buf = frame(payload) + rest;
    let sum = checksum::crc32_of(payload) as nat;
    bytes::lemma_pow256();
    bytes::lemma_le_bytes_len(payload.len(), 4);
    bytes::lemma_le_bytes_len(sum, 4);
    bytes::lemma_le_round_trip(payload.len(), 4);
    bytes::lemma_le_round_trip(sum, 4);
    assert(buf.subrange(0, 4) =~= bytes::le_bytes(payload.len(), 4));
    assert(buf.subrange(4, 8) =~= bytes::le_bytes(sum, 4));
    assert(buf.subrange(8, 8 + payload.len() as int) =~= payload);
}

/// Every byte of `s` belongs to a valid record.
pub open spec fn whole(s: Seq<u8>) -> bool {
    valid_len(s) == s.len()
}

/// The frame of an unreadable payload reads as corruption, whatever follows it.
pub proof fn lemma_unreadable(payload: Seq<u8>, rest: Seq<u8>)
    requires
        unreadable(payload),
    ensures
        reading(frame(payload) + rest) == Reading::Corrupt,
{
    let buf = frame(payload) + rest;
    let len = bytes::le_bytes(payload.len(), 4);
    bytes::lemma_pow256();
    lemma_frame_len(payload);
    bytes::lemma_le_bytes_len(payload.len(), 4);
    bytes::lemma_le_round_trip(payload.len(), 4);
    assert(buf.subrange(0, 4) =~= len);
}

/// A record that is read lies within the buffer and takes more than a header.
pub proof fn lemma_reading_bounds(s: Seq<u8>)
    ensures
        reading(s) matches Reading::Record { payload, total } ==> RECORD_HEADER < total <= s.len()
            && total == RECORD_HEADER + payload.len() && storable(payload),
        reading(s) matches Reading::Incomplete { need } ==> s.len() < need <= RECORD_HEADER
            + MAX_RECORD && RECORD_HEADER <= need,
{
}

/// What the first `n` bytes of `s` show of the record at its start.
pub proof fn lemma_reading_prefix(s: Seq<u8>, n: int)
    requires
        0 <= n <= s.len(),
    ensures
        reading(s.take(n)) is Record ==> reading(s) == reading(s.take(n)),
        reading(s.take(n)) is Corrupt ==> reading(s) is Corrupt,
        reading(s.take(n)) matches Reading::Incomplete { need } ==> (need > s.len() ==> reading(
            s,
        ) is Incomplete),
{
    let b = s.take(n);
    if n >= RECORD_HEADER {
        assert(b.subrange(0, 4) =~= s.subrange(0, 4));
        assert(b.subrange(4, 8) =~= s.subrange(4, 8));
        let total = RECORD_HEADER + bytes::le_value(s.subrange(0, 4));
        if total <= n {
            assert(b.subrange(RECORD_HEADER as int, total) =~= s.subrange(
                RECORD_HEADER as int,
                total,
            ));
        }
    }
}

/// The bytes after the first `k` records hold the other records.
pub proof fn lemma_records_split(s: Seq<u8>, k: nat)
    requires
        k <= records(s).len(),
    ensures
        span(s, k) <= s.len(),
        records(s.skip(span(s, k) as int)) =~= records(s).skip(k as int),
    decreases k,
{
    lemma_reading_bounds(s);
    if k == 0 {
        assert(s.skip(0) =~= s);
    } else {
        let total = reading(s)->total;
        let rest = s.skip(total as int);
        assert(records(s) =~= seq![reading(s)->payload] + records(rest));
        lemma_records_split(rest, (k - 1) as nat);
        assert(rest.skip(span(rest, (k - 1) as nat) as int) =~= s.skip(span(s, k) as int));
        assert(records(s).skip(k as int) =~= records(rest).skip(k - 1));
    }
}

/// Records take their bytes one after the other.
pub proof fn lemma_span_split(s: Seq<u8>, j: nat, k: nat)
    requires
        j + k <= records(s).len(),
    ensures
        span(s, j + k) == span(s, j) + span(s.skip(span(s, j) as int), k),
    decreases j,
{
    lemma_reading_bounds(s);
    if j == 0 {
        assert(s.skip(0) =~= s);
    } else {
        let total = reading(s)->total;
        let rest = s.skip(total as int);
        assert(records(s) =~= seq![reading(s)->payload] + records(rest));
        lemma_span_split(rest, (j - 1) as nat, k);
        lemma_records_split(rest, (j - 1) as nat);
        assert(rest.skip(span(rest, (j - 1) as nat) as int) =~= s.skip(span(s, j) as int));
    }
}

/// No valid record starts where the records of `s` end.
pub proof fn lemma_after_records(s: Seq<u8>)
    ensures
        valid_len(s) <= s.len(),
        !(reading(s.skip(valid_len(s) as int)) is Record),
{
    let n = records(s).len();
    lemma_records_split(s, n);
    let rest = s.skip(span(s, n) as int);
    assert(records(rest) =~= Seq::<Seq<u8>>::empty());
    lemma_reading_bounds(rest);
    if reading(rest) is Record {
        assert(records(rest).len() > 0);
    }
}

/// The records of a prefix are the first records of the whole.
pub proof fn lemma_records_prefix(s: Seq<u8>, n: int)
    requires
        0 <= n <= s.len(),
    ensures
        ({
            let b = s.take(n);
            let m = records(b).len();
            &&& m <= records(s).len()
            &&& records(b) =~= records(s).take(m as int)
            &&& forall|k: nat| k <= m ==> #[trigger] span(b, k) == span(s, k)
            &&& valid_len(b) <= n
        }),
    decreases n,
{
    let b = s.take(n);
    lemma_reading_prefix(s, n);
    lemma_reading_bounds(b);
    if reading(b) is Record {
        let total = reading(b)->total as int;
        let payload = reading(b)->payload;
        lemma_records_prefix(s.skip(total), n - total);
        assert(b.skip(total) =~= s.skip(total).take(n - total));
        assert(records(b) =~= seq![payload] + records(b.skip(total)));
        assert(records(s) =~= seq![payload] + records(s.skip(total)));
        assert forall|k: nat| k <= records(b).len() implies #[trigger] span(b, k) == span(s, k) by {
            if k > 0 {
                assert(span(b.skip(total), (k - 1) as nat) == span(s.skip(total), (k - 1) as nat));
            }
        }
    }
    lemma_after_records(b);
}

/// What the first `n` bytes of `s` show of all its records: those found in
/// them, and whether others follow.
pub proof fn lemma_chunk(s: Seq<u8>, n: int)
    requires
        0 <= n <= s.len(),
    ensures
        ({
            let b = s.take(n);
            let used = valid_len(b) as int;
            let rest = s.skip(used);
            &&& used <= n
            &&& records(s) =~= records(b) + records(rest)
            &&& used == span(s, records(b).len())
            &&& reading(b.skip(used)) is Corrupt ==> records(rest).len() == 0
            &&& reading(b.skip(used)) matches Reading::Incomplete { need } ==> (need > rest.len()
                ==> records(rest).len() == 0)
            &&& !(reading(b.skip(used)) is Record)
        }),
{
    let b = s.take(n);
    let m = records(b).len();
    lemma_records_prefix(s, n);
    lemma_records_split(s, m);
    lemma_after_records(b);
    let used = valid_len(b) as int;
    assert(span(b, m) == span(s, m));
    let rest = s.skip(used);
    assert(b.skip(used) =~= rest.take(n - used));
    lemma_reading_prefix(rest, n - used);
    assert(records(s) =~= records(s).take(m as int) + records(s).skip(m as int));
}

/// Records that fill `a` come first, whatever follows.
pub proof fn lemma_records_concat(a: Seq<u8>, b: Seq<u8>)
    requires
        whole(a),
    ensures
        records(a + b) =~= records(a) + records(b),
        valid_len(a + b) == a.len() + valid_len(b),
    decreases a.len(),
{
    let s = a + b;
    let m = records(a).len();
    assert(s.take(a.len() as int) =~= a);
    lemma_records_prefix(s, a.len() as int);
    lemma_records_split(s, m);
    assert(span(a, m) == span(s, m));
    assert(s.skip(a.len() as int) =~= b);
    assert(records(s) =~= records(s).take(m as int) + records(s).skip(m as int));
    lemma_span_split(s, m, records(b).len());
}

/// Nothing is read of an empty buffer.
pub proof fn lemma_records_empty()
    ensures
        records(Seq::<u8>::empty()) =~= Seq::<Seq<u8>>::empty(),
        whole(Seq::<u8>::empty()),
{
}

/// A frame of a storable payload holds that one record and nothing else.
pub proof fn lemma_records_of_frame(payload: Seq<u8>)
    requires
        storable(payload),
    ensures
        records(frame(payload)) =~= seq![payload],
        whole(frame(payload)),
        frame(payload).len() == RECORD_HEADER + payload.len(),
{
    let empty = Seq::<u8>::empty();
    law_record_round_trip(payload, empty);
    let f = frame(payload);
    assert(f + empty =~= f);
    bytes::lemma_le_bytes_len(payload.len(), 4);
    bytes::lemma_le_bytes_len(checksum::crc32_of(payload) as nat, 4);
    assert(f.skip(f.len() as int) =~= empty);
    lemma_records_empty();
    assert(records(f) =~= seq![payload] + records(empty));
    assert(span(f, 1) == f.len() + span(f.skip(f.len() as int), 0));
}

} // verus!
