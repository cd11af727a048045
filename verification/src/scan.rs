//! Counting the records of one segment, chunk by chunk.

use vstd::prelude::*;
use vstd::slice::slice_subrange;

use crate::record;
use crate::record::{parse_record, Parsed, MAX_RECORD, RECORD_HEADER};

verus! {

/// Bytes that are read at once, unless one record needs more.
pub const READ_CHUNK: u64 = 1024 * 1024;

/// The larger of the two.
pub open spec fn larger(a: int, b: int) -> int {
    if a < b {
        b
    } else {
        a
    }
}

/// The smaller of the two.
pub open spec fn smaller(a: int, b: int) -> int {
    if a < b {
        a
    } else {
        b
    }
}

/// The chunk that holds a record of `need` bytes.
pub fn chunk_for(need: usize) -> (chunk: u64)
    ensures
        chunk == larger(need as int, READ_CHUNK as int),
{
    if (need as u64) < READ_CHUNK {
        READ_CHUNK
    } else {
        need as u64
    }
}

/// A walk over the records in `[off, to)` of one segment.
#[derive(Clone, Copy, Debug)]
pub struct Scan {
    /// Just past the last valid record that was seen.
    pub off: u64,
    /// Where the walk ends at the latest.
    pub to: u64,
    /// Valid records that were seen.
    pub count: u64,
    /// Bytes to ask for next.
    pub chunk: u64,
    /// No valid record starts at `off`.
    pub ended: bool,
}

impl Scan {
    /// Every record that was counted lies before `off`.
    pub open spec fn wf(self) -> bool {
        &&& self.count <= self.off
        &&& READ_CHUNK <= self.chunk <= RECORD_HEADER + MAX_RECORD
    }

    /// The walk over `[from, to)`.
    pub open spec fn start(from: u64, to: u64) -> Scan {
        Scan { off: from, to, count: 0, chunk: READ_CHUNK, ended: false }
    }

    /// Whether nothing is left to read.
    pub open spec fn finished(self) -> bool {
        self.ended || self.off >= self.to
    }

    /// How many bytes to read at `off` next.
    pub open spec fn request(self) -> int {
        smaller(self.to - self.off, self.chunk as int)
    }

    /// The walk after `buf`, the bytes that it asked for.
    pub open spec fn after(self, buf: Seq<u8>) -> Scan {
        let used = record::valid_len(buf);
        let off = (self.off + used) as u64;
        let count = (self.count + record::records(buf).len()) as u64;
        match record::reading(buf.skip(used as int)) {
            record::Reading::Incomplete { need } if need <= self.to - off => Scan {
                off,
                to: self.to,
                count,
                chunk: larger(need as int, READ_CHUNK as int) as u64,
                ended: false,
            },
            _ => Scan { off, to: self.to, count, chunk: self.chunk, ended: true },
        }
    }

    pub fn new(from: u64, to: u64) -> (scan: Scan)
        ensures
            scan == Scan::start(from, to),
            scan.wf(),
    {
        Scan { off: from, to, count: 0, chunk: READ_CHUNK, ended: false }
    }

    /// How many bytes to read at `off`, if any.
    pub fn next(&self) -> (len: Option<u64>)
        ensures
            self.finished() ==> len is None,
            !self.finished() ==> len == Some(self.request() as u64),
    {
        if self.ended || self.off >= self.to {
            None
        } else if self.to - self.off < self.chunk {
            Some(self.to - self.off)
        } else {
            Some(self.chunk)
        }
    }

    /// Takes in the bytes that `next` asked for. Bytes of another length are
    /// refused.
    pub fn feed(&mut self, buf: &[u8]) -> (fits: bool)
        requires
            old(self).wf(),
        ensures
            final(self).wf(),
            fits == (!old(self).finished() && buf@.len() == old(self).request()),
            fits ==> *final(self) == old(self).after(buf@),
            !fits ==> *final(self) == *old(self),
    {
        let want: u64 = match self.next() {
            Some(len) => len,
            None => {
                return false;
            },
        };
        if buf.len() as u64 != want {
            return false;
        }
        let mut cursor: usize = 0;
        let ghost start = *self;
        let ghost mut seen: nat = 0;
        assert(buf@.skip(0) =~= buf@);
        loop
            invariant
                start == *old(self),
                start.wf(),
                !start.finished(),
                buf@.len() == start.request(),
                cursor <= buf@.len(),
                seen <= record::records(buf@).len(),
                cursor == record::span(buf@, seen),
                seen <= cursor,
                record::records(buf@.skip(cursor as int)) == record::records(buf@).skip(
                    seen as int,
                ),
                *self == (Scan {
                    off: (start.off + cursor) as u64,
                    count: (start.count + seen) as u64,
                    ..start
                }),
            decreases buf@.len() - cursor,
        {
            let ghost rest = buf@.skip(cursor as int);
            proof {
                record::lemma_reading_bounds(rest);
            }
            match parse_record(slice_subrange(buf, cursor, buf.len())) {
                Parsed::Record { payload, total } => {
                    assert(buf@.subrange(cursor as int, buf@.len() as int) =~= rest);
                    proof {
                        assert(record::records(rest) =~= seq![payload@] + record::records(
                            rest.skip(total as int),
                        ));
                        record::lemma_span_split(buf@, seen, 1);
                        assert(record::span(rest, 1) == total + record::span(
                            rest.skip(total as int),
                            0,
                        ));
                        record::lemma_records_split(buf@, seen + 1);
                    }
                    cursor = cursor + total;
                    self.count = self.count + 1;
                    self.off = self.off + total as u64;
                    proof {
                        seen = seen + 1;
                    }
                },
                Parsed::Incomplete { need } => {
                    assert(buf@.subrange(cursor as int, buf@.len() as int) =~= rest);
                    assert(record::records(rest) =~= Seq::<Seq<u8>>::empty());
                    assert(seen == record::records(buf@).len());
                    // A record that straddles the chunk boundary is read again,
                    // with a larger chunk.
                    if need as u64 <= self.to - self.off {
                        self.chunk = chunk_for(need);
                    } else {
                        self.ended = true;
                    }
                    return true;
                },
                Parsed::Corrupt => {
                    assert(buf@.subrange(cursor as int, buf@.len() as int) =~= rest);
                    assert(record::records(rest) =~= Seq::<Seq<u8>>::empty());
                    assert(seen == record::records(buf@).len());
                    self.ended = true;
                    return true;
                },
            }
        }
    }
}

/// The bytes that a walk over `file` still has before it.
pub open spec fn ahead(scan: Scan, file: Seq<u8>) -> Seq<u8> {
    if scan.off < scan.to {
        file.subrange(scan.off as int, scan.to as int)
    } else {
        Seq::empty()
    }
}

/// A walk over `file` that will end at `off` with `count` records.
pub open spec fn heading_for(scan: Scan, file: Seq<u8>, off: int, count: int) -> bool {
    let rest = ahead(scan, file);
    &&& scan.wf()
    &&& scan.off < scan.to ==> scan.to <= file.len()
    &&& scan.ended ==> off == scan.off && count == scan.count
    &&& !scan.ended ==> off == scan.off + record::valid_len(rest) && count == scan.count
        + record::records(rest).len()
}

/// How far a walk has to go: bytes, and how much the chunk can still grow.
pub open spec fn distance(scan: Scan) -> (int, int) {
    (scan.to - scan.off, RECORD_HEADER + MAX_RECORD - scan.chunk)
}

/// A walk starts out for the records of its range.
pub proof fn lemma_scan_starts(file: Seq<u8>, from: u64, to: u64)
    requires
        to <= file.len(),
    ensures
        ({
            let rest = ahead(Scan::start(from, to), file);
            heading_for(
                Scan::start(from, to),
                file,
                from + record::valid_len(rest),
                record::records(rest).len() as int,
            )
        }),
{
}

/// A walk that is over is where it headed for.
pub proof fn lemma_scan_ends(scan: Scan, file: Seq<u8>, off: int, count: int)
    requires
        heading_for(scan, file, off, count),
        scan.finished(),
    ensures
        off == scan.off,
        count == scan.count,
{
    if !scan.ended {
        assert(ahead(scan, file) =~= Seq::<u8>::empty());
        record::lemma_records_empty();
    }
}

/// The bytes that a walk asked for bring it nearer to its goal.
pub proof fn lemma_scan_steps(scan: Scan, file: Seq<u8>, off: int, count: int)
    requires
        heading_for(scan, file, off, count),
        !scan.finished(),
        file.len() <= u64::MAX,
    ensures
        ({
            let buf = file.subrange(scan.off as int, scan.off + scan.request());
            let after = scan.after(buf);
            &&& scan.off + scan.request() <= file.len()
            &&& heading_for(after, file, off, count)
            &&& !after.finished() ==> {
                ||| 0 <= distance(after).0 < distance(scan).0
                ||| distance(after).0 == distance(scan).0 && 0 <= distance(after).1 < distance(
                    scan,
                ).1
            }
        }),
{
    let rest = ahead(scan, file);
    let n = scan.request();
    let buf = file.subrange(scan.off as int, scan.off + n);
    assert(buf =~= rest.take(n));
    record::lemma_chunk(rest, n);
    record::lemma_records_prefix(rest, n);
    record::lemma_after_records(buf);
    let after = scan.after(buf);
    let used = record::valid_len(buf) as int;
    let found = record::records(buf).len();
    let tail = buf.skip(used);
    record::lemma_reading_bounds(tail);
    assert(found <= used) by {
        lemma_count_fits(buf, found);
    }
    assert(ahead(after, file) =~= rest.skip(used));
    record::lemma_span_split(rest, found, record::records(rest.skip(used)).len());
    if used == 0 {
        assert(tail =~= buf);
    }
}

/// Each record takes at least a byte.
proof fn lemma_count_fits(s: Seq<u8>, k: nat)
    requires
        k <= record::records(s).len(),
    ensures
        k <= record::span(s, k),
    decreases k,
{
    if k > 0 {
        record::lemma_reading_bounds(s);
        let total = record::reading(s)->total;
        assert(record::records(s) =~= seq![record::reading(s)->payload] + record::records(
            s.skip(total as int),
        ));
        lemma_count_fits(s.skip(total as int), (k - 1) as nat);
    }
}

} // verus!
