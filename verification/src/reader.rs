//! Reading records across segments, chunk by chunk.

use vstd::prelude::*;
use vstd::slice::{slice_subrange, slice_to_vec};

use crate::io;
use crate::io::{Action, Event};
use crate::pos::Pos;
use crate::record;
use crate::record::{parse_record, Parsed, MAX_RECORD, RECORD_HEADER};
use crate::scan;
use crate::scan::{chunk_for, READ_CHUNK};

verus! {

/// A record as it is handed out: its key and its payload.
pub type Record = (Vec<u8>, Vec<u8>);

/// The first `k` records of `s`, which starts at `pos`, with their keys.
pub open spec fn keyed(pos: Pos, s: Seq<u8>, k: nat) -> Seq<(Seq<u8>, Seq<u8>)> {
    Seq::new(
        k,
        |i: int|
            (
                Pos { seg: pos.seg, off: (pos.off + record::span(s, i as nat)) as u64 }.key(),
                record::records(s)[i],
            ),
    )
}

/// A walk over the records from `pos` up to `end`, at most `limit` of them.
#[derive(Debug)]
pub struct Reader {
    /// Where to resume.
    pub pos: Pos,
    pub end: Pos,
    pub limit: usize,
    /// The records that were read.
    pub out: Vec<Record>,
    /// Where the current segment ends, once it was measured.
    pub seg_end: Option<u64>,
    /// Bytes to ask for next.
    pub chunk: u64,
}

/// `Reader` with its records as sequences.
pub struct ReaderView {
    pub pos: Pos,
    pub end: Pos,
    pub limit: nat,
    pub out: Seq<(Seq<u8>, Seq<u8>)>,
    pub seg_end: Option<u64>,
    pub chunk: u64,
}

impl View for Reader {
    type V = ReaderView;

    open spec fn view(&self) -> ReaderView {
        ReaderView {
            pos: self.pos,
            end: self.end,
            limit: self.limit as nat,
            out: self.out.deep_view(),
            seg_end: self.seg_end,
            chunk: self.chunk,
        }
    }
}

impl ReaderView {
    /// The walk from `pos` to `end`.
    pub open spec fn start(pos: Pos, end: Pos, limit: nat) -> ReaderView {
        ReaderView { pos, end, limit, out: Seq::empty(), seg_end: None, chunk: READ_CHUNK }
    }

    /// Whether nothing is left to read.
    pub open spec fn finished(self) -> bool {
        self.out.len() >= self.limit || !self.pos.before(self.end)
    }

    /// A segment that was measured has bytes left, unless the walk is over.
    pub open spec fn wf(self) -> bool {
        &&& self.out.len() <= self.limit
        &&& READ_CHUNK <= self.chunk <= RECORD_HEADER + MAX_RECORD
        &&& self.seg_end is Some && !self.finished() ==> self.pos.off < self.seg_end->0
        &&& self.seg_end is Some && self.pos.seg == self.end.seg ==> self.seg_end->0 == self.end.off
    }

    /// How many bytes to read next.
    pub open spec fn request(self) -> int {
        scan::smaller(self.seg_end->0 - self.pos.off, self.chunk as int)
    }

    /// What to do next.
    pub open spec fn action(self) -> io::ActionView {
        match self.seg_end {
            None => io::ActionView::Measure { seg: self.pos.seg },
            Some(seg_end) => io::ActionView::Read {
                seg: self.pos.seg,
                off: self.pos.off,
                len: self.request() as u64,
            },
        }
    }

    /// On to the next segment, where the current one is used up.
    pub open spec fn settled(self) -> ReaderView {
        match self.seg_end {
            Some(seg_end) if self.pos.off >= seg_end && self.pos.seg < self.end.seg => ReaderView {
                pos: Pos { seg: (self.pos.seg + 1) as u64, off: 0 },
                seg_end: None,
                chunk: READ_CHUNK,
                ..self
            },
            _ => self,
        }
    }

    /// The walk once the current segment is known to have `len` bytes. The
    /// last segment is read up to `end` alone.
    pub open spec fn measured(self, len: u64) -> ReaderView {
        let seg_end = if self.pos.seg < self.end.seg {
            len
        } else {
            self.end.off
        };
        ReaderView { seg_end: Some(seg_end), ..self }.settled()
    }

    /// The walk after the bytes that it asked for. A record that is torn or
    /// corrupt ends the segment.
    pub open spec fn absorbed(self, buf: Seq<u8>) -> ReaderView {
        let room = (self.limit - self.out.len()) as nat;
        let found = record::records(buf).len();
        if found >= room {
            ReaderView {
                pos: Pos {
                    seg: self.pos.seg,
                    off: (self.pos.off + record::span(buf, room)) as u64,
                },
                out: self.out + keyed(self.pos, buf, room),
                ..self
            }.settled()
        } else {
            let used = record::valid_len(buf);
            let off = (self.pos.off + used) as u64;
            let out = self.out + keyed(self.pos, buf, found);
            match record::reading(buf.skip(used as int)) {
                record::Reading::Incomplete { need } if need <= self.seg_end->0 - off => ReaderView {
                    pos: Pos { seg: self.pos.seg, off },
                    out,
                    chunk: scan::larger(need as int, READ_CHUNK as int) as u64,
                    ..self
                }.settled(),
                _ => ReaderView {
                    pos: Pos { seg: self.pos.seg, off: self.seg_end->0 },
                    out,
                    ..self
                }.settled(),
            }
        }
    }

    /// Whether `event` answers the action that was asked for.
    pub open spec fn fits(self, event: io::EventView) -> bool {
        !self.finished() && match (self.seg_end, event) {
            (None, io::EventView::Length(_)) => true,
            (Some(_), io::EventView::Bytes(buf)) => buf.len() == self.request(),
            _ => false,
        }
    }

    /// The walk after `event`.
    pub open spec fn after(self, event: io::EventView) -> ReaderView {
        match event {
            io::EventView::Length(len) => self.measured(len),
            io::EventView::Bytes(buf) => self.absorbed(buf),
            _ => self,
        }
    }
}

impl Reader {
    pub fn new(pos: Pos, end: Pos, limit: usize) -> (reader: Reader)
        ensures
            reader@ == ReaderView::start(pos, end, limit as nat),
            reader@.wf(),
    {
        let reader = Reader { pos, end, limit, out: Vec::new(), seg_end: None, chunk: READ_CHUNK };
        assert(reader.out.deep_view() =~= Seq::<(Seq<u8>, Seq<u8>)>::empty());
        reader
    }

    /// What to do next, or nothing once the walk is over.
    pub fn next(&self) -> (action: Option<Action>)
        requires
            self@.wf(),
        ensures
            self@.finished() ==> action is None,
            !self@.finished() ==> action is Some && action->0@ == self@.action(),
    {
        assert(self@.out.len() == self.out@.len());
        if self.out.len() >= self.limit || !self.pos.is_before(self.end) {
            return None;
        }
        match self.seg_end {
            None => Some(Action::Measure { seg: self.pos.seg }),
            Some(seg_end) => {
                let left: u64 = seg_end - self.pos.off;
                let len: u64 = if left < self.chunk {
                    left
                } else {
                    self.chunk
                };
                Some(Action::Read { seg: self.pos.seg, off: self.pos.off, len })
            },
        }
    }

    fn settle(&mut self)
        ensures
            final(self)@ == old(self)@.settled(),
    {
        match self.seg_end {
            Some(seg_end) => {
                if self.pos.off >= seg_end && self.pos.seg < self.end.seg {
                    self.pos = Pos { seg: self.pos.seg + 1, off: 0 };
                    self.seg_end = None;
                    self.chunk = READ_CHUNK;
                }
            },
            None => {},
        }
    }

    /// Takes in the event that answers `next`. Any other event is refused.
    pub fn feed(&mut self, event: &Event) -> (fits: bool)
        requires
            old(self)@.wf(),
        ensures
            final(self)@.wf(),
            fits == old(self)@.fits(event@),
            fits ==> final(self)@ == old(self)@.after(event@),
            !fits ==> final(self)@ == old(self)@,
    {
        assert(self@.out.len() == self.out@.len());
        if self.out.len() >= self.limit || !self.pos.is_before(self.end) {
            return false;
        }
        match event {
            Event::Length(len) => {
                if self.seg_end.is_some() {
                    return false;
                }
                let seg_end: u64 = if self.pos.seg < self.end.seg {
                    *len
                } else {
                    self.end.off
                };
                self.seg_end = Some(seg_end);
                self.settle();
                true
            },
            Event::Bytes(buf) => {
                let seg_end: u64 = match self.seg_end {
                    Some(seg_end) => seg_end,
                    None => {
                        return false;
                    },
                };
                let left: u64 = seg_end - self.pos.off;
                let want: u64 = if left < self.chunk {
                    left
                } else {
                    self.chunk
                };
                if buf.len() as u64 != want {
                    return false;
                }
                self.absorb(buf.as_slice(), seg_end);
                self.settle();
                true
            },
            _ => false,
        }
    }

    /// Takes the records of `buf`, up to the limit.
    fn absorb(&mut self, buf: &[u8], seg_end: u64)
        requires
            old(self)@.wf(),
            !old(self)@.finished(),
            old(self).seg_end == Some(seg_end),
            buf@.len() == old(self)@.request(),
        ensures
            final(self)@.settled() == old(self)@.absorbed(buf@),
            final(self)@.settled().wf(),
    {
        let ghost start = self@;
        let ghost room = (start.limit - start.out.len()) as nat;
        let mut cursor: usize = 0;
        let ghost mut seen: nat = 0;
        proof {
            assert(buf@.skip(0) =~= buf@);
            assert(self@.out =~= start.out + keyed(start.pos, buf@, 0));
        }
        while self.out.len() < self.limit
            invariant
                start == old(self)@,
                start.wf(),
                !start.finished(),
                start.seg_end == Some(seg_end),
                buf@.len() == start.request(),
                room == start.limit - start.out.len(),
                cursor <= buf@.len(),
                seen <= record::records(buf@).len(),
                seen <= room,
                cursor == record::span(buf@, seen),
                record::records(buf@.skip(cursor as int)) == record::records(buf@).skip(
                    seen as int,
                ),
                self@ == (ReaderView {
                    pos: Pos { seg: start.pos.seg, off: (start.pos.off + cursor) as u64 },
                    out: start.out + keyed(start.pos, buf@, seen),
                    ..start
                }),
                self.out@.len() == self@.out.len(),
            decreases room - seen,
        {
            let ghost rest = buf@.skip(cursor as int);
            let ghost before = self@;
            proof {
                record::lemma_reading_bounds(rest);
                assert(buf@.subrange(cursor as int, buf@.len() as int) =~= rest);
            }
            match parse_record(slice_subrange(buf, cursor, buf.len())) {
                Parsed::Record { payload, total } => {
                    self.out.push((self.pos.to_key(), slice_to_vec(payload)));
                    proof {
                        assert(record::records(rest) =~= seq![payload@] + record::records(
                            rest.skip(total as int),
                        ));
                        assert(record::records(buf@)[seen as int] == record::records(rest)[0]);
                        record::lemma_span_split(buf@, seen, 1);
                        assert(record::span(rest, 1) == total + record::span(
                            rest.skip(total as int),
                            0,
                        ));
                        record::lemma_records_split(buf@, seen + 1);
                        let item = self.out@.last();
                        assert(item.0.deep_view() =~= item.0@);
                        assert(item.1.deep_view() =~= item.1@);
                        assert(self.out.deep_view() =~= before.out.push((item.0@, item.1@)));
                        assert(keyed(start.pos, buf@, seen + 1) =~= keyed(
                            start.pos,
                            buf@,
                            seen,
                        ).push((item.0@, item.1@)));
                        assert(self.out.deep_view() =~= start.out + keyed(
                            start.pos,
                            buf@,
                            seen + 1,
                        ));
                    }
                    cursor = cursor + total;
                    self.pos = Pos { seg: self.pos.seg, off: self.pos.off + total as u64 };
                    proof {
                        seen = seen + 1;
                    }
                },
                Parsed::Incomplete { need } => {
                    assert(record::records(rest) =~= Seq::<Seq<u8>>::empty());
                    assert(seen == record::records(buf@).len());
                    if need as u64 <= seg_end - self.pos.off {
                        self.chunk = chunk_for(need);
                    } else {
                        self.pos = Pos { seg: self.pos.seg, off: seg_end };
                    }
                    return ;
                },
                Parsed::Corrupt => {
                    assert(record::records(rest) =~= Seq::<Seq<u8>>::empty());
                    assert(seen == record::records(buf@).len());
                    self.pos = Pos { seg: self.pos.seg, off: seg_end };
                    return ;
                },
            }
        }
        assert(seen == room);
    }
}

} // verus!
