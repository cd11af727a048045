//! A log directory held in memory, and what a log directory is taken to
//! answer.

use vstd::prelude::*;
use vstd::slice::{slice_subrange, slice_to_vec};
use vstd::string::StringExecFns;

use crate::head::HEAD_LEN;
use crate::io;
use crate::io::{Action, Event};
use crate::names;
use crate::names::segment_path;

verus! {

/// One segment file.
#[derive(Debug)]
pub struct Segment {
    pub id: u64,
    pub bytes: Vec<u8>,
}

/// A log directory in memory: the segment files, the head file and a clock.
#[derive(Debug)]
pub struct Disk {
    pub segs: Vec<Segment>,
    pub head: Vec<u8>,
    pub now: u128,
}

/// The contents of a log directory.
#[verifier::ext_equal]
pub struct DiskView {
    /// The bytes of each segment file.
    pub segs: Map<u64, Seq<u8>>,
    /// The bytes of the head file.
    pub head: Seq<u8>,
    /// The time on the clock.
    pub now: u128,
}

impl View for Disk {
    type V = DiskView;

    open spec fn view(&self) -> DiskView {
        DiskView {
            segs: Map::new(
                |id: u64| exists|i: int| is_at(self.segs@, i, id),
                |id: u64| self.segs@[choose|i: int| is_at(self.segs@, i, id)].bytes@,
            ),
            head: self.head@,
            now: self.now,
        }
    }
}

/// Segment `id` is the `i`-th.
pub open spec fn is_at(segs: Seq<Segment>, i: int, id: u64) -> bool {
    0 <= i < segs.len() && segs[i].id == id
}

/// The bytes of a file after `bytes` were written at `off`.
pub open spec fn written(file: Seq<u8>, off: int, bytes: Seq<u8>) -> Seq<u8> {
    if off + bytes.len() < file.len() {
        file.take(off) + bytes + file.skip(off + bytes.len())
    } else {
        file.take(off) + bytes
    }
}

/// `names` names each segment of `ids` once.
pub open spec fn lists(names: Seq<Seq<char>>, ids: Set<u64>) -> bool {
    &&& names::segment_ids(names).no_duplicates()
    &&& names::segment_ids(names).to_set() =~= ids
}

impl DiskView {
    /// The directory with `bytes` as the contents of segment `seg`.
    pub open spec fn with(self, seg: u64, bytes: Seq<u8>) -> DiskView {
        DiskView { segs: self.segs.insert(seg, bytes), ..self }
    }

    /// The lengths of files fit in 64 bits.
    pub open spec fn wf(self) -> bool {
        forall|seg: u64| #[trigger]
            self.segs.contains_key(seg) ==> self.segs[seg].len() <= u64::MAX
    }
}

/// What a log directory answers: from `d` on, action `a` leads to event `e`
/// and leaves `d2`. Files have no gaps: to write past the end fails.
pub open spec fn answers(
    d: DiskView,
    a: io::ActionView,
    e: io::EventView,
    d2: DiskView,
) -> bool {
    match a {
        io::ActionView::List => {
            &&& d2 == d
            &&& e is Names
            &&& lists(e->Names_0, d.segs.dom())
        },
        io::ActionView::ReadHead => {
            &&& d2 == d
            &&& e == io::EventView::Bytes(
                if d.head.len() < HEAD_LEN {
                    d.head
                } else {
                    d.head.take(HEAD_LEN as int)
                },
            )
        },
        io::ActionView::OpenTail { seg } => if d.segs.contains_key(seg) {
            d2 == d && e == io::EventView::Length(d.segs[seg].len() as u64)
        } else {
            d2 == d.with(seg, Seq::empty()) && e == io::EventView::Length(0)
        },
        io::ActionView::Measure { seg } => if d.segs.contains_key(seg) {
            d2 == d && e == io::EventView::Length(d.segs[seg].len() as u64)
        } else {
            d2 == d && e == io::EventView::Failed
        },
        io::ActionView::Read { seg, off, len } => if d.segs.contains_key(seg) && off + len
            <= d.segs[seg].len() {
            d2 == d && e == io::EventView::Bytes(
                d.segs[seg].subrange(off as int, off + len),
            )
        } else {
            d2 == d && e == io::EventView::Failed
        },
        io::ActionView::Truncate { seg, len } => if d.segs.contains_key(seg) && len
            <= d.segs[seg].len() {
            d2 == d.with(seg, d.segs[seg].take(len as int)) && e
                == io::EventView::Performed
        } else {
            d2 == d && e == io::EventView::Failed
        },
        io::ActionView::Create { seg } => if !d.segs.contains_key(seg) {
            d2 == d.with(seg, Seq::empty()) && e == io::EventView::Performed
        } else {
            d2 == d && e == io::EventView::Failed
        },
        io::ActionView::Write { seg, off, bytes } => if d.segs.contains_key(seg) && off
            <= d.segs[seg].len() {
            d2 == d.with(seg, written(d.segs[seg], off as int, bytes)) && e
                == io::EventView::Performed
        } else {
            d2 == d && e == io::EventView::Failed
        },
        io::ActionView::Sync { seg } => {
            d2 == d && e == if d.segs.contains_key(seg) {
                io::EventView::Performed
            } else {
                io::EventView::Failed
            }
        },
        io::ActionView::Remove { seg } => if d.segs.contains_key(seg) {
            d2 == (DiskView { segs: d.segs.remove(seg), ..d }) && e
                == io::EventView::Performed
        } else {
            d2 == d && e == io::EventView::Failed
        },
        io::ActionView::WriteHead { bytes } => {
            d2 == (DiskView { head: written(d.head, 0, bytes), ..d }) && e
                == io::EventView::Performed
        },
        io::ActionView::Now => d2 == d && e == io::EventView::Time(d.now),
        io::ActionView::LockHead
        | io::ActionView::UnlockHead
        | io::ActionView::LockWriter
        | io::ActionView::UnlockWriter => d2 == d && e == io::EventView::Performed,
    }
}

impl Disk {
    /// No segment occurs twice.
    pub open spec fn wf(&self) -> bool {
        forall|i: int, j: int|
            0 <= i < j < self.segs@.len() ==> (#[trigger] self.segs@[i]).id != (
            #[trigger] self.segs@[j]).id
    }

    /// An empty directory.
    pub fn new() -> (disk: Disk)
        ensures
            disk.wf(),
            disk@.segs =~= Map::<u64, Seq<u8>>::empty(),
            disk@.head == Seq::<u8>::empty(),
            disk@.now == 0,
    {
        Disk { segs: Vec::new(), head: Vec::new(), now: 0 }
    }

    proof fn lemma_at(&self, i: int)
        requires
            self.wf(),
            0 <= i < self.segs@.len(),
        ensures
            self@.segs.contains_key(self.segs@[i].id),
            self@.segs[self.segs@[i].id] == self.segs@[i].bytes@,
    {
        let id = self.segs@[i].id;
        assert(is_at(self.segs@, i, id));
        let j = choose|j: int| is_at(self.segs@, j, id);
        assert(is_at(self.segs@, j, id));
        assert(i == j);
    }

    /// The lengths of files in memory fit in 64 bits.
    pub proof fn lemma_views(&self)
        requires
            self.wf(),
        ensures
            self@.wf(),
    {
        assert forall|seg: u64| #[trigger] self@.segs.contains_key(seg) implies self@.segs[seg].len()
            <= u64::MAX by {
            let i = choose|i: int| is_at(self.segs@, i, seg);
            self.lemma_at(i);
            assert(self.segs@[i].bytes.len() <= usize::MAX);
        }
    }

    /// The place of segment `seg`.
    fn find(&self, seg: u64) -> (place: Option<usize>)
        requires
            self.wf(),
        ensures
            match place {
                Some(i) => is_at(self.segs@, i as int, seg) && self@.segs.contains_key(seg)
                    && self@.segs[seg] == self.segs@[i as int].bytes@,
                None => !self@.segs.contains_key(seg) && (forall|j: int|
                    0 <= j < self.segs@.len() ==> (#[trigger] self.segs@[j]).id != seg),
            },
    {
        let mut i: usize = 0;
        while i < self.segs.len()
            invariant
                self.wf(),
                i <= self.segs@.len(),
                forall|j: int| 0 <= j < i ==> (#[trigger] self.segs@[j]).id != seg,
            decreases self.segs@.len() - i,
        {
            if self.segs[i].id == seg {
                proof {
                    self.lemma_at(i as int);
                }
                return Some(i);
            }
            i = i + 1;
        }
        None
    }

    /// The bytes of segment `seg`, if there is such a segment.
    pub fn segment(&self, seg: u64) -> (bytes: Option<Vec<u8>>)
        requires
            self.wf(),
        ensures
            bytes is Some <==> self@.segs.contains_key(seg),
            bytes matches Some(b) ==> b@ == self@.segs[seg],
    {
        match self.find(seg) {
            Some(i) => Some(slice_to_vec(self.segs[i].bytes.as_slice())),
            None => None,
        }
    }

    /// Gives segment `seg` the contents `bytes`, creating it if it is missing.
    pub fn set_segment(&mut self, seg: u64, bytes: Vec<u8>)
        requires
            old(self).wf(),
        ensures
            final(self).wf(),
            final(self)@ =~= old(self)@.with(seg, bytes@),
    {
        match self.find(seg) {
            Some(i) => {
                self.segs.set(i, Segment { id: seg, bytes });
            },
            None => {
                self.segs.push(Segment { id: seg, bytes });
            },
        }
        proof {
            assert(self.wf());
            let before = *old(self);
            let want = before@.with(seg, bytes@);
            assert forall|id: u64| self@.segs.contains_key(id) == want.segs.contains_key(id) by {
                if before@.segs.contains_key(id) {
                    let i = choose|i: int| is_at(before.segs@, i, id);
                    assert(is_at(self.segs@, i, id));
                }
                if self@.segs.contains_key(id) && id != seg {
                    let i = choose|i: int| is_at(self.segs@, i, id);
                    assert(is_at(before.segs@, i, id));
                }
                if id == seg {
                    if before@.segs.contains_key(seg) {
                        let i = choose|i: int| is_at(before.segs@, i, id);
                        assert(is_at(self.segs@, i, id));
                    } else {
                        assert(is_at(self.segs@, self.segs@.len() - 1, seg));
                    }
                }
            }
            assert forall|id: u64| self@.segs.contains_key(id) implies self@.segs[id]
                == want.segs[id] by {
                let i = choose|i: int| is_at(self.segs@, i, id);
                self.lemma_at(i);
                if id != seg {
                    before.lemma_at(i);
                }
            }
            assert(self@.segs =~= want.segs);
        }
    }

    /// Takes segment `seg` out.
    fn drop_segment(&mut self, i: usize)
        requires
            old(self).wf(),
            i < old(self).segs@.len(),
        ensures
            final(self).wf(),
            final(self)@ =~= (DiskView {
                segs: old(self)@.segs.remove(old(self).segs@[i as int].id),
                ..old(self)@
            }),
    {
        let ghost seg = self.segs@[i as int].id;
        self.segs.remove(i);
        proof {
            let before = *old(self);
            assert(self.segs@ =~= before.segs@.remove(i as int));
            assert(self.wf());
            let want = before@.segs.remove(seg);
            assert forall|id: u64| self@.segs.contains_key(id) == want.contains_key(id) by {
                if before@.segs.contains_key(id) && id != seg {
                    let j = choose|j: int| is_at(before.segs@, j, id);
                    if j < i {
                        assert(is_at(self.segs@, j, id));
                    } else {
                        assert(is_at(self.segs@, j - 1, id));
                    }
                }
                if self@.segs.contains_key(id) {
                    let j = choose|j: int| is_at(self.segs@, j, id);
                    if j < i {
                        assert(is_at(before.segs@, j, id));
                    } else {
                        assert(is_at(before.segs@, j + 1, id));
                    }
                }
            }
            assert forall|id: u64| self@.segs.contains_key(id) implies self@.segs[id]
                == want[id] by {
                let j = choose|j: int| is_at(self.segs@, j, id);
                self.lemma_at(j);
                if j < i {
                    before.lemma_at(j);
                } else {
                    before.lemma_at(j + 1);
                }
            }
            assert(self@.segs =~= want);
        }
    }

    /// The names of the files.
    fn file_names(&self) -> (out: Vec<String>)
        requires
            self.wf(),
        ensures
            lists(names::names_view(out@), self@.segs.dom()),
    {
        let mut out: Vec<String> = Vec::new();
        let mut i: usize = 0;
        while i < self.segs.len()
            invariant
                i <= self.segs@.len(),
                names::segment_ids(names::names_view(out@)) =~= Seq::new(
                    i as nat,
                    |j: int| self.segs@[j].id,
                ),
            decreases self.segs@.len() - i,
        {
            let ghost before = names::names_view(out@);
            out.push(segment_path(self.segs[i].id));
            proof {
                names::law_segment_names_read_back(self.segs@[i as int].id);
                assert(names::names_view(out@).drop_last() =~= before);
            }
            i = i + 1;
        }
        let ghost before = names::names_view(out@);
        let mut head: String = String::new();
        head.append("head");
        out.push(head);
        proof {
            reveal_strlit("head");
            let all = names::names_view(out@);
            assert(all.drop_last() =~= before);
            assert(all.last().len() == 4);
            let ids = names::segment_ids(all);
            assert(ids =~= Seq::new(self.segs@.len(), |j: int| self.segs@[j].id));
            assert forall|id: u64| ids.to_set().contains(id) == self@.segs.dom().contains(id) by {
                if ids.contains(id) {
                    let j = choose|j: int| 0 <= j < ids.len() && ids[j] == id;
                    assert(is_at(self.segs@, j, id));
                }
                if self@.segs.contains_key(id) {
                    let j = choose|j: int| is_at(self.segs@, j, id);
                    assert(ids[j] == id);
                }
            }
        }
        out
    }

    /// Performs `action`.
    pub fn perform(&mut self, action: &Action) -> (event: Event)
        requires
            old(self).wf(),
        ensures
            final(self).wf(),
            old(self)@.wf(),
            final(self)@.wf(),
            answers(old(self)@, action@, event@, final(self)@),
    {
        proof {
            self.lemma_views();
        }
        let event: Event = match action {
            Action::List => Event::Names(self.file_names()),
            Action::ReadHead => {
                let len: usize = if self.head.len() < HEAD_LEN {
                    self.head.len()
                } else {
                    HEAD_LEN
                };
                let bytes: Vec<u8> = slice_to_vec(slice_subrange(self.head.as_slice(), 0, len));
                assert(bytes@ =~= self.head@.take(len as int));
                assert(len == self.head@.len() ==> bytes@ =~= self.head@);
                Event::Bytes(bytes)
            },
            Action::OpenTail { seg } => match self.find(*seg) {
                Some(i) => Event::Length(self.segs[i].bytes.len() as u64),
                None => {
                    let bytes: Vec<u8> = Vec::new();
                    self.set_segment(*seg, bytes);
                    Event::Length(0)
                },
            },
            Action::Measure { seg } => match self.find(*seg) {
                Some(i) => Event::Length(self.segs[i].bytes.len() as u64),
                None => Event::Failed,
            },
            Action::Read { seg, off, len } => match self.find(*seg) {
                Some(i) => {
                    let size: u64 = self.segs[i].bytes.len() as u64;
                    if *off <= size && *len <= size - *off {
                        let from: usize = *off as usize;
                        let to: usize = from + *len as usize;
                        Event::Bytes(
                            slice_to_vec(slice_subrange(self.segs[i].bytes.as_slice(), from, to)),
                        )
                    } else {
                        Event::Failed
                    }
                },
                None => Event::Failed,
            },
            Action::Truncate { seg, len } => match self.find(*seg) {
                Some(i) => {
                    if *len <= self.segs[i].bytes.len() as u64 {
                        let bytes: Vec<u8> = slice_to_vec(
                            slice_subrange(self.segs[i].bytes.as_slice(), 0, *len as usize),
                        );
                        assert(bytes@ =~= self@.segs[*seg].take(*len as int));
                        self.set_segment(*seg, bytes);
                        Event::Performed
                    } else {
                        Event::Failed
                    }
                },
                None => Event::Failed,
            },
            Action::Create { seg } => match self.find(*seg) {
                Some(_) => Event::Failed,
                None => {
                    let bytes: Vec<u8> = Vec::new();
                    self.set_segment(*seg, bytes);
                    Event::Performed
                },
            },
            Action::Write { seg, off, bytes } => match self.find(*seg) {
                Some(i) => {
                    if *off <= self.segs[i].bytes.len() as u64 {
                        let file: Vec<u8> = overwrite(
                            self.segs[i].bytes.as_slice(),
                            *off as usize,
                            bytes.as_slice(),
                        );
                        self.set_segment(*seg, file);
                        Event::Performed
                    } else {
                        Event::Failed
                    }
                },
                None => Event::Failed,
            },
            Action::Sync { seg } => match self.find(*seg) {
                Some(_) => Event::Performed,
                None => Event::Failed,
            },
            Action::Remove { seg } => match self.find(*seg) {
                Some(i) => {
                    self.drop_segment(i);
                    Event::Performed
                },
                None => Event::Failed,
            },
            Action::WriteHead { bytes } => {
                self.head = overwrite(self.head.as_slice(), 0, bytes.as_slice());
                assert(self@.segs =~= old(self)@.segs);
                Event::Performed
            },
            Action::Now => Event::Time(self.now),
            Action::LockHead
            | Action::UnlockHead
            | Action::LockWriter
            | Action::UnlockWriter => Event::Performed,
        };
        proof {
            self.lemma_views();
        }
        event
    }
}

/// `file` with `bytes` written at `off`.
fn overwrite(file: &[u8], off: usize, bytes: &[u8]) -> (out: Vec<u8>)
    requires
        off <= file@.len(),
    ensures
        out@ == written(file@, off as int, bytes@),
{
    let mut out: Vec<u8> = slice_to_vec(slice_subrange(file, 0, off));
    let mut body: Vec<u8> = slice_to_vec(bytes);
    out.append(&mut body);
    if bytes.len() < file.len() - off {
        let mut rest: Vec<u8> = slice_to_vec(slice_subrange(file, off + bytes.len(), file.len()));
        out.append(&mut rest);
    }
    assert(out@ =~= written(file@, off as int, bytes@));
    out
}

} // verus!
