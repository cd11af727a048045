//! The state of a segmented log.
//!
//! A queue is written once and read once, in order. Records are appended to
//! the current segment file, a consumer reads forward from a persisted head
//! position, and a segment is unlinked as soon as the head has moved past it.
//! Nothing is rewritten in place.

use vstd::prelude::*;

use crate::pos::Pos;

verus! {

/// Segmented append-only log: a durable first-in first-out queue of opaque
/// byte records.
#[derive(Clone, Copy, Debug, PartialEq, Eq, Structural)]
pub struct SegmentedLog {
    /// The size at which the writer rolls to a new segment; segments may
    /// overshoot it by one record.
    pub segment_bytes: u64,
    /// Nanoseconds between two syncs, at least.
    pub fsync_interval: u128,
    /// Next append position.
    pub writer: Pos,
    /// Something was written since the last sync.
    pub dirty: bool,
    /// When the writer was last synced.
    pub last_sync: u128,
    /// Everything before this position is fully written and readable.
    pub committed: Pos,
    /// Next record to read.
    pub head: Pos,
    /// Records appended but not yet consumed.
    pub unread: u64,
}

impl DeepView for SegmentedLog {
    type V = SegmentedLog;

    open spec fn deep_view(&self) -> SegmentedLog {
        *self
    }
}

/// The position at the start of segment `seg + 1`.
pub open spec fn start_after(seg: u64) -> Pos {
    Pos { seg: (seg + 1) as u64, off: 0 }
}

impl SegmentedLog {
    /// The log once its writer was rolled to the fresh segment after the
    /// current one.
    pub open spec fn rolled(self, now: u128) -> SegmentedLog {
        SegmentedLog {
            writer: start_after(self.writer.seg),
            dirty: false,
            last_sync: now,
            ..self
        }
    }

    /// The log once `len` bytes were written at the writer's position.
    pub open spec fn wrote(self, len: u64) -> SegmentedLog {
        SegmentedLog {
            writer: Pos { seg: self.writer.seg, off: (self.writer.off + len) as u64 },
            dirty: true,
            ..self
        }
    }

    /// The log once the writer was synced.
    pub open spec fn synced(self, now: u128) -> SegmentedLog {
        SegmentedLog { dirty: false, last_sync: now, ..self }
    }

    /// The log once what was written is readable, with one record more.
    pub open spec fn published(self) -> SegmentedLog {
        SegmentedLog {
            committed: self.writer,
            unread: if self.unread == u64::MAX {
                0
            } else {
                (self.unread + 1) as u64
            },
            ..self
        }
    }

    /// Whether the current segment is full.
    pub open spec fn full(self) -> bool {
        self.writer.off >= self.segment_bytes
    }

    /// Whether a sync is due. A clock that ran backwards has not advanced.
    pub open spec fn due(self, now: u128) -> bool {
        self.dirty && (if now >= self.last_sync {
            now - self.last_sync
        } else {
            0
        }) >= self.fsync_interval
    }

    /// Whether the writer must roll to a new segment before the next record.
    pub fn roll_if_full(&self) -> (full: bool)
        ensures
            full == self.full(),
    {
        self.writer.off >= self.segment_bytes
    }

    /// Whether appends were left unsynced for the sync interval.
    pub fn sync_if_due(&self, now: u128) -> (due: bool)
        ensures
            due == self.due(now),
    {
        self.dirty && now.saturating_sub(self.last_sync) >= self.fsync_interval
    }

    /// Records appended but not yet consumed. The count is exact from the
    /// opening of the log on, as long as every payload can be read back and the
    /// segments stay as they were written. A record that cannot be read, since
    /// its payload is empty or since it was damaged later, is never consumed:
    /// it stays in the count until the log is opened again.
    pub fn len(&self) -> (len: usize)
        ensures
            len as int == if self.unread <= usize::MAX {
                self.unread as int
            } else {
                usize::MAX as int
            },
    {
        if self.unread <= usize::MAX as u64 {
            self.unread as usize
        } else {
            usize::MAX
        }
    }

    /// Whether every record was consumed.
    pub fn is_empty(&self) -> (empty: bool)
        ensures
            empty == (self.unread == 0),
    {
        self.len() == 0
    }
}

} // verus!
