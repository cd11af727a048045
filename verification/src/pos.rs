//! Positions in a log.

use vstd::prelude::*;

use crate::bytes;
use crate::bytes::u64_be;

verus! {

/// A record's position: segment id, then byte offset within the segment.
/// Ordering is arrival order, and the 16-byte big-endian encoding returned
/// as a record key preserves it.
#[derive(Clone, Copy, Debug, PartialEq, Eq, PartialOrd, Ord, Structural)]
pub struct Pos {
    pub seg: u64,
    pub off: u64,
}

impl Pos {
    /// Whether this position comes before `other` in the log.
    pub open spec fn before(self, other: Pos) -> bool {
        self.seg < other.seg || (self.seg == other.seg && self.off < other.off)
    }

    /// The key of the record at this position.
    pub open spec fn key(self) -> Seq<u8> {
        bytes::be_bytes(self.seg as nat, 8) + bytes::be_bytes(self.off as nat, 8)
    }

    /// Whether this position comes before `other` in the log.
    pub fn is_before(self, other: Pos) -> (r: bool)
        ensures
            r == self.before(other),
    {
        self.seg < other.seg || (self.seg == other.seg && self.off < other.off)
    }

    /// The record key: segment id, then offset, both big-endian.
    pub fn to_key(self) -> (key: Vec<u8>)
        ensures
            key@ == self.key(),
            key@.len() == 16,
    {
        let mut key: Vec<u8> = u64_be(self.seg);
        let mut off: Vec<u8> = u64_be(self.off);
        key.append(&mut off);
        proof {
            bytes::lemma_be_bytes_len(self.seg as nat, 8);
            bytes::lemma_be_bytes_len(self.off as nat, 8);
        }
        key
    }
}

/// Keys are in dictionary order exactly as their positions are in arrival
/// order.
pub proof fn law_keys_keep_arrival_order(p: Pos, q: Pos)
    ensures
        bytes::lex_before(p.key(), q.key()) <==> p.before(q),
{
    let (ps, po) = (p.seg as nat, p.off as nat);
    let (qs, qo) = (q.seg as nat, q.off as nat);
    bytes::lemma_pow256();
    bytes::lemma_be_bytes_len(ps, 8);
    bytes::lemma_be_bytes_len(po, 8);
    bytes::lemma_be_bytes_len(qs, 8);
    bytes::lemma_be_bytes_len(qo, 8);
    bytes::lemma_be_round_trip(ps, 8);
    bytes::lemma_be_round_trip(po, 8);
    bytes::lemma_be_round_trip(qs, 8);
    bytes::lemma_be_round_trip(qo, 8);
    bytes::lemma_be_value_append(
        bytes::be_bytes(ps, 8),
        bytes::be_bytes(po, 8),
    );
    bytes::lemma_be_value_append(
        bytes::be_bytes(qs, 8),
        bytes::be_bytes(qo, 8),
    );
    bytes::lemma_lex_is_be_order(p.key(), q.key());
}

/// Distinct positions have distinct keys.
pub proof fn law_keys_are_distinct(p: Pos, q: Pos)
    requires
        p != q,
    ensures
        p.key() != q.key(),
{
    law_keys_keep_arrival_order(p, q);
    law_keys_keep_arrival_order(q, p);
    lemma_lex_irreflexive(p.key());
}

/// Nothing comes before itself.
pub proof fn lemma_lex_irreflexive(a: Seq<u8>)
    ensures
        !bytes::lex_before(a, a),
    decreases a.len(),
{
    if a.len() > 0 {
        lemma_lex_irreflexive(a.drop_first());
    }
}

} // verus!
