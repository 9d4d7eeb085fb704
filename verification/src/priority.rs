//! The order in which blocks with identity are evicted.

use crate::block::{KvBlock, SequenceHash};
use std::cmp::Ordering;
use vstd::prelude::*;

verus! {

/// Strict eviction order on ranks: lower priority first and, within one
/// priority, lower tick first.
pub open spec fn rank_lt(a: (u32, u64), b: (u32, u64)) -> bool {
    a.0 < b.0 || (a.0 == b.0 && a.1 < b.1)
}

/// `rank_lt` or equal.
pub open spec fn rank_le(a: (u32, u64), b: (u32, u64)) -> bool {
    a.0 < b.0 || (a.0 == b.0 && a.1 <= b.1)
}

/// What the pool orders a block with identity by, with the block's hash as
/// payload.
///
/// Eviction compares priority and tick only (`precedes`, `compare`). The
/// derived `Ord` goes on to the hash where those two tie, so that it agrees
/// with `==`; no two blocks in a pool tie.
#[derive(Debug, Clone, Copy, PartialEq, Eq, PartialOrd, Ord)]
pub struct PriorityKey {
    /// The block's priority: lower is evicted first.
    pub priority: u32,
    /// The block's tick: at equal priority, lower is evicted first.
    pub return_tick: u64,
    /// The block's hash.
    pub sequence_hash: SequenceHash,
}

impl PriorityKey {
    /// The pair that eviction compares.
    pub open spec fn spec_rank(&self) -> (u32, u64) {
        (self.priority, self.return_tick)
    }

    /// Whether a block with this key is evicted before one with `other`.
    pub open spec fn precedes(self, other: PriorityKey) -> bool {
        rank_lt(self.spec_rank(), other.spec_rank())
    }

    /// The pair that eviction compares.
    #[verifier::when_used_as_spec(spec_rank)]
    pub fn rank(&self) -> (rank: (u32, u64))
        ensures
            rank == self.spec_rank(),
    {
        (self.priority, self.return_tick)
    }

    /// Compares two keys for eviction: by priority, then by tick. The hash
    /// takes no part.
    pub fn compare(&self, other: &PriorityKey) -> (order: Ordering)
        ensures
            order == Ordering::Less <==> self.precedes(*other),
            order == Ordering::Equal <==> self.spec_rank() == other.spec_rank(),
            order == Ordering::Greater <==> other.precedes(*self),
    {
        if self.priority < other.priority {
            Ordering::Less
        } else if self.priority > other.priority {
            Ordering::Greater
        } else if self.return_tick < other.return_tick {
            Ordering::Less
        } else if self.return_tick > other.return_tick {
            Ordering::Greater
        } else {
            Ordering::Equal
        }
    }
}

impl From<&KvBlock> for PriorityKey {
    /// The key of `block`.
    fn from(block: &KvBlock) -> (key: PriorityKey) {
        PriorityKey {
            priority: block.priority,
            return_tick: block.return_tick,
            sequence_hash: block.sequence_hash,
        }
    }
}

impl vstd::std_specs::convert::FromSpecImpl<&KvBlock> for PriorityKey {
    open spec fn obeys_from_spec() -> bool {
        true
    }

    open spec fn from_spec(block: &KvBlock) -> PriorityKey {
        PriorityKey {
            priority: block.priority,
            return_tick: block.return_tick,
            sequence_hash: block.sequence_hash,
        }
    }
}

/// Eviction order is a strict total order on ranks: no rank precedes
/// itself, of two different ranks exactly one precedes the other, and the
/// order is transitive.
pub proof fn lemma_rank_order(a: (u32, u64), b: (u32, u64), c: (u32, u64))
    ensures
        !rank_lt(a, a),
        a != b ==> (rank_lt(a, b) <==> !rank_lt(b, a)),
        rank_lt(a, b) && rank_lt(b, c) ==> rank_lt(a, c),
        rank_le(a, b) <==> (rank_lt(a, b) || a == b),
{
}

/// Priority dominates recency: a key of lower priority precedes, whatever
/// the ticks; at equal priority the older tick precedes.
pub proof fn lemma_priority_dominates(a: PriorityKey, b: PriorityKey)
    ensures
        a.priority < b.priority ==> a.precedes(b),
        a.priority == b.priority ==> (a.precedes(b) <==> a.return_tick < b.return_tick),
{
}

} // verus!
