//! Blocks and the requests that change them.

use std::time::Instant;
use vstd::prelude::*;

verus! {

/// Content address of a block: a hash over the block's tokens and the hash
/// of the block before it in the sequence.
pub type SequenceHash = u64;

/// The hash of a block that has no content identity.
pub const SENTINEL_HASH: SequenceHash = 0;

/// `std::time::Instant`, carried through and never read.
#[verifier::external_type_specification]
#[verifier::external_body]
pub struct ExInstant(std::time::Instant);

/// One fixed-size unit of cache memory, bound to one chunk of a token
/// sequence.
#[derive(Debug, Clone, PartialEq, Eq)]
pub struct KvBlock {
    /// Content address; `SENTINEL_HASH` for a block without identity.
    pub sequence_hash: SequenceHash,
    /// The tokens of the chunk the block holds.
    pub tokens: Vec<u32>,
    /// Eviction rank: a lower value is evicted first.
    pub priority: u32,
    /// The pool's tick when the block last became available.
    pub return_tick: u64,
}

impl KvBlock {
    /// Whether the block can be found by its hash.
    pub open spec fn has_identity(self) -> bool {
        self.sequence_hash != SENTINEL_HASH
    }

    /// The pair by which blocks are ordered for eviction.
    pub open spec fn rank(self) -> (u32, u64) {
        (self.priority, self.return_tick)
    }

    /// `self` is what `reset` leaves of `before`.
    pub open spec fn is_reset_of(self, before: KvBlock) -> bool {
        &&& self.sequence_hash == SENTINEL_HASH
        &&& self.tokens@ == Seq::<u32>::empty()
        &&& self.priority == before.priority
        &&& self.return_tick == before.return_tick
    }

    /// The block with its tick replaced.
    pub open spec fn with_tick(self, tick: u64) -> KvBlock {
        KvBlock { return_tick: tick, ..self }
    }

    /// The block with its priority replaced.
    pub open spec fn with_priority(self, priority: u32) -> KvBlock {
        KvBlock { priority, ..self }
    }

    /// A block for the given chunk, with priority 0 and no tick yet.
    pub fn new(sequence_hash: SequenceHash, tokens: Vec<u32>) -> (block: KvBlock)
        ensures
            block.sequence_hash == sequence_hash,
            block.tokens == tokens,
            block.priority == 0,
            block.return_tick == 0,
    {
        KvBlock { sequence_hash, tokens, priority: 0, return_tick: 0 }
    }

    /// The block's content address.
    pub fn sequence_hash(&self) -> (hash: SequenceHash)
        ensures
            hash == self.sequence_hash,
    {
        self.sequence_hash
    }

    /// The tokens of the block's chunk.
    pub fn tokens(&self) -> (tokens: &Vec<u32>)
        ensures
            tokens == &self.tokens,
    {
        &self.tokens
    }

    /// Clears the content identity: the block keeps its place in the
    /// eviction order and can take a new identity later.
    pub fn reset(&mut self)
        ensures
            final(self).is_reset_of(*old(self)),
    {
        self.sequence_hash = SENTINEL_HASH;
        self.tokens = Vec::new();
    }
}

/// A request to change a block that may be in the pool.
#[derive(Debug, Clone)]
pub struct UpdateBlock {
    /// The block to change.
    pub hash: SequenceHash,
    /// The new priority, if it is to change.
    pub priority: Option<u32>,
    /// Reserved; the pool does not act on it.
    pub deadline: Option<Instant>,
}

impl UpdateBlock {
    /// The priority that `before` has once this update is applied to it.
    pub open spec fn applied_priority(self, before: u32) -> u32 {
        match self.priority {
            Some(priority) => priority,
            None => before,
        }
    }
}

} // verus!
