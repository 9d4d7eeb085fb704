//! What a pool holds, and the order in which it gives blocks up.

use crate::block::{KvBlock, SequenceHash, UpdateBlock, SENTINEL_HASH};
use crate::priority::rank_lt;
use vstd::prelude::*;

verus! {

/// What a pool holds, as its contracts see it.
pub struct PoolView {
    /// The available blocks with identity, by hash.
    pub resident: Map<SequenceHash, KvBlock>,
    /// The available blocks without identity, oldest first.
    pub uninitialized: Seq<KvBlock>,
    /// The tick given to the block that last became available.
    pub return_tick: u64,
    /// The number of blocks ever inserted.
    pub total_blocks: u64,
    /// The number of blocks that are available.
    pub available_blocks: u64,
}

impl PoolView {
    /// Every resident block is filed under its own hash, which is not the
    /// sentinel; no two resident blocks have the same rank; the blocks
    /// without identity carry the sentinel.
    pub open spec fn well_formed(self) -> bool {
        &&& self.resident.dom().finite()
        &&& forall|h: SequenceHash| #[trigger]
            self.resident.contains_key(h) ==> h != SENTINEL_HASH && self.resident[h].sequence_hash
                == h
        &&& forall|a: SequenceHash, b: SequenceHash|
            #![trigger self.resident.contains_key(a), self.resident.contains_key(b)]
            self.resident.contains_key(a) && self.resident.contains_key(b) && a != b
                ==> self.resident[a].rank() != self.resident[b].rank()
        &&& forall|i: int|
            0 <= i < self.uninitialized.len() ==> (#[trigger] self.uninitialized[i]).sequence_hash
                == SENTINEL_HASH
    }

    /// The counters agree with the contents: every available block is
    /// counted once, no more blocks are available than were inserted, every
    /// insert has advanced the tick, and each resident block has a tick of
    /// its own that the pool has reached.
    pub open spec fn accounted(self) -> bool {
        &&& self.available_blocks == self.resident.len() + self.uninitialized.len()
        &&& self.available_blocks <= self.total_blocks
        &&& self.total_blocks <= self.return_tick
        &&& forall|h: SequenceHash| #[trigger]
            self.resident.contains_key(h) ==> self.resident[h].return_tick <= self.return_tick
        &&& forall|a: SequenceHash, b: SequenceHash|
            #![trigger self.resident.contains_key(a), self.resident.contains_key(b)]
            self.resident.contains_key(a) && self.resident.contains_key(b) && a != b
                ==> self.resident[a].return_tick != self.resident[b].return_tick
    }

    /// How many blocks are handed out.
    pub open spec fn handed_out(self) -> int {
        self.total_blocks - self.available_blocks
    }

    /// Whether `block` can be filed: it has no identity, or neither its
    /// hash nor its rank is taken.
    pub open spec fn can_hold(self, block: KvBlock) -> bool {
        block.sequence_hash == SENTINEL_HASH || (!self.resident.contains_key(block.sequence_hash)
            && forall|h: SequenceHash| #[trigger]
            self.resident.contains_key(h) ==> self.resident[h].rank() != block.rank())
    }

    /// The pool with `block` filed: at the back of the blocks without
    /// identity, or under its hash.
    pub open spec fn with_block(self, block: KvBlock) -> PoolView {
        if block.sequence_hash == SENTINEL_HASH {
            PoolView { uninitialized: self.uninitialized.push(block), ..self }
        } else {
            PoolView { resident: self.resident.insert(block.sequence_hash, block), ..self }
        }
    }

    /// The pool without the resident block `hash`.
    pub open spec fn without(self, hash: SequenceHash) -> PoolView {
        PoolView { resident: self.resident.remove(hash), ..self }
    }

    /// Whether `hash` is the resident block that is evicted first: every
    /// other resident block has a later rank.
    pub open spec fn is_lowest(self, hash: SequenceHash) -> bool {
        &&& self.resident.contains_key(hash)
        &&& forall|o: SequenceHash| #[trigger]
            self.resident.contains_key(o) && o != hash ==> rank_lt(
                self.resident[hash].rank(),
                self.resident[o].rank(),
            )
    }

    /// Whether some resident block is evicted before all others.
    pub open spec fn has_lowest(self) -> bool {
        exists|h: SequenceHash| self.is_lowest(h)
    }

    /// The resident block that is evicted first.
    pub open spec fn lowest(self) -> SequenceHash {
        choose|h: SequenceHash| self.is_lowest(h)
    }

    /// The hashes of the resident blocks in the order in which they are
    /// evicted: by ascending rank.
    pub open spec fn eviction_order(self) -> Seq<SequenceHash>
        decreases self.resident.len(),
        when self.resident.dom().finite()
    {
        if self.has_lowest() {
            seq![self.lowest()] + self.without(self.lowest()).eviction_order()
        } else {
            Seq::empty()
        }
    }

    /// The available blocks in the order in which they are handed out for
    /// fresh use: those without identity, oldest first, then the resident
    /// ones in eviction order.
    pub open spec fn take_order(self) -> Seq<KvBlock> {
        self.uninitialized + self.eviction_order().map_values(
            |h: SequenceHash| self.resident[h],
        )
    }

    /// How many of the first `n` blocks of `take_order` have no identity.
    pub open spec fn uninitialized_among(self, n: nat) -> nat {
        if n <= self.uninitialized.len() {
            n
        } else {
            self.uninitialized.len()
        }
    }

    /// The pool without the first `n` blocks of `take_order`; the counters
    /// are left as they are.
    pub open spec fn drained(self, n: nat) -> PoolView {
        let u = self.uninitialized_among(n);
        PoolView {
            uninitialized: self.uninitialized.skip(u as int),
            resident: self.resident.remove_keys(self.eviction_order().take(n - u).to_set()),
            ..self
        }
    }

    /// The pool with `n` fewer blocks counted as available.
    pub open spec fn claimed(self, n: nat) -> PoolView {
        PoolView { available_blocks: (self.available_blocks - n) as u64, ..self }
    }

    /// The pool without the resident blocks among `hashes`.
    pub open spec fn without_all(self, hashes: Set<SequenceHash>) -> PoolView {
        PoolView { resident: self.resident.remove_keys(hashes), ..self }
    }

    /// Whether the `i`-th of `hashes` can be claimed once those before it
    /// have been: its block is resident and the hash has not occurred
    /// before.
    pub open spec fn claimable(self, hashes: Seq<SequenceHash>, i: int) -> bool {
        self.resident.contains_key(hashes[i]) && !hashes.take(i).contains(hashes[i])
    }

    /// Whether the first `n` of `hashes` are the longest prefix that can be
    /// claimed one after the other.
    pub open spec fn is_matched_prefix(self, hashes: Seq<SequenceHash>, n: int) -> bool {
        &&& 0 <= n <= hashes.len()
        &&& forall|i: int| 0 <= i < n ==> #[trigger] self.claimable(hashes, i)
        &&& n < hashes.len() ==> !self.claimable(hashes, n)
    }

    /// Whether `matched` holds the blocks of the longest prefix of `hashes`
    /// that can be claimed, in order.
    pub open spec fn is_match_of(self, hashes: Seq<SequenceHash>, matched: Seq<KvBlock>) -> bool {
        &&& self.is_matched_prefix(hashes, matched.len() as int)
        &&& forall|i: int|
            0 <= i < matched.len() ==> #[trigger] matched[i] == self.resident[hashes[i]]
    }

    /// The pool once the first `n` of `hashes` have been claimed.
    pub open spec fn after_match(self, hashes: Seq<SequenceHash>, n: nat) -> PoolView {
        self.without_all(hashes.take(n as int).to_set()).claimed(n)
    }

    /// The block that a match on `hash` alone claims.
    pub open spec fn single_match(self, hash: SequenceHash) -> Option<KvBlock> {
        if self.resident.contains_key(hash) {
            Some(self.resident[hash])
        } else {
            None
        }
    }

    /// The pool once a match on `hash` alone has been served.
    pub open spec fn after_single_match(self, hash: SequenceHash) -> PoolView {
        if self.resident.contains_key(hash) {
            self.without(hash).claimed(1)
        } else {
            self
        }
    }

    /// How many blocks a request for `count` gets: all it asks for, or all
    /// that are available.
    pub open spec fn taken_count(self, count: u32) -> nat {
        if count <= self.available_blocks {
            count as nat
        } else {
            self.available_blocks as nat
        }
    }

    /// The blocks that a request for `count` gets.
    pub open spec fn take_result(self, count: u32) -> Seq<KvBlock> {
        self.take_order().take(self.taken_count(count) as int)
    }

    /// The pool once a request for `count` blocks has been served.
    pub open spec fn after_take(self, count: u32) -> PoolView {
        self.drained(self.taken_count(count)).claimed(self.taken_count(count))
    }

    /// Whether `block` can be inserted: the tick can advance, and the block
    /// has no identity or its hash is not resident.
    pub open spec fn accepts_insert(self, block: KvBlock) -> bool {
        &&& self.return_tick < u64::MAX
        &&& block.sequence_hash == SENTINEL_HASH || !self.resident.contains_key(
            block.sequence_hash,
        )
    }

    /// Whether `block` can be taken back: as for an insert, and some block
    /// is handed out.
    pub open spec fn accepts_return(self, block: KvBlock) -> bool {
        &&& self.accepts_insert(block)
        &&& self.handed_out() > 0
    }

    /// The pool once `block` has become available: the tick advances, the
    /// block gets the new tick and is filed, and one more block is counted
    /// as available.
    pub open spec fn returned(self, block: KvBlock) -> PoolView {
        let tick = (self.return_tick + 1) as u64;
        PoolView {
            return_tick: tick,
            available_blocks: (self.available_blocks + 1) as u64,
            ..self
        }.with_block(block.with_tick(tick))
    }

    /// The pool once the new block `block` has been inserted: as
    /// `returned`, and one more block is counted in total.
    pub open spec fn inserted(self, block: KvBlock) -> PoolView {
        PoolView { total_blocks: (self.total_blocks + 1) as u64, ..self.returned(block) }
    }

    /// The pool once the updates have been applied in order: every resident
    /// block has the priority that the updates on its hash leave it with.
    pub open spec fn updated(self, updates: Seq<UpdateBlock>) -> PoolView {
        PoolView {
            resident: Map::new(
                |h: SequenceHash| self.resident.contains_key(h),
                |h: SequenceHash|
                    self.resident[h].with_priority(
                        updated_priority(updates, h, self.resident[h].priority),
                    ),
            ),
            ..self
        }
    }

    /// The hashes among `hashes` whose blocks a reset moves, in the order
    /// in which it moves them: those that are resident, each where it
    /// occurs first.
    pub open spec fn reset_order(self, hashes: Seq<SequenceHash>) -> Seq<SequenceHash>
        decreases hashes.len(),
    {
        if hashes.len() == 0 {
            Seq::empty()
        } else {
            let earlier = self.reset_order(hashes.drop_last());
            if self.claimable(hashes, hashes.len() - 1) {
                earlier.push(hashes.last())
            } else {
                earlier
            }
        }
    }

    /// Whether the blocks without identity are those of `before` followed
    /// by what `reset` leaves of the resident blocks `order` of `before`,
    /// in that order.
    pub open spec fn extends_by_reset(self, before: PoolView, order: Seq<SequenceHash>) -> bool {
        &&& self.uninitialized.len() == before.uninitialized.len() + order.len()
        &&& forall|i: int|
            0 <= i < before.uninitialized.len() ==> #[trigger] self.uninitialized[i]
                == before.uninitialized[i]
        &&& forall|j: int|
            0 <= j < order.len() ==> (#[trigger] self.uninitialized[before.uninitialized.len()
                + j]).is_reset_of(before.resident[order[j]])
    }

    /// Whether `after` is the pool once the resident blocks among `hashes`
    /// have been reset: they are no longer resident, and what is left of
    /// them follows the blocks without identity in the order of
    /// `reset_order`.
    pub open spec fn is_reset_by(self, hashes: Seq<SequenceHash>, after: PoolView) -> bool {
        &&& after.resident == self.resident.remove_keys(hashes.to_set())
        &&& after.extends_by_reset(self, self.reset_order(hashes))
        &&& after.return_tick == self.return_tick
        &&& after.total_blocks == self.total_blocks
        &&& after.available_blocks == self.available_blocks
    }

    /// Whether `after` is the pool once every resident block has been
    /// reset: none is resident, and what is left of them follows the blocks
    /// without identity in eviction order.
    pub open spec fn is_reset_all_by(self, after: PoolView) -> bool {
        &&& after.resident == Map::<SequenceHash, KvBlock>::empty()
        &&& after.extends_by_reset(self, self.eviction_order())
        &&& after.return_tick == self.return_tick
        &&& after.total_blocks == self.total_blocks
        &&& after.available_blocks == self.available_blocks
    }
}

/// The priority that a block of hash `hash` and priority `before` has once
/// the updates have been applied in order: each update on that hash that
/// names a priority replaces it.
pub open spec fn updated_priority(updates: Seq<UpdateBlock>, hash: SequenceHash, before: u32) -> u32
    decreases updates.len(),
{
    if updates.len() == 0 {
        before
    } else {
        let earlier = updated_priority(updates.drop_last(), hash, before);
        if updates.last().hash == hash {
            updates.last().applied_priority(earlier)
        } else {
            earlier
        }
    }
}

/// Filing a block that the pool can hold leaves the pool well formed.
pub proof fn lemma_with_block_well_formed(pool: PoolView, block: KvBlock)
    requires
        pool.well_formed(),
        pool.can_hold(block),
    ensures
        pool.with_block(block).well_formed(),
{
    if block.has_identity() {
        assert(pool.with_block(block).resident.dom().finite());
    }
}

/// The eviction order depends on the resident blocks alone.
pub proof fn lemma_eviction_order_of_resident(a: PoolView, b: PoolView)
    requires
        a.resident == b.resident,
        a.resident.dom().finite(),
    ensures
        a.eviction_order() == b.eviction_order(),
    decreases a.resident.len(),
{
    assert forall|h: SequenceHash| a.is_lowest(h) == b.is_lowest(h) by {}
    if a.has_lowest() {
        let h = a.lowest();
        lemma_eviction_order_of_resident(a.without(h), b.without(h));
    }
}

/// Where a pool's eviction order is what is left of `order` from place `k`
/// on, its lowest block is `order[k]`, and without that block the eviction
/// order is what is left from place `k + 1` on.
pub proof fn lemma_eviction_order_advances(
    order: Seq<SequenceHash>,
    k: int,
    pool: PoolView,
    hash: SequenceHash,
)
    requires
        0 <= k <= order.len(),
        pool.resident.dom().finite(),
        pool.eviction_order() == order.skip(k),
        pool.is_lowest(hash),
    ensures
        k < order.len(),
        order[k] == hash,
        pool.without(hash).eviction_order() == order.skip(k + 1),
{
    let rest = pool.without(hash).eviction_order();
    assert(order.skip(k).len() == 1 + rest.len());
    assert(order.skip(k)[0] == hash);
    assert(order.skip(k + 1) =~= rest) by {
        assert forall|j: int| 0 <= j < rest.len() implies order.skip(k + 1)[j] == rest[j] by {
            assert(order.skip(k)[j + 1] == rest[j]);
        }
    }
}

/// The set of the first `k + 1` items of a sequence is the set of the first
/// `k` with the next one added.
pub proof fn lemma_take_next_to_set(order: Seq<SequenceHash>, k: int)
    requires
        0 <= k < order.len(),
    ensures
        order.take(k + 1).to_set() == order.take(k).to_set().insert(order[k]),
{
    let longer = order.take(k + 1);
    let shorter = order.take(k);
    assert forall|h: SequenceHash| longer.to_set().contains(h) == shorter.to_set().insert(
        order[k],
    ).contains(h) by {
        if longer.contains(h) {
            let j = choose|j: int| 0 <= j < longer.len() && longer[j] == h;
        }
        if h == order[k] {
            assert(longer[k] == h);
        }
    }
}

} // verus!
