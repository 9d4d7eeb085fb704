//! The pool's state and the transitions on it.

use crate::block::{KvBlock, SequenceHash, UpdateBlock, SENTINEL_HASH};
use crate::model::{
    lemma_eviction_order_advances, lemma_eviction_order_of_resident, lemma_take_next_to_set,
    lemma_with_block_well_formed, PoolView,
};
use crate::priority::{rank_le, PriorityKey};
use std::collections::{BTreeMap, HashMap, VecDeque};
use vstd::pervasive::unreached;
use vstd::prelude::*;

verus! {

/// The pool of available blocks.
#[derive(Debug)]
pub struct AvailableBlocksState {
    lookup_map: HashMap<SequenceHash, KvBlock>,
    priority_set: BTreeMap<(u32, u64), SequenceHash>,
    uninitialized_set: VecDeque<KvBlock>,
    return_tick: u64,
    total_blocks: u64,
    available_blocks: u64,
}

impl View for AvailableBlocksState {
    type V = PoolView;

    closed spec fn view(&self) -> PoolView {
        PoolView {
            resident: self.lookup_map@,
            uninitialized: self.uninitialized_set@,
            return_tick: self.return_tick,
            total_blocks: self.total_blocks,
            available_blocks: self.available_blocks,
        }
    }
}

impl Default for AvailableBlocksState {
    /// An empty pool.
    fn default() -> (state: AvailableBlocksState)
        ensures
            state.inv(),
            state@.resident == Map::<SequenceHash, KvBlock>::empty(),
            state@.uninitialized == Seq::<KvBlock>::empty(),
            state@.return_tick == 0,
            state@.total_blocks == 0,
            state@.available_blocks == 0,
    {
        AvailableBlocksState::new()
    }
}

/// `BTreeMap::pop_first`: takes out the entry with the least key, where
/// tuples are ordered by their first component, then by their second. The
/// map is otherwise unchanged; an empty map gives `None`.
#[verifier::external_body]
fn pop_first(set: &mut BTreeMap<(u32, u64), SequenceHash>) -> (first: Option<
    ((u32, u64), SequenceHash),
>)
    ensures
        match first {
            Some((rank, hash)) => {
                &&& old(set)@.contains_key(rank)
                &&& old(set)@[rank] == hash
                &&& final(set)@ == old(set)@.remove(rank)
                &&& forall|other: (u32, u64)| #[trigger]
                    old(set)@.contains_key(other) ==> rank_le(rank, other)
            },
            None => {
                &&& forall|other: (u32, u64)| !#[trigger] old(set)@.contains_key(other)
                &&& final(set)@ == old(set)@
            },
        },
{
    set.pop_first()
}

impl AvailableBlocksState {
    /// The priority index holds exactly the ranks of the resident blocks,
    /// each with its block's hash.
    pub closed spec fn indexed(&self) -> bool {
        &&& forall|h: SequenceHash| #[trigger]
            self.lookup_map@.contains_key(h) ==> self.priority_set@.contains_key(
                self.lookup_map@[h].rank(),
            ) && self.priority_set@[self.lookup_map@[h].rank()] == h
        &&& forall|r: (u32, u64)| #[trigger]
            self.priority_set@.contains_key(r) ==> self.lookup_map@.contains_key(
                self.priority_set@[r],
            ) && self.lookup_map@[self.priority_set@[r]].rank() == r
    }

    /// The indices are consistent. Holds between any two calls.
    pub open spec fn wf(&self) -> bool {
        self.indexed() && self@.well_formed()
    }

    /// The indices are consistent and the counters agree with them. Holds
    /// between any two handlers.
    pub open spec fn inv(&self) -> bool {
        self.wf() && self@.accounted()
    }

    /// An empty pool.
    pub fn new() -> (state: AvailableBlocksState)
        ensures
            state.inv(),
            state@.resident == Map::<SequenceHash, KvBlock>::empty(),
            state@.uninitialized == Seq::<KvBlock>::empty(),
            state@.return_tick == 0,
            state@.total_blocks == 0,
            state@.available_blocks == 0,
    {
        AvailableBlocksState {
            lookup_map: HashMap::new(),
            priority_set: BTreeMap::new(),
            uninitialized_set: VecDeque::new(),
            return_tick: 0,
            total_blocks: 0,
            available_blocks: 0,
        }
    }

    /// The number of blocks ever inserted.
    pub fn total_blocks(&self) -> (count: u64)
        ensures
            count == self@.total_blocks,
    {
        self.total_blocks
    }

    /// The number of blocks that are available.
    pub fn available_blocks(&self) -> (count: u64)
        ensures
            count == self@.available_blocks,
    {
        self.available_blocks
    }

    /// The tick given to the block that last became available.
    pub fn return_tick(&self) -> (tick: u64)
        ensures
            tick == self@.return_tick,
    {
        self.return_tick
    }

    /// Whether a block with this hash is resident.
    pub fn contains(&self, sequence_hash: SequenceHash) -> (found: bool)
        ensures
            found == self@.resident.contains_key(sequence_hash),
    {
        self.lookup_map.contains_key(&sequence_hash)
    }

    /// Whether a resident block has this rank.
    pub fn contains_rank(&self, priority: u32, return_tick: u64) -> (found: bool)
        requires
            self.wf(),
        ensures
            found == exists|h: SequenceHash| #[trigger]
                self@.resident.contains_key(h) && self@.resident[h].rank() == (
                    priority,
                    return_tick,
                ),
    {
        self.priority_set.contains_key(&(priority, return_tick))
    }

    /// Whether `block` can be inserted.
    pub fn can_insert(&self, block: &KvBlock) -> (accepted: bool)
        ensures
            accepted == self@.accepts_insert(*block),
    {
        self.return_tick < u64::MAX && (block.sequence_hash == SENTINEL_HASH
            || !self.lookup_map.contains_key(&block.sequence_hash))
    }

    /// Whether `block` can be taken back.
    pub fn can_return(&self, block: &KvBlock) -> (accepted: bool)
        ensures
            accepted == self@.accepts_return(*block),
    {
        self.can_insert(block) && self.available_blocks < self.total_blocks
    }

    /// Files a block without touching the counters: at the back of the
    /// blocks without identity if it has none, else under its hash.
    pub fn insert(&mut self, block: KvBlock)
        requires
            old(self).wf(),
            old(self)@.can_hold(block),
        ensures
            final(self).wf(),
            final(self)@ == old(self)@.with_block(block),
    {
        let sequence_hash = block.sequence_hash;
        if sequence_hash == SENTINEL_HASH {
            self.uninitialized_set.push_back(block);
            proof {
                assert(self@.uninitialized =~= old(self)@.uninitialized.push(block));
            }
            return ;
        }
        let key = PriorityKey::from(&block);
        self.priority_set.insert(key.rank(), sequence_hash);
        self.lookup_map.insert(sequence_hash, block);
        proof {
            lemma_with_block_well_formed(old(self)@, block);
        }
    }

    /// Takes the resident block with this hash out of the pool, if there is
    /// one, without touching the counters.
    pub fn take_with_sequence_hash(&mut self, sequence_hash: SequenceHash) -> (taken: Option<
        KvBlock,
    >)
        requires
            old(self).wf(),
        ensures
            final(self).wf(),
            match taken {
                Some(block) => {
                    &&& old(self)@.resident.contains_key(sequence_hash)
                    &&& block == old(self)@.resident[sequence_hash]
                    &&& final(self)@ == old(self)@.without(sequence_hash)
                },
                None => {
                    &&& !old(self)@.resident.contains_key(sequence_hash)
                    &&& final(self)@ == old(self)@
                },
            },
    {
        match self.lookup_map.remove(&sequence_hash) {
            Some(block) => {
                let key = PriorityKey::from(&block);
                self.priority_set.remove(&key.rank());
                proof {
                    assert(self@.uninitialized =~= old(self)@.uninitialized);
                }
                Some(block)
            },
            None => {
                proof {
                    assert(self@.resident =~= old(self)@.resident);
                }
                None
            },
        }
    }

    /// Takes the resident block that is evicted first out of the pool,
    /// without touching the counters.
    fn take_lowest(&mut self) -> (taken: Option<KvBlock>)
        requires
            old(self).wf(),
        ensures
            final(self).wf(),
            match taken {
                Some(block) => {
                    &&& old(self)@.is_lowest(block.sequence_hash)
                    &&& block == old(self)@.resident[block.sequence_hash]
                    &&& final(self)@ == old(self)@.without(block.sequence_hash)
                },
                None => {
                    &&& old(self)@.resident.len() == 0
                    &&& final(self)@ == old(self)@
                },
            },
    {
        match pop_first(&mut self.priority_set) {
            Some((_rank, sequence_hash)) => {
                match self.lookup_map.remove(&sequence_hash) {
                    Some(block) => {
                        proof {
                            assert(self@.uninitialized =~= old(self)@.uninitialized);
                        }
                        Some(block)
                    },
                    // the index names resident blocks only
                    None => unreached(),
                }
            },
            None => {
                proof {
                    assert(self@.resident.dom() =~= Set::<SequenceHash>::empty());
                }
                None
            },
        }
    }

    /// Takes the next block for fresh use out of the pool, without touching
    /// the counters: the oldest block without identity or, when there is
    /// none, the resident block that is evicted first.
    pub fn take(&mut self) -> (taken: Option<KvBlock>)
        requires
            old(self).wf(),
        ensures
            final(self).wf(),
            match taken {
                Some(block) => if old(self)@.uninitialized.len() > 0 {
                    &&& block == old(self)@.uninitialized.first()
                    &&& final(self)@ == (PoolView {
                        uninitialized: old(self)@.uninitialized.drop_first(),
                        ..old(self)@
                    })
                } else {
                    &&& old(self)@.is_lowest(block.sequence_hash)
                    &&& block == old(self)@.resident[block.sequence_hash]
                    &&& final(self)@ == old(self)@.without(block.sequence_hash)
                },
                None => {
                    &&& old(self)@.uninitialized.len() == 0
                    &&& old(self)@.resident.len() == 0
                    &&& final(self)@ == old(self)@
                },
            },
    {
        match self.uninitialized_set.pop_front() {
            Some(block) => Some(block),
            None => self.take_lowest(),
        }
    }

    /// Takes up to `count` blocks for fresh use: the first `count` of
    /// `take_order`, or all of them where fewer are available.
    pub fn handle_take(&mut self, count: u32) -> (taken: Vec<KvBlock>)
        requires
            old(self).inv(),
        ensures
            final(self).inv(),
            taken@ == old(self)@.take_result(count),
            final(self)@ == old(self)@.after_take(count),
    {
        let ghost before = old(self)@;
        let ghost order = before.eviction_order();
        let mut taken: Vec<KvBlock> = Vec::new();
        let mut remaining: u32 = count;
        let mut exhausted: bool = false;
        while remaining > 0 && !exhausted
            invariant
                self.wf(),
                before == old(self)@,
                before.well_formed(),
                before.accounted(),
                order == before.eviction_order(),
                remaining <= count,
                taken.len() == count - remaining,
                self@.return_tick == before.return_tick,
                self@.total_blocks == before.total_blocks,
                self@.available_blocks == before.available_blocks,
                taken.len() + self@.resident.len() + self@.uninitialized.len()
                    == before.available_blocks,
                taken.len() - before.uninitialized_among(taken.len() as nat) <= order.len(),
                self@.uninitialized == before.uninitialized.skip(
                    before.uninitialized_among(taken.len() as nat) as int,
                ),
                self@.resident == before.resident.remove_keys(
                    order.take(
                        taken.len() - before.uninitialized_among(taken.len() as nat),
                    ).to_set(),
                ),
                self@.eviction_order() == order.skip(
                    taken.len() - before.uninitialized_among(taken.len() as nat),
                ),
                taken.len() <= before.take_order().len(),
                taken@ == before.take_order().take(taken.len() as int),
                exhausted ==> self@.resident.len() == 0 && self@.uninitialized.len() == 0,
            decreases remaining + (if exhausted { 0int } else { 1int }),
        {
            let ghost current = self@;
            let ghost n = taken.len() as nat;
            let ghost u = before.uninitialized_among(n);
            let ghost k = n - u;
            match self.take() {
                Some(block) => {
                    proof {
                        if current.uninitialized.len() > 0 {
                            lemma_eviction_order_of_resident(self@, current);
                        } else {
                            let h = block.sequence_hash;
                            lemma_eviction_order_advances(order, k, current, h);
                            lemma_take_next_to_set(order, k);
                        }
                    }
                    taken.push(block);
                    remaining = remaining - 1;
                },
                None => {
                    exhausted = true;
                },
            }
        }
        self.available_blocks = self.available_blocks - taken.len() as u64;
        taken
    }

    /// Inserts a new block: gives it a fresh tick, files it and counts it
    /// as available and in total.
    pub fn handle_insert(&mut self, block: KvBlock)
        requires
            old(self).inv(),
            old(self)@.accepts_insert(block),
        ensures
            final(self).inv(),
            final(self)@ == old(self)@.inserted(block),
    {
        self.available_blocks = self.available_blocks + 1;
        self.total_blocks = self.total_blocks + 1;
        self.return_tick = self.return_tick + 1;
        let mut block = block;
        block.return_tick = self.return_tick;
        self.insert(block);
    }

    /// Takes back a block that was handed out: gives it a fresh tick, files
    /// it and counts it as available.
    pub fn handle_return(&mut self, block: KvBlock)
        requires
            old(self).inv(),
            old(self)@.accepts_return(block),
        ensures
            final(self).inv(),
            final(self)@ == old(self)@.returned(block),
    {
        self.available_blocks = self.available_blocks + 1;
        self.return_tick = self.return_tick + 1;
        let mut block = block;
        block.return_tick = self.return_tick;
        self.insert(block);
    }

    /// Claims the blocks of `hashes` one after the other and stops at the
    /// first that is not resident: the result holds the blocks of the
    /// longest prefix that can be claimed, in order.
    pub fn match_hashes(&mut self, hashes: Vec<SequenceHash>) -> (matched: Vec<KvBlock>)
        requires
            old(self).inv(),
        ensures
            final(self).inv(),
            old(self)@.is_match_of(hashes@, matched@),
            final(self)@ == old(self)@.after_match(hashes@, matched.len() as nat),
    {
        let ghost before = old(self)@;
        let mut matched: Vec<KvBlock> = Vec::new();
        let mut missed: bool = false;
        while matched.len() < hashes.len() && !missed
            invariant
                self.wf(),
                before == old(self)@,
                before.well_formed(),
                before.accounted(),
                matched.len() <= hashes.len(),
                self@.return_tick == before.return_tick,
                self@.total_blocks == before.total_blocks,
                self@.available_blocks == before.available_blocks,
                self@.uninitialized == before.uninitialized,
                self@.resident == before.resident.remove_keys(
                    hashes@.take(matched.len() as int).to_set(),
                ),
                matched.len() + self@.resident.len() == before.resident.len(),
                forall|i: int| 0 <= i < matched.len() ==> #[trigger] before.claimable(hashes@, i),
                forall|i: int|
                    0 <= i < matched.len() ==> #[trigger] matched[i] == before.resident[hashes[i]],
                missed ==> matched.len() < hashes.len() && !before.claimable(
                    hashes@,
                    matched.len() as int,
                ),
            decreases hashes.len() - matched.len() + (if missed { 0int } else { 1int }),
        {
            let ghost n = matched.len() as int;
            let hash = hashes[matched.len()];
            match self.take_with_sequence_hash(hash) {
                Some(block) => {
                    proof {
                        lemma_take_next_to_set(hashes@, n);
                    }
                    matched.push(block);
                },
                None => {
                    missed = true;
                },
            }
        }
        self.available_blocks = self.available_blocks - matched.len() as u64;
        matched
    }

    /// Claims the block of `hash` if it is resident.
    pub fn handle_match_single(&mut self, hash: SequenceHash) -> (matched: Option<KvBlock>)
        requires
            old(self).inv(),
        ensures
            final(self).inv(),
            matched == old(self)@.single_match(hash),
            final(self)@ == old(self)@.after_single_match(hash),
    {
        let hashes = vec![hash];
        let mut matched = self.match_hashes(hashes);
        proof {
            let before = old(self)@;
            if matched.len() == 1 {
                assert(before.claimable(hashes@, 0));
                assert(hashes@.take(1).to_set() =~= set![hash]) by {
                    assert(hashes@.take(1)[0] == hash);
                }
                assert(before.resident.remove_keys(set![hash]) =~= before.resident.remove(hash));
            } else {
                assert(hashes@.take(0).to_set() =~= Set::<SequenceHash>::empty());
                assert(before.resident.remove_keys(Set::<SequenceHash>::empty())
                    =~= before.resident);
            }
        }
        matched.pop()
    }

    /// Claims the blocks of the longest prefix of `hashes` that can be
    /// claimed.
    pub fn handle_match_multiple(&mut self, hashes: Vec<SequenceHash>) -> (matched: Vec<KvBlock>)
        requires
            old(self).inv(),
        ensures
            final(self).inv(),
            old(self)@.is_match_of(hashes@, matched@),
            final(self)@ == old(self)@.after_match(hashes@, matched.len() as nat),
    {
        self.match_hashes(hashes)
    }

    /// Applies one update.
    pub fn handle_update_single(&mut self, update: UpdateBlock)
        requires
            old(self).inv(),
        ensures
            final(self).inv(),
            final(self)@ == old(self)@.updated(seq![update]),
    {
        let updates = vec![update];
        proof {
            assert(updates@ =~= seq![update]);
        }
        self.update_block(updates);
    }

    /// Applies the updates in order.
    pub fn handle_update_multiple(&mut self, updates: Vec<UpdateBlock>)
        requires
            old(self).inv(),
        ensures
            final(self).inv(),
            final(self)@ == old(self)@.updated(updates@),
    {
        self.update_block(updates);
    }

    /// Applies the updates in order: a resident block takes the priority
    /// that an update on its hash names and keeps its tick; an update on a
    /// hash that is not resident, or one that names no priority, changes
    /// nothing.
    pub fn update_block(&mut self, updates: Vec<UpdateBlock>)
        requires
            old(self).inv(),
        ensures
            final(self).inv(),
            final(self)@ == old(self)@.updated(updates@),
    {
        let ghost before = old(self)@;
        let mut i: usize = 0;
        while i < updates.len()
            invariant
                self.inv(),
                before == old(self)@,
                before.well_formed(),
                i <= updates.len(),
                self@.uninitialized == before.uninitialized,
                self@.return_tick == before.return_tick,
                self@.total_blocks == before.total_blocks,
                self@.available_blocks == before.available_blocks,
                self@.resident == before.updated(updates@.take(i as int)).resident,
            decreases updates.len() - i,
        {
            let ghost done = updates@.take(i as int);
            let ghost next = updates@.take(i + 1);
            let hash = updates[i].hash;
            let priority = updates[i].priority;
            proof {
                assert(next.drop_last() =~= done);
            }
            match self.take_with_sequence_hash(hash) {
                Some(block) => {
                    let mut block = block;
                    match priority {
                        Some(priority) => {
                            block.priority = priority;
                        },
                        None => {},
                    }
                    self.insert(block);
                },
                None => {},
            }
            i = i + 1;
        }
        proof {
            assert(updates@.take(updates.len() as int) =~= updates@);
        }
    }

    /// Clears the identity of every resident block among `hashes` and
    /// files it with the blocks without identity, in the order of
    /// `reset_order`. Hashes that are not resident are passed over.
    pub fn handle_reset(&mut self, sequence_hashes: Vec<SequenceHash>)
        requires
            old(self).inv(),
        ensures
            final(self).inv(),
            old(self)@.is_reset_by(sequence_hashes@, final(self)@),
    {
        let ghost before = old(self)@;
        let mut i: usize = 0;
        while i < sequence_hashes.len()
            invariant
                self.inv(),
                before == old(self)@,
                before.well_formed(),
                i <= sequence_hashes.len(),
                self@.return_tick == before.return_tick,
                self@.total_blocks == before.total_blocks,
                self@.available_blocks == before.available_blocks,
                self@.resident == before.resident.remove_keys(
                    sequence_hashes@.take(i as int).to_set(),
                ),
                self@.extends_by_reset(before, before.reset_order(sequence_hashes@.take(i as int))),
            decreases sequence_hashes.len() - i,
        {
            let ghost done = sequence_hashes@.take(i as int);
            let ghost next = sequence_hashes@.take(i + 1);
            let hash = sequence_hashes[i];
            proof {
                assert(next.take(i as int) =~= done);
                lemma_take_next_to_set(sequence_hashes@, i as int);
            }
            match self.take_with_sequence_hash(hash) {
                Some(block) => {
                    let mut block = block;
                    block.reset();
                    self.insert(block);
                },
                None => {},
            }
            i = i + 1;
        }
        proof {
            assert(sequence_hashes@.take(sequence_hashes.len() as int) =~= sequence_hashes@);
        }
    }

    /// Clears the identity of every resident block and files it with the
    /// blocks without identity, in eviction order.
    pub fn handle_reset_all(&mut self)
        requires
            old(self).inv(),
        ensures
            final(self).inv(),
            old(self)@.is_reset_all_by(final(self)@),
    {
        let ghost before = old(self)@;
        let ghost order = before.eviction_order();
        let ghost mut k: int = 0;
        let mut drained: bool = false;
        while !drained
            invariant
                self.inv(),
                before == old(self)@,
                before.well_formed(),
                order == before.eviction_order(),
                0 <= k <= order.len(),
                self@.return_tick == before.return_tick,
                self@.total_blocks == before.total_blocks,
                self@.available_blocks == before.available_blocks,
                self@.resident == before.resident.remove_keys(order.take(k).to_set()),
                self@.eviction_order() == order.skip(k),
                self@.extends_by_reset(before, order.take(k)),
                drained ==> self@.resident.len() == 0,
            decreases self@.resident.len() + (if drained { 0int } else { 1int }),
        {
            let ghost current = self@;
            match self.take_lowest() {
                Some(block) => {
                    let ghost h = block.sequence_hash;
                    let mut block = block;
                    block.reset();
                    self.insert(block);
                    proof {
                        lemma_eviction_order_advances(order, k, current, h);
                        lemma_eviction_order_of_resident(self@, current.without(h));
                        lemma_take_next_to_set(order, k);
                        k = k + 1;
                    }
                },
                None => {
                    drained = true;
                },
            }
        }
        proof {
            assert(self@.resident =~= Map::<SequenceHash, KvBlock>::empty());
        }
    }
}

} // verus!
