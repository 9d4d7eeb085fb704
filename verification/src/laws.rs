//! What holds of every pool, stated over `PoolView`.

use crate::block::{KvBlock, SequenceHash};
use crate::engine::{is_run, EngineEvent, EngineReply, Mailbox, RequestClass};
use crate::model::{lemma_with_block_well_formed, PoolView};
use crate::priority::rank_lt;
use crate::protocol::{ControlRequest, MatchRequest};
use vstd::prelude::*;
use vstd::seq_lib::seq_to_set_is_finite;
use vstd::set_lib::lemma_len_subset;

verus! {

/// At most one resident block is evicted before all others, so the block
/// that is evicted first is determined.
pub proof fn lemma_lowest_is_unique(pool: PoolView, a: SequenceHash, b: SequenceHash)
    requires
        pool.is_lowest(a),
        pool.is_lowest(b),
    ensures
        a == b,
{
}

/// A pool with a resident block has one that is evicted before all others.
pub proof fn lemma_has_lowest(pool: PoolView)
    requires
        pool.well_formed(),
        pool.resident.len() > 0,
    ensures
        pool.has_lowest(),
    decreases pool.resident.len(),
{
    let x = pool.resident.dom().choose();
    let others = pool.without(x);
    if others.resident.len() == 0 {
        assert(pool.is_lowest(x));
    } else {
        lemma_has_lowest(others);
        let l = others.lowest();
        let rx = pool.resident[x].rank();
        let rl = pool.resident[l].rank();
        if rank_lt(rx, rl) {
            assert(pool.is_lowest(x));
        } else {
            assert(pool.is_lowest(l));
        }
    }
}

/// The eviction order lists every resident block once, by ascending rank:
/// lower priority first, and within one priority the block that became
/// available first.
pub proof fn lemma_eviction_order_sorted(pool: PoolView)
    requires
        pool.well_formed(),
    ensures
        pool.eviction_order().len() == pool.resident.len(),
        pool.eviction_order().no_duplicates(),
        forall|i: int|
            0 <= i < pool.eviction_order().len() ==> pool.resident.contains_key(
                #[trigger] pool.eviction_order()[i],
            ),
        forall|h: SequenceHash| #[trigger]
            pool.resident.contains_key(h) ==> pool.eviction_order().contains(h),
        forall|i: int, j: int|
            0 <= i < j < pool.eviction_order().len() ==> rank_lt(
                pool.resident[#[trigger] pool.eviction_order()[i]].rank(),
                pool.resident[#[trigger] pool.eviction_order()[j]].rank(),
            ),
    decreases pool.resident.len(),
{
    let order = pool.eviction_order();
    if pool.resident.len() > 0 {
        lemma_has_lowest(pool);
        let low = pool.lowest();
        let others = pool.without(low);
        let rest = others.eviction_order();
        lemma_eviction_order_sorted(others);
        assert forall|h: SequenceHash| #[trigger]
            pool.resident.contains_key(h) implies order.contains(h) by {
            if h == low {
                assert(order[0] == h);
            } else {
                let j = choose|j: int| 0 <= j < rest.len() && rest[j] == h;
                assert(order[j + 1] == h);
            }
        }
    }
}

/// The available blocks are the blocks without identity and the resident
/// ones, each once.
pub proof fn lemma_take_order_complete(pool: PoolView)
    requires
        pool.well_formed(),
    ensures
        pool.take_order().len() == pool.uninitialized.len() + pool.resident.len(),
        forall|i: int|
            0 <= i < pool.uninitialized.len() ==> #[trigger] pool.take_order()[i]
                == pool.uninitialized[i],
        forall|i: int|
            pool.uninitialized.len() <= i < pool.take_order().len() ==> {
                let h = pool.eviction_order()[i - pool.uninitialized.len()];
                pool.resident.contains_key(h) && #[trigger] pool.take_order()[i]
                    == pool.resident[h] && pool.take_order()[i].sequence_hash == h
            },
{
    lemma_eviction_order_sorted(pool);
}

/// An available block is resident or without identity, never both.
pub proof fn lemma_resident_or_uninitialized(pool: PoolView, i: int, hash: SequenceHash)
    requires
        pool.well_formed(),
        0 <= i < pool.uninitialized.len(),
        pool.resident.contains_key(hash),
    ensures
        pool.uninitialized[i] != pool.resident[hash],
{
}

/// Uniqueness: among the available blocks, at most one carries a given hash
/// other than the sentinel.
pub proof fn lemma_identity_is_unique(pool: PoolView, i: int, j: int)
    requires
        pool.well_formed(),
        0 <= i < pool.take_order().len(),
        0 <= j < pool.take_order().len(),
        pool.take_order()[i].has_identity(),
        pool.take_order()[i].sequence_hash == pool.take_order()[j].sequence_hash,
    ensures
        i == j,
{
    lemma_eviction_order_sorted(pool);
}

/// Eviction order: of the blocks with identity that one request takes, a
/// block of lower priority comes before one of higher priority, whatever
/// their ticks, and of two blocks of equal priority the one that became
/// available first comes first. Every resident block that is left ranks
/// after every block taken.
pub proof fn lemma_take_is_ordered(pool: PoolView, count: u32)
    requires
        pool.well_formed(),
        pool.accounted(),
    ensures
        forall|i: int, j: int|
            pool.uninitialized.len() <= i < j < pool.take_result(count).len() ==> {
                let first = #[trigger] pool.take_result(count)[i];
                let second = #[trigger] pool.take_result(count)[j];
                &&& first.priority <= second.priority
                &&& first.priority == second.priority ==> first.return_tick < second.return_tick
            },
        forall|i: int, h: SequenceHash|
            pool.uninitialized.len() <= i < pool.take_result(count).len()
                && #[trigger] pool.after_take(count).resident.contains_key(h) ==> rank_lt(
                (#[trigger] pool.take_result(count)[i]).rank(),
                pool.resident[h].rank(),
            ),
{
    lemma_eviction_order_sorted(pool);
    let u = pool.uninitialized.len() as int;
    let n = pool.taken_count(count) as int;
    let order = pool.eviction_order();
    let taken = pool.take_result(count);
    assert forall|i: int, h: SequenceHash|
        u <= i < taken.len() && #[trigger] pool.after_take(count).resident.contains_key(
            h,
        ) implies rank_lt((#[trigger] taken[i]).rank(), pool.resident[h].rank()) by {
        let k = choose|k: int| 0 <= k < order.len() && order[k] == h;
        if k < n - u {
            assert(order.take(n - u)[k] == h);
        }
    }
}

/// Uninitialized precedence: a request is served from the blocks without
/// identity, oldest first, as far as they go; a block with identity is
/// taken only once there is none of them left.
pub proof fn lemma_uninitialized_first(pool: PoolView, count: u32)
    requires
        pool.well_formed(),
        pool.accounted(),
    ensures
        forall|i: int|
            0 <= i < pool.take_result(count).len() && i < pool.uninitialized.len()
                ==> #[trigger] pool.take_result(count)[i] == pool.uninitialized[i],
        forall|i: int|
            pool.uninitialized.len() <= i < pool.take_result(count).len() ==> (
            #[trigger] pool.take_result(count)[i]).has_identity(),
        pool.take_result(count).len() > pool.uninitialized.len() ==> pool.after_take(
            count,
        ).uninitialized.len() == 0,
{
    lemma_eviction_order_sorted(pool);
}

/// A chain of hashes has at most one longest prefix that can be claimed.
pub proof fn lemma_matched_prefix_is_unique(
    pool: PoolView,
    hashes: Seq<SequenceHash>,
    n: int,
    m: int,
)
    requires
        pool.is_matched_prefix(hashes, n),
        pool.is_matched_prefix(hashes, m),
    ensures
        n == m,
{
}

/// Prefix match: where the first `k` hashes of a chain are distinct and
/// their blocks resident, and the chain ends there or its next block is not
/// resident, a match claims exactly those `k` blocks, in order. With all
/// blocks resident it claims them all; nothing beyond a miss is claimed,
/// resident or not.
pub proof fn lemma_match_claims_resident_prefix(
    pool: PoolView,
    hashes: Seq<SequenceHash>,
    matched: Seq<KvBlock>,
    k: int,
)
    requires
        pool.is_match_of(hashes, matched),
        0 <= k <= hashes.len(),
        hashes.take(k).no_duplicates(),
        forall|i: int| 0 <= i < k ==> pool.resident.contains_key(#[trigger] hashes[i]),
        k < hashes.len() ==> !pool.resident.contains_key(hashes[k]),
    ensures
        matched.len() == k,
        forall|i: int| 0 <= i < k ==> #[trigger] matched[i] == pool.resident[hashes[i]],
{
    assert forall|i: int| 0 <= i < k implies #[trigger] pool.claimable(hashes, i) by {
        if hashes.take(i).contains(hashes[i]) {
            let j = choose|j: int| 0 <= j < hashes.take(i).len() && hashes.take(i)[j] == hashes[i];
            assert(hashes.take(k)[j] == hashes.take(k)[i]);
        }
    }
    lemma_matched_prefix_is_unique(pool, hashes, k, matched.len() as int);
}

/// Round trip: a block with identity that is inserted can at once be
/// claimed by its hash. What comes back is that block, with the tick that
/// the insert gave it, and the pool then holds what it held before the
/// insert.
pub proof fn lemma_insert_then_match(pool: PoolView, block: KvBlock)
    requires
        pool.well_formed(),
        pool.accounted(),
        pool.accepts_insert(block),
        block.has_identity(),
    ensures
        pool.inserted(block).single_match(block.sequence_hash) == Some(
            block.with_tick((pool.return_tick + 1) as u64),
        ),
        pool.inserted(block).after_single_match(block.sequence_hash).resident == pool.resident,
        pool.inserted(block).after_single_match(block.sequence_hash).uninitialized
            == pool.uninitialized,
        pool.inserted(block).after_single_match(block.sequence_hash).available_blocks
            == pool.available_blocks,
        pool.inserted(block).after_single_match(block.sequence_hash).total_blocks
            == pool.total_blocks + 1,
{
}

/// Round trip: a resident block that is claimed by its hash and then
/// released can at once be claimed again by its hash. It is the same block
/// but for its tick, which is later than the one it had.
pub proof fn lemma_release_then_match(pool: PoolView, hash: SequenceHash)
    requires
        pool.well_formed(),
        pool.accounted(),
        pool.resident.contains_key(hash),
        pool.return_tick < u64::MAX,
    ensures
        pool.after_single_match(hash).accepts_return(pool.resident[hash]),
        pool.after_single_match(hash).returned(pool.resident[hash]).single_match(hash) == Some(
            pool.resident[hash].with_tick((pool.return_tick + 1) as u64),
        ),
        pool.resident[hash].return_tick < pool.return_tick + 1,
{
}

/// A match claims no more blocks than are resident.
pub proof fn lemma_match_is_bounded(pool: PoolView, hashes: Seq<SequenceHash>, n: int)
    requires
        pool.well_formed(),
        pool.is_matched_prefix(hashes, n),
    ensures
        n <= pool.resident.len(),
{
    lemma_claimed_hashes(pool, hashes, n);
    lemma_len_subset(hashes.take(n).to_set(), pool.resident.dom());
}

/// Conservation: serving a request never lowers the number of blocks in
/// total, which grows by one with each insert and with nothing else. The
/// number of available blocks falls by exactly the number of blocks that
/// the reply hands out and grows by one with each insert and each return.
/// At no time are more blocks available than there are in total.
pub proof fn lemma_conservation(
    before: PoolView,
    event: EngineEvent,
    reply: EngineReply,
    after: PoolView,
)
    requires
        before.well_formed(),
        before.accounted(),
        before.accepts(event),
        before.serves(event, reply, after),
    ensures
        after.total_blocks == before.total_blocks + event.inserted_blocks(),
        after.total_blocks >= before.total_blocks,
        reply.claimed_blocks() <= before.available_blocks,
        after.available_blocks == before.available_blocks + event.arriving_blocks()
            - reply.claimed_blocks(),
        after.available_blocks <= after.total_blocks,
{
    match event {
        EngineEvent::Match(MatchRequest::MatchSingle(_)) => {},
        EngineEvent::Match(MatchRequest::MatchMultiple(multiple)) => {
            let matched = reply->Matched_0->Multiple_0;
            lemma_match_is_bounded(before, multiple.hashes@, matched.len() as int);
        },
        EngineEvent::Match(MatchRequest::Take(take)) => {
            lemma_take_order_complete(before);
        },
        EngineEvent::Return(_) => {},
        EngineEvent::Control(_) => {},
        EngineEvent::Fence => {},
    }
}

/// The hashes that a reset moves are the resident ones among those it is
/// given, each once.
pub proof fn lemma_reset_order(pool: PoolView, hashes: Seq<SequenceHash>)
    ensures
        pool.reset_order(hashes).no_duplicates(),
        pool.reset_order(hashes).to_set() == hashes.to_set().intersect(pool.resident.dom()),
    decreases hashes.len(),
{
    let order = pool.reset_order(hashes);
    if hashes.len() > 0 {
        let earlier_hashes = hashes.drop_last();
        let earlier = pool.reset_order(earlier_hashes);
        let last = hashes.last();
        lemma_reset_order(pool, earlier_hashes);
        assert forall|h: SequenceHash| hashes.to_set().contains(h) <==> (
        earlier_hashes.to_set().contains(h) || h == last) by {
            if hashes.contains(h) {
                let i = choose|i: int| 0 <= i < hashes.len() && hashes[i] == h;
                if i < hashes.len() - 1 {
                    assert(earlier_hashes[i] == h);
                }
            }
            if earlier_hashes.contains(h) {
                let i = choose|i: int| 0 <= i < earlier_hashes.len() && earlier_hashes[i] == h;
                assert(hashes[i] == h);
            }
        }
        if pool.claimable(hashes, hashes.len() - 1) {
            assert(!earlier.to_set().contains(last));
            assert forall|h: SequenceHash| order.to_set().contains(h) <==> (
            earlier.to_set().contains(h) || h == last) by {
                if order.contains(h) {
                    let i = choose|i: int| 0 <= i < order.len() && order[i] == h;
                    if i < earlier.len() {
                        assert(earlier[i] == h);
                    }
                }
                if earlier.contains(h) {
                    let i = choose|i: int| 0 <= i < earlier.len() && earlier[i] == h;
                    assert(order[i] == h);
                }
                if h == last {
                    assert(order[earlier.len() as int] == h);
                }
            }
            assert forall|i: int, j: int| 0 <= i < j < order.len() implies order[i]
                != order[j] by {
                assert(earlier.contains(order[i]));
            }
        }
    }
}

/// Serving a request that the pool accepts leaves the pool well formed and
/// its counters in agreement with its contents.
pub proof fn lemma_serving_keeps_pool_valid(
    before: PoolView,
    event: EngineEvent,
    reply: EngineReply,
    after: PoolView,
)
    requires
        before.well_formed(),
        before.accounted(),
        before.accepts(event),
        before.serves(event, reply, after),
    ensures
        after.well_formed(),
        after.accounted(),
{
    match event {
        EngineEvent::Match(MatchRequest::MatchSingle(single)) => {
            if before.resident.contains_key(single.hash) {
                before.resident.lemma_remove_key_len(single.hash);
            }
        },
        EngineEvent::Match(MatchRequest::MatchMultiple(multiple)) => {
            let matched = reply->Matched_0->Multiple_0;
            let claimed = multiple.hashes@.take(matched.len() as int);
            lemma_claimed_hashes(before, multiple.hashes@, matched.len() as int);
            before.resident.lemma_remove_keys_len(claimed.to_set());
            assert(after.resident.dom() =~= before.resident.dom().difference(claimed.to_set()));
        },
        EngineEvent::Match(MatchRequest::Take(take)) => {
            lemma_eviction_order_sorted(before);
            let n = before.taken_count(take.count);
            let u = before.uninitialized_among(n);
            let evicted = before.eviction_order().take(n - u);
            evicted.unique_seq_to_set();
            seq_to_set_is_finite(evicted);
            assert forall|h: SequenceHash| #[trigger]
                evicted.to_set().contains(h) implies before.resident.contains_key(h) by {
                let i = choose|i: int| 0 <= i < evicted.len() && evicted[i] == h;
            }
            before.resident.lemma_remove_keys_len(evicted.to_set());
            assert(after.resident.dom() =~= before.resident.dom().difference(evicted.to_set()));
        },
        EngineEvent::Return(block) => {
            lemma_arrival_keeps_pool_valid(before, block);
        },
        EngineEvent::Control(ControlRequest::Insert(insert)) => {
            lemma_arrival_keeps_pool_valid(before, insert.block);
        },
        EngineEvent::Control(ControlRequest::UpdateSingle(_))
        | EngineEvent::Control(ControlRequest::UpdateMultiple(_)) => {
            assert(after.resident.dom() =~= before.resident.dom());
        },
        EngineEvent::Control(ControlRequest::Reset(reset)) => {
            let hashes = reset.sequence_hashes@;
            let moved = hashes.to_set().intersect(before.resident.dom());
            lemma_reset_order(before, hashes);
            before.reset_order(hashes).unique_seq_to_set();
            seq_to_set_is_finite(before.reset_order(hashes));
            assert(before.resident.remove_keys(hashes.to_set()) =~= before.resident.remove_keys(
                moved,
            ));
            before.resident.lemma_remove_keys_len(moved);
            assert(after.resident.dom() =~= before.resident.dom().difference(moved));
            lemma_reset_blocks_have_no_identity(before, before.reset_order(hashes), after);
        },
        EngineEvent::Control(ControlRequest::ResetAll(_)) => {
            lemma_eviction_order_sorted(before);
            lemma_reset_blocks_have_no_identity(before, before.eviction_order(), after);
        },
        EngineEvent::Fence => {},
    }
}

/// Where a reset has extended the blocks without identity, none of them
/// has an identity.
proof fn lemma_reset_blocks_have_no_identity(
    before: PoolView,
    order: Seq<SequenceHash>,
    after: PoolView,
)
    requires
        before.well_formed(),
        after.extends_by_reset(before, order),
    ensures
        forall|i: int|
            0 <= i < after.uninitialized.len() ==> !(#[trigger] after.uninitialized[i]).has_identity(),
{
    let kept = before.uninitialized.len();
    assert forall|i: int| 0 <= i < after.uninitialized.len() implies !(
    #[trigger] after.uninitialized[i]).has_identity() by {
        if i >= kept {
            let j = i - kept;
            assert(after.uninitialized[kept + j].is_reset_of(before.resident[order[j]]));
        }
    }
}

/// The first hashes of a chain that a match claims are distinct and
/// resident.
proof fn lemma_claimed_hashes(pool: PoolView, hashes: Seq<SequenceHash>, n: int)
    requires
        pool.is_matched_prefix(hashes, n),
    ensures
        hashes.take(n).no_duplicates(),
        hashes.take(n).to_set().finite(),
        hashes.take(n).to_set().len() == n,
        forall|h: SequenceHash| #[trigger]
            hashes.take(n).to_set().contains(h) ==> pool.resident.contains_key(h),
{
    let claimed = hashes.take(n);
    assert forall|i: int, j: int| 0 <= i < claimed.len() && 0 <= j < claimed.len() && i
        != j implies claimed[i] != claimed[j] by {
        let (a, b) = if i < j {
            (i, j)
        } else {
            (j, i)
        };
        assert(pool.claimable(hashes, b));
    }
    claimed.unique_seq_to_set();
    seq_to_set_is_finite(claimed);
    assert forall|h: SequenceHash| #[trigger]
        claimed.to_set().contains(h) implies pool.resident.contains_key(h) by {
        let i = choose|i: int| 0 <= i < claimed.len() && claimed[i] == h;
        assert(pool.claimable(hashes, i));
    }
}

/// A block that becomes available with a fresh tick leaves the pool well
/// formed and its counters in agreement, but for the blocks in total, which
/// an insert counts.
proof fn lemma_arrival_keeps_pool_valid(pool: PoolView, block: KvBlock)
    requires
        pool.well_formed(),
        pool.accounted(),
        pool.accepts_insert(block),
    ensures
        pool.returned(block).well_formed(),
        pool.inserted(block).well_formed(),
        pool.handed_out() > 0 ==> pool.returned(block).accounted(),
        pool.inserted(block).accounted(),
{
    let tick = (pool.return_tick + 1) as u64;
    let stamped = block.with_tick(tick);
    let ticked = PoolView {
        return_tick: tick,
        available_blocks: (pool.available_blocks + 1) as u64,
        ..pool
    };
    lemma_with_block_well_formed(ticked, stamped);
}

/// Runs: where the loop starts on a pool that is well formed and whose
/// counters agree with its contents, and every request is one that the pool
/// accepts when its turn comes, every pool on the way is so too, and the
/// number of blocks in total never falls.
pub proof fn lemma_run_keeps_pools_valid(
    pools: Seq<PoolView>,
    events: Seq<EngineEvent>,
    replies: Seq<EngineReply>,
    i: int,
)
    requires
        is_run(pools, events, replies),
        pools[0].well_formed(),
        pools[0].accounted(),
        forall|k: int| 0 <= k < events.len() ==> #[trigger] pools[k].accepts(events[k]),
        0 <= i <= events.len(),
    ensures
        pools[i].well_formed(),
        pools[i].accounted(),
        pools[i].available_blocks <= pools[i].total_blocks,
        pools[0].total_blocks <= pools[i].total_blocks,
    decreases i,
{
    if i > 0 {
        lemma_run_keeps_pools_valid(pools, events, replies, i - 1);
        assert(pools[i - 1].serves(events[i - 1], replies[i - 1], pools[i - 1 + 1]));
        lemma_serving_keeps_pool_valid(pools[i - 1], events[i - 1], replies[i - 1], pools[i]);
        lemma_conservation(pools[i - 1], events[i - 1], replies[i - 1], pools[i]);
    }
}

/// The loop serves what waits class by class: first the matches, then the
/// returns, then the controls, each class oldest first, and the fences
/// last.
pub proof fn lemma_service_order(mailbox: Mailbox)
    ensures
        mailbox.service_order().len() == mailbox.operations() + mailbox.fences,
        forall|i: int|
            0 <= i < mailbox.matches.len() ==> #[trigger] mailbox.service_order()[i]
                == EngineEvent::Match(mailbox.matches[i]),
        forall|i: int|
            0 <= i < mailbox.returns.len() ==> #[trigger] mailbox.service_order()[
                mailbox.matches.len() + i
            ] == EngineEvent::Return(mailbox.returns[i]),
        forall|i: int|
            0 <= i < mailbox.controls.len() ==> #[trigger] mailbox.service_order()[
                mailbox.matches.len() + mailbox.returns.len() + i
            ] == EngineEvent::Control(mailbox.controls[i]),
        forall|i: int|
            mailbox.operations() <= i < mailbox.service_order().len()
                ==> #[trigger] mailbox.service_order()[i] == EngineEvent::Fence,
    decreases mailbox.operations() + mailbox.fences,
{
    let order = mailbox.service_order();
    if mailbox.next_event() is Some {
        let rest = mailbox.rest();
        lemma_service_order(rest);
        let tail = rest.service_order();
        assert forall|i: int| 0 <= i < mailbox.returns.len() implies #[trigger] order[
            mailbox.matches.len() + i
        ] == EngineEvent::Return(mailbox.returns[i]) by {
            if mailbox.matches.len() > 0 {
                assert(tail[rest.matches.len() + i] == EngineEvent::Return(rest.returns[i]));
            } else if i > 0 {
                assert(tail[rest.matches.len() + (i - 1)] == EngineEvent::Return(
                    rest.returns[i - 1],
                ));
            }
        }
        assert forall|i: int| 0 <= i < mailbox.controls.len() implies #[trigger] order[
            mailbox.matches.len() + mailbox.returns.len() + i
        ] == EngineEvent::Control(mailbox.controls[i]) by {
            if mailbox.matches.len() > 0 || mailbox.returns.len() > 0 {
                assert(tail[rest.matches.len() + rest.returns.len() + i] == EngineEvent::Control(
                    rest.controls[i],
                ));
            } else if i > 0 {
                assert(tail[rest.matches.len() + rest.returns.len() + (i - 1)]
                    == EngineEvent::Control(rest.controls[i - 1]));
            }
        }
    }
}

/// Barrier: a fence is served only when no other request waits. Of the
/// requests that wait together with a fence, every one is served before
/// the fence is acknowledged, and the pool that is seen after the
/// acknowledgement is the pool as the last of them left it.
pub proof fn lemma_barrier(
    mailbox: Mailbox,
    pools: Seq<PoolView>,
    replies: Seq<EngineReply>,
)
    requires
        mailbox.fences > 0,
        is_run(pools, mailbox.service_order(), replies),
    ensures
        mailbox.pending().first() == Some(RequestClass::Fence) ==> mailbox.operations() == 0,
        mailbox.operations() < mailbox.service_order().len(),
        forall|i: int|
            0 <= i < mailbox.operations() ==> !(#[trigger] mailbox.service_order()[i] is Fence),
        mailbox.service_order()[mailbox.operations() as int] is Fence,
        replies[mailbox.operations() as int] is Acknowledged,
        pools[mailbox.operations() as int + 1] == pools[mailbox.operations() as int],
{
    lemma_service_order(mailbox);
    let n = mailbox.operations() as int;
    let order = mailbox.service_order();
    assert(pools[n].serves(order[n], replies[n], pools[n + 1]));
    assert forall|i: int| 0 <= i < n implies !(#[trigger] order[i] is Fence) by {
        if i < mailbox.matches.len() {
            assert(order[i] == EngineEvent::Match(mailbox.matches[i]));
        } else if i < mailbox.matches.len() + mailbox.returns.len() {
            let j = i - mailbox.matches.len();
            assert(order[mailbox.matches.len() + j] == EngineEvent::Return(mailbox.returns[j]));
        } else {
            let j = i - mailbox.matches.len() - mailbox.returns.len();
            assert(order[mailbox.matches.len() + mailbox.returns.len() + j]
                == EngineEvent::Control(mailbox.controls[j]));
        }
    }
}

} // verus!
