use kv_reuse::{AvailableBlocksState, KvBlock, PriorityKey, UpdateBlock, SENTINEL_HASH};
use std::cmp::Ordering;

fn block(hash: u64, priority: u32) -> KvBlock {
    KvBlock {
        sequence_hash: hash,
        tokens: vec![hash as u32, hash as u32 + 1],
        priority,
        return_tick: 0,
    }
}

fn pool_of(blocks: Vec<KvBlock>) -> AvailableBlocksState {
    let mut pool = AvailableBlocksState::new();
    for block in blocks {
        assert!(pool.can_insert(&block));
        pool.handle_insert(block);
    }
    pool
}

fn hashes_of(blocks: &[KvBlock]) -> Vec<u64> {
    blocks.iter().map(|b| b.sequence_hash).collect()
}

#[test]
fn new_pool_is_empty() {
    let mut pool = AvailableBlocksState::new();
    assert_eq!(pool.total_blocks(), 0);
    assert_eq!(pool.available_blocks(), 0);
    assert_eq!(pool.return_tick(), 0);
    assert!(!pool.contains(7));
    assert!(pool.take().is_none());
    assert!(pool.handle_take(3).is_empty());
    assert!(pool.handle_match_multiple(vec![1, 2]).is_empty());
    assert!(pool.handle_match_single(1).is_none());
}

#[test]
fn default_pool_is_empty() {
    let mut pool = AvailableBlocksState::default();
    assert_eq!(pool.total_blocks(), 0);
    assert_eq!(pool.available_blocks(), 0);
    assert_eq!(pool.return_tick(), 0);
    assert!(pool.handle_take(1).is_empty());
}

#[test]
fn block_new_has_priority_zero_and_no_tick() {
    let b = KvBlock::new(42, vec![1, 2, 3]);
    assert_eq!(b.sequence_hash(), 42);
    assert_eq!(b.tokens(), &vec![1, 2, 3]);
    assert_eq!(b.priority, 0);
    assert_eq!(b.return_tick, 0);
}

#[test]
fn block_reset_clears_identity_only() {
    let mut b = KvBlock {
        sequence_hash: 42,
        tokens: vec![1, 2],
        priority: 5,
        return_tick: 9,
    };
    b.reset();
    assert_eq!(b.sequence_hash, SENTINEL_HASH);
    assert!(b.tokens.is_empty());
    assert_eq!(b.priority, 5);
    assert_eq!(b.return_tick, 9);
}

#[test]
fn priority_key_from_block_copies_the_three_fields() {
    let b = KvBlock {
        sequence_hash: 42,
        tokens: vec![1],
        priority: 5,
        return_tick: 9,
    };
    let key = PriorityKey::from(&b);
    assert_eq!(key.priority, 5);
    assert_eq!(key.return_tick, 9);
    assert_eq!(key.sequence_hash, 42);
    assert_eq!(key.rank(), (5, 9));
}

#[test]
fn priority_key_compare_orders_by_priority_then_tick() {
    let key = |priority, return_tick, sequence_hash| PriorityKey {
        priority,
        return_tick,
        sequence_hash,
    };
    assert_eq!(key(0, 9, 1).compare(&key(1, 0, 2)), Ordering::Less);
    assert_eq!(key(1, 0, 2).compare(&key(0, 9, 1)), Ordering::Greater);
    assert_eq!(key(1, 3, 1).compare(&key(1, 4, 2)), Ordering::Less);
    assert_eq!(key(1, 4, 1).compare(&key(1, 3, 2)), Ordering::Greater);
    // the hash takes no part
    assert_eq!(key(1, 3, 1).compare(&key(1, 3, 2)), Ordering::Equal);
    assert_eq!(key(1, 3, 2).compare(&key(1, 3, 1)), Ordering::Equal);
}

#[test]
fn insert_stamps_fresh_ticks_and_counts() {
    let mut pool = AvailableBlocksState::new();
    pool.handle_insert(block(10, 0));
    assert_eq!(pool.return_tick(), 1);
    assert_eq!(pool.total_blocks(), 1);
    assert_eq!(pool.available_blocks(), 1);
    pool.handle_insert(block(11, 0));
    assert_eq!(pool.return_tick(), 2);
    assert_eq!(pool.total_blocks(), 2);
    assert_eq!(pool.available_blocks(), 2);
    assert!(pool.contains(10));
    assert!(pool.contains(11));
    assert!(pool.contains_rank(0, 1));
    assert!(pool.contains_rank(0, 2));
    assert!(!pool.contains_rank(0, 3));
    assert!(!pool.contains_rank(1, 1));

    let first = pool.handle_match_single(10).unwrap();
    assert_eq!(first.return_tick, 1);
    let second = pool.handle_match_single(11).unwrap();
    assert_eq!(second.return_tick, 2);
}

#[test]
fn insert_of_resident_hash_is_refused() {
    let pool = pool_of(vec![block(10, 0)]);
    assert!(!pool.can_insert(&block(10, 3)));
    assert!(pool.can_insert(&block(11, 3)));
    // a block without identity is always accepted
    assert!(pool.can_insert(&block(SENTINEL_HASH, 0)));
}

#[test]
fn return_is_refused_when_nothing_is_handed_out() {
    let mut pool = pool_of(vec![block(10, 0)]);
    assert!(!pool.can_return(&block(11, 0)));
    let claimed = pool.handle_match_single(10).unwrap();
    assert!(pool.can_return(&claimed));
}

#[test]
fn insert_then_match_returns_that_block() {
    let mut pool = pool_of(vec![block(10, 0), block(11, 0)]);
    let before_available = pool.available_blocks();
    let mut fresh = block(12, 7);
    fresh.return_tick = 99;
    pool.handle_insert(fresh.clone());
    let back = pool.handle_match_single(12).unwrap();
    assert_eq!(back.sequence_hash, 12);
    assert_eq!(back.tokens, fresh.tokens);
    assert_eq!(back.priority, 7);
    // the pool's tick, not the tick the block came with
    assert_eq!(back.return_tick, 3);
    assert_eq!(pool.available_blocks(), before_available);
    assert_eq!(pool.total_blocks(), 3);
    assert!(!pool.contains(12));
}

#[test]
fn return_then_match_gives_a_later_tick() {
    let mut pool = pool_of(vec![block(10, 0), block(11, 0)]);
    let claimed = pool.handle_match_single(10).unwrap();
    assert_eq!(claimed.return_tick, 1);
    assert_eq!(pool.available_blocks(), 1);
    pool.handle_return(claimed);
    assert_eq!(pool.available_blocks(), 2);
    assert_eq!(pool.total_blocks(), 2);
    let again = pool.handle_match_single(10).unwrap();
    assert_eq!(again.sequence_hash, 10);
    assert_eq!(again.return_tick, 3);
    assert!(again.return_tick > 1);
}

#[test]
fn match_claims_all_when_all_are_resident() {
    let blocks = vec![block(1, 0), block(2, 0), block(3, 0)];
    let hashes = hashes_of(&blocks);
    let mut pool = pool_of(blocks);
    let matched = pool.handle_match_multiple(hashes.clone());
    assert_eq!(hashes_of(&matched), hashes);
    assert_eq!(pool.available_blocks(), 0);
    assert_eq!(pool.total_blocks(), 3);
}

#[test]
fn match_stops_at_the_first_miss() {
    let mut pool = pool_of(vec![block(1, 0), block(2, 0), block(3, 0), block(4, 0)]);
    // block 3 is checked out
    let held = pool.handle_match_single(3).unwrap();
    assert_eq!(held.sequence_hash, 3);
    assert_eq!(pool.available_blocks(), 3);

    let matched = pool.match_hashes(vec![1, 2, 3, 4]);
    assert_eq!(hashes_of(&matched), vec![1, 2]);
    assert_eq!(pool.available_blocks(), 1);
    // the block beyond the miss stays in the pool
    assert!(pool.contains(4));
    assert!(!pool.contains(1));
    assert!(!pool.contains(2));
}

#[test]
fn match_with_a_miss_at_the_front_claims_nothing() {
    let mut pool = pool_of(vec![block(2, 0), block(3, 0)]);
    let matched = pool.match_hashes(vec![1, 2, 3]);
    assert!(matched.is_empty());
    assert_eq!(pool.available_blocks(), 2);
    assert!(pool.contains(2));
    assert!(pool.contains(3));
}

#[test]
fn match_of_a_repeated_hash_stops_at_the_repeat() {
    let mut pool = pool_of(vec![block(1, 0), block(2, 0)]);
    let matched = pool.match_hashes(vec![1, 1, 2]);
    assert_eq!(hashes_of(&matched), vec![1]);
    assert_eq!(pool.available_blocks(), 1);
    assert!(pool.contains(2));
}

#[test]
fn match_of_nothing_claims_nothing() {
    let mut pool = pool_of(vec![block(1, 0)]);
    assert!(pool.match_hashes(Vec::new()).is_empty());
    assert_eq!(pool.available_blocks(), 1);
}

#[test]
fn the_sentinel_is_never_matched() {
    let mut pool = pool_of(vec![block(SENTINEL_HASH, 0), block(1, 0)]);
    assert!(!pool.contains(SENTINEL_HASH));
    assert!(pool.handle_match_single(SENTINEL_HASH).is_none());
    assert!(pool.match_hashes(vec![SENTINEL_HASH, 1]).is_empty());
    assert_eq!(pool.available_blocks(), 2);
}

#[test]
fn take_with_sequence_hash_leaves_the_counters() {
    let mut pool = pool_of(vec![block(1, 0), block(2, 0)]);
    let taken = pool.take_with_sequence_hash(1).unwrap();
    assert_eq!(taken.sequence_hash, 1);
    assert!(!pool.contains(1));
    assert!(!pool.contains_rank(0, 1));
    assert_eq!(pool.available_blocks(), 2);
    assert!(pool.take_with_sequence_hash(1).is_none());
    assert!(pool.take_with_sequence_hash(9).is_none());
    // filing it again finds it again
    pool.insert(taken);
    assert!(pool.contains(1));
    assert!(pool.contains_rank(0, 1));
}

#[test]
fn take_gives_the_lowest_rank_and_removes_it() {
    let mut pool = pool_of(vec![block(1, 5), block(2, 3), block(3, 4)]);
    assert_eq!(pool.take().unwrap().sequence_hash, 2);
    assert!(!pool.contains(2));
    assert_eq!(pool.take().unwrap().sequence_hash, 3);
    assert_eq!(pool.take().unwrap().sequence_hash, 1);
    assert!(pool.take().is_none());
    // take leaves the counters to its caller
    assert_eq!(pool.available_blocks(), 3);
}

#[test]
fn take_serves_uninitialized_blocks_first_and_in_order() {
    let mut first = block(SENTINEL_HASH, 9);
    first.tokens = vec![100];
    let mut second = block(SENTINEL_HASH, 0);
    second.tokens = vec![200];
    let mut pool = pool_of(vec![block(1, 0), first, block(2, 0), second]);
    assert_eq!(pool.available_blocks(), 4);

    let taken = pool.handle_take(3);
    assert_eq!(taken.len(), 3);
    assert_eq!(taken[0].tokens, vec![100]);
    assert_eq!(taken[0].sequence_hash, SENTINEL_HASH);
    assert_eq!(taken[1].tokens, vec![200]);
    assert_eq!(taken[2].sequence_hash, 1);
    assert_eq!(pool.available_blocks(), 1);
    assert_eq!(pool.total_blocks(), 4);
    assert!(pool.contains(2));
}

#[test]
fn take_of_fewer_than_uninitialized_leaves_resident_blocks() {
    let mut pool = pool_of(vec![
        block(1, 0),
        block(SENTINEL_HASH, 0),
        block(SENTINEL_HASH, 0),
    ]);
    let taken = pool.handle_take(1);
    assert_eq!(taken.len(), 1);
    assert_eq!(taken[0].sequence_hash, SENTINEL_HASH);
    assert_eq!(taken[0].return_tick, 2);
    assert!(pool.contains(1));
    assert_eq!(pool.available_blocks(), 2);
}

#[test]
fn take_of_more_than_available_gives_all() {
    let mut pool = pool_of(vec![block(1, 0), block(2, 0)]);
    let taken = pool.handle_take(5);
    assert_eq!(hashes_of(&taken), vec![1, 2]);
    assert_eq!(pool.available_blocks(), 0);
    assert_eq!(pool.total_blocks(), 2);
    assert!(pool.handle_take(1).is_empty());
}

#[test]
fn take_of_zero_gives_nothing() {
    let mut pool = pool_of(vec![block(1, 0)]);
    assert!(pool.handle_take(0).is_empty());
    assert_eq!(pool.available_blocks(), 1);
    assert!(pool.contains(1));
}

#[test]
fn low_priority_goes_before_high_whatever_the_age() {
    // the block of priority 0 is the youngest and still goes first
    let mut pool = pool_of(vec![block(1, 2), block(2, 1), block(3, 0)]);
    let taken = pool.handle_take(3);
    assert_eq!(hashes_of(&taken), vec![3, 2, 1]);
}

#[test]
fn update_changes_priority_and_keeps_the_tick() {
    let mut pool = pool_of(vec![block(1, 0), block(2, 0), block(3, 0)]);
    pool.handle_update_single(UpdateBlock {
        hash: 1,
        priority: Some(5),
        deadline: None,
    });
    assert_eq!(pool.available_blocks(), 3);
    assert_eq!(pool.total_blocks(), 3);
    assert_eq!(pool.return_tick(), 3);
    assert!(pool.contains_rank(5, 1));
    assert!(!pool.contains_rank(0, 1));
    let taken = pool.handle_take(3);
    assert_eq!(hashes_of(&taken), vec![2, 3, 1]);
    assert_eq!(taken[2].priority, 5);
    assert_eq!(taken[2].return_tick, 1);
}

#[test]
fn update_without_priority_changes_nothing() {
    let mut pool = pool_of(vec![block(1, 4), block(2, 0)]);
    pool.handle_update_single(UpdateBlock {
        hash: 1,
        priority: None,
        deadline: Some(std::time::Instant::now()),
    });
    let back = pool.handle_match_single(1).unwrap();
    assert_eq!(back.priority, 4);
    assert_eq!(back.return_tick, 1);
}

#[test]
fn update_of_a_hash_that_is_not_resident_is_passed_over() {
    let mut pool = pool_of(vec![block(1, 0)]);
    pool.handle_update_single(UpdateBlock {
        hash: 9,
        priority: Some(5),
        deadline: None,
    });
    assert_eq!(pool.available_blocks(), 1);
    assert!(!pool.contains(9));
    assert_eq!(pool.handle_match_single(1).unwrap().priority, 0);
}

#[test]
fn later_updates_on_one_hash_win() {
    let mut pool = pool_of(vec![block(1, 0), block(2, 1)]);
    pool.handle_update_multiple(vec![
        UpdateBlock {
            hash: 1,
            priority: Some(7),
            deadline: None,
        },
        UpdateBlock {
            hash: 2,
            priority: Some(0),
            deadline: None,
        },
        UpdateBlock {
            hash: 1,
            priority: None,
            deadline: None,
        },
        UpdateBlock {
            hash: 1,
            priority: Some(3),
            deadline: None,
        },
    ]);
    let taken = pool.handle_take(2);
    assert_eq!(hashes_of(&taken), vec![2, 1]);
    assert_eq!(taken[0].priority, 0);
    assert_eq!(taken[1].priority, 3);
}

#[test]
fn update_block_with_no_updates_changes_nothing() {
    let mut pool = pool_of(vec![block(1, 2)]);
    pool.update_block(Vec::new());
    assert_eq!(pool.handle_match_single(1).unwrap().priority, 2);
}

#[test]
fn reset_moves_blocks_to_the_uninitialized_queue() {
    let mut pool = pool_of(vec![block(1, 0), block(2, 0), block(3, 0)]);
    // 9 is not resident, 3 is named twice
    pool.handle_reset(vec![3, 9, 1, 3]);
    assert_eq!(pool.available_blocks(), 3);
    assert_eq!(pool.total_blocks(), 3);
    assert_eq!(pool.return_tick(), 3);
    assert!(!pool.contains(1));
    assert!(pool.contains(2));
    assert!(!pool.contains(3));
    assert!(pool.handle_match_single(1).is_none());

    // the reset blocks come out first, in the order of the request
    let taken = pool.handle_take(3);
    assert_eq!(taken[0].sequence_hash, SENTINEL_HASH);
    assert!(taken[0].tokens.is_empty());
    assert_eq!(taken[0].return_tick, 3);
    assert_eq!(taken[1].sequence_hash, SENTINEL_HASH);
    assert_eq!(taken[1].return_tick, 1);
    assert_eq!(taken[2].sequence_hash, 2);
}

#[test]
fn reset_all_empties_the_index_in_eviction_order() {
    let mut pool = pool_of(vec![
        block(1, 2),
        block(SENTINEL_HASH, 0),
        block(2, 0),
        block(3, 1),
    ]);
    pool.handle_reset_all();
    assert_eq!(pool.available_blocks(), 4);
    assert_eq!(pool.total_blocks(), 4);
    assert!(!pool.contains(1));
    assert!(!pool.contains(2));
    assert!(!pool.contains(3));
    assert!(pool.handle_match_multiple(vec![1, 2, 3]).is_empty());

    let taken = pool.handle_take(10);
    assert_eq!(taken.len(), 4);
    assert!(taken.iter().all(|b| b.sequence_hash == SENTINEL_HASH));
    // the block that had no identity before, then the others by rank
    let ranks: Vec<(u32, u64)> = taken.iter().map(|b| (b.priority, b.return_tick)).collect();
    assert_eq!(ranks, vec![(0, 2), (0, 3), (1, 4), (2, 1)]);
    assert_eq!(pool.available_blocks(), 0);
}

#[test]
fn reset_all_of_an_empty_pool_changes_nothing() {
    let mut pool = AvailableBlocksState::new();
    pool.handle_reset_all();
    assert_eq!(pool.available_blocks(), 0);
    assert_eq!(pool.total_blocks(), 0);
}

#[test]
fn a_hash_is_resident_at_most_once() {
    let mut pool = pool_of(vec![block(1, 0), block(2, 0)]);
    let claimed = pool.handle_match_single(1).unwrap();
    // while it is handed out, the hash is free again
    assert!(pool.can_insert(&block(1, 0)));
    pool.handle_insert(block(1, 0));
    // now the block that was handed out cannot come back as it is
    assert!(!pool.can_return(&claimed));
    let matched = pool.handle_match_multiple(vec![1, 1]);
    assert_eq!(matched.len(), 1);
    assert!(!pool.contains(1));
}

#[test]
fn counters_follow_claims_and_returns() {
    let mut pool = pool_of(vec![block(1, 0), block(2, 0), block(3, 0), block(4, 0)]);
    assert_eq!((pool.total_blocks(), pool.available_blocks()), (4, 4));
    let matched = pool.handle_match_multiple(vec![1, 2]);
    assert_eq!((pool.total_blocks(), pool.available_blocks()), (4, 2));
    let mut taken = pool.handle_take(1);
    assert_eq!((pool.total_blocks(), pool.available_blocks()), (4, 1));
    for b in matched {
        pool.handle_return(b);
    }
    assert_eq!((pool.total_blocks(), pool.available_blocks()), (4, 3));
    pool.handle_return(taken.pop().unwrap());
    assert_eq!((pool.total_blocks(), pool.available_blocks()), (4, 4));
    assert!(!pool.can_return(&block(9, 0)));
}
