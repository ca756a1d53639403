use cache_policies::caching::lfu::LfuCache;
use cache_policies::caching::two_q_lru::SimplifiedTwoQ;

#[test]
fn lfu_fills_then_evicts_lowest() {
    let mut cache = LfuCache::new(10);
    for i in 0u64..10 {
        cache.insert(i, i);
    }
    for i in 0u64..10 {
        assert_eq!(cache.get(&i), Some(&i));
    }
    assert_eq!(cache.len(), 10);
    // key 0 has the lowest frequency tier and is the oldest there
    cache.insert(10, 10);
    assert_eq!(cache.len(), 10);
    assert!(cache.get(&0).is_none());
    for i in 1u64..10 {
        assert_eq!(cache.get(&i), Some(&i));
    }
    assert_eq!(cache.get(&10), Some(&10));
}

#[test]
fn lfu_tie_break_least_recently_promoted() {
    let mut cache = LfuCache::new(2);
    cache.insert(1, 10);
    cache.insert(2, 20);
    // both keys have frequency one; key 1 entered first
    cache.insert(3, 30);
    assert!(cache.get(&1).is_none());
    assert_eq!(cache.get(&2), Some(&20));
    assert_eq!(cache.get(&3), Some(&30));
}

#[test]
fn lfu_protects_frequent_key() {
    let mut cache = LfuCache::new(2);
    cache.insert(1, 10);
    assert_eq!(cache.get(&1), Some(&10));
    cache.insert(2, 20);
    // key 2 has the minimum frequency
    cache.insert(3, 30);
    assert!(cache.get(&2).is_none());
    assert_eq!(cache.get(&1), Some(&10));
    assert_eq!(cache.get(&3), Some(&30));
}

#[test]
fn lfu_overwrite_keeps_one_entry() {
    let mut cache = LfuCache::new(4);
    cache.insert(7, 1);
    cache.insert(7, 2);
    assert_eq!(cache.len(), 1);
    assert_eq!(cache.get(&7), Some(&2));
}

#[test]
fn lfu_zero_capacity_is_a_no_op_cache() {
    let mut cache = LfuCache::new(0);
    cache.insert(1, 1);
    cache.insert(2, 2);
    assert_eq!(cache.len(), 0);
    assert_eq!(cache.capacity(), 0);
    assert!(cache.get(&1).is_none());
    assert!(cache.get(&2).is_none());
}

#[test]
fn lfu_clear_empties_everything() {
    let mut cache = LfuCache::new(5);
    for i in 0u64..5 {
        cache.insert(i, i);
        cache.get(&i);
    }
    cache.clear();
    assert_eq!(cache.len(), 0);
    for i in 0u64..5 {
        assert!(cache.get(&i).is_none());
    }
    // the cache stays usable after a clear
    cache.insert(1, 1);
    assert_eq!(cache.get(&1), Some(&1));
}

#[test]
fn lfu_len_never_exceeds_capacity() {
    let mut cache = LfuCache::new(3);
    for i in 0u64..50 {
        cache.insert(i % 7, i);
        assert!(cache.len() <= cache.capacity());
        cache.get(&(i % 5));
        assert!(cache.len() <= cache.capacity());
    }
}

#[test]
fn two_q_promotes_on_second_access() {
    let mut cache = SimplifiedTwoQ::with_threshold(4, 1);
    cache.insert(1, 10);
    // first repeat access promotes key 1 to the main queue
    assert_eq!(cache.get(&1), Some(&10));
    cache.insert(2, 20);
    cache.insert(3, 30);
    cache.insert(4, 40);
    // at capacity with the probationary queue over its threshold,
    // its oldest entry (key 2) leaves, not the promoted key 1
    cache.insert(5, 50);
    assert!(cache.get(&2).is_none());
    assert_eq!(cache.get(&1), Some(&10));
}

#[test]
fn two_q_sheds_main_tail_under_threshold() {
    let mut cache = SimplifiedTwoQ::with_threshold(3, 2);
    cache.insert(1, 10);
    assert_eq!(cache.get(&1), Some(&10));
    cache.insert(2, 20);
    assert_eq!(cache.get(&2), Some(&20));
    // Am [2,1], A1 []
    cache.insert(3, 30);
    // Am [2,1], A1 [3]; the probationary queue is under its
    // threshold, so the next new key displaces the main-queue tail
    cache.insert(4, 40);
    assert!(cache.get(&1).is_none());
    assert_eq!(cache.get(&2), Some(&20));
    assert_eq!(cache.get(&3), Some(&30));
    assert_eq!(cache.get(&4), Some(&40));
}

#[test]
fn two_q_with_capacity_threshold_rule() {
    // capacity under three keeps the whole capacity as threshold
    let mut small = SimplifiedTwoQ::with_capacity(2);
    small.insert(1, 1);
    small.insert(2, 2);
    // threshold is 2, so the probationary queue itself is shed
    small.insert(3, 3);
    assert!(small.get(&1).is_none());
    assert_eq!(small.get(&2), Some(&2));
    assert_eq!(small.get(&3), Some(&3));

    // capacity three gets a third of it as threshold
    let mut third = SimplifiedTwoQ::with_capacity(3);
    third.insert(1, 1);
    assert_eq!(third.get(&1), Some(&1));
    third.insert(2, 2);
    third.insert(3, 3);
    // A1 [3,2] is over the threshold of one: key 2 leaves, the
    // promoted key 1 survives
    third.insert(4, 4);
    assert!(third.get(&2).is_none());
    assert_eq!(third.get(&1), Some(&1));
}

#[test]
fn two_q_degenerate_threshold_does_not_panic() {
    // a threshold above the capacity can never be reached; with the
    // main queue empty the probationary tail still leaves
    let mut cache = SimplifiedTwoQ::with_threshold(2, 100);
    cache.insert(1, 1);
    cache.insert(2, 2);
    cache.insert(3, 3);
    assert!(cache.get(&1).is_none());
    assert_eq!(cache.get(&2), Some(&2));
    assert_eq!(cache.get(&3), Some(&3));
}

#[test]
fn two_q_zero_capacity_is_a_no_op_cache() {
    let mut cache = SimplifiedTwoQ::with_capacity(0);
    cache.insert(1, 1);
    assert!(cache.get(&1).is_none());
    let mut explicit = SimplifiedTwoQ::with_threshold(0, 0);
    explicit.insert(1, 1);
    assert!(explicit.get(&1).is_none());
}

#[test]
fn two_q_overwrite_keeps_latest_value() {
    let mut cache = SimplifiedTwoQ::with_threshold(4, 2);
    cache.insert(9, 1);
    cache.insert(9, 2);
    assert_eq!(cache.get(&9), Some(&2));
}

#[test]
fn two_q_clear_empties_everything() {
    let mut cache = SimplifiedTwoQ::with_threshold(10, 5);
    for i in 0u64..10 {
        cache.insert(i, i);
    }
    for i in 0u64..5 {
        cache.get(&i);
    }
    cache.clear();
    for i in 0u64..10 {
        assert!(cache.get(&i).is_none());
    }
    // the cache stays usable after a clear
    cache.insert(1, 1);
    assert_eq!(cache.get(&1), Some(&1));
}
