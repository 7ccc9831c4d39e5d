use colstore::HybridCache;

#[test]
fn test_hybrid_cache_behavior() {
    let mut cache = HybridCache::new(10);
    let test_data = vec![1u8, 2, 3, 4];

    // A frequently used entry: six insert/get rounds.
    for _ in 0..6 {
        cache.insert("frequent".to_string(), test_data.clone());
        cache.get("frequent");
    }

    // A rarely used entry: one insert.
    cache.insert("recent".to_string(), test_data.clone());

    assert!(
        cache.get("frequent").is_some(),
        "the frequent entry must stay in the frequency pool"
    );
    assert!(
        cache.get("recent").is_some(),
        "the rare entry must be in the recency pool"
    );

    // Flood the cache with one-shot entries.
    for i in 0..15 {
        cache.insert(format!("item_{}", i), test_data.clone());
    }

    // The frequent entry must survive the flood.
    assert!(
        cache.get("frequent").is_some(),
        "the frequent entry must not be evicted"
    );
}

#[test]
fn capacity_is_never_exceeded() {
    let mut cache = HybridCache::new(4);
    for i in 0..12 {
        cache.insert(format!("k{}", i), vec![i as u8]);
        assert!(cache.len() <= 4);
    }
}

#[test]
fn no_key_sits_in_both_pools() {
    let mut cache = HybridCache::new(6);
    for round in 0..8 {
        cache.insert("hot".to_string(), vec![round as u8]);
        cache.insert(format!("cold{}", round), vec![round as u8]);
        for key in ["hot", "cold0", "cold1", "cold7"] {
            assert!(!(cache.in_frequency_pool(key) && cache.in_recency_pool(key)));
        }
    }
}

#[test]
fn promotion_threshold_splits_the_pools() {
    let mut cache = HybridCache::new(10);
    // Six inserts push the count past the threshold of five.
    for _ in 0..6 {
        cache.insert("often".to_string(), vec![1]);
    }
    assert!(cache.in_frequency_pool("often"));
    assert!(!cache.in_recency_pool("often"));

    // Five or fewer accesses stay on the recency side.
    for _ in 0..5 {
        cache.insert("sometimes".to_string(), vec![2]);
    }
    assert!(cache.in_recency_pool("sometimes"));
    assert!(!cache.in_frequency_pool("sometimes"));
}

#[test]
fn frequent_keys_stick_through_floods() {
    let mut cache = HybridCache::new(4);
    for _ in 0..6 {
        cache.insert("lukewarm".to_string(), vec![1]);
    }
    for _ in 0..7 {
        cache.insert("hot".to_string(), vec![2]);
    }
    assert!(cache.in_frequency_pool("lukewarm"));
    assert!(cache.in_frequency_pool("hot"));

    // At least capacity-many distinct low-frequency inserts.
    for i in 0..5 {
        cache.insert(format!("drive_by_{}", i), vec![3]);
    }

    // The frequency pool had a less valuable candidate than "hot"
    // ("lukewarm" has fewer accesses), so "hot" must still be resident.
    assert!(cache.in_frequency_pool("hot"));
    assert_eq!(cache.get("hot"), Some(vec![2]));
}

#[test]
fn get_misses_are_not_errors_but_count() {
    let mut cache = HybridCache::new(4);
    assert_eq!(cache.get("ghost"), None);
    // Five misses plus one insert pass the threshold: the access record
    // of an absent key participates in later promotion.
    for _ in 0..4 {
        cache.get("ghost");
    }
    cache.insert("ghost".to_string(), vec![9]);
    assert!(cache.in_frequency_pool("ghost"));
}
