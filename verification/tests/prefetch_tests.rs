use colstore::{ColumnBuilder, HybridCache, Prefetcher};

fn le_bytes(values: &[i32]) -> Vec<u8> {
    values.iter().flat_map(|x| x.to_le_bytes()).collect()
}

#[test]
fn test_prefetch_mechanism() {
    let data = vec![1i32, 2, 3];
    let bytes = le_bytes(&data);

    let column = ColumnBuilder::new("test_col".to_string(), bytes).build().unwrap();
    let mut cache = HybridCache::new(100);
    let mut prefetcher = Prefetcher::new();

    prefetcher.schedule_prefetch("test_col".to_string());
    prefetcher.step(&mut cache, &column);

    assert!(cache.get("test_col").is_some());
}

#[test]
fn prefetch_of_cached_key_decompresses_nothing() {
    let column = ColumnBuilder::new("col".to_string(), le_bytes(&[7i32])).build().unwrap();
    let mut cache = HybridCache::new(8);
    cache.insert("col".to_string(), vec![9, 9]);

    let mut prefetcher = Prefetcher::new();
    assert!(prefetcher.schedule_prefetch("col".to_string()));
    let fetched = prefetcher.step(&mut cache, &column);

    // Already resident: no decompression, payload untouched.
    assert!(!fetched);
    assert_eq!(cache.get("col"), Some(vec![9, 9]));
}

#[test]
fn prefetch_miss_fills_the_cache_with_the_payload() {
    let bytes = le_bytes(&[4i32, 5]);
    let mut builder = ColumnBuilder::new("col".to_string(), bytes.clone());
    builder.compress().unwrap();
    let column = builder.build().unwrap();

    let mut cache = HybridCache::new(8);
    let mut prefetcher = Prefetcher::new();
    prefetcher.schedule_prefetch("col".to_string());
    let fetched = prefetcher.step(&mut cache, &column);

    assert!(fetched);
    assert_eq!(cache.get("col"), Some(bytes));
}

#[test]
fn queue_overflow_drops_requests_without_blocking() {
    let mut prefetcher = Prefetcher::new();
    for i in 0..10 {
        assert!(prefetcher.schedule_prefetch(format!("col{}", i)));
    }
    // The queue holds ten requests; the eleventh is dropped silently.
    assert!(!prefetcher.schedule_prefetch("overflow".to_string()));
    assert_eq!(prefetcher.pending_len(), 10);
}

#[test]
fn empty_queue_step_does_nothing() {
    let column = ColumnBuilder::new("c".to_string(), le_bytes(&[1i32])).build().unwrap();
    let mut cache = HybridCache::new(4);
    let mut prefetcher = Prefetcher::new();
    assert!(!prefetcher.step(&mut cache, &column));
    assert_eq!(cache.len(), 0);
}
