use lfu_cache::LfuCache;

fn lookup(cache: &mut LfuCache<i32>, key: i32) -> Option<i32> {
    cache.get(&key).copied()
}

#[test]
fn lower_frequency_is_evicted() {
    let mut cache = LfuCache::new(2);
    cache.insert(1, 1);
    cache.insert(2, 2);
    assert_eq!(lookup(&mut cache, 1), Some(1));
    cache.insert(3, 3);
    assert_eq!(lookup(&mut cache, 2), None);
    assert_eq!(lookup(&mut cache, 3), Some(3));
    assert_eq!(lookup(&mut cache, 1), Some(1));
}

#[test]
fn recency_breaks_frequency_ties() {
    let mut cache = LfuCache::new(2);
    cache.insert(3, 1);
    assert_eq!(lookup(&mut cache, 2), None);
    cache.insert(2, 1);
    cache.insert(1, 1);
    assert_eq!(lookup(&mut cache, 3), None);
    assert_eq!(lookup(&mut cache, 2), Some(1));
    assert_eq!(lookup(&mut cache, 1), Some(1));
}

#[test]
fn zero_capacity_always_misses() {
    let mut cache = LfuCache::new(0);
    cache.insert(0, 0);
    assert_eq!(lookup(&mut cache, 0), None);
    cache.insert(7, 70);
    cache.insert(7, 71);
    assert_eq!(lookup(&mut cache, 7), None);
    assert_eq!(lookup(&mut cache, 0), None);
}

#[test]
fn overwrite_counts_as_access() {
    let mut cache = LfuCache::new(2);
    cache.insert(1, 1);
    cache.insert(2, 2);
    cache.insert(1, 10);
    cache.insert(3, 3);
    assert_eq!(lookup(&mut cache, 2), None);
    assert_eq!(lookup(&mut cache, 1), Some(10));
    assert_eq!(lookup(&mut cache, 3), Some(3));
}

#[test]
fn miss_leaves_order_alone() {
    let mut cache = LfuCache::new(2);
    cache.insert(1, 1);
    cache.insert(2, 2);
    assert_eq!(lookup(&mut cache, 5), None);
    cache.insert(3, 3);
    assert_eq!(lookup(&mut cache, 1), None);
    assert_eq!(lookup(&mut cache, 1), None);
    assert_eq!(lookup(&mut cache, 2), Some(2));
    assert_eq!(lookup(&mut cache, 3), Some(3));
}

#[test]
fn frequency_accumulates() {
    let mut cache = LfuCache::new(2);
    cache.insert(1, 1);
    assert_eq!(lookup(&mut cache, 1), Some(1));
    assert_eq!(lookup(&mut cache, 1), Some(1));
    cache.insert(2, 2);
    assert_eq!(lookup(&mut cache, 2), Some(2));
    cache.insert(3, 3);
    assert_eq!(lookup(&mut cache, 2), None);
    assert_eq!(lookup(&mut cache, 1), Some(1));
    assert_eq!(lookup(&mut cache, 3), Some(3));
}

#[test]
fn frequency_gap_buckets_stay_ordered() {
    let mut cache = LfuCache::new(3);
    cache.insert(1, 1);
    cache.insert(2, 2);
    cache.insert(3, 3);
    for _ in 0..3 {
        assert_eq!(lookup(&mut cache, 1), Some(1));
    }
    assert_eq!(lookup(&mut cache, 2), Some(2));
    cache.insert(4, 4);
    assert_eq!(lookup(&mut cache, 3), None);
    cache.insert(5, 5);
    assert_eq!(lookup(&mut cache, 4), None);
    assert_eq!(lookup(&mut cache, 1), Some(1));
    assert_eq!(lookup(&mut cache, 2), Some(2));
    assert_eq!(lookup(&mut cache, 5), Some(5));
}

#[test]
fn capacity_is_never_exceeded() {
    let mut cache = LfuCache::new(3);
    for k in 0..10 {
        cache.insert(k, k * 10);
    }
    let held = (0..10).filter(|k| cache.get(k).is_some()).count();
    assert_eq!(held, 3);
    assert_eq!(lookup(&mut cache, 9), Some(90));
    assert_eq!(lookup(&mut cache, 0), None);
}

#[test]
fn capacity_one_keeps_latest() {
    let mut cache = LfuCache::new(1);
    cache.insert(1, 1);
    assert_eq!(lookup(&mut cache, 1), Some(1));
    cache.insert(2, 2);
    assert_eq!(lookup(&mut cache, 1), None);
    assert_eq!(lookup(&mut cache, 2), Some(2));
}

#[test]
fn values_of_any_type() {
    let mut cache: LfuCache<String> = LfuCache::new(2);
    cache.insert(-1, String::from("minus one"));
    cache.insert(i32::MAX, String::from("max"));
    assert_eq!(cache.get(&-1).map(|v| v.as_str()), Some("minus one"));
    cache.insert(i32::MIN, String::from("min"));
    assert!(cache.get(&i32::MAX).is_none());
    assert_eq!(cache.get(&i32::MIN).map(|v| v.as_str()), Some("min"));
}
