use projecta::lru::{LRUCache, SimpleCache, StatsTracker};

#[test]
fn test_stats_tracker() {
    let mut tracker = StatsTracker::new();
    assert_eq!(tracker.get_stats(), (0, 0));
    tracker.record_hit();
    tracker.record_hit();
    assert_eq!(tracker.get_stats(), (2, 0));
    tracker.record_miss();
    assert_eq!(tracker.get_stats(), (2, 1));
}

#[test]
fn test_multiple_references() {
    let mut tracker = StatsTracker::new();
    {
        let ref1 = &mut tracker;
        ref1.record_hit();
    }
    {
        let ref2 = &mut tracker;
        ref2.record_miss();
    }
    assert_eq!(tracker.get_stats(), (1, 1));
}

#[test]
fn test_simple_cache() {
    let mut cache = SimpleCache::new();
    assert_eq!(cache.len(), 0);
    cache.put("key1", "value1");
    assert_eq!(cache.len(), 1);
    assert_eq!(cache.get(&"key1"), Some("value1"));
    assert_eq!(cache.get(&"key2"), None);
}

#[test]
fn complete_01_lru_test_update_existing() {
    let mut cache = SimpleCache::new();
    cache.put("key", "value1");
    cache.put("key", "value2");
    assert_eq!(cache.len(), 1);
    assert_eq!(cache.get(&"key"), Some("value2"));

    let mut lru = LRUCache::new(2);
    lru.put("a", 1);
    lru.put("a", 10);
    assert_eq!(lru.get(&"a"), Some(10));
    assert_eq!(lru.len(), 1);
}

#[test]
fn test_lru_basic() {
    let mut cache = LRUCache::new(2);
    cache.put("a", 1);
    cache.put("b", 2);
    assert_eq!(cache.get(&"a"), Some(1));
    assert_eq!(cache.get(&"b"), Some(2));
    assert_eq!(cache.len(), 2);
}

#[test]
fn test_lru_eviction() {
    let mut cache = LRUCache::new(2);
    cache.put("a", 1);
    cache.put("b", 2);
    cache.put("c", 3);
    assert_eq!(cache.get(&"a"), None);
    assert_eq!(cache.get(&"b"), Some(2));
    assert_eq!(cache.get(&"c"), Some(3));
    assert_eq!(cache.len(), 2);
}

#[test]
fn test_lru_access_order() {
    let mut cache = LRUCache::new(2);
    cache.put("a", 1);
    cache.put("b", 2);
    assert_eq!(cache.get(&"a"), Some(1));
    cache.put("c", 3);
    assert_eq!(cache.get(&"a"), Some(1));
    assert_eq!(cache.get(&"b"), None);
    assert_eq!(cache.get(&"c"), Some(3));
}

#[test]
fn test_capacity_one() {
    let mut cache = LRUCache::new(1);
    cache.put("a", 1);
    cache.put("b", 2);
    assert_eq!(cache.get(&"a"), None);
    assert_eq!(cache.get(&"b"), Some(2));
}

#[test]
fn test_stats_tracking() {
    let mut cache = LRUCache::new(2);
    cache.put("a", 1);
    cache.put("b", 2);
    cache.get(&"a");
    cache.get(&"b");
    cache.get(&"c");
    let (hits, misses) = cache.stats();
    assert_eq!(hits, 2);
    assert_eq!(misses, 1);
}

#[test]
fn complete_01_lru_test_clear() {
    let mut cache = LRUCache::new(2);
    cache.put("a", 1);
    cache.get(&"a");
    cache.get(&"b");
    cache.clear();
    assert_eq!(cache.len(), 0);
    let (hits, misses) = cache.stats();
    assert_eq!(hits, 1);
    assert_eq!(misses, 1);
}

#[test]
fn updating_a_key_makes_it_most_recent() {
    let mut cache = LRUCache::new(2);
    cache.put(1, "one");
    cache.put(2, "two");
    cache.put(1, "uno");
    cache.put(3, "three");
    assert_eq!(cache.get(&2), None);
    assert_eq!(cache.get(&1), Some("uno"));
    assert_eq!(cache.get(&3), Some("three"));
}
