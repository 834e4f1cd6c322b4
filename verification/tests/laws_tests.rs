use projecta::lru::LRUCache;
use projecta::streaming::{GroupBy, StreamingIterator};
use projecta::interning::SymbolInterner;
use projecta::timeseries::SlidingWindow;

#[test]
fn window_keeps_the_last_values_pushed() {
    let mut w = SlidingWindow::new(3);
    for v in 1..=7 {
        w.push(v);
    }
    assert_eq!(w.as_slice(), &[5, 6, 7]);
    let mut small = SlidingWindow::new(5);
    small.push(1);
    small.push(2);
    assert_eq!(small.as_slice(), &[1, 2]);
}

#[test]
fn interning_twice_gives_the_same_handle() {
    let mut t = SymbolInterner::new();
    let a = t.intern("alpha");
    let b = t.intern("beta");
    let a2 = t.intern("alpha");
    assert_eq!(a, a2);
    assert_ne!(a, b);
    t.remove(a);
    assert_eq!(t.resolve(a), None);
    assert_eq!(t.resolve(b), Some("beta"));
}

#[test]
fn put_into_full_cache_evicts_least_recent_only() {
    let mut cache = LRUCache::new(3);
    cache.put(1, "a");
    cache.put(2, "b");
    cache.put(3, "c");
    assert_eq!(cache.get(&1), Some("a"));
    cache.put(4, "d");
    assert_eq!(cache.len(), 3);
    assert_eq!(cache.get(&2), None);
    assert_eq!(cache.get(&1), Some("a"));
    assert_eq!(cache.get(&3), Some("c"));
    assert_eq!(cache.get(&4), Some("d"));
    cache.put(3, "C");
    assert_eq!(cache.len(), 3);
    assert_eq!(cache.get(&3), Some("C"));
}

#[test]
fn groups_are_maximal_runs() {
    let data = [1, 1, 2, 1, 1, 1, 3];
    let mut g = GroupBy::new(&data);
    let mut runs: Vec<Vec<i32>> = Vec::new();
    while let Some(run) = g.next() {
        runs.push(run.to_vec());
    }
    assert_eq!(runs, vec![vec![1, 1], vec![2], vec![1, 1, 1], vec![3]]);
    for w in runs.windows(2) {
        assert_ne!(w[0][0], w[1][0]);
    }
}
