//! Caches: hit/miss counters, a key-value cache without eviction, and a least-recently-used
//! cache of fixed capacity that counts its hits and misses.
use vstd::prelude::*;
use vstd::std_specs::cmp::PartialEqSpec;

verus! {

/// Counts cache hits and misses.
pub struct StatsTracker {
    hits: usize,
    misses: usize,
}

impl StatsTracker {
    /// The counts `(hits, misses)`.
    pub closed spec fn counts(&self) -> (usize, usize) {
        (self.hits, self.misses)
    }

    /// Both counts zero.
    pub fn new() -> (r: Self)
        ensures
            r.counts() == (0usize, 0usize),
    {
        StatsTracker { hits: 0, misses: 0 }
    }

    /// Counts a hit.
    pub fn record_hit(&mut self)
        requires
            old(self).counts().0 < usize::MAX,
        ensures
            final(self).counts() == ((old(self).counts().0 + 1) as usize, old(self).counts().1),
    {
        self.hits = self.hits + 1;
    }

    /// Counts a miss.
    pub fn record_miss(&mut self)
        requires
            old(self).counts().1 < usize::MAX,
        ensures
            final(self).counts() == (old(self).counts().0, (old(self).counts().1 + 1) as usize),
    {
        self.misses = self.misses + 1;
    }

    /// The counts `(hits, misses)`.
    pub fn get_stats(&self) -> (r: (usize, usize))
        ensures
            r == self.counts(),
    {
        (self.hits, self.misses)
    }
}

/// Keys compare with `==` exactly when they are equal.
pub open spec fn keys_lawful<K: PartialEq>() -> bool {
    &&& K::obeys_eq_spec()
    &&& forall|a: K, b: K| a.eq_spec(&b) <==> a == b
}

/// The keys of the entries.
pub open spec fn keys_of<K, V>(entries: Seq<(K, V)>) -> Seq<K> {
    entries.map_values(|e: (K, V)| e.0)
}

/// No key occurs twice.
pub open spec fn distinct_keys<K, V>(entries: Seq<(K, V)>) -> bool {
    forall|i: int, j: int| 0 <= i < j < entries.len() ==> (#[trigger] entries[i]).0 != (#[trigger] entries[j]).0
}

/// The position of `key` among the entries, if present.
pub open spec fn position_of<K, V>(entries: Seq<(K, V)>, key: K) -> Option<int> {
    if exists|i: int| 0 <= i < entries.len() && entries[i].0 == key {
        Some(choose|i: int| 0 <= i < entries.len() && entries[i].0 == key)
    } else {
        None
    }
}

/// The index of the entry whose key equals `key`, if any.
fn find_key<K: PartialEq, V>(entries: &Vec<(K, V)>, key: &K) -> (r: Option<usize>)
    requires
        keys_lawful::<K>(),
    ensures
        r matches Some(i) ==> i < entries@.len() && entries@[i as int].0 == *key,
        r is None ==> forall|i: int| 0 <= i < entries@.len() ==> (#[trigger] entries@[i]).0 != *key,
{
    let mut i: usize = 0;
    while i < entries.len()
        invariant
            keys_lawful::<K>(),
            i <= entries@.len(),
            forall|k: int| 0 <= k < i ==> (#[trigger] entries@[k]).0 != *key,
        decreases entries@.len() - i,
    {
        if entries[i].0 == *key {
            return Some(i);
        }
        i = i + 1;
    }
    None
}

/// A key-value cache without eviction.
pub struct SimpleCache<K, V> {
    data: Vec<(K, V)>,
}

impl<K: PartialEq, V: Clone> SimpleCache<K, V> {
    /// The entries, in insertion order.
    pub closed spec fn entries(&self) -> Seq<(K, V)> {
        self.data@
    }

    /// No key is stored twice.
    pub closed spec fn wf(&self) -> bool {
        distinct_keys(self.data@)
    }

    /// An empty cache.
    pub fn new() -> (r: Self)
        ensures
            r.wf(),
            r.entries() == Seq::<(K, V)>::empty(),
    {
        SimpleCache { data: Vec::new() }
    }

    /// A clone of the value stored under `key`.
    pub fn get(&self, key: &K) -> (r: Option<V>)
        requires
            keys_lawful::<K>(),
        ensures
            r is None <==> !keys_of(self.entries()).contains(*key),
            r matches Some(v) ==> exists|i: int| 0 <= i < self.entries().len() && self.entries()[i].0 == *key
                && cloned(self.entries()[i].1, v),
    {
        match find_key(&self.data, key) {
            Some(i) => {
                proof {
                    assert(keys_of(self.entries())[i as int] == *key);
                }
                Some(self.data[i].1.clone())
            },
            None => {
                proof {
                    if keys_of(self.entries()).contains(*key) {
                        let k = choose|k: int| 0 <= k < keys_of(self.entries()).len() && keys_of(self.entries())[k] == *key;
                        assert(self.data@[k].0 == *key);
                    }
                }
                None
            },
        }
    }

    /// Stores `value` under `key`, replacing any earlier value.
    pub fn put(&mut self, key: K, value: V)
        requires
            keys_lawful::<K>(),
            old(self).wf(),
        ensures
            final(self).wf(),
            keys_of(old(self).entries()).contains(key) ==> exists|i: int| 0 <= i < old(self).entries().len()
                && old(self).entries()[i].0 == key && final(self).entries() == old(self).entries().update(i, (key, value)),
            !keys_of(old(self).entries()).contains(key) ==> final(self).entries() == old(self).entries().push((key, value)),
    {
        match find_key(&self.data, &key) {
            Some(i) => {
                self.data.set(i, (key, value));
                proof {
                    assert(keys_of(old(self).entries())[i as int] == key);
                }
            },
            None => {
                proof {
                    if keys_of(old(self).entries()).contains(key) {
                        let k = choose|k: int| 0 <= k < keys_of(old(self).entries()).len() && keys_of(old(self).entries())[k] == key;
                        assert(old(self).entries()[k].0 == key);
                    }
                }
                self.data.push((key, value));
            },
        }
    }

    /// The number of keys stored.
    pub fn len(&self) -> (r: usize)
        ensures
            r == self.entries().len(),
    {
        self.data.len()
    }
}

/// The entries after storing `(key, value)`: an existing entry for `key` is replaced and
/// moved to the most-recent end; a new entry goes there too, and when that overflows the
/// capacity the least recent entry is dropped.
pub open spec fn after_put<K, V>(entries: Seq<(K, V)>, capacity: nat, key: K, value: V) -> Seq<(K, V)> {
    match position_of(entries, key) {
        Some(i) => entries.remove(i).push((key, value)),
        None => if entries.len() + 1 > capacity {
            entries.push((key, value)).drop_first()
        } else {
            entries.push((key, value))
        },
    }
}

/// The value stored under `key`, if any.
pub open spec fn lookup<K, V>(entries: Seq<(K, V)>, key: K) -> Option<V> {
    match position_of(entries, key) {
        Some(i) => Some(entries[i].1),
        None => None,
    }
}

/// A least-recently-used cache of fixed capacity that counts hits and misses.
pub struct LRUCache<K, V> {
    capacity: usize,
    entries: Vec<(K, V)>,
    stats: StatsTracker,
}

impl<K: PartialEq + Clone, V: Clone> LRUCache<K, V> {
    /// The entries, least recently used first.
    pub closed spec fn recency(&self) -> Seq<(K, V)> {
        self.entries@
    }

    /// The capacity.
    pub closed spec fn cap(&self) -> nat {
        self.capacity as nat
    }

    /// The hit and miss counts.
    pub closed spec fn counts(&self) -> (usize, usize) {
        self.stats.counts()
    }

    /// Keys are distinct and the entries fit the capacity, which is positive.
    pub closed spec fn wf(&self) -> bool {
        &&& distinct_keys(self.entries@)
        &&& self.entries@.len() <= self.capacity
        &&& self.capacity > 0
    }

    /// An empty cache holding at most `capacity` entries.
    pub fn new(capacity: usize) -> (r: Self)
        requires
            capacity > 0,
        ensures
            r.wf(),
            r.recency() == Seq::<(K, V)>::empty(),
            r.cap() == capacity,
            r.counts() == (0usize, 0usize),
    {
        LRUCache { capacity, entries: Vec::new(), stats: StatsTracker::new() }
    }

    /// A clone of the value stored under `key`, which becomes the most recently used
    /// entry (a hit); `None` when absent (a miss).
    pub fn get(&mut self, key: &K) -> (r: Option<V>)
        requires
            keys_lawful::<K>(),
            old(self).wf(),
            old(self).counts().0 < usize::MAX,
            old(self).counts().1 < usize::MAX,
        ensures
            final(self).wf(),
            final(self).cap() == old(self).cap(),
            match position_of(old(self).recency(), *key) {
                Some(i) => {
                    &&& r matches Some(v) && cloned(old(self).recency()[i].1, v)
                    &&& final(self).recency() == old(self).recency().remove(i).push(old(self).recency()[i])
                    &&& final(self).counts() == ((old(self).counts().0 + 1) as usize, old(self).counts().1)
                },
                None => {
                    &&& r is None
                    &&& final(self).recency() == old(self).recency()
                    &&& final(self).counts() == (old(self).counts().0, (old(self).counts().1 + 1) as usize)
                },
            },
    {
        match find_key(&self.entries, key) {
            Some(i) => {
                proof {
                    lemma_position_unique(self.entries@, *key, i as int);
                }
                self.stats.record_hit();
                let value = self.entries[i].1.clone();
                let entry = self.entries.remove(i);
                self.entries.push(entry);
                proof {
                    let e = old(self).entries@;
                    assert(self.entries@ == e.remove(i as int).push(e[i as int]));
                    assert forall|a: int, b: int| 0 <= a < b < self.entries@.len() implies (#[trigger] self.entries@[a]).0 != (#[trigger] self.entries@[b]).0 by {
                        let ra = if a < i { a } else { a + 1 };
                        let rb = if b == self.entries@.len() - 1 { i as int } else if b < i { b } else { b + 1 };
                        assert(self.entries@[a] == e[ra]);
                        assert(self.entries@[b] == e[rb]);
                    }
                }
                Some(value)
            },
            None => {
                proof {
                    assert(position_of(old(self).entries@, *key) is None);
                }
                self.stats.record_miss();
                None
            },
        }
    }

    /// Stores `value` under `key` as the most recently used entry; a new key that
    /// overflows the capacity evicts the least recently used entry.
    pub fn put(&mut self, key: K, value: V)
        requires
            keys_lawful::<K>(),
            old(self).wf(),
        ensures
            final(self).wf(),
            final(self).cap() == old(self).cap(),
            final(self).counts() == old(self).counts(),
            final(self).recency() == after_put(old(self).recency(), old(self).cap(), key, value),
    {
        match find_key(&self.entries, &key) {
            Some(i) => {
                proof {
                    lemma_position_unique(self.entries@, key, i as int);
                }
                let _old_entry = self.entries.remove(i);
                self.entries.push((key, value));
                proof {
                    let e = old(self).entries@;
                    assert forall|a: int, b: int| 0 <= a < b < self.entries@.len() implies (#[trigger] self.entries@[a]).0 != (#[trigger] self.entries@[b]).0 by {
                        let ra = if a < i { a } else { a + 1 };
                        assert(self.entries@[a] == e[ra]);
                        if b < self.entries@.len() - 1 {
                            let rb = if b < i { b } else { b + 1 };
                            assert(self.entries@[b] == e[rb]);
                        } else {
                            assert(e[i as int].0 == key);
                        }
                    }
                }
            },
            None => {
                proof {
                    assert(position_of(old(self).entries@, key) is None);
                }
                self.entries.push((key, value));
                if self.entries.len() > self.capacity {
                    let _evicted = self.entries.remove(0);
                }
                proof {
                    let e = old(self).entries@;
                    let pushed = e.push((key, value));
                    assert(distinct_keys(pushed)) by {
                        assert forall|a: int, b: int| 0 <= a < b < pushed.len() implies (#[trigger] pushed[a]).0 != (#[trigger] pushed[b]).0 by {
                            if b == e.len() {
                                assert(pushed[a] == e[a]);
                            }
                        }
                    }
                    if pushed.len() > self.capacity {
                        assert(self.entries@ =~= pushed.drop_first());
                        assert forall|a: int, b: int| 0 <= a < b < self.entries@.len() implies (#[trigger] self.entries@[a]).0 != (#[trigger] self.entries@[b]).0 by {
                            assert(self.entries@[a] == pushed[a + 1]);
                            assert(self.entries@[b] == pushed[b + 1]);
                        }
                    }
                }
            },
        }
    }

    /// The number of entries.
    pub fn len(&self) -> (r: usize)
        ensures
            r == self.recency().len(),
    {
        self.entries.len()
    }

    /// The counts `(hits, misses)`.
    pub fn stats(&self) -> (r: (usize, usize))
        ensures
            r == self.counts(),
    {
        self.stats.get_stats()
    }

    /// Drops every entry; the counts are kept.
    pub fn clear(&mut self)
        requires
            old(self).wf(),
        ensures
            final(self).wf(),
            final(self).recency() == Seq::<(K, V)>::empty(),
            final(self).cap() == old(self).cap(),
            final(self).counts() == old(self).counts(),
    {
        self.entries.clear();
    }
}

/// With distinct keys, the entry found for `key` is the one `position_of` names.
proof fn lemma_position_unique<K, V>(entries: Seq<(K, V)>, key: K, i: int)
    requires
        distinct_keys(entries),
        0 <= i < entries.len(),
        entries[i].0 == key,
    ensures
        position_of(entries, key) == Some(i),
{
    let j = choose|j: int| 0 <= j < entries.len() && entries[j].0 == key;
    if j != i {
        if j < i {
            assert(entries[j].0 != entries[i].0);
        } else {
            assert(entries[i].0 != entries[j].0);
        }
    }
}

/// Reading a key right after storing it gives the stored value: `put(k, v)` followed
/// by `get(k)` finds `v` as the most recent entry (so `get` returns a clone of `v`), and
/// the cache still fits its capacity with distinct keys.
pub proof fn lemma_get_after_put<K, V>(entries: Seq<(K, V)>, capacity: nat, key: K, value: V)
    requires
        distinct_keys(entries),
        capacity > 0,
        entries.len() <= capacity,
    ensures
        lookup(after_put(entries, capacity, key, value), key) == Some(value),
        position_of(after_put(entries, capacity, key, value), key)
            == Some((after_put(entries, capacity, key, value).len() - 1) as int),
        after_put(entries, capacity, key, value).last() == (key, value),
        after_put(entries, capacity, key, value).len() <= capacity,
        distinct_keys(after_put(entries, capacity, key, value)),
{
    let after = after_put(entries, capacity, key, value);
    let last = after.len() - 1;
    assert(after[last] == (key, value));
    let j = choose|j: int| 0 <= j < after.len() && after[j].0 == key;
    assert(after.len() > 0);
    lemma_after_put_distinct(entries, capacity, key, value);
    if j != last {
        assert(after[j].0 != after[last].0);
    }
}

/// Storing keeps keys distinct and the entries within the capacity.
pub proof fn lemma_after_put_distinct<K, V>(entries: Seq<(K, V)>, capacity: nat, key: K, value: V)
    requires
        distinct_keys(entries),
        capacity > 0,
        entries.len() <= capacity,
    ensures
        distinct_keys(after_put(entries, capacity, key, value)),
        after_put(entries, capacity, key, value).len() <= capacity,
{
    let after = after_put(entries, capacity, key, value);
    match position_of(entries, key) {
        Some(i) => {
            assert(0 <= i < entries.len() && entries[i].0 == key);
            assert forall|a: int, b: int| 0 <= a < b < after.len() implies (#[trigger] after[a]).0 != (#[trigger] after[b]).0 by {
                let ra = if a < i { a } else { a + 1 };
                assert(after[a] == entries[ra]);
                if b < after.len() - 1 {
                    let rb = if b < i { b } else { b + 1 };
                    assert(after[b] == entries[rb]);
                }
            }
        },
        None => {
            let pushed = entries.push((key, value));
            assert forall|a: int, b: int| 0 <= a < b < pushed.len() implies (#[trigger] pushed[a]).0 != (#[trigger] pushed[b]).0 by {
                if b == entries.len() {
                    assert(pushed[a] == entries[a]);
                }
            }
            if pushed.len() > capacity {
                assert forall|a: int, b: int| 0 <= a < b < after.len() implies (#[trigger] after[a]).0 != (#[trigger] after[b]).0 by {
                    assert(after[a] == pushed[a + 1]);
                    assert(after[b] == pushed[b + 1]);
                }
            }
        },
    }
}

/// Storing under one key leaves every other key's value alone, except the least recently
/// used key when a new key overflows a full cache and evicts it.
pub proof fn lemma_put_preserves_others<K, V>(entries: Seq<(K, V)>, capacity: nat, key: K, value: V, other: K)
    requires
        distinct_keys(entries),
        capacity > 0,
        entries.len() <= capacity,
        other != key,
        !(position_of(entries, key) is None && entries.len() == capacity && entries[0].0 == other),
    ensures
        lookup(after_put(entries, capacity, key, value), other) == lookup(entries, other),
{
    let after = after_put(entries, capacity, key, value);
    lemma_after_put_distinct(entries, capacity, key, value);
    match position_of(entries, other) {
        Some(p) => {
            assert(0 <= p < entries.len() && entries[p].0 == other);
            let q: int = match position_of(entries, key) {
                Some(i) => if p < i { p } else { p - 1 },
                None => if entries.len() + 1 > capacity { p - 1 } else { p },
            };
            assert(0 <= q < after.len() && after[q] == entries[p]);
            lemma_position_unique(after, other, q);
        },
        None => {
            if position_of(after, other) is Some {
                let q = choose|q: int| 0 <= q < after.len() && after[q].0 == other;
                let p: int = match position_of(entries, key) {
                    Some(i) => if q < i { q } else { q + 1 },
                    None => if entries.len() + 1 > capacity { q + 1 } else { q },
                };
                if p < entries.len() {
                    assert(entries[p] == after[q]);
                }
            }
        },
    }
}

/// What storing does to the size of the cache: replacing a stored key keeps the size;
/// a new key into a full cache evicts exactly the least recently used entry (the first),
/// keeping the size; a new key into a cache with room grows it by one.
pub proof fn lemma_put_size<K, V>(entries: Seq<(K, V)>, capacity: nat, key: K, value: V)
    requires
        distinct_keys(entries),
        capacity > 0,
        entries.len() <= capacity,
    ensures
        position_of(entries, key) is Some ==> after_put(entries, capacity, key, value).len() == entries.len(),
        position_of(entries, key) is None && entries.len() == capacity ==> {
            &&& after_put(entries, capacity, key, value) == entries.drop_first().push((key, value))
            &&& lookup(after_put(entries, capacity, key, value), entries[0].0) is None
        },
        position_of(entries, key) is None && entries.len() < capacity ==> after_put(entries, capacity, key, value).len()
            == entries.len() + 1,
{
    let after = after_put(entries, capacity, key, value);
    if position_of(entries, key) is None && entries.len() == capacity {
        assert(after =~= entries.drop_first().push((key, value)));
        let old_key = entries[0].0;
        assert(old_key != key);
        if position_of(after, old_key) is Some {
            let q = choose|q: int| 0 <= q < after.len() && after[q].0 == old_key;
            if q < after.len() - 1 {
                assert(after[q] == entries[q + 1]);
                assert(entries[0].0 != entries[q + 1].0);
            }
        }
    }
}

} // verus!
