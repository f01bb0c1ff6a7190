use lib::lru_cache::{LRUCache, LRUEntry};

#[test]
fn entry_new_is_empty() {
    let e: LRUEntry<u64, u64> = LRUEntry::new();
    assert!(e.key.is_none());
    assert!(e.value.is_none());
    assert_eq!(e.size, 0);
}

#[test]
fn entry_with_key_value_holds_them() {
    let e = LRUEntry::with_key_value(7u64, 70u64, 3);
    assert_eq!(e.key, Some(7));
    assert_eq!(e.value, Some(70));
    assert_eq!(e.size, 3);
}

/// The walk-through of the cache's own demonstration: capacity 4, entries of size 1.
#[test]
fn lru_demo_scenario() {
    let mut cache: LRUCache<u64, u64> = LRUCache::new(4);
    cache.put(1, 10, 1);
    cache.put(2, 20, 1);
    cache.put(3, 30, 1);
    cache.put(4, 40, 1);
    cache.put(5, 50, 1);
    // Entry 1 was the least recently used one and is gone.
    assert_eq!(cache.get(&1), None);
    assert_eq!(cache.len(), 4);

    cache.put(2, 40, 1);
    assert_eq!(cache.get(&2), Some(&40));

    // Keys 2, 3, 4, 5 remain; 3 is now the least recently used.
    cache.put(6, 60, 1);
    assert_eq!(cache.get(&3), None);
    assert_eq!(cache.get(&2), Some(&40));
    assert_eq!(cache.get(&4), Some(&40));
    assert_eq!(cache.get(&5), Some(&50));
    assert_eq!(cache.get(&6), Some(&60));
}

#[test]
fn get_after_put_finds_value() {
    let mut cache: LRUCache<u64, &str> = LRUCache::new(10);
    cache.put(1, "one", 4);
    cache.put(2, "two", 4);
    assert_eq!(cache.get(&1), Some(&"one"));
    assert_eq!(cache.get(&2), Some(&"two"));
    assert_eq!(cache.get(&3), None);
}

#[test]
fn get_refreshes_recency() {
    let mut cache: LRUCache<u64, u64> = LRUCache::new(2);
    cache.put(1, 10, 1);
    cache.put(2, 20, 1);
    // Using 1 makes 2 the least recently used.
    assert_eq!(cache.get(&1), Some(&10));
    cache.put(3, 30, 1);
    assert_eq!(cache.get(&2), None);
    assert_eq!(cache.get(&1), Some(&10));
    assert_eq!(cache.get(&3), Some(&30));
}

#[test]
fn eviction_takes_only_what_is_needed() {
    let mut cache: LRUCache<u64, u64> = LRUCache::new(10);
    cache.put(1, 10, 3);
    cache.put(2, 20, 3);
    cache.put(3, 30, 3);
    // 1 free; a size-5 entry needs two of the oldest to go (3 + 3 + 1 >= 5 > 3 + 1).
    cache.put(4, 40, 5);
    assert_eq!(cache.get(&1), None);
    assert_eq!(cache.get(&2), None);
    assert_eq!(cache.get(&3), Some(&30));
    assert_eq!(cache.get(&4), Some(&40));
    assert_eq!(cache.len(), 2);
}

#[test]
fn put_existing_key_keeps_its_size() {
    let mut cache: LRUCache<u64, u64> = LRUCache::new(3);
    cache.put(1, 10, 1);
    cache.put(2, 20, 1);
    // The new size is not taken: the entry still takes 1.
    cache.put(1, 11, 3);
    cache.put(3, 30, 1);
    assert_eq!(cache.get(&1), Some(&11));
    assert_eq!(cache.get(&2), Some(&20));
    assert_eq!(cache.get(&3), Some(&30));
}

#[test]
fn entry_as_large_as_the_cache_empties_it() {
    let mut cache: LRUCache<u64, u64> = LRUCache::new(4);
    cache.put(1, 10, 2);
    cache.put(2, 20, 2);
    cache.put(3, 30, 4);
    assert_eq!(cache.len(), 1);
    assert_eq!(cache.get(&3), Some(&30));
}

#[test]
fn zero_size_entries_never_evict() {
    let mut cache: LRUCache<u64, u64> = LRUCache::new(0);
    cache.put(1, 10, 0);
    cache.put(2, 20, 0);
    assert_eq!(cache.len(), 2);
    assert_eq!(cache.get(&1), Some(&10));
}

#[test]
fn byte_string_keys() {
    let mut cache: LRUCache<Vec<u8>, u64> = LRUCache::new(2);
    cache.put(b"/index.html".to_vec(), 1, 1);
    cache.put(b"/a.png".to_vec(), 2, 1);
    assert_eq!(cache.get(&b"/index.html".to_vec()), Some(&1));
    assert_eq!(cache.get(&b"/b.png".to_vec()), None);
    cache.put(b"/c.css".to_vec(), 3, 1);
    assert_eq!(cache.get(&b"/a.png".to_vec()), None);
}
