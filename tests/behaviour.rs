use lru::LRUCache;

#[test]
fn capacity_three_evicts_least_recent() {
    let mut cache: LRUCache<u32, u32> = LRUCache::new(3);
    cache.insert(1, 2);
    cache.insert(3, 4);
    cache.insert(5, 6);
    assert_eq!(3, cache.len());
    assert_eq!(Some(&2), cache.get(1));
    assert_eq!(Some(&4), cache.get(3));
    assert_eq!(Some(&6), cache.get(5));
    assert_eq!(None, cache.get(7));
    cache.insert(7, 8);
    assert_eq!(None, cache.get(1));
    assert_eq!(Some(&4), cache.get(3));
    assert_eq!(Some(&6), cache.get(5));
    assert_eq!(Some(&8), cache.get(7));
    assert_eq!(3, cache.len());
}

#[test]
fn reaccess_reorders_eviction() {
    let mut cache: LRUCache<u32, char> = LRUCache::new(2);
    cache.insert(1, 'a');
    cache.insert(2, 'b');
    assert_eq!(Some(&'a'), cache.get(1));
    cache.insert(3, 'c');
    assert_eq!(None, cache.get(2));
    assert_eq!(Some(&'a'), cache.get(1));
    assert_eq!(Some(&'c'), cache.get(3));
    assert_eq!(2, cache.len());
}

#[test]
fn len_never_exceeds_capacity() {
    let mut cache: LRUCache<u64, u64> = LRUCache::new(4);
    let mut i: u64 = 0;
    while i < 50 {
        cache.insert(i % 7, i);
        assert!(cache.len() <= 4);
        let _ = cache.get(i % 5);
        assert!(cache.len() <= 4);
        i += 1;
    }
    assert_eq!(4, cache.len());
}

#[test]
fn eviction_takes_smallest_stamp_only() {
    let mut cache: LRUCache<String, u8> = LRUCache::new(3);
    cache.insert("a".to_string(), 1);
    cache.insert("b".to_string(), 2);
    cache.insert("c".to_string(), 3);
    // touch "a" and "b": "c" is now the least recently used
    assert_eq!(Some(&1), cache.get("a".to_string()));
    assert_eq!(Some(&2), cache.get("b".to_string()));
    cache.insert("d".to_string(), 4);
    assert_eq!(None, cache.get("c".to_string()));
    assert_eq!(Some(&1), cache.get("a".to_string()));
    assert_eq!(Some(&2), cache.get("b".to_string()));
    assert_eq!(Some(&4), cache.get("d".to_string()));
    assert_eq!(3, cache.len());
}

#[test]
fn miss_changes_nothing() {
    let mut cache: LRUCache<i32, i32> = LRUCache::new(2);
    cache.insert(1, 10);
    cache.insert(2, 20);
    let clock = cache.clock();
    assert_eq!(None, cache.get(9));
    assert_eq!(clock, cache.clock());
    assert_eq!(2, cache.len());
    // the order is untouched: 1 is still the eviction candidate
    cache.insert(3, 30);
    assert_eq!(None, cache.get(1));
    assert_eq!(Some(&20), cache.get(2));
}

#[test]
fn update_replaces_value_without_eviction() {
    let mut cache: LRUCache<i32, &str> = LRUCache::new(2);
    cache.insert(1, "one");
    cache.insert(2, "two");
    cache.insert(1, "uno");
    assert_eq!(2, cache.len());
    assert_eq!(Some(&"uno"), cache.get(1));
    assert_eq!(Some(&"two"), cache.get(2));
    assert_eq!(5, cache.clock());
    // the update refreshed 1, and the lookup of 2 refreshed it after that
    cache.insert(3, "three");
    assert_eq!(None, cache.get(1));
    assert_eq!(Some(&"two"), cache.get(2));
}

#[test]
fn repeated_miss_stays_absent() {
    let mut cache: LRUCache<i32, i32> = LRUCache::new(2);
    cache.insert(1, 1);
    let mut n: i32 = 0;
    while n < 10 {
        assert_eq!(None, cache.get(42));
        cache.insert(100 + n, n);
        n += 1;
    }
    assert_eq!(None, cache.get(42));
}

#[test]
fn capacity_one_keeps_latest() {
    let mut cache: LRUCache<u8, u8> = LRUCache::new(1);
    cache.insert(1, 1);
    cache.insert(2, 2);
    assert_eq!(1, cache.len());
    assert_eq!(None, cache.get(1));
    assert_eq!(Some(&2), cache.get(2));
    assert_eq!(3, cache.clock());
}

#[test]
fn new_cache_is_empty() {
    let mut cache: LRUCache<u8, u8> = LRUCache::new(5);
    assert_eq!(0, cache.len());
    assert_eq!(0, cache.clock());
    assert_eq!(None, cache.get(0));
    assert_eq!(0, cache.clock());
}
