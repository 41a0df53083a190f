use lru::LRUCache;

#[test]
fn lru_cache() {
    let mut cache = LRUCache::new(3);
    assert_eq!(0, cache.clock());
    assert_eq!(0, cache.len());

    cache.insert(1, 2);
    cache.insert(3, 4);
    cache.insert(5, 6);
    assert_eq!(3, cache.clock());
    assert_eq!(3, cache.len());
    assert_eq!(Some(&2), cache.get(1));
    assert_eq!(Some(&4), cache.get(3));
    assert_eq!(Some(&6), cache.get(5));
    assert_eq!(None, cache.get(7));
    assert_eq!(6, cache.clock());

    cache.insert(1, 1);
    cache.insert(3, 3);
    cache.insert(5, 6);
    assert_eq!(9, cache.clock());
    assert_eq!(3, cache.len());
    assert_eq!(Some(&1), cache.get(1));
    assert_eq!(Some(&3), cache.get(3));
    assert_eq!(Some(&6), cache.get(5));
    assert_eq!(None, cache.get(7));

    cache.insert(7, 8);
    assert_eq!(3, cache.len());
    assert_eq!(None, cache.get(1));
    assert_eq!(Some(&3), cache.get(3));
    assert_eq!(Some(&6), cache.get(5));
    assert_eq!(Some(&8), cache.get(7));
    assert_eq!(16, cache.clock());
}
