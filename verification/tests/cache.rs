use kagi::utils::cache::{Cache, ShardedCache};

fn key(name: &str) -> u64 {
    name.as_bytes()[0] as u64
}

#[test]
fn test_cache() {
    let mut cache = Cache::new(3);

    cache.insert(0, key("a"), 1);
    cache.insert(0, key("b"), 2);
    cache.insert(0, key("c"), 3);
    cache.insert(0, key("d"), 4);
    cache.insert(0, key("e"), 5);

    assert_eq!(cache.len(), 3);

    assert_eq!(cache.get(0, key("a")), None);
    assert_eq!(cache.get(0, key("b")), None);
    assert_eq!(cache.get(0, key("c")), Some(&3));
    assert_eq!(cache.get(0, key("d")), Some(&4));
    assert_eq!(cache.get(0, key("e")), Some(&5));
}

#[test]
fn what_was_used_stays() {
    let mut cache = Cache::new(2);
    assert_eq!(cache.capacity(), 2);
    assert_eq!(cache.insert(0, 1, "one"), None);
    assert_eq!(cache.insert(0, 2, "two"), None);
    assert_eq!(cache.get(0, 1), Some(&"one"));
    // The entry that was not used for the longest time makes room.
    assert_eq!(cache.insert(0, 3, "three"), None);
    assert_eq!(cache.get(0, 2), None);
    assert_eq!(cache.get(0, 1), Some(&"one"));
    assert_eq!(cache.insert(0, 1, "uno"), Some("one"));
    assert_eq!(cache.remove(0, 1), Some("uno"));
    assert_eq!(cache.remove(0, 1), None);
    assert_eq!(cache.len(), 1);
}

#[test]
fn users_have_their_own_keys() {
    let mut cache = Cache::new(8);
    let a = cache.get_cache_id();
    let b = cache.get_cache_id();
    assert_eq!((a, b), (1, 2));
    cache.insert(a, 5, 50);
    cache.insert(b, 5, 51);
    assert_eq!(cache.get(a, 5), Some(&50));
    assert_eq!(cache.get(b, 5), Some(&51));
}

#[test]
fn shards_hold_all_keys() {
    let mut cache = ShardedCache::new(4, 1000);
    let id = cache.get_cache_id();
    for k in 0..200u64 {
        assert_eq!(cache.insert(id, k, k * 2), None);
    }
    for k in 0..200u64 {
        assert_eq!(cache.get(id, k), Some(&(k * 2)));
    }
    assert_eq!(cache.remove(id, 7), Some(14));
    assert_eq!(cache.get(id, 7), None);
}
