use mega_store_search::cache::{QueryCache, CACHE_CAPACITY};

#[test]
fn get_returns_what_put_stored() {
    let mut cache = QueryCache::new();
    assert_eq!(cache.get(&"mouse gamer".to_string()), None);
    cache.put("mouse gamer".to_string(), vec![1, 5, 9]);
    cache.put("cabo".to_string(), vec![]);
    assert_eq!(cache.get(&"mouse gamer".to_string()), Some(vec![1, 5, 9]));
    assert_eq!(cache.get(&"mouse gamer".to_string()), Some(vec![1, 5, 9]));
    assert_eq!(cache.get(&"cabo".to_string()), Some(vec![]));
    assert_eq!(cache.get(&"mouse".to_string()), None);
}

#[test]
fn put_replaces_the_value_of_a_held_key() {
    let mut cache = QueryCache::new();
    cache.put("k".to_string(), vec![1]);
    cache.put("k".to_string(), vec![2, 3]);
    assert_eq!(cache.get(&"k".to_string()), Some(vec![2, 3]));
}

#[test]
fn capacity_is_128() {
    assert_eq!(CACHE_CAPACITY, 128);
}

#[test]
fn the_least_recently_used_entry_goes_after_128_distinct_keys() {
    let mut cache = QueryCache::new();
    for i in 0..128u64 {
        cache.put(format!("key{}", i), vec![i]);
    }
    for i in 0..128u64 {
        assert_eq!(cache.get(&format!("key{}", i)), Some(vec![i]));
    }
    // key0 is now the least recently used
    cache.put("one more".to_string(), vec![1000]);
    assert_eq!(cache.get(&"key0".to_string()), None);
    assert_eq!(cache.get(&"one more".to_string()), Some(vec![1000]));
    for i in 1..128u64 {
        assert_eq!(cache.get(&format!("key{}", i)), Some(vec![i]));
    }
}

#[test]
fn a_read_counts_as_a_use() {
    let mut cache = QueryCache::new();
    for i in 0..128u64 {
        cache.put(format!("key{}", i), vec![i]);
    }
    assert_eq!(cache.get(&"key0".to_string()), Some(vec![0]));
    cache.put("new".to_string(), vec![7]);
    // key1 went, key0 stayed
    assert_eq!(cache.get(&"key1".to_string()), None);
    assert_eq!(cache.get(&"key0".to_string()), Some(vec![0]));
    assert_eq!(cache.get(&"new".to_string()), Some(vec![7]));
}

#[test]
fn storing_under_a_held_key_drives_nothing_out() {
    let mut cache = QueryCache::new();
    for i in 0..128u64 {
        cache.put(format!("key{}", i), vec![i]);
    }
    cache.put("key0".to_string(), vec![99]);
    for i in 1..128u64 {
        assert_eq!(cache.get(&format!("key{}", i)), Some(vec![i]));
    }
    assert_eq!(cache.get(&"key0".to_string()), Some(vec![99]));
}
