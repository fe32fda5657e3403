//! Tests for the expiring cache: insertion, overwrite, capacity blocking,
//! clearing, removal, updates, and the time-dependent behavior exercised
//! deterministically through the instant-taking variants.

use staticweaver::Cache;

#[test]
fn test_new_cache() {
    let cache: Cache<String, i32> = Cache::new(60_000);
    assert!(cache.is_empty());
    assert_eq!(cache.ttl_millis(), 60_000);
}

#[test]
fn test_insert_and_get() {
    let mut cache: Cache<String, i32> = Cache::new(60_000);
    assert_eq!(cache.insert("key1".to_string(), 42), None);
    assert_eq!(cache.get(&"key1".to_string()), Some(&42));
}

#[test]
fn test_insert_overwrite() {
    let mut cache: Cache<String, i32> = Cache::new(60_000);
    let _ = cache.insert("key1".to_string(), 42);
    assert_eq!(cache.insert("key1".to_string(), 43), Some(42));
    assert_eq!(cache.get(&"key1".to_string()), Some(&43));
}

#[test]
fn test_default() {
    let cache: Cache<String, i32> = Cache::default();
    assert!(cache.is_empty());
    assert_eq!(cache.ttl_millis(), 60_000);
}

#[test]
fn test_multiple_types() {
    let mut cache: Cache<i32, String> = Cache::new(60_000);
    let _ = cache.insert(1, "one".to_string());
    assert_eq!(cache.get(&1), Some(&"one".to_string()));
}

#[test]
fn test_large_cache() {
    let mut cache: Cache<String, i32> = Cache::new(60_000);
    for i in 0..1000 {
        let _ = cache.insert(i.to_string(), i);
    }
    assert_eq!(cache.len(), 1000);
    for i in 0..1000 {
        assert_eq!(cache.get(&i.to_string()), Some(&i));
    }
}

#[test]
fn test_set_capacity() {
    let mut cache: Cache<String, String> = Cache::new(60_000);
    cache.set_capacity(2);

    assert_eq!(cache.insert("key1".to_string(), "1".to_string()), None);
    assert_eq!(cache.insert("key2".to_string(), "2".to_string()), None);
    assert_eq!(cache.insert("key3".to_string(), "3".to_string()), None);

    assert_eq!(cache.get(&"key1".to_string()), Some(&"1".to_string()));
    assert_eq!(cache.get(&"key2".to_string()), Some(&"2".to_string()));
    assert_eq!(cache.get(&"key3".to_string()), None);
}

#[test]
fn cache_test_clear() {
    let mut cache: Cache<String, i32> = Cache::new(60_000);
    let _ = cache.insert("key1".to_string(), 1);
    let _ = cache.insert("key2".to_string(), 2);

    assert_eq!(cache.get(&"key1".to_string()), Some(&1));
    assert_eq!(cache.get(&"key2".to_string()), Some(&2));

    cache.clear();

    assert_eq!(cache.get(&"key1".to_string()), None);
    assert_eq!(cache.get(&"key2".to_string()), None);
}

#[test]
fn cache_test_remove() {
    let mut cache: Cache<String, String> = Cache::new(60_000);
    cache.insert("key1".to_string(), "value1".to_string());

    assert_eq!(cache.remove(&"key1".to_string()), Some("value1".to_string()));
    assert_eq!(cache.remove(&"key1".to_string()), None);
}

#[test]
fn test_update() {
    let mut cache: Cache<String, String> = Cache::new(60_000);
    cache.insert("key1".to_string(), "value1".to_string());

    assert!(cache.update(&"key1".to_string(), "value2".to_string()));
    assert_eq!(cache.get(&"key1".to_string()), Some(&"value2".to_string()));

    assert!(!cache.update(&"key2".to_string(), "value3".to_string()));
}

#[test]
fn test_capacity() {
    let mut cache: Cache<String, String> = Cache::new(60_000);
    assert_eq!(cache.capacity(), None);

    cache.set_capacity(100);
    assert_eq!(cache.capacity(), Some(100));
}

#[test]
fn cache_test_from_iterator() {
    let items = vec![
        ("key1".to_string(), "value1".to_string()),
        ("key2".to_string(), "value2".to_string()),
    ];
    let cache: Cache<String, String> = Cache::from_pairs(items);
    assert_eq!(cache.get(&"key1".to_string()), Some(&"value1".to_string()));
    assert_eq!(cache.get(&"key2".to_string()), Some(&"value2".to_string()));
}

#[test]
fn cache_test_with_capacity() {
    let cache: Cache<String, String> = Cache::with_capacity(60_000, 100);
    assert_eq!(cache.capacity(), Some(100));
}

#[test]
fn test_get_expired_at() {
    let mut cache: Cache<String, i32> = Cache::new(100);
    let _ = cache.insert_at("key1".to_string(), 42, 1_000);
    assert_eq!(cache.get_at(&"key1".to_string(), 1_000), Some(&42));
    assert_eq!(cache.get_at(&"key1".to_string(), 1_099), Some(&42));
    assert_eq!(cache.get_at(&"key1".to_string(), 1_150), None);
}

#[test]
fn test_contains_key_at() {
    let mut cache: Cache<String, i32> = Cache::new(100);
    let _ = cache.insert_at("key1".to_string(), 42, 0);
    assert!(cache.contains_key_at(&"key1".to_string(), 0));
    assert!(!cache.contains_key_at(&"key2".to_string(), 0));
    assert!(!cache.contains_key_at(&"key1".to_string(), 150));
}

#[test]
fn test_ttl_at() {
    let mut cache: Cache<String, i32> = Cache::new(100);
    let _ = cache.insert_at("key1".to_string(), 42, 0);
    assert_eq!(cache.ttl_at(&"key1".to_string(), 0), Some(100));
    assert_eq!(cache.ttl_at(&"key1".to_string(), 40), Some(60));
    assert_eq!(cache.ttl_at(&"key2".to_string(), 0), None);
    assert_eq!(cache.ttl_at(&"key1".to_string(), 150), None);
}

#[test]
fn test_refresh_at() {
    let mut cache: Cache<String, i32> = Cache::new(100);
    let _ = cache.insert_at("key1".to_string(), 42, 0);
    assert!(cache.refresh_at(&"key1".to_string(), 50));
    assert_eq!(cache.get_at(&"key1".to_string(), 125), Some(&42));
    assert_eq!(cache.get_at(&"key1".to_string(), 150), None);
    assert!(!cache.refresh_at(&"key2".to_string(), 50));
}

#[test]
fn test_refresh_resurrects_at() {
    let mut cache: Cache<String, i32> = Cache::new(100);
    let _ = cache.insert_at("key1".to_string(), 42, 0);
    assert_eq!(cache.get_at(&"key1".to_string(), 200), None);
    assert!(cache.refresh_at(&"key1".to_string(), 200));
    assert_eq!(cache.get_at(&"key1".to_string(), 250), Some(&42));
}

#[test]
fn test_update_resets_expiry_at() {
    let mut cache: Cache<String, String> = Cache::new(100);
    let _ = cache.insert_at("key1".to_string(), "value1".to_string(), 0);
    assert!(cache.update_at(&"key1".to_string(), "value2".to_string(), 80));
    assert_eq!(cache.get_at(&"key1".to_string(), 150), Some(&"value2".to_string()));
    assert_eq!(cache.get_at(&"key1".to_string(), 180), None);
}

#[test]
fn test_remove_expired_at() {
    let mut cache: Cache<String, i32> = Cache::new(100);
    let _ = cache.insert_at("key1".to_string(), 42, 0);
    let _ = cache.insert_at("key2".to_string(), 43, 100);
    assert_eq!(cache.len(), 2);
    cache.remove_expired_at(150);
    assert_eq!(cache.len(), 1);
    assert_eq!(cache.get_at(&"key2".to_string(), 150), Some(&43));
    cache.remove_expired_at(250);
    assert!(cache.is_empty());
}

#[test]
fn test_len_counts_expired() {
    let mut cache: Cache<String, i32> = Cache::new(100);
    let _ = cache.insert_at("key1".to_string(), 42, 0);
    assert_eq!(cache.get_at(&"key1".to_string(), 500), None);
    assert_eq!(cache.len(), 1);
    assert!(!cache.is_empty());
}

#[test]
fn test_iter_at() {
    let mut cache: Cache<String, String> = Cache::new(100);
    let _ = cache.insert_at("key1".to_string(), "value1".to_string(), 0);
    let _ = cache.insert_at("key2".to_string(), "value2".to_string(), 60);
    let items = cache.iter_at(50);
    assert_eq!(items.len(), 2);
    let items = cache.iter_at(120);
    assert_eq!(items.len(), 1);
    assert_eq!(items[0].0, &"key2".to_string());
    assert_eq!(items[0].1, &"value2".to_string());
    let items = cache.iter_at(200);
    assert_eq!(items.len(), 0);
}

#[test]
fn test_capacity_blocks_only_new_keys() {
    let mut cache: Cache<String, i32> = Cache::with_capacity(60_000, 1);
    assert_eq!(cache.insert("key1".to_string(), 1), None);
    assert_eq!(cache.insert("key2".to_string(), 2), None);
    assert_eq!(cache.get(&"key2".to_string()), None);
    assert_eq!(cache.insert("key1".to_string(), 3), Some(1));
    assert_eq!(cache.get(&"key1".to_string()), Some(&3));
}
