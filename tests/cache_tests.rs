use redis_imitate::cache::AVLCache;
use std::time::Duration;

#[test]
fn test_put_and_get() {
    let mut cache = AVLCache::new(5, Duration::from_secs(60));
    cache.put("key1".to_string(), 1);
    cache.put("key2".to_string(), 2);
    cache.put("key3".to_string(), 3);

    assert_eq!(cache.get(&"key1".to_string()), Some(1));
    assert_eq!(cache.get(&"key2".to_string()), Some(2));
    assert_eq!(cache.get(&"key3".to_string()), Some(3));
    assert_eq!(cache.get(&"key4".to_string()), None);
}

#[test]
fn test_capacity() {
    let mut cache = AVLCache::new(3, Duration::from_secs(60));
    cache.put("key1".to_string(), 1);
    cache.put("key2".to_string(), 2);
    cache.put("key3".to_string(), 3);
    cache.put("key4".to_string(), 4);

    assert_eq!(cache.get(&"key1".to_string()), None);
    assert_eq!(cache.get(&"key2".to_string()), Some(2));
    assert_eq!(cache.get(&"key3".to_string()), Some(3));
    assert_eq!(cache.get(&"key4".to_string()), Some(4));
}

#[test]
fn test_remove() {
    let mut cache = AVLCache::new(5, Duration::from_secs(60));
    cache.put("key1".to_string(), 1);
    cache.put("key2".to_string(), 2);

    assert_eq!(cache.remove(&"key1".to_string()), Some(1));
    assert_eq!(cache.get(&"key1".to_string()), None);
    assert_eq!(cache.get(&"key2".to_string()), Some(2));
}

#[test]
fn test_clear() {
    let mut cache = AVLCache::new(5, Duration::from_secs(60));
    cache.put("key1".to_string(), 1);
    cache.put("key2".to_string(), 2);

    cache.clear();
    assert_eq!(cache.get(&"key1".to_string()), None);
    assert_eq!(cache.get(&"key2".to_string()), None);
}

#[test]
fn test_update_existing_key() {
    let mut cache = AVLCache::new(5, Duration::from_secs(60));
    cache.put("key1".to_string(), 1);
    cache.put("key1".to_string(), 2);

    assert_eq!(cache.get(&"key1".to_string()), Some(2));
}

#[test]
fn test_large_capacity() {
    let mut cache = AVLCache::new(1_000_000, Duration::from_secs(60));
    for i in 0..1_000_000 {
        cache.put(format!("key{}", i), i);
    }
    assert_eq!(cache.get(&"key999999".to_string()), Some(999999));
    cache.put("new_key".to_string(), 1_000_000);
    assert_eq!(cache.get(&"key0".to_string()), None);
}

#[test]
fn test_zero_ttl() {
    let mut cache = AVLCache::new(5, Duration::from_secs(0));
    cache.put("key1".to_string(), 1);
    assert_eq!(cache.get(&"key1".to_string()), None);
}

#[test]
fn update_resets_ttl_by_the_given_clock() {
    let mut cache: AVLCache<u32> = AVLCache::with_ttl_millis(5, 200);
    cache.put_at("key1".to_string(), 1, 0);
    cache.put_at("key1".to_string(), 2, 150);
    assert_eq!(cache.get_at(&"key1".to_string(), 250), Some(2));
    assert_eq!(cache.get_at(&"key1".to_string(), 460), None);
}

#[test]
fn get_at_refreshes_and_expires() {
    let mut cache: AVLCache<u32> = AVLCache::with_ttl_millis(4, 100);
    cache.put_at("a".to_string(), 1, 1_000);
    assert_eq!(cache.get_at(&"a".to_string(), 1_099), Some(1));
    assert_eq!(cache.get_at(&"a".to_string(), 1_198), Some(1));
    assert_eq!(cache.get_at(&"a".to_string(), 1_298), None);
    assert_eq!(cache.len(), 0);
}

#[test]
fn eviction_takes_least_key_and_min_reports_it() {
    let mut cache: AVLCache<u32> = AVLCache::with_ttl_millis(2, 1_000);
    cache.put_at("m".to_string(), 1, 0);
    cache.put_at("b".to_string(), 2, 0);
    assert_eq!(cache.min(), Some(("b".to_string(), 2)));
    cache.put_at("z".to_string(), 3, 0);
    assert!(!cache.contains_key(&"b".to_string()));
    assert_eq!(cache.len(), 2);
    cache.put_at("m".to_string(), 9, 0);
    assert_eq!(cache.len(), 2);
    assert_eq!(cache.remove(&"m".to_string()), Some(9));
    assert_eq!(cache.remove(&"m".to_string()), None);
}

#[test]
fn many_keys_in_and_out() {
    let mut cache: AVLCache<usize> = AVLCache::with_ttl_millis(10_000, 1_000);
    for i in 0..5_000usize {
        cache.put_at(format!("k{}", (i * 7919) % 5_000), i, 0);
    }
    assert_eq!(cache.len(), 5_000);
    for i in 0..2_500usize {
        assert!(cache.remove(&format!("k{}", i * 2)).is_some());
    }
    assert_eq!(cache.len(), 2_500);
    assert_eq!(cache.min().map(|(k, _)| k), Some("k1".to_string()));
}
