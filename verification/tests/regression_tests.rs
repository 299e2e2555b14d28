use tagcache::api::stats_handler;
use tagcache::cache::Cache;
use tagcache::types::{Key, Tag};

const MS: u128 = 1_000_000;

#[test]
fn test_expired_entry_deadlock() {
    let mut cache = Cache::new(4);
    let key = Key::new("test_key");
    let tags = vec![Tag::new("tag1"), Tag::new("tag2")];
    cache.put(key.clone(), "test_value".to_string(), tags, Some(MS), 0, None);
    for _ in 0..50 {
        let result = cache.get(&key, 10 * MS);
        assert!(result.is_none(), "Expired entry should return None");
    }
    assert_eq!(cache.get_stats().misses, 50);
    assert_eq!(cache.len(), 0);
    assert_eq!(stats_handler(&cache).tags, 0);
}

#[test]
fn test_concurrent_put_with_tag_cleanup() {
    let mut cache = Cache::new(8);
    let key = Key::new("shared_key");
    for task_id in 0..20 {
        for iteration in 0..50 {
            let tags = vec![
                Tag::new(&format!("tag_{}_{}", task_id, iteration)),
                Tag::new(&format!("shared_tag_{}", iteration % 5)),
            ];
            let value = format!("value_{}_{}", task_id, iteration);
            cache.put(key.clone(), value, tags, Some(60_000 * MS), 0, None);
        }
    }
    assert_eq!(cache.get(&key, 0), Some("value_19_49".to_string()));
    assert_eq!(cache.len(), 1);
    assert_eq!(stats_handler(&cache).tags, 2);
    assert_eq!(cache.get_keys_by_tag(&Tag::new("tag_19_49"), 0).len(), 1);
    assert_eq!(cache.get_keys_by_tag(&Tag::new("shared_tag_4"), 0).len(), 1);
    assert_eq!(cache.get_keys_by_tag(&Tag::new("shared_tag_3"), 0).len(), 0);
    assert_eq!(cache.get_stats().puts, 1000);
}

#[test]
fn test_mixed_operations_high_concurrency() {
    let mut cache = Cache::new(16);
    for i in 0..100u128 {
        let key = Key::new(&format!("initial_key_{}", i));
        let tags = vec![Tag::new(&format!("tag_{}", i % 10))];
        cache.put(key, format!("initial_value_{}", i), tags, Some((100 + i * 10) * MS), 0, None);
    }
    let mut hits = 0;
    for _reader in 0..15 {
        for i in 0..200 {
            if cache.get(&Key::new(&format!("initial_key_{}", i % 100)), 50 * MS).is_some() {
                hits += 1;
            }
        }
    }
    assert_eq!(hits, 15 * 200);
    for task_id in 0..10 {
        for i in 0..100 {
            let key = Key::new(&format!("writer_key_{}_{}", task_id, i));
            let tags = vec![
                Tag::new(&format!("writer_tag_{}", task_id)),
                Tag::new(&format!("iteration_tag_{}", i % 5)),
            ];
            cache.put(key, format!("writer_value_{}_{}", task_id, i), tags, Some(200 * MS), 50 * MS, None);
        }
    }
    let mut removed = 0;
    for _task in 0..5 {
        for i in 0..50 {
            if cache.invalidate_key(&Key::new(&format!("initial_key_{}", i * 2))) {
                removed += 1;
            }
        }
    }
    assert_eq!(removed, 50);
    assert_eq!(cache.len(), 50 + 1000);
    assert_eq!(cache.get_keys_by_tag(&Tag::new("writer_tag_3"), 60 * MS).len(), 100);
    assert_eq!(cache.get_keys_by_tag(&Tag::new("iteration_tag_0"), 60 * MS).len(), 200);
    let stats = cache.get_stats();
    assert_eq!(stats.hits, 3000);
    assert_eq!(stats.puts, 1100);
    assert_eq!(stats.invalidations, 50);
}

#[test]
fn test_tag_association_memory_leaks() {
    let mut cache = Cache::new(4);
    let mut now: u128 = 0;
    for task_id in 0..10 {
        for cycle in 0..20 {
            for i in 0..50 {
                let key = Key::new(&format!("temp_key_{}_{}", task_id, i));
                let tags =
                    (0..10).map(|t| Tag::new(&format!("temp_tag_{}_{}", cycle, t))).collect();
                cache.put(key, format!("temp_value_{}", i), tags, Some(50 * MS), now, None);
            }
            now += 100 * MS;
            for i in 0..50 {
                let key = Key::new(&format!("temp_key_{}_{}", task_id, i));
                assert!(cache.get(&key, now).is_none());
            }
        }
    }
    assert_eq!(cache.cleanup_expired(now), 0);
    assert_eq!(cache.len(), 0);
    assert_eq!(stats_handler(&cache).tags, 0);
    assert_eq!(stats_handler(&cache).bytes, 0);
}

#[test]
fn test_rapid_put_get_cycles() {
    let mut cache = Cache::new(4);
    let shared_keys: Vec<Key> = (0..5).map(|i| Key::new(&format!("shared_{}", i))).collect();
    for task_id in 0..20 {
        for iteration in 0..100 {
            let key = &shared_keys[iteration % 5];
            let value = format!("value_{}_{}", task_id, iteration);
            let tags = vec![Tag::new(&format!("tag_{}", task_id))];
            let ttl = (10 + (iteration as u128 % 90)) * MS;
            cache.put(key.clone(), value.clone(), tags, Some(ttl), 0, None);
            assert_eq!(cache.get(key, 0), Some(value));
        }
    }
    assert_eq!(cache.len(), 5);
    assert_eq!(stats_handler(&cache).tags, 1);
    assert_eq!(cache.get_keys_by_tag(&Tag::new("tag_19"), 0).len(), 5);
    assert_eq!(cache.get_stats().hits, 2000);
}

#[test]
fn test_deadlock_regression() {
    let mut cache = Cache::new(4);
    let key1 = Key::new("deadlock_test_1");
    cache.put(key1.clone(), "value1".to_string(), vec![Tag::new("tag1")], Some(MS), 0, None);
    for _ in 0..50 {
        assert!(cache.get(&key1, 10 * MS).is_none(), "Expired entry should return None");
    }
    let key2 = Key::new("deadlock_test_2");
    for i in 0..30 {
        for j in 0..20 {
            let tags = vec![Tag::new(&format!("tag_{}_{}", i, j))];
            cache.put(key2.clone(), format!("value_{}", j), tags, Some(60_000 * MS), 10 * MS, None);
        }
    }
    assert_eq!(cache.get(&key2, 20 * MS), Some("value_19".to_string()));
    assert_eq!(stats_handler(&cache).tags, 1);
}
