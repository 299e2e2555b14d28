use tagcache::cache::Cache;
use tagcache::types::{CacheStats, Key, Tag};

const MS: u128 = 1_000_000;

fn tags(names: &[&str]) -> Vec<Tag> {
    names.iter().map(|n| Tag::new(n)).collect()
}

fn sorted(keys: Vec<Key>) -> Vec<String> {
    let mut names: Vec<String> = keys.iter().map(|k| k.as_str().to_string()).collect();
    names.sort();
    names
}

#[test]
fn put_then_get_returns_value() {
    let mut cache = Cache::new(16);
    cache.put(Key::new("foo"), "hello".to_string(), tags(&[]), None, 0, Some(1));
    assert_eq!(cache.get(&Key::new("foo"), 5), Some("hello".to_string()));
    assert_eq!(cache.get(&Key::new("bar"), 5), None);
}

#[test]
fn put_replaces_value_and_tags() {
    let mut cache = Cache::new(4);
    cache.put(Key::new("k"), "one".to_string(), tags(&["a", "b"]), None, 0, None);
    cache.put(Key::new("k"), "two".to_string(), tags(&["b", "c"]), None, 1, None);
    assert_eq!(cache.get(&Key::new("k"), 2), Some("two".to_string()));
    assert_eq!(sorted(cache.get_keys_by_tag(&Tag::new("a"), 2)), Vec::<String>::new());
    assert_eq!(sorted(cache.get_keys_by_tag(&Tag::new("b"), 2)), vec!["k".to_string()]);
    assert_eq!(sorted(cache.get_keys_by_tag(&Tag::new("c"), 2)), vec!["k".to_string()]);
}

#[test]
fn keys_by_tag_lists_every_key_once() {
    let mut cache = Cache::new(8);
    for i in 0..50 {
        let key = format!("key{}", i);
        let tag = if i % 2 == 0 { "even" } else { "odd" };
        cache.put(Key::new(&key), "v".to_string(), tags(&[tag, "all", "all"]), None, 0, None);
    }
    assert_eq!(cache.get_keys_by_tag(&Tag::new("even"), 0).len(), 25);
    assert_eq!(cache.get_keys_by_tag(&Tag::new("odd"), 0).len(), 25);
    let all = sorted(cache.get_keys_by_tag(&Tag::new("all"), 0));
    assert_eq!(all.len(), 50);
    let mut unique = all.clone();
    unique.dedup();
    assert_eq!(unique, all);
    assert_eq!(cache.get_keys_by_tag(&Tag::new("none"), 0).len(), 0);
}

#[test]
fn entry_expires_strictly_after_ttl() {
    let mut cache = Cache::new(4);
    cache.put(Key::new("k"), "v".to_string(), tags(&["t"]), Some(50 * MS), 100 * MS, None);
    assert_eq!(cache.get(&Key::new("k"), 100 * MS), Some("v".to_string()));
    assert_eq!(cache.get(&Key::new("k"), 150 * MS), Some("v".to_string()));
    assert_eq!(sorted(cache.get_keys_by_tag(&Tag::new("t"), 150 * MS)), vec!["k".to_string()]);
    assert_eq!(cache.get_keys_by_tag(&Tag::new("t"), 150 * MS + 1).len(), 0);
    assert_eq!(cache.get(&Key::new("k"), 150 * MS + 1), None);
    assert_eq!(cache.get(&Key::new("k"), 100 * MS), None);
    let stats = cache.get_stats();
    assert_eq!(stats, CacheStats { hits: 2, misses: 2, puts: 1, invalidations: 0 });
}

#[test]
fn clock_before_creation_counts_as_no_time_passed() {
    let mut cache = Cache::new(2);
    cache.put(Key::new("k"), "v".to_string(), tags(&[]), Some(0), 1000, None);
    assert_eq!(cache.get(&Key::new("k"), 10), Some("v".to_string()));
    assert_eq!(cache.get(&Key::new("k"), 1000), Some("v".to_string()));
    assert_eq!(cache.get(&Key::new("k"), 1001), None);
}

#[test]
fn invalidate_key_reports_presence_once() {
    let mut cache = Cache::new(4);
    cache.put(Key::new("k"), "v".to_string(), tags(&["t"]), None, 0, None);
    assert!(cache.invalidate_key(&Key::new("k")));
    assert!(!cache.invalidate_key(&Key::new("k")));
    assert_eq!(cache.get(&Key::new("k"), 0), None);
    assert_eq!(cache.get_keys_by_tag(&Tag::new("t"), 0).len(), 0);
    assert_eq!(cache.get_stats().invalidations, 1);
}

#[test]
fn invalidate_tag_removes_all_carriers() {
    let mut cache = Cache::new(16);
    cache.put(Key::new("a"), "A".to_string(), tags(&["red", "blue"]), None, 0, None);
    cache.put(Key::new("b"), "B".to_string(), tags(&["red"]), None, 0, None);
    cache.put(Key::new("c"), "C".to_string(), tags(&["blue"]), None, 0, None);
    assert_eq!(cache.invalidate_tag(&Tag::new("red")), 2);
    assert_eq!(cache.get(&Key::new("a"), 0), None);
    assert_eq!(cache.get(&Key::new("b"), 0), None);
    assert_eq!(cache.get(&Key::new("c"), 0), Some("C".to_string()));
    assert_eq!(sorted(cache.get_keys_by_tag(&Tag::new("blue"), 0)), vec!["c".to_string()]);
    assert_eq!(cache.get_keys_by_tag(&Tag::new("red"), 0).len(), 0);
    assert_eq!(cache.invalidate_tag(&Tag::new("red")), 0);
    assert_eq!(cache.get_stats().invalidations, 2);
}

#[test]
fn key_removed_by_tag_does_not_come_back_under_other_tag() {
    let mut cache = Cache::new(4);
    cache.put(Key::new("a"), "A".to_string(), tags(&["red", "blue"]), None, 0, None);
    assert_eq!(cache.invalidate_tag(&Tag::new("red")), 1);
    cache.put(Key::new("a"), "again".to_string(), tags(&[]), None, 1, None);
    assert_eq!(cache.get_keys_by_tag(&Tag::new("blue"), 1).len(), 0);
    assert_eq!(cache.get(&Key::new("a"), 1), Some("again".to_string()));
}

#[test]
fn invalidate_tag_counts_expired_entries_too() {
    let mut cache = Cache::new(4);
    cache.put(Key::new("old"), "v".to_string(), tags(&["t"]), Some(1), 0, None);
    cache.put(Key::new("new"), "v".to_string(), tags(&["t"]), None, 0, None);
    assert_eq!(cache.get_keys_by_tag(&Tag::new("t"), 100).len(), 1);
    assert_eq!(cache.invalidate_tag(&Tag::new("t")), 2);
}

#[test]
fn cleanup_removes_only_expired() {
    let mut cache = Cache::new(8);
    for i in 0..20u128 {
        let key = format!("k{}", i);
        let ttl = if i < 5 { Some(10 * MS) } else { None };
        cache.put(Key::new(&key), "v".to_string(), tags(&["t"]), ttl, 0, None);
    }
    assert_eq!(cache.cleanup_expired(10 * MS), 0);
    assert_eq!(cache.cleanup_expired(10 * MS + 1), 5);
    assert_eq!(cache.cleanup_expired(10 * MS + 1), 0);
    assert_eq!(cache.get_keys_by_tag(&Tag::new("t"), 20 * MS).len(), 15);
    let stats = cache.get_stats();
    assert_eq!(stats, CacheStats { hits: 0, misses: 0, puts: 20, invalidations: 0 });
}

#[test]
fn flush_returns_count_then_zero() {
    let mut cache = Cache::new(16);
    for i in 0..100 {
        let key = format!("k{}", i);
        let tag = format!("t{}", i % 7);
        cache.put(Key::new(&key), "v".to_string(), tags(&[&tag]), None, 0, None);
    }
    assert_eq!(cache.flush_all(), 100);
    assert_eq!(cache.flush_all(), 0);
    assert_eq!(cache.get(&Key::new("k1"), 0), None);
    assert_eq!(cache.get_keys_by_tag(&Tag::new("t1"), 0).len(), 0);
    assert_eq!(cache.get_stats().invalidations, 100);
}

#[test]
fn counters_follow_the_calls() {
    let mut cache = Cache::new(4);
    assert_eq!(cache.get_stats(), CacheStats::default());
    cache.put(Key::new("a"), "1".to_string(), tags(&["x"]), None, 0, None);
    cache.put(Key::new("b"), "2".to_string(), tags(&["x"]), None, 0, None);
    cache.put(Key::new("c"), "3".to_string(), tags(&[]), None, 0, None);
    let _ = cache.get(&Key::new("a"), 0);
    let _ = cache.get(&Key::new("zz"), 0);
    let _ = cache.get(&Key::new("b"), 0);
    assert!(cache.invalidate_key(&Key::new("c")));
    assert!(!cache.invalidate_key(&Key::new("c")));
    assert_eq!(cache.invalidate_tag(&Tag::new("x")), 2);
    cache.put(Key::new("d"), "4".to_string(), tags(&[]), None, 0, None);
    assert_eq!(cache.flush_all(), 1);
    let stats = cache.get_stats();
    assert_eq!(stats.hits + stats.misses, 3);
    assert_eq!(stats, CacheStats { hits: 2, misses: 1, puts: 4, invalidations: 4 });
}

#[test]
fn shard_of_a_key_does_not_change() {
    let mut cache = Cache::new(7);
    let key = Key::new("stable");
    let first = cache.hash_key(&key);
    assert!(first < 7);
    cache.put(Key::new("stable"), "v".to_string(), tags(&["t"]), None, 0, None);
    assert_eq!(cache.hash_key(&key), first);
    let _ = cache.flush_all();
    for _ in 0..10 {
        assert_eq!(cache.hash_key(&key), first);
    }
}

#[test]
fn key_and_tag_keep_their_text() {
    assert_eq!(Key::new("some key").as_str(), "some key");
    assert_eq!(Tag::new("").as_str(), "");
    assert_eq!(Key::new("ключ").clone().as_str(), "ключ");
}

#[test]
fn keys_spread_over_the_shards() {
    let mut cache = Cache::new(8);
    for i in 0..256 {
        cache.put(Key::new(&format!("key-{}", i)), "v".to_string(), tags(&[]), None, 0, None);
    }
    let counts = cache.shard_items();
    assert_eq!(counts.len(), 8);
    assert_eq!(counts.iter().sum::<usize>(), 256);
    assert!(counts.iter().filter(|&&n| n > 0).count() >= 2);
    for i in 0..256 {
        let key = Key::new(&format!("key-{}", i));
        let home = cache.hash_key(&key);
        assert!(counts[home] > 0);
    }
    assert_eq!(cache.num_shards(), 8);
    assert_eq!(cache.len(), 256);
    assert_eq!(cache.keys().len(), 256);
}

#[test]
fn entries_come_back_whole() {
    let mut cache = Cache::new(4);
    cache.put(Key::new("k"), "v".to_string(), tags(&["a", "b", "c", "d", "e"]), Some(7), 3, Some(9));
    let entry = cache.get_entry(&Key::new("k"), 5).unwrap();
    assert_eq!(entry.value, "v");
    assert_eq!(entry.created_at, 3);
    assert_eq!(entry.ttl, Some(7));
    assert_eq!(entry.created_system, Some(9));
    let names: Vec<String> = entry.tag_list().iter().map(|t| t.as_str().to_string()).collect();
    assert_eq!(names, vec!["a", "b", "c", "d", "e"]);
    assert!(!entry.is_expired(10));
    assert!(entry.is_expired(11));
    let copy = entry.clone();
    assert_eq!(copy.tag_list().len(), 5);
    assert_eq!(cache.get_stats().hits, 1);
    let peeked = cache.read_entry(&Key::new("k"), 5).unwrap();
    assert_eq!(peeked.value, "v");
    let meta = cache.read_meta(&Key::new("k"), 5).unwrap();
    assert_eq!(meta.size, 1);
    assert_eq!(meta.tags.len(), 5);
    assert_eq!(cache.get_stats().hits, 1);
    assert!(cache.read_entry(&Key::new("k"), 11).is_none());
    assert_eq!(cache.len(), 0);
    assert_eq!(cache.get_stats().misses, 0);
}

#[test]
fn keys_by_tag_can_be_limited() {
    let mut cache = Cache::new(4);
    for i in 0..9 {
        cache.put(Key::new(&format!("k{}", i)), "v".to_string(), tags(&["t"]), None, 0, None);
    }
    assert_eq!(cache.get_keys_by_tag_limited(&Tag::new("t"), None, 0).len(), 9);
    assert_eq!(cache.get_keys_by_tag_limited(&Tag::new("t"), Some(4), 0).len(), 4);
    assert_eq!(cache.get_keys_by_tag_limited(&Tag::new("t"), Some(9), 0).len(), 9);
    assert_eq!(cache.get_keys_by_tag_limited(&Tag::new("t"), Some(0), 0).len(), 0);
}
