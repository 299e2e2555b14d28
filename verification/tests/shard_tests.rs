use tagcache::shard::Shard;
use tagcache::types::Key;

fn entry_of(cache_key: &str, tags: &[&str]) -> tagcache::types::Entry {
    let mut cache = tagcache::cache::Cache::new(1);
    let tags = tags.iter().map(|t| tagcache::types::Tag::new(t)).collect();
    cache.put(Key::new(cache_key), format!("value of {}", cache_key), tags, Some(10), 0, None);
    cache.get_entry(&Key::new(cache_key), 0).unwrap()
}

#[test]
fn shard_keeps_both_maps_in_step() {
    let mut shard = Shard::new();
    assert_eq!(shard.len(), 0);
    shard.put(Key::new("a"), entry_of("a", &["x", "y"]));
    shard.put(Key::new("b"), entry_of("b", &["y"]));
    assert_eq!(shard.len(), 2);
    assert!(shard.has_tag("x"));
    assert!(shard.has_tag("y"));
    assert!(!shard.has_tag("z"));
    assert_eq!(shard.keys_with_tag("y", 0).len(), 2);
    assert_eq!(shard.keys_with_tag("y", 11).len(), 0);
    assert_eq!(shard.keys_with_tag("x", 0).len(), 1);
    assert_eq!(shard.bytes(), "value of a".len() + "value of b".len());
    assert_eq!(shard.get("a").unwrap().value, "value of a");
    assert_eq!(shard.meta("b").unwrap().tags.len(), 1);
    assert!(shard.get("c").is_none());

    shard.put(Key::new("a"), entry_of("a", &["z"]));
    assert!(!shard.has_tag("x"));
    assert!(shard.has_tag("y"));
    assert!(shard.has_tag("z"));

    assert!(shard.remove("b", false).is_some());
    assert!(shard.has_tag("y"));
    assert_eq!(shard.keys_with_tag("y", 0).len(), 0);
    assert!(shard.remove("b", false).is_none());

    assert!(shard.remove("a", true).is_some());
    assert!(!shard.has_tag("z"));
    let mut names = shard.tag_names();
    names.sort();
    assert_eq!(names, vec!["y".to_string()]);
    assert_eq!(shard.len(), 0);
}

#[test]
fn shard_removes_by_tag_and_by_expiry() {
    let mut shard = Shard::new();
    shard.put(Key::new("a"), entry_of("a", &["x", "y"]));
    shard.put(Key::new("b"), entry_of("b", &["y"]));
    shard.put(Key::new("c"), entry_of("c", &[]));
    assert_eq!(shard.invalidate_tag("x"), 1);
    assert_eq!(shard.keys_with_tag("y", 0).len(), 1);
    assert_eq!(shard.invalidate_tag("x"), 0);
    assert_eq!(shard.sweep(10), 0);
    assert_eq!(shard.sweep(11), 2);
    assert_eq!(shard.len(), 0);
    shard.put(Key::new("d"), entry_of("d", &["x"]));
    let mut keys = shard.keys();
    keys.sort();
    assert_eq!(keys, vec!["d".to_string()]);
    assert_eq!(shard.clear(), 1);
    assert_eq!(shard.clear(), 0);
    assert!(shard.tag_names().is_empty());
}
