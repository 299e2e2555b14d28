use tagcache::api::{
    bulk_delete_handler, bulk_get_handler, flush_handler, get_handler, invalidate_key_handler,
    invalidate_keys_handler, invalidate_tag_handler, keys_by_tag_handler, put_handler,
    rest_delete_key, rest_get_key, rest_put_key, stats_handler, BulkKeysBody,
    InvalidateKeyRequest, InvalidateKeysBody, InvalidateTagRequest, KeyUpsertBody,
    KeysByTagQuery, PutRequest,
};
use tagcache::cache::Cache;
use tagcache::config::{CacheConfig, TagCacheConfig};
use tagcache::limits::BadRequest;

const MS: u128 = 1_000_000;

fn limits() -> CacheConfig {
    TagCacheConfig::default().cache
}

fn put(cache: &mut Cache, key: &str, value: &str, tags: &[&str], ttl_ms: Option<u64>, now: u128) {
    let req = PutRequest {
        key: key.to_string(),
        value: value.to_string(),
        tags: tags.iter().map(|t| t.to_string()).collect(),
        ttl_seconds: None,
        ttl_ms,
    };
    let res = put_handler(cache, &limits(), req, now, Some(1_700_000_000_000)).unwrap();
    assert!(res.ok);
    assert_eq!(res.ttl_ms, ttl_ms);
}

#[test]
fn put_request_prefers_milliseconds() {
    let mut cache = Cache::new(4);
    let req = PutRequest {
        key: "k".to_string(),
        value: "v".to_string(),
        tags: vec![],
        ttl_seconds: Some(10),
        ttl_ms: Some(250),
    };
    let res = put_handler(&mut cache, &limits(), req, 0, None).unwrap();
    assert!(res.ok);
    assert_eq!(res.ttl_ms, Some(250));
    assert!(get_handler(&mut cache, "k".to_string(), 250 * MS).is_some());
    assert!(get_handler(&mut cache, "k".to_string(), 250 * MS + 1).is_none());
}

#[test]
fn put_request_takes_seconds_when_alone() {
    let mut cache = Cache::new(4);
    let req = PutRequest {
        key: "k".to_string(),
        value: "v".to_string(),
        tags: vec![],
        ttl_seconds: Some(2),
        ttl_ms: None,
    };
    let res = put_handler(&mut cache, &limits(), req, 0, None).unwrap();
    assert_eq!(res.ttl_ms, Some(2000));
    assert_eq!(get_handler(&mut cache, "k".to_string(), 2000 * MS).unwrap().value, "v");
    assert!(get_handler(&mut cache, "k".to_string(), 2000 * MS + 1).is_none());
}

#[test]
fn put_request_without_ttl_never_expires() {
    let mut cache = Cache::new(4);
    put(&mut cache, "k", "v", &[], None, 0);
    assert_eq!(get_handler(&mut cache, "k".to_string(), u128::MAX).unwrap().value, "v");
}

#[test]
fn seconds_beyond_64_bits_of_milliseconds_wrap_in_the_answer() {
    let mut cache = Cache::new(4);
    let req = PutRequest {
        key: "k".to_string(),
        value: "v".to_string(),
        tags: vec![],
        ttl_seconds: Some(u64::MAX),
        ttl_ms: None,
    };
    let res = put_handler(&mut cache, &limits(), req, 0, None).unwrap();
    let expected = ((u64::MAX as u128 * 1000) % (1u128 << 64)) as u64;
    assert_eq!(res.ttl_ms, Some(expected));
}

#[test]
fn rest_put_and_get_show_metadata() {
    let mut cache = Cache::new(4);
    let body = KeyUpsertBody {
        value: "{\"a\":1}".to_string(),
        ttl_ms: Some(1000),
        tags: Some(vec!["x".to_string(), "y".to_string()]),
    };
    let res =
        rest_put_key(&mut cache, &limits(), "doc".to_string(), body, 10 * MS, Some(42)).unwrap();
    assert!(res.ok);
    assert_eq!(res.ttl_ms, Some(1000));
    let meta = rest_get_key(&mut cache, "doc".to_string(), 310 * MS).unwrap();
    assert_eq!(meta.key, "doc");
    assert_eq!(meta.value, "{\"a\":1}");
    assert_eq!(meta.ttl_ms, Some(700));
    assert_eq!(meta.tags, vec!["x".to_string(), "y".to_string()]);
    assert_eq!(meta.created_ms, Some(42));
    assert!(rest_get_key(&mut cache, "doc".to_string(), 1011 * MS).is_none());
    assert!(rest_get_key(&mut cache, "other".to_string(), 0).is_none());
    let stats = cache.get_stats();
    assert_eq!(stats.hits + stats.misses, 0);
}

#[test]
fn rest_put_without_tags_stores_none() {
    let mut cache = Cache::new(4);
    let body = KeyUpsertBody { value: "v".to_string(), ttl_ms: None, tags: None };
    let res = rest_put_key(&mut cache, &limits(), "k".to_string(), body, 0, None).unwrap();
    assert_eq!(res.ttl_ms, None);
    let meta = rest_get_key(&mut cache, "k".to_string(), 5).unwrap();
    assert_eq!(meta.ttl_ms, None);
    assert!(meta.tags.is_empty());
    assert_eq!(meta.created_ms, None);
}

#[test]
fn remaining_ttl_rounds_down_and_ends_at_zero() {
    let mut cache = Cache::new(4);
    put(&mut cache, "k", "v", &[], Some(5), 0);
    assert_eq!(rest_get_key(&mut cache, "k".to_string(), 1).unwrap().ttl_ms, Some(4));
    assert_eq!(rest_get_key(&mut cache, "k".to_string(), 4 * MS + 1).unwrap().ttl_ms, Some(0));
    assert_eq!(rest_get_key(&mut cache, "k".to_string(), 5 * MS).unwrap().ttl_ms, Some(0));
    assert!(rest_get_key(&mut cache, "k".to_string(), 5 * MS + 1).is_none());
}

#[test]
fn keys_by_tag_respects_limit() {
    let mut cache = Cache::new(8);
    for i in 0..10 {
        put(&mut cache, &format!("k{}", i), "v", &["t"], None, 0);
    }
    let all = keys_by_tag_handler(
        &cache,
        KeysByTagQuery { tag: "t".to_string(), limit: None },
        0,
    );
    assert_eq!(all.keys.len(), 10);
    let some = keys_by_tag_handler(
        &cache,
        KeysByTagQuery { tag: "t".to_string(), limit: Some(3) },
        0,
    );
    assert_eq!(some.keys.len(), 3);
    for key in &some.keys {
        assert!(all.keys.contains(key));
    }
    let more = keys_by_tag_handler(
        &cache,
        KeysByTagQuery { tag: "t".to_string(), limit: Some(50) },
        0,
    );
    assert_eq!(more.keys.len(), 10);
    let none = keys_by_tag_handler(
        &cache,
        KeysByTagQuery { tag: "t".to_string(), limit: Some(0) },
        0,
    );
    assert!(none.keys.is_empty());
}

#[test]
fn invalidate_key_answers_without_count() {
    let mut cache = Cache::new(4);
    put(&mut cache, "k", "v", &[], None, 0);
    let res = invalidate_key_handler(&mut cache, InvalidateKeyRequest { key: "k".to_string() });
    assert!(res.success);
    assert_eq!(res.count, None);
    let res = invalidate_key_handler(&mut cache, InvalidateKeyRequest { key: "k".to_string() });
    assert!(!res.success);
    assert!(!rest_delete_key(&mut cache, "k".to_string()));
    put(&mut cache, "k", "v", &[], None, 0);
    assert!(rest_delete_key(&mut cache, "k".to_string()));
}

#[test]
fn invalidate_tag_answers_with_count() {
    let mut cache = Cache::new(4);
    put(&mut cache, "a", "v", &["t"], None, 0);
    put(&mut cache, "b", "v", &["t"], None, 0);
    let res = invalidate_tag_handler(&mut cache, InvalidateTagRequest { tag: "t".to_string() });
    assert!(res.success);
    assert_eq!(res.count, Some(2));
    let res = invalidate_tag_handler(&mut cache, InvalidateTagRequest { tag: "t".to_string() });
    assert!(!res.success);
    assert_eq!(res.count, Some(0));
}

#[test]
fn bulk_get_skips_expired_and_missing() {
    let mut cache = Cache::new(8);
    put(&mut cache, "k1", "one", &[], Some(10), 0);
    put(&mut cache, "k2", "two", &["t"], None, 0);
    let body = BulkKeysBody {
        keys: vec!["k1".to_string(), "k2".to_string(), "k3".to_string()],
    };
    let items = bulk_get_handler(&mut cache, body, 50 * MS);
    assert_eq!(items.len(), 1);
    assert_eq!(items[0].key, "k2");
    assert_eq!(items[0].value, "two");
    assert_eq!(items[0].ttl_ms, None);
    assert_eq!(items[0].tags, vec!["t".to_string()]);
    assert_eq!(items[0].created_ms, Some(1_700_000_000_000));
    let stats = cache.get_stats();
    assert_eq!(stats.hits, 1);
    assert_eq!(stats.misses, 2);
}

#[test]
fn bulk_get_keeps_order_and_repeats() {
    let mut cache = Cache::new(8);
    put(&mut cache, "a", "1", &[], None, 0);
    put(&mut cache, "b", "2", &[], None, 0);
    let body = BulkKeysBody {
        keys: vec!["b".to_string(), "x".to_string(), "a".to_string(), "b".to_string()],
    };
    let items = bulk_get_handler(&mut cache, body, 0);
    let keys: Vec<&str> = items.iter().map(|i| i.key.as_str()).collect();
    assert_eq!(keys, vec!["b", "a", "b"]);
}

#[test]
fn bulk_delete_counts_keys_that_were_present() {
    let mut cache = Cache::new(8);
    put(&mut cache, "a", "1", &[], None, 0);
    put(&mut cache, "b", "2", &[], None, 0);
    let keys = vec!["a".to_string(), "zz".to_string(), "a".to_string(), "b".to_string()];
    assert_eq!(bulk_delete_handler(&mut cache, &keys), 2);
    assert_eq!(cache.get_stats().invalidations, 2);
    put(&mut cache, "c", "3", &[], None, 0);
    let body = InvalidateKeysBody { keys: vec!["c".to_string(), "a".to_string()] };
    assert_eq!(invalidate_keys_handler(&mut cache, body), 1);
}

#[test]
fn flush_resets_inventory() {
    let mut cache = Cache::new(16);
    for i in 0..100 {
        let t1 = format!("tag{}", i % 13);
        let t2 = format!("group{}", i % 5);
        put(&mut cache, &format!("key{}", i), "value", &[&t1, &t2], None, 0);
    }
    let before = stats_handler(&cache);
    assert_eq!(before.items, 100);
    assert_eq!(before.tags, 18);
    assert_eq!(before.bytes, 500);
    let res = flush_handler(&mut cache);
    assert!(res.success);
    assert_eq!(res.count, Some(100));
    let after = stats_handler(&cache);
    assert_eq!(after.items, 0);
    assert_eq!(after.tags, 0);
    assert_eq!(after.bytes, 0);
    assert_eq!(after.invalidations, 100);
    assert_eq!(after.puts, 100);
}

#[test]
fn stats_report_inventory_by_shard() {
    let mut cache = Cache::new(5);
    put(&mut cache, "a", "12345", &["x"], None, 0);
    put(&mut cache, "b", "é", &["x", "y"], None, 0);
    put(&mut cache, "c", "", &[], None, 0);
    let _ = get_handler(&mut cache, "a".to_string(), 0);
    let _ = get_handler(&mut cache, "nope".to_string(), 0);
    let stats = stats_handler(&cache);
    assert_eq!(stats.hits, 1);
    assert_eq!(stats.misses, 1);
    assert_eq!(stats.puts, 3);
    assert_eq!(stats.invalidations, 0);
    assert_eq!(stats.items, 3);
    assert_eq!(stats.bytes, 7);
    assert_eq!(stats.tags, 2);
    assert_eq!(stats.shard_count, 5);
    assert_eq!(stats.shard_items.len(), 5);
    assert_eq!(stats.shard_bytes.len(), 5);
    assert_eq!(stats.shard_items.iter().sum::<usize>(), 3);
    assert_eq!(stats.shard_bytes.iter().sum::<usize>(), 7);
    let home = cache.hash_key(&tagcache::types::Key::new("a"));
    assert!(stats.shard_items[home] >= 1);
    assert!(stats.shard_bytes[home] >= 5);
}

#[test]
fn emptied_tag_sets_are_reclaimed_by_put_and_read_only() {
    let mut cache = Cache::new(1);
    put(&mut cache, "a", "v", &["x"], None, 0);
    assert_eq!(stats_handler(&cache).tags, 1);
    put(&mut cache, "a", "v", &["y"], None, 0);
    assert_eq!(stats_handler(&cache).tags, 1);
    let _ = invalidate_key_handler(&mut cache, InvalidateKeyRequest { key: "a".to_string() });
    assert_eq!(stats_handler(&cache).tags, 1);
    put(&mut cache, "b", "v", &["z"], Some(1), 0);
    assert_eq!(stats_handler(&cache).tags, 2);
    assert!(get_handler(&mut cache, "b".to_string(), 2 * MS).is_none());
    assert_eq!(stats_handler(&cache).tags, 1);
}

#[test]
fn default_bounds_are_enforced_on_writes() {
    let mut cache = Cache::new(4);
    let req = |key: String, value: String, tags: Vec<String>| PutRequest {
        key,
        value,
        tags,
        ttl_seconds: None,
        ttl_ms: None,
    };
    let ok = put_handler(
        &mut cache,
        &limits(),
        req("k".repeat(1024), "v".repeat(1048576), vec!["t".to_string(); 100]),
        0,
        None,
    );
    assert!(ok.is_ok());
    let bad = put_handler(&mut cache, &limits(), req("".to_string(), "v".to_string(), vec![]), 0, None);
    assert_eq!(bad.err(), Some(BadRequest::MissingKey));
    let bad =
        put_handler(&mut cache, &limits(), req("k".repeat(1025), "v".to_string(), vec![]), 0, None);
    assert_eq!(bad.err(), Some(BadRequest::KeyTooLong));
    let bad =
        put_handler(&mut cache, &limits(), req("k".to_string(), "v".repeat(1048577), vec![]), 0, None);
    assert_eq!(bad.err(), Some(BadRequest::ValueTooLong));
    let bad = put_handler(
        &mut cache,
        &limits(),
        req("k".to_string(), "v".to_string(), vec!["t".to_string(); 101]),
        0,
        None,
    );
    assert_eq!(bad.err(), Some(BadRequest::TooManyTags));
    let body = KeyUpsertBody { value: "v".to_string(), ttl_ms: None, tags: None };
    let bad = rest_put_key(&mut cache, &limits(), "k".repeat(2000), body, 0, None);
    assert_eq!(bad.err(), Some(BadRequest::KeyTooLong));
    assert_eq!(cache.len(), 1);
    assert_eq!(cache.get_stats().puts, 1);
    assert_eq!(BadRequest::KeyTooLong.reason(), "key_too_long");
    assert_eq!(BadRequest::ValueTooLong.reason(), "value_too_long");
    assert_eq!(BadRequest::TooManyTags.reason(), "too_many_tags");
    assert_eq!(BadRequest::MissingKey.reason(), "missing_key");
}

#[test]
fn empty_tags_are_not_stored() {
    let mut cache = Cache::new(4);
    put(&mut cache, "k", "v", &["", "a", "", "b"], None, 0);
    let meta = rest_get_key(&mut cache, "k".to_string(), 0).unwrap();
    assert_eq!(meta.tags, vec!["a".to_string(), "b".to_string()]);
    let listed = keys_by_tag_handler(
        &cache,
        KeysByTagQuery { tag: "".to_string(), limit: None },
        0,
    );
    assert!(listed.keys.is_empty());
    assert_eq!(stats_handler(&cache).tags, 2);
}
