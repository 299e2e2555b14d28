use tagcache::api::{put_handler, PutRequest};
use tagcache::cache::Cache;
use tagcache::search::{
    invalidate_tags_handler, list_keys_handler, search_handler, InvalidateTagsBody, SearchBody,
};

const MS: u128 = 1_000_000;

fn put(cache: &mut Cache, key: &str, tags: &[&str], ttl_ms: Option<u64>, now: u128, wall: u64) {
    let req = PutRequest {
        key: key.to_string(),
        value: format!("value of {}", key),
        tags: tags.iter().map(|t| t.to_string()).collect(),
        ttl_seconds: None,
        ttl_ms,
    };
    let limits = tagcache::config::TagCacheConfig::default().cache;
    let _ = put_handler(cache, &limits, req, now, Some(wall));
}

fn names(body: SearchBody, cache: &mut Cache, now: u128) -> Vec<String> {
    let mut keys: Vec<String> =
        search_handler(cache, body, now).keys.into_iter().map(|i| i.key).collect();
    keys.sort();
    keys
}

fn strings(items: &[&str]) -> Vec<String> {
    items.iter().map(|s| s.to_string()).collect()
}

fn body() -> SearchBody {
    SearchBody { q: None, tag_any: None, tag_all: None, limit: None }
}

#[test]
fn tag_all_search_finds_the_intersection() {
    let mut cache = Cache::new(16);
    put(&mut cache, "x", &["a", "b"], None, 0, 1);
    put(&mut cache, "y", &["a"], None, 0, 2);
    let found = names(SearchBody { tag_all: Some(strings(&["a", "b"])), ..body() }, &mut cache, 0);
    assert_eq!(found, strings(&["x"]));
    let found = names(SearchBody { tag_all: Some(strings(&["a"])), ..body() }, &mut cache, 0);
    assert_eq!(found, strings(&["x", "y"]));
    let found = names(SearchBody { tag_all: Some(strings(&["b", "c"])), ..body() }, &mut cache, 0);
    assert!(found.is_empty());
    let found = names(SearchBody { tag_all: Some(strings(&["a", "a"])), ..body() }, &mut cache, 0);
    assert_eq!(found, strings(&["x", "y"]));
}

#[test]
fn tag_any_search_finds_the_union_once() {
    let mut cache = Cache::new(16);
    put(&mut cache, "x", &["a", "b"], None, 0, 1);
    put(&mut cache, "y", &["a"], None, 0, 2);
    put(&mut cache, "z", &["c"], None, 0, 3);
    let found = names(SearchBody { tag_any: Some(strings(&["a", "b"])), ..body() }, &mut cache, 0);
    assert_eq!(found, strings(&["x", "y"]));
    let found =
        names(SearchBody { tag_any: Some(strings(&["c", "a", "c"])), ..body() }, &mut cache, 0);
    assert_eq!(found, strings(&["x", "y", "z"]));
    let found = names(SearchBody { tag_any: Some(strings(&["none"])), ..body() }, &mut cache, 0);
    assert!(found.is_empty());
}

#[test]
fn tag_any_lists_earlier_tags_first() {
    let mut cache = Cache::new(16);
    put(&mut cache, "late", &["second"], None, 0, 1);
    put(&mut cache, "early", &["first"], None, 0, 2);
    let res = search_handler(
        &mut cache,
        SearchBody { tag_any: Some(strings(&["first", "second"])), ..body() },
        0,
    );
    let keys: Vec<&str> = res.keys.iter().map(|i| i.key.as_str()).collect();
    assert_eq!(keys, vec!["early", "late"]);
}

#[test]
fn tag_all_takes_precedence_over_tag_any_and_prefix() {
    let mut cache = Cache::new(16);
    put(&mut cache, "x", &["a"], None, 0, 1);
    put(&mut cache, "y", &["b"], None, 0, 2);
    let found = names(
        SearchBody {
            q: Some("y".to_string()),
            tag_any: Some(strings(&["b"])),
            tag_all: Some(strings(&["a"])),
            limit: None,
        },
        &mut cache,
        0,
    );
    assert_eq!(found, strings(&["x"]));
    let found = names(
        SearchBody {
            q: Some("x".to_string()),
            tag_any: Some(strings(&["b"])),
            tag_all: Some(vec![]),
            limit: None,
        },
        &mut cache,
        0,
    );
    assert_eq!(found, strings(&["y"]));
    let found = names(
        SearchBody {
            q: Some("x".to_string()),
            tag_any: Some(vec![]),
            tag_all: None,
            limit: None,
        },
        &mut cache,
        0,
    );
    assert_eq!(found, strings(&["x"]));
}

#[test]
fn prefix_search_is_case_sensitive() {
    let mut cache = Cache::new(16);
    put(&mut cache, "user:1", &[], None, 0, 1);
    put(&mut cache, "user:2", &[], None, 0, 2);
    put(&mut cache, "User:3", &[], None, 0, 3);
    put(&mut cache, "us", &[], None, 0, 4);
    let found = names(SearchBody { q: Some("user:".to_string()), ..body() }, &mut cache, 0);
    assert_eq!(found, strings(&["user:1", "user:2"]));
    let found = names(SearchBody { q: Some("".to_string()), ..body() }, &mut cache, 0);
    assert_eq!(found.len(), 4);
    let found = names(SearchBody { q: Some("user:12".to_string()), ..body() }, &mut cache, 0);
    assert!(found.is_empty());
}

#[test]
fn search_respects_limit() {
    let mut cache = Cache::new(16);
    for i in 0..30 {
        put(&mut cache, &format!("k{:02}", i), &["t"], None, 0, i);
    }
    for limit in [0usize, 1, 7, 30, 31] {
        let want = limit.min(30);
        let by_all = SearchBody { tag_all: Some(strings(&["t"])), limit: Some(limit), ..body() };
        assert_eq!(search_handler(&mut cache, by_all, 0).keys.len(), want);
        let by_any = SearchBody { tag_any: Some(strings(&["t"])), limit: Some(limit), ..body() };
        assert_eq!(search_handler(&mut cache, by_any, 0).keys.len(), want);
        let by_prefix = SearchBody { q: Some("k".to_string()), limit: Some(limit), ..body() };
        assert_eq!(search_handler(&mut cache, by_prefix, 0).keys.len(), want);
        let newest = SearchBody { limit: Some(limit), ..body() };
        assert_eq!(search_handler(&mut cache, newest, 0).keys.len(), want);
    }
}

#[test]
fn default_limit_is_one_hundred() {
    let mut cache = Cache::new(16);
    for i in 0..150 {
        put(&mut cache, &format!("k{}", i), &["t"], None, 0, i);
    }
    assert_eq!(search_handler(&mut cache, body(), 0).keys.len(), 100);
    let by_any = SearchBody { tag_any: Some(strings(&["t"])), ..body() };
    assert_eq!(search_handler(&mut cache, by_any, 0).keys.len(), 100);
}

#[test]
fn listing_is_newest_first() {
    let mut cache = Cache::new(16);
    put(&mut cache, "old", &[], None, 0, 100);
    put(&mut cache, "new", &[], None, 0, 300);
    put(&mut cache, "mid", &[], None, 0, 200);
    let res = search_handler(&mut cache, body(), 0);
    let keys: Vec<&str> = res.keys.iter().map(|i| i.key.as_str()).collect();
    assert_eq!(keys, vec!["new", "mid", "old"]);
    let res = search_handler(&mut cache, SearchBody { limit: Some(2), ..body() }, 0);
    let keys: Vec<&str> = res.keys.iter().map(|i| i.key.as_str()).collect();
    assert_eq!(keys, vec!["new", "mid"]);
}

#[test]
fn search_items_carry_metadata() {
    let mut cache = Cache::new(16);
    put(&mut cache, "k", &["a", "b"], Some(1000), 0, 77);
    let res = search_handler(&mut cache, SearchBody { q: Some("k".to_string()), ..body() }, 400 * MS);
    assert_eq!(res.keys.len(), 1);
    assert_eq!(res.keys[0].key, "k");
    assert_eq!(res.keys[0].ttl_ms, Some(600));
    assert_eq!(res.keys[0].tags, strings(&["a", "b"]));
    assert_eq!(res.keys[0].created_ms, Some(77));
}

#[test]
fn search_leaves_out_expired_entries() {
    let mut cache = Cache::new(16);
    put(&mut cache, "gone", &["t"], Some(10), 0, 1);
    put(&mut cache, "here", &["t"], None, 0, 2);
    let later = 11 * MS;
    assert_eq!(names(SearchBody { tag_all: Some(strings(&["t"])), ..body() }, &mut cache, later),
        strings(&["here"]));
    assert_eq!(names(SearchBody { tag_any: Some(strings(&["t"])), ..body() }, &mut cache, later),
        strings(&["here"]));
    assert_eq!(cache.len(), 2);
    assert_eq!(names(SearchBody { q: Some("".to_string()), ..body() }, &mut cache, later),
        strings(&["here"]));
    assert_eq!(cache.len(), 1);
    let stats = cache.get_stats();
    assert_eq!(stats.hits + stats.misses + stats.invalidations, 0);
}

#[test]
fn key_listing_shows_sizes_newest_first() {
    let mut cache = Cache::new(16);
    put(&mut cache, "a", &["t"], None, 0, 10);
    put(&mut cache, "bb", &[], Some(100), 0, 30);
    put(&mut cache, "ccc", &[], Some(1), 0, 20);
    let lines = list_keys_handler(&mut cache, 50 * MS);
    let keys: Vec<&str> = lines.iter().map(|l| l.key.as_str()).collect();
    assert_eq!(keys, vec!["bb", "a"]);
    assert_eq!(lines[0].size, "value of bb".len());
    assert_eq!(lines[0].ttl, Some(50));
    assert_eq!(lines[0].created_ms, Some(30));
    assert_eq!(lines[1].size, "value of a".len());
    assert_eq!(lines[1].ttl, None);
    assert_eq!(lines[1].tags, strings(&["t"]));
    assert_eq!(cache.len(), 2);
}

#[test]
fn invalidate_tags_any_removes_every_carrier_once() {
    let mut cache = Cache::new(16);
    put(&mut cache, "x", &["a", "b"], None, 0, 1);
    put(&mut cache, "y", &["a"], None, 0, 2);
    put(&mut cache, "z", &["c"], None, 0, 3);
    let count = invalidate_tags_handler(
        &mut cache,
        InvalidateTagsBody { tags: strings(&["a", "b"]), mode: None },
        0,
    );
    assert_eq!(count, 2);
    assert_eq!(cache.len(), 1);
    let count = invalidate_tags_handler(
        &mut cache,
        InvalidateTagsBody { tags: strings(&["c"]), mode: Some("any".to_string()) },
        0,
    );
    assert_eq!(count, 1);
    assert_eq!(cache.get_stats().invalidations, 3);
}

#[test]
fn invalidate_tags_all_removes_only_the_intersection() {
    let mut cache = Cache::new(16);
    put(&mut cache, "x", &["a", "b"], None, 0, 1);
    put(&mut cache, "y", &["a"], None, 0, 2);
    put(&mut cache, "z", &["b", "a", "c"], None, 0, 3);
    let count = invalidate_tags_handler(
        &mut cache,
        InvalidateTagsBody { tags: strings(&["a", "b"]), mode: Some("all".to_string()) },
        0,
    );
    assert_eq!(count, 2);
    assert_eq!(names(body(), &mut cache, 0), strings(&["y"]));
    let count = invalidate_tags_handler(
        &mut cache,
        InvalidateTagsBody { tags: vec![], mode: Some("all".to_string()) },
        0,
    );
    assert_eq!(count, 0);
    let count = invalidate_tags_handler(
        &mut cache,
        InvalidateTagsBody { tags: strings(&["a"]), mode: Some("whatever".to_string()) },
        0,
    );
    assert_eq!(count, 1);
    assert_eq!(cache.len(), 0);
}
