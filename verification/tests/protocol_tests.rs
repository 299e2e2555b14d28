use tagcache::cache::Cache;
use tagcache::config::{CacheConfig, TagCacheConfig};
use tagcache::limits::BadRequest;
use tagcache::protocol::{handle_line, parse_line, render, Command, Parsed, ProtocolError, Reply};

fn say(cache: &mut Cache, line: &str, now: u128) -> Option<String> {
    let limits = TagCacheConfig::default().cache;
    handle_line(cache, &limits, line, now, None).map(|r| render(&r))
}

fn say_within(cache: &mut Cache, limits: &CacheConfig, line: &str) -> Option<String> {
    handle_line(cache, limits, line, 0, None).map(|r| render(&r))
}

#[test]
fn put_beyond_the_bounds_is_refused() {
    let limits = CacheConfig {
        default_ttl_seconds: 0,
        max_tags_per_entry: 2,
        max_key_length: 4,
        max_value_length: 5,
    };
    let mut cache = Cache::new(4);
    assert_eq!(say_within(&mut cache, &limits, "PUT\tkey1\t-\ta,b\tvalue"), Some("OK".to_string()));
    assert_eq!(
        say_within(&mut cache, &limits, "PUT\tkey12\t-\t-\tv"),
        Some("ERR key_too_long".to_string())
    );
    assert_eq!(
        say_within(&mut cache, &limits, "PUT\tk\t-\t-\tvalue!"),
        Some("ERR value_too_long".to_string())
    );
    assert_eq!(
        say_within(&mut cache, &limits, "PUT\tk\t-\ta,b,c\tv"),
        Some("ERR too_many_tags".to_string())
    );
    assert_eq!(say_within(&mut cache, &limits, "PUT\tk\t-\ta,,b,\tv"), Some("OK".to_string()));
    // lengths are counted in bytes
    assert_eq!(
        say_within(&mut cache, &limits, "PUT\tключ\t-\t-\tv"),
        Some("ERR key_too_long".to_string())
    );
    assert_eq!(say_within(&mut cache, &limits, "PUT\tкл\t-\t-\tv"), Some("OK".to_string()));
    assert_eq!(say_within(&mut cache, &limits, "GET\tkey12"), Some("NF".to_string()));
    assert_eq!(cache.get_stats().puts, 3);
    assert_eq!(cache.len(), 3);
    assert_eq!(render(&Reply::Refused(BadRequest::MissingKey)), "ERR missing_key");
}

#[test]
fn simple_put_get_over_lines() {
    let mut cache = Cache::new(16);
    assert_eq!(say(&mut cache, "PUT\tfoo\t-\t-\thello\n", 0), Some("OK".to_string()));
    assert_eq!(say(&mut cache, "GET\tfoo\n", 0), Some("VALUE\thello".to_string()));
}

#[test]
fn tag_invalidation_over_lines() {
    let mut cache = Cache::new(16);
    assert_eq!(say(&mut cache, "PUT\ta\t-\tred,blue\tA", 0), Some("OK".to_string()));
    assert_eq!(say(&mut cache, "PUT\tb\t-\tred\tB", 0), Some("OK".to_string()));
    assert_eq!(say(&mut cache, "PUT\tc\t-\tblue\tC", 0), Some("OK".to_string()));
    assert_eq!(say(&mut cache, "INV_TAG\tred", 0), Some("INV_TAG\t2".to_string()));
    assert_eq!(say(&mut cache, "GET\ta", 0), Some("NF".to_string()));
    assert_eq!(say(&mut cache, "GET\tb", 0), Some("NF".to_string()));
    assert_eq!(say(&mut cache, "GET\tc", 0), Some("VALUE\tC".to_string()));
}

#[test]
fn ttl_expiry_over_lines() {
    let ms: u128 = 1_000_000;
    let mut cache = Cache::new(16);
    assert_eq!(say(&mut cache, "PUT\tk\t50\t-\tv", 0), Some("OK".to_string()));
    assert_eq!(say(&mut cache, "GET\tk", 20 * ms), Some("VALUE\tv".to_string()));
    assert_eq!(say(&mut cache, "GET\tk", 100 * ms), Some("NF".to_string()));
    assert_eq!(say(&mut cache, "STATS", 100 * ms), Some("STATS\t1\t1\t1\t0".to_string()));
}

#[test]
fn verbs_are_case_insensitive_arguments_are_not() {
    let mut cache = Cache::new(4);
    assert_eq!(say(&mut cache, "put\tKey\t-\t-\tv", 0), Some("OK".to_string()));
    assert_eq!(say(&mut cache, "Get\tKey", 0), Some("VALUE\tv".to_string()));
    assert_eq!(say(&mut cache, "gEt\tkey", 0), Some("NF".to_string()));
    assert_eq!(say(&mut cache, "keys_by_tag\tx", 0), Some("KEYS\t".to_string()));
    assert_eq!(say(&mut cache, "inv_tag\tx", 0), Some("INV_TAG\t0".to_string()));
    assert_eq!(say(&mut cache, "flush", 0), Some("FLUSH\t1".to_string()));
}

#[test]
fn empty_lines_get_no_reply() {
    let mut cache = Cache::new(4);
    assert_eq!(say(&mut cache, "", 0), None);
    assert_eq!(say(&mut cache, "\n", 0), None);
    assert_eq!(say(&mut cache, "\r\n", 0), None);
    assert_eq!(say(&mut cache, "\n\r\n\r", 0), None);
}

#[test]
fn carriage_return_is_stripped() {
    let mut cache = Cache::new(4);
    assert_eq!(say(&mut cache, "PUT\tk\t-\t-\tvalue\r\n", 0), Some("OK".to_string()));
    assert_eq!(say(&mut cache, "GET\tk\r\n", 0), Some("VALUE\tvalue".to_string()));
}

#[test]
fn errors_name_their_reason() {
    let mut cache = Cache::new(4);
    assert_eq!(say(&mut cache, "PUT", 0), Some("ERR missing_key".to_string()));
    assert_eq!(say(&mut cache, "PUT\t\t-\t-\tv", 0), Some("ERR missing_key".to_string()));
    assert_eq!(say(&mut cache, "GET", 0), Some("ERR missing_key".to_string()));
    assert_eq!(say(&mut cache, "DEL", 0), Some("ERR missing_key".to_string()));
    assert_eq!(say(&mut cache, "INV_TAG", 0), Some("ERR missing_tag".to_string()));
    assert_eq!(say(&mut cache, "KEYS", 0), Some("ERR missing_tag".to_string()));
    assert_eq!(say(&mut cache, "KEYS_BY_TAG", 0), Some("ERR missing_tag".to_string()));
    assert_eq!(say(&mut cache, "NOPE\tx", 0), Some("ERR unknown_command".to_string()));
    assert_eq!(say(&mut cache, " GET\tx", 0), Some("ERR unknown_command".to_string()));
    assert_eq!(cache.get_stats().puts, 0);
}

#[test]
fn del_says_whether_the_key_was_there() {
    let mut cache = Cache::new(4);
    assert_eq!(say(&mut cache, "PUT\tk\t-\t-\tv", 0), Some("OK".to_string()));
    assert_eq!(say(&mut cache, "DEL\tk", 0), Some("DEL ok".to_string()));
    assert_eq!(say(&mut cache, "DEL\tk", 0), Some("DEL nf".to_string()));
}

#[test]
fn keys_reply_lists_keys_with_commas() {
    let mut cache = Cache::new(4);
    assert_eq!(say(&mut cache, "PUT\tk1\t-\tt\tv", 0), Some("OK".to_string()));
    assert_eq!(say(&mut cache, "KEYS\tt", 0), Some("KEYS\tk1".to_string()));
    assert_eq!(say(&mut cache, "PUT\tk2\t-\tt\tv", 0), Some("OK".to_string()));
    let reply = say(&mut cache, "KEYS_BY_TAG\tt", 0).unwrap();
    assert!(reply == "KEYS\tk1,k2" || reply == "KEYS\tk2,k1");
}

#[test]
fn put_fields_are_parsed() {
    match parse_line("PUT\tkey\t1500\ta,,b,\tsome value\twith tab\n") {
        Parsed::Command(Command::Put { key, ttl_ms, tags, value }) => {
            assert_eq!(key.as_str(), "key");
            assert_eq!(ttl_ms, Some(1500));
            let names: Vec<&str> = tags.iter().map(|t| t.as_str()).collect();
            assert_eq!(names, vec!["a", "b"]);
            assert_eq!(value, "some value\twith tab");
        }
        other => panic!("not a put: {:?}", other),
    }
}

#[test]
fn put_with_missing_fields_takes_defaults() {
    match parse_line("PUT\tkey") {
        Parsed::Command(Command::Put { key, ttl_ms, tags, value }) => {
            assert_eq!(key.as_str(), "key");
            assert_eq!(ttl_ms, None);
            assert!(tags.is_empty());
            assert_eq!(value, "");
        }
        other => panic!("not a put: {:?}", other),
    }
    match parse_line("PUT\tkey\t\t\t") {
        Parsed::Command(Command::Put { ttl_ms, tags, value, .. }) => {
            assert_eq!(ttl_ms, None);
            assert!(tags.is_empty());
            assert_eq!(value, "");
        }
        other => panic!("not a put: {:?}", other),
    }
}

#[test]
fn ttl_that_is_no_number_means_no_expiry() {
    for field in ["abc", "-5", "1.5", "18446744073709551616", "+", " 5", "5 "] {
        let line = format!("PUT\tk\t{}\t-\tv", field);
        match parse_line(&line) {
            Parsed::Command(Command::Put { ttl_ms, .. }) => assert_eq!(ttl_ms, None, "{}", field),
            other => panic!("not a put: {:?}", other),
        }
    }
    for (field, want) in [("0", 0u64), ("+7", 7), ("007", 7), ("18446744073709551615", u64::MAX)] {
        let line = format!("PUT\tk\t{}\t-\tv", field);
        match parse_line(&line) {
            Parsed::Command(Command::Put { ttl_ms, .. }) => assert_eq!(ttl_ms, Some(want)),
            other => panic!("not a put: {:?}", other),
        }
    }
}

#[test]
fn get_takes_only_the_second_field() {
    match parse_line("GET\tfoo\tbar") {
        Parsed::Command(Command::Get { key }) => assert_eq!(key.as_str(), "foo"),
        other => panic!("not a get: {:?}", other),
    }
    match parse_line("GET\t") {
        Parsed::Command(Command::Get { key }) => assert_eq!(key.as_str(), ""),
        other => panic!("not a get: {:?}", other),
    }
}

#[test]
fn unknown_verb_is_an_error() {
    assert!(matches!(parse_line("HELLO"), Parsed::Error(ProtocolError::UnknownCommand)));
    assert!(matches!(parse_line("PUTS\tk"), Parsed::Error(ProtocolError::UnknownCommand)));
    assert!(matches!(parse_line("\n"), Parsed::Empty));
}

#[test]
fn replies_render_as_lines() {
    assert_eq!(render(&Reply::Stored), "OK");
    assert_eq!(render(&Reply::NotFound), "NF");
    assert_eq!(render(&Reply::Value("a b".to_string())), "VALUE\ta b");
    assert_eq!(render(&Reply::Deleted(true)), "DEL ok");
    assert_eq!(render(&Reply::Deleted(false)), "DEL nf");
    assert_eq!(render(&Reply::Invalidated(0)), "INV_TAG\t0");
    assert_eq!(render(&Reply::Invalidated(1234567890)), "INV_TAG\t1234567890");
    assert_eq!(render(&Reply::Flushed(100)), "FLUSH\t100");
    assert_eq!(render(&Reply::Keys(Vec::new())), "KEYS\t");
    assert_eq!(render(&Reply::Error(ProtocolError::MissingTag)), "ERR missing_tag");
}

#[test]
fn non_ascii_text_passes_through() {
    let mut cache = Cache::new(4);
    assert_eq!(say(&mut cache, "PUT\tключ\t-\tтег\tзначение ✓", 0), Some("OK".to_string()));
    assert_eq!(say(&mut cache, "GET\tключ", 0), Some("VALUE\tзначение ✓".to_string()));
    assert_eq!(say(&mut cache, "KEYS\tтег", 0), Some("KEYS\tключ".to_string()));
}
