//! The requests and responses of the HTTP surface, and what each request
//! does to the cache. Reading a request off the wire and writing a response
//! onto it are the caller's part.

use crate::cache::Cache;
use crate::config::CacheConfig;
use crate::limits::{check_put, put_refusal, BadRequest};
use crate::text::non_empty;
use crate::sets::{clamp, lemma_take_step};
use crate::shard::bytes_in;
use crate::types::{
    key_views, remaining_ms_at, string_views, tag_views, CacheStats, EntryView, Key, Tag,
};
use vstd::prelude::*;

verus! {

/// The body of `POST /put`.
pub struct PutRequest {
    pub key: String,
    pub value: String,
    pub tags: Vec<String>,
    pub ttl_seconds: Option<u64>,
    pub ttl_ms: Option<u64>,
}

/// The answer to a write: the time-to-live that was used, in milliseconds.
pub struct PutResponse {
    pub ok: bool,
    pub ttl_ms: Option<u64>,
}

/// The answer of `GET /get/:key` for a key that holds a live entry.
pub struct GetResponse {
    pub value: String,
}

/// The query of `GET /keys-by-tag`.
pub struct KeysByTagQuery {
    pub tag: String,
    pub limit: Option<usize>,
}

/// The answer of `GET /keys-by-tag`.
pub struct KeysByTagResponse {
    pub keys: Vec<String>,
}

/// The body of `POST /invalidate-key`.
pub struct InvalidateKeyRequest {
    pub key: String,
}

/// The body of `POST /invalidate-tag`.
pub struct InvalidateTagRequest {
    pub tag: String,
}

/// The answer to an invalidation; `count` is given where entries are
/// counted.
pub struct InvalidateResponse {
    pub success: bool,
    pub count: Option<usize>,
}

/// The counters and the inventory of the cache. The hit ratio, a
/// floating-point figure, is computed from `hits` and `misses` by the
/// caller.
pub struct StatsResponse {
    pub hits: u64,
    pub misses: u64,
    pub puts: u64,
    pub invalidations: u64,
    pub items: usize,
    pub bytes: usize,
    pub tags: usize,
    pub shard_count: usize,
    pub shard_items: Vec<usize>,
    pub shard_bytes: Vec<usize>,
}

/// The body of an upsert by key. The value is the text to store.
pub struct KeyUpsertBody {
    pub value: String,
    pub ttl_ms: Option<u64>,
    pub tags: Option<Vec<String>>,
}

/// The answer of `GET /keys/:key`: the entry with the time it has left.
pub struct KeyMetadataResponse {
    pub key: String,
    pub value: String,
    pub ttl_ms: Option<u64>,
    pub tags: Vec<String>,
    pub created_ms: Option<u64>,
}

/// The body of `POST /keys/bulk/get` and `POST /keys/bulk/delete`.
pub struct BulkKeysBody {
    pub keys: Vec<String>,
}

/// One entry of the answer of `POST /keys/bulk/get`.
pub struct BulkGetItem {
    pub key: String,
    pub value: String,
    pub ttl_ms: Option<u64>,
    pub tags: Vec<String>,
    pub created_ms: Option<u64>,
}

/// The body of `POST /invalidate/keys`.
pub struct InvalidateKeysBody {
    pub keys: Vec<String>,
}

/// The tags with these names. An empty name is no tag.
pub fn tags_named(names: &Vec<String>) -> (tags: Vec<Tag>)
    ensures
        tag_views(tags@) == non_empty(string_views(names@)),
{
    let ghost all = string_views(names@);
    let mut tags: Vec<Tag> = Vec::new();
    let mut i: usize = 0;
    proof {
        assert(all.take(0) =~= Seq::<Seq<char>>::empty());
        assert(tag_views(tags@) =~= Seq::<Seq<char>>::empty());
    }
    while i < names.len()
        invariant
            0 <= i <= names.len(),
            all == string_views(names@),
            tag_views(tags@) == non_empty(all.take(i as int)),
        decreases names.len() - i,
    {
        let ghost before = tag_views(tags@);
        proof {
            assert(all.take(i + 1).drop_last() =~= all.take(i as int));
            assert(all.take(i + 1).last() == names@[i as int]@);
        }
        if !names[i].as_str().is_empty() {
            tags.push(Tag(names[i].clone()));
            proof {
                assert(tag_views(tags@) =~= before.push(names@[i as int]@));
            }
        }
        i = i + 1;
    }
    proof {
        assert(all.take(names.len() as int) =~= all);
    }
    tags
}

/// The names of these tags.
pub fn tag_names(tags: &Vec<Tag>) -> (names: Vec<String>)
    ensures
        string_views(names@) == tag_views(tags@),
{
    let mut names: Vec<String> = Vec::new();
    let mut i: usize = 0;
    while i < tags.len()
        invariant
            0 <= i <= tags.len(),
            string_views(names@) == tag_views(tags@).take(i as int),
        decreases tags.len() - i,
    {
        let ghost before = string_views(names@);
        names.push(tags[i].0.clone());
        proof {
            assert(string_views(names@) =~= before.push(tags@[i as int]@));
            assert(tag_views(tags@).take(i + 1) =~= before.push(tags@[i as int]@));
        }
        i = i + 1;
    }
    proof {
        assert(tag_views(tags@).take(tags.len() as int) =~= tag_views(tags@));
    }
    names
}

/// The names of these keys.
pub fn key_names(keys: &Vec<Key>) -> (names: Vec<String>)
    ensures
        string_views(names@) == key_views(keys@),
{
    let mut names: Vec<String> = Vec::new();
    let mut i: usize = 0;
    while i < keys.len()
        invariant
            0 <= i <= keys.len(),
            string_views(names@) == key_views(keys@).take(i as int),
        decreases keys.len() - i,
    {
        let ghost before = string_views(names@);
        names.push(keys[i].0.clone());
        proof {
            assert(string_views(names@) =~= before.push(keys@[i as int]@));
            assert(key_views(keys@).take(i + 1) =~= before.push(keys@[i as int]@));
        }
        i = i + 1;
    }
    proof {
        assert(key_views(keys@).take(keys.len() as int) =~= key_views(keys@));
    }
    names
}

/// The time-to-live that a put request asks for, in nanoseconds: that of
/// `ttl_ms` where it is given, else that of `ttl_seconds`.
pub open spec fn requested_ttl(ttl_ms: Option<u64>, ttl_seconds: Option<u64>) -> Option<u128> {
    match ttl_ms {
        Some(ms) => Some((ms * 1_000_000) as u128),
        None => match ttl_seconds {
            Some(secs) => Some((secs * 1_000_000_000) as u128),
            None => None,
        },
    }
}

/// A time-to-live in whole milliseconds, as far as they fit in 64 bits.
pub open spec fn whole_ms(ttl: Option<u128>) -> Option<u64> {
    match ttl {
        Some(ns) => Some(((ns / 1_000_000) % 0x1_0000_0000_0000_0000) as u64),
        None => None,
    }
}

fn ttl_of_request(ttl_ms: Option<u64>, ttl_seconds: Option<u64>) -> (ttl: Option<u128>)
    ensures
        ttl == requested_ttl(ttl_ms, ttl_seconds),
{
    match ttl_ms {
        Some(ms) => Some((ms as u128) * 1_000_000),
        None => match ttl_seconds {
            Some(secs) => Some((secs as u128) * 1_000_000_000),
            None => None,
        },
    }
}

fn ms_of_ttl(ttl: Option<u128>) -> (ms: Option<u64>)
    ensures
        ms == whole_ms(ttl),
{
    match ttl {
        Some(ns) => Some(((ns / 1_000_000) % 0x1_0000_0000_0000_0000) as u64),
        None => None,
    }
}

/// `POST /put`: stores the value with the tags that are not empty, and
/// answers with the time-to-live that was used, in milliseconds. A request
/// beyond the bounds is refused and changes nothing.
pub fn put_handler(
    cache: &mut Cache,
    limits: &CacheConfig,
    req: PutRequest,
    now: u128,
    wall_ms: Option<u64>,
) -> (res: Result<PutResponse, BadRequest>)
    requires
        old(cache).wf(),
    ensures
        final(cache).wf(),
        final(cache).same_routing(old(cache)),
        match put_refusal(*limits, req.key@, req.value@, non_empty(string_views(req.tags@))) {
            Some(refusal) => res == Err::<PutResponse, BadRequest>(refusal) && final(cache)@
                == old(cache)@,
            None => res matches Ok(r) && r.ok && r.ttl_ms == whole_ms(
                requested_ttl(req.ttl_ms, req.ttl_seconds),
            ) && final(cache)@ == old(cache)@.put(
                req.key@,
                req.value@,
                non_empty(string_views(req.tags@)),
                requested_ttl(req.ttl_ms, req.ttl_seconds),
                now,
                wall_ms,
            ),
        },
{
    let tags = tags_named(&req.tags);
    match check_put(limits, req.key.as_str(), req.value.as_str(), &tags) {
        Some(refusal) => Err(refusal),
        None => {
            let ttl = ttl_of_request(req.ttl_ms, req.ttl_seconds);
            cache.put(Key(req.key), req.value, tags, ttl, now, wall_ms);
            Ok(PutResponse { ok: true, ttl_ms: ms_of_ttl(ttl) })
        },
    }
}

/// The tags that an upsert names: those that are not empty; none where it
/// names none.
pub open spec fn upsert_tags(tags: Option<Vec<String>>) -> Seq<Seq<char>> {
    match tags {
        Some(names) => non_empty(string_views(names@)),
        None => Seq::empty(),
    }
}

/// `PUT /keys/:key`: stores the value under the key of the path, with the
/// tags that are not empty. A request beyond the bounds is refused and
/// changes nothing.
pub fn rest_put_key(
    cache: &mut Cache,
    limits: &CacheConfig,
    key: String,
    body: KeyUpsertBody,
    now: u128,
    wall_ms: Option<u64>,
) -> (res: Result<PutResponse, BadRequest>)
    requires
        old(cache).wf(),
    ensures
        final(cache).wf(),
        final(cache).same_routing(old(cache)),
        match put_refusal(*limits, key@, body.value@, upsert_tags(body.tags)) {
            Some(refusal) => res == Err::<PutResponse, BadRequest>(refusal) && final(cache)@
                == old(cache)@,
            None => res matches Ok(r) && r.ok && r.ttl_ms == whole_ms(
                requested_ttl(body.ttl_ms, None),
            ) && final(cache)@ == old(cache)@.put(
                key@,
                body.value@,
                upsert_tags(body.tags),
                requested_ttl(body.ttl_ms, None),
                now,
                wall_ms,
            ),
        },
{
    let tags: Vec<Tag> = match &body.tags {
        Some(names) => tags_named(names),
        None => Vec::new(),
    };
    proof {
        if body.tags is None {
            assert(tag_views(tags@) =~= Seq::<Seq<char>>::empty());
        }
    }
    match check_put(limits, key.as_str(), body.value.as_str(), &tags) {
        Some(refusal) => Err(refusal),
        None => {
            let ttl = ttl_of_request(body.ttl_ms, None);
            cache.put(Key(key), body.value, tags, ttl, now, wall_ms);
            Ok(PutResponse { ok: true, ttl_ms: ms_of_ttl(ttl) })
        },
    }
}

/// `GET /get/:key`: the value of a live entry; `None` stands for
/// "not found".
pub fn get_handler(cache: &mut Cache, key: String, now: u128) -> (res: Option<GetResponse>)
    requires
        old(cache).wf(),
    ensures
        final(cache).wf(),
        final(cache).same_routing(old(cache)),
        final(cache)@ == old(cache)@.get(key@, now),
        res is Some == old(cache)@.live(key@, now),
        res matches Some(r) ==> r.value@ == old(cache)@.entries[key@].value,
{
    match cache.get(&Key(key), now) {
        Some(value) => Some(GetResponse { value }),
        None => None,
    }
}

/// `POST /invalidate-key`: removes the entry under the key.
pub fn invalidate_key_handler(cache: &mut Cache, req: InvalidateKeyRequest) -> (res:
    InvalidateResponse)
    requires
        old(cache).wf(),
    ensures
        final(cache).wf(),
        final(cache).same_routing(old(cache)),
        final(cache)@ == old(cache)@.invalidate_key(req.key@),
        res.success == old(cache)@.entries.contains_key(req.key@),
        res.count is None,
{
    let success = cache.invalidate_key(&Key(req.key));
    InvalidateResponse { success, count: None }
}

/// `DELETE /keys/:key`: removes the entry under the key and tells whether
/// there was one.
pub fn rest_delete_key(cache: &mut Cache, key: String) -> (removed: bool)
    requires
        old(cache).wf(),
    ensures
        final(cache).wf(),
        final(cache).same_routing(old(cache)),
        final(cache)@ == old(cache)@.invalidate_key(key@),
        removed == old(cache)@.entries.contains_key(key@),
{
    cache.invalidate_key(&Key(key))
}

/// `POST /invalidate-tag`: removes every entry that carries the tag.
pub fn invalidate_tag_handler(cache: &mut Cache, req: InvalidateTagRequest) -> (res:
    InvalidateResponse)
    requires
        old(cache).wf(),
    ensures
        final(cache).wf(),
        final(cache).same_routing(old(cache)),
        final(cache)@ == old(cache)@.invalidate_tag(req.tag@),
        res.success == (old(cache)@.tag_count(req.tag@) > 0),
        res.count == Some(old(cache)@.tag_count(req.tag@)),
{
    let count = cache.invalidate_tag(&Tag(req.tag));
    InvalidateResponse { success: count > 0, count: Some(count) }
}

/// `POST /flush`: removes everything.
pub fn flush_handler(cache: &mut Cache) -> (res: InvalidateResponse)
    requires
        old(cache).wf(),
    ensures
        final(cache).wf(),
        final(cache).same_routing(old(cache)),
        final(cache)@ == old(cache)@.flush_all(),
        res.success,
        res.count == Some(old(cache)@.item_count()),
{
    let count = cache.flush_all();
    InvalidateResponse { success: true, count: Some(count) }
}

/// `GET /keys-by-tag`: the keys of the live entries that carry the tag,
/// once each and in no particular order; with a limit, no more of them than
/// the limit.
pub fn keys_by_tag_handler(cache: &Cache, query: KeysByTagQuery, now: u128) -> (res:
    KeysByTagResponse)
    requires
        cache.wf(),
    ensures
        string_views(res.keys@).no_duplicates(),
        string_views(res.keys@).to_set().subset_of(cache@.keys_by_tag(query.tag@, now)),
        res.keys.len() == (match query.limit {
            Some(limit) if limit < cache@.keys_by_tag(query.tag@, now).len() => limit as nat,
            _ => cache@.keys_by_tag(query.tag@, now).len(),
        }),
{
    let found = cache.get_keys_by_tag_limited(&Tag(query.tag), query.limit, now);
    let keys = key_names(&found);
    assert(string_views(keys@).len() == key_views(found@).len());
    KeysByTagResponse { keys }
}

impl BulkGetItem {
    /// Whether this item shows the entry `e` under `key` as it is at `now`.
    pub open spec fn shows(&self, key: Seq<char>, e: EntryView, now: u128) -> bool {
        &&& self.key@ == key
        &&& self.value@ == e.value
        &&& self.ttl_ms == e.remaining_ms(now)
        &&& string_views(self.tags@) == e.tags
        &&& self.created_ms == e.created_system
    }
}

impl KeyMetadataResponse {
    /// Whether this response shows the entry `e` under `key` as it is at
    /// `now`.
    pub open spec fn shows(&self, key: Seq<char>, e: EntryView, now: u128) -> bool {
        &&& self.key@ == key
        &&& self.value@ == e.value
        &&& self.ttl_ms == e.remaining_ms(now)
        &&& string_views(self.tags@) == e.tags
        &&& self.created_ms == e.created_system
    }
}

/// `GET /keys/:key`: the entry under the key with the time it has left;
/// `None` stands for "not found". An expired entry is removed. No hit and
/// no miss is counted.
pub fn rest_get_key(cache: &mut Cache, key: String, now: u128) -> (res: Option<
    KeyMetadataResponse,
>)
    requires
        old(cache).wf(),
    ensures
        final(cache).wf(),
        final(cache).same_routing(old(cache)),
        final(cache)@ == old(cache)@.expire(key@, now),
        res is Some == old(cache)@.live(key@, now),
        res matches Some(r) ==> r.shows(key@, old(cache)@.entries[key@], now),
{
    let found = cache.read_entry(&Key(key.clone()), now);
    match found {
        Some(entry) => {
            let tags = tag_names(&entry.tags.to_vec());
            Some(
                KeyMetadataResponse {
                    key,
                    ttl_ms: remaining_ms_at(entry.created_at, entry.ttl, now),
                    tags,
                    created_ms: entry.created_system,
                    value: entry.value,
                },
            )
        },
        None => None,
    }
}

/// The keys that the items are of, in order.
pub open spec fn item_keys(items: Seq<BulkGetItem>) -> Seq<Seq<char>> {
    Seq::new(items.len(), |i: int| items[i].key@)
}

/// `POST /keys/bulk/get`: each key goes through `get` in turn, and each
/// that holds a live entry gives an item; the others give nothing.
pub fn bulk_get_handler(cache: &mut Cache, body: BulkKeysBody, now: u128) -> (items: Vec<
    BulkGetItem,
>)
    requires
        old(cache).wf(),
    ensures
        final(cache).wf(),
        final(cache).same_routing(old(cache)),
        final(cache)@ == old(cache)@.get_each(string_views(body.keys@), now),
        item_keys(items@) == old(cache)@.live_among(string_views(body.keys@), now),
        forall|i: int|
            0 <= i < items.len() ==> (#[trigger] items[i]).shows(
                items[i].key@,
                old(cache)@.entries[items[i].key@],
                now,
            ),
{
    let ghost start = cache@;
    let ghost all = string_views(body.keys@);
    let mut items: Vec<BulkGetItem> = Vec::new();
    let mut i: usize = 0;
    proof {
        assert(all.take(0) =~= Seq::<Seq<char>>::empty());
        assert(item_keys(items@) =~= Seq::<Seq<char>>::empty());
    }
    while i < body.keys.len()
        invariant
            0 <= i <= body.keys.len(),
            cache.wf(),
            cache.same_routing(old(cache)),
            start == old(cache)@,
            all == string_views(body.keys@),
            cache@ == start.get_each(all.take(i as int), now),
            item_keys(items@) == start.live_among(all.take(i as int), now),
            forall|k: Seq<char>| #[trigger]
                start.live(k, now) ==> (cache@.entries.contains_key(k) && cache@.entries[k]
                    == start.entries[k]),
            forall|k: Seq<char>| #[trigger]
                cache@.entries.contains_key(k) ==> (start.entries.contains_key(k)
                    && cache@.entries[k] == start.entries[k]),
            forall|n: int|
                0 <= n < items.len() ==> (#[trigger] items[n]).shows(
                    items[n].key@,
                    start.entries[items[n].key@],
                    now,
                ),
        decreases body.keys.len() - i,
    {
        let name: &String = &body.keys[i];
        let ghost before = item_keys(items@);
        let ghost held = cache@;
        proof {
            assert(all[i as int] == name@);
            assert(all.take(i + 1).drop_last() =~= all.take(i as int));
            assert(all.take(i + 1).last() == name@);
            assert(start.live(name@, now) == held.live(name@, now));
        }
        match cache.get_entry(&Key(name.clone()), now) {
            Some(entry) => {
                let tags = tag_names(&entry.tags.to_vec());
                items.push(
                    BulkGetItem {
                        key: name.clone(),
                        ttl_ms: remaining_ms_at(entry.created_at, entry.ttl, now),
                        tags,
                        created_ms: entry.created_system,
                        value: entry.value,
                    },
                );
                proof {
                    assert(item_keys(items@) =~= before.push(name@));
                }
            },
            None => {},
        }
        i = i + 1;
    }
    proof {
        assert(all.take(all.len() as int) =~= all);
    }
    items
}

/// `POST /keys/bulk/delete` and `POST /invalidate/keys`: removes the entry
/// under each of the keys and returns how many of them held one.
pub fn bulk_delete_handler(cache: &mut Cache, keys: &Vec<String>) -> (count: usize)
    requires
        old(cache).wf(),
    ensures
        final(cache).wf(),
        final(cache).same_routing(old(cache)),
        final(cache)@ == old(cache)@.invalidate_keys(string_views(keys@).to_set()),
        count == old(cache)@.present_count(string_views(keys@).to_set()),
{
    let ghost start = cache@;
    let ghost all = string_views(keys@);
    let mut count: usize = 0;
    let mut i: usize = 0;
    proof {
        assert(all.take(0).to_set() =~= Set::<Seq<char>>::empty());
        assert(all.take(0).to_set().intersect(start.entries.dom()) =~= Set::<Seq<char>>::empty());
        assert(start.entries.remove_keys(Set::<Seq<char>>::empty()) =~= start.entries);
        cache.lemma_finite();
    }
    while i < keys.len()
        invariant
            0 <= i <= keys.len(),
            count <= i,
            cache.wf(),
            cache.same_routing(old(cache)),
            start == old(cache)@,
            start.entries.dom().finite(),
            all == string_views(keys@),
            cache@.entries == start.entries.remove_keys(all.take(i as int).to_set()),
            count == all.take(i as int).to_set().intersect(start.entries.dom()).len(),
            cache@.stats == (CacheStats {
                invalidations: start.stats.invalidations.wrapping_add(count as u64),
                ..start.stats
            }),
        decreases keys.len() - i,
    {
        let name: &String = &keys[i];
        let ghost done = all.take(i as int).to_set();
        proof {
            assert(all[i as int] == name@);
            assert forall|k: Seq<char>| #[trigger]
                all.take(i + 1).contains(k) == (all.take(i as int).contains(k) || name@ == k) by {
                lemma_take_step(all, i as int, k);
            }
            assert(all.take(i + 1).to_set() =~= done.insert(name@));
            vstd::set_lib::lemma_set_subset_finite(
                start.entries.dom(),
                done.intersect(start.entries.dom()),
            );
            if cache@.entries.contains_key(name@) {
                assert(done.insert(name@).intersect(start.entries.dom()) =~= done.intersect(
                    start.entries.dom(),
                ).insert(name@));
            } else {
                assert(done.insert(name@).intersect(start.entries.dom()) =~= done.intersect(
                    start.entries.dom(),
                ));
            }
        }
        if cache.invalidate_key(&Key(name.clone())) {
            count = count + 1;
        }
        proof {
            assert(cache@.entries =~= start.entries.remove_keys(all.take(i + 1).to_set()));
        }
        i = i + 1;
    }
    proof {
        assert(all.take(all.len() as int) =~= all);
    }
    count
}

/// `POST /invalidate/keys`: as `bulk_delete_handler`.
pub fn invalidate_keys_handler(cache: &mut Cache, body: InvalidateKeysBody) -> (count: usize)
    requires
        old(cache).wf(),
    ensures
        final(cache).wf(),
        final(cache).same_routing(old(cache)),
        final(cache)@ == old(cache)@.invalidate_keys(string_views(body.keys@).to_set()),
        count == old(cache)@.present_count(string_views(body.keys@).to_set()),
{
    bulk_delete_handler(cache, &body.keys)
}

/// `GET /stats`: the counters, the number of entries, the bytes of their
/// values, the number of distinct tags that the reverse index knows, and
/// items and bytes shard by shard. Expired entries that have not been
/// removed yet count.
pub fn stats_handler(cache: &Cache) -> (res: StatsResponse)
    requires
        cache.wf(),
    ensures
        res.hits == cache@.stats.hits,
        res.misses == cache@.stats.misses,
        res.puts == cache@.stats.puts,
        res.invalidations == cache@.stats.invalidations,
        res.items == cache@.item_count(),
        res.tags == clamp(cache.indexed_tags().len()),
        res.shard_count == cache.shard_count(),
        res.shard_items.len() == cache.shard_count(),
        res.shard_bytes.len() == cache.shard_count(),
        forall|i: int|
            0 <= i < cache.shard_count() ==> #[trigger] res.shard_items[i] == cache.shard_entries(
                i,
            ).dom().len(),
        forall|i: int|
            0 <= i < cache.shard_count() ==> #[trigger] res.shard_bytes[i] == clamp(
                bytes_in(cache.shard_entries(i)),
            ),
        res.bytes == clamp(bytes_in(cache@.entries)),
{
    let stats = cache.get_stats();
    let shard_items = cache.shard_items();
    let (shard_bytes, bytes) = cache.byte_counts();
    StatsResponse {
        hits: stats.hits,
        misses: stats.misses,
        puts: stats.puts,
        invalidations: stats.invalidations,
        items: cache.len(),
        bytes,
        tags: cache.tag_total(),
        shard_count: cache.num_shards(),
        shard_items,
        shard_bytes,
    }
}

} // verus!
