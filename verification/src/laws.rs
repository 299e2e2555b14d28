//! What holds of the cache whatever it holds and whatever is asked of it.

use crate::cache::Cache;
use crate::model::CacheModel;
use crate::sets::with_tag;
use crate::shard::linked;
use crate::types::expired_at;
use vstd::prelude::*;

verus! {

/// One operation on the cache, with its arguments.
pub enum Op {
    Put {
        key: Seq<char>,
        value: Seq<char>,
        tags: Seq<Seq<char>>,
        ttl: Option<u128>,
        now: u128,
        wall_ms: Option<u64>,
    },
    Get { key: Seq<char>, now: u128 },
    InvalidateKey { key: Seq<char> },
    InvalidateTag { tag: Seq<char> },
    CleanupExpired { now: u128 },
    FlushAll,
}

/// The cache after one operation.
pub open spec fn apply(m: CacheModel, op: Op) -> CacheModel {
    match op {
        Op::Put { key, value, tags, ttl, now, wall_ms } => m.put(
            key,
            value,
            tags,
            ttl,
            now,
            wall_ms,
        ),
        Op::Get { key, now } => m.get(key, now),
        Op::InvalidateKey { key } => m.invalidate_key(key),
        Op::InvalidateTag { tag } => m.invalidate_tag(tag),
        Op::CleanupExpired { now } => m.cleanup_expired(now),
        Op::FlushAll => m.flush_all(),
    }
}

/// The cache after a run of operations, the first of them first.
pub open spec fn run(m: CacheModel, ops: Seq<Op>) -> CacheModel
    decreases ops.len(),
{
    if ops.len() == 0 {
        m
    } else {
        apply(run(m, ops.drop_last()), ops.last())
    }
}

/// The number of `get` calls in a run.
pub open spec fn gets_in(ops: Seq<Op>) -> nat
    decreases ops.len(),
{
    if ops.len() == 0 {
        0
    } else {
        gets_in(ops.drop_last()) + (if ops.last() is Get {
            1nat
        } else {
            0nat
        })
    }
}

/// The number of `put` calls in a run.
pub open spec fn puts_in(ops: Seq<Op>) -> nat
    decreases ops.len(),
{
    if ops.len() == 0 {
        0
    } else {
        puts_in(ops.drop_last()) + (if ops.last() is Put {
            1nat
        } else {
            0nat
        })
    }
}

/// What one operation reports as removed on request: one for a key that
/// was present, the count returned for a tag or a flush, nothing for
/// anything else.
pub open spec fn removed_by(m: CacheModel, op: Op) -> nat {
    match op {
        Op::InvalidateKey { key } => if m.entries.contains_key(key) {
            1nat
        } else {
            0nat
        },
        Op::InvalidateTag { tag } => m.tag_count(tag) as nat,
        Op::FlushAll => m.item_count() as nat,
        _ => 0nat,
    }
}

/// What the operations of a run report as removed on request, in all.
pub open spec fn removed_in(m: CacheModel, ops: Seq<Op>) -> nat
    decreases ops.len(),
{
    if ops.len() == 0 {
        0
    } else {
        removed_in(m, ops.drop_last()) + removed_by(run(m, ops.drop_last()), ops.last())
    }
}

/// In a cache that is well formed, every entry is listed in the reverse
/// index of its shard under each of its tags, every key that is listed
/// under a tag holds an entry that carries the tag, and every entry lies in
/// the shard that its key is routed to.
pub proof fn law_indexes_agree(cache: &Cache, key: Seq<char>, tag: Seq<char>)
    requires
        cache.wf(),
    ensures
        0 <= cache.shard_of(key) < cache.shard_count(),
        cache@.entries.contains_key(key) && cache@.entries[key].tags.contains(tag) ==> linked(
            cache.shard_index(cache.shard_of(key)),
            tag,
            key,
        ),
        forall|i: int|
            0 <= i < cache.shard_count() && linked(cache.shard_index(i), tag, key) ==> i
                == cache.shard_of(key) && cache@.entries.contains_key(key)
                && cache@.entries[key].tags.contains(tag),
{
    cache.lemma_shard_in_range(key);
    let s = cache.shard_of(key);
    cache.lemma_indexes_agree(s);
    if cache@.entries.contains_key(key) && cache@.entries[key].tags.contains(tag) {
        let tags = cache.shard_entries(s)[key].tags;
        let n = choose|n: int| 0 <= n < tags.len() && tags[n] == tag;
        assert(linked(cache.shard_index(s), cache.shard_entries(s)[key].tags[n], key));
    }
    assert forall|i: int|
        0 <= i < cache.shard_count() && linked(cache.shard_index(i), tag, key) implies i
        == cache.shard_of(key) && cache@.entries.contains_key(key)
        && cache@.entries[key].tags.contains(tag) by {
        cache.lemma_indexes_agree(i);
        assert(cache.shard_entries(i).contains_key(key));
    }
}

/// After a `put`, and as long as the new entry has not expired, `get`
/// returns the value that was put, and the key is among the keys of each of
/// its tags.
pub proof fn law_put_then_read(
    m: CacheModel,
    key: Seq<char>,
    value: Seq<char>,
    tags: Seq<Seq<char>>,
    ttl: Option<u128>,
    now: u128,
    wall_ms: Option<u64>,
    later: u128,
)
    requires
        !expired_at(now, ttl, later),
    ensures
        m.put(key, value, tags, ttl, now, wall_ms).lookup(key, later) == Some(value),
        forall|i: int|
            0 <= i < tags.len() ==> m.put(key, value, tags, ttl, now, wall_ms).keys_by_tag(
                #[trigger] tags[i],
                later,
            ).contains(key),
{
    let after = m.put(key, value, tags, ttl, now, wall_ms);
    assert forall|i: int| 0 <= i < tags.len() implies after.keys_by_tag(
        #[trigger] tags[i],
        later,
    ).contains(key) by {
        assert(after.entries[key].tags.contains(tags[i]));
    }
}

/// After `invalidate_key`, `get` finds nothing under the key at any time,
/// and the key is among the keys of no tag.
pub proof fn law_invalidated_key_is_gone(m: CacheModel, key: Seq<char>, tag: Seq<char>, now: u128)
    ensures
        m.invalidate_key(key).lookup(key, now) is None,
        !m.invalidate_key(key).keys_by_tag(tag, now).contains(key),
{
}

/// After `invalidate_tag`, the tag has no keys, and `get` finds nothing
/// under any key that carried it.
pub proof fn law_invalidated_tag_is_gone(m: CacheModel, tag: Seq<char>, key: Seq<char>, now: u128)
    ensures
        m.invalidate_tag(tag).keys_by_tag(tag, now) == Set::<Seq<char>>::empty(),
        with_tag(m.entries, tag).contains(key) ==> m.invalidate_tag(tag).lookup(key, now) is None,
{
    assert(m.invalidate_tag(tag).keys_by_tag(tag, now) =~= Set::<Seq<char>>::empty());
}

/// From a fresh cache, hits and misses together count the `get` calls, the
/// puts count the `put` calls, and the invalidations count what the
/// invalidations of keys, of tags and the flushes have reported as removed,
/// as long as each of these numbers fits in 64 bits.
pub proof fn law_counters_count(ops: Seq<Op>)
    requires
        gets_in(ops) <= u64::MAX,
        puts_in(ops) <= u64::MAX,
        removed_in(CacheModel::fresh(), ops) <= u64::MAX,
    ensures
        run(CacheModel::fresh(), ops).stats.hits + run(CacheModel::fresh(), ops).stats.misses
            == gets_in(ops),
        run(CacheModel::fresh(), ops).stats.puts == puts_in(ops),
        run(CacheModel::fresh(), ops).stats.invalidations == removed_in(CacheModel::fresh(), ops),
    decreases ops.len(),
{
    if ops.len() > 0 {
        law_counters_count(ops.drop_last());
    }
}

/// A `put` with a time-to-live followed at once by a `get` yields the value
/// that was put; a `get` after more than the time-to-live has passed
/// yields nothing.
pub proof fn law_round_trip(
    m: CacheModel,
    key: Seq<char>,
    value: Seq<char>,
    tags: Seq<Seq<char>>,
    ttl: u128,
    now: u128,
    wall_ms: Option<u64>,
    later: u128,
)
    ensures
        m.put(key, value, tags, Some(ttl), now, wall_ms).lookup(key, now) == Some(value),
        later > now && later - now > ttl ==> m.put(
            key,
            value,
            tags,
            Some(ttl),
            now,
            wall_ms,
        ).lookup(key, later) is None,
{
}

/// A second `invalidate_key` of the same key finds nothing to remove, and
/// a second `flush_all` returns zero.
pub proof fn law_second_removal_finds_nothing(m: CacheModel, key: Seq<char>)
    ensures
        !m.invalidate_key(key).entries.contains_key(key),
        m.invalidate_key(key).invalidate_key(key).entries == m.invalidate_key(key).entries,
        m.invalidate_key(key).invalidate_key(key).stats == m.invalidate_key(key).stats,
        m.flush_all().item_count() == 0,
{
    assert(m.invalidate_key(key).entries.remove(key) =~= m.invalidate_key(key).entries);
}

/// Whether an entry carries one of `tags`.
pub open spec fn carries_any(entry_tags: Seq<Seq<char>>, tags: Seq<Seq<char>>) -> bool {
    exists|i: int| 0 <= i < tags.len() && entry_tags.contains(#[trigger] tags[i])
}

/// After the invalidation of each of several tags in turn, the entries
/// that are gone are those that carried one of the tags.
pub proof fn law_invalidated_tags_are_gone(m: CacheModel, tags: Seq<Seq<char>>)
    ensures
        m.invalidate_tags(tags).entries == m.entries.remove_keys(
            Set::new(
                |k: Seq<char>| m.entries.contains_key(k) && carries_any(m.entries[k].tags, tags),
            ),
        ),
    decreases tags.len(),
{
    let gone = Set::new(
        |k: Seq<char>| m.entries.contains_key(k) && carries_any(m.entries[k].tags, tags),
    );
    if tags.len() == 0 {
        assert(m.entries.remove_keys(gone) =~= m.entries);
    } else {
        let before = tags.drop_last();
        law_invalidated_tags_are_gone(m, before);
        assert forall|k: Seq<char>| #[trigger]
            m.entries.contains_key(k) implies carries_any(m.entries[k].tags, tags) == (carries_any(
            m.entries[k].tags,
            before,
        ) || m.entries[k].tags.contains(tags.last())) by {
            let et = m.entries[k].tags;
            if carries_any(et, before) {
                let i = choose|i: int| 0 <= i < before.len() && et.contains(#[trigger] before[i]);
                assert(tags[i] == before[i]);
            }
            if et.contains(tags.last()) {
                assert(tags[tags.len() - 1] == tags.last());
            }
            if carries_any(et, tags) {
                let i = choose|i: int| 0 <= i < tags.len() && et.contains(#[trigger] tags[i]);
                if i < before.len() {
                    assert(before[i] == tags[i]);
                }
            }
        }
        assert(m.invalidate_tags(tags).entries =~= m.entries.remove_keys(gone));
    }
}

/// Caches that route alike send every key to the same shard: what an
/// operation leaves behind routes as the cache did before it.
pub proof fn law_routing_is_stable(before: &Cache, after: &Cache, key: Seq<char>)
    requires
        after.same_routing(before),
    ensures
        after.shard_of(key) == before.shard_of(key),
{
    assert(after.hash_of(key) == before.hash_of(key));
}

} // verus!
