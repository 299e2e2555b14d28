//! The cache as a mathematical value: a map from keys to entries and four
//! counters, with what each operation returns and leaves behind.

use crate::sets::{clamp, expired_keys, live_with_tag, with_tag};
use crate::types::{CacheStats, Entry, EntryView};
use vstd::prelude::*;

verus! {

/// The characters of an optional string.
pub open spec fn opt_view(s: Option<String>) -> Option<Seq<char>> {
    match s {
        Some(s) => Some(s@),
        None => None,
    }
}

/// What an optional entry is.
pub open spec fn opt_entry(e: Option<Entry>) -> Option<EntryView> {
    match e {
        Some(e) => Some(e@),
        None => None,
    }
}

/// The entry that a `put` stores.
pub open spec fn stored(
    value: Seq<char>,
    tags: Seq<Seq<char>>,
    ttl: Option<u128>,
    now: u128,
    wall_ms: Option<u64>,
) -> EntryView {
    EntryView { value, tags, created_at: now, ttl, created_system: wall_ms }
}

/// What a cache is: the entries by key, and the counters.
pub struct CacheModel {
    pub entries: Map<Seq<char>, EntryView>,
    pub stats: CacheStats,
}

impl CacheModel {
    /// A cache that holds nothing and has counted nothing.
    pub open spec fn fresh() -> CacheModel {
        CacheModel {
            entries: Map::empty(),
            stats: CacheStats { hits: 0, misses: 0, puts: 0, invalidations: 0 },
        }
    }

    /// Whether `key` holds an entry that is not expired at `now`.
    pub open spec fn live(self, key: Seq<char>, now: u128) -> bool {
        self.entries.contains_key(key) && !self.entries[key].is_expired(now)
    }

    /// After `put`: the key holds the new entry, whatever it held before,
    /// and one more put is counted.
    pub open spec fn put(
        self,
        key: Seq<char>,
        value: Seq<char>,
        tags: Seq<Seq<char>>,
        ttl: Option<u128>,
        now: u128,
        wall_ms: Option<u64>,
    ) -> CacheModel {
        CacheModel {
            entries: self.entries.insert(key, stored(value, tags, ttl, now, wall_ms)),
            stats: CacheStats { puts: self.stats.puts.wrapping_add(1), ..self.stats },
        }
    }

    /// What `get` returns: the value of a live entry.
    pub open spec fn lookup(self, key: Seq<char>, now: u128) -> Option<Seq<char>> {
        if self.live(key, now) {
            Some(self.entries[key].value)
        } else {
            None
        }
    }

    /// After `get`: a hit is counted for a live entry; otherwise a miss is
    /// counted and the key holds nothing, so that an expired entry is gone.
    pub open spec fn get(self, key: Seq<char>, now: u128) -> CacheModel {
        if self.live(key, now) {
            CacheModel {
                stats: CacheStats { hits: self.stats.hits.wrapping_add(1), ..self.stats },
                ..self
            }
        } else {
            CacheModel {
                entries: self.entries.remove(key),
                stats: CacheStats { misses: self.stats.misses.wrapping_add(1), ..self.stats },
            }
        }
    }

    /// The entry that a read finds: that of a live key.
    pub open spec fn entry_at(self, key: Seq<char>, now: u128) -> Option<EntryView> {
        if self.live(key, now) {
            Some(self.entries[key])
        } else {
            None
        }
    }

    /// After a read that is not counted: an expired entry under the key is
    /// gone, and nothing else has changed.
    pub open spec fn expire(self, key: Seq<char>, now: u128) -> CacheModel {
        if self.entries.contains_key(key) && self.entries[key].is_expired(now) {
            CacheModel { entries: self.entries.remove(key), ..self }
        } else {
            self
        }
    }

    /// What `get_keys_by_tag` returns, as a set: the keys of the live
    /// entries that carry the tag.
    pub open spec fn keys_by_tag(self, tag: Seq<char>, now: u128) -> Set<Seq<char>> {
        live_with_tag(self.entries, tag, now)
    }

    /// After `invalidate_key`: the key holds nothing, and an invalidation is
    /// counted where it held an entry, expired or not.
    pub open spec fn invalidate_key(self, key: Seq<char>) -> CacheModel {
        CacheModel {
            entries: self.entries.remove(key),
            stats: if self.entries.contains_key(key) {
                CacheStats {
                    invalidations: self.stats.invalidations.wrapping_add(1),
                    ..self.stats
                }
            } else {
                self.stats
            },
        }
    }

    /// What `invalidate_tag` returns: the number of entries that carry the
    /// tag, expired or not.
    pub open spec fn tag_count(self, tag: Seq<char>) -> usize {
        clamp(with_tag(self.entries, tag).len())
    }

    /// After `invalidate_tag`: every entry that carries the tag is gone,
    /// and as many invalidations are counted.
    pub open spec fn invalidate_tag(self, tag: Seq<char>) -> CacheModel {
        CacheModel {
            entries: self.entries.remove_keys(with_tag(self.entries, tag)),
            stats: CacheStats {
                invalidations: self.stats.invalidations.wrapping_add(self.tag_count(tag) as u64),
                ..self.stats
            },
        }
    }

    /// What `cleanup_expired` returns: the number of entries that are
    /// expired at `now`.
    pub open spec fn expired_count(self, now: u128) -> usize {
        clamp(expired_keys(self.entries, now).len())
    }

    /// After `cleanup_expired`: every entry that is expired at `now` is
    /// gone; nothing is counted.
    pub open spec fn cleanup_expired(self, now: u128) -> CacheModel {
        CacheModel { entries: self.entries.remove_keys(expired_keys(self.entries, now)), ..self }
    }

    /// After a run of `get` calls at one time, one for each of `keys` in
    /// turn.
    pub open spec fn get_each(self, keys: Seq<Seq<char>>, now: u128) -> CacheModel
        decreases keys.len(),
    {
        if keys.len() == 0 {
            self
        } else {
            self.get_each(keys.drop_last(), now).get(keys.last(), now)
        }
    }

    /// Those of `keys` that hold a live entry, in the order and as often as
    /// they stand in `keys`.
    pub open spec fn live_among(self, keys: Seq<Seq<char>>, now: u128) -> Seq<Seq<char>>
        decreases keys.len(),
    {
        if keys.len() == 0 {
            keys
        } else if self.live(keys.last(), now) {
            self.live_among(keys.drop_last(), now).push(keys.last())
        } else {
            self.live_among(keys.drop_last(), now)
        }
    }

    /// The number of keys of `keys` that hold an entry, expired or not.
    pub open spec fn present_count(self, keys: Set<Seq<char>>) -> usize {
        clamp(keys.intersect(self.entries.dom()).len())
    }

    /// After the invalidation of each key of `keys`: none of them holds
    /// anything, and one invalidation is counted for each that held an
    /// entry.
    pub open spec fn invalidate_keys(self, keys: Set<Seq<char>>) -> CacheModel {
        CacheModel {
            entries: self.entries.remove_keys(keys),
            stats: CacheStats {
                invalidations: self.stats.invalidations.wrapping_add(
                    self.present_count(keys) as u64,
                ),
                ..self.stats
            },
        }
    }

    /// After the invalidation of each of `tags` in turn.
    pub open spec fn invalidate_tags(self, tags: Seq<Seq<char>>) -> CacheModel
        decreases tags.len(),
    {
        if tags.len() == 0 {
            self
        } else {
            self.invalidate_tags(tags.drop_last()).invalidate_tag(tags.last())
        }
    }

    /// What the invalidations of each of `tags` in turn return, added up as
    /// far as the sum fits the machine's word. An entry that carries more
    /// than one of the tags is counted once, with the first of them.
    pub open spec fn tags_count(self, tags: Seq<Seq<char>>) -> usize
        decreases tags.len(),
    {
        if tags.len() == 0 {
            0
        } else {
            self.tags_count(tags.drop_last()).saturating_add(
                self.invalidate_tags(tags.drop_last()).tag_count(tags.last()),
            )
        }
    }

    /// What `flush_all` returns: the number of entries.
    pub open spec fn item_count(self) -> usize {
        clamp(self.entries.dom().len())
    }

    /// After `flush_all`: nothing is held, and as many invalidations are
    /// counted as there were entries.
    pub open spec fn flush_all(self) -> CacheModel {
        CacheModel {
            entries: Map::empty(),
            stats: CacheStats {
                invalidations: self.stats.invalidations.wrapping_add(self.item_count() as u64),
                ..self.stats
            },
        }
    }
}

} // verus!
