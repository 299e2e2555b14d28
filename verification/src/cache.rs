//! The cache: a fixed number of shards, a keyed hasher that routes each key
//! to one of them, and the counters.

use crate::model::{opt_entry, opt_view, CacheModel};
use crate::sets::{
    clamp, expired_keys, lemma_concat_contains, lemma_push_contains, lemma_take_step,
    live_with_tag, with_tag,
};
use crate::shard::{
    bytes_in, bytes_of, lemma_bytes_add_up, lemma_bytes_agree, sole_carrier, sound, Shard,
};
use crate::store::{hash_with, keyed_hash, state_new, TagList};
use crate::types::{
    key_views, string_views, tag_views, CacheStats, Entry, EntryMeta, EntryView, Key, Tag,
};
use vstd::prelude::*;

verus! {

/// The cache. Its value as a mathematical object is a `CacheModel`: the
/// entries by key, and the counters.
#[derive(Debug)]
pub struct Cache {
    shards: Vec<Shard>,
    stats: CacheStats,
    hasher: ahash::RandomState,
}

impl View for Cache {
    type V = CacheModel;

    open spec fn view(&self) -> CacheModel {
        CacheModel { entries: self.entries(), stats: self.stats() }
    }
}

impl Cache {
    /// The number of shards, fixed when the cache is made.
    pub closed spec fn shard_count(&self) -> int {
        self.shards.len() as int
    }

    /// The hash that this cache gives to a key.
    pub closed spec fn hash_of(&self, key: Seq<char>) -> u64 {
        keyed_hash(self.hasher, key)
    }

    /// The shard that a key is routed to.
    pub open spec fn shard_of(&self, key: Seq<char>) -> int {
        (self.hash_of(key) as int) % self.shard_count()
    }

    /// Every entry of the cache, by key.
    pub closed spec fn entries(&self) -> Map<Seq<char>, EntryView> {
        Map::new(
            |k: Seq<char>| self.shards[self.shard_of(k)].entries().contains_key(k),
            |k: Seq<char>| self.shards[self.shard_of(k)].entries()[k],
        )
    }

    /// The entries whose keys are routed to shard `i`.
    pub open spec fn shard_entries(&self, i: int) -> Map<Seq<char>, EntryView> {
        self.entries().restrict(Set::new(|k: Seq<char>| self.shard_of(k) == i))
    }

    /// The tags that the reverse index of shard `i` has a set for. A set may
    /// be empty.
    pub closed spec fn shard_tags(&self, i: int) -> Set<Seq<char>> {
        self.shards[i].tags()
    }

    /// The reverse index of shard `i`: for each tag that it knows, the keys
    /// of the shard that are listed under it.
    pub closed spec fn shard_index(&self, i: int) -> Map<Seq<char>, Set<Seq<char>>> {
        self.shards[i].index()
    }

    /// The counters.
    pub closed spec fn stats(&self) -> CacheStats {
        self.stats
    }

    /// There is at least one shard, every entry is held by the shard that
    /// its key is routed to, and in every shard the forward and the reverse
    /// map say the same.
    pub closed spec fn wf(&self) -> bool {
        &&& self.shards.len() > 0
        &&& self.entries().dom().finite()
        &&& forall|i: int| 0 <= i < self.shards.len() ==> (#[trigger] self.shards[i]).wf()
        &&& forall|i: int, k: Seq<char>|
            0 <= i < self.shards.len() && #[trigger] self.shards[i].entries().contains_key(k)
                ==> self.shard_of(k) == i
    }

    /// Both caches route every key to the same shard.
    pub open spec fn same_routing(&self, other: &Cache) -> bool {
        &&& self.shard_count() == other.shard_count()
        &&& forall|k: Seq<char>| #[trigger] self.hash_of(k) == other.hash_of(k)
    }

    /// The reverse index is as in `other` in every shard but `s`.
    pub open spec fn same_tags_but_at(&self, other: &Cache, s: int) -> bool {
        forall|i: int|
            0 <= i < self.shard_count() && i != s ==> #[trigger] self.shard_tags(i)
                == other.shard_tags(i)
    }

    /// The reverse index is as in `other` in every shard.
    pub open spec fn same_tags(&self, other: &Cache) -> bool {
        forall|i: int|
            0 <= i < self.shard_count() ==> #[trigger] self.shard_tags(i) == other.shard_tags(i)
    }

    /// The keys of `keys` that are routed to a shard before shard `i`.
    pub open spec fn routed_below(&self, keys: Set<Seq<char>>, i: int) -> Set<Seq<char>> {
        keys.filter(|k: Seq<char>| self.shard_of(k) < i)
    }

    /// The keys of `keys` that are routed to shard `i`.
    pub open spec fn routed_to(&self, keys: Set<Seq<char>>, i: int) -> Set<Seq<char>> {
        keys.filter(|k: Seq<char>| self.shard_of(k) == i)
    }

    proof fn lemma_routed_step(&self, keys: Set<Seq<char>>, i: int)
        requires
            keys.finite(),
        ensures
            self.routed_below(keys, i).finite(),
            self.routed_to(keys, i).finite(),
            self.routed_below(keys, i + 1).len() == self.routed_below(keys, i).len()
                + self.routed_to(keys, i).len(),
    {
        let a = self.routed_below(keys, i);
        let b = self.routed_to(keys, i);
        vstd::set_lib::lemma_set_subset_finite(keys, a);
        vstd::set_lib::lemma_set_subset_finite(keys, b);
        assert(a.disjoint(b));
        assert(a + b =~= self.routed_below(keys, i + 1));
        vstd::set_lib::lemma_set_disjoint_lens(a, b);
    }

    proof fn lemma_routed_all(&self, keys: Set<Seq<char>>)
        requires
            self.shards.len() > 0,
        ensures
            self.routed_below(keys, 0) == Set::<Seq<char>>::empty(),
            self.routed_below(keys, self.shards.len() as int) == keys,
    {
        assert forall|k: Seq<char>| 0 <= #[trigger] self.shard_of(k) < self.shards.len() by {
            self.lemma_routed(k);
        }
        assert(self.routed_below(keys, 0) =~= Set::<Seq<char>>::empty());
        assert(self.routed_below(keys, self.shards.len() as int) =~= keys);
    }

    /// What a pass over all shards leaves, where each shard has lost its
    /// keys of `doomed` and nothing else.
    proof fn lemma_swept(&self, before: &Cache, doomed: Set<Seq<char>>)
        requires
            before.wf(),
            self.shards.len() == before.shards.len(),
            self.hasher == before.hasher,
            forall|j: int| 0 <= j < self.shards.len() ==> (#[trigger] self.shards[j]).wf(),
            forall|j: int|
                0 <= j < self.shards.len() ==> (#[trigger] self.shards[j]).entries()
                    == before.shards[j].entries().remove_keys(doomed),
        ensures
            self.wf(),
            self.same_routing(before),
            self.entries() == before.entries().remove_keys(doomed),
    {
        assert forall|k: Seq<char>| 0 <= #[trigger] self.shard_of(k) < self.shards.len() by {
            self.lemma_routed(k);
        }
        assert(self.entries() =~= before.entries().remove_keys(doomed));
        vstd::set_lib::lemma_set_subset_finite(before.entries().dom(), self.entries().dom());
    }

    /// In every shard the forward and the reverse map say the same: an
    /// entry is listed under each of its tags, and a key is listed under a
    /// tag only where its entry carries that tag. A shard knows the tags
    /// that its reverse map has a set for.
    pub proof fn lemma_indexes_agree(&self, i: int)
        requires
            self.wf(),
            0 <= i < self.shard_count(),
        ensures
            sound(self.shard_entries(i), self.shard_index(i)),
            self.shard_tags(i) == self.shard_index(i).dom(),
    {
        self.lemma_shard_holds(i);
    }

    /// A cache holds finitely many entries.
    pub proof fn lemma_finite(&self)
        requires
            self.wf(),
        ensures
            self@.entries.dom().finite(),
    {
    }

    proof fn lemma_shard_holds(&self, i: int)
        requires
            self.wf(),
            0 <= i < self.shards.len(),
        ensures
            self.shards[i].entries() == self.shard_entries(i),
    {
        assert(self.shards[i].entries() =~= self.shard_entries(i));
    }

    proof fn lemma_routed(&self, key: Seq<char>)
        requires
            self.shards.len() > 0,
        ensures
            0 <= self.shard_of(key) < self.shards.len(),
    {
    }

    /// Every key is routed to one of the shards.
    pub proof fn lemma_shard_in_range(&self, key: Seq<char>)
        requires
            self.wf(),
        ensures
            0 <= self.shard_of(key) < self.shard_count(),
    {
    }

    /// A cache of `num_shards` empty shards, with a hasher state of its
    /// own and all counters at zero.
    pub fn new(num_shards: usize) -> (cache: Cache)
        requires
            num_shards > 0,
        ensures
            cache.wf(),
            cache.shard_count() == num_shards,
            cache@ == CacheModel::fresh(),
            forall|i: int|
                0 <= i < num_shards ==> #[trigger] cache.shard_tags(i) == Set::<
                    Seq<char>,
                >::empty(),
    {
        let mut shards: Vec<Shard> = Vec::with_capacity(num_shards);
        let mut i: usize = 0;
        while i < num_shards
            invariant
                0 <= i <= num_shards,
                shards.len() == i,
                forall|n: int|
                    0 <= n < i ==> (#[trigger] shards[n]).wf() && shards[n].entries()
                        == Map::<Seq<char>, EntryView>::empty() && shards[n].tags() == Set::<
                        Seq<char>,
                    >::empty(),
            decreases num_shards - i,
        {
            shards.push(Shard::new());
            i = i + 1;
        }
        let cache = Cache { shards, stats: CacheStats::default(), hasher: state_new() };
        proof {
            assert forall|k: Seq<char>| !cache.entries().contains_key(k) by {
                cache.lemma_routed(k);
            }
            assert(cache.entries() =~= Map::<Seq<char>, EntryView>::empty());
        }
        cache
    }

    /// The index of the shard that `key` is routed to: its hash under this
    /// cache's hasher, modulo the number of shards.
    pub fn hash_key(&self, key: &Key) -> (i: usize)
        requires
            self.wf(),
        ensures
            i == self.shard_of(key@),
            0 <= i < self.shard_count(),
    {
        let hash: u64 = hash_with(&self.hasher, key.as_str());
        let n: usize = self.shards.len();
        (hash % (n as u64)) as usize
    }

    /// Stores `value` under `key` with `tags` and the time-to-live `ttl`,
    /// in place of what the key held before. `now` is the monotonic clock
    /// and `wall_ms` the wall clock at the time of the call.
    pub fn put(
        &mut self,
        key: Key,
        value: String,
        tags: Vec<Tag>,
        ttl: Option<u128>,
        now: u128,
        wall_ms: Option<u64>,
    )
        requires
            old(self).wf(),
        ensures
            final(self).wf(),
            final(self).same_routing(old(self)),
            final(self)@ == old(self)@.put(key@, value@, tag_views(tags@), ttl, now, wall_ms),
            final(self).same_tags_but_at(old(self), old(self).shard_of(key@)),
            forall|t: Seq<char>| #[trigger]
                final(self).shard_tags(old(self).shard_of(key@)).contains(t) == (tag_views(
                    tags@,
                ).contains(t) || (old(self).shard_tags(old(self).shard_of(key@)).contains(t)
                    && !sole_carrier(
                    old(self).shard_entries(old(self).shard_of(key@)),
                    t,
                    key@,
                ))),
    {
        let s = self.hash_key(&key);
        let entry = Entry {
            value,
            tags: TagList::from_vec(tags),
            created_at: now,
            ttl,
            created_system: wall_ms,
        };
        proof {
            self.lemma_shard_holds(s as int);
        }
        let ghost key_v = key@;
        self.shards[s].put(key, entry);
        self.stats.puts = self.stats.puts.wrapping_add(1);
        proof {
            assert(self.entries() =~= old(self).entries().insert(key_v, entry@));
        }
    }

    /// The value under `key`, where there is one that is not expired at
    /// `now`: a hit. An expired entry is removed, with its key taken out of
    /// the sets of its tags and sets left empty taken out of the reverse
    /// index: a miss, as is a key that holds nothing.
    pub fn get(&mut self, key: &Key, now: u128) -> (value: Option<String>)
        requires
            old(self).wf(),
        ensures
            final(self).wf(),
            final(self).same_routing(old(self)),
            opt_view(value) == old(self)@.lookup(key@, now),
            final(self)@ == old(self)@.get(key@, now),
            final(self).tags_after_read(old(self), key@, now),
    {
        match self.read(key, now, true) {
            Some(entry) => Some(entry.value),
            None => None,
        }
    }

    /// As `get`, with the whole entry in place of its value.
    pub fn get_entry(&mut self, key: &Key, now: u128) -> (found: Option<Entry>)
        requires
            old(self).wf(),
        ensures
            final(self).wf(),
            final(self).same_routing(old(self)),
            opt_entry(found) == old(self)@.entry_at(key@, now),
            final(self)@ == old(self)@.get(key@, now),
            final(self).tags_after_read(old(self), key@, now),
    {
        self.read(key, now, true)
    }

    /// The entry under `key`, where there is one that is not expired at
    /// `now`. An expired entry is removed as `get` removes it. No hit and no
    /// miss is counted.
    pub fn read_entry(&mut self, key: &Key, now: u128) -> (found: Option<Entry>)
        requires
            old(self).wf(),
        ensures
            final(self).wf(),
            final(self).same_routing(old(self)),
            opt_entry(found) == old(self)@.entry_at(key@, now),
            final(self)@ == old(self)@.expire(key@, now),
            final(self).tags_after_read(old(self), key@, now),
    {
        self.read(key, now, false)
    }

    /// As `read_entry`, without a copy of the value.
    pub fn read_meta(&mut self, key: &Key, now: u128) -> (found: Option<EntryMeta>)
        requires
            old(self).wf(),
        ensures
            final(self).wf(),
            final(self).same_routing(old(self)),
            found is Some == old(self)@.live(key@, now),
            found matches Some(meta) ==> meta.describes(old(self)@.entries[key@]),
            final(self)@ == old(self)@.expire(key@, now),
            final(self).tags_after_read(old(self), key@, now),
    {
        let s = self.hash_key(key);
        proof {
            self.lemma_shard_holds(s as int);
        }
        match self.shards[s].meta(key.as_str()) {
            Some(meta) => {
                if meta.is_expired(now) {
                    let _ = self.shards[s].remove(key.as_str(), true);
                    proof {
                        assert(self.entries() =~= old(self).entries().remove(key@));
                    }
                    None
                } else {
                    Some(meta)
                }
            },
            None => None,
        }
    }

    /// What a read leaves of the reverse index: where it has removed an
    /// expired entry, the tags that only that entry carried are gone from
    /// the shard of the key; all else is as it was.
    pub open spec fn tags_after_read(&self, before: &Cache, key: Seq<char>, now: u128) -> bool {
        &&& self.same_tags_but_at(before, before.shard_of(key))
        &&& forall|t: Seq<char>| #[trigger]
            self.shard_tags(before.shard_of(key)).contains(t) == (before.shard_tags(
                before.shard_of(key),
            ).contains(t) && !(before@.entries.contains_key(key) && before@.entries[key].is_expired(
                now,
            ) && sole_carrier(before.shard_entries(before.shard_of(key)), t, key)))
    }

    fn read(&mut self, key: &Key, now: u128, counted: bool) -> (found: Option<Entry>)
        requires
            old(self).wf(),
        ensures
            final(self).wf(),
            final(self).same_routing(old(self)),
            opt_entry(found) == old(self)@.entry_at(key@, now),
            final(self)@ == (if counted {
                old(self)@.get(key@, now)
            } else {
                old(self)@.expire(key@, now)
            }),
            final(self).tags_after_read(old(self), key@, now),
    {
        let s = self.hash_key(key);
        proof {
            self.lemma_shard_holds(s as int);
        }
        let found = self.shards[s].get(key.as_str());
        match found {
            Some(entry) => {
                if entry.is_expired(now) {
                    let _ = self.shards[s].remove(key.as_str(), true);
                    if counted {
                        self.stats.misses = self.stats.misses.wrapping_add(1);
                    }
                    proof {
                        assert(self.entries() =~= old(self).entries().remove(key@));
                    }
                    None
                } else {
                    if counted {
                        self.stats.hits = self.stats.hits.wrapping_add(1);
                    }
                    proof {
                        assert(self.entries() =~= old(self).entries());
                    }
                    Some(entry)
                }
            },
            None => {
                if counted {
                    self.stats.misses = self.stats.misses.wrapping_add(1);
                }
                proof {
                    assert(self.entries() =~= old(self).entries());
                    assert(old(self).entries().remove(key@) =~= old(self).entries());
                }
                None
            },
        }
    }

    /// Removes the entry under `key` and tells whether there was one. The
    /// key leaves the sets of its tags; sets left empty stay in the reverse
    /// index.
    pub fn invalidate_key(&mut self, key: &Key) -> (present: bool)
        requires
            old(self).wf(),
        ensures
            final(self).wf(),
            final(self).same_routing(old(self)),
            present == old(self)@.entries.contains_key(key@),
            final(self)@ == old(self)@.invalidate_key(key@),
            final(self).same_tags(old(self)),
    {
        let s = self.hash_key(key);
        proof {
            self.lemma_shard_holds(s as int);
        }
        let removed = self.shards[s].remove(key.as_str(), false);
        let present = removed.is_some();
        if present {
            self.stats.invalidations = self.stats.invalidations.wrapping_add(1);
        }
        proof {
            assert(self.entries() =~= old(self).entries().remove(key@));
            assert(self.shard_tags(s as int) =~= old(self).shard_tags(s as int));
        }
        present
    }

    /// The keys whose entries carry `tag` and are not expired at `now`,
    /// once each, in no particular order.
    pub fn get_keys_by_tag(&self, tag: &Tag, now: u128) -> (keys: Vec<Key>)
        requires
            self.wf(),
        ensures
            key_views(keys@).no_duplicates(),
            key_views(keys@).to_set() == self@.keys_by_tag(tag@, now),
    {
        let ghost wanted = live_with_tag(self.entries(), tag@, now);
        let mut result: Vec<Key> = Vec::new();
        let n: usize = self.shards.len();
        let mut i: usize = 0;
        while i < n
            invariant
                0 <= i <= n,
                n == self.shards.len(),
                self.wf(),
                wanted == live_with_tag(self.entries(), tag@, now),
                key_views(result@).no_duplicates(),
                forall|k: Seq<char>| #[trigger]
                    key_views(result@).contains(k) == (wanted.contains(k) && self.shard_of(k)
                        < i),
            decreases n - i,
        {
            let mut part = self.shards[i].keys_with_tag(tag.as_str(), now);
            let ghost before = key_views(result@);
            let ghost added = key_views(part@);
            proof {
                self.lemma_shard_holds(i as int);
                assert forall|a: int, b: int|
                    0 <= a < before.len() && 0 <= b < added.len() implies before[a]
                    != added[b] by {
                    assert(before.contains(before[a]));
                    assert(added.contains(added[b]));
                }
                vstd::seq_lib::lemma_no_dup_in_concat(before, added);
            }
            result.append(&mut part);
            proof {
                assert(key_views(result@) =~= before + added);
                assert forall|k: Seq<char>| #[trigger]
                    key_views(result@).contains(k) == (wanted.contains(k) && self.shard_of(k) < i
                        + 1) by {
                    lemma_concat_contains(before, added, k);
                }
            }
            i = i + 1;
        }
        proof {
            assert forall|k: Seq<char>| 0 <= #[trigger] self.shard_of(k) < n by {
                self.lemma_routed(k);
            }
            assert(key_views(result@).to_set() =~= wanted);
        }
        result
    }

    /// As `get_keys_by_tag`, with no more keys than `limit` where one is
    /// given. Which keys are left out is not specified.
    pub fn get_keys_by_tag_limited(&self, tag: &Tag, limit: Option<usize>, now: u128) -> (keys:
        Vec<Key>)
        requires
            self.wf(),
        ensures
            key_views(keys@).no_duplicates(),
            key_views(keys@).to_set().subset_of(self@.keys_by_tag(tag@, now)),
            keys.len() == (match limit {
                Some(n) if n < self@.keys_by_tag(tag@, now).len() => n as nat,
                _ => self@.keys_by_tag(tag@, now).len(),
            }),
    {
        let mut keys = self.get_keys_by_tag(tag, now);
        let ghost all = key_views(keys@);
        proof {
            all.unique_seq_to_set();
        }
        match limit {
            Some(n) => {
                if keys.len() > n {
                    keys.truncate(n);
                    proof {
                        assert(key_views(keys@) =~= all.take(n as int));
                        assert forall|k: Seq<char>|
                            key_views(keys@).to_set().contains(k) implies all.to_set().contains(
                            k,
                        ) by {
                            let i = choose|i: int|
                                0 <= i < key_views(keys@).len() && key_views(keys@)[i] == k;
                            assert(all[i] == k);
                        }
                    }
                }
            },
            None => {},
        }
        keys
    }

    /// Removes every entry that carries `tag`, whether expired or not, and
    /// returns how many there were. Each removed key leaves the sets of all
    /// its tags; sets left empty stay in the reverse index.
    pub fn invalidate_tag(&mut self, tag: &Tag) -> (count: usize)
        requires
            old(self).wf(),
        ensures
            final(self).wf(),
            final(self).same_routing(old(self)),
            count == old(self)@.tag_count(tag@),
            final(self)@ == old(self)@.invalidate_tag(tag@),
            final(self).same_tags(old(self)),
    {
        let ghost doomed = with_tag(old(self).entries(), tag@);
        proof {
            vstd::set_lib::lemma_set_subset_finite(old(self).entries().dom(), doomed);
            old(self).lemma_routed_all(doomed);
        }
        let n: usize = self.shards.len();
        let mut count: usize = 0;
        let mut i: usize = 0;
        while i < n
            invariant
                0 <= i <= n,
                n == self.shards.len(),
                n == old(self).shards.len(),
                self.hasher == old(self).hasher,
                self.stats == old(self).stats,
                old(self).wf(),
                doomed == with_tag(old(self).entries(), tag@),
                doomed.finite(),
                forall|j: int| 0 <= j < n ==> (#[trigger] self.shards[j]).wf(),
                forall|j: int|
                    0 <= j < n ==> (#[trigger] self.shards[j]).tags() == old(
                        self,
                    ).shards[j].tags(),
                forall|j: int|
                    0 <= j < i ==> (#[trigger] self.shards[j]).entries() == old(
                        self,
                    ).shards[j].entries().remove_keys(doomed),
                forall|j: int|
                    i <= j < n ==> (#[trigger] self.shards[j]).entries() == old(
                        self,
                    ).shards[j].entries(),
                count == clamp(old(self).routed_below(doomed, i as int).len()),
            decreases n - i,
        {
            let ghost held = self.shards[i as int].entries();
            let removed = self.shards[i].invalidate_tag(tag.as_str());
            proof {
                old(self).lemma_shard_holds(i as int);
                assert(with_tag(held, tag@) =~= old(self).routed_to(doomed, i as int));
                assert(held.remove_keys(with_tag(held, tag@)) =~= held.remove_keys(doomed));
                old(self).lemma_routed_step(doomed, i as int);
            }
            count = count.saturating_add(removed);
            i = i + 1;
        }
        self.stats.invalidations = self.stats.invalidations.wrapping_add(count as u64);
        proof {
            self.lemma_swept(old(self), doomed);
        }
        count
    }

    /// Removes every entry that is expired at `now` and returns how many
    /// there were. Each removed key leaves the sets of its tags; sets left
    /// empty stay in the reverse index. The counters do not change.
    pub fn cleanup_expired(&mut self, now: u128) -> (count: usize)
        requires
            old(self).wf(),
        ensures
            final(self).wf(),
            final(self).same_routing(old(self)),
            count == old(self)@.expired_count(now),
            final(self)@ == old(self)@.cleanup_expired(now),
            final(self).same_tags(old(self)),
    {
        let ghost doomed = expired_keys(old(self).entries(), now);
        proof {
            vstd::set_lib::lemma_set_subset_finite(old(self).entries().dom(), doomed);
            old(self).lemma_routed_all(doomed);
        }
        let n: usize = self.shards.len();
        let mut count: usize = 0;
        let mut i: usize = 0;
        while i < n
            invariant
                0 <= i <= n,
                n == self.shards.len(),
                n == old(self).shards.len(),
                self.hasher == old(self).hasher,
                self.stats == old(self).stats,
                old(self).wf(),
                doomed == expired_keys(old(self).entries(), now),
                doomed.finite(),
                forall|j: int| 0 <= j < n ==> (#[trigger] self.shards[j]).wf(),
                forall|j: int|
                    0 <= j < n ==> (#[trigger] self.shards[j]).tags() == old(
                        self,
                    ).shards[j].tags(),
                forall|j: int|
                    0 <= j < i ==> (#[trigger] self.shards[j]).entries() == old(
                        self,
                    ).shards[j].entries().remove_keys(doomed),
                forall|j: int|
                    i <= j < n ==> (#[trigger] self.shards[j]).entries() == old(
                        self,
                    ).shards[j].entries(),
                count == clamp(old(self).routed_below(doomed, i as int).len()),
            decreases n - i,
        {
            let ghost held = self.shards[i as int].entries();
            let removed = self.shards[i].sweep(now);
            proof {
                old(self).lemma_shard_holds(i as int);
                assert(expired_keys(held, now) =~= old(self).routed_to(doomed, i as int));
                assert(held.remove_keys(expired_keys(held, now)) =~= held.remove_keys(doomed));
                old(self).lemma_routed_step(doomed, i as int);
            }
            count = count.saturating_add(removed);
            i = i + 1;
        }
        proof {
            self.lemma_swept(old(self), doomed);
        }
        count
    }

    /// Removes every entry and every set of the reverse index, and returns
    /// how many entries there were.
    pub fn flush_all(&mut self) -> (count: usize)
        requires
            old(self).wf(),
        ensures
            final(self).wf(),
            final(self).same_routing(old(self)),
            count == old(self)@.item_count(),
            final(self)@ == old(self)@.flush_all(),
            forall|i: int|
                0 <= i < final(self).shard_count() ==> #[trigger] final(self).shard_tags(i)
                    == Set::<Seq<char>>::empty(),
    {
        let ghost doomed = old(self).entries().dom();
        proof {
            old(self).lemma_routed_all(doomed);
        }
        let n: usize = self.shards.len();
        let mut total: usize = 0;
        let mut i: usize = 0;
        while i < n
            invariant
                0 <= i <= n,
                n == self.shards.len(),
                n == old(self).shards.len(),
                self.hasher == old(self).hasher,
                self.stats == old(self).stats,
                old(self).wf(),
                doomed == old(self).entries().dom(),
                doomed.finite(),
                forall|j: int| 0 <= j < n ==> (#[trigger] self.shards[j]).wf(),
                forall|j: int|
                    0 <= j < i ==> (#[trigger] self.shards[j]).tags() == Set::<
                        Seq<char>,
                    >::empty(),
                forall|j: int|
                    0 <= j < i ==> (#[trigger] self.shards[j]).entries() == old(
                        self,
                    ).shards[j].entries().remove_keys(doomed),
                forall|j: int|
                    i <= j < n ==> (#[trigger] self.shards[j]).entries() == old(
                        self,
                    ).shards[j].entries(),
                total == clamp(old(self).routed_below(doomed, i as int).len()),
            decreases n - i,
        {
            let ghost held = self.shards[i as int].entries();
            let removed = self.shards[i].clear();
            proof {
                old(self).lemma_shard_holds(i as int);
                assert(held.dom() =~= old(self).routed_to(doomed, i as int));
                assert(Map::<Seq<char>, EntryView>::empty() =~= held.remove_keys(doomed));
                old(self).lemma_routed_step(doomed, i as int);
            }
            total = total.saturating_add(removed);
            i = i + 1;
        }
        self.stats.invalidations = self.stats.invalidations.wrapping_add(total as u64);
        proof {
            self.lemma_swept(old(self), doomed);
            assert(self.entries() =~= Map::<Seq<char>, EntryView>::empty());
        }
        total
    }

    /// Every key of the cache, expired or not, once each, in no particular
    /// order.
    pub fn keys(&self) -> (keys: Vec<Key>)
        requires
            self.wf(),
        ensures
            key_views(keys@).no_duplicates(),
            key_views(keys@).to_set() == self@.entries.dom(),
    {
        let mut result: Vec<Key> = Vec::new();
        let n: usize = self.shards.len();
        let mut i: usize = 0;
        while i < n
            invariant
                0 <= i <= n,
                n == self.shards.len(),
                self.wf(),
                key_views(result@).no_duplicates(),
                forall|k: Seq<char>| #[trigger]
                    key_views(result@).contains(k) == (self.entries().contains_key(k)
                        && self.shard_of(k) < i),
            decreases n - i,
        {
            let names = self.shards[i].keys();
            let ghost held = string_views(names@);
            proof {
                self.lemma_shard_holds(i as int);
            }
            let mut j: usize = 0;
            while j < names.len()
                invariant
                    0 <= j <= names.len(),
                    0 <= i < n,
                    n == self.shards.len(),
                    self.wf(),
                    held == string_views(names@),
                    held.no_duplicates(),
                    held.to_set() == self.shard_entries(i as int).dom(),
                    key_views(result@).no_duplicates(),
                    forall|k: Seq<char>| #[trigger]
                        key_views(result@).contains(k) == (self.entries().contains_key(k) && (
                        self.shard_of(k) < i || held.take(j as int).contains(k))),
                decreases names.len() - j,
            {
                let ghost before = key_views(result@);
                let ghost name = held[j as int];
                proof {
                    assert(name == names@[j as int]@);
                    assert forall|k: Seq<char>| #[trigger]
                        held.take(j + 1).contains(k) == (held.take(j as int).contains(k) || name
                            == k) by {
                        lemma_take_step(held, j as int, k);
                    }
                    assert(!held.take(j as int).contains(name)) by {
                        if held.take(j as int).contains(name) {
                            let m = choose|m: int|
                                0 <= m < held.take(j as int).len() && held.take(j as int)[m]
                                    == name;
                            assert(held[m] == held[j as int]);
                        }
                    }
                    assert(held.to_set().contains(held[j as int]));
                    assert forall|k: Seq<char>| #[trigger]
                        held.take(j as int).contains(k) implies held.to_set().contains(k) by {
                        let m = choose|m: int|
                            0 <= m < held.take(j as int).len() && held.take(j as int)[m] == k;
                        assert(held[m] == k);
                    }
                }
                result.push(Key(names[j].clone()));
                proof {
                    assert(key_views(result@) =~= before.push(name));
                    lemma_push_contains(before, name);
                }
                j = j + 1;
            }
            proof {
                assert(held.take(held.len() as int) =~= held);
                assert forall|k: Seq<char>| #[trigger]
                    key_views(result@).contains(k) == (self.entries().contains_key(k)
                        && self.shard_of(k) < i + 1) by {
                    if self.entries().contains_key(k) && self.shard_of(k) == i {
                        assert(self.shard_entries(i as int).dom().contains(k));
                        assert(held.to_set().contains(k));
                    }
                    if held.contains(k) {
                        assert(held.to_set().contains(k));
                    }
                }
            }
            i = i + 1;
        }
        proof {
            assert forall|k: Seq<char>| 0 <= #[trigger] self.shard_of(k) < n by {
                self.lemma_routed(k);
            }
            assert(key_views(result@).to_set() =~= self.entries().dom());
        }
        result
    }

    /// The number of entries, expired ones included, as far as it fits the
    /// machine's word.
    pub fn len(&self) -> (count: usize)
        requires
            self.wf(),
        ensures
            count == self@.item_count(),
    {
        let ghost all = self.entries().dom();
        proof {
            self.lemma_routed_all(all);
        }
        let n: usize = self.shards.len();
        let mut total: usize = 0;
        let mut i: usize = 0;
        while i < n
            invariant
                0 <= i <= n,
                n == self.shards.len(),
                self.wf(),
                all == self.entries().dom(),
                total == clamp(self.routed_below(all, i as int).len()),
            decreases n - i,
        {
            proof {
                self.lemma_shard_holds(i as int);
                assert(self.shards[i as int].entries().dom() =~= self.routed_to(all, i as int));
                self.lemma_routed_step(all, i as int);
            }
            total = total.saturating_add(self.shards[i].len());
            i = i + 1;
        }
        total
    }

    /// The number of shards.
    pub fn num_shards(&self) -> (n: usize)
        ensures
            n == self.shard_count(),
    {
        self.shards.len()
    }

    /// The number of entries in each shard, expired ones included.
    pub fn shard_items(&self) -> (counts: Vec<usize>)
        requires
            self.wf(),
        ensures
            counts.len() == self.shard_count(),
            forall|i: int|
                0 <= i < counts.len() ==> #[trigger] counts[i] == self.shard_entries(
                    i,
                ).dom().len(),
    {
        let mut counts: Vec<usize> = Vec::new();
        let n: usize = self.shards.len();
        let mut i: usize = 0;
        while i < n
            invariant
                0 <= i <= n,
                n == self.shards.len(),
                self.wf(),
                counts.len() == i,
                forall|j: int|
                    0 <= j < i ==> #[trigger] counts[j] == self.shard_entries(j).dom().len(),
            decreases n - i,
        {
            proof {
                self.lemma_shard_holds(i as int);
            }
            counts.push(self.shards[i].len());
            i = i + 1;
        }
        counts
    }

    /// The bytes of the values, shard by shard and in all, each sum as far
    /// as it fits the machine's word.
    pub fn byte_counts(&self) -> (counts: (Vec<usize>, usize))
        requires
            self.wf(),
        ensures
            counts.0.len() == self.shard_count(),
            forall|i: int|
                0 <= i < counts.0.len() ==> #[trigger] counts.0[i] == clamp(
                    bytes_in(self.shard_entries(i)),
                ),
            counts.1 == clamp(bytes_in(self@.entries)),
    {
        let ghost held = self.entries();
        let ghost all = held.dom();
        proof {
            self.lemma_routed_all(all);
            vstd::set::fold::lemma_fold_empty(0nat, crate::shard::add_size(held));
        }
        let n: usize = self.shards.len();
        let mut by_shard: Vec<usize> = Vec::new();
        let mut total: usize = 0;
        let mut i: usize = 0;
        while i < n
            invariant
                0 <= i <= n,
                n == self.shards.len(),
                self.wf(),
                held == self.entries(),
                all == held.dom(),
                by_shard.len() == i,
                forall|j: int|
                    0 <= j < i ==> #[trigger] by_shard[j] == clamp(
                        bytes_in(self.shard_entries(j)),
                    ),
                total == clamp(bytes_of(held, self.routed_below(all, i as int))),
            decreases n - i,
        {
            proof {
                let part = self.routed_to(all, i as int);
                let below = self.routed_below(all, i as int);
                self.lemma_shard_holds(i as int);
                self.lemma_routed_step(all, i as int);
                assert(self.shards[i as int].entries().dom() =~= part);
                assert(below.disjoint(part));
                assert(below + part =~= self.routed_below(all, i + 1));
                lemma_bytes_add_up(held, below, part);
                lemma_bytes_agree(self.shards[i as int].entries(), held, part);
            }
            let bytes = self.shards[i].bytes();
            by_shard.push(bytes);
            total = total.saturating_add(bytes);
            i = i + 1;
        }
        (by_shard, total)
    }

    /// The tags that the reverse index of some shard has a set for.
    pub open spec fn indexed_tags(&self) -> Set<Seq<char>> {
        self.tags_below(self.shard_count())
    }

    /// The tags that the reverse index of some shard before shard `i` has a
    /// set for.
    pub open spec fn tags_below(&self, i: int) -> Set<Seq<char>> {
        Set::new(|t: Seq<char>| exists|j: int| 0 <= j < i && #[trigger] self.shard_tags(j).contains(t))
    }

    fn known_below(&self, tag: &str, i: usize) -> (known: bool)
        requires
            i <= self.shards.len(),
        ensures
            known == self.tags_below(i as int).contains(tag@),
    {
        let mut j: usize = 0;
        while j < i
            invariant
                0 <= j <= i <= self.shards.len(),
                !self.tags_below(j as int).contains(tag@),
            decreases i - j,
        {
            if self.shards[j].has_tag(tag) {
                assert(self.shard_tags(j as int).contains(tag@));
                return true;
            }
            j = j + 1;
        }
        false
    }

    /// The number of distinct tags that the reverse index knows, over all
    /// shards. A tag whose set is empty counts.
    pub fn tag_total(&self) -> (count: usize)
        requires
            self.wf(),
        ensures
            self.indexed_tags().finite(),
            count == clamp(self.indexed_tags().len()),
    {
        let n: usize = self.shards.len();
        let mut count: usize = 0;
        let mut i: usize = 0;
        assert(self.tags_below(0) =~= Set::<Seq<char>>::empty());
        while i < n
            invariant
                0 <= i <= n,
                n == self.shards.len(),
                self.wf(),
                self.tags_below(i as int).finite(),
                count == clamp(self.tags_below(i as int).len()),
            decreases n - i,
        {
            let names = self.shards[i].tag_names();
            let ghost held = string_views(names@);
            let ghost below = self.tags_below(i as int);
            let mut j: usize = 0;
            assert(below + held.take(0).to_set() =~= below);
            while j < names.len()
                invariant
                    0 <= j <= names.len(),
                    0 <= i < n,
                    n == self.shards.len(),
                    held == string_views(names@),
                    held.no_duplicates(),
                    below == self.tags_below(i as int),
                    below.finite(),
                    (below + held.take(j as int).to_set()).finite(),
                    count == clamp((below + held.take(j as int).to_set()).len()),
                decreases names.len() - j,
            {
                let ghost name = held[j as int];
                let ghost acc = below + held.take(j as int).to_set();
                proof {
                    assert(name == names@[j as int]@);
                    assert forall|k: Seq<char>| #[trigger]
                        held.take(j + 1).contains(k) == (held.take(j as int).contains(k) || name
                            == k) by {
                        lemma_take_step(held, j as int, k);
                    }
                    assert(!held.take(j as int).contains(name)) by {
                        if held.take(j as int).contains(name) {
                            let m = choose|m: int|
                                0 <= m < held.take(j as int).len() && held.take(j as int)[m]
                                    == name;
                            assert(held[m] == held[j as int]);
                        }
                    }
                    assert(below + held.take(j + 1).to_set() =~= acc.insert(name));
                }
                if !self.known_below(names[j].as_str(), i) {
                    count = count.saturating_add(1);
                }
                j = j + 1;
            }
            proof {
                assert(held.take(held.len() as int) =~= held);
                assert(below + held.to_set() =~= self.tags_below(i + 1)) by {
                    assert forall|t: Seq<char>|
                        (below + held.to_set()).contains(t) == self.tags_below(i + 1).contains(
                            t,
                        ) by {
                        if held.to_set().contains(t) {
                            assert(self.shard_tags(i as int).contains(t));
                        }
                        if self.tags_below(i + 1).contains(t) {
                            let w = choose|w: int|
                                0 <= w < i + 1 && #[trigger] self.shard_tags(w).contains(t);
                            if w < i {
                                assert(below.contains(t));
                            }
                        }
                        if below.contains(t) {
                            let w = choose|w: int|
                                0 <= w < i && #[trigger] self.shard_tags(w).contains(t);
                            assert(self.shard_tags(w).contains(t));
                        }
                    }
                }
            }
            i = i + 1;
        }
        count
    }

    /// A copy of the counters.
    pub fn get_stats(&self) -> (stats: CacheStats)
        ensures
            stats == self@.stats,
    {
        self.stats
    }
}

} // verus!
