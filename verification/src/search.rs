//! Search over the cache: by tags, by key prefix, or the newest entries.

use crate::cache::Cache;
use crate::model::CacheModel;
use crate::order::{no_older, reorders, sort_newest_first};
use crate::sets::{lemma_push_contains, lemma_take_step};
use crate::types::{
    key_views, remaining_at, remaining_ms_at, string_views, tag_views, EntryMeta, EntryView, Key,
    Tag,
};
use vstd::prelude::*;
use vstd::std_specs::iter::IteratorSpec;

verus! {

/// The body of `POST /search`.
pub struct SearchBody {
    pub q: Option<String>,
    pub tag_any: Option<Vec<String>>,
    pub tag_all: Option<Vec<String>>,
    pub limit: Option<usize>,
}

/// One entry that a search has found.
pub struct SearchResultItem {
    pub key: String,
    pub ttl_ms: Option<u64>,
    pub tags: Vec<String>,
    pub created_ms: Option<u64>,
}

/// The answer of `POST /search`.
pub struct SearchResult {
    pub keys: Vec<SearchResultItem>,
}

impl SearchResultItem {
    /// Whether this item shows the entry `e` under `key` as it is at `now`.
    pub open spec fn shows(&self, key: Seq<char>, e: EntryView, now: u128) -> bool {
        &&& self.key@ == key
        &&& self.ttl_ms == e.remaining_ms(now)
        &&& string_views(self.tags@) == e.tags
        &&& self.created_ms == e.created_system
    }
}

/// The keys that the items are of, in order.
pub open spec fn result_keys(items: Seq<SearchResultItem>) -> Seq<Seq<char>> {
    Seq::new(items.len(), |i: int| items[i].key@)
}

/// Whether every one of `wanted` is among `tags`.
pub open spec fn has_all(tags: Seq<Seq<char>>, wanted: Seq<Seq<char>>) -> bool {
    forall|i: int| 0 <= i < wanted.len() ==> tags.contains(#[trigger] wanted[i])
}

/// Whether one of `wanted` is among `tags`.
pub open spec fn has_any(tags: Seq<Seq<char>>, wanted: Seq<Seq<char>>) -> bool {
    exists|i: int| 0 <= i < wanted.len() && tags.contains(#[trigger] wanted[i])
}

/// The live keys whose entries carry every one of `tags`.
pub open spec fn with_all_tags(m: CacheModel, tags: Seq<Seq<char>>, now: u128) -> Set<Seq<char>> {
    Set::new(|k: Seq<char>| m.live(k, now) && has_all(m.entries[k].tags, tags))
}

/// The live keys whose entries carry one of `tags`.
pub open spec fn with_any_tag(m: CacheModel, tags: Seq<Seq<char>>, now: u128) -> Set<Seq<char>> {
    Set::new(|k: Seq<char>| m.live(k, now) && has_any(m.entries[k].tags, tags))
}

/// The live keys that begin with `prefix`.
pub open spec fn with_prefix(m: CacheModel, prefix: Seq<char>, now: u128) -> Set<Seq<char>> {
    Set::new(|k: Seq<char>| m.live(k, now) && prefix.is_prefix_of(k))
}

/// The live keys.
pub open spec fn live_keys(m: CacheModel, now: u128) -> Set<Seq<char>> {
    Set::new(|k: Seq<char>| m.live(k, now))
}

/// The smaller of a limit and the size of a set.
pub open spec fn capped(limit: usize, found: Set<Seq<char>>) -> nat {
    if found.len() < limit {
        found.len()
    } else {
        limit as nat
    }
}

/// The items are of distinct keys of `found`, and each shows the entry of
/// its key.
pub open spec fn drawn_from(
    items: Seq<SearchResultItem>,
    found: Set<Seq<char>>,
    m: CacheModel,
    now: u128,
) -> bool {
    &&& result_keys(items).no_duplicates()
    &&& forall|i: int|
        0 <= i < items.len() ==> found.contains(#[trigger] result_keys(items)[i])
    &&& forall|i: int|
        0 <= i < items.len() ==> (#[trigger] items[i]).shows(
            items[i].key@,
            m.entries[items[i].key@],
            now,
        )
}

/// A list without repetition of members of a finite set is no longer than
/// the set is large, and as long where it lists every member.
pub proof fn lemma_list_within(list: Seq<Seq<char>>, found: Set<Seq<char>>)
    requires
        list.no_duplicates(),
        found.finite(),
        forall|i: int| 0 <= i < list.len() ==> found.contains(#[trigger] list[i]),
    ensures
        list.len() <= found.len(),
        (forall|k: Seq<char>| found.contains(k) ==> list.contains(k)) ==> list.len()
            == found.len(),
{
    list.unique_seq_to_set();
    assert(list.to_set().subset_of(found)) by {
        assert forall|k: Seq<char>| list.to_set().contains(k) implies found.contains(k) by {
            let i = choose|i: int| 0 <= i < list.len() && list[i] == k;
            assert(found.contains(list[i]));
        }
    }
    vstd::set_lib::lemma_len_subset(list.to_set(), found);
    if forall|k: Seq<char>| found.contains(k) ==> list.contains(k) {
        assert(list.to_set() =~= found);
    }
}

/// Whether `tags` holds every one of `wanted`.
fn covers(tags: &Vec<Tag>, wanted: &Vec<String>) -> (all: bool)
    ensures
        all == has_all(tag_views(tags@), string_views(wanted@)),
{
    let ghost have = tag_views(tags@);
    let ghost want = string_views(wanted@);
    let mut i: usize = 0;
    while i < wanted.len()
        invariant
            0 <= i <= wanted.len(),
            have == tag_views(tags@),
            want == string_views(wanted@),
            forall|n: int| 0 <= n < i ==> have.contains(#[trigger] want[n]),
        decreases wanted.len() - i,
    {
        let mut found = false;
        let mut j: usize = 0;
        while j < tags.len() && !found
            invariant
                0 <= j <= tags.len(),
                0 <= i < wanted.len(),
                have == tag_views(tags@),
                want == string_views(wanted@),
                found ==> have.contains(want[i as int]),
                !found ==> forall|n: int| 0 <= n < j ==> have[n] != want[i as int],
            decreases tags.len() - j + (if found { 0int } else { 1int }),
        {
            if tags[j].0 == wanted[i] {
                found = true;
                assert(have[j as int] == want[i as int]);
            } else {
                j = j + 1;
            }
        }
        if !found {
            assert(!have.contains(want[i as int]));
            return false;
        }
        i = i + 1;
    }
    true
}

/// Whether one of the items is of `key`.
fn listed(items: &Vec<SearchResultItem>, key: &String) -> (seen: bool)
    ensures
        seen == result_keys(items@).contains(key@),
{
    let ghost keys = result_keys(items@);
    let mut i: usize = 0;
    while i < items.len()
        invariant
            0 <= i <= items.len(),
            keys == result_keys(items@),
            forall|n: int| 0 <= n < i ==> keys[n] != key@,
        decreases items.len() - i,
    {
        if items[i].key == *key {
            assert(keys[i as int] == key@);
            return true;
        }
        i = i + 1;
    }
    false
}

/// The item that shows the entry that `meta` describes.
fn item_of(key: &Key, meta: EntryMeta, now: u128) -> (item: SearchResultItem)
    ensures
        item.key@ == key@,
        item.ttl_ms == remaining_at(meta.created_at, meta.ttl, now),
        string_views(item.tags@) == tag_views(meta.tags@),
        item.created_ms == meta.created_system,
{
    let mut names: Vec<String> = Vec::new();
    let mut i: usize = 0;
    while i < meta.tags.len()
        invariant
            0 <= i <= meta.tags.len(),
            string_views(names@) == tag_views(meta.tags@).take(i as int),
        decreases meta.tags.len() - i,
    {
        let ghost before = string_views(names@);
        names.push(meta.tags[i].0.clone());
        proof {
            assert(string_views(names@) =~= before.push(meta.tags@[i as int]@));
            assert(tag_views(meta.tags@).take(i + 1) =~= before.push(meta.tags@[i as int]@));
        }
        i = i + 1;
    }
    proof {
        assert(tag_views(meta.tags@).take(meta.tags.len() as int) =~= tag_views(meta.tags@));
    }
    SearchResultItem {
        key: key.0.clone(),
        ttl_ms: remaining_ms_at(meta.created_at, meta.ttl, now),
        tags: names,
        created_ms: meta.created_system,
    }
}

/// The live entries that carry every one of `tags`, of which there is at
/// least one: up to `limit` of them, in no particular order.
fn search_all_tags(cache: &mut Cache, tags: &Vec<String>, limit: usize, now: u128) -> (items:
    Vec<SearchResultItem>)
    requires
        old(cache).wf(),
        tags.len() > 0,
    ensures
        final(cache).wf(),
        final(cache).same_routing(old(cache)),
        final(cache)@ == old(cache)@,
        drawn_from(items@, with_all_tags(old(cache)@, string_views(tags@), now), old(cache)@, now),
        items.len() == capped(limit, with_all_tags(old(cache)@, string_views(tags@), now)),
{
    let ghost m = cache@;
    let ghost want = string_views(tags@);
    let ghost found = with_all_tags(m, want, now);
    let candidates = cache.get_keys_by_tag(&Tag(tags[0].clone()), now);
    let ghost all = key_views(candidates@);
    let mut items: Vec<SearchResultItem> = Vec::new();
    let mut i: usize = 0;
    proof {
        cache.lemma_finite();
        vstd::set_lib::lemma_set_subset_finite(m.entries.dom(), found);
        assert(result_keys(items@) =~= Seq::<Seq<char>>::empty());
        assert(want[0] == tags@[0]@);
    }
    while i < candidates.len() && items.len() < limit
        invariant
            0 <= i <= candidates.len(),
            cache.wf(),
            cache.same_routing(old(cache)),
            cache@ == m,
            m == old(cache)@,
            want == string_views(tags@),
            found == with_all_tags(m, want, now),
            found.finite(),
            all == key_views(candidates@),
            all.no_duplicates(),
            all.to_set() == m.keys_by_tag(want[0], now),
            want.len() > 0,
            items.len() <= limit,
            drawn_from(items@, found, m, now),
            forall|k: Seq<char>| #[trigger]
                result_keys(items@).contains(k) == (all.take(i as int).contains(k)
                    && found.contains(k)),
        decreases candidates.len() - i,
    {
        let key: &Key = &candidates[i];
        let ghost before = result_keys(items@);
        let ghost old_items = items@;
        proof {
            assert(all[i as int] == key@);
            assert forall|k: Seq<char>| #[trigger]
                all.take(i + 1).contains(k) == (all.take(i as int).contains(k) || key@ == k) by {
                lemma_take_step(all, i as int, k);
            }
            assert(!all.take(i as int).contains(key@)) by {
                if all.take(i as int).contains(key@) {
                    let n = choose|n: int|
                        0 <= n < all.take(i as int).len() && all.take(i as int)[n] == key@;
                    assert(all[n] == all[i as int]);
                }
            }
            assert(all.to_set().contains(all[i as int]));
        }
        match cache.read_meta(key, now) {
            Some(meta) => {
                if covers(&meta.tags, tags) {
                    let item = item_of(key, meta, now);
                    items.push(item);
                    proof {
                        assert(result_keys(items@) =~= before.push(key@));
                        lemma_push_contains(before, key@);
                        assert forall|n: int| 0 <= n < items.len() implies (#[trigger] items[n]).shows(
                            items[n].key@,
                            m.entries[items[n].key@],
                            now,
                        ) by {
                            if n < old_items.len() {
                                assert(items[n] == old_items[n]);
                            }
                        }
                        assert forall|n: int| 0 <= n < items.len() implies found.contains(
                            #[trigger] result_keys(items@)[n],
                        ) by {
                            if n < old_items.len() {
                                assert(result_keys(items@)[n] == result_keys(old_items)[n]);
                            }
                        }
                    }
                }
            },
            None => {},
        }
        i = i + 1;
    }
    proof {
        lemma_list_within(result_keys(items@), found);
        if items.len() < limit {
            assert(all.take(all.len() as int) =~= all);
            assert forall|k: Seq<char>| found.contains(k) implies result_keys(items@).contains(
                k,
            ) by {
                assert(m.entries[k].tags.contains(want[0]));
                assert(all.to_set().contains(k));
            }
        }
    }
    items
}

/// The place in `wanted`, at or after `from`, of the first tag that is
/// among `tags`; the length of `wanted` where there is none.
pub open spec fn first_hit(tags: Seq<Seq<char>>, wanted: Seq<Seq<char>>, from: int) -> int
    decreases wanted.len() - from,
{
    if from >= wanted.len() {
        wanted.len() as int
    } else if tags.contains(wanted[from]) {
        from
    } else {
        first_hit(tags, wanted, from + 1)
    }
}

/// Where none of the first `t` wanted tags is among `tags` and the next one
/// is, that one is the first hit.
pub proof fn lemma_first_hit(tags: Seq<Seq<char>>, wanted: Seq<Seq<char>>, t: int, from: int)
    requires
        0 <= from <= t < wanted.len(),
        !has_any(tags, wanted.take(t)),
        tags.contains(wanted[t]),
    ensures
        first_hit(tags, wanted, from) == t,
    decreases t - from,
{
    if from < t {
        assert(wanted.take(t)[from] == wanted[from]);
        lemma_first_hit(tags, wanted, t, from + 1);
    }
}

/// Whether the items stand in the order in which their entries are first
/// found by the wanted tags: an entry that carries an earlier tag stands
/// before one that carries only later ones.
pub open spec fn first_seen_order(
    items: Seq<SearchResultItem>,
    m: CacheModel,
    wanted: Seq<Seq<char>>,
) -> bool {
    forall|a: int, b: int|
        0 <= a <= b < items.len() ==> first_hit(
            m.entries[#[trigger] result_keys(items)[a]].tags,
            wanted,
            0,
        ) <= first_hit(m.entries[#[trigger] result_keys(items)[b]].tags, wanted, 0)
}

/// One more wanted tag is found among `tags` where the tags before it
/// are, or where it is itself.
pub proof fn lemma_has_any_step(tags: Seq<Seq<char>>, wanted: Seq<Seq<char>>, t: int)
    requires
        0 <= t < wanted.len(),
    ensures
        has_any(tags, wanted.take(t + 1)) == (has_any(tags, wanted.take(t)) || tags.contains(
            wanted[t],
        )),
{
    let shorter = wanted.take(t);
    let longer = wanted.take(t + 1);
    if has_any(tags, shorter) {
        let i = choose|i: int| 0 <= i < shorter.len() && tags.contains(#[trigger] shorter[i]);
        assert(longer[i] == shorter[i]);
    }
    if tags.contains(wanted[t]) {
        assert(longer[t] == wanted[t]);
    }
    if has_any(tags, longer) {
        let i = choose|i: int| 0 <= i < longer.len() && tags.contains(#[trigger] longer[i]);
        if i < t {
            assert(shorter[i] == longer[i]);
        }
    }
}

/// The live entries that carry one of `tags`: up to `limit` of them, those
/// of an earlier tag before those of a later one.
pub fn search_any_tag(cache: &mut Cache, tags: &Vec<String>, limit: usize, now: u128) -> (items:
    Vec<SearchResultItem>)
    requires
        old(cache).wf(),
    ensures
        final(cache).wf(),
        final(cache).same_routing(old(cache)),
        final(cache)@ == old(cache)@,
        drawn_from(items@, with_any_tag(old(cache)@, string_views(tags@), now), old(cache)@, now),
        items.len() == capped(limit, with_any_tag(old(cache)@, string_views(tags@), now)),
        first_seen_order(items@, old(cache)@, string_views(tags@)),
{
    let ghost m = cache@;
    let ghost want = string_views(tags@);
    let ghost found = with_any_tag(m, want, now);
    let mut items: Vec<SearchResultItem> = Vec::new();
    let mut t: usize = 0;
    proof {
        cache.lemma_finite();
        vstd::set_lib::lemma_set_subset_finite(m.entries.dom(), found);
        assert(result_keys(items@) =~= Seq::<Seq<char>>::empty());
    }
    while t < tags.len() && items.len() < limit
        invariant
            0 <= t <= tags.len(),
            cache.wf(),
            cache.same_routing(old(cache)),
            cache@ == m,
            m == old(cache)@,
            want == string_views(tags@),
            found == with_any_tag(m, want, now),
            found.finite(),
            items.len() <= limit,
            drawn_from(items@, found, m, now),
            first_seen_order(items@, m, want),
            forall|n: int|
                0 <= n < items.len() ==> first_hit(
                    m.entries[#[trigger] result_keys(items@)[n]].tags,
                    want,
                    0,
                ) < t,
            items.len() < limit ==> forall|k: Seq<char>| #[trigger]
                result_keys(items@).contains(k) == (m.live(k, now) && has_any(
                    m.entries[k].tags,
                    want.take(t as int),
                )),
        decreases tags.len() - t,
    {
        let keys = cache.get_keys_by_tag(&Tag(tags[t].clone()), now);
        let ghost all = key_views(keys@);
        let ghost tag = want[t as int];
        let mut j: usize = 0;
        proof {
            assert(tag == tags@[t as int]@);
        }
        while j < keys.len() && items.len() < limit
            invariant
                0 <= j <= keys.len(),
                0 <= t < tags.len(),
                cache.wf(),
                cache.same_routing(old(cache)),
                cache@ == m,
                m == old(cache)@,
                want == string_views(tags@),
                tag == want[t as int],
                found == with_any_tag(m, want, now),
                all == key_views(keys@),
                all.no_duplicates(),
                all.to_set() == m.keys_by_tag(tag, now),
                items.len() <= limit,
                drawn_from(items@, found, m, now),
                first_seen_order(items@, m, want),
                forall|n: int|
                    0 <= n < items.len() ==> first_hit(
                        m.entries[#[trigger] result_keys(items@)[n]].tags,
                        want,
                        0,
                    ) <= t,
                forall|k: Seq<char>| #[trigger]
                    result_keys(items@).contains(k) == (m.live(k, now) && (has_any(
                        m.entries[k].tags,
                        want.take(t as int),
                    ) || all.take(j as int).contains(k))),
            decreases keys.len() - j,
        {
            let key: &Key = &keys[j];
            let ghost before = result_keys(items@);
            let ghost old_items = items@;
            proof {
                assert(all[j as int] == key@);
                assert forall|k: Seq<char>| #[trigger]
                    all.take(j + 1).contains(k) == (all.take(j as int).contains(k) || key@
                        == k) by {
                    lemma_take_step(all, j as int, k);
                }
                assert(all.to_set().contains(all[j as int]));
                assert(m.entries[key@].tags.contains(want[t as int]));
                assert(has_any(m.entries[key@].tags, want));
                assert forall|k: Seq<char>| #[trigger]
                    all.take(j as int).contains(k) implies all.to_set().contains(k) by {
                    let n = choose|n: int|
                        0 <= n < all.take(j as int).len() && all.take(j as int)[n] == k;
                    assert(all[n] == k);
                }
            }
            if !listed(&items, &key.0) {
                match cache.read_meta(key, now) {
                    Some(meta) => {
                        let item = item_of(key, meta, now);
                        items.push(item);
                        proof {
                            assert(result_keys(items@) =~= before.push(key@));
                            lemma_push_contains(before, key@);
                            assert(!has_any(m.entries[key@].tags, want.take(t as int)));
                            lemma_first_hit(m.entries[key@].tags, want, t as int, 0);
                            assert forall|a: int, b: int|
                                0 <= a <= b < items.len() implies first_hit(
                                m.entries[#[trigger] result_keys(items@)[a]].tags,
                                want,
                                0,
                            ) <= first_hit(
                                m.entries[#[trigger] result_keys(items@)[b]].tags,
                                want,
                                0,
                            ) by {
                                if b < old_items.len() {
                                    assert(result_keys(items@)[a] == result_keys(old_items)[a]);
                                    assert(result_keys(items@)[b] == result_keys(old_items)[b]);
                                } else if a < old_items.len() {
                                    assert(result_keys(items@)[a] == result_keys(old_items)[a]);
                                }
                            }
                            assert forall|n: int| 0 <= n < items.len() implies first_hit(
                                m.entries[#[trigger] result_keys(items@)[n]].tags,
                                want,
                                0,
                            ) <= t by {
                                if n < old_items.len() {
                                    assert(result_keys(items@)[n] == result_keys(old_items)[n]);
                                }
                            }
                            assert forall|n: int| 0 <= n < items.len() implies (
                            #[trigger] items[n]).shows(
                                items[n].key@,
                                m.entries[items[n].key@],
                                now,
                            ) by {
                                if n < old_items.len() {
                                    assert(items[n] == old_items[n]);
                                }
                            }
                            assert forall|n: int| 0 <= n < items.len() implies found.contains(
                                #[trigger] result_keys(items@)[n],
                            ) by {
                                if n < old_items.len() {
                                    assert(result_keys(items@)[n] == result_keys(old_items)[n]);
                                }
                            }
                        }
                    },
                    None => {},
                }
            }
            j = j + 1;
        }
        proof {
            if items.len() < limit {
                assert(all.take(all.len() as int) =~= all);
                assert forall|k: Seq<char>| #[trigger]
                    result_keys(items@).contains(k) == (m.live(k, now) && has_any(
                        m.entries[k].tags,
                        want.take(t + 1),
                    )) by {
                    lemma_has_any_step(m.entries[k].tags, want, t as int);
                    if m.live(k, now) && m.entries[k].tags.contains(tag) {
                        assert(all.to_set().contains(k));
                    }
                    if all.contains(k) {
                        assert(all.to_set().contains(k));
                    }
                }
            }
        }
        t = t + 1;
    }
    proof {
        lemma_list_within(result_keys(items@), found);
        if items.len() < limit {
            assert(want.take(want.len() as int) =~= want);
        }
    }
    items
}

/// Whether a text begins with the characters of `prefix`.
pub fn has_prefix(text: &str, prefix: &Vec<char>) -> (yes: bool)
    ensures
        yes == prefix@.is_prefix_of(text@),
{
    broadcast use vstd::string::group_string_axioms;

    let mut it = text.chars();
    let mut i: usize = 0;
    assert(text@.skip(0) =~= text@);
    while i < prefix.len()
        invariant
            0 <= i <= prefix.len(),
            i <= text@.len(),
            it.remaining() == text@.skip(i as int),
            prefix@.take(i as int) == text@.take(i as int),
        decreases prefix.len() - i,
    {
        match it.next() {
            Some(c) => {
                assert(c == text@[i as int]);
                if c != prefix[i] {
                    assert(!prefix@.is_prefix_of(text@)) by {
                        if prefix@.is_prefix_of(text@) {
                            assert(text@.subrange(0, prefix@.len() as int)[i as int]
                                == prefix@[i as int]);
                        }
                    }
                    return false;
                }
                assert(text@.skip(i as int).drop_first() =~= text@.skip(i + 1));
                assert(prefix@.take(i + 1) =~= prefix@.take(i as int).push(prefix@[i as int]));
                assert(text@.take(i + 1) =~= text@.take(i as int).push(text@[i as int]));
            },
            None => {
                assert(text@.len() == i);
                return false;
            },
        }
        i = i + 1;
    }
    proof {
        assert(prefix@.take(prefix@.len() as int) =~= prefix@);
        assert(text@.take(i as int) =~= text@.subrange(0, prefix@.len() as int));
    }
    true
}

/// What a scan that looks at entries at `now` may have done to the cache:
/// entries that were expired may be gone, and nothing else has changed.
pub open spec fn shed_expired(after: CacheModel, before: CacheModel, now: u128) -> bool {
    &&& after.stats == before.stats
    &&& forall|k: Seq<char>| #[trigger]
        after.entries.contains_key(k) ==> (before.entries.contains_key(k) && after.entries[k]
            == before.entries[k])
    &&& forall|k: Seq<char>| #[trigger]
        before.live(k, now) ==> after.entries.contains_key(k)
}

/// The expired entries whose keys begin with `prefix`.
pub open spec fn expired_with_prefix(m: CacheModel, prefix: Seq<char>, now: u128) -> Set<
    Seq<char>,
> {
    Set::new(
        |k: Seq<char>|
            m.entries.contains_key(k) && m.entries[k].is_expired(now) && prefix.is_prefix_of(k),
    )
}

/// The live entries whose keys begin with `prefix`: up to `limit` of them,
/// in no particular order. Expired entries whose keys begin with `prefix`
/// are removed as the scan comes across them: all of them where the scan
/// does not end early for the limit.
pub fn search_prefix(cache: &mut Cache, prefix: &str, limit: usize, now: u128) -> (items: Vec<
    SearchResultItem,
>)
    requires
        old(cache).wf(),
    ensures
        final(cache).wf(),
        final(cache).same_routing(old(cache)),
        shed_expired(final(cache)@, old(cache)@, now),
        items.len() < limit ==> final(cache)@.entries == old(cache)@.entries.remove_keys(
            expired_with_prefix(old(cache)@, prefix@, now),
        ),
        drawn_from(items@, with_prefix(old(cache)@, prefix@, now), old(cache)@, now),
        items.len() == capped(limit, with_prefix(old(cache)@, prefix@, now)),
{
    let ghost m = cache@;
    let ghost found = with_prefix(m, prefix@, now);
    let wanted = crate::text::chars_of(prefix);
    let keys = cache.keys();
    let ghost all = key_views(keys@);
    let mut items: Vec<SearchResultItem> = Vec::new();
    let mut i: usize = 0;
    proof {
        cache.lemma_finite();
        vstd::set_lib::lemma_set_subset_finite(m.entries.dom(), found);
        assert(result_keys(items@) =~= Seq::<Seq<char>>::empty());
    }
    while i < keys.len() && items.len() < limit
        invariant
            0 <= i <= keys.len(),
            cache.wf(),
            cache.same_routing(old(cache)),
            shed_expired(cache@, m, now),
            forall|k: Seq<char>| #[trigger]
                cache@.entries.contains_key(k) == (m.entries.contains_key(k) && !(all.take(
                    i as int,
                ).contains(k) && expired_with_prefix(m, prefix@, now).contains(k))),
            m == old(cache)@,
            wanted@ == prefix@,
            found == with_prefix(m, prefix@, now),
            found.finite(),
            all == key_views(keys@),
            all.no_duplicates(),
            all.to_set() == m.entries.dom(),
            items.len() <= limit,
            drawn_from(items@, found, m, now),
            forall|k: Seq<char>| #[trigger]
                result_keys(items@).contains(k) == (all.take(i as int).contains(k)
                    && found.contains(k)),
        decreases keys.len() - i,
    {
        let key: &Key = &keys[i];
        let ghost before = result_keys(items@);
        let ghost old_items = items@;
        let ghost held = cache@;
        proof {
            assert(all[i as int] == key@);
            assert forall|k: Seq<char>| #[trigger]
                all.take(i + 1).contains(k) == (all.take(i as int).contains(k) || key@ == k) by {
                lemma_take_step(all, i as int, k);
            }
            assert(!all.take(i as int).contains(key@)) by {
                if all.take(i as int).contains(key@) {
                    let n = choose|n: int|
                        0 <= n < all.take(i as int).len() && all.take(i as int)[n] == key@;
                    assert(all[n] == all[i as int]);
                }
            }
            assert(m.live(key@, now) == held.live(key@, now));
        }
        if has_prefix(key.as_str(), &wanted) {
            match cache.read_meta(key, now) {
                Some(meta) => {
                    let item = item_of(key, meta, now);
                    items.push(item);
                    proof {
                        assert(result_keys(items@) =~= before.push(key@));
                        lemma_push_contains(before, key@);
                        assert forall|n: int| 0 <= n < items.len() implies (#[trigger] items[n]).shows(
                            items[n].key@,
                            m.entries[items[n].key@],
                            now,
                        ) by {
                            if n < old_items.len() {
                                assert(items[n] == old_items[n]);
                            }
                        }
                        assert forall|n: int| 0 <= n < items.len() implies found.contains(
                            #[trigger] result_keys(items@)[n],
                        ) by {
                            if n < old_items.len() {
                                assert(result_keys(items@)[n] == result_keys(old_items)[n]);
                            }
                        }
                    }
                },
                None => {},
            }
        }
        i = i + 1;
    }
    proof {
        lemma_list_within(result_keys(items@), found);
        if items.len() < limit {
            assert(all.take(all.len() as int) =~= all);
            assert forall|k: Seq<char>| found.contains(k) implies result_keys(items@).contains(
                k,
            ) by {
                assert(all.to_set().contains(k));
            }
            assert(cache@.entries =~= m.entries.remove_keys(
                expired_with_prefix(m, prefix@, now),
            )) by {
                assert forall|k: Seq<char>|
                    cache@.entries.contains_key(k) == m.entries.remove_keys(
                        expired_with_prefix(m, prefix@, now),
                    ).contains_key(k) by {
                    if m.entries.contains_key(k) {
                        assert(all.to_set().contains(k));
                    }
                }
            }
        }
    }
    items
}

/// Whether no item is older than one that follows it.
pub open spec fn newest_first(items: Seq<SearchResultItem>) -> bool {
    forall|i: int, j: int|
        0 <= i <= j < items.len() ==> no_older(
            #[trigger] items[i].created_ms,
            #[trigger] items[j].created_ms,
        )
}

/// Whether no live entry that the items leave out is newer than one of the
/// items.
pub open spec fn none_newer_left_out(items: Seq<SearchResultItem>, m: CacheModel, now: u128) -> bool {
    forall|k: Seq<char>, i: int|
        m.live(k, now) && !result_keys(items).contains(k) && 0 <= i < items.len() ==> no_older(
            (#[trigger] items[i]).created_ms,
            (#[trigger] m.entries[k]).created_system,
        )
}

/// The newest live entries, newest first: up to `limit` of them. Every
/// expired entry is removed.
pub fn list_newest(cache: &mut Cache, limit: usize, now: u128) -> (items: Vec<SearchResultItem>)
    requires
        old(cache).wf(),
    ensures
        final(cache).wf(),
        final(cache).same_routing(old(cache)),
        final(cache)@ == old(cache)@.cleanup_expired(now),
        drawn_from(items@, live_keys(old(cache)@, now), old(cache)@, now),
        items.len() == capped(limit, live_keys(old(cache)@, now)),
        newest_first(items@),
        none_newer_left_out(items@, old(cache)@, now),
{
    let ghost m = cache@;
    let ghost found = live_keys(m, now);
    let keys = cache.keys();
    let ghost all = key_views(keys@);
    let mut items: Vec<SearchResultItem> = Vec::new();
    let mut i: usize = 0;
    proof {
        cache.lemma_finite();
        vstd::set_lib::lemma_set_subset_finite(m.entries.dom(), found);
        assert(result_keys(items@) =~= Seq::<Seq<char>>::empty());
    }
    while i < keys.len()
        invariant
            0 <= i <= keys.len(),
            cache.wf(),
            cache.same_routing(old(cache)),
            m == old(cache)@,
            cache@.stats == m.stats,
            forall|k: Seq<char>| #[trigger]
                cache@.entries.contains_key(k) == (m.entries.contains_key(k) && !(all.take(
                    i as int,
                ).contains(k) && m.entries[k].is_expired(now))),
            forall|k: Seq<char>| #[trigger]
                cache@.entries.contains_key(k) ==> cache@.entries[k] == m.entries[k],
            found == live_keys(m, now),
            found.finite(),
            all == key_views(keys@),
            all.no_duplicates(),
            all.to_set() == m.entries.dom(),
            drawn_from(items@, found, m, now),
            forall|k: Seq<char>| #[trigger]
                result_keys(items@).contains(k) == (all.take(i as int).contains(k)
                    && found.contains(k)),
        decreases keys.len() - i,
    {
        let key: &Key = &keys[i];
        let ghost before = result_keys(items@);
        let ghost old_items = items@;
        let ghost held = cache@;
        proof {
            assert(all[i as int] == key@);
            assert forall|k: Seq<char>| #[trigger]
                all.take(i + 1).contains(k) == (all.take(i as int).contains(k) || key@ == k) by {
                lemma_take_step(all, i as int, k);
            }
            assert(!all.take(i as int).contains(key@)) by {
                if all.take(i as int).contains(key@) {
                    let n = choose|n: int|
                        0 <= n < all.take(i as int).len() && all.take(i as int)[n] == key@;
                    assert(all[n] == all[i as int]);
                }
            }
            assert(all.to_set().contains(all[i as int]));
            assert(held.entries.contains_key(key@));
        }
        match cache.read_meta(key, now) {
            Some(meta) => {
                let item = item_of(key, meta, now);
                items.push(item);
                proof {
                    assert(result_keys(items@) =~= before.push(key@));
                    lemma_push_contains(before, key@);
                    assert forall|n: int| 0 <= n < items.len() implies (#[trigger] items[n]).shows(
                        items[n].key@,
                        m.entries[items[n].key@],
                        now,
                    ) by {
                        if n < old_items.len() {
                            assert(items[n] == old_items[n]);
                        }
                    }
                    assert forall|n: int| 0 <= n < items.len() implies found.contains(
                        #[trigger] result_keys(items@)[n],
                    ) by {
                        if n < old_items.len() {
                            assert(result_keys(items@)[n] == result_keys(old_items)[n]);
                        }
                    }
                }
            },
            None => {},
        }
        i = i + 1;
    }
    let ghost unsorted = items@;
    proof {
        assert(all.take(all.len() as int) =~= all);
        assert(cache@.entries =~= m.cleanup_expired(now).entries) by {
            assert forall|k: Seq<char>|
                cache@.entries.contains_key(k) == m.cleanup_expired(now).entries.contains_key(
                    k,
                ) by {
                if m.entries.contains_key(k) {
                    assert(all.to_set().contains(k));
                }
            }
        }
        assert forall|k: Seq<char>| found.contains(k) implies result_keys(unsorted).contains(
            k,
        ) by {
            assert(all.to_set().contains(k));
        }
        lemma_list_within(result_keys(unsorted), found);
    }
    sort_newest_first(&mut items);
    let ghost sorted = items@;
    proof {
        let p = choose|p: Seq<int>| reorders(p, unsorted, sorted);
        assert forall|a: int, b: int|
            0 <= a < sorted.len() && 0 <= b < sorted.len() && a != b implies result_keys(
            sorted,
        )[a] != result_keys(sorted)[b] by {
            assert(sorted[a] == unsorted[p[a]]);
            assert(sorted[b] == unsorted[p[b]]);
            assert(result_keys(unsorted)[p[a]] == unsorted[p[a]].key@);
            assert(result_keys(unsorted)[p[b]] == unsorted[p[b]].key@);
        }
        assert forall|n: int| 0 <= n < sorted.len() implies found.contains(
            #[trigger] result_keys(sorted)[n],
        ) by {
            assert(sorted[n] == unsorted[p[n]]);
            assert(result_keys(unsorted)[p[n]] == unsorted[p[n]].key@);
        }
        assert forall|n: int| 0 <= n < sorted.len() implies (#[trigger] sorted[n]).shows(
            sorted[n].key@,
            m.entries[sorted[n].key@],
            now,
        ) by {
            assert(sorted[n] == unsorted[p[n]]);
        }
        assert forall|k: Seq<char>| found.contains(k) implies result_keys(sorted).contains(k) by {
            let a = choose|a: int|
                0 <= a < result_keys(unsorted).len() && result_keys(unsorted)[a] == k;
            assert(p.contains(a));
            let n = choose|n: int| 0 <= n < p.len() && p[n] == a;
            assert(sorted[n] == unsorted[p[n]]);
            assert(result_keys(sorted)[n] == k);
        }
    }
    if items.len() > limit {
        items.truncate(limit);
    }
    proof {
        let kept = items@;
        assert forall|n: int| 0 <= n < kept.len() implies #[trigger] result_keys(kept)[n]
            == result_keys(sorted)[n] by {
            assert(kept[n] == sorted[n]);
        }
        assert forall|k: Seq<char>, n: int|
            m.live(k, now) && !result_keys(kept).contains(k) && 0 <= n < kept.len() implies no_older(
            (#[trigger] kept[n]).created_ms,
            (#[trigger] m.entries[k]).created_system,
        ) by {
            assert(found.contains(k));
            let at = choose|at: int|
                0 <= at < result_keys(sorted).len() && result_keys(sorted)[at] == k;
            if at < kept.len() {
                assert(result_keys(kept)[at] == k);
            }
            assert(kept[n] == sorted[n]);
            assert(sorted[at].shows(sorted[at].key@, m.entries[sorted[at].key@], now));
            assert(no_older(sorted[n].created_ms, sorted[at].created_ms));
        }
    }
    items
}

/// The operator that a search request selects.
pub enum Selector {
    AllTags(Seq<Seq<char>>),
    AnyTag(Seq<Seq<char>>),
    Prefix(Seq<char>),
    Newest,
}

/// The operator of a request: all of `tag_all` where that is given and not
/// empty; else any of `tag_any` where that is given and not empty; else the
/// prefix `q` where that is given; else the newest entries.
pub open spec fn selector(body: SearchBody) -> Selector {
    if body.tag_all is Some && body.tag_all->0.len() > 0 {
        Selector::AllTags(string_views(body.tag_all->0@))
    } else if body.tag_any is Some && body.tag_any->0.len() > 0 {
        Selector::AnyTag(string_views(body.tag_any->0@))
    } else if body.q is Some {
        Selector::Prefix(body.q->0@)
    } else {
        Selector::Newest
    }
}

/// The keys that an operator selects.
pub open spec fn selected(m: CacheModel, by: Selector, now: u128) -> Set<Seq<char>> {
    match by {
        Selector::AllTags(tags) => with_all_tags(m, tags, now),
        Selector::AnyTag(tags) => with_any_tag(m, tags, now),
        Selector::Prefix(prefix) => with_prefix(m, prefix, now),
        Selector::Newest => live_keys(m, now),
    }
}

/// The limit of a request: one hundred where none is given.
pub open spec fn limit_of(body: SearchBody) -> usize {
    match body.limit {
        Some(n) => n,
        None => 100,
    }
}

/// `POST /search`: up to the limit of the entries that the request
/// selects, each with the time it has left, its tags and its creation time.
/// A search by tags leaves the cache as it is, and a search by any of
/// several tags lists the entries of an earlier tag first; a search by
/// prefix removes the expired entries that it comes across; the listing of
/// the newest entries removes every expired entry and is newest first.
pub fn search_handler(cache: &mut Cache, body: SearchBody, now: u128) -> (res: SearchResult)
    requires
        old(cache).wf(),
    ensures
        final(cache).wf(),
        final(cache).same_routing(old(cache)),
        drawn_from(res.keys@, selected(old(cache)@, selector(body), now), old(cache)@, now),
        res.keys.len() == capped(limit_of(body), selected(old(cache)@, selector(body), now)),
        match selector(body) {
            Selector::AllTags(_) => final(cache)@ == old(cache)@,
            Selector::AnyTag(tags) => final(cache)@ == old(cache)@ && first_seen_order(
                res.keys@,
                old(cache)@,
                tags,
            ),
            Selector::Prefix(prefix) => shed_expired(final(cache)@, old(cache)@, now) && (
            res.keys.len() < limit_of(body) ==> final(cache)@.entries == old(
                cache,
            )@.entries.remove_keys(expired_with_prefix(old(cache)@, prefix, now))),
            Selector::Newest => final(cache)@ == old(cache)@.cleanup_expired(now) && newest_first(
                res.keys@,
            ) && none_newer_left_out(res.keys@, old(cache)@, now),
        },
{
    let limit: usize = match body.limit {
        Some(n) => n,
        None => 100,
    };
    let by_all: bool = match &body.tag_all {
        Some(tags) => tags.len() > 0,
        None => false,
    };
    let by_any: bool = match &body.tag_any {
        Some(tags) => tags.len() > 0,
        None => false,
    };
    if by_all {
        match &body.tag_all {
            Some(tags) => SearchResult { keys: search_all_tags(cache, tags, limit, now) },
            None => SearchResult { keys: Vec::new() },
        }
    } else if by_any {
        match &body.tag_any {
            Some(tags) => SearchResult { keys: search_any_tag(cache, tags, limit, now) },
            None => SearchResult { keys: Vec::new() },
        }
    } else {
        match &body.q {
            Some(q) => SearchResult { keys: search_prefix(cache, q.as_str(), limit, now) },
            None => SearchResult { keys: list_newest(cache, limit, now) },
        }
    }
}

/// One line of the listing of all keys.
pub struct KeyListing {
    pub key: String,
    /// Length of the value in bytes.
    pub size: usize,
    pub ttl: Option<u64>,
    pub tags: Vec<String>,
    pub created_ms: Option<u64>,
}

impl KeyListing {
    /// Whether this line shows the entry `e` under `key` as it is at `now`.
    pub open spec fn shows(&self, key: Seq<char>, e: EntryView, now: u128) -> bool {
        &&& self.key@ == key
        &&& self.size == e.size()
        &&& self.ttl == e.remaining_ms(now)
        &&& string_views(self.tags@) == e.tags
        &&& self.created_ms == e.created_system
    }
}

/// The keys that the lines are of, in order.
pub open spec fn listing_keys(lines: Seq<KeyListing>) -> Seq<Seq<char>> {
    Seq::new(lines.len(), |i: int| lines[i].key@)
}

/// `GET /keys`: every live entry, newest first, with the size of its value,
/// the time it has left, its tags and its creation time. Every expired
/// entry is removed.
pub fn list_keys_handler(cache: &mut Cache, now: u128) -> (lines: Vec<KeyListing>)
    requires
        old(cache).wf(),
    ensures
        final(cache).wf(),
        final(cache).same_routing(old(cache)),
        final(cache)@ == old(cache)@.cleanup_expired(now),
        listing_keys(lines@).no_duplicates(),
        lines.len() == capped(usize::MAX, live_keys(old(cache)@, now)),
        forall|i: int|
            0 <= i < lines.len() ==> old(cache)@.live(#[trigger] listing_keys(lines@)[i], now),
        forall|i: int|
            0 <= i < lines.len() ==> (#[trigger] lines[i]).shows(
                lines[i].key@,
                old(cache)@.entries[lines[i].key@],
                now,
            ),
        forall|i: int, j: int|
            0 <= i <= j < lines.len() ==> no_older(
                #[trigger] lines[i].created_ms,
                #[trigger] lines[j].created_ms,
            ),
{
    let ghost m = cache@;
    let items = list_newest(cache, usize::MAX, now);
    let ghost swept = cache@;
    let mut lines: Vec<KeyListing> = Vec::new();
    let mut i: usize = 0;
    proof {
        assert(listing_keys(lines@) =~= result_keys(items@).take(0));
    }
    while i < items.len()
        invariant
            0 <= i <= items.len(),
            cache.wf(),
            cache.same_routing(old(cache)),
            m == old(cache)@,
            swept == m.cleanup_expired(now),
            cache@ == swept,
            drawn_from(items@, live_keys(m, now), m, now),
            lines.len() == i,
            listing_keys(lines@) == result_keys(items@).take(i as int),
            forall|n: int|
                0 <= n < i ==> (#[trigger] lines[n]).shows(
                    lines[n].key@,
                    m.entries[lines[n].key@],
                    now,
                ),
            forall|n: int| 0 <= n < i ==> (#[trigger] lines[n]).created_ms == items[n].created_ms,
        decreases items.len() - i,
    {
        let item: &SearchResultItem = &items[i];
        let ghost before = listing_keys(lines@);
        let ghost old_lines = lines@;
        proof {
            assert(live_keys(m, now).contains(result_keys(items@)[i as int]));
            assert(item.shows(item.key@, m.entries[item.key@], now));
            assert(swept.live(item.key@, now));
        }
        match cache.read_meta(&Key(item.key.clone()), now) {
            Some(meta) => {
                lines.push(
                    KeyListing {
                        key: item.key.clone(),
                        size: meta.size,
                        ttl: item.ttl_ms,
                        tags: item.tags.clone(),
                        created_ms: item.created_ms,
                    },
                );
                proof {
                    assert(lines@[i as int].tags@ =~= item.tags@);
                    assert(listing_keys(lines@) =~= before.push(item.key@));
                    assert(result_keys(items@).take(i + 1) =~= before.push(item.key@));
                    assert forall|n: int| 0 <= n < i + 1 implies (#[trigger] lines[n]).shows(
                        lines[n].key@,
                        m.entries[lines[n].key@],
                        now,
                    ) by {
                        if n < i {
                            assert(lines[n] == old_lines[n]);
                        }
                    }
                    assert forall|n: int| 0 <= n < i + 1 implies (#[trigger] lines[n]).created_ms
                        == items[n].created_ms by {
                        if n < i {
                            assert(lines[n] == old_lines[n]);
                        }
                    }
                }
            },
            None => {
                // The entry is live, so it is found.
                assert(false);
            },
        }
        i = i + 1;
    }
    proof {
        assert(result_keys(items@).take(items.len() as int) =~= result_keys(items@));
        assert forall|n: int| 0 <= n < lines.len() implies m.live(
            #[trigger] listing_keys(lines@)[n],
            now,
        ) by {
            assert(live_keys(m, now).contains(result_keys(items@)[n]));
        }
    }
    lines
}

/// The body of `POST /invalidate/tags`.
pub struct InvalidateTagsBody {
    pub tags: Vec<String>,
    pub mode: Option<String>,
}

/// Whether a request asks for the entries that carry any of its tags:
/// it does without a mode and with the mode `any`. Every other mode asks
/// for the entries that carry all of its tags.
pub open spec fn asks_any(mode: Option<String>) -> bool {
    match mode {
        Some(m) => m@ == "any"@,
        None => true,
    }
}

/// `POST /invalidate/tags`: with the mode `any`, each of the tags is
/// invalidated in turn; with another mode, the live entries that carry
/// every one of the tags are invalidated, one by one. Returns the number of
/// entries removed.
pub fn invalidate_tags_handler(cache: &mut Cache, body: InvalidateTagsBody, now: u128) -> (count:
    usize)
    requires
        old(cache).wf(),
    ensures
        final(cache).wf(),
        final(cache).same_routing(old(cache)),
        asks_any(body.mode) ==> final(cache)@ == old(cache)@.invalidate_tags(
            string_views(body.tags@),
        ) && count == old(cache)@.tags_count(string_views(body.tags@)),
        !asks_any(body.mode) && body.tags.len() > 0 ==> final(cache)@ == old(
            cache,
        )@.invalidate_keys(with_all_tags(old(cache)@, string_views(body.tags@), now)) && count
            == old(cache)@.present_count(
            with_all_tags(old(cache)@, string_views(body.tags@), now),
        ),
        !asks_any(body.mode) && body.tags.len() == 0 ==> final(cache)@ == old(cache)@ && count
            == 0,
{
    let any: bool = match &body.mode {
        Some(mode) => *mode == "any".to_owned(),
        None => true,
    };
    let ghost m = cache@;
    let ghost want = string_views(body.tags@);
    if any {
        let mut count: usize = 0;
        let mut i: usize = 0;
        proof {
            assert(want.take(0) =~= Seq::<Seq<char>>::empty());
        }
        while i < body.tags.len()
            invariant
                0 <= i <= body.tags.len(),
                cache.wf(),
                cache.same_routing(old(cache)),
                m == old(cache)@,
                want == string_views(body.tags@),
                cache@ == m.invalidate_tags(want.take(i as int)),
                count == m.tags_count(want.take(i as int)),
            decreases body.tags.len() - i,
        {
            proof {
                assert(want.take(i + 1).drop_last() =~= want.take(i as int));
                assert(want.take(i + 1).last() == body.tags@[i as int]@);
            }
            let removed = cache.invalidate_tag(&Tag(body.tags[i].clone()));
            count = count.saturating_add(removed);
            i = i + 1;
        }
        proof {
            assert(want.take(want.len() as int) =~= want);
        }
        count
    } else if body.tags.len() == 0 {
        0
    } else {
        let ghost doomed = with_all_tags(m, want, now);
        let candidates = cache.get_keys_by_tag(&Tag(body.tags[0].clone()), now);
        let ghost all = key_views(candidates@);
        let mut count: usize = 0;
        let mut i: usize = 0;
        proof {
            cache.lemma_finite();
            vstd::set_lib::lemma_set_subset_finite(m.entries.dom(), doomed);
            assert(want[0] == body.tags@[0]@);
            assert(doomed.filter(|k: Seq<char>| all.take(0).contains(k)) =~= Set::<
                Seq<char>,
            >::empty());
            assert(m.entries.remove_keys(Set::<Seq<char>>::empty()) =~= m.entries);
        }
        while i < candidates.len()
            invariant
                0 <= i <= candidates.len(),
                count <= i,
                cache.wf(),
                cache.same_routing(old(cache)),
                m == old(cache)@,
                want == string_views(body.tags@),
                want.len() > 0,
                doomed == with_all_tags(m, want, now),
                doomed.finite(),
                all == key_views(candidates@),
                all.no_duplicates(),
                all.to_set() == m.keys_by_tag(want[0], now),
                cache@.entries == m.entries.remove_keys(
                    doomed.filter(|k: Seq<char>| all.take(i as int).contains(k)),
                ),
                count == doomed.filter(|k: Seq<char>| all.take(i as int).contains(k)).len(),
                cache@.stats == (crate::types::CacheStats {
                    invalidations: m.stats.invalidations.wrapping_add(count as u64),
                    ..m.stats
                }),
            decreases candidates.len() - i,
        {
            let key: &Key = &candidates[i];
            let ghost done = doomed.filter(|k: Seq<char>| all.take(i as int).contains(k));
            let ghost next = doomed.filter(|k: Seq<char>| all.take(i + 1).contains(k));
            proof {
                assert(all[i as int] == key@);
                assert forall|k: Seq<char>| #[trigger]
                    all.take(i + 1).contains(k) == (all.take(i as int).contains(k) || key@
                        == k) by {
                    lemma_take_step(all, i as int, k);
                }
                assert(!all.take(i as int).contains(key@)) by {
                    if all.take(i as int).contains(key@) {
                        let n = choose|n: int|
                            0 <= n < all.take(i as int).len() && all.take(i as int)[n] == key@;
                        assert(all[n] == all[i as int]);
                    }
                }
                assert(all.to_set().contains(all[i as int]));
                vstd::set_lib::lemma_set_subset_finite(doomed, done);
                if doomed.contains(key@) {
                    assert(next =~= done.insert(key@));
                } else {
                    assert(next =~= done);
                }
            }
            let carries_all: bool = match cache.read_meta(key, now) {
                Some(meta) => covers(&meta.tags, &body.tags),
                None => false,
            };
            if carries_all {
                if cache.invalidate_key(key) {
                    count = count + 1;
                }
            }
            proof {
                assert(cache@.entries =~= m.entries.remove_keys(next));
            }
            i = i + 1;
        }
        proof {
            assert(all.take(all.len() as int) =~= all);
            assert(doomed.filter(|k: Seq<char>| all.contains(k)) =~= doomed) by {
                assert forall|k: Seq<char>| doomed.contains(k) implies all.contains(k) by {
                    assert(m.entries[k].tags.contains(want[0]));
                    assert(all.to_set().contains(k));
                }
            }
            assert(doomed.intersect(m.entries.dom()) =~= doomed);
        }
        count
    }
}

} // verus!
