//! One partition of the cache: a forward map from keys to entries and a
//! reverse map from tags to the keys that carry them.

use crate::store::{
    entries_clear, entries_get, entries_insert, entries_keys, entries_len, entries_meta,
    entries_new, entries_remove, entry_map, index_attach, index_clear, index_clear_tag,
    index_count, index_detach, index_keys, index_new, index_remove, index_tags, tag_index,
};
use crate::sets::{
    clamp, expired_keys, lemma_push_contains, lemma_take_step, live_with_tag, with_tag,
};
use crate::types::{
    key_views, string_views, tag_views, Entry, EntryMeta, EntryView, Key, Tag,
};
use dashmap::{DashMap, DashSet};
use vstd::prelude::*;

verus! {

/// Whether the reverse map lists `key` under `tag`.
pub open spec fn linked(index: Map<Seq<char>, Set<Seq<char>>>, tag: Seq<char>, key: Seq<char>) -> bool {
    index.contains_key(tag) && index[tag].contains(key)
}

/// The forward and the reverse map say the same: an entry is listed under
/// each of its tags, and a key is listed under a tag only where its entry
/// carries that tag.
pub open spec fn consistent(
    entries: Map<Seq<char>, EntryView>,
    index: Map<Seq<char>, Set<Seq<char>>>,
) -> bool {
    &&& forall|k: Seq<char>, i: int|
        entries.contains_key(k) && 0 <= i < entries[k].tags.len() ==> linked(
            index,
            #[trigger] entries[k].tags[i],
            k,
        )
    &&& forall|t: Seq<char>, k: Seq<char>| #[trigger]
        linked(index, t, k) ==> entries.contains_key(k) && entries[k].tags.contains(t)
}

/// Every set of the reverse map is finite, and so is the set of its tags.
pub open spec fn finite_index(index: Map<Seq<char>, Set<Seq<char>>>) -> bool {
    &&& index.dom().finite()
    &&& forall|t: Seq<char>| #[trigger] index.contains_key(t) ==> index[t].finite()
}

/// The tags that the entry under `key` carries; none where there is no
/// such entry.
pub open spec fn tags_of(entries: Map<Seq<char>, EntryView>, key: Seq<char>) -> Seq<Seq<char>> {
    if entries.contains_key(key) {
        entries[key].tags
    } else {
        Seq::empty()
    }
}

/// Whether storing an entry under `key` takes the set of `tag` out of the
/// reverse map before the new tags are listed: it does where the old entry
/// carried the tag and no other key is listed under it.
pub open spec fn reclaimed(
    entries: Map<Seq<char>, EntryView>,
    index: Map<Seq<char>, Set<Seq<char>>>,
    tag: Seq<char>,
    key: Seq<char>,
) -> bool {
    tags_of(entries, key).contains(tag) && index.contains_key(tag) && index[tag].remove(key).len()
        == 0
}

/// Whether the entry under `key` carries `tag` and no other entry does.
pub open spec fn sole_carrier(
    entries: Map<Seq<char>, EntryView>,
    tag: Seq<char>,
    key: Seq<char>,
) -> bool {
    &&& tags_of(entries, key).contains(tag)
    &&& forall|other: Seq<char>|
        other != key && #[trigger] entries.contains_key(other) ==> !entries[other].tags.contains(
            tag,
        )
}

/// Both maps are finite and say the same.
pub open spec fn sound(
    entries: Map<Seq<char>, EntryView>,
    index: Map<Seq<char>, Set<Seq<char>>>,
) -> bool {
    &&& entries.dom().finite()
    &&& finite_index(index)
    &&& consistent(entries, index)
}

/// In a sound shard, the set of a tag is left empty by the removal of a key
/// exactly where that key's entry is the only one that carries the tag.
pub proof fn lemma_reclaimed_is_sole_carrier(
    entries: Map<Seq<char>, EntryView>,
    index: Map<Seq<char>, Set<Seq<char>>>,
    tag: Seq<char>,
    key: Seq<char>,
)
    requires
        sound(entries, index),
    ensures
        reclaimed(entries, index, tag, key) == sole_carrier(entries, tag, key),
{
    if reclaimed(entries, index, tag, key) {
        index[tag].remove(key).lemma_len0_is_empty();
        assert forall|other: Seq<char>|
            other != key && #[trigger] entries.contains_key(other) implies !entries[other].tags.contains(
            tag,
        ) by {
            if entries[other].tags.contains(tag) {
                let n = choose|n: int|
                    0 <= n < entries[other].tags.len() && entries[other].tags[n] == tag;
                assert(linked(index, entries[other].tags[n], other));
                assert(index[tag].remove(key).contains(other));
            }
        }
    }
    if sole_carrier(entries, tag, key) {
        let n = choose|n: int| 0 <= n < entries[key].tags.len() && entries[key].tags[n] == tag;
        assert(linked(index, entries[key].tags[n], key));
        assert(index[tag].remove(key) =~= Set::empty()) by {
            assert forall|other: Seq<char>| !index[tag].remove(key).contains(other) by {
                if index[tag].remove(key).contains(other) {
                    assert(linked(index, tag, other));
                }
            }
        }
    }
}

/// Adds the size of the value under a key to a sum.
pub open spec fn add_size(entries: Map<Seq<char>, EntryView>) -> spec_fn(nat, Seq<char>) -> nat {
    |sum: nat, k: Seq<char>| sum + entries[k].size()
}

/// The sizes of the values of `keys`, added up.
pub open spec fn bytes_of(entries: Map<Seq<char>, EntryView>, keys: Set<Seq<char>>) -> nat {
    keys.fold(0nat, add_size(entries))
}

/// The sizes of all values, added up.
pub open spec fn bytes_in(entries: Map<Seq<char>, EntryView>) -> nat {
    bytes_of(entries, entries.dom())
}

/// The sizes of the values of two finite sets of keys that have no key in
/// common add up to the sizes of the values of all their keys.
pub proof fn lemma_bytes_add_up(
    entries: Map<Seq<char>, EntryView>,
    a: Set<Seq<char>>,
    b: Set<Seq<char>>,
)
    requires
        a.finite(),
        b.finite(),
        a.disjoint(b),
    ensures
        bytes_of(entries, a + b) == bytes_of(entries, a) + bytes_of(entries, b),
    decreases b.len(),
{
    assert(vstd::set::fold::is_fun_commutative(add_size(entries)));
    if b.len() == 0 {
        b.lemma_len0_is_empty();
        assert(a + b =~= a);
        vstd::set::fold::lemma_fold_empty(0nat, add_size(entries));
    } else {
        let x = b.choose();
        let rest = b.remove(x);
        lemma_bytes_add_up(entries, a, rest);
        assert(a + b =~= (a + rest).insert(x));
        assert(b =~= rest.insert(x));
        vstd::set::fold::lemma_fold_insert(a + rest, 0nat, add_size(entries), x);
        vstd::set::fold::lemma_fold_insert(rest, 0nat, add_size(entries), x);
    }
}

/// Two maps that hold the same entries under the keys of a finite set hold
/// values of the same sizes under them.
pub proof fn lemma_bytes_agree(
    one: Map<Seq<char>, EntryView>,
    other: Map<Seq<char>, EntryView>,
    keys: Set<Seq<char>>,
)
    requires
        keys.finite(),
        forall|k: Seq<char>| keys.contains(k) ==> one[k] == other[k],
    ensures
        bytes_of(one, keys) == bytes_of(other, keys),
    decreases keys.len(),
{
    assert(vstd::set::fold::is_fun_commutative(add_size(one)));
    assert(vstd::set::fold::is_fun_commutative(add_size(other)));
    if keys.len() == 0 {
        keys.lemma_len0_is_empty();
        vstd::set::fold::lemma_fold_empty(0nat, add_size(one));
        vstd::set::fold::lemma_fold_empty(0nat, add_size(other));
    } else {
        let x = keys.choose();
        let rest = keys.remove(x);
        lemma_bytes_agree(one, other, rest);
        assert(keys =~= rest.insert(x));
        vstd::set::fold::lemma_fold_insert(rest, 0nat, add_size(one), x);
        vstd::set::fold::lemma_fold_insert(rest, 0nat, add_size(other), x);
    }
}

/// One partition of the cache.
#[derive(Debug)]
pub struct Shard {
    entries: DashMap<String, Entry>,
    tag_to_keys: DashMap<String, DashSet<String>>,
}

impl Shard {
    /// The entries of this shard, by key.
    pub closed spec fn entries(&self) -> Map<Seq<char>, EntryView> {
        entry_map(self.entries)
    }

    /// The reverse index of this shard: for each tag that it knows, the
    /// keys listed under it.
    pub closed spec fn index(&self) -> Map<Seq<char>, Set<Seq<char>>> {
        tag_index(self.tag_to_keys)
    }

    /// The tags that the reverse index has a set for. A set may be empty.
    pub open spec fn tags(&self) -> Set<Seq<char>> {
        self.index().dom()
    }

    /// Both maps are finite and say the same.
    pub open spec fn wf(&self) -> bool {
        sound(self.entries(), self.index())
    }

    /// A shard that holds nothing.
    pub fn new() -> (shard: Shard)
        ensures
            shard.wf(),
            shard.entries() == Map::<Seq<char>, EntryView>::empty(),
            shard.tags() == Set::<Seq<char>>::empty(),
    {
        Shard { entries: entries_new(), tag_to_keys: index_new() }
    }

    /// Stores `entry` under `key`, in place of what was there. The key
    /// leaves the sets of the tags of the entry that it replaces, a set
    /// that is left empty leaves the reverse map, and the key joins the sets
    /// of the tags of the new entry.
    pub fn put(&mut self, key: Key, entry: Entry)
        requires
            old(self).wf(),
        ensures
            final(self).wf(),
            final(self).entries() == old(self).entries().insert(key@, entry@),
            forall|t: Seq<char>| #[trigger]
                final(self).tags().contains(t) == (entry@.tags.contains(t) || (old(
                    self,
                ).tags().contains(t) && !sole_carrier(old(self).entries(), t, key@))),
    {
        let ghost entries0 = self.entries();
        let ghost index0 = self.index();
        proof {
            assert forall|t: Seq<char>|
                reclaimed(entries0, index0, t, key@) == sole_carrier(entries0, t, key@) by {
                lemma_reclaimed_is_sole_carrier(entries0, index0, t, key@);
            }
        }
        let old_tags: Vec<Tag> = match entries_meta(&self.entries, key.as_str()) {
            Some(meta) => meta.tags,
            None => Vec::new(),
        };
        assert(tag_views(old_tags@) == tags_of(entries0, key@));
        self.unlink_all(&old_tags, key.as_str(), true);
        let new_tags: Vec<Tag> = entry.tags.to_vec();
        self.link_all(&new_tags, key.as_str());
        let ghost index2 = self.index();
        let ghost key_v = key@;
        let ghost fresh = entry@.tags;
        entries_insert(&mut self.entries, key.0, entry);
        proof {
            let entries2 = self.entries();
            assert forall|k: Seq<char>, n: int|
                entries2.contains_key(k) && 0 <= n < entries2[k].tags.len() implies linked(
                index2,
                #[trigger] entries2[k].tags[n],
                k,
            ) by {
                if k == key_v {
                    assert(fresh.contains(fresh[n]));
                } else {
                    assert(linked(index0, entries0[k].tags[n], k));
                }
            }
            assert forall|t: Seq<char>, k: Seq<char>| #[trigger]
                linked(index2, t, k) implies entries2.contains_key(k) && entries2[k].tags.contains(
                t,
            ) by {
                if k != key_v {
                    assert(linked(index0, t, k));
                }
            }
        }
    }

    /// Takes the entry under `key` out of the shard, and the key out of the
    /// sets of its tags. With `reclaim`, a set that is left empty leaves the
    /// reverse map.
    pub fn remove(&mut self, key: &str, reclaim: bool) -> (removed: Option<Entry>)
        requires
            old(self).wf(),
        ensures
            final(self).wf(),
            final(self).entries() == old(self).entries().remove(key@),
            removed is Some == old(self).entries().contains_key(key@),
            removed matches Some(entry) ==> entry@ == old(self).entries()[key@],
            forall|t: Seq<char>, k: Seq<char>| #[trigger]
                linked(final(self).index(), t, k) == (linked(old(self).index(), t, k) && k
                    != key@),
            forall|t: Seq<char>| #[trigger]
                final(self).tags().contains(t) == (old(self).tags().contains(t) && !(reclaim
                    && sole_carrier(old(self).entries(), t, key@))),
    {
        let ghost entries0 = self.entries();
        let ghost index0 = self.index();
        proof {
            assert forall|t: Seq<char>|
                reclaimed(entries0, index0, t, key@) == sole_carrier(entries0, t, key@) by {
                lemma_reclaimed_is_sole_carrier(entries0, index0, t, key@);
            }
        }
        let removed = entries_remove(&mut self.entries, key);
        match &removed {
            Some(entry) => {
                let tags: Vec<Tag> = entry.tags.to_vec();
                self.unlink_all(&tags, key, reclaim);
            },
            None => {},
        }
        proof {
            let entries1 = self.entries();
            let index1 = self.index();
            assert forall|t: Seq<char>, k: Seq<char>| #[trigger]
                linked(index1, t, k) == (linked(index0, t, k) && k != key@) by {
                if linked(index0, t, k) && k == key@ {
                    assert(entries0[key@].tags.contains(t));
                }
            }
            assert forall|k: Seq<char>, n: int|
                entries1.contains_key(k) && 0 <= n < entries1[k].tags.len() implies linked(
                index1,
                #[trigger] entries1[k].tags[n],
                k,
            ) by {
                assert(linked(index0, entries0[k].tags[n], k));
            }
        }
        removed
    }

    /// A copy of the entry under `key`.
    pub fn get(&self, key: &str) -> (found: Option<Entry>)
        ensures
            found is Some == self.entries().contains_key(key@),
            found matches Some(entry) ==> entry@ == self.entries()[key@],
    {
        entries_get(&self.entries, key)
    }

    /// What the entry under `key` holds besides its value.
    pub fn meta(&self, key: &str) -> (found: Option<EntryMeta>)
        ensures
            found is Some == self.entries().contains_key(key@),
            found matches Some(meta) ==> meta.describes(self.entries()[key@]),
    {
        entries_meta(&self.entries, key)
    }

    /// The number of entries.
    pub fn len(&self) -> (n: usize)
        ensures
            n == self.entries().dom().len(),
    {
        entries_len(&self.entries)
    }

    /// Every key of the shard, once each, in no particular order.
    pub fn keys(&self) -> (keys: Vec<String>)
        ensures
            string_views(keys@).no_duplicates(),
            string_views(keys@).to_set() == self.entries().dom(),
    {
        entries_keys(&self.entries)
    }

    /// Every tag that the reverse map has a set for, once each, in no
    /// particular order.
    pub fn tag_names(&self) -> (names: Vec<String>)
        ensures
            string_views(names@).no_duplicates(),
            string_views(names@).to_set() == self.tags(),
    {
        index_tags(&self.tag_to_keys)
    }

    /// The sizes of all values in bytes, added up, as far as the sum fits
    /// the machine's word.
    pub fn bytes(&self) -> (total: usize)
        requires
            self.wf(),
        ensures
            total == clamp(bytes_in(self.entries())),
    {
        let keys = entries_keys(&self.entries);
        let ghost all = string_views(keys@);
        let ghost entries = self.entries();
        let mut total: usize = 0;
        let mut i: usize = 0;
        proof {
            assert(all.take(0).to_set() =~= Set::<Seq<char>>::empty());
            vstd::set::fold::lemma_fold_empty(0nat, add_size(entries));
        }
        while i < keys.len()
            invariant
                0 <= i <= keys.len(),
                entries == self.entries(),
                all == string_views(keys@),
                all.no_duplicates(),
                all.to_set() == entries.dom(),
                all.take(i as int).to_set().finite(),
                total == clamp(bytes_of(entries, all.take(i as int).to_set())),
            decreases keys.len() - i,
        {
            let key: &str = keys[i].as_str();
            proof {
                let done = all.take(i as int).to_set();
                assert(all[i as int] == key@);
                assert forall|k: Seq<char>| #[trigger]
                    all.take(i + 1).contains(k) == (all.take(i as int).contains(k) || key@
                        == k) by {
                    lemma_take_step(all, i as int, k);
                }
                assert(!all.take(i as int).contains(key@)) by {
                    if all.take(i as int).contains(key@) {
                        let n = choose|n: int|
                            0 <= n < all.take(i as int).len() && all.take(i as int)[n] == key@;
                        assert(all[n] == all[i as int]);
                    }
                }
                assert(all.take(i + 1).to_set() =~= done.insert(key@));
                assert(vstd::set::fold::is_fun_commutative(add_size(entries)));
                vstd::set::fold::lemma_fold_insert(done, 0nat, add_size(entries), key@);
                assert(all.to_set().contains(all[i as int]));
            }
            match entries_meta(&self.entries, key) {
                Some(meta) => {
                    total = total.saturating_add(meta.size);
                },
                None => {},
            }
            i = i + 1;
        }
        proof {
            assert(all.take(all.len() as int) =~= all);
        }
        total
    }

    /// Whether the reverse index has a set for `tag`.
    pub fn has_tag(&self, tag: &str) -> (known: bool)
        ensures
            known == self.tags().contains(tag@),
    {
        index_count(&self.tag_to_keys, tag).is_some()
    }

    /// The keys of this shard whose entries carry `tag` and are not expired
    /// at `now`, once each, in no particular order.
    pub fn keys_with_tag(&self, tag: &str, now: u128) -> (keys: Vec<Key>)
        requires
            self.wf(),
        ensures
            key_views(keys@).no_duplicates(),
            forall|k: Seq<char>| #[trigger]
                key_views(keys@).contains(k) == (live_with_tag(self.entries(), tag@, now).contains(
                    k,
                )),
    {
        let mut out: Vec<Key> = Vec::new();
        let listed = index_keys(&self.tag_to_keys, tag);
        match listed {
            Some(list) => {
                let ghost all = string_views(list@);
                let mut i: usize = 0;
                while i < list.len()
                    invariant
                        0 <= i <= list.len(),
                        self.wf(),
                        all == string_views(list@),
                        all.no_duplicates(),
                        all.to_set() == self.index()[tag@],
                        self.index().contains_key(tag@),
                        key_views(out@).no_duplicates(),
                        forall|k: Seq<char>| #[trigger]
                            key_views(out@).contains(k) == (all.take(i as int).contains(k)
                                && live_with_tag(self.entries(), tag@, now).contains(k)),
                    decreases list.len() - i,
                {
                    let key: &String = &list[i];
                    let ghost before = key_views(out@);
                    proof {
                        assert(all[i as int] == key@);
                        assert forall|k: Seq<char>| #[trigger]
                            all.take(i + 1).contains(k) == (all.take(i as int).contains(k)
                                || key@ == k) by {
                            lemma_take_step(all, i as int, k);
                        }
                        assert(!all.take(i as int).contains(key@)) by {
                            if all.take(i as int).contains(key@) {
                                let n = choose|n: int|
                                    0 <= n < all.take(i as int).len() && all.take(i as int)[n]
                                        == key@;
                                assert(all[n] == all[i as int]);
                            }
                        }
                        assert(all.to_set().contains(all[i as int]));
                        assert(linked(self.index(), tag@, key@));
                    }
                    match entries_meta(&self.entries, key.as_str()) {
                        Some(meta) => {
                            if !meta.is_expired(now) {
                                out.push(Key(key.clone()));
                                proof {
                                    assert(key_views(out@) =~= before.push(key@));
                                    lemma_push_contains(before, key@);
                                }
                            }
                        },
                        None => {},
                    }
                    i = i + 1;
                }
                proof {
                    assert(all.take(all.len() as int) =~= all);
                    assert forall|k: Seq<char>| #[trigger]
                        key_views(out@).contains(k) == (live_with_tag(
                            self.entries(),
                            tag@,
                            now,
                        ).contains(k)) by {
                        if live_with_tag(self.entries(), tag@, now).contains(k) {
                            let n = choose|n: int|
                                0 <= n < self.entries()[k].tags.len() && self.entries()[k].tags[n]
                                    == tag@;
                            assert(linked(self.index(), self.entries()[k].tags[n], k));
                            assert(all.to_set().contains(k));
                        }
                    }
                }
            },
            None => {
                proof {
                    assert forall|k: Seq<char>|
                        !live_with_tag(self.entries(), tag@, now).contains(k) by {
                        if live_with_tag(self.entries(), tag@, now).contains(k) {
                            let n = choose|n: int|
                                0 <= n < self.entries()[k].tags.len() && self.entries()[k].tags[n]
                                    == tag@;
                            assert(linked(self.index(), self.entries()[k].tags[n], k));
                        }
                    }
                    assert(key_views(out@) =~= Seq::<Seq<char>>::empty());
                }
            },
        }
        out
    }

    /// Removes the entries under `keys`, and each key from the sets of its
    /// tags. Sets that are left empty stay in the reverse map.
    fn remove_all(&mut self, keys: &Vec<String>) -> (count: usize)
        requires
            old(self).wf(),
            string_views(keys@).no_duplicates(),
            forall|i: int|
                0 <= i < keys.len() ==> old(self).entries().contains_key(
                    #[trigger] string_views(keys@)[i],
                ),
        ensures
            final(self).wf(),
            final(self).entries() == old(self).entries().remove_keys(string_views(keys@).to_set()),
            count == keys.len(),
            forall|t: Seq<char>, k: Seq<char>| #[trigger]
                linked(final(self).index(), t, k) == (linked(old(self).index(), t, k)
                    && !string_views(keys@).contains(k)),
            final(self).tags() == old(self).tags(),
    {
        let ghost entries0 = self.entries();
        let ghost index0 = self.index();
        let ghost all = string_views(keys@);
        let mut count: usize = 0;
        let mut i: usize = 0;
        while i < keys.len()
            invariant
                0 <= i <= keys.len(),
                count == i,
                all == string_views(keys@),
                all.no_duplicates(),
                forall|n: int| 0 <= n < all.len() ==> entries0.contains_key(#[trigger] all[n]),
                self.wf(),
                self.entries() == entries0.remove_keys(all.take(i as int).to_set()),
                forall|t: Seq<char>, k: Seq<char>| #[trigger]
                    linked(self.index(), t, k) == (linked(index0, t, k) && !all.take(
                        i as int,
                    ).contains(k)),
                self.tags() == index0.dom(),
            decreases keys.len() - i,
        {
            let key: &str = keys[i].as_str();
            let ghost before = self.entries();
            proof {
                assert(all[i as int] == key@);
                assert forall|k: Seq<char>| #[trigger]
                    all.take(i + 1).contains(k) == (all.take(i as int).contains(k) || key@
                        == k) by {
                    lemma_take_step(all, i as int, k);
                }
                assert(!all.take(i as int).contains(key@)) by {
                    if all.take(i as int).contains(key@) {
                        let n = choose|n: int|
                            0 <= n < all.take(i as int).len() && all.take(i as int)[n] == key@;
                        assert(all[n] == all[i as int]);
                    }
                }
                assert(before.contains_key(key@));
            }
            let removed = self.remove(key, false);
            if removed.is_some() {
                count = count + 1;
            }
            proof {
                assert(self.entries() =~= entries0.remove_keys(all.take(i + 1).to_set()));
                assert(self.tags() =~= index0.dom());
            }
            i = i + 1;
        }
        proof {
            assert(all.take(all.len() as int) =~= all);
        }
        count
    }

    /// Removes every entry that carries `tag`, whether expired or not, and
    /// returns how many there were. Each removed key leaves the sets of all
    /// its tags; the set of `tag` itself is emptied and stays in the reverse
    /// map.
    pub fn invalidate_tag(&mut self, tag: &str) -> (count: usize)
        requires
            old(self).wf(),
        ensures
            final(self).wf(),
            final(self).entries() == old(self).entries().remove_keys(
                with_tag(old(self).entries(), tag@),
            ),
            count == with_tag(old(self).entries(), tag@).len(),
            final(self).tags() == old(self).tags(),
    {
        let ghost entries0 = self.entries();
        let ghost index0 = self.index();
        let listed = index_keys(&self.tag_to_keys, tag);
        match listed {
            Some(keys) => {
                let ghost all = string_views(keys@);
                proof {
                    assert(all.to_set() =~= with_tag(entries0, tag@)) by {
                        assert forall|k: Seq<char>|
                            all.to_set().contains(k) == with_tag(entries0, tag@).contains(k) by {
                            if with_tag(entries0, tag@).contains(k) {
                                let n = choose|n: int|
                                    0 <= n < entries0[k].tags.len() && entries0[k].tags[n]
                                        == tag@;
                                assert(linked(index0, entries0[k].tags[n], k));
                            }
                            if all.to_set().contains(k) {
                                assert(linked(index0, tag@, k));
                            }
                        }
                    }
                    assert forall|i: int| 0 <= i < all.len() implies entries0.contains_key(
                        #[trigger] all[i],
                    ) by {
                        assert(all.to_set().contains(all[i]));
                    }
                    all.unique_seq_to_set();
                }
                let count = self.remove_all(&keys);
                let ghost index1 = self.index();
                index_clear_tag(&mut self.tag_to_keys, tag);
                proof {
                    let index2 = self.index();
                    assert(index1[tag@] =~= Set::empty()) by {
                        assert forall|k: Seq<char>| !index1[tag@].contains(k) by {
                            if index1[tag@].contains(k) {
                                assert(linked(index1, tag@, k));
                                assert(linked(index0, tag@, k));
                                assert(all.to_set().contains(k));
                            }
                        }
                    }
                    assert(index2 =~= index1);
                }
                count
            },
            None => {
                proof {
                    assert(with_tag(entries0, tag@) =~= Set::empty()) by {
                        assert forall|k: Seq<char>| !with_tag(entries0, tag@).contains(k) by {
                            if with_tag(entries0, tag@).contains(k) {
                                let n = choose|n: int|
                                    0 <= n < entries0[k].tags.len() && entries0[k].tags[n]
                                        == tag@;
                                assert(linked(index0, entries0[k].tags[n], k));
                            }
                        }
                    }
                    assert(entries0.remove_keys(Set::empty()) =~= entries0);
                }
                0
            },
        }
    }

    /// Removes every entry that is expired at `now` and returns how many
    /// there were: a first pass lists the expired keys, a second removes
    /// them. Sets that are left empty stay in the reverse map.
    pub fn sweep(&mut self, now: u128) -> (count: usize)
        requires
            old(self).wf(),
        ensures
            final(self).wf(),
            final(self).entries() == old(self).entries().remove_keys(
                expired_keys(old(self).entries(), now),
            ),
            count == expired_keys(old(self).entries(), now).len(),
            final(self).tags() == old(self).tags(),
    {
        let ghost entries0 = self.entries();
        let keys = entries_keys(&self.entries);
        let ghost all = string_views(keys@);
        let mut to_remove: Vec<String> = Vec::new();
        let mut i: usize = 0;
        while i < keys.len()
            invariant
                0 <= i <= keys.len(),
                self.entries() == entries0,
                all == string_views(keys@),
                all.no_duplicates(),
                all.to_set() == entries0.dom(),
                string_views(to_remove@).no_duplicates(),
                forall|k: Seq<char>| #[trigger]
                    string_views(to_remove@).contains(k) == (all.take(i as int).contains(k)
                        && expired_keys(entries0, now).contains(k)),
            decreases keys.len() - i,
        {
            let key: &String = &keys[i];
            let ghost before = string_views(to_remove@);
            proof {
                assert(all[i as int] == key@);
                assert forall|k: Seq<char>| #[trigger]
                    all.take(i + 1).contains(k) == (all.take(i as int).contains(k) || key@
                        == k) by {
                    lemma_take_step(all, i as int, k);
                }
                assert(!all.take(i as int).contains(key@)) by {
                    if all.take(i as int).contains(key@) {
                        let n = choose|n: int|
                            0 <= n < all.take(i as int).len() && all.take(i as int)[n] == key@;
                        assert(all[n] == all[i as int]);
                    }
                }
                assert(all.to_set().contains(all[i as int]));
            }
            match entries_meta(&self.entries, key.as_str()) {
                Some(meta) => {
                    if meta.is_expired(now) {
                        to_remove.push(key.clone());
                        proof {
                            assert(string_views(to_remove@) =~= before.push(key@));
                            lemma_push_contains(before, key@);
                        }
                    }
                },
                None => {},
            }
            i = i + 1;
        }
        proof {
            let chosen = string_views(to_remove@);
            assert(all.take(all.len() as int) =~= all);
            assert(chosen.to_set() =~= expired_keys(entries0, now)) by {
                assert forall|k: Seq<char>|
                    chosen.to_set().contains(k) == expired_keys(entries0, now).contains(k) by {
                    if expired_keys(entries0, now).contains(k) {
                        assert(all.to_set().contains(k));
                    }
                }
            }
            assert forall|n: int| 0 <= n < chosen.len() implies entries0.contains_key(
                #[trigger] chosen[n],
            ) by {
                assert(chosen.contains(chosen[n]));
            }
            chosen.unique_seq_to_set();
        }
        self.remove_all(&to_remove)
    }

    /// Empties both maps and returns how many entries there were.
    pub fn clear(&mut self) -> (count: usize)
        requires
            old(self).wf(),
        ensures
            final(self).wf(),
            final(self).entries() == Map::<Seq<char>, EntryView>::empty(),
            final(self).tags() == Set::<Seq<char>>::empty(),
            count == old(self).entries().dom().len(),
    {
        let count = entries_len(&self.entries);
        entries_clear(&mut self.entries);
        index_clear(&mut self.tag_to_keys);
        count
    }

    /// Takes `key` out of the set of each of `tags`.
    fn unlink_all(&mut self, tags: &Vec<Tag>, key: &str, reclaim: bool)
        requires
            finite_index(old(self).index()),
        ensures
            final(self).entries() == old(self).entries(),
            finite_index(final(self).index()),
            forall|t: Seq<char>, k: Seq<char>| #[trigger]
                linked(final(self).index(), t, k) == (linked(old(self).index(), t, k) && !(k
                    == key@ && tag_views(tags@).contains(t))),
            forall|t: Seq<char>| #[trigger]
                final(self).index().contains_key(t) == (old(self).index().contains_key(t)
                    && !(reclaim && tag_views(tags@).contains(t) && old(self).index()[t].remove(
                    key@,
                ).len() == 0)),
    {
        let ghost index0 = self.index();
        let ghost gone = tag_views(tags@);
        let mut j: usize = 0;
        while j < tags.len()
            invariant
                0 <= j <= tags.len(),
                gone == tag_views(tags@),
                self.entries() == old(self).entries(),
                finite_index(self.index()),
                finite_index(index0),
                forall|t: Seq<char>, k: Seq<char>| #[trigger]
                    linked(self.index(), t, k) == (linked(index0, t, k) && !(k == key@
                        && gone.take(j as int).contains(t))),
                forall|t: Seq<char>| #[trigger]
                    self.index().contains_key(t) == (index0.contains_key(t) && !(reclaim
                        && gone.take(j as int).contains(t) && index0[t].remove(key@).len() == 0)),
            decreases tags.len() - j,
        {
            let ghost before = self.index();
            let tag: &str = tags[j].as_str();
            proof {
                assert(gone[j as int] == tag@);
                assert forall|t: Seq<char>| #[trigger]
                    gone.take(j + 1).contains(t) == (gone.take(j as int).contains(t) || tag@
                        == t) by {
                    lemma_take_step(gone, j as int, t);
                }
                if before.contains_key(tag@) {
                    assert(before[tag@].remove(key@) =~= index0[tag@].remove(key@)) by {
                        assert forall|k: Seq<char>|
                            before[tag@].remove(key@).contains(k) == index0[tag@].remove(
                                key@,
                            ).contains(k) by {
                            assert(linked(before, tag@, k) == (linked(index0, tag@, k) && !(k
                                == key@ && gone.take(j as int).contains(tag@))));
                        }
                    }
                }
            }
            self.unlink(tag, key, reclaim);
            j = j + 1;
        }
        proof {
            assert(gone.take(gone.len() as int) =~= gone);
        }
    }

    /// Adds `key` to the set of each of `tags`.
    fn link_all(&mut self, tags: &Vec<Tag>, key: &str)
        requires
            finite_index(old(self).index()),
        ensures
            final(self).entries() == old(self).entries(),
            finite_index(final(self).index()),
            forall|t: Seq<char>, k: Seq<char>| #[trigger]
                linked(final(self).index(), t, k) == (linked(old(self).index(), t, k) || (k
                    == key@ && tag_views(tags@).contains(t))),
            forall|t: Seq<char>| #[trigger]
                final(self).index().contains_key(t) == (old(self).index().contains_key(t)
                    || tag_views(tags@).contains(t)),
    {
        let ghost index1 = self.index();
        let ghost fresh = tag_views(tags@);
        let mut i: usize = 0;
        while i < tags.len()
            invariant
                0 <= i <= tags.len(),
                fresh == tag_views(tags@),
                self.entries() == old(self).entries(),
                finite_index(self.index()),
                forall|t: Seq<char>, k: Seq<char>| #[trigger]
                    linked(self.index(), t, k) == (linked(index1, t, k) || (k == key@
                        && fresh.take(i as int).contains(t))),
                forall|t: Seq<char>| #[trigger]
                    self.index().contains_key(t) == (index1.contains_key(t) || fresh.take(
                        i as int,
                    ).contains(t)),
            decreases tags.len() - i,
        {
            let tag: &str = tags[i].as_str();
            proof {
                assert(fresh[i as int] == tag@);
                assert forall|t: Seq<char>| #[trigger]
                    fresh.take(i + 1).contains(t) == (fresh.take(i as int).contains(t) || tag@
                        == t) by {
                    lemma_take_step(fresh, i as int, t);
                }
            }
            self.link(tag, key);
            i = i + 1;
        }
        proof {
            assert(fresh.take(fresh.len() as int) =~= fresh);
        }
    }

    /// Takes `key` out of the set of `tag`. With `reclaim`, a set that is
    /// empty afterwards leaves the reverse map.
    fn unlink(&mut self, tag: &str, key: &str, reclaim: bool)
        requires
            finite_index(old(self).index()),
        ensures
            final(self).entries() == old(self).entries(),
            finite_index(final(self).index()),
            forall|t: Seq<char>, k: Seq<char>| #[trigger]
                linked(final(self).index(), t, k) == (linked(old(self).index(), t, k) && !(t
                    == tag@ && k == key@)),
            forall|t: Seq<char>|
                t != tag@ ==> #[trigger] final(self).index().contains_key(t) == old(
                    self,
                ).index().contains_key(t),
            final(self).index().contains_key(tag@) == (old(self).index().contains_key(tag@)
                && !(reclaim && old(self).index()[tag@].remove(key@).len() == 0)),
    {
        index_detach(&mut self.tag_to_keys, tag, key);
        if reclaim {
            let count = index_count(&self.tag_to_keys, tag);
            if let Some(n) = count {
                if n == 0 {
                    proof {
                        self.index()[tag@].lemma_len0_is_empty();
                    }
                    index_remove(&mut self.tag_to_keys, tag);
                }
            }
        }
    }

    /// Adds `key` to the set of `tag`, making the set first where there is
    /// none.
    fn link(&mut self, tag: &str, key: &str)
        requires
            finite_index(old(self).index()),
        ensures
            final(self).entries() == old(self).entries(),
            finite_index(final(self).index()),
            forall|t: Seq<char>, k: Seq<char>| #[trigger]
                linked(final(self).index(), t, k) == (linked(old(self).index(), t, k) || (t
                    == tag@ && k == key@)),
            forall|t: Seq<char>| #[trigger]
                final(self).index().contains_key(t) == (old(self).index().contains_key(t) || t
                    == tag@),
    {
        index_attach(&mut self.tag_to_keys, tag, key);
    }
}

} // verus!
