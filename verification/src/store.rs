//! The concurrent maps and the keyed hasher that a shard is built on, with
//! what the rest of the library relies on of each.
//!
//! Nothing in this file is proved: each function below makes one call into
//! `dashmap`, `ahash` or `smallvec`, and its contract states what that call
//! does to what the collection holds. The contents are named by
//! `entry_map`, `tag_index` and `tag_seq`, the hash by `keyed_hash`.

use crate::types::{string_views, tag_views, Entry, EntryMeta, EntryView, Tag};
use dashmap::{DashMap, DashSet};
use smallvec::SmallVec;
use std::hash::{BuildHasher, Hash, Hasher};
use vstd::prelude::*;

verus! {

/// `dashmap::DashMap`, of which nothing is known but what the functions
/// below state.
#[verifier::external_type_specification]
#[verifier::external_body]
#[verifier::reject_recursive_types(K)]
#[verifier::reject_recursive_types(V)]
#[verifier::reject_recursive_types(S)]
pub struct ExDashMap<K, V, S>(DashMap<K, V, S>);

/// `dashmap::DashSet`, of which nothing is known but what the functions
/// below state.
#[verifier::external_type_specification]
#[verifier::external_body]
#[verifier::reject_recursive_types(K)]
#[verifier::reject_recursive_types(S)]
pub struct ExDashSet<K, S>(DashSet<K, S>);

/// `ahash::RandomState`: the keys of a hasher.
#[verifier::external_type_specification]
#[verifier::external_body]
pub struct ExKeyedState(ahash::RandomState);

/// The entries that a forward map holds, by the characters of their keys.
pub uninterp spec fn entry_map(m: DashMap<String, Entry>) -> Map<Seq<char>, EntryView>;

/// The key sets that a reverse map holds, by the characters of their tags.
pub uninterp spec fn tag_index(m: DashMap<String, DashSet<String>>) -> Map<
    Seq<char>,
    Set<Seq<char>>,
>;

/// The 64-bit hash that a hasher state gives to a key. One state gives the
/// same key the same hash every time; two states need not agree.
pub uninterp spec fn keyed_hash(state: ahash::RandomState, key: Seq<char>) -> u64;

/// The tags of one entry, in the order in which they were given: a
/// `smallvec::SmallVec` that keeps up to four of them inline, without an
/// allocation of their own. Nothing is known of it but what `from_vec` and
/// `to_vec` state.
#[verifier::external_body]
#[derive(Debug)]
pub struct TagList {
    inner: SmallVec<[Tag; 4]>,
}

/// The tags that a tag list holds, in order.
pub uninterp spec fn tag_seq(tags: TagList) -> Seq<Seq<char>>;

impl TagList {
    /// `SmallVec::from_vec`: the list holds the tags of `tags`, in the same
    /// order.
    #[verifier::external_body]
    pub(crate) fn from_vec(tags: Vec<Tag>) -> (held: TagList)
        ensures
            tag_seq(held) == tag_views(tags@),
    {
        TagList { inner: SmallVec::from_vec(tags) }
    }

    /// `SmallVec::to_vec`: a vector of copies of the tags held, in the same
    /// order.
    #[verifier::external_body]
    pub(crate) fn to_vec(&self) -> (tags: Vec<Tag>)
        ensures
            tag_views(tags@) == tag_seq(*self),
    {
        self.inner.to_vec()
    }
}

/// `ahash::RandomState::new`: a hasher state with keys of its own. Nothing
/// is known of the keys.
#[verifier::external_body]
pub(crate) fn state_new() -> (state: ahash::RandomState) {
    ahash::RandomState::new()
}

/// `BuildHasher::build_hasher` of `ahash::RandomState`, `Hash::hash` of the
/// key and `Hasher::finish` of the hasher: the hash that this state gives
/// to this key.
#[verifier::external_body]
pub(crate) fn hash_with(state: &ahash::RandomState, key: &str) -> (hash: u64)
    ensures
        hash == keyed_hash(*state, key@),
{
    let mut hasher = state.build_hasher();
    key.hash(&mut hasher);
    hasher.finish()
}

/// `DashMap::new`: a map that holds nothing.
#[verifier::external_body]
pub(crate) fn entries_new() -> (m: DashMap<String, Entry>)
    ensures
        entry_map(m) == (Map::<Seq<char>, EntryView>::empty()),
{
    DashMap::new()
}

/// `DashMap::get`, with the entry found copied out: `Some` exactly for a
/// key that the map holds, and then a copy of its entry.
#[verifier::external_body]
pub(crate) fn entries_get(m: &DashMap<String, Entry>, key: &str) -> (found: Option<Entry>)
    ensures
        found is Some == entry_map(*m).contains_key(key@),
        found matches Some(entry) ==> entry@ == entry_map(*m)[key@],
{
    m.get(key).map(|e| e.value().clone())
}

/// `DashMap::get`, with all of the entry found but its value copied out:
/// `Some` exactly for a key that the map holds, and then its tags, its
/// times and the length of its value in bytes.
#[verifier::external_body]
pub(crate) fn entries_meta(m: &DashMap<String, Entry>, key: &str) -> (found: Option<EntryMeta>)
    ensures
        found is Some == entry_map(*m).contains_key(key@),
        found matches Some(meta) ==> meta.describes(entry_map(*m)[key@]),
{
    m.get(key).map(|e| EntryMeta {
        tags: e.tags.inner.to_vec(),
        created_at: e.created_at,
        ttl: e.ttl,
        created_system: e.created_system,
        size: e.value.len(),
    })
}

/// `DashMap::insert`: afterwards the key maps to the entry, whatever it
/// mapped to before, and every other key is as it was.
#[verifier::external_body]
pub(crate) fn entries_insert(m: &mut DashMap<String, Entry>, key: String, entry: Entry)
    ensures
        entry_map(*final(m)) == entry_map(*old(m)).insert(key@, entry@),
{
    m.insert(key, entry);
}

/// `DashMap::remove`: the key is gone afterwards and every other key is as
/// it was; the entry that the key mapped to is returned.
#[verifier::external_body]
pub(crate) fn entries_remove(m: &mut DashMap<String, Entry>, key: &str) -> (removed: Option<Entry>)
    ensures
        entry_map(*final(m)) == entry_map(*old(m)).remove(key@),
        removed is Some == entry_map(*old(m)).contains_key(key@),
        removed matches Some(entry) ==> entry@ == entry_map(*old(m))[key@],
{
    m.remove(key).map(|(_, entry)| entry)
}

/// `DashMap::len`: the number of keys that the map holds.
#[verifier::external_body]
pub(crate) fn entries_len(m: &DashMap<String, Entry>) -> (n: usize)
    ensures
        n == entry_map(*m).dom().len(),
{
    m.len()
}

/// `DashMap::clear`: the map holds nothing afterwards.
#[verifier::external_body]
pub(crate) fn entries_clear(m: &mut DashMap<String, Entry>)
    ensures
        entry_map(*final(m)) == (Map::<Seq<char>, EntryView>::empty()),
{
    m.clear();
}

/// `DashMap::iter`, with each key copied out: every key that the map holds,
/// once each, in an order that is not specified.
#[verifier::external_body]
pub(crate) fn entries_keys(m: &DashMap<String, Entry>) -> (keys: Vec<String>)
    ensures
        string_views(keys@).no_duplicates(),
        string_views(keys@).to_set() == entry_map(*m).dom(),
{
    m.iter().map(|e| e.key().clone()).collect()
}

/// `DashMap::new`: a map that holds nothing.
#[verifier::external_body]
pub(crate) fn index_new() -> (m: DashMap<String, DashSet<String>>)
    ensures
        tag_index(m) == (Map::<Seq<char>, Set<Seq<char>>>::empty()),
{
    DashMap::new()
}

/// `DashMap::entry`, `Entry::or_insert_with` and `DashSet::insert`: the key
/// joins the set of the tag, which is made empty first where the map had
/// none for the tag. Every other tag is as it was.
#[verifier::external_body]
pub(crate) fn index_attach(m: &mut DashMap<String, DashSet<String>>, tag: &str, key: &str)
    ensures
        tag_index(*final(m)) == tag_index(*old(m)).insert(
            tag@,
            (if tag_index(*old(m)).contains_key(tag@) {
                tag_index(*old(m))[tag@]
            } else {
                Set::empty()
            }).insert(key@),
        ),
{
    m.entry(tag.to_owned()).or_insert_with(DashSet::new).insert(key.to_owned());
}

/// `DashMap::get` and `DashSet::remove`: the key leaves the set of the tag,
/// where the map has one. The set stays in the map, also when it is empty
/// afterwards. Every other tag is as it was.
#[verifier::external_body]
pub(crate) fn index_detach(m: &mut DashMap<String, DashSet<String>>, tag: &str, key: &str)
    ensures
        tag_index(*final(m)) == (if tag_index(*old(m)).contains_key(tag@) {
            tag_index(*old(m)).insert(tag@, tag_index(*old(m))[tag@].remove(key@))
        } else {
            tag_index(*old(m))
        }),
{
    if let Some(keys) = m.get(tag) {
        keys.remove(key);
    }
}

/// `DashMap::get` and `DashSet::len`: `Some` exactly for a tag that the
/// map has a set for, and then the number of keys in that set.
#[verifier::external_body]
pub(crate) fn index_count(m: &DashMap<String, DashSet<String>>, tag: &str) -> (count: Option<usize>)
    ensures
        count is Some == tag_index(*m).contains_key(tag@),
        count matches Some(n) ==> n == tag_index(*m)[tag@].len(),
{
    m.get(tag).map(|keys| keys.len())
}

/// `DashMap::get` and `DashSet::iter`, with each key copied out: `Some`
/// exactly for a tag that the map has a set for, and then every key of that
/// set, once each, in an order that is not specified.
#[verifier::external_body]
pub(crate) fn index_keys(m: &DashMap<String, DashSet<String>>, tag: &str) -> (keys: Option<
    Vec<String>,
>)
    ensures
        keys is Some == tag_index(*m).contains_key(tag@),
        keys matches Some(list) ==> string_views(list@).no_duplicates(),
        keys matches Some(list) ==> string_views(list@).to_set() == tag_index(*m)[tag@],
{
    m.get(tag).map(|keys| keys.iter().map(|k| k.key().clone()).collect())
}

/// `DashMap::remove`: the map has no set for the tag afterwards. Every
/// other tag is as it was.
#[verifier::external_body]
pub(crate) fn index_remove(m: &mut DashMap<String, DashSet<String>>, tag: &str)
    ensures
        tag_index(*final(m)) == tag_index(*old(m)).remove(tag@),
{
    m.remove(tag);
}

/// `DashMap::get` and `DashSet::clear`: the set of the tag is empty
/// afterwards, where the map has one, and stays in the map. Every other tag
/// is as it was.
#[verifier::external_body]
pub(crate) fn index_clear_tag(m: &mut DashMap<String, DashSet<String>>, tag: &str)
    ensures
        tag_index(*final(m)) == (if tag_index(*old(m)).contains_key(tag@) {
            tag_index(*old(m)).insert(tag@, Set::empty())
        } else {
            tag_index(*old(m))
        }),
{
    if let Some(keys) = m.get(tag) {
        keys.clear();
    }
}

/// `DashMap::clear`: the map holds nothing afterwards.
#[verifier::external_body]
pub(crate) fn index_clear(m: &mut DashMap<String, DashSet<String>>)
    ensures
        tag_index(*final(m)) == (Map::<Seq<char>, Set<Seq<char>>>::empty()),
{
    m.clear();
}

/// `DashMap::iter`, with each key copied out: every tag that the map has a
/// set for, once each, in an order that is not specified.
#[verifier::external_body]
pub(crate) fn index_tags(m: &DashMap<String, DashSet<String>>) -> (tags: Vec<String>)
    ensures
        string_views(tags@).no_duplicates(),
        string_views(tags@).to_set() == tag_index(*m).dom(),
{
    m.iter().map(|e| e.key().clone()).collect()
}

} // verus!
