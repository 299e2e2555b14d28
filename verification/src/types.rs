//! Keys, tags, entries and the statistics record.

use crate::store::{tag_seq, TagList};
use vstd::prelude::*;

verus! {

/// The identifier under which a value is stored. Two keys are the same key
/// when their characters are the same.
#[derive(Debug, PartialEq, Eq, Hash)]
pub struct Key(pub String);

/// A label attached to entries for grouped lookup and invalidation.
#[derive(Debug, PartialEq, Eq, Hash)]
pub struct Tag(pub String);

impl View for Key {
    type V = Seq<char>;

    open spec fn view(&self) -> Seq<char> {
        self.0@
    }
}

impl View for Tag {
    type V = Seq<char>;

    open spec fn view(&self) -> Seq<char> {
        self.0@
    }
}

impl Clone for Key {
    fn clone(&self) -> (copy: Self)
        ensures
            copy@ == self@,
    {
        Key(self.0.clone())
    }
}

impl Clone for Tag {
    fn clone(&self) -> (copy: Self)
        ensures
            copy@ == self@,
    {
        Tag(self.0.clone())
    }
}

impl Key {
    /// The key with these characters.
    pub fn new(s: &str) -> (key: Key)
        ensures
            key@ == s@,
    {
        Key(s.to_owned())
    }

    /// The characters of the key.
    pub fn as_str(&self) -> (s: &str)
        ensures
            s@ == self@,
    {
        self.0.as_str()
    }
}

impl Tag {
    /// The tag with these characters.
    pub fn new(s: &str) -> (tag: Tag)
        ensures
            tag@ == s@,
    {
        Tag(s.to_owned())
    }

    /// The characters of the tag.
    pub fn as_str(&self) -> (s: &str)
        ensures
            s@ == self@,
    {
        self.0.as_str()
    }
}

/// The tags of a vector of tags, each as its characters.
pub open spec fn tag_views(tags: Seq<Tag>) -> Seq<Seq<char>> {
    Seq::new(tags.len(), |i: int| tags[i]@)
}

/// The keys of a vector of keys, each as its characters.
pub open spec fn key_views(keys: Seq<Key>) -> Seq<Seq<char>> {
    Seq::new(keys.len(), |i: int| keys[i]@)
}

/// The strings of a vector of strings, each as its characters.
pub open spec fn string_views(items: Seq<String>) -> Seq<Seq<char>> {
    Seq::new(items.len(), |i: int| items[i]@)
}

/// Time that has passed on the monotonic clock between `created_at` and
/// `now`, both in nanoseconds. A clock reading earlier than the creation
/// counts as no time passed.
pub open spec fn elapsed_between(created_at: u128, now: u128) -> u128 {
    if now >= created_at {
        (now - created_at) as u128
    } else {
        0
    }
}

/// What an entry is, as mathematical values.
pub struct EntryView {
    pub value: Seq<char>,
    pub tags: Seq<Seq<char>>,
    pub created_at: u128,
    pub ttl: Option<u128>,
    pub created_system: Option<u64>,
}

/// An entry is expired once strictly more time than its time-to-live has
/// passed since its creation; without a time-to-live it never expires.
pub open spec fn expired_at(created_at: u128, ttl: Option<u128>, now: u128) -> bool {
    match ttl {
        Some(ttl) => elapsed_between(created_at, now) > ttl,
        None => false,
    }
}

/// Whole milliseconds of life left at `now`, as far as they fit in 64 bits;
/// zero once the time-to-live has run out, `None` without one.
pub open spec fn remaining_at(created_at: u128, ttl: Option<u128>, now: u128) -> Option<u64> {
    match ttl {
        Some(ttl) => {
            let elapsed = elapsed_between(created_at, now);
            if elapsed >= ttl {
                Some(0u64)
            } else {
                Some((((ttl - elapsed) / 1_000_000) % 0x1_0000_0000_0000_0000) as u64)
            }
        },
        None => None,
    }
}

impl EntryView {
    /// Whether the entry is expired at `now`.
    pub open spec fn is_expired(self, now: u128) -> bool {
        expired_at(self.created_at, self.ttl, now)
    }

    /// Whole milliseconds of life left at `now`.
    pub open spec fn remaining_ms(self, now: u128) -> Option<u64> {
        remaining_at(self.created_at, self.ttl, now)
    }

    /// Length of the value in bytes.
    pub open spec fn size(self) -> nat {
        vstd::utf8::encode_utf8(self.value).len()
    }
}

/// Whether an entry with these times is expired at `now`.
pub fn is_expired_at(created_at: u128, ttl: Option<u128>, now: u128) -> (expired: bool)
    ensures
        expired == expired_at(created_at, ttl, now),
{
    match ttl {
        Some(ttl) => {
            let elapsed: u128 = if now >= created_at {
                now - created_at
            } else {
                0
            };
            elapsed > ttl
        },
        None => false,
    }
}

/// Whole milliseconds of life that an entry with these times has left at
/// `now`.
pub fn remaining_ms_at(created_at: u128, ttl: Option<u128>, now: u128) -> (left: Option<u64>)
    ensures
        left == remaining_at(created_at, ttl, now),
{
    match ttl {
        Some(ttl) => {
            let elapsed: u128 = if now >= created_at {
                now - created_at
            } else {
                0
            };
            if elapsed >= ttl {
                Some(0)
            } else {
                let ms: u128 = (ttl - elapsed) / 1_000_000;
                Some((ms % 0x1_0000_0000_0000_0000) as u64)
            }
        },
        None => None,
    }
}

/// One stored record. Times are readings of a monotonic clock in
/// nanoseconds; `created_system` is the wall clock at creation in
/// milliseconds since the Unix epoch, where the wall clock was not before it.
#[derive(Debug)]
pub struct Entry {
    pub value: String,
    pub tags: TagList,
    pub created_at: u128,
    pub ttl: Option<u128>,
    pub created_system: Option<u64>,
}

impl View for Entry {
    type V = EntryView;

    open spec fn view(&self) -> EntryView {
        EntryView {
            value: self.value@,
            tags: tag_seq(self.tags),
            created_at: self.created_at,
            ttl: self.ttl,
            created_system: self.created_system,
        }
    }
}

impl Clone for Entry {
    fn clone(&self) -> (copy: Self)
        ensures
            copy@ == self@,
    {
        Entry {
            value: self.value.clone(),
            tags: TagList::from_vec(self.tags.to_vec()),
            created_at: self.created_at,
            ttl: self.ttl,
            created_system: self.created_system,
        }
    }
}

impl Entry {
    /// A copy of the tags, in order.
    pub fn tag_list(&self) -> (tags: Vec<Tag>)
        ensures
            tag_views(tags@) == self@.tags,
    {
        self.tags.to_vec()
    }

    /// Whether the entry is expired at `now`.
    pub fn is_expired(&self, now: u128) -> (expired: bool)
        ensures
            expired == self@.is_expired(now),
    {
        is_expired_at(self.created_at, self.ttl, now)
    }
}

/// What is read of an entry without copying its value.
pub struct EntryMeta {
    pub tags: Vec<Tag>,
    pub created_at: u128,
    pub ttl: Option<u128>,
    pub created_system: Option<u64>,
    /// Length of the value in bytes.
    pub size: usize,
}

impl EntryMeta {
    /// Whether this is what `entry` holds besides its value.
    pub open spec fn describes(self, entry: EntryView) -> bool {
        &&& tag_views(self.tags@) == entry.tags
        &&& self.created_at == entry.created_at
        &&& self.ttl == entry.ttl
        &&& self.created_system == entry.created_system
        &&& self.size == entry.size()
    }

    /// Whether the entry that this describes is expired at `now`.
    pub fn is_expired(&self, now: u128) -> (expired: bool)
        ensures
            expired == expired_at(self.created_at, self.ttl, now),
    {
        is_expired_at(self.created_at, self.ttl, now)
    }
}

/// Counters of what the cache has done since it was made. They only grow,
/// and wrap around at the top of the 64-bit range.
#[derive(Debug, Clone, Copy, PartialEq, Eq, Structural)]
pub struct CacheStats {
    pub hits: u64,
    pub misses: u64,
    pub puts: u64,
    pub invalidations: u64,
}

impl Default for CacheStats {
    fn default() -> (stats: Self)
        ensures
            stats == (CacheStats { hits: 0, misses: 0, puts: 0, invalidations: 0 }),
    {
        CacheStats { hits: 0, misses: 0, puts: 0, invalidations: 0 }
    }
}

} // verus!
