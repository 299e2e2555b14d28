//! The bounds on what may be stored, and the refusal of what is beyond
//! them.

use crate::config::CacheConfig;
use crate::types::{tag_views, Tag};
use vstd::prelude::*;

verus! {

/// Why a write is refused.
#[derive(Debug, Clone, Copy, PartialEq, Eq, Structural)]
pub enum BadRequest {
    /// The key is empty.
    MissingKey,
    /// The key has more bytes than `max_key_length`.
    KeyTooLong,
    /// The value has more bytes than `max_value_length`.
    ValueTooLong,
    /// There are more tags than `max_tags_per_entry`.
    TooManyTags,
}

/// The length of a text in bytes.
pub open spec fn byte_len(s: Seq<char>) -> usize {
    vstd::utf8::encode_utf8(s).len() as usize
}

/// Why a write of `value` under `key` with `tags` is refused, if it is:
/// the first of the bounds that it is beyond, the key's first.
pub open spec fn put_refusal(
    limits: CacheConfig,
    key: Seq<char>,
    value: Seq<char>,
    tags: Seq<Seq<char>>,
) -> Option<BadRequest> {
    if key.len() == 0 {
        Some(BadRequest::MissingKey)
    } else if byte_len(key) > limits.max_key_length {
        Some(BadRequest::KeyTooLong)
    } else if byte_len(value) > limits.max_value_length {
        Some(BadRequest::ValueTooLong)
    } else if tags.len() > limits.max_tags_per_entry {
        Some(BadRequest::TooManyTags)
    } else {
        None
    }
}

/// Tests a write against the bounds.
pub fn check_put(limits: &CacheConfig, key: &str, value: &str, tags: &Vec<Tag>) -> (refusal:
    Option<BadRequest>)
    ensures
        refusal == put_refusal(*limits, key@, value@, tag_views(tags@)),
{
    if key.is_empty() {
        Some(BadRequest::MissingKey)
    } else if key.len() > limits.max_key_length {
        Some(BadRequest::KeyTooLong)
    } else if value.len() > limits.max_value_length {
        Some(BadRequest::ValueTooLong)
    } else if tags.len() > limits.max_tags_per_entry {
        Some(BadRequest::TooManyTags)
    } else {
        None
    }
}

/// The reason as the front-ends write it.
pub open spec fn reason_spec(r: BadRequest) -> Seq<char> {
    match r {
        BadRequest::MissingKey => "missing_key"@,
        BadRequest::KeyTooLong => "key_too_long"@,
        BadRequest::ValueTooLong => "value_too_long"@,
        BadRequest::TooManyTags => "too_many_tags"@,
    }
}

impl BadRequest {
    /// The reason as the front-ends write it.
    pub fn reason(&self) -> (text: &'static str)
        ensures
            text@ == reason_spec(*self),
    {
        match self {
            BadRequest::MissingKey => "missing_key",
            BadRequest::KeyTooLong => "key_too_long",
            BadRequest::ValueTooLong => "value_too_long",
            BadRequest::TooManyTags => "too_many_tags",
        }
    }
}

} // verus!
