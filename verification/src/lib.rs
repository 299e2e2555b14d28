//! A sharded in-memory key/value cache with tag-based grouping and
//! invalidation, together with the command and request logic of its two
//! front-ends.
//!
//! Time is an argument: every operation that depends on the clock takes the
//! reading of a monotonic clock in nanoseconds, and a write takes the wall
//! clock in milliseconds since the Unix epoch besides. An operation that
//! changes the cache takes it by `&mut`; a caller that shares a cache among
//! threads puts it behind a lock.
//!
//! `model` says what each operation does to the cache as a mathematical
//! value, `laws` what follows for every cache and every run of operations.
//! `store` holds what is taken on trust of the collections that a shard is
//! built on.

pub mod types;
pub mod text;
pub mod sets;
pub mod store;
pub mod shard;
pub mod model;
pub mod cache;
pub mod laws;
pub mod config;
pub mod limits;
pub mod protocol;
pub mod api;
pub mod order;
pub mod search;
pub mod auth;
