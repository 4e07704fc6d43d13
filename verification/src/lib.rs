//! An asynchronous loading cache core with single-flight deduplication and
//! pluggable eviction backings.
//!
//! This crate holds the verified heart of such a cache: the backing stores
//! (an unbounded map, a bounded least-recently-used store, and a
//! time-to-live store with an ordered expiry index), the entry model, and
//! the engine that serializes all state transitions on the key space. The
//! asynchronous transport (channels, task spawning, timers) lives outside;
//! it drives the engine one message at a time and performs the pending work
//! that the engine's results describe.

use vstd::prelude::*;

pub mod keys;
pub mod assoc;
pub mod backing;
pub mod backing_lru;
pub mod backing_ttl;
pub mod cache_api;
pub mod internal_cache;
pub mod laws;

pub use keys::CacheKey;
pub use keys::CacheValue;
pub use keys::ThingOne;
pub use keys::ThingTwo;

verus! {

} // verus!
