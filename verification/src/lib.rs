//! Core of a caching reverse proxy: bounded-size LRU and TTL cache policies
//! over an in-memory metadata store and blob storage, together with the
//! key schemas used by the networked and embedded metadata backends, and the
//! task-manager logic that routes requests, rewrites payloads and deduplicates
//! background fills.

use vstd::prelude::*;

pub mod cache;
pub mod data;
pub mod error;
pub mod lru;
pub mod metric;
pub mod rediskeys;
pub mod settings;
pub mod sledenc;
pub mod storage;
pub mod task;
pub mod text;
pub mod ttl;

verus! {

/// Datatype of cache sizes. It is persisted by the metadata backends, so
/// changes may not be backward compatible.
pub type CacheSizeType = u64;

/// Outcome of a metadata lookup.
#[derive(Clone, Copy, Debug, PartialEq, Eq, Structural)]
pub enum CacheHitMiss {
    Hit,
    Miss,
}

} // verus!
