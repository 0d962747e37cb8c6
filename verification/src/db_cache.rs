//! Cache accounting.
use vstd::prelude::*;

verus! {

/// How full a cache is.
#[derive(Clone, Copy, PartialEq, Eq, Structural, Debug)]
pub enum CacheUsageSnapshot {
    /// There is no such cache.
    Disabled,
    /// There is one, and how full it is cannot be told.
    Unavailable,
    /// The bytes in use and, where it is limited, the bytes there are.
    Ready { used_bytes: u64, capacity_bytes: Option<u64> },
}

/// How full the tiers of the block cache are.
#[derive(Clone, Copy, PartialEq, Eq, Structural, Debug)]
pub struct DbCacheUsageSnapshot {
    pub memory: CacheUsageSnapshot,
    pub disk: CacheUsageSnapshot,
}

/// How full the caches of a reader are.
#[derive(Clone, Copy, PartialEq, Eq, Structural, Debug)]
pub struct SlateDbCacheUsageSnapshot {
    pub db_cache: DbCacheUsageSnapshot,
    pub object_store: CacheUsageSnapshot,
}

} // verus!
