//! Request-scoped storage metrics for foreground query execution.
//!
//! An observer counts what one query does. Storage paths record against the
//! observer of the query they run for, so concurrent queries cannot contaminate
//! each other's counters.
use vstd::prelude::*;

verus! {

/// A cache that a query reads through.
#[derive(Clone, Copy, Debug, PartialEq, Eq, Structural)]
pub enum QueryCacheKind {
    Block,
    Object,
}

/// How often a cache did and did not hold what was asked for.
#[derive(Clone, Copy, Debug, Default, PartialEq, Eq, Structural)]
pub struct QueryCacheStatistics {
    pub hits: u64,
    pub misses: u64,
}

/// What a query did so far.
#[derive(Clone, Copy, Debug, Default, PartialEq, Eq, Structural)]
pub struct QueryMetricsSnapshot {
    pub block_cache: QueryCacheStatistics,
    pub object_cache: QueryCacheStatistics,
    pub object_storage_reads: u64,
}

/// Counts what a query does. The counters wrap around. There is one observer for a
/// query: whoever records for it, and whoever reads it, shares that one.
#[derive(Debug)]
pub struct QueryMetricsObserver {
    block_cache_hits: u64,
    block_cache_misses: u64,
    object_cache_hits: u64,
    object_cache_misses: u64,
    object_storage_reads: u64,
}

impl View for QueryMetricsObserver {
    type V = QueryMetricsSnapshot;

    closed spec fn view(&self) -> QueryMetricsSnapshot {
        QueryMetricsSnapshot {
            block_cache: QueryCacheStatistics {
                hits: self.block_cache_hits,
                misses: self.block_cache_misses,
            },
            object_cache: QueryCacheStatistics {
                hits: self.object_cache_hits,
                misses: self.object_cache_misses,
            },
            object_storage_reads: self.object_storage_reads,
        }
    }
}

/// A counter after one more event.
pub open spec fn counted(count: u64) -> u64 {
    if count == u64::MAX {
        0
    } else {
        (count + 1) as u64
    }
}

impl QueryCacheStatistics {
    /// The statistics after one more access.
    pub open spec fn accessed(self, hit: bool) -> QueryCacheStatistics {
        if hit {
            QueryCacheStatistics { hits: counted(self.hits), ..self }
        } else {
            QueryCacheStatistics { misses: counted(self.misses), ..self }
        }
    }
}

/// What a storage path records.
pub enum QueryEvent {
    CacheAccess { kind: QueryCacheKind, hit: bool },
    ObjectStorageRead,
}

impl QueryMetricsSnapshot {
    /// The counters after an event.
    pub open spec fn recorded(self, event: QueryEvent) -> QueryMetricsSnapshot {
        match event {
            QueryEvent::CacheAccess { kind: QueryCacheKind::Block, hit } => QueryMetricsSnapshot {
                block_cache: self.block_cache.accessed(hit),
                ..self
            },
            QueryEvent::CacheAccess { kind: QueryCacheKind::Object, hit } => QueryMetricsSnapshot {
                object_cache: self.object_cache.accessed(hit),
                ..self
            },
            QueryEvent::ObjectStorageRead => QueryMetricsSnapshot {
                object_storage_reads: counted(self.object_storage_reads),
                ..self
            },
        }
    }
}

impl Default for QueryMetricsObserver {
    /// Nothing was counted yet.
    fn default() -> (observer: Self)
        ensures
            observer@ == (QueryMetricsSnapshot {
                block_cache: QueryCacheStatistics { hits: 0, misses: 0 },
                object_cache: QueryCacheStatistics { hits: 0, misses: 0 },
                object_storage_reads: 0,
            }),
    {
        QueryMetricsObserver {
            block_cache_hits: 0,
            block_cache_misses: 0,
            object_cache_hits: 0,
            object_cache_misses: 0,
            object_storage_reads: 0,
        }
    }
}

impl QueryMetricsObserver {
    /// The counters.
    #[must_use]
    pub fn snapshot(&self) -> (snapshot: QueryMetricsSnapshot)
        ensures
            snapshot == self@,
    {
        QueryMetricsSnapshot {
            block_cache: QueryCacheStatistics {
                hits: self.block_cache_hits,
                misses: self.block_cache_misses,
            },
            object_cache: QueryCacheStatistics {
                hits: self.object_cache_hits,
                misses: self.object_cache_misses,
            },
            object_storage_reads: self.object_storage_reads,
        }
    }

    /// Counts an access to a cache.
    pub fn record_cache(&mut self, kind: QueryCacheKind, hit: bool)
        ensures
            final(self)@ == old(self)@.recorded(QueryEvent::CacheAccess { kind, hit }),
            final(self)@.block_cache.hits == (old(self)@.block_cache.hits + if kind == QueryCacheKind::Block
                && hit {
                1int
            } else {
                0int
            }) % 0x1_0000_0000_0000_0000,
            final(self)@.block_cache.misses == (old(self)@.block_cache.misses + if kind
                == QueryCacheKind::Block && !hit {
                1int
            } else {
                0int
            }) % 0x1_0000_0000_0000_0000,
            final(self)@.object_cache.hits == (old(self)@.object_cache.hits + if kind
                == QueryCacheKind::Object && hit {
                1int
            } else {
                0int
            }) % 0x1_0000_0000_0000_0000,
            final(self)@.object_cache.misses == (old(self)@.object_cache.misses + if kind
                == QueryCacheKind::Object && !hit {
                1int
            } else {
                0int
            }) % 0x1_0000_0000_0000_0000,
            final(self)@.object_storage_reads == old(self)@.object_storage_reads,
    {
        match (kind, hit) {
            (QueryCacheKind::Block, true) => {
                self.block_cache_hits = self.block_cache_hits.wrapping_add(1);
            },
            (QueryCacheKind::Block, false) => {
                self.block_cache_misses = self.block_cache_misses.wrapping_add(1);
            },
            (QueryCacheKind::Object, true) => {
                self.object_cache_hits = self.object_cache_hits.wrapping_add(1);
            },
            (QueryCacheKind::Object, false) => {
                self.object_cache_misses = self.object_cache_misses.wrapping_add(1);
            },
        }
    }

    /// Counts a read from object storage.
    pub fn record_object_storage_read(&mut self)
        ensures
            final(self)@ == old(self)@.recorded(QueryEvent::ObjectStorageRead),
            final(self)@.block_cache == old(self)@.block_cache,
            final(self)@.object_cache == old(self)@.object_cache,
            final(self)@.object_storage_reads == (old(self)@.object_storage_reads + 1)
                % 0x1_0000_0000_0000_0000,
    {
        self.object_storage_reads = self.object_storage_reads.wrapping_add(1);
    }
}

/// Counts an access to a cache for the query in scope. Outside any scope the
/// access is ignored.
pub fn record_cache_access(
    scope: Option<&mut QueryMetricsObserver>,
    kind: QueryCacheKind,
    hit: bool,
)
    ensures
        scope matches Some(observer) ==> final(observer)@ == observer@.recorded(
            QueryEvent::CacheAccess { kind, hit },
        ),
        scope matches Some(observer) ==> {
            &&& final(observer)@.block_cache.hits == (observer@.block_cache.hits + if kind == QueryCacheKind::Block
                && hit {
                1int
            } else {
                0int
            }) % 0x1_0000_0000_0000_0000
            &&& final(observer)@.block_cache.misses == (observer@.block_cache.misses + if kind
                == QueryCacheKind::Block && !hit {
                1int
            } else {
                0int
            }) % 0x1_0000_0000_0000_0000
            &&& final(observer)@.object_cache.hits == (observer@.object_cache.hits + if kind
                == QueryCacheKind::Object && hit {
                1int
            } else {
                0int
            }) % 0x1_0000_0000_0000_0000
            &&& final(observer)@.object_cache.misses == (observer@.object_cache.misses + if kind
                == QueryCacheKind::Object && !hit {
                1int
            } else {
                0int
            }) % 0x1_0000_0000_0000_0000
            &&& final(observer)@.object_storage_reads == observer@.object_storage_reads
        },
{
    if let Some(observer) = scope {
        observer.record_cache(kind, hit);
    }
}

/// Counts a read from object storage for the query in scope. Outside any scope the
/// read is ignored.
pub fn record_object_storage_read(scope: Option<&mut QueryMetricsObserver>)
    ensures
        scope matches Some(observer) ==> final(observer)@ == observer@.recorded(
            QueryEvent::ObjectStorageRead,
        ),
        scope matches Some(observer) ==> {
            &&& final(observer)@.block_cache == observer@.block_cache
            &&& final(observer)@.object_cache == observer@.object_cache
            &&& final(observer)@.object_storage_reads == (observer@.object_storage_reads + 1)
                % 0x1_0000_0000_0000_0000
        },
{
    if let Some(observer) = scope {
        observer.record_object_storage_read();
    }
}

/// One event raises one counter by one, and a counter at its greatest value goes
/// on at zero: an access raises the hits or the misses of the cache it was made
/// to, and a read from object storage the reads.
pub proof fn law_one_event_raises_one_counter(start: QueryMetricsSnapshot, event: QueryEvent)
    ensures
        ({
            let end = start.recorded(event);
            let raised = |before: u64, after: u64, one: bool|
                after == (before + if one {
                    1int
                } else {
                    0int
                }) % 0x1_0000_0000_0000_0000;
            let block = event matches QueryEvent::CacheAccess { kind, .. } && kind
                == QueryCacheKind::Block;
            let object = event matches QueryEvent::CacheAccess { kind, .. } && kind
                == QueryCacheKind::Object;
            let hit = event matches QueryEvent::CacheAccess { hit, .. } && hit;
            &&& raised(start.block_cache.hits, end.block_cache.hits, block && hit)
            &&& raised(start.block_cache.misses, end.block_cache.misses, block && !hit)
            &&& raised(start.object_cache.hits, end.object_cache.hits, object && hit)
            &&& raised(start.object_cache.misses, end.object_cache.misses, object && !hit)
            &&& raised(
                start.object_storage_reads,
                end.object_storage_reads,
                event is ObjectStorageRead,
            )
        }),
{
}

/// Events are counted one after the other, however they are grouped.
pub proof fn law_events_are_counted_one_after_the_other(
    start: QueryMetricsSnapshot,
    first: Seq<QueryEvent>,
    second: Seq<QueryEvent>,
    event: QueryEvent,
)
    ensures
        recorded_all(start, first + second) == recorded_all(recorded_all(start, first), second),
        recorded_all(start, seq![event]) == start.recorded(event),
        recorded_all(start, Seq::<QueryEvent>::empty()) == start,
    decreases second.len(),
{
    assert(recorded_all(start, Seq::<QueryEvent>::empty()) == start);
    assert(seq![event].drop_last() =~= Seq::<QueryEvent>::empty());
    assert(recorded_all(start, seq![event]) == start.recorded(event));
    if second.len() == 0 {
        assert(first + second =~= first);
    } else {
        law_events_are_counted_one_after_the_other(start, first, second.drop_last(), event);
        assert((first + second).drop_last() =~= first + second.drop_last());
        assert((first + second).last() == second.last());
    }
}

/// The counters after several events.
pub open spec fn recorded_all(
    start: QueryMetricsSnapshot,
    events: Seq<QueryEvent>,
) -> QueryMetricsSnapshot
    decreases events.len(),
{
    if events.len() == 0 {
        start
    } else {
        recorded_all(start, events.drop_last()).recorded(events.last())
    }
}

/// The counters of several queries after events that each happen in the scope of
/// one of them.
pub open spec fn recorded_by_scope(
    start: Map<int, QueryMetricsSnapshot>,
    events: Seq<(int, QueryEvent)>,
) -> Map<int, QueryMetricsSnapshot>
    decreases events.len(),
{
    if events.len() == 0 {
        start
    } else {
        let before = recorded_by_scope(start, events.drop_last());
        let (query, event) = events.last();
        if before.contains_key(query) {
            before.insert(query, before[query].recorded(event))
        } else {
            before
        }
    }
}

/// The events in the scope of one query, in order.
pub open spec fn events_of(events: Seq<(int, QueryEvent)>, query: int) -> Seq<QueryEvent>
    decreases events.len(),
{
    if events.len() == 0 {
        Seq::empty()
    } else {
        let before = events_of(events.drop_last(), query);
        if events.last().0 == query {
            before.push(events.last().1)
        } else {
            before
        }
    }
}

/// However the events of concurrent queries interleave, each query counts its
/// own events and no others.
pub proof fn law_scopes_do_not_share_counters(
    start: Map<int, QueryMetricsSnapshot>,
    events: Seq<(int, QueryEvent)>,
    query: int,
)
    requires
        start.contains_key(query),
    ensures
        recorded_by_scope(start, events).contains_key(query),
        recorded_by_scope(start, events)[query] == recorded_all(
            start[query],
            events_of(events, query),
        ),
    decreases events.len(),
{
    if events.len() > 0 {
        law_scopes_do_not_share_counters(start, events.drop_last(), query);
        let before = events_of(events.drop_last(), query);
        if events.last().0 == query {
            assert(events_of(events, query).drop_last() =~= before);
        }
    }
}

} // verus!
