use bytes::Bytes;
use slatedb::blob::BytesBlob;
use slatedb::byte_string::{compare_keys, KeyOrder};
use slatedb::bytes_range::{BytesRange, KeyBound};
use slatedb::db_cache::CacheUsageSnapshot;
use slatedb::error::{IoErrorKind, SlateDBError};
use slatedb::foyer_hybrid::{
    gauge, register_gauge_vec, usage_snapshot, FoyerHybridCache, FoyerHybridCacheMetrics,
    HybridBlocks, FOYER_BLOCK_GAUGE, FOYER_BLOCK_SIZE_GAUGE,
};
use slatedb::manifest::{check_extractor, ManifestCore};
use slatedb::mem_table::{ImmutableMemtable, WritableKVTable};
use slatedb::query_metrics::{
    record_cache_access, record_object_storage_read, QueryCacheKind, QueryCacheStatistics,
    QueryMetricsObserver, QueryMetricsSnapshot,
};
use slatedb::text::{decimal_text, range_text, text_is};
use slatedb::time::{TimeSpan, Timestamp};
use slatedb::types::{RowEntry, ValueDeletable};
use std::sync::{Arc, Mutex};

fn labels(labels: &[&str]) -> Vec<String> {
    labels.iter().map(|label| label.to_string()).collect()
}

#[test]
fn tracks_pinned_foyer_block_metrics() {
    let mut metrics = FoyerHybridCacheMetrics::new();
    let block_states = register_gauge_vec(FOYER_BLOCK_GAUGE).unwrap();
    for (state, value) in [
        ("clean", 5),
        ("writing", 1),
        ("evictable", 2),
        ("reclaiming", 1),
    ] {
        let field = gauge(block_states, &labels(&["test", state])).unwrap();
        metrics.absolute(field, value);
    }
    let block_size = register_gauge_vec(FOYER_BLOCK_SIZE_GAUGE).unwrap();
    metrics.absolute(gauge(block_size, &labels(&["test"])).unwrap(), 4096);

    assert_eq!(
        metrics.disk_usage_snapshot(),
        CacheUsageSnapshot::Ready {
            used_bytes: 4 * 4096,
            capacity_bytes: Some(9 * 4096),
        }
    );
}

#[test]
fn other_gauges_are_not_kept() {
    assert!(register_gauge_vec("foyer_storage_op_total").is_none());
    let block_states = register_gauge_vec(FOYER_BLOCK_GAUGE).unwrap();
    assert!(gauge(block_states, &labels(&["test"])).is_none());
    assert!(gauge(block_states, &labels(&["clean", "test"])).is_none());
}

#[test]
fn gauges_stop_at_their_limits() {
    let mut metrics = FoyerHybridCacheMetrics::new();
    assert_eq!(metrics.disk_usage_snapshot(), CacheUsageSnapshot::Unavailable);
    let block_states = register_gauge_vec(FOYER_BLOCK_GAUGE).unwrap();
    let writing = gauge(block_states, &labels(&["test", "writing"])).unwrap();
    metrics.increase(writing, 7);
    metrics.decrease(writing, 3);
    assert_eq!(metrics.values.writing_blocks, 4);
    metrics.decrease(writing, 9);
    assert_eq!(metrics.values.writing_blocks, 0);
    metrics.increase(writing, u64::MAX);
    metrics.increase(writing, 1);
    assert_eq!(metrics.values.writing_blocks, u64::MAX);
    assert_eq!(metrics.values.clean_blocks, 0);
    let block_size = register_gauge_vec(FOYER_BLOCK_SIZE_GAUGE).unwrap();
    metrics.absolute(gauge(block_size, &vec![]).unwrap(), 2);
    assert_eq!(
        metrics.disk_usage_snapshot(),
        CacheUsageSnapshot::Ready {
            used_bytes: u64::MAX,
            capacity_bytes: Some(u64::MAX),
        }
    );
}

#[test]
fn usage_of_a_hybrid_cache_without_metrics_is_unavailable_on_disk() {
    let usage = usage_snapshot(12, 34, &None);
    assert_eq!(
        usage.memory,
        CacheUsageSnapshot::Ready {
            used_bytes: 12,
            capacity_bytes: Some(34),
        }
    );
    assert_eq!(usage.disk, CacheUsageSnapshot::Unavailable);
    let mut metrics = FoyerHybridCacheMetrics::new();
    metrics.values.block_size_bytes = 10;
    metrics.values.clean_blocks = 3;
    assert_eq!(
        usage_snapshot(0, 0, &Some(metrics)).disk,
        CacheUsageSnapshot::Ready {
            used_bytes: 0,
            capacity_bytes: Some(30),
        }
    );
}

fn memory_only_cache() -> HybridBlocks {
    let runtime = tokio::runtime::Builder::new_multi_thread()
        .worker_threads(1)
        .enable_all()
        .build()
        .unwrap();
    let cache = runtime.block_on(async {
        foyer::HybridCacheBuilder::new()
            .with_name("hybrid_cache_test")
            .memory(1024 * 1024)
            .with_shards(1)
            .with_weighter(|_: &(u128, u64), block: &Vec<u8>| block.len())
            .storage()
            .build()
            .await
            .unwrap()
    });
    // The cache goes on using the runtime.
    std::mem::forget(runtime);
    HybridBlocks { cache }
}

#[test]
fn usage_of_a_hybrid_cache_follows_its_memory_tier() {
    let hybrid = FoyerHybridCache::new_with_cache(memory_only_cache());
    assert_eq!(hybrid.entry_count(), 0);
    let empty = hybrid.usage_snapshot();
    assert_eq!(
        empty.memory,
        CacheUsageSnapshot::Ready {
            used_bytes: 0,
            capacity_bytes: Some(1024 * 1024),
        }
    );
    assert_eq!(empty.disk, CacheUsageSnapshot::Unavailable);
    hybrid.inner.cache.insert((1, 0), vec![7; 100]);
    assert_eq!(
        hybrid.usage_snapshot().memory,
        CacheUsageSnapshot::Ready {
            used_bytes: 100,
            capacity_bytes: Some(1024 * 1024),
        }
    );

    let mut metrics = FoyerHybridCacheMetrics::new();
    metrics.values.block_size_bytes = 10;
    metrics.values.evictable_blocks = 2;
    let accounted = FoyerHybridCache::new_with_cache_and_metrics(hybrid.inner, metrics);
    assert_eq!(
        accounted.usage_snapshot().disk,
        CacheUsageSnapshot::Ready {
            used_bytes: 20,
            capacity_bytes: Some(20),
        }
    );
}

/// Runs work with the observer of a scope at hand.
fn with_scope(
    observer: Arc<Mutex<QueryMetricsObserver>>,
    work: impl Fn(Option<&mut QueryMetricsObserver>),
) {
    work(Some(&mut *observer.lock().unwrap()));
}

#[test]
fn concurrent_scopes_do_not_share_counters() {
    let first = Arc::new(Mutex::new(QueryMetricsObserver::default()));
    let second = Arc::new(Mutex::new(QueryMetricsObserver::default()));

    with_scope(first.clone(), |scope| {
        record_cache_access(scope, QueryCacheKind::Block, true)
    });
    with_scope(second.clone(), |scope| {
        record_cache_access(scope, QueryCacheKind::Object, false)
    });
    with_scope(first.clone(), |scope| record_object_storage_read(scope));
    with_scope(second.clone(), |scope| {
        record_cache_access(scope, QueryCacheKind::Object, false)
    });

    assert_eq!(
        first.lock().unwrap().snapshot(),
        QueryMetricsSnapshot {
            block_cache: QueryCacheStatistics { hits: 1, misses: 0 },
            object_storage_reads: 1,
            ..QueryMetricsSnapshot::default()
        }
    );
    assert_eq!(
        second.lock().unwrap().snapshot(),
        QueryMetricsSnapshot {
            object_cache: QueryCacheStatistics { hits: 0, misses: 2 },
            ..QueryMetricsSnapshot::default()
        }
    );
}

#[test]
fn records_outside_scope_are_ignored() {
    let observer = QueryMetricsObserver::default();
    record_cache_access(None, QueryCacheKind::Block, false);
    record_object_storage_read(None);
    assert_eq!(observer.snapshot(), QueryMetricsSnapshot::default());
}

#[test]
fn each_access_counts_in_one_place() {
    let mut observer = QueryMetricsObserver::default();
    observer.record_cache(QueryCacheKind::Block, true);
    observer.record_cache(QueryCacheKind::Block, false);
    observer.record_cache(QueryCacheKind::Block, false);
    observer.record_cache(QueryCacheKind::Object, true);
    observer.record_object_storage_read();
    assert_eq!(
        observer.snapshot(),
        QueryMetricsSnapshot {
            block_cache: QueryCacheStatistics { hits: 1, misses: 2 },
            object_cache: QueryCacheStatistics { hits: 1, misses: 0 },
            object_storage_reads: 1,
        }
    );
}

#[test]
fn an_object_in_memory_is_read_by_range() {
    let blob = BytesBlob::new(Bytes::from_static(b"hello world"));
    assert_eq!(blob.len().unwrap(), 11);
    assert_eq!(blob.read().unwrap(), Bytes::from_static(b"hello world"));
    assert_eq!(blob.read_range(0..11).unwrap(), blob.read().unwrap());
    assert_eq!(blob.read_range(2..5).unwrap(), Bytes::from_static(b"llo"));
    assert_eq!(blob.read_range(11..11).unwrap(), Bytes::new());
    for (range, text) in [(5..12, "5..12"), (7..3, "7..3"), (0..u64::MAX, "0..18446744073709551615")]
    {
        match blob.read_range(range) {
            Err(SlateDBError::WalDataError { kind, message }) => {
                assert_eq!(kind, IoErrorKind::InvalidData);
                assert_eq!(
                    message,
                    format!("invalid in-memory WAL range {text} for object length 11")
                )
            }
            other => panic!("unexpected result {other:?}"),
        }
    }
    assert_eq!(range_text(0, 10), "0..10");
}

#[test]
fn keys_compare_byte_by_byte() {
    assert_eq!(compare_keys(b"", b""), KeyOrder::Equal);
    assert_eq!(compare_keys(b"a", b"ab"), KeyOrder::Less);
    assert_eq!(compare_keys(b"b", b"ab"), KeyOrder::Greater);
    assert_eq!(compare_keys(b"a\xff", b"b"), KeyOrder::Less);
}

fn range(start: KeyBound, end: KeyBound) -> BytesRange {
    BytesRange { start, end }
}

fn included(key: &'static [u8]) -> KeyBound {
    KeyBound::Included(Bytes::from_static(key))
}

fn excluded(key: &'static [u8]) -> KeyBound {
    KeyBound::Excluded(Bytes::from_static(key))
}

#[test]
fn ranges_intersect_where_they_share_keys() {
    let left = range(included(b"b"), excluded(b"m"));
    let right = range(excluded(b"b"), included(b"m"));
    let both = left.intersect(&right).unwrap();
    assert!(!both.contains(b"b"));
    assert!(both.contains(b"c"));
    assert!(!both.contains(b"m"));
    assert!(left
        .intersect(&range(included(b"m"), KeyBound::Unbounded))
        .is_none());
    assert!(range(included(b"m"), included(b"m"))
        .intersect(&range(KeyBound::Unbounded, included(b"m")))
        .unwrap()
        .contains(b"m"));
    assert!(left.intersect(&BytesRange::unbounded()).unwrap().same(&left));
}

#[test]
fn a_range_the_wrong_way_round_holds_no_key() {
    for crossed in [
        range(included(b"m"), included(b"c")),
        range(excluded(b"m"), included(b"m")),
        range(excluded(b"m"), excluded(b"m")),
    ] {
        assert!(!crossed.is_non_empty());
        for key in [&b"a"[..], b"c", b"d", b"m", b"z"] {
            assert!(!crossed.contains(key));
        }
    }
}

#[test]
fn a_table_keeps_versions_in_order_and_replaces_equal_ones() {
    let mut table = WritableKVTable::new();
    assert!(table.is_empty());
    assert_eq!(table.table().first_seq(), None);
    for (key, seq) in [("b", 2), ("a", 1), ("b", 9), ("a", 4), ("c", 3)] {
        table.put(RowEntry::new_value(key.as_bytes(), b"old", seq));
    }
    table.put(RowEntry::new_value(b"b", b"new", 2));
    let rows = table.table();
    let order: Vec<(Vec<u8>, u64)> = (0..rows.entry_num())
        .map(|i| (rows.row(i).key.to_vec(), rows.row(i).seq))
        .collect();
    assert_eq!(
        order,
        vec![
            (b"a".to_vec(), 4),
            (b"a".to_vec(), 1),
            (b"b".to_vec(), 9),
            (b"b".to_vec(), 2),
            (b"c".to_vec(), 3),
        ]
    );
    match &rows.row(3).value {
        ValueDeletable::Value(value) => assert_eq!(value.as_ref(), b"new"),
        other => panic!("unexpected value {other:?}"),
    }
    assert_eq!(rows.first_seq(), Some(1));
    assert_eq!(rows.last_seq(), Some(9));
    let memtable = ImmutableMemtable::new(table, 12);
    let filtered = memtable.filter_after_seq(2, None).unwrap();
    assert_eq!(filtered.table().entry_num(), 3);
    assert_eq!(filtered.table().first_seq(), Some(3));
    assert_eq!(filtered.recent_flushed_wal_id(), 12);
    let twice = filtered.filter_after_seq(3, None).unwrap();
    let once = memtable.filter_after_seq(3, None).unwrap();
    assert_eq!(twice.table().entry_num(), once.table().entry_num());
    assert_eq!(once.table().first_seq(), Some(4));
}

#[test]
fn segments_of_rows_are_recorded_once() {
    let mut table = WritableKVTable::new();
    for (i, key) in ["aa1", "aa2", "bb1"].into_iter().enumerate() {
        table.put(RowEntry::new_value(key.as_bytes(), b"v", i as u64 + 1));
    }
    table
        .record_replayed_touched_segments(&vec![Some(2), Some(2), Some(2)])
        .unwrap();
    assert_eq!(
        table.table().touched_segments(),
        &vec![Bytes::from_static(b"aa"), Bytes::from_static(b"bb")]
    );
    assert!(matches!(
        table.record_replayed_touched_segments(&vec![Some(2), Some(0), Some(2)]),
        Err(SlateDBError::MissingSegmentPrefix)
    ));
    assert!(matches!(
        table.record_replayed_touched_segments(&vec![Some(2), Some(4), Some(2)]),
        Err(SlateDBError::MissingSegmentPrefix)
    ));
}

#[test]
fn spans_of_time_are_doubled_and_halved() {
    let span = TimeSpan {
        secs: 1,
        nanos: 600_000_001,
    };
    assert_eq!(
        span.checked_double(),
        Some(TimeSpan {
            secs: 3,
            nanos: 200_000_002
        })
    );
    assert_eq!(
        span.half(),
        TimeSpan {
            secs: 0,
            nanos: 800_000_000
        }
    );
    assert_eq!(span.as_millis(), 1600);
    assert_eq!(
        TimeSpan {
            secs: u64::MAX / 2 + 1,
            nanos: 0
        }
        .checked_double(),
        None
    );
    assert_eq!(
        TimeSpan::from_millis(1234),
        TimeSpan {
            secs: 1,
            nanos: 234_000_000
        }
    );
    let before_epoch = Timestamp {
        secs: -1,
        nanos: 250_000_000,
    };
    assert_eq!(before_epoch.as_nanos(), -750_000_000);
}

#[test]
fn errors_are_cloned_as_they_are() {
    let error = SlateDBError::CheckpointLifetimeTooShort {
        lifetime: TimeSpan::from_secs(1),
        interval: TimeSpan::from_secs(2),
    };
    assert!(matches!(
        error.clone(),
        SlateDBError::CheckpointLifetimeTooShort { lifetime, interval }
            if lifetime == TimeSpan::from_secs(1) && interval == TimeSpan::from_secs(2)
    ));
    let store = SlateDBError::ObjectStoreError(Arc::new(
        object_store::Error::NotImplemented {
            operation: "get".to_string(),
            implementer: "test".to_string(),
        },
    ));
    match (&store, store.clone()) {
        (SlateDBError::ObjectStoreError(a), SlateDBError::ObjectStoreError(b)) => {
            assert!(Arc::ptr_eq(a, &b))
        }
        other => panic!("unexpected errors {other:?}"),
    }
}

#[test]
fn numbers_are_written_in_decimal() {
    for n in [0, 7, 10, 99, 100, 12_345, u64::MAX] {
        assert_eq!(decimal_text(n), n.to_string());
    }
    assert!(text_is("bytewise", "bytewise"));
    assert!(!text_is("bytewise", "byte"));
    assert!(!text_is("byte", "bytewise"));
    assert!(!text_is("byte", "bite"));
}

#[test]
fn an_extractor_has_to_be_the_one_of_the_database() {
    let mut core = ManifestCore::new();
    assert!(check_extractor(&core, None).is_ok());
    assert!(matches!(
        check_extractor(&core, Some("fixed")),
        Err(SlateDBError::SegmentExtractorMismatch)
    ));
    core.segment_extractor_name = Some("fixed".to_string());
    assert!(check_extractor(&core, Some("fixed")).is_ok());
    for other in [None, Some("fix"), Some("fixed2")] {
        assert!(matches!(
            check_extractor(&core, other),
            Err(SlateDBError::SegmentExtractorMismatch)
        ));
    }
}
