use bytes::Bytes;
use slatedb::bytes_range::{BytesRange, KeyBound};
use slatedb::config::{validate_options, DbReaderMode, DbReaderOptions, WalReplayEnd};
use slatedb::db_cache::{CacheUsageSnapshot, DbCacheUsageSnapshot};
use slatedb::db_reader::{DbReader, DbReaderInner, LatestManifestStep, SnapshotStep};
use slatedb::db_state::{LsmTreeState, Segment, SortedRun, SsTableView};
use slatedb::error::SlateDBError;
use slatedb::manifest::{check_extractor, Checkpoint, Manifest, ManifestCore, VersionedManifest};
use slatedb::manifest_poller::{
    is_due, maybe_refresh_checkpoint, on_checkpoint_refreshed, LiveLease, ManifestPoller,
    PollAction, RefreshStep,
};
use slatedb::mem_table::{ImmutableMemtable, WritableKVTable};
use slatedb::reader_generation::ReaderGeneration;
use slatedb::reader_open::{OpenAction, ReaderOpen};
use slatedb::reader_state::{
    replayed_watermark, retain_after_seq, ReaderState, ReaderStateBuild, ReplayIntoAction,
    WalReplayInto,
};
use slatedb::replay_memtables::ReplayMemtables;
use slatedb::time::{TimeSpan, Timestamp};
use slatedb::types::{KeyValue, RowEntry, ValueDeletable};
use slatedb::wal_blocks::{DecodedWalSst, WalBlock};
use slatedb::wal_replay::{
    FetchOutcome, ReplayedMemtable, WalReplayAction, WalReplayIterator, WalReplayOptions,
    WalReplaySettings,
};
use std::collections::HashMap;
use std::sync::Arc;
use uuid::Uuid;

/// The rows of WAL objects by ID. IDs that are not there are missing.
type Wals = HashMap<u64, Vec<RowEntry>>;

fn immutable_memtable(recent_flushed_wal_id: u64, entries: Vec<RowEntry>) -> Arc<ImmutableMemtable> {
    let mut table = WritableKVTable::new();
    for entry in entries {
        table.put(entry);
    }
    Arc::new(ImmutableMemtable::new(table, recent_flushed_wal_id))
}

fn wals(objects: Vec<(u64, Vec<RowEntry>)>) -> Wals {
    objects.into_iter().collect()
}

/// The encoded size of rows: their keys, values and sequence numbers.
fn estimate(rows: &[&RowEntry]) -> usize {
    rows.iter()
        .map(|row| {
            let value = match &row.value {
                ValueDeletable::Value(value) | ValueDeletable::Merge(value) => value.len(),
                ValueDeletable::Tombstone => 0,
            };
            row.key.len() + value + 8
        })
        .sum()
}

fn next_table(
    iter: &mut WalReplayIterator,
    wals: &Wals,
) -> Result<Option<ReplayedMemtable>, SlateDBError> {
    let mut action = iter.next().action;
    loop {
        action = match action {
            WalReplayAction::Done(result) => return result,
            WalReplayAction::Fetch { wal_id } => {
                if wals.contains_key(&wal_id) {
                    iter.on_fetch(FetchOutcome::Fetched(Bytes::from_static(b"wal")))
                } else {
                    iter.on_truncated()
                }
            }
            WalReplayAction::Decode { wal_id, .. } => iter.on_decode(Ok(DecodedWalSst::Data {
                format_version: 2,
                blocks: vec![WalBlock {
                    rows: wals[&wal_id].clone().into(),
                    error: None,
                }]
                .into(),
            })),
            WalReplayAction::Estimate => {
                let table = iter.table.table();
                let rows: Vec<&RowEntry> = (0..table.entry_num()).map(|i| table.row(i)).collect();
                let bytes = estimate(&rows);
                iter.on_estimate(bytes)
            }
        }
        .action;
    }
}

/// Runs a replay to its end. Gives the watermark after each table, with the
/// number of tables.
fn run_replay(
    replay: &mut WalReplayInto,
    action: ReplayIntoAction,
    core: &ManifestCore,
    wals: &Wals,
    prefix_len: Option<usize>,
) -> (Result<(u64, u64), SlateDBError>, Vec<(u64, u64, usize)>) {
    let mut published = Vec::new();
    let mut action = action;
    let mut iter: Option<WalReplayIterator> = None;
    loop {
        action = match action {
            ReplayIntoAction::Done(result) => return (result, published),
            ReplayIntoAction::LastWalId { after } => {
                let mut last = after;
                while wals.contains_key(&(last + 1)) {
                    last += 1;
                }
                replay.on_last_wal_id(Ok(last))
            }
            ReplayIntoAction::Replay {
                range,
                max_memtable_bytes,
                min_seq,
            } => {
                let (created, _) = WalReplayIterator::range(
                    range,
                    core,
                    WalReplayOptions {
                        prefetch: WalReplaySettings {
                            max_concurrent_objects: 1,
                            max_inflight_bytes: 1024,
                        },
                        max_memtable_bytes,
                        min_seq: Some(min_seq),
                    },
                    &vec![],
                )
                .unwrap();
                iter = Some(created);
                feed(replay, iter.as_mut().unwrap(), wals, prefix_len)
            }
            ReplayIntoAction::Next(_) => {
                published.push((
                    replay.replay_after_wal_id,
                    replay.last_committed_seq,
                    replay.into_tables.len(),
                ));
                feed(replay, iter.as_mut().unwrap(), wals, prefix_len)
            }
        };
    }
}

fn feed(
    replay: &mut WalReplayInto,
    iter: &mut WalReplayIterator,
    wals: &Wals,
    prefix_len: Option<usize>,
) -> ReplayIntoAction {
    let outcome = next_table(iter, wals);
    let lens = match (&outcome, prefix_len) {
        (Ok(Some(table)), Some(len)) => {
            let table = table.table.table();
            Some(
                (0..table.entry_num())
                    .map(|i| Some(len).filter(|len| *len <= table.row(i).key.len()))
                    .collect::<Vec<_>>(),
            )
        }
        _ => None,
    };
    replay.on_table(outcome, lens.as_ref())
}

fn replay_wal_into(
    core: &ManifestCore,
    into_tables: ReplayMemtables,
    cursor: Option<(u64, u64)>,
    end: WalReplayEnd,
    max_memtable_bytes: u64,
    wals: &Wals,
) -> (Result<(u64, u64), SlateDBError>, ReplayMemtables, Vec<(u64, u64, usize)>) {
    let (mut replay, action) =
        WalReplayInto::replay_wal_into(core, into_tables, cursor, end, max_memtable_bytes);
    let (result, published) = run_replay(&mut replay, action, core, wals, None);
    (result, replay.into_tables, published)
}

fn rows_of(table: &ImmutableMemtable) -> Vec<(Vec<u8>, u64)> {
    let table = table.table();
    (0..table.entry_num())
        .map(|i| (table.row(i).key.to_vec(), table.row(i).seq))
        .collect()
}

fn seqs_of(table: &ImmutableMemtable) -> Vec<u64> {
    rows_of(table).into_iter().map(|(_, seq)| seq).collect()
}

fn options() -> DbReaderOptions {
    DbReaderOptions {
        manifest_poll_interval: TimeSpan::from_secs(10),
        checkpoint_lifetime: TimeSpan::from_secs(600),
        max_memtable_bytes: 64 * 1024 * 1024,
        skip_wal_replay: false,
    }
}

fn at(millis: i64) -> Timestamp {
    Timestamp {
        secs: millis.div_euclid(1000),
        nanos: (millis.rem_euclid(1000) as u32) * 1_000_000,
    }
}

fn checkpoint(id: u128, manifest_id: u64, expire_millis: Option<i64>) -> Checkpoint {
    Checkpoint {
        id: Uuid::from_u128(id),
        manifest_id,
        expire_time: expire_millis.map(at),
        create_time: at(0),
        name: None,
    }
}

fn state(
    manifest_id: u64,
    checkpoint: Option<Checkpoint>,
    core: ManifestCore,
    tables: Vec<Arc<ImmutableMemtable>>,
    last_wal_id: u64,
    last_seq: u64,
) -> ReaderState {
    ReaderState {
        generation: ReaderGeneration::new(manifest_id, checkpoint, Arc::new(Manifest { core }))
            .reference(),
        imm_memtable: ReplayMemtables::from_tables(tables),
        last_wal_id,
        last_remote_persisted_seq: last_seq,
    }
}

fn managed_inner(core: ManifestCore) -> DbReaderInner {
    let initial = state(
        1,
        Some(checkpoint(1, 1, Some(600_000))),
        core,
        vec![immutable_memtable(
            1,
            vec![RowEntry::new_value(b"key", b"value", 10)],
        )],
        1,
        10,
    );
    DbReaderInner::new(options(), DbReaderMode::ManagedCheckpoint, initial).0
}

fn copy_core(core: &ManifestCore) -> ManifestCore {
    let mut copy = ManifestCore::new();
    copy.last_l0_seq = core.last_l0_seq;
    copy.last_l0_clock_tick = core.last_l0_clock_tick;
    copy.replay_after_wal_id = core.replay_after_wal_id;
    copy.next_wal_sst_id = core.next_wal_sst_id;
    copy.segment_extractor_name = core.segment_extractor_name.clone();
    copy.segments = core
        .segments
        .iter()
        .map(|segment| Segment {
            prefix: segment.prefix.clone(),
            tree: LsmTreeState {
                last_compacted_l0_sst_view_id: segment.tree.last_compacted_l0_sst_view_id,
                last_compacted_l0_sst_id: segment.tree.last_compacted_l0_sst_id,
                l0: segment.tree.l0.clone(),
                compacted: segment
                    .tree
                    .compacted
                    .iter()
                    .map(|run| SortedRun {
                        id: run.id,
                        sst_views: run.sst_views.clone(),
                    })
                    .collect(),
            },
        })
        .collect();
    copy
}

#[test]
fn legacy_checkpoint_options_convert_to_reader_modes() {
    let checkpoint_id = Uuid::new_v4();

    assert_eq!(DbReaderMode::from(None), DbReaderMode::ManagedCheckpoint);
    assert_eq!(
        DbReaderMode::from(Some(checkpoint_id)),
        DbReaderMode::Checkpoint(checkpoint_id)
    );
    assert_eq!(DbReaderMode::default(), DbReaderMode::ManagedCheckpoint);
}

#[test]
fn empty_database_reader_returns_typed_database_missing() {
    let (mut open, action) =
        ReaderOpen::open_internal(DbReaderMode::ManagedCheckpoint, options()).unwrap();
    assert!(matches!(action, OpenAction::LoadManifest));
    let action =
        open.on_manifest_loaded(Err(SlateDBError::LatestTransactionalObjectVersionMissing));
    assert!(matches!(
        action,
        OpenAction::Failed(SlateDBError::DatabaseMissing)
    ));
}

fn loaded(id: u64, core: ManifestCore) -> VersionedManifest {
    VersionedManifest {
        id,
        manifest: Arc::new(Manifest { core }),
    }
}

#[test]
fn should_fail_if_db_is_uninitialized() {
    let mut core = ManifestCore::new();
    core.initialized = false;
    let (mut open, _) =
        ReaderOpen::open_internal(DbReaderMode::ManagedCheckpoint, options()).unwrap();
    let action = open.on_manifest_loaded(Ok(loaded(1, core)));
    assert!(matches!(
        action,
        OpenAction::Failed(SlateDBError::InvalidDBState)
    ));
}

#[test]
fn a_mismatched_extractor_is_refused() {
    let mut core = ManifestCore::new();
    core.segment_extractor_name = Some("fixed".to_string());
    let (mut open, _) =
        ReaderOpen::open_internal(DbReaderMode::ManagedCheckpoint, options()).unwrap();
    let checked = match open.on_manifest_loaded(Ok(loaded(1, core))) {
        OpenAction::CheckExtractor(manifest) => check_extractor(&manifest.core, None),
        _ => panic!("expected the extractor to be checked"),
    };
    let action = open.get_or_create_checkpoint(checked);
    assert!(matches!(
        action,
        OpenAction::Failed(SlateDBError::SegmentExtractorMismatch)
    ));
}

fn finish_build(build: ReaderStateBuild, action: ReplayIntoAction, wals: &Wals) -> ReaderState {
    let mut build = build;
    let manifest = Arc::clone(&build.manifest);
    let (result, _) = run_replay(&mut build.replay, action, &manifest.core, wals, None);
    result.unwrap();
    build.finish().0
}

#[test]
fn an_opened_reader_serves_the_manifest_of_its_checkpoint() {
    let (mut open, _) =
        ReaderOpen::open_internal(DbReaderMode::ManagedCheckpoint, options()).unwrap();
    open.on_manifest_loaded(Ok(loaded(1, ManifestCore::new())));
    let action = open.get_or_create_checkpoint(Ok(()));
    assert!(matches!(
        action,
        OpenAction::CreateCheckpoint { lifetime } if lifetime == TimeSpan::from_secs(600)
    ));
    let action = open.on_checkpoint_created(Ok(checkpoint(9, 2, Some(600_000))));
    assert!(matches!(action, OpenAction::ReadManifest(2)));
    let mut core = ManifestCore::new();
    core.last_l0_seq = 4;
    let action = open.on_manifest_read(Ok(Manifest { core }));
    let (build, replay) = match action {
        OpenAction::Build(build, replay) => (build, replay),
        _ => panic!("expected the state to be built"),
    };
    let wals = wals(vec![(1, vec![RowEntry::new_value(b"a", b"1", 5)])]);
    let state = finish_build(build, replay, &wals);
    let (inner, report, poller) = open.finish(state);
    let reader = DbReader { inner };
    assert_eq!(reader.manifest().id, 2);
    assert_eq!(reader.manifest().manifest.core.last_l0_seq, 4);
    assert_eq!(report.durable_seq, 5);
    assert_eq!(report.manifest.unwrap().id, 2);
    assert_eq!(reader.inner.state.applied_seq(), 5);
    assert_eq!(
        poller.unwrap().generations,
        vec![Uuid::from_u128(9)]
    );
}

#[test]
fn a_pinned_reader_stops_at_its_checkpoint() {
    let id = Uuid::from_u128(77);
    let mut core = ManifestCore::new();
    core.checkpoints = vec![checkpoint(5, 1, None), checkpoint(77, 3, None)];
    let (mut open, _) =
        ReaderOpen::open_internal(DbReaderMode::Checkpoint(id), options()).unwrap();
    open.on_manifest_loaded(Ok(loaded(8, core)));
    assert!(matches!(
        open.get_or_create_checkpoint(Ok(())),
        OpenAction::ReadManifest(3)
    ));
    let mut core = ManifestCore::new();
    core.next_wal_sst_id = 2;
    let action = open.on_manifest_read(Ok(Manifest { core }));
    let (build, replay) = match action {
        OpenAction::Build(build, replay) => (build, replay),
        _ => panic!("expected the state to be built"),
    };
    // WAL 2 was written after the checkpoint was taken and is not read.
    let wals = wals(vec![
        (1, vec![RowEntry::new_value(b"a", b"1", 1)]),
        (2, vec![RowEntry::new_value(b"a", b"2", 2)]),
    ]);
    let state = finish_build(build, replay, &wals);
    assert_eq!(state.last_wal_id, 1);
    assert_eq!(state.applied_seq(), 1);
    let (_, _, poller) = open.finish(state);
    assert!(poller.is_none());
}

#[test]
fn a_checkpoint_that_is_not_in_the_manifest_is_missing() {
    let id = Uuid::from_u128(77);
    let (mut open, _) =
        ReaderOpen::open_internal(DbReaderMode::Checkpoint(id), options()).unwrap();
    open.on_manifest_loaded(Ok(loaded(8, ManifestCore::new())));
    match open.get_or_create_checkpoint(Ok(())) {
        OpenAction::Failed(SlateDBError::CheckpointMissing(missing)) => assert_eq!(missing, id),
        _ => panic!("expected the checkpoint to be missing"),
    }
}

#[test]
fn opening_in_follow_latest_mode_needs_no_checkpoint() {
    let (mut open, _) =
        ReaderOpen::open_internal(DbReaderMode::FollowLatest, options()).unwrap();
    open.on_manifest_loaded(Ok(loaded(8, ManifestCore::new())));
    let (build, replay) = match open.get_or_create_checkpoint(Ok(())) {
        OpenAction::Build(build, replay) => (build, replay),
        _ => panic!("expected the state to be built"),
    };
    assert_eq!(build.manifest_id, 8);
    assert!(build.checkpoint.is_none());
    let state = finish_build(build, replay, &wals(vec![]));
    let (inner, _, poller) = open.finish(state);
    let mut poller = poller.unwrap();
    assert_eq!(poller.active_checkpoints(), 0);
    assert!(matches!(poller.handle(&inner), PollAction::FollowLatest));
    assert!(matches!(
        poller.on_followed(Err(SlateDBError::ChecksumMismatch)),
        PollAction::Done {
            result: Ok(()),
            counted: false
        }
    ));
    assert!(matches!(poller.handle(&inner), PollAction::FollowLatest));
    assert!(matches!(
        poller.on_followed(Ok(())),
        PollAction::Done {
            result: Ok(()),
            counted: true
        }
    ));
}

#[test]
fn options_of_a_managed_reader_are_validated() {
    let mut brief = options();
    brief.checkpoint_lifetime = TimeSpan::from_millis(999);
    assert!(matches!(
        validate_options(DbReaderMode::ManagedCheckpoint, &brief),
        Err(SlateDBError::InvalidCheckpointLifetime(span)) if span == TimeSpan::from_millis(999)
    ));
    assert!(validate_options(DbReaderMode::FollowLatest, &brief).is_ok());
    assert!(validate_options(DbReaderMode::Checkpoint(Uuid::from_u128(1)), &brief).is_ok());

    let mut slow = options();
    slow.manifest_poll_interval = TimeSpan {
        secs: u64::MAX,
        nanos: 0,
    };
    assert!(matches!(
        validate_options(DbReaderMode::ManagedCheckpoint, &slow),
        Err(SlateDBError::InvalidManifestPollInterval(_))
    ));

    let mut short = options();
    short.manifest_poll_interval = TimeSpan::from_millis(300_500);
    assert!(matches!(
        validate_options(DbReaderMode::ManagedCheckpoint, &short),
        Err(SlateDBError::CheckpointLifetimeTooShort { lifetime, interval })
            if lifetime == TimeSpan::from_secs(600) && interval == TimeSpan::from_secs(601)
    ));

    let mut exact = options();
    exact.manifest_poll_interval = TimeSpan::from_secs(300);
    assert!(validate_options(DbReaderMode::ManagedCheckpoint, &exact).is_ok());
    let mut second = options();
    second.checkpoint_lifetime = TimeSpan::from_secs(1);
    second.manifest_poll_interval = TimeSpan::from_millis(500);
    assert!(validate_options(DbReaderMode::ManagedCheckpoint, &second).is_ok());
}

#[test]
fn replay_end_depends_on_mode_and_options() {
    let pinned = DbReaderMode::Checkpoint(Uuid::from_u128(3));
    assert_eq!(
        WalReplayEnd::for_reader(pinned, &options()),
        Some(WalReplayEnd::Manifest)
    );
    assert_eq!(
        WalReplayEnd::for_reader(DbReaderMode::ManagedCheckpoint, &options()),
        Some(WalReplayEnd::Latest)
    );
    assert_eq!(
        WalReplayEnd::for_reader(DbReaderMode::FollowLatest, &options()),
        Some(WalReplayEnd::Latest)
    );
    let mut skip = options();
    skip.skip_wal_replay = true;
    assert_eq!(WalReplayEnd::for_reader(pinned, &skip), None);
}

#[test]
fn generation_drain_should_wait_for_in_flight_operations_and_reject_new_ones() {
    let mut generation = ReaderGeneration::new(
        1,
        Some(checkpoint(4, 1, None)),
        Arc::new(Manifest {
            core: ManifestCore::new(),
        }),
    );
    generation.enter_operation().unwrap();
    generation.invalidate();
    assert!(!generation.is_drained());

    assert!(generation.exit_operation());
    assert!(generation.is_drained());
    match generation.enter_operation() {
        Err(SlateDBError::CheckpointLeaseLost(id)) => assert_eq!(id, Uuid::from_u128(4)),
        other => panic!("unexpected result {other:?}"),
    }
}

#[test]
fn exit_tells_the_last_operation_from_others() {
    let mut generation = ReaderGeneration::new(
        1,
        None,
        Arc::new(Manifest {
            core: ManifestCore::new(),
        }),
    );
    generation.enter_operation().unwrap();
    generation.enter_operation().unwrap();
    assert!(!generation.exit_operation());
    assert!(generation.exit_operation());
}

/// A reader of a checkpoint, with the generation that it reads.
fn pinned_reader() -> (DbReader, ReaderGeneration) {
    let generation = ReaderGeneration::new(
        1,
        Some(checkpoint(1, 1, None)),
        Arc::new(Manifest {
            core: ManifestCore::new(),
        }),
    );
    let initial = ReaderState {
        generation: generation.reference(),
        imm_memtable: ReplayMemtables::default(),
        last_wal_id: 3,
        last_remote_persisted_seq: 5,
    };
    let mode = DbReaderMode::Checkpoint(Uuid::from_u128(1));
    let (inner, _) = DbReaderInner::new(options(), mode, initial);
    (DbReader { inner }, generation)
}

#[test]
fn reader_snapshot_should_reject_an_invalid_current_generation() {
    let (reader, mut generation) = pinned_reader();
    generation.invalidate();
    match reader.snapshot(&reader.inner.state, &mut generation, false) {
        SnapshotStep::Failed(SlateDBError::CheckpointLeaseLost(id)) => {
            assert_eq!(id, Uuid::from_u128(1))
        }
        other => panic!("an invalid generation must not produce a snapshot: {other:?}"),
    }
}

#[test]
fn a_snapshot_captures_the_state_and_is_tried_again_where_that_was_replaced() {
    let (mut reader, mut generation) = pinned_reader();
    match reader.snapshot(&reader.inner.state, &mut generation, false) {
        SnapshotStep::Captured(captured) => {
            assert_eq!(captured.last_wal_id, 3);
            assert_eq!(captured.applied_seq(), 5);
        }
        other => panic!("unexpected step {other:?}"),
    }
    assert!(!generation.is_drained());
    assert!(generation.exit_operation());
    generation.invalidate();
    assert!(matches!(
        reader.snapshot(&reader.inner.state, &mut generation, true),
        SnapshotStep::Retry
    ));
    reader.close();
    assert!(matches!(
        reader.snapshot(&reader.inner.state, &mut generation, true),
        SnapshotStep::Failed(SlateDBError::Closed)
    ));
}

#[test]
fn snapshots_are_not_offered_in_follow_latest_mode() {
    let mut generation = ReaderGeneration::new(
        1,
        None,
        Arc::new(Manifest {
            core: ManifestCore::new(),
        }),
    );
    let initial = ReaderState {
        generation: generation.reference(),
        imm_memtable: ReplayMemtables::default(),
        last_wal_id: 0,
        last_remote_persisted_seq: 0,
    };
    let (inner, _) = DbReaderInner::new(options(), DbReaderMode::FollowLatest, initial);
    let reader = DbReader { inner };
    assert!(matches!(
        reader.snapshot(&reader.inner.state, &mut generation, false),
        SnapshotStep::Failed(SlateDBError::DbReaderSnapshotUnsupportedInFollowLatest)
    ));
    assert!(generation.is_drained());
}

#[test]
fn replay_wal_into_should_use_latest_existing_table_and_keep_newest_first_order() {
    let wals = wals(vec![
        (
            3,
            vec![RowEntry::new_value(b"stale_key", b"stale_value", 3)],
        ),
        (
            4,
            vec![RowEntry::new_value(b"fresh_key", b"fresh_value", 4)],
        ),
    ]);
    let into_tables = ReplayMemtables::from_tables(vec![
        immutable_memtable(
            3,
            vec![RowEntry::new_value(b"stale_key", b"stale_value", 3)],
        ),
        immutable_memtable(
            2,
            vec![RowEntry::new_value(b"older_key", b"older_value", 2)],
        ),
    ]);
    let mut core = ManifestCore::new();
    core.next_wal_sst_id = 5;

    let (result, into_tables, _) = replay_wal_into(
        &core,
        into_tables,
        None,
        WalReplayEnd::Manifest,
        u64::MAX,
        &wals,
    );

    assert_eq!(result.unwrap(), (4, 4));
    let newest_replayed = into_tables.front().unwrap();
    assert_eq!(newest_replayed.recent_flushed_wal_id(), 4);
    assert_eq!(rows_of(newest_replayed), vec![(b"fresh_key".to_vec(), 4)]);
    assert_eq!(into_tables.len(), 3);
}

#[test]
fn replay_memtable_prepend_should_share_the_existing_tail() {
    let mut original = ReplayMemtables::default();
    original.prepend(immutable_memtable(
        1,
        vec![RowEntry::new_value(b"old", b"value", 1)],
    ));
    let original_head = Arc::clone(original.head.as_ref().unwrap());

    let mut extended = original.clone();
    extended.prepend(immutable_memtable(
        2,
        vec![RowEntry::new_value(b"new", b"value", 2)],
    ));

    let shared_tail = extended.head.as_ref().unwrap().older.as_ref().unwrap();
    assert!(Arc::ptr_eq(shared_tail, &original_head));
    assert_eq!(1, original.len());
    assert_eq!(2, extended.len());
}

#[test]
fn replay_wal_into_should_publish_each_bounded_batch() {
    let objects: Vec<(u64, Vec<RowEntry>)> = (1..=3u64)
        .map(|seq| {
            let row = RowEntry::new_value(format!("key-{seq}").as_bytes(), &[b'x'; 128], seq);
            (seq, vec![row])
        })
        .collect();
    let max_memtable_bytes = estimate(&[&objects[0].1[0]]) as u64;
    let mut core = ManifestCore::new();
    core.next_wal_sst_id = 4;

    let (result, _, publications) = replay_wal_into(
        &core,
        ReplayMemtables::default(),
        None,
        WalReplayEnd::Manifest,
        max_memtable_bytes,
        &wals(objects),
    );

    assert_eq!((3, 3), result.unwrap());
    assert_eq!(vec![(1, 1, 1), (2, 2, 2), (3, 3, 3)], publications);
}

#[test]
fn replay_wal_into_should_treat_missing_wal_sst_as_end_of_iteration() {
    let mut core = ManifestCore::new();
    core.next_wal_sst_id = 3;

    let (result, into_tables, _) = replay_wal_into(
        &core,
        ReplayMemtables::default(),
        None,
        WalReplayEnd::Manifest,
        options().max_memtable_bytes,
        &wals(vec![(1, vec![RowEntry::new_value(b"key", b"value", 1)])]),
    );

    assert_eq!(result.unwrap(), (1, 1));
    assert_eq!(into_tables.len(), 1);
    assert_eq!(into_tables.front().unwrap().recent_flushed_wal_id(), 1);
}

#[test]
fn replay_wal_into_should_keep_previously_replayed_tables_before_missing_wal_sst() {
    let wal_1_row = RowEntry::new_value(b"a", &[b'a'; 8], 1);
    let wal_2_row_1 = RowEntry::new_value(b"b", &[b'b'; 40], 2);
    let wal_2_row_2 = RowEntry::new_value(b"c", &[b'c'; 40], 3);
    let max_memtable_bytes = estimate(&[&wal_1_row, &wal_2_row_1]) as u64;
    let wals = wals(vec![
        (1, vec![wal_1_row]),
        (2, vec![wal_2_row_1, wal_2_row_2]),
    ]);
    let mut core = ManifestCore::new();
    core.next_wal_sst_id = 4;

    let (result, into_tables, _) = replay_wal_into(
        &core,
        ReplayMemtables::default(),
        None,
        WalReplayEnd::Manifest,
        max_memtable_bytes,
        &wals,
    );

    assert_eq!(result.unwrap(), (2, 3));
    assert_eq!(into_tables.len(), 1);
    let replayed = into_tables.front().unwrap();
    assert_eq!(replayed.recent_flushed_wal_id(), 2);
    assert_eq!(
        rows_of(replayed),
        vec![(b"a".to_vec(), 1), (b"b".to_vec(), 2), (b"c".to_vec(), 3)]
    );
}

#[test]
fn replay_wal_into_should_noop_for_fresh_db_with_no_writes() {
    let (result, into_tables, publications) = replay_wal_into(
        &ManifestCore::new(),
        ReplayMemtables::default(),
        None,
        WalReplayEnd::Latest,
        options().max_memtable_bytes,
        &wals(vec![]),
    );
    assert_eq!(result.unwrap(), (0, 0));
    assert!(into_tables.is_empty());
    assert!(publications.is_empty());
}

#[test]
fn replay_wal_into_should_replay_single_wal_for_fresh_db() {
    let (result, into_tables, _) = replay_wal_into(
        &ManifestCore::new(),
        ReplayMemtables::default(),
        None,
        WalReplayEnd::Latest,
        options().max_memtable_bytes,
        &wals(vec![(1, vec![RowEntry::new_value(b"key", b"value", 1)])]),
    );
    assert_eq!(result.unwrap(), (1, 1));
    assert_eq!(into_tables.len(), 1);
    let replayed = into_tables.front().unwrap();
    assert_eq!(replayed.recent_flushed_wal_id(), 1);
    assert_eq!(rows_of(replayed), vec![(b"key".to_vec(), 1)]);
}

#[test]
fn replay_wal_into_should_preserve_existing_last_committed_seq_for_empty_fence_wal() {
    let wals = wals(vec![(6, vec![])]);
    let mut into_tables = ReplayMemtables::default();
    into_tables.prepend(immutable_memtable(
        5,
        vec![
            RowEntry::new_value(b"existing_key_1", b"existing_value_1", 9),
            RowEntry::new_value(b"existing_key_2", b"existing_value_2", 10),
        ],
    ));
    let mut core = ManifestCore::new();
    core.last_l0_seq = 8;
    core.next_wal_sst_id = 5;

    let (result, into_tables, _) = replay_wal_into(
        &core,
        into_tables,
        None,
        WalReplayEnd::Latest,
        options().max_memtable_bytes,
        &wals,
    );
    assert_eq!(result.unwrap(), (6, 10));

    let head_after_first_replay = Arc::clone(into_tables.head.as_ref().unwrap());
    let (result, into_tables, _) = replay_wal_into(
        &core,
        into_tables,
        Some((6, 10)),
        WalReplayEnd::Latest,
        options().max_memtable_bytes,
        &wals,
    );
    assert_eq!(result.unwrap(), (6, 10));
    assert!(Arc::ptr_eq(
        into_tables.head.as_ref().unwrap(),
        &head_after_first_replay
    ));
}

#[test]
fn wal_ids_that_cannot_go_on_are_inconsistent() {
    let (result, _, _) = replay_wal_into(
        &ManifestCore::new(),
        ReplayMemtables::default(),
        Some((u64::MAX, 0)),
        WalReplayEnd::Manifest,
        10,
        &wals(vec![]),
    );
    assert!(matches!(result, Err(SlateDBError::InvalidDBState)));

    let (mut replay, _) = WalReplayInto::replay_wal_into(
        &ManifestCore::new(),
        ReplayMemtables::default(),
        None,
        WalReplayEnd::Latest,
        10,
    );
    assert!(matches!(
        replay.on_last_wal_id(Ok(u64::MAX)),
        ReplayIntoAction::Done(Err(SlateDBError::InvalidDBState))
    ));
}

#[test]
fn a_batch_counts_its_objects_also_where_it_brings_no_rows() {
    let (mut replay, _) = WalReplayInto::replay_wal_into(
        &ManifestCore::new(),
        ReplayMemtables::default(),
        Some((2, 7)),
        WalReplayEnd::Latest,
        10,
    );
    assert!(matches!(
        replay.on_last_wal_id(Ok(9)),
        ReplayIntoAction::Replay { .. }
    ));
    let table = |rows: Vec<RowEntry>, last_wal_id: u64, last_seq: u64| {
        let mut table = WritableKVTable::new();
        for row in rows {
            table.put(row);
        }
        ReplayedMemtable {
            table,
            last_tick: 0,
            last_seq,
            last_wal_id,
        }
    };
    let empty = table(vec![], 5, 7);
    let batch = replay.replayed_batch(&empty);
    assert_eq!((batch.replayed_ssts, batch.added), (3, false));
    match replay.on_table(Ok(Some(empty)), None) {
        ReplayIntoAction::Next(batch) => assert_eq!((batch.replayed_ssts, batch.added), (3, false)),
        _ => panic!("expected the replay to go on"),
    }
    let full = table(vec![RowEntry::new_value(b"k", b"v", 8)], 6, 8);
    let batch = replay.replayed_batch(&full);
    assert_eq!((batch.replayed_ssts, batch.added), (1, true));
}

#[test]
fn a_replay_error_other_than_truncation_is_returned() {
    let (mut replay, _) = WalReplayInto::replay_wal_into(
        &ManifestCore::new(),
        ReplayMemtables::default(),
        None,
        WalReplayEnd::Latest,
        10,
    );
    assert!(matches!(
        replay.on_last_wal_id(Ok(3)),
        ReplayIntoAction::Replay { .. }
    ));
    assert!(matches!(
        replay.on_table(Err(SlateDBError::ChecksumMismatch), None),
        ReplayIntoAction::Done(Err(SlateDBError::ChecksumMismatch))
    ));
}

#[test]
fn should_report_memtable_segments_in_status() {
    let mut core = ManifestCore::new();
    core.next_wal_sst_id = 2;
    let (mut replay, action) = WalReplayInto::replay_wal_into(
        &core,
        ReplayMemtables::default(),
        None,
        WalReplayEnd::Manifest,
        1000,
    );
    let objects = wals(vec![(1, vec![RowEntry::new_value(b"abc-1", b"v1", 1)])]);
    let (result, _) = run_replay(&mut replay, action, &core, &objects, Some(3));
    result.unwrap();
    let mut inner = managed_inner(ManifestCore::new());
    let generation = inner.state.generation.clone();
    let report = inner.publish(&generation, &replay);
    assert_eq!(report.segments, vec![Bytes::from_static(b"abc")]);
}

#[test]
fn each_segment_of_replayed_rows_is_reported_once() {
    let mut core = ManifestCore::new();
    core.next_wal_sst_id = 2;
    let (mut replay, action) = WalReplayInto::replay_wal_into(
        &core,
        ReplayMemtables::default(),
        None,
        WalReplayEnd::Manifest,
        1000,
    );
    let objects = wals(vec![(
        1,
        vec![
            RowEntry::new_value(b"aaa1", b"v", 1),
            RowEntry::new_value(b"bbb1", b"v", 2),
            RowEntry::new_value(b"aaa2", b"v", 3),
        ],
    )]);
    let (result, _) = run_replay(&mut replay, action, &core, &objects, Some(3));
    result.unwrap();
    let mut inner = managed_inner(ManifestCore::new());
    let generation = inner.state.generation.clone();
    let report = inner.publish(&generation, &replay);
    let mut segments = report.segments;
    segments.sort();
    assert_eq!(
        segments,
        vec![Bytes::from_static(b"aaa"), Bytes::from_static(b"bbb")]
    );
    assert_eq!(report.durable_seq, 3);
    assert!(report.manifest.is_none());
}

#[test]
fn a_replayed_row_without_a_segment_prefix_fails_the_replay() {
    let mut core = ManifestCore::new();
    core.next_wal_sst_id = 2;
    let (mut replay, action) = WalReplayInto::replay_wal_into(
        &core,
        ReplayMemtables::default(),
        None,
        WalReplayEnd::Manifest,
        1000,
    );
    let objects = wals(vec![(1, vec![RowEntry::new_value(b"ab", b"v", 1)])]);
    let (result, _) = run_replay(&mut replay, action, &core, &objects, Some(3));
    assert!(matches!(result, Err(SlateDBError::MissingSegmentPrefix)));
    assert!(replay.into_tables.is_empty());
}

fn table_of(recent_flushed_wal_id: u64, seqs: &[u64]) -> Arc<ImmutableMemtable> {
    immutable_memtable(
        recent_flushed_wal_id,
        seqs.iter()
            .map(|seq| {
                let key = format!("key-{seq:020}");
                let value = format!("value-{seq:020}");
                RowEntry::new_value(key.as_bytes(), value.as_bytes(), *seq)
            })
            .collect(),
    )
}

#[test]
fn rebuild_checkpoint_state_should_filter_existing_imm_memtables_by_last_l0_seq() {
    let cases: Vec<(u64, Vec<(u64, Vec<u64>)>, Vec<(u64, Vec<u64>)>)> = vec![
        (10, vec![(7, vec![7, 8, 9])], vec![]),
        (10, vec![(7, vec![10])], vec![]),
        (10, vec![(7, vec![11, 12])], vec![(7, vec![11, 12])]),
        (10, vec![(7, vec![10, 11, 12])], vec![(7, vec![11, 12])]),
        (10, vec![(7, vec![8, 9, 10, 11])], vec![(7, vec![11])]),
        (
            20,
            vec![
                (9, vec![25, 26]),
                (8, vec![20, 21, 22]),
                (7, vec![18, 19, 20]),
                (6, vec![21, 23]),
            ],
            vec![(9, vec![25, 26]), (8, vec![21, 22]), (6, vec![21, 23])],
        ),
    ];
    for (last_l0_seq, tables, expected) in cases {
        let input: Vec<_> = tables
            .iter()
            .map(|(wal_id, seqs)| table_of(*wal_id, seqs))
            .collect();
        let prior = state(
            1,
            Some(checkpoint(1, 1, None)),
            ManifestCore::new(),
            input,
            0,
            0,
        );
        let mut skip = options();
        skip.skip_wal_replay = true;
        let (inner, _) = DbReaderInner::new(skip, DbReaderMode::ManagedCheckpoint, prior);
        let next_wal_sst_id = tables.iter().map(|(wal_id, _)| *wal_id).max().unwrap() + 1;
        let mut core = ManifestCore::new();
        core.last_l0_seq = last_l0_seq;
        core.next_wal_sst_id = next_wal_sst_id;
        core.replay_after_wal_id = next_wal_sst_id - 1;

        let (build, action) = inner
            .rebuild_state(
                Some(checkpoint(2, 2, None)),
                2,
                Arc::new(Manifest { core }),
                None,
            )
            .unwrap();
        let rebuilt = finish_build(build, action, &wals(vec![]));

        assert_eq!(rebuilt.manifest_core().last_l0_seq, last_l0_seq);
        assert_eq!(rebuilt.imm_memtable.len(), expected.len());
        let mut iter = rebuilt.imm_memtable.iter();
        for (wal_id, seqs) in &expected {
            let table = iter.next().unwrap();
            assert_eq!(&seqs_of(&table), seqs);
            assert!(seqs.iter().all(|seq| *seq > last_l0_seq));
            assert_eq!(table.recent_flushed_wal_id(), *wal_id);
            assert_eq!(table.table().first_seq(), seqs.first().copied());
            assert_eq!(table.table().last_seq(), seqs.last().copied());
        }
        assert!(iter.next().is_none());
    }
}

#[test]
fn rebuild_goes_on_from_the_furthest_point_reached() {
    let mut core = ManifestCore::new();
    core.replay_after_wal_id = 3;
    core.last_l0_seq = 50;
    let inner = managed_inner(ManifestCore::new());
    let (build, action) = inner
        .rebuild_state(
            Some(checkpoint(2, 2, None)),
            2,
            Arc::new(Manifest { core }),
            None,
        )
        .unwrap();
    assert!(matches!(action, ReplayIntoAction::LastWalId { after: 3 }));
    assert_eq!(build.replay.last_committed_seq, 50);
    assert!(build.replay.into_tables.is_empty());

    let mut core = ManifestCore::new();
    core.replay_after_wal_id = 0;
    core.last_l0_seq = 2;
    let (build, action) = inner
        .rebuild_state(
            Some(checkpoint(2, 2, None)),
            2,
            Arc::new(Manifest { core }),
            None,
        )
        .unwrap();
    assert!(matches!(action, ReplayIntoAction::LastWalId { after: 1 }));
    assert_eq!(build.replay.last_committed_seq, 10);
    assert_eq!(build.replay.into_tables.len(), 1);
}

#[test]
fn retaining_derives_the_segments_of_kept_rows_again() {
    let tables = ReplayMemtables::from_tables(vec![immutable_memtable(
        4,
        vec![
            RowEntry::new_value(b"aaa", b"v", 5),
            RowEntry::new_value(b"bbb", b"v", 15),
        ],
    )]);
    let lens = vec![vec![Some(1), Some(2)]];
    let kept = retain_after_seq(&tables, 10, Some(&lens)).unwrap();
    assert_eq!(
        kept.touched_segments(),
        vec![Bytes::from_static(b"bb")]
    );
    let lens = vec![vec![Some(1), None]];
    assert!(matches!(
        retain_after_seq(&tables, 10, Some(&lens)),
        Err(SlateDBError::MissingSegmentPrefix)
    ));
    let lens = vec![vec![None, Some(1)]];
    assert!(retain_after_seq(&tables, 10, Some(&lens)).is_ok());
}

#[test]
fn skipping_replay_stays_at_the_watermark() {
    let mut core = ManifestCore::new();
    core.replay_after_wal_id = 12;
    core.last_l0_seq = 34;
    let empty = ReplayMemtables::default();
    assert_eq!(replayed_watermark(&core, &empty), (12, 34));
    let tables = ReplayMemtables::from_tables(vec![table_of(20, &[40, 41]), table_of(19, &[39])]);
    assert_eq!(replayed_watermark(&core, &tables), (20, 41));
}

#[test]
fn new_wals_are_replayed_and_published() {
    let mut inner = managed_inner(ManifestCore::new());
    let (mut replay, action) = inner.maybe_replay_new_wals().unwrap();
    assert!(matches!(action, ReplayIntoAction::LastWalId { after: 1 }));
    let generation = inner.state.generation.clone();
    let objects = wals(vec![(2, vec![RowEntry::new_value(b"key", b"new", 11)])]);
    let (result, published) =
        run_replay(&mut replay, action, &ManifestCore::new(), &objects, None);
    assert_eq!(result.unwrap(), (2, 11));
    assert_eq!(published, vec![(2, 11, 2)]);
    inner.publish(&generation, &replay);
    assert_eq!(inner.state.last_wal_id, 2);
    assert_eq!(inner.state.applied_seq(), 11);
    assert_eq!(inner.durable_seq, 11);
    assert_eq!(inner.state.generation.manifest_id, 1);
}

#[test]
fn a_reader_that_skips_replay_reads_no_wal() {
    let mut skip = options();
    skip.skip_wal_replay = true;
    let initial = state(1, Some(checkpoint(1, 1, None)), ManifestCore::new(), vec![], 0, 0);
    let (inner, _) = DbReaderInner::new(skip, DbReaderMode::ManagedCheckpoint, initial);
    assert!(inner.maybe_replay_new_wals().is_none());
}

#[test]
fn a_captured_state_stays_as_it_was_while_replay_advances() {
    let mut inner = managed_inner(ManifestCore::new());
    let snapshot = inner.state.clone();
    let (mut replay, action) = inner.maybe_replay_new_wals().unwrap();
    let generation = inner.state.generation.clone();
    let objects = wals(vec![(2, vec![RowEntry::new_value(b"key", b"new", 11)])]);
    run_replay(&mut replay, action, &ManifestCore::new(), &objects, None)
        .0
        .unwrap();
    inner.publish(&generation, &replay);
    assert_eq!(snapshot.imm_memtable.len(), 1);
    assert_eq!(snapshot.applied_seq(), 10);
    assert_eq!(inner.state.imm_memtable.len(), 2);
}

#[test]
fn should_reestablish_checkpoint_when_latest_last_l0_seq_exceeds_last_remote_persisted_seq() {
    let mut current_core = ManifestCore::new();
    current_core.last_l0_seq = 10;
    current_core.next_wal_sst_id = 2;

    let inner = managed_inner(copy_core(&current_core));

    assert!(!inner.should_reestablish_checkpoint(&current_core));

    let mut latest = copy_core(&current_core);
    latest.last_l0_seq = 11;

    assert!(inner.should_reestablish_checkpoint(&latest));
}

#[test]
fn should_reestablish_checkpoint_when_segments_differ() {
    fn view(seq: u64) -> SsTableView {
        SsTableView::identity((seq as u128) << 80, BytesRange::unbounded())
    }
    fn segment_with(prefix: &'static [u8], tree: LsmTreeState) -> Segment {
        Segment {
            prefix: Bytes::from_static(prefix),
            tree,
        }
    }
    fn tree_l0(views: Vec<SsTableView>) -> LsmTreeState {
        LsmTreeState {
            last_compacted_l0_sst_view_id: None,
            last_compacted_l0_sst_id: None,
            l0: views,
            compacted: vec![],
        }
    }

    let baseline_segment = segment_with(b"hour=12/", tree_l0(vec![view(1)]));
    let mut current_core = ManifestCore::new();
    current_core.segment_extractor_name = Some("hour".into());
    current_core.segments = vec![baseline_segment];

    let inner = managed_inner(copy_core(&current_core));

    assert!(!inner.should_reestablish_checkpoint(&current_core));

    let mut latest = copy_core(&current_core);
    latest
        .segments
        .push(segment_with(b"hour=13/", tree_l0(vec![view(2)])));
    assert!(
        inner.should_reestablish_checkpoint(&latest),
        "adding a segment should retire the snapshot"
    );

    let mut latest = copy_core(&current_core);
    latest.segments = vec![segment_with(b"hour=12/", tree_l0(vec![view(1), view(3)]))];
    assert!(
        inner.should_reestablish_checkpoint(&latest),
        "segment L0 change should retire the snapshot"
    );

    let mut latest = copy_core(&current_core);
    latest.segments = vec![segment_with(
        b"hour=12/",
        LsmTreeState {
            last_compacted_l0_sst_view_id: None,
            last_compacted_l0_sst_id: None,
            l0: vec![view(1)],
            compacted: vec![SortedRun {
                id: 0,
                sst_views: vec![view(4)],
            }],
        },
    )];
    assert!(
        inner.should_reestablish_checkpoint(&latest),
        "segment compacted change should retire the snapshot"
    );

    let mut latest = copy_core(&current_core);
    latest.segments = vec![segment_with(
        b"hour=12/",
        LsmTreeState {
            last_compacted_l0_sst_view_id: Some(99u128 << 80),
            last_compacted_l0_sst_id: None,
            l0: vec![],
            compacted: vec![],
        },
    )];
    assert!(
        inner.should_reestablish_checkpoint(&latest),
        "segment drain marker should retire the snapshot"
    );
}

#[test]
fn should_reestablish_checkpoint_when_the_root_tree_differs() {
    let inner = managed_inner(ManifestCore::new());
    let mut compacted = ManifestCore::new();
    compacted.tree.compacted = vec![SortedRun {
        id: 3,
        sst_views: vec![],
    }];
    assert!(inner.should_reestablish_checkpoint(&compacted));
    let mut marker = ManifestCore::new();
    marker.tree.last_compacted_l0_sst_view_id = Some(1);
    assert!(inner.should_reestablish_checkpoint(&marker));
    // New L0 tables alone show in the sequence number.
    let mut l0 = ManifestCore::new();
    l0.tree.l0 = vec![SsTableView::identity(1, BytesRange::unbounded())];
    assert!(!inner.should_reestablish_checkpoint(&l0));
}

fn ids(numbers: &[u128]) -> Vec<Uuid> {
    numbers.iter().map(|id| Uuid::from_u128(*id)).collect()
}

#[test]
fn should_not_refresh_reader_checkpoint_on_every_poll() {
    let lifetime = TimeSpan::from_millis(1000);
    let mut generation = ReaderGeneration::new(
        2,
        Some(checkpoint(1, 2, Some(1000))),
        Arc::new(Manifest {
            core: ManifestCore::new(),
        }),
    );
    assert!(maybe_refresh_checkpoint(&generation, at(500), lifetime).is_none());
    let due = maybe_refresh_checkpoint(&generation, at(501), lifetime).unwrap();
    let step = on_checkpoint_refreshed(&mut generation, &due, Ok(checkpoint(1, 2, Some(1501))));
    assert!(matches!(step, RefreshStep::Refreshed));
    // The lease now lapses at 1501 ms, so it is due after 1001 ms.
    assert!(maybe_refresh_checkpoint(&generation, at(601), lifetime).is_none());
    assert!(maybe_refresh_checkpoint(&generation, at(1001), lifetime).is_none());
    assert!(maybe_refresh_checkpoint(&generation, at(1002), lifetime).is_some());
}

#[test]
fn a_missing_checkpoint_is_replaced() {
    let mut generation = ReaderGeneration::new(
        2,
        Some(checkpoint(1, 2, Some(1000))),
        Arc::new(Manifest {
            core: ManifestCore::new(),
        }),
    );
    let before = checkpoint(1, 2, Some(1000));
    let step = on_checkpoint_refreshed(
        &mut generation,
        &before,
        Err(SlateDBError::CheckpointMissing(Uuid::from_u128(1))),
    );
    assert!(matches!(step, RefreshStep::Reestablish));
    let step = on_checkpoint_refreshed(
        &mut generation,
        &before,
        Err(SlateDBError::ChecksumMismatch),
    );
    assert!(matches!(
        step,
        RefreshStep::Failed(SlateDBError::ChecksumMismatch)
    ));
    // A checkpoint that was replaced meanwhile is left alone.
    generation.renew(checkpoint(1, 2, Some(2000)));
    let step = on_checkpoint_refreshed(&mut generation, &before, Ok(checkpoint(1, 2, Some(1500))));
    assert!(matches!(step, RefreshStep::Refreshed));
    assert_eq!(
        generation.checkpoint().unwrap().expire_time,
        Some(at(2000))
    );
}

#[test]
fn leases_are_due_after_half_their_lifetime() {
    let lifetime = TimeSpan {
        secs: 3,
        nanos: 1,
    };
    // Half of the lifetime is 1.5 s, rounded down to the nanosecond.
    assert!(!is_due(Some(at(10_000)), at(8_500), lifetime));
    assert!(is_due(Some(at(10_000)), at(8_501), lifetime));
    assert!(!is_due(None, at(8_501), lifetime));
    assert!(is_due(Some(at(-5_000)), at(0), lifetime));
}

#[test]
fn a_due_lease_is_refreshed() {
    let inner = managed_inner(ManifestCore::new());
    let mut poller = ManifestPoller::new(&inner);
    assert!(matches!(poller.handle(&inner), PollAction::LoadManifest));
    let latest = ManifestCore::new();
    assert!(matches!(
        poller.on_manifest_loaded(Ok(&latest), &ids(&[1]), &inner),
        PollAction::ReplayNewWals
    ));
    assert!(matches!(poller.on_replayed(Ok(())), PollAction::ReportLeases));
    let live = vec![LiveLease {
        id: Uuid::from_u128(1),
        expire_time: Some(at(600_000)),
    }];
    match poller.refresh_live_checkpoints(at(300_001), &live, &inner) {
        PollAction::RefreshCheckpoints {
            ids: refreshed,
            lifetime,
        } => {
            assert_eq!(refreshed, ids(&[1]));
            assert_eq!(lifetime, TimeSpan::from_secs(600));
        }
        other => panic!("unexpected action {other:?}"),
    }
    match poller.on_refreshed(Ok(vec![checkpoint(1, 1, Some(900_001))])) {
        PollAction::Renew(renewed) => assert_eq!(renewed[0].expire_time, Some(at(900_001))),
        other => panic!("unexpected action {other:?}"),
    }
    assert_eq!(poller.active_checkpoints(), 1);
}

#[test]
fn changed_tables_lead_to_a_new_checkpoint() {
    let mut inner = managed_inner(ManifestCore::new());
    let mut poller = ManifestPoller::new(&inner);
    poller.handle(&inner);
    let mut latest = ManifestCore::new();
    latest.last_l0_seq = 11;
    assert!(matches!(
        poller.on_manifest_loaded(Ok(&latest), &ids(&[1]), &inner),
        PollAction::CreateCheckpoint { .. }
    ));
    match poller.on_checkpoint_created(Ok(checkpoint(2, 5, Some(600_000)))) {
        PollAction::Reestablish(created) => assert_eq!(created.manifest_id, 5),
        other => panic!("unexpected action {other:?}"),
    }
    let (build, action) = inner
        .rebuild_state(
            Some(checkpoint(2, 5, Some(600_000))),
            5,
            Arc::new(Manifest { core: latest }),
            None,
        )
        .unwrap();
    let rebuilt = finish_build(build, action, &wals(vec![]));
    let report = inner.install_state(rebuilt);
    assert_eq!(report.manifest.unwrap().id, 5);
    assert_eq!(inner.durable_seq, 11);
    assert!(matches!(
        poller.on_reestablished(Ok(()), &inner),
        PollAction::ReportLeases
    ));
    assert_eq!(poller.generations, ids(&[1, 2]));
    assert!(matches!(
        poller.refresh_live_checkpoints(at(0), &vec![], &inner),
        PollAction::Done {
            result: Ok(()),
            counted: true
        }
    ));
}

#[test]
fn a_checkpoint_in_use_is_not_deleted() {
    let inner = managed_inner(ManifestCore::new());
    let latest = ManifestCore::new();
    let mut poller = ManifestPoller::new(&inner);
    poller.generations = ids(&[7, 8, 1]);
    // A snapshot still uses the first one.
    poller.handle(&inner);
    match poller.on_manifest_loaded(Ok(&latest), &ids(&[1, 7]), &inner) {
        PollAction::DeleteCheckpoints(released) => assert_eq!(released, ids(&[8])),
        other => panic!("unexpected action {other:?}"),
    }
    assert!(matches!(
        poller.on_checkpoints_deleted(Ok(()), &latest, &inner),
        PollAction::ReplayNewWals
    ));
    assert_eq!(poller.generations, ids(&[7, 1]));
    poller.on_replayed(Ok(()));
    poller.refresh_live_checkpoints(at(0), &vec![], &inner);
    // The snapshot is gone.
    poller.handle(&inner);
    match poller.on_manifest_loaded(Ok(&latest), &ids(&[1]), &inner) {
        PollAction::DeleteCheckpoints(released) => assert_eq!(released, ids(&[7])),
        other => panic!("unexpected action {other:?}"),
    }
    // A failed deletion keeps track of the checkpoint.
    assert!(matches!(
        poller.on_checkpoints_deleted(Err(SlateDBError::ChecksumMismatch), &latest, &inner),
        PollAction::Done {
            result: Err(SlateDBError::ChecksumMismatch),
            counted: false
        }
    ));
    assert_eq!(poller.generations, ids(&[7, 1]));
}

#[test]
fn a_lost_lease_is_drained_and_the_others_are_refreshed_at_once() {
    let inner = managed_inner(ManifestCore::new());
    let latest = ManifestCore::new();
    let mut poller = ManifestPoller::new(&inner);
    poller.generations = ids(&[7, 1]);
    poller.handle(&inner);
    poller.on_manifest_loaded(Ok(&latest), &ids(&[1, 7]), &inner);
    poller.on_replayed(Ok(()));
    let live = vec![
        LiveLease {
            id: Uuid::from_u128(7),
            expire_time: Some(at(1)),
        },
        LiveLease {
            id: Uuid::from_u128(1),
            expire_time: Some(at(600_000)),
        },
    ];
    poller.refresh_live_checkpoints(at(0), &live, &inner);
    assert!(matches!(
        poller.on_refreshed(Err(SlateDBError::CheckpointMissing(Uuid::from_u128(7)))),
        PollAction::Drain(id) if id == Uuid::from_u128(7)
    ));
    assert_eq!(poller.generations, ids(&[1]));
    assert!(matches!(poller.on_drained(&inner), PollAction::ReportLeases));
    poller.refresh_live_checkpoints(at(300_001), &live[1..].to_vec(), &inner);
    // The current checkpoint was lost: another one takes its place.
    poller.on_refreshed(Err(SlateDBError::CheckpointMissing(Uuid::from_u128(1))));
    assert!(matches!(
        poller.on_drained(&inner),
        PollAction::CreateCheckpoint { .. }
    ));
    assert_eq!(poller.active_checkpoints(), 0);
}

#[test]
fn a_pinned_reader_manages_no_checkpoints() {
    let mode = DbReaderMode::Checkpoint(Uuid::from_u128(1));
    let initial = state(1, Some(checkpoint(1, 1, None)), ManifestCore::new(), vec![], 0, 0);
    let (inner, _) = DbReaderInner::new(options(), mode, initial);
    let mut poller = ManifestPoller::new(&inner);
    assert_eq!(poller.active_checkpoints(), 0);
    assert!(matches!(
        poller.handle(&inner),
        PollAction::Done {
            result: Ok(()),
            counted: false
        }
    ));
    assert!(matches!(
        poller.cleanup(&inner),
        PollAction::Done {
            result: Ok(()),
            counted: false
        }
    ));
}

#[test]
fn cleanup_drains_every_generation_and_deletes_every_checkpoint() {
    let inner = managed_inner(ManifestCore::new());
    let mut poller = ManifestPoller::new(&inner);
    poller.generations = ids(&[7, 1]);
    assert!(matches!(poller.cleanup(&inner), PollAction::LoadManifest));
    match poller.on_cleanup_loaded(Ok(())) {
        PollAction::InvalidateAll(invalidated) => assert_eq!(invalidated, ids(&[7, 1])),
        other => panic!("unexpected action {other:?}"),
    }
    match poller.on_cleanup_invalidated() {
        PollAction::DrainAll(drained) => assert_eq!(drained, ids(&[7, 1])),
        other => panic!("unexpected action {other:?}"),
    }
    match poller.on_cleanup_drained() {
        PollAction::DeleteCheckpoints(deleted) => assert_eq!(deleted, ids(&[7, 1])),
        other => panic!("unexpected action {other:?}"),
    }
    assert!(matches!(
        poller.on_cleanup_deleted(Ok(())),
        PollAction::Done {
            result: Ok(()),
            counted: false
        }
    ));
    assert_eq!(poller.active_checkpoints(), 0);
}

#[test]
fn follow_latest_should_only_rebuild_on_a_newer_manifest() {
    let initial = state(4, None, ManifestCore::new(), vec![], 0, 0);
    let (inner, _) = DbReaderInner::new(options(), DbReaderMode::FollowLatest, initial);
    assert_eq!(
        inner.apply_latest_manifest(4),
        LatestManifestStep::ReplayNewWals
    );
    assert_eq!(
        inner.apply_latest_manifest(3),
        LatestManifestStep::ReplayNewWals
    );
    assert_eq!(inner.apply_latest_manifest(5), LatestManifestStep::Rebuild);
}

#[test]
fn should_fail_new_reads_once_closed() {
    let mut reader = DbReader {
        inner: managed_inner(ManifestCore::new()),
    };
    let mut generation = ReaderGeneration::new(
        1,
        Some(checkpoint(1, 1, None)),
        Arc::new(Manifest {
            core: ManifestCore::new(),
        }),
    );
    reader.inner.begin_read(&mut generation).unwrap();
    generation.exit_operation();
    reader.close();
    assert!(matches!(
        reader.inner.begin_read(&mut generation),
        Err(SlateDBError::Closed)
    ));
    assert!(generation.is_drained());
    // How the reader was closed first stands.
    reader.inner.close(Err(SlateDBError::ChecksumMismatch));
    assert!(matches!(
        reader.inner.check_closed(),
        Err(SlateDBError::Closed)
    ));

    let mut crashed = managed_inner(ManifestCore::new());
    crashed.close(Err(SlateDBError::BackgroundTaskPanic("poller".to_string())));
    assert!(matches!(
        crashed.check_closed(),
        Err(SlateDBError::BackgroundTaskPanic(name)) if name == "poller"
    ));
}

#[test]
fn multi_get_preserves_order_and_duplicates() {
    let (reader, mut generation) = pinned_reader();
    let request = reader
        .inner
        .multi_get_key_value_with_options(
            &mut generation,
            &vec![b"b".to_vec(), b"a".to_vec(), b"b".to_vec()],
            "options",
            Some(9),
        )
        .unwrap();
    assert_eq!(request.keys, vec!["b", "a", "b"]);
    assert_eq!((request.options, request.max_seq), ("options", Some(9)));
    assert!(!generation.is_drained());
    let found = |value: &'static [u8]| {
        Some(KeyValue {
            key: Bytes::from_static(b"k"),
            value: Bytes::from_static(value),
        })
    };
    let values = reader
        .multi_get_with_options(Ok(vec![found(b"2"), None, found(b"2"), found(b"1")]))
        .unwrap();
    assert_eq!(
        values,
        vec![
            Some(Bytes::from_static(b"2")),
            None,
            Some(Bytes::from_static(b"2")),
            Some(Bytes::from_static(b"1")),
        ]
    );
    assert_eq!(
        reader.get_with_options(Ok(found(b"1"))).unwrap(),
        Some(Bytes::from_static(b"1"))
    );
    assert!(reader
        .get_with_options(Err(SlateDBError::ChecksumMismatch))
        .is_err());
}

#[test]
fn scans_of_a_prefix_are_restricted_to_suffixes() {
    let (reader, mut generation) = pinned_reader();
    let mut scan_prefix = |prefix: &[u8], subrange: &BytesRange| {
        reader
            .scan_prefix_with_options(&mut generation, prefix, subrange, 4096)
            .unwrap()
    };
    let all = scan_prefix(b"ab", &BytesRange::unbounded());
    assert!(all.range.contains(b"ab"));
    assert!(all.range.contains(b"ab\xff\xff"));
    assert!(!all.range.contains(b"ac"));
    assert!(!all.range.contains(b"aa\xff"));
    assert_eq!(all.prefix, Some(Bytes::from_static(b"ab")));
    assert_eq!(all.options, 4096);

    let part = scan_prefix(
        b"ab",
        &BytesRange {
            start: KeyBound::Excluded(Bytes::from_static(b"1")),
            end: KeyBound::Included(Bytes::from_static(b"3")),
        },
    );
    assert!(!part.range.contains(b"ab1"));
    assert!(part.range.contains(b"ab10"));
    assert!(part.range.contains(b"ab3"));
    assert!(!part.range.contains(b"ab30"));

    let last = scan_prefix(b"\xff\xff", &BytesRange::unbounded());
    assert!(last.range.contains(b"\xff\xff\x00"));
    assert!(!last.range.contains(b"\xff\xfe"));
    let carried = scan_prefix(b"a\xff", &BytesRange::unbounded());
    assert!(carried.range.contains(b"a\xff\xff"));
    assert!(!carried.range.contains(b"b"));

    let range = BytesRange {
        start: KeyBound::Included(Bytes::from_static(b"a")),
        end: KeyBound::Excluded(Bytes::from_static(b"b")),
    };
    let request = reader
        .scan_with_options(&mut generation, &range, "options")
        .unwrap();
    assert!(request.range.contains(b"a"));
    assert!(!request.range.contains(b"b"));
    assert!(request.prefix.is_none());
    assert!(request.max_seq.is_none());
    assert_eq!(request.options, "options");
}

#[test]
fn reads_are_counted_on_their_generation_unless_it_is_lost() {
    let (reader, mut generation) = pinned_reader();
    let request = reader
        .get_key_value_with_options(&mut generation, b"key", 7)
        .unwrap();
    assert_eq!((request.key, request.options), (&b"key"[..], 7));
    assert!(request.max_seq.is_none());
    assert!(!generation.is_drained());
    assert!(generation.exit_operation());
    generation.invalidate();
    assert!(matches!(
        reader.get_key_value_with_options(&mut generation, b"key", 7),
        Err(SlateDBError::CheckpointLeaseLost(_))
    ));
    assert!(matches!(
        reader.scan_with_options(&mut generation, &BytesRange::unbounded(), 7),
        Err(SlateDBError::CheckpointLeaseLost(_))
    ));
    let keys = vec![b"key".to_vec()];
    assert!(matches!(
        reader
            .inner
            .multi_get_key_value_with_options(&mut generation, &keys, 7, None),
        Err(SlateDBError::CheckpointLeaseLost(_))
    ));
    assert!(generation.is_drained());
}

#[test]
fn caches_that_are_not_configured_are_disabled() {
    let reader = DbReader {
        inner: managed_inner(ManifestCore::new()),
    };
    let none = reader.cache_usage_snapshot(None, None);
    assert_eq!(none.db_cache.memory, CacheUsageSnapshot::Disabled);
    assert_eq!(none.db_cache.disk, CacheUsageSnapshot::Disabled);
    assert_eq!(none.object_store, CacheUsageSnapshot::Disabled);
    let ready = CacheUsageSnapshot::Ready {
        used_bytes: 3,
        capacity_bytes: Some(4),
    };
    let some = reader.cache_usage_snapshot(
        Some(DbCacheUsageSnapshot {
            memory: ready,
            disk: CacheUsageSnapshot::Unavailable,
        }),
        Some(ready),
    );
    assert_eq!(some.db_cache.memory, ready);
    assert_eq!(some.db_cache.disk, CacheUsageSnapshot::Unavailable);
    assert_eq!(some.object_store, ready);
}
