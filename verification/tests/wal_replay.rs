use bytes::Bytes;
use slatedb::error::{IoErrorKind, SlateDBError};
use slatedb::manifest::ManifestCore;
use slatedb::mem_table::KVTable;
use slatedb::types::{RowEntry, ValueDeletable};
use slatedb::wal_blocks::{DecodedWalSst, IteratorHolder, WalBlock, WalBlocksIterator};
use slatedb::wal_replay::{
    FetchOutcome, ReplayedMemtable, WalObjectPlan, WalReplayAction, WalReplayIterator,
    WalReplayOptions, WalReplaySettings, WalReplayStep, WalReplaySummary,
};
use std::collections::{BTreeMap, HashMap, VecDeque};
use std::ops::Range;
use std::sync::Arc;

/// What a WAL object holds.
#[derive(Clone)]
enum Object {
    Rows(Vec<RowEntry>),
    Fence,
    Missing,
    Panics,
    Cancelled,
    Corrupt,
    BrokenBlock(Vec<RowEntry>),
}

/// A replay over objects in memory.
struct Replay {
    iter: WalReplayIterator,
    objects: HashMap<u64, Object>,
    started: Vec<WalObjectPlan>,
    aborted: Vec<u64>,
    waited: Vec<u64>,
    completions: usize,
    summary: Option<WalReplaySummary>,
}

fn value_of(row: &RowEntry) -> &[u8] {
    match &row.value {
        ValueDeletable::Value(value) | ValueDeletable::Merge(value) => value,
        ValueDeletable::Tombstone => &[],
    }
}

/// The encoded size of a table: its keys, values and sequence numbers.
fn estimate(rows: &[&RowEntry]) -> usize {
    rows.iter()
        .map(|row| row.key.len() + value_of(row).len() + 8)
        .sum()
}

fn rows_of(table: &KVTable) -> Vec<&RowEntry> {
    (0..table.entry_num()).map(|i| table.row(i)).collect()
}

fn not_found(wal_id: u64) -> SlateDBError {
    SlateDBError::ObjectStoreError(Arc::new(object_store::Error::NotFound {
        path: format!("wal/{wal_id:020}.sst"),
        source: "no such object".into(),
    }))
}

fn has_object_store_not_found(error: &SlateDBError) -> bool {
    match error {
        SlateDBError::ObjectStoreError(error) => {
            matches!(**error, object_store::Error::NotFound { .. })
        }
        _ => false,
    }
}

impl Replay {
    fn take_up(&mut self, step: WalReplayStep) -> WalReplayAction {
        self.started.extend(step.start);
        self.aborted.extend(step.abort);
        if let Some(summary) = step.completed {
            self.completions += 1;
            self.summary = Some(summary);
        }
        step.action
    }

    fn next(&mut self) -> Result<Option<ReplayedMemtable>, SlateDBError> {
        let step = self.iter.next();
        let mut action = self.take_up(step);
        loop {
            let step = match action {
                WalReplayAction::Done(result) => return result,
                WalReplayAction::Fetch { wal_id } => {
                    assert!(self.started.iter().any(|plan| plan.wal_id == wal_id));
                    self.waited.push(wal_id);
                    let outcome = match self.objects.get(&wal_id) {
                        None | Some(Object::Missing) => {
                            FetchOutcome::Failed(not_found(wal_id))
                        }
                        Some(Object::Panics) => FetchOutcome::Panicked,
                        Some(Object::Cancelled) => FetchOutcome::Cancelled,
                        Some(Object::Fence) => FetchOutcome::Fetched(Bytes::new()),
                        Some(_) => FetchOutcome::Fetched(Bytes::from_static(b"0123456789")),
                    };
                    self.iter.on_fetch(outcome)
                }
                WalReplayAction::Decode { wal_id, .. } => {
                    let decoded = match &self.objects[&wal_id] {
                        Object::Rows(rows) => Ok(data(vec![(rows.clone(), None)])),
                        Object::BrokenBlock(rows) => Ok(data(vec![(
                            rows.clone(),
                            Some(SlateDBError::ChecksumMismatch),
                        )])),
                        Object::Fence => Ok(DecodedWalSst::Fence),
                        _ => Err(SlateDBError::ChecksumMismatch),
                    };
                    self.iter.on_decode(decoded)
                }
                WalReplayAction::Estimate => {
                    let bytes = estimate(&rows_of(self.iter.table.table()));
                    self.iter.on_estimate(bytes)
                }
            };
            action = self.take_up(step);
        }
    }
}

fn data(blocks: Vec<(Vec<RowEntry>, Option<SlateDBError>)>) -> DecodedWalSst {
    DecodedWalSst::Data {
        format_version: 2,
        blocks: blocks
            .into_iter()
            .map(|(rows, error)| WalBlock {
                rows: rows.into(),
                error,
            })
            .collect(),
    }
}

fn settings(max_concurrent_objects: usize, max_inflight_bytes: usize) -> WalReplaySettings {
    WalReplaySettings {
        max_concurrent_objects,
        max_inflight_bytes,
    }
}

fn default_options() -> WalReplayOptions {
    WalReplayOptions::with_prefetch(settings(2, 1024 * 1024))
}

fn listed(objects: &HashMap<u64, Object>, range: &Range<u64>) -> Vec<(u64, u64)> {
    let mut listed: Vec<(u64, u64)> = objects
        .iter()
        .filter(|(id, object)| range.contains(id) && !matches!(object, Object::Missing))
        .map(|(id, _)| (*id, 10))
        .collect();
    listed.sort();
    listed
}

fn open(
    range: Range<u64>,
    core: &ManifestCore,
    options: WalReplayOptions,
    objects: HashMap<u64, Object>,
) -> Replay {
    let listing = listed(&objects, &range);
    let (iter, started) = WalReplayIterator::range(range, core, options, &listing).unwrap();
    Replay {
        iter,
        objects,
        started,
        aborted: Vec::new(),
        waited: Vec::new(),
        completions: 0,
        summary: None,
    }
}

fn row(key: &str, seq: u64) -> RowEntry {
    RowEntry::new_value(key.as_bytes(), b"value", seq)
}

fn wals(objects: Vec<(u64, Object)>) -> HashMap<u64, Object> {
    objects.into_iter().collect()
}

fn seqs(table: &ReplayedMemtable) -> Vec<u64> {
    rows_of(table.table.table()).iter().map(|row| row.seq).collect()
}

fn long_row(key: &str, seq: u64) -> RowEntry {
    RowEntry::new_value(key.as_bytes(), &[b'x'; 128], seq)
}

/// The keys, values and sequence numbers of a table.
fn contents(table: &ReplayedMemtable) -> Vec<(Vec<u8>, Vec<u8>, u64)> {
    rows_of(table.table.table())
        .iter()
        .map(|row| (row.key.to_vec(), value_of(row).to_vec(), row.seq))
        .collect()
}

/// A small generator of sample data.
struct Sampler(u64);

impl Sampler {
    fn next(&mut self) -> u64 {
        self.0 = self.0.wrapping_mul(6364136223846793005).wrapping_add(1442695040888963407);
        self.0 >> 33
    }

    fn bytes(&mut self, len: usize) -> Vec<u8> {
        (0..len).map(|_| self.next() as u8).collect()
    }

    /// Entries with keys and values of so many bytes.
    fn table(&mut self, entries: usize, len: usize) -> BTreeMap<Vec<u8>, Vec<u8>> {
        let mut table = BTreeMap::new();
        while table.len() < entries {
            table.insert(self.bytes(len), self.bytes(len));
        }
        table
    }

    /// Writes the entries to WAL objects with fewer than `max_wal_entries` rows
    /// each, and returns the ID after the last one.
    fn write_wals(
        &mut self,
        entries: &BTreeMap<Vec<u8>, Vec<u8>>,
        first_wal_id: u64,
        max_wal_entries: u64,
        objects: &mut HashMap<u64, Object>,
    ) -> u64 {
        let mut next_wal_id = first_wal_id;
        let mut next_seq: u64 = 1;
        let mut left = entries.iter().peekable();
        while left.peek().is_some() {
            let mut rows = Vec::new();
            for _ in 0..self.next() % max_wal_entries {
                if let Some((key, value)) = left.next() {
                    rows.push(RowEntry::new_value(key, value, next_seq));
                    next_seq += 1;
                }
            }
            objects.insert(next_wal_id, Object::Rows(rows));
            next_wal_id += 1;
        }
        next_wal_id
    }
}

fn key_values(table: &KVTable) -> Vec<(Vec<u8>, Vec<u8>)> {
    rows_of(table)
        .iter()
        .map(|row| (row.key.to_vec(), value_of(row).to_vec()))
        .collect()
}

fn sorted(entries: BTreeMap<Vec<u8>, Vec<u8>>) -> Vec<(Vec<u8>, Vec<u8>)> {
    entries.into_iter().collect()
}

#[test]
fn should_replay_empty_wal() {
    let mut replay = open(
        1..2,
        &ManifestCore::new(),
        default_options(),
        wals(vec![(1, Object::Rows(vec![]))]),
    );
    let table = replay.next().unwrap().unwrap();
    assert_eq!(table.last_wal_id, 1);
    assert!(table.table.is_empty());
    assert_eq!(table.last_seq, 0);
    assert_eq!(table.last_tick, i64::MIN);
    assert!(replay.next().unwrap().is_none());
}

#[test]
fn should_replay_zero_byte_wal_fence() {
    let mut replay = open(
        1..2,
        &ManifestCore::new(),
        default_options(),
        wals(vec![(1, Object::Fence)]),
    );
    let table = replay.next().unwrap().unwrap();
    assert!(table.table.is_empty());
    assert_eq!(table.last_wal_id, 1);
    assert_eq!(table.last_seq, 0);
    assert_eq!(table.last_tick, i64::MIN);
    assert!(replay.next().unwrap().is_none());
}

#[test]
fn should_replay_zero_byte_wal_fence_before_real_wal() {
    let mut replay = open(
        1..3,
        &ManifestCore::new(),
        default_options(),
        wals(vec![
            (1, Object::Fence),
            (2, Object::Rows(vec![row("key", 1)])),
        ]),
    );
    let table = replay.next().unwrap().unwrap();
    assert_eq!(table.last_wal_id, 2);
    assert_eq!(table.last_seq, 1);
    assert_eq!(contents(&table), vec![(b"key".to_vec(), b"value".to_vec(), 1)]);
    assert!(replay.next().unwrap().is_none());
}

#[test]
fn should_replay_zero_byte_wal_fences_between_and_after_data_wals() {
    let mut replay = open(
        1..5,
        &ManifestCore::new(),
        default_options(),
        wals(vec![
            (1, Object::Rows(vec![RowEntry::new_value(b"first", b"value-1", 1)])),
            (2, Object::Fence),
            (3, Object::Rows(vec![RowEntry::new_value(b"second", b"value-2", 2)])),
            (4, Object::Fence),
        ]),
    );
    let table = replay.next().unwrap().unwrap();
    assert_eq!(table.last_wal_id, 4);
    assert_eq!(table.last_seq, 2);
    assert_eq!(
        contents(&table),
        vec![
            (b"first".to_vec(), b"value-1".to_vec(), 1),
            (b"second".to_vec(), b"value-2".to_vec(), 2),
        ]
    );
    assert!(replay.next().unwrap().is_none());
}

#[test]
fn should_finish_empty_replay_range_without_object_io() {
    let mut replay = open(7..7, &ManifestCore::new(), default_options(), wals(vec![]));
    assert!(replay.next().unwrap().is_none());
    assert!(replay.next().unwrap().is_none());
    assert!(replay.started.is_empty());
    assert_eq!(replay.completions, 1);
}

#[test]
fn should_replay_all_entries() {
    let mut sampler = Sampler(1);
    let entries = sampler.table(1000, 10);
    let mut objects = HashMap::new();
    let next_wal_id = sampler.write_wals(&entries, 1, 200, &mut objects);
    let mut replay = open(1..next_wal_id, &ManifestCore::new(), default_options(), objects);
    let table = replay.next().unwrap().unwrap();
    assert_eq!(table.last_wal_id + 1, next_wal_id);
    assert_eq!(key_values(table.table.table()), sorted(entries));
    assert!(replay.next().unwrap().is_none());
    assert_eq!(replay.completions, 1);
}

#[test]
fn should_issue_one_full_get_per_wal() {
    let objects = (1..=3u64)
        .map(|id| (id, Object::Rows(vec![row(&format!("key-{id}"), id)])))
        .collect();
    let mut replay = open(1..4, &ManifestCore::new(), default_options(), wals(objects));
    while replay.next().unwrap().is_some() {}
    let ids: Vec<u64> = replay.started.iter().map(|plan| plan.wal_id).collect();
    assert_eq!(ids, vec![1, 2, 3]);
    assert_eq!(replay.waited, ids);
    assert_eq!(replay.iter.fetched_objects, 3);
    assert_eq!(replay.iter.fetched_bytes, 30);
    assert_eq!(replay.iter.decoded_objects, 3);
}

#[test]
fn should_not_skip_a_missing_wal_id() {
    let mut replay = open(
        1..4,
        &ManifestCore::new(),
        default_options(),
        wals(vec![
            (1, Object::Rows(vec![row("key-1", 1)])),
            (3, Object::Rows(vec![row("key-3", 3)])),
        ]),
    );
    let error = replay.next().unwrap_err();
    assert!(has_object_store_not_found(&error));
    assert_eq!(replay.waited, vec![1, 2]);
}

#[test]
fn should_remain_failed_after_a_replay_error() {
    let mut replay = open(
        1..4,
        &ManifestCore::new(),
        default_options(),
        wals(vec![
            (1, Object::Rows(vec![row("key-1", 1)])),
            (3, Object::Rows(vec![row("key-3", 3)])),
        ]),
    );
    let first = replay.next().unwrap_err();
    let second = replay.next().unwrap_err();
    assert!(has_object_store_not_found(&first));
    assert!(has_object_store_not_found(&second));
    assert_eq!(replay.waited, vec![1, 2]);
}

#[test]
fn should_construct_huge_sparse_range_without_materializing_every_wal_id() {
    let (iter, started) = WalReplayIterator::range(
        1..u64::MAX,
        &ManifestCore::new(),
        WalReplayOptions::with_prefetch(settings(2, 2)),
        &vec![],
    )
    .unwrap();
    // An object of unknown size takes the whole budget.
    assert_eq!(
        started,
        vec![WalObjectPlan {
            wal_id: 1,
            expected_size: None
        }]
    );
    assert_eq!(iter.pending_fetches.len(), 1);
    assert_eq!(iter.available_bytes, 0);
}

#[test]
fn should_prefetch_up_to_the_object_limit() {
    let objects = (1..=4u64)
        .map(|id| (id, Object::Rows(vec![row(&format!("key-{id}"), id)])))
        .collect();
    let mut options = default_options();
    options.prefetch = settings(2, 1024 * 1024);
    let mut replay = open(1..5, &ManifestCore::new(), options, wals(objects));
    assert_eq!(replay.started.len(), 2);
    while replay.next().unwrap().is_some() {}
    assert_eq!(replay.started.len(), 4);
    assert_eq!(replay.iter.peak_concurrent_objects, 2);
    assert_eq!(replay.iter.peak_reserved_bytes, 30);
}

#[test]
fn should_apply_wals_in_id_order_when_later_get_returns_first() {
    let mut options = default_options();
    options.prefetch = settings(2, 1024 * 1024);
    options.max_memtable_bytes = 1;
    let mut replay = open(
        1..3,
        &ManifestCore::new(),
        options,
        wals(vec![
            (1, Object::Rows(vec![long_row("key-1", 1)])),
            (2, Object::Rows(vec![long_row("key-2", 2)])),
        ]),
    );
    // Both fetches are under way; the bytes of the second may already be there.
    assert_eq!(replay.started.len(), 2);
    let step = replay.iter.next();
    assert!(matches!(step.action, WalReplayAction::Fetch { wal_id: 1 }));
    let step = replay
        .iter
        .on_fetch(FetchOutcome::Fetched(Bytes::from_static(b"0123456789")));
    assert!(matches!(
        step.action,
        WalReplayAction::Decode { wal_id: 1, .. }
    ));
    let step = replay
        .iter
        .on_decode(Ok(data(vec![(vec![long_row("key-1", 1)], None)])));
    assert!(matches!(step.action, WalReplayAction::Estimate));
    let bytes = estimate(&rows_of(replay.iter.table.table()));
    match replay.iter.on_estimate(bytes).action {
        WalReplayAction::Done(Ok(Some(table))) => assert_eq!(table.last_wal_id, 1),
        other => panic!("unexpected action {other:?}"),
    }
    assert_eq!(replay.next().unwrap().unwrap().last_wal_id, 2);
    assert!(replay.next().unwrap().is_none());
}

#[test]
fn should_abort_later_fetches_after_a_replay_error() {
    let mut options = default_options();
    options.prefetch = settings(2, 1024 * 1024);
    let mut replay = open(
        1..3,
        &ManifestCore::new(),
        options,
        wals(vec![
            (1, Object::Corrupt),
            (2, Object::Rows(vec![row("key-2", 2)])),
        ]),
    );
    assert!(matches!(
        replay.next().unwrap_err(),
        SlateDBError::ChecksumMismatch
    ));
    assert_eq!(replay.aborted, vec![2]);
    assert_eq!(replay.iter.available_bytes, 1024 * 1024);
    assert!(replay.iter.pending_fetches.is_empty());
}

#[test]
fn every_pending_fetch_is_aborted_when_a_block_is_broken() {
    let mut replay = open(
        1..6,
        &ManifestCore::new(),
        WalReplayOptions::with_prefetch(settings(3, 1024)),
        wals(vec![
            (1, Object::BrokenBlock(vec![row("a", 1)])),
            (2, Object::Rows(vec![row("b", 2)])),
            (3, Object::Rows(vec![row("c", 3)])),
            (4, Object::Rows(vec![row("d", 4)])),
            (5, Object::Rows(vec![row("e", 5)])),
        ]),
    );
    assert!(matches!(
        replay.next().unwrap_err(),
        SlateDBError::ChecksumMismatch
    ));
    assert_eq!(replay.aborted, vec![2, 3, 4]);
    assert_eq!(replay.iter.available_bytes, 1024);
    assert!(replay.iter.pending_fetches.is_empty());
}

#[test]
fn a_failed_replay_stays_failed_however_often_it_is_asked() {
    let mut replay = open(
        1..3,
        &ManifestCore::new(),
        default_options(),
        wals(vec![
            (1, Object::Corrupt),
            (2, Object::Rows(vec![row("a", 1)])),
        ]),
    );
    for _ in 0..5 {
        assert!(matches!(
            replay.next().unwrap_err(),
            SlateDBError::ChecksumMismatch
        ));
    }
    assert_eq!(replay.waited, vec![1]);
    assert_eq!(replay.started.len(), 2);
}

#[test]
fn should_fail_terminally_and_abort_later_fetches_after_a_fetch_panic() {
    let mut options = default_options();
    options.prefetch = settings(2, 1024 * 1024);
    let mut replay = open(
        1..3,
        &ManifestCore::new(),
        options,
        wals(vec![
            (1, Object::Panics),
            (2, Object::Rows(vec![row("key-2", 2)])),
        ]),
    );
    match replay.next().unwrap_err() {
        SlateDBError::BackgroundTaskPanic(name) => assert_eq!(name, "wal_replay[1..3]"),
        other => panic!("unexpected error {other:?}"),
    }
    assert!(matches!(
        replay.next().unwrap_err(),
        SlateDBError::BackgroundTaskPanic(_)
    ));
    assert_eq!(replay.aborted, vec![2]);
}

#[test]
fn should_fail_terminally_if_a_fetch_task_is_cancelled() {
    let mut replay = open(
        1..2,
        &ManifestCore::new(),
        default_options(),
        wals(vec![(1, Object::Cancelled)]),
    );
    match replay.next().unwrap_err() {
        SlateDBError::BackgroundTaskCancelled(name) => assert_eq!(name, "wal_replay[1..2]"),
        other => panic!("unexpected error {other:?}"),
    }
    assert!(matches!(
        replay.next().unwrap_err(),
        SlateDBError::BackgroundTaskCancelled(_)
    ));
}

#[test]
fn should_hold_byte_permits_until_the_wal_is_consumed() {
    let mut options = WalReplayOptions::with_prefetch(settings(2, 1));
    options.max_memtable_bytes = 1;
    let objects = wals(vec![
        (1, Object::Rows(vec![long_row("key-1", 1)])),
        (2, Object::Rows(vec![long_row("key-2", 2)])),
    ]);
    let mut replay = open(1..3, &ManifestCore::new(), options, objects);
    assert_eq!(replay.started.len(), 1);
    assert!(replay.next().unwrap().is_some());
    assert_eq!(replay.iter.available_bytes, 1);
    assert!(replay.next().unwrap().is_some());
    assert!(replay.next().unwrap().is_none());
    assert_eq!(replay.started.len(), 2);
}

#[test]
fn byte_permits_come_back_once_the_table_is_measured() {
    let mut options = WalReplayOptions::with_prefetch(settings(2, 1));
    options.max_memtable_bytes = 1;
    let objects = wals(vec![
        (1, Object::Rows(vec![row("a", 1)])),
        (2, Object::Rows(vec![row("b", 2)])),
    ]);
    let mut replay = open(1..3, &ManifestCore::new(), options, objects);
    let step = replay.iter.next();
    assert!(step.start.is_empty());
    let step = replay
        .iter
        .on_fetch(FetchOutcome::Fetched(Bytes::from_static(b"x")));
    assert!(step.start.is_empty());
    let step = replay
        .iter
        .on_decode(Ok(data(vec![(vec![row("a", 1)], None)])));
    assert!(step.start.is_empty());
    assert_eq!(replay.iter.available_bytes, 0);
    let step = replay.iter.on_estimate(10);
    assert!(matches!(
        step.action,
        WalReplayAction::Done(Ok(Some(ReplayedMemtable { last_wal_id: 1, .. })))
    ));
    assert_eq!(replay.iter.available_bytes, 1);
    let step = replay.iter.next();
    assert_eq!(step.start.len(), 1);
    assert_eq!(step.start[0].wal_id, 2);
}

#[test]
fn should_enforce_max_memtable_bytes() {
    let num_entries = 5000;
    let mut sampler = Sampler(2);
    let entries = sampler.table(num_entries, 10);
    let mut objects = HashMap::new();
    let next_wal_id = sampler.write_wals(&entries, 1, 200, &mut objects);
    let max_memtable_bytes = 1024;
    let mut options = default_options();
    options.max_memtable_bytes = max_memtable_bytes;
    let mut replay = open(1..next_wal_id, &ManifestCore::new(), options, objects);
    let mut full_replayed_table = KVTable::new();
    let mut last_wal_id = 0;
    let mut replayed_entry_count = 0;
    while let Some(replayed_table) = replay.next().unwrap() {
        last_wal_id = replayed_table.last_wal_id;
        let rows = rows_of(replayed_table.table.table());
        replayed_entry_count += rows.len();
        // The last table may be under the target size.
        if replayed_entry_count < num_entries {
            assert!(estimate(&rows) >= max_memtable_bytes);
        }
        for row in rows {
            full_replayed_table.put(row.clone());
        }
    }
    assert_eq!(last_wal_id + 1, next_wal_id);
    assert_eq!(key_values(&full_replayed_table), sorted(entries));
}

#[test]
fn tables_are_cut_at_the_first_object_that_reaches_the_target() {
    let objects: Vec<(u64, Object)> = (1..=6u64)
        .map(|id| {
            let rows = (0..2).map(|i| row(&format!("{id}{i}"), id * 2 + i)).collect();
            (id, Object::Rows(rows))
        })
        .collect();
    let mut options = default_options();
    options.max_memtable_bytes = 4 * estimate(&[&row("00", 0)]);
    let mut replay = open(1..7, &ManifestCore::new(), options, wals(objects.clone()));
    let mut last = Vec::new();
    while let Some(table) = replay.next().unwrap() {
        assert_eq!(table.table.table().entry_num(), 4);
        last.push(table.last_wal_id);
    }
    assert_eq!(last, vec![2, 4, 6]);
    // One byte more moves each cut to the next object, and leaves a rest.
    options.max_memtable_bytes += 1;
    let mut replay = open(1..7, &ManifestCore::new(), options, wals(objects));
    let mut last = Vec::new();
    while let Some(table) = replay.next().unwrap() {
        last.push((table.last_wal_id, table.table.table().entry_num()));
    }
    assert_eq!(last, vec![(3, 6), (6, 6)]);
}

#[test]
fn objects_without_rows_do_not_lead_to_a_cut() {
    let mut options = default_options();
    options.max_memtable_bytes = 0;
    let mut replay = open(
        1..5,
        &ManifestCore::new(),
        options,
        wals(vec![
            (1, Object::Fence),
            (2, Object::Rows(vec![])),
            (3, Object::Rows(vec![row("a", 1)])),
            (4, Object::Fence),
        ]),
    );
    let first = replay.next().unwrap().unwrap();
    assert_eq!((first.last_wal_id, seqs(&first)), (3, vec![1]));
    let second = replay.next().unwrap().unwrap();
    assert_eq!((second.last_wal_id, seqs(&second)), (4, vec![]));
    assert!(replay.next().unwrap().is_none());
    assert!(replay.next().unwrap().is_none());
}

#[test]
fn tables_report_the_greatest_tick_and_sequence_number_so_far() {
    let mut core = ManifestCore::new();
    core.last_l0_seq = 5;
    core.last_l0_clock_tick = 40;
    let stamped = |key: &str, seq: u64, tick: i64| {
        let mut row = row(key, seq);
        row.create_ts = Some(tick);
        row
    };
    let mut options = default_options();
    options.max_memtable_bytes = 1;
    let mut replay = open(
        1..5,
        &core,
        options,
        wals(vec![
            (1, Object::Rows(vec![stamped("a", 9, 30)])),
            (2, Object::Rows(vec![stamped("b", 5, 900), stamped("c", 7, 60)])),
            (3, Object::Rows(vec![row("d", 8)])),
            (4, Object::Rows(vec![stamped("e", 12, 50)])),
        ]),
    );
    let mut reported = Vec::new();
    while let Some(table) = replay.next().unwrap() {
        reported.push((table.last_seq, table.last_tick));
    }
    // The row with sequence number 5 is not replayed, so its tick does not count.
    assert_eq!(reported, vec![(9, 40), (9, 60), (9, 60), (12, 60)]);
}

#[test]
fn should_apply_max_memtable_bytes_at_wal_boundaries() {
    let wal_entries = [
        long_row("key_001", 1),
        long_row("key_002", 2),
        long_row("key_003", 3),
    ];
    let max_memtable_bytes = estimate(&[&wal_entries[0]]) + 1;
    let objects = wal_entries
        .into_iter()
        .enumerate()
        .map(|(i, entry)| (i as u64 + 1, Object::Rows(vec![entry])))
        .collect();
    let mut options = default_options();
    options.max_memtable_bytes = max_memtable_bytes;
    let mut replay = open(1..4, &ManifestCore::new(), options, wals(objects));
    let mut replayed_last_wal_ids = Vec::new();
    let mut replayed_table_sizes = Vec::new();
    let mut replayed_seqs = Vec::new();
    while let Some(table) = replay.next().unwrap() {
        replayed_last_wal_ids.push(table.last_wal_id);
        replayed_table_sizes.push(estimate(&rows_of(table.table.table())));
        replayed_seqs.extend(seqs(&table));
    }
    assert_eq!(replayed_last_wal_ids, vec![2, 3]);
    assert!(replayed_table_sizes[0] > max_memtable_bytes);
    assert_eq!(replayed_seqs, vec![1, 2, 3]);
}

#[test]
fn should_not_split_one_commit_seq_across_replayed_memtables() {
    let commit_seq = 42;
    let entries: Vec<RowEntry> = (0..8)
        .map(|i| long_row(&format!("key_{i:03}"), commit_seq))
        .collect();
    let mut options = default_options();
    options.max_memtable_bytes = estimate(&[&entries[0]]);
    let mut replay = open(
        1..2,
        &ManifestCore::new(),
        options,
        wals(vec![(1, Object::Rows(entries))]),
    );
    let mut replayed_seq_ranges = Vec::new();
    while let Some(table) = replay.next().unwrap() {
        let table = table.table.table();
        replayed_seq_ranges.push((table.first_seq().unwrap(), table.last_seq().unwrap()));
    }
    assert_eq!(replayed_seq_ranges, vec![(commit_seq, commit_seq)]);
}

#[test]
fn should_replay_memtables_in_sequence_order() {
    let entries = vec![
        long_row("key_000", 100),
        long_row("key_001", 10),
        long_row("key_002", 110),
    ];
    let mut options = default_options();
    options.max_memtable_bytes = estimate(&[&entries[0]]);
    let mut replay = open(
        1..2,
        &ManifestCore::new(),
        options,
        wals(vec![(1, Object::Rows(entries))]),
    );
    let mut replayed_seq_ranges = Vec::new();
    while let Some(table) = replay.next().unwrap() {
        let table = table.table.table();
        replayed_seq_ranges.push((table.first_seq().unwrap(), table.last_seq().unwrap()));
    }
    for adjacent in replayed_seq_ranges.windows(2) {
        assert!(adjacent[1].0 >= adjacent[0].1);
    }
    assert_eq!(replayed_seq_ranges, vec![(10, 110)]);
}

#[test]
fn should_only_replay_wals_after_last_l0_flushed_wal_id() {
    let mut sampler = Sampler(3);
    let mut objects = HashMap::new();
    let compacted_entries = sampler.table(1000, 10);
    let first_kept = sampler.write_wals(&compacted_entries, 1, 200, &mut objects);
    let replay_after_wal_id = first_kept - 1;
    let non_compacted_entries = sampler.table(1000, 10);
    let next_wal_id = sampler.write_wals(&non_compacted_entries, first_kept, 200, &mut objects);
    let mut core = ManifestCore::new();
    core.replay_after_wal_id = replay_after_wal_id;
    core.next_wal_sst_id = replay_after_wal_id + 1;
    let mut replay = open(
        core.replay_after_wal_id + 1..next_wal_id,
        &core,
        default_options(),
        objects,
    );
    let table = replay.next().unwrap().unwrap();
    assert_eq!(table.last_wal_id + 1, next_wal_id);
    assert_eq!(key_values(table.table.table()), sorted(non_compacted_entries));
    assert!(replay.next().unwrap().is_none());
}

#[test]
fn should_replay_wals_after_min_seq() {
    let mut sampler = Sampler(4);
    let entries = sampler.table(1000, 10);
    let mut objects = HashMap::new();
    let next_wal_id = sampler.write_wals(&entries, 1, 200, &mut objects);
    let min_seq = 500;
    let mut core = ManifestCore::new();
    core.last_l0_seq = min_seq;
    core.last_l0_clock_tick = 0;
    let mut replay = open(1..next_wal_id, &core, default_options(), objects);
    let table = replay.next().unwrap().unwrap();
    assert_eq!(table.last_wal_id + 1, next_wal_id);
    assert!(seqs(&table).into_iter().all(|seq| seq > min_seq));
    assert_eq!(table.table.table().entry_num(), 500);
}

#[test]
fn the_smallest_sequence_number_can_be_set_apart_from_the_manifest() {
    let mut options = default_options();
    options.min_seq = Some(3);
    let mut late = row("d", 4);
    late.create_ts = Some(99);
    let mut early = row("b", 2);
    early.create_ts = Some(500);
    let mut replay = open(
        1..3,
        &ManifestCore::new(),
        options,
        wals(vec![
            (1, Object::Rows(vec![row("a", 1), early])),
            (2, Object::Rows(vec![row("c", 3), late])),
        ]),
    );
    let table = replay.next().unwrap().unwrap();
    assert_eq!(seqs(&table), vec![4]);
    assert_eq!(table.last_tick, 99);
    assert_eq!(table.last_seq, 4);
    assert!(replay.next().unwrap().is_none());
}

#[test]
fn an_inconsistent_listing_is_refused() {
    for listing in [
        vec![(1, 10), (1, 10)],
        vec![(2, 10), (1, 10)],
        vec![(4, 10)],
        vec![(0, 10)],
    ] {
        let result = WalReplayIterator::range(
            1..4,
            &ManifestCore::new(),
            default_options(),
            &listing,
        );
        assert!(matches!(result, Err(SlateDBError::InvalidDBState)));
    }
}

#[test]
fn prefetch_limits_are_validated() {
    assert!(settings(1, 1).validate().is_ok());
    assert!(settings(1, u32::MAX as usize).validate().is_ok());
    for bad in [
        settings(0, 1),
        settings(1, 0),
        settings(1, u32::MAX as usize + 1),
    ] {
        assert!(matches!(
            bad.validate(),
            Err(SlateDBError::InvalidWalReplaySettings { .. })
        ));
    }
    let result = WalReplayIterator::range(
        1..2,
        &ManifestCore::new(),
        WalReplayOptions::with_prefetch(settings(0, 1)),
        &vec![],
    );
    assert!(matches!(
        result,
        Err(SlateDBError::InvalidWalReplaySettings {
            max_concurrent_objects: 0,
            max_inflight_bytes: 1
        })
    ));
    assert_eq!(default_options().max_memtable_bytes, 67_108_864);
}

#[test]
fn reservations_are_clamped_to_the_byte_limit() {
    let (iter, started) = WalReplayIterator::range(
        1..10,
        &ManifestCore::new(),
        WalReplayOptions::with_prefetch(settings(9, 100)),
        &vec![(1, 0), (2, 60), (3, 500)],
    )
    .unwrap();
    // One byte for the empty object, sixty for the next; the third one needs
    // the whole budget and has to wait.
    assert_eq!(started.len(), 2);
    assert_eq!(iter.available_bytes, 39);
    assert_eq!(iter.peak_reserved_bytes, 61);
    assert_eq!(iter.listed_sizes.len(), 1);
}

#[test]
fn wal_blocks_are_read_in_order_and_cannot_be_sought() {
    let blocks: VecDeque<WalBlock> = vec![
        WalBlock {
            rows: vec![row("a", 1), row("b", 2)].into(),
            error: None,
        },
        WalBlock {
            rows: VecDeque::new(),
            error: None,
        },
        WalBlock {
            rows: vec![row("c", 3)].into(),
            error: Some(SlateDBError::ChecksumMismatch),
        },
    ]
    .into();
    let mut iter = WalBlocksIterator::new(1, blocks);
    iter.init().unwrap();
    assert_eq!(iter.next().unwrap().unwrap().seq, 1);
    assert_eq!(iter.next().unwrap().unwrap().seq, 2);
    assert_eq!(iter.next().unwrap().unwrap().seq, 3);
    assert!(matches!(
        iter.next().unwrap_err(),
        SlateDBError::ChecksumMismatch
    ));
    assert!(matches!(
        iter.seek(b"a").unwrap_err(),
        SlateDBError::InvalidDBState
    ));
}

#[test]
fn iterator_holder_tells_unstarted_from_finished() {
    let mut holder: IteratorHolder<u8> = IteratorHolder::new();
    assert!(!holder.is_finished());
    holder.advance(Some(1));
    assert!(!holder.is_finished());
    holder.advance(None);
    assert!(holder.is_finished());
    holder.reset();
    assert!(!holder.is_finished());
}

#[test]
fn splitting_a_replay_differently_gives_the_same_rows() {
    let rows: Vec<(u64, Object)> = (1..=8u64)
        .map(|id| (id, Object::Rows(vec![row(&format!("k{}", id % 3), id)])))
        .collect();
    let mut one = open(1..9, &ManifestCore::new(), default_options(), wals(rows.clone()));
    let whole = one.next().unwrap().unwrap();
    let mut options = default_options();
    options.max_memtable_bytes = 3 * estimate(&[&row("k0", 0)]);
    let mut many = open(1..9, &ManifestCore::new(), options, wals(rows));
    let mut parts: Vec<u64> = Vec::new();
    while let Some(table) = many.next().unwrap() {
        parts.extend(seqs(&table));
    }
    let mut expected = seqs(&whole);
    expected.sort();
    parts.sort();
    assert_eq!(parts, expected);
}

#[test]
fn what_was_replayed_before_a_truncation_is_handed_out() {
    let mut replay = open(
        1..5,
        &ManifestCore::new(),
        default_options(),
        wals(vec![
            (1, Object::Rows(vec![row("a", 1)])),
            (2, Object::Rows(vec![row("b", 2)])),
        ]),
    );
    let mut action = replay.iter.next().action;
    let mut aborted = Vec::new();
    let table = loop {
        let step = match action {
            WalReplayAction::Done(result) => break result.unwrap().unwrap(),
            WalReplayAction::Fetch { wal_id: 3 } => replay.iter.on_truncated(),
            WalReplayAction::Fetch { .. } => replay
                .iter
                .on_fetch(FetchOutcome::Fetched(Bytes::from_static(b"x"))),
            WalReplayAction::Decode { wal_id, .. } => replay.iter.on_decode(Ok(data(vec![(
                vec![row(&format!("{wal_id}"), wal_id)],
                None,
            )]))),
            WalReplayAction::Estimate => replay.iter.on_estimate(1),
        };
        aborted.extend(step.abort);
        action = step.action;
    };
    assert_eq!((table.last_wal_id, seqs(&table)), (2, vec![1, 2]));
    assert_eq!(aborted, vec![]);
    for _ in 0..2 {
        assert!(matches!(
            replay.next().unwrap_err(),
            SlateDBError::WalTruncated(3)
        ));
    }
}

/// Opens a replay under a listing of its own.
fn open_listed(
    range: Range<u64>,
    options: WalReplayOptions,
    listing: Vec<(u64, u64)>,
    objects: HashMap<u64, Object>,
) -> Replay {
    let (iter, started) =
        WalReplayIterator::range(range, &ManifestCore::new(), options, &listing).unwrap();
    Replay {
        iter,
        objects,
        started,
        aborted: Vec::new(),
        waited: Vec::new(),
        completions: 0,
        summary: None,
    }
}

#[test]
fn every_fetch_expects_the_listed_size_however_late_it_is_started() {
    let objects: Vec<(u64, Object)> = (1..=6u64)
        .map(|id| (id, Object::Rows(vec![row(&format!("key-{id}"), id)])))
        .collect();
    let mut options = WalReplayOptions::with_prefetch(settings(2, 100));
    options.max_memtable_bytes = 1;
    let listing = vec![(1, 11), (2, 22), (3, 33), (5, 0), (6, 500)];
    let mut replay = open_listed(1..7, options, listing, wals(objects));
    assert_eq!(replay.started.len(), 2);
    let mut tables = 0;
    while let Some(table) = replay.next().unwrap() {
        assert!(table.table.table().touched_segments().is_empty());
        tables += 1;
    }
    assert_eq!(tables, 6);
    let started: Vec<(u64, Option<u64>)> = replay
        .started
        .iter()
        .map(|plan| (plan.wal_id, plan.expected_size))
        .collect();
    assert_eq!(
        started,
        vec![
            (1, Some(11)),
            (2, Some(22)),
            (3, Some(33)),
            (4, None),
            (5, Some(0)),
            (6, Some(500)),
        ]
    );
}

#[test]
fn reservations_follow_the_listing_over_the_whole_replay() {
    let objects: Vec<(u64, Object)> = (1..=4u64)
        .map(|id| (id, Object::Rows(vec![row(&format!("key-{id}"), id)])))
        .collect();
    let options = WalReplayOptions::with_prefetch(settings(2, 100));
    let listing = vec![(1, 10), (2, 20), (3, 40), (4, 70)];
    let mut replay = open_listed(1..5, options, listing, wals(objects));
    let reserved = |replay: &Replay| -> Vec<(u64, usize)> {
        let pending = &replay.iter.pending_fetches;
        pending
            .iter()
            .map(|wal| (wal.wal_id, wal.reserved_bytes))
            .collect()
    };
    assert_eq!(reserved(&replay), vec![(1, 10), (2, 20)]);
    let step = replay.iter.next();
    // The first object is waited for, so there is room for the third.
    assert!(matches!(step.action, WalReplayAction::Fetch { wal_id: 1 }));
    assert_eq!(reserved(&replay), vec![(2, 20)]);
    replay
        .iter
        .on_fetch(FetchOutcome::Fetched(Bytes::from_static(b"x")));
    let step = replay
        .iter
        .on_decode(Ok(data(vec![(vec![row("key-1", 1)], None)])));
    assert_eq!(
        step.start,
        vec![WalObjectPlan {
            wal_id: 3,
            expected_size: Some(40)
        }]
    );
    assert_eq!(reserved(&replay), vec![(2, 20), (3, 40)]);
    assert_eq!(replay.iter.available_bytes, 30);
    assert_eq!(replay.iter.peak_reserved_bytes, 70);
    // The fourth object has to wait until the second gave its bytes back.
    let step = replay.iter.on_estimate(1);
    assert!(step.start.is_empty());
    assert_eq!(replay.iter.available_bytes, 40);
}

#[test]
fn the_completion_tells_what_the_replay_took_once() {
    let objects = (1..=4u64)
        .map(|id| (id, Object::Rows(vec![row(&format!("key-{id}"), id)])))
        .collect();
    let mut options = default_options();
    options.max_memtable_bytes = 1;
    let mut replay = open(1..5, &ManifestCore::new(), options, wals(objects));
    while replay.next().unwrap().is_some() {
        assert!(replay.summary.is_none());
    }
    assert!(replay.next().unwrap().is_none());
    assert_eq!(replay.completions, 1);
    assert_eq!(
        replay.summary,
        Some(WalReplaySummary {
            fetched_objects: 4,
            fetched_bytes: 40,
            decoded_objects: 4,
            peak_concurrent_objects: 2,
            peak_reserved_bytes: 30,
        })
    );
}

#[test]
fn an_object_that_changed_after_the_listing_fails_the_replay() {
    let mut replay = open_listed(
        1..2,
        default_options(),
        vec![(1, 10)],
        wals(vec![(1, Object::Rows(vec![row("key", 1)]))]),
    );
    let found = Bytes::from_static(b"changed");
    assert_ne!(replay.started[0].expected_size, Some(found.len() as u64));
    assert!(matches!(
        replay.iter.next().action,
        WalReplayAction::Fetch { wal_id: 1 }
    ));
    let error = SlateDBError::WalDataError {
        kind: IoErrorKind::InvalidData,
        message: "the object does not have its listed size".to_string(),
    };
    let step = replay.iter.on_fetch(FetchOutcome::Failed(error));
    assert!(matches!(
        step.action,
        WalReplayAction::Done(Err(SlateDBError::WalDataError { .. }))
    ));
    assert!(matches!(
        replay.next().unwrap_err(),
        SlateDBError::WalDataError { .. }
    ));
}
