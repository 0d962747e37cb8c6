//! The reader: what it serves, and how its state moves on.
use crate::byte_string::bytes_contents;
use crate::bytes_range::{prefixed_end, prefixed_start, starts_with, BytesRange, RangeView};
use crate::config::{DbReaderMode, DbReaderOptions, WalReplayEnd};
use crate::db_cache::{CacheUsageSnapshot, DbCacheUsageSnapshot, SlateDbCacheUsageSnapshot};
use crate::db_state::{runs_view, tables_view};
use crate::error::SlateDBError;
use crate::manifest::{Checkpoint, Manifest, ManifestCore, VersionedManifest};
use crate::mem_table::{segment_set, segments_unique};
use crate::reader_generation::{GenerationRef, ReaderGeneration};
use crate::reader_state::{cannot_retain, greater, lens_fit, lens_of, max_u64, retained_tables,
    ReaderState, ReaderStateBuild, ReplayIntoAction, WalReplayInto};
use crate::replay_memtables::tables_segments;
use crate::types::KeyValue;
use bytes::Bytes;
use std::sync::Arc;
use vstd::prelude::*;

verus! {

/// The name of the task that polls the manifest.
pub const DB_READER_TASK_NAME: &'static str = "manifest_poller";

/// The task that polls the manifest goes by that name.
pub proof fn law_the_polling_task_is_the_manifest_poller()
    ensures
        DB_READER_TASK_NAME@ == "manifest_poller"@,
{
}

/// What is to be reported of a new state.
pub struct StateReport {
    /// Everything up to this sequence number is durable.
    pub durable_seq: u64,
    /// The manifest, where it is another one.
    pub manifest: Option<VersionedManifest>,
    /// The segments that replayed tables touch.
    pub segments: Vec<Bytes>,
}

/// The state of a reader.
pub struct DbReaderInner {
    pub options: DbReaderOptions,
    pub mode: DbReaderMode,
    pub state: ReaderState,
    /// Everything up to this sequence number was reported durable.
    pub durable_seq: u64,
    /// How the reader was closed, once it was.
    pub closed: Option<Result<(), SlateDBError>>,
}

/// What the newest manifest asks for.
#[derive(Clone, Copy, PartialEq, Eq, Structural, Debug)]
pub enum LatestManifestStep {
    /// The manifest is not newer: replay what was added to the WAL.
    ReplayNewWals,
    /// The manifest is newer: rebuild the state on it.
    Rebuild,
}

/// How a call of `snapshot` goes on.
#[derive(Debug)]
pub enum SnapshotStep {
    /// The state was captured, and an operation is in flight on its generation.
    Captured(ReaderState),
    /// The state was replaced meanwhile: try again with the new one.
    Retry,
    /// The call fails.
    Failed(SlateDBError),
}

impl DbReaderInner {
    /// The options and the tables are valid, and a reader that manages
    /// checkpoints has one.
    pub open spec fn wf(&self) -> bool {
        &&& self.options.wf()
        &&& self.state.imm_memtable.wf()
        &&& self.mode == DbReaderMode::ManagedCheckpoint
            ==> self.state.generation.checkpoint_id is Some
    }

    /// A reader that serves an initial state. Also gives what to report of it.
    pub fn new(options: DbReaderOptions, mode: DbReaderMode, initial_state: ReaderState) -> (created: (
        DbReaderInner,
        StateReport,
    ))
        requires
            options.wf(),
            initial_state.imm_memtable.wf(),
            mode == DbReaderMode::ManagedCheckpoint
                ==> initial_state.generation.checkpoint_id is Some,
        ensures
            created.0.wf(),
            ({
                let durable = greater(
                    initial_state.last_remote_persisted_seq,
                    initial_state.generation.manifest.core.last_l0_seq,
                );
                &&& created.0 == (DbReaderInner {
                    options,
                    mode,
                    state: initial_state,
                    durable_seq: durable,
                    closed: None,
                })
                &&& created.1.durable_seq == durable
                &&& created.1.manifest == Some(
                    VersionedManifest {
                        id: initial_state.generation.manifest_id,
                        manifest: initial_state.generation.manifest,
                    },
                )
                &&& segments_unique(created.1.segments@)
                &&& segment_set(created.1.segments@) == tables_segments(
                    initial_state.imm_memtable@,
                )
            }),
    {
        let durable_seq: u64 = max_u64(
            initial_state.last_remote_persisted_seq,
            initial_state.manifest_core().last_l0_seq,
        );
        let report = StateReport {
            durable_seq,
            manifest: Some(initial_state.versioned_manifest()),
            segments: initial_state.imm_memtable.touched_segments(),
        };
        let inner = DbReaderInner { options, mode, state: initial_state, durable_seq, closed: None };
        (inner, report)
    }

    /// Whether the latest manifest has tables that the current one lacks, so that
    /// a checkpoint of it is needed. Segment-only progress is invisible to a
    /// comparison of the root tree, so segments are compared as well.
    pub fn should_reestablish_checkpoint(&self, latest: &ManifestCore) -> (needed: bool)
        ensures
            needed == latest.tables_differ(&self.state.generation.manifest.core),
            !needed <==> {
                &&& latest.tree.last_compacted_l0_sst_view_id
                    == self.state.generation.manifest.core.tree.last_compacted_l0_sst_view_id
                &&& latest.last_l0_seq <= self.state.generation.manifest.core.last_l0_seq
                &&& latest.tree.compacted@.len() == self.state.generation.manifest.core.tree.compacted@.len()
                &&& forall|i: int|
                    #![trigger latest.tree.compacted@[i]]
                    0 <= i < latest.tree.compacted@.len() ==> {
                        &&& latest.tree.compacted@[i].id == self.state.generation.manifest.core.tree.compacted@[i].id
                        &&& latest.tree.compacted@[i].sst_views@.len()
                            == self.state.generation.manifest.core.tree.compacted@[i].sst_views@.len()
                        &&& forall|j: int|
                            0 <= j < latest.tree.compacted@[i].sst_views@.len() ==> (
                            #[trigger] latest.tree.compacted@[i].sst_views@[j])@
                                == self.state.generation.manifest.core.tree.compacted@[i].sst_views@[j]@
                    }
                &&& latest.segments@.len() == self.state.generation.manifest.core.segments@.len()
                &&& forall|i: int|
                    #![trigger latest.segments@[i]]
                    0 <= i < latest.segments@.len() ==> {
                        &&& bytes_contents(latest.segments@[i].prefix) == bytes_contents(
                            self.state.generation.manifest.core.segments@[i].prefix,
                        )
                        &&& latest.segments@[i].tree.last_compacted_l0_sst_view_id
                            == self.state.generation.manifest.core.segments@[i].tree.last_compacted_l0_sst_view_id
                        &&& latest.segments@[i].tree.last_compacted_l0_sst_id
                            == self.state.generation.manifest.core.segments@[i].tree.last_compacted_l0_sst_id
                        &&& tables_view(latest.segments@[i].tree.l0@) == tables_view(
                            self.state.generation.manifest.core.segments@[i].tree.l0@,
                        )
                        &&& runs_view(latest.segments@[i].tree.compacted@) == runs_view(
                            self.state.generation.manifest.core.segments@[i].tree.compacted@,
                        )
                    }
            },
    {
        latest.differs_from(self.state.manifest_core())
    }

    /// Serves another state from now on.
    pub fn install_state(&mut self, new_state: ReaderState) -> (report: StateReport)
        requires
            old(self).wf(),
            new_state.imm_memtable.wf(),
            old(self).mode == DbReaderMode::ManagedCheckpoint
                ==> new_state.generation.checkpoint_id is Some,
        ensures
            final(self).wf(),
            *final(self) == (DbReaderInner {
                state: new_state,
                durable_seq: greater(old(self).durable_seq, new_state.last_remote_persisted_seq),
                ..*old(self)
            }),
            final(self).durable_seq >= old(self).durable_seq,
            report.durable_seq == new_state.last_remote_persisted_seq,
            report.manifest == Some(
                VersionedManifest {
                    id: new_state.generation.manifest_id,
                    manifest: new_state.generation.manifest,
                },
            ),
            segments_unique(report.segments@),
            segment_set(report.segments@) == tables_segments(new_state.imm_memtable@),
    {
        let report = StateReport {
            durable_seq: new_state.last_remote_persisted_seq,
            manifest: Some(new_state.versioned_manifest()),
            segments: new_state.imm_memtable.touched_segments(),
        };
        self.durable_seq = max_u64(self.durable_seq, new_state.last_remote_persisted_seq);
        self.state = new_state;
        report
    }

    /// Replays what was added to the WAL since the current state, unless the
    /// reader reads no WAL.
    pub fn maybe_replay_new_wals(&self) -> (begun: Option<(WalReplayInto, ReplayIntoAction)>)
        requires
            self.wf(),
        ensures
            match begun {
                None => self.options.skip_wal_replay,
                Some((replay, action)) => {
                    &&& !self.options.skip_wal_replay
                    &&& replay.wf()
                    &&& replay.into_tables == self.state.imm_memtable
                    &&& replay.replay_after_wal_id == self.state.last_wal_id
                    &&& replay.last_committed_seq == self.state.last_remote_persisted_seq
                    &&& replay.max_memtable_bytes == self.options.max_memtable_bytes
                    &&& if self.state.last_wal_id == u64::MAX {
                        &&& action == ReplayIntoAction::Done(Err(SlateDBError::InvalidDBState))
                        &&& replay.phase is Over
                    } else {
                        &&& action == (ReplayIntoAction::LastWalId {
                            after: self.state.last_wal_id,
                        })
                        &&& replay.phase is AskingEnd
                    }
                },
            },
    {
        if self.options.skip_wal_replay {
            return None;
        }
        let begun = WalReplayInto::replay_wal_into(
            self.state.manifest_core(),
            self.state.imm_memtable.clone(),
            Some((self.state.last_wal_id, self.state.last_remote_persisted_seq)),
            WalReplayEnd::Latest,
            self.options.max_memtable_bytes,
        );
        Some(begun)
    }

    /// Serves what a replay has reached so far, on the generation that the replay
    /// started from.
    pub fn publish(&mut self, generation: &GenerationRef, replay: &WalReplayInto) -> (report: StateReport)
        requires
            old(self).wf(),
            replay.wf(),
            old(self).mode == DbReaderMode::ManagedCheckpoint ==> generation.checkpoint_id is Some,
        ensures
            final(self).wf(),
            *final(self) == (DbReaderInner {
                state: ReaderState {
                    generation: *generation,
                    imm_memtable: replay.into_tables,
                    last_wal_id: replay.replay_after_wal_id,
                    last_remote_persisted_seq: replay.last_committed_seq,
                },
                durable_seq: greater(old(self).durable_seq, replay.last_committed_seq),
                ..*old(self)
            }),
            final(self).durable_seq >= old(self).durable_seq,
            report.durable_seq == replay.last_committed_seq,
            report.manifest is None,
            segments_unique(report.segments@),
            segment_set(report.segments@) == tables_segments(replay.into_tables@),
    {
        self.durable_seq = max_u64(self.durable_seq, replay.last_committed_seq);
        self.state = ReaderState {
            generation: generation.clone(),
            imm_memtable: replay.into_tables.clone(),
            last_wal_id: replay.replay_after_wal_id,
            last_remote_persisted_seq: replay.last_committed_seq,
        };
        StateReport {
            durable_seq: replay.last_committed_seq,
            manifest: None,
            segments: replay.into_tables.touched_segments(),
        }
    }

    /// Rebuilds the state on another manifest: replayed rows that its tables lack
    /// are kept, and WAL replay goes on from the furthest point reached.
    pub fn rebuild_state(
        &self,
        checkpoint: Option<Checkpoint>,
        manifest_id: u64,
        manifest: Arc<Manifest>,
        prefix_lens: Option<&Vec<Vec<Option<usize>>>>,
    ) -> (result: Result<(ReaderStateBuild, ReplayIntoAction), SlateDBError>)
        requires
            self.wf(),
            lens_fit(self.state.imm_memtable@, prefix_lens),
        ensures
            match result {
                Ok((build, action)) => {
                    let cursor = (
                        greater(self.state.last_wal_id, manifest.core.replay_after_wal_id),
                        greater(
                            self.state.last_remote_persisted_seq,
                            manifest.core.last_l0_seq,
                        ),
                    );
                    let end = WalReplayEnd::spec_for_reader(self.mode, self.options);
                    &&& build.wf()
                    &&& build.checkpoint == checkpoint
                    &&& build.manifest_id == manifest_id
                    &&& build.manifest == manifest
                    &&& build.replay.max_memtable_bytes == self.options.max_memtable_bytes
                    &&& retained_tables(
                        self.state.imm_memtable@,
                        manifest.core.last_l0_seq,
                        prefix_lens,
                        build.replay.into_tables@,
                    )
                    &&& build.replay_begun(action, end, Some(cursor))
                    &&& forall|i: int|
                        0 <= i < self.state.imm_memtable@.len() ==> !cannot_retain(
                            #[trigger] self.state.imm_memtable@[i],
                            manifest.core.last_l0_seq,
                            lens_of(prefix_lens, i),
                        )
                },
                Err(error) => {
                    &&& error == SlateDBError::MissingSegmentPrefix
                    &&& exists|i: int|
                        0 <= i < self.state.imm_memtable@.len() && cannot_retain(
                            #[trigger] self.state.imm_memtable@[i],
                            manifest.core.last_l0_seq,
                            lens_of(prefix_lens, i),
                        )
                },
            },
    {
        let plan = match self.state.rebuild_state(&manifest, prefix_lens) {
            Ok(plan) => plan,
            Err(error) => {
                return Err(error);
            },
        };
        let replay_wals = WalReplayEnd::for_reader(self.mode, &self.options);
        let begun = ReaderStateBuild::build_reader_state(
            checkpoint,
            manifest_id,
            manifest,
            plan.imm_memtable,
            replay_wals,
            Some(plan.replay_cursor),
            self.options.max_memtable_bytes,
        );
        Ok(begun)
    }

    /// What the newest manifest asks for: a version that is not newer than the
    /// current one only lets new WAL be replayed.
    pub fn apply_latest_manifest(&self, manifest_id: u64) -> (step: LatestManifestStep)
        ensures
            step == if manifest_id <= self.state.generation.manifest_id {
                LatestManifestStep::ReplayNewWals
            } else {
                LatestManifestStep::Rebuild
            },
    {
        if manifest_id <= self.state.generation.manifest_id {
            LatestManifestStep::ReplayNewWals
        } else {
            LatestManifestStep::Rebuild
        }
    }

    /// Returns an error if the reader has been closed: the error that it was
    /// closed with, or `Closed` where it was closed in good order.
    pub fn check_closed(&self) -> (result: Result<(), SlateDBError>)
        ensures
            result == match self.closed {
                None => Ok::<(), SlateDBError>(()),
                Some(Ok(())) => Err::<(), SlateDBError>(SlateDBError::Closed),
                Some(Err(error)) => Err::<(), SlateDBError>(error),
            },
    {
        match &self.closed {
            None => Ok(()),
            Some(Ok(())) => Err(SlateDBError::Closed),
            Some(Err(error)) => Err(error.clone()),
        }
    }

    /// Closes the reader. How it was closed first stands.
    pub fn close(&mut self, result: Result<(), SlateDBError>)
        requires
            old(self).wf(),
        ensures
            final(self).wf(),
            *final(self) == (DbReaderInner {
                closed: match old(self).closed {
                    Some(first) => Some(first),
                    None => Some(result),
                },
                ..*old(self)
            }),
    {
        if self.closed.is_none() {
            self.closed = Some(result);
        }
    }

    /// Whether a read on a generation may begin, and what becomes of the
    /// generation: a closed reader and an invalid generation refuse it, and
    /// otherwise one more operation is in flight.
    pub open spec fn admits(
        &self,
        before: ReaderGeneration,
        after: ReaderGeneration,
        refused: Option<SlateDBError>,
    ) -> bool {
        match self.closed {
            Some(closed) => {
                &&& after == before
                &&& refused == Some(
                    match closed {
                        Ok(()) => SlateDBError::Closed,
                        Err(error) => error,
                    },
                )
            },
            None => if before.invalid {
                &&& after == before
                &&& refused == Some(SlateDBError::CheckpointLeaseLost(before.checkpoint->0.id))
            } else {
                &&& refused is None
                &&& after == (ReaderGeneration {
                    operations: (before.operations + 1) as usize,
                    ..before
                })
            },
        }
    }

    /// Begins a read on a generation, unless the reader was closed or the
    /// generation is invalid. The read ends with
    /// [`ReaderGeneration::exit_operation`].
    pub fn begin_read(&self, generation: &mut ReaderGeneration) -> (result: Result<
        (),
        SlateDBError,
    >)
        requires
            old(generation).wf(),
            !old(generation).invalid ==> old(generation).can_count(),
        ensures
            final(generation).wf(),
            self.admits(
                *old(generation),
                *final(generation),
                match result {
                    Ok(()) => None,
                    Err(error) => Some(error),
                },
            ),
    {
        if let Err(error) = self.check_closed() {
            return Err(error);
        }
        generation.enter_operation()
    }

    /// Begins to look a key up. Where a newest version is given, later ones are
    /// not seen. The read ends with [`ReaderGeneration::exit_operation`].
    pub fn get_key_value_with_options<'k, O>(
        &self,
        generation: &mut ReaderGeneration,
        key: &'k [u8],
        options: O,
        max_seq: Option<u64>,
    ) -> (result: Result<GetRequest<'k, O>, SlateDBError>)
        requires
            old(generation).wf(),
            !old(generation).invalid ==> old(generation).can_count(),
        ensures
            final(generation).wf(),
            match result {
                Ok(request) => {
                    &&& self.admits(*old(generation), *final(generation), None)
                    &&& request == (GetRequest { key, options, max_seq })
                },
                Err(error) => self.admits(*old(generation), *final(generation), Some(error)),
            },
    {
        match self.begin_read(generation) {
            Ok(()) => Ok(GetRequest { key, options, max_seq }),
            Err(error) => Err(error),
        }
    }

    /// Begins to look several keys up, in order, duplicates included. Where a
    /// newest version is given, later ones are not seen. The read ends with
    /// [`ReaderGeneration::exit_operation`].
    pub fn multi_get_key_value_with_options<O>(
        &self,
        generation: &mut ReaderGeneration,
        keys: &Vec<Vec<u8>>,
        options: O,
        max_seq: Option<u64>,
    ) -> (result: Result<MultiGetRequest<O>, SlateDBError>)
        requires
            old(generation).wf(),
            !old(generation).invalid ==> old(generation).can_count(),
        ensures
            final(generation).wf(),
            match result {
                Ok(request) => {
                    &&& self.admits(*old(generation), *final(generation), None)
                    &&& request.options == options
                    &&& request.max_seq == max_seq
                    &&& request.keys@.len() == keys@.len()
                    &&& forall|i: int|
                        0 <= i < keys@.len() ==> bytes_contents(#[trigger] request.keys@[i])
                            == keys@[i]@
                },
                Err(error) => self.admits(*old(generation), *final(generation), Some(error)),
            },
    {
        match self.begin_read(generation) {
            Ok(()) => Ok(MultiGetRequest { keys: copy_keys(keys), options, max_seq }),
            Err(error) => Err(error),
        }
    }

    /// Begins to scan a range of keys. Where a newest version is given, later ones
    /// are not seen. Beginning ends with [`ReaderGeneration::exit_operation`].
    pub fn scan_with_options<O>(
        &self,
        generation: &mut ReaderGeneration,
        range: BytesRange,
        options: O,
        prefix: Option<Bytes>,
        max_seq: Option<u64>,
    ) -> (result: Result<ScanRequest<O>, SlateDBError>)
        requires
            old(generation).wf(),
            !old(generation).invalid ==> old(generation).can_count(),
        ensures
            final(generation).wf(),
            match result {
                Ok(request) => {
                    &&& self.admits(*old(generation), *final(generation), None)
                    &&& request == (ScanRequest { range, options, prefix, max_seq })
                },
                Err(error) => self.admits(*old(generation), *final(generation), Some(error)),
            },
    {
        match self.begin_read(generation) {
            Ok(()) => Ok(ScanRequest { range, options, prefix, max_seq }),
            Err(error) => Err(error),
        }
    }
}

/// Copies keys.
fn copy_keys(keys: &Vec<Vec<u8>>) -> (copies: Vec<Bytes>)
    ensures
        copies@.len() == keys@.len(),
        forall|i: int| 0 <= i < keys@.len() ==> bytes_contents(#[trigger] copies@[i]) == keys@[i]@,
{
    let mut copies: Vec<Bytes> = Vec::new();
    let mut i: usize = 0;
    while i < keys.len()
        invariant
            i <= keys@.len(),
            copies@.len() == i,
            forall|j: int| 0 <= j < i ==> bytes_contents(#[trigger] copies@[j]) == keys@[j]@,
        decreases keys@.len() - i,
    {
        copies.push(Bytes::copy_from_slice(keys[i].as_slice()));
        i = i + 1;
    }
    copies
}

/// A lookup of a key.
#[derive(Debug)]
pub struct GetRequest<'k, O> {
    pub key: &'k [u8],
    pub options: O,
    /// The newest version to read, where not all are.
    pub max_seq: Option<u64>,
}

/// A lookup of several keys.
#[derive(Debug)]
pub struct MultiGetRequest<O> {
    pub keys: Vec<Bytes>,
    pub options: O,
    /// The newest version to read, where not all are.
    pub max_seq: Option<u64>,
}

/// What a scan reads.
#[derive(Debug)]
pub struct ScanRequest<O> {
    pub range: BytesRange,
    pub options: O,
    /// The prefix that all keys share, where it is known.
    pub prefix: Option<Bytes>,
    /// The newest version to read, where not all are.
    pub max_seq: Option<u64>,
}

/// The value of a key, where the key was found.
pub open spec fn found_value(found: Option<KeyValue>) -> Option<Bytes> {
    match found {
        Some(kv) => Some(kv.value),
        None => None,
    }
}

/// The value of a key, where the key was found.
fn value_of(found: Option<KeyValue>) -> (value: Option<Bytes>)
    ensures
        value == found_value(found),
        value == match found {
            Some(kv) => Some(kv.value),
            None => None,
        },
{
    match found {
        Some(kv) => Some(kv.value),
        None => None,
    }
}

/// The values of several keys, in the order of the keys.
fn values_of(found: Vec<Option<KeyValue>>) -> (values: Vec<Option<Bytes>>)
    ensures
        values@ == found@.map_values(|kv: Option<KeyValue>| found_value(kv)),
        values@.len() == found@.len(),
        forall|i: int|
            0 <= i < found@.len() ==> #[trigger] values@[i] == match found@[i] {
                Some(kv) => Some(kv.value),
                None => None,
            },
{
    let ghost all = found@;
    let mut front: Vec<Option<KeyValue>> = found;
    let mut rest: Vec<Option<KeyValue>> = Vec::new();
    // Turn the order round so that the entries can be taken from the back.
    while front.len() > 0
        invariant
            front@.len() + rest@.len() == all.len(),
            forall|i: int| 0 <= i < front@.len() ==> #[trigger] front@[i] == all[i],
            forall|i: int| 0 <= i < rest@.len() ==> #[trigger] rest@[i] == all[all.len() - 1 - i],
        decreases front@.len(),
    {
        if let Some(kv) = front.pop() {
            rest.push(kv);
        }
    }
    let mut values: Vec<Option<Bytes>> = Vec::new();
    while rest.len() > 0
        invariant
            values@.len() + rest@.len() == all.len(),
            forall|i: int| 0 <= i < rest@.len() ==> #[trigger] rest@[i] == all[all.len() - 1 - i],
            forall|i: int| 0 <= i < values@.len() ==> #[trigger] values@[i] == found_value(all[i]),
        decreases rest@.len(),
    {
        if let Some(kv) = rest.pop() {
            values.push(value_of(kv));
        }
    }
    assert(values@ =~= all.map_values(|kv: Option<KeyValue>| found_value(kv)));
    values
}

/// Looking several keys up gives, at each place, the very value that was found
/// for the key there, and none where the key was not found.
pub proof fn law_each_value_is_the_one_found(found: Seq<Option<KeyValue>>, i: int)
    requires
        0 <= i < found.len(),
    ensures
        ({
            let values = found.map_values(|kv: Option<KeyValue>| found_value(kv));
            &&& values.len() == found.len()
            &&& found[i] matches Some(kv) ==> values[i] == Some(kv.value)
            &&& found[i] is None ==> values[i] is None
        }),
{
}

/// Read-only interface for accessing a database from either the latest
/// persistent state or from an arbitrary checkpoint.
///
/// A reader that follows the latest state is read-only with respect to user
/// data, but it appends manifest versions to create, refresh, and release GC
/// checkpoints. Opening from an explicit checkpoint does not start that
/// manifest-writing poller.
pub struct DbReader {
    pub inner: DbReaderInner,
}

impl DbReader {
    /// How full the caches are, where there are any.
    pub fn cache_usage_snapshot(
        &self,
        db_cache: Option<DbCacheUsageSnapshot>,
        object_store_cache: Option<CacheUsageSnapshot>,
    ) -> (usage: SlateDbCacheUsageSnapshot)
        ensures
            usage.db_cache == match db_cache {
                Some(usage) => usage,
                None => DbCacheUsageSnapshot {
                    memory: CacheUsageSnapshot::Disabled,
                    disk: CacheUsageSnapshot::Disabled,
                },
            },
            usage.object_store == match object_store_cache {
                Some(usage) => usage,
                None => CacheUsageSnapshot::Disabled,
            },
    {
        SlateDbCacheUsageSnapshot {
            db_cache: match db_cache {
                Some(usage) => usage,
                None => DbCacheUsageSnapshot {
                    memory: CacheUsageSnapshot::Disabled,
                    disk: CacheUsageSnapshot::Disabled,
                },
            },
            object_store: match object_store_cache {
                Some(usage) => usage,
                None => CacheUsageSnapshot::Disabled,
            },
        }
    }

    /// The value of a key that was looked up.
    pub fn get_with_options(&self, found: Result<Option<KeyValue>, SlateDBError>) -> (value: Result<
        Option<Bytes>,
        SlateDBError,
    >)
        ensures
            value == match found {
                Ok(Some(kv)) => Ok(Some(kv.value)),
                Ok(None) => Ok(None),
                Err(error) => Err(error),
            },
    {
        match found {
            Ok(kv) => Ok(value_of(kv)),
            Err(error) => Err(error),
        }
    }

    /// Begins to look a key up in the latest state.
    pub fn get_key_value_with_options<'k, O>(
        &self,
        generation: &mut ReaderGeneration,
        key: &'k [u8],
        options: O,
    ) -> (result: Result<GetRequest<'k, O>, SlateDBError>)
        requires
            old(generation).wf(),
            !old(generation).invalid ==> old(generation).can_count(),
        ensures
            final(generation).wf(),
            match result {
                Ok(request) => {
                    &&& self.inner.admits(*old(generation), *final(generation), None)
                    &&& request == (GetRequest { key, options, max_seq: None })
                },
                Err(error) => self.inner.admits(*old(generation), *final(generation), Some(error)),
            },
    {
        self.inner.get_key_value_with_options(generation, key, options, None)
    }

    /// The values of several keys that were looked up. The order of the keys and
    /// duplicates are preserved.
    pub fn multi_get_with_options(&self, found: Result<Vec<Option<KeyValue>>, SlateDBError>) -> (values:
        Result<Vec<Option<Bytes>>, SlateDBError>)
        ensures
            match found {
                Ok(found) => {
                    &&& values matches Ok(values)
                    &&& values@ == found@.map_values(|kv: Option<KeyValue>| found_value(kv))
                    &&& values@.len() == found@.len()
                    &&& forall|i: int|
                        0 <= i < found@.len() ==> #[trigger] values@[i] == match found@[i] {
                            Some(kv) => Some(kv.value),
                            None => None,
                        }
                },
                Err(error) => values == Err::<Vec<Option<Bytes>>, SlateDBError>(error),
            },
    {
        match found {
            Ok(found) => Ok(values_of(found)),
            Err(error) => Err(error),
        }
    }

    /// Begins to scan a range of keys in the latest state.
    pub fn scan_with_options<O>(
        &self,
        generation: &mut ReaderGeneration,
        range: &BytesRange,
        options: O,
    ) -> (result: Result<ScanRequest<O>, SlateDBError>)
        requires
            old(generation).wf(),
            !old(generation).invalid ==> old(generation).can_count(),
        ensures
            final(generation).wf(),
            match result {
                Ok(request) => {
                    &&& self.inner.admits(*old(generation), *final(generation), None)
                    &&& request.range@ == range@
                    &&& request.options == options
                    &&& request.prefix is None
                    &&& request.max_seq is None
                },
                Err(error) => self.inner.admits(*old(generation), *final(generation), Some(error)),
            },
    {
        self.inner.scan_with_options(generation, range.clone(), options, None, None)
    }

    /// Begins to scan the keys that share a prefix in the latest state, restricted
    /// to a range of key suffixes: a bound `s` selects the full key `prefix ++ s`.
    pub fn scan_prefix_with_options<O>(
        &self,
        generation: &mut ReaderGeneration,
        prefix: &[u8],
        subrange: &BytesRange,
        options: O,
    ) -> (result: Result<ScanRequest<O>, SlateDBError>)
        requires
            old(generation).wf(),
            !old(generation).invalid ==> old(generation).can_count(),
        ensures
            final(generation).wf(),
            match result {
                Ok(request) => {
                    &&& self.inner.admits(*old(generation), *final(generation), None)
                    &&& request.range@ == (RangeView {
                        start: prefixed_start(prefix@, subrange@.start),
                        end: prefixed_end(prefix@, subrange@.end),
                    })
                    &&& forall|key: Seq<u8>|
                        #[trigger] request.range@.contains(key) <==> starts_with(key, prefix@)
                            && subrange@.contains(key.skip(prefix@.len() as int))
                    &&& request.options == options
                    &&& request.prefix matches Some(copy) && bytes_contents(copy) == prefix@
                    &&& request.max_seq is None
                },
                Err(error) => self.inner.admits(*old(generation), *final(generation), Some(error)),
            },
    {
        let range = BytesRange::from_prefix_and_subrange(prefix, subrange);
        let prefix = Bytes::copy_from_slice(prefix);
        self.inner.scan_with_options(generation, range, options, Some(prefix), None)
    }

    /// Closes the reader in good order.
    pub fn close(&mut self)
        requires
            old(self).inner.wf(),
        ensures
            final(self).inner.wf(),
            final(self).inner == (DbReaderInner {
                closed: match old(self).inner.closed {
                    Some(first) => Some(first),
                    None => Some(Ok(())),
                },
                ..old(self).inner
            }),
    {
        self.inner.close(Ok(()));
    }

    /// Captures a state that the caller read from the reader, on the generation of
    /// that state. A generation that was lost is only tried again where the state
    /// was replaced meanwhile; otherwise every read of the snapshot would fail.
    pub fn snapshot(
        &self,
        state: &ReaderState,
        generation: &mut ReaderGeneration,
        replaced: bool,
    ) -> (step: SnapshotStep)
        requires
            old(generation).wf(),
            !old(generation).invalid ==> old(generation).can_count(),
            old(generation).identity() == state.generation,
        ensures
            final(generation).wf(),
            final(generation).identity() == state.generation,
            if self.inner.mode == DbReaderMode::FollowLatest {
                &&& step == SnapshotStep::Failed(
                    SlateDBError::DbReaderSnapshotUnsupportedInFollowLatest,
                )
                &&& *final(generation) == *old(generation)
            } else {
                match step {
                    SnapshotStep::Captured(captured) => {
                        &&& self.inner.admits(*old(generation), *final(generation), None)
                        &&& captured == *state
                    },
                    SnapshotStep::Retry => {
                        &&& replaced && self.inner.closed is None
                        &&& exists|error: SlateDBError| #[trigger]
                            self.inner.admits(*old(generation), *final(generation), Some(error))
                    },
                    SnapshotStep::Failed(error) => {
                        &&& !replaced || self.inner.closed is Some
                        &&& self.inner.admits(*old(generation), *final(generation), Some(error))
                    },
                }
            },
    {
        if matches!(self.inner.mode, DbReaderMode::FollowLatest) {
            return SnapshotStep::Failed(SlateDBError::DbReaderSnapshotUnsupportedInFollowLatest);
        }
        if let Err(error) = self.inner.check_closed() {
            return SnapshotStep::Failed(error);
        }
        match generation.enter_operation() {
            Ok(()) => SnapshotStep::Captured(state.clone()),
            Err(error) => if replaced {
                assert(self.inner.admits(*old(generation), *generation, Some(error)));
                SnapshotStep::Retry
            } else {
                SnapshotStep::Failed(error)
            },
        }
    }

    /// The manifest that reads are served from, with its version.
    pub fn manifest(&self) -> (manifest: VersionedManifest)
        ensures
            manifest == (VersionedManifest {
                id: self.inner.state.generation.manifest_id,
                manifest: self.inner.state.generation.manifest,
            }),
    {
        self.inner.state.versioned_manifest()
    }
}

} // verus!
