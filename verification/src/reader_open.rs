//! Opening a reader.
use crate::config::{can_double, validate_options, DbReaderMode, DbReaderOptions, WalReplayEnd};
use crate::db_reader::{DbReaderInner, StateReport};
use crate::error::SlateDBError;
use crate::manifest::{Checkpoint, Manifest, VersionedManifest};
use crate::manifest_poller::ManifestPoller;
use crate::mem_table::{segment_set, segments_unique};
use crate::reader_state::{ReaderState, ReaderStateBuild, ReplayIntoAction};
use crate::replay_memtables::{tables_segments, ReplayMemtables};
use crate::shared::share;
use crate::time::TimeSpan;
use std::sync::Arc;
use vstd::prelude::*;

verus! {

/// What opening a reader is waiting for.
#[derive(Clone, Copy, PartialEq, Eq, Structural, Debug)]
pub enum OpenPhase {
    /// The manifest to be loaded.
    Loading,
    /// The segment extractor to be checked against the manifest.
    CheckingExtractor,
    /// A checkpoint to be created.
    Creating,
    /// The manifest of the checkpoint to be read.
    Reading,
    /// Nothing: the state is being built, or opening failed.
    Over,
}

/// What the caller does next.
pub enum OpenAction {
    /// Load the latest manifest.
    LoadManifest,
    /// Check the configured segment extractor against this manifest.
    CheckExtractor(Arc<Manifest>),
    /// Create a checkpoint of the loaded manifest with this lifetime.
    CreateCheckpoint { lifetime: TimeSpan },
    /// Read this version of the manifest.
    ReadManifest(u64),
    /// Build the initial state and finish with [`ReaderOpen::finish`].
    Build(ReaderStateBuild, ReplayIntoAction),
    /// Opening fails.
    Failed(SlateDBError),
}

/// A reader that is being opened.
pub struct ReaderOpen {
    pub mode: DbReaderMode,
    pub options: DbReaderOptions,
    pub phase: OpenPhase,
    /// The loaded manifest, once there is one.
    pub manifest: Option<VersionedManifest>,
    /// The checkpoint that the reader reads from, once there is one.
    pub checkpoint: Option<Checkpoint>,
}

/// The options allow a reader in the mode to keep its checkpoints alive.
pub open spec fn options_valid(mode: DbReaderMode, options: DbReaderOptions) -> bool {
    mode == DbReaderMode::ManagedCheckpoint ==> {
        &&& options.checkpoint_lifetime.total_nanos() >= 1_000_000_000
        &&& can_double(options.manifest_poll_interval)
        &&& options.checkpoint_lifetime.total_nanos() >= 2
            * options.manifest_poll_interval.total_nanos()
    }
}

impl ReaderOpen {
    /// The options are valid, and what the phases rely on is there.
    pub open spec fn wf(&self) -> bool {
        &&& self.options.wf()
        &&& options_valid(self.mode, self.options)
        &&& self.phase is CheckingExtractor ==> self.manifest is Some
        &&& self.phase is Reading ==> self.checkpoint is Some
    }

    /// The initial state of the reader is being built on a manifest.
    pub open spec fn builds(
        &self,
        action: OpenAction,
        checkpoint: Option<Checkpoint>,
        manifest_id: u64,
        manifest: Arc<Manifest>,
    ) -> bool {
        &&& action matches OpenAction::Build(build, replay)
        &&& build.wf()
        &&& build.checkpoint == checkpoint
        &&& build.manifest_id == manifest_id
        &&& build.manifest == manifest
        &&& build.replay.into_tables@.len() == 0
        &&& build.replay.max_memtable_bytes == self.options.max_memtable_bytes
        &&& build.replay_begun(
            replay,
            WalReplayEnd::spec_for_reader(self.mode, self.options),
            None,
        )
    }

    /// Begins to open a reader, unless its options are invalid.
    pub fn open_internal(mode: DbReaderMode, options: DbReaderOptions) -> (result: Result<
        (ReaderOpen, OpenAction),
        SlateDBError,
    >)
        requires
            options.wf(),
        ensures
            match result {
                Ok((open, action)) => {
                    &&& options_valid(mode, options)
                    &&& open.wf()
                    &&& open == (ReaderOpen {
                        mode,
                        options,
                        phase: OpenPhase::Loading,
                        manifest: None,
                        checkpoint: None,
                    })
                    &&& action == OpenAction::LoadManifest
                },
                Err(SlateDBError::InvalidCheckpointLifetime(span)) => {
                    &&& mode == DbReaderMode::ManagedCheckpoint
                    &&& options.checkpoint_lifetime.total_nanos() < 1_000_000_000
                    &&& span == options.checkpoint_lifetime
                },
                Err(SlateDBError::InvalidManifestPollInterval(span)) => {
                    &&& mode == DbReaderMode::ManagedCheckpoint
                    &&& options.checkpoint_lifetime.total_nanos() >= 1_000_000_000
                    &&& !can_double(options.manifest_poll_interval)
                    &&& span == options.manifest_poll_interval
                },
                Err(SlateDBError::CheckpointLifetimeTooShort { lifetime, interval }) => {
                    &&& mode == DbReaderMode::ManagedCheckpoint
                    &&& options.checkpoint_lifetime.total_nanos() >= 1_000_000_000
                    &&& can_double(options.manifest_poll_interval)
                    &&& options.checkpoint_lifetime.total_nanos() < 2
                        * options.manifest_poll_interval.total_nanos()
                    &&& lifetime == options.checkpoint_lifetime
                    &&& interval.wf()
                    &&& interval.total_nanos() == 2 * options.manifest_poll_interval.total_nanos()
                },
                Err(_) => false,
            },
    {
        if let Err(error) = validate_options(mode, &options) {
            return Err(error);
        }
        let open = ReaderOpen {
            mode,
            options,
            phase: OpenPhase::Loading,
            manifest: None,
            checkpoint: None,
        };
        Ok((open, OpenAction::LoadManifest))
    }

    /// Opening fails.
    fn fail(&mut self, error: SlateDBError) -> (action: OpenAction)
        requires
            old(self).wf(),
        ensures
            final(self).wf(),
            *final(self) == (ReaderOpen { phase: OpenPhase::Over, ..*old(self) }),
            action == OpenAction::Failed(error),
    {
        self.phase = OpenPhase::Over;
        OpenAction::Failed(error)
    }

    /// Takes up the loaded manifest. Where there is none, there is no database.
    pub fn on_manifest_loaded(&mut self, loaded: Result<VersionedManifest, SlateDBError>) -> (action:
        OpenAction)
        requires
            old(self).wf(),
            old(self).phase is Loading,
        ensures
            final(self).wf(),
            match loaded {
                Ok(manifest) => if manifest.manifest.core.initialized {
                    &&& action == OpenAction::CheckExtractor(manifest.manifest)
                    &&& *final(self) == (ReaderOpen {
                        phase: OpenPhase::CheckingExtractor,
                        manifest: Some(manifest),
                        ..*old(self)
                    })
                } else {
                    &&& action == OpenAction::Failed(SlateDBError::InvalidDBState)
                    &&& final(self).phase is Over
                },
                Err(SlateDBError::LatestTransactionalObjectVersionMissing) => {
                    &&& action == OpenAction::Failed(SlateDBError::DatabaseMissing)
                    &&& final(self).phase is Over
                },
                Err(error) => {
                    &&& action == OpenAction::Failed(error)
                    &&& final(self).phase is Over
                },
            },
    {
        match loaded {
            Ok(manifest) => {
                if !manifest.manifest.core.initialized {
                    return self.fail(SlateDBError::InvalidDBState);
                }
                let shared = share(&manifest.manifest);
                self.manifest = Some(manifest);
                self.phase = OpenPhase::CheckingExtractor;
                OpenAction::CheckExtractor(shared)
            },
            Err(error) => {
                if matches!(error, SlateDBError::LatestTransactionalObjectVersionMissing) {
                    self.fail(SlateDBError::DatabaseMissing)
                } else {
                    self.fail(error)
                }
            },
        }
    }

    /// Builds the initial state on a manifest.
    fn build(&mut self, checkpoint: Option<Checkpoint>, manifest_id: u64, manifest: Arc<Manifest>) -> (action:
        OpenAction)
        requires
            old(self).wf(),
        ensures
            final(self).wf(),
            *final(self) == (ReaderOpen { phase: OpenPhase::Over, ..*old(self) }),
            old(self).builds(action, checkpoint, manifest_id, manifest),
    {
        self.phase = OpenPhase::Over;
        let (build, replay) = ReaderStateBuild::build_reader_state(
            checkpoint,
            manifest_id,
            manifest,
            ReplayMemtables::default(),
            WalReplayEnd::for_reader(self.mode, &self.options),
            None,
            self.options.max_memtable_bytes,
        );
        OpenAction::Build(build, replay)
    }

    /// Takes up the check of the segment extractor. A pinned checkpoint has to be
    /// in the manifest, a managed one is created, and a reader that follows the
    /// latest manifest needs none.
    pub fn get_or_create_checkpoint(&mut self, checked: Result<(), SlateDBError>) -> (action:
        OpenAction)
        requires
            old(self).wf(),
            old(self).phase is CheckingExtractor,
        ensures
            final(self).wf(),
            final(self).mode == old(self).mode,
            final(self).options == old(self).options,
            ({
                let loaded = old(self).manifest->0;
                let checkpoints = loaded.manifest.core.checkpoints@;
                match (checked, old(self).mode) {
                    (Err(error), _) => {
                        &&& action == OpenAction::Failed(error)
                        &&& final(self).phase is Over
                    },
                    (Ok(()), DbReaderMode::ManagedCheckpoint) => {
                        &&& action == (OpenAction::CreateCheckpoint {
                            lifetime: old(self).options.checkpoint_lifetime,
                        })
                        &&& final(self).phase is Creating
                    },
                    (Ok(()), DbReaderMode::FollowLatest) => {
                        &&& old(self).builds(action, None, loaded.id, loaded.manifest)
                        &&& final(self).phase is Over
                    },
                    (Ok(()), DbReaderMode::Checkpoint(id)) => {
                        if exists|i: int|
                            0 <= i < checkpoints.len() && (#[trigger] checkpoints[i]).id == id {
                            &&& final(self).checkpoint matches Some(checkpoint)
                            &&& checkpoint.id == id
                            &&& exists|i: int|
                                {
                                    &&& 0 <= i < checkpoints.len()
                                    &&& #[trigger] checkpoints[i] == checkpoint
                                    &&& forall|j: int| 0 <= j < i ==> (#[trigger] checkpoints[j]).id
                                        != id
                                }
                            &&& action == OpenAction::ReadManifest(checkpoint.manifest_id)
                            &&& final(self).phase is Reading
                        } else {
                            &&& action == OpenAction::Failed(SlateDBError::CheckpointMissing(id))
                            &&& final(self).phase is Over
                        }
                    },
                }
            }),
    {
        if let Err(error) = checked {
            return self.fail(error);
        }
        let loaded = match &self.manifest {
            Some(loaded) => VersionedManifest::from_manifest(loaded.id, &loaded.manifest),
            None => {
                return self.fail(SlateDBError::InvalidDBState);
            },
        };
        match self.mode {
            DbReaderMode::ManagedCheckpoint => {
                self.phase = OpenPhase::Creating;
                OpenAction::CreateCheckpoint { lifetime: self.options.checkpoint_lifetime }
            },
            DbReaderMode::FollowLatest => self.build(None, loaded.id, loaded.manifest),
            DbReaderMode::Checkpoint(id) => {
                let found: Option<Checkpoint> = match loaded.manifest.core.find_checkpoint(&id) {
                    Some(checkpoint) => Some(checkpoint.clone()),
                    None => None,
                };
                match found {
                    Some(checkpoint) => {
                        let manifest_id: u64 = checkpoint.manifest_id;
                        self.checkpoint = Some(checkpoint);
                        self.phase = OpenPhase::Reading;
                        OpenAction::ReadManifest(manifest_id)
                    },
                    None => self.fail(SlateDBError::CheckpointMissing(id)),
                }
            },
        }
    }

    /// Takes up the new checkpoint, whose manifest is read next.
    pub fn on_checkpoint_created(&mut self, created: Result<Checkpoint, SlateDBError>) -> (action:
        OpenAction)
        requires
            old(self).wf(),
            old(self).phase is Creating,
        ensures
            final(self).wf(),
            final(self).mode == old(self).mode,
            final(self).options == old(self).options,
            match created {
                Ok(checkpoint) => {
                    &&& action == OpenAction::ReadManifest(checkpoint.manifest_id)
                    &&& final(self).checkpoint == Some(checkpoint)
                    &&& final(self).phase is Reading
                },
                Err(error) => {
                    &&& action == OpenAction::Failed(error)
                    &&& final(self).phase is Over
                },
            },
    {
        match created {
            Ok(checkpoint) => {
                let manifest_id: u64 = checkpoint.manifest_id;
                self.checkpoint = Some(checkpoint);
                self.phase = OpenPhase::Reading;
                OpenAction::ReadManifest(manifest_id)
            },
            Err(error) => self.fail(error),
        }
    }

    /// Takes up the manifest of the checkpoint: the initial state is built on it.
    pub fn on_manifest_read(&mut self, read: Result<Manifest, SlateDBError>) -> (action: OpenAction)
        requires
            old(self).wf(),
            old(self).phase is Reading,
        ensures
            final(self).wf(),
            final(self).phase is Over,
            final(self).mode == old(self).mode,
            final(self).options == old(self).options,
            match read {
                Ok(manifest) => old(self).builds(
                    action,
                    old(self).checkpoint,
                    old(self).checkpoint->0.manifest_id,
                    Arc::new(manifest),
                ),
                Err(error) => action == OpenAction::Failed(error),
            },
    {
        match read {
            Ok(manifest) => {
                let checkpoint: Option<Checkpoint> = match &self.checkpoint {
                    Some(checkpoint) => Some(checkpoint.clone()),
                    None => None,
                };
                let manifest_id: u64 = match &checkpoint {
                    Some(checkpoint) => checkpoint.manifest_id,
                    None => 0,
                };
                self.build(checkpoint, manifest_id, Arc::new(manifest))
            },
            Err(error) => self.fail(error),
        }
    }

    /// The opened reader, once its initial state is built, with what to report of
    /// the state. Pinned checkpoints never advance, so only the other modes get a
    /// poller.
    pub fn finish(self, initial_state: ReaderState) -> (opened: (
        DbReaderInner,
        StateReport,
        Option<ManifestPoller>,
    ))
        requires
            self.wf(),
            initial_state.imm_memtable.wf(),
            self.mode == DbReaderMode::ManagedCheckpoint
                ==> initial_state.generation.checkpoint_id is Some,
        ensures
            opened.0.wf(),
            opened.0.options == self.options,
            opened.0.mode == self.mode,
            opened.0.state == initial_state,
            opened.0.closed is None,
            opened.0.durable_seq == opened.1.durable_seq,
            opened.1.durable_seq >= initial_state.last_remote_persisted_seq,
            opened.1.durable_seq >= initial_state.generation.manifest.core.last_l0_seq,
            opened.1.durable_seq == initial_state.last_remote_persisted_seq
                || opened.1.durable_seq == initial_state.generation.manifest.core.last_l0_seq,
            opened.1.manifest == Some(
                VersionedManifest {
                    id: initial_state.generation.manifest_id,
                    manifest: initial_state.generation.manifest,
                },
            ),
            segments_unique(opened.1.segments@),
            segment_set(opened.1.segments@) == tables_segments(initial_state.imm_memtable@),
            match opened.2 {
                Some(poller) => {
                    &&& !(self.mode is Checkpoint)
                    &&& poller.wf()
                    &&& poller.phase is Idle
                    &&& poller.generations@ == if self.mode == DbReaderMode::ManagedCheckpoint {
                        seq![initial_state.generation.checkpoint_id->0]
                    } else {
                        Seq::empty()
                    }
                },
                None => self.mode is Checkpoint,
            },
    {
        let (inner, report) = DbReaderInner::new(self.options, self.mode, initial_state);
        let poller: Option<ManifestPoller> = match self.mode {
            DbReaderMode::Checkpoint(_) => None,
            DbReaderMode::ManagedCheckpoint | DbReaderMode::FollowLatest => Some(
                ManifestPoller::new(&inner),
            ),
        };
        (inner, report, poller)
    }
}

} // verus!
