//! How a reader is set up.
use crate::error::SlateDBError;
use crate::time::TimeSpan;
use uuid::Uuid;
use vstd::prelude::*;
use vstd::std_specs::convert::{FromSpec, FromSpecImpl};

verus! {

/// Determines how a reader chooses and refreshes the database state it reads.
#[derive(Clone, Copy, Debug, PartialEq, Eq)]
pub enum DbReaderMode {
    /// Create and maintain checkpoints while following the latest database state.
    ///
    /// The reader will automatically create a checkpoint and refresh it
    /// periodically to ensure that the reader can continue to read the latest
    /// database state without being affected by garbage collection.
    ManagedCheckpoint,
    /// Remain pinned to the database state referenced by the supplied checkpoint.
    Checkpoint(Uuid),
    /// Follow the latest manifest without creating a checkpoint.
    ///
    /// This mode performs no object-store writes and provides no protection from
    /// garbage collection. Reads using an older manifest may fail if referenced
    /// objects are deleted. This mode is useful for read-only access to a
    /// database that is not being actively written to, for mirrored databases
    /// where manifest changes might not be allowed, or for readers that are
    /// willing to handle missing objects gracefully.
    FollowLatest,
}

impl Default for DbReaderMode {
    fn default() -> (mode: Self)
        ensures
            mode == DbReaderMode::ManagedCheckpoint,
    {
        DbReaderMode::ManagedCheckpoint
    }
}

impl FromSpecImpl<Option<Uuid>> for DbReaderMode {
    open spec fn obeys_from_spec() -> bool {
        true
    }

    open spec fn from_spec(checkpoint: Option<Uuid>) -> Self {
        match checkpoint {
            Some(id) => DbReaderMode::Checkpoint(id),
            None => DbReaderMode::ManagedCheckpoint,
        }
    }
}

impl From<Option<Uuid>> for DbReaderMode {
    fn from(checkpoint: Option<Uuid>) -> (mode: Self) {
        match checkpoint {
            Some(id) => DbReaderMode::Checkpoint(id),
            None => DbReaderMode::ManagedCheckpoint,
        }
    }
}

/// A checkpoint that is named pins the reader to it; without one the reader
/// manages its own.
pub proof fn law_a_named_checkpoint_pins_the_reader(id: Uuid)
    ensures
        <DbReaderMode as FromSpec<Option<Uuid>>>::obeys_from_spec(),
        <DbReaderMode as FromSpec<Option<Uuid>>>::from_spec(Some(id)) == DbReaderMode::Checkpoint(
            id,
        ),
        <DbReaderMode as FromSpec<Option<Uuid>>>::from_spec(None)
            == DbReaderMode::ManagedCheckpoint,
{
}

/// The options of a reader.
#[derive(Clone, Copy, PartialEq, Eq, Structural, Debug)]
pub struct DbReaderOptions {
    /// How often the manifest is polled.
    pub manifest_poll_interval: TimeSpan,
    /// How long a checkpoint of the reader is kept without being refreshed.
    pub checkpoint_lifetime: TimeSpan,
    /// The target size of a table that is replayed from the WAL.
    pub max_memtable_bytes: u64,
    /// Whether only the state recorded in the manifest is read.
    pub skip_wal_replay: bool,
}

impl DbReaderOptions {
    /// The spans of time are valid.
    pub open spec fn wf(self) -> bool {
        self.manifest_poll_interval.wf() && self.checkpoint_lifetime.wf()
    }
}

/// Where a reader stops replaying the WAL when it builds its state.
///
/// This is only reached when replay is wanted at all; a reader configured with
/// [`DbReaderOptions::skip_wal_replay`] reads no WAL, which
/// [`WalReplayEnd::for_reader`] expresses as `None`.
#[derive(Clone, Copy, Debug, PartialEq, Eq, Structural)]
pub enum WalReplayEnd {
    /// Stop at the manifest's `next_wal_sst_id`, replaying exactly the WAL that
    /// the manifest itself records as durable.
    Manifest,
    /// Ask the configured WAL reader for the newest WAL file and replay through
    /// it, picking up writes made after the manifest was written.
    Latest,
}

impl WalReplayEnd {
    /// Where a reader in a mode stops replaying.
    pub open spec fn spec_for_reader(mode: DbReaderMode, options: DbReaderOptions) -> Option<Self> {
        if options.skip_wal_replay {
            None
        } else {
            match mode {
                DbReaderMode::Checkpoint(_) => Some(WalReplayEnd::Manifest),
                _ => Some(WalReplayEnd::Latest),
            }
        }
    }

    /// Returns `None` when the reader is configured to skip WAL replay, in which
    /// case it observes only the state recorded in the manifest (L0 and below).
    pub fn for_reader(mode: DbReaderMode, options: &DbReaderOptions) -> (end: Option<Self>)
        ensures
            end == Self::spec_for_reader(mode, *options),
            end is None <==> options.skip_wal_replay,
            end == Some(WalReplayEnd::Manifest) <==> !options.skip_wal_replay
                && mode is Checkpoint,
            end == Some(WalReplayEnd::Latest) <==> !options.skip_wal_replay
                && !(mode is Checkpoint),
    {
        if options.skip_wal_replay {
            return None;
        }
        match mode {
            // A pinned checkpoint reads the state its manifest captured, so it
            // stops at that manifest's WAL boundary instead of following WAL
            // files written after the checkpoint was taken.
            DbReaderMode::Checkpoint(_) => Some(WalReplayEnd::Manifest),
            DbReaderMode::ManagedCheckpoint | DbReaderMode::FollowLatest => Some(
                WalReplayEnd::Latest,
            ),
        }
    }
}

/// The least lifetime of a checkpoint in milliseconds.
pub const MIN_CHECKPOINT_LIFETIME_MILLIS: u128 = 1000;

/// Twice a span of time can be represented.
pub open spec fn can_double(span: TimeSpan) -> bool {
    2 * span.total_nanos() < 0x1_0000_0000_0000_0000 * 1_000_000_000
}

/// Checks that a reader that manages checkpoints can refresh them in time: a
/// checkpoint lives at least a second, and at least as long as two polls.
pub fn validate_options(mode: DbReaderMode, options: &DbReaderOptions) -> (result: Result<
    (),
    SlateDBError,
>)
    requires
        options.wf(),
    ensures
        ({
            let lifetime = options.checkpoint_lifetime;
            let interval = options.manifest_poll_interval;
            let managed = mode == DbReaderMode::ManagedCheckpoint;
            let brief = lifetime.total_nanos() < 1_000_000_000;
            let short = lifetime.total_nanos() < 2 * interval.total_nanos();
            match result {
                Ok(()) => managed ==> !brief && can_double(interval) && !short,
                Err(SlateDBError::InvalidCheckpointLifetime(span)) => managed && brief && span
                    == lifetime,
                Err(SlateDBError::InvalidManifestPollInterval(span)) => managed && !brief
                    && !can_double(interval) && span == interval,
                Err(SlateDBError::CheckpointLifetimeTooShort { lifetime: span, interval: twice }) => {
                    &&& managed && !brief && can_double(interval) && short
                    &&& span == lifetime
                    &&& twice.wf() && twice.total_nanos() == 2 * interval.total_nanos()
                },
                Err(_) => false,
            }
        }),
{
    if !matches!(mode, DbReaderMode::ManagedCheckpoint) {
        return Ok(());
    }
    if options.checkpoint_lifetime.as_millis() < MIN_CHECKPOINT_LIFETIME_MILLIS {
        return Err(SlateDBError::InvalidCheckpointLifetime(options.checkpoint_lifetime));
    }
    let double_poll_interval = match options.manifest_poll_interval.checked_double() {
        Some(double) => double,
        None => {
            return Err(
                SlateDBError::InvalidManifestPollInterval(options.manifest_poll_interval),
            );
        },
    };
    if options.checkpoint_lifetime.shorter_than(&double_poll_interval) {
        return Err(
            SlateDBError::CheckpointLifetimeTooShort {
                lifetime: options.checkpoint_lifetime,
                interval: double_poll_interval,
            },
        );
    }
    Ok(())
}

} // verus!
