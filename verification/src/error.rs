//! The errors of the reader.
use crate::shared::share;
use crate::time::TimeSpan;
use std::sync::Arc;
use uuid::Uuid;
use vstd::prelude::*;

verus! {

/// `object_store::Error`, a failure reported by the object store.
#[verifier::external_type_specification]
#[verifier::external_body]
pub struct ExObjectStoreError(object_store::Error);

/// `foyer::Error`, a failure reported by the block cache.
#[verifier::external_type_specification]
#[verifier::external_body]
pub struct ExFoyerError(foyer::Error);

/// What went wrong when bytes were read.
#[derive(Clone, Copy, PartialEq, Eq, Structural, Debug)]
pub enum IoErrorKind {
    /// The bytes are not what they should be.
    InvalidData,
    /// Anything else.
    Other,
}

/// Why an operation of the reader failed.
#[derive(Debug)]
pub enum SlateDBError {
    /// A WAL object could not be read as one.
    WalDataError { kind: IoErrorKind, message: String },
    /// The database, or what the storage reported of it, is inconsistent.
    InvalidDBState,
    /// A block or object failed its checksum.
    ChecksumMismatch,
    /// A background task panicked.
    BackgroundTaskPanic(String),
    /// A background task was cancelled.
    BackgroundTaskCancelled(String),
    /// An iterator was used before it was initialized.
    IteratorNotInitialized,
    /// A seek went past the keys of a table.
    SeekKeyOutOfKeyRange,
    /// The checkpoint lifetime is under one second.
    InvalidCheckpointLifetime(TimeSpan),
    /// Twice the manifest poll interval cannot be represented.
    InvalidManifestPollInterval(TimeSpan),
    /// The checkpoint lifetime is shorter than twice the poll interval.
    CheckpointLifetimeTooShort { lifetime: TimeSpan, interval: TimeSpan },
    /// The WAL prefetch limits cannot be honoured.
    InvalidWalReplaySettings { max_concurrent_objects: usize, max_inflight_bytes: usize },
    /// A checkpoint is not in the manifest.
    CheckpointMissing(Uuid),
    /// The lease on a checkpoint lapsed, so its generation may not be read.
    CheckpointLeaseLost(Uuid),
    /// No manifest has been written yet.
    LatestTransactionalObjectVersionMissing,
    /// There is no database at the path.
    DatabaseMissing,
    /// The WAL was truncated at the given WAL ID.
    WalTruncated(u64),
    /// A replayed row has no segment prefix under the configured extractor.
    MissingSegmentPrefix,
    /// The configured segment extractor is not the one that the database uses.
    SegmentExtractorMismatch,
    /// Snapshots are not offered by a reader that follows the latest manifest.
    DbReaderSnapshotUnsupportedInFollowLatest,
    /// The reader was closed.
    Closed,
    /// The object store failed.
    ObjectStoreError(Arc<object_store::Error>),
    /// The block cache failed.
    FoyerError(Arc<foyer::Error>),
}

impl Clone for SlateDBError {
    fn clone(&self) -> (copy: Self)
        ensures
            copy == *self,
    {
        match self {
            SlateDBError::WalDataError { kind, message } => SlateDBError::WalDataError {
                kind: *kind,
                message: message.clone(),
            },
            SlateDBError::InvalidDBState => SlateDBError::InvalidDBState,
            SlateDBError::ChecksumMismatch => SlateDBError::ChecksumMismatch,
            SlateDBError::BackgroundTaskPanic(task) => {
                SlateDBError::BackgroundTaskPanic(task.clone())
            },
            SlateDBError::BackgroundTaskCancelled(task) => {
                SlateDBError::BackgroundTaskCancelled(task.clone())
            },
            SlateDBError::IteratorNotInitialized => SlateDBError::IteratorNotInitialized,
            SlateDBError::SeekKeyOutOfKeyRange => SlateDBError::SeekKeyOutOfKeyRange,
            SlateDBError::InvalidCheckpointLifetime(lifetime) => {
                SlateDBError::InvalidCheckpointLifetime(*lifetime)
            },
            SlateDBError::InvalidManifestPollInterval(interval) => {
                SlateDBError::InvalidManifestPollInterval(*interval)
            },
            SlateDBError::CheckpointLifetimeTooShort { lifetime, interval } => {
                SlateDBError::CheckpointLifetimeTooShort {
                    lifetime: *lifetime,
                    interval: *interval,
                }
            },
            SlateDBError::InvalidWalReplaySettings {
                max_concurrent_objects,
                max_inflight_bytes,
            } => SlateDBError::InvalidWalReplaySettings {
                max_concurrent_objects: *max_concurrent_objects,
                max_inflight_bytes: *max_inflight_bytes,
            },
            SlateDBError::CheckpointMissing(id) => SlateDBError::CheckpointMissing(*id),
            SlateDBError::CheckpointLeaseLost(id) => SlateDBError::CheckpointLeaseLost(*id),
            SlateDBError::LatestTransactionalObjectVersionMissing => {
                SlateDBError::LatestTransactionalObjectVersionMissing
            },
            SlateDBError::DatabaseMissing => SlateDBError::DatabaseMissing,
            SlateDBError::WalTruncated(wal_id) => SlateDBError::WalTruncated(*wal_id),
            SlateDBError::MissingSegmentPrefix => SlateDBError::MissingSegmentPrefix,
            SlateDBError::SegmentExtractorMismatch => SlateDBError::SegmentExtractorMismatch,
            SlateDBError::DbReaderSnapshotUnsupportedInFollowLatest => {
                SlateDBError::DbReaderSnapshotUnsupportedInFollowLatest
            },
            SlateDBError::Closed => SlateDBError::Closed,
            SlateDBError::ObjectStoreError(error) => SlateDBError::ObjectStoreError(share(error)),
            SlateDBError::FoyerError(error) => SlateDBError::FoyerError(share(error)),
        }
    }
}

} // verus!
