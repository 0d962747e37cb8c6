//! Reader-side storage engine core.
//!
//! The crate holds the decisions of a read replica of an LSM database: which
//! WAL objects to fetch and when, how rows are folded into tables, how a sorted
//! run is walked in either direction, how a reader follows manifests and
//! checkpoints, and how cache and query metrics are accounted. Every function
//! is a deterministic step over plain values; waiting, storage calls and locks
//! belong to the embedding program.
pub mod blob;
pub mod byte_string;
pub mod bytes_range;
pub mod config;
pub mod db_cache;
pub mod db_reader;
pub mod db_state;
pub mod error;
pub mod foyer_hybrid;
pub mod key_laws;
pub mod manifest;
pub mod manifest_poller;
pub mod mem_table;
pub mod query_metrics;
pub mod reader_generation;
pub mod reader_laws;
pub mod reader_open;
pub mod reader_step_laws;
pub mod reader_state;
pub mod replay_memtables;
pub mod shared;
pub mod sorted_run_iterator;
pub mod sorted_run_laws;
pub mod sorted_run_step_laws;
pub mod sorted_run_walk_laws;
pub mod text;
pub mod time;
pub mod types;
pub mod wal_block_laws;
pub mod wal_blocks;
pub mod wal_replay;
pub mod wal_replay_laws;
pub mod wal_replay_run_laws;
pub mod wal_replay_step_laws;

pub use crate::config::{DbReaderMode, DbReaderOptions};
pub use crate::db_reader::DbReader;
pub use crate::error::SlateDBError;
pub use crate::foyer_hybrid::FoyerHybridCacheMetrics;
pub use crate::query_metrics::{
    QueryCacheKind, QueryCacheStatistics, QueryMetricsObserver, QueryMetricsSnapshot,
};
