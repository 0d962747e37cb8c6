//! Replay of a range of WAL objects into tables.
//!
//! [`WalReplayIterator`] decides which objects to fetch, in which order their
//! rows are applied, and where one table ends and the next begins. The caller
//! starts the fetches it is handed, waits for the one it is told to wait for,
//! and reports back what came of it.
use crate::byte_string::bytes_contents;
use crate::error::SlateDBError;
use crate::manifest::ManifestCore;
use crate::mem_table::WritableKVTable;
use crate::text::{range_chars, range_text};
use crate::types::{RowMap, RowView};
use crate::wal_blocks::{blocks_error, blocks_rows, replay_rows, replayed_map, replayed_seq,
    replayed_tick, seqs_within, DecodedWalSst, IteratorHolder, WalBlocksIterator};
use bytes::Bytes;
use std::collections::VecDeque;
use std::ops::Range;
use vstd::prelude::*;
use vstd::string::*;

verus! {

/// Limits on WAL objects held in memory ahead of their use.
#[derive(Clone, Copy, PartialEq, Eq, Structural, Debug)]
pub struct WalReplaySettings {
    /// How many objects may be fetched ahead at once.
    pub max_concurrent_objects: usize,
    /// How many encoded bytes may be reserved at once.
    pub max_inflight_bytes: usize,
}

impl WalReplaySettings {
    /// At least one object and one byte are allowed, and a reservation of all
    /// bytes can be counted in 32 bits.
    pub open spec fn valid(self) -> bool {
        &&& self.max_concurrent_objects >= 1
        &&& 1 <= self.max_inflight_bytes <= u32::MAX
    }

    /// Checks the limits.
    pub fn validate(&self) -> (result: Result<(), SlateDBError>)
        ensures
            match result {
                Ok(()) => self.valid(),
                Err(error) => !self.valid() && error == (SlateDBError::InvalidWalReplaySettings {
                    max_concurrent_objects: self.max_concurrent_objects,
                    max_inflight_bytes: self.max_inflight_bytes,
                }),
            },
    {
        if self.max_concurrent_objects == 0 || self.max_inflight_bytes == 0
            || self.max_inflight_bytes > u32::MAX as usize {
            Err(
                SlateDBError::InvalidWalReplaySettings {
                    max_concurrent_objects: self.max_concurrent_objects,
                    max_inflight_bytes: self.max_inflight_bytes,
                },
            )
        } else {
            Ok(())
        }
    }
}

/// How a range of WAL objects is replayed.
#[derive(Clone, Copy, PartialEq, Eq, Structural, Debug)]
pub struct WalReplayOptions {
    /// Limits concurrent full-object WAL prefetch.
    pub prefetch: WalReplaySettings,
    /// The target maximum number of bytes in each returned table. Replay only
    /// splits between complete WAL objects, so a returned table may exceed this
    /// if a single object is larger.
    pub max_memtable_bytes: usize,
    /// The sequence number that replay starts after. If unset, everything after
    /// `last_l0_seq` in the manifest is replayed.
    pub min_seq: Option<u64>,
}

/// The target size of a replayed table where none is configured: 64 MiB.
pub const DEFAULT_MAX_MEMTABLE_BYTES: usize = 64 * 1024 * 1024;

impl WalReplayOptions {
    /// The default options under the given prefetch limits.
    pub fn with_prefetch(prefetch: WalReplaySettings) -> (options: WalReplayOptions)
        ensures
            options.prefetch == prefetch,
            options.max_memtable_bytes == 64 * 1024 * 1024,
            options.min_seq is None,
    {
        WalReplayOptions { prefetch, max_memtable_bytes: DEFAULT_MAX_MEMTABLE_BYTES, min_seq: None }
    }
}

/// A table that replay hands out.
#[derive(Debug)]
pub struct ReplayedMemtable {
    /// The replayed rows.
    pub table: WritableKVTable,
    /// The greatest creation timestamp replayed so far.
    pub last_tick: i64,
    /// The greatest sequence number replayed so far.
    pub last_seq: u64,
    /// The last WAL whose rows the table holds.
    pub last_wal_id: u64,
}

/// A WAL object to fetch.
#[derive(Clone, Copy, PartialEq, Eq, Structural, Debug)]
pub struct WalObjectPlan {
    pub wal_id: u64,
    /// The size of the object, where it was listed.
    pub expected_size: Option<u64>,
}

/// A fetch that was started and whose object is not yet in use.
#[derive(Clone, Copy, PartialEq, Eq, Structural, Debug)]
pub struct PendingWal {
    pub wal_id: u64,
    /// The bytes of the budget that the object holds.
    pub reserved_bytes: usize,
}

/// The object whose rows are being replayed.
#[derive(Debug)]
pub struct WalIdAndIter {
    pub wal_id: u64,
    pub iter: WalBlocksIterator,
    /// The bytes of the budget that the object holds.
    pub reserved_bytes: usize,
}

/// What a call of [`WalReplayIterator::next`] is waiting for.
#[derive(Clone, Copy, PartialEq, Eq, Structural, Debug)]
pub enum ReplayPhase {
    /// No call is under way.
    Idle,
    /// The bytes of this object.
    Fetching(PendingWal),
    /// The blocks of this object.
    Decoding(PendingWal),
    /// The estimated size of the table so far.
    Estimating,
}

/// What became of a fetch.
#[derive(Debug)]
pub enum FetchOutcome {
    /// The bytes of the object.
    Fetched(Bytes),
    /// The fetch failed.
    Failed(SlateDBError),
    /// The task that fetched panicked.
    Panicked,
    /// The task that fetched was cancelled.
    Cancelled,
}

/// What the caller does next.
#[derive(Debug)]
pub enum WalReplayAction {
    /// Wait for the fetch of this object and report with
    /// [`WalReplayIterator::on_fetch`], or with [`WalReplayIterator::on_truncated`]
    /// where the WAL ends before it.
    Fetch { wal_id: u64 },
    /// Decode these bytes and report with [`WalReplayIterator::on_decode`].
    Decode { wal_id: u64, bytes: Bytes },
    /// Estimate the encoded size of the table so far and report with
    /// [`WalReplayIterator::on_estimate`].
    Estimate,
    /// The call of [`WalReplayIterator::next`] is over, with this result.
    Done(Result<Option<ReplayedMemtable>, SlateDBError>),
}

/// One step of replay.
#[derive(Debug)]
pub struct WalReplayStep {
    /// Fetches to start now, in order.
    pub start: Vec<WalObjectPlan>,
    /// Fetches to abort now, after those to start.
    pub abort: Vec<u64>,
    /// What the whole replay took, on the step that first finds it complete.
    pub completed: Option<WalReplaySummary>,
    pub action: WalReplayAction,
}

/// What a replay took.
#[derive(Clone, Copy, PartialEq, Eq, Structural, Debug)]
pub struct WalReplaySummary {
    pub fetched_objects: u64,
    pub fetched_bytes: u64,
    pub decoded_objects: u64,
    pub peak_concurrent_objects: usize,
    pub peak_reserved_bytes: usize,
}

/// A WAL object that was replayed in full.
pub struct ReplayedWal {
    pub wal_id: u64,
    pub rows: Seq<RowView>,
}

/// The rows of a run of objects, replayed one after the other into an empty table.
pub open spec fn batch_map(wals: Seq<ReplayedWal>, min_seq: u64) -> RowMap
    decreases wals.len(),
{
    if wals.len() == 0 {
        RowMap::empty()
    } else {
        replayed_map(batch_map(wals.drop_last(), min_seq), wals.last().rows, min_seq)
    }
}

/// The greatest creation timestamp after a run of objects is replayed.
pub open spec fn batch_tick(tick: i64, wals: Seq<ReplayedWal>, min_seq: u64) -> i64
    decreases wals.len(),
{
    if wals.len() == 0 {
        tick
    } else {
        replayed_tick(batch_tick(tick, wals.drop_last(), min_seq), wals.last().rows, min_seq)
    }
}

/// The greatest sequence number after a run of objects is replayed.
pub open spec fn batch_seq(seq: u64, wals: Seq<ReplayedWal>, min_seq: u64) -> u64
    decreases wals.len(),
{
    if wals.len() == 0 {
        seq
    } else {
        replayed_seq(batch_seq(seq, wals.drop_last(), min_seq), wals.last().rows, min_seq)
    }
}

/// The bytes that pending fetches hold.
pub open spec fn reserved_total(pending: Seq<PendingWal>) -> nat
    decreases pending.len(),
{
    if pending.len() == 0 {
        0
    } else {
        reserved_total(pending.drop_last()) + pending.last().reserved_bytes as nat
    }
}

/// The listed size of an object, where it was listed.
pub open spec fn listed_size(listed: Seq<(u64, u64)>, wal_id: u64) -> Option<u64> {
    if exists|i: int| 0 <= i < listed.len() && (#[trigger] listed[i]).0 == wal_id {
        Some(listed[choose|i: int| 0 <= i < listed.len() && (#[trigger] listed[i]).0 == wal_id].1)
    } else {
        None
    }
}

/// A listing is in strictly increasing order of IDs, all from `start` up to `end`.
pub open spec fn listing_valid(listed: Seq<(u64, u64)>, start: u64, end: u64) -> bool {
    &&& forall|i: int| 0 <= i < listed.len() ==> start <= (#[trigger] listed[i]).0 < end
    &&& forall|i: int, j: int|
        0 <= i < j < listed.len() ==> (#[trigger] listed[i]).0 < (#[trigger] listed[j]).0
}

/// The bytes reserved for an object: its size within the limit, at least one,
/// and the whole limit where the size is not known.
pub open spec fn reservation(expected_size: Option<u64>, limit: usize) -> usize {
    match expected_size {
        Some(size) => if size < 1 {
            1
        } else if size > limit {
            limit
        } else {
            size as usize
        },
        None => limit,
    }
}

/// The fetches of consecutive objects from `first` on, under a listing and a byte limit.
pub open spec fn fetches(
    first: u64,
    count: int,
    listed: Seq<(u64, u64)>,
    limit: usize,
) -> Seq<PendingWal> {
    Seq::new(
        count as nat,
        |i: int|
            PendingWal {
                wal_id: (first + i) as u64,
                reserved_bytes: reservation(listed_size(listed, (first + i) as u64), limit),
            },
    )
}

/// The plans for consecutive objects from `first` on, under a listing.
pub open spec fn plans(first: u64, count: int, listed: Seq<(u64, u64)>) -> Seq<WalObjectPlan> {
    Seq::new(
        count as nat,
        |i: int|
            WalObjectPlan {
                wal_id: (first + i) as u64,
                expected_size: listed_size(listed, (first + i) as u64),
            },
    )
}

/// The name of the task that replays a range of WAL objects.
pub open spec fn task_name_chars(range: Range<u64>) -> Seq<char> {
    "wal_replay["@ + range_chars(range.start, range.end) + "]"@
}

/// Replays one exact, contiguous WAL-ID range.
///
/// Invariants:
/// - every ID is fetched directly, including IDs omitted by object listing;
/// - fetched objects are consumed strictly in WAL-ID order;
/// - encoded bytes remain reserved until the corresponding WAL is consumed;
/// - an error permanently fails the iterator and aborts every outstanding fetch;
/// - the replay cursor is lazy, so memory does not grow with a sparse ID span.
pub struct WalReplayIterator {
    pub options: WalReplayOptions,
    pub wal_id_range: Range<u64>,
    pub current_iter: IteratorHolder<WalIdAndIter>,
    pub next_wal_id: u64,
    pub listed_sizes: VecDeque<(u64, u64)>,
    pub pending_fetches: VecDeque<PendingWal>,
    pub available_bytes: usize,
    pub last_tick: i64,
    pub last_seq: u64,
    pub min_seq: u64,
    pub fetched_objects: u64,
    pub fetched_bytes: u64,
    pub decoded_objects: u64,
    pub peak_concurrent_objects: usize,
    pub peak_reserved_bytes: usize,
    pub completion_logged: bool,
    pub failed: Option<SlateDBError>,
    /// What the call of `next` under way is waiting for.
    pub phase: ReplayPhase,
    /// The table that the call of `next` under way is building.
    pub table: WritableKVTable,
    /// The last object replayed into that table, or zero.
    pub last_wal_id: u64,
    /// Every object replayed so far, in order.
    pub history: Ghost<Seq<ReplayedWal>>,
    /// How many objects are in tables that were handed out before.
    pub emitted: Ghost<nat>,
    /// The tick and the sequence number that replay started from.
    pub origin: Ghost<(i64, u64)>,
}

impl WalReplayIterator {
    /// The bytes held by the object being fetched, decoded or replayed.
    pub open spec fn held_bytes(&self) -> nat {
        let phase_bytes: nat = match self.phase {
            ReplayPhase::Fetching(wal) => wal.reserved_bytes as nat,
            ReplayPhase::Decoding(wal) => wal.reserved_bytes as nat,
            _ => 0,
        };
        let current_bytes: nat = match self.current_iter.current_iter {
            Some(wal) => wal.reserved_bytes as nat,
            None => 0,
        };
        phase_bytes + current_bytes
    }

    /// The byte budget is accounted for: what is not available is reserved.
    pub open spec fn budget_accounted(&self) -> bool {
        self.available_bytes + reserved_total(self.pending_fetches@) + self.held_bytes()
            == self.options.prefetch.max_inflight_bytes
    }

    /// The objects taken off the queue of fetches and not yet replayed.
    pub open spec fn in_flight(&self) -> nat {
        match self.phase {
            ReplayPhase::Fetching(_) | ReplayPhase::Decoding(_) => 1,
            _ => 0,
        }
    }

    /// The range is walked from its start; what was listed and not reached yet
    /// is still to come.
    pub open spec fn cursor_valid(&self) -> bool {
        &&& self.wal_id_range.start <= self.next_wal_id
        &&& self.next_wal_id <= self.wal_id_range.end || self.next_wal_id
            == self.wal_id_range.start
        &&& listing_valid(self.listed_sizes@, self.next_wal_id, self.wal_id_range.end)
    }

    /// The pending fetches are of the consecutive IDs right before the cursor.
    pub open spec fn queue_valid(&self) -> bool {
        &&& self.pending_fetches@.len() <= self.options.prefetch.max_concurrent_objects
        &&& forall|i: int|
            0 <= i < self.pending_fetches@.len() ==> (#[trigger] self.pending_fetches@[i]).wal_id
                == self.next_wal_id - self.pending_fetches@.len() + i
    }

    /// The state fits what the call of `next` under way is waiting for.
    pub open spec fn phase_valid(&self) -> bool {
        &&& match self.phase {
            ReplayPhase::Idle => self.current_iter.current_iter is None,
            ReplayPhase::Fetching(wal) | ReplayPhase::Decoding(wal) => {
                &&& self.failed is None
                &&& self.current_iter.current_iter is None
                &&& wal.wal_id == self.next_wal_id - self.pending_fetches@.len() - 1
            },
            ReplayPhase::Estimating => {
                &&& self.failed is None
                &&& self.current_iter.initialized
                &&& self.current_iter.current_iter is Some
            },
        }
        &&& self.failed is Some ==> self.phase is Idle && self.pending_fetches@.len() == 0
        &&& self.failed is None && self.phase is Idle && self.current_iter.finished()
            ==> self.pending_fetches@.len() == 0 && self.next_wal_id >= self.wal_id_range.end
    }

    /// Consecutive IDs from the start of the range were replayed once each, in order.
    pub open spec fn history_in_order(&self) -> bool {
        &&& forall|i: int|
            0 <= i < self.history@.len() ==> (#[trigger] self.history@[i]).wal_id
                == self.wal_id_range.start + i
        &&& self.emitted@ <= self.history@.len()
        &&& self.history@.len() <= self.next_wal_id - self.wal_id_range.start
    }

    /// Every ID from the start of the range up to the ones in flight was
    /// replayed, and the watermarks are those of the replayed rows.
    pub open spec fn history_valid(&self) -> bool {
        &&& self.history_in_order()
        &&& self.failed is None ==> {
            &&& self.history@.len() + self.in_flight() + self.pending_fetches@.len()
                == self.next_wal_id - self.wal_id_range.start
            &&& self.last_tick == batch_tick(self.origin@.0, self.history@, self.min_seq)
            &&& self.last_seq == batch_seq(self.origin@.1, self.history@, self.min_seq)
        }
    }

    /// The table holds the rows of the objects replayed since the last table was
    /// handed out.
    pub open spec fn batch_valid(&self) -> bool {
        &&& self.table@@ == batch_map(self.history@.skip(self.emitted@ as int), self.min_seq)
        &&& seqs_within(self.table@@, self.min_seq, self.last_seq)
        &&& self.last_wal_id == if self.history@.len() > self.emitted@ {
            self.history@.last().wal_id
        } else {
            0
        }
    }

    /// While a call of `next` is under way the table is that of the batch, and
    /// between calls every replayed object has been handed out. No segments are
    /// recorded for the table.
    pub open spec fn table_valid(&self) -> bool {
        &&& self.table@.wf()
        &&& self.table@.segments() == Set::<Seq<u8>>::empty()
        &&& self.failed is None && !(self.phase is Idle) ==> self.batch_valid()
        &&& self.failed is None && self.phase is Idle ==> self.emitted@ == self.history@.len()
    }

    /// The state is consistent.
    pub open spec fn wf(&self) -> bool {
        &&& self.options.prefetch.valid()
        &&& self.cursor_valid()
        &&& self.queue_valid()
        &&& self.budget_accounted()
        &&& self.phase_valid()
        &&& self.history_valid()
        &&& self.table_valid()
    }

    /// What a prefetch leaves as it was.
    pub open spec fn same_but_for_prefetch(&self, other: &Self) -> bool {
        &&& self.options == other.options
        &&& self.wal_id_range == other.wal_id_range
        &&& self.current_iter == other.current_iter
        &&& self.last_tick == other.last_tick
        &&& self.last_seq == other.last_seq
        &&& self.min_seq == other.min_seq
        &&& self.fetched_objects == other.fetched_objects
        &&& self.fetched_bytes == other.fetched_bytes
        &&& self.decoded_objects == other.decoded_objects
        &&& self.completion_logged == other.completion_logged
        &&& self.failed == other.failed
        &&& self.phase == other.phase
        &&& self.table == other.table
        &&& self.last_wal_id == other.last_wal_id
        &&& self.history == other.history
        &&& self.emitted == other.emitted
        &&& self.origin == other.origin
    }

    /// The sizes of the objects still to be fetched are known as they were.
    pub open spec fn same_sizes_ahead(&self, other: &Self) -> bool {
        forall|wal_id: u64|
            self.next_wal_id <= wal_id ==> #[trigger] listed_size(self.listed_sizes@, wal_id)
                == listed_size(other.listed_sizes@, wal_id)
    }

    /// The peaks after `started` fetches were added to those of `before`, which
    /// made `pending` of them and left `available` bytes.
    pub open spec fn peaks_follow(
        &self,
        before: &Self,
        started: int,
        pending: nat,
        available: int,
    ) -> bool {
        let reserved = before.options.prefetch.max_inflight_bytes - available;
        &&& self.peak_concurrent_objects == if started > 0 && pending
            > before.peak_concurrent_objects {
            pending as usize
        } else {
            before.peak_concurrent_objects
        }
        &&& self.peak_reserved_bytes == if started > 0 && reserved > before.peak_reserved_bytes {
            reserved as usize
        } else {
            before.peak_reserved_bytes
        }
    }

    /// From `before`, fetches of the next consecutive IDs were started, as many
    /// as the limits allow, and nothing else happened.
    pub open spec fn prefetched(&self, before: &Self, started: Seq<WalObjectPlan>) -> bool {
        let limit = self.options.prefetch.max_inflight_bytes;
        let count = started.len() as int;
        let added = fetches(before.next_wal_id, count, before.listed_sizes@, limit);
        &&& self.same_but_for_prefetch(before)
        &&& started == plans(before.next_wal_id, count, before.listed_sizes@)
        &&& self.next_wal_id == before.next_wal_id + count
        &&& self.pending_fetches@ == before.pending_fetches@ + added
        &&& self.available_bytes == before.available_bytes - reserved_total(added)
        &&& self.same_sizes_ahead(before)
        &&& {
            ||| self.pending_fetches@.len() >= self.options.prefetch.max_concurrent_objects
            ||| self.next_wal_id >= self.wal_id_range.end
            ||| reservation(listed_size(self.listed_sizes@, self.next_wal_id), limit)
                > self.available_bytes
        }
        &&& self.peaks_follow(
            before,
            count,
            self.pending_fetches@.len(),
            self.available_bytes as int,
        )
    }

    /// Starts as many fetches as the limits allow, in WAL-ID order.
    #[verifier::rlimit(40)]
    pub fn fill_prefetch(&mut self) -> (started: Vec<WalObjectPlan>)
        requires
            old(self).cursor_valid(),
            old(self).queue_valid(),
            old(self).budget_accounted(),
            old(self).options.prefetch.valid(),
        ensures
            final(self).cursor_valid(),
            final(self).queue_valid(),
            final(self).budget_accounted(),
            final(self).prefetched(old(self), started@),
    {
        let mut started: Vec<WalObjectPlan> = Vec::new();
        let byte_limit: usize = self.options.prefetch.max_inflight_bytes;
        let ghost first = self.next_wal_id;
        let ghost listed = self.listed_sizes@;
        proof {
            assert(started@ =~= plans(first, 0, listed));
            assert(fetches(first, 0, listed, byte_limit) =~= Seq::<PendingWal>::empty());
            assert(self.pending_fetches@ =~= old(self).pending_fetches@ + fetches(
                first,
                0,
                listed,
                byte_limit,
            ));
        }
        while self.pending_fetches.len() < self.options.prefetch.max_concurrent_objects
            invariant
                first == old(self).next_wal_id,
                listed == old(self).listed_sizes@,
                byte_limit == self.options.prefetch.max_inflight_bytes,
                self.options.prefetch.valid(),
                self.cursor_valid(),
                self.queue_valid(),
                self.budget_accounted(),
                self.same_but_for_prefetch(old(self)),
                started@ == plans(first, started@.len() as int, listed),
                self.next_wal_id == first + started@.len(),
                self.pending_fetches@ == old(self).pending_fetches@ + fetches(
                    first,
                    started@.len() as int,
                    listed,
                    byte_limit,
                ),
                self.available_bytes == old(self).available_bytes - reserved_total(
                    fetches(first, started@.len() as int, listed, byte_limit),
                ),
                self.same_sizes_ahead(old(self)),
                self.peaks_follow(
                    old(self),
                    started@.len() as int,
                    self.pending_fetches@.len(),
                    self.available_bytes as int,
                ),
            ensures
                ({
                    ||| self.pending_fetches@.len() >= self.options.prefetch.max_concurrent_objects
                    ||| self.next_wal_id >= self.wal_id_range.end
                    ||| reservation(
                        listed_size(self.listed_sizes@, self.next_wal_id),
                        byte_limit,
                    ) > self.available_bytes
                }),
            decreases self.wal_id_range.end - self.next_wal_id,
        {
            if self.next_wal_id >= self.wal_id_range.end {
                break;
            }
            let is_listed: bool = self.listed_sizes.len() > 0 && self.listed_sizes[0].0
                == self.next_wal_id;
            let expected_size: Option<u64> = if is_listed {
                Some(self.listed_sizes[0].1)
            } else {
                None
            };
            let reserved_bytes: usize = match expected_size {
                Some(size) => {
                    if size < 1 {
                        1
                    } else if size > byte_limit as u64 {
                        byte_limit
                    } else {
                        size as usize
                    }
                },
                None => byte_limit,
            };
            proof {
                lemma_front_size(self.listed_sizes@, self.next_wal_id, self.wal_id_range.end);
                assert(expected_size == listed_size(self.listed_sizes@, self.next_wal_id));
                assert(reserved_bytes == reservation(expected_size, byte_limit));
            }
            if reserved_bytes > self.available_bytes {
                break;
            }
            let ghost before = *self;
            let ghost count = started@.len() as int;
            if is_listed {
                let popped = self.listed_sizes.pop_front();
            }
            let wal_id: u64 = self.next_wal_id;
            self.available_bytes = self.available_bytes - reserved_bytes;
            self.next_wal_id = self.next_wal_id + 1;
            self.pending_fetches.push_back(PendingWal { wal_id, reserved_bytes });
            started.push(WalObjectPlan { wal_id, expected_size });
            if self.pending_fetches.len() > self.peak_concurrent_objects {
                self.peak_concurrent_objects = self.pending_fetches.len();
            }
            if byte_limit - self.available_bytes > self.peak_reserved_bytes {
                self.peak_reserved_bytes = byte_limit - self.available_bytes;
            }
            proof {
                let added = PendingWal { wal_id, reserved_bytes };
                let old_run = fetches(first, count, listed, byte_limit);
                let new_run = fetches(first, count + 1, listed, byte_limit);
                assert(new_run =~= old_run.push(added));
                assert(new_run.drop_last() =~= old_run);
                assert(self.pending_fetches@ =~= before.pending_fetches@.push(added));
                assert(self.pending_fetches@.drop_last() =~= before.pending_fetches@);
                assert(self.pending_fetches@ =~= old(self).pending_fetches@ + new_run);
                assert(started@ =~= plans(first, count + 1, listed));
                lemma_listing_rest(
                    before.listed_sizes@,
                    self.listed_sizes@,
                    before.next_wal_id,
                    self.wal_id_range.end,
                );
            }
        }
        started
    }
}

impl WalReplayIterator {
    /// What the replay took so far.
    pub open spec fn summary(&self) -> WalReplaySummary {
        WalReplaySummary {
            fetched_objects: self.fetched_objects,
            fetched_bytes: self.fetched_bytes,
            decoded_objects: self.decoded_objects,
            peak_concurrent_objects: self.peak_concurrent_objects,
            peak_reserved_bytes: self.peak_reserved_bytes,
        }
    }

    /// What never changes, and what only rows or failures change.
    pub open spec fn same_progress(&self, other: &Self) -> bool {
        &&& self.options == other.options
        &&& self.wal_id_range == other.wal_id_range
        &&& self.min_seq == other.min_seq
        &&& self.origin == other.origin
        &&& self.history == other.history
        &&& self.last_tick == other.last_tick
        &&& self.last_seq == other.last_seq
        &&& self.failed == other.failed
    }

    /// The fetch counters are the same.
    pub open spec fn same_counters(&self, other: &Self) -> bool {
        &&& self.fetched_objects == other.fetched_objects
        &&& self.fetched_bytes == other.fetched_bytes
        &&& self.decoded_objects == other.decoded_objects
    }

    /// What a failure leaves as it was.
    pub open spec fn same_but_for_failure(&self, other: &Self) -> bool {
        &&& self.options == other.options
        &&& self.wal_id_range == other.wal_id_range
        &&& self.current_iter.initialized == other.current_iter.initialized
        &&& self.next_wal_id == other.next_wal_id
        &&& self.listed_sizes == other.listed_sizes
        &&& self.last_tick == other.last_tick
        &&& self.last_seq == other.last_seq
        &&& self.min_seq == other.min_seq
        &&& self.same_counters(other)
        &&& self.peak_concurrent_objects == other.peak_concurrent_objects
        &&& self.peak_reserved_bytes == other.peak_reserved_bytes
        &&& self.completion_logged == other.completion_logged
        &&& self.last_wal_id == other.last_wal_id
        &&& self.history == other.history
        &&& self.emitted == other.emitted
        &&& self.origin == other.origin
    }

    /// The call of `next` ended: the table built in `before` is handed out if an
    /// object was replayed into it, and there is nothing more otherwise.
    pub open spec fn concluded(&self, before: &Self, step: WalReplayStep) -> bool {
        &&& self.phase is Idle
        &&& self.emitted@ == self.history@.len()
        &&& self.last_wal_id == before.last_wal_id
        &&& step.action matches WalReplayAction::Done(Ok(handed_out))
        &&& if before.last_wal_id > 0 {
            &&& self.table@@ == RowMap::empty()
            &&& handed_out matches Some(replayed)
            &&& replayed == (ReplayedMemtable {
                table: before.table,
                last_tick: before.last_tick,
                last_seq: before.last_seq,
                last_wal_id: before.last_wal_id,
            })
            &&& self.completion_logged == before.completion_logged
            &&& step.completed is None
        } else {
            &&& handed_out is None
            &&& self.table == before.table
            &&& self.completion_logged
            &&& step.completed == if before.completion_logged {
                None
            } else {
                Some(self.summary())
            }
        }
    }

    /// From `before`, the current object was released, fetches were started up
    /// to the limits, and the oldest outstanding fetch is waited for. Where there
    /// is none the range is used up and the call of `next` ended.
    pub open spec fn advanced(&self, before: &Self, step: WalReplayStep) -> bool {
        let limit = before.options.prefetch.max_inflight_bytes;
        let count = step.start@.len() as int;
        let added = fetches(before.next_wal_id, count, before.listed_sizes@, limit);
        let queue = before.pending_fetches@ + added;
        &&& self.same_progress(before)
        &&& self.same_counters(before)
        &&& self.current_iter.current_iter is None
        &&& step.start@ == plans(before.next_wal_id, count, before.listed_sizes@)
        &&& step.abort@.len() == 0
        &&& self.next_wal_id == before.next_wal_id + count
        &&& self.available_bytes == before.available_bytes + before.held_bytes()
            - reserved_total(added)
        &&& self.same_sizes_ahead(before)
        &&& self.peaks_follow(before, count, queue.len(), self.available_bytes as int)
        &&& {
            ||| queue.len() >= self.options.prefetch.max_concurrent_objects
            ||| self.next_wal_id >= self.wal_id_range.end
            ||| reservation(listed_size(before.listed_sizes@, self.next_wal_id), limit)
                > self.available_bytes
        }
        &&& if queue.len() > 0 {
            &&& step.action == (WalReplayAction::Fetch { wal_id: queue[0].wal_id })
            &&& step.completed is None
            &&& self.phase == ReplayPhase::Fetching(queue[0])
            &&& self.pending_fetches@ == queue.drop_first()
            &&& self.current_iter.initialized == before.current_iter.initialized
            &&& self.table == before.table
            &&& self.last_wal_id == before.last_wal_id
            &&& self.emitted == before.emitted
            &&& self.completion_logged == before.completion_logged
        } else {
            &&& self.pending_fetches@.len() == 0
            &&& self.current_iter.finished()
            &&& self.next_wal_id >= self.wal_id_range.end
            &&& self.concluded(before, step)
        }
    }

    /// The iterator failed for good with `error`: nothing is outstanding or held.
    pub open spec fn failed_with(&self, error: SlateDBError) -> bool {
        &&& self.failed == Some(error)
        &&& self.phase is Idle
        &&& self.pending_fetches@.len() == 0
        &&& self.current_iter.current_iter is None
        &&& self.available_bytes == self.options.prefetch.max_inflight_bytes
    }

    /// Replays the objects of `wal_id_range`, of which some were listed with
    /// their sizes. Also gives the fetches to start right away.
    #[verifier::rlimit(40)]
    pub fn range(
        wal_id_range: Range<u64>,
        db_state: &ManifestCore,
        options: WalReplayOptions,
        listed: &Vec<(u64, u64)>,
    ) -> (result: Result<(WalReplayIterator, Vec<WalObjectPlan>), SlateDBError>)
        ensures
            match result {
                Ok((iter, started)) => {
                    let count = started@.len() as int;
                    let limit = options.prefetch.max_inflight_bytes;
                    &&& options.prefetch.valid()
                    &&& listing_valid(listed@, wal_id_range.start, wal_id_range.end)
                    &&& iter.wf()
                    &&& iter.options == options
                    &&& iter.wal_id_range == wal_id_range
                    &&& iter.phase is Idle
                    &&& !iter.current_iter.initialized
                    &&& iter.failed is None
                    &&& iter.history@.len() == 0
                    &&& iter.origin@ == (db_state.last_l0_clock_tick, db_state.last_l0_seq)
                    &&& iter.last_tick == db_state.last_l0_clock_tick
                    &&& iter.last_seq == db_state.last_l0_seq
                    &&& iter.min_seq == match options.min_seq {
                        Some(seq) => seq,
                        None => db_state.last_l0_seq,
                    }
                    &&& iter.fetched_objects == 0 && iter.fetched_bytes == 0
                        && iter.decoded_objects == 0
                    &&& !iter.completion_logged
                    &&& started@ == plans(wal_id_range.start, count, listed@)
                    &&& iter.pending_fetches@ == fetches(wal_id_range.start, count, listed@, limit)
                    &&& iter.next_wal_id == wal_id_range.start + count
                    &&& forall|wal_id: u64|
                        iter.next_wal_id <= wal_id ==> #[trigger] listed_size(
                            iter.listed_sizes@,
                            wal_id,
                        ) == listed_size(listed@, wal_id)
                    &&& iter.peak_concurrent_objects == count
                    &&& iter.peak_reserved_bytes == limit - iter.available_bytes
                    &&& {
                        ||| count >= options.prefetch.max_concurrent_objects
                        ||| iter.next_wal_id >= wal_id_range.end
                        ||| reservation(listed_size(listed@, iter.next_wal_id), limit)
                            > iter.available_bytes
                    }
                },
                Err(error) => {
                    ||| !options.prefetch.valid() && error
                        == (SlateDBError::InvalidWalReplaySettings {
                        max_concurrent_objects: options.prefetch.max_concurrent_objects,
                        max_inflight_bytes: options.prefetch.max_inflight_bytes,
                    })
                    ||| options.prefetch.valid() && error == SlateDBError::InvalidDBState
                        && !listing_valid(listed@, wal_id_range.start, wal_id_range.end)
                },
            },
    {
        if let Err(error) = options.prefetch.validate() {
            return Err(error);
        }
        let min_seq: u64 = match options.min_seq {
            Some(seq) => seq,
            None => db_state.last_l0_seq,
        };
        let start: u64 = wal_id_range.start;
        let end: u64 = wal_id_range.end;
        let mut listed_sizes: VecDeque<(u64, u64)> = VecDeque::new();
        let mut i: usize = 0;
        while i < listed.len()
            invariant
                i <= listed@.len(),
                listed_sizes@ == listed@.take(i as int),
                listing_valid(listed_sizes@, start, end),
                options.prefetch.valid(),
                start == wal_id_range.start,
                end == wal_id_range.end,
            decreases listed@.len() - i,
        {
            let (wal_id, size): (u64, u64) = listed[i];
            let out_of_range: bool = wal_id < start || wal_id >= end;
            let out_of_order: bool = i > 0 && wal_id <= listed[i - 1].0;
            if out_of_range || out_of_order {
                proof {
                    if out_of_order {
                        assert(listed@[i - 1].0 >= listed@[i as int].0);
                    } else {
                        assert(!(start <= listed@[i as int].0 < end));
                    }
                }
                return Err(SlateDBError::InvalidDBState);
            }
            let ghost before = listed_sizes@;
            listed_sizes.push_back((wal_id, size));
            proof {
                let after = listed_sizes@;
                assert(after =~= listed@.take(i + 1));
                assert forall|a: int, b: int| 0 <= a < b < after.len() implies (
                #[trigger] after[a]).0 < (#[trigger] after[b]).0 by {
                    if b == i {
                        assert(before[i - 1] == listed@[i - 1]);
                        if a < i - 1 {
                            assert(before[a].0 < before[i - 1].0);
                        }
                    } else {
                        assert(before[a].0 < before[b].0);
                    }
                }
                assert forall|a: int| 0 <= a < after.len() implies start <= (
                #[trigger] after[a]).0 < end by {
                    if a < i {
                        assert(after[a] == before[a]);
                    }
                }
            }
            i = i + 1;
        }
        assert(listed@.take(listed@.len() as int) =~= listed@);
        let mut iter = WalReplayIterator {
            options,
            wal_id_range,
            current_iter: IteratorHolder::new(),
            next_wal_id: start,
            listed_sizes,
            pending_fetches: VecDeque::new(),
            available_bytes: options.prefetch.max_inflight_bytes,
            last_tick: db_state.last_l0_clock_tick,
            last_seq: db_state.last_l0_seq,
            min_seq,
            fetched_objects: 0,
            fetched_bytes: 0,
            decoded_objects: 0,
            peak_concurrent_objects: 0,
            peak_reserved_bytes: 0,
            completion_logged: false,
            failed: None,
            phase: ReplayPhase::Idle,
            table: WritableKVTable::new(),
            last_wal_id: 0,
            history: Ghost(Seq::empty()),
            emitted: Ghost(0),
            origin: Ghost((db_state.last_l0_clock_tick, db_state.last_l0_seq)),
        };
        let started = iter.fill_prefetch();
        proof {
            let added = fetches(
                start,
                started@.len() as int,
                listed@,
                options.prefetch.max_inflight_bytes,
            );
            assert(Seq::<PendingWal>::empty() + added =~= added);
        }
        Ok((iter, started))
    }

    /// Notes that the replay is complete. Gives what it took the first time only.
    fn log_completion(&mut self) -> (summary: Option<WalReplaySummary>)
        ensures
            *final(self) == (WalReplayIterator { completion_logged: true, ..*old(self) }),
            summary == if old(self).completion_logged {
                None
            } else {
                Some(old(self).summary())
            },
    {
        if self.completion_logged {
            return None;
        }
        self.completion_logged = true;
        Some(
            WalReplaySummary {
                fetched_objects: self.fetched_objects,
                fetched_bytes: self.fetched_bytes,
                decoded_objects: self.decoded_objects,
                peak_concurrent_objects: self.peak_concurrent_objects,
                peak_reserved_bytes: self.peak_reserved_bytes,
            },
        )
    }
}

impl WalReplayIterator {
    /// From `before`, a call of `next` began.
    pub open spec fn next_stepped(&self, before: &Self, step: WalReplayStep) -> bool {
        &&& match before.failed {
            Some(error) => {
                &&& step.action == WalReplayAction::Done(Err(error))
                &&& step.start@.len() == 0 && step.abort@.len() == 0 && step.completed is None
                &&& *self == *before
            },
            None => if before.current_iter.finished() {
                &&& step.action == WalReplayAction::Done(Ok(None))
                &&& step.start@.len() == 0 && step.abort@.len() == 0
                &&& step.completed == if before.completion_logged {
                    None
                } else {
                    Some(before.summary())
                }
                &&& *self == (WalReplayIterator { completion_logged: true, ..*before })
            } else {
                let begun = WalReplayIterator {
                    table: self.table,
                    last_wal_id: 0,
                    ..*before
                };
                &&& self.table@@ == RowMap::empty()
                &&& self.advanced(&begun, step)
            },
        }
    }

    /// From `before`, the outcome of a fetch was taken up.
    pub open spec fn fetch_stepped(
        &self,
        before: &Self,
        outcome: FetchOutcome,
        step: WalReplayStep,
    ) -> bool {
        &&& step.start@.len() == 0
        &&& step.completed is None
        &&& ({
            let wal = before.phase->Fetching_0;
            match outcome {
                FetchOutcome::Fetched(bytes) => {
                    let len = bytes_contents(bytes).len();
                    &&& step.action == (WalReplayAction::Decode { wal_id: wal.wal_id, bytes })
                    &&& step.abort@.len() == 0
                    &&& *self == (WalReplayIterator {
                        phase: ReplayPhase::Decoding(wal),
                        fetched_objects: self.fetched_objects,
                        fetched_bytes: self.fetched_bytes,
                        ..*before
                    })
                    &&& self.fetched_objects == if before.fetched_objects
                        == u64::MAX {
                        u64::MAX as int
                    } else {
                        before.fetched_objects + 1
                    }
                    &&& self.fetched_bytes == if before.fetched_bytes + len
                        > u64::MAX {
                        u64::MAX as int
                    } else {
                        before.fetched_bytes + len
                    }
                },
                FetchOutcome::Failed(error) => {
                    &&& step.action == WalReplayAction::Done(Err(error))
                    &&& self.failed_with(error)
                },
                FetchOutcome::Panicked => {
                    &&& step.action matches WalReplayAction::Done(Err(error))
                    &&& error matches SlateDBError::BackgroundTaskPanic(name)
                    &&& name@ == task_name_chars(before.wal_id_range)
                    &&& self.failed_with(error)
                },
                FetchOutcome::Cancelled => {
                    &&& step.action matches WalReplayAction::Done(Err(error))
                    &&& error matches SlateDBError::BackgroundTaskCancelled(name)
                    &&& name@ == task_name_chars(before.wal_id_range)
                    &&& self.failed_with(error)
                },
            }
        })
        &&& !(outcome is Fetched) ==> {
            &&& step.abort@ == before.pending_fetches@.map_values(
                |wal: PendingWal| wal.wal_id,
            )
            &&& self.table == before.table
            &&& self.same_but_for_failure(before)
        }
    }

    /// From `before`, the WAL turned out to end before the object waited for: what
    /// was replayed in this call is handed out, and the replay is over.
    pub open spec fn truncate_stepped(&self, before: &Self, step: WalReplayStep) -> bool {
        let error = SlateDBError::WalTruncated(before.phase->Fetching_0.wal_id);
        &&& step.start@.len() == 0
        &&& step.completed is None
        &&& step.abort@ == before.pending_fetches@.map_values(|wal: PendingWal| wal.wal_id)
        &&& step.action == if before.last_wal_id > 0 {
            WalReplayAction::Done(
                Ok(
                    Some(
                        ReplayedMemtable {
                            table: before.table,
                            last_tick: before.last_tick,
                            last_seq: before.last_seq,
                            last_wal_id: before.last_wal_id,
                        },
                    ),
                ),
            )
        } else {
            WalReplayAction::Done(Err(error))
        }
        &&& self.failed_with(error)
        &&& self.same_but_for_failure(before)
    }

    /// From `before`, the blocks of an object were taken up.
    pub open spec fn decode_stepped(
        &self,
        before: &Self,
        outcome: Result<DecodedWalSst, SlateDBError>,
        step: WalReplayStep,
    ) -> bool {
        &&& step.completed is None
        &&& ({
            let wal = before.phase->Decoding_0;
            match outcome {
                Err(error) => {
                    &&& step.action == WalReplayAction::Done(Err(error))
                    &&& step.start@.len() == 0
                    &&& step.abort@ == before.pending_fetches@.map_values(
                        |wal: PendingWal| wal.wal_id,
                    )
                    &&& self.failed_with(error)
                    &&& self.table == before.table
                    &&& self.same_but_for_failure(before)
                },
                Ok(decoded) => {
                    let rows = blocks_rows(decoded.blocks());
                    let limit = before.options.prefetch.max_inflight_bytes;
                    let count = step.start@.len() as int;
                    let added = fetches(
                        before.next_wal_id,
                        count,
                        before.listed_sizes@,
                        limit,
                    );
                    let queue = before.pending_fetches@ + added;
                    &&& step.start@ == plans(
                        before.next_wal_id,
                        count,
                        before.listed_sizes@,
                    )
                    &&& self.next_wal_id == before.next_wal_id + count
                    &&& self.same_sizes_ahead(before)
                    &&& self.peaks_follow(
                        before,
                        count,
                        queue.len(),
                        before.available_bytes - reserved_total(added),
                    )
                    &&& self.completion_logged == before.completion_logged
                    &&& self.options == before.options
                    &&& self.wal_id_range == before.wal_id_range
                    &&& self.min_seq == before.min_seq
                    &&& self.origin == before.origin
                    &&& self.emitted == before.emitted
                    &&& self.fetched_objects == before.fetched_objects
                    &&& self.fetched_bytes == before.fetched_bytes
                    &&& self.decoded_objects == if before.decoded_objects
                        == u64::MAX {
                        u64::MAX as int
                    } else {
                        before.decoded_objects + 1
                    }
                    &&& self.last_tick == replayed_tick(
                        before.last_tick,
                        rows,
                        before.min_seq,
                    )
                    &&& self.last_seq == replayed_seq(
                        before.last_seq,
                        rows,
                        before.min_seq,
                    )
                    &&& self.table@@ == replayed_map(before.table@@, rows, before.min_seq)
                    &&& match blocks_error(decoded.blocks()) {
                        None => {
                            &&& step.action == WalReplayAction::Estimate
                            &&& step.abort@.len() == 0
                            &&& self.phase is Estimating
                            &&& self.pending_fetches@ == queue
                            &&& self.available_bytes == before.available_bytes
                                - reserved_total(added)
                            &&& self.current_iter.current_iter matches Some(current)
                            &&& current.wal_id == wal.wal_id
                            &&& current.reserved_bytes == wal.reserved_bytes
                            &&& {
                                ||| queue.len()
                                    >= before.options.prefetch.max_concurrent_objects
                                ||| self.next_wal_id >= before.wal_id_range.end
                                ||| reservation(
                                    listed_size(
                                        before.listed_sizes@,
                                        self.next_wal_id,
                                    ),
                                    limit,
                                ) > self.available_bytes
                            }
                            &&& self.failed is None
                            &&& self.last_wal_id == wal.wal_id
                            &&& self.history@ == before.history@.push(
                                ReplayedWal { wal_id: wal.wal_id, rows },
                            )
                        },
                        Some(error) => {
                            &&& step.action == WalReplayAction::Done(Err(error))
                            &&& step.abort@ == queue.map_values(|wal: PendingWal| wal.wal_id)
                            &&& self.failed_with(error)
                            &&& self.history == before.history
                            &&& self.last_wal_id == before.last_wal_id
                            &&& self.current_iter.initialized == before.current_iter.initialized
                        },
                    }
                },
            }
        })
    }

    /// From `before`, the size of the table was taken up.
    pub open spec fn estimate_stepped(
        &self,
        before: &Self,
        estimated_bytes: usize,
        step: WalReplayStep,
    ) -> bool {
        &&& if before.table@@ != RowMap::empty() && estimated_bytes
            >= before.options.max_memtable_bytes {
            &&& self.concluded(before, step)
            &&& step.start@.len() == 0
            &&& step.abort@.len() == 0
            &&& self.same_progress(before)
            &&& self.same_counters(before)
            &&& !self.current_iter.initialized
            &&& self.next_wal_id == before.next_wal_id
            &&& self.listed_sizes == before.listed_sizes
            &&& self.pending_fetches == before.pending_fetches
            &&& self.available_bytes == before.available_bytes + before.held_bytes()
            &&& self.peak_concurrent_objects == before.peak_concurrent_objects
            &&& self.peak_reserved_bytes == before.peak_reserved_bytes
        } else {
            self.advanced(before, step)
        }
    }
}

impl WalReplayIterator {
    /// Ends the call of `next`.
    fn conclude(&mut self, start: Vec<WalObjectPlan>) -> (step: WalReplayStep)
        requires
            old(self).table@.wf(),
            old(self).table@.segments() == Set::<Seq<u8>>::empty(),
        ensures
            final(self).concluded(old(self), step),
            final(self).table@.wf(),
            final(self).table@.segments() == Set::<Seq<u8>>::empty(),
            step.start == start,
            step.abort@.len() == 0,
            final(self).same_progress(old(self)),
            final(self).same_counters(old(self)),
            final(self).current_iter == old(self).current_iter,
            final(self).next_wal_id == old(self).next_wal_id,
            final(self).listed_sizes == old(self).listed_sizes,
            final(self).pending_fetches == old(self).pending_fetches,
            final(self).available_bytes == old(self).available_bytes,
            final(self).peak_concurrent_objects == old(self).peak_concurrent_objects,
            final(self).peak_reserved_bytes == old(self).peak_reserved_bytes,
    {
        self.phase = ReplayPhase::Idle;
        proof {
            self.emitted@ = self.history@.len();
        }
        if self.last_wal_id > 0 {
            let mut table = WritableKVTable::new();
            core::mem::swap(&mut self.table, &mut table);
            let replayed = ReplayedMemtable {
                table,
                last_tick: self.last_tick,
                last_seq: self.last_seq,
                last_wal_id: self.last_wal_id,
            };
            WalReplayStep {
                start,
                abort: Vec::new(),
                completed: None,
                action: WalReplayAction::Done(Ok(Some(replayed))),
            }
        } else {
            let completed = self.log_completion();
            WalReplayStep {
                start,
                abort: Vec::new(),
                completed,
                action: WalReplayAction::Done(Ok(None)),
            }
        }
    }

    /// Fails for good. Gives the fetches to abort.
    fn fail(&mut self, error: &SlateDBError) -> (abort: Vec<u64>)
        requires
            old(self).budget_accounted(),
        ensures
            final(self).failed_with(*error),
            abort@.len() == old(self).pending_fetches@.len(),
            forall|i: int|
                0 <= i < abort@.len() ==> #[trigger] abort@[i] == old(
                    self,
                ).pending_fetches@[i].wal_id,
            final(self).table == old(self).table,
            final(self).same_but_for_failure(old(self)),
    {
        let mut abort: Vec<u64> = Vec::new();
        let mut i: usize = 0;
        while i < self.pending_fetches.len()
            invariant
                i <= self.pending_fetches@.len(),
                *self == *old(self),
                abort@.len() == i,
                forall|j: int|
                    0 <= j < i ==> #[trigger] abort@[j] == self.pending_fetches@[j].wal_id,
            decreases self.pending_fetches@.len() - i,
        {
            abort.push(self.pending_fetches[i].wal_id);
            i = i + 1;
        }
        self.pending_fetches.clear();
        self.current_iter.current_iter = None;
        self.phase = ReplayPhase::Idle;
        self.available_bytes = self.options.prefetch.max_inflight_bytes;
        self.failed = Some(error.clone());
        abort
    }

    /// Fails for good and ends the call of `next` with the error.
    fn fail_step(&mut self, start: Vec<WalObjectPlan>, error: SlateDBError) -> (step: WalReplayStep)
        requires
            old(self).budget_accounted(),
            old(self).options.prefetch.valid(),
            old(self).cursor_valid(),
            old(self).table@.wf(),
            old(self).table@.segments() == Set::<Seq<u8>>::empty(),
            old(self).history_in_order(),
        ensures
            final(self).wf(),
            final(self).failed_with(error),
            step.start == start,
            step.abort@ == old(self).pending_fetches@.map_values(|wal: PendingWal| wal.wal_id),
            step.completed is None,
            step.action == WalReplayAction::Done(Err(error)),
            final(self).table == old(self).table,
            final(self).same_but_for_failure(old(self)),
    {
        let abort = self.fail(&error);
        assert(abort@ =~= old(self).pending_fetches@.map_values(|wal: PendingWal| wal.wal_id));
        WalReplayStep {
            start,
            abort,
            completed: None,
            action: WalReplayAction::Done(Err(error)),
        }
    }

    /// Releases the current object and moves on to the next outstanding fetch.
    #[verifier::rlimit(40)]
    fn advance_current_iter(&mut self) -> (step: WalReplayStep)
        requires
            old(self).options.prefetch.valid(),
            old(self).cursor_valid(),
            old(self).queue_valid(),
            old(self).budget_accounted(),
            old(self).history_valid(),
            old(self).batch_valid(),
            old(self).table@.wf(),
            old(self).table@.segments() == Set::<Seq<u8>>::empty(),
            old(self).failed is None,
            old(self).phase is Idle || old(self).phase is Estimating,
        ensures
            final(self).wf(),
            final(self).advanced(old(self), step),
    {
        let held: usize = match &self.current_iter.current_iter {
            Some(wal) => wal.reserved_bytes,
            None => 0,
        };
        self.current_iter.current_iter = None;
        self.available_bytes = self.available_bytes + held;
        let started = self.fill_prefetch();
        let ghost queue = self.pending_fetches@;
        let front = self.pending_fetches.pop_front();
        match front {
            Some(wal) => {
                self.phase = ReplayPhase::Fetching(wal);
                proof {
                    assert(wal == queue[0]);
                    assert(self.pending_fetches@ =~= queue.drop_first());
                    lemma_reserved_front(queue);
                }
                WalReplayStep {
                    start: started,
                    abort: Vec::new(),
                    completed: None,
                    action: WalReplayAction::Fetch { wal_id: wal.wal_id },
                }
            },
            None => {
                self.current_iter.advance(None);
                proof {
                    assert(queue.len() == 0);
                    assert(self.pending_fetches@ =~= queue);
                    assert(self.available_bytes == self.options.prefetch.max_inflight_bytes);
                    assert(self.next_wal_id >= self.wal_id_range.end);
                }
                self.conclude(started)
            },
        }
    }

    /// Get the next table replayed from the WAL. Replay accumulates complete WAL
    /// objects until the table reaches [`WalReplayOptions::max_memtable_bytes`],
    /// unless it is the final table replayed from the WAL. The final table may
    /// even be empty since writers use an empty WAL to fence zombie writers. The
    /// empty table must still be returned so that replay logic can account for
    /// the latest WAL ID.
    ///
    /// The table may exceed [`WalReplayOptions::max_memtable_bytes`] when a
    /// complete WAL object is larger than the configured target, because replay
    /// must not split a WAL object across replayed memtables.
    pub fn next(&mut self) -> (step: WalReplayStep)
        requires
            old(self).wf(),
            old(self).phase is Idle,
        ensures
            final(self).wf(),
            final(self).next_stepped(old(self), step),
    {
        if let Some(error) = &self.failed {
            let error = error.clone();
            return WalReplayStep {
                start: Vec::new(),
                abort: Vec::new(),
                completed: None,
                action: WalReplayAction::Done(Err(error)),
            };
        }
        if self.current_iter.is_finished() {
            let completed = self.log_completion();
            return WalReplayStep {
                start: Vec::new(),
                abort: Vec::new(),
                completed,
                action: WalReplayAction::Done(Ok(None)),
            };
        }
        self.table = WritableKVTable::new();
        self.last_wal_id = 0;
        assert(self.history@.skip(self.emitted@ as int) =~= Seq::<ReplayedWal>::empty());
        self.advance_current_iter()
    }

    /// Takes up the outcome of the fetch that was waited for.
    pub fn on_fetch(&mut self, outcome: FetchOutcome) -> (step: WalReplayStep)
        requires
            old(self).wf(),
            old(self).phase is Fetching,
        ensures
            final(self).wf(),
            final(self).fetch_stepped(old(self), outcome, step),
    {
        match outcome {
            FetchOutcome::Fetched(bytes) => {
                if let ReplayPhase::Fetching(wal) = self.phase {
                    self.fetched_objects = self.fetched_objects.saturating_add(1);
                    self.fetched_bytes = self.fetched_bytes.saturating_add(bytes.len() as u64);
                    self.phase = ReplayPhase::Decoding(wal);
                    return WalReplayStep {
                        start: Vec::new(),
                        abort: Vec::new(),
                        completed: None,
                        action: WalReplayAction::Decode { wal_id: wal.wal_id, bytes },
                    };
                }
                self.fail_step(Vec::new(), SlateDBError::InvalidDBState)
            },
            FetchOutcome::Failed(error) => self.fail_step(Vec::new(), error),
            FetchOutcome::Panicked => {
                let name = self.task_name();
                self.fail_step(Vec::new(), SlateDBError::BackgroundTaskPanic(name))
            },
            FetchOutcome::Cancelled => {
                let name = self.task_name();
                self.fail_step(Vec::new(), SlateDBError::BackgroundTaskCancelled(name))
            },
        }
    }

    /// Takes up that the WAL ends before the object that was waited for. The table
    /// built so far is handed out where an object was replayed into it; after that
    /// every call of `next` reports the truncation.
    pub fn on_truncated(&mut self) -> (step: WalReplayStep)
        requires
            old(self).wf(),
            old(self).phase is Fetching,
        ensures
            final(self).wf(),
            final(self).truncate_stepped(old(self), step),
    {
        let wal_id: u64 = match self.phase {
            ReplayPhase::Fetching(wal) => wal.wal_id,
            _ => 0,
        };
        let error = SlateDBError::WalTruncated(wal_id);
        if self.last_wal_id == 0 {
            return self.fail_step(Vec::new(), error);
        }
        let mut table = WritableKVTable::new();
        core::mem::swap(&mut self.table, &mut table);
        let replayed = ReplayedMemtable {
            table,
            last_tick: self.last_tick,
            last_seq: self.last_seq,
            last_wal_id: self.last_wal_id,
        };
        let abort = self.fail(&error);
        assert(abort@ =~= old(self).pending_fetches@.map_values(|wal: PendingWal| wal.wal_id));
        WalReplayStep {
            start: Vec::new(),
            abort,
            completed: None,
            action: WalReplayAction::Done(Ok(Some(replayed))),
        }
    }

    /// The name of the task that replays the range.
    fn task_name(&self) -> (name: String)
        ensures
            name@ == task_name_chars(self.wal_id_range),
    {
        let mut name = "wal_replay[".to_owned();
        name.append(range_text(self.wal_id_range.start, self.wal_id_range.end).as_str());
        name.append("]");
        name
    }

    /// Takes up the blocks of the fetched object: the next fetches are started,
    /// and all rows of the object above the minimum sequence number go into the
    /// table.
    #[verifier::rlimit(40)]
    pub fn on_decode(&mut self, outcome: Result<DecodedWalSst, SlateDBError>) -> (step:
        WalReplayStep)
        requires
            old(self).wf(),
            old(self).phase is Decoding,
        ensures
            final(self).wf(),
            final(self).decode_stepped(old(self), outcome, step),
    {
        let wal: PendingWal = match self.phase {
            ReplayPhase::Decoding(wal) => wal,
            _ => PendingWal { wal_id: 0, reserved_bytes: 0 },
        };
        let decoded = match outcome {
            Ok(decoded) => decoded,
            Err(error) => {
                return self.fail_step(Vec::new(), error);
            },
        };
        let ghost blocks = decoded.blocks();
        let ghost rows = blocks_rows(blocks);
        self.decoded_objects = self.decoded_objects.saturating_add(1);
        let mut iter = match decoded {
            DecodedWalSst::Fence => WalBlocksIterator::new(0, VecDeque::new()),
            DecodedWalSst::Data { format_version, blocks } => {
                WalBlocksIterator::new(format_version, blocks)
            },
        };
        assert(iter.remaining() =~= blocks);
        let started = self.fill_prefetch();
        let ghost prefetched = *self;
        let replayed = replay_rows(
            &mut iter,
            &mut self.table,
            self.min_seq,
            &mut self.last_tick,
            &mut self.last_seq,
        );
        if let Err(error) = replayed {
            return self.fail_step(started, error);
        }
        self.last_wal_id = wal.wal_id;
        self.phase = ReplayPhase::Estimating;
        self.current_iter.advance(
            Some(WalIdAndIter { wal_id: wal.wal_id, iter, reserved_bytes: wal.reserved_bytes }),
        );
        proof {
            let entry = ReplayedWal { wal_id: wal.wal_id, rows };
            let before = self.history@;
            let emitted = self.emitted@ as int;
            self.history@ = before.push(entry);
            assert(self.history@.drop_last() =~= before);
            assert(self.history@.skip(emitted).drop_last() =~= before.skip(emitted));
            assert(self.history@.skip(emitted).last() == entry);
        }
        WalReplayStep {
            start: started,
            abort: Vec::new(),
            completed: None,
            action: WalReplayAction::Estimate,
        }
    }

    /// Takes up the estimated encoded size of the table: a table that holds rows
    /// and has reached its target size is handed out, and replay goes on into it
    /// otherwise.
    #[verifier::rlimit(40)]
    pub fn on_estimate(&mut self, estimated_bytes: usize) -> (step: WalReplayStep)
        requires
            old(self).wf(),
            old(self).phase is Estimating,
        ensures
            final(self).wf(),
            final(self).estimate_stepped(old(self), estimated_bytes, step),
    {
        proof {
            self.table@.lemma_empty();
        }
        if !self.table.is_empty() && estimated_bytes >= self.options.max_memtable_bytes {
            let held: usize = match &self.current_iter.current_iter {
                Some(wal) => wal.reserved_bytes,
                None => 0,
            };
            self.available_bytes = self.available_bytes + held;
            self.current_iter.reset();
            self.conclude(Vec::new())
        } else {
            self.advance_current_iter()
        }
    }
}

/// The front of a queue of fetches holds its share of the reserved bytes.
proof fn lemma_reserved_front(queue: Seq<PendingWal>)
    requires
        queue.len() > 0,
    ensures
        reserved_total(queue) == queue[0].reserved_bytes + reserved_total(queue.drop_first()),
    decreases queue.len(),
{
    if queue.len() > 1 {
        lemma_reserved_front(queue.drop_last());
        assert(queue.drop_last().drop_first() =~= queue.drop_first().drop_last());
    } else {
        assert(queue.drop_last() =~= Seq::<PendingWal>::empty());
        assert(queue.drop_first() =~= Seq::<PendingWal>::empty());
    }
}

/// The front of a listing tells whether the next ID was listed.
proof fn lemma_front_size(listed: Seq<(u64, u64)>, next: u64, end: u64)
    requires
        listing_valid(listed, next, end),
    ensures
        listed_size(listed, next) == if listed.len() > 0 && listed[0].0 == next {
            Some(listed[0].1)
        } else {
            None
        },
{
    if listed_size(listed, next) is Some {
        let i = choose|i: int| 0 <= i < listed.len() && (#[trigger] listed[i]).0 == next;
        if i > 0 {
            assert(listed[0].0 < listed[i].0);
        }
    }
}

/// Dropping the next ID from the front of a listing leaves the later sizes as they were.
proof fn lemma_listing_rest(listed: Seq<(u64, u64)>, rest: Seq<(u64, u64)>, next: u64, end: u64)
    requires
        listing_valid(listed, next, end),
        next < end,
        rest == if listed.len() > 0 && listed[0].0 == next {
            listed.drop_first()
        } else {
            listed
        },
    ensures
        listing_valid(rest, (next + 1) as u64, end),
        forall|wal_id: u64|
            next < wal_id ==> #[trigger] listed_size(rest, wal_id) == listed_size(listed, wal_id),
{
    if listed.len() > 0 && listed[0].0 == next {
        assert forall|i: int| 0 <= i < rest.len() implies next + 1 <= (#[trigger] rest[i]).0
            < end by {
            assert(rest[i] == listed[i + 1]);
            assert(listed[0].0 < listed[i + 1].0);
        }
        assert forall|i: int, j: int| 0 <= i < j < rest.len() implies (#[trigger] rest[i]).0 < (
        #[trigger] rest[j]).0 by {
            assert(listed[i + 1].0 < listed[j + 1].0);
        }
    } else {
        assert forall|i: int| 0 <= i < rest.len() implies next + 1 <= (#[trigger] rest[i]).0
            < end by {
            if i > 0 {
                assert(listed[0].0 < listed[i].0);
            }
        }
    }
    assert forall|wal_id: u64| next < wal_id implies #[trigger] listed_size(rest, wal_id)
        == listed_size(listed, wal_id) by {
        if listed_size(listed, wal_id) is Some {
            let i = choose|i: int| 0 <= i < listed.len() && (#[trigger] listed[i]).0 == wal_id;
            let shift = listed.len() - rest.len();
            assert(rest[i - shift] == listed[i]);
            let j = choose|j: int| 0 <= j < rest.len() && (#[trigger] rest[j]).0 == wal_id;
            assert(listed[j + shift] == rest[j]);
            if j + shift < i {
                assert(listed[j + shift].0 < listed[i].0);
            } else if i < j + shift {
                assert(listed[i].0 < listed[j + shift].0);
            }
        } else if listed_size(rest, wal_id) is Some {
            let j = choose|j: int| 0 <= j < rest.len() && (#[trigger] rest[j]).0 == wal_id;
            let shift = listed.len() - rest.len();
            assert(listed[j + shift] == rest[j]);
        }
    }
}

} // verus!
