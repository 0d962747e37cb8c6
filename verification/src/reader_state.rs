//! The state that a reader serves reads from, and how WAL replay moves it on.
use crate::config::WalReplayEnd;
use crate::error::SlateDBError;
use crate::manifest::{Checkpoint, Manifest, ManifestCore, VersionedManifest};
use crate::mem_table::{all_have_segments, rows_after_seq, segments_of, ImmutableMemtable};
use crate::reader_generation::{GenerationRef, ReaderGeneration};
use crate::replay_memtables::{tables_wf, ReplayMemtables};
use crate::types::RowView;
use crate::wal_replay::ReplayedMemtable;
use std::ops::Range;
use std::sync::Arc;
use vstd::prelude::*;

verus! {

/// What reads are served from: a generation, the tables replayed on top of it,
/// and how far the WAL was replayed.
#[derive(Debug)]
pub struct ReaderState {
    pub generation: GenerationRef,
    pub imm_memtable: ReplayMemtables,
    pub last_wal_id: u64,
    pub last_remote_persisted_seq: u64,
}

impl Clone for ReaderState {
    fn clone(&self) -> (copy: Self)
        ensures
            copy == *self,
    {
        ReaderState {
            generation: self.generation.clone(),
            imm_memtable: self.imm_memtable.clone(),
            last_wal_id: self.last_wal_id,
            last_remote_persisted_seq: self.last_remote_persisted_seq,
        }
    }
}

impl ReaderState {
    /// The sequence number up to which everything is applied.
    pub fn applied_seq(&self) -> (seq: u64)
        ensures
            seq == self.last_remote_persisted_seq,
    {
        self.last_remote_persisted_seq
    }

    /// The state of the database that the generation's manifest records.
    pub fn manifest_core(&self) -> (core: &ManifestCore)
        ensures
            *core == self.generation.manifest.core,
    {
        &self.generation.manifest.core
    }

    /// The manifest with its version.
    pub fn versioned_manifest(&self) -> (versioned: VersionedManifest)
        ensures
            versioned == (VersionedManifest {
                id: self.generation.manifest_id,
                manifest: self.generation.manifest,
            }),
    {
        VersionedManifest::from_manifest(self.generation.manifest_id, &self.generation.manifest)
    }
}

/// A table has the sequence number as its greatest one; zero where it has no rows.
pub open spec fn is_last_seq(table: &ImmutableMemtable, seq: u64) -> bool {
    if table@.rows().len() == 0 {
        seq == 0
    } else {
        &&& forall|i: int| 0 <= i < table@.rows().len() ==> (#[trigger] table@.rows()[i]).seq <= seq
        &&& exists|i: int| 0 <= i < table@.rows().len() && (#[trigger] table@.rows()[i]).seq == seq
    }
}

/// The `(last replayed WAL id, last committed seq)` the reader has already
/// reached: the watermark of the most recently replayed table, or the
/// manifest's own boundary when nothing has been replayed into `tables`.
pub fn replayed_watermark(core: &ManifestCore, tables: &ReplayMemtables) -> (watermark: (u64, u64))
    requires
        tables.wf(),
    ensures
        if tables@.len() > 0 {
            &&& watermark.0 == tables@[0].spec_recent_flushed_wal_id()
            &&& is_last_seq(&tables@[0], watermark.1)
        } else {
            watermark == (core.replay_after_wal_id, core.last_l0_seq)
        },
{
    match tables.front() {
        Some(latest) => {
            let last_seq: u64 = match latest.table().last_seq() {
                Some(seq) => seq,
                None => 0,
            };
            (latest.recent_flushed_wal_id(), last_seq)
        },
        None => (core.replay_after_wal_id, core.last_l0_seq),
    }
}

/// What a replay into a list of tables is waiting for.
#[derive(Clone, Copy, PartialEq, Eq, Structural, Debug)]
pub enum ReplayIntoPhase {
    /// The newest WAL ID.
    AskingEnd,
    /// The next replayed table.
    Replaying,
    /// Nothing: the replay is over.
    Over,
}

/// What the caller does next.
#[derive(Debug)]
pub enum ReplayIntoAction {
    /// Ask for the newest WAL ID after this one and report with
    /// [`WalReplayInto::on_last_wal_id`].
    LastWalId { after: u64 },
    /// Begin to replay this range, without the rows up to `min_seq`, and report
    /// each table with [`WalReplayInto::on_table`].
    Replay { range: Range<u64>, max_memtable_bytes: usize, min_seq: u64 },
    /// Publish the progress so far if it is wanted, and report the next table.
    Next(ReplayedBatch),
    /// The replay reached this WAL ID and sequence number, or failed.
    Done(Result<(u64, u64), SlateDBError>),
}

/// What one replayed table amounts to.
#[derive(Clone, Copy, PartialEq, Eq, Structural, Debug)]
pub struct ReplayedBatch {
    /// How many WAL objects the table completed.
    pub replayed_ssts: u64,
    /// Whether the table brings rows after those read so far.
    pub added: bool,
}

/// A replay of new WAL objects into a list of tables.
pub struct WalReplayInto {
    pub into_tables: ReplayMemtables,
    /// The last WAL that was replayed in full.
    pub replay_after_wal_id: u64,
    /// The greatest sequence number that was replayed.
    pub last_committed_seq: u64,
    pub max_memtable_bytes: u64,
    pub phase: ReplayIntoPhase,
}

/// The answer to where the replay ends: nothing to do, a range to replay, or an
/// inconsistency where the IDs cannot go on.
pub open spec fn replay_range_action(
    after: u64,
    last_committed_seq: u64,
    end: Option<u64>,
    max_memtable_bytes: u64,
) -> ReplayIntoAction {
    match end {
        None => ReplayIntoAction::Done(Err(SlateDBError::InvalidDBState)),
        Some(end) => if after + 1 >= end {
            ReplayIntoAction::Done(Ok((after, last_committed_seq)))
        } else {
            ReplayIntoAction::Replay {
                range: Range { start: (after + 1) as u64, end },
                max_memtable_bytes: max_memtable_bytes as usize,
                min_seq: last_committed_seq,
            }
        },
    }
}

/// The replayed table is added to the list: it has rows and they are new.
pub open spec fn brings_rows(replayed: ReplayedMemtable, last_committed_seq: u64) -> bool {
    replayed.table@.rows().len() > 0 && replayed.last_seq > last_committed_seq
}

/// A replayed table that follows on from a watermark: it does not go back in the
/// WAL, and if it is added, all of its rows are newer than the watermark.
pub open spec fn follows(replayed: ReplayedMemtable, after: u64, last_committed_seq: u64) -> bool {
    &&& replayed.table@.wf()
    &&& replayed.last_wal_id >= after
    &&& brings_rows(replayed, last_committed_seq) ==> forall|i: int|
        0 <= i < replayed.table@.rows().len() ==> (#[trigger] replayed.table@.rows()[i]).seq
            > last_committed_seq
}

impl WalReplayInto {
    /// The list of tables is well-formed.
    pub open spec fn wf(&self) -> bool {
        self.into_tables.wf()
    }

    /// Starts a replay from a cursor, or from where the tables end.
    pub fn replay_wal_into(
        core: &ManifestCore,
        into_tables: ReplayMemtables,
        replay_cursor: Option<(u64, u64)>,
        replay_end: WalReplayEnd,
        max_memtable_bytes: u64,
    ) -> (begun: (WalReplayInto, ReplayIntoAction))
        requires
            into_tables.wf(),
        ensures
            begun.0.wf(),
            begun.0.into_tables == into_tables,
            begun.0.max_memtable_bytes == max_memtable_bytes,
            match replay_cursor {
                Some((wal_id, seq)) => begun.0.replay_after_wal_id == wal_id
                    && begun.0.last_committed_seq == seq,
                None => if into_tables@.len() > 0 {
                    &&& begun.0.replay_after_wal_id == into_tables@[0].spec_recent_flushed_wal_id()
                    &&& is_last_seq(&into_tables@[0], begun.0.last_committed_seq)
                } else {
                    &&& begun.0.replay_after_wal_id == core.replay_after_wal_id
                    &&& begun.0.last_committed_seq == core.last_l0_seq
                },
            },
            ({
                let after = begun.0.replay_after_wal_id;
                let seq = begun.0.last_committed_seq;
                if after == u64::MAX {
                    &&& begun.1 == ReplayIntoAction::Done(Err(SlateDBError::InvalidDBState))
                    &&& begun.0.phase is Over
                } else {
                    match replay_end {
                        WalReplayEnd::Manifest => {
                            &&& begun.1 == replay_range_action(
                                after,
                                seq,
                                Some(core.next_wal_sst_id),
                                max_memtable_bytes,
                            )
                            &&& begun.0.phase == if begun.1 is Replay {
                                ReplayIntoPhase::Replaying
                            } else {
                                ReplayIntoPhase::Over
                            }
                        },
                        WalReplayEnd::Latest => {
                            &&& begun.1 == (ReplayIntoAction::LastWalId { after })
                            &&& begun.0.phase is AskingEnd
                        },
                    }
                }
            }),
    {
        let (after, seq): (u64, u64) = match replay_cursor {
            Some(cursor) => cursor,
            None => replayed_watermark(core, &into_tables),
        };
        let mut replay = WalReplayInto {
            into_tables,
            replay_after_wal_id: after,
            last_committed_seq: seq,
            max_memtable_bytes,
            phase: ReplayIntoPhase::Over,
        };
        if after == u64::MAX {
            return (replay, ReplayIntoAction::Done(Err(SlateDBError::InvalidDBState)));
        }
        match replay_end {
            WalReplayEnd::Manifest => {
                let action = replay.replay_up_to(Some(core.next_wal_sst_id));
                (replay, action)
            },
            WalReplayEnd::Latest => {
                replay.phase = ReplayIntoPhase::AskingEnd;
                (replay, ReplayIntoAction::LastWalId { after })
            },
        }
    }

    /// Replays up to an ID, which is left out; `None` stands for one that cannot
    /// be represented.
    fn replay_up_to(&mut self, end: Option<u64>) -> (action: ReplayIntoAction)
        requires
            old(self).replay_after_wal_id < u64::MAX,
        ensures
            action == replay_range_action(
                old(self).replay_after_wal_id,
                old(self).last_committed_seq,
                end,
                old(self).max_memtable_bytes,
            ),
            final(self).phase == if action is Replay {
                ReplayIntoPhase::Replaying
            } else {
                ReplayIntoPhase::Over
            },
            *final(self) == (WalReplayInto { phase: final(self).phase, ..*old(self) }),
    {
        self.phase = ReplayIntoPhase::Over;
        let start: u64 = self.replay_after_wal_id + 1;
        match end {
            None => ReplayIntoAction::Done(Err(SlateDBError::InvalidDBState)),
            Some(end) => {
                if start >= end {
                    ReplayIntoAction::Done(Ok((self.replay_after_wal_id, self.last_committed_seq)))
                } else {
                    self.phase = ReplayIntoPhase::Replaying;
                    ReplayIntoAction::Replay {
                        range: Range { start, end },
                        max_memtable_bytes: self.target_bytes(),
                        min_seq: self.last_committed_seq,
                    }
                }
            },
        }
    }

    /// The target size of a table as a number of bytes in memory.
    #[verifier::truncate]
    fn target_bytes(&self) -> (bytes: usize)
        ensures
            bytes == self.max_memtable_bytes as usize,
    {
        self.max_memtable_bytes as usize
    }

    /// Takes up the newest WAL ID.
    pub fn on_last_wal_id(&mut self, outcome: Result<u64, SlateDBError>) -> (action: ReplayIntoAction)
        requires
            old(self).wf(),
            old(self).phase is AskingEnd,
            old(self).replay_after_wal_id < u64::MAX,
        ensures
            final(self).wf(),
            *final(self) == (WalReplayInto { phase: final(self).phase, ..*old(self) }),
            match outcome {
                Err(error) => {
                    &&& action == ReplayIntoAction::Done(Err(error))
                    &&& final(self).phase is Over
                },
                Ok(last) => {
                    let end = if last == u64::MAX {
                        None
                    } else {
                        Some((last + 1) as u64)
                    };
                    &&& action == replay_range_action(
                        old(self).replay_after_wal_id,
                        old(self).last_committed_seq,
                        end,
                        old(self).max_memtable_bytes,
                    )
                    &&& final(self).phase == if action is Replay {
                        ReplayIntoPhase::Replaying
                    } else {
                        ReplayIntoPhase::Over
                    }
                },
            },
    {
        match outcome {
            Err(error) => {
                self.phase = ReplayIntoPhase::Over;
                ReplayIntoAction::Done(Err(error))
            },
            Ok(last) => self.replay_up_to(last.checked_add(1)),
        }
    }

    /// What a replayed table brings, to be counted before it is taken up.
    pub fn replayed_batch(&self, replayed: &ReplayedMemtable) -> (batch: ReplayedBatch)
        requires
            replayed.last_wal_id >= self.replay_after_wal_id,
        ensures
            batch == self.batch_of(*replayed),
            batch.replayed_ssts == replayed.last_wal_id - self.replay_after_wal_id,
            batch.added <==> replayed.table@.rows().len() > 0 && replayed.last_seq
                > self.last_committed_seq,
    {
        ReplayedBatch {
            replayed_ssts: replayed.last_wal_id - self.replay_after_wal_id,
            added: !replayed.table.is_empty() && replayed.last_seq > self.last_committed_seq,
        }
    }

    /// What a replayed table brings.
    pub open spec fn batch_of(&self, replayed: ReplayedMemtable) -> ReplayedBatch {
        ReplayedBatch {
            replayed_ssts: (replayed.last_wal_id - self.replay_after_wal_id) as u64,
            added: brings_rows(replayed, self.last_committed_seq),
        }
    }

    /// Takes up the next replayed table, or the end of the replay. With a segment
    /// extractor, `prefix_lens` holds the length of the prefix of each row of the
    /// table. A truncated WAL ends the replay like its end does.
    pub fn on_table(
        &mut self,
        outcome: Result<Option<ReplayedMemtable>, SlateDBError>,
        prefix_lens: Option<&Vec<Option<usize>>>,
    ) -> (action: ReplayIntoAction)
        requires
            old(self).wf(),
            old(self).phase is Replaying,
            outcome matches Ok(Some(replayed)) ==> {
                &&& follows(
                    replayed,
                    old(self).replay_after_wal_id,
                    old(self).last_committed_seq,
                )
                &&& prefix_lens matches Some(lens) ==> lens@.len() == replayed.table@.rows().len()
                &&& old(self).into_tables@.len() < usize::MAX
            },
        ensures
            final(self).wf(),
            final(self).max_memtable_bytes == old(self).max_memtable_bytes,
            final(self).replay_after_wal_id >= old(self).replay_after_wal_id,
            final(self).last_committed_seq >= old(self).last_committed_seq,
            match outcome {
                Ok(None) | Err(SlateDBError::WalTruncated(_)) => {
                    &&& action == ReplayIntoAction::Done(
                        Ok((old(self).replay_after_wal_id, old(self).last_committed_seq)),
                    )
                    &&& *final(self) == (WalReplayInto { phase: ReplayIntoPhase::Over, ..*old(self) })
                },
                Err(error) => {
                    &&& action == ReplayIntoAction::Done(Err(error))
                    &&& *final(self) == (WalReplayInto { phase: ReplayIntoPhase::Over, ..*old(self) })
                },
                Ok(Some(replayed)) => {
                    let brings = brings_rows(replayed, old(self).last_committed_seq);
                    let rows = replayed.table@.rows();
                    let lost = brings && prefix_lens is Some && !all_have_segments(
                        rows,
                        prefix_lens->0@,
                        |row: RowView| true,
                    );
                    &&& final(self).replay_after_wal_id == replayed.last_wal_id
                    &&& final(self).last_committed_seq == if brings {
                        replayed.last_seq
                    } else {
                        old(self).last_committed_seq
                    }
                    &&& if lost {
                        &&& action == ReplayIntoAction::Done(Err(SlateDBError::MissingSegmentPrefix))
                        &&& final(self).phase is Over
                        &&& final(self).into_tables == old(self).into_tables
                    } else {
                        &&& action == ReplayIntoAction::Next(old(self).batch_of(replayed))
                        &&& final(self).phase is Replaying
                        &&& if brings {
                            let added = final(self).into_tables@[0];
                            &&& final(self).into_tables@ == seq![added] + old(self).into_tables@
                            &&& added@.rows() == rows
                            &&& added.spec_recent_flushed_wal_id() == replayed.last_wal_id
                            &&& added@.segments() == match prefix_lens {
                                Some(lens) => segments_of(rows, lens@, |row: RowView| true),
                                None => replayed.table@.segments(),
                            }
                        } else {
                            final(self).into_tables == old(self).into_tables
                        }
                    }
                },
            },
    {
        let replayed = match outcome {
            Ok(Some(replayed)) => replayed,
            Ok(None) => {
                self.phase = ReplayIntoPhase::Over;
                return ReplayIntoAction::Done(
                    Ok((self.replay_after_wal_id, self.last_committed_seq)),
                );
            },
            Err(error) => {
                self.phase = ReplayIntoPhase::Over;
                if matches!(error, SlateDBError::WalTruncated(_)) {
                    return ReplayIntoAction::Done(
                        Ok((self.replay_after_wal_id, self.last_committed_seq)),
                    );
                }
                return ReplayIntoAction::Done(Err(error));
            },
        };
        let batch = self.replayed_batch(&replayed);
        self.replay_after_wal_id = replayed.last_wal_id;
        if batch.added {
            self.last_committed_seq = replayed.last_seq;
            let mut table = replayed.table;
            if let Some(lens) = prefix_lens {
                if let Err(error) = table.record_replayed_touched_segments(lens) {
                    self.phase = ReplayIntoPhase::Over;
                    return ReplayIntoAction::Done(Err(error));
                }
            }
            let imm_memtable = ImmutableMemtable::new(table, replayed.last_wal_id);
            let ghost before = self.into_tables@;
            self.into_tables.prepend(Arc::new(imm_memtable));
            assert(self.into_tables@ =~= seq![self.into_tables@[0]] + before);
        }
        ReplayIntoAction::Next(batch)
    }
}

/// All rows of the table are at most `seq`.
pub open spec fn all_older(table: &ImmutableMemtable, seq: u64) -> bool {
    forall|i: int| 0 <= i < table@.rows().len() ==> (#[trigger] table@.rows()[i]).seq <= seq
}

/// All rows of the table are above `seq`.
pub open spec fn all_newer(table: &ImmutableMemtable, seq: u64) -> bool {
    forall|i: int| 0 <= i < table@.rows().len() ==> (#[trigger] table@.rows()[i]).seq > seq
}

/// What becomes of a table that has rows above `seq`: a table with no other rows
/// is kept as it is, and otherwise its newer rows are kept. The rows' segments
/// are derived again where there are prefix lengths.
pub open spec fn retained(
    table: Arc<ImmutableMemtable>,
    seq: u64,
    prefix_lens: Option<Seq<Option<usize>>>,
    kept: Arc<ImmutableMemtable>,
) -> bool {
    if all_newer(&table, seq) {
        kept == table
    } else {
        &&& kept@.wf()
        &&& kept@@ == rows_after_seq(table@@, seq)
        &&& kept.spec_recent_flushed_wal_id() == table.spec_recent_flushed_wal_id()
        &&& kept@.segments() == match prefix_lens {
            Some(lens) => segments_of(table@.rows(), lens, |row: RowView| row.seq > seq),
            None => Set::empty(),
        }
    }
}

/// A table cannot be cut down: a row to keep has no segment.
pub open spec fn cannot_retain(
    table: Arc<ImmutableMemtable>,
    seq: u64,
    prefix_lens: Option<Seq<Option<usize>>>,
) -> bool {
    &&& !all_older(&table, seq)
    &&& !all_newer(&table, seq)
    &&& prefix_lens matches Some(lens) && !all_have_segments(
        table@.rows(),
        lens,
        |row: RowView| row.seq > seq,
    )
}

/// The prefix lengths of one of the tables.
pub open spec fn lens_of(prefix_lens: Option<&Vec<Vec<Option<usize>>>>, i: int) -> Option<
    Seq<Option<usize>>,
> {
    match prefix_lens {
        Some(lens) => Some(lens@[i]@),
        None => None,
    }
}

/// The positions of the tables that have rows above `seq`, in order.
pub open spec fn kept_positions(tables: Seq<Arc<ImmutableMemtable>>, seq: u64) -> Seq<int>
    decreases tables.len(),
{
    if tables.len() == 0 {
        Seq::empty()
    } else {
        let before = kept_positions(tables.drop_last(), seq);
        if all_older(&tables.last(), seq) {
            before
        } else {
            before.push(tables.len() - 1)
        }
    }
}

/// The list cut down to rows above `seq`: the tables that have such rows, in the
/// same order, each without its other rows.
pub open spec fn retained_tables(
    tables: Seq<Arc<ImmutableMemtable>>,
    seq: u64,
    prefix_lens: Option<&Vec<Vec<Option<usize>>>>,
    kept: Seq<Arc<ImmutableMemtable>>,
) -> bool {
    let positions = kept_positions(tables, seq);
    &&& kept.len() == positions.len()
    &&& forall|i: int|
        0 <= i < kept.len() ==> retained(
            tables[positions[i]],
            seq,
            lens_of(prefix_lens, positions[i]),
            #[trigger] kept[i],
        )
}

/// There are prefix lengths for each row of each table.
pub open spec fn lens_fit(
    tables: Seq<Arc<ImmutableMemtable>>,
    prefix_lens: Option<&Vec<Vec<Option<usize>>>>,
) -> bool {
    prefix_lens matches Some(lens) ==> {
        &&& lens@.len() == tables.len()
        &&& forall|i: int|
            0 <= i < tables.len() ==> (#[trigger] lens@[i])@.len() == tables[i]@.rows().len()
    }
}

/// The kept positions are in range.
pub proof fn lemma_kept_positions(tables: Seq<Arc<ImmutableMemtable>>, seq: u64)
    ensures
        forall|i: int|
            0 <= i < kept_positions(tables, seq).len() ==> 0 <= #[trigger] kept_positions(
                tables,
                seq,
            )[i] < tables.len(),
        forall|i: int|
            0 <= i < kept_positions(tables, seq).len() ==> !all_older(
                &tables[#[trigger] kept_positions(tables, seq)[i]],
                seq,
            ),
        forall|p: int|
            0 <= p < tables.len() && !all_older(&#[trigger] tables[p], seq) ==> kept_positions(
                tables,
                seq,
            ).contains(p),
        forall|i: int, j: int|
            0 <= i < j < kept_positions(tables, seq).len() ==> #[trigger] kept_positions(
                tables,
                seq,
            )[i] < #[trigger] kept_positions(tables, seq)[j],
    decreases tables.len(),
{
    if tables.len() > 0 {
        let shorter = tables.drop_last();
        let before = kept_positions(shorter, seq);
        let positions = kept_positions(tables, seq);
        lemma_kept_positions(shorter, seq);
        assert forall|i: int| 0 <= i < positions.len() implies !all_older(
            &tables[#[trigger] positions[i]],
            seq,
        ) && 0 <= positions[i] < tables.len() by {
            if i < before.len() {
                assert(before[i] == positions[i]);
                assert(shorter[before[i]] == tables[positions[i]]);
            }
        }
        assert forall|p: int|
            0 <= p < tables.len() && !all_older(
                &#[trigger] tables[p],
                seq,
            ) implies positions.contains(p) by {
            if p < shorter.len() {
                assert(shorter[p] == tables[p]);
                assert(before.contains(p));
                let k = choose|k: int| 0 <= k < before.len() && before[k] == p;
                assert(positions[k] == p);
            } else {
                assert(positions[positions.len() - 1] == p);
            }
        }
        assert forall|i: int, j: int| 0 <= i < j < positions.len() implies #[trigger] positions[i]
            < #[trigger] positions[j] by {
            assert(before[i] == positions[i]);
            if j < before.len() {
                assert(before[j] == positions[j]);
            }
        }
    }
}

/// Cuts a list of tables down to the rows above `seq`. With a segment extractor,
/// `prefix_lens` holds the length of each row's prefix, table by table.
pub fn retain_after_seq(
    tables: &ReplayMemtables,
    seq: u64,
    prefix_lens: Option<&Vec<Vec<Option<usize>>>>,
) -> (result: Result<ReplayMemtables, SlateDBError>)
    requires
        tables.wf(),
        lens_fit(tables@, prefix_lens),
    ensures
        match result {
            Ok(kept) => {
                &&& kept.wf()
                &&& retained_tables(tables@, seq, prefix_lens, kept@)
                &&& forall|i: int|
                    0 <= i < tables@.len() ==> !cannot_retain(
                        #[trigger] tables@[i],
                        seq,
                        lens_of(prefix_lens, i),
                    )
            },
            Err(error) => {
                &&& error == SlateDBError::MissingSegmentPrefix
                &&& exists|i: int|
                    0 <= i < tables@.len() && cannot_retain(
                        #[trigger] tables@[i],
                        seq,
                        lens_of(prefix_lens, i),
                    )
            },
        },
{
    let ghost all = tables@;
    let mut kept: Vec<Arc<ImmutableMemtable>> = Vec::new();
    let mut iter = tables.iter();
    let mut done: usize = 0;
    assert(all.skip(0) =~= all);
    assert(all.take(0) =~= Seq::<Arc<ImmutableMemtable>>::empty());
    loop
        invariant
            all == tables@,
            tables.wf(),
            lens_fit(all, prefix_lens),
            done <= all.len(),
            iter@ == all.skip(done as int),
            tables_wf(kept@),
            retained_tables(all.take(done as int), seq, prefix_lens, kept@),
            forall|i: int|
                0 <= i < done ==> !cannot_retain(
                    #[trigger] all[i],
                    seq,
                    lens_of(prefix_lens, i),
                ),
        ensures
            done == all.len(),
        decreases all.len() - done,
    {
        let next = iter.next();
        match next {
            None => {
                break;
            },
            Some(table) => {
                let ghost shorter = all.take(done as int);
                let ghost longer = all.take(done + 1);
                let ghost before = kept@;
                let ghost positions = kept_positions(longer, seq);
                proof {
                    assert(table == all[done as int]);
                    assert(table@.wf());
                    assert(longer.drop_last() =~= shorter);
                    assert(longer.last() == table);
                    lemma_kept_positions(shorter, seq);
                    lemma_kept_positions(longer, seq);
                    assert(all.skip(done as int).drop_first() =~= all.skip(done + 1));
                }
                let bounds: Option<(u64, u64)> = match (
                    table.table().first_seq(),
                    table.table().last_seq(),
                ) {
                    (Some(first), Some(last)) => Some((first, last)),
                    _ => None,
                };
                let is_older: bool = match bounds {
                    Some((_, last)) => last <= seq,
                    None => true,
                };
                let is_newer: bool = match bounds {
                    Some((first, _)) => first > seq,
                    None => true,
                };
                assert(is_older == all_older(&table, seq));
                assert(is_newer == all_newer(&table, seq));
                if is_older {
                    // Skip since the entire table is older than L0+.
                    assert(retained_tables(longer, seq, prefix_lens, kept@)) by {
                        lemma_retained_prefix(all, done as int, seq, prefix_lens, kept@);
                    }
                } else {
                    // A table with rows on both sides spans several WAL files.
                    let retained_table: Arc<ImmutableMemtable> = if is_newer {
                        table
                    } else {
                        let lens: Option<&Vec<Option<usize>>> = match prefix_lens {
                            Some(lens) => Some(&lens[done]),
                            None => None,
                        };
                        match table.filter_after_seq(seq, lens) {
                            Ok(filtered) => Arc::new(filtered),
                            Err(error) => {
                                assert(cannot_retain(
                                    all[done as int],
                                    seq,
                                    lens_of(prefix_lens, done as int),
                                ));
                                return Err(error);
                            },
                        }
                    };
                    kept.push(retained_table);
                    proof {
                        lemma_retained_prefix(all, done as int, seq, prefix_lens, before);
                        assert(positions[before.len() as int] == done);
                        assert(longer[done as int] == table);
                        assert(retained_tables(longer, seq, prefix_lens, kept@)) by {
                            assert forall|i: int| 0 <= i < kept@.len() implies retained(
                                longer[positions[i]],
                                seq,
                                lens_of(prefix_lens, positions[i]),
                                #[trigger] kept@[i],
                            ) by {
                                if i < before.len() {
                                    assert(kept@[i] == before[i]);
                                    let p = kept_positions(shorter, seq)[i];
                                    assert(positions[i] == p);
                                    assert(shorter[p] == longer[p]);
                                }
                            }
                        }
                    }
                }
                done = done + 1;
            },
        }
    }
    assert(all.take(all.len() as int) =~= all);
    Ok(ReplayMemtables::from_tables(kept))
}

/// A further table that is not kept changes nothing.
proof fn lemma_retained_prefix(
    all: Seq<Arc<ImmutableMemtable>>,
    done: int,
    seq: u64,
    prefix_lens: Option<&Vec<Vec<Option<usize>>>>,
    kept: Seq<Arc<ImmutableMemtable>>,
)
    requires
        0 <= done < all.len(),
        retained_tables(all.take(done), seq, prefix_lens, kept),
    ensures
        all_older(&all[done], seq) ==> retained_tables(
            all.take(done + 1),
            seq,
            prefix_lens,
            kept,
        ),
        !all_older(&all[done], seq) ==> kept_positions(all.take(done + 1), seq)
            == kept_positions(all.take(done), seq).push(done),
{
    let shorter = all.take(done);
    let longer = all.take(done + 1);
    assert(longer.drop_last() =~= shorter);
    assert(longer.last() == all[done]);
    lemma_kept_positions(shorter, seq);
    if all_older(&all[done], seq) {
        let positions = kept_positions(shorter, seq);
        assert forall|i: int| 0 <= i < kept.len() implies retained(
            longer[positions[i]],
            seq,
            lens_of(prefix_lens, positions[i]),
            #[trigger] kept[i],
        ) by {
            assert(shorter[positions[i]] == longer[positions[i]]);
        }
    }
}

/// The greater of two numbers.
pub open spec fn greater(a: u64, b: u64) -> u64 {
    if a >= b {
        a
    } else {
        b
    }
}

/// The greater of two numbers.
pub fn max_u64(a: u64, b: u64) -> (max: u64)
    ensures
        max == greater(a, b),
        max >= a && max >= b,
        max == a || max == b,
{
    if a >= b {
        a
    } else {
        b
    }
}

/// What a state is rebuilt from under another manifest.
pub struct RebuildPlan {
    /// The replayed tables that are still needed.
    pub imm_memtable: ReplayMemtables,
    /// Where WAL replay goes on.
    pub replay_cursor: (u64, u64),
}

impl ReaderState {
    /// What a state under another manifest is rebuilt from: the replayed rows that
    /// the manifest's tables do not hold yet, and the furthest point in the WAL
    /// that this state or the manifest has reached.
    pub fn rebuild_state(
        &self,
        manifest: &Manifest,
        prefix_lens: Option<&Vec<Vec<Option<usize>>>>,
    ) -> (result: Result<RebuildPlan, SlateDBError>)
        requires
            self.imm_memtable.wf(),
            lens_fit(self.imm_memtable@, prefix_lens),
        ensures
            match result {
                Ok(plan) => {
                    &&& plan.imm_memtable.wf()
                    &&& retained_tables(
                        self.imm_memtable@,
                        manifest.core.last_l0_seq,
                        prefix_lens,
                        plan.imm_memtable@,
                    )
                    &&& plan.replay_cursor == (
                        greater(self.last_wal_id, manifest.core.replay_after_wal_id),
                        greater(self.last_remote_persisted_seq, manifest.core.last_l0_seq),
                    )
                    &&& forall|i: int|
                        0 <= i < self.imm_memtable@.len() ==> !cannot_retain(
                            #[trigger] self.imm_memtable@[i],
                            manifest.core.last_l0_seq,
                            lens_of(prefix_lens, i),
                        )
                },
                Err(error) => {
                    &&& error == SlateDBError::MissingSegmentPrefix
                    &&& exists|i: int|
                        0 <= i < self.imm_memtable@.len() && cannot_retain(
                            #[trigger] self.imm_memtable@[i],
                            manifest.core.last_l0_seq,
                            lens_of(prefix_lens, i),
                        )
                },
            },
    {
        let replay_cursor: (u64, u64) = (
            max_u64(self.last_wal_id, manifest.core.replay_after_wal_id),
            max_u64(self.last_remote_persisted_seq, manifest.core.last_l0_seq),
        );
        match retain_after_seq(&self.imm_memtable, manifest.core.last_l0_seq, prefix_lens) {
            Ok(imm_memtable) => Ok(RebuildPlan { imm_memtable, replay_cursor }),
            Err(error) => Err(error),
        }
    }
}

/// A state under construction: WAL replay fills in its tables.
pub struct ReaderStateBuild {
    pub checkpoint: Option<Checkpoint>,
    pub manifest_id: u64,
    pub manifest: Arc<Manifest>,
    pub replay: WalReplayInto,
}

impl ReaderStateBuild {
    /// The replay is well-formed.
    pub open spec fn wf(&self) -> bool {
        self.replay.wf()
    }

    /// The replay of a state that was just begun: it starts at the cursor, or
    /// else where the tables end, and goes as far as it was told to.
    pub open spec fn replay_begun(
        &self,
        action: ReplayIntoAction,
        replay_wals: Option<WalReplayEnd>,
        replay_cursor: Option<(u64, u64)>,
    ) -> bool {
        let tables = self.replay.into_tables@;
        let core = self.manifest.core;
        let after = self.replay.replay_after_wal_id;
        let seq = self.replay.last_committed_seq;
        let phase = self.replay.phase;
        &&& match (replay_wals, replay_cursor) {
            (Some(_), Some(cursor)) => (after, seq) == cursor,
            _ => if tables.len() > 0 {
                &&& after == tables[0].spec_recent_flushed_wal_id()
                &&& is_last_seq(&tables[0], seq)
            } else {
                (after, seq) == (core.replay_after_wal_id, core.last_l0_seq)
            },
        }
        &&& match replay_wals {
            None => phase is Over && action == ReplayIntoAction::Done(Ok((after, seq))),
            Some(_) if after == u64::MAX => phase is Over && action == ReplayIntoAction::Done(
                Err(SlateDBError::InvalidDBState),
            ),
            Some(WalReplayEnd::Manifest) => {
                &&& action == replay_range_action(
                    after,
                    seq,
                    Some(core.next_wal_sst_id),
                    self.replay.max_memtable_bytes,
                )
                &&& phase == if action is Replay {
                    ReplayIntoPhase::Replaying
                } else {
                    ReplayIntoPhase::Over
                }
            },
            Some(WalReplayEnd::Latest) => phase is AskingEnd && action == (
            ReplayIntoAction::LastWalId { after }),
        }
    }

    /// Builds a state on a manifest. Without an end there is no replay: reading
    /// no WAL at all, the reader stays at the watermark it has already reached.
    pub fn build_reader_state(
        checkpoint: Option<Checkpoint>,
        manifest_id: u64,
        manifest: Arc<Manifest>,
        imm_memtable: ReplayMemtables,
        replay_wals: Option<WalReplayEnd>,
        replay_cursor: Option<(u64, u64)>,
        max_memtable_bytes: u64,
    ) -> (begun: (ReaderStateBuild, ReplayIntoAction))
        requires
            imm_memtable.wf(),
        ensures
            begun.0.wf(),
            begun.0.checkpoint == checkpoint,
            begun.0.manifest_id == manifest_id,
            begun.0.manifest == manifest,
            begun.0.replay.into_tables == imm_memtable,
            begun.0.replay.max_memtable_bytes == max_memtable_bytes,
            begun.0.replay_begun(begun.1, replay_wals, replay_cursor),
    {
        match replay_wals {
            Some(replay_end) => {
                let (replay, action) = WalReplayInto::replay_wal_into(
                    &manifest.core,
                    imm_memtable,
                    replay_cursor,
                    replay_end,
                    max_memtable_bytes,
                );
                (ReaderStateBuild { checkpoint, manifest_id, manifest, replay }, action)
            },
            None => {
                let (after, seq): (u64, u64) = replayed_watermark(&manifest.core, &imm_memtable);
                let replay = WalReplayInto {
                    into_tables: imm_memtable,
                    replay_after_wal_id: after,
                    last_committed_seq: seq,
                    max_memtable_bytes,
                    phase: ReplayIntoPhase::Over,
                };
                (
                    ReaderStateBuild { checkpoint, manifest_id, manifest, replay },
                    ReplayIntoAction::Done(Ok((after, seq))),
                )
            },
        }
    }

    /// The state, once the replay is over, with its new generation.
    pub fn finish(self) -> (built: (ReaderState, ReaderGeneration))
        requires
            self.wf(),
            self.replay.phase is Over,
        ensures
            built.0.imm_memtable.wf(),
            built.1.wf(),
            built.1 == (ReaderGeneration {
                manifest_id: self.manifest_id,
                checkpoint: self.checkpoint,
                manifest: self.manifest,
                invalid: false,
                operations: 0,
            }),
            built.0 == (ReaderState {
                generation: built.1.identity(),
                imm_memtable: self.replay.into_tables,
                last_wal_id: self.replay.replay_after_wal_id,
                last_remote_persisted_seq: self.replay.last_committed_seq,
            }),
    {
        let generation = ReaderGeneration::new(self.manifest_id, self.checkpoint, self.manifest);
        let state = ReaderState {
            generation: generation.reference(),
            imm_memtable: self.replay.into_tables,
            last_wal_id: self.replay.replay_after_wal_id,
            last_remote_persisted_seq: self.replay.last_committed_seq,
        };
        (state, generation)
    }
}

} // verus!
