//! What the steps of a reader amount to, in terms of what they start from.
use crate::byte_string::{bytes_contents, lex_lt};
use crate::config::{can_double, DbReaderMode, DbReaderOptions, WalReplayEnd};
use crate::db_reader::DbReaderInner;
use crate::error::SlateDBError;
use crate::manifest::{Checkpoint, Manifest};
use crate::manifest_poller::{listed, selected};
use crate::mem_table::{all_have_segments, rows_after_seq, segment_of, segment_set, segments_of,
    segments_unique, ImmutableMemtable, KVTable};
use crate::reader_generation::ReaderGeneration;
use crate::reader_open::{options_valid, OpenAction, ReaderOpen};
use crate::reader_state::{all_newer, all_older, brings_rows, cannot_retain, follows, greater,
    is_last_seq, kept_positions, lemma_kept_positions, lens_fit, lens_of, replay_range_action, retained,
    retained_tables, ReaderStateBuild, ReplayIntoAction, ReplayIntoPhase, WalReplayInto};
use crate::replay_memtables::{tables_segments, tables_wf};
use crate::time::{TimeSpan, Timestamp};
use crate::types::{row_before, RowMap, RowView};
use crate::wal_replay::ReplayedMemtable;
use bytes::Bytes;
use std::sync::Arc;
use uuid::Uuid;
use vstd::prelude::*;

verus! {

/// Times are counted in nanoseconds, with as many to a second as there are.
pub proof fn law_times_are_counted_in_nanoseconds(span: TimeSpan, time: Timestamp)
    ensures
        span.total_nanos() == span.secs * 1_000_000_000 + span.nanos,
        time.total_nanos() == time.secs * 1_000_000_000 + time.nanos,
        span.wf() <==> span.nanos < 1_000_000_000,
        time.wf() <==> time.nanos < 1_000_000_000,
        can_double(span) <==> 2 * (span.secs * 1_000_000_000 + span.nanos) < (u64::MAX + 1)
            * 1_000_000_000,
{
}

/// Only a reader that manages checkpoints has options that can be invalid, and
/// they are valid where a checkpoint lives for a second and for two polls.
pub proof fn law_valid_options_let_a_checkpoint_live_for_two_polls(
    mode: DbReaderMode,
    options: DbReaderOptions,
)
    ensures
        options_valid(mode, options) <==> (mode == DbReaderMode::ManagedCheckpoint ==> {
            let lifetime = options.checkpoint_lifetime.secs * 1_000_000_000
                + options.checkpoint_lifetime.nanos;
            let interval = options.manifest_poll_interval.secs * 1_000_000_000
                + options.manifest_poll_interval.nanos;
            &&& lifetime >= 1_000_000_000
            &&& 2 * interval < (u64::MAX + 1) * 1_000_000_000
            &&& lifetime >= 2 * interval
        }),
{
}

/// Where replay ends depends on the mode alone once replay is wanted: a pinned
/// reader stops where its manifest does, and every other one goes on to the
/// newest WAL object.
pub proof fn law_only_pinned_readers_stop_at_their_manifest(
    mode: DbReaderMode,
    options: DbReaderOptions,
)
    ensures
        WalReplayEnd::spec_for_reader(mode, options) is None <==> options.skip_wal_replay,
        WalReplayEnd::spec_for_reader(mode, options) matches Some(end) ==> (end
            == WalReplayEnd::Manifest <==> mode is Checkpoint),
{
}

/// The greater of two numbers is one of them and not less than either.
pub proof fn law_greater_is_the_maximum(a: u64, b: u64)
    ensures
        greater(a, b) >= a,
        greater(a, b) >= b,
        greater(a, b) == a || greater(a, b) == b,
{
}

/// Rows are ordered by key, the newest version of a key first.
pub proof fn law_newer_versions_come_first(a: RowView, b: RowView)
    ensures
        lex_lt(a.key, b.key) ==> row_before(a, b),
        a.key == b.key && a.seq > b.seq ==> row_before(a, b),
        row_before(a, b) ==> lex_lt(a.key, b.key) || a.key == b.key && a.seq
            > b.seq,
{
}

/// A table's map holds a row for a key and a sequence number exactly where the
/// table has such a row, and then that row.
pub proof fn law_a_table_is_the_map_of_its_rows(table: &KVTable, id: (Seq<u8>, u64), i: int)
    requires
        table.wf(),
    ensures
        table@.contains_key(id) <==> exists|k: int|
            0 <= k < table.rows().len() && (#[trigger] table.rows()[k]).key == id.0
                && table.rows()[k].seq == id.1,
        0 <= i < table.rows().len() ==> {
            &&& table@.contains_key((table.rows()[i].key, table.rows()[i].seq))
            &&& table@[(table.rows()[i].key, table.rows()[i].seq)] == table.rows()[i]
        },
{
    if table@.contains_key(id) {
        let k = choose|k: int|
            0 <= k < table.rows().len() && (#[trigger] table.rows()[k]).id() == id;
        assert(table.rows()[k].key == id.0);
    }
    if exists|k: int|
        0 <= k < table.rows().len() && (#[trigger] table.rows()[k]).key == id.0
            && table.rows()[k].seq == id.1 {
        let k = choose|k: int|
            0 <= k < table.rows().len() && (#[trigger] table.rows()[k]).key == id.0
                && table.rows()[k].seq == id.1;
        assert(table.rows()[k].id() == id);
        table.lemma_row_in_map(k);
    }
    if 0 <= i < table.rows().len() {
        table.lemma_row_in_map(i);
    }
}

/// Cutting a table down to the rows after a sequence number keeps exactly those
/// rows, as they are.
pub proof fn law_cutting_keeps_exactly_the_later_rows(
    table: RowMap,
    seq: u64,
    id: (Seq<u8>, u64),
)
    ensures
        rows_after_seq(table, seq).contains_key(id) <==> table.contains_key(id) && id.1 > seq,
        rows_after_seq(table, seq).contains_key(id) ==> rows_after_seq(table, seq)[id]
            == table[id],
{
}

/// A row's segment is the front of its key of the given length, which is neither
/// nothing nor longer than the key; otherwise the row has none.
pub proof fn law_a_segment_is_a_part_of_the_key(row: RowView, prefix_len: Option<usize>)
    ensures
        segment_of(row, prefix_len) is Some <==> (prefix_len matches Some(len) && 0 < len
            <= row.key.len()),
        segment_of(row, prefix_len) matches Some(segment) ==> {
            &&& segment.len() == prefix_len->0
            &&& forall|k: int| 0 <= k < segment.len() ==> segment[k] == row.key[k]
        },
{
}

/// The segments of rows are those of the rows that are selected, each of them,
/// and they can be told where each selected row has one.
pub proof fn law_segments_are_those_of_the_selected_rows(
    rows: Seq<RowView>,
    prefix_lens: Seq<Option<usize>>,
    keep: spec_fn(RowView) -> bool,
    segment: Seq<u8>,
)
    requires
        rows.len() == prefix_lens.len(),
    ensures
        segments_of(rows, prefix_lens, keep).contains(segment) <==> exists|i: int|
            0 <= i < rows.len() && keep(rows[i]) && segment_of(#[trigger] rows[i], prefix_lens[i])
                == Some(segment),
        all_have_segments(rows, prefix_lens, keep) <==> !exists|i: int|
            0 <= i < rows.len() && keep(rows[i]) && segment_of(#[trigger] rows[i], prefix_lens[i])
                is None,
{
}

/// A list of segments stands for the byte strings that it holds, and is free of
/// repetition where no two of its places hold the same one.
pub proof fn law_a_list_of_segments_stands_for_its_contents(
    segments: Seq<Bytes>,
    segment: Seq<u8>,
)
    ensures
        segment_set(segments).contains(segment) <==> exists|i: int|
            0 <= i < segments.len() && #[trigger] bytes_contents(segments[i]) == segment,
        segments_unique(segments) <==> forall|i: int, j: int|
            0 <= i < segments.len() && 0 <= j < segments.len() && bytes_contents(
                #[trigger] segments[i],
            ) == bytes_contents(#[trigger] segments[j]) ==> i == j,
{
    if segments_unique(segments) {
        assert forall|i: int, j: int|
            0 <= i < segments.len() && 0 <= j < segments.len() && bytes_contents(
                #[trigger] segments[i],
            ) == bytes_contents(#[trigger] segments[j]) implies i == j by {
            if i < j {
                assert(bytes_contents(segments[i]) != bytes_contents(segments[j]));
            } else if j < i {
                assert(bytes_contents(segments[j]) != bytes_contents(segments[i]));
            }
        }
    }
}

/// The segments that tables touch are those that one of them touches.
pub proof fn law_tables_touch_what_one_of_them_touches(
    tables: Seq<Arc<ImmutableMemtable>>,
    segment: Seq<u8>,
)
    ensures
        tables_segments(tables).contains(segment) <==> exists|i: int|
            0 <= i < tables.len() && (#[trigger] tables[i])@.segments().contains(segment),
{
}

/// The last sequence number of a table is the greatest one of its rows, and zero
/// where it has none.
pub proof fn law_the_last_seq_is_the_greatest(table: &ImmutableMemtable, seq: u64)
    requires
        is_last_seq(table, seq),
    ensures
        forall|i: int| 0 <= i < table@.rows().len() ==> (#[trigger] table@.rows()[i]).seq <= seq,
        seq == 0 || exists|i: int|
            0 <= i < table@.rows().len() && (#[trigger] table@.rows()[i]).seq == seq,
        table@.rows().len() == 0 ==> seq == 0,
        table@.rows().len() > 0 ==> exists|i: int|
            0 <= i < table@.rows().len() && (#[trigger] table@.rows()[i]).seq == seq,
{
}

/// A replay asks for every WAL object after the last replayed one and before the
/// end, and for no other; where there is none, it stays where it is.
pub proof fn law_a_replay_asks_for_every_object_up_to_the_end(
    after: u64,
    last_committed_seq: u64,
    end: Option<u64>,
    max_memtable_bytes: u64,
    wal_id: u64,
)
    requires
        after < u64::MAX,
    ensures
        ({
            let action = replay_range_action(after, last_committed_seq, end, max_memtable_bytes);
            &&& end is None ==> action == ReplayIntoAction::Done(
                Err(SlateDBError::InvalidDBState),
            )
            &&& end matches Some(end) ==> {
                &&& after < wal_id < end ==> action is Replay
                &&& action matches ReplayIntoAction::Replay {
                    range,
                    max_memtable_bytes: target,
                    min_seq,
                } ==> {
                    &&& range.start <= wal_id < range.end <==> after < wal_id < end
                    &&& min_seq == last_committed_seq
                    &&& target == max_memtable_bytes as usize
                }
                &&& action is Replay || action == ReplayIntoAction::Done(
                    Ok((after, last_committed_seq)),
                )
                &&& action is Done ==> !(after < wal_id < end)
            }
        }),
{
}

/// A replayed table is added where it has a row and its last sequence number is
/// past those read so far, and the WAL objects up to its last one are counted.
pub proof fn law_a_replayed_table_counts_what_it_brings(
    replay: WalReplayInto,
    replayed: ReplayedMemtable,
)
    requires
        replayed.last_wal_id >= replay.replay_after_wal_id,
    ensures
        replay.batch_of(replayed).added <==> replayed.table@.rows().len() > 0 && replayed.last_seq
            > replay.last_committed_seq,
        replay.batch_of(replayed).replayed_ssts + replay.replay_after_wal_id
            == replayed.last_wal_id,
        brings_rows(replayed, replay.last_committed_seq) == replay.batch_of(replayed).added,
{
}

/// A table can follow a watermark where it does not go back in the WAL and, if
/// it is added, holds only rows past the watermark.
pub proof fn law_a_table_follows_with_later_rows(
    replayed: ReplayedMemtable,
    after: u64,
    last_committed_seq: u64,
)
    ensures
        follows(replayed, after, last_committed_seq) <==> {
            &&& replayed.table@.wf()
            &&& replayed.last_wal_id >= after
            &&& replayed.table@.rows().len() > 0 && replayed.last_seq > last_committed_seq
                ==> forall|i: int|
                0 <= i < replayed.table@.rows().len() ==> (
                #[trigger] replayed.table@.rows()[i]).seq > last_committed_seq
        },
{
}

/// A rebuild fails on a table only where the table has rows on both sides of the
/// sequence number and a later row has no segment.
pub proof fn law_only_a_later_row_without_a_segment_stops_a_rebuild(
    table: Arc<ImmutableMemtable>,
    seq: u64,
    prefix_lens: Option<Seq<Option<usize>>>,
)
    ensures
        cannot_retain(table, seq, prefix_lens) <==> {
            &&& exists|i: int|
                0 <= i < table@.rows().len() && (#[trigger] table@.rows()[i]).seq <= seq
            &&& prefix_lens is Some && exists|i: int|
                0 <= i < table@.rows().len() && table@.rows()[i].seq > seq && segment_of(
                    #[trigger] table@.rows()[i],
                    prefix_lens->0[i],
                ) is None
        },
{
    let rows = table@.rows();
    if let Some(lens) = prefix_lens {
        if exists|i: int|
            0 <= i < rows.len() && rows[i].seq > seq && segment_of(#[trigger] rows[i], lens[i])
                is None {
            let i = choose|i: int|
                0 <= i < rows.len() && rows[i].seq > seq && segment_of(#[trigger] rows[i], lens[i])
                    is None;
            let keep = |row: RowView| row.seq > seq;
            assert(keep(rows[i]));
            assert(!all_have_segments(rows, lens, keep));
        }
    }
}

/// Prefix lengths fit tables where there is one for each row of each table.
pub proof fn law_prefix_lengths_fit_row_by_row(
    tables: Seq<Arc<ImmutableMemtable>>,
    prefix_lens: Option<&Vec<Vec<Option<usize>>>>,
)
    ensures
        prefix_lens is None ==> lens_fit(tables, prefix_lens),
        prefix_lens matches Some(lens) ==> (lens_fit(tables, prefix_lens) <==> lens@.len()
            == tables.len() && forall|i: int|
            0 <= i < tables.len() ==> (#[trigger] lens@[i])@.len() == tables[i]@.rows().len()),
{
}

/// After a rebuild every table has a row left, and every row that is left is
/// past the sequence number. A table that had no other rows is kept as it was;
/// of one that had, the segments are told anew from the rows left, where they
/// can be told at all.
pub proof fn law_rebuilt_tables_have_rows_and_their_segments(
    tables: Seq<Arc<ImmutableMemtable>>,
    seq: u64,
    prefix_lens: Option<&Vec<Vec<Option<usize>>>>,
    kept: Seq<Arc<ImmutableMemtable>>,
    i: int,
)
    requires
        tables_wf(tables),
        tables_wf(kept),
        retained_tables(tables, seq, prefix_lens, kept),
        0 <= i < kept.len(),
    ensures
        exists|id: (Seq<u8>, u64)| #[trigger] kept[i]@@.contains_key(id) && id.1 > seq,
        ({
            let table = tables[kept_positions(tables, seq)[i]];
            let rows = table@.rows();
            &&& (forall|r: int| 0 <= r < rows.len() ==> (#[trigger] rows[r]).seq > seq)
                ==> kept[i] == table
            &&& (exists|r: int| 0 <= r < rows.len() && (#[trigger] rows[r]).seq <= seq) ==> (
            forall|segment: Seq<u8>| #[trigger]
                kept[i]@.segments().contains(segment) <==> prefix_lens is Some && exists|r: int|
                    0 <= r < rows.len() && rows[r].seq > seq && segment_of(
                        #[trigger] rows[r],
                        prefix_lens->0@[kept_positions(tables, seq)[i]]@[r],
                    ) == Some(segment))
        }),
{
    lemma_kept_positions(tables, seq);
    let p = kept_positions(tables, seq)[i];
    let table = tables[p];
    let rows = table@.rows();
    assert(retained(table, seq, lens_of(prefix_lens, p), kept[i]));
    assert(!all_older(&table, seq));
    let r = choose|r: int| 0 <= r < rows.len() && (#[trigger] rows[r]).seq > seq;
    table@.lemma_row_in_map(r);
    let id = rows[r].id();
    assert(table@@.contains_key(id));
    assert(kept[i]@@.contains_key(id));
    if exists|r: int| 0 <= r < rows.len() && (#[trigger] rows[r]).seq <= seq {
        assert(!all_newer(&table, seq));
        if let Some(lens) = prefix_lens {
            let keep = |row: RowView| row.seq > seq;
            assert(kept[i]@.segments() == segments_of(rows, lens@[p]@, keep));
            assert forall|segment: Seq<u8>| #[trigger]
                kept[i]@.segments().contains(segment) <==> exists|r: int|
                    0 <= r < rows.len() && rows[r].seq > seq && segment_of(
                        #[trigger] rows[r],
                        lens@[p]@[r],
                    ) == Some(segment) by {
                if exists|r: int|
                    0 <= r < rows.len() && rows[r].seq > seq && segment_of(
                        #[trigger] rows[r],
                        lens@[p]@[r],
                    ) == Some(segment) {
                    let r = choose|r: int|
                        0 <= r < rows.len() && rows[r].seq > seq && segment_of(
                            #[trigger] rows[r],
                            lens@[p]@[r],
                        ) == Some(segment);
                    assert(keep(rows[r]));
                }
            }
        }
    }
}

/// The replay of a state begins at the cursor it was given, or else where its
/// newest table ends, or else where its manifest ends; it is over at once where
/// no WAL is read, and otherwise goes as far as it was told to.
pub proof fn law_a_replay_begins_where_reading_was_left(
    build: ReaderStateBuild,
    action: ReplayIntoAction,
    end: Option<WalReplayEnd>,
    cursor: Option<(u64, u64)>,
)
    requires
        build.replay_begun(action, end, cursor),
    ensures
        ({
            let after = build.replay.replay_after_wal_id;
            let seq = build.replay.last_committed_seq;
            let tables = build.replay.into_tables@;
            let core = build.manifest.core;
            &&& end is Some && cursor is Some ==> cursor == Some((after, seq))
            &&& end is None || cursor is None ==> {
                &&& tables.len() > 0 ==> after == tables[0].spec_recent_flushed_wal_id()
                    && is_last_seq(&tables[0], seq)
                &&& tables.len() == 0 ==> after == core.replay_after_wal_id && seq
                    == core.last_l0_seq
            }
            &&& end is None ==> action == ReplayIntoAction::Done(Ok((after, seq)))
            &&& end is Some && after == u64::MAX ==> action == ReplayIntoAction::Done(
                Err(SlateDBError::InvalidDBState),
            )
            &&& end == Some(WalReplayEnd::Latest) && after < u64::MAX ==> action
                == (ReplayIntoAction::LastWalId { after })
            &&& end == Some(WalReplayEnd::Manifest) && after < u64::MAX ==> action
                == replay_range_action(
                after,
                seq,
                Some(core.next_wal_sst_id),
                build.replay.max_memtable_bytes,
            )
            &&& build.replay.phase == match action {
                ReplayIntoAction::LastWalId { .. } => ReplayIntoPhase::AskingEnd,
                ReplayIntoAction::Replay { .. } => ReplayIntoPhase::Replaying,
                _ => ReplayIntoPhase::Over,
            }
        }),
{
}

/// A reader that is opened builds its first state from nothing but the manifest
/// and the checkpoint, and replays the WAL as its mode asks.
pub proof fn law_an_opened_reader_starts_from_its_manifest(
    open: ReaderOpen,
    action: OpenAction,
    checkpoint: Option<Checkpoint>,
    manifest_id: u64,
    manifest: Arc<Manifest>,
)
    requires
        open.builds(action, checkpoint, manifest_id, manifest),
    ensures
        action matches OpenAction::Build(build, replay) && {
            &&& build.checkpoint == checkpoint
            &&& build.manifest_id == manifest_id
            &&& build.manifest == manifest
            &&& build.replay.into_tables@.len() == 0
            &&& build.replay.max_memtable_bytes == open.options.max_memtable_bytes
            &&& build.replay.replay_after_wal_id == manifest.core.replay_after_wal_id
            &&& build.replay.last_committed_seq == manifest.core.last_l0_seq
            &&& build.replay_begun(
                replay,
                WalReplayEnd::spec_for_reader(open.mode, open.options),
                None,
            )
            &&& open.options.skip_wal_replay ==> replay == ReplayIntoAction::Done(
                Ok((manifest.core.replay_after_wal_id, manifest.core.last_l0_seq)),
            )
        },
{
}

/// A read is let in exactly where the reader is open and the generation valid:
/// then one more operation is in flight and nothing else changes. Otherwise
/// nothing changes at all, and the reader's own end comes before a lost lease.
pub proof fn law_reads_are_let_in_while_open_and_valid(
    inner: DbReaderInner,
    before: ReaderGeneration,
    after: ReaderGeneration,
    refused: Option<SlateDBError>,
)
    requires
        before.wf(),
        !before.invalid ==> before.can_count(),
        inner.admits(before, after, refused),
    ensures
        refused is None <==> inner.closed is None && !before.invalid,
        refused is None ==> after.operations == before.operations + 1,
        refused is Some ==> after.operations == before.operations,
        after.manifest_id == before.manifest_id,
        after.checkpoint == before.checkpoint,
        after.manifest == before.manifest,
        after.invalid == before.invalid,
        inner.closed == Some(Ok::<(), SlateDBError>(())) ==> refused == Some(SlateDBError::Closed),
        inner.closed matches Some(Err(error)) ==> refused == Some(error),
        inner.closed is None && before.invalid ==> refused == Some(
            SlateDBError::CheckpointLeaseLost(before.checkpoint->0.id),
        ),
{
}

/// Generations share an identity exactly where they are on the same version of
/// the manifest, on the same manifest, and under the same checkpoint.
pub proof fn law_a_generation_is_its_manifest_and_checkpoint(generation: ReaderGeneration)
    ensures
        generation.identity().manifest_id == generation.manifest_id,
        generation.identity().manifest == generation.manifest,
        generation.checkpoint matches Some(checkpoint) ==> generation.identity().checkpoint_id
            == Some(checkpoint.id),
        generation.checkpoint is None ==> generation.identity().checkpoint_id is None,
        generation.can_count() <==> generation.operations < usize::MAX / 2,
{
}

/// An identifier is in a list exactly where some place of the list holds it.
pub proof fn law_a_list_holds_what_stands_in_it(ids: Seq<Uuid>, id: Uuid)
    ensures
        listed(ids, id) <==> ids.contains(id),
{
    if ids.contains(id) {
        let i = choose|i: int| 0 <= i < ids.len() && ids[i] == id;
        assert(ids[i] == id);
    }
}

/// Selecting from a list goes through it place by place: of one list behind
/// another it takes what it takes of each, and of a single identifier that one
/// or none.
pub proof fn law_selecting_goes_place_by_place(
    first: Seq<Uuid>,
    second: Seq<Uuid>,
    id: Uuid,
    keep: spec_fn(Uuid) -> bool,
)
    ensures
        selected(first + second, keep) == selected(first, keep) + selected(second, keep),
        keep(id) ==> selected(seq![id], keep) == seq![id],
        !keep(id) ==> selected(seq![id], keep).len() == 0,
        selected(Seq::<Uuid>::empty(), keep).len() == 0,
    decreases second.len(),
{
    assert(seq![id].drop_last() =~= Seq::<Uuid>::empty());
    assert(selected(Seq::<Uuid>::empty(), keep) =~= Seq::<Uuid>::empty());
    assert(Seq::<Uuid>::empty().push(id) =~= seq![id]);
    if second.len() == 0 {
        assert(first + second =~= first);
        assert(selected(first, keep) + selected(second, keep) =~= selected(first, keep));
    } else {
        let shorter = second.drop_last();
        law_selecting_goes_place_by_place(first, shorter, id, keep);
        assert((first + second).drop_last() =~= first + shorter);
        assert((first + second).last() == second.last());
        assert(selected(first + second, keep) =~= selected(first, keep) + selected(second, keep));
    }
}

} // verus!
