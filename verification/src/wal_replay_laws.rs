//! What holds of a whole WAL replay.
use crate::types::{RowMap, RowView};
use crate::wal_blocks::{replayed_map, replayed_seq, replayed_tick};
use crate::wal_replay::{batch_map, batch_seq, batch_tick, reserved_total, ReplayPhase, ReplayedWal,
    WalReplayIterator};
use vstd::prelude::*;

verus! {

/// Replaying rows after other rows is replaying all of them in order.
pub proof fn law_replay_is_sequential(
    table: RowMap,
    first: Seq<RowView>,
    second: Seq<RowView>,
    min_seq: u64,
)
    ensures
        replayed_map(table, first + second, min_seq) == replayed_map(
            replayed_map(table, first, min_seq),
            second,
            min_seq,
        ),
    decreases second.len(),
{
    if second.len() == 0 {
        assert(first + second =~= first);
    } else {
        assert((first + second).drop_last() =~= first + second.drop_last());
        assert((first + second).last() == second.last());
        law_replay_is_sequential(table, first, second.drop_last(), min_seq);
    }
}

/// Rows replayed into a table overwrite exactly what they overwrite on their own.
proof fn lemma_replay_over(table: RowMap, rows: Seq<RowView>, min_seq: u64)
    ensures
        replayed_map(table, rows, min_seq) == table.union_prefer_right(
            replayed_map(RowMap::empty(), rows, min_seq),
        ),
    decreases rows.len(),
{
    if rows.len() == 0 {
        assert(table.union_prefer_right(RowMap::empty()) =~= table);
    } else {
        lemma_replay_over(table, rows.drop_last(), min_seq);
        assert(replayed_map(table, rows, min_seq) =~= table.union_prefer_right(
            replayed_map(RowMap::empty(), rows, min_seq),
        ));
    }
}

/// Where a replay is split into tables makes no difference: the tables of two
/// successive runs of objects, the later over the earlier, hold what one table
/// of all the objects holds.
pub proof fn law_splitting_loses_nothing(
    first: Seq<ReplayedWal>,
    second: Seq<ReplayedWal>,
    min_seq: u64,
)
    ensures
        batch_map(first + second, min_seq) == batch_map(first, min_seq).union_prefer_right(
            batch_map(second, min_seq),
        ),
    decreases second.len(),
{
    let left = batch_map(first, min_seq);
    if second.len() == 0 {
        assert(first + second =~= first);
        assert(left.union_prefer_right(RowMap::empty()) =~= left);
    } else {
        let shorter = second.drop_last();
        let rows = second.last().rows;
        assert((first + second).drop_last() =~= first + shorter);
        assert((first + second).last() == second.last());
        law_splitting_loses_nothing(first, shorter, min_seq);
        let alone = replayed_map(RowMap::empty(), rows, min_seq);
        lemma_replay_over(batch_map(first + shorter, min_seq), rows, min_seq);
        lemma_replay_over(batch_map(shorter, min_seq), rows, min_seq);
        assert(left.union_prefer_right(batch_map(shorter, min_seq)).union_prefer_right(alone)
            =~= left.union_prefer_right(batch_map(shorter, min_seq).union_prefer_right(alone)));
    }
}

/// A replayed row was read from one of the objects and is newer than the
/// minimum sequence number.
pub proof fn law_replayed_rows_come_from_the_wal(
    wals: Seq<ReplayedWal>,
    min_seq: u64,
    id: (Seq<u8>, u64),
)
    requires
        batch_map(wals, min_seq).contains_key(id),
    ensures
        id.1 > min_seq,
        batch_map(wals, min_seq)[id].id() == id,
        exists|i: int, j: int|
            0 <= i < wals.len() && 0 <= j < wals[i].rows.len() && #[trigger] wals[i].rows[j]
                == batch_map(wals, min_seq)[id],
    decreases wals.len(),
{
    if wals.len() > 0 {
        let before = batch_map(wals.drop_last(), min_seq);
        let rows = wals.last().rows;
        let row = batch_map(wals, min_seq)[id];
        lemma_row_source(before, rows, min_seq, id);
        if exists|j: int| 0 <= j < rows.len() && #[trigger] rows[j] == row && row.seq > min_seq
            && row.id() == id {
            let j = choose|j: int|
                0 <= j < rows.len() && #[trigger] rows[j] == row && row.seq > min_seq && row.id()
                    == id;
            assert(wals[wals.len() - 1].rows[j] == row);
        } else {
            law_replayed_rows_come_from_the_wal(wals.drop_last(), min_seq, id);
            let (i, j) = choose|i: int, j: int|
                0 <= i < wals.drop_last().len() && 0 <= j < wals.drop_last()[i].rows.len()
                    && #[trigger] wals.drop_last()[i].rows[j] == row;
            assert(wals[i].rows[j] == row);
        }
    }
}

proof fn lemma_row_source(table: RowMap, rows: Seq<RowView>, min_seq: u64, id: (Seq<u8>, u64))
    requires
        replayed_map(table, rows, min_seq).contains_key(id),
    ensures
        ({
            let row = replayed_map(table, rows, min_seq)[id];
            ||| table.contains_key(id) && table[id] == row
            ||| exists|j: int|
                0 <= j < rows.len() && #[trigger] rows[j] == row && row.seq > min_seq && row.id()
                    == id
        }),
    decreases rows.len(),
{
    if rows.len() > 0 {
        let last = rows.last();
        if last.seq > min_seq && last.id() == id {
            assert(rows[rows.len() - 1] == last);
        } else {
            let row = replayed_map(table, rows, min_seq)[id];
            lemma_row_source(table, rows.drop_last(), min_seq, id);
            if !(table.contains_key(id) && table[id] == row) {
                let j = choose|j: int|
                    0 <= j < rows.drop_last().len() && #[trigger] rows.drop_last()[j] == row
                        && row.seq > min_seq && row.id() == id;
                assert(rows[j] == row);
            }
        }
    }
}

/// Every row of the objects that is newer than the minimum sequence number is
/// in the table.
pub proof fn law_newer_rows_are_replayed(
    wals: Seq<ReplayedWal>,
    min_seq: u64,
    i: int,
    j: int,
)
    requires
        0 <= i < wals.len(),
        0 <= j < wals[i].rows.len(),
        wals[i].rows[j].seq > min_seq,
    ensures
        batch_map(wals, min_seq).contains_key(wals[i].rows[j].id()),
    decreases wals.len(),
{
    let before = batch_map(wals.drop_last(), min_seq);
    if i == wals.len() - 1 {
        lemma_row_replayed(before, wals.last().rows, min_seq, j);
    } else {
        law_newer_rows_are_replayed(wals.drop_last(), min_seq, i, j);
        lemma_replay_over(before, wals.last().rows, min_seq);
    }
}

proof fn lemma_row_replayed(table: RowMap, rows: Seq<RowView>, min_seq: u64, j: int)
    requires
        0 <= j < rows.len(),
        rows[j].seq > min_seq,
    ensures
        replayed_map(table, rows, min_seq).contains_key(rows[j].id()),
    decreases rows.len(),
{
    if j < rows.len() - 1 {
        lemma_row_replayed(table, rows.drop_last(), min_seq, j);
    }
}

/// The sequence number after a run of objects is the greatest of the one before
/// and of all replayed rows.
pub proof fn law_last_seq_is_the_greatest(seq: u64, wals: Seq<ReplayedWal>, min_seq: u64)
    ensures
        seq <= batch_seq(seq, wals, min_seq),
        forall|i: int, j: int|
            0 <= i < wals.len() && 0 <= j < wals[i].rows.len() && wals[i].rows[j].seq > min_seq
                ==> (#[trigger] wals[i].rows[j]).seq <= batch_seq(seq, wals, min_seq),
        batch_seq(seq, wals, min_seq) == seq || exists|i: int, j: int|
            0 <= i < wals.len() && 0 <= j < wals[i].rows.len() && (#[trigger] wals[i].rows[j]).seq
                > min_seq && wals[i].rows[j].seq == batch_seq(seq, wals, min_seq),
    decreases wals.len(),
{
    if wals.len() > 0 {
        let shorter = wals.drop_last();
        let before = batch_seq(seq, shorter, min_seq);
        let rows = wals.last().rows;
        let greatest = batch_seq(seq, wals, min_seq);
        law_last_seq_is_the_greatest(seq, shorter, min_seq);
        lemma_greatest_seq(before, rows, min_seq);
        assert forall|i: int, j: int|
            0 <= i < wals.len() && 0 <= j < wals[i].rows.len() && wals[i].rows[j].seq
                > min_seq implies (#[trigger] wals[i].rows[j]).seq <= greatest by {
            if i < wals.len() - 1 {
                assert(shorter[i].rows[j] == wals[i].rows[j]);
            } else {
                assert(rows[j] == wals[i].rows[j]);
            }
        }
        if greatest == before {
            if before != seq {
                let (i, j) = choose|i: int, j: int|
                    0 <= i < shorter.len() && 0 <= j < shorter[i].rows.len() && (
                    #[trigger] shorter[i].rows[j]).seq > min_seq && shorter[i].rows[j].seq
                        == before;
                assert(wals[i].rows[j].seq == greatest);
            }
        } else {
            let j = choose|j: int|
                0 <= j < rows.len() && (#[trigger] rows[j]).seq > min_seq && rows[j].seq
                    == greatest;
            assert(wals[wals.len() - 1].rows[j].seq == greatest);
        }
    }
}

proof fn lemma_greatest_seq(seq: u64, rows: Seq<RowView>, min_seq: u64)
    ensures
        seq <= replayed_seq(seq, rows, min_seq),
        forall|j: int|
            0 <= j < rows.len() && rows[j].seq > min_seq ==> (#[trigger] rows[j]).seq
                <= replayed_seq(seq, rows, min_seq),
        replayed_seq(seq, rows, min_seq) == seq || exists|j: int|
            0 <= j < rows.len() && (#[trigger] rows[j]).seq > min_seq && rows[j].seq
                == replayed_seq(seq, rows, min_seq),
    decreases rows.len(),
{
    if rows.len() > 0 {
        let shorter = rows.drop_last();
        let before = replayed_seq(seq, shorter, min_seq);
        let greatest = replayed_seq(seq, rows, min_seq);
        lemma_greatest_seq(seq, shorter, min_seq);
        assert forall|j: int| 0 <= j < rows.len() && rows[j].seq > min_seq implies (
        #[trigger] rows[j]).seq <= greatest by {
            if j < rows.len() - 1 {
                assert(shorter[j] == rows[j]);
            }
        }
        if greatest == before {
            if before != seq {
                let j = choose|j: int|
                    0 <= j < shorter.len() && (#[trigger] shorter[j]).seq > min_seq
                        && shorter[j].seq == before;
                assert(rows[j].seq == greatest);
            }
        } else {
            assert(rows[rows.len() - 1].seq == greatest);
        }
    }
}

/// The tick after a run of objects is the greatest of the one before and of the
/// creation times of all replayed rows.
pub proof fn law_last_tick_is_the_greatest(tick: i64, wals: Seq<ReplayedWal>, min_seq: u64)
    ensures
        tick <= batch_tick(tick, wals, min_seq),
        forall|i: int, j: int|
            0 <= i < wals.len() && 0 <= j < wals[i].rows.len() && wals[i].rows[j].seq > min_seq
                && wals[i].rows[j].create_ts is Some ==> (
            #[trigger] wals[i].rows[j]).create_ts->0 <= batch_tick(tick, wals, min_seq),
        batch_tick(tick, wals, min_seq) == tick || exists|i: int, j: int|
            0 <= i < wals.len() && 0 <= j < wals[i].rows.len() && (#[trigger] wals[i].rows[j]).seq
                > min_seq && wals[i].rows[j].create_ts == Some(batch_tick(tick, wals, min_seq)),
    decreases wals.len(),
{
    if wals.len() > 0 {
        let shorter = wals.drop_last();
        let before = batch_tick(tick, shorter, min_seq);
        let rows = wals.last().rows;
        let greatest = batch_tick(tick, wals, min_seq);
        law_last_tick_is_the_greatest(tick, shorter, min_seq);
        lemma_greatest_tick(before, rows, min_seq);
        assert forall|i: int, j: int|
            0 <= i < wals.len() && 0 <= j < wals[i].rows.len() && wals[i].rows[j].seq > min_seq
                && wals[i].rows[j].create_ts is Some implies (
        #[trigger] wals[i].rows[j]).create_ts->0 <= greatest by {
            if i < wals.len() - 1 {
                assert(shorter[i].rows[j] == wals[i].rows[j]);
            } else {
                assert(rows[j] == wals[i].rows[j]);
            }
        }
        if greatest == before {
            if before != tick {
                let (i, j) = choose|i: int, j: int|
                    0 <= i < shorter.len() && 0 <= j < shorter[i].rows.len() && (
                    #[trigger] shorter[i].rows[j]).seq > min_seq && shorter[i].rows[j].create_ts
                        == Some(before);
                assert(wals[i].rows[j].create_ts == Some(greatest));
            }
        } else {
            let j = choose|j: int|
                0 <= j < rows.len() && (#[trigger] rows[j]).seq > min_seq && rows[j].create_ts
                    == Some(greatest);
            assert(wals[wals.len() - 1].rows[j].create_ts == Some(greatest));
        }
    }
}

proof fn lemma_greatest_tick(tick: i64, rows: Seq<RowView>, min_seq: u64)
    ensures
        tick <= replayed_tick(tick, rows, min_seq),
        forall|j: int|
            0 <= j < rows.len() && rows[j].seq > min_seq && rows[j].create_ts is Some ==> (
            #[trigger] rows[j]).create_ts->0 <= replayed_tick(tick, rows, min_seq),
        replayed_tick(tick, rows, min_seq) == tick || exists|j: int|
            0 <= j < rows.len() && (#[trigger] rows[j]).seq > min_seq && rows[j].create_ts
                == Some(replayed_tick(tick, rows, min_seq)),
    decreases rows.len(),
{
    if rows.len() > 0 {
        let shorter = rows.drop_last();
        let before = replayed_tick(tick, shorter, min_seq);
        let greatest = replayed_tick(tick, rows, min_seq);
        lemma_greatest_tick(tick, shorter, min_seq);
        assert forall|j: int|
            0 <= j < rows.len() && rows[j].seq > min_seq && rows[j].create_ts is Some implies (
        #[trigger] rows[j]).create_ts->0 <= greatest by {
            if j < rows.len() - 1 {
                assert(shorter[j] == rows[j]);
            }
        }
        if greatest == before {
            if before != tick {
                let j = choose|j: int|
                    0 <= j < shorter.len() && (#[trigger] shorter[j]).seq > min_seq
                        && shorter[j].create_ts == Some(before);
                assert(rows[j].create_ts == Some(greatest));
            }
        } else {
            assert(rows[rows.len() - 1].create_ts == Some(greatest));
        }
    }
}

/// A replay that found nothing more has replayed every ID of its range exactly
/// once, in order, and has handed all of them out.
pub proof fn law_finished_replay_covers_the_range(iter: WalReplayIterator)
    requires
        iter.wf(),
        iter.failed is None,
        iter.phase is Idle,
        iter.current_iter.finished(),
    ensures
        iter.wal_id_range.start <= iter.wal_id_range.end ==> iter.history@.len()
            == iter.wal_id_range.end - iter.wal_id_range.start,
        iter.wal_id_range.start > iter.wal_id_range.end ==> iter.history@.len() == 0,
        forall|i: int|
            0 <= i < iter.history@.len() ==> (#[trigger] iter.history@[i]).wal_id
                == iter.wal_id_range.start + i,
        iter.emitted@ == iter.history@.len(),
{
}

/// The bytes of every object that is being fetched or replayed stay reserved,
/// and all reservations together stay within the limit.
pub proof fn law_reservations_stay_within_the_limit(iter: WalReplayIterator)
    requires
        iter.wf(),
    ensures
        reserved_total(iter.pending_fetches@) + iter.held_bytes()
            <= iter.options.prefetch.max_inflight_bytes,
        iter.available_bytes + reserved_total(iter.pending_fetches@) + iter.held_bytes()
            == iter.options.prefetch.max_inflight_bytes,
        iter.pending_fetches@.len() <= iter.options.prefetch.max_concurrent_objects,
{
}

/// A failed replay holds nothing: no fetch is outstanding and every byte is available.
pub proof fn law_failed_replay_holds_nothing(iter: WalReplayIterator)
    requires
        iter.wf(),
        iter.failed is Some,
    ensures
        iter.phase is Idle,
        iter.pending_fetches@.len() == 0,
        iter.current_iter.current_iter is None,
        iter.available_bytes == iter.options.prefetch.max_inflight_bytes,
{
}

/// The object that replay waits for is always the one right after the objects
/// replayed so far, so rows are applied in WAL-ID order.
pub proof fn law_objects_are_consumed_in_order(iter: WalReplayIterator)
    requires
        iter.wf(),
    ensures
        iter.phase matches ReplayPhase::Fetching(wal) ==> wal.wal_id == iter.wal_id_range.start
            + iter.history@.len(),
        iter.phase matches ReplayPhase::Decoding(wal) ==> wal.wal_id == iter.wal_id_range.start
            + iter.history@.len(),
        iter.failed is None ==> forall|i: int|
            0 <= i < iter.pending_fetches@.len() ==> (#[trigger] iter.pending_fetches@[i]).wal_id
                == iter.wal_id_range.start + iter.history@.len() + iter.in_flight() + i,
{
}

} // verus!
