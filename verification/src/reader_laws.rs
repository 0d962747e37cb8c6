//! What holds of a reader's replayed tables.
use crate::mem_table::ImmutableMemtable;
use crate::reader_state::{all_newer, all_older, brings_rows, follows, kept_positions,
    lemma_kept_positions, lens_of, retained, retained_tables};
use crate::replay_memtables::tables_wf;
use crate::types::RowMap;
use crate::wal_replay::{batch_map, ReplayedMemtable, ReplayedWal, WalReplayIterator};
use crate::wal_replay_laws::law_splitting_loses_nothing;
use std::sync::Arc;
use vstd::prelude::*;

verus! {

/// The rows of a table are the values of its map.
proof fn lemma_rows_and_map(table: &ImmutableMemtable, id: (Seq<u8>, u64))
    requires
        table@.wf(),
    ensures
        table@@.contains_key(id) <==> exists|i: int|
            0 <= i < table@.rows().len() && (#[trigger] table@.rows()[i]).id() == id,
        table@@.contains_key(id) ==> table@@[id].id() == id,
{
    let rows = table@.rows();
    if table@@.contains_key(id) {
        let i = choose|i: int| 0 <= i < rows.len() && (#[trigger] rows[i]).id() == id;
        table@.lemma_row_in_map(i);
    }
}

/// A table cut down to the rows above a sequence number has exactly those rows.
proof fn lemma_retained_rows(
    table: Arc<ImmutableMemtable>,
    seq: u64,
    prefix_lens: Option<Seq<Option<usize>>>,
    kept: Arc<ImmutableMemtable>,
    id: (Seq<u8>, u64),
)
    requires
        table@.wf(),
        kept@.wf(),
        retained(table, seq, prefix_lens, kept),
    ensures
        kept@@.contains_key(id) <==> table@@.contains_key(id) && id.1 > seq,
        kept@@.contains_key(id) ==> kept@@[id] == table@@[id],
{
    if all_newer(&table, seq) && table@@.contains_key(id) {
        lemma_rows_and_map(&table, id);
        let i = choose|i: int|
            0 <= i < table@.rows().len() && (#[trigger] table@.rows()[i]).id() == id;
        assert(table@.rows()[i].seq > seq);
    }
}

/// Rebuilding on a manifest keeps exactly the rows that are newer than what the
/// manifest's tables hold: each of them is still there, in a table at the same
/// place in the order.
pub proof fn law_rebuild_keeps_newer_rows(
    tables: Seq<Arc<ImmutableMemtable>>,
    seq: u64,
    prefix_lens: Option<&Vec<Vec<Option<usize>>>>,
    kept: Seq<Arc<ImmutableMemtable>>,
    p: int,
    id: (Seq<u8>, u64),
)
    requires
        tables_wf(tables),
        tables_wf(kept),
        retained_tables(tables, seq, prefix_lens, kept),
        0 <= p < tables.len(),
        tables[p]@@.contains_key(id),
        id.1 > seq,
    ensures
        exists|i: int|
            {
                &&& 0 <= i < kept.len()
                &&& kept_positions(tables, seq)[i] == p
                &&& (#[trigger] kept[i])@@.contains_key(id)
                &&& kept[i]@@[id] == tables[p]@@[id]
            },
{
    lemma_kept_positions(tables, seq);
    let positions = kept_positions(tables, seq);
    lemma_rows_and_map(&tables[p], id);
    let r = choose|r: int|
        0 <= r < tables[p]@.rows().len() && (#[trigger] tables[p]@.rows()[r]).id() == id;
    assert(tables[p]@.rows()[r].seq > seq);
    assert(!all_older(&tables[p], seq));
    assert(positions.contains(p));
    let i = choose|i: int| 0 <= i < positions.len() && positions[i] == p;
    assert(retained(tables[positions[i]], seq, lens_of(prefix_lens, positions[i]), kept[i]));
    lemma_retained_rows(tables[p], seq, lens_of(prefix_lens, p), kept[i], id);
}

/// Rebuilding on a manifest keeps no row that the manifest's tables hold: every
/// row that is kept is newer, and is a row of the table at the same place.
pub proof fn law_rebuild_keeps_only_newer_rows(
    tables: Seq<Arc<ImmutableMemtable>>,
    seq: u64,
    prefix_lens: Option<&Vec<Vec<Option<usize>>>>,
    kept: Seq<Arc<ImmutableMemtable>>,
    i: int,
    id: (Seq<u8>, u64),
)
    requires
        tables_wf(tables),
        tables_wf(kept),
        retained_tables(tables, seq, prefix_lens, kept),
        0 <= i < kept.len(),
        kept[i]@@.contains_key(id),
    ensures
        id.1 > seq,
        0 <= kept_positions(tables, seq)[i] < tables.len(),
        tables[kept_positions(tables, seq)[i]]@@.contains_key(id),
        kept[i]@@[id] == tables[kept_positions(tables, seq)[i]]@@[id],
        kept[i].spec_recent_flushed_wal_id() == tables[kept_positions(
            tables,
            seq,
        )[i]].spec_recent_flushed_wal_id(),
{
    lemma_kept_positions(tables, seq);
    let p = kept_positions(tables, seq)[i];
    assert(retained(tables[p], seq, lens_of(prefix_lens, p), kept[i]));
    lemma_retained_rows(tables[p], seq, lens_of(prefix_lens, p), kept[i], id);
}

/// The tables are in order from the newest: every row of a table is newer than
/// every row of the tables behind it, and none is newer than `committed`.
pub open spec fn newest_table_first(tables: Seq<Arc<ImmutableMemtable>>, committed: u64) -> bool {
    &&& forall|i: int, a: (Seq<u8>, u64)|
        0 <= i < tables.len() && #[trigger] tables[i]@@.contains_key(a) ==> a.1 <= committed
    &&& forall|i: int, j: int, a: (Seq<u8>, u64), b: (Seq<u8>, u64)|
        0 <= i < j < tables.len() && #[trigger] tables[i]@@.contains_key(a)
            && #[trigger] tables[j]@@.contains_key(b) ==> a.1 > b.1
}

/// Replaying a table in front of the others keeps the tables in order, so that
/// the first table with a key has its newest row.
pub proof fn law_replay_keeps_tables_in_order(
    tables: Seq<Arc<ImmutableMemtable>>,
    committed: u64,
    replayed: ReplayedMemtable,
    after: u64,
    added: Arc<ImmutableMemtable>,
)
    requires
        newest_table_first(tables, committed),
        follows(replayed, after, committed),
        brings_rows(replayed, committed),
        added@.rows() == replayed.table@.rows(),
        forall|i: int|
            0 <= i < replayed.table@.rows().len() ==> (#[trigger] replayed.table@.rows()[i]).seq
                <= replayed.last_seq,
    ensures
        newest_table_first(seq![added] + tables, replayed.last_seq),
{
    let longer = seq![added] + tables;
    let rows = replayed.table@.rows();
    assert forall|a: (Seq<u8>, u64)| #[trigger] added@@.contains_key(a) implies committed < a.1
        <= replayed.last_seq by {
        let i = choose|i: int| 0 <= i < rows.len() && (#[trigger] rows[i]).id() == a;
        assert(rows[i].seq == a.1);
    }
    assert forall|i: int, a: (Seq<u8>, u64)|
        0 <= i < longer.len() && #[trigger] longer[i]@@.contains_key(a) implies a.1
        <= replayed.last_seq by {
        if i > 0 {
            assert(tables[i - 1]@@.contains_key(a));
        }
    }
    assert forall|i: int, j: int, a: (Seq<u8>, u64), b: (Seq<u8>, u64)|
        0 <= i < j < longer.len() && #[trigger] longer[i]@@.contains_key(a)
            && #[trigger] longer[j]@@.contains_key(b) implies a.1 > b.1 by {
        assert(tables[j - 1]@@.contains_key(b));
        if i > 0 {
            assert(tables[i - 1]@@.contains_key(a));
        }
    }
}

/// Rebuilding on a manifest keeps the tables in order.
pub proof fn law_rebuild_keeps_tables_in_order(
    tables: Seq<Arc<ImmutableMemtable>>,
    committed: u64,
    seq: u64,
    prefix_lens: Option<&Vec<Vec<Option<usize>>>>,
    kept: Seq<Arc<ImmutableMemtable>>,
)
    requires
        newest_table_first(tables, committed),
        tables_wf(tables),
        tables_wf(kept),
        retained_tables(tables, seq, prefix_lens, kept),
    ensures
        newest_table_first(kept, committed),
{
    lemma_kept_positions(tables, seq);
    let positions = kept_positions(tables, seq);
    assert forall|i: int, a: (Seq<u8>, u64)|
        0 <= i < kept.len() && #[trigger] kept[i]@@.contains_key(a) implies a.1 <= committed by {
        law_rebuild_keeps_only_newer_rows(tables, seq, prefix_lens, kept, i, a);
        assert(tables[positions[i]]@@.contains_key(a));
    }
    assert forall|i: int, j: int, a: (Seq<u8>, u64), b: (Seq<u8>, u64)|
        0 <= i < j < kept.len() && #[trigger] kept[i]@@.contains_key(a)
            && #[trigger] kept[j]@@.contains_key(b) implies a.1 > b.1 by {
        law_rebuild_keeps_only_newer_rows(tables, seq, prefix_lens, kept, i, a);
        law_rebuild_keeps_only_newer_rows(tables, seq, prefix_lens, kept, j, b);
        assert(tables[positions[i]]@@.contains_key(a));
        assert(tables[positions[j]]@@.contains_key(b));
        assert(positions[i] < positions[j]);
    }
}

/// A table that replay builds from the WAL after a watermark follows on from
/// that watermark.
pub proof fn law_replayed_table_follows_its_watermark(iter: WalReplayIterator, after: u64)
    requires
        iter.wf(),
        iter.failed is None,
        !(iter.phase is Idle),
        iter.last_wal_id > 0,
        after < iter.wal_id_range.start,
    ensures
        follows(
            ReplayedMemtable {
                table: iter.table,
                last_tick: iter.last_tick,
                last_seq: iter.last_seq,
                last_wal_id: iter.last_wal_id,
            },
            after,
            iter.min_seq,
        ),
{
    let rows = iter.table@.rows();
    assert forall|i: int| 0 <= i < rows.len() implies (#[trigger] rows[i]).seq
        > iter.min_seq by {
        iter.table@.lemma_row_in_map(i);
        assert(iter.table@@.contains_key(rows[i].id()));
    }
    assert(iter.history@.len() > iter.emitted@);
    assert(iter.history@.last().wal_id == iter.history@[iter.history@.len() - 1].wal_id);
}

/// The rows that a list of tables holds, a newer table over the older ones.
pub open spec fn layered(tables: Seq<RowMap>) -> RowMap
    decreases tables.len(),
{
    if tables.len() == 0 {
        RowMap::empty()
    } else {
        layered(tables.drop_first()).union_prefer_right(tables[0])
    }
}

/// A list of tables after runs of WAL objects are replayed in front of it, one
/// table for each run that brings rows.
pub open spec fn caught_up(
    tables: Seq<RowMap>,
    runs: Seq<Seq<ReplayedWal>>,
    min_seq: u64,
) -> Seq<RowMap>
    decreases runs.len(),
{
    if runs.len() == 0 {
        tables
    } else {
        let before = caught_up(tables, runs.drop_last(), min_seq);
        let rows = batch_map(runs.last(), min_seq);
        if rows == RowMap::empty() {
            before
        } else {
            seq![rows] + before
        }
    }
}

/// The objects of several runs, one after the other.
pub open spec fn all_objects(runs: Seq<Seq<ReplayedWal>>) -> Seq<ReplayedWal>
    decreases runs.len(),
{
    if runs.len() == 0 {
        Seq::empty()
    } else {
        all_objects(runs.drop_last()) + runs.last()
    }
}

/// Catching up with the WAL puts exactly its new rows over what the tables held
/// before, however the WAL is cut into tables and whichever of its objects are
/// empty.
pub proof fn law_catching_up_overlays_the_new_rows(
    tables: Seq<RowMap>,
    runs: Seq<Seq<ReplayedWal>>,
    min_seq: u64,
)
    ensures
        layered(caught_up(tables, runs, min_seq)) == layered(tables).union_prefer_right(
            batch_map(all_objects(runs), min_seq),
        ),
    decreases runs.len(),
{
    let held = layered(tables);
    if runs.len() == 0 {
        assert(held.union_prefer_right(RowMap::empty()) =~= held);
    } else {
        let before = caught_up(tables, runs.drop_last(), min_seq);
        let objects = all_objects(runs.drop_last());
        let rows = batch_map(runs.last(), min_seq);
        law_catching_up_overlays_the_new_rows(tables, runs.drop_last(), min_seq);
        law_splitting_loses_nothing(objects, runs.last(), min_seq);
        let earlier = batch_map(objects, min_seq);
        if rows == RowMap::empty() {
            assert(earlier.union_prefer_right(rows) =~= earlier);
        } else {
            let after = seq![rows] + before;
            assert(after.drop_first() =~= before);
            assert(held.union_prefer_right(earlier).union_prefer_right(rows)
                =~= held.union_prefer_right(earlier.union_prefer_right(rows)));
        }
    }
}

} // verus!
