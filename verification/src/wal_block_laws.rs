//! What reading the blocks of a WAL object gives back, and what replaying its
//! rows leaves in a table.
use crate::byte_string::bytes_contents;
use crate::types::{RowEntry, RowMap, RowView, ValueDeletable, ValueView};
use crate::wal_blocks::{blocks_error, blocks_rows, replayed_map, replayed_seq, replayed_tick,
    WalBlock};
use vstd::prelude::*;

verus! {

/// A row that was read says what the stored row says: the same key, sequence
/// number and timestamps, and the same value, operand or deletion.
pub open spec fn says(read: RowView, stored: RowEntry) -> bool {
    &&& read.key == bytes_contents(stored.key)
    &&& read.seq == stored.seq
    &&& read.create_ts == stored.create_ts
    &&& read.expire_ts == stored.expire_ts
    &&& match stored.value {
        ValueDeletable::Value(value) => read.value == ValueView::Value(bytes_contents(value)),
        ValueDeletable::Merge(operand) => read.value == ValueView::Merge(bytes_contents(operand)),
        ValueDeletable::Tombstone => read.value == ValueView::Tombstone,
    }
}

/// A row shows its key, sequence number and timestamps, and whether it sets a
/// value, merges an operand or deletes its key.
pub proof fn law_a_row_shows_its_fields(row: RowEntry)
    ensures
        row@.key == bytes_contents(row.key),
        row@.seq == row.seq,
        row@.create_ts == row.create_ts,
        row@.expire_ts == row.expire_ts,
        row.value matches ValueDeletable::Value(value) ==> row@.value == ValueView::Value(
            bytes_contents(value),
        ),
        row.value matches ValueDeletable::Merge(operand) ==> row@.value == ValueView::Merge(
            bytes_contents(operand),
        ),
        row.value is Tombstone ==> row@.value == ValueView::Tombstone,
        row@.id() == (bytes_contents(row.key), row.seq),
{
}

/// One block is read as it is stored, up to the error that ends it: as many rows
/// as the block holds, each one saying what the row stored at its place says,
/// whether it sets a value, merges an operand or deletes its key.
pub proof fn law_a_block_is_read_as_stored(block: WalBlock)
    ensures
        blocks_rows(seq![block]).len() == block.rows@.len(),
        forall|k: int|
            0 <= k < block.rows@.len() ==> {
                let read = #[trigger] blocks_rows(seq![block])[k];
                let stored = block.rows@[k];
                &&& read == stored@
                &&& read.key == bytes_contents(stored.key)
                &&& read.seq == stored.seq
                &&& read.create_ts == stored.create_ts
                &&& read.expire_ts == stored.expire_ts
                &&& stored.value matches ValueDeletable::Value(value) ==> read.value
                    == ValueView::Value(bytes_contents(value))
                &&& stored.value matches ValueDeletable::Merge(operand) ==> read.value
                    == ValueView::Merge(bytes_contents(operand))
                &&& stored.value is Tombstone ==> read.value == ValueView::Tombstone
            },
        blocks_error(seq![block]) == block.error,
{
    assert(seq![block].drop_first() =~= Seq::<WalBlock>::empty());
    assert(blocks_rows(Seq::<WalBlock>::empty()) =~= Seq::<RowView>::empty());
    assert(blocks_error(Seq::<WalBlock>::empty()) is None);
}

/// Blocks are read one after the other: behind blocks without an error, the rows
/// and the error of the further blocks follow.
pub proof fn law_blocks_are_read_one_after_the_other(first: Seq<WalBlock>, second: Seq<WalBlock>)
    requires
        forall|i: int| 0 <= i < first.len() ==> (#[trigger] first[i]).error is None,
    ensures
        blocks_rows(first + second) == blocks_rows(first) + blocks_rows(second),
        blocks_error(first + second) == blocks_error(second),
        blocks_error(first) is None,
        first.len() == 0 ==> blocks_rows(first).len() == 0,
    decreases first.len(),
{
    if first.len() == 0 {
        assert(first + second =~= second);
        assert(blocks_rows(first) + blocks_rows(second) =~= blocks_rows(second));
    } else {
        let rest = first.drop_first();
        assert forall|i: int| 0 <= i < rest.len() implies (#[trigger] rest[i]).error is None by {
            assert(rest[i] == first[i + 1]);
        }
        law_blocks_are_read_one_after_the_other(rest, second);
        assert((first + second).drop_first() =~= rest + second);
        assert((first + second)[0] == first[0]);
        assert(blocks_rows(first + second) =~= blocks_rows(first) + blocks_rows(second));
    }
}

/// The first error ends the reading: the rows of its block are the last ones, it
/// is the error that is met, and what follows makes no difference.
pub proof fn law_the_first_error_ends_the_rows(
    first: Seq<WalBlock>,
    failing: WalBlock,
    rest: Seq<WalBlock>,
)
    requires
        forall|i: int| 0 <= i < first.len() ==> (#[trigger] first[i]).error is None,
        failing.error is Some,
    ensures
        blocks_rows(first + (seq![failing] + rest)) == blocks_rows(first) + blocks_rows(
            seq![failing],
        ),
        blocks_error(first + (seq![failing] + rest)) == failing.error,
{
    law_blocks_are_read_one_after_the_other(first, seq![failing] + rest);
    assert((seq![failing] + rest)[0] == failing);
    assert(blocks_rows(seq![failing] + rest) == blocks_rows(seq![failing]));
}

/// The number of rows that the blocks before one of them hold together.
pub open spec fn stored_before(blocks: Seq<WalBlock>, at: int) -> int
    decreases at,
{
    if at <= 0 {
        0
    } else {
        stored_before(blocks, at - 1) + blocks[at - 1].rows@.len()
    }
}

/// Reading blocks without an error gives as many rows as they hold together, and
/// the row stored at a place of a block is read after all rows that the blocks
/// before it and the places before it hold.
pub proof fn law_every_stored_row_is_read_at_its_place(
    blocks: Seq<WalBlock>,
    at: int,
    k: int,
)
    requires
        forall|i: int| 0 <= i < blocks.len() ==> (#[trigger] blocks[i]).error is None,
        0 <= at < blocks.len(),
        0 <= k < blocks[at].rows@.len(),
    ensures
        blocks_rows(blocks).len() == stored_before(blocks, blocks.len() as int),
        0 <= stored_before(blocks, at) + k < blocks_rows(blocks).len(),
        says(blocks_rows(blocks)[stored_before(blocks, at) + k], blocks[at].rows@[k]),
        blocks_rows(blocks)[stored_before(blocks, at) + k] == blocks[at].rows@[k]@,
{
    lemma_stored_place(blocks, at, k);
    lemma_stored_count(blocks);
}

/// Reading blocks without an error gives as many rows as they hold together.
proof fn lemma_stored_count(blocks: Seq<WalBlock>)
    requires
        forall|i: int| 0 <= i < blocks.len() ==> (#[trigger] blocks[i]).error is None,
    ensures
        blocks_rows(blocks).len() == stored_before(blocks, blocks.len() as int),
    decreases blocks.len(),
{
    if blocks.len() > 0 {
        let shorter = blocks.drop_last();
        let block = blocks.last();
        assert forall|i: int| 0 <= i < shorter.len() implies (
        #[trigger] shorter[i]).error is None by {
            assert(shorter[i] == blocks[i]);
        }
        lemma_stored_count(shorter);
        lemma_stored_prefix(blocks, blocks.len() - 1);
        assert(blocks =~= shorter + seq![block]);
        law_blocks_are_read_one_after_the_other(shorter, seq![block]);
        law_a_block_is_read_as_stored(block);
    }
}

/// Later blocks make no difference to how many rows come before.
proof fn lemma_stored_prefix(blocks: Seq<WalBlock>, at: int)
    requires
        0 <= at <= blocks.len(),
    ensures
        stored_before(blocks.take(at), at) == stored_before(blocks, at),
        stored_before(blocks, at) >= 0,
        at < blocks.len() ==> stored_before(blocks.drop_last(), at) == stored_before(blocks, at),
    decreases at,
{
    if at > 0 {
        lemma_stored_prefix(blocks, at - 1);
        lemma_stored_prefix(blocks.take(at), at - 1);
        assert(blocks.take(at).drop_last() =~= blocks.take(at - 1));
        assert(blocks.take(at)[at - 1] == blocks[at - 1]);
    }
}

/// A stored row is read at its place.
proof fn lemma_stored_place(blocks: Seq<WalBlock>, at: int, k: int)
    requires
        forall|i: int| 0 <= i < blocks.len() ==> (#[trigger] blocks[i]).error is None,
        0 <= at < blocks.len(),
        0 <= k < blocks[at].rows@.len(),
    ensures
        0 <= stored_before(blocks, at) + k < blocks_rows(blocks).len(),
        says(blocks_rows(blocks)[stored_before(blocks, at) + k], blocks[at].rows@[k]),
        blocks_rows(blocks)[stored_before(blocks, at) + k] == blocks[at].rows@[k]@,
{
    let before = blocks.take(at);
    let from = blocks.skip(at);
    let block = blocks[at];
    let after = blocks.skip(at + 1);
    assert(blocks =~= before + from);
    assert(from =~= seq![block] + after);
    assert forall|i: int| 0 <= i < before.len() implies (#[trigger] before[i]).error is None by {
        assert(before[i] == blocks[i]);
    }
    law_blocks_are_read_one_after_the_other(before, from);
    law_blocks_are_read_one_after_the_other(seq![block], after);
    law_a_block_is_read_as_stored(block);
    lemma_stored_count(before);
    lemma_stored_prefix(blocks, at);
    assert(blocks_rows(seq![block])[k] == block.rows@[k]@);
    law_a_row_shows_its_fields(block.rows@[k]);
}

/// A row above the minimum sequence number is in the replayed table unless a
/// later row has its key and sequence number too: the last of them stays.
pub proof fn law_the_last_row_of_a_version_stays(
    table: RowMap,
    rows: Seq<RowView>,
    min_seq: u64,
    k: int,
)
    requires
        0 <= k < rows.len(),
        rows[k].seq > min_seq,
        forall|j: int|
            k < j < rows.len() ==> !((#[trigger] rows[j]).key == rows[k].key && rows[j].seq
                == rows[k].seq),
    ensures
        replayed_map(table, rows, min_seq).contains_key((rows[k].key, rows[k].seq)),
        replayed_map(table, rows, min_seq)[(rows[k].key, rows[k].seq)] == rows[k],
    decreases rows.len(),
{
    let shorter = rows.drop_last();
    if k < rows.len() - 1 {
        assert forall|j: int| k < j < shorter.len() implies !((#[trigger] shorter[j]).key
            == shorter[k].key && shorter[j].seq == shorter[k].seq) by {
            assert(shorter[j] == rows[j]);
        }
        law_the_last_row_of_a_version_stays(table, shorter, min_seq, k);
        assert(rows[rows.len() - 1] == rows.last());
    }
}

/// A version that no replayed row above the minimum sequence number has is in
/// the table after the replay exactly as it was before.
pub proof fn law_replay_leaves_other_versions_alone(
    table: RowMap,
    rows: Seq<RowView>,
    min_seq: u64,
    id: (Seq<u8>, u64),
)
    requires
        forall|j: int|
            0 <= j < rows.len() && (#[trigger] rows[j]).seq > min_seq ==> !(rows[j].key == id.0
                && rows[j].seq == id.1),
    ensures
        replayed_map(table, rows, min_seq).contains_key(id) == table.contains_key(id),
        table.contains_key(id) ==> replayed_map(table, rows, min_seq)[id] == table[id],
    decreases rows.len(),
{
    if rows.len() > 0 {
        let shorter = rows.drop_last();
        assert forall|j: int| 0 <= j < shorter.len() && (
        #[trigger] shorter[j]).seq > min_seq implies !(shorter[j].key == id.0 && shorter[j].seq
            == id.1) by {
            assert(shorter[j] == rows[j]);
        }
        law_replay_leaves_other_versions_alone(table, shorter, min_seq, id);
        assert(rows[rows.len() - 1] == rows.last());
    }
}

/// Every row stored in blocks without an error that is above the minimum
/// sequence number is in the replayed table, a deletion and a merge operand like
/// a value; and where the blocks hold its key and sequence number once, the
/// table says of them what the stored row says.
pub proof fn law_every_stored_row_is_replayed(
    table: RowMap,
    blocks: Seq<WalBlock>,
    min_seq: u64,
    at: int,
    k: int,
)
    requires
        forall|i: int| 0 <= i < blocks.len() ==> (#[trigger] blocks[i]).error is None,
        0 <= at < blocks.len(),
        0 <= k < blocks[at].rows@.len(),
        blocks[at].rows@[k].seq > min_seq,
    ensures
        ({
            let stored = blocks[at].rows@[k];
            let id = (bytes_contents(stored.key), stored.seq);
            let replayed = replayed_map(table, blocks_rows(blocks), min_seq);
            &&& replayed.contains_key(id)
            &&& (forall|j: int|
                stored_before(blocks, at) + k < j < blocks_rows(blocks).len() ==> !((
                #[trigger] blocks_rows(blocks)[j]).key == id.0 && blocks_rows(blocks)[j].seq
                    == id.1)) ==> says(replayed[id], stored)
        }),
{
    let rows = blocks_rows(blocks);
    let place = stored_before(blocks, at) + k;
    let stored = blocks[at].rows@[k];
    lemma_stored_place(blocks, at, k);
    let last = lemma_last_of_version(rows, place);
    law_the_last_row_of_a_version_stays(table, rows, min_seq, last);
}

/// The last row that has the key and sequence number of a row.
proof fn lemma_last_of_version(rows: Seq<RowView>, k: int) -> (last: int)
    requires
        0 <= k < rows.len(),
    ensures
        k <= last < rows.len(),
        rows[last].key == rows[k].key,
        rows[last].seq == rows[k].seq,
        forall|j: int|
            last < j < rows.len() ==> !((#[trigger] rows[j]).key == rows[k].key && rows[j].seq
                == rows[k].seq),
    decreases rows.len() - k,
{
    if exists|j: int|
        k < j < rows.len() && (#[trigger] rows[j]).key == rows[k].key && rows[j].seq
            == rows[k].seq {
        let j = choose|j: int|
            k < j < rows.len() && (#[trigger] rows[j]).key == rows[k].key && rows[j].seq
                == rows[k].seq;
        lemma_last_of_version(rows, j)
    } else {
        k
    }
}

/// After a replay the last sequence number is the least one that is not below
/// the one before the replay, nor below any replayed row.
pub proof fn law_replayed_seq_is_the_greatest(seq: u64, rows: Seq<RowView>, min_seq: u64)
    ensures
        replayed_seq(seq, rows, min_seq) >= seq,
        forall|k: int|
            0 <= k < rows.len() && (#[trigger] rows[k]).seq > min_seq ==> rows[k].seq
                <= replayed_seq(seq, rows, min_seq),
        replayed_seq(seq, rows, min_seq) == seq || exists|k: int|
            0 <= k < rows.len() && (#[trigger] rows[k]).seq > min_seq && rows[k].seq
                == replayed_seq(seq, rows, min_seq),
    decreases rows.len(),
{
    if rows.len() > 0 {
        let shorter = rows.drop_last();
        law_replayed_seq_is_the_greatest(seq, shorter, min_seq);
        assert(rows[rows.len() - 1] == rows.last());
        assert forall|k: int| 0 <= k < rows.len() && (
        #[trigger] rows[k]).seq > min_seq implies rows[k].seq <= replayed_seq(
            seq,
            rows,
            min_seq,
        ) by {
            if k < rows.len() - 1 {
                assert(shorter[k] == rows[k]);
            }
        }
        if replayed_seq(seq, rows, min_seq) == replayed_seq(seq, shorter, min_seq)
            && replayed_seq(seq, rows, min_seq) != seq {
            let k = choose|k: int|
                0 <= k < shorter.len() && (#[trigger] shorter[k]).seq > min_seq && shorter[k].seq
                    == replayed_seq(seq, shorter, min_seq);
            assert(rows[k] == shorter[k]);
        }
    }
}

/// After a replay the last tick is the least one that is not below the one
/// before the replay, nor below the creation time of any replayed row.
pub proof fn law_replayed_tick_is_the_greatest(tick: i64, rows: Seq<RowView>, min_seq: u64)
    ensures
        replayed_tick(tick, rows, min_seq) >= tick,
        forall|k: int|
            0 <= k < rows.len() && (#[trigger] rows[k]).seq > min_seq && rows[k].create_ts is Some
                ==> rows[k].create_ts->0 <= replayed_tick(tick, rows, min_seq),
        replayed_tick(tick, rows, min_seq) == tick || exists|k: int|
            0 <= k < rows.len() && (#[trigger] rows[k]).seq > min_seq && rows[k].create_ts == Some(
                replayed_tick(tick, rows, min_seq),
            ),
    decreases rows.len(),
{
    if rows.len() > 0 {
        let shorter = rows.drop_last();
        law_replayed_tick_is_the_greatest(tick, shorter, min_seq);
        assert(rows[rows.len() - 1] == rows.last());
        assert forall|k: int|
            0 <= k < rows.len() && (#[trigger] rows[k]).seq > min_seq && rows[k].create_ts
                is Some implies rows[k].create_ts->0 <= replayed_tick(tick, rows, min_seq) by {
            if k < rows.len() - 1 {
                assert(shorter[k] == rows[k]);
            }
        }
        if replayed_tick(tick, rows, min_seq) == replayed_tick(tick, shorter, min_seq)
            && replayed_tick(tick, rows, min_seq) != tick {
            let k = choose|k: int|
                0 <= k < shorter.len() && (#[trigger] shorter[k]).seq > min_seq
                    && shorter[k].create_ts == Some(replayed_tick(tick, shorter, min_seq));
            assert(rows[k] == shorter[k]);
        }
    }
}

} // verus!
