//! The rows of WAL objects, and how they are replayed into tables.
use crate::error::SlateDBError;
use crate::mem_table::WritableKVTable;
use crate::types::{rows_view, RowEntry, RowMap, RowView};
use std::collections::VecDeque;
use vstd::prelude::*;

verus! {

/// One block of a WAL object: the rows that can be read from it, and the error
/// that reading past them meets, if any.
#[derive(Debug)]
pub struct WalBlock {
    pub rows: VecDeque<RowEntry>,
    pub error: Option<SlateDBError>,
}

/// A decoded WAL object.
#[derive(Debug)]
pub enum DecodedWalSst {
    /// An empty object that a writer left to fence off older writers.
    Fence,
    /// Blocks of rows.
    Data { format_version: u16, blocks: VecDeque<WalBlock> },
}

impl DecodedWalSst {
    /// The blocks of the object.
    pub open spec fn blocks(self) -> Seq<WalBlock> {
        match self {
            DecodedWalSst::Fence => Seq::empty(),
            DecodedWalSst::Data { format_version, blocks } => blocks@,
        }
    }
}

/// The rows that can be read from a sequence of blocks: those before the first error.
pub open spec fn blocks_rows(blocks: Seq<WalBlock>) -> Seq<RowView>
    decreases blocks.len(),
{
    if blocks.len() == 0 {
        Seq::empty()
    } else if blocks[0].error is Some {
        rows_view(blocks[0].rows@)
    } else {
        rows_view(blocks[0].rows@) + blocks_rows(blocks.drop_first())
    }
}

/// The first error in a sequence of blocks.
pub open spec fn blocks_error(blocks: Seq<WalBlock>) -> Option<SlateDBError>
    decreases blocks.len(),
{
    if blocks.len() == 0 {
        None
    } else if blocks[0].error is Some {
        blocks[0].error
    } else {
        blocks_error(blocks.drop_first())
    }
}

/// Reads the rows of a WAL object's blocks in order.
#[derive(Debug)]
pub struct WalBlocksIterator {
    pub format_version: u16,
    pub blocks: VecDeque<WalBlock>,
    pub current: Option<WalBlock>,
}

impl WalBlocksIterator {
    /// The blocks still to be read.
    pub open spec fn remaining(&self) -> Seq<WalBlock> {
        match self.current {
            Some(block) => seq![block] + self.blocks@,
            None => self.blocks@,
        }
    }

    /// An iterator at the start of the blocks.
    pub fn new(format_version: u16, blocks: VecDeque<WalBlock>) -> (iter: WalBlocksIterator)
        ensures
            iter.format_version == format_version,
            iter.remaining() == blocks@,
    {
        WalBlocksIterator { format_version, blocks, current: None }
    }

    /// There is nothing to prepare.
    pub fn init(&mut self) -> (result: Result<(), SlateDBError>)
        ensures
            result is Ok,
            *final(self) == *old(self),
    {
        Ok(())
    }

    /// The next row: each row once, in order, until the first error.
    pub fn next(&mut self) -> (result: Result<Option<RowEntry>, SlateDBError>)
        ensures
            final(self).format_version == old(self).format_version,
            ({
                let rows = blocks_rows(old(self).remaining());
                let error = blocks_error(old(self).remaining());
                let rows_left = blocks_rows(final(self).remaining());
                &&& blocks_error(final(self).remaining()) == error
                &&& match result {
                    Ok(Some(row)) => rows.len() > 0 && row@ == rows[0] && rows_left
                        == rows.drop_first(),
                    Ok(None) => rows.len() == 0 && error is None && rows_left == rows,
                    Err(failure) => rows.len() == 0 && error == Some(failure) && rows_left == rows,
                }
            }),
    {
        let ghost rows = blocks_rows(self.remaining());
        let ghost error = blocks_error(self.remaining());
        loop
            invariant
                self.format_version == old(self).format_version,
                rows == blocks_rows(old(self).remaining()),
                error == blocks_error(old(self).remaining()),
                blocks_rows(self.remaining()) == rows,
                blocks_error(self.remaining()) == error,
            decreases self.blocks@.len(),
        {
            if let Some(current) = &mut self.current {
                let ghost block = *current;
                let ghost rest = self.blocks@;
                match current.rows.pop_front() {
                    Some(row) => {
                        proof {
                            let before = seq![block] + rest;
                            let after = seq![*current] + rest;
                            assert(before.drop_first() =~= rest);
                            assert(after.drop_first() =~= rest);
                            assert(rows_view(block.rows@)[0] == row@);
                            assert(rows_view(current.rows@) =~= rows_view(block.rows@).drop_first());
                            assert(blocks_rows(after) =~= rows.drop_first());
                        }
                        return Ok(Some(row));
                    },
                    None => {
                        proof {
                            let before = seq![block] + rest;
                            let after = seq![*current] + rest;
                            assert(before.drop_first() =~= rest);
                            assert(after.drop_first() =~= rest);
                            assert(rows_view(block.rows@) =~= Seq::<RowView>::empty());
                            assert(rows_view(current.rows@) =~= Seq::<RowView>::empty());
                            assert(blocks_rows(after) =~= rows);
                            assert(block.error is None ==> rows =~= blocks_rows(rest));
                        }
                        if let Some(failure) = &current.error {
                            return Err(failure.clone());
                        }
                    },
                }
            }
            let ghost rest = self.blocks@;
            assert(blocks_rows(rest) == rows);
            assert(blocks_error(rest) == error);
            match self.blocks.pop_front() {
                None => {
                    assert(self.blocks@ =~= rest);
                    return Ok(None);
                },
                Some(block) => {
                    assert(rest =~= seq![block] + self.blocks@);
                    self.current = Some(block);
                },
            }
        }
    }

    /// WAL rows are read from the front only, so seeking is refused.
    pub fn seek(&mut self, next_key: &[u8]) -> (result: Result<(), SlateDBError>)
        ensures
            result == Err::<(), SlateDBError>(SlateDBError::InvalidDBState),
            *final(self) == *old(self),
    {
        Err(SlateDBError::InvalidDBState)
    }
}

/// A table after rows are replayed into it: those with a sequence number above
/// `min_seq` are added, in order.
pub open spec fn replayed_map(table: RowMap, rows: Seq<RowView>, min_seq: u64) -> RowMap
    decreases rows.len(),
{
    if rows.len() == 0 {
        table
    } else {
        let before = replayed_map(table, rows.drop_last(), min_seq);
        let row = rows.last();
        if row.seq <= min_seq {
            before
        } else {
            before.insert(row.id(), row)
        }
    }
}

/// The greatest creation timestamp after rows are replayed.
pub open spec fn replayed_tick(tick: i64, rows: Seq<RowView>, min_seq: u64) -> i64
    decreases rows.len(),
{
    if rows.len() == 0 {
        tick
    } else {
        let before = replayed_tick(tick, rows.drop_last(), min_seq);
        let row = rows.last();
        if row.seq > min_seq && row.create_ts is Some && row.create_ts->0 > before {
            row.create_ts->0
        } else {
            before
        }
    }
}

/// The greatest sequence number after rows are replayed.
pub open spec fn replayed_seq(seq: u64, rows: Seq<RowView>, min_seq: u64) -> u64
    decreases rows.len(),
{
    if rows.len() == 0 {
        seq
    } else {
        let before = replayed_seq(seq, rows.drop_last(), min_seq);
        let row = rows.last();
        if row.seq > min_seq && row.seq > before {
            row.seq
        } else {
            before
        }
    }
}

/// Every row of a table is above `min_seq` and at most `last_seq`.
pub open spec fn seqs_within(table: RowMap, min_seq: u64, last_seq: u64) -> bool {
    forall|id: (Seq<u8>, u64)| #[trigger] table.contains_key(id) ==> min_seq < id.1 <= last_seq
}

/// Replays the rows of a WAL object into a table, up to the first error.
pub fn replay_rows(
    iter: &mut WalBlocksIterator,
    table: &mut WritableKVTable,
    min_seq: u64,
    last_tick: &mut i64,
    last_seq: &mut u64,
) -> (result: Result<(), SlateDBError>)
    requires
        old(table)@.wf(),
        seqs_within(old(table)@@, min_seq, *old(last_seq)),
    ensures
        final(table)@.wf(),
        final(table)@.segments() == old(table)@.segments(),
        ({
            let rows = blocks_rows(old(iter).remaining());
            let error = blocks_error(old(iter).remaining());
            &&& final(table)@@ == replayed_map(old(table)@@, rows, min_seq)
            &&& *final(last_tick) == replayed_tick(*old(last_tick), rows, min_seq)
            &&& *final(last_seq) == replayed_seq(*old(last_seq), rows, min_seq)
            &&& result == match error {
                Some(error) => Err::<(), SlateDBError>(error),
                None => Ok::<(), SlateDBError>(()),
            }
        }),
        seqs_within(final(table)@@, min_seq, *final(last_seq)),
        *old(last_seq) <= *final(last_seq),
{
    let ghost rows = blocks_rows(iter.remaining());
    let ghost error = blocks_error(iter.remaining());
    let ghost mut done: int = 0;
    assert(rows.take(0) =~= Seq::<RowView>::empty());
    assert(rows.skip(0) =~= rows);
    loop
        invariant
            rows == blocks_rows(old(iter).remaining()),
            error == blocks_error(old(iter).remaining()),
            0 <= done <= rows.len(),
            blocks_rows(iter.remaining()) == rows.skip(done),
            blocks_error(iter.remaining()) == error,
            table@.wf(),
            table@.segments() == old(table)@.segments(),
            table@@ == replayed_map(old(table)@@, rows.take(done), min_seq),
            *last_tick == replayed_tick(*old(last_tick), rows.take(done), min_seq),
            *last_seq == replayed_seq(*old(last_seq), rows.take(done), min_seq),
            seqs_within(table@@, min_seq, *last_seq),
            *old(last_seq) <= *last_seq,
        decreases rows.len() - done,
    {
        let next = iter.next();
        match next {
            Ok(Some(row)) => {
                proof {
                    let longer = rows.take(done + 1);
                    assert(longer.drop_last() =~= rows.take(done));
                    assert(longer.last() == rows[done]);
                    assert(rows.skip(done)[0] == rows[done]);
                    assert(rows.skip(done).drop_first() =~= rows.skip(done + 1));
                    done = done + 1;
                }
                if row.seq <= min_seq {
                    continue;
                }
                if let Some(ts) = row.create_ts {
                    if ts > *last_tick {
                        *last_tick = ts;
                    }
                }
                if row.seq > *last_seq {
                    *last_seq = row.seq;
                }
                table.put(row);
            },
            Ok(None) => {
                assert(rows.take(done) =~= rows);
                return Ok(());
            },
            Err(failure) => {
                assert(rows.take(done) =~= rows);
                return Err(failure);
            },
        }
    }
}

/// Holds the iterator over the current object, and whether one was asked for yet.
#[derive(Debug)]
pub struct IteratorHolder<T> {
    pub initialized: bool,
    pub current_iter: Option<T>,
}

impl<T> IteratorHolder<T> {
    /// Nothing has been asked for yet.
    pub fn new() -> (holder: Self)
        ensures
            holder == (IteratorHolder::<T> { initialized: false, current_iter: None }),
    {
        IteratorHolder { initialized: false, current_iter: None }
    }

    /// An iterator was asked for and there was none.
    pub open spec fn finished(self) -> bool {
        self.initialized && self.current_iter is None
    }

    /// Whether an iterator was asked for and there was none.
    pub fn is_finished(&self) -> (finished: bool)
        ensures
            finished == self.finished(),
            finished <==> self.initialized && self.current_iter is None,
    {
        self.initialized && self.current_iter.is_none()
    }

    /// Moves on to the next iterator, if there is one.
    pub fn advance(&mut self, iterator: Option<T>)
        ensures
            *final(self) == (IteratorHolder { initialized: true, current_iter: iterator }),
    {
        self.initialized = true;
        self.current_iter = iterator;
    }

    /// Goes back to before any iterator was asked for.
    pub fn reset(&mut self)
        ensures
            *final(self) == (IteratorHolder::<T> { initialized: false, current_iter: None }),
    {
        self.initialized = false;
        self.current_iter = None;
    }
}

} // verus!
