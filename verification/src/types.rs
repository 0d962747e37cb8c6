//! Rows: the versioned entries that tables and WAL objects hold.
use crate::byte_string::{bytes_contents, clone_bytes, lex_lt, lemma_lex_irreflexive,
    lemma_lex_asymmetric, lemma_lex_total, lemma_lex_transitive};
use bytes::Bytes;
use vstd::prelude::*;

verus! {

/// What a row says about its key.
#[derive(Debug)]
pub enum ValueDeletable {
    /// The key has this value.
    Value(Bytes),
    /// The key has this operand to merge into its older value.
    Merge(Bytes),
    /// The key is deleted.
    Tombstone,
}

/// The meaning of a [`ValueDeletable`].
pub enum ValueView {
    Value(Seq<u8>),
    Merge(Seq<u8>),
    Tombstone,
}

impl View for ValueDeletable {
    type V = ValueView;

    open spec fn view(&self) -> ValueView {
        match self {
            ValueDeletable::Value(value) => ValueView::Value(bytes_contents(*value)),
            ValueDeletable::Merge(operand) => ValueView::Merge(bytes_contents(*operand)),
            ValueDeletable::Tombstone => ValueView::Tombstone,
        }
    }
}

impl Clone for ValueDeletable {
    fn clone(&self) -> (copy: Self)
        ensures
            copy@ == self@,
    {
        match self {
            ValueDeletable::Value(value) => ValueDeletable::Value(clone_bytes(value)),
            ValueDeletable::Merge(operand) => ValueDeletable::Merge(clone_bytes(operand)),
            ValueDeletable::Tombstone => ValueDeletable::Tombstone,
        }
    }
}

/// One version of one key.
#[derive(Debug)]
pub struct RowEntry {
    pub key: Bytes,
    pub value: ValueDeletable,
    pub seq: u64,
    pub create_ts: Option<i64>,
    pub expire_ts: Option<i64>,
}

/// The meaning of a [`RowEntry`].
pub struct RowView {
    pub key: Seq<u8>,
    pub value: ValueView,
    pub seq: u64,
    pub create_ts: Option<i64>,
    pub expire_ts: Option<i64>,
}

impl View for RowEntry {
    type V = RowView;

    open spec fn view(&self) -> RowView {
        RowView {
            key: bytes_contents(self.key),
            value: self.value@,
            seq: self.seq,
            create_ts: self.create_ts,
            expire_ts: self.expire_ts,
        }
    }
}

impl Clone for RowEntry {
    fn clone(&self) -> (copy: Self)
        ensures
            copy@ == self@,
    {
        RowEntry {
            key: clone_bytes(&self.key),
            value: self.value.clone(),
            seq: self.seq,
            create_ts: self.create_ts,
            expire_ts: self.expire_ts,
        }
    }
}

impl RowEntry {
    /// A row that sets `key` to `value` at sequence number `seq`.
    pub fn new_value(key: &[u8], value: &[u8], seq: u64) -> (row: RowEntry)
        ensures
            row@ == (RowView {
                key: key@,
                value: ValueView::Value(value@),
                seq,
                create_ts: None,
                expire_ts: None,
            }),
    {
        RowEntry {
            key: Bytes::copy_from_slice(key),
            value: ValueDeletable::Value(Bytes::copy_from_slice(value)),
            seq,
            create_ts: None,
            expire_ts: None,
        }
    }
}

/// A key with its value.
#[derive(Debug)]
pub struct KeyValue {
    pub key: Bytes,
    pub value: Bytes,
}

impl RowView {
    /// What identifies a row within a table.
    pub open spec fn id(self) -> (Seq<u8>, u64) {
        (self.key, self.seq)
    }
}

/// The meaning of a sequence of rows.
pub open spec fn rows_view(rows: Seq<RowEntry>) -> Seq<RowView> {
    rows.map_values(|row: RowEntry| row@)
}

/// The order of rows within a table: by key, and the newest version of a key first.
pub open spec fn row_before(a: RowView, b: RowView) -> bool {
    lex_lt(a.key, b.key) || (a.key == b.key && a.seq > b.seq)
}

/// Rows are in table order, and no two have the same key and sequence number.
pub open spec fn rows_sorted(rows: Seq<RowView>) -> bool {
    forall|i: int, j: int| 0 <= i < j < rows.len() ==> row_before(#[trigger] rows[i], #[trigger] rows[j])
}

/// Rows by key and sequence number.
pub type RowMap = Map<(Seq<u8>, u64), RowView>;

/// The rows as a map from key and sequence number.
pub open spec fn rows_map(rows: Seq<RowView>) -> RowMap {
    Map::new(
        |id: (Seq<u8>, u64)| exists|i: int| 0 <= i < rows.len() && (#[trigger] rows[i]).id() == id,
        |id: (Seq<u8>, u64)|
            rows[choose|i: int| 0 <= i < rows.len() && (#[trigger] rows[i]).id() == id],
    )
}

/// Table order is a strict total order on the identities of rows.
pub proof fn lemma_row_order(a: RowView, b: RowView)
    ensures
        row_before(a, b) ==> a.id() != b.id() && !row_before(b, a),
        row_before(a, b) || row_before(b, a) || a.id() == b.id(),
{
    lemma_lex_total(a.key, b.key);
    lemma_lex_asymmetric(a.key, b.key);
    lemma_lex_irreflexive(a.key);
}

/// Table order is transitive.
pub proof fn lemma_row_order_transitive(a: RowView, b: RowView, c: RowView)
    requires
        row_before(a, b),
        row_before(b, c),
    ensures
        row_before(a, c),
{
    if lex_lt(a.key, b.key) && lex_lt(b.key, c.key) {
        lemma_lex_transitive(a.key, b.key, c.key);
    }
}

/// In sorted rows, an identity stands for the row at its one position.
pub proof fn lemma_sorted_rows_map(rows: Seq<RowView>, i: int)
    requires
        rows_sorted(rows),
        0 <= i < rows.len(),
    ensures
        rows_map(rows).contains_key(rows[i].id()),
        rows_map(rows)[rows[i].id()] == rows[i],
{
    let id = rows[i].id();
    let j = choose|j: int| 0 <= j < rows.len() && (#[trigger] rows[j]).id() == id;
    assert(rows[i].id() == id);
    if i < j {
        lemma_row_order(rows[i], rows[j]);
    } else if j < i {
        lemma_row_order(rows[j], rows[i]);
    }
}

} // verus!
