use bytes::Bytes;
use slatedb::bytes_range::{BytesRange, KeyBound};
use slatedb::db_state::SsTableView;
use slatedb::error::SlateDBError;
use slatedb::sorted_run_iterator::{
    IterationOrder, RunAction, RunEvent, SortedRunIterator, SortedRunView, SstView,
};
use slatedb::types::{RowEntry, ValueDeletable};
use std::collections::{BTreeMap, HashMap, VecDeque};

/// The rows of each table by the table's identifier, in key order.
struct Tables {
    rows: HashMap<u128, Vec<RowEntry>>,
    order: IterationOrder,
    /// Keys that a table refuses to be moved to.
    refuse_seek: Option<u128>,
    /// What went wrong, if anything is to go wrong.
    failing_table: Option<u128>,
}

/// An open table.
struct Cursor {
    table: u128,
    initialized: bool,
    rows: VecDeque<RowEntry>,
}

/// An iterator together with the tables it reads.
struct Walk<'a> {
    iter: SortedRunIterator<'a>,
    tables: Tables,
    cursor: Option<Cursor>,
    opened: Vec<u128>,
}

fn table_and_range<'v>(view: &'v SstView<'_>) -> (&'v SsTableView, &'v BytesRange) {
    match view {
        SstView::Owned(table, range) => (table.as_ref(), range),
        SstView::Borrowed(table, range) => (*table, range),
    }
}

impl<'a> Walk<'a> {
    fn run(&mut self, action: RunAction<'a>) -> Result<Option<RowEntry>, SlateDBError> {
        let mut action = action;
        loop {
            let event = match action {
                RunAction::Done(result) => return result,
                RunAction::Open(view) => {
                    let (table, range) = table_and_range(&view);
                    if self.tables.failing_table == Some(table.sst_id) {
                        RunEvent::Failed(SlateDBError::ChecksumMismatch)
                    } else {
                        let mut rows: Vec<RowEntry> = self.tables.rows[&table.sst_id]
                            .iter()
                            .filter(|row| range.contains(&row.key))
                            .cloned()
                            .collect();
                        if self.tables.order == IterationOrder::Descending {
                            rows.sort_by(|a, b| b.key.cmp(&a.key).then(b.seq.cmp(&a.seq)));
                        }
                        self.opened.push(table.sst_id);
                        self.cursor = Some(Cursor {
                            table: table.sst_id,
                            initialized: false,
                            rows: rows.into(),
                        });
                        RunEvent::Opened
                    }
                }
                RunAction::Init => {
                    self.cursor.as_mut().unwrap().initialized = true;
                    RunEvent::Ready
                }
                RunAction::Next => {
                    let cursor = self.cursor.as_mut().unwrap();
                    assert!(cursor.initialized);
                    RunEvent::Row(cursor.rows.pop_front())
                }
                RunAction::Seek(key) => {
                    let order = self.tables.order;
                    let cursor = self.cursor.as_mut().unwrap();
                    assert!(cursor.initialized);
                    if self.tables.refuse_seek == Some(cursor.table) {
                        RunEvent::Failed(SlateDBError::SeekKeyOutOfKeyRange)
                    } else {
                        cursor.rows.retain(|row| match order {
                            IterationOrder::Ascending => row.key >= key,
                            IterationOrder::Descending => row.key <= key,
                        });
                        RunEvent::Ready
                    }
                }
            };
            action = self.iter.on_event(event);
        }
    }

    fn init(&mut self) -> Result<(), SlateDBError> {
        let action = self.iter.init();
        self.run(action).map(|row| assert!(row.is_none()))
    }

    fn next(&mut self) -> Result<Option<RowEntry>, SlateDBError> {
        let action = self.iter.next();
        self.run(action)
    }

    fn seek(&mut self, key: &[u8]) -> Result<(), SlateDBError> {
        let action = self.iter.seek(key);
        self.run(action).map(|row| assert!(row.is_none()))
    }

    fn collect(&mut self) -> Vec<RowEntry> {
        let mut entries = Vec::new();
        while let Some(entry) = self.next().unwrap() {
            entries.push(entry);
        }
        entries
    }
}

fn range(start: Option<&[u8]>, end: Option<&[u8]>) -> BytesRange {
    BytesRange {
        start: start.map_or(KeyBound::Unbounded, |key| {
            KeyBound::Included(Bytes::copy_from_slice(key))
        }),
        end: end.map_or(KeyBound::Unbounded, |key| {
            KeyBound::Excluded(Bytes::copy_from_slice(key))
        }),
    }
}

fn table_view(id: u128, rows: &[RowEntry]) -> SsTableView {
    SsTableView::identity(
        id,
        BytesRange {
            start: KeyBound::Included(rows.first().unwrap().key.clone()),
            end: KeyBound::Included(rows.last().unwrap().key.clone()),
        },
    )
}

fn rows_of(entries: &[(&[u8], u64)]) -> Vec<RowEntry> {
    entries
        .iter()
        .map(|(key, seq)| RowEntry::new_value(key, b"value", *seq))
        .collect()
}

fn key_values(entries: &[(&str, &str)]) -> Vec<RowEntry> {
    entries
        .iter()
        .map(|(key, value)| RowEntry::new_value(key.as_bytes(), value.as_bytes(), 0))
        .collect()
}

/// A small generator of sample data.
struct Sampler(u64);

impl Sampler {
    fn next(&mut self) -> u64 {
        self.0 = self.0.wrapping_mul(6364136223846793005).wrapping_add(1442695040888963407);
        self.0 >> 33
    }

    fn bytes(&mut self, len: usize) -> Vec<u8> {
        (0..len).map(|_| self.next() as u8).collect()
    }

    /// Entries with keys and values of so many bytes.
    fn table(&mut self, entries: usize, len: usize) -> BTreeMap<Vec<u8>, Vec<u8>> {
        let mut table = BTreeMap::new();
        while table.len() < entries {
            table.insert(self.bytes(len), self.bytes(len));
        }
        table
    }

    /// A number of the range.
    fn within(&mut self, range: std::ops::Range<u64>) -> usize {
        (range.start + self.next() % (range.end - range.start)) as usize
    }
}

fn views_of(tables: &[Vec<RowEntry>]) -> Vec<SsTableView> {
    tables
        .iter()
        .enumerate()
        .map(|(i, rows)| table_view(i as u128, rows))
        .collect()
}

fn tables_of(tables: &[Vec<RowEntry>], order: IterationOrder) -> Tables {
    Tables {
        rows: tables
            .iter()
            .enumerate()
            .map(|(i, rows)| (i as u128, rows.clone()))
            .collect(),
        order,
        refuse_seek: None,
        failing_table: None,
    }
}

fn owned(
    range: BytesRange,
    views: Vec<SsTableView>,
    tables: &[Vec<RowEntry>],
    order: IterationOrder,
) -> Walk<'static> {
    let (iter, action) = SortedRunIterator::new_owned(range, views, order);
    let mut walk = Walk {
        iter,
        tables: tables_of(tables, order),
        cursor: None,
        opened: Vec::new(),
    };
    assert!(walk.run(action).unwrap().is_none());
    walk
}

fn owned_initialized(
    range: BytesRange,
    tables: &[Vec<RowEntry>],
    order: IterationOrder,
) -> Walk<'static> {
    let mut walk = owned(range, views_of(tables), tables, order);
    walk.init().unwrap();
    walk
}

fn borrowed_initialized<'a>(
    range: BytesRange,
    views: &'a Vec<SsTableView>,
    tables: &[Vec<RowEntry>],
    order: IterationOrder,
) -> Walk<'a> {
    let (iter, action) = SortedRunIterator::new_borrowed(range, views, order);
    let mut walk = Walk {
        iter,
        tables: tables_of(tables, order),
        cursor: None,
        opened: Vec::new(),
    };
    assert!(walk.run(action).unwrap().is_none());
    walk.init().unwrap();
    walk
}

fn assert_entries(actual: &[RowEntry], expected: &[(&[u8], u64)]) {
    assert_eq!(actual.len(), expected.len());
    for (entry, (key, seq)) in actual.iter().zip(expected) {
        assert_eq!((entry.key.as_ref(), entry.seq), (*key, *seq));
    }
}

fn assert_next(walk: &mut Walk<'_>, key: &str, value: &str) {
    let row = walk.next().unwrap().unwrap();
    assert_eq!(row.key.as_ref(), key.as_bytes());
    match row.value {
        ValueDeletable::Value(bytes) => assert_eq!(bytes.as_ref(), value.as_bytes()),
        other => panic!("unexpected value {other:?}"),
    }
}

fn value_of(row: &RowEntry) -> &[u8] {
    match &row.value {
        ValueDeletable::Value(value) | ValueDeletable::Merge(value) => value,
        ValueDeletable::Tombstone => &[],
    }
}

fn assert_same_kv(actual: &RowEntry, expected: &RowEntry) {
    assert_eq!(actual.key, expected.key);
    assert_eq!(value_of(actual), value_of(expected));
}

#[test]
fn should_require_initialization() {
    let mut walk = owned(
        BytesRange::unbounded(),
        vec![],
        &[],
        IterationOrder::Descending,
    );
    let error = walk.next().unwrap_err();
    assert!(matches!(error, SlateDBError::IteratorNotInitialized));
    let error = walk.seek(b"a").unwrap_err();
    assert!(matches!(error, SlateDBError::IteratorNotInitialized));
}

#[test]
fn test_one_sst_sr_iter() {
    let tables = [key_values(&[
        ("key1", "value1"),
        ("key2", "value2"),
        ("key3", "value3"),
    ])];
    let mut walk =
        owned_initialized(BytesRange::unbounded(), &tables, IterationOrder::Ascending);

    assert_next(&mut walk, "key1", "value1");
    walk.init().unwrap();
    assert_next(&mut walk, "key2", "value2");
    assert_next(&mut walk, "key3", "value3");
    assert!(walk.next().unwrap().is_none());
}

#[test]
fn test_many_sst_sr_iter() {
    let tables = [
        key_values(&[("key1", "value1"), ("key2", "value2")]),
        key_values(&[("key3", "value3")]),
    ];
    let mut walk =
        owned_initialized(BytesRange::unbounded(), &tables, IterationOrder::Ascending);

    assert_next(&mut walk, "key1", "value1");
    assert_next(&mut walk, "key2", "value2");
    assert_next(&mut walk, "key3", "value3");
    assert!(walk.next().unwrap().is_none());
    assert!(walk.next().unwrap().is_none());
}

#[test]
fn should_iterate_multi_sst_sorted_run_in_descending_order() {
    let tables = [
        key_values(&[("a", "value-a"), ("b", "value-b")]),
        key_values(&[("c", "value-c"), ("d", "value-d")]),
    ];
    let mut walk = owned_initialized(
        BytesRange::unbounded(),
        &tables,
        IterationOrder::Descending,
    );

    let actual: Vec<Bytes> = walk.collect().into_iter().map(|entry| entry.key).collect();

    assert_eq!(
        actual,
        vec![
            Bytes::from_static(b"d"),
            Bytes::from_static(b"c"),
            Bytes::from_static(b"b"),
            Bytes::from_static(b"a"),
        ]
    );
}

#[test]
fn should_support_descending_iteration_across_sst_boundaries() {
    let tables = [
        rows_of(&[(b"a".as_slice(), 110), (b"c", 100), (b"c", 90)]),
        rows_of(&[(b"c".as_slice(), 80), (b"d", 70), (b"e", 60)]),
        rows_of(&[(b"g".as_slice(), 50), (b"g", 40), (b"h", 30)]),
    ];
    let all = [
        (b"h".as_slice(), 30),
        (b"g".as_slice(), 50),
        (b"g".as_slice(), 40),
        (b"e".as_slice(), 60),
        (b"d".as_slice(), 70),
        (b"c".as_slice(), 100),
        (b"c".as_slice(), 90),
        (b"c".as_slice(), 80),
        (b"a".as_slice(), 110),
    ];

    let views = views_of(&tables);
    let mut borrowed = borrowed_initialized(
        BytesRange::unbounded(),
        &views,
        &tables,
        IterationOrder::Descending,
    );
    assert_entries(&borrowed.collect(), &all);

    let mut bounded = owned_initialized(
        range(Some(b"b"), Some(b"h")),
        &tables,
        IterationOrder::Descending,
    );
    assert_entries(&bounded.collect(), &all[1..8]);

    let mut exact = owned_initialized(
        BytesRange::unbounded(),
        &tables,
        IterationOrder::Descending,
    );
    exact.seek(b"c").unwrap();
    assert_entries(&exact.collect(), &all[5..]);

    let mut gap = owned_initialized(
        BytesRange::unbounded(),
        &tables,
        IterationOrder::Descending,
    );
    assert_eq!(gap.next().unwrap().unwrap().key, b"h".as_slice());
    gap.seek(b"f").unwrap();
    assert_entries(&gap.collect(), &all[3..]);
}

#[test]
fn test_sr_iter_respects_visible_range() {
    let tables = [
        key_values(&[
            ("key1", "value1"),
            ("key2", "value2"),
            ("key3", "value3"),
            ("key4", "value4"),
        ]),
        key_values(&[
            ("key5", "value5"),
            ("key6", "value6"),
            ("key7", "value7"),
            ("key8", "value8"),
        ]),
    ];
    let mut views = views_of(&tables);
    views[0].visible_range = Some(range(Some(b"key2"), Some(b"key4")));
    views[1].visible_range = Some(range(Some(b"key5"), Some(b"key7")));

    let mut walk = borrowed_initialized(
        BytesRange::unbounded(),
        &views,
        &tables,
        IterationOrder::Ascending,
    );
    for i in [2, 3, 5, 6] {
        let row = walk.next().unwrap().unwrap();
        assert_eq!(row.key.as_ref(), format!("key{i}").as_bytes());
    }
    assert!(walk.next().unwrap().is_none());

    let mut walk = owned(
        range(Some(b"key6"), None),
        views,
        &tables,
        IterationOrder::Ascending,
    );
    walk.init().unwrap();
    let row = walk.next().unwrap().unwrap();
    assert_eq!(row.key.as_ref(), b"key6");
    assert!(walk.next().unwrap().is_none());
    assert_eq!(walk.opened, vec![1]);
}

fn thirty_keys() -> Vec<Vec<RowEntry>> {
    (0..3u8)
        .map(|table| {
            (0..10u8)
                .map(|i| {
                    let mut key = [b'a'; 16];
                    key[15] = b'a' + (table * 10 + i) % 26;
                    key[14] = b'a' + (table * 10 + i) / 26;
                    let mut value = [0u8; 16];
                    value[15] = (table * 10 + i) % 27;
                    value[14] = (table * 10 + i) / 27;
                    RowEntry::new_value(&key, &value, 0)
                })
                .collect()
        })
        .collect()
}

#[test]
fn test_sr_iter_from_key() {
    let tables = thirty_keys();
    let views = views_of(&tables);
    let expected: Vec<RowEntry> = tables.concat();
    for i in 0..30 {
        let mut walk = borrowed_initialized(
            range(Some(&expected[i].key), None),
            &views,
            &tables,
            IterationOrder::Ascending,
        );
        for row in &expected[i..] {
            assert_same_kv(&walk.next().unwrap().unwrap(), row);
        }
        assert!(walk.next().unwrap().is_none());
    }
}

#[test]
fn test_sr_iter_from_key_lower_than_range() {
    let tables = thirty_keys();
    let views = views_of(&tables);
    let mut walk = borrowed_initialized(
        range(Some(&[b'a', 10]), None),
        &views,
        &tables,
        IterationOrder::Ascending,
    );
    for row in tables.concat() {
        assert_same_kv(&walk.next().unwrap().unwrap(), &row);
    }
    assert!(walk.next().unwrap().is_none());
}

#[test]
fn test_sr_iter_from_key_higher_than_range() {
    let tables = thirty_keys();
    let views = views_of(&tables);
    let mut walk = borrowed_initialized(
        range(Some(&[b'z', 30]), None),
        &views,
        &tables,
        IterationOrder::Ascending,
    );
    assert!(walk.next().unwrap().is_none());
}

#[test]
fn test_seek_through_sorted_run() {
    let mut sampler = Sampler(5);
    let table = sampler.table(400, 10);
    let all: Vec<RowEntry> = table
        .iter()
        .map(|(key, value)| RowEntry::new_value(key, value, 0))
        .collect();
    let mut tables: Vec<Vec<RowEntry>> = Vec::new();
    let mut built = 0;
    while built < all.len() {
        let end = all.len().min(built + sampler.within(1..20));
        tables.push(all[built..end].to_vec());
        built = end;
    }
    let mut walk =
        owned_initialized(BytesRange::unbounded(), &tables, IterationOrder::Ascending);
    let mut at = 0;
    loop {
        let skip = sampler.within(0..40);
        let run = sampler.within(0..40);
        if at + skip >= all.len() {
            break;
        }
        at += skip;
        let mut seek_key = all[at].key.to_vec();
        seek_key.push(u8::MIN);
        walk.seek(&seek_key).unwrap();
        at += 1;
        let end = all.len().min(at + run);
        for row in &all[at..end] {
            assert_same_kv(&walk.next().unwrap().unwrap(), row);
        }
        at = end;
    }
}

#[test]
fn seeks_skip_keys_within_and_between_tables() {
    let tables = thirty_keys();
    let all: Vec<RowEntry> = tables.concat();
    let mut walk =
        owned_initialized(BytesRange::unbounded(), &tables, IterationOrder::Ascending);
    let mut at = 0usize;
    for (skip, run) in [(2usize, 3usize), (0, 9), (4, 1), (5, 2)] {
        at += skip;
        let mut seek_key = all[at].key.to_vec();
        seek_key.push(u8::MIN);
        walk.seek(&seek_key).unwrap();
        at += 1;
        for row in &all[at..at + run] {
            assert_same_kv(&walk.next().unwrap().unwrap(), row);
        }
        at += run;
    }
}

#[test]
fn descending_rows_are_the_ascending_ones_in_another_order() {
    let tables = [
        rows_of(&[(b"a".as_slice(), 5), (b"k", 40), (b"k", 10)]),
        rows_of(&[(b"k".as_slice(), 50), (b"k", 20)]),
        rows_of(&[(b"k".as_slice(), 45), (b"z", 1)]),
    ];
    let ids = |rows: Vec<RowEntry>| -> Vec<(Vec<u8>, u64)> {
        rows.iter().map(|row| (row.key.to_vec(), row.seq)).collect()
    };
    let up = ids(
        owned_initialized(BytesRange::unbounded(), &tables, IterationOrder::Ascending).collect(),
    );
    assert_eq!(up, ids(tables.concat()));
    let down = ids(
        owned_initialized(BytesRange::unbounded(), &tables, IterationOrder::Descending).collect(),
    );
    for pair in down.windows(2) {
        assert!(pair[0].0 > pair[1].0 || pair[0].0 == pair[1].0 && pair[0].1 >= pair[1].1);
    }
    let (mut up, mut down) = (up, down);
    up.sort();
    down.sort();
    assert_eq!(up, down);
}

#[test]
fn versions_of_one_key_merge_newest_first_over_three_tables() {
    let tables = [
        rows_of(&[(b"a".as_slice(), 5), (b"k", 40), (b"k", 10)]),
        rows_of(&[(b"k".as_slice(), 50), (b"k", 20)]),
        rows_of(&[(b"k".as_slice(), 45), (b"z", 1)]),
    ];
    let mut walk = owned_initialized(
        BytesRange::unbounded(),
        &tables,
        IterationOrder::Descending,
    );
    assert_entries(
        &walk.collect(),
        &[
            (b"z".as_slice(), 1),
            (b"k".as_slice(), 50),
            (b"k".as_slice(), 45),
            (b"k".as_slice(), 40),
            (b"k".as_slice(), 20),
            (b"k".as_slice(), 10),
            (b"a".as_slice(), 5),
        ],
    );
}

#[test]
fn descending_seek_goes_on_to_the_next_table_when_refused() {
    let tables = [
        rows_of(&[(b"a".as_slice(), 1), (b"b", 2)]),
        rows_of(&[(b"m".as_slice(), 3), (b"n", 4)]),
    ];
    let mut walk = owned_initialized(
        BytesRange::unbounded(),
        &tables,
        IterationOrder::Descending,
    );
    walk.tables.refuse_seek = Some(1);
    walk.seek(b"c").unwrap();
    assert_entries(&walk.collect(), &[(b"b".as_slice(), 2), (b"a".as_slice(), 1)]);
    assert_eq!(walk.opened, vec![1, 0]);
}

#[test]
fn a_failure_to_open_a_table_is_returned() {
    let tables = [
        key_values(&[("key1", "value1")]),
        key_values(&[("key2", "value2")]),
    ];
    let mut walk =
        owned_initialized(BytesRange::unbounded(), &tables, IterationOrder::Ascending);
    walk.tables.failing_table = Some(1);
    assert_next(&mut walk, "key1", "value1");
    assert!(matches!(
        walk.next().unwrap_err(),
        SlateDBError::ChecksumMismatch
    ));
}

#[test]
fn hidden_tables_are_popped_without_being_returned() {
    let rows = key_values(&[("b", "1")]);
    let mut hidden = table_view(1, &rows);
    hidden.visible_range = Some(range(Some(b"x"), Some(b"y")));
    let shown = table_view(2, &rows);
    let queue: VecDeque<SsTableView> = vec![hidden, shown].into();
    let mut view = SortedRunView::Owned(queue, range(Some(b"a"), Some(b"c")));

    assert_eq!(view.peek_next_table().unwrap().id, 1);
    let popped = view.pop_sst().unwrap();
    assert_eq!(table_and_range(&popped).0.id, 2);
    assert!(view.peek_next_table().is_none());
    assert!(view.pop_sst().is_none());
}

#[test]
fn popped_tables_are_owned_or_borrowed_like_the_run() {
    let rows = key_values(&[("b", "1")]);
    let queue: VecDeque<SsTableView> = vec![table_view(1, &rows)].into();
    let mut view = SortedRunView::Owned(queue, BytesRange::unbounded());
    assert!(matches!(view.pop_sst(), Some(SstView::Owned(..))));

    let views = vec![table_view(1, &rows)];
    let queue: VecDeque<&SsTableView> = views.iter().collect();
    let mut view = SortedRunView::Borrowed(queue, BytesRange::unbounded());
    assert!(matches!(view.pop_sst(), Some(SstView::Borrowed(..))));
}
