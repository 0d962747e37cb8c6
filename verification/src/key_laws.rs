//! What holds of the order of keys, of ranges of keys, and of the part of a
//! range that may be read from a table.
use crate::byte_string::{bytes_contents, key_order, lemma_lex_asymmetric, lemma_lex_irreflexive,
    lemma_lex_total, lex_le, lex_lt, KeyOrder};
use crate::bytes_range::{law_crossed_range_is_empty, law_intersection_is_exact, starts_with,
    BoundView, BytesRange, KeyBound, RangeView};
use crate::db_state::{SsTableView, TableView};
use crate::sorted_run_iterator::hidden_tables;
use vstd::prelude::*;

verus! {

/// Two keys that agree up to a place are ordered by their bytes there; a key
/// that ends there is before every longer one.
pub proof fn law_keys_are_ordered_by_their_first_difference(a: Seq<u8>, b: Seq<u8>, at: int)
    requires
        0 <= at <= a.len(),
        at <= b.len(),
        forall|i: int| 0 <= i < at ==> a[i] == b[i],
    ensures
        at < a.len() && at < b.len() && a[at] != b[at] ==> (lex_lt(a, b) <==> a[at] < b[at]),
        at == a.len() ==> (lex_lt(a, b) <==> a.len() < b.len()),
        at == b.len() ==> !lex_lt(a, b),
    decreases at,
{
    if at > 0 {
        let rest_a = a.drop_first();
        let rest_b = b.drop_first();
        assert(a[0] == b[0]);
        assert forall|i: int| 0 <= i < at - 1 implies rest_a[i] == rest_b[i] by {
            assert(rest_a[i] == a[i + 1]);
            assert(rest_b[i] == b[i + 1]);
        }
        law_keys_are_ordered_by_their_first_difference(rest_a, rest_b, at - 1);
    }
}

/// Comparing two keys tells whether they are equal, and otherwise which of them
/// is before the other.
pub proof fn law_comparison_tells_the_order(a: Seq<u8>, b: Seq<u8>)
    ensures
        key_order(a, b) == KeyOrder::Equal <==> a == b,
        key_order(a, b) == KeyOrder::Less <==> lex_lt(a, b),
        key_order(a, b) == KeyOrder::Greater <==> lex_lt(b, a),
        lex_le(a, b) <==> a == b || lex_lt(a, b),
        lex_le(a, b) <==> !lex_lt(b, a),
{
    lemma_lex_total(a, b);
    lemma_lex_asymmetric(a, b);
    lemma_lex_irreflexive(a);
}

/// A bound shows its key, and whether the key itself is within it.
pub proof fn law_a_bound_shows_its_key(bound: KeyBound)
    ensures
        bound matches KeyBound::Included(key) ==> bound@ == BoundView::Included(
            bytes_contents(key),
        ),
        bound matches KeyBound::Excluded(key) ==> bound@ == BoundView::Excluded(
            bytes_contents(key),
        ),
        bound is Unbounded ==> bound@ == BoundView::Unbounded,
{
}

/// A range holds the keys between its bounds: those not before the start and not
/// past the end, the key of a bound only where the bound takes it in.
pub proof fn law_a_range_holds_the_keys_between_its_bounds(range: BytesRange, key: Seq<u8>)
    ensures
        range@.start == range.start@,
        range@.end == range.end@,
        range@.contains(key) <==> {
            &&& range.start matches KeyBound::Included(start) ==> !lex_lt(
                key,
                bytes_contents(start),
            )
            &&& range.start matches KeyBound::Excluded(start) ==> lex_lt(
                bytes_contents(start),
                key,
            )
            &&& range.end matches KeyBound::Included(end) ==> !lex_lt(bytes_contents(end), key)
            &&& range.end matches KeyBound::Excluded(end) ==> lex_lt(key, bytes_contents(end))
        },
{
    if let KeyBound::Included(start) = range.start {
        law_comparison_tells_the_order(bytes_contents(start), key);
    }
    if let KeyBound::Included(end) = range.end {
        law_comparison_tells_the_order(key, bytes_contents(end));
    }
}

/// The bounds of a range are the wrong way round only where both have a key, and
/// the start's is past the end's or is the same without both taking it in.
pub proof fn law_bounds_are_crossed_where_the_start_is_past_the_end(range: BytesRange)
    ensures
        range.start is Unbounded || range.end is Unbounded ==> range@.non_empty(),
        range.start matches KeyBound::Included(start) ==> (range.end matches KeyBound::Included(
            end,
        ) ==> (range@.non_empty() <==> !lex_lt(bytes_contents(end), bytes_contents(start)))),
        range.start matches KeyBound::Included(start) ==> (range.end matches KeyBound::Excluded(
            end,
        ) ==> (range@.non_empty() <==> lex_lt(bytes_contents(start), bytes_contents(end)))),
        range.start matches KeyBound::Excluded(start) ==> (range.end matches KeyBound::Included(
            end,
        ) ==> (range@.non_empty() <==> lex_lt(bytes_contents(start), bytes_contents(end)))),
        range.start matches KeyBound::Excluded(start) ==> (range.end matches KeyBound::Excluded(
            end,
        ) ==> (range@.non_empty() <==> lex_lt(bytes_contents(start), bytes_contents(end)))),
{
    if let (KeyBound::Included(start), KeyBound::Included(end)) = (range.start, range.end) {
        law_comparison_tells_the_order(bytes_contents(start), bytes_contents(end));
    }
}

/// Two ranges meet in a range that has the start of one of them and the end of
/// one of them.
pub proof fn law_intersection_takes_its_bounds_from_the_ranges(a: RangeView, b: RangeView)
    ensures
        a.intersection(b).start == a.start || a.intersection(b).start == b.start,
        a.intersection(b).end == a.end || a.intersection(b).end == b.end,
        b.start is Unbounded ==> a.intersection(b).start == a.start,
        b.end is Unbounded ==> a.intersection(b).end == a.end,
        a.start is Unbounded ==> a.intersection(b).start == b.start,
        a.end is Unbounded ==> a.intersection(b).end == b.end,
{
}

/// A key has a prefix where it is at least as long and agrees with it byte by byte.
pub proof fn law_a_prefix_agrees_byte_by_byte(key: Seq<u8>, prefix: Seq<u8>)
    ensures
        starts_with(key, prefix) <==> prefix.len() <= key.len() && forall|i: int|
            0 <= i < prefix.len() ==> key[i] == prefix[i],
{
    if prefix.len() <= key.len() {
        let front = key.take(prefix.len() as int);
        if starts_with(key, prefix) {
            assert forall|i: int| 0 <= i < prefix.len() implies key[i] == prefix[i] by {
                assert(front[i] == key[i]);
            }
        }
        if forall|i: int| 0 <= i < prefix.len() ==> key[i] == prefix[i] {
            assert(front =~= prefix);
        }
    }
}

/// A table shows its identifiers and its ranges.
pub proof fn law_a_table_shows_its_fields(table: SsTableView)
    ensures
        table@.id == table.id,
        table@.sst_id == table.sst_id,
        table@.effective_range == table.effective_range@,
        table@.visible_range is Some <==> table.visible_range is Some,
        table.visible_range matches Some(range) ==> table@.visible_range == Some(range@),
{
}

/// The part of a requested range that is read from a table holds exactly the
/// requested keys that the table lets be seen. A table that lets every key be
/// seen is read over the requested range as it is, and nothing is read only
/// where there is no key to see.
pub proof fn law_the_part_read_is_what_was_asked_for_and_may_be_seen(
    table: SsTableView,
    range: RangeView,
    key: Seq<u8>,
)
    ensures
        table@.view_range(range) matches Some(part) ==> (part.contains(key) <==> range.contains(key)
            && (table.visible_range matches Some(visible) ==> visible@.contains(key))),
        table@.view_range(range) is None ==> table.visible_range is Some && !(range.contains(key)
            && table.visible_range->0@.contains(key)),
        table.visible_range is None ==> table@.view_range(range) == Some(range),
        table@.view_range(range) matches Some(part) ==> {
            &&& part.start == range.start || part.start == table.visible_range->0@.start
            &&& part.end == range.end || part.end == table.visible_range->0@.end
        },
{
    if let Some(visible) = table.visible_range {
        law_intersection_is_exact(range, visible@, key);
        if !range.intersection(visible@).non_empty() {
            law_crossed_range_is_empty(range.intersection(visible@), key);
        }
    }
}

/// Only tables of which no requested key may be seen are passed over, and the
/// first other one is the next to be opened.
pub proof fn law_only_tables_without_a_key_to_see_are_passed_over(
    tables: Seq<TableView>,
    range: RangeView,
)
    ensures
        hidden_tables(tables, range) <= tables.len(),
        hidden_tables(tables, range) < tables.len() ==> tables[hidden_tables(
            tables,
            range,
        ) as int].view_range(range) is Some,
        forall|i: int, key: Seq<u8>|
            0 <= i < hidden_tables(tables, range) && #[trigger] range.contains(key) ==> (
            #[trigger] tables[i]).visible_range is Some
                && !tables[i].visible_range->0.contains(key),
        forall|i: int|
            0 <= i < hidden_tables(tables, range) ==> (#[trigger] tables[i]).view_range(range)
                is None && tables[i].visible_range is Some,
    decreases tables.len(),
{
    if tables.len() > 0 && tables[0].view_range(range) is None {
        let rest = tables.drop_first();
        law_only_tables_without_a_key_to_see_are_passed_over(rest, range);
        assert forall|i: int| 0 <= i < hidden_tables(tables, range) implies (
        #[trigger] tables[i]).view_range(range) is None && tables[i].visible_range is Some by {
            if i > 0 {
                assert(rest[i - 1] == tables[i]);
            }
        }
        assert forall|i: int, key: Seq<u8>|
            0 <= i < hidden_tables(tables, range) && #[trigger] range.contains(key) implies (
        #[trigger] tables[i]).visible_range is Some && !tables[i].visible_range->0.contains(
            key,
        ) by {
            if i > 0 {
                assert(rest[i - 1] == tables[i]);
            } else {
                let visible = tables[0].visible_range->0;
                law_intersection_is_exact(range, visible, key);
                law_crossed_range_is_empty(range.intersection(visible), key);
            }
        }
    }
}

} // verus!
