//! Ranges of keys.
use crate::byte_string::{as_slice, bytes_contents, clone_bytes, compare_keys,
    lemma_lex_asymmetric, lemma_lex_irreflexive, lemma_lex_total, lemma_lex_transitive, lex_le,
    lex_lt, KeyOrder};
use bytes::Bytes;
use vstd::prelude::*;

verus! {

/// One end of a range of keys.
#[derive(Debug)]
pub enum KeyBound {
    Included(Bytes),
    Excluded(Bytes),
    Unbounded,
}

/// The meaning of a [`KeyBound`].
pub enum BoundView {
    Included(Seq<u8>),
    Excluded(Seq<u8>),
    Unbounded,
}

impl View for KeyBound {
    type V = BoundView;

    open spec fn view(&self) -> BoundView {
        match self {
            KeyBound::Included(key) => BoundView::Included(bytes_contents(*key)),
            KeyBound::Excluded(key) => BoundView::Excluded(bytes_contents(*key)),
            KeyBound::Unbounded => BoundView::Unbounded,
        }
    }
}

impl Clone for KeyBound {
    fn clone(&self) -> (copy: Self)
        ensures
            copy@ == self@,
    {
        match self {
            KeyBound::Included(key) => KeyBound::Included(clone_bytes(key)),
            KeyBound::Excluded(key) => KeyBound::Excluded(clone_bytes(key)),
            KeyBound::Unbounded => KeyBound::Unbounded,
        }
    }
}

impl KeyBound {
    /// Whether two bounds are the same.
    pub fn same(&self, other: &KeyBound) -> (same: bool)
        ensures
            same == (self@ == other@),
    {
        match (self, other) {
            (KeyBound::Included(a), KeyBound::Included(b)) => {
                matches!(compare_keys(as_slice(a), as_slice(b)), KeyOrder::Equal)
            },
            (KeyBound::Excluded(a), KeyBound::Excluded(b)) => {
                matches!(compare_keys(as_slice(a), as_slice(b)), KeyOrder::Equal)
            },
            (KeyBound::Unbounded, KeyBound::Unbounded) => true,
            _ => false,
        }
    }
}

/// A range of keys.
#[derive(Debug)]
pub struct BytesRange {
    pub start: KeyBound,
    pub end: KeyBound,
}

/// The meaning of a [`BytesRange`].
pub struct RangeView {
    pub start: BoundView,
    pub end: BoundView,
}

impl View for BytesRange {
    type V = RangeView;

    open spec fn view(&self) -> RangeView {
        RangeView { start: self.start@, end: self.end@ }
    }
}

impl Clone for BytesRange {
    fn clone(&self) -> (copy: Self)
        ensures
            copy@ == self@,
    {
        BytesRange { start: self.start.clone(), end: self.end.clone() }
    }
}

impl BoundView {
    /// The key is not before this start.
    pub open spec fn starts_at(self, key: Seq<u8>) -> bool {
        match self {
            BoundView::Included(start) => lex_le(start, key),
            BoundView::Excluded(start) => lex_lt(start, key),
            BoundView::Unbounded => true,
        }
    }

    /// The key is not past this end.
    pub open spec fn ends_at(self, key: Seq<u8>) -> bool {
        match self {
            BoundView::Included(end) => lex_le(key, end),
            BoundView::Excluded(end) => lex_lt(key, end),
            BoundView::Unbounded => true,
        }
    }
}

impl RangeView {
    /// The keys in the range.
    pub open spec fn contains(self, key: Seq<u8>) -> bool {
        self.start.starts_at(key) && self.end.ends_at(key)
    }

    /// The bounds are the right way round: two included bounds may be the same
    /// key, and other bounds have the start before the end.
    pub open spec fn non_empty(self) -> bool {
        match (self.start, self.end) {
            (BoundView::Unbounded, _) => true,
            (_, BoundView::Unbounded) => true,
            (BoundView::Included(start), BoundView::Included(end)) => lex_le(start, end),
            (BoundView::Included(start), BoundView::Excluded(end)) => lex_lt(start, end),
            (BoundView::Excluded(start), BoundView::Included(end)) => lex_lt(start, end),
            (BoundView::Excluded(start), BoundView::Excluded(end)) => lex_lt(start, end),
        }
    }

    /// The later of the two starts with the earlier of the two ends.
    pub open spec fn intersection(self, other: RangeView) -> RangeView {
        RangeView {
            start: later_start(self.start, other.start),
            end: earlier_end(self.end, other.end),
        }
    }
}

/// The start that fewer keys satisfy.
pub open spec fn later_start(a: BoundView, b: BoundView) -> BoundView {
    match (a, b) {
        (BoundView::Unbounded, _) => b,
        (_, BoundView::Unbounded) => a,
        (BoundView::Included(x), BoundView::Included(y)) => if lex_lt(x, y) {
            b
        } else {
            a
        },
        (BoundView::Included(x), BoundView::Excluded(y)) => if lex_le(x, y) {
            b
        } else {
            a
        },
        (BoundView::Excluded(x), BoundView::Included(y)) => if lex_lt(x, y) {
            b
        } else {
            a
        },
        (BoundView::Excluded(x), BoundView::Excluded(y)) => if lex_lt(x, y) {
            b
        } else {
            a
        },
    }
}

/// The end that fewer keys satisfy.
pub open spec fn earlier_end(a: BoundView, b: BoundView) -> BoundView {
    match (a, b) {
        (BoundView::Unbounded, _) => b,
        (_, BoundView::Unbounded) => a,
        (BoundView::Included(x), BoundView::Included(y)) => if lex_lt(y, x) {
            b
        } else {
            a
        },
        (BoundView::Included(x), BoundView::Excluded(y)) => if lex_le(y, x) {
            b
        } else {
            a
        },
        (BoundView::Excluded(x), BoundView::Included(y)) => if lex_lt(y, x) {
            b
        } else {
            a
        },
        (BoundView::Excluded(x), BoundView::Excluded(y)) => if lex_lt(y, x) {
            b
        } else {
            a
        },
    }
}

/// A key is in the intersection of two ranges exactly where it is in both.
pub proof fn law_intersection_is_exact(a: RangeView, b: RangeView, key: Seq<u8>)
    ensures
        a.intersection(b).contains(key) <==> a.contains(key) && b.contains(key),
{
    let bounds = seq![bound_key(a.start), bound_key(b.start), bound_key(a.end), bound_key(b.end)];
    assert forall|i: int, j: int| 0 <= i < 4 && 0 <= j < 4 implies {
        &&& lex_lt(#[trigger] bounds[i], #[trigger] bounds[j]) || lex_lt(bounds[j], bounds[i])
            || bounds[i] == bounds[j]
        &&& lex_lt(bounds[i], bounds[j]) && lex_lt(bounds[j], key) ==> lex_lt(bounds[i], key)
        &&& lex_lt(key, bounds[i]) && lex_lt(bounds[i], bounds[j]) ==> lex_lt(key, bounds[j])
    } by {
        lemma_lex_total(bounds[i], bounds[j]);
        if lex_lt(bounds[i], bounds[j]) && lex_lt(bounds[j], key) {
            lemma_lex_transitive(bounds[i], bounds[j], key);
        }
        if lex_lt(key, bounds[i]) && lex_lt(bounds[i], bounds[j]) {
            lemma_lex_transitive(key, bounds[i], bounds[j]);
        }
    }
    assert(bounds[0] == bound_key(a.start));
    assert(bounds[1] == bound_key(b.start));
    assert(bounds[2] == bound_key(a.end));
    assert(bounds[3] == bound_key(b.end));
}

/// The key of a bound.
pub open spec fn bound_key(bound: BoundView) -> Seq<u8> {
    match bound {
        BoundView::Included(key) => key,
        BoundView::Excluded(key) => key,
        BoundView::Unbounded => Seq::empty(),
    }
}

/// A range with its bounds the wrong way round holds no key.
pub proof fn law_crossed_range_is_empty(range: RangeView, key: Seq<u8>)
    requires
        !range.non_empty(),
    ensures
        !range.contains(key),
{
    let start = bound_key(range.start);
    let end = bound_key(range.end);
    lemma_lex_irreflexive(key);
    lemma_lex_irreflexive(start);
    lemma_lex_asymmetric(start, key);
    lemma_lex_asymmetric(key, end);
    lemma_lex_asymmetric(start, end);
    if lex_lt(start, key) && lex_lt(key, end) {
        lemma_lex_transitive(start, key, end);
    }
}

/// Which of two start bounds fewer keys satisfy.
fn pick_start(a: &KeyBound, b: &KeyBound) -> (picked: KeyBound)
    ensures
        picked@ == later_start(a@, b@),
{
    let take_second: bool = match (a, b) {
        (KeyBound::Unbounded, _) => true,
        (_, KeyBound::Unbounded) => false,
        (KeyBound::Included(x), KeyBound::Excluded(y)) => {
            !matches!(compare_keys(as_slice(x), as_slice(y)), KeyOrder::Greater)
        },
        (KeyBound::Included(x), KeyBound::Included(y)) => {
            matches!(compare_keys(as_slice(x), as_slice(y)), KeyOrder::Less)
        },
        (KeyBound::Excluded(x), KeyBound::Included(y)) => {
            matches!(compare_keys(as_slice(x), as_slice(y)), KeyOrder::Less)
        },
        (KeyBound::Excluded(x), KeyBound::Excluded(y)) => {
            matches!(compare_keys(as_slice(x), as_slice(y)), KeyOrder::Less)
        },
    };
    if take_second {
        b.clone()
    } else {
        a.clone()
    }
}

/// Which of two end bounds fewer keys satisfy.
fn pick_end(a: &KeyBound, b: &KeyBound) -> (picked: KeyBound)
    ensures
        picked@ == earlier_end(a@, b@),
{
    let take_second: bool = match (a, b) {
        (KeyBound::Unbounded, _) => true,
        (_, KeyBound::Unbounded) => false,
        (KeyBound::Included(x), KeyBound::Excluded(y)) => {
            !matches!(compare_keys(as_slice(y), as_slice(x)), KeyOrder::Greater)
        },
        (KeyBound::Included(x), KeyBound::Included(y)) => {
            matches!(compare_keys(as_slice(y), as_slice(x)), KeyOrder::Less)
        },
        (KeyBound::Excluded(x), KeyBound::Included(y)) => {
            matches!(compare_keys(as_slice(y), as_slice(x)), KeyOrder::Less)
        },
        (KeyBound::Excluded(x), KeyBound::Excluded(y)) => {
            matches!(compare_keys(as_slice(y), as_slice(x)), KeyOrder::Less)
        },
    };
    if take_second {
        b.clone()
    } else {
        a.clone()
    }
}

impl BytesRange {
    /// The range of every key.
    pub fn unbounded() -> (range: BytesRange)
        ensures
            range@ == (RangeView { start: BoundView::Unbounded, end: BoundView::Unbounded }),
    {
        BytesRange { start: KeyBound::Unbounded, end: KeyBound::Unbounded }
    }

    /// Whether the key is in the range.
    pub fn contains(&self, key: &[u8]) -> (inside: bool)
        ensures
            inside == self@.contains(key@),
    {
        let starts: bool = match &self.start {
            KeyBound::Included(start) => {
                !matches!(compare_keys(as_slice(start), key), KeyOrder::Greater)
            },
            KeyBound::Excluded(start) => {
                matches!(compare_keys(as_slice(start), key), KeyOrder::Less)
            },
            KeyBound::Unbounded => true,
        };
        let ends: bool = match &self.end {
            KeyBound::Included(end) => {
                !matches!(compare_keys(key, as_slice(end)), KeyOrder::Greater)
            },
            KeyBound::Excluded(end) => {
                matches!(compare_keys(key, as_slice(end)), KeyOrder::Less)
            },
            KeyBound::Unbounded => true,
        };
        starts && ends
    }

    /// Whether two ranges have the same bounds.
    pub fn same(&self, other: &BytesRange) -> (same: bool)
        ensures
            same == (self@ == other@),
    {
        self.start.same(&other.start) && self.end.same(&other.end)
    }

    /// Whether the bounds are the right way round.
    pub fn is_non_empty(&self) -> (non_empty: bool)
        ensures
            non_empty == self@.non_empty(),
    {
        match (&self.start, &self.end) {
            (KeyBound::Unbounded, _) => true,
            (_, KeyBound::Unbounded) => true,
            (KeyBound::Included(start), KeyBound::Included(end)) => {
                !matches!(compare_keys(as_slice(start), as_slice(end)), KeyOrder::Greater)
            },
            (KeyBound::Included(start), KeyBound::Excluded(end)) => {
                matches!(compare_keys(as_slice(start), as_slice(end)), KeyOrder::Less)
            },
            (KeyBound::Excluded(start), KeyBound::Included(end)) => {
                matches!(compare_keys(as_slice(start), as_slice(end)), KeyOrder::Less)
            },
            (KeyBound::Excluded(start), KeyBound::Excluded(end)) => {
                matches!(compare_keys(as_slice(start), as_slice(end)), KeyOrder::Less)
            },
        }
    }

    /// The keys in both ranges, or `None` where the ranges do not meet.
    pub fn intersect(&self, other: &BytesRange) -> (both: Option<BytesRange>)
        ensures
            both is Some <==> self@.intersection(other@).non_empty(),
            both matches Some(range) ==> range@ == self@.intersection(other@),
    {
        let range = BytesRange {
            start: pick_start(&self.start, &other.start),
            end: pick_end(&self.end, &other.end),
        };
        if range.is_non_empty() {
            Some(range)
        } else {
            None
        }
    }
}

/// The key begins with the prefix.
pub open spec fn starts_with(key: Seq<u8>, prefix: Seq<u8>) -> bool {
    prefix.len() <= key.len() && key.take(prefix.len() as int) == prefix
}

/// The least key that is past every key with the prefix, where there is one.
pub open spec fn prefix_successor(prefix: Seq<u8>) -> Option<Seq<u8>>
    decreases prefix.len(),
{
    if prefix.len() == 0 {
        None
    } else {
        match prefix_successor(prefix.drop_first()) {
            Some(rest) => Some(seq![prefix[0]] + rest),
            None => if prefix[0] == 0xFF {
                None
            } else {
                Some(seq![(prefix[0] + 1) as u8])
            },
        }
    }
}

/// The keys with a prefix are those from the prefix up to its successor.
proof fn lemma_prefix_range(prefix: Seq<u8>, key: Seq<u8>)
    ensures
        starts_with(key, prefix) <==> lex_le(prefix, key) && (prefix_successor(prefix) matches Some(
            end,
        ) ==> lex_lt(key, end)),
    decreases prefix.len(),
{
    if prefix.len() == 0 {
        assert(key.take(0) =~= prefix);
        assert(key.len() == 0 ==> key =~= prefix);
    } else if key.len() > 0 {
        let rest = prefix.drop_first();
        let tail = key.drop_first();
        lemma_prefix_range(rest, tail);
        lemma_same_first(prefix, key);
        assert(starts_with(key, prefix) <==> key[0] == prefix[0] && starts_with(tail, rest)) by {
            if starts_with(key, prefix) {
                assert(key[0] == key.take(prefix.len() as int)[0]);
                assert(tail.take(rest.len() as int) =~= key.take(prefix.len() as int).drop_first());
            }
            if key[0] == prefix[0] && starts_with(tail, rest) {
                assert(key.take(prefix.len() as int) =~= seq![prefix[0]] + tail.take(
                    rest.len() as int,
                ));
                assert(prefix =~= seq![prefix[0]] + rest);
            }
        }
        assert(key[0] == prefix[0] ==> lex_le(prefix, key) == lex_le(rest, tail));
        match prefix_successor(rest) {
            Some(end) => {
                let whole = seq![prefix[0]] + end;
                assert(whole.drop_first() =~= end);
                assert(prefix_successor(prefix) == Some(whole));
                assert(key[0] == prefix[0] ==> lex_lt(key, whole) == lex_lt(tail, end));
                assert(key[0] > prefix[0] ==> !lex_lt(key, whole));
            },
            None => {
                if prefix[0] != 0xFF {
                    let whole = seq![(prefix[0] + 1) as u8];
                    assert(whole.drop_first() =~= Seq::<u8>::empty());
                    assert(prefix_successor(prefix) == Some(whole));
                    assert(key[0] == prefix[0] ==> lex_lt(key, whole));
                    assert(!lex_lt(tail, Seq::<u8>::empty()));
                    assert(key[0] > prefix[0] ==> !lex_lt(key, whole));
                }
            },
        }
    }
}

/// Two keys with the same first byte are the same where the rest is.
proof fn lemma_same_first(a: Seq<u8>, b: Seq<u8>)
    requires
        a.len() > 0,
        b.len() > 0,
    ensures
        a == b <==> a[0] == b[0] && a.drop_first() == b.drop_first(),
{
    if a[0] == b[0] && a.drop_first() == b.drop_first() {
        assert(a =~= seq![a[0]] + a.drop_first());
        assert(b =~= seq![b[0]] + b.drop_first());
    }
}

/// A prefix that two keys share makes no difference to their order.
proof fn lemma_common_prefix(prefix: Seq<u8>, a: Seq<u8>, b: Seq<u8>)
    ensures
        lex_lt(prefix + a, prefix + b) == lex_lt(a, b),
        (prefix + a == prefix + b) == (a == b),
    decreases prefix.len(),
{
    if prefix.len() == 0 {
        assert(prefix + a =~= a);
        assert(prefix + b =~= b);
    } else {
        let rest = prefix.drop_first();
        lemma_common_prefix(rest, a, b);
        assert((prefix + a).drop_first() =~= rest + a);
        assert((prefix + b).drop_first() =~= rest + b);
        lemma_same_first(prefix + a, prefix + b);
    }
}

/// A key from a prefix up to a key with that prefix has the prefix itself.
proof fn lemma_between_has_prefix(prefix: Seq<u8>, key: Seq<u8>, end: Seq<u8>)
    requires
        lex_le(prefix, key),
        lex_le(key, prefix + end),
    ensures
        starts_with(key, prefix),
    decreases prefix.len(),
{
    if prefix.len() == 0 {
        assert(key.take(0) =~= prefix);
    } else {
        let rest = prefix.drop_first();
        let tail = key.drop_first();
        let whole = prefix + end;
        if key.len() == 0 {
            assert(false);
        }
        lemma_same_first(prefix, key);
        lemma_same_first(key, whole);
        assert(whole.drop_first() =~= rest + end);
        assert(whole[0] == prefix[0]);
        assert(key[0] == prefix[0]);
        lemma_between_has_prefix(rest, tail, end);
        assert(key.take(prefix.len() as int) =~= seq![prefix[0]] + tail.take(rest.len() as int));
        assert(prefix =~= seq![prefix[0]] + rest);
    }
}

/// A key is not before its own prefix.
proof fn lemma_prefix_not_after(prefix: Seq<u8>, rest: Seq<u8>)
    ensures
        lex_le(prefix, prefix + rest),
    decreases prefix.len(),
{
    lemma_common_prefix(prefix, Seq::empty(), rest);
    assert(prefix + Seq::<u8>::empty() =~= prefix);
    if rest.len() == 0 {
        assert(prefix + rest =~= prefix);
    }
}

/// The bound of keys with a prefix that a bound of their suffixes stands for.
pub open spec fn prefixed_start(prefix: Seq<u8>, start: BoundView) -> BoundView {
    match start {
        BoundView::Included(suffix) => BoundView::Included(prefix + suffix),
        BoundView::Excluded(suffix) => BoundView::Excluded(prefix + suffix),
        BoundView::Unbounded => BoundView::Included(prefix),
    }
}

/// The bound of keys with a prefix that a bound of their suffixes stands for.
pub open spec fn prefixed_end(prefix: Seq<u8>, end: BoundView) -> BoundView {
    match end {
        BoundView::Included(suffix) => BoundView::Included(prefix + suffix),
        BoundView::Excluded(suffix) => BoundView::Excluded(prefix + suffix),
        BoundView::Unbounded => match prefix_successor(prefix) {
            Some(past) => BoundView::Excluded(past),
            None => BoundView::Unbounded,
        },
    }
}

/// A prefix and a range of suffixes select exactly the keys that are the prefix
/// followed by one of the suffixes.
pub proof fn law_prefix_range_is_exact(prefix: Seq<u8>, subrange: RangeView, key: Seq<u8>)
    ensures
        (RangeView {
            start: prefixed_start(prefix, subrange.start),
            end: prefixed_end(prefix, subrange.end),
        }).contains(key) <==> starts_with(key, prefix) && subrange.contains(
            key.skip(prefix.len() as int),
        ),
{
    let range = RangeView {
        start: prefixed_start(prefix, subrange.start),
        end: prefixed_end(prefix, subrange.end),
    };
    lemma_prefix_range(prefix, key);
    let low = bound_key(subrange.start);
    let high = bound_key(subrange.end);
    if starts_with(key, prefix) {
        let suffix = key.skip(prefix.len() as int);
        assert(key =~= prefix + suffix);
        lemma_common_prefix(prefix, low, suffix);
        lemma_common_prefix(prefix, suffix, high);
    } else if range.contains(key) {
        lemma_prefix_not_after(prefix, low);
        if subrange.start is Unbounded {
            assert(lex_le(prefix, key));
        } else {
            assert(lex_le(prefix + low, key));
            if lex_lt(prefix, prefix + low) && lex_lt(prefix + low, key) {
                lemma_lex_transitive(prefix, prefix + low, key);
            }
            assert(lex_le(prefix, key));
        }
        if !(subrange.end is Unbounded) {
            lemma_between_has_prefix(prefix, key, high);
        }
    }
}

/// Joins two byte strings.
fn join_bytes(first: &[u8], second: &[u8]) -> (joined: Bytes)
    ensures
        bytes_contents(joined) == first@ + second@,
{
    let mut buffer: Vec<u8> = Vec::new();
    let mut i: usize = 0;
    while i < first.len()
        invariant
            i <= first@.len(),
            buffer@ == first@.take(i as int),
        decreases first@.len() - i,
    {
        buffer.push(first[i]);
        i = i + 1;
        assert(buffer@ =~= first@.take(i as int));
    }
    let mut j: usize = 0;
    assert(buffer@ =~= first@ + second@.take(0));
    while j < second.len()
        invariant
            j <= second@.len(),
            buffer@ == first@ + second@.take(j as int),
        decreases second@.len() - j,
    {
        buffer.push(second[j]);
        j = j + 1;
        assert(buffer@ =~= first@ + second@.take(j as int));
    }
    assert(second@.take(second@.len() as int) =~= second@);
    Bytes::copy_from_slice(buffer.as_slice())
}

/// The successor stops after the last byte that can be raised.
proof fn lemma_successor_at(prefix: Seq<u8>, at: int)
    requires
        -1 <= at < prefix.len(),
        forall|i: int| at < i < prefix.len() ==> #[trigger] prefix[i] == 0xFF,
        at >= 0 ==> prefix[at] != 0xFF,
    ensures
        prefix_successor(prefix) == if at < 0 {
            None
        } else {
            Some(prefix.take(at).push((prefix[at] + 1) as u8))
        },
    decreases prefix.len(),
{
    if prefix.len() > 0 {
        let rest = prefix.drop_first();
        if at <= 0 {
            assert forall|i: int| -1 < i < rest.len() implies #[trigger] rest[i] == 0xFF by {
                assert(rest[i] == prefix[i + 1]);
            }
            lemma_successor_at(rest, -1);
            if at == 0 {
                assert(seq![(prefix[0] + 1) as u8] =~= prefix.take(0).push(
                    (prefix[0] + 1) as u8,
                ));
            } else {
                assert(prefix[0] == 0xFF);
            }
        } else {
            assert forall|i: int| at - 1 < i < rest.len() implies #[trigger] rest[i] == 0xFF by {
                assert(rest[i] == prefix[i + 1]);
            }
            assert(rest[at - 1] == prefix[at]);
            lemma_successor_at(rest, at - 1);
            assert(seq![prefix[0]] + rest.take(at - 1).push((rest[at - 1] + 1) as u8)
                =~= prefix.take(at).push((prefix[at] + 1) as u8));
        }
    }
}

/// The least key that is past every key with the prefix, where there is one.
fn successor(prefix: &[u8]) -> (past: Option<Bytes>)
    ensures
        match past {
            Some(past) => prefix_successor(prefix@) == Some(bytes_contents(past)),
            None => prefix_successor(prefix@) is None,
        },
{
    let mut end: usize = prefix.len();
    while end > 0 && prefix[end - 1] == 0xFF
        invariant
            end <= prefix@.len(),
            forall|i: int| end <= i < prefix@.len() ==> #[trigger] prefix@[i] == 0xFF,
        decreases end,
    {
        end = end - 1;
    }
    proof {
        lemma_successor_at(prefix@, end - 1);
    }
    if end == 0 {
        return None;
    }
    let mut buffer: Vec<u8> = Vec::new();
    let mut i: usize = 0;
    while i < end - 1
        invariant
            i < end <= prefix@.len(),
            buffer@ == prefix@.take(i as int),
        decreases end - i,
    {
        buffer.push(prefix[i]);
        i = i + 1;
        assert(buffer@ =~= prefix@.take(i as int));
    }
    buffer.push(prefix[end - 1] + 1);
    Some(Bytes::copy_from_slice(buffer.as_slice()))
}

impl BytesRange {
    /// The keys that are the prefix followed by a suffix in `subrange`.
    pub fn from_prefix_and_subrange(prefix: &[u8], subrange: &BytesRange) -> (range: BytesRange)
        ensures
            range@ == (RangeView {
                start: prefixed_start(prefix@, subrange@.start),
                end: prefixed_end(prefix@, subrange@.end),
            }),
            forall|key: Seq<u8>|
                #[trigger] range@.contains(key) <==> starts_with(key, prefix@)
                    && subrange@.contains(key.skip(prefix@.len() as int)),
    {
        let start = match &subrange.start {
            KeyBound::Included(suffix) => KeyBound::Included(join_bytes(prefix, as_slice(suffix))),
            KeyBound::Excluded(suffix) => KeyBound::Excluded(join_bytes(prefix, as_slice(suffix))),
            KeyBound::Unbounded => KeyBound::Included(Bytes::copy_from_slice(prefix)),
        };
        let end = match &subrange.end {
            KeyBound::Included(suffix) => KeyBound::Included(join_bytes(prefix, as_slice(suffix))),
            KeyBound::Excluded(suffix) => KeyBound::Excluded(join_bytes(prefix, as_slice(suffix))),
            KeyBound::Unbounded => match successor(prefix) {
                Some(past) => KeyBound::Excluded(past),
                None => KeyBound::Unbounded,
            },
        };
        let range = BytesRange { start, end };
        proof {
            assert forall|key: Seq<u8>| #[trigger] range@.contains(key) <==> starts_with(
                key,
                prefix@,
            ) && subrange@.contains(key.skip(prefix@.len() as int)) by {
                law_prefix_range_is_exact(prefix@, subrange@, key);
            }
        }
        range
    }
}

} // verus!
