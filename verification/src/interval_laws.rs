//! What it means for a key to lie in an interval, and for one interval to come
//! before another.

use crate::bound::Bound;
use crate::buffer::content;
use crate::bytes_range::{
    ends_before, interval_lt, lemma_interval_order_total, lemma_interval_order_transitive,
    starts_before, BytesRange, Interval,
};
use crate::key_order::{key_lt, lemma_key_order_total, lemma_key_order_transitive};
use crate::range_tombstone::RangeTombstone;
use bytes::Bytes;
use vstd::prelude::*;
use vstd::std_specs::cmp::PartialEqSpec;

verus! {

/// The first byte in which two keys differ decides which comes first.
pub proof fn law_first_difference_decides(a: Seq<u8>, b: Seq<u8>, i: int)
    requires
        0 <= i < a.len(),
        i < b.len(),
        a.take(i) == b.take(i),
        a[i] < b[i],
    ensures
        key_lt(a, b),
        !key_lt(b, a),
    decreases i,
{
    if i > 0 {
        assert(a[0] == a.take(i)[0] && b[0] == b.take(i)[0]);
        let (x, y) = (a.drop_first(), b.drop_first());
        assert(x.take(i - 1) =~= a.take(i).drop_first());
        assert(y.take(i - 1) =~= b.take(i).drop_first());
        law_first_difference_decides(x, y, i - 1);
    }
}

/// A key comes before every longer key that begins with it.
pub proof fn law_prefix_comes_first(a: Seq<u8>, more: Seq<u8>)
    requires
        more.len() > 0,
    ensures
        key_lt(a, a + more),
        !key_lt(a + more, a),
    decreases a.len(),
{
    if a.len() > 0 {
        law_prefix_comes_first(a.drop_first(), more);
        assert((a + more).drop_first() =~= a.drop_first() + more);
    }
}

/// An interval with no ends contains every key.
pub proof fn law_no_ends_contains_all(key: Seq<u8>)
    ensures
        (Interval { start: Bound::Unbounded, end: Bound::Unbounded }).contains(key),
{
}

/// The two ends are independent: a key lies in an interval iff it lies on the
/// right side of each end taken alone.
pub proof fn law_ends_are_independent(
    start: Bound<Seq<u8>>,
    end: Bound<Seq<u8>>,
    key: Seq<u8>,
)
    ensures
        (Interval { start, end }).contains(key) <==> (Interval {
            start,
            end: Bound::Unbounded,
        }).contains(key) && (Interval { start: Bound::Unbounded, end }).contains(key),
{
}

/// With no end, an interval contains the keys that come after its start, and
/// its start iff that is included.
pub proof fn law_start_alone(first: Seq<u8>, key: Seq<u8>)
    ensures
        (Interval { start: Bound::Included(first), end: Bound::Unbounded }).contains(key) <==> (key
            == first || key_lt(first, key)),
        (Interval { start: Bound::Excluded(first), end: Bound::Unbounded }).contains(key)
            <==> key_lt(first, key),
{
    lemma_key_order_total(first, key);
}

/// With no start, an interval contains the keys that come before its end, and
/// its end iff that is included.
pub proof fn law_end_alone(last: Seq<u8>, key: Seq<u8>)
    ensures
        (Interval { start: Bound::Unbounded, end: Bound::Included(last) }).contains(key) <==> (key
            == last || key_lt(key, last)),
        (Interval { start: Bound::Unbounded, end: Bound::Excluded(last) }).contains(key)
            <==> key_lt(key, last),
{
    lemma_key_order_total(last, key);
}

/// Whatever the start of an interval, no key past its end lies in it: none
/// after an included end, none at or after an excluded one.
pub proof fn law_nothing_past_the_end(range: Interval, key: Seq<u8>)
    ensures
        range.end matches Bound::Included(last) ==> key_lt(last, key) ==> !range.contains(key),
        range.end matches Bound::Excluded(last) ==> (key == last || key_lt(last, key))
            ==> !range.contains(key),
{
    if let Bound::Excluded(last) = range.end {
        lemma_key_order_total(last, key);
    }
}

/// Whatever the end of an interval, no key before its start lies in it: none
/// before an included start, none at or before an excluded one.
pub proof fn law_nothing_before_the_start(range: Interval, key: Seq<u8>)
    ensures
        range.start matches Bound::Included(first) ==> key_lt(key, first) ==> !range.contains(key),
        range.start matches Bound::Excluded(first) ==> (key == first || key_lt(key, first))
            ==> !range.contains(key),
{
    if let Bound::Excluded(first) = range.start {
        lemma_key_order_total(first, key);
    }
}

/// A key that is not shut out by the start, nor by the end, lies in the
/// interval.
pub proof fn law_everything_between(range: Interval, key: Seq<u8>)
    requires
        range.start matches Bound::Included(first) ==> key == first || key_lt(first, key),
        range.start matches Bound::Excluded(first) ==> key_lt(first, key),
        range.end matches Bound::Included(last) ==> key == last || key_lt(key, last),
        range.end matches Bound::Excluded(last) ==> key_lt(key, last),
    ensures
        range.contains(key),
{
    law_ends_are_independent(range.start, range.end, key);
    match range.start {
        Bound::Included(first) => law_start_alone(first, key),
        Bound::Excluded(first) => law_start_alone(first, key),
        Bound::Unbounded => {},
    }
    match range.end {
        Bound::Included(last) => law_end_alone(last, key),
        Bound::Excluded(last) => law_end_alone(last, key),
        Bound::Unbounded => {},
    }
}

/// Dropping the start of an interval adds only keys that the start shuts out.
pub proof fn law_dropping_the_start(range: Interval, key: Seq<u8>)
    requires
        range.start matches Bound::Included(first) ==> key == first || key_lt(first, key),
        range.start matches Bound::Excluded(first) ==> key_lt(first, key),
    ensures
        (Interval { start: Bound::Unbounded, end: range.end }).contains(key) <==> range.contains(
            key,
        ),
{
    law_ends_are_independent(range.start, range.end, key);
    law_everything_between(Interval { start: range.start, end: Bound::Unbounded }, key);
}

/// Dropping the end of an interval adds only keys that the end shuts out.
pub proof fn law_dropping_the_end(range: Interval, key: Seq<u8>)
    requires
        range.end matches Bound::Included(last) ==> key == last || key_lt(key, last),
        range.end matches Bound::Excluded(last) ==> key_lt(key, last),
    ensures
        (Interval { start: range.start, end: Bound::Unbounded }).contains(key) <==> range.contains(
            key,
        ),
{
    law_ends_are_independent(range.start, range.end, key);
    law_everything_between(Interval { start: Bound::Unbounded, end: range.end }, key);
}

/// An interval has no gaps: it contains what lies between two of its keys.
pub proof fn law_no_gaps(range: Interval, low: Seq<u8>, key: Seq<u8>, high: Seq<u8>)
    requires
        range.contains(low),
        range.contains(high),
        key_lt(low, key),
        key_lt(key, high),
    ensures
        range.contains(key),
{
    match range.start {
        Bound::Included(first) => {
            lemma_key_order_total(low, first);
            if key_lt(first, low) {
                lemma_key_order_transitive(first, low, key);
            }
        },
        Bound::Excluded(first) => lemma_key_order_transitive(first, low, key),
        Bound::Unbounded => {},
    }
    match range.end {
        Bound::Included(last) => {
            lemma_key_order_total(high, last);
            if key_lt(high, last) {
                lemma_key_order_transitive(key, high, last);
            }
        },
        Bound::Excluded(last) => lemma_key_order_transitive(key, high, last),
        Bound::Unbounded => {},
    }
    law_everything_between(range, key);
}

/// Including an end instead of excluding it adds that one key, where the other
/// end lets it in, and no other.
pub proof fn law_including_an_end(at: Seq<u8>, other: Bound<Seq<u8>>, key: Seq<u8>)
    ensures
        (Interval { start: Bound::Included(at), end: other }).contains(key) <==> (Interval {
            start: Bound::Excluded(at),
            end: other,
        }).contains(key) || (key == at && (Interval {
            start: Bound::Unbounded,
            end: other,
        }).contains(key)),
        (Interval { start: other, end: Bound::Included(at) }).contains(key) <==> (Interval {
            start: other,
            end: Bound::Excluded(at),
        }).contains(key) || (key == at && (Interval {
            start: other,
            end: Bound::Unbounded,
        }).contains(key)),
{
    lemma_key_order_total(at, key);
}

/// A key splits the keys in two: each lies before it or in the interval that
/// starts there, and not in both.
pub proof fn law_splitting_at_a_key(at: Seq<u8>, key: Seq<u8>)
    ensures
        (Interval { start: Bound::Included(at), end: Bound::Unbounded }).contains(key) <==> !(
        Interval { start: Bound::Unbounded, end: Bound::Excluded(at) }).contains(key),
        (Interval { start: Bound::Excluded(at), end: Bound::Unbounded }).contains(key) <==> !(
        Interval { start: Bound::Unbounded, end: Bound::Included(at) }).contains(key),
{
    lemma_key_order_total(at, key);
}

/// Starts at different keys are ordered as their keys, whether these are
/// included or not; at one key, the included start comes first; and a missing
/// start comes before all others.
pub proof fn law_order_of_starts(x: Seq<u8>, y: Seq<u8>)
    ensures
        key_lt(x, y) ==> starts_before(Bound::Included(x), Bound::Included(y)),
        key_lt(x, y) ==> starts_before(Bound::Included(x), Bound::Excluded(y)),
        key_lt(x, y) ==> starts_before(Bound::Excluded(x), Bound::Included(y)),
        key_lt(x, y) ==> starts_before(Bound::Excluded(x), Bound::Excluded(y)),
        starts_before(Bound::Included(x), Bound::Excluded(x)),
        starts_before(Bound::Unbounded, Bound::Included(x)),
        starts_before(Bound::Unbounded, Bound::Excluded(x)),
{
    lemma_key_order_total(x, y);
    lemma_key_order_total(x, x);
}

/// Ends at different keys are ordered as their keys, whether these are included
/// or not; at one key, the excluded end comes first; and a missing end comes
/// after all others.
pub proof fn law_order_of_ends(x: Seq<u8>, y: Seq<u8>)
    ensures
        key_lt(x, y) ==> ends_before(Bound::Included(x), Bound::Included(y)),
        key_lt(x, y) ==> ends_before(Bound::Included(x), Bound::Excluded(y)),
        key_lt(x, y) ==> ends_before(Bound::Excluded(x), Bound::Included(y)),
        key_lt(x, y) ==> ends_before(Bound::Excluded(x), Bound::Excluded(y)),
        ends_before(Bound::Excluded(x), Bound::Included(x)),
        ends_before(Bound::Included(x), Bound::Unbounded),
        ends_before(Bound::Excluded(x), Bound::Unbounded),
{
    lemma_key_order_total(x, y);
    lemma_key_order_total(x, x);
}

/// An interval that starts later has no key that one which starts earlier, with
/// the same end, does not have.
pub proof fn law_later_start_contains_less(
    earlier: Bound<Seq<u8>>,
    later: Bound<Seq<u8>>,
    end: Bound<Seq<u8>>,
    key: Seq<u8>,
)
    requires
        starts_before(earlier, later),
        (Interval { start: later, end }).contains(key),
    ensures
        (Interval { start: earlier, end }).contains(key),
{
    match (earlier, later) {
        (Bound::Unbounded, _) => {},
        (_, Bound::Unbounded) => {},
        (Bound::Included(x), Bound::Included(y)) => lemma_between(x, y, key),
        (Bound::Included(x), Bound::Excluded(y)) => lemma_between(x, y, key),
        (Bound::Excluded(x), Bound::Included(y)) => lemma_between(x, y, key),
        (Bound::Excluded(x), Bound::Excluded(y)) => lemma_between(x, y, key),
    }
}

/// An interval that ends earlier has no key that one which ends later, with the
/// same start, does not have.
pub proof fn law_earlier_end_contains_less(
    start: Bound<Seq<u8>>,
    earlier: Bound<Seq<u8>>,
    later: Bound<Seq<u8>>,
    key: Seq<u8>,
)
    requires
        ends_before(earlier, later),
        (Interval { start, end: earlier }).contains(key),
    ensures
        (Interval { start, end: later }).contains(key),
{
    match (earlier, later) {
        (Bound::Unbounded, _) => {},
        (_, Bound::Unbounded) => {},
        (Bound::Included(x), Bound::Included(y)) => lemma_between(key, x, y),
        (Bound::Included(x), Bound::Excluded(y)) => lemma_between(key, x, y),
        (Bound::Excluded(x), Bound::Included(y)) => lemma_between(key, x, y),
        (Bound::Excluded(x), Bound::Excluded(y)) => lemma_between(key, x, y),
    }
}

/// Three keys, in order.
proof fn lemma_between(a: Seq<u8>, b: Seq<u8>, c: Seq<u8>)
    ensures
        !key_lt(b, a) && !key_lt(c, b) ==> !key_lt(c, a),
        key_lt(a, b) && !key_lt(c, b) ==> key_lt(a, c),
        !key_lt(b, a) && key_lt(b, c) ==> key_lt(a, c),
        !(key_lt(a, b) && key_lt(b, a)),
        !(key_lt(b, c) && key_lt(c, b)),
        !(key_lt(a, c) && key_lt(c, a)),
{
    lemma_key_order_total(a, b);
    lemma_key_order_total(b, c);
    lemma_key_order_total(a, c);
    if key_lt(a, b) && key_lt(b, c) {
        lemma_key_order_transitive(a, b, c);
    }
    if key_lt(c, b) && key_lt(b, a) {
        lemma_key_order_transitive(c, b, a);
    }
}

/// Intervals with different starts are ordered by these, whatever their ends;
/// with one start they are ordered by their ends.
pub proof fn law_starts_then_ends(
    start: Bound<Seq<u8>>,
    later: Bound<Seq<u8>>,
    end: Bound<Seq<u8>>,
    other: Bound<Seq<u8>>,
)
    ensures
        starts_before(start, later) ==> interval_lt(
            Interval { start, end },
            Interval { start: later, end: other },
        ),
        ends_before(end, other) ==> interval_lt(
            Interval { start, end },
            Interval { start, end: other },
        ),
{
}

/// Of two intervals exactly one of three holds: the first comes first, the
/// second does, or they have the same ends.
pub proof fn law_intervals_compare(a: Interval, b: Interval)
    ensures
        interval_lt(a, b) ==> !interval_lt(b, a) && a != b,
        interval_lt(b, a) ==> !interval_lt(a, b) && a != b,
        !interval_lt(a, b) && !interval_lt(b, a) <==> a == b,
{
    lemma_interval_order_total(a, b);
}

/// The order of intervals follows chains.
pub proof fn law_intervals_chain(a: Interval, b: Interval, c: Interval)
    requires
        interval_lt(a, b),
        interval_lt(b, c),
    ensures
        interval_lt(a, c),
{
    lemma_interval_order_transitive(a, b, c);
}

/// A bound stands for one of its own kind, with the bytes of its key.
pub proof fn law_bound_stands_for_its_key(bound: Bound<Bytes>)
    ensures
        bound matches Bound::Included(k) ==> bound@ == Bound::Included(content(k)),
        bound matches Bound::Excluded(k) ==> bound@ == Bound::Excluded(content(k)),
        bound is Unbounded ==> bound@ == Bound::<Seq<u8>>::Unbounded,
{
}

/// A bound with a borrowed key stands for what the bound with that key does.
pub proof fn law_borrowed_bound_stands_for_its_key(bound: Bound<&Bytes>)
    ensures
        bound matches Bound::Included(k) ==> bound@ == Bound::Included(content(*k)),
        bound matches Bound::Excluded(k) ==> bound@ == Bound::Excluded(content(*k)),
        bound is Unbounded ==> bound@ == Bound::<Seq<u8>>::Unbounded,
{
}

/// Two intervals are equal iff their ends are of the same kinds with the same
/// keys.
pub proof fn law_equal_intervals(a: BytesRange, b: BytesRange)
    ensures
        a.eq_spec(&b) <==> a.start@ == b.start@ && a.end@ == b.end@,
{
}

/// Two tombstones are equal iff they delete as of one sequence number and their
/// intervals have the same ends.
pub proof fn law_equal_tombstones(a: RangeTombstone, b: RangeTombstone)
    ensures
        a.eq_spec(&b) <==> a.seq == b.seq && a.range.start@ == b.range.start@ && a.range.end@
            == b.range.end@,
{
}

} // verus!
