//! Key intervals.

use crate::bound::Bound;
use crate::buffer::{bytes_lt, content, same_bytes};
use crate::key_order::{key_lt, lemma_key_order_total, lemma_key_order_transitive};
use crate::wire;
use bytes::Bytes;
use vstd::prelude::*;
use vstd::std_specs::cmp::PartialEqSpecImpl;

verus! {

/// An interval of keys, bounded or not at either end.
#[derive(Debug)]
pub struct BytesRange {
    pub start: Bound<Bytes>,
    pub end: Bound<Bytes>,
}

/// What a [`BytesRange`] stands for: the two ends, as byte strings.
#[verifier::ext_equal]
pub struct Interval {
    pub start: Bound<Seq<u8>>,
    pub end: Bound<Seq<u8>>,
}

impl Interval {
    /// True iff `key` lies between the two ends.
    pub open spec fn contains(self, key: Seq<u8>) -> bool {
        &&& match self.start {
            Bound::Included(first) => !key_lt(key, first),
            Bound::Excluded(first) => key_lt(first, key),
            Bound::Unbounded => true,
        }
        &&& match self.end {
            Bound::Included(last) => !key_lt(last, key),
            Bound::Excluded(last) => key_lt(key, last),
            Bound::Unbounded => true,
        }
    }
}

impl View for BytesRange {
    type V = Interval;

    open spec fn view(&self) -> Interval {
        Interval { start: self.start@, end: self.end@ }
    }
}

/// True iff an interval that starts at `a` starts before one that starts at
/// `b`: no start at all comes first, and a start that contains its key comes
/// before one that does not.
pub open spec fn starts_before(a: Bound<Seq<u8>>, b: Bound<Seq<u8>>) -> bool {
    match (a, b) {
        (_, Bound::Unbounded) => false,
        (Bound::Unbounded, _) => true,
        (Bound::Included(x), Bound::Included(y)) => key_lt(x, y),
        (Bound::Included(x), Bound::Excluded(y)) => !key_lt(y, x),
        (Bound::Excluded(x), Bound::Included(y)) => key_lt(x, y),
        (Bound::Excluded(x), Bound::Excluded(y)) => key_lt(x, y),
    }
}

/// True iff an interval that ends at `a` ends before one that ends at `b`: an
/// end that does not contain its key comes before one that does, and no end at
/// all comes last.
pub open spec fn ends_before(a: Bound<Seq<u8>>, b: Bound<Seq<u8>>) -> bool {
    match (a, b) {
        (Bound::Unbounded, _) => false,
        (_, Bound::Unbounded) => true,
        (Bound::Included(x), Bound::Included(y)) => key_lt(x, y),
        (Bound::Included(x), Bound::Excluded(y)) => key_lt(x, y),
        (Bound::Excluded(x), Bound::Included(y)) => !key_lt(y, x),
        (Bound::Excluded(x), Bound::Excluded(y)) => key_lt(x, y),
    }
}

/// The order of intervals: by start, then by end.
pub open spec fn interval_lt(a: Interval, b: Interval) -> bool {
    starts_before(a.start, b.start) || (a.start == b.start && ends_before(a.end, b.end))
}

/// True iff the two bounds are of one kind and hold the same key.
fn same_bound(a: &Bound<Bytes>, b: &Bound<Bytes>) -> (r: bool)
    ensures
        r == (a@ == b@),
{
    match (a, b) {
        (Bound::Included(x), Bound::Included(y)) => same_bytes(x, y),
        (Bound::Excluded(x), Bound::Excluded(y)) => same_bytes(x, y),
        (Bound::Unbounded, Bound::Unbounded) => true,
        _ => false,
    }
}

/// Compares two starts of intervals.
fn start_lt(a: &Bound<Bytes>, b: &Bound<Bytes>) -> (r: bool)
    ensures
        r == starts_before(a@, b@),
{
    match (a, b) {
        (_, Bound::Unbounded) => false,
        (Bound::Unbounded, _) => true,
        (Bound::Included(x), Bound::Included(y)) => bytes_lt(x, y),
        (Bound::Included(x), Bound::Excluded(y)) => !bytes_lt(y, x),
        (Bound::Excluded(x), Bound::Included(y)) => bytes_lt(x, y),
        (Bound::Excluded(x), Bound::Excluded(y)) => bytes_lt(x, y),
    }
}

/// Compares two ends of intervals.
fn end_lt(a: &Bound<Bytes>, b: &Bound<Bytes>) -> (r: bool)
    ensures
        r == ends_before(a@, b@),
{
    match (a, b) {
        (Bound::Unbounded, _) => false,
        (_, Bound::Unbounded) => true,
        (Bound::Included(x), Bound::Included(y)) => bytes_lt(x, y),
        (Bound::Included(x), Bound::Excluded(y)) => bytes_lt(x, y),
        (Bound::Excluded(x), Bound::Included(y)) => !bytes_lt(y, x),
        (Bound::Excluded(x), Bound::Excluded(y)) => bytes_lt(x, y),
    }
}

impl BytesRange {
    /// The interval between two ends.
    pub fn new(start: Bound<Bytes>, end: Bound<Bytes>) -> (r: Self)
        ensures
            r.start == start,
            r.end == end,
    {
        BytesRange { start, end }
    }

    /// The start of the interval.
    pub fn start_bound(&self) -> (r: Bound<&Bytes>)
        ensures
            r@ == self@.start,
    {
        self.start.as_ref()
    }

    /// The end of the interval.
    pub fn end_bound(&self) -> (r: Bound<&Bytes>)
        ensures
            r@ == self@.end,
    {
        self.end.as_ref()
    }

    /// True iff `key` lies in the interval.
    pub fn contains(&self, key: &Bytes) -> (r: bool)
        ensures
            r == self@.contains(content(*key)),
            self.start matches Bound::Included(first) ==> key_lt(content(*key), content(first))
                ==> !r,
            self.start matches Bound::Excluded(first) ==> !key_lt(content(first), content(*key))
                ==> !r,
            self.end matches Bound::Included(last) ==> key_lt(content(last), content(*key)) ==> !r,
            self.end matches Bound::Excluded(last) ==> !key_lt(content(*key), content(last))
                ==> !r,
            !r ==> {
                ||| self.start matches Bound::Included(first) && key_lt(
                    content(*key),
                    content(first),
                )
                ||| self.start matches Bound::Excluded(first) && !key_lt(
                    content(first),
                    content(*key),
                )
                ||| self.end matches Bound::Included(last) && key_lt(content(last), content(*key))
                ||| self.end matches Bound::Excluded(last) && !key_lt(content(*key), content(last))
            },
    {
        let after_start = match &self.start {
            Bound::Included(first) => !bytes_lt(key, first),
            Bound::Excluded(first) => bytes_lt(first, key),
            Bound::Unbounded => true,
        };
        let before_end = match &self.end {
            Bound::Included(last) => !bytes_lt(last, key),
            Bound::Excluded(last) => bytes_lt(key, last),
            Bound::Unbounded => true,
        };
        after_start && before_end
    }

    /// True iff this interval comes before `other` in the order of intervals.
    pub fn comes_before(&self, other: &Self) -> (r: bool)
        ensures
            r == interval_lt(self@, other@),
    {
        start_lt(&self.start, &other.start) || (same_bound(&self.start, &other.start) && end_lt(
            &self.end,
            &other.end,
        ))
    }
}

/// The same bound, with a key of its own.
fn cloned_bound(b: &Bound<Bytes>) -> (r: Bound<Bytes>)
    ensures
        r@ == b@,
{
    match b {
        Bound::Included(key) => Bound::Included(key.clone()),
        Bound::Excluded(key) => Bound::Excluded(key.clone()),
        Bound::Unbounded => Bound::Unbounded,
    }
}

impl Clone for BytesRange {
    fn clone(&self) -> (r: Self)
        ensures
            r@ == self@,
    {
        BytesRange { start: cloned_bound(&self.start), end: cloned_bound(&self.end) }
    }
}

impl PartialEq for BytesRange {
    fn eq(&self, other: &Self) -> (r: bool) {
        same_bound(&self.start, &other.start) && same_bound(&self.end, &other.end)
    }
}

impl PartialEqSpecImpl for BytesRange {
    open spec fn obeys_eq_spec() -> bool {
        true
    }

    open spec fn eq_spec(&self, other: &Self) -> bool {
        self@ == other@
    }
}

impl Eq for BytesRange {

}

/// Starts of intervals are totally ordered.
proof fn lemma_starts_total(a: Bound<Seq<u8>>, b: Bound<Seq<u8>>)
    ensures
        starts_before(a, b) || starts_before(b, a) || a == b,
        !(starts_before(a, b) && starts_before(b, a)),
        !starts_before(a, a),
{
    lemma_key_order_total(wire::key(a), wire::key(b));
    lemma_key_order_total(wire::key(a), wire::key(a));
}

/// Ends of intervals are totally ordered.
proof fn lemma_ends_total(a: Bound<Seq<u8>>, b: Bound<Seq<u8>>)
    ensures
        ends_before(a, b) || ends_before(b, a) || a == b,
        !(ends_before(a, b) && ends_before(b, a)),
        !ends_before(a, a),
{
    lemma_key_order_total(wire::key(a), wire::key(b));
    lemma_key_order_total(wire::key(a), wire::key(a));
}

/// Of three keys, one that is not after the second, which is not after the
/// third, is not after the third; and it is before it where one of the two
/// steps is strict.
proof fn lemma_keys_chain(a: Seq<u8>, b: Seq<u8>, c: Seq<u8>)
    requires
        !key_lt(b, a),
        !key_lt(c, b),
    ensures
        !key_lt(c, a),
        key_lt(a, b) || key_lt(b, c)
            ==> key_lt(a, c),
{
    lemma_key_order_total(a, b);
    lemma_key_order_total(b, c);
    lemma_key_order_total(a, c);
    if key_lt(a, b) && key_lt(b, c) {
        lemma_key_order_transitive(a, b, c);
    }
}

/// The order of starts is transitive.
proof fn lemma_starts_transitive(a: Bound<Seq<u8>>, b: Bound<Seq<u8>>, c: Bound<Seq<u8>>)
    requires
        starts_before(a, b),
        starts_before(b, c),
    ensures
        starts_before(a, c),
{
    let (x, y, z) = (wire::key(a), wire::key(b), wire::key(c));
    lemma_key_order_total(x, y);
    lemma_key_order_total(y, z);
    if !(a is Unbounded) {
        lemma_keys_chain(x, y, z);
    }
}

/// The order of ends is transitive.
proof fn lemma_ends_transitive(a: Bound<Seq<u8>>, b: Bound<Seq<u8>>, c: Bound<Seq<u8>>)
    requires
        ends_before(a, b),
        ends_before(b, c),
    ensures
        ends_before(a, c),
{
    let (x, y, z) = (wire::key(a), wire::key(b), wire::key(c));
    lemma_key_order_total(x, y);
    lemma_key_order_total(y, z);
    if !(c is Unbounded) {
        lemma_keys_chain(x, y, z);
    }
}

/// Intervals are totally ordered: of two intervals, one comes first or they
/// are equal, and only one of these holds.
pub proof fn lemma_interval_order_total(a: Interval, b: Interval)
    ensures
        interval_lt(a, b) || interval_lt(b, a) || a == b,
        !(interval_lt(a, b) && interval_lt(b, a)),
        !interval_lt(a, a),
{
    lemma_starts_total(a.start, b.start);
    lemma_starts_total(a.start, a.start);
    lemma_ends_total(a.end, b.end);
    lemma_ends_total(a.end, a.end);
}

/// The order of intervals is transitive.
pub proof fn lemma_interval_order_transitive(a: Interval, b: Interval, c: Interval)
    requires
        interval_lt(a, b),
        interval_lt(b, c),
    ensures
        interval_lt(a, c),
{
    if starts_before(a.start, b.start) && starts_before(b.start, c.start) {
        lemma_starts_transitive(a.start, b.start, c.start);
    } else if a.start == b.start && b.start == c.start {
        lemma_ends_transitive(a.end, b.end, c.end);
    }
}

} // verus!
