//! Stable sorting of tombstones, largest sequence number first.

use crate::bytes_range;
use crate::range_tombstone::RangeTombstone;
use crate::wire::{views, Tombstone};
use vstd::prelude::*;

verus! {

/// What tombstones are sorted by.
#[derive(Clone, Copy, Debug, PartialEq, Eq, Structural)]
pub enum SortKey {
    /// By descending sequence number.
    BySeq,
    /// By descending sequence number, and among equal ones by descending
    /// interval.
    BySeqThenRange,
}

/// True iff `a` must stand before `b`.
pub open spec fn precedes(key: SortKey, a: Tombstone, b: Tombstone) -> bool {
    ||| a.seq > b.seq
    ||| key == SortKey::BySeqThenRange && a.seq == b.seq && bytes_range::interval_lt(b.range, a.range)
}

/// True iff neither of the two must stand before the other.
pub open spec fn tied(key: SortKey, a: Tombstone, b: Tombstone) -> bool {
    !precedes(key, a, b) && !precedes(key, b, a)
}

/// True iff no tombstone of the list must stand before one that comes earlier.
pub open spec fn sorted(key: SortKey, ts: Seq<RangeTombstone>) -> bool {
    forall|i: int, j: int|
        0 <= i < j < ts.len() ==> !precedes(key, (#[trigger] ts[j])@, (#[trigger] ts[i])@)
}

/// The tombstones of a list that are tied with `t`, in the order of the list.
pub open spec fn tied_with(key: SortKey, ts: Seq<RangeTombstone>, t: Tombstone) -> Seq<
    RangeTombstone,
> {
    ts.filter(|x: RangeTombstone| tied(key, x@, t))
}

/// True iff `output` is `input`, sorted, with tied tombstones in the order in
/// which they came.
pub open spec fn is_stable_sort(
    key: SortKey,
    input: Seq<RangeTombstone>,
    output: Seq<RangeTombstone>,
) -> bool {
    &&& sorted(key, output)
    &&& forall|t: Tombstone| #[trigger] tied_with(key, output, t) == tied_with(key, input, t)
}

/// What must stand first, and what is tied, is the same along chains.
pub proof fn lemma_precedes_chain(key: SortKey, a: Tombstone, b: Tombstone, c: Tombstone)
    ensures
        !precedes(key, a, a),
        !(precedes(key, a, b) && precedes(key, b, a)),
        !precedes(key, b, a) && !precedes(key, c, b) ==> !precedes(key, c, a),
        precedes(key, a, b) && !precedes(key, c, b) ==> precedes(key, a, c),
        !precedes(key, b, a) && precedes(key, b, c) ==> precedes(key, a, c),
{
    bytes_range::lemma_interval_order_total(a.range, b.range);
    bytes_range::lemma_interval_order_total(b.range, c.range);
    bytes_range::lemma_interval_order_total(a.range, c.range);
    bytes_range::lemma_interval_order_total(a.range, a.range);
    if bytes_range::interval_lt(b.range, a.range) && bytes_range::interval_lt(c.range, b.range) {
        bytes_range::lemma_interval_order_transitive(c.range, b.range, a.range);
    }
}

/// Of two different tombstones, one must stand before the other where intervals
/// count.
pub proof fn lemma_distinct_precede(a: Tombstone, b: Tombstone)
    requires
        a != b,
    ensures
        precedes(SortKey::BySeqThenRange, a, b) || precedes(SortKey::BySeqThenRange, b, a),
{
    bytes_range::lemma_interval_order_total(a.range, b.range);
}

/// Among the tombstones of two lists, those that are tied with `t` are those of
/// the one and then those of the other.
proof fn lemma_tied_with_concat(
    key: SortKey,
    a: Seq<RangeTombstone>,
    b: Seq<RangeTombstone>,
    t: Tombstone,
)
    ensures
        tied_with(key, a + b, t) == tied_with(key, a, t) + tied_with(key, b, t),
{
    Seq::filter_distributes_over_add(a, b, |x: RangeTombstone| tied(key, x@, t));
}

/// A list of which nothing is tied with `t`.
proof fn lemma_none_tied(key: SortKey, ts: Seq<RangeTombstone>, t: Tombstone)
    requires
        forall|i: int| 0 <= i < ts.len() ==> !tied(key, (#[trigger] ts[i])@, t),
    ensures
        tied_with(key, ts, t) == Seq::<RangeTombstone>::empty(),
    decreases ts.len(),
{
    reveal(Seq::filter);
    if ts.len() > 0 {
        let init = ts.drop_last();
        assert forall|i: int| 0 <= i < init.len() implies !tied(key, (#[trigger] init[i])@, t) by {
            assert(init[i] == ts[i]);
        }
        lemma_none_tied(key, init, t);
        assert(!tied(key, ts[ts.len() - 1]@, t));
    }
}

/// Every tombstone of `tied_with` comes from the list.
proof fn lemma_tied_with_source(key: SortKey, ts: Seq<RangeTombstone>, t: Tombstone, i: int)
    requires
        0 <= i < tied_with(key, ts, t).len(),
    ensures
        ts.contains(tied_with(key, ts, t)[i]),
        tied(key, tied_with(key, ts, t)[i]@, t),
    decreases ts.len(),
{
    reveal(Seq::filter);
    if ts.len() > 0 {
        let init = ts.drop_last();
        assert(tied_with(key, init, t) == init.filter(|x: RangeTombstone| tied(key, x@, t)));
        if i < tied_with(key, init, t).len() {
            lemma_tied_with_source(key, init, t, i);
            let k = choose|k: int|
                0 <= k < init.len() && init[k] == tied_with(key, init, t)[i];
            assert(ts[k] == tied_with(key, ts, t)[i]);
        } else {
            assert(ts[ts.len() - 1] == tied_with(key, ts, t)[i]);
        }
    }
}

/// Every tombstone of the list is in `tied_with` of itself.
proof fn lemma_tied_with_self(key: SortKey, ts: Seq<RangeTombstone>, i: int)
    requires
        0 <= i < ts.len(),
    ensures
        tied_with(key, ts, ts[i]@).contains(ts[i]),
{
    lemma_precedes_chain(key, ts[i]@, ts[i]@, ts[i]@);
    ts.lemma_filter_contains(|x: RangeTombstone| tied(key, x@, ts[i]@), i);
}

/// A stable sort keeps the tombstones of the list: none is lost and none is
/// added.
pub proof fn lemma_stable_sort_keeps(
    key: SortKey,
    input: Seq<RangeTombstone>,
    output: Seq<RangeTombstone>,
)
    requires
        is_stable_sort(key, input, output),
    ensures
        forall|t: RangeTombstone| output.contains(t) <==> input.contains(t),
{
    assert forall|t: RangeTombstone| output.contains(t) implies input.contains(t) by {
        let i = choose|i: int| 0 <= i < output.len() && output[i] == t;
        lemma_tied_with_self(key, output, i);
        let k = choose|k: int|
            0 <= k < tied_with(key, output, t@).len() && tied_with(key, output, t@)[k] == t;
        lemma_tied_with_source(key, input, t@, k);
    }
    assert forall|t: RangeTombstone| input.contains(t) implies output.contains(t) by {
        let i = choose|i: int| 0 <= i < input.len() && input[i] == t;
        lemma_tied_with_self(key, input, i);
        assert(tied_with(key, output, t@) == tied_with(key, input, t@));
        let k = choose|k: int|
            0 <= k < tied_with(key, input, t@).len() && tied_with(key, input, t@)[k] == t;
        lemma_tied_with_source(key, output, t@, k);
    }
}

/// A tombstone occurs in a list as often as among those that are tied with it.
proof fn lemma_tied_with_count(key: SortKey, ts: Seq<RangeTombstone>, x: RangeTombstone)
    ensures
        tied_with(key, ts, x@).to_multiset().count(x) == ts.to_multiset().count(x),
    decreases ts.len(),
{
    broadcast use vstd::seq_lib::group_to_multiset_ensures;

    reveal(Seq::filter);
    lemma_precedes_chain(key, x@, x@, x@);
    if ts.len() > 0 {
        let (init, last) = (ts.drop_last(), ts.last());
        lemma_tied_with_count(key, init, x);
        assert(ts =~= init.push(last));
    } else {
        assert(tied_with(key, ts, x@) =~= ts);
    }
}

/// A stable sort holds each tombstone as often as the list that it sorts.
pub proof fn lemma_stable_sort_permutes(
    key: SortKey,
    input: Seq<RangeTombstone>,
    output: Seq<RangeTombstone>,
)
    requires
        is_stable_sort(key, input, output),
    ensures
        output.to_multiset() == input.to_multiset(),
{
    assert forall|x: RangeTombstone| #[trigger]
        output.to_multiset().count(x) == input.to_multiset().count(x) by {
        lemma_tied_with_count(key, output, x);
        lemma_tied_with_count(key, input, x);
        assert(tied_with(key, output, x@) == tied_with(key, input, x@));
    }
    assert(output.to_multiset() =~= input.to_multiset());
}

/// What a list stands for follows its elements.
pub proof fn lemma_views_follow(a: Seq<RangeTombstone>, b: Seq<RangeTombstone>, t: Tombstone)
    requires
        forall|x: RangeTombstone| a.contains(x) ==> b.contains(x),
    ensures
        views(a).contains(t) ==> views(b).contains(t),
{
    if views(a).contains(t) {
        let i = choose|i: int| 0 <= i < a.len() && views(a)[i] == t;
        assert(a.contains(a[i]));
        let j = choose|j: int| 0 <= j < b.len() && b[j] == a[i];
        assert(views(b)[j] == t);
    }
}

/// Two sorted lists with the same tombstones in the same order among tied ones
/// are equal.
pub proof fn lemma_sorted_determined(
    key: SortKey,
    a: Seq<RangeTombstone>,
    b: Seq<RangeTombstone>,
)
    requires
        sorted(key, a),
        sorted(key, b),
        forall|t: Tombstone| #[trigger] tied_with(key, a, t) == tied_with(key, b, t),
    ensures
        a == b,
    decreases a.len(),
{
    if a.len() == 0 {
        if b.len() > 0 {
            lemma_tied_with_self(key, b, 0);
            lemma_none_tied(key, a, b[0]@);
            assert(tied_with(key, a, b[0]@) == tied_with(key, b, b[0]@));
        }
        assert(a =~= b);
    } else {
        let x = a[0];
        lemma_not_after_first(key, a, b, x);
        assert(b.len() > 0);
        let y = b[0];
        lemma_tied_with_self(key, a, 0);
        lemma_not_after_first(key, b, a, y);
        assert(tied(key, x@, y@));
        lemma_first_of_tied(key, a, x@);
        lemma_first_of_tied(key, b, x@);
        assert(tied_with(key, a, x@) == tied_with(key, b, x@));
        assert(x == y);
        let (p, q) = (a.drop_first(), b.drop_first());
        assert(a =~= seq![x] + p);
        assert(b =~= seq![x] + q);
        assert forall|t: Tombstone| #[trigger] tied_with(key, p, t) == tied_with(key, q, t) by {
            lemma_tied_with_concat(key, seq![x], p, t);
            lemma_tied_with_concat(key, seq![x], q, t);
            let head = tied_with(key, seq![x], t);
            assert(head + tied_with(key, p, t) == head + tied_with(key, q, t));
            assert(tied_with(key, p, t) =~= (head + tied_with(key, p, t)).skip(head.len() as int));
            assert(tied_with(key, q, t) =~= (head + tied_with(key, q, t)).skip(head.len() as int));
        }
        assert(sorted(key, p)) by {
            assert forall|i: int, j: int| 0 <= i < j < p.len() implies !precedes(
                key,
                (#[trigger] p[j])@,
                (#[trigger] p[i])@,
            ) by {
                assert(p[i] == a[i + 1] && p[j] == a[j + 1]);
            }
        }
        assert(sorted(key, q)) by {
            assert forall|i: int, j: int| 0 <= i < j < q.len() implies !precedes(
                key,
                (#[trigger] q[j])@,
                (#[trigger] q[i])@,
            ) by {
                assert(q[i] == b[i + 1] && q[j] == b[j + 1]);
            }
        }
        lemma_sorted_determined(key, p, q);
    }
}

/// The first tombstone of `a` stands in `b` too, so it need not stand before
/// the first of `b`.
proof fn lemma_not_after_first(
    key: SortKey,
    a: Seq<RangeTombstone>,
    b: Seq<RangeTombstone>,
    x: RangeTombstone,
)
    requires
        a.len() > 0,
        x == a[0],
        sorted(key, b),
        forall|t: Tombstone| #[trigger] tied_with(key, a, t) == tied_with(key, b, t),
    ensures
        b.len() > 0,
        !precedes(key, x@, b[0]@),
{
    lemma_tied_with_self(key, a, 0);
    assert(tied_with(key, a, x@) == tied_with(key, b, x@));
    let k = choose|k: int|
        0 <= k < tied_with(key, b, x@).len() && tied_with(key, b, x@)[k] == x;
    lemma_tied_with_source(key, b, x@, k);
    let j = choose|j: int| 0 <= j < b.len() && b[j] == x;
    if j == 0 {
        lemma_precedes_chain(key, x@, x@, x@);
    } else {
        assert(!precedes(key, b[j]@, b[0]@));
    }
}

/// Where the first tombstone of a list is tied with `t`, it is the first that is.
proof fn lemma_first_of_tied(key: SortKey, a: Seq<RangeTombstone>, t: Tombstone)
    requires
        a.len() > 0,
        tied(key, a[0]@, t),
    ensures
        tied_with(key, a, t).len() > 0,
        tied_with(key, a, t)[0] == a[0],
{
    reveal(Seq::filter);
    let head = seq![a[0]];
    assert(a =~= head + a.drop_first());
    lemma_tied_with_concat(key, head, a.drop_first(), t);
    assert(head.drop_last() =~= Seq::empty());
    assert(tied_with(key, head, t) =~= head);
}

/// True iff `a` must stand before `b`.
fn goes_first(key: SortKey, a: &RangeTombstone, b: &RangeTombstone) -> (r: bool)
    ensures
        r == precedes(key, a@, b@),
{
    match key {
        SortKey::BySeq => a.seq > b.seq,
        SortKey::BySeqThenRange => {
            a.seq > b.seq || (a.seq == b.seq && b.range.comes_before(&a.range))
        },
    }
}

/// The elements in reverse.
pub(crate) fn reversed<T>(items: Vec<T>) -> (r: Vec<T>)
    ensures
        r@ == items@.reverse(),
{
    let mut left = items;
    let mut r: Vec<T> = Vec::new();
    while left.len() > 0
        invariant
            left@.len() + r@.len() == items@.len(),
            left@ == items@.take(left@.len() as int),
            forall|i: int| 0 <= i < r@.len() ==> #[trigger] r@[i] == items@[items@.len() - 1 - i],
        decreases left@.len(),
    {
        if let Some(item) = left.pop() {
            r.push(item);
        }
    }
    assert(r@ =~= items@.reverse());
    r
}

/// Moving the last tombstone of `l` past all of `r`, which must stand before
/// it, to the front of what has been merged.
proof fn lemma_merge_step_left(
    key: SortKey,
    l: Seq<RangeTombstone>,
    r: Seq<RangeTombstone>,
    back: Seq<RangeTombstone>,
)
    requires
        l.len() > 0,
        sorted(key, r),
        r.len() > 0 ==> precedes(key, r.last()@, l.last()@),
    ensures
        forall|i: int| 0 <= i < r.len() ==> precedes(key, (#[trigger] r[i])@, l.last()@),
        forall|t: Tombstone| #[trigger]
            tied_with(key, l.drop_last() + r + (seq![l.last()] + back), t) == tied_with(
                key,
                l + r + back,
                t,
            ),
{
    let x = l.last();
    let init = l.drop_last();
    assert forall|i: int| 0 <= i < r.len() implies precedes(key, (#[trigger] r[i])@, x@) by {
        lemma_precedes_chain(key, r[i]@, r.last()@, x@);
        lemma_precedes_chain(key, r.last()@, r.last()@, x@);
    }
    assert forall|t: Tombstone| #[trigger]
        tied_with(key, init + r + (seq![x] + back), t) == tied_with(key, l + r + back, t) by {
        assert(l =~= init + seq![x]);
        lemma_tied_with_concat(key, init + r, seq![x] + back, t);
        lemma_tied_with_concat(key, init, r, t);
        lemma_tied_with_concat(key, seq![x], back, t);
        lemma_tied_with_concat(key, l + r, back, t);
        lemma_tied_with_concat(key, l, r, t);
        lemma_tied_with_concat(key, init, seq![x], t);
        let (ti, tr, tx, tb) = (
            tied_with(key, init, t),
            tied_with(key, r, t),
            tied_with(key, seq![x], t),
            tied_with(key, back, t),
        );
        if tied(key, x@, t) {
            assert forall|i: int| 0 <= i < r.len() implies !tied(key, (#[trigger] r[i])@, t) by {
                lemma_precedes_chain(key, r[i]@, x@, t);
            }
            lemma_none_tied(key, r, t);
        } else {
            lemma_none_tied(key, seq![x], t);
        }
        assert((ti + tr) + (tx + tb) =~= ((ti + tx) + tr) + tb);
    }
}

/// Merges two sorted lists. Of tied tombstones, those of `left` come first.
fn merge(key: SortKey, left: Vec<RangeTombstone>, right: Vec<RangeTombstone>) -> (r: Vec<
    RangeTombstone,
>)
    requires
        sorted(key, left@),
        sorted(key, right@),
    ensures
        is_stable_sort(key, left@ + right@, r@),
{
    let ghost whole = left@ + right@;
    let mut left = left;
    let mut right = right;
    let mut back: Vec<RangeTombstone> = Vec::new();
    proof {
        assert(back@.reverse() =~= Seq::empty());
        assert(left@ + right@ + back@.reverse() =~= whole);
    }
    while left.len() > 0 || right.len() > 0
        invariant
            sorted(key, left@),
            sorted(key, right@),
            sorted(key, back@.reverse()),
            forall|i: int, j: int|
                0 <= i < left@.len() && 0 <= j < back@.len() ==> !precedes(
                    key,
                    (#[trigger] back@[j])@,
                    (#[trigger] left@[i])@,
                ),
            forall|i: int, j: int|
                0 <= i < right@.len() && 0 <= j < back@.len() ==> !precedes(
                    key,
                    (#[trigger] back@[j])@,
                    (#[trigger] right@[i])@,
                ),
            forall|t: Tombstone| #[trigger]
                tied_with(key, left@ + right@ + back@.reverse(), t) == tied_with(key, whole, t),
        decreases left@.len() + right@.len(),
    {
        let take_left = if left.len() == 0 {
            false
        } else if right.len() == 0 {
            true
        } else {
            goes_first(key, &right[right.len() - 1], &left[left.len() - 1])
        };
        let ghost (l, r, b) = (left@, right@, back@);
        if take_left {
            if let Some(last) = left.pop() {
                back.push(last);
                proof {
                    lemma_merge_step_left(key, l, r, b.reverse());
                    assert(back@.reverse() =~= seq![last] + b.reverse());
                    assert forall|i: int| 0 <= i < r.len() implies !precedes(
                        key,
                        last@,
                        (#[trigger] r[i])@,
                    ) by {
                        lemma_precedes_chain(key, r[i]@, last@, last@);
                    }
                    assert(left@ =~= l.drop_last());
                    assert forall|t: Tombstone| #[trigger]
                        tied_with(key, left@ + right@ + back@.reverse(), t) == tied_with(
                            key,
                            whole,
                            t,
                        ) by {
                        assert(tied_with(key, l + r + b.reverse(), t) == tied_with(key, whole, t));
                    }
                }
            }
        } else {
            if let Some(last) = right.pop() {
                back.push(last);
                proof {
                    assert(back@.reverse() =~= seq![last] + b.reverse());
                    assert(left@ + right@ + back@.reverse() =~= l + r + b.reverse());
                    assert forall|i: int| 0 <= i < l.len() implies !precedes(
                        key,
                        last@,
                        (#[trigger] l[i])@,
                    ) by {
                        lemma_precedes_chain(key, l[i]@, l.last()@, last@);
                    }
                }
            }
        }
    }
    assert(left@ + right@ + back@.reverse() =~= back@.reverse());
    reversed(back)
}

/// Sorts the tombstones, tied ones in the order in which they came.
pub fn stable_sort(key: SortKey, tombstones: Vec<RangeTombstone>) -> (r: Vec<RangeTombstone>)
    ensures
        is_stable_sort(key, tombstones@, r@),
        r@.to_multiset() == tombstones@.to_multiset(),
        forall|i: int, j: int|
            0 <= i < j < r@.len() ==> (#[trigger] r@[i]).seq >= (#[trigger] r@[j]).seq,
        key == SortKey::BySeqThenRange ==> forall|i: int, j: int|
            0 <= i < j < r@.len() && (#[trigger] r@[i]).seq == (#[trigger] r@[j]).seq
                ==> !bytes_range::interval_lt(r@[i].range@, r@[j].range@),
    decreases tombstones@.len(),
{
    if tombstones.len() < 2 {
        return tombstones;
    }
    let middle: usize = tombstones.len() / 2;
    let mut left = tombstones;
    let right = left.split_off(middle);
    let ghost (l, r) = (left@, right@);
    let left = stable_sort(key, left);
    let right = stable_sort(key, right);
    proof {
        assert(tombstones@ =~= l + r);
        assert forall|t: Tombstone| #[trigger]
            tied_with(key, left@ + right@, t) == tied_with(key, tombstones@, t) by {
            lemma_tied_with_concat(key, left@, right@, t);
            lemma_tied_with_concat(key, l, r, t);
            assert(tied_with(key, left@, t) == tied_with(key, l, t));
            assert(tied_with(key, right@, t) == tied_with(key, r, t));
        }
    }
    let merged = merge(key, left, right);
    proof {
        assert forall|t: Tombstone| #[trigger]
            tied_with(key, merged@, t) == tied_with(key, tombstones@, t) by {
            assert(tied_with(key, merged@, t) == tied_with(key, left@ + right@, t));
        }
        lemma_stable_sort_permutes(key, tombstones@, merged@);
    }
    merged
}

} // verus!
