//! What filtering, sorting and merging tombstones keep.

use crate::bound::Bound;
use crate::buffer::content;
use crate::bytes_range::{interval_lt, Interval};
use crate::interval_laws;
use crate::key_order::key_lt;
use crate::range_tombstone::{covers, RangeTombstone};
use crate::range_tombstone_iter::{hidden, offered, step, strictly_sorted, visible, ScanStep};
use crate::sorting;
use crate::sorting::{is_stable_sort, precedes, tied, tied_with, SortKey};
use crate::types::RowEntry;
use crate::wire::{views, Tombstone};
use vstd::prelude::*;

verus! {

/// A write with the same or a larger sequence number is not hidden. So a write
/// wins over a range deletion of the same batch.
pub proof fn law_same_batch_write_wins(t: Tombstone, key: Seq<u8>, seq: u64)
    requires
        seq >= t.seq,
    ensures
        !covers(t, key, seq),
{
}

/// A write that is as new as all tombstones is hidden by none of them.
pub proof fn law_newest_write_stays(ts: Seq<Tombstone>, key: Seq<u8>, seq: u64)
    requires
        forall|i: int| 0 <= i < ts.len() ==> (#[trigger] ts[i]).seq <= seq,
    ensures
        !hidden(ts, key, seq),
{
}

/// An older write is hidden together with a newer one to the same key.
pub proof fn law_older_writes_go_first(ts: Seq<Tombstone>, key: Seq<u8>, older: u64, newer: u64)
    requires
        older <= newer,
        hidden(ts, key, newer),
    ensures
        hidden(ts, key, older),
{
    let i = choose|i: int| 0 <= i < ts.len() && covers(#[trigger] ts[i], key, newer);
    assert(covers(ts[i], key, older));
}

/// A row that records a range deletion is never yielded.
pub proof fn law_range_rows_not_yielded(ts: Seq<Tombstone>, entry: RowEntry)
    requires
        entry.value is RangeTombstone,
    ensures
        !visible(ts, entry),
{
}

/// An older write inside the interval is hidden.
pub proof fn law_older_write_inside_is_hidden(t: Tombstone, key: Seq<u8>, seq: u64)
    requires
        seq < t.seq,
        t.range.contains(key),
    ensures
        covers(t, key, seq),
{
}

/// An older write is hidden iff neither end of the interval shuts its key out.
/// A missing end shuts no key out.
pub proof fn law_older_write_between_the_ends_is_hidden(t: Tombstone, key: Seq<u8>, seq: u64)
    requires
        seq < t.seq,
    ensures
        covers(t, key, seq) <==> {
            &&& t.range.start matches Bound::Included(first) ==> key == first || key_lt(first, key)
            &&& t.range.start matches Bound::Excluded(first) ==> key_lt(first, key)
            &&& t.range.end matches Bound::Included(last) ==> key == last || key_lt(key, last)
            &&& t.range.end matches Bound::Excluded(last) ==> key_lt(key, last)
        },
{
    lemma_sides(t.range, key);
}

/// A key that an end shuts out is not contained.
proof fn lemma_sides(range: Interval, key: Seq<u8>)
    ensures
        range.contains(key) <==> {
            &&& range.start matches Bound::Included(first) ==> key == first || key_lt(first, key)
            &&& range.start matches Bound::Excluded(first) ==> key_lt(first, key)
            &&& range.end matches Bound::Included(last) ==> key == last || key_lt(key, last)
            &&& range.end matches Bound::Excluded(last) ==> key_lt(key, last)
        },
{
    interval_laws::law_ends_are_independent(range.start, range.end, key);
    match range.start {
        Bound::Included(first) => interval_laws::law_start_alone(first, key),
        Bound::Excluded(first) => interval_laws::law_start_alone(first, key),
        Bound::Unbounded => {},
    }
    match range.end {
        Bound::Included(last) => interval_laws::law_end_alone(last, key),
        Bound::Excluded(last) => interval_laws::law_end_alone(last, key),
        Bound::Unbounded => {},
    }
}

/// The deletion of an interval with no end hides every older write at or past
/// its start.
pub proof fn law_deletion_without_end(t: Tombstone, first: Seq<u8>, key: Seq<u8>, seq: u64)
    requires
        t.range.end is Unbounded,
        t.range.start == Bound::Included(first),
        seq < t.seq,
        key == first || key_lt(first, key),
    ensures
        covers(t, key, seq),
{
    interval_laws::law_everything_between(t.range, key);
}

/// A write outside the interval is not hidden, however old it is.
pub proof fn law_write_outside_is_spared(t: Tombstone, key: Seq<u8>, seq: u64)
    requires
        !t.range.contains(key),
    ensures
        !covers(t, key, seq),
{
}

/// Sequence numbers and intervals count apart: whether a write is hidden is
/// whether it is older than the deletion, and whether the first of all writes
/// to the key would be hidden.
pub proof fn law_age_and_place_count_apart(t: Tombstone, key: Seq<u8>, seq: u64)
    requires
        t.seq > 0,
    ensures
        covers(t, key, seq) <==> seq < t.seq && covers(t, key, 0),
{
}

/// A later deletion of the same interval hides all that an earlier one hides.
pub proof fn law_later_deletion_hides_more(
    earlier: Tombstone,
    later: Tombstone,
    key: Seq<u8>,
    seq: u64,
)
    requires
        earlier.range == later.range,
        earlier.seq <= later.seq,
        covers(earlier, key, seq),
    ensures
        covers(later, key, seq),
{
}

/// Any tombstone of the list, wherever it stands, hides the older writes inside
/// its interval.
pub proof fn law_every_tombstone_counts(ts: Seq<Tombstone>, i: int, key: Seq<u8>, seq: u64)
    requires
        0 <= i < ts.len(),
        seq < ts[i].seq,
        ts[i].range.contains(key),
    ensures
        hidden(ts, key, seq),
{
    assert(covers(ts[i], key, seq));
}

/// A write that is hidden lies inside the interval of a tombstone of the list
/// that is newer.
pub proof fn law_hidden_for_a_reason(ts: Seq<Tombstone>, key: Seq<u8>, seq: u64)
    requires
        hidden(ts, key, seq),
    ensures
        exists|i: int|
            0 <= i < ts.len() && seq < (#[trigger] ts[i]).seq && ts[i].range.contains(key),
{
    let i = choose|i: int| 0 <= i < ts.len() && covers(#[trigger] ts[i], key, seq);
    assert(seq < ts[i].seq && ts[i].range.contains(key));
}

/// A row that a tombstone of the list covers, wherever that stands, is not
/// yielded.
pub proof fn law_covered_row_is_not_yielded(ts: Seq<Tombstone>, i: int, entry: RowEntry)
    requires
        0 <= i < ts.len(),
        entry.seq < ts[i].seq,
        ts[i].range.contains(content(entry.key)),
    ensures
        !visible(ts, entry),
{
    law_every_tombstone_counts(ts, i, content(entry.key), entry.seq);
}

/// A row that is not a range deletion, and that no tombstone of the list
/// covers, is yielded.
pub proof fn law_uncovered_row_is_yielded(ts: Seq<Tombstone>, entry: RowEntry)
    requires
        !(entry.value is RangeTombstone),
        forall|i: int|
            0 <= i < ts.len() && entry.seq < (#[trigger] ts[i]).seq ==> !ts[i].range.contains(
                content(entry.key),
            ),
    ensures
        visible(ts, entry),
{
    if hidden(ts, content(entry.key), entry.seq) {
        law_hidden_for_a_reason(ts, content(entry.key), entry.seq);
    }
}

/// With no tombstones, every row is yielded that is not a range deletion.
pub proof fn law_nothing_deleted(entry: RowEntry)
    ensures
        visible(Seq::empty(), entry) <==> !(entry.value is RangeTombstone),
{
}

/// A row is yielded under two lists of tombstones together iff it is under each
/// of them.
pub proof fn law_visible_under_both(a: Seq<Tombstone>, b: Seq<Tombstone>, entry: RowEntry)
    ensures
        visible(a + b, entry) <==> visible(a, entry) && visible(b, entry),
{
    law_tombstones_add_up(a, b, content(entry.key), entry.seq);
}

/// One tombstone more takes away exactly the older rows inside its interval.
pub proof fn law_one_more_tombstone(ts: Seq<Tombstone>, t: Tombstone, entry: RowEntry)
    ensures
        visible(ts.push(t), entry) <==> visible(ts, entry) && !(entry.seq < t.seq
            && t.range.contains(content(entry.key))),
{
    assert(ts.push(t) =~= ts + seq![t]);
    law_tombstones_add_up(ts, seq![t], content(entry.key), entry.seq);
    assert(seq![t][0] == t);
}

/// Point rows of one key and one sequence number are yielded alike: written
/// values, whatever they are, and deletions of the key.
pub proof fn law_point_rows_alike(ts: Seq<Tombstone>, a: RowEntry, b: RowEntry)
    requires
        content(a.key) == content(b.key),
        a.seq == b.seq,
        a.value is Value || a.value is Tombstone,
        b.value is Value || b.value is Tombstone,
    ensures
        visible(ts, a) <==> visible(ts, b),
{
}

/// What the source hands out is passed on as it is, or not at all; and errors
/// and the end of the stream are always passed on.
pub proof fn law_passed_on_unchanged<E>(
    ts: Seq<Tombstone>,
    pulled: Result<Option<RowEntry>, E>,
)
    ensures
        step(ts, pulled) == ScanStep::Return(pulled) || step(ts, pulled) is PullAgain,
        pulled is Err ==> step(ts, pulled) == ScanStep::Return(pulled),
        pulled matches Ok(None) ==> step(ts, pulled) == ScanStep::Return(pulled),
{
}

/// A row is passed over iff it is a range deletion or a newer tombstone of the
/// list has its key inside.
pub proof fn law_passed_over<E>(ts: Seq<Tombstone>, entry: RowEntry)
    ensures
        step::<E>(ts, Ok(Some(entry))) is PullAgain <==> entry.value is RangeTombstone || exists|
            i: int,
        |
            0 <= i < ts.len() && entry.seq < (#[trigger] ts[i]).seq && ts[i].range.contains(
                content(entry.key),
            ),
{
    if entry.value is RangeTombstone {
    } else if exists|i: int|
        0 <= i < ts.len() && entry.seq < (#[trigger] ts[i]).seq && ts[i].range.contains(
            content(entry.key),
        ) {
        let i = choose|i: int|
            0 <= i < ts.len() && entry.seq < (#[trigger] ts[i]).seq && ts[i].range.contains(
                content(entry.key),
            );
        law_covered_row_is_not_yielded(ts, i, entry);
    } else {
        law_uncovered_row_is_yielded(ts, entry);
    }
}

/// Two lists of tombstones together hide what either hides.
pub proof fn law_tombstones_add_up(a: Seq<Tombstone>, b: Seq<Tombstone>, key: Seq<u8>, seq: u64)
    ensures
        hidden(a + b, key, seq) <==> hidden(a, key, seq) || hidden(b, key, seq),
{
    if hidden(a, key, seq) {
        let i = choose|i: int| 0 <= i < a.len() && covers(#[trigger] a[i], key, seq);
        assert((a + b)[i] == a[i]);
    }
    if hidden(b, key, seq) {
        let i = choose|i: int| 0 <= i < b.len() && covers(#[trigger] b[i], key, seq);
        assert((a + b)[a.len() + i] == b[i]);
    }
}

/// What is hidden depends on which tombstones there are, not on their order nor
/// on how often each occurs.
pub proof fn law_only_membership_counts(
    a: Seq<Tombstone>,
    b: Seq<Tombstone>,
    key: Seq<u8>,
    seq: u64,
)
    requires
        forall|t: Tombstone| #[trigger] a.contains(t) <==> b.contains(t),
    ensures
        hidden(a, key, seq) <==> hidden(b, key, seq),
{
    if hidden(a, key, seq) {
        let i = choose|i: int| 0 <= i < a.len() && covers(#[trigger] a[i], key, seq);
        assert(a.contains(a[i]));
        let j = choose|j: int| 0 <= j < b.len() && b[j] == a[i];
        assert(covers(b[j], key, seq));
    }
    if hidden(b, key, seq) {
        let i = choose|i: int| 0 <= i < b.len() && covers(#[trigger] b[i], key, seq);
        assert(a.contains(b[i]));
        let j = choose|j: int| 0 <= j < a.len() && a[j] == b[i];
        assert(covers(a[j], key, seq));
    }
}

/// A scan filters alike however the tombstones that it was given were ordered.
pub proof fn law_sorting_keeps_hidden(
    sort_key: SortKey,
    input: Seq<RangeTombstone>,
    output: Seq<RangeTombstone>,
    key: Seq<u8>,
    seq: u64,
)
    requires
        is_stable_sort(sort_key, input, output),
    ensures
        hidden(views(output), key, seq) <==> hidden(views(input), key, seq),
{
    sorting::lemma_stable_sort_keeps(sort_key, input, output);
    assert forall|t: Tombstone| #[trigger]
        views(output).contains(t) <==> views(input).contains(t) by {
        sorting::lemma_views_follow(output, input, t);
        sorting::lemma_views_follow(input, output, t);
    }
    law_only_membership_counts(views(output), views(input), key, seq);
}

/// Merging collections loses no deletion and adds none: what the merged list
/// hides is what one of the collections hides.
pub proof fn law_merging_keeps_hidden(
    collections: Seq<Vec<RangeTombstone>>,
    merged: Seq<Tombstone>,
    key: Seq<u8>,
    seq: u64,
)
    requires
        forall|t: Tombstone| #[trigger] merged.contains(t) <==> offered(collections, t),
    ensures
        hidden(merged, key, seq) <==> exists|c: int|
            0 <= c < collections.len() && hidden(views((#[trigger] collections[c])@), key, seq),
{
    if hidden(merged, key, seq) {
        let i = choose|i: int| 0 <= i < merged.len() && covers(#[trigger] merged[i], key, seq);
        assert(merged.contains(merged[i]));
        let c = choose|c: int|
            0 <= c < collections.len() && views((#[trigger] collections[c])@).contains(merged[i]);
        let ts = views(collections[c]@);
        let j = choose|j: int| 0 <= j < ts.len() && ts[j] == merged[i];
        assert(covers(ts[j], key, seq));
        assert(hidden(views(collections[c]@), key, seq));
    }
    if exists|c: int|
        0 <= c < collections.len() && hidden(views((#[trigger] collections[c])@), key, seq) {
        let c = choose|c: int|
            0 <= c < collections.len() && hidden(views((#[trigger] collections[c])@), key, seq);
        let ts = views(collections[c]@);
        let j = choose|j: int| 0 <= j < ts.len() && covers(#[trigger] ts[j], key, seq);
        assert(ts.contains(ts[j]));
        assert(offered(collections, ts[j]));
        assert(merged.contains(ts[j]));
        let i = choose|i: int| 0 <= i < merged.len() && merged[i] == ts[j];
        assert(covers(merged[i], key, seq));
    }
}

/// A merged list descends by sequence number, and no tombstone stands in it
/// twice.
pub proof fn law_merged_descends(merged: Seq<Tombstone>, i: int, j: int)
    requires
        strictly_sorted(merged),
        0 <= i < j < merged.len(),
    ensures
        merged[i].seq >= merged[j].seq,
        merged[i] != merged[j],
{
    sorting::lemma_precedes_chain(SortKey::BySeqThenRange, merged[i], merged[i], merged[j]);
}

/// The result of merging depends on which tombstones were offered, not on how
/// they were spread over collections, nor on the order of these, nor on how
/// often each tombstone occurs.
pub proof fn law_merge_determined(a: Seq<Tombstone>, b: Seq<Tombstone>)
    requires
        strictly_sorted(a),
        strictly_sorted(b),
        forall|t: Tombstone| #[trigger] a.contains(t) <==> b.contains(t),
    ensures
        a == b,
    decreases a.len(),
{
    if a.len() == 0 {
        if b.len() > 0 {
            assert(a.contains(b[0]));
        }
        assert(a =~= b);
    } else {
        assert(a.contains(a[0]));
        let j = choose|j: int| 0 <= j < b.len() && b[j] == a[0];
        assert(a.contains(b[0]));
        let i = choose|i: int| 0 <= i < a.len() && a[i] == b[0];
        sorting::lemma_precedes_chain(SortKey::BySeqThenRange, a[0], b[0], a[0]);
        assert(a[0] == b[0]);
        let (x, y) = (a.drop_first(), b.drop_first());
        assert forall|t: Tombstone| #[trigger] x.contains(t) <==> y.contains(t) by {
            lemma_first_is_alone(a, t);
            lemma_first_is_alone(b, t);
        }
        assert(strictly_sorted(x)) by {
            assert forall|i: int, j: int| 0 <= i < j < x.len() implies precedes(
                SortKey::BySeqThenRange,
                #[trigger] x[i],
                #[trigger] x[j],
            ) by {
                assert(x[i] == a[i + 1] && x[j] == a[j + 1]);
            }
        }
        assert(strictly_sorted(y)) by {
            assert forall|i: int, j: int| 0 <= i < j < y.len() implies precedes(
                SortKey::BySeqThenRange,
                #[trigger] y[i],
                #[trigger] y[j],
            ) by {
                assert(y[i] == b[i + 1] && y[j] == b[j + 1]);
            }
        }
        law_merge_determined(x, y);
        assert(a =~= seq![a[0]] + x);
        assert(b =~= seq![b[0]] + y);
    }
}

/// The first tombstone of a merged list does not occur again.
proof fn lemma_first_is_alone(a: Seq<Tombstone>, t: Tombstone)
    requires
        strictly_sorted(a),
        a.len() > 0,
    ensures
        a.drop_first().contains(t) <==> a.contains(t) && t != a[0],
{
    let x = a.drop_first();
    if x.contains(t) {
        let i = choose|i: int| 0 <= i < x.len() && x[i] == t;
        assert(a[i + 1] == t);
        law_merged_descends(a, 0, i + 1);
    }
    if a.contains(t) && t != a[0] {
        let i = choose|i: int| 0 <= i < a.len() && a[i] == t;
        assert(x[i - 1] == t);
    }
}

/// Merging a merged list again changes nothing.
pub proof fn law_merge_idempotent(once: Vec<RangeTombstone>, again: Seq<Tombstone>)
    requires
        strictly_sorted(views(once@)),
        strictly_sorted(again),
        forall|t: Tombstone| #[trigger] again.contains(t) <==> offered(seq![once], t),
    ensures
        again == views(once@),
{
    assert forall|t: Tombstone| #[trigger] again.contains(t) <==> views(once@).contains(t) by {
        let collections = seq![once];
        if views(once@).contains(t) {
            assert(collections[0] == once);
        }
    }
    law_merge_determined(again, views(once@));
}

/// Every tombstone of every collection is offered.
pub proof fn law_every_member_is_offered(
    collections: Seq<Vec<RangeTombstone>>,
    c: int,
    k: int,
)
    requires
        0 <= c < collections.len(),
        0 <= k < collections[c]@.len(),
    ensures
        offered(
            collections,
            Tombstone { range: collections[c]@[k].range@, seq: collections[c]@[k].seq },
        ),
{
    assert(views(collections[c]@)[k] == collections[c]@[k]@);
}

/// Nothing is offered but the tombstones of the collections.
pub proof fn law_only_members_are_offered(collections: Seq<Vec<RangeTombstone>>, t: Tombstone)
    requires
        offered(collections, t),
    ensures
        exists|c: int, k: int|
            0 <= c < collections.len() && 0 <= k < collections[c]@.len() && collections[c]@[k].seq
                == t.seq && #[trigger] collections[c]@[k].range@ == t.range,
{
    let c = choose|c: int|
        0 <= c < collections.len() && views((#[trigger] collections[c])@).contains(t);
    let k = choose|k: int| 0 <= k < collections[c]@.len() && views(collections[c]@)[k] == t;
    assert(collections[c]@[k]@ == t);
    assert(collections[c]@[k].range@ == t.range);
}

/// In a merged list, tombstones of one sequence number descend by interval.
pub proof fn law_merged_ties_descend(merged: Seq<Tombstone>, i: int, j: int)
    requires
        strictly_sorted(merged),
        0 <= i < j < merged.len(),
        merged[i].seq == merged[j].seq,
    ensures
        interval_lt(merged[j].range, merged[i].range),
{
    assert(precedes(SortKey::BySeqThenRange, merged[i], merged[j]));
}

/// A list that descends by sequence number, and within one by interval, is
/// merged already.
pub proof fn law_descending_is_merged(ts: Seq<Tombstone>)
    requires
        forall|i: int, j: int|
            0 <= i < j < ts.len() ==> (#[trigger] ts[i]).seq > (#[trigger] ts[j]).seq || (ts[i].seq
                == ts[j].seq && interval_lt(ts[j].range, ts[i].range)),
    ensures
        strictly_sorted(ts),
{
}

/// A stable sort holds each tombstone as often as the list that it sorts.
pub proof fn law_sorting_permutes(
    key: SortKey,
    input: Seq<RangeTombstone>,
    output: Seq<RangeTombstone>,
)
    requires
        is_stable_sort(key, input, output),
    ensures
        output.to_multiset() == input.to_multiset(),
        output.len() == input.len(),
{
    broadcast use vstd::seq_lib::group_to_multiset_ensures;

    sorting::lemma_stable_sort_permutes(key, input, output);
    assert(output.to_multiset().len() == output.len());
    assert(input.to_multiset().len() == input.len());
}

/// A sorted list descends by sequence number; sorted by interval too, it
/// descends by interval within each sequence number.
pub proof fn law_sorting_descends(
    key: SortKey,
    input: Seq<RangeTombstone>,
    output: Seq<RangeTombstone>,
    i: int,
    j: int,
)
    requires
        is_stable_sort(key, input, output),
        0 <= i < j < output.len(),
    ensures
        output[i].seq >= output[j].seq,
        key == SortKey::BySeqThenRange && output[i].seq == output[j].seq ==> !interval_lt(
            output[i].range@,
            output[j].range@,
        ),
{
    assert(!precedes(key, output[j]@, output[i]@));
}

/// Sorting by sequence number keeps the order among the tombstones of each
/// sequence number.
pub proof fn law_ties_keep_their_order(
    input: Seq<RangeTombstone>,
    output: Seq<RangeTombstone>,
    n: u64,
)
    requires
        is_stable_sort(SortKey::BySeq, input, output),
    ensures
        output.filter(|t: RangeTombstone| t.seq == n) == input.filter(
            |t: RangeTombstone| t.seq == n,
        ),
{
    let any = Interval { start: Bound::Unbounded, end: Bound::Unbounded };
    let t = Tombstone { range: any, seq: n };
    assert(tied_with(SortKey::BySeq, output, t) == tied_with(SortKey::BySeq, input, t));
    assert((|x: RangeTombstone| tied(SortKey::BySeq, x@, t)) =~= (|x: RangeTombstone| x.seq == n));
}

/// A stable sort is determined by what it sorts.
pub proof fn law_stable_sort_determined(
    key: SortKey,
    input: Seq<RangeTombstone>,
    a: Seq<RangeTombstone>,
    b: Seq<RangeTombstone>,
)
    requires
        is_stable_sort(key, input, a),
        is_stable_sort(key, input, b),
    ensures
        a == b,
{
    assert forall|t: Tombstone| #[trigger] tied_with(key, a, t) == tied_with(key, b, t) by {
        assert(tied_with(key, a, t) == tied_with(key, input, t));
    }
    sorting::lemma_sorted_determined(key, a, b);
}

/// What one call for the next row comes to, over all rows that the source still
/// holds: the row that is yielded, if any, and the rows that are left.
pub open spec fn next_row(ts: Seq<Tombstone>, stream: Seq<RowEntry>) -> (
    Option<RowEntry>,
    Seq<RowEntry>,
)
    decreases stream.len(),
{
    if stream.len() == 0 {
        (None, stream)
    } else {
        match step::<()>(ts, Ok(Some(stream[0]))) {
            ScanStep::Return(Ok(row)) => (row, stream.drop_first()),
            _ => next_row(ts, stream.drop_first()),
        }
    }
}

/// The rows that a scan yields until its source is empty.
pub open spec fn scan(ts: Seq<Tombstone>, stream: Seq<RowEntry>) -> Seq<RowEntry>
    decreases stream.len(),
{
    let (row, rest) = next_row(ts, stream);
    if row is Some && rest.len() < stream.len() {
        seq![row->0] + scan(ts, rest)
    } else {
        Seq::empty()
    }
}

/// A row is yielded only when a row is taken off.
proof fn lemma_next_row_takes(ts: Seq<Tombstone>, stream: Seq<RowEntry>)
    ensures
        next_row(ts, stream).0 is Some ==> next_row(ts, stream).1.len() < stream.len(),
    decreases stream.len(),
{
    if stream.len() > 0 {
        lemma_next_row_takes(ts, stream.drop_first());
    }
}

/// A scan yields exactly the rows of its source that are visible, in the order
/// of the source.
pub proof fn law_scan_yields_visible_rows(ts: Seq<Tombstone>, stream: Seq<RowEntry>)
    ensures
        scan(ts, stream) == stream.filter(|e: RowEntry| visible(ts, e)),
    decreases stream.len(),
{
    let keep = |e: RowEntry| visible(ts, e);
    reveal_with_fuel(Seq::filter, 2);
    if stream.len() > 0 {
        let (first, rest) = (stream[0], stream.drop_first());
        law_scan_yields_visible_rows(ts, rest);
        lemma_next_row_takes(ts, stream);
        lemma_next_row_takes(ts, rest);
        assert(stream =~= seq![first] + rest);
        Seq::filter_distributes_over_add(seq![first], rest, keep);
        assert(seq![first].drop_last() =~= Seq::empty());
        if visible(ts, first) {
            assert(seq![first].filter(keep) =~= seq![first]);
        } else {
            assert(seq![first].filter(keep) =~= Seq::empty());
            assert(scan(ts, stream) =~= scan(ts, rest));
            assert(Seq::empty() + rest.filter(keep) =~= rest.filter(keep));
        }
    }
}

/// A scan yields exactly those rows of its source, in the order of the source,
/// that are not range deletions and whose key no newer tombstone has inside.
pub proof fn law_scan_drops_what_was_deleted(ts: Seq<Tombstone>, stream: Seq<RowEntry>)
    ensures
        scan(ts, stream) == stream.filter(
            |e: RowEntry|
                !(e.value is RangeTombstone) && forall|i: int|
                    0 <= i < ts.len() && e.seq < (#[trigger] ts[i]).seq ==> !ts[i].range.contains(
                        content(e.key),
                    ),
        ),
{
    let spared = |e: RowEntry|
        !(e.value is RangeTombstone) && forall|i: int|
            0 <= i < ts.len() && e.seq < (#[trigger] ts[i]).seq ==> !ts[i].range.contains(
                content(e.key),
            );
    let keep = |e: RowEntry| visible(ts, e);
    assert forall|e: RowEntry| #[trigger] spared(e) == keep(e) by {
        if spared(e) {
            law_uncovered_row_is_yielded(ts, e);
        } else if !(e.value is RangeTombstone) {
            let i = choose|i: int|
                0 <= i < ts.len() && e.seq < (#[trigger] ts[i]).seq && ts[i].range.contains(
                    content(e.key),
                );
            law_covered_row_is_not_yielded(ts, i, e);
        }
    }
    assert(spared =~= keep);
    law_scan_yields_visible_rows(ts, stream);
}

/// Scanning one source after another yields the rows of the one and then those
/// of the other.
pub proof fn law_scans_follow_each_other(ts: Seq<Tombstone>, a: Seq<RowEntry>, b: Seq<RowEntry>)
    ensures
        scan(ts, a + b) == scan(ts, a) + scan(ts, b),
{
    law_scan_yields_visible_rows(ts, a);
    law_scan_yields_visible_rows(ts, b);
    law_scan_yields_visible_rows(ts, a + b);
    Seq::filter_distributes_over_add(a, b, |e: RowEntry| visible(ts, e));
}

/// A descending scan yields the rows of the ascending one, in reverse.
pub proof fn law_scan_either_way(ts: Seq<Tombstone>, stream: Seq<RowEntry>)
    ensures
        scan(ts, stream.reverse()) == scan(ts, stream).reverse(),
{
    law_scan_yields_visible_rows(ts, stream);
    law_scan_yields_visible_rows(ts, stream.reverse());
    lemma_filter_reverse(stream, |e: RowEntry| visible(ts, e));
}

/// Filtering and reversing can change places.
proof fn lemma_filter_reverse<A>(s: Seq<A>, keep: spec_fn(A) -> bool)
    ensures
        s.reverse().filter(keep) == s.filter(keep).reverse(),
    decreases s.len(),
{
    reveal_with_fuel(Seq::filter, 2);
    if s.len() == 0 {
        assert(s.reverse() =~= s);
        assert(s.filter(keep).reverse() =~= s.filter(keep));
    } else {
        let (init, last) = (s.drop_last(), s.last());
        lemma_filter_reverse(init, keep);
        assert(s.reverse() =~= seq![last] + init.reverse());
        Seq::filter_distributes_over_add(seq![last], init.reverse(), keep);
        assert(seq![last].drop_last() =~= Seq::empty());
        if keep(last) {
            assert(seq![last].filter(keep) =~= seq![last]);
            assert(s.filter(keep).reverse() =~= seq![last] + init.filter(keep).reverse());
        } else {
            assert(seq![last].filter(keep) =~= Seq::empty());
            assert(Seq::empty() + init.filter(keep).reverse() =~= init.filter(keep).reverse());
        }
    }
}

} // verus!
