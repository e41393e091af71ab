use bytes::Bytes;
use range_tombstone::bound::Bound;
use range_tombstone::bytes_range::BytesRange;
use range_tombstone::range_tombstone::RangeTombstone;
use range_tombstone::range_tombstone_iter::{
    merge_tombstone_collections, RangeTombstoneIterator, ScanStep,
};
use range_tombstone::sorting::{stable_sort, SortKey};
use range_tombstone::types::{IterationOrder, RowEntry, RowValue};

fn blob(text: &'static str) -> Bytes {
    Bytes::from_static(text.as_bytes())
}

fn closed(first: &'static str, last: &'static str, seq: u64) -> RangeTombstone {
    RangeTombstone::new(
        BytesRange::new(Bound::Included(blob(first)), Bound::Included(blob(last))),
        seq,
    )
}

fn half_open(first: &'static str, last: &'static str, seq: u64) -> RangeTombstone {
    RangeTombstone::new(
        BytesRange::new(Bound::Included(blob(first)), Bound::Excluded(blob(last))),
        seq,
    )
}

fn put(key: &'static str, seq: u64) -> RowEntry {
    RowEntry { key: blob(key), value: RowValue::Value(blob("v")), seq }
}

fn five_rows() -> Vec<RowEntry> {
    vec![put("k1", 1), put("k2", 2), put("k3", 3), put("k4", 4), put("k5", 5)]
}

/// Drives a scan over rows that are at hand.
fn scan(tombstones: Vec<RangeTombstone>, rows: Vec<RowEntry>, order: IterationOrder) -> Vec<Bytes> {
    let mut iter = RangeTombstoneIterator::new(rows.into_iter(), tombstones, order);
    let mut keys = Vec::new();
    loop {
        let pulled: Result<Option<RowEntry>, ()> = Ok(iter.inner.next());
        match iter.next_step(pulled) {
            ScanStep::Return(Ok(Some(row))) => keys.push(row.key),
            ScanStep::Return(Ok(None)) => return keys,
            ScanStep::Return(Err(())) => unreachable!(),
            ScanStep::PullAgain => {}
        }
    }
}

#[test]
fn half_open_deletion_keeps_its_end() {
    let keys = scan(vec![half_open("k2", "k5", 6)], five_rows(), IterationOrder::Ascending);
    assert_eq!(keys, vec![blob("k1"), blob("k5")]);
}

#[test]
fn inclusive_deletion_takes_its_end() {
    let keys = scan(vec![closed("k2", "k4", 6)], five_rows(), IterationOrder::Ascending);
    assert_eq!(keys, vec![blob("k1"), blob("k5")]);
    let keys = scan(vec![closed("k2", "k5", 6)], five_rows(), IterationOrder::Ascending);
    assert_eq!(keys, vec![blob("k1")]);
}

#[test]
fn descending_scans_are_filtered_alike() {
    let mut rows = five_rows();
    rows.reverse();
    let keys = scan(vec![closed("k2", "k4", 6)], rows, IterationOrder::Descending);
    assert_eq!(keys, vec![blob("k5"), blob("k1")]);
}

#[test]
fn a_later_write_is_visible() {
    let rows = vec![put("k2", 2), put("k3", 7), put("k3", 3), put("k4", 4)];
    let keys = scan(vec![closed("k2", "k4", 6)], rows, IterationOrder::Ascending);
    assert_eq!(keys, vec![blob("k3")]);
}

#[test]
fn a_write_of_the_same_batch_is_visible() {
    let rows = vec![put("k2", 2), put("k3", 6), put("k4", 4)];
    let keys = scan(vec![closed("k2", "k4", 6)], rows, IterationOrder::Ascending);
    assert_eq!(keys, vec![blob("k3")]);
}

#[test]
fn without_tombstones_every_point_row_is_yielded() {
    assert_eq!(scan(vec![], five_rows(), IterationOrder::Ascending).len(), 5);
}

#[test]
fn rows_of_range_deletions_are_not_yielded() {
    let row = RowEntry { key: blob("k9"), value: RowValue::RangeTombstone(blob("")), seq: 9 };
    assert!(row.is_range_tombstone());
    let iter = RangeTombstoneIterator::new((), vec![], IterationOrder::Ascending);
    assert!(!iter.is_visible(&row));
    let point = RowEntry { key: blob("k9"), value: RowValue::Tombstone, seq: 9 };
    assert!(!point.is_range_tombstone());
    assert!(iter.is_visible(&point));
}

#[test]
fn errors_and_the_end_are_passed_on() {
    let iter =
        RangeTombstoneIterator::new((), vec![closed("a", "z", 9)], IterationOrder::Ascending);
    assert!(matches!(iter.next_step(Err("lost")), ScanStep::Return(Err("lost"))));
    assert!(matches!(iter.next_step::<()>(Ok(None)), ScanStep::Return(Ok(None))));
    assert!(matches!(iter.next_step::<()>(Ok(Some(put("k", 1)))), ScanStep::PullAgain));
    match iter.next_step::<()>(Ok(Some(put("k", 9)))) {
        ScanStep::Return(Ok(Some(row))) => assert_eq!(row, put("k", 9)),
        _ => panic!("the row is visible"),
    }
}

#[test]
fn the_side_collection_descends_and_keeps_ties_in_order() {
    let given = vec![
        closed("a", "b", 3),
        closed("c", "d", 7),
        closed("e", "f", 3),
        closed("g", "h", 9),
        closed("i", "j", 7),
        closed("a", "b", 3),
        closed("k", "l", 1),
    ];
    let iter = RangeTombstoneIterator::new((), given, IterationOrder::Ascending);
    let expected = vec![
        closed("g", "h", 9),
        closed("c", "d", 7),
        closed("i", "j", 7),
        closed("a", "b", 3),
        closed("e", "f", 3),
        closed("a", "b", 3),
        closed("k", "l", 1),
    ];
    assert_eq!(iter.tombstones(), &expected);
}

#[test]
fn sorting_by_interval_too() {
    let sorted = stable_sort(
        SortKey::BySeqThenRange,
        vec![closed("a", "b", 3), closed("a", "c", 3), half_open("a", "b", 3), closed("b", "b", 4)],
    );
    assert_eq!(
        sorted,
        vec![closed("b", "b", 4), closed("a", "c", 3), closed("a", "b", 3), half_open("a", "b", 3)]
    );
}

#[test]
fn order_of_intervals() {
    let start = |start| BytesRange::new(start, Bound::Unbounded);
    assert!(start(Bound::Unbounded).comes_before(&start(Bound::Included(blob("")))));
    assert!(start(Bound::Included(blob("a"))).comes_before(&start(Bound::Excluded(blob("a")))));
    assert!(start(Bound::Excluded(blob("a"))).comes_before(&start(Bound::Included(blob("b")))));
    assert!(!start(Bound::Unbounded).comes_before(&start(Bound::Unbounded)));
    let end = |end| BytesRange::new(Bound::Unbounded, end);
    assert!(end(Bound::Excluded(blob("a"))).comes_before(&end(Bound::Included(blob("a")))));
    assert!(end(Bound::Included(blob("a"))).comes_before(&end(Bound::Excluded(blob("b")))));
    assert!(end(Bound::Included(blob("z"))).comes_before(&end(Bound::Unbounded)));
}

#[test]
fn merging_sorts_and_drops_repeats() {
    let merged = merge_tombstone_collections(vec![
        vec![closed("a", "b", 3), closed("c", "d", 7)],
        vec![],
        vec![closed("c", "d", 7), closed("a", "b", 3), closed("e", "f", 3)],
        vec![closed("a", "b", 4)],
    ]);
    assert_eq!(
        merged,
        vec![closed("c", "d", 7), closed("a", "b", 4), closed("e", "f", 3), closed("a", "b", 3)]
    );
    assert_eq!(merge_tombstone_collections(vec![]), vec![]);
}

#[test]
fn merging_does_not_depend_on_the_spread() {
    let one = merge_tombstone_collections(vec![vec![
        closed("a", "b", 3),
        closed("c", "d", 7),
        half_open("a", "b", 3),
    ]]);
    let other = merge_tombstone_collections(vec![
        vec![half_open("a", "b", 3)],
        vec![closed("c", "d", 7), closed("a", "b", 3)],
        vec![half_open("a", "b", 3)],
    ]);
    assert_eq!(one, other);
    assert_eq!(merge_tombstone_collections(vec![one.clone()]), one);
}

#[test]
fn merged_tombstones_hide_what_the_collections_hide() {
    let merged =
        merge_tombstone_collections(vec![vec![closed("k1", "k2", 9)], vec![closed("k4", "k4", 9)]]);
    let keys = scan(merged, five_rows(), IterationOrder::Ascending);
    assert_eq!(keys, vec![blob("k3"), blob("k5")]);
}

#[test]
fn two_lists_hide_what_either_hides_in_any_order() {
    let (a, b) = (closed("k1", "k2", 9), closed("k4", "k5", 9));
    let keys = vec![blob("k3")];
    let both = vec![a.clone(), b.clone()];
    assert_eq!(scan(both, five_rows(), IterationOrder::Ascending), keys);
    let swapped = vec![b.clone(), a.clone(), b];
    assert_eq!(scan(swapped, five_rows(), IterationOrder::Ascending), keys);
    let one = scan(vec![a], five_rows(), IterationOrder::Ascending);
    assert_eq!(one, vec![blob("k3"), blob("k4"), blob("k5")]);
}

#[test]
fn older_writes_are_hidden_before_newer_ones() {
    let tombstones = vec![closed("k", "k", 5), closed("k", "k", 3)];
    let iter = RangeTombstoneIterator::new((), tombstones, IterationOrder::Ascending);
    let seen: Vec<bool> = (0..8).map(|seq| iter.is_visible(&put("k", seq))).collect();
    assert_eq!(seen, vec![false, false, false, false, false, true, true, true]);
}
