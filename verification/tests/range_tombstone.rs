use bytes::Bytes;
use range_tombstone::bound::Bound;
use range_tombstone::byte_order::ByteOrder;
use range_tombstone::bytes_range::BytesRange;
use range_tombstone::range_tombstone::{
    bound_bytes, bound_flag, decode_bound, decode_range_tombstones, encode_range_tombstones,
    RangeTombstone, SlateRangeDecodeError,
};
use range_tombstone::types::{RowEntry, RowValue};

fn blob(text: &'static str) -> Bytes {
    Bytes::from_static(text.as_bytes())
}

fn included(text: &'static str) -> Bound<Bytes> {
    Bound::Included(blob(text))
}

fn excluded(text: &'static str) -> Bound<Bytes> {
    Bound::Excluded(blob(text))
}

fn put(key: &'static str, seq: u64) -> RowEntry {
    RowEntry { key: blob(key), value: RowValue::Value(blob("v")), seq }
}

#[test]
fn round_trips_all_bound_shapes() {
    let ranges = vec![
        BytesRange::new(
            Bound::Included(Bytes::from_static(b"a")),
            Bound::Excluded(Bytes::from_static(b"z")),
        ),
        BytesRange::new(
            Bound::Included(Bytes::from_static(b"a")),
            Bound::Included(Bytes::from_static(b"z")),
        ),
        BytesRange::new(Bound::Included(Bytes::from_static(b"a")), Bound::Unbounded),
        BytesRange::new(Bound::Unbounded, Bound::Included(Bytes::from_static(b"z"))),
        BytesRange::new(Bound::Unbounded, Bound::Unbounded),
    ];
    for range in ranges {
        let tombstone = RangeTombstone::new(range.clone(), 42);
        let encoded = encode_range_tombstones(std::slice::from_ref(&tombstone));
        let decoded = decode_range_tombstones(encoded).unwrap();
        assert_eq!(decoded, vec![tombstone]);
    }
}

#[test]
fn covers_keys_inside_the_interval_only() {
    let tombstone = RangeTombstone::new(
        BytesRange::new(
            Bound::Included(Bytes::from_static(b"k2")),
            Bound::Included(Bytes::from_static(b"k4")),
        ),
        5,
    );
    assert!(tombstone.range.contains(&Bytes::from_static(b"k2")));
    assert!(tombstone.range.contains(&Bytes::from_static(b"k3")));
    assert!(tombstone.range.contains(&Bytes::from_static(b"k4")));
    assert!(!tombstone.range.contains(&Bytes::from_static(b"k1")));
    assert!(!tombstone.range.contains(&Bytes::from_static(b"k5")));

    let half_open = RangeTombstone::new(
        BytesRange::new(
            Bound::Included(Bytes::from_static(b"k2")),
            Bound::Excluded(Bytes::from_static(b"k4")),
        ),
        5,
    );
    assert!(half_open.range.contains(&Bytes::from_static(b"k2")));
    assert!(!half_open.range.contains(&Bytes::from_static(b"k4")));
}

#[test]
fn open_starts_and_missing_ends() {
    let after = BytesRange::new(excluded("k2"), Bound::Unbounded);
    assert!(!after.contains(&blob("k2")));
    assert!(after.contains(&blob("k20")));
    assert!(after.contains(&blob("z")));
    let all = BytesRange::new(Bound::Unbounded, Bound::Unbounded);
    assert!(all.contains(&blob("")));
    let none = BytesRange::new(excluded("a"), excluded("a"));
    assert!(!none.contains(&blob("a")));
    let backwards = BytesRange::new(included("b"), included("a"));
    assert!(!backwards.contains(&blob("a")));
    assert!(!backwards.contains(&blob("b")));
}

#[test]
fn a_key_sorts_before_its_extensions() {
    let range = BytesRange::new(included("ab"), excluded("b"));
    assert!(!range.contains(&blob("a")));
    assert!(range.contains(&blob("ab")));
    assert!(range.contains(&blob("abc")));
    assert!(!range.contains(&blob("b")));
}

#[test]
fn bytes_compare_unsigned() {
    let range = BytesRange::new(Bound::Included(Bytes::from_static(&[0x7f])), Bound::Unbounded);
    assert!(range.contains(&Bytes::from_static(&[0x80])));
    assert!(!range.contains(&Bytes::from_static(&[0x01])));
}

#[test]
fn older_writes_are_covered_and_others_are_not() {
    let tombstone = RangeTombstone::new(BytesRange::new(included("k2"), included("k4")), 5);
    assert!(tombstone.covers_entry(&put("k3", 4)));
    assert!(!tombstone.covers_entry(&put("k3", 5)));
    assert!(!tombstone.covers_entry(&put("k3", 6)));
    assert!(!tombstone.covers_entry(&put("k5", 4)));
}

#[test]
fn record_bytes_are_little_endian() {
    let tombstone = RangeTombstone::new(
        BytesRange::new(included("ab"), excluded("xyz")),
        0x0102_0304_0506_0708,
    );
    let record = tombstone.encode_value();
    assert_eq!(
        &record[..],
        &[
            8, 7, 6, 5, 4, 3, 2, 1, 1, 2, 0, 0, 0, b'a', b'b', 2, 3, 0, 0, 0, b'x', b'y', b'z',
        ]
    );
}

#[test]
fn record_without_keys_has_the_fixed_fields_only() {
    let tombstone = RangeTombstone::new(BytesRange::new(Bound::Unbounded, Bound::Unbounded), 42);
    let record = tombstone.encode_value();
    assert_eq!(&record[..], &[42, 0, 0, 0, 0, 0, 0, 0, 0, 0, 0, 0, 0, 0, 0, 0, 0, 0]);
}

#[test]
fn record_leaves_what_follows() {
    let tombstone = RangeTombstone::new(BytesRange::new(excluded("a"), included("")), 7);
    let mut data = tombstone.encode_value().to_vec();
    data.extend_from_slice(b"rest");
    let mut data = Bytes::from(data);
    assert_eq!(RangeTombstone::decode_value(&mut data), Ok(tombstone));
    assert_eq!(data, blob("rest"));
}

#[test]
fn long_keys_use_more_than_one_length_byte() {
    let key = Bytes::from(vec![b'k'; 0x0102]);
    let tombstone =
        RangeTombstone::new(BytesRange::new(Bound::Included(key), Bound::Unbounded), 1);
    let record = tombstone.encode_value();
    assert_eq!(record.len(), 18 + 0x0102);
    assert_eq!(&record[8..13], &[1, 0x02, 0x01, 0, 0]);
    let mut data = record.clone();
    assert_eq!(RangeTombstone::decode_value(&mut data), Ok(tombstone));
    assert!(data.is_empty());
}

#[test]
fn every_cut_of_a_record_is_truncated() {
    let tombstone = RangeTombstone::new(BytesRange::new(included("ab"), excluded("c")), 9);
    let record = tombstone.encode_value();
    for n in 0..record.len() {
        let mut data = record.slice(..n);
        assert_eq!(
            RangeTombstone::decode_value(&mut data),
            Err(SlateRangeDecodeError::Truncated)
        );
    }
}

#[test]
fn a_short_header_is_left_unread() {
    let mut data = blob("1234567");
    assert_eq!(
        RangeTombstone::decode_value(&mut data),
        Err(SlateRangeDecodeError::Truncated)
    );
    assert_eq!(data, blob("1234567"));
}

#[test]
fn unknown_flags_are_invalid() {
    let mut data = Bytes::from_static(&[3, 0, 0, 0, 1, b'k', b'x']);
    assert_eq!(
        decode_bound(&mut data, ByteOrder::Big),
        Err(SlateRangeDecodeError::InvalidFlag)
    );
    assert_eq!(data, blob("x"));
}

#[test]
fn an_unbounded_flag_with_a_key_is_invalid() {
    let mut data = Bytes::from_static(&[0, 1, 0, 0, 0, b'k']);
    assert_eq!(
        decode_bound(&mut data, ByteOrder::Little),
        Err(SlateRangeDecodeError::InvalidFlag)
    );
    let mut data = Bytes::from_static(&[0, 0, 0, 0, 0]);
    assert_eq!(decode_bound(&mut data, ByteOrder::Little), Ok(Bound::Unbounded));
}

#[test]
fn a_bound_reads_its_length_in_the_order_asked_for() {
    let mut data = Bytes::from_static(&[2, 2, 0, 0, 0, b'a', b'b', b'c']);
    assert_eq!(decode_bound(&mut data, ByteOrder::Little), Ok(excluded("ab")));
    assert_eq!(data, blob("c"));
    let mut data = Bytes::from_static(&[1, 0, 0, 0, 2, b'a', b'b', b'c']);
    assert_eq!(decode_bound(&mut data, ByteOrder::Big), Ok(included("ab")));
    assert_eq!(data, blob("c"));
}

#[test]
fn a_bound_without_its_key_is_truncated() {
    let mut data = Bytes::from_static(&[1, 0, 0, 0, 3, b'a', b'b']);
    assert_eq!(
        decode_bound(&mut data, ByteOrder::Big),
        Err(SlateRangeDecodeError::Truncated)
    );
    assert_eq!(data, blob("ab"));
    let mut data = Bytes::from_static(&[1, 0, 0, 0]);
    assert_eq!(
        decode_bound(&mut data, ByteOrder::Big),
        Err(SlateRangeDecodeError::Truncated)
    );
    assert_eq!(data.len(), 4);
}

#[test]
fn flags_and_keys_of_bounds() {
    assert_eq!(bound_flag(Bound::Unbounded), 0);
    assert_eq!(bound_flag(included("a").as_ref()), 1);
    assert_eq!(bound_flag(excluded("a").as_ref()), 2);
    assert_eq!(bound_bytes(Bound::Unbounded), blob(""));
    assert_eq!(bound_bytes(included("a").as_ref()), blob("a"));
    assert_eq!(bound_bytes(excluded("b").as_ref()), blob("b"));
}

#[test]
fn row_payload_bytes() {
    let payload = RangeTombstone::encode_row_payload(true, excluded("xy").as_ref());
    assert_eq!(&payload[..], &[1, 2, 0, 0, 0, 2, b'x', b'y']);
    let payload = RangeTombstone::encode_row_payload(false, Bound::Unbounded);
    assert_eq!(&payload[..], &[0, 0, 0, 0, 0, 0]);
}

#[test]
fn row_payload_round_trips() {
    for start_inclusive in [true, false] {
        for end in [included("m"), excluded("m"), included(""), Bound::Unbounded] {
            let mut payload = RangeTombstone::encode_row_payload(start_inclusive, end.as_ref());
            assert_eq!(
                RangeTombstone::decode_row_payload(&mut payload),
                Ok((start_inclusive, end))
            );
            assert!(payload.is_empty());
        }
    }
}

#[test]
fn any_start_byte_but_zero_is_inclusive() {
    let mut data = Bytes::from_static(&[7, 0, 0, 0, 0, 0]);
    assert_eq!(
        RangeTombstone::decode_row_payload(&mut data),
        Ok((true, Bound::Unbounded))
    );
}

#[test]
fn row_payload_errors() {
    let mut data = Bytes::from_static(&[1, 0, 0, 0, 0]);
    assert_eq!(
        RangeTombstone::decode_row_payload(&mut data),
        Err(SlateRangeDecodeError::Truncated)
    );
    assert_eq!(data.len(), 5);
    let mut data = Bytes::from_static(&[1, 1, 0, 0, 0, 1]);
    assert_eq!(
        RangeTombstone::decode_row_payload(&mut data),
        Err(SlateRangeDecodeError::Truncated)
    );
    assert_eq!(data.len(), 0);
    let mut data = Bytes::from_static(&[1, 9, 0, 0, 0, 0]);
    assert_eq!(
        RangeTombstone::decode_row_payload(&mut data),
        Err(SlateRangeDecodeError::InvalidFlag)
    );
}

#[test]
fn row_keys_and_starts() {
    for start in [included("a"), included(""), excluded("a"), Bound::Unbounded] {
        let (key, inclusive) = RangeTombstone::row_key_from_start_bound(start.clone());
        assert_eq!(RangeTombstone::start_bound_from_row_key(key, inclusive), start);
    }
    assert_eq!(RangeTombstone::row_key_from_start_bound(included("a")), (blob("a"), true));
    assert_eq!(RangeTombstone::row_key_from_start_bound(excluded("a")), (blob("a"), false));
    assert_eq!(RangeTombstone::row_key_from_start_bound(Bound::Unbounded), (blob(""), false));
}

#[test]
fn an_excluded_empty_start_is_stored_as_unbounded() {
    let (key, inclusive) = RangeTombstone::row_key_from_start_bound(excluded(""));
    assert_eq!(
        RangeTombstone::start_bound_from_row_key(key, inclusive),
        Bound::Unbounded
    );
}

#[test]
fn an_interval_survives_a_row() {
    let range = BytesRange::new(excluded("a"), included("m"));
    let (key, inclusive) = RangeTombstone::row_key_from_start_bound(range.start.clone());
    let mut payload = RangeTombstone::encode_row_payload(inclusive, range.end_bound());
    let (inclusive, end) = RangeTombstone::decode_row_payload(&mut payload).unwrap();
    let start = RangeTombstone::start_bound_from_row_key(key, inclusive);
    assert_eq!(BytesRange::new(start, end), range);
}

#[test]
fn block_lengths_are_big_endian() {
    let tombstone = RangeTombstone::new(BytesRange::new(included("a"), Bound::Unbounded), 3);
    let block = encode_range_tombstones(&[tombstone]);
    assert_eq!(
        &block[..],
        &[0, 0, 0, 19, 3, 0, 0, 0, 0, 0, 0, 0, 1, 1, 0, 0, 0, b'a', 0, 0, 0, 0, 0]
    );
    assert!(encode_range_tombstones(&[]).is_empty());
    assert_eq!(decode_range_tombstones(Bytes::new()), Ok(vec![]));
}

#[test]
fn blocks_round_trip_and_concatenate() {
    let first = vec![
        RangeTombstone::new(BytesRange::new(included("a"), excluded("b")), 9),
        RangeTombstone::new(BytesRange::new(Bound::Unbounded, included("")), u64::MAX),
    ];
    let second = vec![RangeTombstone::new(BytesRange::new(excluded("x"), Bound::Unbounded), 0)];
    let mut data = encode_range_tombstones(&first).to_vec();
    data.extend_from_slice(&encode_range_tombstones(&second));
    let mut all = first.clone();
    all.extend(second.clone());
    assert_eq!(encode_range_tombstones(&all), Bytes::from(data.clone()));
    assert_eq!(decode_range_tombstones(Bytes::from(data)), Ok(all));
}

#[test]
fn cut_blocks_are_truncated() {
    let tombstone = RangeTombstone::new(BytesRange::new(included("a"), Bound::Unbounded), 3);
    let block = encode_range_tombstones(&[tombstone.clone(), tombstone.clone()]);
    let half = block.len() / 2;
    for n in 1..block.len() {
        let expected = if n == half {
            Ok(vec![tombstone.clone()])
        } else {
            Err(SlateRangeDecodeError::Truncated)
        };
        assert_eq!(decode_range_tombstones(block.slice(..n)), expected);
    }
}

#[test]
fn bytes_behind_a_record_in_its_frame_are_passed_over() {
    let tombstone = RangeTombstone::new(BytesRange::new(Bound::Unbounded, Bound::Unbounded), 1);
    let mut data = vec![0, 0, 0, 20];
    data.extend_from_slice(&tombstone.encode_value());
    data.extend_from_slice(&[0xff, 0xff]);
    assert_eq!(decode_range_tombstones(Bytes::from(data)), Ok(vec![tombstone]));
}

#[test]
fn the_first_bad_record_of_a_block_decides() {
    let mut data = vec![0, 0, 0, 18];
    data.extend_from_slice(&[0, 0, 0, 0, 0, 0, 0, 0, 5, 0, 0, 0, 0, 0, 0, 0, 0, 0]);
    data.push(0);
    assert_eq!(
        decode_range_tombstones(Bytes::from(data)),
        Err(SlateRangeDecodeError::InvalidFlag)
    );
}

#[test]
fn messages_of_errors() {
    assert_eq!(
        SlateRangeDecodeError::Truncated.message(),
        "range tombstone record is truncated"
    );
    assert_eq!(
        SlateRangeDecodeError::InvalidFlag.message(),
        "range tombstone record has an invalid bound flag"
    );
}

#[test]
fn the_record_does_not_grow_with_the_interval() {
    let narrow = RangeTombstone::new(BytesRange::new(included("k1"), included("k2")), 1);
    let wide = RangeTombstone::new(BytesRange::new(included("a0"), included("z9")), 1);
    assert_eq!(narrow.encode_value().len(), wide.encode_value().len());
    assert_eq!(narrow.encode_value().len(), 22);
}

#[test]
fn what_was_read_is_stored_as_the_same_bytes() {
    let stored = Bytes::from_static(&[
        9, 0, 0, 0, 0, 0, 0, 0, 2, 1, 0, 0, 0, b'a', 1, 0, 0, 0, 0, b'!',
    ]);
    let mut data = stored.clone();
    let tombstone = RangeTombstone::decode_value(&mut data).unwrap();
    assert_eq!(tombstone, RangeTombstone::new(BytesRange::new(excluded("a"), included("")), 9));
    assert_eq!(tombstone.encode_value(), stored.slice(..19));
    assert_eq!(data, stored.slice(19..));
}

#[test]
fn every_cut_of_a_row_payload_is_truncated() {
    let payload = RangeTombstone::encode_row_payload(true, excluded("xy").as_ref());
    for n in 0..payload.len() {
        let mut data = payload.slice(..n);
        assert_eq!(
            RangeTombstone::decode_row_payload(&mut data),
            Err(SlateRangeDecodeError::Truncated)
        );
    }
}

#[test]
fn row_keys_survive_being_starts() {
    for key in ["", "a"] {
        for inclusive in [true, false] {
            let start = RangeTombstone::start_bound_from_row_key(blob(key), inclusive);
            assert_eq!(
                RangeTombstone::row_key_from_start_bound(start),
                (blob(key), inclusive)
            );
        }
    }
}
