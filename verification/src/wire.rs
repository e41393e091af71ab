//! The stored form of range tombstones, as byte strings.
//!
//! A bound is a flag, a length and a key. Three things are made of bounds:
//!
//! - a record, which is little-endian throughout: the sequence number, then
//!   the start and the end of the interval;
//! - a row payload, with a big-endian length: one byte for the kind of start,
//!   then the end;
//! - a block: records one after another, each behind its big-endian length.

use crate::bound::Bound;
use crate::byte_order;
use crate::byte_order::ByteOrder;
use crate::bytes_range::Interval;
use crate::range_tombstone::{RangeTombstone, SlateRangeDecodeError};
use vstd::prelude::*;

verus! {

/// What a [`RangeTombstone`] stands for: the deletion of every key of an
/// interval as of a sequence number.
#[verifier::ext_equal]
pub struct Tombstone {
    pub range: Interval,
    pub seq: u64,
}

/// What is read off the front of a byte string: a value or the reason that
/// there is none, and the bytes that are left.
pub struct Parsed<T> {
    pub value: Result<T, SlateRangeDecodeError>,
    pub rest: Seq<u8>,
}

/// The flag of a bound.
pub open spec fn flag(bound: Bound<Seq<u8>>) -> u8 {
    match bound {
        Bound::Unbounded => 0,
        Bound::Included(_) => 1,
        Bound::Excluded(_) => 2,
    }
}

/// The key of a bound, which is empty where there is none.
pub open spec fn key(bound: Bound<Seq<u8>>) -> Seq<u8> {
    match bound {
        Bound::Included(key) => key,
        Bound::Excluded(key) => key,
        Bound::Unbounded => Seq::empty(),
    }
}

/// What a length field holds for `n` bytes: `n`, reduced to 32 bits.
pub open spec fn length_field(n: nat) -> u32 {
    (n % 0x1_0000_0000) as u32
}

/// The stored form of a bound.
pub open spec fn bound_bytes(order: ByteOrder, bound: Bound<Seq<u8>>) -> Seq<u8> {
    seq![flag(bound)] + byte_order::u32_bytes(order, length_field(key(bound).len())) + key(bound)
}

/// The stored form of a tombstone: its record.
pub open spec fn record(t: Tombstone) -> Seq<u8> {
    byte_order::u64_le(t.seq) + bound_bytes(ByteOrder::Little, t.range.start) + bound_bytes(
        ByteOrder::Little,
        t.range.end,
    )
}

/// How many bytes the record of a tombstone has.
pub open spec fn record_len(t: Tombstone) -> nat {
    18 + key(t.range.start).len() + key(t.range.end).len()
}

/// The stored form of an interval's end and of the kind of its start, in a row
/// whose key is the start.
pub open spec fn row_payload(start_inclusive: bool, end: Bound<Seq<u8>>) -> Seq<u8> {
    seq![
        if start_inclusive {
            1u8
        } else {
            0u8
        },
    ] + bound_bytes(ByteOrder::Big, end)
}

/// One record behind its length.
pub open spec fn framed(t: Tombstone) -> Seq<u8> {
    byte_order::u32_be(length_field(record(t).len())) + record(t)
}

/// The stored form of a list of tombstones: their records, each behind its
/// length.
pub open spec fn block(ts: Seq<Tombstone>) -> Seq<u8>
    decreases ts.len(),
{
    if ts.len() == 0 {
        Seq::empty()
    } else {
        block(ts.drop_last()) + framed(ts.last())
    }
}

/// How many bytes the block of a list of tombstones has.
pub open spec fn block_len(ts: Seq<Tombstone>) -> nat
    decreases ts.len(),
{
    if ts.len() == 0 {
        0
    } else {
        block_len(ts.drop_last()) + 4 + record_len(ts.last())
    }
}

/// The bound that a flag and a key stand for. No flag but 0, 1 and 2 has a
/// meaning, and 0 goes with no key.
pub open spec fn bound_of(flag: u8, key: Seq<u8>) -> Result<
    Bound<Seq<u8>>,
    SlateRangeDecodeError,
> {
    if flag == 0 && key.len() == 0 {
        Ok(Bound::Unbounded)
    } else if flag == 1 {
        Ok(Bound::Included(key))
    } else if flag == 2 {
        Ok(Bound::Excluded(key))
    } else {
        Err(SlateRangeDecodeError::InvalidFlag)
    }
}

/// Reads a bound. Where the flag and the length are there and the key is not,
/// they have been taken off.
pub open spec fn parse_bound(order: ByteOrder, s: Seq<u8>) -> Parsed<Bound<Seq<u8>>> {
    let len = byte_order::value4(order, s.skip(1));
    if s.len() < 5 {
        Parsed { value: Err(SlateRangeDecodeError::Truncated), rest: s }
    } else if s.len() < 5 + len {
        Parsed { value: Err(SlateRangeDecodeError::Truncated), rest: s.skip(5) }
    } else {
        Parsed { value: bound_of(s[0], s.subrange(5, 5 + len)), rest: s.skip(5 + len) }
    }
}

/// Reads a record.
pub open spec fn parse_record(s: Seq<u8>) -> Parsed<Tombstone> {
    let start = parse_bound(ByteOrder::Little, s.skip(8));
    let end = parse_bound(ByteOrder::Little, start.rest);
    if s.len() < 8 {
        Parsed { value: Err(SlateRangeDecodeError::Truncated), rest: s }
    } else {
        match (start.value, end.value) {
            (Err(e), _) => Parsed { value: Err(e), rest: start.rest },
            (_, Err(e)) => Parsed { value: Err(e), rest: end.rest },
            (Ok(first), Ok(last)) => Parsed {
                value: Ok(
                    Tombstone {
                        range: Interval { start: first, end: last },
                        seq: byte_order::le_value8(s) as u64,
                    },
                ),
                rest: end.rest,
            },
        }
    }
}

/// Reads a row payload. Every byte but 0 stands for a start that the interval
/// contains.
pub open spec fn parse_row_payload(s: Seq<u8>) -> Parsed<(bool, Bound<Seq<u8>>)> {
    let end = parse_bound(ByteOrder::Big, s.skip(1));
    if s.len() < 6 {
        Parsed { value: Err(SlateRangeDecodeError::Truncated), rest: s }
    } else {
        Parsed {
            value: match end.value {
                Ok(last) => Ok((s[0] != 0, last)),
                Err(e) => Err(e),
            },
            rest: end.rest,
        }
    }
}

/// Reads a block. Within the length that stands before a record, bytes that
/// follow the record are passed over.
pub open spec fn parse_block(s: Seq<u8>) -> Result<Seq<Tombstone>, SlateRangeDecodeError>
    decreases s.len(),
{
    let len = byte_order::be_value4(s);
    if s.len() == 0 {
        Ok(Seq::empty())
    } else if s.len() < 4 || s.len() < 4 + len {
        Err(SlateRangeDecodeError::Truncated)
    } else {
        match parse_record(s.subrange(4, 4 + len)).value {
            Err(e) => Err(e),
            Ok(first) => prepended(seq![first], parse_block(s.skip(4 + len))),
        }
    }
}

/// A list that was read, with `first` put before it.
pub open spec fn prepended(
    first: Seq<Tombstone>,
    others: Result<Seq<Tombstone>, SlateRangeDecodeError>,
) -> Result<Seq<Tombstone>, SlateRangeDecodeError> {
    match others {
        Ok(ts) => Ok(first + ts),
        Err(e) => Err(e),
    }
}

/// The interval start that a row's key and flag stand for.
pub open spec fn start_of_row(key: Seq<u8>, start_inclusive: bool) -> Bound<Seq<u8>> {
    if start_inclusive {
        Bound::Included(key)
    } else if key.len() == 0 {
        Bound::Unbounded
    } else {
        Bound::Excluded(key)
    }
}

/// The key and the flag of the row for an interval start.
pub open spec fn row_of_start(start: Bound<Seq<u8>>) -> (Seq<u8>, bool) {
    (key(start), start is Included)
}

/// What each of a list of tombstones stands for.
pub open spec fn views(ts: Seq<RangeTombstone>) -> Seq<Tombstone> {
    ts.map_values(|t: RangeTombstone| t@)
}

/// A decoding result, with the value taken for what it stands for.
pub open spec fn viewed<T: View>(r: Result<T, SlateRangeDecodeError>) -> Result<
    T::V,
    SlateRangeDecodeError,
> {
    match r {
        Ok(value) => Ok(value@),
        Err(e) => Err(e),
    }
}

/// A decoded list, with each tombstone taken for what it stands for.
pub open spec fn viewed_list(r: Result<Vec<RangeTombstone>, SlateRangeDecodeError>) -> Result<
    Seq<Tombstone>,
    SlateRangeDecodeError,
> {
    match r {
        Ok(tombstones) => Ok(views(tombstones@)),
        Err(e) => Err(e),
    }
}

} // verus!
