//! Range tombstones.
//!
//! A range tombstone records the deletion of every key in an interval at a
//! particular sequence number. One range tombstone covers any number of keys,
//! so what it costs to store does not grow with the number of deleted keys.
//!
//! Intervals have included, excluded or missing ends: `[a, b)`, `[a, b]`,
//! `a..`, `..=b`, `..` and so on.

use crate::bound::Bound;
use crate::buffer;
use crate::byte_order::ByteOrder;
use crate::bytes_range::BytesRange;
use crate::types::RowEntry;
use crate::wire;
use crate::wire::Tombstone;
use bytes::{Bytes, BytesMut};
use vstd::prelude::*;
use vstd::std_specs::cmp::PartialEqSpecImpl;

verus! {

/// One range deletion: all keys within `range` are deleted as of sequence
/// `seq`. Writes (and point tombstones) with the same or a larger sequence
/// number still shadow this deletion.
#[derive(Debug)]
pub struct RangeTombstone {
    pub range: BytesRange,
    pub seq: u64,
}

/// Why stored bytes are not a range tombstone.
#[derive(Debug, Clone, Copy, PartialEq, Eq, Structural)]
pub enum SlateRangeDecodeError {
    /// There are fewer bytes than the fields need.
    Truncated,
    /// A bound's flag has no meaning, or says that there is no key and one
    /// follows.
    InvalidFlag,
}

impl SlateRangeDecodeError {
    /// The error in words.
    pub fn message(&self) -> (text: String)
        ensures
            text@ == match *self {
                SlateRangeDecodeError::Truncated => "range tombstone record is truncated"@,
                SlateRangeDecodeError::InvalidFlag =>
                    "range tombstone record has an invalid bound flag"@,
            },
    {
        match self {
            SlateRangeDecodeError::Truncated => "range tombstone record is truncated".to_string(),
            SlateRangeDecodeError::InvalidFlag => {
                "range tombstone record has an invalid bound flag".to_string()
            },
        }
    }
}

impl View for RangeTombstone {
    type V = Tombstone;

    open spec fn view(&self) -> Tombstone {
        Tombstone { range: self.range@, seq: self.seq }
    }
}

impl Clone for RangeTombstone {
    fn clone(&self) -> (r: Self)
        ensures
            r@ == self@,
    {
        RangeTombstone { range: self.range.clone(), seq: self.seq }
    }
}

impl PartialEq for RangeTombstone {
    fn eq(&self, other: &Self) -> (r: bool) {
        self.seq == other.seq && self.range == other.range
    }
}

impl PartialEqSpecImpl for RangeTombstone {
    open spec fn obeys_eq_spec() -> bool {
        true
    }

    open spec fn eq_spec(&self, other: &Self) -> bool {
        self@ == other@
    }
}

impl Eq for RangeTombstone {

}

/// True iff the tombstone hides a write to `key` at sequence number `seq`.
pub open spec fn covers(t: Tombstone, key: Seq<u8>, seq: u64) -> bool {
    seq < t.seq && t.range.contains(key)
}

/// The length field for `n` bytes: the low 32 bits of `n`.
fn length_prefix(n: usize) -> (r: u32)
    ensures
        r == wire::length_field(n as nat),
{
    let wide: u64 = n as u64;
    assert(wide as u32 == wide % 0x1_0000_0000) by (bit_vector);
    wide as u32
}

/// The flag of a bound: `0` unbounded, `1` included, `2` excluded.
pub fn bound_flag(bound: Bound<&Bytes>) -> (r: u8)
    ensures
        r == wire::flag(bound@),
        bound is Unbounded ==> r == 0,
        bound is Included ==> r == 1,
        bound is Excluded ==> r == 2,
{
    match bound {
        Bound::Unbounded => 0,
        Bound::Included(_) => 1,
        Bound::Excluded(_) => 2,
    }
}

/// The key of a bound, empty where it has none.
pub fn bound_bytes(bound: Bound<&Bytes>) -> (r: Bytes)
    ensures
        buffer::content(r) == wire::key(bound@),
        bound matches Bound::Included(b) ==> buffer::content(r) == buffer::content(*b),
        bound matches Bound::Excluded(b) ==> buffer::content(r) == buffer::content(*b),
        bound is Unbounded ==> buffer::content(r).len() == 0,
{
    match bound {
        Bound::Included(b) => b.clone(),
        Bound::Excluded(b) => b.clone(),
        Bound::Unbounded => Bytes::new(),
    }
}

/// Reads a bound off the front of `data`.
pub fn decode_bound(data: &mut Bytes, order: ByteOrder) -> (r: Result<
    Bound<Bytes>,
    SlateRangeDecodeError,
>)
    ensures
        wire::viewed(r) == wire::parse_bound(order, buffer::content(*old(data))).value,
        buffer::content(*final(data)) == wire::parse_bound(
            order,
            buffer::content(*old(data)),
        ).rest,
{
    let ghost s = buffer::content(*data);
    if buffer::remaining(data) < 5 {
        return Err(SlateRangeDecodeError::Truncated);
    }
    let flag: u8 = buffer::get_u8(data);
    let len: usize = match order {
        ByteOrder::Little => buffer::get_u32_le(data) as usize,
        ByteOrder::Big => buffer::get_u32(data) as usize,
    };
    assert(buffer::content(*data) =~= s.skip(5));
    if buffer::remaining(data) < len {
        return Err(SlateRangeDecodeError::Truncated);
    }
    let key = buffer::copy_to_bytes(data, len);
    assert(buffer::content(key) =~= s.subrange(5, 5 + len));
    assert(buffer::content(*data) =~= s.skip(5 + len));
    match flag {
        0 => {
            if !key.is_empty() {
                return Err(SlateRangeDecodeError::InvalidFlag);
            }
            Ok(Bound::Unbounded)
        },
        1 => Ok(Bound::Included(key)),
        2 => Ok(Bound::Excluded(key)),
        _ => Err(SlateRangeDecodeError::InvalidFlag),
    }
}

impl RangeTombstone {
    /// The deletion of `range` as of sequence `seq`.
    pub fn new(range: BytesRange, seq: u64) -> (r: Self)
        ensures
            r.range == range,
            r.seq == seq,
    {
        Self { range, seq }
    }

    /// True iff this tombstone hides `entry`.
    ///
    /// The comparison is strictly less than (`<`): a write and a range delete
    /// in the same write batch share one commit sequence number, and the point
    /// write must win over the interval deletion when both target the same
    /// key.
    pub fn covers_entry(&self, entry: &RowEntry) -> (r: bool)
        ensures
            r == covers(self@, buffer::content(entry.key), entry.seq),
            r <==> entry.seq < self.seq && self.range@.contains(buffer::content(entry.key)),
    {
        entry.seq < self.seq && self.range.contains(&entry.key)
    }

    /// The record of this tombstone. Fixed-width little-endian layout:
    ///
    /// ```text
    /// | u64 seq | u8 start_flag | u32 start_len | start |
    /// | u8 end_flag | u32 end_len | end |
    /// ```
    ///
    /// Bound flags: `0` unbounded (length must be 0), `1` included,
    /// `2` excluded.
    pub fn encode_value(&self) -> (r: Bytes)
        requires
            wire::record_len(self@) <= isize::MAX,
        ensures
            buffer::content(r) == wire::record(self@),
            buffer::content(r).len() == wire::record_len(self@),
    {
        let start_flag: u8 = bound_flag(self.range.start_bound());
        let end_flag: u8 = bound_flag(self.range.end_bound());
        let start = bound_bytes(self.range.start_bound());
        let end = bound_bytes(self.range.end_bound());
        let mut buf = BytesMut::with_capacity(8 + 1 + 4 + start.len() + 1 + 4 + end.len());
        buffer::put_u64_le(&mut buf, self.seq);
        buffer::put_u8(&mut buf, start_flag);
        buffer::put_u32_le(&mut buf, length_prefix(start.len()));
        buffer::put_slice(&mut buf, &start);
        buffer::put_u8(&mut buf, end_flag);
        buffer::put_u32_le(&mut buf, length_prefix(end.len()));
        buffer::put_slice(&mut buf, &end);
        assert(buffer::written(buf) =~= wire::record(self@));
        buf.freeze()
    }

    /// Reads a record off the front of `data`.
    pub fn decode_value(data: &mut Bytes) -> (r: Result<Self, SlateRangeDecodeError>)
        ensures
            wire::viewed(r) == wire::parse_record(buffer::content(*old(data))).value,
            buffer::content(*final(data)) == wire::parse_record(buffer::content(*old(data))).rest,
    {
        if buffer::remaining(data) < 8 {
            return Err(SlateRangeDecodeError::Truncated);
        }
        let seq: u64 = buffer::get_u64_le(data);
        let start = decode_bound(data, ByteOrder::Little)?;
        let end = decode_bound(data, ByteOrder::Little)?;
        Ok(Self { range: BytesRange::new(start, end), seq })
    }

    /// Encode the interval into a row's value area. The row key carries the
    /// interval start; this payload carries the start flag, end flag and end
    /// key. The row's own `seq` field is authoritative, so `seq` here is
    /// omitted.
    pub fn encode_row_payload(start_inclusive: bool, end: Bound<&Bytes>) -> (r: Bytes)
        requires
            6 + wire::key(end@).len() <= isize::MAX,
        ensures
            buffer::content(r) == wire::row_payload(start_inclusive, end@),
            buffer::content(r)[0] == 1 <==> start_inclusive,
            buffer::content(r)[0] == 0 <==> !start_inclusive,
    {
        let end_flag: u8 = bound_flag(end);
        let end_bytes = bound_bytes(end);
        let mut buf = BytesMut::with_capacity(1 + 1 + 4 + end_bytes.len());
        let start_flag: u8 = if start_inclusive {
            1
        } else {
            0
        };
        buffer::put_u8(&mut buf, start_flag);
        buffer::put_u8(&mut buf, end_flag);
        buffer::put_u32(&mut buf, length_prefix(end_bytes.len()));
        buffer::put_slice(&mut buf, &end_bytes);
        assert(buffer::written(buf) =~= wire::row_payload(start_inclusive, end@));
        buf.freeze()
    }

    /// Reads a row payload off the front of `data`.
    pub fn decode_row_payload(data: &mut Bytes) -> (r: Result<
        (bool, Bound<Bytes>),
        SlateRangeDecodeError,
    >)
        ensures
            wire::viewed(r) == wire::parse_row_payload(buffer::content(*old(data))).value,
            buffer::content(*final(data)) == wire::parse_row_payload(
                buffer::content(*old(data)),
            ).rest,
            r matches Ok(read) ==> (read.0 <==> buffer::content(*old(data))[0] != 0),
    {
        if buffer::remaining(data) < 6 {
            return Err(SlateRangeDecodeError::Truncated);
        }
        let start_inclusive: bool = buffer::get_u8(data) != 0;
        let end = decode_bound(data, ByteOrder::Big)?;
        Ok((start_inclusive, end))
    }

    /// Convert a row-key/flag pair into the interval start bound. An empty key
    /// with an excluded start denotes an unbounded start.
    pub fn start_bound_from_row_key(key: Bytes, start_inclusive: bool) -> (r: Bound<Bytes>)
        ensures
            r@ == wire::start_of_row(buffer::content(key), start_inclusive),
            start_inclusive ==> r@ == Bound::Included(buffer::content(key)),
            !start_inclusive && buffer::content(key).len() > 0 ==> r@ == Bound::Excluded(
                buffer::content(key),
            ),
            !start_inclusive && buffer::content(key).len() == 0 ==> r@ == Bound::<
                Seq<u8>,
            >::Unbounded,
    {
        if !start_inclusive && key.is_empty() {
            Bound::Unbounded
        } else if start_inclusive {
            Bound::Included(key)
        } else {
            Bound::Excluded(key)
        }
    }

    /// Encode an interval start bound as the row key plus the inclusive flag.
    pub fn row_key_from_start_bound(start: Bound<Bytes>) -> (r: (Bytes, bool))
        ensures
            (buffer::content(r.0), r.1) == wire::row_of_start(start@),
            r.1 <==> start is Included,
            start matches Bound::Included(key) ==> buffer::content(r.0) == buffer::content(key),
            start matches Bound::Excluded(key) ==> buffer::content(r.0) == buffer::content(key),
            start is Unbounded ==> buffer::content(r.0).len() == 0,
    {
        match start {
            Bound::Included(key) => (key, true),
            Bound::Excluded(key) => (key, false),
            Bound::Unbounded => (Bytes::new(), false),
        }
    }
}

/// The block of a list of tombstones: a sequence of length-prefixed
/// [`RangeTombstone::encode_value`] payloads.
pub fn encode_range_tombstones(tombstones: &[RangeTombstone]) -> (r: Bytes)
    requires
        2 * wire::block_len(wire::views(tombstones@)) <= isize::MAX,
    ensures
        buffer::content(r) == wire::block(wire::views(tombstones@)),
{
    let ghost ts = wire::views(tombstones@);
    let mut buf = BytesMut::new();
    let mut i: usize = 0;
    while i < tombstones.len()
        invariant
            i <= tombstones.len(),
            ts == wire::views(tombstones@),
            2 * wire::block_len(ts) <= isize::MAX,
            buffer::written(buf) == wire::block(ts.take(i as int)),
            buffer::written(buf).len() == wire::block_len(ts.take(i as int)),
        decreases tombstones.len() - i,
    {
        proof {
            let done = ts.take(i + 1);
            assert(done.drop_last() =~= ts.take(i as int));
            assert(done.last() == tombstones[i as int]@);
            lemma_block_len_prefix(ts, i + 1);
        }
        let value = tombstones[i].encode_value();
        buffer::put_u32(&mut buf, length_prefix(value.len()));
        buffer::put_slice(&mut buf, &value);
        i += 1;
        assert(buffer::written(buf) =~= wire::block(ts.take(i as int)));
    }
    assert(ts.take(i as int) =~= ts);
    buf.freeze()
}

/// A block is at least as long as the block of a prefix of its list.
proof fn lemma_block_len_prefix(ts: Seq<Tombstone>, n: int)
    requires
        0 <= n <= ts.len(),
    ensures
        wire::block_len(ts.take(n)) <= wire::block_len(ts),
    decreases ts.len(),
{
    if n == ts.len() {
        assert(ts.take(n) =~= ts);
    } else {
        lemma_block_len_prefix(ts.drop_last(), n);
        assert(ts.drop_last().take(n) =~= ts.take(n));
    }
}

/// Reads a block.
pub fn decode_range_tombstones(data: Bytes) -> (r: Result<
    Vec<RangeTombstone>,
    SlateRangeDecodeError,
>)
    ensures
        wire::viewed_list(r) == wire::parse_block(buffer::content(data)),
{
    let ghost whole = wire::parse_block(buffer::content(data));
    let mut rest = data;
    let mut tombstones: Vec<RangeTombstone> = Vec::new();
    assert(wire::views(tombstones@) =~= Seq::empty());
    while buffer::has_remaining(&rest)
        invariant
            whole == wire::parse_block(buffer::content(data)),
            whole == wire::prepended(
                wire::views(tombstones@),
                wire::parse_block(buffer::content(rest)),
            ),
        decreases buffer::content(rest).len(),
    {
        let ghost s = buffer::content(rest);
        let ghost before = wire::views(tombstones@);
        if buffer::remaining(&rest) < 4 {
            return Err(SlateRangeDecodeError::Truncated);
        }
        let len: usize = buffer::get_u32(&mut rest) as usize;
        if buffer::remaining(&rest) < len {
            return Err(SlateRangeDecodeError::Truncated);
        }
        let mut record = rest.split_to(len);
        assert(buffer::content(record) =~= s.subrange(4, 4 + len));
        assert(buffer::content(rest) =~= s.skip(4 + len));
        let tombstone = RangeTombstone::decode_value(&mut record)?;
        tombstones.push(tombstone);
        proof {
            assert(wire::views(tombstones@) =~= before.push(tombstone@));
            if let Ok(others) = wire::parse_block(buffer::content(rest)) {
                assert(before + (seq![tombstone@] + others) =~= wire::views(tombstones@) + others);
            }
        }
    }
    assert(wire::views(tombstones@) + Seq::empty() =~= wire::views(tombstones@));
    Ok(tombstones)
}

} // verus!
