//! What storing tombstones and reading them back keeps.

use crate::bound::Bound;
use crate::byte_order;
use crate::byte_order::ByteOrder;
use crate::bytes_range::Interval;
use crate::range_tombstone::SlateRangeDecodeError;
use crate::wire::{
    block, bound_bytes, flag, framed, key, length_field, parse_block, parse_bound, parse_record,
    parse_row_payload, prepended, record, record_len, row_of_start, row_payload, start_of_row,
    Parsed, Tombstone,
};
use vstd::prelude::*;

verus! {

/// True iff the length of the bound's key fits its length field.
pub open spec fn key_fits(bound: Bound<Seq<u8>>) -> bool {
    key(bound).len() <= u32::MAX
}

/// True iff the lengths of both keys fit their length fields.
pub open spec fn keys_fit(t: Tombstone) -> bool {
    key_fits(t.range.start) && key_fits(t.range.end)
}

/// A stored bound is read back as it was, and nothing that follows is touched.
pub proof fn law_bound_round_trip(order: ByteOrder, bound: Bound<Seq<u8>>, rest: Seq<u8>)
    requires
        key_fits(bound),
    ensures
        parse_bound(order, bound_bytes(order, bound) + rest) == (Parsed {
            value: Ok(bound),
            rest,
        }),
{
    let k = key(bound);
    let len = byte_order::u32_bytes(order, length_field(k.len()));
    let s = bound_bytes(order, bound) + rest;
    byte_order::lemma_u32_read_back(order, length_field(k.len()), k + rest);
    assert(s.skip(1) =~= len + (k + rest));
    assert(s.subrange(5, 5 + k.len() as int) =~= k);
    assert(s.skip(5 + k.len() as int) =~= rest);
}

/// Only the stored form of a bound is read as that bound.
pub proof fn law_bound_canonical(order: ByteOrder, s: Seq<u8>)
    ensures
        parse_bound(order, s).value matches Ok(bound) ==> key_fits(bound) && s == bound_bytes(
            order,
            bound,
        ) + parse_bound(order, s).rest,
{
    if let Ok(bound) = parse_bound(order, s).value {
        let len = byte_order::value4(order, s.skip(1));
        byte_order::lemma_u32_write_back(order, s.skip(1));
        lemma_bound_parts(s, len);
        assert(flag(bound) == s[0]);
        assert(key(bound) =~= s.subrange(5, 5 + len));
        assert(length_field(key(bound).len()) == len);
    }
}

/// A byte string of at least `5 + len` bytes, taken apart.
proof fn lemma_bound_parts(s: Seq<u8>, len: int)
    requires
        0 <= len,
        s.len() >= 5 + len,
    ensures
        s == seq![s[0]] + s.skip(1).take(4) + s.subrange(5, 5 + len) + s.skip(5 + len),
{
    assert(s =~= seq![s[0]] + s.skip(1).take(4) + s.subrange(5, 5 + len) + s.skip(5 + len));
}

/// The length of a record: that of its two keys, and a fixed number of bytes.
/// It does not depend on how many keys the interval deletes.
pub proof fn law_record_len(t: Tombstone)
    ensures
        record(t).len() == record_len(t),
{
}

/// A stored tombstone is read back as it was, and nothing that follows is
/// touched.
pub proof fn law_record_round_trip(t: Tombstone, rest: Seq<u8>)
    requires
        keys_fit(t),
    ensures
        parse_record(record(t) + rest) == (Parsed { value: Ok(t), rest }),
{
    let seq = byte_order::u64_le(t.seq);
    let start = bound_bytes(ByteOrder::Little, t.range.start);
    let end = bound_bytes(ByteOrder::Little, t.range.end);
    let s = record(t) + rest;
    assert(s =~= seq + (start + (end + rest)));
    byte_order::lemma_u64_read_back(t.seq, start + (end + rest));
    assert(s.skip(8) =~= start + (end + rest));
    law_bound_round_trip(ByteOrder::Little, t.range.start, end + rest);
    law_bound_round_trip(ByteOrder::Little, t.range.end, rest);
}

/// Only the record of a tombstone is read as that tombstone: what was read,
/// stored again, gives the bytes that were taken off.
pub proof fn law_record_canonical(s: Seq<u8>)
    ensures
        parse_record(s).value matches Ok(t) ==> keys_fit(t) && s == record(t) + parse_record(
            s,
        ).rest,
{
    if let Ok(t) = parse_record(s).value {
        let start = parse_bound(ByteOrder::Little, s.skip(8));
        byte_order::lemma_u64_write_back(s);
        law_bound_canonical(ByteOrder::Little, s.skip(8));
        law_bound_canonical(ByteOrder::Little, start.rest);
        assert(s =~= s.take(8) + s.skip(8));
        assert(s =~= record(t) + parse_record(s).rest);
    }
}

/// A bound that was cut short is reported as truncated.
pub proof fn law_bound_truncated(order: ByteOrder, bound: Bound<Seq<u8>>, n: int)
    requires
        key_fits(bound),
        0 <= n < bound_bytes(order, bound).len(),
    ensures
        parse_bound(order, bound_bytes(order, bound).take(n)).value == Err::<
            Bound<Seq<u8>>,
            SlateRangeDecodeError,
        >(SlateRangeDecodeError::Truncated),
{
    let k = key(bound);
    let len = byte_order::u32_bytes(order, length_field(k.len()));
    let s = bound_bytes(order, bound).take(n);
    if n >= 5 {
        byte_order::lemma_u32_read_back(order, length_field(k.len()), k.take(n - 5));
        assert(s.skip(1) =~= len + k.take(n - 5));
    }
}

/// A record that was cut short is reported as truncated.
pub proof fn law_record_truncated(t: Tombstone, n: int)
    requires
        keys_fit(t),
        0 <= n < record(t).len(),
    ensures
        parse_record(record(t).take(n)).value == Err::<Tombstone, SlateRangeDecodeError>(
            SlateRangeDecodeError::Truncated,
        ),
{
    let start = bound_bytes(ByteOrder::Little, t.range.start);
    let end = bound_bytes(ByteOrder::Little, t.range.end);
    let s = record(t).take(n);
    if n >= 8 + start.len() {
        let m = n - 8 - start.len();
        assert(s.skip(8) =~= start + end.take(m));
        law_bound_round_trip(ByteOrder::Little, t.range.start, end.take(m));
        law_bound_truncated(ByteOrder::Little, t.range.end, m);
    } else if n >= 8 {
        assert(s.skip(8) =~= start.take(n - 8));
        law_bound_truncated(ByteOrder::Little, t.range.start, n - 8);
    }
}

/// A stored row payload is read back as it was, and nothing that follows is
/// touched.
pub proof fn law_row_payload_round_trip(
    start_inclusive: bool,
    end: Bound<Seq<u8>>,
    rest: Seq<u8>,
)
    requires
        key_fits(end),
    ensures
        parse_row_payload(row_payload(start_inclusive, end) + rest) == (Parsed {
            value: Ok((start_inclusive, end)),
            rest,
        }),
{
    let s = row_payload(start_inclusive, end) + rest;
    assert(s.skip(1) =~= bound_bytes(ByteOrder::Big, end) + rest);
    law_bound_round_trip(ByteOrder::Big, end, rest);
}

/// A row payload that was cut short is reported as truncated.
pub proof fn law_row_payload_truncated(start_inclusive: bool, end: Bound<Seq<u8>>, n: int)
    requires
        key_fits(end),
        0 <= n < row_payload(start_inclusive, end).len(),
    ensures
        parse_row_payload(row_payload(start_inclusive, end).take(n)).value == Err::<
            (bool, Bound<Seq<u8>>),
            SlateRangeDecodeError,
        >(SlateRangeDecodeError::Truncated),
{
    if n >= 6 {
        let s = row_payload(start_inclusive, end).take(n);
        assert(s.skip(1) =~= bound_bytes(ByteOrder::Big, end).take(n - 1));
        law_bound_truncated(ByteOrder::Big, end, n - 1);
    }
}

/// An interval start survives being stored as a row's key and flag. The one
/// start that does not is that which excludes the empty key: a row with an
/// empty key and no included start stands for a missing start.
pub proof fn law_start_round_trip(start: Bound<Seq<u8>>)
    requires
        !(start is Excluded && key(start).len() == 0),
    ensures
        start_of_row(row_of_start(start).0, row_of_start(start).1) == start,
{
}

/// Every row key and flag survive being taken for an interval start.
pub proof fn law_row_key_round_trip(row_key: Seq<u8>, start_inclusive: bool)
    ensures
        row_of_start(start_of_row(row_key, start_inclusive)) == (row_key, start_inclusive),
{
    assert(row_of_start(start_of_row(row_key, start_inclusive)).0 =~= row_key);
}

/// An interval survives being stored as a row: the key and the flag from its
/// start, the payload from the flag and its end.
pub proof fn law_row_round_trip(range: Interval)
    requires
        !(range.start is Excluded && key(range.start).len() == 0),
        key_fits(range.end),
    ensures
        ({
            let (row_key, start_inclusive) = row_of_start(range.start);
            let payload = row_payload(start_inclusive, range.end);
            parse_row_payload(payload).value matches Ok((inclusive, end)) && Interval {
                start: start_of_row(row_key, inclusive),
                end,
            } == range
        }),
{
    let (row_key, start_inclusive) = row_of_start(range.start);
    let payload = row_payload(start_inclusive, range.end);
    law_row_payload_round_trip(start_inclusive, range.end, Seq::empty());
    assert(payload + Seq::empty() =~= payload);
    law_start_round_trip(range.start);
}

/// Blocks can be put one after another: the block of two lists is the two
/// blocks.
pub proof fn law_block_concat(a: Seq<Tombstone>, b: Seq<Tombstone>)
    ensures
        block(a + b) == block(a) + block(b),
    decreases b.len(),
{
    if b.len() == 0 {
        assert(a + b =~= a);
        assert(block(a) + block(b) =~= block(a));
    } else {
        assert((a + b).drop_last() =~= a + b.drop_last());
        law_block_concat(a, b.drop_last());
        assert(block(a + b) =~= block(a) + block(b));
    }
}

/// How one record is read, as a function.
type Reader = spec_fn(Seq<u8>) -> Result<Tombstone, SlateRangeDecodeError>;

/// Reads framed records, each with `read`.
spec fn parse_frames(read: Reader, s: Seq<u8>) -> Result<Seq<Tombstone>, SlateRangeDecodeError>
    decreases s.len(),
{
    let len = byte_order::be_value4(s);
    if s.len() == 0 {
        Ok(Seq::empty())
    } else if s.len() < 4 || s.len() < 4 + len {
        Err(SlateRangeDecodeError::Truncated)
    } else {
        match read(s.subrange(4, 4 + len)) {
            Err(e) => Err(e),
            Ok(first) => prepended(seq![first], parse_frames(read, s.skip(4 + len))),
        }
    }
}

/// How records are read in a block.
spec fn record_reader() -> Reader {
    |s: Seq<u8>| parse_record(s).value
}

/// A block is read frame by frame.
proof fn lemma_block_is_read_by_frames(s: Seq<u8>)
    ensures
        parse_block(s) == parse_frames(record_reader(), s),
    decreases s.len(),
{
    let len = byte_order::be_value4(s);
    if s.len() >= 4 && s.len() >= 4 + len {
        lemma_block_is_read_by_frames(s.skip(4 + len));
    }
}

/// Byte strings one after another, each behind its length.
spec fn frames(bodies: Seq<Seq<u8>>) -> Seq<u8>
    decreases bodies.len(),
{
    if bodies.len() == 0 {
        Seq::empty()
    } else {
        frames(bodies.drop_last()) + (byte_order::u32_be(length_field(bodies.last().len()))
            + bodies.last())
    }
}

/// What stands where behind a length.
proof fn lemma_frame_parts(n: u32, body: Seq<u8>, rest: Seq<u8>)
    ensures
        ({
            let s = (byte_order::u32_be(n) + body) + rest;
            &&& s.len() == 4 + body.len() + rest.len()
            &&& byte_order::be_value4(s) == n
            &&& s.subrange(4, 4 + body.len() as int) == body
            &&& s.skip(4 + body.len() as int) == rest
        }),
{
    let len = byte_order::u32_be(n);
    byte_order::lemma_u32_read_back(ByteOrder::Big, n, body + rest);
    assert((len + body) + rest =~= len + (body + rest));
    assert(((len + body) + rest).subrange(4, 4 + body.len() as int) =~= body);
    assert(((len + body) + rest).skip(4 + body.len() as int) =~= rest);
}

/// One framed record in front of others.
proof fn lemma_frame_read_back(read: Reader, body: Seq<u8>, t: Tombstone, rest: Seq<u8>)
    requires
        body.len() <= u32::MAX,
        read(body) == Ok::<Tombstone, SlateRangeDecodeError>(t),
    ensures
        parse_frames(read, (byte_order::u32_be(length_field(body.len())) + body) + rest)
            == prepended(seq![t], parse_frames(read, rest)),
{
    lemma_frame_parts(length_field(body.len()), body, rest);
}

/// One framed record, cut short.
proof fn lemma_frame_truncated(read: Reader, body: Seq<u8>, cut: int)
    requires
        body.len() <= u32::MAX,
        0 < cut < 4 + body.len(),
    ensures
        parse_frames(
            read,
            (byte_order::u32_be(length_field(body.len())) + body).take(cut),
        ) == Err::<Seq<Tombstone>, SlateRangeDecodeError>(SlateRangeDecodeError::Truncated),
{
    let n = length_field(body.len());
    if cut >= 4 {
        let s = (byte_order::u32_be(n) + body).take(cut);
        lemma_frame_parts(n, body.take(cut - 4), Seq::empty());
        assert(s =~= (byte_order::u32_be(n) + body.take(cut - 4)) + Seq::empty());
    }
}

/// Putting a list before another, in one step or in two.
proof fn lemma_prepended_twice(
    a: Seq<Tombstone>,
    t: Tombstone,
    others: Result<Seq<Tombstone>, SlateRangeDecodeError>,
)
    ensures
        prepended(a, prepended(seq![t], others)) == prepended(a.push(t), others),
{
    if let Ok(ts) = others {
        assert(a + (seq![t] + ts) =~= a.push(t) + ts);
    }
}

/// Framed byte strings that are each read as a tombstone.
proof fn lemma_frames_read_back(
    read: Reader,
    bodies: Seq<Seq<u8>>,
    ts: Seq<Tombstone>,
    rest: Seq<u8>,
)
    requires
        bodies.len() == ts.len(),
        forall|i: int|
            0 <= i < ts.len() ==> (#[trigger] bodies[i]).len() <= u32::MAX && read(bodies[i])
                == Ok::<Tombstone, SlateRangeDecodeError>(ts[i]),
    ensures
        parse_frames(read, frames(bodies) + rest) == prepended(ts, parse_frames(read, rest)),
    decreases ts.len(),
{
    if ts.len() == 0 {
        assert(frames(bodies) + rest =~= rest);
        if let Ok(others) = parse_frames(read, rest) {
            assert(ts + others =~= others);
        }
    } else {
        let (body, t) = (bodies.last(), ts.last());
        let frame = byte_order::u32_be(length_field(body.len())) + body;
        assert(bodies[ts.len() - 1] == body);
        assert forall|i: int| 0 <= i < ts.drop_last().len() implies (#[trigger]
        bodies.drop_last()[i]).len() <= u32::MAX && read(bodies.drop_last()[i]) == Ok::<
            Tombstone,
            SlateRangeDecodeError,
        >(ts.drop_last()[i]) by {
            assert(bodies.drop_last()[i] == bodies[i]);
        }
        lemma_frames_read_back(read, bodies.drop_last(), ts.drop_last(), frame + rest);
        assert(frames(bodies) + rest =~= frames(bodies.drop_last()) + (frame + rest));
        lemma_frame_read_back(read, body, t, rest);
        lemma_prepended_twice(ts.drop_last(), t, parse_frames(read, rest));
        assert(ts.drop_last().push(t) =~= ts);
    }
}

/// A block is its records, framed.
proof fn lemma_block_is_frames(ts: Seq<Tombstone>)
    ensures
        block(ts) == frames(ts.map_values(|t: Tombstone| record(t))),
    decreases ts.len(),
{
    let bodies = ts.map_values(|t: Tombstone| record(t));
    if ts.len() > 0 {
        lemma_block_is_frames(ts.drop_last());
        assert(bodies.drop_last() =~= ts.drop_last().map_values(|t: Tombstone| record(t)));
    }
}

/// A record with nothing behind it.
proof fn lemma_whole_record_round_trip(t: Tombstone)
    requires
        keys_fit(t),
    ensures
        record(t).len() == record_len(t),
        record_reader()(record(t)) == Ok::<Tombstone, SlateRangeDecodeError>(t),
{
    law_record_round_trip(t, Seq::empty());
    assert(record(t) + Seq::empty() =~= record(t));
}

/// True iff every tombstone of the list can be told by its length fields: those
/// of its keys, and that of its record.
pub open spec fn all_fit(ts: Seq<Tombstone>) -> bool {
    forall|i: int|
        0 <= i < ts.len() ==> keys_fit(#[trigger] ts[i]) && record_len(ts[i]) <= u32::MAX
}

/// A stored list of tombstones is read back as it was, before whatever the
/// bytes that follow are read as.
pub proof fn law_block_prefix_round_trip(ts: Seq<Tombstone>, rest: Seq<u8>)
    requires
        all_fit(ts),
    ensures
        parse_block(block(ts) + rest) == prepended(ts, parse_block(rest)),
{
    let bodies = ts.map_values(|t: Tombstone| record(t));
    assert forall|i: int| 0 <= i < ts.len() implies (#[trigger] bodies[i]).len() <= u32::MAX
        && record_reader()(bodies[i]) == Ok::<Tombstone, SlateRangeDecodeError>(ts[i]) by {
        lemma_whole_record_round_trip(ts[i]);
    }
    lemma_block_is_frames(ts);
    lemma_frames_read_back(record_reader(), bodies, ts, rest);
    lemma_block_is_read_by_frames(block(ts) + rest);
    lemma_block_is_read_by_frames(rest);
}

/// A stored list of tombstones is read back as it was.
pub proof fn law_block_round_trip(ts: Seq<Tombstone>)
    requires
        all_fit(ts),
    ensures
        parse_block(block(ts)) == Ok::<Seq<Tombstone>, SlateRangeDecodeError>(ts),
{
    law_block_prefix_round_trip(ts, Seq::empty());
    assert(block(ts) + Seq::empty() =~= block(ts));
    assert(ts + Seq::empty() =~= ts);
}

/// A block that was cut short within a record or its length is reported as
/// truncated.
pub proof fn law_block_truncated(ts: Seq<Tombstone>, t: Tombstone, n: int)
    requires
        all_fit(ts),
        record_len(t) <= u32::MAX,
        0 < n < framed(t).len(),
    ensures
        parse_block(block(ts) + framed(t).take(n)) == Err::<
            Seq<Tombstone>,
            SlateRangeDecodeError,
        >(SlateRangeDecodeError::Truncated),
{
    lemma_record_cut_short(t, n);
    lemma_block_before_error(ts, framed(t).take(n), SlateRangeDecodeError::Truncated);
}

/// A framed record, cut short.
proof fn lemma_record_cut_short(t: Tombstone, n: int)
    requires
        record_len(t) <= u32::MAX,
        0 < n < framed(t).len(),
    ensures
        parse_frames(record_reader(), framed(t).take(n)) == Err::<
            Seq<Tombstone>,
            SlateRangeDecodeError,
        >(SlateRangeDecodeError::Truncated),
{
    law_record_len(t);
    lemma_frame_truncated(record_reader(), record(t), n);
}

/// A block before bytes that are not one.
proof fn lemma_block_before_error(ts: Seq<Tombstone>, rest: Seq<u8>, e: SlateRangeDecodeError)
    requires
        all_fit(ts),
        parse_frames(record_reader(), rest) == Err::<Seq<Tombstone>, SlateRangeDecodeError>(e),
    ensures
        parse_block(block(ts) + rest) == Err::<Seq<Tombstone>, SlateRangeDecodeError>(e),
{
    law_block_prefix_round_trip(ts, rest);
    lemma_block_is_read_by_frames(rest);
}

} // verus!
