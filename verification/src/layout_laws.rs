//! Where each field of the stored form stands, and what each run of bytes is
//! read as.

use crate::bound::Bound;
use crate::byte_order;
use crate::byte_order::ByteOrder;
use crate::bytes_range::Interval;
use crate::codec_laws;
use crate::codec_laws::{key_fits, keys_fit};
use crate::interval_laws;
use crate::key_order::{key_lt, lemma_key_order_total};
use crate::range_tombstone::{RangeTombstone, SlateRangeDecodeError};
use crate::wire::{
    block, block_len, bound_bytes, length_field, parse_block, parse_bound, parse_record,
    parse_row_payload, record, row_of_start, row_payload, start_of_row, viewed, viewed_list, views,
    Tombstone,
};
use vstd::prelude::*;

verus! {

/// Four bytes hold a number with weights that rise by 256 from the first byte
/// to the last, or fall.
pub proof fn law_u32_places(n: u32)
    ensures
        ({
            let s = byte_order::u32_bytes(ByteOrder::Little, n);
            &&& s.len() == 4
            &&& n == s[0] + 0x100 * s[1] + 0x1_0000 * s[2] + 0x100_0000 * s[3]
        }),
        ({
            let s = byte_order::u32_bytes(ByteOrder::Big, n);
            &&& s.len() == 4
            &&& n == s[3] + 0x100 * s[2] + 0x1_0000 * s[1] + 0x100_0000 * s[0]
        }),
{
    byte_order::lemma_u32_read_back(ByteOrder::Little, n, Seq::empty());
    byte_order::lemma_u32_read_back(ByteOrder::Big, n, Seq::empty());
    let (le, be) = (
        byte_order::u32_bytes(ByteOrder::Little, n),
        byte_order::u32_bytes(ByteOrder::Big, n),
    );
    assert(le + Seq::empty() =~= le);
    assert(be + Seq::empty() =~= be);
}

/// Eight bytes hold a sequence number with weights that rise by 256 from the
/// first byte to the last.
pub proof fn law_u64_places(n: u64)
    ensures
        ({
            let s = byte_order::u64_le(n);
            &&& s.len() == 8
            &&& n == s[0] + 0x100 * s[1] + 0x1_0000 * s[2] + 0x100_0000 * s[3] + 0x1_0000_0000
                * s[4] + 0x100_0000_0000 * s[5] + 0x1_0000_0000_0000 * s[6] + 0x100_0000_0000_0000
                * s[7]
        }),
{
    let s = byte_order::u64_le(n);
    byte_order::lemma_u64_read_back(n, Seq::empty());
    assert(s + Seq::empty() =~= s);
}

/// A length field holds lengths of up to 32 bits as they are, and leaves out
/// what goes beyond.
pub proof fn law_length_field(n: nat)
    ensures
        n <= u32::MAX ==> length_field(n) == n,
        length_field(n + 0x1_0000_0000) == length_field(n),
{
}

/// A stored bound is its flag, its length in four bytes, and its key. The flag
/// is 0 for no bound, 1 for an included and 2 for an excluded key.
pub proof fn law_bound_layout(order: ByteOrder, bound: Bound<Seq<u8>>)
    ensures
        ({
            let s = bound_bytes(order, bound);
            &&& bound matches Bound::Included(k) ==> s == seq![1u8] + byte_order::u32_bytes(
                order,
                length_field(k.len()),
            ) + k
            &&& bound matches Bound::Excluded(k) ==> s == seq![2u8] + byte_order::u32_bytes(
                order,
                length_field(k.len()),
            ) + k
            &&& bound is Unbounded ==> s == seq![0u8, 0u8, 0u8, 0u8, 0u8]
        }),
{
    if bound is Unbounded {
        assert(bound_bytes(order, bound) =~= seq![0u8, 0u8, 0u8, 0u8, 0u8]);
    }
}

/// A record is the sequence number, the start and the end of the interval, in
/// this order, with nothing between them.
pub proof fn law_record_layout(t: Tombstone)
    ensures
        record(t) == byte_order::u64_le(t.seq) + bound_bytes(ByteOrder::Little, t.range.start)
            + bound_bytes(ByteOrder::Little, t.range.end),
{
}

/// The first eight bytes of a record are its sequence number.
pub proof fn law_record_begins_with_its_sequence_number(t: Tombstone)
    ensures
        ({
            let s = record(t);
            &&& s.len() >= 18
            &&& t.seq == s[0] + 0x100 * s[1] + 0x1_0000 * s[2] + 0x100_0000 * s[3] + 0x1_0000_0000
                * s[4] + 0x100_0000_0000 * s[5] + 0x1_0000_0000_0000 * s[6] + 0x100_0000_0000_0000
                * s[7]
        }),
{
    law_u64_places(t.seq);
    let s = record(t);
    let seq = byte_order::u64_le(t.seq);
    assert(forall|i: int| 0 <= i < 8 ==> #[trigger] s[i] == seq[i]);
}

/// Records of one interval differ in their sequence numbers only.
pub proof fn law_record_tail_is_the_interval(a: Tombstone, b: Tombstone)
    requires
        a.range == b.range,
    ensures
        record(a).skip(8) == record(b).skip(8),
        record(a).len() == record(b).len(),
{
    assert(record(a).skip(8) =~= record(b).skip(8));
}

/// The first byte of a row payload is 1 where the start is included and 0 where
/// it is not, whatever the end is; behind it stands the end.
pub proof fn law_row_payload_layout(start_inclusive: bool, end: Bound<Seq<u8>>)
    ensures
        start_inclusive ==> row_payload(start_inclusive, end)[0] == 1,
        !start_inclusive ==> row_payload(start_inclusive, end)[0] == 0,
        row_payload(start_inclusive, end).len() >= 6,
        row_payload(start_inclusive, end).skip(1) == bound_bytes(ByteOrder::Big, end),
{
    assert(row_payload(start_inclusive, end).skip(1) =~= bound_bytes(ByteOrder::Big, end));
}

/// The payloads for the two kinds of start differ in their first byte only.
pub proof fn law_row_payload_kinds_of_start(end: Bound<Seq<u8>>)
    ensures
        row_payload(true, end).skip(1) == row_payload(false, end).skip(1),
        row_payload(true, end)[0] != row_payload(false, end)[0],
{
    law_row_payload_layout(true, end);
    law_row_payload_layout(false, end);
}

/// The block of one tombstone is its record behind four bytes that hold the
/// length of the record. The block of none is empty.
pub proof fn law_block_layout(t: Tombstone)
    ensures
        block(Seq::empty()) == Seq::<u8>::empty(),
        block(seq![t]) == byte_order::u32_bytes(ByteOrder::Big, length_field(record(t).len()))
            + record(t),
{
    assert(seq![t].drop_last() =~= Seq::empty());
    assert(block(seq![t].drop_last()) =~= Seq::empty());
    assert(block(seq![t]) =~= byte_order::u32_bytes(
        ByteOrder::Big,
        length_field(record(t).len()),
    ) + record(t));
}

/// A block is as long as its records, with four bytes more for each.
pub proof fn law_block_len(ts: Seq<Tombstone>, t: Tombstone)
    ensures
        block(ts).len() == block_len(ts),
        block(ts.push(t)).len() == block(ts).len() + 4 + record(t).len(),
{
    lemma_block_len(ts);
    assert(ts.push(t).drop_last() =~= ts);
}

/// How long a block is.
proof fn lemma_block_len(ts: Seq<Tombstone>)
    ensures
        block(ts).len() == block_len(ts),
    decreases ts.len(),
{
    if ts.len() > 0 {
        lemma_block_len(ts.drop_last());
        codec_laws::law_record_len(ts.last());
    }
}

/// Fewer than five bytes are no bound, and are left as they are.
pub proof fn law_no_bound_in_few_bytes(order: ByteOrder, s: Seq<u8>)
    requires
        s.len() < 5,
    ensures
        parse_bound(order, s).value == Err::<Bound<Seq<u8>>, SlateRangeDecodeError>(
            SlateRangeDecodeError::Truncated,
        ),
        parse_bound(order, s).rest == s,
{
}

/// What five or more bytes are read as, where the second to the fifth hold the
/// number `n`: with fewer than `n` more, they are truncated, and only the first
/// five are taken off. Else the next `n` are the key and are taken off too. A
/// first byte of 1 makes it an included and one of 2 an excluded bound, one of
/// 0 with no key makes it a missing bound, and any other is invalid.
pub proof fn law_bound_read(order: ByteOrder, s: Seq<u8>, n: int)
    requires
        s.len() >= 5,
        order is Little ==> n == s[1] + 0x100 * s[2] + 0x1_0000 * s[3] + 0x100_0000 * s[4],
        order is Big ==> n == s[4] + 0x100 * s[3] + 0x1_0000 * s[2] + 0x100_0000 * s[1],
    ensures
        ({
            let read = parse_bound(order, s);
            let k = s.subrange(5, 5 + n);
            &&& s.len() < 5 + n ==> read.value == Err::<Bound<Seq<u8>>, SlateRangeDecodeError>(
                SlateRangeDecodeError::Truncated,
            ) && read.rest == s.skip(5)
            &&& s.len() >= 5 + n ==> read.rest == s.skip(5 + n)
            &&& s.len() >= 5 + n && s[0] == 1 ==> read.value == Ok::<
                Bound<Seq<u8>>,
                SlateRangeDecodeError,
            >(Bound::Included(k))
            &&& s.len() >= 5 + n && s[0] == 2 ==> read.value == Ok::<
                Bound<Seq<u8>>,
                SlateRangeDecodeError,
            >(Bound::Excluded(k))
            &&& s.len() >= 5 + n && s[0] == 0 && n == 0 ==> read.value == Ok::<
                Bound<Seq<u8>>,
                SlateRangeDecodeError,
            >(Bound::Unbounded)
            &&& s.len() >= 5 + n && (s[0] > 2 || (s[0] == 0 && n > 0)) ==> read.value == Err::<
                Bound<Seq<u8>>,
                SlateRangeDecodeError,
            >(SlateRangeDecodeError::InvalidFlag)
        }),
{
    let u = s.skip(1);
    assert(u[0] == s[1] && u[1] == s[2] && u[2] == s[3] && u[3] == s[4]);
    assert(byte_order::value4(order, u) == n);
}

/// A bound that was read is read alike where more bytes follow, and so is one
/// whose flag is invalid.
pub proof fn law_bound_reads_no_further(order: ByteOrder, s: Seq<u8>, more: Seq<u8>)
    requires
        parse_bound(order, s).value != Err::<Bound<Seq<u8>>, SlateRangeDecodeError>(
            SlateRangeDecodeError::Truncated,
        ),
    ensures
        parse_bound(order, s + more).value == parse_bound(order, s).value,
        parse_bound(order, s + more).rest == parse_bound(order, s).rest + more,
{
    let u = (s + more).skip(1);
    assert(u =~= s.skip(1) + more);
    let len = byte_order::value4(order, s.skip(1));
    byte_order::lemma_u32_write_back(order, s.skip(1));
    assert(byte_order::value4(order, u) == len);
    assert((s + more).subrange(5, 5 + len) =~= s.subrange(5, 5 + len));
    assert((s + more).skip(5 + len) =~= s.skip(5 + len) + more);
}

/// Fewer than eight bytes are no record, and are left as they are.
pub proof fn law_no_record_in_few_bytes(s: Seq<u8>)
    requires
        s.len() < 8,
    ensures
        parse_record(s).value == Err::<Tombstone, SlateRangeDecodeError>(
            SlateRangeDecodeError::Truncated,
        ),
        parse_record(s).rest == s,
{
}

/// What eight or more bytes are read as: the first eight are the sequence
/// number, then come the start and the end. The first of the two that cannot be
/// read says why, and nothing is read behind it.
pub proof fn law_record_read(s: Seq<u8>)
    requires
        s.len() >= 8,
    ensures
        ({
            let start = parse_bound(ByteOrder::Little, s.skip(8));
            let end = parse_bound(ByteOrder::Little, start.rest);
            let read = parse_record(s);
            &&& start.value matches Err(e) ==> read.value == Err::<
                Tombstone,
                SlateRangeDecodeError,
            >(e) && read.rest == start.rest
            &&& start.value is Ok ==> read.rest == end.rest
            &&& start.value is Ok ==> (end.value matches Err(e) ==> read.value == Err::<
                Tombstone,
                SlateRangeDecodeError,
            >(e))
            &&& start.value matches Ok(first) ==> end.value matches Ok(last) ==> {
                &&& read.value matches Ok(t)
                &&& t.range.start == first
                &&& t.range.end == last
                &&& t.seq == s[0] + 0x100 * s[1] + 0x1_0000 * s[2] + 0x100_0000 * s[3]
                    + 0x1_0000_0000 * s[4] + 0x100_0000_0000 * s[5] + 0x1_0000_0000_0000 * s[6]
                    + 0x100_0000_0000_0000 * s[7]
            }
        }),
{
    byte_order::lemma_u64_write_back(s);
    let u = s.skip(4);
    assert(u[0] == s[4] && u[1] == s[5] && u[2] == s[6] && u[3] == s[7]);
}

/// Bytes that differ in the first eight only are read as the same interval, or
/// fail alike, and leave the same bytes.
pub proof fn law_record_interval_read_apart(a: Seq<u8>, b: Seq<u8>)
    requires
        a.len() >= 8,
        b.len() >= 8,
        a.skip(8) == b.skip(8),
    ensures
        parse_record(a).rest == parse_record(b).rest,
        parse_record(a).value matches Ok(t) ==> (parse_record(b).value matches Ok(u) && t.range
            == u.range),
        parse_record(a).value matches Err(e) ==> parse_record(b).value == Err::<
            Tombstone,
            SlateRangeDecodeError,
        >(e),
{
}

/// A record that was read is read alike where more bytes follow.
pub proof fn law_record_reads_no_further(s: Seq<u8>, more: Seq<u8>)
    requires
        parse_record(s).value is Ok,
    ensures
        parse_record(s + more).value == parse_record(s).value,
        parse_record(s + more).rest == parse_record(s).rest + more,
{
    codec_laws::law_record_canonical(s);
    let t = parse_record(s).value->Ok_0;
    let rest = parse_record(s).rest;
    codec_laws::law_record_round_trip(t, rest + more);
    assert(s + more =~= record(t) + (rest + more));
}

/// Fewer than six bytes are no row payload, and are left as they are.
pub proof fn law_no_row_payload_in_few_bytes(s: Seq<u8>)
    requires
        s.len() < 6,
    ensures
        parse_row_payload(s).value == Err::<(bool, Bound<Seq<u8>>), SlateRangeDecodeError>(
            SlateRangeDecodeError::Truncated,
        ),
        parse_row_payload(s).rest == s,
{
}

/// What six or more bytes are read as: the start is included iff the first byte
/// is not 0, and behind it stands the end. Where the end cannot be read, it says
/// why.
pub proof fn law_row_payload_read(s: Seq<u8>)
    requires
        s.len() >= 6,
    ensures
        ({
            let end = parse_bound(ByteOrder::Big, s.skip(1));
            let read = parse_row_payload(s);
            &&& read.rest == end.rest
            &&& end.value matches Err(e) ==> read.value == Err::<
                (bool, Bound<Seq<u8>>),
                SlateRangeDecodeError,
            >(e)
            &&& end.value matches Ok(last) ==> {
                &&& read.value matches Ok((start_inclusive, bound))
                &&& bound == last
                &&& start_inclusive <==> s[0] != 0
            }
        }),
{
}

/// Whatever its end, a payload is read as one with an included start iff its
/// first byte is not 0.
pub proof fn law_row_payload_start_byte(s: Seq<u8>)
    ensures
        parse_row_payload(s).value matches Ok((start_inclusive, _)) ==> (start_inclusive <==> s[0]
            != 0),
{
}

/// Payloads that differ in the first byte only are read as the same end, or
/// fail alike; all first bytes but 0 are read alike.
pub proof fn law_row_payload_start_byte_alone(a: Seq<u8>, b: Seq<u8>)
    requires
        a.len() >= 6,
        b.len() >= 6,
        a.skip(1) == b.skip(1),
    ensures
        parse_row_payload(a).rest == parse_row_payload(b).rest,
        parse_row_payload(a).value is Ok <==> parse_row_payload(b).value is Ok,
        parse_row_payload(a).value matches Ok(x) ==> parse_row_payload(b).value matches Ok(y)
            ==> x.1 == y.1,
        (a[0] == 0 <==> b[0] == 0) ==> parse_row_payload(a) == parse_row_payload(b),
{
}

/// An empty block holds no tombstones, and one of less than four bytes is
/// truncated.
pub proof fn law_short_blocks(s: Seq<u8>)
    ensures
        s.len() == 0 ==> parse_block(s) == Ok::<Seq<Tombstone>, SlateRangeDecodeError>(
            Seq::empty(),
        ),
        0 < s.len() < 4 ==> parse_block(s) == Err::<Seq<Tombstone>, SlateRangeDecodeError>(
            SlateRangeDecodeError::Truncated,
        ),
{
}

/// What a block of four or more bytes is read as, where the first four hold the
/// number `n`: with fewer than `n` more it is truncated. Else a record is read
/// from the next `n`, and the tombstones of the bytes behind them follow. The
/// first thing that cannot be read says why.
pub proof fn law_block_read(s: Seq<u8>, n: int)
    requires
        s.len() >= 4,
        n == s[3] + 0x100 * s[2] + 0x1_0000 * s[1] + 0x100_0000 * s[0],
    ensures
        s.len() < 4 + n ==> parse_block(s) == Err::<Seq<Tombstone>, SlateRangeDecodeError>(
            SlateRangeDecodeError::Truncated,
        ),
        s.len() >= 4 + n ==> ({
            let first = parse_record(s.subrange(4, 4 + n)).value;
            let others = parse_block(s.skip(4 + n));
            &&& first matches Err(e) ==> parse_block(s) == Err::<
                Seq<Tombstone>,
                SlateRangeDecodeError,
            >(e)
            &&& first is Ok ==> (others matches Err(e) ==> parse_block(s) == Err::<
                Seq<Tombstone>,
                SlateRangeDecodeError,
            >(e))
            &&& first matches Ok(t) ==> others matches Ok(ts) ==> {
                &&& parse_block(s) matches Ok(all)
                &&& all.len() == ts.len() + 1
                &&& all[0] == t
                &&& all.skip(1) == ts
            }
        }),
{
    if s.len() >= 4 + n {
        let first = parse_record(s.subrange(4, 4 + n)).value;
        let others = parse_block(s.skip(4 + n));
        if let (Ok(t), Ok(ts)) = (first, others) {
            assert((seq![t] + ts).skip(1) =~= ts);
        }
    }
}

/// Bytes behind a record, within the length that stands before it, change
/// nothing.
pub proof fn law_block_slack_is_passed_over(t: Tombstone, slack: Seq<u8>, rest: Seq<u8>)
    requires
        keys_fit(t),
        record(t).len() + slack.len() <= u32::MAX,
    ensures
        ({
            let n = record(t).len() + slack.len();
            let s = byte_order::u32_bytes(ByteOrder::Big, n as u32) + record(t) + slack + rest;
            &&& parse_block(rest) matches Ok(ts) ==> parse_block(s) == Ok::<
                Seq<Tombstone>,
                SlateRangeDecodeError,
            >(seq![t] + ts)
            &&& parse_block(rest) matches Err(e) ==> parse_block(s) == Err::<
                Seq<Tombstone>,
                SlateRangeDecodeError,
            >(e)
        }),
{
    let n = record(t).len() + slack.len();
    let len = byte_order::u32_bytes(ByteOrder::Big, n as u32);
    let s = len + record(t) + slack + rest;
    law_u32_places(n as u32);
    assert(s[0] == len[0] && s[1] == len[1] && s[2] == len[2] && s[3] == len[3]);
    assert(s.subrange(4, 4 + n as int) =~= record(t) + slack);
    assert(s.skip(4 + n as int) =~= rest);
    codec_laws::law_record_round_trip(t, slack);
    law_block_read(s, n as int);
    if let Ok(ts) = parse_block(rest) {
        let all = parse_block(s)->Ok_0;
        assert(all =~= seq![all[0]] + all.skip(1));
    }
}

/// A row whose flag says so starts an interval that includes the row's key; a
/// row whose flag does not starts one that excludes it, or one with no start
/// where the key is empty.
pub proof fn law_row_flag(row_key: Seq<u8>)
    ensures
        start_of_row(row_key, true) == Bound::Included(row_key),
        row_key.len() > 0 ==> start_of_row(row_key, false) == Bound::Excluded(row_key),
        row_key.len() == 0 ==> start_of_row(row_key, false) == Bound::<Seq<u8>>::Unbounded,
{
}

/// The row of an interval start has the start's key, and its flag is set iff
/// that key is included. A missing start has the empty key.
pub proof fn law_flag_of_start(first: Seq<u8>)
    ensures
        row_of_start(Bound::Included(first)) == (first, true),
        row_of_start(Bound::Excluded(first)) == (first, false),
        row_of_start(Bound::Unbounded) == (Seq::<u8>::empty(), false),
{
}

/// The interval that a row starts contains the row's key iff the flag is set or
/// the key is empty, all keys after it, and none before it.
pub proof fn law_row_starts_at_its_key(row_key: Seq<u8>, start_inclusive: bool, key: Seq<u8>)
    ensures
        ({
            let range = Interval {
                start: start_of_row(row_key, start_inclusive),
                end: Bound::Unbounded,
            };
            &&& range.contains(row_key) <==> start_inclusive || row_key.len() == 0
            &&& key_lt(row_key, key) ==> range.contains(key)
            &&& key_lt(key, row_key) ==> !range.contains(key)
        }),
{
    interval_laws::law_start_alone(row_key, key);
    interval_laws::law_start_alone(row_key, row_key);
    lemma_key_order_total(row_key, key);
    lemma_key_order_total(row_key, row_key);
}

/// An interval that was stored as a row and read back contains the same keys. The
/// one exception is the empty key, which is added to an interval that starts by
/// excluding it.
pub proof fn law_row_deletes_the_same(range: Interval, key: Seq<u8>)
    requires
        key_fits(range.end),
        key.len() > 0 || range.start != Bound::Excluded(Seq::<u8>::empty()),
    ensures
        ({
            let (row_key, start_inclusive) = row_of_start(range.start);
            parse_row_payload(row_payload(start_inclusive, range.end)).value matches Ok((
                inclusive,
                end,
            )) && ((Interval { start: start_of_row(row_key, inclusive), end }).contains(key)
                <==> range.contains(key))
        }),
{
    let (row_key, start_inclusive) = row_of_start(range.start);
    let payload = row_payload(start_inclusive, range.end);
    codec_laws::law_row_payload_round_trip(start_inclusive, range.end, Seq::empty());
    assert(payload + Seq::empty() =~= payload);
    match range.start {
        Bound::Excluded(first) => {
            if first.len() == 0 {
                assert(first =~= Seq::empty());
                assert(Seq::<u8>::empty() + key =~= key);
                interval_laws::law_prefix_comes_first(Seq::empty(), key);
            }
        },
        _ => {},
    }
}

/// What a decoder returns is taken for what it stands for, and errors for
/// themselves.
pub proof fn law_results_stand_for_themselves<T: View>(r: Result<T, SlateRangeDecodeError>)
    ensures
        r matches Ok(value) ==> viewed(r) == Ok::<T::V, SlateRangeDecodeError>(value@),
        r matches Err(e) ==> viewed(r) == Err::<T::V, SlateRangeDecodeError>(e),
{
}

/// A list of tombstones stands for the list of what each of them stands for: an
/// interval and a sequence number.
pub proof fn law_lists_stand_for_their_members(ts: Vec<RangeTombstone>, i: int)
    requires
        0 <= i < ts@.len(),
    ensures
        views(ts@).len() == ts@.len(),
        views(ts@)[i].seq == ts@[i].seq,
        views(ts@)[i].range.start == ts@[i].range.start@,
        views(ts@)[i].range.end == ts@[i].range.end@,
        viewed_list(Ok(ts)) == Ok::<Seq<Tombstone>, SlateRangeDecodeError>(views(ts@)),
{
}

/// An error stands for itself.
pub proof fn law_errors_stand_for_themselves(e: SlateRangeDecodeError)
    ensures
        viewed_list(Err(e)) == Err::<Seq<Tombstone>, SlateRangeDecodeError>(e),
{
}

} // verus!
