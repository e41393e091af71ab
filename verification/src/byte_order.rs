//! Fixed-width integers as bytes.

use vstd::arithmetic::div_mod::lemma_div_denominator;
use vstd::prelude::*;

verus! {

/// The order in which the bytes of a length are laid out.
#[derive(Clone, Copy, Debug, PartialEq, Eq, Structural)]
pub enum ByteOrder {
    /// Least significant byte first.
    Little,
    /// Most significant byte first.
    Big,
}

/// The byte of `n` that counts multiples of `unit`, a power of 256.
pub open spec fn digit(n: int, unit: int) -> u8 {
    ((n / unit) % 0x100) as u8
}

/// `n` in four bytes, least significant first.
pub open spec fn u32_le(n: u32) -> Seq<u8> {
    seq![
        digit(n as int, 1),
        digit(n as int, 0x100),
        digit(n as int, 0x1_0000),
        digit(n as int, 0x100_0000),
    ]
}

/// `n` in four bytes, most significant first.
pub open spec fn u32_be(n: u32) -> Seq<u8> {
    seq![
        digit(n as int, 0x100_0000),
        digit(n as int, 0x1_0000),
        digit(n as int, 0x100),
        digit(n as int, 1),
    ]
}

/// `n` in four bytes, laid out in the given order.
pub open spec fn u32_bytes(order: ByteOrder, n: u32) -> Seq<u8> {
    match order {
        ByteOrder::Little => u32_le(n),
        ByteOrder::Big => u32_be(n),
    }
}

/// `n` in eight bytes, least significant first.
pub open spec fn u64_le(n: u64) -> Seq<u8> {
    seq![
        digit(n as int, 1),
        digit(n as int, 0x100),
        digit(n as int, 0x1_0000),
        digit(n as int, 0x100_0000),
        digit(n as int, 0x1_0000_0000),
        digit(n as int, 0x100_0000_0000),
        digit(n as int, 0x1_0000_0000_0000),
        digit(n as int, 0x100_0000_0000_0000),
    ]
}

/// The number in the first four bytes of `s`, least significant first.
pub open spec fn le_value4(s: Seq<u8>) -> int {
    s[0] + 0x100 * s[1] + 0x1_0000 * s[2] + 0x100_0000 * s[3]
}

/// The number in the first four bytes of `s`, most significant first.
pub open spec fn be_value4(s: Seq<u8>) -> int {
    0x100_0000 * s[0] + 0x1_0000 * s[1] + 0x100 * s[2] + s[3]
}

/// The number in the first four bytes of `s`, laid out in the given order.
pub open spec fn value4(order: ByteOrder, s: Seq<u8>) -> int {
    match order {
        ByteOrder::Little => le_value4(s),
        ByteOrder::Big => be_value4(s),
    }
}

/// The number in the first eight bytes of `s`, least significant first.
pub open spec fn le_value8(s: Seq<u8>) -> int {
    le_value4(s) + 0x1_0000_0000 * le_value4(s.skip(4))
}

/// Dividing by a power of 256 is dividing by 256 as often as its exponent says.
proof fn lemma_quotients(n: int)
    requires
        n >= 0,
    ensures
        n / 0x1_0000 == (n / 0x100) / 0x100,
        n / 0x100_0000 == (n / 0x1_0000) / 0x100,
        n / 0x1_0000_0000 == (n / 0x100_0000) / 0x100,
        n / 0x100_0000_0000 == (n / 0x1_0000_0000) / 0x100,
        n / 0x1_0000_0000_0000 == (n / 0x100_0000_0000) / 0x100,
        n / 0x100_0000_0000_0000 == (n / 0x1_0000_0000_0000) / 0x100,
{
    lemma_div_denominator(n, 0x100, 0x100);
    lemma_div_denominator(n, 0x1_0000, 0x100);
    lemma_div_denominator(n, 0x100_0000, 0x100);
    lemma_div_denominator(n, 0x1_0000_0000, 0x100);
    lemma_div_denominator(n, 0x100_0000_0000, 0x100);
    lemma_div_denominator(n, 0x1_0000_0000_0000, 0x100);
}

/// A number below 2^32 is the sum of its digits, each with its weight.
proof fn lemma_sum_of_digits(n: int)
    requires
        0 <= n <= u32::MAX,
    ensures
        n == digit(n, 1) + 0x100 * digit(n, 0x100) + 0x1_0000 * digit(n, 0x1_0000) + 0x100_0000
            * digit(n, 0x100_0000),
{
    lemma_quotients(n);
}

/// The digits of a sum of weighted bytes are those bytes.
proof fn lemma_digits_of_sum(a: u8, b: u8, c: u8, d: u8)
    ensures
        ({
            let n = a + 0x100 * b + 0x1_0000 * c + 0x100_0000 * d;
            &&& 0 <= n <= u32::MAX
            &&& digit(n, 1) == a
            &&& digit(n, 0x100) == b
            &&& digit(n, 0x1_0000) == c
            &&& digit(n, 0x100_0000) == d
        }),
{
    let n = a + 0x100 * b + 0x1_0000 * c + 0x100_0000 * d;
    lemma_quotients(n);
    assert(n / 0x100 == b + 0x100 * c + 0x1_0000 * d);
    assert(n / 0x1_0000 == c + 0x100 * d);
    assert(n / 0x100_0000 == d);
}

/// The digits of a number below 2^64 are those of its two halves.
proof fn lemma_digits_of_halves(n: int)
    requires
        0 <= n <= u64::MAX,
    ensures
        ({
            let low = n % 0x1_0000_0000;
            let high = n / 0x1_0000_0000;
            &&& digit(n, 1) == digit(low, 1)
            &&& digit(n, 0x100) == digit(low, 0x100)
            &&& digit(n, 0x1_0000) == digit(low, 0x1_0000)
            &&& digit(n, 0x100_0000) == digit(low, 0x100_0000)
            &&& digit(n, 0x1_0000_0000) == digit(high, 1)
            &&& digit(n, 0x100_0000_0000) == digit(high, 0x100)
            &&& digit(n, 0x1_0000_0000_0000) == digit(high, 0x1_0000)
            &&& digit(n, 0x100_0000_0000_0000) == digit(high, 0x100_0000)
        }),
{
    let low = n % 0x1_0000_0000;
    let high = n / 0x1_0000_0000;
    lemma_quotients(n);
    lemma_quotients(low);
    lemma_quotients(high);
    assert(n / 0x100 == low / 0x100 + 0x100_0000 * high);
    assert(n / 0x1_0000 == low / 0x1_0000 + 0x1_0000 * high);
    assert(n / 0x100_0000 == low / 0x100_0000 + 0x100 * high);
}

/// Reading four bytes back gives the number that was written, whatever follows.
pub proof fn lemma_u32_read_back(order: ByteOrder, n: u32, rest: Seq<u8>)
    ensures
        u32_bytes(order, n).len() == 4,
        value4(order, u32_bytes(order, n) + rest) == n,
{
    lemma_sum_of_digits(n as int);
}

/// Reading eight bytes back gives the number that was written, whatever follows.
pub proof fn lemma_u64_read_back(n: u64, rest: Seq<u8>)
    ensures
        u64_le(n).len() == 8,
        le_value8(u64_le(n) + rest) == n,
{
    let low = n as int % 0x1_0000_0000;
    let high = n as int / 0x1_0000_0000;
    lemma_digits_of_halves(n as int);
    lemma_sum_of_digits(low);
    lemma_sum_of_digits(high);
    let s = u64_le(n) + rest;
    assert(le_value4(s) == low);
    assert(le_value4(s.skip(4)) == high);
}

/// Writing the number that four bytes stand for gives those bytes again.
pub proof fn lemma_u32_write_back(order: ByteOrder, s: Seq<u8>)
    requires
        s.len() >= 4,
    ensures
        0 <= value4(order, s) <= u32::MAX,
        u32_bytes(order, value4(order, s) as u32) == s.take(4),
{
    match order {
        ByteOrder::Little => lemma_digits_of_sum(s[0], s[1], s[2], s[3]),
        ByteOrder::Big => lemma_digits_of_sum(s[3], s[2], s[1], s[0]),
    }
    assert(u32_bytes(order, value4(order, s) as u32) =~= s.take(4));
}

/// Writing the number that eight bytes stand for gives those bytes again.
pub proof fn lemma_u64_write_back(s: Seq<u8>)
    requires
        s.len() >= 8,
    ensures
        0 <= le_value8(s) <= u64::MAX,
        u64_le(le_value8(s) as u64) == s.take(8),
{
    let low = le_value4(s);
    let high = le_value4(s.skip(4));
    lemma_digits_of_sum(s[0], s[1], s[2], s[3]);
    lemma_digits_of_sum(s[4], s[5], s[6], s[7]);
    let n = le_value8(s);
    assert(n % 0x1_0000_0000 == low && n / 0x1_0000_0000 == high);
    lemma_digits_of_halves(n);
    assert(u64_le(n as u64) =~= s.take(8));
}

} // verus!
