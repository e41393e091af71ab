//! The byte containers of the `bytes` crate, as the rest of the library sees
//! them: what they hold, and what each operation in use does to it.
//!
//! Nothing here is proved. Each item states what the `bytes` crate documents
//! of one of its functions.

use crate::byte_order::{be_value4, le_value4, le_value8, u32_be, u32_le, u64_le};
use crate::key_order::key_lt;
use bytes::{Buf, BufMut, Bytes, BytesMut};
use vstd::prelude::*;

verus! {

/// `bytes::Bytes`, a cheaply cloned, immutable run of bytes.
#[verifier::external_type_specification]
#[verifier::external_body]
pub struct ExBytes(bytes::Bytes);

/// `bytes::BytesMut`, the growable buffer that records are written to.
#[verifier::external_type_specification]
#[verifier::external_body]
pub struct ExBytesMut(bytes::BytesMut);

/// The bytes that a `Bytes` still holds, front first.
pub uninterp spec fn content(b: Bytes) -> Seq<u8>;

/// The bytes that have been written to a `BytesMut`, first one first.
pub uninterp spec fn written(b: BytesMut) -> Seq<u8>;

/// The capacity that a `BytesMut` was asked for when it was made.
pub uninterp spec fn reserved(b: BytesMut) -> nat;

/// True iff `extra` more bytes can be written to `b`: either they stay within
/// the capacity that it was made with, or the buffer, which at most doubles
/// when it grows, stays within the largest allocation.
pub open spec fn has_room(b: BytesMut, extra: int) -> bool {
    ||| written(b).len() + extra <= reserved(b)
    ||| 2 * (written(b).len() + extra) <= isize::MAX
}

/// `Bytes::new` makes an empty value.
pub assume_specification[ bytes::Bytes::new ]() -> (b: Bytes)
    ensures
        content(b) == Seq::<u8>::empty(),
;

/// `Bytes::len` counts the bytes that the value holds.
pub assume_specification[ bytes::Bytes::len ](b: &Bytes) -> (n: usize)
    ensures
        n == content(*b).len(),
;

/// `Bytes::is_empty` tells whether the value holds no bytes.
pub assume_specification[ bytes::Bytes::is_empty ](b: &Bytes) -> (r: bool)
    ensures
        r == (content(*b).len() == 0),
;

/// `Bytes::split_to` hands out the first `at` bytes and keeps the others. It
/// panics where there are fewer.
pub assume_specification[ bytes::Bytes::split_to ](b: &mut Bytes, at: usize) -> (front: Bytes)
    requires
        at <= content(*old(b)).len(),
    ensures
        content(front) == content(*old(b)).take(at as int),
        content(*final(b)) == content(*old(b)).skip(at as int),
;

/// `Bytes::clone` makes a value that holds the same bytes.
pub assume_specification[ <bytes::Bytes as Clone>::clone ](b: &Bytes) -> (copy: Bytes)
    ensures
        content(copy) == content(*b),
;

/// `BytesMut::new` makes an empty buffer with no capacity asked for.
pub assume_specification[ bytes::BytesMut::new ]() -> (buf: BytesMut)
    ensures
        written(buf) == Seq::<u8>::empty(),
        reserved(buf) == 0,
;

/// `BytesMut::with_capacity` makes an empty buffer that takes `capacity` bytes
/// without growing. It panics where that is more than the largest allocation.
pub assume_specification[ bytes::BytesMut::with_capacity ](capacity: usize) -> (buf: BytesMut)
    requires
        capacity <= isize::MAX,
    ensures
        written(buf) == Seq::<u8>::empty(),
        reserved(buf) == capacity,
;

/// `BytesMut::freeze` turns the buffer into a `Bytes` of what was written.
pub assume_specification[ bytes::BytesMut::freeze ](buf: BytesMut) -> (b: Bytes)
    ensures
        content(b) == written(buf),
;

/// The `==` of `Bytes` compares the two contents.
#[verifier::external_body]
pub(crate) fn same_bytes(a: &Bytes, b: &Bytes) -> (r: bool)
    ensures
        r == (content(*a) == content(*b)),
{
    a == b
}

/// The `<` of `Bytes` compares the two contents as slices of bytes, which is
/// lexicographically.
#[verifier::external_body]
pub(crate) fn bytes_lt(a: &Bytes, b: &Bytes) -> (r: bool)
    ensures
        r == key_lt(content(*a), content(*b)),
{
    a < b
}

/// `Buf::remaining` of a `Bytes` counts the bytes that it still holds.
#[verifier::external_body]
pub(crate) fn remaining(data: &Bytes) -> (n: usize)
    ensures
        n == content(*data).len(),
{
    data.remaining()
}

/// `Buf::has_remaining` of a `Bytes` tells whether it still holds a byte.
#[verifier::external_body]
pub(crate) fn has_remaining(data: &Bytes) -> (r: bool)
    ensures
        r == (content(*data).len() > 0),
{
    data.has_remaining()
}

/// `Buf::get_u8` takes the first byte off. It panics where there is none.
#[verifier::external_body]
pub(crate) fn get_u8(data: &mut Bytes) -> (n: u8)
    requires
        content(*old(data)).len() >= 1,
    ensures
        n == content(*old(data))[0],
        content(*final(data)) == content(*old(data)).skip(1),
{
    data.get_u8()
}

/// `Buf::get_u32` takes four bytes off and reads them most significant first.
/// It panics where there are fewer.
#[verifier::external_body]
pub(crate) fn get_u32(data: &mut Bytes) -> (n: u32)
    requires
        content(*old(data)).len() >= 4,
    ensures
        n == be_value4(content(*old(data))),
        content(*final(data)) == content(*old(data)).skip(4),
{
    data.get_u32()
}

/// `Buf::get_u32_le` takes four bytes off and reads them least significant
/// first. It panics where there are fewer.
#[verifier::external_body]
pub(crate) fn get_u32_le(data: &mut Bytes) -> (n: u32)
    requires
        content(*old(data)).len() >= 4,
    ensures
        n == le_value4(content(*old(data))),
        content(*final(data)) == content(*old(data)).skip(4),
{
    data.get_u32_le()
}

/// `Buf::get_u64_le` takes eight bytes off and reads them least significant
/// first. It panics where there are fewer.
#[verifier::external_body]
pub(crate) fn get_u64_le(data: &mut Bytes) -> (n: u64)
    requires
        content(*old(data)).len() >= 8,
    ensures
        n == le_value8(content(*old(data))),
        content(*final(data)) == content(*old(data)).skip(8),
{
    data.get_u64_le()
}

/// `Buf::copy_to_bytes` of a `Bytes` takes the first `len` bytes off and hands
/// them out. It panics where there are fewer.
#[verifier::external_body]
pub(crate) fn copy_to_bytes(data: &mut Bytes, len: usize) -> (front: Bytes)
    requires
        len <= content(*old(data)).len(),
    ensures
        content(front) == content(*old(data)).take(len as int),
        content(*final(data)) == content(*old(data)).skip(len as int),
{
    data.copy_to_bytes(len)
}

/// `BufMut::put_u8` of a `BytesMut` appends one byte.
#[verifier::external_body]
pub(crate) fn put_u8(buf: &mut BytesMut, n: u8)
    requires
        has_room(*old(buf), 1),
    ensures
        written(*final(buf)) == written(*old(buf)).push(n),
        reserved(*final(buf)) == reserved(*old(buf)),
{
    buf.put_u8(n)
}

/// `BufMut::put_u32` of a `BytesMut` appends four bytes, most significant
/// first.
#[verifier::external_body]
pub(crate) fn put_u32(buf: &mut BytesMut, n: u32)
    requires
        has_room(*old(buf), 4),
    ensures
        written(*final(buf)) == written(*old(buf)) + u32_be(n),
        reserved(*final(buf)) == reserved(*old(buf)),
{
    buf.put_u32(n)
}

/// `BufMut::put_u32_le` of a `BytesMut` appends four bytes, least significant
/// first.
#[verifier::external_body]
pub(crate) fn put_u32_le(buf: &mut BytesMut, n: u32)
    requires
        has_room(*old(buf), 4),
    ensures
        written(*final(buf)) == written(*old(buf)) + u32_le(n),
        reserved(*final(buf)) == reserved(*old(buf)),
{
    buf.put_u32_le(n)
}

/// `BufMut::put_u64_le` of a `BytesMut` appends eight bytes, least significant
/// first.
#[verifier::external_body]
pub(crate) fn put_u64_le(buf: &mut BytesMut, n: u64)
    requires
        has_room(*old(buf), 8),
    ensures
        written(*final(buf)) == written(*old(buf)) + u64_le(n),
        reserved(*final(buf)) == reserved(*old(buf)),
{
    buf.put_u64_le(n)
}

/// `BufMut::put_slice` of a `BytesMut` appends the bytes of the slice, here
/// those that `src` holds.
#[verifier::external_body]
pub(crate) fn put_slice(buf: &mut BytesMut, src: &Bytes)
    requires
        has_room(*old(buf), content(*src).len() as int),
    ensures
        written(*final(buf)) == written(*old(buf)) + content(*src),
        reserved(*final(buf)) == reserved(*old(buf)),
{
    buf.put_slice(src)
}

} // verus!
