//! One end of a key interval.

use crate::buffer::content;
use bytes::Bytes;
use vstd::prelude::*;

verus! {

/// One end of an interval of keys.
#[derive(Clone, Copy, Debug, PartialEq, Eq)]
pub enum Bound<T> {
    /// The interval ends at this key and contains it.
    Included(T),
    /// The interval ends at this key and does not contain it.
    Excluded(T),
    /// The interval has no end on this side.
    Unbounded,
}

impl View for Bound<Bytes> {
    type V = Bound<Seq<u8>>;

    open spec fn view(&self) -> Bound<Seq<u8>> {
        match *self {
            Bound::Included(key) => Bound::Included(content(key)),
            Bound::Excluded(key) => Bound::Excluded(content(key)),
            Bound::Unbounded => Bound::Unbounded,
        }
    }
}

impl View for Bound<&Bytes> {
    type V = Bound<Seq<u8>>;

    open spec fn view(&self) -> Bound<Seq<u8>> {
        match *self {
            Bound::Included(key) => Bound::Included(content(*key)),
            Bound::Excluded(key) => Bound::Excluded(content(*key)),
            Bound::Unbounded => Bound::Unbounded,
        }
    }
}

impl Bound<Bytes> {
    /// The same bound, with the key borrowed.
    pub fn as_ref(&self) -> (r: Bound<&Bytes>)
        ensures
            r@ == self@,
    {
        match self {
            Bound::Included(key) => Bound::Included(key),
            Bound::Excluded(key) => Bound::Excluded(key),
            Bound::Unbounded => Bound::Unbounded,
        }
    }
}

} // verus!
