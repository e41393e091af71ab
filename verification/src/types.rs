//! The rows that scans read.

use bytes::Bytes;
use vstd::prelude::*;

verus! {

/// What a row says of its key.
#[derive(Clone, Debug, PartialEq, Eq)]
pub enum RowValue {
    /// The key was written with this value.
    Value(Bytes),
    /// The key was deleted.
    Tombstone,
    /// The row records the deletion of a key interval. Its key is the start of
    /// the interval, and this payload describes the rest of it.
    RangeTombstone(Bytes),
}

/// One row: a key, what was written to it, and the sequence number of that
/// write.
#[derive(Clone, Debug, PartialEq, Eq)]
pub struct RowEntry {
    pub key: Bytes,
    pub value: RowValue,
    pub seq: u64,
}

impl RowEntry {
    /// True iff the row records the deletion of a key interval.
    pub fn is_range_tombstone(&self) -> (r: bool)
        ensures
            r == (self.value is RangeTombstone),
    {
        match self.value {
            RowValue::RangeTombstone(_) => true,
            _ => false,
        }
    }
}

/// In what key order a scan yields rows.
#[derive(Clone, Copy, Debug, PartialEq, Eq, Structural)]
pub enum IterationOrder {
    Ascending,
    Descending,
}

} // verus!
