//! Range tombstones: deletions of whole key intervals, how they are stored,
//! and how they filter what a scan sees.

pub mod bound;
pub mod buffer;
pub mod byte_order;
pub mod bytes_range;
pub mod codec_laws;
pub mod interval_laws;
pub mod key_order;
pub mod layout_laws;
pub mod range_tombstone;
pub mod range_tombstone_iter;
pub mod scan_laws;
pub mod sorting;
pub mod types;
pub mod wire;
