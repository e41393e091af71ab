# range_tombstone

Deletions of whole key intervals for a log-structured key-value store, verified
with Verus.

A range tombstone says that every key of an interval was deleted as of a
sequence number. The library stores tombstones as bytes, reads them back, merges
collections of them, and filters the rows of a scan by them.

- `src/range_tombstone.rs`: tombstones and their encoders and decoders.
- `src/range_tombstone_iter.rs`: the filter of a scan, and merging.
- `src/sorting.rs`: the stable sort behind both.
- `src/bytes_range.rs`, `src/bound.rs`, `src/key_order.rs`: key intervals and
  their order.
- `src/wire.rs`, `src/byte_order.rs`: the stored form, as mathematics.
- `src/codec_laws.rs`, `src/scan_laws.rs`: what holds of the functions together.
- `src/buffer.rs`: what is taken on trust of the `bytes` crate.
- `app/`: asynchronous row sources around the filter.
