# bwspi — Bit-Width Sparse Pointer Index (Sarkar Bucket Array)

An index of `u64` values routed by binary bit width, with machine-checked
contracts.

- `src/sarkar_bucket_array/` — the index. `index.rs` holds `Bwspi`: an
  append-only data store, per bit width a flat bucket of storage ids, and per
  bit width a lazily rebuilt LSB radix tree (`flat_bucket.rs`) for lookups.
  A freshly built tree splits a node exactly when it would hold more than 64
  ids, so its leaves hold at most 64 ids unless all 64 routing bits are spent
  (and then they hold copies of one value); in-place inserts grow a leaf
  without splitting it until the next rebuild.
  `snapshot_sort.rs` and `sarkar_sort.rs` sort the live values; `model.rs` is
  the mathematical model the contracts speak of (the store, which ids are
  live, the sorted live values); `laws.rs` states and proves the laws that
  relate the operations.
- `src/simd_search.rs` — bucket scans straight over a width's storage ids.
- `src/workloads.rs`, `src/telemetry.rs` — deterministic value streams and the
  arithmetic of benchmark telemetry.
- `app/` — the benchmark programs: timing, heap counting, OS telemetry and
  report formatting around the library.
- `tests/` — scenario and differential tests.
