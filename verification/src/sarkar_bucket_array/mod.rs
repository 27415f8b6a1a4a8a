//! The Sarkar Bucket Array: a `u64` index routed by binary bit width.
//!
//! `index` owns the live-stream index; `snapshot_sort` is the bucket-aware
//! output sort; `sarkar_sort` sorts the store in place and rebuilds the
//! index. `model` holds the mathematical model the contracts speak of.

pub mod bits;
mod flat_bucket;
pub mod heap;
mod index;
pub mod laws;
pub mod model;
mod sarkar_sort;
pub mod simd;
mod snapshot_sort;
mod sorting;

pub use bits::bit_width;
pub use index::{Bwspi, MAX_TREE_IDS};
pub use sarkar_sort::SarkarSortStats;
