//! Bit-Width Sparse Pointer Index (BWSPI), also called the Sarkar Bucket Array.

pub mod sarkar_bucket_array;
pub mod simd_search;
pub mod telemetry;
pub mod workloads;

pub use sarkar_bucket_array::{bit_width, Bwspi, SarkarSortStats};
