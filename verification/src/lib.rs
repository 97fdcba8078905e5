//! Partition-parallel analytics over ordered key-value stores.
//!
//! The crate decomposes a byte-keyed space into prefix partitions, scans and
//! counts a store partition by partition, compares two sorted stores with a
//! two-pointer merge, and groups values with an encode/sort/reduce pipeline.
//! Every job is available both as a single decision step, to be driven by a
//! caller that owns the iteration over an external store, and as a complete
//! run over the in-memory [`store::MemStore`].
//!
//! The modules, leaves first:
//!
//! - [`error`]: why a job is aborted;
//! - [`keys`]: the lexicographic order on byte-string keys;
//! - [`hex_text`]: hexadecimal digits and text;
//! - [`partition`]: prefix partitions of a key space;
//! - [`store`]: an ordered store in memory;
//! - [`scan`]: the scan of a partition, and counting by partition;
//! - [`executor`]: one worker per partition, and one combined result;
//! - [`merge`]: the two-pointer merge-join;
//! - [`map_stage`], [`reduce_stage`], [`job`]: the map/reduce pipeline;
//! - [`round_trip`]: what map followed by reduce makes of a store;
//! - [`settings`], [`report`], [`utils`]: presets for opening an on-disk
//!   store, the lines of an inspection report, and hexadecimal test data.

pub mod error;
pub mod executor;
pub mod hex_text;
pub mod job;
pub mod keys;
pub mod map_stage;
pub mod merge;
pub mod partition;
pub mod reduce_stage;
pub mod report;
pub mod round_trip;
pub mod scan;
pub mod settings;
pub mod store;
pub mod utils;
