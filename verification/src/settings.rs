//! Tuning presets for opening an on-disk ordered store: for reading, for
//! regular writing, and for bulk ingestion followed by one compaction.

use vstd::prelude::*;

verus! {

/// Target size of a table file at the base level: 256 MiB.
pub const TARGET_FILE_SIZE_BASE: u64 = 268_435_456;

/// Size of a table block: 8 KiB, twice the default, as a balance between
/// memory use and lookup speed.
pub const BLOCK_SIZE: usize = 8192;

/// Bits that the bloom filter spends on each key.
pub const BLOOM_BITS_PER_KEY: u32 = 10;

/// Write buffers, background jobs and flush threads of a bulk ingestion.
pub const BULK_FLUSH_THREADS: i32 = 24;

/// Upper bound on the bytes of one compaction after a bulk ingestion: one
/// petabyte, which is to say none.
pub const MAX_COMPACTION_BYTES: u64 = 1_000_000_000_000_000;

/// A compression scheme for table files.
#[derive(Clone, Copy, Debug, PartialEq, Eq, Structural)]
pub enum Compression {
    Lz4,
    Zstd,
}

/// How the blocks of a table file are laid out and found.
#[derive(Clone, Copy, Debug, PartialEq, Eq)]
pub struct TableSettings {
    /// Keep index and filter blocks in the block cache rather than loading
    /// them when a file is opened: files open faster, point reads get slower.
    pub cache_index_and_filter_blocks: bool,
    /// Bits per key of the bloom filter, where a filter is used.
    pub bloom_filter_bits_per_key: Option<u32>,
    /// Block size, where it differs from the default.
    pub block_size: Option<usize>,
}

/// What a bulk ingestion changes on top of the store's own bulk-load
/// defaults.
#[derive(Clone, Copy, Debug, PartialEq, Eq)]
pub struct BulkSettings {
    /// Number of levels, where the store is not to fall back to the
    /// bulk-load default, which an existing store with deeper levels could
    /// not be opened with.
    pub num_levels: Option<i32>,
    pub max_write_buffer_number: i32,
    pub max_background_jobs: i32,
    pub max_background_compactions: i32,
    pub max_background_flushes: i32,
    pub low_priority_threads: i32,
    pub high_priority_threads: i32,
    pub disable_auto_compactions: bool,
    pub max_subcompactions: u32,
    pub max_compaction_bytes: u64,
}

/// Everything that is set before a store is opened.
#[derive(Clone, Copy, Debug, PartialEq, Eq)]
pub struct StoreSettings {
    pub read_only: bool,
    pub create_if_missing: bool,
    pub unordered_write: bool,
    pub compression: Option<Compression>,
    pub bottommost_compression: Option<Compression>,
    pub target_file_size_base: Option<u64>,
    pub table: TableSettings,
    pub max_file_opening_threads: i32,
    pub bulk: Option<BulkSettings>,
}

/// The number of processors as a signed thread count, capped at the largest
/// count that fits.
pub open spec fn thread_count(cpus: usize) -> i32 {
    if cpus > i32::MAX {
        i32::MAX
    } else {
        cpus as i32
    }
}

/// The number of processors as a count of subcompactions, capped at the
/// largest count that fits.
pub open spec fn subcompaction_count(cpus: usize) -> u32 {
    if cpus > u32::MAX {
        u32::MAX
    } else {
        cpus as u32
    }
}

/// The table layout of a store that is written to.
pub open spec fn written_table() -> TableSettings {
    TableSettings {
        cache_index_and_filter_blocks: false,
        bloom_filter_bits_per_key: Some(BLOOM_BITS_PER_KEY),
        block_size: Some(BLOCK_SIZE),
    }
}

/// The preset for reading on a machine with `cpus` processors.
pub open spec fn read_only_plan(fast_open_for_iteration: bool, cpus: usize) -> StoreSettings {
    StoreSettings {
        read_only: true,
        create_if_missing: false,
        unordered_write: false,
        compression: None,
        bottommost_compression: None,
        target_file_size_base: None,
        table: TableSettings {
            cache_index_and_filter_blocks: fast_open_for_iteration,
            bloom_filter_bits_per_key: if fast_open_for_iteration {
                None
            } else {
                Some(BLOOM_BITS_PER_KEY)
            },
            block_size: None,
        },
        max_file_opening_threads: thread_count(cpus),
        bulk: None,
    }
}

/// The preset for regular writing on a machine with `cpus` processors.
pub open spec fn write_plan(cpus: usize) -> StoreSettings {
    StoreSettings {
        read_only: false,
        create_if_missing: true,
        unordered_write: true,
        compression: Some(Compression::Lz4),
        bottommost_compression: Some(Compression::Zstd),
        target_file_size_base: Some(TARGET_FILE_SIZE_BASE),
        table: written_table(),
        max_file_opening_threads: thread_count(cpus),
        bulk: None,
    }
}

/// The preset for bulk ingestion on a machine with `cpus` processors.
pub open spec fn bulk_ingestion_plan(
    num_levels: Option<i32>,
    max_subcompactions: Option<u32>,
    cpus: usize,
) -> StoreSettings {
    StoreSettings {
        bulk: Some(
            BulkSettings {
                num_levels,
                max_write_buffer_number: BULK_FLUSH_THREADS,
                max_background_jobs: BULK_FLUSH_THREADS,
                max_background_compactions: 0,
                max_background_flushes: BULK_FLUSH_THREADS,
                low_priority_threads: 0,
                high_priority_threads: BULK_FLUSH_THREADS,
                disable_auto_compactions: true,
                max_subcompactions: match max_subcompactions {
                    Some(n) => n,
                    None => subcompaction_count(cpus),
                },
                max_compaction_bytes: MAX_COMPACTION_BYTES,
            },
        ),
        ..write_plan(cpus)
    }
}

/// Calls `num_cpus::get`, the number of logical processors available to
/// this process. The contract claims what that function documents: the
/// number is at least one.
#[verifier::external_body]
fn available_cpus() -> (cpus: usize)
    ensures
        cpus >= 1,
{
    num_cpus::get()
}

fn threads_for(cpus: usize) -> (threads: i32)
    ensures
        threads == thread_count(cpus),
{
    if cpus > i32::MAX as usize {
        i32::MAX
    } else {
        cpus as i32
    }
}

fn subcompactions_for(cpus: usize) -> (count: u32)
    ensures
        count == subcompaction_count(cpus),
{
    if cpus > u32::MAX as usize {
        u32::MAX
    } else {
        cpus as u32
    }
}

/// The preset for reading, for a given number of processors.
///
/// With `fast_open_for_iteration` the index and filter blocks go to the
/// block cache and no bloom filter is set up, which suits scans; without
/// it a bloom filter speeds up point reads.
pub fn read_only_settings_for(fast_open_for_iteration: bool, cpus: usize) -> (settings:
    StoreSettings)
    ensures
        settings == read_only_plan(fast_open_for_iteration, cpus),
{
    StoreSettings {
        read_only: true,
        create_if_missing: false,
        unordered_write: false,
        compression: None,
        bottommost_compression: None,
        target_file_size_base: None,
        table: TableSettings {
            cache_index_and_filter_blocks: fast_open_for_iteration,
            bloom_filter_bits_per_key: if fast_open_for_iteration {
                None
            } else {
                Some(BLOOM_BITS_PER_KEY)
            },
            block_size: None,
        },
        max_file_opening_threads: threads_for(cpus),
        bulk: None,
    }
}

/// The preset for regular writing, for a given number of processors.
pub fn write_settings_for(cpus: usize) -> (settings: StoreSettings)
    ensures
        settings == write_plan(cpus),
{
    StoreSettings {
        read_only: false,
        create_if_missing: true,
        unordered_write: true,
        compression: Some(Compression::Lz4),
        bottommost_compression: Some(Compression::Zstd),
        target_file_size_base: Some(TARGET_FILE_SIZE_BASE),
        table: TableSettings {
            cache_index_and_filter_blocks: false,
            bloom_filter_bits_per_key: Some(BLOOM_BITS_PER_KEY),
            block_size: Some(BLOCK_SIZE),
        },
        max_file_opening_threads: threads_for(cpus),
        bulk: None,
    }
}

/// The preset for bulk ingestion, for a given number of processors.
///
/// Without `max_subcompactions` a compaction is split into as many
/// subcompactions as there are processors.
pub fn bulk_ingestion_settings_for(
    num_levels: Option<i32>,
    max_subcompactions: Option<u32>,
    cpus: usize,
) -> (settings: StoreSettings)
    ensures
        settings == bulk_ingestion_plan(num_levels, max_subcompactions, cpus),
{
    let mut settings = write_settings_for(cpus);
    settings.bulk = Some(
        BulkSettings {
            num_levels,
            max_write_buffer_number: BULK_FLUSH_THREADS,
            max_background_jobs: BULK_FLUSH_THREADS,
            max_background_compactions: 0,
            max_background_flushes: BULK_FLUSH_THREADS,
            low_priority_threads: 0,
            high_priority_threads: BULK_FLUSH_THREADS,
            disable_auto_compactions: true,
            max_subcompactions: match max_subcompactions {
                Some(n) => n,
                None => subcompactions_for(cpus),
            },
            max_compaction_bytes: MAX_COMPACTION_BYTES,
        },
    );
    settings
}

/// The preset for reading on this machine.
pub fn read_only_settings(fast_open_for_iteration: bool) -> (settings: StoreSettings)
    ensures
        exists|cpus: usize| cpus >= 1 && settings == read_only_plan(fast_open_for_iteration, cpus),
{
    let cpus = available_cpus();
    read_only_settings_for(fast_open_for_iteration, cpus)
}

/// The preset for regular writing on this machine.
pub fn write_settings() -> (settings: StoreSettings)
    ensures
        exists|cpus: usize| cpus >= 1 && settings == write_plan(cpus),
{
    let cpus = available_cpus();
    write_settings_for(cpus)
}

/// The preset for bulk ingestion on this machine.
pub fn bulk_ingestion_settings(
    num_levels: Option<i32>,
    max_subcompactions: Option<u32>,
) -> (settings: StoreSettings)
    ensures
        exists|cpus: usize|
            cpus >= 1 && settings == bulk_ingestion_plan(num_levels, max_subcompactions, cpus),
{
    let cpus = available_cpus();
    bulk_ingestion_settings_for(num_levels, max_subcompactions, cpus)
}

} // verus!
