//! How a database is opened, read and written.

use vstd::prelude::*;

use std::sync::Arc;

use crate::block::data::Block;
use crate::cache::Cache;
use crate::cache::ShardedLRUCache;
use crate::db_iter::DbIterator;
use crate::env::SyncMode;
use crate::filter::BloomFilterPolicy;
use crate::filter::FilterPolicy;
use crate::format::SequenceNumber;
use crate::status;
use crate::table::Compressor;
use crate::table::NoCompressor;
use crate::write_batch::WriteBatch;

verus! {

pub const DEFAULT_WRITE_BUFFER_SIZE: usize = 4194304;

pub const DEFAULT_BLOCK_CACHE_SIZE: usize = 8388608;

pub const DEFAULT_MAX_OPEN_FILES: usize = 1000;

/// The version of the format on disk. A change that older code cannot read raises
/// it.
pub const MAJOR_VERSION: u32 = 1;

/// Raised by additions that older code can read.
pub const MINOR_VERSION: u32 = 18;

/// Takes messages of the database.
pub trait Logger: Send + Sync {
    fn log(&self, message: &str);
}

/// How a database is opened.
pub struct Options<
    P: FilterPolicy = BloomFilterPolicy,
    Z: Compressor = NoCompressor,
    B: Cache<Arc<Block>> = ShardedLRUCache<Arc<Block>>,
> {
    /// The size at which a memtable is written to a table.
    pub write_buffer_size: usize,
    /// The size of the block cache, unless one is given.
    pub block_cache_size: usize,
    /// How many tables are kept open.
    pub max_open_files: usize,
    /// Whether a missing database is made.
    pub create_if_missing: bool,
    /// Whether an existing database is refused.
    pub error_if_exists: bool,
    /// Whether all checksums are checked, and damaged logs refused.
    pub paranoid_checks: bool,
    /// The filters of the tables.
    pub filter_policy: Option<Arc<P>>,
    /// The cache of blocks. It may be a handle to one that other databases use too.
    pub block_cache: Option<B>,
    /// The compression of the tables.
    pub compressor: Option<Arc<Z>>,
    /// The size of a block before compression.
    pub block_size: usize,
    /// How many keys share a restart point in a block.
    pub block_restart_interval: usize,
    /// Where messages go.
    pub info_log: Option<Arc<dyn Logger>>,
    /// How far syncs reach.
    pub sync_mode: SyncMode,
}

impl<P: FilterPolicy, Z: Compressor, B: Cache<Arc<Block>>> Default for Options<P, Z, B> {
    fn default() -> (options: Self)
        ensures
            options.write_buffer_size == DEFAULT_WRITE_BUFFER_SIZE,
            options.block_cache_size == DEFAULT_BLOCK_CACHE_SIZE,
            options.max_open_files == DEFAULT_MAX_OPEN_FILES,
            options.create_if_missing,
            !options.error_if_exists,
            !options.paranoid_checks,
            options.filter_policy is None,
            options.block_cache is None,
            options.compressor is None,
            options.block_size == crate::table::DEFAULT_BLOCK_SIZE,
            options.block_restart_interval == crate::table::DEFAULT_BLOCK_RESTART_INTERVAL,
            options.info_log is None,
            options.sync_mode == SyncMode::Data,
    {
        Options {
            write_buffer_size: DEFAULT_WRITE_BUFFER_SIZE,
            block_cache_size: DEFAULT_BLOCK_CACHE_SIZE,
            max_open_files: DEFAULT_MAX_OPEN_FILES,
            create_if_missing: true,
            error_if_exists: false,
            paranoid_checks: false,
            filter_policy: None,
            block_cache: None,
            compressor: None,
            block_size: crate::table::DEFAULT_BLOCK_SIZE,
            block_restart_interval: crate::table::DEFAULT_BLOCK_RESTART_INTERVAL,
            info_log: None,
            sync_mode: SyncMode::Data,
        }
    }
}

/// The state of the database at a point in time.
#[derive(Debug)]
pub struct Snapshot {
    sequence: SequenceNumber,
}

impl Snapshot {
    /// The sequence number up to which updates are seen.
    pub closed spec fn at(&self) -> u64 {
        self.sequence
    }

    pub fn new(sequence: SequenceNumber) -> (snapshot: Self)
        ensures
            snapshot.at() == sequence,
    {
        Snapshot { sequence }
    }

    pub fn sequence(&self) -> (sequence: SequenceNumber)
        ensures
            sequence == self.at(),
    {
        self.sequence
    }
}

/// How a key is read.
#[derive(Debug)]
pub struct ReadOptions {
    /// What is read: the state of a snapshot, or the latest.
    pub snapshot: Option<Arc<Snapshot>>,
    /// Whether checksums are checked.
    pub verify_checksums: bool,
    /// Whether blocks that are read are kept in the cache.
    pub fill_cache: bool,
}

impl Default for ReadOptions {
    fn default() -> (options: Self)
        ensures
            options.snapshot is None,
            !options.verify_checksums,
            options.fill_cache,
    {
        ReadOptions { snapshot: None, verify_checksums: false, fill_cache: true }
    }
}

/// How a batch is written.
#[derive(Debug, Copy, Clone)]
pub struct WriteOptions {
    /// Whether the log is synced before the write returns.
    pub sync: bool,
}

impl Default for WriteOptions {
    fn default() -> (options: Self)
        ensures
            !options.sync,
    {
        WriteOptions { sync: false }
    }
}

/// The keys from `start` on that are before `limit`.
#[derive(Debug)]
pub struct Range {
    pub start: Vec<u8>,
    pub limit: Vec<u8>,
}

/// What the tables of a level took to write.
#[derive(Debug, Copy, Clone)]
pub struct CompactionStats {
    pub micros: i64,
    pub bytes_read: i64,
    pub bytes_written: i64,
}

impl Default for CompactionStats {
    fn default() -> (stats: Self)
        ensures
            stats == (CompactionStats { micros: 0, bytes_read: 0, bytes_written: 0 }),
    {
        CompactionStats { micros: 0, bytes_read: 0, bytes_written: 0 }
    }
}

/// Whether a sum can be told in 64 bits.
pub open spec fn sum_fits(a: i64, b: i64) -> bool {
    i64::MIN <= a + b <= i64::MAX
}

impl CompactionStats {
    /// Adds what another table took.
    pub fn add(&mut self, other: CompactionStats)
        requires
            sum_fits(old(self).micros, other.micros),
            sum_fits(old(self).bytes_read, other.bytes_read),
            sum_fits(old(self).bytes_written, other.bytes_written),
        ensures
            final(self).micros == old(self).micros + other.micros,
            final(self).bytes_read == old(self).bytes_read + other.bytes_read,
            final(self).bytes_written == old(self).bytes_written + other.bytes_written,
    {
        self.micros = self.micros + other.micros;
        self.bytes_read = self.bytes_read + other.bytes_read;
        self.bytes_written = self.bytes_written + other.bytes_written;
    }
}

/// What a database offers.
pub trait DB {
    /// The iterators over its keys.
    type Iterator: DbIterator;

    /// Stores a value under a key.
    fn put(&self, options: &WriteOptions, key: &[u8], value: &[u8]) -> status::Result<()>;

    /// Deletes a key.
    fn delete(&self, options: &WriteOptions, key: &[u8]) -> status::Result<()>;

    /// Applies a batch, all of it or nothing.
    fn write(&self, options: &WriteOptions, batch: &WriteBatch) -> status::Result<()>;

    /// Looks up a key.
    fn get(&self, options: &ReadOptions, key: &[u8]) -> status::Result<Option<Vec<u8>>>;

    /// An iterator over the keys.
    fn new_iterator(&self, options: &ReadOptions) -> status::Result<Self::Iterator>;

    /// Holds on to the state as it is.
    fn get_snapshot(&self) -> Arc<Snapshot>;

    /// Lets go of a state.
    fn release_snapshot(&self, snapshot: Arc<Snapshot>);

    /// What is known under a name.
    fn get_property(&self, property: &str) -> Option<String>;

    /// About how many bytes the keys of each range take.
    fn get_approximate_sizes(&self, ranges: &[Range]) -> Vec<u64>;

    /// Compacts the tables of a range of keys.
    fn compact_range(&self, begin: Option<&[u8]>, end: Option<&[u8]>) -> status::Result<()>;
}

} // verus!
