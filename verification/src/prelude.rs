//! What most users of the library need.

pub use crate::cache::Cache;
pub use crate::cache::CacheHandle;
pub use crate::cache::ShardedLRUCache;
pub use crate::comparator::BytewiseComparator;
pub use crate::comparator::Comparator;
pub use crate::db_impl::DBImplCore;
pub use crate::db_impl::Logger;
pub use crate::db_impl::Options;
pub use crate::db_impl::Range;
pub use crate::db_impl::ReadOptions;
pub use crate::db_impl::Snapshot;
pub use crate::db_impl::WriteOptions;
pub use crate::db_impl::DB;
pub use crate::db_iter::DBIter;
pub use crate::db_iter::DbIterator;
pub use crate::destroy::destroy_db;
pub use crate::env::Env;
pub use crate::env::MemEnv;
pub use crate::env::SyncMode;
pub use crate::filter::BloomFilterPolicy;
pub use crate::filter::FilterPolicy;
pub use crate::repair::repair_db;
pub use crate::repair::repair_db_with_options;
pub use crate::repair::RepairReport;
pub use crate::slice::Slice;
pub use crate::snappy::SnappyCompressor;
pub use crate::status::Code;
pub use crate::status::Result;
pub use crate::status::Status;
pub use crate::table::Compressor;
pub use crate::write_batch::WriteBatch;
