//! `pulsearc-db`: an embedded, ordered key-value store.

pub mod block;
pub mod cache;
pub mod coding;
pub mod comparator;
pub mod crc32c;
pub mod db_impl;
pub mod db_iter;
pub mod destroy;
pub mod env;
pub mod filename;
pub mod filter;
pub mod filter_block;
pub mod format;
pub mod hash;
pub mod layout;
pub mod log;
pub mod memtable;
pub mod merging_iter;
pub mod prelude;
pub mod repair;
pub mod skiplist;
pub mod slice;
pub mod snappy;
pub mod status;
pub mod table;
pub mod table_cache;
pub mod text;
pub mod two_level_iter;
pub mod version_set;
pub mod write_batch;
