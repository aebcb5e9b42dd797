//! On-disk table: builder and reader.

pub mod draft;
pub mod laws;
pub mod reader;
pub mod stored_block;
pub mod table_builder;
pub mod table_footer;
pub mod table_iterator;

pub use reader::Table;
pub use reader::VecRandomAccessFile;
pub use stored_block::Compressor;
pub use stored_block::NoCompressor;
pub use stored_block::BLOCK_TRAILER_SIZE;
pub use table_builder::TableBuilder;
pub use table_builder::TableFileBuilder;
pub use table_builder::DEFAULT_BLOCK_RESTART_INTERVAL;
pub use table_builder::DEFAULT_BLOCK_SIZE;
pub use table_footer::TableFooter;
pub use table_iterator::TableIterator;
