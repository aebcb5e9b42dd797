//! Prefix-compressed key-value block.

pub mod block_builder;
pub mod block_entry;
pub mod block_handle;
pub mod block_iter;
pub mod block_restart_trailer;
pub mod block_trailer;
pub mod data;

pub use block_builder::BlockBuilder;
pub use block_builder::DEFAULT_RESTART_INTERVAL;
pub use block_entry::BlockEntry;
pub use block_handle::BlockHandle;
pub use block_iter::BlockIter;
pub use block_restart_trailer::BlockRestartTrailer;
pub use block_trailer::BlockTrailer;
pub use data::Block;
