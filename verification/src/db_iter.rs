//! Iterators over sorted entries.
//!
//! [`DbIterator`] is what every source of sorted entries offers. [`DBIter`] shows
//! the user keys of a source of internal keys.

pub mod db_iter;
pub mod db_iterator;
pub mod entries_iter;
pub mod read_sampler;
pub mod seen;
pub mod user_view;

pub use db_iter::DBIter;
pub use db_iter::Direction;
pub use db_iterator::DbIterator;
