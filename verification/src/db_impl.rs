//! The database.

pub mod compaction;
pub mod enter;
pub mod entries_for;
pub mod entry_sort;
pub mod flush;
pub mod level_iter;
pub mod manual;
pub mod numbers;
pub mod options;
pub mod output_laws;
pub mod outputs;
pub mod property;
pub mod property_laws;
pub mod read;
pub mod recover;
pub mod recovery;
pub mod recovery_laws;
pub mod scan;
pub mod scan_laws;
pub mod session;
pub mod sizes;
pub mod sizes_laws;
pub mod state;
pub mod state_laws;
pub mod stored;
pub mod table_input;
pub mod table_output;
pub mod told;
pub mod wal;
pub mod wal_laws;
pub mod write_queue;

pub use options::CompactionStats;
pub use options::Logger;
pub use options::Options;
pub use options::Range;
pub use options::ReadOptions;
pub use options::Snapshot;
pub use options::WriteOptions;
pub use options::DB;
pub use state::DBImplCore;
