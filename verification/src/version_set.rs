//! What is known of the tables of a database.

use vstd::prelude::*;

verus! {

/// What a table knows of a key.
#[derive(Debug)]
pub enum LookupResult {
    /// The newest visible entry is this value.
    Found(Vec<u8>),
    /// The newest visible entry is a deletion: older tables need not be asked.
    Deleted,
    /// There is no visible entry.
    NotFound,
}

/// What is known of a table.
#[derive(Debug)]
pub struct FileMetaData {
    pub number: u64,
    pub file_size: u64,
    /// The first internal key.
    pub smallest: Vec<u8>,
    /// The last internal key.
    pub largest: Vec<u8>,
}

/// What is known of a table, by the bytes of its keys.
pub struct FileModel {
    pub number: u64,
    pub file_size: u64,
    pub smallest: Seq<u8>,
    pub largest: Seq<u8>,
}

impl FileMetaData {
    /// What is known.
    pub open spec fn model(&self) -> FileModel {
        FileModel {
            number: self.number,
            file_size: self.file_size,
            smallest: self.smallest@,
            largest: self.largest@,
        }
    }
}

impl Clone for FileMetaData {
    fn clone(&self) -> (copy: Self)
        ensures
            copy.model() == self.model(),
    {
        FileMetaData {
            number: self.number,
            file_size: self.file_size,
            smallest: vstd::slice::slice_to_vec(self.smallest.as_slice()),
            largest: vstd::slice::slice_to_vec(self.largest.as_slice()),
        }
    }
}

/// A table that a level gets.
#[derive(Debug)]
pub struct NewFile {
    pub level: u32,
    pub meta: FileMetaData,
}

/// A table that a level loses.
#[derive(Debug, Copy, Clone, PartialEq, Eq, Structural)]
pub struct DeletedFile {
    pub level: u32,
    pub number: u64,
}

/// Where the next compaction of a level starts.
#[derive(Debug)]
pub struct CompactPointer {
    pub level: u32,
    pub key: Vec<u8>,
}

/// A change of the set of tables.
#[derive(Debug)]
pub struct VersionEdit {
    /// The name of the comparator.
    pub comparator: Option<Vec<u8>>,
    /// The log from which on logs are needed.
    pub log_number: Option<u64>,
    pub compact_pointers: Vec<CompactPointer>,
    pub deleted_files: Vec<DeletedFile>,
    pub new_files: Vec<NewFile>,
}

impl Default for VersionEdit {
    fn default() -> (edit: Self)
        ensures
            edit.comparator is None,
            edit.log_number is None,
            edit.compact_pointers@.len() == 0,
            edit.deleted_files@.len() == 0,
            edit.new_files@.len() == 0,
    {
        VersionEdit {
            comparator: None,
            log_number: None,
            compact_pointers: Vec::new(),
            deleted_files: Vec::new(),
            new_files: Vec::new(),
        }
    }
}

} // verus!
