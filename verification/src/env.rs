//! Files as the engine sees them.
//!
//! [`WritableFile`], [`RandomAccessFile`] and [`SequentialFile`] are handles on
//! open files, and [`Env`] is what opens, lists, renames and deletes them. A path is
//! compared as it is written, part by part between slashes. [`MemEnv`] keeps all
//! files in memory.

use vstd::prelude::*;

use std::sync::Arc;

use crate::status;
use crate::status::Status;
use crate::text;

pub mod laws;

verus! {

/// What a file holds.
pub type FileBytes = Seq<u8>;

/// The characters of a path.
pub type PathText = Seq<char>;

/// A number of bytes.
pub type ByteCount = nat;

/// Files by their paths.
pub type FileMap = Map<Seq<char>, Seq<u8>>;

/// A number of paths.
pub type PathSet = Set<Seq<char>>;

/// How far a sync reaches.
#[derive(Debug, Copy, Clone, PartialEq, Eq, Structural)]
pub enum SyncMode {
    /// A full hardware barrier: what was synced outlives a loss of power.
    Full,
    /// Data only: what was synced outlives a crash of the system.
    Data,
}

impl Default for SyncMode {
    fn default() -> (mode: Self)
        ensures
            mode == SyncMode::Data,
    {
        SyncMode::Data
    }
}

/// A file that is being written.
pub trait WritableFile {
    /// The bytes that were written.
    spec fn written(&self) -> FileBytes;

    /// How many of the bytes are known to be on stable storage.
    spec fn synced(&self) -> ByteCount;

    /// How many syncs failed.
    spec fn failed_syncs(&self) -> ByteCount;

    /// Whether writes succeed.
    spec fn reliable(&self) -> bool;

    /// Appends bytes. No file is longer than a 64-bit offset can tell.
    fn append(&mut self, data: &[u8]) -> (outcome: status::Result<()>)
        ensures
            final(self).failed_syncs() == old(self).failed_syncs(),
            outcome is Ok ==> final(self).written() == old(self).written() + data@ && final(
                self).written().len() <= u64::MAX,
            outcome is Ok ==> final(self).reliable() == old(self).reliable() && final(
                self).synced() >= old(self).synced(),
            old(self).reliable() ==> outcome is Ok,
    ;

    fn flush(&mut self) -> (outcome: status::Result<()>)
        ensures
            final(self).failed_syncs() == old(self).failed_syncs(),
            outcome is Ok ==> final(self).written() == old(self).written() && final(
                self).reliable() == old(self).reliable() && final(self).synced() >= old(
                self).synced(),
            old(self).reliable() ==> outcome is Ok,
    ;

    /// Forces all bytes to stable storage.
    fn sync(&mut self) -> (outcome: status::Result<()>)
        ensures
            final(self).failed_syncs() == if outcome is Ok {
                old(self).failed_syncs()
            } else {
                old(self).failed_syncs() + 1
            },
            outcome is Ok ==> final(self).written() == old(self).written() && final(
                self).reliable() == old(self).reliable(),
            outcome is Ok ==> final(self).synced() == final(self).written().len(),
            old(self).reliable() ==> outcome is Ok,
    ;

    fn close(&mut self) -> (outcome: status::Result<()>)
        ensures
            final(self).failed_syncs() == old(self).failed_syncs(),
            outcome is Ok ==> final(self).written() == old(self).written() && final(
                self).synced() >= old(self).synced(),
            old(self).reliable() ==> outcome is Ok,
    ;
}

/// A file that is read at any place.
pub trait RandomAccessFile {
    /// The bytes of the file.
    spec fn contents(&self) -> FileBytes;

    /// Whether reads within the file succeed.
    spec fn reliable(&self) -> bool;

    /// Reads `n` bytes at `offset`; an error unless all of them are there.
    fn read_at(&self, offset: u64, n: usize) -> (read: status::Result<Vec<u8>>)
        ensures
            read matches Ok(bytes) ==> offset + n <= self.contents().len() && bytes@
                == self.contents().subrange(offset as int, offset + n),
            self.reliable() && offset + n <= self.contents().len() ==> read is Ok,
    ;
}

/// A file that is read from front to back.
pub trait SequentialFile {
    /// The bytes that are still to come.
    spec fn rest(&self) -> FileBytes;

    /// Whether reads succeed.
    spec fn reliable(&self) -> bool;

    /// Reads the next `n` bytes, or as many as are left.
    fn read(&mut self, n: usize) -> (read: status::Result<Vec<u8>>)
        ensures
            final(self).reliable() == old(self).reliable(),
            read matches Ok(bytes) ==> bytes@ == next_bytes(old(self).rest(), n as int)
                && final(self).rest() == rest_after(old(self).rest(), n as int),
            old(self).reliable() ==> read is Ok,
    ;

    /// Passes over the next `n` bytes, or as many as are left.
    fn skip(&mut self, n: u64) -> (outcome: status::Result<()>)
        ensures
            final(self).reliable() == old(self).reliable(),
            outcome is Ok ==> final(self).rest() == rest_after(old(self).rest(), n as int),
    ;
}

/// The first `n` bytes, or all if there are fewer.
pub open spec fn next_bytes(bytes: Seq<u8>, n: int) -> Seq<u8> {
    if n <= bytes.len() {
        bytes.take(n)
    } else {
        bytes
    }
}

/// What follows the first `n` bytes.
pub open spec fn rest_after(bytes: Seq<u8>, n: int) -> Seq<u8> {
    if n <= bytes.len() {
        bytes.skip(n)
    } else {
        Seq::empty()
    }
}

/// Passes over the next `n` bytes by reading them in pieces.
pub fn skip_by_reading<F: SequentialFile>(file: &mut F, n: u64) -> (outcome: status::Result<()>)
    ensures
        final(file).reliable() == old(file).reliable(),
        outcome is Ok ==> final(file).rest() == rest_after(old(file).rest(), n as int),
        old(file).reliable() ==> outcome is Ok,
{
    let ghost start = file.rest();
    let mut left: u64 = n;
    assert(rest_after(start, 0) =~= start);
    while left > 0
        invariant
            left <= n,
            file.reliable() == old(file).reliable(),
            start == old(file).rest(),
            file.rest() == rest_after(start, n - left),
        decreases left,
    {
        let take: usize = if left < 8192 {
            left as usize
        } else {
            8192
        };
        let ghost before = file.rest();
        let got = match file.read(take) {
            Err(error) => {
                return Err(error);
            },
            Ok(got) => got,
        };
        if got.len() == 0 {
            assert(before =~= Seq::<u8>::empty());
            assert(rest_after(start, n as int) =~= Seq::<u8>::empty());
            assert(rest_after(before, take as int) =~= Seq::<u8>::empty());
            return Ok(());
        }
        proof {
            assert(got@.len() <= take);
            if got@.len() < take {
                assert(rest_after(before, take as int) =~= Seq::<u8>::empty());
            }
            assert(file.rest() =~= rest_after(start, n - (left - got@.len())));
        }
        left = left - got.len() as u64;
    }
    Ok(())
}

/// Keeps a database to one user. Letting go of it releases the lock.
pub trait FileLock {
    /// The path that is locked.
    spec fn locked_path(&self) -> PathText;
}

// ---------------------------------------------------------------------------
// Files in memory
// ---------------------------------------------------------------------------

/// A file in memory that is being written.
pub struct MemWritableFile {
    buf: Vec<u8>,
    closed: bool,
    failures: Ghost<nat>,
}

impl MemWritableFile {
    /// Whether the file was closed.
    pub closed spec fn is_closed(&self) -> bool {
        self.closed
    }

    /// An empty file.
    pub fn new() -> (file: Self)
        ensures
            file.written() == Seq::<u8>::empty(),
            file.failed_syncs() == 0,
            !file.is_closed(),
    {
        MemWritableFile { buf: Vec::new(), closed: false, failures: Ghost(0) }
    }

    /// The bytes that were written.
    pub fn bytes(&self) -> (bytes: &[u8])
        ensures
            bytes@ == self.written(),
    {
        self.buf.as_slice()
    }

    fn ensure_open(&self, op: &str) -> (outcome: status::Result<()>)
        ensures
            outcome is Ok == !self.closed,
            outcome matches Err(e) ==> e.says(
                status::Code::IoError,
                op@ + ": writable file is closed"@,
            ),
    {
        if self.closed {
            let message = text::joined(op, ": writable file is closed");
            Err(Status::io_error(message.as_str()))
        } else {
            Ok(())
        }
    }
}

impl WritableFile for MemWritableFile {
    closed spec fn written(&self) -> Seq<u8> {
        self.buf@
    }

    /// Memory is all the storage there is.
    open spec fn synced(&self) -> ByteCount {
        self.written().len()
    }

    closed spec fn failed_syncs(&self) -> ByteCount {
        self.failures@
    }

    open spec fn reliable(&self) -> bool {
        !self.is_closed()
    }

    fn append(&mut self, data: &[u8]) -> (outcome: status::Result<()>)
        ensures
            outcome is Ok == !old(self).is_closed(),
            final(self).is_closed() == old(self).is_closed(),
            outcome matches Err(e) ==> final(self).written() == old(self).written() && e.says(
                status::Code::IoError,
                "append"@ + ": writable file is closed"@,
            ),
    {
        match self.ensure_open("append") {
            Err(error) => Err(error),
            Ok(_) => {
                self.buf.extend_from_slice(data);
                let length: usize = self.buf.len();
                assert(length == self.buf@.len());
                assert(self.buf@ =~= old(self).buf@ + data@);
                Ok(())
            },
        }
    }

    fn flush(&mut self) -> (outcome: status::Result<()>)
        ensures
            *final(self) == *old(self),
            outcome is Ok == !old(self).is_closed(),
            outcome matches Err(e) ==> e.says(
                status::Code::IoError,
                "flush"@ + ": writable file is closed"@,
            ),
    {
        self.ensure_open("flush")
    }

    fn sync(&mut self) -> (outcome: status::Result<()>)
        ensures
            final(self).written() == old(self).written(),
            final(self).is_closed() == old(self).is_closed(),
            outcome is Ok == !old(self).is_closed(),
            outcome matches Err(e) ==> e.says(
                status::Code::IoError,
                "sync"@ + ": writable file is closed"@,
            ),
    {
        let outcome = self.ensure_open("sync");
        proof {
            if outcome is Err {
                self.failures = Ghost(self.failures@ + 1);
            }
        }
        outcome
    }

    fn close(&mut self) -> (outcome: status::Result<()>)
        ensures
            outcome is Ok,
            final(self).is_closed(),
    {
        self.closed = true;
        Ok(())
    }
}

/// A file in memory that is read at any place.
#[derive(Debug)]
pub struct MemRandomAccessFile {
    path: String,
    data: Arc<Vec<u8>>,
}

impl MemRandomAccessFile {
    /// The path that the file was opened by.
    pub closed spec fn opened_path(&self) -> Seq<char> {
        self.path@
    }

    pub fn new(path: &str, data: Vec<u8>) -> (file: Self)
        ensures
            file.opened_path() == path@,
            file.contents() == data@,
    {
        MemRandomAccessFile { path: path.to_owned(), data: Arc::new(data) }
    }
}

/// What a read reports that is not within the file: where it would start, where it would
/// end, and whether either of these is more than an index can tell.
pub open spec fn bad_read_text(path: Seq<char>, offset: nat, n: nat) -> Seq<char> {
    if offset > usize::MAX {
        "random read offset overflow: "@ + path
    } else if offset + n > usize::MAX {
        "random read length overflow: "@ + path
    } else {
        short_read_text(path, offset, n)
    }
}

/// What a read beyond the end reports.
pub open spec fn short_read_text(path: Seq<char>, offset: nat, n: nat) -> Seq<char> {
    "short random read "@ + path + " @"@ + text::decimal(offset) + "+"@ + text::decimal(n)
}

impl RandomAccessFile for MemRandomAccessFile {
    closed spec fn contents(&self) -> Seq<u8> {
        self.data@
    }

    open spec fn reliable(&self) -> bool {
        true
    }

    fn read_at(&self, offset: u64, n: usize) -> (read: status::Result<Vec<u8>>)
        ensures
            read matches Err(e) ==> self.contents().len() < offset + n && (e.says(
                status::Code::IoError,
                bad_read_text(self.opened_path(), offset as nat, n as nat),
            )),
    {
        let length: u64 = self.data.len() as u64;
        if offset > usize::MAX as u64 {
            let message = text::joined("random read offset overflow: ", self.path.as_str());
            return Err(Status::io_error(message.as_str()));
        }
        if n > usize::MAX - offset as usize {
            let message = text::joined("random read length overflow: ", self.path.as_str());
            return Err(Status::io_error(message.as_str()));
        }
        if offset > length || length - offset < n as u64 {
            let mut message = text::joined("short random read ", self.path.as_str());
            message.append(" @");
            text::push_decimal(&mut message, offset);
            message.append("+");
            text::push_decimal(&mut message, n as u64);
            assert(message@ =~= short_read_text(self.path@, offset as nat, n as nat));
            return Err(Status::io_error(message.as_str()));
        }
        let start: usize = offset as usize;
        Ok(vstd::slice::slice_to_vec(&self.data.as_slice()[start..start + n]))
    }
}

/// A file in memory that is read from front to back.
#[derive(Debug)]
pub struct MemSequentialFile {
    data: Arc<Vec<u8>>,
    offset: usize,
}

impl MemSequentialFile {
    /// The offset lies within the file.
    #[verifier::type_invariant]
    spec fn inv(&self) -> bool {
        self.offset <= self.data@.len()
    }

    pub fn new(data: Vec<u8>) -> (file: Self)
        ensures
            file.rest() == data@,
    {
        let file = MemSequentialFile { data: Arc::new(data), offset: 0 };
        assert(file.rest() =~= data@);
        file
    }

    /// Where the next `n` bytes end, or where the file does.
    fn end_of(&self, n: u64) -> (end: usize)
        ensures
            self.offset <= end <= self.data@.len(),
            end == if n <= self.rest().len() {
                self.offset + n
            } else {
                self.data@.len() as int
            },
            self.rest() == self.data@.skip(self.offset as int),
    {
        proof {
            use_type_invariant(self);
        }
        let length: usize = self.data.len();
        if n <= (length - self.offset) as u64 {
            self.offset + n as usize
        } else {
            length
        }
    }
}

impl SequentialFile for MemSequentialFile {
    closed spec fn rest(&self) -> Seq<u8> {
        self.data@.skip(self.offset as int)
    }

    open spec fn reliable(&self) -> bool {
        true
    }

    fn read(&mut self, n: usize) -> (read: status::Result<Vec<u8>>) {
        let end = self.end_of(n as u64);
        let start: usize = self.offset;
        let bytes = vstd::slice::slice_to_vec(&self.data.as_slice()[start..end]);
        self.offset = end;
        proof {
            let before = old(self).rest();
            assert(bytes@ =~= next_bytes(before, n as int));
            assert(self.rest() =~= rest_after(before, n as int));
        }
        Ok(bytes)
    }

    fn skip(&mut self, n: u64) -> (outcome: status::Result<()>)
        ensures
            outcome is Ok,
    {
        self.offset = self.end_of(n);
        assert(self.rest() =~= rest_after(old(self).rest(), n as int));
        Ok(())
    }
}

// ---------------------------------------------------------------------------
// Environments
// ---------------------------------------------------------------------------

/// Whether a path is a directory or lies in it, however deep.
pub open spec fn lies_under(path: Seq<char>, dir: Seq<char>) -> bool {
    path == dir || (dir + "/"@).is_prefix_of(path)
}

/// Where the part of a path that starts at `from` ends.
pub open spec fn part_end(path: Seq<char>, from: int) -> int
    decreases path.len() - from,
{
    if from < 0 || from >= path.len() || path[from] == '/' {
        from
    } else {
        part_end(path, from + 1)
    }
}

/// The entry of `dir` that leads to a path: its first part below `dir`.
pub open spec fn child_towards(path: Seq<char>, dir: Seq<char>) -> Option<Seq<char>> {
    let start = dir.len() + 1;
    if (dir + "/"@).is_prefix_of(path) && part_end(path, start as int) > start {
        Some(path.take(part_end(path, start as int)))
    } else {
        None
    }
}

/// Whether `child` leads from `dir` to some file.
pub open spec fn is_child(
    files: Map<Seq<char>, Seq<u8>>,
    dir: Seq<char>,
    child: Seq<char>,
) -> bool {
    exists|path: Seq<char>| #[trigger]
        files.contains_key(path) && child_towards(path, dir) == Some(child)
}

/// The texts of some strings.
pub open spec fn texts(strings: Seq<String>) -> Seq<Seq<char>> {
    Seq::new(strings.len(), |i: int| strings[i]@)
}

/// The files of which none lies in `dir`.
pub open spec fn files_outside(files: Map<Seq<char>, Seq<u8>>, dir: Seq<char>) -> Map<
    Seq<char>,
    Seq<u8>,
> {
    Map::new(
        |path: Seq<char>| files.contains_key(path) && !lies_under(path, dir),
        |path: Seq<char>| files[path],
    )
}

/// Whether two sets of files agree but on what lies in `dir`.
pub open spec fn agree_outside(
    before: Map<Seq<char>, Seq<u8>>,
    after: Map<Seq<char>, Seq<u8>>,
    dir: Seq<char>,
) -> bool {
    forall|path: Seq<char>|
        !#[trigger] lies_under(path, dir) ==> before.contains_key(path) == after.contains_key(path)
            && (before.contains_key(path) ==> before[path] == after[path])
}

/// Whether two sets of files agree but on one path.
pub open spec fn agree_but(
    before: Map<Seq<char>, Seq<u8>>,
    after: Map<Seq<char>, Seq<u8>>,
    spared: Seq<char>,
) -> bool {
    forall|path: Seq<char>|
        path != spared ==> #[trigger] before.contains_key(path) == after.contains_key(path)
            && before[path] == after[path]
}

/// Files that agree but on one path with some, which agree but on it with others, agree
/// but on it with these.
pub proof fn lemma_agree_but(
    first: Map<Seq<char>, Seq<u8>>,
    second: Map<Seq<char>, Seq<u8>>,
    third: Map<Seq<char>, Seq<u8>>,
    spared: Seq<char>,
)
    requires
        agree_but(first, second, spared),
        agree_but(second, third, spared),
    ensures
        agree_but(first, third, spared),
{
    assert forall|path: Seq<char>| path != spared implies #[trigger] first.contains_key(path)
        == third.contains_key(path) && first[path] == third[path] by {
        assert(second.contains_key(path) == third.contains_key(path));
    }
}

/// Whether what was on stable storage still is, but for one path.
pub open spec fn stay_synced(before: PathSet, after: PathSet, spared: Seq<char>) -> bool {
    forall|path: Seq<char>|
        path != spared && before.contains(path) ==> #[trigger] after.contains(path)
}

/// A file system.
pub trait Env: Sized {
    type Writable: WritableFile;

    type RandomAccess: RandomAccessFile;

    type Sequential: SequentialFile;

    type Lock: FileLock;

    spec fn wf(&self) -> bool;

    /// The files, by their paths.
    spec fn files(&self) -> FileMap;

    /// The paths that are locked.
    spec fn locks(&self) -> PathSet;

    /// The paths of files that are known to be on stable storage as they are.
    spec fn synced(&self) -> PathSet;

    /// Whether each operation that can succeed does.
    spec fn reliable(&self) -> bool;

    /// Whether files that are there can be deleted.
    spec fn deletes(&self) -> bool;

    /// Opens a file for writing. What it held before is dropped.
    fn new_writable_file(&mut self, path: &str) -> (opened: status::Result<Self::Writable>)
        requires
            old(self).wf(),
        ensures
            final(self).wf(),
            final(self).locks() == old(self).locks(),
            final(self).reliable() == old(self).reliable(),
            final(self).deletes() == old(self).deletes(),
            opened matches Ok(file) ==> file.written() == Seq::<u8>::empty() && final(self).files()
                == old(self).files().insert(path@, Seq::empty()),
            opened is Err ==> agree_but(old(self).files(), final(self).files(), path@),
            old(self).reliable() ==> (opened matches Ok(file) && file.reliable()),
            stay_synced(old(self).synced(), final(self).synced(), path@),
    ;

    /// Syncs and closes a file that was opened for writing at `path`. What was
    /// written is then what the file holds.
    fn finish_file(&mut self, path: &str, file: &mut Self::Writable) -> (outcome: status::Result<()>)
        requires
            old(self).wf(),
        ensures
            final(self).wf(),
            final(self).locks() == old(self).locks(),
            final(self).reliable() == old(self).reliable(),
            final(self).deletes() == old(self).deletes(),
            outcome is Ok ==> final(self).files() == old(self).files().insert(
                path@,
                old(file).written(),
            ),
            outcome is Err ==> agree_but(old(self).files(), final(self).files(), path@),
            old(self).reliable() && old(file).reliable() ==> outcome is Ok,
            stay_synced(old(self).synced(), final(self).synced(), path@),
            outcome is Ok ==> final(self).synced().contains(path@),
    ;

    /// How far syncs of the files reach that are opened from now on.
    fn set_sync_mode(&mut self, mode: SyncMode)
        requires
            old(self).wf(),
        ensures
            final(self).wf(),
            final(self).files() == old(self).files(),
            final(self).locks() == old(self).locks(),
            final(self).reliable() == old(self).reliable(),
            final(self).deletes() == old(self).deletes(),
            old(self).synced().subset_of(final(self).synced()),
    ;

    fn new_random_access_file(&self, path: &str) -> (opened: status::Result<Self::RandomAccess>)
        requires
            self.wf(),
        ensures
            opened matches Ok(file) ==> self.files().contains_key(path@) && file.contents()
                == self.files()[path@],
            self.reliable() && self.files().contains_key(path@) ==> (opened matches Ok(file)
                && file.reliable()),
    ;

    fn new_sequential_file(&self, path: &str) -> (opened: status::Result<Self::Sequential>)
        requires
            self.wf(),
        ensures
            opened matches Ok(file) ==> self.files().contains_key(path@) && file.rest()
                == self.files()[path@],
            self.reliable() && self.files().contains_key(path@) ==> (opened matches Ok(file)
                && file.reliable()),
    ;

    /// Locks a path; an error if it is locked. The file is there afterwards.
    fn lock_file(&mut self, path: &str) -> (locked: status::Result<Self::Lock>)
        requires
            old(self).wf(),
        ensures
            final(self).wf(),
            final(self).reliable() == old(self).reliable(),
            final(self).deletes() == old(self).deletes(),
            locked matches Ok(lock) ==> {
                &&& lock.locked_path() == path@
                &&& !old(self).locks().contains(path@)
                &&& final(self).locks() == old(self).locks().insert(path@)
                &&& final(self).files() == if old(self).files().contains_key(path@) {
                    old(self).files()
                } else {
                    old(self).files().insert(path@, Seq::empty())
                }
            },
            locked is Err ==> final(self).locks() == old(self).locks() && agree_but(
                old(self).files(),
                final(self).files(),
                path@,
            ),
            old(self).reliable() ==> locked is Ok == !old(self).locks().contains(path@),
            old(self).locks().contains(path@) ==> final(self).files() == old(self).files(),
            stay_synced(old(self).synced(), final(self).synced(), path@),
    ;

    /// Lets go of a lock.
    fn unlock_file(&mut self, lock: Self::Lock)
        requires
            old(self).wf(),
        ensures
            final(self).wf(),
            final(self).reliable() == old(self).reliable(),
            final(self).deletes() == old(self).deletes(),
            final(self).files() == old(self).files(),
            final(self).locks() == old(self).locks().remove(lock.locked_path()),
            old(self).synced().subset_of(final(self).synced()),
    ;

    fn read_file(&self, path: &str) -> (read: status::Result<Vec<u8>>)
        requires
            self.wf(),
        ensures
            read matches Ok(bytes) ==> self.files().contains_key(path@) && bytes@
                == self.files()[path@],
            self.reliable() && self.files().contains_key(path@) ==> read is Ok,
    ;

    /// Makes a file hold just the given bytes.
    fn write_file(&mut self, path: &str, data: &[u8]) -> (outcome: status::Result<()>)
        requires
            old(self).wf(),
        ensures
            final(self).wf(),
            final(self).locks() == old(self).locks(),
            final(self).reliable() == old(self).reliable(),
            final(self).deletes() == old(self).deletes(),
            outcome is Ok ==> final(self).files() == old(self).files().insert(path@, data@),
            outcome is Err ==> agree_but(old(self).files(), final(self).files(), path@),
            old(self).reliable() ==> outcome is Ok,
            stay_synced(old(self).synced(), final(self).synced(), path@),
    ;

    /// Appends bytes to a file, which is made if it is missing.
    fn append_file(&mut self, path: &str, data: &[u8]) -> (outcome: status::Result<()>)
        requires
            old(self).wf(),
        ensures
            final(self).wf(),
            final(self).locks() == old(self).locks(),
            final(self).reliable() == old(self).reliable(),
            final(self).deletes() == old(self).deletes(),
            outcome is Ok ==> final(self).files() == old(self).files().insert(
                path@,
                if old(self).files().contains_key(path@) {
                    old(self).files()[path@] + data@
                } else {
                    data@
                },
            ),
            outcome is Err ==> agree_but(old(self).files(), final(self).files(), path@),
            old(self).reliable() ==> outcome is Ok,
            stay_synced(old(self).synced(), final(self).synced(), path@),
    ;

    fn file_exists(&self, path: &str) -> (answer: bool)
        requires
            self.wf(),
        ensures
            answer ==> self.files().contains_key(path@),
            self.reliable() ==> answer == self.files().contains_key(path@),
    ;

    fn delete_file(&mut self, path: &str) -> (outcome: status::Result<()>)
        requires
            old(self).wf(),
        ensures
            final(self).wf(),
            final(self).locks() == old(self).locks(),
            final(self).reliable() == old(self).reliable(),
            final(self).deletes() == old(self).deletes(),
            outcome is Ok ==> old(self).files().contains_key(path@) && final(self).files() == old(
                self).files().remove(path@),
            outcome is Err ==> final(self).files() == old(self).files(),
            old(self).reliable() ==> outcome is Ok == old(self).files().contains_key(path@),
            stay_synced(old(self).synced(), final(self).synced(), path@),
            old(self).deletes() && old(self).files().contains_key(path@) ==> outcome is Ok,
    ;

    /// Moves a file over another place.
    fn rename_file(&mut self, src: &str, dst: &str) -> (outcome: status::Result<()>)
        requires
            old(self).wf(),
        ensures
            final(self).wf(),
            final(self).locks() == old(self).locks(),
            final(self).reliable() == old(self).reliable(),
            final(self).deletes() == old(self).deletes(),
            outcome is Ok ==> old(self).files().contains_key(src@) && final(self).files() == old(
                self).files().remove(src@).insert(dst@, old(self).files()[src@]),
            outcome is Err ==> final(self).files() == old(self).files(),
            old(self).reliable() ==> outcome is Ok == old(self).files().contains_key(src@),
            outcome is Ok && old(self).synced().contains(src@) ==> final(self).synced().contains(
                dst@,
            ),
            forall|path: Seq<char>|
                path != src@ && path != dst@ && old(self).synced().contains(path)
                    ==> #[trigger] final(self).synced().contains(path),
    ;

    fn get_file_size(&self, path: &str) -> (size: status::Result<u64>)
        requires
            self.wf(),
        ensures
            size matches Ok(length) ==> self.files().contains_key(path@) && length
                == self.files()[path@].len(),
            self.reliable() && self.files().contains_key(path@) ==> size is Ok,
    ;

    /// The entries of a directory, by their paths.
    fn list_dir(&self, path: &str) -> (entries: status::Result<Vec<String>>)
        requires
            self.wf(),
        ensures
            entries matches Ok(listed) ==> {
                &&& forall|child: Seq<char>|
                    is_child(self.files(), path@, child) ==> #[trigger] texts(listed@).contains(
                        child,
                    )
                &&& forall|i: int|
                    0 <= i < listed@.len() ==> child_towards(#[trigger] listed@[i]@, path@)
                        == Some(listed@[i]@)
            },
            self.reliable() ==> entries is Ok,
    ;

    fn create_dir(&mut self, path: &str) -> (outcome: status::Result<()>)
        requires
            old(self).wf(),
        ensures
            final(self).wf(),
            final(self).locks() == old(self).locks(),
            final(self).reliable() == old(self).reliable(),
            final(self).deletes() == old(self).deletes(),
            final(self).files() == old(self).files(),
            old(self).reliable() ==> outcome is Ok,
            old(self).synced().subset_of(final(self).synced()),
    ;

    /// Forces what a file holds to stable storage.
    fn sync_file(&mut self, path: &str) -> (outcome: status::Result<()>)
        requires
            old(self).wf(),
        ensures
            final(self).wf(),
            final(self).locks() == old(self).locks(),
            final(self).reliable() == old(self).reliable(),
            final(self).deletes() == old(self).deletes(),
            final(self).files() == old(self).files(),
            old(self).reliable() && old(self).files().contains_key(path@) ==> outcome is Ok,
            old(self).synced().subset_of(final(self).synced()),
            outcome is Ok ==> final(self).synced().contains(path@),
    ;

    /// Deletes a directory and all that lies in it; nothing to do if it is missing.
    fn delete_dir(&mut self, path: &str) -> (outcome: status::Result<()>)
        requires
            old(self).wf(),
        ensures
            final(self).wf(),
            final(self).locks() == old(self).locks(),
            final(self).reliable() == old(self).reliable(),
            final(self).deletes() == old(self).deletes(),
            outcome is Ok ==> final(self).files() == files_outside(old(self).files(), path@),
            outcome is Err ==> agree_outside(old(self).files(), final(self).files(), path@),
            old(self).reliable() ==> outcome is Ok,
            forall|other: Seq<char>|
                !lies_under(other, path@) && old(self).synced().contains(other)
                    ==> #[trigger] final(self).synced().contains(other),
    ;
}

/// A lock of a [`MemEnv`].
#[derive(Debug)]
pub struct MemFileLock {
    path: String,
}

impl FileLock for MemFileLock {
    closed spec fn locked_path(&self) -> Seq<char> {
        self.path@
    }
}

/// Whether no path has two rows.
spec fn rows_apart(rows: Seq<(String, Vec<u8>)>) -> bool {
    forall|i: int, j: int|
        #![trigger rows[i], rows[j]]
        0 <= i < j < rows.len() ==> rows[i].0@ != rows[j].0@
}

/// Whether a path has a row.
spec fn has_row(rows: Seq<(String, Vec<u8>)>, path: Seq<char>) -> bool {
    exists|i: int| 0 <= i < rows.len() && #[trigger] rows[i].0@ == path
}

/// What the row of a path holds.
spec fn row_bytes(rows: Seq<(String, Vec<u8>)>, path: Seq<char>) -> Seq<u8> {
    rows[choose|i: int| 0 <= i < rows.len() && #[trigger] rows[i].0@ == path].1@
}

/// Whether a row copies one of the first rows, of a file that is not in `dir`.
spec fn is_copied(
    rows: Seq<(String, Vec<u8>)>,
    count: int,
    row: (String, Vec<u8>),
    dir: Seq<char>,
) -> bool {
    !lies_under(row.0@, dir) && exists|a: int|
        0 <= a < count && #[trigger] rows[a].0@ == row.0@ && rows[a].1@ == row.1@
}

/// The files that some rows hold.
spec fn files_of(rows: Seq<(String, Vec<u8>)>) -> Map<Seq<char>, Seq<u8>> {
    Map::new(|path: Seq<char>| has_row(rows, path), |path: Seq<char>| row_bytes(rows, path))
}

proof fn lemma_row(rows: Seq<(String, Vec<u8>)>, i: int)
    requires
        rows_apart(rows),
        0 <= i < rows.len(),
    ensures
        files_of(rows).contains_key(rows[i].0@),
        files_of(rows)[rows[i].0@] == rows[i].1@,
{
    let path = rows[i].0@;
    let j = choose|j: int| 0 <= j < rows.len() && #[trigger] rows[j].0@ == path;
    assert(0 <= j < rows.len() && rows[j].0@ == path);
    assert(i == j);
}

/// All files in memory. Paths are told apart by their text, so a path has to be written in one
/// way. The bytes of a file that is being written belong to its handle, and are stored when the
/// file is finished; an environment that stores them at once holds the files behind a lock.
#[derive(Debug)]
pub struct MemEnv {
    rows: Vec<(String, Vec<u8>)>,
    locked: Vec<String>,
}

/// What is reported of a missing file.
pub open spec fn not_found_text(path: Seq<char>) -> Seq<char> {
    "not found: "@ + path
}

fn not_found(path: &str) -> (error: Status)
    ensures
        error.says(status::Code::IoError, not_found_text(path@)),
{
    let message = text::joined("not found: ", path);
    Status::io_error(message.as_str())
}

impl Default for MemEnv {
    fn default() -> (env: Self)
        ensures
            env.wf(),
            env.files() == Map::<Seq<char>, Seq<u8>>::empty(),
            env.locks() == Set::<Seq<char>>::empty(),
    {
        MemEnv::new()
    }
}

impl MemEnv {
    /// No files and no locks.
    pub fn new() -> (env: Self)
        ensures
            env.wf(),
            env.files() == Map::<Seq<char>, Seq<u8>>::empty(),
            env.locks() == Set::<Seq<char>>::empty(),
    {
        let env = MemEnv { rows: Vec::new(), locked: Vec::new() };
        assert(env.files() =~= Map::<Seq<char>, Seq<u8>>::empty());
        assert(env.locks() =~= Set::<Seq<char>>::empty());
        env
    }

    /// Where the row of a path is.
    fn row_of(&self, path: &str) -> (row: Option<usize>)
        requires
            self.wf(),
        ensures
            match row {
                None => !self.files().contains_key(path@),
                Some(i) => i < self.rows@.len() && self.rows@[i as int].0@ == path@
                    && self.files().contains_key(path@) && self.files()[path@]
                    == self.rows@[i as int].1@,
            },
    {
        let mut i: usize = 0;
        while i < self.rows.len()
            invariant
                i <= self.rows@.len(),
                self.wf(),
                forall|k: int| 0 <= k < i ==> (#[trigger] self.rows@[k]).0@ != path@,
            decreases self.rows@.len() - i,
        {
            if text::same_text(self.rows[i].0.as_str(), path) {
                proof {
                    lemma_row(self.rows@, i as int);
                }
                return Some(i);
            }
            i = i + 1;
        }
        None
    }

    /// Makes a path hold the given bytes.
    fn put(&mut self, path: &str, data: Vec<u8>)
        requires
            old(self).wf(),
        ensures
            final(self).wf(),
            final(self).files() == old(self).files().insert(path@, data@),
            final(self).locks() == old(self).locks(),
    {
        match self.row_of(path) {
            Some(i) => {
                self.rows.set(i, (path.to_owned(), data));
                proof {
                    let rows = self.rows@;
                    assert(rows =~= old(self).rows@.update(i as int, rows[i as int]));
                    assert(rows_apart(rows));
                    assert forall|p: Seq<char>| #[trigger] files_of(rows).contains_key(p)
                        == old(self).files().insert(path@, data@).contains_key(p) && (
                    files_of(rows).contains_key(p) ==> files_of(rows)[p] == old(
                        self,
                    ).files().insert(path@, data@)[p]) by {
                        lemma_row(rows, i as int);
                        if has_row(rows, p) {
                            let k = choose|k: int| 0 <= k < rows.len() && #[trigger] rows[k].0@ == p;
                            lemma_row(rows, k);
                            lemma_row(old(self).rows@, k);
                        }
                        if has_row(old(self).rows@, p) {
                            let k = choose|k: int|
                                0 <= k < rows.len() && #[trigger] old(self).rows@[k].0@ == p;
                            assert(rows[k].0@ == p);
                        }
                    }
                    assert(self.files() =~= old(self).files().insert(path@, data@));
                }
            },
            None => {
                self.rows.push((path.to_owned(), data));
                proof {
                    let rows = self.rows@;
                    let last = rows.len() - 1;
                    assert forall|i: int, j: int|
                        #![trigger rows[i], rows[j]]
                        0 <= i < j < rows.len() implies rows[i].0@ != rows[j].0@ by {
                        if j == last {
                            lemma_row(old(self).rows@, i);
                            assert(rows[i] == old(self).rows@[i]);
                        } else {
                            assert(rows[i] == old(self).rows@[i]);
                            assert(rows[j] == old(self).rows@[j]);
                        }
                    }
                    assert forall|p: Seq<char>| #[trigger] files_of(rows).contains_key(p)
                        == old(self).files().insert(path@, data@).contains_key(p) && (
                    files_of(rows).contains_key(p) ==> files_of(rows)[p] == old(
                        self,
                    ).files().insert(path@, data@)[p]) by {
                        lemma_row(rows, last);
                        if has_row(rows, p) {
                            let k = choose|k: int| 0 <= k < rows.len() && #[trigger] rows[k].0@ == p;
                            lemma_row(rows, k);
                            if k != last {
                                lemma_row(old(self).rows@, k);
                            }
                        }
                        if has_row(old(self).rows@, p) {
                            let k = choose|k: int|
                                0 <= k < old(self).rows@.len() && #[trigger] old(self).rows@[k].0@
                                    == p;
                            assert(rows[k].0@ == p);
                        }
                    }
                    assert(self.files() =~= old(self).files().insert(path@, data@));
                }
            },
        }
    }

    /// Takes the row of a path out.
    fn take(&mut self, path: &str) -> (taken: Option<Vec<u8>>)
        requires
            old(self).wf(),
        ensures
            final(self).wf(),
            final(self).locks() == old(self).locks(),
            match taken {
                None => !old(self).files().contains_key(path@) && final(self).files() == old(
                    self,
                ).files(),
                Some(data) => old(self).files().contains_key(path@) && data@ == old(
                    self,
                ).files()[path@] && final(self).files() == old(self).files().remove(path@),
            },
    {
        match self.row_of(path) {
            None => None,
            Some(i) => {
                let row = self.rows.remove(i);
                proof {
                    let before = old(self).rows@;
                    let rows = self.rows@;
                    assert(rows =~= before.remove(i as int));
                    assert forall|a: int, b: int|
                        #![trigger rows[a], rows[b]]
                        0 <= a < b < rows.len() implies rows[a].0@ != rows[b].0@ by {
                        let c = if a < i { a } else { a + 1 };
                        let d = if b < i { b } else { b + 1 };
                        assert(rows[a] == before[c] && rows[b] == before[d]);
                    }
                    assert forall|p: Seq<char>| #[trigger] files_of(rows).contains_key(p)
                        == old(self).files().remove(path@).contains_key(p) && (files_of(
                        rows,
                    ).contains_key(p) ==> files_of(rows)[p] == old(self).files().remove(
                        path@,
                    )[p]) by {
                        if has_row(rows, p) {
                            let k = choose|k: int| 0 <= k < rows.len() && #[trigger] rows[k].0@ == p;
                            lemma_row(rows, k);
                            let c = if k < i { k } else { k + 1 };
                            assert(rows[k] == before[c]);
                            lemma_row(before, c);
                            assert(before[c].0@ != before[i as int].0@);
                        }
                        if has_row(before, p) && p != path@ {
                            let k = choose|k: int|
                                0 <= k < before.len() && #[trigger] before[k].0@ == p;
                            let c = if k < i { k } else { k - 1 };
                            assert(rows[c].0@ == p);
                        }
                    }
                    assert(self.files() =~= old(self).files().remove(path@));
                }
                Some(row.1)
            },
        }
    }
}

/// Whether a path is a directory or lies in it.
fn is_under(path: &str, dir: &str) -> (answer: bool)
    ensures
        answer == lies_under(path@, dir@),
{
    if text::same_text(path, dir) {
        return true;
    }
    let start = text::joined(dir, "/");
    text::has_prefix(path, start.as_str())
}

/// The entry of `dir` that leads to `path`.
fn find_child(path: &str, dir: &str) -> (child: Option<String>)
    ensures
        match child {
            None => child_towards(path@, dir@) is None,
            Some(found) => child_towards(path@, dir@) == Some(found@),
        },
{
    let start_text = text::joined(dir, "/");
    if !text::has_prefix(path, start_text.as_str()) {
        return None;
    }
    proof {
        reveal_strlit("/");
    }
    let start: usize = start_text.as_str().unicode_len();
    let length: usize = path.unicode_len();
    let mut end: usize = start;
    while end < length && path.get_char(end) != '/'
        invariant
            start <= end <= length,
            length == path@.len(),
            part_end(path@, start as int) == part_end(path@, end as int),
        decreases length - end,
    {
        end = end + 1;
    }
    if end > start {
        Some(path.substring_char(0, end).to_owned())
    } else {
        None
    }
}

/// Whether one text comes before another, by the first character in which they
/// differ.
pub open spec fn text_before(a: Seq<char>, b: Seq<char>) -> bool
    decreases a.len(),
{
    if b.len() == 0 {
        false
    } else if a.len() == 0 {
        true
    } else if a[0] != b[0] {
        a[0] < b[0]
    } else {
        text_before(a.skip(1), b.skip(1))
    }
}

proof fn lemma_text_before_transitive(a: Seq<char>, b: Seq<char>, c: Seq<char>)
    requires
        text_before(a, b),
        text_before(b, c),
    ensures
        text_before(a, c),
    decreases a.len(),
{
    if a.len() > 0 && a[0] == b[0] && b[0] == c[0] {
        lemma_text_before_transitive(a.skip(1), b.skip(1), c.skip(1));
    }
}

proof fn lemma_text_before_total(a: Seq<char>, b: Seq<char>)
    ensures
        a != b ==> text_before(a, b) || text_before(b, a),
        !text_before(a, a),
    decreases a.len(),
{
    if a.len() > 0 && b.len() > 0 && a[0] == b[0] {
        lemma_text_before_total(a.skip(1), b.skip(1));
        if a.skip(1) == b.skip(1) {
            assert forall|i: int| 0 <= i < a.len() implies a[i] == b[i] by {
                if i > 0 {
                    assert(a[i] == a.skip(1)[i - 1]);
                    assert(b[i] == b.skip(1)[i - 1]);
                }
            }
            assert(a.len() == b.len()) by {
                assert(a.skip(1).len() == b.skip(1).len());
            }
            assert(a =~= b);
        }
    }
    if a.len() == 0 && b.len() == 0 {
        assert(a =~= b);
    }
    if a.len() > 0 {
        lemma_text_before_total(a.skip(1), a.skip(1));
    }
}

proof fn lemma_text_before_skip(a: Seq<char>, b: Seq<char>, count: int)
    requires
        0 <= count <= a.len(),
        count <= b.len(),
        forall|i: int| 0 <= i < count ==> a[i] == b[i],
    ensures
        text_before(a, b) == text_before(a.skip(count), b.skip(count)),
    decreases count,
{
    if count > 0 {
        lemma_text_before_skip(a.skip(1), b.skip(1), count - 1);
        assert(a.skip(1).skip(count - 1) =~= a.skip(count));
        assert(b.skip(1).skip(count - 1) =~= b.skip(count));
    } else {
        assert(a.skip(0) =~= a);
        assert(b.skip(0) =~= b);
    }
}

fn comes_before(a: &str, b: &str) -> (answer: bool)
    ensures
        answer == text_before(a@, b@),
{
    let a_length: usize = a.unicode_len();
    let b_length: usize = b.unicode_len();
    let mut i: usize = 0;
    while i < a_length && i < b_length
        invariant
            a_length == a@.len(),
            b_length == b@.len(),
            i <= a_length,
            i <= b_length,
            forall|k: int| 0 <= k < i ==> a@[k] == b@[k],
        decreases a_length - i,
    {
        let left: char = a.get_char(i);
        let right: char = b.get_char(i);
        if left != right {
            proof {
                lemma_text_before_skip(a@, b@, i as int);
            }
            return left < right;
        }
        i = i + 1;
    }
    proof {
        lemma_text_before_skip(a@, b@, i as int);
    }
    i < b_length
}

/// Whether some texts rise, so that none is there twice.
pub open spec fn texts_rise(all: Seq<Seq<char>>) -> bool {
    forall|i: int, j: int|
        0 <= i < j < all.len() ==> text_before(#[trigger] all[i], #[trigger] all[j])
}

/// Puts a text in its place, unless it is there.
fn insert_text(all: &mut Vec<String>, one: String)
    requires
        texts_rise(texts(old(all)@)),
    ensures
        texts_rise(texts(final(all)@)),
        forall|t: Seq<char>| #[trigger]
            texts(final(all)@).contains(t) <==> texts(old(all)@).contains(t) || t == one@,
{
    let mut i: usize = 0;
    let ghost before = texts(all@);
    while i < all.len() && comes_before(all[i].as_str(), one.as_str())
        invariant
            i <= all@.len(),
            before == texts(all@),
            forall|k: int| 0 <= k < i ==> text_before(#[trigger] before[k], one@),
        decreases all@.len() - i,
    {
        i = i + 1;
    }
    if i < all.len() && text::same_text(all[i].as_str(), one.as_str()) {
        assert(before[i as int] == one@);
        return ;
    }
    let ghost whole = one@;
    let ghost olds = all@;
    all.insert(i, one);
    proof {
        let after = texts(all@);
        assert(all@ =~= olds.insert(i as int, one));
        assert(after =~= before.insert(i as int, whole));
        if i < before.len() {
            lemma_text_before_total(before[i as int], whole);
        }
        assert forall|a: int, b: int| 0 <= a < b < after.len() implies text_before(
            #[trigger] after[a],
            #[trigger] after[b],
        ) by {
            if a == i {
                assert(after[b] == before[b - 1]);
                if b - 1 > i {
                    lemma_text_before_transitive(whole, before[i as int], before[b - 1]);
                }
            } else if b == i {
                assert(after[a] == before[a]);
            } else {
                let c = if a < i { a } else { a - 1 };
                let d = if b < i { b } else { b - 1 };
                assert(after[a] == before[c] && after[b] == before[d]);
            }
        }
        assert forall|t: Seq<char>| #[trigger] after.contains(t) <==> before.contains(t) || t
            == whole by {
            if after.contains(t) {
                let k = choose|k: int| 0 <= k < after.len() && after[k] == t;
                if k < i {
                    assert(before[k] == t);
                } else if k > i {
                    assert(before[k - 1] == t);
                }
            }
            if before.contains(t) {
                let k = choose|k: int| 0 <= k < before.len() && before[k] == t;
                if k < i {
                    assert(after[k] == t);
                } else {
                    assert(after[k + 1] == t);
                }
            }
            if t == whole {
                assert(after[i as int] == t);
            }
        }
    }
}

/// The entry towards a path lies in the directory, and leads to itself.
proof fn lemma_child_towards(path: Seq<char>, dir: Seq<char>)
    ensures
        child_towards(path, dir) matches Some(child) ==> child_towards(child, dir) == Some(child)
            && lies_under(child, dir) && (child == path || (child + "/"@).is_prefix_of(path)),
{
    reveal_strlit("/");
    match child_towards(path, dir) {
        None => {},
        Some(child) => {
            let start = dir.len() + 1;
            lemma_part_end(path, start as int);
            let end = part_end(path, start as int);
            assert((dir + "/"@) =~= path.take(start as int));
            assert(child.take(start as int) =~= path.take(start as int));
            lemma_part_end_within(path, start as int, end);
            assert(child.take(end) =~= child);
            if end < path.len() {
                assert(child + "/"@ =~= path.take(end + 1));
            } else {
                assert(child =~= path);
            }
        },
    }
}

proof fn lemma_part_end(path: Seq<char>, from: int)
    requires
        0 <= from <= path.len(),
    ensures
        from <= part_end(path, from) <= path.len(),
        part_end(path, from) < path.len() ==> path[part_end(path, from)] == '/',
    decreases path.len() - from,
{
    if from < path.len() && path[from] != '/' {
        lemma_part_end(path, from + 1);
    }
}

proof fn lemma_part_end_within(path: Seq<char>, from: int, end: int)
    requires
        0 <= from <= end <= path.len(),
        part_end(path, from) == end,
    ensures
        part_end(path.take(end), from) == end,
    decreases path.len() - from,
{
    if from < path.len() && path[from] != '/' {
        lemma_part_end(path, from + 1);
        lemma_part_end_within(path, from + 1, end);
    }
}

impl Env for MemEnv {
    type Writable = MemWritableFile;

    type RandomAccess = MemRandomAccessFile;

    type Sequential = MemSequentialFile;

    type Lock = MemFileLock;

    closed spec fn wf(&self) -> bool {
        rows_apart(self.rows@)
    }

    closed spec fn files(&self) -> Map<Seq<char>, Seq<u8>> {
        files_of(self.rows@)
    }

    closed spec fn locks(&self) -> Set<Seq<char>> {
        Set::new(|path: Seq<char>| texts(self.locked@).contains(path))
    }

    /// Memory is all the storage there is.
    open spec fn synced(&self) -> PathSet {
        Set::full()
    }

    open spec fn reliable(&self) -> bool {
        true
    }

    open spec fn deletes(&self) -> bool {
        true
    }

    fn new_writable_file(&mut self, path: &str) -> (opened: status::Result<Self::Writable>) {
        let data: Vec<u8> = Vec::new();
        self.put(path, data);
        Ok(MemWritableFile::new())
    }

    fn finish_file(&mut self, path: &str, file: &mut Self::Writable) -> (outcome: status::Result<()>)
        ensures
            outcome matches Err(error) ==> final(self).files() == old(self).files() && error.says(
                status::Code::IoError,
                "sync"@ + ": writable file is closed"@,
            ),
            final(file).is_closed(),
    {
        match file.sync() {
            Err(error) => Err(error),
            Ok(_) => {
                self.put(path, vstd::slice::slice_to_vec(file.bytes()));
                file.close()
            },
        }
    }

    fn set_sync_mode(&mut self, mode: SyncMode)
        ensures
            *final(self) == *old(self),
    {
    }

    fn new_random_access_file(&self, path: &str) -> (opened: status::Result<Self::RandomAccess>)
        ensures
            opened is Ok == self.files().contains_key(path@),
            opened matches Ok(file) ==> file.opened_path() == path@,
            opened matches Err(error) ==> error.says(
                status::Code::IoError,
                not_found_text(path@),
            ),
    {
        match self.read_file(path) {
            Err(error) => Err(error),
            Ok(data) => Ok(MemRandomAccessFile::new(path, data)),
        }
    }

    fn new_sequential_file(&self, path: &str) -> (opened: status::Result<Self::Sequential>)
        ensures
            opened is Ok == self.files().contains_key(path@),
            opened matches Err(error) ==> error.says(
                status::Code::IoError,
                not_found_text(path@),
            ),
    {
        match self.read_file(path) {
            Err(error) => Err(error),
            Ok(data) => Ok(MemSequentialFile::new(data)),
        }
    }

    fn lock_file(&mut self, path: &str) -> (locked: status::Result<Self::Lock>)
        ensures
            locked matches Err(error) ==> error.says(
                status::Code::IoError,
                "lock "@ + path@ + ": already held by process"@,
            ),
    {
        let mut i: usize = 0;
        while i < self.locked.len()
            invariant
                i <= self.locked@.len(),
                *self == *old(self),
                old(self).wf(),
                forall|k: int| 0 <= k < i ==> (#[trigger] self.locked@[k])@ != path@,
            decreases self.locked@.len() - i,
        {
            if text::same_text(self.locked[i].as_str(), path) {
                assert(texts(self.locked@)[i as int] == path@);
                let mut message = text::joined("lock ", path);
                message.append(": already held by process");
                return Err(Status::io_error(message.as_str()));
            }
            i = i + 1;
        }
        let ghost before = self.locked@;
        self.locked.push(path.to_owned());
        proof {
            let after = self.locked@;
            assert forall|p: Seq<char>| #[trigger] texts(after).contains(p) <==> texts(
                before,
            ).contains(p) || p == path@ by {
                if texts(before).contains(p) {
                    let k = choose|k: int| 0 <= k < before.len() && texts(before)[k] == p;
                    assert(texts(after)[k] == p);
                }
                if p == path@ {
                    assert(texts(after)[before.len() as int] == p);
                }
                if texts(after).contains(p) {
                    let k = choose|k: int| 0 <= k < after.len() && texts(after)[k] == p;
                    if k < before.len() {
                        assert(texts(before)[k] == p);
                    }
                }
            }
            assert(self.locks() =~= old(self).locks().insert(path@));
            if texts(before).contains(path@) {
                let k = choose|k: int| 0 <= k < before.len() && texts(before)[k] == path@;
                assert(before[k]@ == path@);
            }
        }
        if !self.file_exists(path) {
            let data: Vec<u8> = Vec::new();
            self.put(path, data);
            assert(Seq::<u8>::empty() =~= data@);
        }
        Ok(MemFileLock { path: path.to_owned() })
    }

    fn unlock_file(&mut self, lock: Self::Lock) {
        let ghost gone = lock.path@;
        let mut kept: Vec<String> = Vec::new();
        let mut i: usize = 0;
        while i < self.locked.len()
            invariant
                i <= self.locked@.len(),
                *self == *old(self),
                gone == lock.path@,
                forall|p: Seq<char>| #[trigger]
                    texts(kept@).contains(p) <==> p != gone && texts(
                        self.locked@.take(i as int),
                    ).contains(p),
            decreases self.locked@.len() - i,
        {
            let ghost before = kept@;
            let ghost seen = self.locked@.take(i as int);
            let ghost more = self.locked@.take(i + 1);
            if !text::same_text(self.locked[i].as_str(), lock.path.as_str()) {
                kept.push(self.locked[i].clone());
            }
            proof {
                let now = self.locked@[i as int]@;
                assert forall|p: Seq<char>| #[trigger] texts(more).contains(p) <==> texts(
                    seen,
                ).contains(p) || p == now by {
                    if texts(seen).contains(p) {
                        let k = choose|k: int| 0 <= k < seen.len() && texts(seen)[k] == p;
                        assert(texts(more)[k] == p);
                    }
                    if p == now {
                        assert(texts(more)[i as int] == p);
                    }
                    if texts(more).contains(p) {
                        let k = choose|k: int| 0 <= k < more.len() && texts(more)[k] == p;
                        if k < i {
                            assert(texts(seen)[k] == p);
                        }
                    }
                }
                assert forall|p: Seq<char>| #[trigger] texts(kept@).contains(p) <==> texts(
                    before,
                ).contains(p) || (now != gone && p == now) by {
                    if texts(before).contains(p) {
                        let k = choose|k: int| 0 <= k < before.len() && texts(before)[k] == p;
                        assert(texts(kept@)[k] == p);
                    }
                    if now != gone && p == now {
                        assert(texts(kept@)[before.len() as int] == p);
                    }
                    if texts(kept@).contains(p) {
                        let k = choose|k: int| 0 <= k < kept@.len() && texts(kept@)[k] == p;
                        if k < before.len() {
                            assert(texts(before)[k] == p);
                        }
                    }
                }
            }
            i = i + 1;
        }
        assert(self.locked@.take(i as int) =~= self.locked@);
        self.locked = kept;
        assert(self.locks() =~= old(self).locks().remove(gone));
    }

    fn read_file(&self, path: &str) -> (read: status::Result<Vec<u8>>)
        ensures
            read is Ok == self.files().contains_key(path@),
            read matches Err(error) ==> error.says(status::Code::IoError, not_found_text(path@)),
    {
        match self.row_of(path) {
            None => Err(not_found(path)),
            Some(i) => Ok(vstd::slice::slice_to_vec(self.rows[i].1.as_slice())),
        }
    }

    fn write_file(&mut self, path: &str, data: &[u8]) -> (outcome: status::Result<()>) {
        self.put(path, vstd::slice::slice_to_vec(data));
        Ok(())
    }

    fn append_file(&mut self, path: &str, data: &[u8]) -> (outcome: status::Result<()>) {
        let mut bytes: Vec<u8> = match self.take(path) {
            None => Vec::new(),
            Some(bytes) => bytes,
        };
        let ghost before = bytes@;
        bytes.extend_from_slice(data);
        let ghost whole = bytes@;
        self.put(path, bytes);
        proof {
            assert(whole =~= before + data@);
            if !old(self).files().contains_key(path@) {
                assert(whole =~= data@);
            }
            assert(self.files() =~= old(self).files().insert(path@, whole));
        }
        Ok(())
    }

    fn file_exists(&self, path: &str) -> (answer: bool) {
        match self.row_of(path) {
            None => false,
            Some(_) => true,
        }
    }

    fn delete_file(&mut self, path: &str) -> (outcome: status::Result<()>)
        ensures
            outcome matches Err(error) ==> error.says(
                status::Code::IoError,
                not_found_text(path@),
            ),
    {
        match self.take(path) {
            None => Err(not_found(path)),
            Some(_) => Ok(()),
        }
    }

    fn rename_file(&mut self, src: &str, dst: &str) -> (outcome: status::Result<()>)
        ensures
            outcome matches Err(error) ==> error.says(
                status::Code::IoError,
                "rename: src missing: "@ + src@,
            ),
    {
        match self.take(src) {
            None => {
                let message = text::joined("rename: src missing: ", src);
                Err(Status::io_error(message.as_str()))
            },
            Some(data) => {
                self.put(dst, data);
                Ok(())
            },
        }
    }

    fn get_file_size(&self, path: &str) -> (size: status::Result<u64>)
        ensures
            size is Ok == self.files().contains_key(path@),
            size matches Err(error) ==> error.says(status::Code::IoError, not_found_text(path@)),
    {
        match self.row_of(path) {
            None => Err(not_found(path)),
            Some(i) => Ok(self.rows[i].1.len() as u64),
        }
    }

    fn list_dir(&self, path: &str) -> (entries: status::Result<Vec<String>>)
        ensures
            entries matches Ok(listed) && texts_rise(texts(listed@)) && forall|child: Seq<char>|
                #[trigger] texts(listed@).contains(child) <==> is_child(
                    self.files(),
                    path@,
                    child,
                ),
    {
        let mut listed: Vec<String> = Vec::new();
        let mut i: usize = 0;
        let ghost dir = path@;
        while i < self.rows.len()
            invariant
                i <= self.rows@.len(),
                dir == path@,
                texts_rise(texts(listed@)),
                forall|child: Seq<char>| #[trigger]
                    texts(listed@).contains(child) <==> exists|k: int|
                        0 <= k < i && child_towards((#[trigger] self.rows@[k]).0@, dir) == Some(
                            child,
                        ),
            decreases self.rows@.len() - i,
        {
            let ghost before = listed@;
            match find_child(self.rows[i].0.as_str(), path) {
                None => {},
                Some(child) => {
                    insert_text(&mut listed, child);
                },
            }
            proof {
                let now = child_towards(self.rows@[i as int].0@, dir);
                assert forall|child: Seq<char>| #[trigger] texts(listed@).contains(
                    child,
                ) <==> exists|k: int|
                    0 <= k < i + 1 && child_towards((#[trigger] self.rows@[k]).0@, dir) == Some(
                        child,
                    ) by {
                    assert(texts(listed@).contains(child) <==> texts(before).contains(child)
                        || now == Some(child));
                    if texts(before).contains(child) {
                        let k = choose|k: int|
                            0 <= k < i && child_towards((#[trigger] self.rows@[k]).0@, dir) == Some(
                                child,
                            );
                        assert(child_towards(self.rows@[k].0@, dir) == Some(child));
                    }
                    if now == Some(child) {
                        assert(child_towards(self.rows@[i as int].0@, dir) == Some(child));
                    }
                }
            }
            i = i + 1;
        }
        proof {
            assert forall|child: Seq<char>| #[trigger] texts(listed@).contains(child) <==> is_child(
                self.files(),
                dir,
                child,
            ) by {
                if texts(listed@).contains(child) {
                    let k = choose|k: int|
                        0 <= k < i && child_towards((#[trigger] self.rows@[k]).0@, dir) == Some(
                            child,
                        );
                    lemma_row(self.rows@, k);
                    assert(self.files().contains_key(self.rows@[k].0@));
                }
                if is_child(self.files(), dir, child) {
                    let p = choose|p: Seq<char>| #[trigger]
                        self.files().contains_key(p) && child_towards(p, dir) == Some(child);
                    let k = choose|k: int|
                        0 <= k < self.rows@.len() && #[trigger] self.rows@[k].0@ == p;
                    assert(child_towards(self.rows@[k].0@, dir) == Some(child));
                }
            }
            assert forall|a: int| 0 <= a < listed@.len() implies child_towards(
                #[trigger] listed@[a]@,
                dir,
            ) == Some(listed@[a]@) by {
                let child = texts(listed@)[a];
                assert(texts(listed@).contains(child));
                let p = choose|p: Seq<char>| #[trigger]
                    self.files().contains_key(p) && child_towards(p, dir) == Some(child);
                lemma_child_towards(p, dir);
            }
        }
        Ok(listed)
    }

    fn create_dir(&mut self, path: &str) -> (outcome: status::Result<()>)
        ensures
            *final(self) == *old(self),
    {
        Ok(())
    }

    fn sync_file(&mut self, path: &str) -> (outcome: status::Result<()>)
        ensures
            *final(self) == *old(self),
            outcome is Ok,
    {
        Ok(())
    }

    fn delete_dir(&mut self, path: &str) -> (outcome: status::Result<()>) {
        let ghost dir = path@;
        let ghost before = self.rows@;
        let mut kept: Vec<(String, Vec<u8>)> = Vec::new();
        let mut i: usize = 0;
        while i < self.rows.len()
            invariant
                i <= self.rows@.len(),
                *self == *old(self),
                before == self.rows@,
                rows_apart(before),
                dir == path@,
                rows_apart(kept@),
                forall|k: int|
                    0 <= k < kept@.len() ==> is_copied(before, i as int, #[trigger] kept@[k], dir),
                forall|a: int|
                    0 <= a < i && !lies_under((#[trigger] before[a]).0@, dir) ==> has_row(
                        kept@,
                        before[a].0@,
                    ),
            decreases self.rows@.len() - i,
        {
            let ghost earlier = kept@;
            proof {
                assert forall|row: (String, Vec<u8>)| #[trigger]
                    is_copied(before, i as int, row, dir) implies is_copied(
                    before,
                    i + 1,
                    row,
                    dir,
                ) by {
                    let a = choose|a: int|
                        0 <= a < i && #[trigger] before[a].0@ == row.0@ && before[a].1@ == row.1@;
                    assert(before[a].0@ == row.0@);
                }
            }
            if !is_under(self.rows[i].0.as_str(), path) {
                kept.push(
                    (
                        self.rows[i].0.clone(),
                        vstd::slice::slice_to_vec(self.rows[i].1.as_slice()),
                    ),
                );
                proof {
                    let last = earlier.len() as int;
                    assert(before[i as int].0@ == kept@[last].0@ && before[i as int].1@
                        == kept@[last].1@);
                    assert forall|k: int| 0 <= k < kept@.len() implies is_copied(
                        before,
                        i + 1,
                        #[trigger] kept@[k],
                        dir,
                    ) by {
                        if k < last {
                            assert(kept@[k] == earlier[k]);
                            assert(is_copied(before, i as int, earlier[k], dir));
                        }
                    }
                    assert forall|x: int, y: int|
                        #![trigger kept@[x], kept@[y]]
                        0 <= x < y < kept@.len() implies kept@[x].0@ != kept@[y].0@ by {
                        assert(kept@[x] == earlier[x]);
                        if y < last {
                            assert(kept@[y] == earlier[y]);
                        } else {
                            assert(is_copied(before, i as int, earlier[x], dir));
                            let a = choose|a: int|
                                0 <= a < i && #[trigger] before[a].0@ == earlier[x].0@;
                            assert(before[a].0@ != before[i as int].0@);
                        }
                    }
                    assert forall|a: int|
                        0 <= a < i + 1 && !lies_under(
                            (#[trigger] before[a]).0@,
                            dir,
                        ) implies has_row(kept@, before[a].0@) by {
                        if a < i {
                            let k = choose|k: int|
                                0 <= k < earlier.len() && #[trigger] earlier[k].0@ == before[a].0@;
                            assert(kept@[k].0@ == before[a].0@);
                        } else {
                            assert(kept@[last].0@ == before[a].0@);
                        }
                    }
                }
            }
            i = i + 1;
        }
        self.rows = kept;
        proof {
            let rows = self.rows@;
            assert forall|p: Seq<char>| #[trigger] files_of(rows).contains_key(p) == files_outside(
                old(self).files(),
                dir,
            ).contains_key(p) && (files_of(rows).contains_key(p) ==> files_of(rows)[p]
                == files_outside(old(self).files(), dir)[p]) by {
                if has_row(rows, p) {
                    let k = choose|k: int| 0 <= k < rows.len() && #[trigger] rows[k].0@ == p;
                    lemma_row(rows, k);
                    assert(is_copied(before, i as int, rows[k], dir));
                    let a = choose|a: int|
                        0 <= a < i && #[trigger] before[a].0@ == rows[k].0@ && before[a].1@
                            == rows[k].1@;
                    lemma_row(before, a);
                }
                if has_row(before, p) && !lies_under(p, dir) {
                    let a = choose|a: int| 0 <= a < before.len() && #[trigger] before[a].0@ == p;
                    assert(has_row(rows, before[a].0@));
                }
            }
            assert(self.files() =~= files_outside(old(self).files(), dir));
        }
        Ok(())
    }
}

} // verus!
