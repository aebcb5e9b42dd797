//! What is told where a file system fails.

use std::sync::atomic::AtomicBool;
use std::sync::atomic::Ordering;
use std::sync::Arc;

use pulsearc_db::comparator::BytewiseComparator;
use pulsearc_db::db_impl::flush;
use pulsearc_db::db_impl::outputs::NextNumbers;
use pulsearc_db::db_impl::outputs::OutputSettings;
use pulsearc_db::db_impl::recover;
use pulsearc_db::db_impl::table_input;
use pulsearc_db::db_impl::wal;
use pulsearc_db::db_impl::DBImplCore;
use pulsearc_db::db_impl::ReadOptions;
use pulsearc_db::db_iter::DbIterator;
use pulsearc_db::env::ByteCount;
use pulsearc_db::env::Env;
use pulsearc_db::env::FileBytes;
use pulsearc_db::env::FileMap;
use pulsearc_db::env::MemEnv;
use pulsearc_db::env::MemRandomAccessFile;
use pulsearc_db::env::MemSequentialFile;
use pulsearc_db::env::MemWritableFile;
use pulsearc_db::env::PathSet;
use pulsearc_db::env::RandomAccessFile;
use pulsearc_db::env::SequentialFile;
use pulsearc_db::env::SyncMode;
use pulsearc_db::env::WritableFile;
use pulsearc_db::filter::BloomFilterPolicy;
use pulsearc_db::format::InternalKeyComparator;
use pulsearc_db::log::LogWriter;
use pulsearc_db::memtable::SharedMemTable;
use pulsearc_db::repair;
use pulsearc_db::status::Result;
use pulsearc_db::status::Status;
use pulsearc_db::table::NoCompressor;
use pulsearc_db::table_cache::TableCache;
use pulsearc_db::version_set::FileMetaData;
use pulsearc_db::write_batch::WriteBatch;

type Order = InternalKeyComparator<BytewiseComparator>;

/// Stands for what only proofs speak of.
fn ghost<T>() -> T {
    unreachable!()
}

fn fault() -> Status {
    Status::io_error("the disk is gone")
}

/// Fails while the switch is on.
#[derive(Clone)]
struct Switch(Arc<AtomicBool>);

impl Switch {
    fn new() -> Self {
        Switch(Arc::new(AtomicBool::new(false)))
    }

    fn set(&self, on: bool) {
        self.0.store(on, Ordering::SeqCst);
    }

    fn check(&self) -> Result<()> {
        if self.0.load(Ordering::SeqCst) {
            return Err(fault());
        }
        Ok(())
    }
}

struct FaultyRandomFile {
    file: MemRandomAccessFile,
    reads: Switch,
}

impl RandomAccessFile for FaultyRandomFile {
    fn contents(&self) -> FileBytes {
        ghost()
    }

    fn reliable(&self) -> bool {
        ghost()
    }

    fn read_at(&self, offset: u64, n: usize) -> Result<Vec<u8>> {
        self.reads.check()?;
        self.file.read_at(offset, n)
    }
}

struct FaultySequentialFile {
    file: MemSequentialFile,
    reads: Switch,
}

impl SequentialFile for FaultySequentialFile {
    fn rest(&self) -> FileBytes {
        ghost()
    }

    fn reliable(&self) -> bool {
        ghost()
    }

    fn read(&mut self, n: usize) -> Result<Vec<u8>> {
        self.reads.check()?;
        self.file.read(n)
    }

    fn skip(&mut self, n: u64) -> Result<()> {
        self.file.skip(n)
    }
}

/// A file whose sync fails.
struct NeverSynced(MemWritableFile);

impl WritableFile for NeverSynced {
    fn written(&self) -> FileBytes {
        ghost()
    }

    fn synced(&self) -> ByteCount {
        ghost()
    }

    fn failed_syncs(&self) -> ByteCount {
        ghost()
    }

    fn reliable(&self) -> bool {
        ghost()
    }

    fn append(&mut self, data: &[u8]) -> Result<()> {
        self.0.append(data)
    }

    fn flush(&mut self) -> Result<()> {
        self.0.flush()
    }

    fn sync(&mut self) -> Result<()> {
        Err(fault())
    }

    fn close(&mut self) -> Result<()> {
        self.0.close()
    }
}

/// Files in memory that cannot always be listed, opened, read or moved.
struct FaultyEnv {
    env: MemEnv,
    lists: Switch,
    opens: Switch,
    reads: Switch,
    moves: Switch,
}

impl FaultyEnv {
    fn new(env: MemEnv) -> Self {
        FaultyEnv {
            env,
            lists: Switch::new(),
            opens: Switch::new(),
            reads: Switch::new(),
            moves: Switch::new(),
        }
    }
}

impl Env for FaultyEnv {
    type Writable = <MemEnv as Env>::Writable;
    type RandomAccess = FaultyRandomFile;
    type Sequential = FaultySequentialFile;
    type Lock = <MemEnv as Env>::Lock;

    fn wf(&self) -> bool {
        ghost()
    }

    fn files(&self) -> FileMap {
        ghost()
    }

    fn locks(&self) -> PathSet {
        ghost()
    }

    fn synced(&self) -> PathSet {
        ghost()
    }

    fn reliable(&self) -> bool {
        ghost()
    }

    fn deletes(&self) -> bool {
        ghost()
    }

    fn new_writable_file(&mut self, path: &str) -> Result<Self::Writable> {
        self.env.new_writable_file(path)
    }

    fn finish_file(&mut self, path: &str, file: &mut Self::Writable) -> Result<()> {
        self.env.finish_file(path, file)
    }

    fn set_sync_mode(&mut self, mode: SyncMode) {
        self.env.set_sync_mode(mode);
    }

    fn new_random_access_file(&self, path: &str) -> Result<FaultyRandomFile> {
        self.opens.check()?;
        let file = self.env.new_random_access_file(path)?;
        Ok(FaultyRandomFile { file, reads: self.reads.clone() })
    }

    fn new_sequential_file(&self, path: &str) -> Result<FaultySequentialFile> {
        self.opens.check()?;
        let file = self.env.new_sequential_file(path)?;
        Ok(FaultySequentialFile { file, reads: self.reads.clone() })
    }

    fn lock_file(&mut self, path: &str) -> Result<Self::Lock> {
        self.env.lock_file(path)
    }

    fn unlock_file(&mut self, lock: Self::Lock) {
        self.env.unlock_file(lock);
    }

    fn read_file(&self, path: &str) -> Result<Vec<u8>> {
        self.reads.check()?;
        self.env.read_file(path)
    }

    fn write_file(&mut self, path: &str, data: &[u8]) -> Result<()> {
        self.env.write_file(path, data)
    }

    fn append_file(&mut self, path: &str, data: &[u8]) -> Result<()> {
        self.env.append_file(path, data)
    }

    fn file_exists(&self, path: &str) -> bool {
        self.env.file_exists(path)
    }

    fn delete_file(&mut self, path: &str) -> Result<()> {
        self.env.delete_file(path)
    }

    fn rename_file(&mut self, src: &str, dst: &str) -> Result<()> {
        self.moves.check()?;
        self.env.rename_file(src, dst)
    }

    fn get_file_size(&self, path: &str) -> Result<u64> {
        self.env.get_file_size(path)
    }

    fn list_dir(&self, path: &str) -> Result<Vec<String>> {
        self.lists.check()?;
        self.env.list_dir(path)
    }

    fn create_dir(&mut self, path: &str) -> Result<()> {
        self.env.create_dir(path)
    }

    fn sync_file(&mut self, path: &str) -> Result<()> {
        self.env.sync_file(path)
    }

    fn delete_dir(&mut self, path: &str) -> Result<()> {
        self.env.delete_dir(path)
    }
}

fn order() -> Order {
    InternalKeyComparator::new(BytewiseComparator)
}

fn no_filter() -> Option<Arc<BloomFilterPolicy>> {
    None
}

fn no_compression() -> Option<Arc<NoCompressor>> {
    None
}

/// A table of many blocks, with keys that start with the given letter.
fn table(env: &mut MemEnv, number: u64, letter: char) -> FileMetaData {
    let mut mem = SharedMemTable::new(BytewiseComparator);
    for i in 0..200u64 {
        let key = format!("{}{:04}", letter, i);
        mem.add(
            i + 1,
            pulsearc_db::format::ValueType::Value,
            key.as_bytes(),
            &[b'v'; 40],
        );
    }
    let written =
        flush::flush_memtable(env, "/db", number, &mem, 256, 16, no_filter(), no_compression());
    written.unwrap().unwrap()
}

fn levels(first: Vec<FileMetaData>, second: Vec<FileMetaData>) -> Vec<Vec<FileMetaData>> {
    let mut levels = vec![first, second];
    while levels.len() < 7 {
        levels.push(Vec::new());
    }
    levels
}

fn cache() -> TableCache<Order, FaultyEnv> {
    TableCache::<Order, FaultyEnv>::new("/db", order(), 100, 0)
}

fn one_put(key: &[u8]) -> WriteBatch {
    let mut batch = WriteBatch::new();
    batch.put(key, b"value");
    batch
}

fn logged(env: &mut MemEnv, number: u64, count: u64) {
    let path = pulsearc_db::filename::log_file_name("/db", number);
    let mut file = env.new_writable_file(&path).unwrap();
    let mut writer = LogWriter::new();
    for i in 0..count {
        let key = format!("k{:04}", i);
        let (outcome, sync_failed) =
            wal::log_group(&mut writer, &mut file, i + 1, &one_put(key.as_bytes()), false);
        assert!(outcome.is_ok() && !sync_failed);
    }
    env.finish_file(&path, &mut file).unwrap();
}

fn settings() -> OutputSettings<BloomFilterPolicy, NoCompressor> {
    OutputSettings {
        block_size: 4096,
        restart_interval: 16,
        filter_policy: no_filter(),
        compressor: no_compression(),
        max_file_size: 1 << 20,
    }
}

#[test]
fn a_scan_that_ends_early_says_so() {
    let mut files = MemEnv::new();
    let first = table(&mut files, 5, 'a');
    let low = table(&mut files, 6, 'b');
    let high = table(&mut files, 7, 'c');
    let env = FaultyEnv::new(files);
    let levels = levels(vec![first], vec![low, high]);
    let core = DBImplCore::new(BytewiseComparator, 1000, 500, 1);
    let mut tables = cache();
    let mut iter = core
        .new_iterator_with_options(&ReadOptions::default(), &mut tables, &env, &levels, false)
        .unwrap();
    let mut count = 0;
    iter.seek_to_first();
    while iter.valid() {
        if count == 250 {
            env.reads.set(true);
        }
        count += 1;
        iter.next();
    }
    assert!(count > 250 && count < 600);
    assert!(iter.status().is_err());
    env.reads.set(false);
    iter.seek(b"c0100");
    assert_eq!(iter.key(), b"c0100");
    assert!(iter.status().is_err());
}

#[test]
fn a_table_that_does_not_open_is_told_when_it_is_reached() {
    let mut files = MemEnv::new();
    let low = table(&mut files, 6, 'b');
    let high = table(&mut files, 7, 'c');
    let env = FaultyEnv::new(files);
    let core = DBImplCore::new(BytewiseComparator, 1000, 500, 1);
    let mut tables = cache();
    env.opens.set(true);
    let deeper = levels(vec![], vec![low.clone(), high]);
    let mut iter = core
        .new_iterator_with_options(&ReadOptions::default(), &mut tables, &env, &deeper, false)
        .unwrap();
    iter.seek_to_first();
    assert!(!iter.valid());
    assert!(iter.status().unwrap_err().is_io_error());
    let first = levels(vec![low], vec![]);
    assert!(core
        .new_iterator_with_options(&ReadOptions::default(), &mut tables, &env, &first, false)
        .is_err());
}

#[test]
fn a_lookup_fails_where_a_read_does() {
    let mut files = MemEnv::new();
    let only = table(&mut files, 5, 'a');
    let env = FaultyEnv::new(files);
    let core = DBImplCore::new(BytewiseComparator, 1000, 500, 1);
    let mut tables = cache();
    let numbers = vec![only.number];
    let latest = ReadOptions::default();
    let mut get = |key: &[u8]| {
        core.get_with_options(&latest, key, &mut tables, &env, &numbers, false)
    };
    assert_eq!(get(b"a0003").unwrap(), Some(vec![b'v'; 40]));
    env.reads.set(true);
    assert!(get(b"a0150").unwrap_err().is_io_error());
    env.reads.set(false);
    assert_eq!(get(b"a0150").unwrap(), Some(vec![b'v'; 40]));
}

#[test]
fn a_table_that_cannot_be_read_is_no_empty_table() {
    let mut files = MemEnv::new();
    table(&mut files, 5, 'a');
    let env = FaultyEnv::new(files);
    let read = |env: &FaultyEnv| {
        table_input::read_table_entries(env, "/db/000005.ldb", &order(), &no_compression(), true)
    };
    assert_eq!(read(&env).unwrap().len(), 200);
    env.opens.set(true);
    assert!(read(&env).is_err());
    env.opens.set(false);
    env.reads.set(true);
    assert!(read(&env).is_err());
    let inputs =
        table_input::read_inputs(&env, "/db", &vec![5], &order(), &no_compression(), true);
    assert!(inputs.is_err());
}

#[test]
fn a_strict_replay_fails_where_a_read_does() {
    let mut files = MemEnv::new();
    logged(&mut files, 4, 5);
    let env = FaultyEnv::new(files);
    env.reads.set(true);
    let mut mem = SharedMemTable::new(BytewiseComparator);
    assert!(wal::recover_log_file(&env, "/db", 4, &mut mem, true).is_err());
    env.reads.set(false);
    assert_eq!(wal::recover_log_file(&env, "/db", 4, &mut mem, true).unwrap().0, 5);
    assert_eq!(mem.len(), 5);
}

#[test]
fn a_recovery_fails_where_the_files_cannot_be_listed() {
    let mut files = MemEnv::new();
    logged(&mut files, 4, 5);
    let mut env = FaultyEnv::new(files);
    let mut numbers = NextNumbers::new(10);
    env.lists.set(true);
    let failed = recover::recover(
        &mut env, "/db", &BytewiseComparator, 4, 0, 0, true, &settings(), &mut numbers,
    );
    assert!(failed.is_err());
    env.lists.set(false);
    let (last, written) = recover::recover(
        &mut env, "/db", &BytewiseComparator, 4, 0, 0, true, &settings(), &mut numbers,
    )
    .unwrap();
    assert_eq!(last, 5);
    assert!(written.is_some());
}

#[test]
fn a_repair_reports_only_what_was_moved() {
    let mut files = MemEnv::new();
    table(&mut files, 5, 'a');
    files.write_file("/db/000006.ldb", b"no table").unwrap();
    let mut env = FaultyEnv::new(files);
    env.moves.set(true);
    let stuck = repair::repair_db("/db", &mut env, &BytewiseComparator);
    if let Ok(repair) = &stuck {
        assert!(repair.report.archived_table_numbers.is_empty());
    }
    assert!(env.file_exists("/db/000006.ldb"));
    env.moves.set(false);
    let repair = repair::repair_db("/db", &mut env, &BytewiseComparator).unwrap();
    assert_eq!(repair.report.archived_table_numbers, vec![6]);
    assert!(!env.file_exists("/db/000006.ldb"));
    assert!(env.file_exists("/db/lost/000006.ldb"));
}

#[test]
fn a_failed_sync_is_told_apart() {
    let mut writer = LogWriter::new();
    let mut files = MemEnv::new();
    let mut file = NeverSynced(files.new_writable_file("/db/000003.log").unwrap());
    let (outcome, sync_failed) = wal::log_group(&mut writer, &mut file, 1, &one_put(b"a"), true);
    assert!(outcome.unwrap_err().is_io_error());
    assert!(sync_failed);
    let (outcome, sync_failed) = wal::log_group(&mut writer, &mut file, 2, &one_put(b"b"), false);
    assert!(outcome.is_ok());
    assert!(!sync_failed);
    file.close().unwrap();
    let (outcome, sync_failed) = wal::log_group(&mut writer, &mut file, 3, &one_put(b"c"), true);
    assert!(outcome.is_err());
    assert!(!sync_failed);
    assert!(wal::group_outcome(Ok(()), Some(Err(fault()))).1);
    assert!(!wal::group_outcome(Err(fault()), None).1);
    assert!(wal::group_outcome(Ok(()), None).0.is_ok());
}
