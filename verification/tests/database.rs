use std::sync::Arc;

use pulsearc_db::comparator::BytewiseComparator;
use pulsearc_db::db_impl::compaction;
use pulsearc_db::db_impl::compaction::CompactionRun;
use pulsearc_db::db_impl::compaction::DeeperFiles;
use pulsearc_db::db_impl::flush;
use pulsearc_db::db_impl::manual;
use pulsearc_db::db_impl::outputs;
use pulsearc_db::db_impl::outputs::NextNumbers;
use pulsearc_db::db_impl::outputs::OutputSettings;
use pulsearc_db::db_impl::property::Property;
use pulsearc_db::db_impl::recover;
use pulsearc_db::db_impl::recovery;
use pulsearc_db::db_impl::sizes;
use pulsearc_db::db_impl::table_input;
use pulsearc_db::db_impl::wal;
use pulsearc_db::db_impl::CompactionStats;
use pulsearc_db::db_impl::DBImplCore;
use pulsearc_db::db_impl::Options;
use pulsearc_db::db_impl::Range;
use pulsearc_db::db_impl::ReadOptions;
use pulsearc_db::db_impl::Snapshot;
use pulsearc_db::db_iter::DbIterator;
use pulsearc_db::destroy::destroy_db;
use pulsearc_db::env::Env;
use pulsearc_db::env::MemEnv;
use pulsearc_db::env::MemRandomAccessFile;
use pulsearc_db::env::RandomAccessFile;
use pulsearc_db::env::SequentialFile;
use pulsearc_db::env::WritableFile;
use pulsearc_db::filename;
use pulsearc_db::filter::BloomFilterPolicy;
use pulsearc_db::format::InternalKey;
use pulsearc_db::format::InternalKeyComparator;
use pulsearc_db::format::LookupKey;
use pulsearc_db::format::ValueType;
use pulsearc_db::log::LogWriter;
use pulsearc_db::memtable::SharedMemTable;
use pulsearc_db::repair;
use pulsearc_db::snappy::SnappyCompressor;
use pulsearc_db::table::NoCompressor;
use pulsearc_db::table::TableFileBuilder;
use pulsearc_db::table_cache::TableCache;
use pulsearc_db::version_set::FileMetaData;
use pulsearc_db::version_set::LookupResult;
use pulsearc_db::write_batch::WriteBatch;

type Order = InternalKeyComparator<BytewiseComparator>;

fn order() -> Order {
    InternalKeyComparator::new(BytewiseComparator)
}

fn ikey(user: &[u8], sequence: u64, value_type: ValueType) -> Vec<u8> {
    InternalKey::new(user, sequence, value_type).encode().to_vec()
}

fn no_filter() -> Option<Arc<BloomFilterPolicy>> {
    None
}

fn no_compression() -> Option<Arc<NoCompressor>> {
    None
}

fn memtable(entries: &[(&[u8], u64, Option<&[u8]>)]) -> SharedMemTable<BytewiseComparator> {
    let mut mem = SharedMemTable::new(BytewiseComparator);
    for (key, sequence, value) in entries {
        match value {
            Some(bytes) => mem.add(*sequence, ValueType::Value, key, bytes),
            None => mem.add(*sequence, ValueType::Deletion, key, b""),
        };
    }
    mem
}

fn table(env: &mut MemEnv, number: u64, entries: &[(&[u8], u64, Option<&[u8]>)]) -> FileMetaData {
    flush::flush_memtable(
        env,
        "/db",
        number,
        &memtable(entries),
        256,
        16,
        no_filter(),
        no_compression(),
    )
    .unwrap()
    .unwrap()
}

fn levels(first: Vec<FileMetaData>, second: Vec<FileMetaData>) -> Vec<Vec<FileMetaData>> {
    let mut levels = vec![first, second];
    while levels.len() < 7 {
        levels.push(Vec::new());
    }
    levels
}

fn cache() -> TableCache<Order, MemEnv> {
    TableCache::<Order, MemEnv>::new("/db", order(), 100, 1 << 20)
}

fn batch(puts: &[(&[u8], &[u8])]) -> WriteBatch {
    let mut batch = WriteBatch::new();
    for (key, value) in puts {
        batch.put(key, value);
    }
    batch
}

#[test]
fn files_in_memory_are_files() {
    let mut env = MemEnv::new();
    let mut file = env.new_writable_file("/d/a").unwrap();
    file.append(b"hello ").unwrap();
    file.append(b"world").unwrap();
    env.finish_file("/d/a", &mut file).unwrap();
    assert_eq!(env.read_file("/d/a").unwrap(), b"hello world".to_vec());
    assert_eq!(env.get_file_size("/d/a").unwrap(), 11);
    let random = env.new_random_access_file("/d/a").unwrap();
    assert_eq!(random.read_at(6, 5).unwrap(), b"world".to_vec());
    let mut sequential = env.new_sequential_file("/d/a").unwrap();
    sequential.skip(6).unwrap();
    assert_eq!(sequential.read(100).unwrap(), b"world".to_vec());
    env.append_file("/d/a", b"!").unwrap();
    env.rename_file("/d/a", "/d/b").unwrap();
    assert!(!env.file_exists("/d/a"));
    assert_eq!(env.read_file("/d/b").unwrap(), b"hello world!".to_vec());
    env.write_file("/d/sub/c", b"").unwrap();
    assert_eq!(env.list_dir("/d").unwrap(), vec!["/d/b".to_string(), "/d/sub".to_string()]);
    env.delete_dir("/d").unwrap();
    assert!(env.list_dir("/d").unwrap().is_empty());
    let error = env.read_file("/d/b").unwrap_err();
    assert!(error.is_io_error());
    assert_eq!(error.message(), "not found: /d/b");
    assert!(env.delete_file("/d/b").is_err());
}

#[test]
fn a_lock_is_held_once() {
    let mut env = MemEnv::new();
    let lock = env.lock_file("/db/LOCK").unwrap();
    assert!(env.lock_file("/db/LOCK").is_err());
    env.unlock_file(lock);
    assert!(env.lock_file("/db/LOCK").is_ok());
}

#[test]
fn current_names_the_manifest() {
    let mut env = MemEnv::new();
    filename::set_current_file(&mut env, "/db", 7).unwrap();
    assert_eq!(env.read_file("/db/CURRENT").unwrap(), b"MANIFEST-000007\n".to_vec());
    assert!(!env.file_exists("/db/000007.dbtmp"));
}

fn log_of(env: &mut MemEnv, number: u64, groups: &[(u64, WriteBatch)]) {
    let path = filename::log_file_name("/db", number);
    let mut file = env.new_writable_file(&path).unwrap();
    let mut writer = LogWriter::new();
    for (sequence, group) in groups {
        let (outcome, sync_failed) = wal::log_group(&mut writer, &mut file, *sequence, group, true);
        outcome.unwrap();
        assert!(!sync_failed);
    }
    env.finish_file(&path, &mut file).unwrap();
}

#[test]
fn a_replayed_log_brings_back_the_updates() {
    let mut env = MemEnv::new();
    let mut deletion = WriteBatch::new();
    deletion.delete(b"a");
    log_of(
        &mut env,
        3,
        &[(1, batch(&[(b"a", b"1"), (b"b", b"2")])), (3, deletion)],
    );
    let mut mem = SharedMemTable::new(BytewiseComparator);
    let (last, _) = wal::recover_log_file(&env, "/db", 3, &mut mem, true).unwrap();
    assert_eq!(last, 3);
    assert_eq!(
        mem.collect_entries().iter().map(|e| e.0.clone()).collect::<Vec<_>>(),
        vec![
            ikey(b"a", 3, ValueType::Deletion),
            ikey(b"a", 1, ValueType::Value),
            ikey(b"b", 2, ValueType::Value),
        ]
    );
    assert!(wal::recover_log_file(&env, "/db", 4, &mut mem, true).is_err());
}

#[test]
fn a_damaged_log_is_cut_or_refused() {
    let mut env = MemEnv::new();
    log_of(&mut env, 3, &[(1, batch(&[(b"a", b"1")])), (2, batch(&[(b"b", b"2")]))]);
    let mut bytes = env.read_file("/db/000003.log").unwrap();
    let end = bytes.len() - 1;
    bytes[end] ^= 1;
    env.write_file("/db/000003.log", &bytes).unwrap();
    let mut mem = SharedMemTable::new(BytewiseComparator);
    let (last, _) = wal::recover_log_file(&env, "/db", 3, &mut mem, false).unwrap();
    assert_eq!((last, mem.len()), (1, 1));
    let mut strict = SharedMemTable::new(BytewiseComparator);
    assert!(wal::recover_log_file(&env, "/db", 3, &mut strict, true).unwrap_err().is_corruption());
}

#[test]
fn existing_databases_are_checked() {
    let mut options: Options = Options::default();
    assert!(recovery::check_existing(true, &options).is_ok());
    options.error_if_exists = true;
    assert!(recovery::check_existing(true, &options).unwrap_err().is_invalid_argument());
    options.create_if_missing = false;
    assert!(recovery::check_existing(false, &options).unwrap_err().is_not_found());
    let name = Some(b"pulsearc-db.BytewiseComparator".to_vec());
    assert!(recovery::check_comparator(&name, &BytewiseComparator).is_ok());
    let other = Some(b"other".to_vec());
    assert!(recovery::check_comparator(&other, &BytewiseComparator).is_err());
}

#[test]
fn logs_are_replayed_in_order() {
    let names: Vec<String> =
        ["/db/000009.log", "/db/000004.log", "/db/000006.log", "/db/000002.ldb", "/db/LOCK"]
            .iter()
            .map(|s| s.to_string())
            .collect();
    assert_eq!(recovery::logs_to_replay(&names, 6, 0), vec![6, 9]);
    assert_eq!(recovery::logs_to_replay(&names, 6, 4), vec![4, 6, 9]);
    let mut env = MemEnv::new();
    for name in &names {
        env.write_file(name, b"x").unwrap();
    }
    recovery::delete_obsolete_logs(&mut env, "/db", &names, 9);
    assert!(env.file_exists("/db/000009.log"));
    assert!(!env.file_exists("/db/000004.log"));
    assert!(env.file_exists("/db/000002.ldb"));
}

#[test]
fn all_logs_are_replayed_into_one_memtable() {
    let mut env = MemEnv::new();
    log_of(&mut env, 4, &[(5, batch(&[(b"a", b"a5"), (b"b", b"b6")]))]);
    log_of(&mut env, 7, &[(9, batch(&[(b"a", b"a9")]))]);
    let mut mem = SharedMemTable::new(BytewiseComparator);
    let last = wal::replay_logs(&env, "/db", &vec![4, 7], &mut mem, 3, true).unwrap();
    assert_eq!(last, 9);
    assert_eq!(mem.len(), 3);
    assert_eq!(wal::replay_logs(&env, "/db", &vec![], &mut mem, 30, true).unwrap(), 30);
    let edit = recovery::opening_edit(&BytewiseComparator, 8);
    assert_eq!(edit.comparator, Some(b"pulsearc-db.BytewiseComparator".to_vec()));
    assert_eq!(edit.log_number, Some(8));
    assert!(edit.new_files.is_empty());
    let file = FileMetaData { number: 4, file_size: 10, smallest: vec![1], largest: vec![2] };
    let recovered = recovery::recovered_edit(1, file);
    assert_eq!((recovered.new_files[0].level, recovered.new_files[0].meta.number), (1, 4));
    assert_eq!(recovered.log_number, None);
}

#[test]
fn a_recovery_brings_back_what_was_logged() {
    let mut env = MemEnv::new();
    log_of(&mut env, 4, &[(5, batch(&[(b"a", b"a5"), (b"b", b"b6")]))]);
    log_of(&mut env, 7, &[(9, batch(&[(b"a", b"a9")]))]);
    log_of(&mut env, 2, &[(1, batch(&[(b"old", b"old1")]))]);
    let settings = OutputSettings {
        block_size: 4096,
        restart_interval: 16,
        filter_policy: no_filter(),
        compressor: no_compression(),
        max_file_size: 1 << 20,
    };
    let mut numbers = NextNumbers::new(10);
    let recovered = recover::recover(
        &mut env, "/db", &BytewiseComparator, 4, 0, 3, true, &settings, &mut numbers,
    );
    let (last, table) = recovered.unwrap();
    assert_eq!(last, 9);
    let meta = table.unwrap();
    assert_eq!(meta.number, 10);
    assert_eq!(meta.smallest, ikey(b"a", 9, ValueType::Value));
    assert_eq!(meta.largest, ikey(b"b", 6, ValueType::Value));
    let read = table_input::read_inputs(&env, "/db", &vec![10], &order(), &no_compression(), true);
    assert_eq!(
        read.unwrap().into_iter().map(|row| row.1).collect::<Vec<_>>(),
        vec![b"a9".to_vec(), b"a5".to_vec(), b"b6".to_vec()]
    );
    let nothing = recover::recover(
        &mut env, "/db", &BytewiseComparator, 8, 0, 30, true, &settings, &mut numbers,
    );
    let (last, table) = nothing.unwrap();
    assert_eq!(last, 30);
    assert!(table.is_none());
    assert!(!env.file_exists("/db/000011.ldb"));
}

#[test]
fn a_lookup_asks_memory_then_tables() {
    let mut env = MemEnv::new();
    let newer = table(&mut env, 6, &[(b"b", 4, None), (b"c", 5, Some(b"c5"))]);
    let older = table(&mut env, 5, &[(b"a", 1, Some(b"a1")), (b"b", 2, Some(b"b2")), (b"c", 3, Some(b"c3"))]);
    let mut core = DBImplCore::new(BytewiseComparator, 1000, 5, 1);
    core.queue.enqueue(batch(&[(b"a", b"a6")]), false);
    let (group, count, _, _) = core.begin_group();
    core.commit_group(&group, Ok(()), false).unwrap();
    core.queue.finish_writer_group(count);
    let mut tables = cache();
    let numbers = vec![newer.number, older.number];
    let latest = ReadOptions::default();
    let mut get = |options: &ReadOptions, key: &[u8]| {
        core.get_with_options(options, key, &mut tables, &env, &numbers, true).unwrap()
    };
    assert_eq!(get(&latest, b"a"), Some(b"a6".to_vec()));
    assert_eq!(get(&latest, b"b"), None);
    assert_eq!(get(&latest, b"c"), Some(b"c5".to_vec()));
    assert_eq!(get(&latest, b"d"), None);
    let earlier = ReadOptions { snapshot: Some(Arc::new(Snapshot::new(3))), ..ReadOptions::default() };
    assert_eq!(get(&earlier, b"a"), Some(b"a1".to_vec()));
    assert_eq!(get(&earlier, b"b"), Some(b"b2".to_vec()));
    assert_eq!(get(&earlier, b"c"), Some(b"c3".to_vec()));
}

#[test]
fn an_iterator_sees_memory_and_all_levels() {
    let mut env = MemEnv::new();
    let first = table(&mut env, 7, &[(b"b", 6, Some(b"b6")), (b"e", 7, None)]);
    let low = table(&mut env, 5, &[(b"a", 1, Some(b"a1")), (b"b", 2, Some(b"b2"))]);
    let high = table(&mut env, 6, &[(b"d", 3, Some(b"d3")), (b"e", 4, Some(b"e4"))]);
    let levels = levels(vec![first], vec![low, high]);
    let mut core = DBImplCore::new(BytewiseComparator, 1000, 7, 1);
    core.queue.enqueue(batch(&[(b"c", b"c8")]), false);
    let (group, count, _, _) = core.begin_group();
    core.commit_group(&group, Ok(()), false).unwrap();
    core.queue.finish_writer_group(count);
    core.switch_memtable(2);
    let mut tables = cache();
    let mut iter = core
        .new_iterator_with_options(&ReadOptions::default(), &mut tables, &env, &levels, false)
        .unwrap();
    let mut seen = Vec::new();
    iter.seek_to_first();
    while iter.valid() {
        seen.push((iter.key().to_vec(), iter.value().to_vec()));
        iter.next();
    }
    assert!(iter.status().is_ok());
    assert_eq!(
        seen,
        vec![
            (b"a".to_vec(), b"a1".to_vec()),
            (b"b".to_vec(), b"b6".to_vec()),
            (b"c".to_vec(), b"c8".to_vec()),
            (b"d".to_vec(), b"d3".to_vec()),
        ]
    );
    let snapshot = ReadOptions { snapshot: Some(Arc::new(Snapshot::new(4))), ..ReadOptions::default() };
    let mut earlier =
        core.new_iterator_with_options(&snapshot, &mut tables, &env, &levels, true).unwrap();
    earlier.seek_to_last();
    assert_eq!((earlier.key(), earlier.value()), (&b"e"[..], &b"e4"[..]));
    earlier.prev();
    assert_eq!(earlier.key(), b"d");
}

#[test]
fn a_missing_table_is_told_by_the_iterator() {
    let mut env = MemEnv::new();
    let low = table(&mut env, 5, &[(b"a", 1, Some(b"a1"))]);
    let core = DBImplCore::new(BytewiseComparator, 1000, 7, 1);
    let mut tables = cache();
    env.delete_file("/db/000005.ldb").unwrap();
    let deeper = levels(vec![], vec![low.clone()]);
    let mut iter = core
        .new_iterator_with_options(&ReadOptions::default(), &mut tables, &env, &deeper, false)
        .unwrap();
    iter.seek_to_first();
    assert!(!iter.valid());
    assert!(iter.status().is_err());
    let first = levels(vec![low], vec![]);
    assert!(core
        .new_iterator_with_options(&ReadOptions::default(), &mut tables, &env, &first, false)
        .is_err());
}

fn compacted(
    entries: Vec<(Vec<u8>, Vec<u8>)>,
    snapshot: u64,
    deeper: Vec<FileMetaData>,
) -> Vec<(Vec<u8>, Vec<u8>)> {
    let files = DeeperFiles { comparator: BytewiseComparator, files: deeper };
    let mut run = CompactionRun::new(order(), entries, snapshot, files).unwrap();
    let mut env = MemEnv::new();
    let mut outputs = Vec::new();
    let mut number = 10;
    while run.advance() {
        let path = filename::table_file_name("/db", number);
        let file = env.new_writable_file(&path).unwrap();
        let mut builder: TableFileBuilder<Order, _, BloomFilterPolicy, NoCompressor> =
            TableFileBuilder::new(order(), 64, 16, file);
        let (smallest, largest) = run.fill_output(&mut builder, 100).unwrap();
        let meta = pulsearc_db::db_impl::table_output::finish_table_output(
            &mut env,
            &path,
            builder,
            number,
            smallest,
            largest,
        )
        .unwrap();
        outputs.push(meta.number);
        number += 1;
    }
    table_input::read_inputs(&env, "/db", &outputs, &order(), &no_compression(), true).unwrap()
}

#[test]
fn a_compaction_drops_what_is_hidden() {
    let entries = vec![
        (ikey(b"a", 1, ValueType::Value), b"a1".to_vec()),
        (ikey(b"b", 2, ValueType::Value), b"b2".to_vec()),
        (ikey(b"a", 5, ValueType::Value), b"a5".to_vec()),
        (ikey(b"b", 6, ValueType::Deletion), b"".to_vec()),
        (ikey(b"c", 3, ValueType::Value), b"c3".to_vec()),
    ];
    assert_eq!(
        compacted(entries.clone(), 6, vec![]),
        vec![
            (ikey(b"a", 5, ValueType::Value), b"a5".to_vec()),
            (ikey(b"c", 3, ValueType::Value), b"c3".to_vec()),
        ]
    );
    let kept = compacted(entries.clone(), 4, vec![]);
    assert_eq!(kept.len(), 5);
    assert_eq!(kept[0].1, b"a5".to_vec());
    let deeper = FileMetaData {
        number: 2,
        file_size: 1,
        smallest: ikey(b"a", 1, ValueType::Value),
        largest: ikey(b"b", 1, ValueType::Value),
    };
    let shadowing = compacted(entries, 6, vec![deeper]);
    assert_eq!(shadowing[1].0, ikey(b"b", 6, ValueType::Deletion));
}

#[test]
fn tables_are_compacted_into_new_tables() {
    let mut env = MemEnv::new();
    table(&mut env, 5, &[(b"a", 7, Some(b"a7")), (b"b", 6, None), (b"d", 8, Some(b"d8"))]);
    table(&mut env, 6, &[(b"a", 1, Some(b"a1")), (b"b", 2, Some(b"b2")), (b"c", 3, Some(b"c3"))]);
    let mut settings = OutputSettings {
        block_size: 4096,
        restart_interval: 16,
        filter_policy: no_filter(),
        compressor: no_compression(),
        max_file_size: 1 << 20,
    };
    let mut numbers = NextNumbers::new(10);
    let deeper = || DeeperFiles { comparator: BytewiseComparator, files: Vec::new() };
    let one = outputs::compact_tables(
        &mut env, "/db", &vec![5, 6], &order(), true, 20, deeper(), &settings, &mut numbers,
    )
    .unwrap();
    assert_eq!(one.len(), 1);
    assert_eq!(one[0].number, 10);
    assert_eq!(one[0].smallest, ikey(b"a", 7, ValueType::Value));
    assert_eq!(one[0].largest, ikey(b"d", 8, ValueType::Value));
    assert_eq!(one[0].file_size, env.get_file_size("/db/000010.ldb").unwrap());
    let kept = vec![
        (ikey(b"a", 7, ValueType::Value), b"a7".to_vec()),
        (ikey(b"c", 3, ValueType::Value), b"c3".to_vec()),
        (ikey(b"d", 8, ValueType::Value), b"d8".to_vec()),
    ];
    let read = |env: &MemEnv, numbers: Vec<u64>| {
        table_input::read_inputs(env, "/db", &numbers, &order(), &no_compression(), true).unwrap()
    };
    assert_eq!(read(&env, vec![10]), kept);

    settings.max_file_size = 0;
    let many = outputs::compact_tables(
        &mut env, "/db", &vec![5, 6], &order(), true, 20, deeper(), &settings, &mut numbers,
    )
    .unwrap();
    assert_eq!(many.iter().map(|m| m.number).collect::<Vec<_>>(), vec![11, 12, 13]);
    assert_eq!(read(&env, vec![11, 12, 13]), kept);

    settings.max_file_size = 1 << 20;
    let again = outputs::compact_tables(
        &mut env, "/db", &vec![5, 5], &order(), true, 0, deeper(), &settings, &mut numbers,
    );
    assert!(again.unwrap_err().is_corruption());
    let missing = outputs::compact_tables(
        &mut env, "/db", &vec![99], &order(), true, 0, deeper(), &settings, &mut numbers,
    );
    assert!(missing.is_err());
}

#[test]
fn malformed_compaction_input_is_refused() {
    let files = DeeperFiles { comparator: BytewiseComparator, files: Vec::new() };
    let run = CompactionRun::new(order(), vec![(b"short".to_vec(), Vec::new())], 1, files);
    assert!(run.err().unwrap().is_corruption());
}

#[test]
fn edits_tell_what_changed() {
    let file = FileMetaData { number: 4, file_size: 10, smallest: vec![1], largest: vec![2] };
    let moved = compaction::trivial_move_edit(1, &file);
    assert_eq!((moved.deleted_files[0].level, moved.deleted_files[0].number), (1, 4));
    assert_eq!((moved.new_files[0].level, moved.new_files[0].meta.number), (2, 4));
    let flushed = compaction::flush_edit(0, file.clone(), 9);
    assert_eq!(flushed.log_number, Some(9));
    let edit = compaction::compaction_edit(1, &vec![file.clone()], &vec![file.clone()], vec![file.clone()], vec![]);
    assert_eq!(edit.deleted_files.iter().map(|d| d.level).collect::<Vec<_>>(), vec![1, 2]);
    assert_eq!(edit.new_files[0].level, 2);
    assert_eq!(compaction::total_size(&vec![file.clone(), file]), 20);
}

#[test]
fn properties_are_told() {
    let mut core = DBImplCore::new(BytewiseComparator, 1000, 7, 1);
    core.add_stats(1, CompactionStats { micros: 5, bytes_read: 6, bytes_written: 7 });
    let file = FileMetaData {
        number: 4,
        file_size: 10,
        smallest: vec![1, 2],
        largest: vec![1, 2, 3, 4, 5, 6, 7, 8, 9],
    };
    let levels = levels(vec![file], vec![]);
    let text = |name: &str| match core.get_property(name, &levels) {
        Some(Property::Text(told)) => Some(told),
        _ => None,
    };
    assert_eq!(text("pulsearc-db.num-files-at-level0"), Some("1".to_string()));
    assert_eq!(text("pulsearc-db.num-files-at-level6"), Some("0".to_string()));
    assert_eq!(text("pulsearc-db.num-files-at-level7"), None);
    assert_eq!(text("pulsearc-db.num-files-at-levelx"), None);
    assert_eq!(
        text("pulsearc-db.sstables"),
        Some("--- level 0 ---\n  4: 10 bytes [[1, 2]..[1, 2, 3, 4, 5, 6, 7, 8]]\n".to_string())
    );
    assert_eq!(text("pulsearc-db.unknown"), None);
    match core.get_property("pulsearc-db.stats", &levels) {
        Some(Property::Summary(lines)) => {
            assert_eq!(lines.len(), 2);
            assert_eq!((lines[0].level, lines[0].files, lines[0].total_bytes), (0, 1, 10));
            assert_eq!((lines[1].level, lines[1].stats.micros), (1, 5));
        }
        _ => panic!("no summary"),
    }
}

#[test]
fn sizes_of_ranges_are_estimated() {
    let mut env = MemEnv::new();
    let big = vec![b'x'; 300];
    let entries: Vec<(Vec<u8>, u64)> =
        (0..100u8).map(|i| (vec![b'k', i], u64::from(i) + 1)).collect();
    let rows: Vec<(&[u8], u64, Option<&[u8]>)> =
        entries.iter().map(|(k, s)| (k.as_slice(), *s, Some(big.as_slice()))).collect();
    let whole = table(&mut env, 5, &rows);
    let size = whole.file_size;
    let levels = levels(vec![whole], vec![]);
    let mut tables = cache();
    let ranges = vec![
        Range { start: b"a".to_vec(), limit: b"b".to_vec() },
        Range { start: b"a".to_vec(), limit: vec![b'k', 50] },
        Range { start: b"a".to_vec(), limit: b"z".to_vec() },
        Range { start: b"z".to_vec(), limit: b"a".to_vec() },
    ];
    let told = sizes::get_approximate_sizes(&mut tables, &env, &order(), &levels, &ranges);
    assert_eq!(told[0], 0);
    assert!(told[1] > size / 3 && told[1] < size * 2 / 3);
    assert_eq!(told[2], size);
    assert_eq!(told[3], 0);
}

#[test]
fn manual_compactions_go_as_deep_as_the_overlap() {
    assert_eq!(manual::deepest_overlap(&vec![true, false, true, false]), 2);
    assert_eq!(manual::deepest_overlap(&vec![true, false]), 0);
    assert!(manual::has_next_level(5));
    assert!(!manual::has_next_level(6));
    let file = FileMetaData { number: 4, file_size: 10, smallest: vec![], largest: vec![] };
    let groups = vec![vec![file.clone()], vec![file.clone(), file], vec![]];
    assert_eq!(manual::max_overlapping_bytes(&groups), 20);
}

#[test]
fn destroying_deletes_the_files_of_the_database() {
    let mut env = MemEnv::new();
    for name in ["CURRENT", "LOCK", "000004.log", "000005.ldb", "MANIFEST-000003", "LOG"] {
        env.write_file(&format!("/db/{}", name), b"x").unwrap();
    }
    env.write_file("/other/000004.log", b"x").unwrap();
    destroy_db("/db", &mut env).unwrap();
    assert!(env.list_dir("/db").unwrap().is_empty());
    assert!(env.file_exists("/other/000004.log"));
    destroy_db("/db", &mut env).unwrap();
    destroy_db("/missing", &mut env).unwrap();
}

#[test]
fn destroying_leaves_other_files() {
    let mut env = MemEnv::new();
    env.write_file("/db/000004.log", b"x").unwrap();
    env.write_file("/db/notes.txt", b"mine").unwrap();
    destroy_db("/db", &mut env).unwrap();
    assert_eq!(env.list_dir("/db").unwrap(), vec!["/db/notes.txt".to_string()]);
}

#[test]
fn a_locked_database_is_not_destroyed() {
    let mut env = MemEnv::new();
    env.write_file("/db/000004.log", b"x").unwrap();
    let lock = env.lock_file("/db/LOCK").unwrap();
    assert!(destroy_db("/db", &mut env).is_err());
    assert!(env.file_exists("/db/000004.log"));
    env.unlock_file(lock);
    destroy_db("/db", &mut env).unwrap();
    assert!(!env.file_exists("/db/000004.log"));
}

#[test]
fn a_repair_recovers_logs_and_tables() {
    let mut env = MemEnv::new();
    table(&mut env, 5, &[(b"a", 7, Some(b"a7")), (b"b", 3, None)]);
    env.write_file("/db/000006.ldb", b"not a table").unwrap();
    env.write_file("/db/MANIFEST-000002", b"old").unwrap();
    log_of(&mut env, 8, &[(20, batch(&[(b"c", b"c20"), (b"d", b"d21")]))]);
    let repaired = repair::repair_db("/db", &mut env, &BytewiseComparator).unwrap();
    assert_eq!(repaired.report.recovered_files, 2);
    assert_eq!(repaired.report.archived_table_numbers, vec![6]);
    assert_eq!(repaired.last_sequence, 21);
    assert_eq!(repaired.next_file_number, 10);
    assert_eq!(repaired.edit.comparator, Some(b"pulsearc-db.BytewiseComparator".to_vec()));
    assert_eq!(repaired.edit.log_number, Some(0));
    let numbers: Vec<u64> = repaired.edit.new_files.iter().map(|f| f.meta.number).collect();
    assert_eq!(numbers, vec![5, 9]);
    assert!(repaired.edit.new_files.iter().all(|f| f.level == 0));
    assert_eq!(repaired.edit.new_files[0].meta.smallest, ikey(b"a", 7, ValueType::Value));
    assert_eq!(repaired.edit.new_files[1].meta.largest, ikey(b"d", 21, ValueType::Value));
    assert_eq!(
        repaired.report.recovered_bytes,
        env.get_file_size("/db/000005.ldb").unwrap() + env.get_file_size("/db/000009.ldb").unwrap()
    );
    for lost in ["000006.ldb", "MANIFEST-000002", "000008.log"] {
        assert!(env.file_exists(&format!("/db/lost/{}", lost)));
        assert!(!env.file_exists(&format!("/db/{}", lost)));
    }
    let read = table_input::read_inputs(&env, "/db", &vec![9], &order(), &no_compression(), true);
    assert_eq!(read.unwrap()[0].1, b"c20".to_vec());
}

#[test]
fn a_repair_keeps_filters_and_compression() {
    let mut env = MemEnv::new();
    let big = vec![b'x'; 4000];
    log_of(&mut env, 8, &[(1, batch(&[(b"c", &big)]))]);
    let mut options: Options<BloomFilterPolicy, SnappyCompressor> = Options::default();
    options.filter_policy = Some(Arc::new(BloomFilterPolicy::new(10)));
    options.compressor = Some(Arc::new(SnappyCompressor));
    let repaired =
        repair::repair_db_with_options("/db", &mut env, &BytewiseComparator, &options).unwrap();
    assert_eq!(repaired.report.recovered_files, 1);
    assert!(repaired.report.recovered_bytes < 2000);
}

#[test]
fn a_repair_skips_what_is_damaged_in_a_log() {
    let mut env = MemEnv::new();
    let mut writer = LogWriter::new();
    writer.add_record(b"short");
    let mut good = batch(&[(b"a", b"1")]);
    good.set_sequence(4);
    writer.add_record(&good.contents());
    env.write_file("/db/000003.log", writer.bytes()).unwrap();
    let repaired = repair::repair_db("/db", &mut env, &BytewiseComparator).unwrap();
    assert_eq!(repaired.report.recovered_files, 1);
    assert_eq!(repaired.last_sequence, 4);
}

#[test]
fn a_repair_needs_files() {
    let mut env = MemEnv::new();
    let error = repair::repair_db("/db", &mut env, &BytewiseComparator).unwrap_err();
    assert!(error.is_io_error());
    assert_eq!(error.message(), "repair found no files in /db");
}

#[test]
fn bytes_are_passed_over_by_reading() {
    let mut env = MemEnv::new();
    let bytes: Vec<u8> = (0..20000u32).map(|i| (i % 251) as u8).collect();
    env.write_file("/file", &bytes).unwrap();
    let mut file = env.new_sequential_file("/file").unwrap();
    pulsearc_db::env::skip_by_reading(&mut file, 10000).unwrap();
    assert_eq!(file.read(3).unwrap(), bytes[10000..10003].to_vec());
    pulsearc_db::env::skip_by_reading(&mut file, u64::MAX).unwrap();
    assert_eq!(file.read(3).unwrap(), Vec::<u8>::new());
}

#[test]
fn a_flushed_memtable_tells_what_it_told() {
    let mut env = MemEnv::new();
    let mem = memtable(&[
        (b"a", 1, Some(b"a1")),
        (b"a", 4, Some(b"a4")),
        (b"b", 2, Some(b"b2")),
        (b"b", 5, None),
    ]);
    flush::flush_memtable(&mut env, "/db", 9, &mem, 4096, 16, no_filter(), no_compression())
        .unwrap();
    let mut tables = cache();
    for user in [b"a", b"b", b"c"] {
        for sequence in 0..7 {
            let told = match mem.get(&LookupKey::new(user, sequence)) {
                Some(Ok(value)) => LookupResult::Found(value),
                Some(Err(_)) => LookupResult::Deleted,
                None => LookupResult::NotFound,
            };
            let target = ikey(user, sequence, ValueType::Value);
            let stored = tables.internal_get(&env, 9, &target).unwrap();
            assert_eq!(format!("{:?}", told), format!("{:?}", stored));
        }
    }
}

#[test]
fn a_repair_finds_older_table_names() {
    let mut env = MemEnv::new();
    table(&mut env, 5, &[(b"a", 7, Some(b"a7"))]);
    env.rename_file("/db/000005.ldb", "/db/000005.sst").unwrap();
    env.write_file("/db/000006.sst", b"not a table").unwrap();
    let repaired = repair::repair_db("/db", &mut env, &BytewiseComparator).unwrap();
    let numbers: Vec<u64> = repaired.edit.new_files.iter().map(|f| f.meta.number).collect();
    assert_eq!(numbers, vec![5]);
    assert_eq!(repaired.last_sequence, 7);
    let archived = repaired.report.archived_table_numbers;
    assert_eq!(archived.contains(&6), env.file_exists("/db/lost/000006.sst"));
}

#[test]
fn what_was_logged_is_read_after_a_recovery() {
    let mut env = MemEnv::new();
    let older = table(
        &mut env,
        3,
        &[(b"a", 1, Some(b"a1")), (b"b", 2, Some(b"b2")), (b"c", 3, Some(b"c3"))],
    );
    let mut first = batch(&[(b"a", b"a4")]);
    first.delete(b"b");
    log_of(&mut env, 4, &[(4, first)]);
    log_of(&mut env, 7, &[(6, batch(&[(b"d", b"d6")])), (7, batch(&[(b"a", b"a7")]))]);
    let settings = OutputSettings {
        block_size: 4096,
        restart_interval: 16,
        filter_policy: no_filter(),
        compressor: no_compression(),
        max_file_size: 1 << 20,
    };
    let mut numbers = NextNumbers::new(10);
    let (last, written) = recover::recover(
        &mut env, "/db", &BytewiseComparator, 4, 0, 3, true, &settings, &mut numbers,
    )
    .unwrap();
    assert_eq!(last, 7);
    let core = DBImplCore::new(BytewiseComparator, 1000, last, 11);
    let mut tables = cache();
    let numbers = vec![written.unwrap().number, older.number];
    let mut get = |key: &[u8]| {
        core.get_with_options(&ReadOptions::default(), key, &mut tables, &env, &numbers, true)
            .unwrap()
    };
    assert_eq!(get(b"a"), Some(b"a7".to_vec()));
    assert_eq!(get(b"b"), None);
    assert_eq!(get(b"c"), Some(b"c3".to_vec()));
    assert_eq!(get(b"d"), Some(b"d6".to_vec()));
}

#[test]
fn a_lookup_in_the_core_does_not_ask_for_failures() {
    let env = MemEnv::new();
    let mut core = DBImplCore::new(BytewiseComparator, 1000, 5, 1);
    core.bg_error = Some(pulsearc_db::status::Status::io_error("disk"));
    let mut tables = cache();
    let read =
        core.get_with_options(&ReadOptions::default(), b"a", &mut tables, &env, &vec![], false);
    assert_eq!(read.unwrap(), None);
}

#[test]
fn a_lookup_checks_checksums_where_it_is_told_to() {
    let mut env = MemEnv::new();
    let only = table(&mut env, 5, &[(b"a", 1, Some(b"first")), (b"b", 2, Some(b"second"))]);
    let mut image = env.read_file("/db/000005.ldb").unwrap();
    let place = image.windows(5).position(|bytes| bytes == b"first").unwrap();
    image[place] = b'F';
    env.write_file("/db/000005.ldb", &image).unwrap();
    let core = DBImplCore::new(BytewiseComparator, 1000, 5, 1);
    let numbers = vec![only.number];
    let mut tables = cache();
    let mut get = |verify_checksums: bool, fill_cache: bool, paranoid: bool| {
        let options = ReadOptions { verify_checksums, fill_cache, ..ReadOptions::default() };
        core.get_with_options(&options, b"a", &mut tables, &env, &numbers, paranoid)
    };
    let changed = Some(b"First".to_vec());
    assert!(get(true, true, false).unwrap_err().is_corruption());
    assert!(get(false, true, true).unwrap_err().is_corruption());
    assert_eq!(get(false, false, false).unwrap(), changed);
    assert!(get(true, true, false).unwrap_err().is_corruption());
    assert_eq!(get(false, true, false).unwrap(), changed);
    assert_eq!(get(true, true, true).unwrap(), changed);
}

#[test]
fn a_read_beyond_all_indexes_is_told_apart() {
    let file = MemRandomAccessFile::new("/f", vec![1, 2, 3]);
    assert_eq!(file.read_at(1, 2).unwrap(), vec![2, 3]);
    let short = file.read_at(2, 5).unwrap_err();
    assert!(short.is_io_error());
    assert_eq!(short.message(), "short random read /f @2+5");
    let long = file.read_at(1, usize::MAX).unwrap_err();
    assert!(long.is_io_error());
    assert_eq!(long.message(), "random read length overflow: /f");
}

#[test]
fn a_strict_recovery_tells_what_is_wrong_with_a_log() {
    let mut env = MemEnv::new();
    log_of(&mut env, 4, &[(5, batch(&[(b"a", b"a5")]))]);
    let mut writer = LogWriter::new();
    let mut file = env.new_writable_file("/db/000007.log").unwrap();
    writer.add_record_to(&mut file, b"tiny").unwrap();
    env.finish_file("/db/000007.log", &mut file).unwrap();
    let settings = OutputSettings {
        block_size: 4096,
        restart_interval: 16,
        filter_policy: no_filter(),
        compressor: no_compression(),
        max_file_size: 1 << 20,
    };
    let mut numbers = NextNumbers::new(10);
    let strict = recover::recover(
        &mut env, "/db", &BytewiseComparator, 4, 0, 3, true, &settings, &mut numbers,
    );
    let error = strict.err().unwrap();
    assert!(error.is_corruption());
    assert_eq!(error.message(), "malformed WriteBatch (too small)");
    assert!(!env.file_exists("/db/000010.ldb"));
    let lenient = recover::recover(
        &mut env, "/db", &BytewiseComparator, 4, 0, 3, false, &settings, &mut numbers,
    );
    assert_eq!(lenient.unwrap().0, 5);
}
