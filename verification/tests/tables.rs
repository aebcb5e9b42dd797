use std::sync::Arc;

use pulsearc_db::block::Block;
use pulsearc_db::cache::Cache;
use pulsearc_db::cache::ShardedLRUCache;
use pulsearc_db::comparator::BytewiseComparator;
use pulsearc_db::db_impl::table_input;
use pulsearc_db::db_impl::table_output;
use pulsearc_db::db_iter::DbIterator;
use pulsearc_db::env::Env;
use pulsearc_db::env::MemEnv;
use pulsearc_db::env::MemWritableFile;
use pulsearc_db::filter::BloomFilterPolicy;
use pulsearc_db::format::InternalKey;
use pulsearc_db::format::InternalKeyComparator;
use pulsearc_db::format::ValueType;
use pulsearc_db::snappy::SnappyCompressor;
use pulsearc_db::status;
use pulsearc_db::table::NoCompressor;
use pulsearc_db::table::Table;
use pulsearc_db::table::TableBuilder;
use pulsearc_db::table::TableFileBuilder;
use pulsearc_db::table::VecRandomAccessFile;
use pulsearc_db::table_cache::TableCache;
use pulsearc_db::version_set::LookupResult;

type Order = InternalKeyComparator<BytewiseComparator>;

fn order() -> Order {
    InternalKeyComparator::new(BytewiseComparator)
}

fn ikey(user: &str, sequence: u64, value_type: ValueType) -> Vec<u8> {
    InternalKey::new(user.as_bytes(), sequence, value_type).encode().to_vec()
}

fn entries(count: usize) -> Vec<(Vec<u8>, Vec<u8>)> {
    (0..count)
        .map(|i| (ikey(&format!("key{:05}", i), 7, ValueType::Value), vec![b'v'; 1 + i % 50]))
        .collect()
}

fn plain_table(count: usize) -> Vec<u8> {
    let mut builder = TableBuilder::new(order(), 256, 4);
    for (key, value) in entries(count) {
        builder.add(&key, &value);
    }
    builder.finish().unwrap();
    assert_eq!(builder.num_entries(), count as u64);
    builder.contents().to_vec()
}

#[test]
fn a_table_finds_what_was_added() {
    let table = Table::open(plain_table(300), order()).unwrap();
    for (key, value) in entries(300) {
        assert_eq!(table.get(&key).unwrap(), Some(value));
    }
    assert_eq!(table.get(&ikey("missing", 7, ValueType::Value)).unwrap(), None);
    assert_eq!(table.collect_entries().unwrap(), entries(300));
}

#[test]
fn a_table_is_scanned_both_ways() {
    let table = Table::open(plain_table(100), order()).unwrap();
    let mut iter = table.new_iterator().unwrap();
    iter.seek_to_last();
    assert_eq!(iter.key(), entries(100)[99].0.as_slice());
    iter.prev();
    assert_eq!(iter.key(), entries(100)[98].0.as_slice());
    iter.seek(&ikey("key00050", 9, ValueType::Value));
    assert_eq!(iter.key(), entries(100)[50].0.as_slice());
    iter.next();
    assert_eq!(iter.value(), entries(100)[51].1.as_slice());
    assert!(iter.status().is_ok());
}

#[test]
fn offsets_grow_with_the_keys() {
    let image = plain_table(300);
    let table = Table::open(image.clone(), order()).unwrap();
    let first = table.approximate_offset_of(&ikey("key00000", 7, ValueType::Value));
    let middle = table.approximate_offset_of(&ikey("key00150", 7, ValueType::Value));
    let behind = table.approximate_offset_of(&ikey("z", 7, ValueType::Value));
    assert_eq!(first, 0);
    assert!(first < middle && middle < behind && behind < image.len() as u64);
}

#[test]
fn a_short_file_is_no_table() {
    let error = Table::open(vec![0; 10], order()).err().unwrap();
    assert!(error.is_corruption());
    assert_eq!(error.message(), "Table: file too small for footer");
}

#[test]
fn a_damaged_block_is_refused() {
    let mut image = plain_table(300);
    image[3] ^= 0xff;
    let table = Table::open(image, order()).unwrap();
    let error = table.get_verify(&ikey("key00000", 7, ValueType::Value), true).unwrap_err();
    assert!(error.is_corruption());
    assert!(table.collect_entries_verify(true).unwrap_err().is_corruption());
}

fn compressed_table() -> Vec<u8> {
    let mut builder: TableFileBuilder<Order, MemWritableFile, BloomFilterPolicy, SnappyCompressor> =
        TableFileBuilder::with_options(
            order(),
            1024,
            16,
            MemWritableFile::new(),
            Some(Arc::new(BloomFilterPolicy::new(10))),
            Some(Arc::new(SnappyCompressor)),
        );
    for (key, value) in entries(300) {
        builder.add(&key, &value).unwrap();
    }
    builder.finish().unwrap();
    builder.sync().unwrap();
    builder.close().unwrap();
    let size = builder.file_size();
    let bytes = builder.into_file().bytes().to_vec();
    assert_eq!(size, bytes.len() as u64);
    bytes
}

#[test]
fn a_compressed_table_round_trips() {
    let image = compressed_table();
    assert!(image.len() < plain_table(300).len());
    let size = image.len() as u64;
    let table: Table<Order, VecRandomAccessFile, BloomFilterPolicy, SnappyCompressor> =
        Table::open_random_with_options(
            VecRandomAccessFile::new(image.clone()),
            size,
            order(),
            0,
            Some(Arc::new(BloomFilterPolicy::new(10))),
            Some(Arc::new(SnappyCompressor)),
        )
        .unwrap();
    assert_eq!(table.collect_entries().unwrap(), entries(300));
    for (key, value) in entries(300) {
        let answer = table.internal_get(&key).unwrap();
        assert!(matches!(answer, LookupResult::Found(found) if found == value));
    }
    let plain: status::Result<
        Table<Order, VecRandomAccessFile, BloomFilterPolicy, NoCompressor>,
    > = Table::open_random_with_options(
        VecRandomAccessFile::new(image),
        size,
        order(),
        0,
        None,
        None,
    );
    assert!(plain.is_err());
}

#[test]
fn the_newest_entry_of_a_table_answers() {
    let mut builder = TableBuilder::with_defaults(order());
    builder.add(&ikey("a", 9, ValueType::Value), b"new");
    builder.add(&ikey("a", 5, ValueType::Value), b"old");
    builder.add(&ikey("b", 4, ValueType::Deletion), b"");
    builder.finish().unwrap();
    let table = Table::open(builder.contents().to_vec(), order()).unwrap();
    let latest = table.internal_get(&ikey("a", 100, ValueType::Value)).unwrap();
    assert!(matches!(latest, LookupResult::Found(value) if value == b"new"));
    let earlier = table.internal_get(&ikey("a", 6, ValueType::Value)).unwrap();
    assert!(matches!(earlier, LookupResult::Found(value) if value == b"old"));
    let deleted = table.internal_get(&ikey("b", 100, ValueType::Value)).unwrap();
    assert!(matches!(deleted, LookupResult::Deleted));
    let missing = table.internal_get(&ikey("c", 100, ValueType::Value)).unwrap();
    assert!(matches!(missing, LookupResult::NotFound));
}

#[test]
fn a_cache_drops_what_is_least_used() {
    let mut cache: ShardedLRUCache<u32> = ShardedLRUCache::new(1000);
    let handle = cache.insert(b"a", 1, 1);
    assert_eq!(*handle.value(), 1);
    assert_eq!(cache.lookup(b"a").map(|h| *h.value()), Some(1));
    assert_eq!(cache.total_charge(), 1);
    cache.erase(b"a");
    assert!(cache.lookup(b"a").is_none());
    let first = cache.new_id();
    assert!(cache.new_id() > first);
}

#[test]
fn pruning_keeps_what_is_in_use() {
    let mut cache: ShardedLRUCache<u32> = ShardedLRUCache::new(1000);
    let held = cache.insert(b"held", 1, 1);
    let dropped = cache.insert(b"dropped", 2, 1);
    drop(dropped);
    cache.prune();
    assert_eq!(cache.lookup(b"held").map(|h| *h.value()), Some(1));
    assert!(cache.lookup(b"dropped").is_none());
    assert_eq!(*held.value(), 1);
}

#[test]
fn a_written_table_is_read_back() {
    let mut env = MemEnv::new();
    let meta = table_output::write_table(
        &mut env,
        "/db/000005.ldb",
        5,
        order(),
        512,
        16,
        Some(Arc::new(BloomFilterPolicy::new(10))),
        Some(Arc::new(SnappyCompressor)),
        &entries(200),
    )
    .unwrap();
    assert_eq!(meta.number, 5);
    assert_eq!(meta.smallest, entries(200)[0].0);
    assert_eq!(meta.largest, entries(200)[199].0);
    assert_eq!(meta.file_size, env.get_file_size("/db/000005.ldb").unwrap());
    let compressor = Some(Arc::new(SnappyCompressor));
    let read = table_input::read_inputs(&env, "/db", &vec![5], &order(), &compressor, true).unwrap();
    assert_eq!(read, entries(200));
    let missing = table_input::read_inputs(&env, "/db", &vec![5, 6], &order(), &compressor, true);
    assert!(missing.is_err());
}

#[test]
fn a_table_cache_opens_and_evicts() {
    let mut env = MemEnv::new();
    let compressor: Option<Arc<NoCompressor>> = None;
    let policy: Option<Arc<BloomFilterPolicy>> = None;
    table_output::write_table(
        &mut env,
        "/db/000005.ldb",
        5,
        order(),
        512,
        16,
        policy,
        compressor,
        &entries(50),
    )
    .unwrap();
    let mut cache: TableCache<Order, MemEnv> = TableCache::<Order, MemEnv>::new("/db", order(), 10, 1 << 20);
    let (key, value) = entries(50)[20].clone();
    assert_eq!(cache.get(&env, 5, &key).unwrap(), Some(value.clone()));
    assert_eq!(cache.get_full(&env, 5, &key, true, false).unwrap(), Some(value));
    assert!(cache.get(&env, 6, &key).is_err());
    cache.evict(5);
    env.delete_file("/db/000005.ldb").unwrap();
    assert!(cache.get(&env, 5, &key).is_err());
}

#[test]
fn older_table_names_are_found_too() {
    let mut env = MemEnv::new();
    env.write_file("/db/000003.sst", &plain_table(20)).unwrap();
    let mut cache: TableCache<Order, MemEnv> = TableCache::<Order, MemEnv>::new("/db", order(), 10, 1 << 20);
    let (key, value) = entries(20)[3].clone();
    assert_eq!(cache.get(&env, 3, &key).unwrap(), Some(value));
    assert!(cache.approximate_offset_of(&env, 3, &key).is_ok());
}

#[test]
fn tables_are_made_with_defaults_and_filters() {
    let policy = Some(Arc::new(BloomFilterPolicy::new(10)));
    let mut filtered: TableFileBuilder<Order, MemWritableFile> =
        TableFileBuilder::with_defaults_and_filter(order(), MemWritableFile::new(), policy.clone());
    let mut pressed = TableFileBuilder::with_defaults_filter_and_compressor(
        order(),
        MemWritableFile::new(),
        policy,
        Some(Arc::new(SnappyCompressor::new())),
    );
    for (key, value) in entries(500) {
        filtered.add(&key, &value).unwrap();
        pressed.add(&key, &value).unwrap();
    }
    filtered.finish().unwrap();
    pressed.finish().unwrap();
    assert!(pressed.file_size() < filtered.file_size());
    let bytes = filtered.file().bytes().to_vec();
    let size = bytes.len() as u64;
    let mut blocks: ShardedLRUCache<Arc<Block>> = ShardedLRUCache::new(1 << 20);
    let table: Table<Order, VecRandomAccessFile> = Table::open_random_with_cache(
        VecRandomAccessFile::new(bytes),
        size,
        order(),
        &mut blocks,
    )
    .unwrap();
    assert_eq!(table.get(&entries(500)[499].0).unwrap(), Some(entries(500)[499].1.clone()));
}

fn bare_table(policy: Option<Arc<BloomFilterPolicy>>) -> Vec<u8> {
    let mut builder: TableFileBuilder<BytewiseComparator, MemWritableFile> =
        TableFileBuilder::with_defaults_and_filter(
            BytewiseComparator,
            MemWritableFile::new(),
            policy,
        );
    for i in 0..40 {
        builder.add(format!("key-{:04}", i).as_bytes(), format!("v{}", i).as_bytes()).unwrap();
    }
    builder.finish().unwrap();
    assert_eq!(builder.num_entries(), 40);
    builder.into_file().bytes().to_vec()
}

#[test]
fn a_filter_is_asked_for_the_key_itself() {
    let policy = Some(Arc::new(BloomFilterPolicy::new(10)));
    let image = bare_table(policy.clone());
    let size = image.len() as u64;
    let table: Table<BytewiseComparator, VecRandomAccessFile> = Table::open_random_with_options(
        VecRandomAccessFile::new(image),
        size,
        BytewiseComparator,
        0,
        policy,
        None,
    )
    .unwrap();
    let mut blocks: ShardedLRUCache<Arc<Block>> = ShardedLRUCache::new(1 << 20);
    for i in 0..40 {
        let key = format!("key-{:04}", i);
        let value = Some(format!("v{}", i).into_bytes());
        assert_eq!(table.get(key.as_bytes()).unwrap(), value);
        assert_eq!(table.get_full(&mut blocks, key.as_bytes(), true, true).unwrap(), value);
    }
    assert_eq!(table.get(b"key-9999").unwrap(), None);
}

#[test]
fn damage_is_not_taken_for_absence() {
    let mut image = bare_table(None);
    image[2] = 0xff;
    image[3] = 0x7f;
    let table: Table<BytewiseComparator> = Table::open(image, BytewiseComparator).unwrap();
    assert!(table.get_verify(b"key-0000", true).unwrap_err().is_corruption());
    let error = table.get_verify(b"key-0000", false).unwrap_err();
    assert!(error.is_corruption());
    let collected = table.collect_entries_verify(false).unwrap_err();
    assert!(collected.is_corruption());
    let mut iter = table.new_iterator_verify(true).unwrap();
    iter.seek_to_first();
    assert!(!iter.valid());
    assert!(iter.status().unwrap_err().is_corruption());
}

fn with_changed_value() -> Vec<u8> {
    let mut image = plain_table(300);
    let place = image.iter().position(|byte| *byte == b'v').unwrap();
    image[place] = b'w';
    image
}

#[test]
fn a_checked_read_trusts_only_what_is_cached() {
    let mut env = MemEnv::new();
    env.write_file("/db/000005.ldb", &with_changed_value()).unwrap();
    let mut cache: TableCache<Order, MemEnv> =
        TableCache::<Order, MemEnv>::new("/db", order(), 10, 1 << 20);
    assert!(cache.has_ids_for(u64::MAX));
    let key = entries(300)[0].0.clone();
    let changed = Some(b"w".to_vec());
    assert!(cache.get(&env, 5, &key).unwrap_err().is_corruption());
    assert!(!cache.has_ids_for(u64::MAX));
    assert_eq!(cache.get_full(&env, 5, &key, false, false).unwrap(), changed);
    assert!(cache.get_full(&env, 5, &key, true, true).unwrap_err().is_corruption());
    assert!(cache.internal_get(&env, 5, &key).unwrap_err().is_corruption());
    assert_eq!(cache.get_verify(&env, 5, &key, false).unwrap(), changed);
    assert_eq!(cache.get(&env, 5, &key).unwrap(), changed);
    match cache.internal_get_full(&env, 5, &key, true, true).unwrap() {
        LookupResult::Found(value) => assert_eq!(value, b"w".to_vec()),
        _ => panic!("the cached block has the key"),
    }
    cache.evict(5);
    assert!(cache.get(&env, 5, &key).unwrap_err().is_corruption());
}

#[test]
fn a_table_reads_its_blocks_by_way_of_a_cache() {
    let image = with_changed_value();
    let size = image.len() as u64;
    let mut blocks: ShardedLRUCache<Arc<Block>> = ShardedLRUCache::new(1 << 20);
    let table: Table<Order, VecRandomAccessFile> = Table::open_random_with_cache(
        VecRandomAccessFile::new(image),
        size,
        order(),
        &mut blocks,
    )
    .unwrap();
    assert_eq!(blocks.last_id(), 1);
    let key = entries(300)[0].0.clone();
    let other = entries(300)[299].clone();
    assert!(table.get_full(&mut blocks, &key, true, true).is_err());
    assert_eq!(blocks.total_charge(), 0);
    assert!(table.get_full(&mut blocks, &key, false, false).is_ok());
    assert_eq!(blocks.total_charge(), 0);
    assert_eq!(table.get_full(&mut blocks, &other.0, true, true).unwrap(), Some(other.1));
    let charged = blocks.total_charge();
    assert!(charged > 0);
    assert!(table.get_full(&mut blocks, &key, false, true).is_ok());
    assert!(blocks.total_charge() > charged);
    assert!(table.get_full(&mut blocks, &key, true, true).is_ok());
}

#[test]
fn an_index_out_of_order_is_read_as_it_stands() {
    let mut builder = TableBuilder::new(order(), 1, 1);
    let history: Vec<(Vec<u8>, Vec<u8>)> = (0..9)
        .map(|i| (ikey("k", 9 - i, ValueType::Value), vec![b'0' + i as u8]))
        .collect();
    for (key, value) in &history {
        builder.add(key, value);
    }
    builder.finish().unwrap();
    let table = Table::open(builder.contents().to_vec(), BytewiseComparator).unwrap();
    assert_eq!(table.collect_entries().unwrap(), history);
    assert_eq!(table.collect_entries_verify(false).unwrap(), history);
    assert_eq!(table.get(&history[0].0).unwrap(), None);
    assert_eq!(table.get(&history[8].0).unwrap(), None);
    assert_eq!(table.approximate_offset_of(&history[8].0), 0);
    assert!(table.approximate_offset_of(&history[0].0) > 0);
}
