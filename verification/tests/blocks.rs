use pulsearc_db::block::Block;
use pulsearc_db::block::BlockBuilder;
use pulsearc_db::block::BlockEntry;
use pulsearc_db::block::BlockHandle;
use pulsearc_db::block::BlockIter;
use pulsearc_db::block::BlockRestartTrailer;
use pulsearc_db::block::BlockTrailer;
use pulsearc_db::comparator::BytewiseComparator;
use pulsearc_db::db_iter::DBIter;
use pulsearc_db::db_iter::DbIterator;
use pulsearc_db::env::MemSequentialFile;
use pulsearc_db::env::MemWritableFile;
use pulsearc_db::env::WritableFile;
use pulsearc_db::filter::BloomFilterPolicy;
use pulsearc_db::filter::FilterBytes;
use pulsearc_db::filter::FilterPolicy;
use pulsearc_db::filter::InternalFilterPolicy;
use pulsearc_db::filter::KeyBytes;
use pulsearc_db::filter::PolicyTitle;
use pulsearc_db::filter_block::FilterBlockBuilder;
use pulsearc_db::filter_block::FilterBlockReader;
use pulsearc_db::log::LogReader;
use pulsearc_db::log::LogRecordHeader;
use pulsearc_db::log::LogSequentialReader;
use pulsearc_db::log::LogWriter;
use pulsearc_db::merging_iter::MergingIterator;
use pulsearc_db::table::TableFooter;

fn built(entries: &[(&[u8], &[u8])], interval: usize) -> Block {
    let mut builder = BlockBuilder::new(BytewiseComparator, interval);
    for (key, value) in entries {
        builder.add(key, value);
    }
    Block::new(builder.finish().to_vec()).unwrap()
}

#[test]
fn a_block_has_prefixes_and_restarts() {
    let mut builder = BlockBuilder::new(BytewiseComparator, 2);
    assert!(builder.empty());
    builder.add(b"ab", b"1");
    builder.add(b"ac", b"2");
    builder.add(b"b", b"3");
    assert_eq!(
        builder.finish(),
        &[
            0, 2, 1, b'a', b'b', b'1', 1, 1, 1, b'c', b'2', 0, 1, 1, b'b', b'3', 0, 0, 0, 0, 11, 0,
            0, 0, 2, 0, 0, 0,
        ]
    );
}

#[test]
fn a_block_is_scanned_both_ways() {
    let block = built(&[(b"a", b"1"), (b"b", b"2"), (b"c", b"3"), (b"e", b"4")], 2);
    let mut iter = BlockIter::new(&block, BytewiseComparator);
    iter.seek_to_first();
    let mut keys = Vec::new();
    while iter.valid() {
        keys.push((iter.key().to_vec(), iter.value().to_vec()));
        iter.next();
    }
    assert_eq!(keys.len(), 4);
    assert_eq!(keys[2], (b"c".to_vec(), b"3".to_vec()));
    iter.seek(b"d");
    assert_eq!(iter.key(), b"e");
    iter.prev();
    assert_eq!(iter.key(), b"c");
    iter.seek(b"f");
    assert!(!iter.valid());
    iter.seek_to_last();
    assert_eq!(iter.key(), b"e");
    assert!(iter.status().is_ok());
}

#[test]
fn a_block_too_small_for_its_restarts_is_corrupt() {
    let error = Block::new(vec![1, 0]).unwrap_err();
    assert!(error.is_corruption());
    assert!(Block::new(vec![9, 0, 0, 0]).unwrap_err().is_corruption());
}

#[test]
fn a_damaged_entry_stops_the_iterator() {
    let mut bytes = built(&[(b"a", b"1"), (b"b", b"2")], 16).bytes().to_vec();
    bytes[2] = 0x7f;
    let block = Block::new(bytes).unwrap();
    let mut iter = BlockIter::new(&block, BytewiseComparator);
    iter.seek_to_first();
    assert!(!iter.valid());
    assert!(iter.status().unwrap_err().is_corruption());
}

#[test]
fn parts_of_files_round_trip() {
    let handle = BlockHandle { offset: 300, size: 7 };
    let mut bytes = Vec::new();
    handle.encode(&mut bytes);
    assert_eq!(bytes, vec![0xac, 0x02, 7]);
    let mut input: &[u8] = &bytes;
    let read = BlockHandle::decode_from(&mut input).unwrap();
    assert_eq!((read.offset, read.size), (300, 7));
    assert!(BlockHandle::decode_from(&mut input).unwrap_err().is_corruption());

    let footer = TableFooter { metaindex: BlockHandle { offset: 1, size: 2 }, index: handle };
    let mut image = Vec::new();
    footer.encode(&mut image);
    assert_eq!(image.len(), 48);
    let mut rest: &[u8] = &image;
    let back = TableFooter::decode_from(&mut rest).unwrap();
    assert_eq!((back.metaindex.offset, back.index.offset), (1, 300));
    image[47] ^= 1;
    let mut damaged: &[u8] = &image;
    assert!(TableFooter::decode_from(&mut damaged).unwrap_err().is_corruption());

    let mut trailer = Vec::new();
    BlockTrailer { kind: 1, crc: 0 }.encode(&mut trailer);
    assert_eq!(trailer, vec![1, 0xd8, 0xea, 0x82, 0xa2]);
    let mut masked: &[u8] = &trailer;
    assert_eq!(BlockTrailer::decode_from(&mut masked).unwrap().crc, 0);
    let mut restarts = Vec::new();
    BlockRestartTrailer { items: vec![0, 5] }.encode(&mut restarts);
    assert_eq!(restarts, vec![0, 0, 0, 0, 5, 0, 0, 0, 2, 0, 0, 0]);

    let entry = BlockEntry {
        shared: 1,
        unshared: 2,
        value_len: 1,
        key_delta: b"bc".to_vec(),
        value: b"v".to_vec(),
    };
    let mut encoded = Vec::new();
    entry.encode(&mut encoded);
    let mut source: &[u8] = &encoded;
    let decoded = BlockEntry::decode_from(&mut source).unwrap();
    assert_eq!(decoded.key_delta, b"bc".to_vec());
    assert_eq!(decoded.value, b"v".to_vec());
    assert_eq!(decoded.shared, 1);

    let mut header = Vec::new();
    LogRecordHeader { crc: 1, length: 2, kind: 3 }.encode(&mut header);
    assert_eq!(header, vec![0xd8, 0xea, 0x84, 0xa2, 2, 0, 3]);
}

#[test]
fn a_bloom_filter_has_no_false_negatives() {
    let policy = BloomFilterPolicy::new(10);
    assert_eq!(policy.k(), 6);
    let keys: Vec<Vec<u8>> = (0u32..200).map(|i| i.to_le_bytes().to_vec()).collect();
    let refs: Vec<&[u8]> = keys.iter().map(|k| k.as_slice()).collect();
    let mut filter = Vec::new();
    policy.create_filter(&refs, &mut filter);
    assert_eq!(filter.len(), 200 * 10 / 8 + 1);
    assert_eq!(*filter.last().unwrap(), 6);
    for key in &keys {
        assert!(policy.key_may_match(key, &filter));
    }
    let misses = (1000u32..2000).filter(|i| policy.key_may_match(&i.to_le_bytes(), &filter)).count();
    assert!(misses < 100);
    assert!(!policy.key_may_match(b"a", &[]));
}

#[test]
fn an_internal_filter_ignores_the_tag() {
    let policy = InternalFilterPolicy::new(BloomFilterPolicy::new(10));
    let mut first = b"key".to_vec();
    first.extend_from_slice(&[1, 0, 0, 0, 0, 0, 0, 0]);
    let mut second = b"key".to_vec();
    second.extend_from_slice(&[1, 9, 0, 0, 0, 0, 0, 0]);
    let mut filter = Vec::new();
    policy.create_filter(&[first.as_slice()], &mut filter);
    assert!(policy.key_may_match(&second, &filter));
}

#[test]
fn a_filter_block_finds_its_keys() {
    let mut builder = FilterBlockBuilder::new(BloomFilterPolicy::new(10));
    builder.start_block(0);
    builder.add_key(b"foo");
    builder.start_block(3000);
    builder.add_key(b"box");
    let image = builder.finish().to_vec();
    let reader = FilterBlockReader::new(BloomFilterPolicy::new(10), &image).unwrap();
    assert!(reader.key_may_match(0, b"foo"));
    assert!(reader.key_may_match(3000, b"box"));
    assert!(!reader.key_may_match(0, b"box"));
    assert!(!reader.key_may_match(3000, b"foo"));
    assert!(FilterBlockReader::new(BloomFilterPolicy::new(10), b"ab").is_none());
}

#[test]
fn a_filter_block_admits_keys_at_the_offsets_of_their_blocks() {
    let blocks: Vec<(u64, Vec<Vec<u8>>)> = vec![
        (0, vec![b"foo".to_vec(), b"bar".to_vec()]),
        (100, vec![b"box".to_vec()]),
        (2047, vec![]),
        (3100, vec![b"box".to_vec()]),
        (9000, vec![b"hello".to_vec(), b"again".to_vec()]),
    ];
    let mut builder = FilterBlockBuilder::new(BloomFilterPolicy::new(10));
    for (offset, keys) in &blocks {
        builder.start_block(*offset);
        for key in keys {
            builder.add_key(key);
        }
    }
    let image = builder.finish().to_vec();
    let reader = FilterBlockReader::new(BloomFilterPolicy::new(10), &image).unwrap();
    for (offset, keys) in &blocks {
        for key in keys {
            assert!(reader.key_may_match(*offset, key));
        }
    }
    assert!(!reader.key_may_match(9000, b"foo"));
    assert!(!reader.key_may_match(3100, b"hello"));
}

#[test]
fn a_changed_byte_ends_a_log() {
    let mut writer = LogWriter::new();
    writer.add_record(b"one");
    writer.add_record(b"two");
    let place = writer.bytes().len();
    writer.add_record(b"three");
    writer.add_record(b"four");
    let bytes = writer.into_bytes();
    for at in place..place + 12 {
        if at == place + 4 || at == place + 5 {
            continue;
        }
        let mut changed = bytes.clone();
        changed[at] ^= 0x20;
        let mut reader = LogReader::new(&changed);
        assert_eq!(reader.read_record().unwrap(), Some(b"one".to_vec()));
        assert_eq!(reader.read_record().unwrap(), Some(b"two".to_vec()));
        for _ in 0..3 {
            let error = reader.read_record().unwrap_err();
            assert!(error.is_corruption());
            assert_eq!(error.message(), "LogReader: bad record CRC");
        }
    }
}

#[test]
fn a_log_gives_back_its_records() {
    let mut writer = LogWriter::new();
    let long = vec![b'x'; 100_000];
    writer.add_record(b"first");
    writer.add_record(&long);
    writer.add_record(b"");
    let bytes = writer.into_bytes();
    let mut reader = LogReader::new(&bytes);
    assert_eq!(reader.read_record().unwrap(), Some(b"first".to_vec()));
    assert_eq!(reader.read_record().unwrap(), Some(long.clone()));
    assert_eq!(reader.read_record().unwrap(), Some(Vec::new()));
    assert_eq!(reader.read_record().unwrap(), None);
    let mut streamed = LogSequentialReader::new(MemSequentialFile::new(bytes));
    assert_eq!(streamed.read_record().unwrap(), Some(b"first".to_vec()));
    assert_eq!(streamed.read_record().unwrap(), Some(long));
}

#[test]
fn a_record_has_a_header_of_seven_bytes() {
    let mut writer = LogWriter::new();
    writer.add_record(b"abc");
    assert_eq!(writer.bytes().len(), 10);
    assert_eq!(&writer.bytes()[4..7], &[3, 0, 1]);
    assert_eq!(&writer.bytes()[7..], b"abc");
}

#[test]
fn a_damaged_record_is_reported() {
    let mut writer = LogWriter::new();
    writer.add_record(b"abc");
    let mut bytes = writer.into_bytes();
    bytes[8] ^= 1;
    let mut reader = LogReader::new(&bytes);
    assert!(reader.read_record().unwrap_err().is_corruption());
}

#[test]
fn a_writer_rewinds_to_a_mark() {
    let mut writer = LogWriter::new();
    writer.add_record(b"kept");
    let mark = writer.mark();
    let before = writer.bytes().to_vec();
    writer.add_record(b"dropped");
    writer.rewind_to(mark);
    assert_eq!(writer.bytes(), before.as_slice());
}

#[test]
fn a_pair_is_logged_as_one_record() {
    let mut writer = LogWriter::new();
    let mut file = MemWritableFile::new();
    writer.add_record_pair_to(&mut file, b"ab", b"cd").unwrap();
    let mut whole = LogWriter::new();
    whole.add_record(b"abcd");
    assert_eq!(file.bytes(), whole.bytes());
    file.append(b"!").unwrap();
    assert_eq!(file.bytes().len(), whole.bytes().len() + 1);
}

#[test]
fn merging_keeps_the_order() {
    let first = built(&[(b"a", b"1"), (b"d", b"4")], 16);
    let second = built(&[(b"b", b"2"), (b"c", b"3")], 16);
    let children: Vec<Box<dyn DbIterator>> = vec![
        Box::new(BlockIter::from_owned(first, BytewiseComparator)),
        Box::new(BlockIter::from_owned(second, BytewiseComparator)),
    ];
    let mut iter = MergingIterator::new(BytewiseComparator, children);
    iter.seek_to_first();
    let mut keys = Vec::new();
    while iter.valid() {
        keys.push(iter.key().to_vec());
        iter.next();
    }
    assert_eq!(keys, vec![b"a".to_vec(), b"b".to_vec(), b"c".to_vec(), b"d".to_vec()]);
    iter.seek(b"c");
    iter.prev();
    assert_eq!(iter.key(), b"b");
    iter.next();
    assert_eq!(iter.key(), b"c");
    iter.seek_to_last();
    assert_eq!(iter.value(), b"4");
}

#[test]
fn a_fragment_is_what_was_added() {
    let mut writer = LogWriter::new();
    let mut file = MemWritableFile::new();
    let mut other = LogWriter::new();
    for record in [b"one".to_vec(), vec![7u8; 40000]] {
        let before = writer.bytes().len();
        let added = writer.add_record_and_get_fragment(&record).to_vec();
        assert_eq!(writer.bytes()[before..], added[..]);
        other.add_record_to(&mut file, &record).unwrap();
    }
    assert_eq!(file.bytes(), writer.bytes());
}

#[test]
fn a_block_knows_its_size() {
    let mut builder = BlockBuilder::new(BytewiseComparator, 2);
    for key in [b"a", b"b", b"c"] {
        builder.add(key, b"value");
    }
    let estimate = builder.current_size_estimate();
    assert_eq!(builder.finish().len(), estimate);
}

/// Admits every key, whatever the filter is.
struct AdmitAll;

impl FilterPolicy for AdmitAll {
    fn title(&self) -> PolicyTitle {
        unreachable!()
    }

    fn filter(&self, _keys: KeyBytes) -> FilterBytes {
        unreachable!()
    }

    fn admits(&self, _key: FilterBytes, _filter: FilterBytes) -> bool {
        unreachable!()
    }

    fn name(&self) -> &'static str {
        "admit all"
    }

    fn create_filter(&self, _keys: &[&[u8]], dst: &mut Vec<u8>) {
        dst.push(1);
    }

    fn key_may_match(&self, _key: &[u8], _filter: &[u8]) -> bool {
        true
    }
}

#[test]
fn an_empty_filter_is_left_to_the_policy() {
    let mut builder = FilterBlockBuilder::new(AdmitAll);
    builder.start_block(0);
    builder.add_key(b"a");
    builder.start_block(3 << 11);
    builder.add_key(b"b");
    let image = builder.finish().to_vec();
    let reader = FilterBlockReader::new(AdmitAll, &image).unwrap();
    assert!(reader.key_may_match(0, b"a"));
    assert!(reader.key_may_match(1 << 11, b"z"));
    let mut builder = FilterBlockBuilder::new(BloomFilterPolicy::new(10));
    builder.start_block(0);
    builder.add_key(b"a");
    builder.start_block(3 << 11);
    builder.add_key(b"b");
    let image = builder.finish().to_vec();
    let reader = FilterBlockReader::new(BloomFilterPolicy::new(10), &image).unwrap();
    assert!(!reader.key_may_match(1 << 11, b"a"));
}

#[test]
fn a_damaged_record_is_reported_again() {
    let mut writer = LogWriter::new();
    writer.add_record(b"kept");
    writer.add_record(b"abc");
    let mut bytes = writer.into_bytes();
    let last = bytes.len() - 1;
    bytes[last] ^= 1;
    let mut reader = LogReader::new(&bytes);
    let mut streamed = LogSequentialReader::new(MemSequentialFile::new(bytes.clone()));
    assert_eq!(reader.read_record().unwrap(), Some(b"kept".to_vec()));
    assert_eq!(streamed.read_record().unwrap(), Some(b"kept".to_vec()));
    for _ in 0..3 {
        assert!(reader.read_record().unwrap_err().is_corruption());
        assert!(streamed.read_record().unwrap_err().is_corruption());
    }
}

#[test]
fn damage_is_met_by_every_move() {
    let mut bytes = built(&[(b"a", b"1"), (b"b", b"2"), (b"c", b"3")], 16).bytes().to_vec();
    bytes[7] = 0x7f;
    let block = Block::new(bytes).unwrap();
    let mut iter = BlockIter::new(&block, BytewiseComparator);
    iter.seek(b"b");
    assert!(!iter.valid());
    assert!(iter.status().unwrap_err().is_corruption());
    let mut iter = BlockIter::new(&block, BytewiseComparator);
    iter.seek_to_last();
    assert!(!iter.valid());
    assert!(iter.status().unwrap_err().is_corruption());
    let mut iter = BlockIter::new(&block, BytewiseComparator);
    iter.seek(b"a");
    assert_eq!(iter.key(), b"a");
    iter.next();
    assert!(!iter.valid());
    assert_eq!(iter.status().unwrap_err().message(), "Block: truncated entry");
}

#[test]
fn a_damaged_restart_point_is_reported() {
    let mut bytes =
        built(&[(b"a", b"1"), (b"b", b"2"), (b"c", b"3")], 1).bytes().to_vec();
    bytes[11] = 0x7f;
    let block = Block::new(bytes).unwrap();
    let mut iter = BlockIter::new(&block, BytewiseComparator);
    iter.seek(b"c");
    assert!(!iter.valid());
    assert_eq!(iter.status().unwrap_err().message(), "Block: truncated seek");
}

fn merge_of(sources: &[&[(&[u8], &[u8])]]) -> MergingIterator<BytewiseComparator> {
    let children: Vec<Box<dyn DbIterator>> = sources
        .iter()
        .map(|entries| {
            let iter = BlockIter::from_owned(built(entries, 16), BytewiseComparator);
            Box::new(iter) as Box<dyn DbIterator>
        })
        .collect();
    MergingIterator::new(BytewiseComparator, children)
}

#[test]
fn merging_yields_equal_keys_of_all_sources() {
    let mut iter = merge_of(&[
        &[(b"a", b"1"), (b"b", b"2")],
        &[(b"a", b"3"), (b"c", b"4")],
        &[(b"b", b"5")],
    ]);
    let mut found = Vec::new();
    iter.seek_to_first();
    while iter.valid() {
        found.push((iter.key().to_vec(), iter.value().to_vec()));
        iter.next();
    }
    let all: Vec<(Vec<u8>, Vec<u8>)> = [(b"a", b"1"), (b"a", b"3"), (b"b", b"2"), (b"b", b"5"), (b"c", b"4")]
        .iter()
        .map(|(key, value)| (key.to_vec(), value.to_vec()))
        .collect();
    assert_eq!(found, all);
    let mut back = Vec::new();
    iter.seek_to_last();
    while iter.valid() {
        back.push(iter.key().to_vec());
        iter.prev();
    }
    assert_eq!(
        back,
        vec![b"c".to_vec(), b"b".to_vec(), b"b".to_vec(), b"a".to_vec(), b"a".to_vec()]
    );
    assert!(iter.status().is_ok());
}

#[test]
fn merging_nothing_is_never_valid() {
    let mut none = merge_of(&[]);
    none.seek_to_first();
    assert!(!none.valid());
    none.seek(b"a");
    assert!(!none.valid());
    none.seek_to_last();
    assert!(!none.valid());
}

#[test]
fn iterators_over_a_failed_source_tell_its_failure() {
    let failed = || {
        let mut bytes = BlockBuilder::new(BytewiseComparator, 16);
        bytes.add(b"a", b"1");
        let mut image = bytes.finish().to_vec();
        image[1] = 0x7f;
        let mut iter = BlockIter::from_owned(Block::new(image).unwrap(), BytewiseComparator);
        iter.seek_to_first();
        assert!(iter.status().is_err());
        iter
    };
    let told = failed().status().unwrap_err();
    let mut merged = MergingIterator::new(BytewiseComparator, vec![Box::new(failed())]);
    assert_eq!(merged.status().unwrap_err().message(), told.message());
    merged.seek_to_first();
    assert!(!merged.valid());
    assert_eq!(merged.status().unwrap_err().message(), told.message());
    let mut shown = DBIter::new(BytewiseComparator, failed(), 9);
    assert_eq!(shown.status().unwrap_err().message(), told.message());
    shown.seek_to_last();
    assert!(!shown.valid());
    assert!(shown.status().is_err());
}
