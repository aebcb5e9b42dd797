use pulsearc_db::comparator::BytewiseComparator;
use pulsearc_db::db_impl::enter;
use pulsearc_db::db_impl::entries_for;
use pulsearc_db::db_impl::numbers;
use pulsearc_db::db_impl::state::BackgroundStep;
use pulsearc_db::db_impl::state::Room;
use pulsearc_db::db_impl::write_queue::WriterQueue;
use pulsearc_db::db_impl::DBImplCore;
use pulsearc_db::db_iter::entries_iter::EntriesIterator;
use pulsearc_db::db_iter::DBIter;
use pulsearc_db::db_iter::DbIterator;
use pulsearc_db::format::InternalKey;
use pulsearc_db::format::InternalKeyComparator;
use pulsearc_db::format::LookupKey;
use pulsearc_db::format::ValueType;
use pulsearc_db::memtable::MemTable;
use pulsearc_db::memtable::SharedMemTable;
use pulsearc_db::skiplist::SkipList;
use pulsearc_db::status::Status;
use pulsearc_db::version_set::LookupResult;
use pulsearc_db::write_batch::Update;
use pulsearc_db::write_batch::WriteBatch;

type Order = InternalKeyComparator<BytewiseComparator>;

fn order() -> Order {
    InternalKeyComparator::new(BytewiseComparator)
}

fn ikey(user: &[u8], sequence: u64, value_type: ValueType) -> Vec<u8> {
    InternalKey::new(user, sequence, value_type).encode().to_vec()
}

fn batch(puts: &[(&[u8], &[u8])]) -> WriteBatch {
    let mut batch = WriteBatch::new();
    for (key, value) in puts {
        batch.put(key, value);
    }
    batch
}

fn write(core: &mut DBImplCore<BytewiseComparator>, batch: WriteBatch) {
    let (id, _) = core.queue.enqueue(batch, false);
    assert!(core.queue.is_front(id));
    let (group, count, sync, sequence) = core.begin_group();
    assert_eq!(count, 1);
    assert!(!sync);
    assert_eq!(sequence, core.last_sequence() + 1);
    core.commit_group(&group, Ok(()), false).unwrap();
    core.queue.finish_writer_group(count);
}

fn fresh() -> DBImplCore<BytewiseComparator> {
    DBImplCore::new(BytewiseComparator, 100, 0, 1)
}

fn found(result: LookupResult) -> Option<Vec<u8>> {
    match result {
        LookupResult::Found(value) => Some(value),
        _ => None,
    }
}

#[test]
fn a_skip_list_keeps_its_keys_in_order() {
    let mut list = SkipList::new(BytewiseComparator);
    for key in [b"c", b"a", b"d", b"b"] {
        list.insert(key.to_vec());
    }
    assert_eq!(list.len(), 4);
    assert!(list.contains(b"c"));
    assert!(!list.contains(b"e"));
    let mut iter = list.iter();
    iter.seek_to_first();
    let mut keys = Vec::new();
    while iter.valid() {
        keys.push(iter.key().to_vec());
        iter.next();
    }
    assert_eq!(keys.concat(), b"abcd".to_vec());
    iter.seek(b"bb");
    assert_eq!(iter.key(), b"c");
    iter.prev();
    assert_eq!(iter.key(), b"b");
}

#[test]
fn a_memtable_answers_by_sequence() {
    let mut mem = MemTable::new(BytewiseComparator);
    mem.add(1, ValueType::Value, b"k", b"one");
    mem.add(3, ValueType::Deletion, b"k", b"");
    mem.add(5, ValueType::Value, b"k", b"five");
    assert_eq!(mem.get(&LookupKey::new(b"k", 9)).unwrap().unwrap(), b"five".to_vec());
    assert!(mem.get(&LookupKey::new(b"k", 4)).unwrap().unwrap_err().is_not_found());
    assert_eq!(mem.get(&LookupKey::new(b"k", 2)).unwrap().unwrap(), b"one".to_vec());
    assert!(mem.get(&LookupKey::new(b"k", 0)).is_none());
    assert!(mem.get(&LookupKey::new(b"j", 9)).is_none());
    let entries = mem.collect_entries();
    assert_eq!(entries.len(), 3);
    assert_eq!(entries[0].0, ikey(b"k", 5, ValueType::Value));
    assert_eq!(entries[2].1, b"one".to_vec());
}

#[test]
fn a_batch_has_its_documented_bytes() {
    let mut one = batch(&[(b"k", b"v")]);
    one.delete(b"d");
    one.set_sequence(7);
    assert_eq!(one.count(), 2);
    assert_eq!(
        one.contents(),
        vec![7, 0, 0, 0, 0, 0, 0, 0, 2, 0, 0, 0, 1, 1, b'k', 1, b'v', 0, 1, b'd']
    );
    let mut read = WriteBatch::new();
    read.set_contents(&one.contents()).unwrap();
    assert_eq!(read.sequence(), 7);
    let (updates, problem) = read.updates();
    assert!(problem.is_none());
    assert_eq!(updates.len(), 2);
    assert!(matches!(&updates[0], Update::Put(key, value) if key == b"k" && value == b"v"));
    assert!(matches!(&updates[1], Update::Delete(key) if key == b"d"));
}

#[test]
fn damaged_batches_are_told() {
    let mut read = WriteBatch::new();
    let error = read.set_contents(b"short").unwrap_err();
    assert_eq!(error.message(), "malformed WriteBatch (too small)");
    read.set_contents(&[0, 0, 0, 0, 0, 0, 0, 0, 1, 0, 0, 0]).unwrap();
    let (updates, problem) = read.updates();
    assert!(updates.is_empty());
    assert_eq!(problem.unwrap().message(), "WriteBatch has wrong count");
    read.set_contents(&[0, 0, 0, 0, 0, 0, 0, 0, 1, 0, 0, 0, 9]).unwrap();
    assert!(read.updates().1.unwrap().is_corruption());
}

#[test]
fn batches_append() {
    let mut first = batch(&[(b"a", b"1")]);
    first.append(&batch(&[(b"b", b"2")]));
    assert_eq!(first.count(), 2);
    first.clear();
    assert_eq!(first.count(), 0);
    assert_eq!(first.approximate_size(), 12);
}

#[test]
fn writers_are_grouped_in_order() {
    let mut queue = WriterQueue::new();
    let (first, _) = queue.enqueue(batch(&[(b"a", b"1")]), false);
    let (second, _) = queue.enqueue(batch(&[(b"b", b"2")]), false);
    let (third, _) = queue.enqueue(batch(&[(b"c", b"3")]), true);
    assert!(queue.is_front(first));
    assert!(!queue.is_front(second));
    let (group, count, sync) = queue.build_batch_group();
    assert_eq!((group.count(), count, sync), (2, 2, false));
    assert_eq!(queue.finish_writer_group(count), vec![second]);
    assert!(queue.is_front(third));
    let (_, last, synced) = queue.build_batch_group();
    assert_eq!((last, synced), (1, true));
    queue.finish_writer_group(last);
    assert_eq!(queue.len(), 0);
}

#[test]
fn committed_updates_are_seen() {
    let mut core = fresh();
    write(&mut core, batch(&[(b"k", b"v1"), (b"l", b"w")]));
    assert_eq!(core.last_sequence(), 2);
    let snapshot = core.get_snapshot();
    write(&mut core, batch(&[(b"k", b"v2")]));
    let mut deletion = WriteBatch::new();
    deletion.delete(b"l");
    write(&mut core, deletion);
    let now = core.last_sequence();
    assert_eq!(found(core.get_from_memory(b"k", now)), Some(b"v2".to_vec()));
    assert!(matches!(core.get_from_memory(b"l", now), LookupResult::Deleted));
    assert_eq!(found(core.get_from_memory(b"k", snapshot.sequence())), Some(b"v1".to_vec()));
    assert_eq!(found(core.get_from_memory(b"l", snapshot.sequence())), Some(b"w".to_vec()));
    assert!(matches!(core.get_from_memory(b"m", now), LookupResult::NotFound));
    assert_eq!(core.smallest_snapshot_sequence(), 2);
    let other = snapshot.clone();
    core.release_snapshot(snapshot);
    assert_eq!(core.smallest_snapshot_sequence(), 2);
    drop(other);
    assert_eq!(core.smallest_snapshot_sequence(), 4);
    assert_eq!(core.snapshots.len(), 1);
    let later = core.get_snapshot();
    assert_eq!(later.sequence(), 4);
    assert_eq!(core.snapshots.len(), 1);
    assert_eq!(core.smallest_live(&vec![1]), 4);
    core.retain_live(&vec![1]);
    assert!(core.snapshots.is_empty());
}

#[test]
fn a_switched_memtable_is_still_seen() {
    let mut core = fresh();
    write(&mut core, batch(&[(b"k", b"old")]));
    core.switch_memtable(2);
    assert_eq!(core.approximate_memtable_usage(), 0);
    assert!(core.has_pending_work());
    assert_eq!(found(core.get_from_memory(b"k", 1)), Some(b"old".to_vec()));
    write(&mut core, batch(&[(b"k", b"new")]));
    assert_eq!(found(core.get_from_memory(b"k", 2)), Some(b"new".to_vec()));
    assert_eq!(found(core.get_from_memory(b"k", 1)), Some(b"old".to_vec()));
}

#[test]
fn a_failed_log_leaves_no_trace() {
    let mut core = fresh();
    core.queue.enqueue(batch(&[(b"k", b"v")]), false);
    let (group, count, _, _) = core.begin_group();
    let outcome = core.commit_group(&group, Err(Status::io_error("disk")), false);
    assert!(outcome.unwrap_err().is_io_error());
    core.queue.finish_writer_group(count);
    assert_eq!(core.last_sequence(), 0);
    assert!(matches!(core.get_from_memory(b"k", 9), LookupResult::NotFound));
}

#[test]
fn a_failed_sync_stops_writes() {
    let mut core = fresh();
    core.queue.enqueue(batch(&[(b"k", b"v")]), true);
    let (group, _, _, _) = core.begin_group();
    let outcome = core.commit_group(&group, Err(Status::io_error("sync")), true);
    assert!(outcome.is_err());
    assert!(core.bg_error.is_some());
    assert!(matches!(core.make_room_for_write(true, 0), Room::Fail(_)));
}

#[test]
fn room_is_made_by_rule() {
    let mut core = fresh();
    assert!(matches!(core.make_room_for_write(true, 0), Room::Proceed));
    assert!(matches!(core.make_room_for_write(true, 8), Room::Delay));
    assert!(matches!(core.make_room_for_write(false, 8), Room::Proceed));
    write(&mut core, batch(&[(b"key", &[0; 200])]));
    assert!(matches!(core.make_room_for_write(false, 0), Room::Switch));
    assert!(matches!(core.make_room_for_write(false, 12), Room::Wait));
    core.switch_memtable(2);
    write(&mut core, batch(&[(b"key", &[0; 200])]));
    assert!(matches!(core.make_room_for_write(false, 0), Room::Wait));
}

#[test]
fn tables_are_deleted_once_no_iterator_reads_them() {
    let mut core = fresh();
    core.register_iterator();
    assert!(core.retire_table_file_numbers(vec![4, 3]).is_empty());
    assert_eq!(core.release_iterator(), vec![3, 4]);
    assert_eq!(core.retire_table_file_numbers(vec![9]), vec![9]);
}

#[test]
fn background_work_is_picked_up() {
    let mut core = fresh();
    assert!(matches!(core.next_background_step(), BackgroundStep::Park));
    core.schedule_work();
    assert!(matches!(core.next_background_step(), BackgroundStep::Work));
    core.end_background_work(Ok(()));
    assert!(core.is_idle());
    core.shutting_down = true;
    assert!(matches!(core.next_background_step(), BackgroundStep::Stop));
}

#[test]
fn updates_enter_one_after_the_other() {
    let mut mem = SharedMemTable::new(BytewiseComparator);
    let updates = vec![
        Update::Put(b"a".to_vec(), b"1".to_vec()),
        Update::Delete(b"a".to_vec()),
        Update::Put(b"b".to_vec(), b"2".to_vec()),
    ];
    let (_, all) = enter::enter_updates(&mut mem, 10, &updates);
    assert!(all);
    assert_eq!(mem.len(), 3);
    assert!(matches!(enter::look_up(&mem, b"a", 11), LookupResult::Deleted));
    assert_eq!(found(enter::look_up(&mem, b"a", 10)), Some(b"1".to_vec()));
    let (_, again) = enter::enter_updates(&mut mem, 12, &[Update::Put(b"b".to_vec(), b"x".to_vec())]);
    assert!(!again);
}

fn history() -> EntriesIterator<Order> {
    EntriesIterator::new(
        order(),
        vec![
            (ikey(b"a", 4, ValueType::Value), b"a4".to_vec()),
            (ikey(b"a", 2, ValueType::Value), b"a2".to_vec()),
            (ikey(b"b", 3, ValueType::Deletion), b"".to_vec()),
            (ikey(b"b", 1, ValueType::Value), b"b1".to_vec()),
            (ikey(b"c", 5, ValueType::Value), b"c5".to_vec()),
        ],
    )
}

fn shown(sequence: u64) -> Vec<(Vec<u8>, Vec<u8>)> {
    let mut iter = DBIter::new(BytewiseComparator, history(), sequence);
    let mut seen = Vec::new();
    iter.seek_to_first();
    while iter.valid() {
        seen.push((iter.key().to_vec(), iter.value().to_vec()));
        iter.next();
    }
    assert!(iter.status().is_ok());
    let mut back = Vec::new();
    iter.seek_to_last();
    while iter.valid() {
        back.push((iter.key().to_vec(), iter.value().to_vec()));
        iter.prev();
    }
    back.reverse();
    assert_eq!(seen, back);
    seen
}

#[test]
fn a_scan_shows_the_newest_visible_values() {
    assert_eq!(
        shown(9),
        vec![(b"a".to_vec(), b"a4".to_vec()), (b"c".to_vec(), b"c5".to_vec())]
    );
    assert_eq!(
        shown(2),
        vec![(b"a".to_vec(), b"a2".to_vec()), (b"b".to_vec(), b"b1".to_vec())]
    );
    assert!(shown(0).is_empty());
}

#[test]
fn a_scan_turns_round() {
    let mut iter = DBIter::new(BytewiseComparator, history(), 9);
    iter.seek(b"b");
    assert_eq!(iter.key(), b"c");
    iter.prev();
    assert_eq!(iter.key(), b"a");
    iter.next();
    assert_eq!(iter.key(), b"c");
    iter.next();
    assert!(!iter.valid());
}

#[test]
fn reads_are_sampled() {
    let mut iter = DBIter::new(BytewiseComparator, history(), 9);
    iter.set_sampler();
    iter.set_read_bytes_period(1);
    iter.seek_to_first();
    assert_eq!(iter.take_samples()[0], ikey(b"a", 4, ValueType::Value));
}

#[test]
fn a_new_period_starts_afresh() {
    let mut iter = DBIter::new(BytewiseComparator, history(), 9);
    iter.set_sampler();
    // Each entry takes eleven bytes, but for the deletion, which takes nine.
    iter.set_read_bytes_period(12);
    iter.seek_to_first();
    assert!(iter.take_samples().is_empty());
    iter.set_read_bytes_period(12);
    iter.seek_to_first();
    assert!(iter.take_samples().is_empty());
    iter.next();
    assert_eq!(iter.key(), b"c");
    assert_eq!(
        iter.take_samples(),
        vec![
            ikey(b"a", 4, ValueType::Value),
            ikey(b"a", 2, ValueType::Value),
            ikey(b"b", 3, ValueType::Deletion),
            ikey(b"b", 1, ValueType::Value),
            ikey(b"c", 5, ValueType::Value),
        ]
    );
}

#[test]
fn all_entries_of_a_key_are_listed() {
    let mut iter = history();
    let listed = entries_for::all_entries_for(&BytewiseComparator, &mut iter, b"b").unwrap();
    assert_eq!(listed, vec![None, Some(b"b1".to_vec())]);
    let none = entries_for::all_entries_for(&BytewiseComparator, &mut iter, b"bb").unwrap();
    assert!(none.is_empty());
}

#[test]
fn numbers_are_kept_sorted() {
    assert_eq!(numbers::sorted_numbers(&vec![3, 1, 3, 2]), vec![1, 2, 3, 3]);
    assert_eq!(numbers::sorted_distinct(&vec![3, 1, 3, 2]), vec![1, 2, 3]);
}

#[test]
fn a_list_takes_keys_that_are_made_for_it() {
    let mut list = SkipList::new(BytewiseComparator);
    list.insert(b"b".to_vec());
    list.insert_with(3, |len| vec![b'a'; len]);
    assert_eq!(list.len(), 2);
    let mut iter = list.iter();
    iter.seek_to_first();
    assert_eq!(iter.key(), b"aaa");
}

#[test]
fn a_memtable_holds_all_that_was_added() {
    let mut mem = MemTable::new(BytewiseComparator);
    let adds: Vec<(u64, ValueType, &[u8], &[u8])> = vec![
        (3, ValueType::Value, b"b", b"b3"),
        (1, ValueType::Value, b"a", b"a1"),
        (5, ValueType::Deletion, b"b", b""),
        (4, ValueType::Value, b"c", b"c4"),
        (2, ValueType::Value, b"b", b"b2"),
        (5, ValueType::Value, b"c", b"c5"),
    ];
    for (sequence, value_type, key, value) in &adds {
        mem.add(*sequence, *value_type, key, value);
    }
    let mut expected: Vec<(Vec<u8>, Vec<u8>)> = [1usize, 2, 0, 4, 5, 3]
        .iter()
        .map(|i| (ikey(adds[*i].2, adds[*i].0, adds[*i].1), adds[*i].3.to_vec()))
        .collect();
    assert_eq!(mem.collect_entries(), expected);
    expected.dedup();
    assert_eq!(expected.len(), adds.len());
    let get = |key: &[u8], sequence: u64| mem.get(&LookupKey::new(key, sequence));
    assert!(get(b"b", 9).unwrap().unwrap_err().is_not_found());
    assert_eq!(get(b"b", 4).unwrap().unwrap(), b"b3".to_vec());
    assert_eq!(get(b"b", 2).unwrap().unwrap(), b"b2".to_vec());
    assert!(get(b"b", 1).is_none());
    assert_eq!(get(b"c", 7).unwrap().unwrap(), b"c5".to_vec());
    assert_eq!(get(b"c", 4).unwrap().unwrap(), b"c4".to_vec());
    assert!(get(b"d", 9).is_none());
}
