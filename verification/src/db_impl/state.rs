//! The state of a database.
//!
//! [`DBImplCore`] is what all threads of a database share. Each of its methods is one
//! step that is taken while nobody else looks: a writer joins the queue, a group is
//! entered into the memtable, a memtable is set aside to be written to a table, a key
//! is looked up, a snapshot is taken or let go of.

use vstd::prelude::*;

use std::sync::Arc;

use crate::cache;
use crate::coding;
use crate::comparator;
use crate::comparator::Comparator;
use crate::db_impl::enter;
use crate::db_impl::numbers;
use crate::db_impl::options::CompactionStats;
use crate::db_impl::options::Snapshot;
use crate::db_impl::write_queue::WriterQueue;
use crate::db_iter::seen;
use crate::db_iter::seen::Seen;
use crate::format::InternalKeyComparator;
use crate::format::L0_SLOWDOWN_WRITES_TRIGGER;
use crate::format::L0_STOP_WRITES_TRIGGER;
use crate::format::NUM_LEVELS;
use crate::memtable::SharedMemTable;
use crate::status;
use crate::status::Status;
use crate::table::table_builder;
use crate::version_set::LookupResult;
use crate::write_batch;
use crate::write_batch::Change;
use crate::write_batch::WriteBatch;

verus! {

/// What a writer does before its group is written.
#[derive(Debug)]
pub enum Room {
    /// All writers fail with an error that the background work met.
    Fail(Status),
    /// The writer sleeps for a moment, once, so that compaction keeps up.
    Delay,
    /// There is room in the memtable.
    Proceed,
    /// The writer waits for the background work.
    Wait,
    /// The memtable is full and is to be set aside.
    Switch,
}

/// What the background thread does next.
#[derive(Debug, Copy, Clone, PartialEq, Eq, Structural)]
pub enum BackgroundStep {
    /// It ends.
    Stop,
    /// It waits to be woken.
    Park,
    /// It tells all who wait, and looks again.
    Notify,
    /// It works.
    Work,
}

/// The snapshots on which there is a handle besides the one that is kept.
pub open spec fn live(snapshots: Seq<Arc<Snapshot>>, counts: Seq<usize>) -> Seq<Arc<Snapshot>>
    decreases snapshots.len(),
{
    if snapshots.len() == 0 {
        Seq::empty()
    } else {
        let front = live(snapshots.drop_last(), counts.drop_last());
        if counts.last() > 1 {
            front.push(snapshots.last())
        } else {
            front
        }
    }
}

/// The least sequence number of some snapshots.
pub open spec fn least(snapshots: Seq<Arc<Snapshot>>) -> Option<u64>
    decreases snapshots.len(),
{
    if snapshots.len() == 0 {
        None
    } else {
        match least(snapshots.drop_last()) {
            Some(sequence) if sequence <= snapshots.last().at() => Some(sequence),
            _ => Some(snapshots.last().at()),
        }
    }
}

/// The least sequence number of some snapshots; the latest where there are none.
pub open spec fn oldest(snapshots: Seq<Arc<Snapshot>>, latest: u64) -> u64 {
    match least(snapshots) {
        Some(sequence) => sequence,
        None => latest,
    }
}

/// Whether so many handles were counted on a snapshot.
pub closed spec fn was_counted(snapshot: Arc<Snapshot>, count: usize) -> bool {
    call_ensures(cache::handle_count::<Snapshot>, (&snapshot,), count)
}

/// Whether so many handles were counted on each of some snapshots.
pub open spec fn were_counted(snapshots: Seq<Arc<Snapshot>>, counts: Seq<usize>) -> bool {
    &&& counts.len() == snapshots.len()
    &&& forall|i: int| 0 <= i < counts.len() ==> was_counted(snapshots[i], #[trigger] counts[i])
}

/// Some snapshots are what is left of others by the handles that were counted on them.
pub open spec fn is_pruned(before: Seq<Arc<Snapshot>>, after: Seq<Arc<Snapshot>>) -> bool {
    exists|counts: Seq<usize>|
        were_counted(before, counts) && after == #[trigger] live(before, counts)
}

/// A sequence number is the oldest that is held by the handles that were counted.
pub open spec fn is_oldest_held(
    snapshots: Seq<Arc<Snapshot>>,
    latest: u64,
    sequence: u64,
) -> bool {
    exists|counts: Seq<usize>|
        were_counted(snapshots, counts) && sequence == oldest(
            #[trigger] live(snapshots, counts),
            latest,
        )
}

/// Lets go of a handle.
fn let_go(_snapshot: Arc<Snapshot>) {
}

/// The state of a database.
pub struct DBImplCore<C: Comparator> {
    pub comparator: C,
    pub write_buffer_size: usize,
    /// The memtable that takes updates.
    pub mem: SharedMemTable<C>,
    /// The memtable that is being written to a table.
    pub imm: Option<SharedMemTable<C>>,
    /// The log of the memtable.
    pub log_file_number: u64,
    /// The sequence number of the last update.
    pub last_sequence: u64,
    /// The snapshots that were taken and may still be held.
    pub snapshots: Vec<Arc<Snapshot>>,
    /// How many iterators there are that may read tables which are no longer needed.
    pub active_iterators: usize,
    /// The tables to delete once there are no iterators.
    pub obsolete_table_file_numbers: Vec<u64>,
    pub shutting_down: bool,
    pub bg_work_scheduled: bool,
    pub bg_work_running: bool,
    pub manual_compaction_running: bool,
    /// What the background work failed with, or a sync of the log.
    pub bg_error: Option<Status>,
    pub queue: WriterQueue,
    /// What writing the tables of each level took.
    pub stats: Vec<CompactionStats>,
    /// How many bytes the entries of the memtable take.
    pub mem_memory_usage: usize,
}

impl<C: Comparator> DBImplCore<C> {
    /// The memtables hold internal keys over the order of the user keys.
    pub open spec fn sound(&self) -> bool {
        &&& enter::mem_sound(self.mem)
        &&& enter::mem_user(self.mem) == self.comparator
        &&& self.imm matches Some(imm) ==> enter::mem_sound(imm) && enter::mem_user(imm)
            == self.comparator
        &&& self.last_sequence <= crate::format::MAX_SEQUENCE_NUMBER
        &&& self.stats@.len() == NUM_LEVELS
    }

    /// No entry is newer than the last update, and those that were set aside are older
    /// than the others.
    pub open spec fn settled(&self) -> bool {
        let mem = enter::mem_contents(self.mem);
        &&& seen::all_below(mem, self.last_sequence as nat + 1)
        &&& self.imm matches Some(imm) ==> seen::all_below(
            enter::mem_contents(imm),
            self.last_sequence as nat + 1,
        ) && seen::shadows(self.comparator, mem, enter::mem_contents(imm))
    }

    /// The entries that were set aside.
    pub open spec fn set_aside(&self) -> Map<Seq<u8>, Seq<u8>> {
        match self.imm {
            None => Map::empty(),
            Some(imm) => enter::mem_contents(imm),
        }
    }

    /// The entries that are in memory.
    pub open spec fn contents(&self) -> Map<Seq<u8>, Seq<u8>> {
        match self.imm {
            None => enter::mem_contents(self.mem),
            Some(imm) => enter::mem_contents(imm).union_prefer_right(enter::mem_contents(self.mem)),
        }
    }

    /// What is seen of a key in memory: in the memtable, or else in the one that was
    /// set aside.
    pub open spec fn seen(&self, sequence: nat, key: Seq<u8>) -> Seen {
        let newer = seen::seen_at(self.comparator, enter::mem_contents(self.mem), sequence, key);
        match self.imm {
            None => newer,
            Some(imm) => seen::first_seen(
                newer,
                seen::seen_at(self.comparator, enter::mem_contents(imm), sequence, key),
            ),
        }
    }

    /// The sequence number of the last update.
    pub fn last_sequence(&self) -> (sequence: u64)
        ensures
            sequence == self.last_sequence,
    {
        self.last_sequence
    }

    /// How many bytes the entries of the memtable take.
    pub fn approximate_memtable_usage(&self) -> (bytes: usize)
        ensures
            bytes == self.mem_memory_usage,
    {
        self.mem_memory_usage
    }

    /// A database without updates in memory.
    pub fn new(comparator: C, write_buffer_size: usize, last_sequence: u64, log_file_number: u64) -> (
        core: Self)
        requires
            last_sequence <= crate::format::MAX_SEQUENCE_NUMBER,
        ensures
            core.sound(),
            core.settled(),
            core.comparator == comparator,
            core.write_buffer_size == write_buffer_size,
            core.last_sequence == last_sequence,
            core.log_file_number == log_file_number,
            core.contents() == Map::<Seq<u8>, Seq<u8>>::empty(),
            core.imm is None,
            core.bg_error is None,
            core.snapshots@.len() == 0,
            core.active_iterators == 0,
            core.obsolete_table_file_numbers@.len() == 0,
            !core.shutting_down,
            !core.bg_work_scheduled,
            !core.bg_work_running,
            !core.manual_compaction_running,
            core.queue.waiting().len() == 0,
            core.mem_memory_usage == 0,
            forall|i: int|
                0 <= i < NUM_LEVELS ==> #[trigger] core.stats@[i] == (CompactionStats {
                    micros: 0,
                    bytes_read: 0,
                    bytes_written: 0,
                }),
    {
        let mem = fresh_memtable(&comparator);
        let mut stats: Vec<CompactionStats> = Vec::new();
        while stats.len() < NUM_LEVELS
            invariant
                stats@.len() <= NUM_LEVELS,
                forall|i: int|
                    0 <= i < stats@.len() ==> #[trigger] stats@[i] == (CompactionStats {
                        micros: 0,
                        bytes_read: 0,
                        bytes_written: 0,
                    }),
            decreases NUM_LEVELS - stats@.len(),
        {
            stats.push(CompactionStats { micros: 0, bytes_read: 0, bytes_written: 0 });
        }
        DBImplCore {
            comparator,
            write_buffer_size,
            mem,
            imm: None,
            log_file_number,
            last_sequence,
            snapshots: Vec::new(),
            active_iterators: 0,
            obsolete_table_file_numbers: Vec::new(),
            shutting_down: false,
            bg_work_scheduled: false,
            bg_work_running: false,
            manual_compaction_running: false,
            bg_error: None,
            queue: WriterQueue::new(),
            stats,
            mem_memory_usage: 0,
        }
    }

    // -----------------------------------------------------------------------
    // Writing
    // -----------------------------------------------------------------------

    /// What the writer in front does, given whether it may still sleep and how many
    /// tables the first level has.
    pub fn make_room_for_write(&self, allow_delay: bool, level0_files: usize) -> (room: Room)
        ensures
            match self.bg_error {
                Some(error) => room matches Room::Fail(told) && told == error,
                None => if allow_delay && level0_files >= L0_SLOWDOWN_WRITES_TRIGGER {
                    room is Delay
                } else if self.mem_memory_usage <= self.write_buffer_size {
                    room is Proceed
                } else if self.imm is Some || level0_files >= L0_STOP_WRITES_TRIGGER {
                    room is Wait
                } else {
                    room is Switch
                },
            },
            room is Delay ==> level0_files >= 8,
            room is Switch ==> level0_files < 12 && self.imm is None && self.mem_memory_usage
                > self.write_buffer_size,
            room is Proceed ==> self.mem_memory_usage <= self.write_buffer_size,
            self.bg_error is None && allow_delay && level0_files >= 8 ==> room is Delay,
            self.bg_error is None && level0_files >= 12 && self.mem_memory_usage
                > self.write_buffer_size ==> room is Delay || room is Wait,
    {
        match &self.bg_error {
            Some(error) => {
                return Room::Fail(error.clone());
            },
            None => {},
        }
        if allow_delay && level0_files >= L0_SLOWDOWN_WRITES_TRIGGER {
            return Room::Delay;
        }
        if self.mem_memory_usage <= self.write_buffer_size {
            return Room::Proceed;
        }
        if self.imm.is_some() {
            return Room::Wait;
        }
        if level0_files >= L0_STOP_WRITES_TRIGGER {
            return Room::Wait;
        }
        Room::Switch
    }

    /// Sets the memtable aside and starts an empty one with a log of its own. The
    /// background work is to write the old one to a table.
    pub fn switch_memtable(&mut self, new_log: u64)
        requires
            old(self).sound(),
            old(self).imm is None,
        ensures
            final(self).sound(),
            old(self).settled() ==> final(self).settled(),
            enter::mem_contents(final(self).mem) == Map::<Seq<u8>, Seq<u8>>::empty(),
            *final(self) == (DBImplCore {
                mem: final(self).mem,
                imm: Some(old(self).mem),
                mem_memory_usage: 0,
                bg_work_scheduled: true,
                log_file_number: new_log,
                ..*old(self)
            }),
            final(self).contents() == old(self).contents(),
            forall|sequence: nat, key: Seq<u8>| #[trigger]
                final(self).seen(sequence, key) == old(self).seen(sequence, key),
    {
        let mut fresh = fresh_memtable(&self.comparator);
        std::mem::swap(&mut fresh, &mut self.mem);
        self.imm = Some(fresh);
        self.mem_memory_usage = 0;
        self.bg_work_scheduled = true;
        self.log_file_number = new_log;
        proof {
            let none = enter::mem_contents(self.mem);
            assert(self.contents() =~= old(self).contents());
            assert forall|sequence: nat, key: Seq<u8>| #[trigger]
                self.seen(sequence, key) == old(self).seen(sequence, key) by {
                if exists|k: Seq<u8>| seen::answers(self.comparator, none, sequence, key, k) {
                    let k = choose|k: Seq<u8>|
                        seen::answers(self.comparator, none, sequence, key, k);
                    assert(none.contains_key(k));
                }
            }
        }
    }

    /// The batches of the first writers in one, with how many writers they are of,
    /// whether a sync is due, and the sequence number of the first update.
    pub fn begin_group(&mut self) -> (group: (WriteBatch, usize, bool, u64))
        requires
            old(self).sound(),
            old(self).queue.waiting().len() > 0,
            old(self).queue.is_full(),
        ensures
            is_begun(*old(self), *final(self), group),
    {
        let (group, count, sync) = self.queue.build_batch_group();
        (group, count, sync, self.last_sequence + 1)
    }

    /// Enters a group that was logged into the memtable. A group that could not be
    /// logged is not entered, and one that could not be synced fails all that is
    /// written from then on.
    pub fn commit_group(&mut self, group: &WriteBatch, logged: status::Result<()>, sync_failed: bool) -> (
        outcome: status::Result<()>)
        requires
            old(self).sound(),
        ensures
            final(self).sound(),
            is_commit(*old(self), *final(self), *group, logged, sync_failed, outcome),
            outcome is Ok && old(self).settled() ==> final(self).settled(),
    {
        match logged {
            Err(error) => {
                if sync_failed {
                    self.bg_error = Some(error.clone());
                }
                return Err(error);
            },
            Ok(_) => {},
        }
        let ghost start = self.last_sequence as nat + 1;
        let ghost before = enter::mem_contents(self.mem);
        let ghost changes = write_batch::read_changes(group.updates_bytes()).0;
        let (updates, problem) = group.updates();
        let (bytes, all) = enter::enter_updates(
            &mut self.mem,
            self.last_sequence + 1,
            updates.as_slice(),
        );
        self.mem_memory_usage = match self.mem_memory_usage.checked_add(bytes) {
            Some(sum) => sum,
            None => usize::MAX,
        };
        if !all {
            return Err(Status::corruption("WriteBatch: an update cannot be entered"));
        }
        match problem {
            Some(error) => {
                return Err(error);
            },
            None => {},
        }
        proof {
            assert(changes.take(changes.len() as int) =~= changes);
            lemma_entered_below(self.comparator, before, start, changes);
            if old(self).settled() {
                lemma_applied_settled(
                    self.comparator,
                    before,
                    self.set_aside(),
                    start,
                    changes,
                );
            }
        }
        self.last_sequence = self.last_sequence + group.count() as u64;
        Ok(())
    }

    // -----------------------------------------------------------------------
    // Reading
    // -----------------------------------------------------------------------

    /// What the memtables know of a key at a sequence number.
    pub fn get_from_memory(&self, key: &[u8], sequence: u64) -> (result: LookupResult)
        requires
            self.sound(),
            sequence <= crate::format::MAX_SEQUENCE_NUMBER,
            self.comparator.admits(key@),
            key@.len() + 8 < coding::two_pow_32(),
        ensures
            enter::tells(result, self.seen(sequence as nat, key@)),
    {
        let newer = enter::look_up(&self.mem, key, sequence);
        match newer {
            LookupResult::NotFound => match &self.imm {
                None => LookupResult::NotFound,
                Some(imm) => enter::look_up(imm, key, sequence),
            },
            found => found,
        }
    }

    // -----------------------------------------------------------------------
    // Snapshots
    // -----------------------------------------------------------------------

    /// How many handles there are on each snapshot, the one kept here among them.
    fn handle_counts(&self) -> (counts: Vec<usize>)
        ensures
            counts@.len() == self.snapshots@.len(),
            forall|i: int|
                0 <= i < counts@.len() ==> call_ensures(
                    cache::handle_count::<Snapshot>,
                    (&self.snapshots@[i],),
                    #[trigger] counts@[i],
                ),
            were_counted(self.snapshots@, counts@),
    {
        let mut counts: Vec<usize> = Vec::new();
        let mut index: usize = 0;
        while index < self.snapshots.len()
            invariant
                index <= self.snapshots@.len(),
                counts@.len() == index,
                forall|i: int|
                    0 <= i < index ==> call_ensures(
                        cache::handle_count::<Snapshot>,
                        (&self.snapshots@[i],),
                        #[trigger] counts@[i],
                    ),
            decreases self.snapshots@.len() - index,
        {
            counts.push(cache::handle_count(&self.snapshots[index]));
            index = index + 1;
        }
        counts
    }

    /// Forgets the snapshots on which there is no handle but the one kept here.
    pub fn retain_live(&mut self, counts: &Vec<usize>)
        requires
            counts@.len() == old(self).snapshots@.len(),
        ensures
            final(self).snapshots@ == live(old(self).snapshots@, counts@),
            forall|i: int|
                0 <= i < counts@.len() && #[trigger] counts@[i] > 1
                    ==> final(self).snapshots@.contains(old(self).snapshots@[i]),
            forall|k: int|
                0 <= k < final(self).snapshots@.len() ==> is_held_among(
                    old(self).snapshots@,
                    counts@,
                    #[trigger] final(self).snapshots@[k],
                ),
            *final(self) == (DBImplCore { snapshots: final(self).snapshots, ..*old(self) }),
    {
        let mut kept: Vec<Arc<Snapshot>> = Vec::new();
        let mut index: usize = 0;
        assert(self.snapshots@.take(0) =~= Seq::<Arc<Snapshot>>::empty());
        assert(counts@.take(0) =~= Seq::<usize>::empty());
        while index < self.snapshots.len()
            invariant
                index <= self.snapshots@.len(),
                counts@.len() == self.snapshots@.len(),
                *self == *old(self),
                kept@ == live(self.snapshots@.take(index as int), counts@.take(index as int)),
            decreases self.snapshots@.len() - index,
        {
            proof {
                let next = index as int + 1;
                assert(self.snapshots@.take(next).drop_last() =~= self.snapshots@.take(
                    index as int,
                ));
                assert(counts@.take(next).drop_last() =~= counts@.take(index as int));
            }
            if counts[index] > 1 {
                kept.push(table_builder::share(&self.snapshots[index]));
            }
            index = index + 1;
        }
        assert(self.snapshots@.take(index as int) =~= self.snapshots@);
        assert(counts@.take(index as int) =~= counts@);
        proof {
            let held = self.snapshots@;
            assert forall|i: int| 0 <= i < counts@.len() && #[trigger] counts@[i] > 1 implies live(
                held,
                counts@,
            ).contains(held[i]) by {
                law_held_is_live(held, counts@, self.last_sequence, i);
            }
            assert forall|k: int| 0 <= k < live(held, counts@).len() implies is_held_among(
                held,
                counts@,
                #[trigger] live(held, counts@)[k],
            ) by {
                law_live_is_held(held, counts@, k);
            }
        }
        self.snapshots = kept;
    }

    /// Holds on to the state as it is, as long as there is a handle on the snapshot.
    pub fn get_snapshot(&mut self) -> (snapshot: Arc<Snapshot>)
        ensures
            snapshot.at() == old(self).last_sequence,
            final(self).snapshots@.len() > 0 && final(self).snapshots@.last() == snapshot,
            is_pruned(old(self).snapshots@, final(self).snapshots@.drop_last()),
            forall|i: int|
                0 <= i < old(self).snapshots@.len() && !final(self).snapshots@.contains(
                    #[trigger] old(self).snapshots@[i],
                ) ==> exists|count: usize|
                    count <= 1 && #[trigger] was_counted(old(self).snapshots@[i], count),
            *final(self) == (DBImplCore { snapshots: final(self).snapshots, ..*old(self) }),
    {
        let snapshot = Arc::new(Snapshot::new(self.last_sequence));
        let counts = self.handle_counts();
        self.retain_live(&counts);
        let ghost pruned = self.snapshots@;
        self.snapshots.push(table_builder::share(&snapshot));
        proof {
            let before = old(self).snapshots@;
            assert(self.snapshots@.drop_last() =~= pruned);
            assert(is_pruned(before, pruned));
            assert forall|i: int|
                0 <= i < before.len() && !self.snapshots@.contains(#[trigger] before[i]) implies exists|
                count: usize,
            |
                count <= 1 && #[trigger] was_counted(before[i], count) by {
                if pruned.contains(before[i]) {
                    let k = choose|k: int| 0 <= k < pruned.len() && pruned[k] == before[i];
                    assert(self.snapshots@[k] == before[i]);
                }
                assert(was_counted(before[i], counts@[i]));
            }
        }
        snapshot
    }

    /// Lets go of a handle on a snapshot.
    pub fn release_snapshot(&mut self, snapshot: Arc<Snapshot>)
        ensures
            is_pruned(old(self).snapshots@, final(self).snapshots@),
            forall|i: int|
                0 <= i < old(self).snapshots@.len() && !final(self).snapshots@.contains(
                    #[trigger] old(self).snapshots@[i],
                ) ==> exists|count: usize|
                    count <= 1 && #[trigger] was_counted(old(self).snapshots@[i], count),
            *final(self) == (DBImplCore { snapshots: final(self).snapshots, ..*old(self) }),
    {
        let_go(snapshot);
        let counts = self.handle_counts();
        self.retain_live(&counts);
        proof {
            let before = old(self).snapshots@;
            assert forall|i: int|
                0 <= i < before.len() && !self.snapshots@.contains(#[trigger] before[i]) implies exists|
                count: usize,
            |
                count <= 1 && #[trigger] was_counted(before[i], count) by {
                assert(was_counted(before[i], counts@[i]));
            }
        }
    }

    /// The oldest of the states on which there is another handle; the latest if there is
    /// none.
    pub fn smallest_live(&self, counts: &Vec<usize>) -> (sequence: u64)
        requires
            counts@.len() == self.snapshots@.len(),
        ensures
            sequence == oldest(live(self.snapshots@, counts@), self.last_sequence),
            forall|i: int|
                0 <= i < counts@.len() && #[trigger] counts@[i] > 1 ==> sequence
                    <= self.snapshots@[i].at(),
            sequence == self.last_sequence || exists|i: int|
                0 <= i < counts@.len() && #[trigger] counts@[i] > 1 && self.snapshots@[i].at()
                    == sequence,
            (forall|i: int| 0 <= i < counts@.len() ==> #[trigger] counts@[i] <= 1) ==> sequence
                == self.last_sequence,
    {
        let mut smallest: Option<u64> = None;
        let mut index: usize = 0;
        assert(self.snapshots@.take(0) =~= Seq::<Arc<Snapshot>>::empty());
        assert(counts@.take(0) =~= Seq::<usize>::empty());
        while index < self.snapshots.len()
            invariant
                index <= self.snapshots@.len(),
                counts@.len() == self.snapshots@.len(),
                smallest == least(
                    live(self.snapshots@.take(index as int), counts@.take(index as int)),
                ),
            decreases self.snapshots@.len() - index,
        {
            proof {
                let next = index as int + 1;
                let held = self.snapshots@.take(next);
                assert(held.drop_last() =~= self.snapshots@.take(index as int));
                assert(counts@.take(next).drop_last() =~= counts@.take(index as int));
                let kept = live(self.snapshots@.take(index as int), counts@.take(index as int));
                assert(kept.push(held.last()).drop_last() =~= kept);
            }
            if counts[index] > 1 {
                let sequence: u64 = self.snapshots[index].sequence();
                match smallest {
                    Some(found) if found <= sequence => {},
                    _ => {
                        smallest = Some(sequence);
                    },
                }
            }
            index = index + 1;
        }
        assert(self.snapshots@.take(index as int) =~= self.snapshots@);
        assert(counts@.take(index as int) =~= counts@);
        proof {
            let held = live(self.snapshots@, counts@);
            assert forall|i: int| 0 <= i < counts@.len() && #[trigger] counts@[i] > 1 implies oldest(
                held,
                self.last_sequence,
            ) <= self.snapshots@[i].at() by {
                law_held_is_live(self.snapshots@, counts@, self.last_sequence, i);
            }
            if held.len() > 0 {
                let k = lemma_least_is_one(held);
                law_live_is_held(self.snapshots@, counts@, k);
                let i = choose|i: int|
                    0 <= i < counts@.len() && #[trigger] counts@[i] > 1 && self.snapshots@[i]
                        == held[k];
                assert(counts@[i] > 1);
            }
        }
        match smallest {
            Some(sequence) => sequence,
            None => self.last_sequence,
        }
    }

    /// The oldest state that is held; the latest if none is.
    pub fn smallest_snapshot_sequence(&self) -> (sequence: u64)
        ensures
            is_oldest_held(self.snapshots@, self.last_sequence, sequence),
            forall|i: int|
                0 <= i < self.snapshots@.len() && (#[trigger] self.snapshots@[i]).at() < sequence
                    ==> exists|count: usize|
                    count <= 1 && #[trigger] was_counted(self.snapshots@[i], count),
            sequence != self.last_sequence ==> exists|i: int, count: usize|
                0 <= i < self.snapshots@.len() && self.snapshots@[i].at() == sequence && count > 1
                    && #[trigger] was_counted(self.snapshots@[i], count),
    {
        let counts = self.handle_counts();
        let sequence = self.smallest_live(&counts);
        proof {
            assert forall|i: int|
                0 <= i < self.snapshots@.len() && (#[trigger] self.snapshots@[i]).at()
                    < sequence implies exists|count: usize|
                count <= 1 && #[trigger] was_counted(self.snapshots@[i], count) by {
                assert(was_counted(self.snapshots@[i], counts@[i]));
            }
            if sequence != self.last_sequence {
                let i = choose|i: int|
                    0 <= i < counts@.len() && #[trigger] counts@[i] > 1 && self.snapshots@[i].at()
                        == sequence;
                assert(was_counted(self.snapshots@[i], counts@[i]));
            }
        }
        assert(oldest(live(self.snapshots@, counts@), self.last_sequence) == sequence);
        sequence
    }

    // -----------------------------------------------------------------------
    // Tables that are no longer needed
    // -----------------------------------------------------------------------

    /// Counts an iterator in.
    pub fn register_iterator(&mut self)
        requires
            old(self).active_iterators < usize::MAX,
        ensures
            *final(self) == (DBImplCore {
                active_iterators: (old(self).active_iterators + 1) as usize,
                ..*old(self)
            }),
    {
        self.active_iterators = self.active_iterators + 1;
    }

    /// Counts an iterator out. Returns the tables that can be deleted now: all that
    /// wait for it, once there are no iterators.
    pub fn release_iterator(&mut self) -> (deleted: Vec<u64>)
        ensures
            final(self).active_iterators == if old(self).active_iterators > 0 {
                old(self).active_iterators - 1
            } else {
                0
            },
            numbers::rising(deleted@),
            final(self).active_iterators == 0 ==> final(self).obsolete_table_file_numbers@.len()
                == 0 && forall|number: u64|
                deleted@.contains(number) <==> old(self).obsolete_table_file_numbers@.contains(
                    number,
                ),
            final(self).active_iterators > 0 ==> deleted@.len() == 0
                && final(self).obsolete_table_file_numbers
                == old(self).obsolete_table_file_numbers,
            *final(self) == (DBImplCore {
                active_iterators: final(self).active_iterators,
                obsolete_table_file_numbers: final(self).obsolete_table_file_numbers,
                ..*old(self)
            }),
    {
        if self.active_iterators > 0 {
            self.active_iterators = self.active_iterators - 1;
        }
        if self.active_iterators == 0 && self.obsolete_table_file_numbers.len() > 0 {
            let deleted = numbers::sorted_distinct(&self.obsolete_table_file_numbers);
            self.obsolete_table_file_numbers = Vec::new();
            deleted
        } else {
            Vec::new()
        }
    }

    /// Gives up some tables. Returns those that can be deleted now; while there are
    /// iterators they wait.
    pub fn retire_table_file_numbers(&mut self, retired: Vec<u64>) -> (deleted: Vec<u64>)
        ensures
            numbers::rising(deleted@),
            old(self).active_iterators == 0 ==> *final(self) == *old(self) && forall|number: u64|
                deleted@.contains(number) <==> retired@.contains(number),
            old(self).active_iterators > 0 ==> {
                &&& deleted@.len() == 0
                &&& forall|number: u64|
                    final(self).obsolete_table_file_numbers@.contains(number)
                        <==> old(self).obsolete_table_file_numbers@.contains(number)
                        || retired@.contains(number)
                &&& *final(self) == (DBImplCore {
                    obsolete_table_file_numbers: final(self).obsolete_table_file_numbers,
                    ..*old(self)
                })
            },
    {
        let sorted = numbers::sorted_distinct(&retired);
        if self.active_iterators == 0 {
            return sorted;
        }
        let ghost before = self.obsolete_table_file_numbers@;
        self.obsolete_table_file_numbers.extend_from_slice(sorted.as_slice());
        proof {
            let after = self.obsolete_table_file_numbers@;
            assert(after =~= before + sorted@);
            assert forall|number: u64| after.contains(number) <==> before.contains(number)
                || sorted@.contains(number) by {
                if before.contains(number) {
                    let k = choose|k: int| 0 <= k < before.len() && before[k] == number;
                    assert(after[k] == number);
                }
                if sorted@.contains(number) {
                    let k = choose|k: int| 0 <= k < sorted@.len() && sorted@[k] == number;
                    assert(after[before.len() + k] == number);
                }
                if after.contains(number) {
                    let k = choose|k: int| 0 <= k < after.len() && after[k] == number;
                    if k < before.len() {
                        assert(before[k] == number);
                    } else {
                        assert(sorted@[k - before.len()] == number);
                    }
                }
            }
        }
        Vec::new()
    }

    // -----------------------------------------------------------------------
    // Background work
    // -----------------------------------------------------------------------

    /// Asks for background work.
    pub fn schedule_work(&mut self)
        ensures
            *final(self) == (DBImplCore { bg_work_scheduled: true, ..*old(self) }),
    {
        self.bg_work_scheduled = true;
    }

    /// Whether there is background work that is asked for, runs or waits.
    pub fn has_pending_work(&self) -> (answer: bool)
        ensures
            answer == (self.bg_work_scheduled || self.bg_work_running || self.imm is Some),
    {
        self.bg_work_scheduled || self.bg_work_running || self.imm.is_some()
    }

    /// Whether tables may be picked for a compaction by hand.
    pub fn is_idle(&self) -> (answer: bool)
        ensures
            answer == !(self.bg_work_scheduled || self.bg_work_running || self.imm is Some
                || self.manual_compaction_running),
    {
        !self.has_pending_work() && !self.manual_compaction_running
    }

    /// Whether there is nothing to write to a table.
    pub fn is_flushed(&self) -> (answer: bool)
        ensures
            answer == (self.mem_memory_usage == 0 && self.imm is None),
    {
        self.mem_memory_usage == 0 && self.imm.is_none()
    }

    /// What the background thread does. Once there was an error it does no more work.
    pub fn next_background_step(&mut self) -> (step: BackgroundStep)
        ensures
            step == if old(self).shutting_down {
                BackgroundStep::Stop
            } else if old(self).manual_compaction_running || (!old(self).bg_work_scheduled && old(
                self,
            ).imm is None) {
                BackgroundStep::Park
            } else if old(self).bg_error is Some {
                BackgroundStep::Notify
            } else {
                BackgroundStep::Work
            },
            match step {
                BackgroundStep::Stop | BackgroundStep::Park => *final(self) == *old(self),
                BackgroundStep::Notify => *final(self) == (DBImplCore {
                    bg_work_scheduled: false,
                    ..*old(self)
                }),
                BackgroundStep::Work => *final(self) == (DBImplCore {
                    bg_work_scheduled: false,
                    bg_work_running: true,
                    ..*old(self)
                }),
            },
    {
        if self.shutting_down {
            return BackgroundStep::Stop;
        }
        if self.manual_compaction_running || (!self.bg_work_scheduled && self.imm.is_none()) {
            return BackgroundStep::Park;
        }
        self.bg_work_scheduled = false;
        if self.bg_error.is_some() {
            return BackgroundStep::Notify;
        }
        self.bg_work_running = true;
        BackgroundStep::Work
    }

    /// Notes how the background work came out. An error stays.
    pub fn end_background_work(&mut self, outcome: status::Result<()>)
        ensures
            *final(self) == (DBImplCore {
                bg_work_running: false,
                bg_error: match outcome {
                    Err(error) => Some(error),
                    Ok(_) => old(self).bg_error,
                },
                ..*old(self)
            }),
    {
        self.bg_work_running = false;
        match outcome {
            Err(error) => {
                self.bg_error = Some(error);
            },
            Ok(_) => {},
        }
    }

    /// Drops the memtable that was set aside, once its entries are in a table of the
    /// given level.
    pub fn finish_flush(&mut self, level: usize, stats: CompactionStats)
        requires
            level < old(self).stats@.len(),
            ({
                let held = old(self).stats@[level as int];
                &&& crate::db_impl::options::sum_fits(held.micros, stats.micros)
                &&& crate::db_impl::options::sum_fits(held.bytes_read, stats.bytes_read)
                &&& crate::db_impl::options::sum_fits(held.bytes_written, stats.bytes_written)
            }),
        ensures
            *final(self) == (DBImplCore {
                imm: None,
                stats: final(self).stats,
                ..*old(self)
            }),
            final(self).stats@ == old(self).stats@.update(
                level as int,
                CompactionStats {
                    micros: (old(self).stats@[level as int].micros + stats.micros) as i64,
                    bytes_read: (old(self).stats@[level as int].bytes_read
                        + stats.bytes_read) as i64,
                    bytes_written: (old(self).stats@[level as int].bytes_written
                        + stats.bytes_written) as i64,
                },
            ),
    {
        self.add_stats(level, stats);
        self.imm = None;
    }

    /// Adds what writing a table of a level took.
    pub fn add_stats(&mut self, level: usize, stats: CompactionStats)
        requires
            level < old(self).stats@.len(),
            ({
                let held = old(self).stats@[level as int];
                &&& crate::db_impl::options::sum_fits(held.micros, stats.micros)
                &&& crate::db_impl::options::sum_fits(held.bytes_read, stats.bytes_read)
                &&& crate::db_impl::options::sum_fits(held.bytes_written, stats.bytes_written)
            }),
        ensures
            *final(self) == (DBImplCore { stats: final(self).stats, ..*old(self) }),
            final(self).stats@ == old(self).stats@.update(
                level as int,
                CompactionStats {
                    micros: (old(self).stats@[level as int].micros + stats.micros) as i64,
                    bytes_read: (old(self).stats@[level as int].bytes_read
                        + stats.bytes_read) as i64,
                    bytes_written: (old(self).stats@[level as int].bytes_written
                        + stats.bytes_written) as i64,
                },
            ),
    {
        let mut held: CompactionStats = self.stats[level];
        held.add(stats);
        self.stats.set(level, held);
    }
}

/// An empty memtable over an order of user keys.
fn fresh_memtable<C: Comparator>(user: &C) -> (mem: SharedMemTable<C>)
    ensures
        enter::mem_sound(mem),
        enter::mem_user(mem) == *user,
        enter::mem_contents(mem) == Map::<Seq<u8>, Seq<u8>>::empty(),
{
    let mem = SharedMemTable::new(comparator::copy_of(user));
    assert(enter::mem_contents(mem) =~= Map::<Seq<u8>, Seq<u8>>::empty());
    mem
}

/// Updates that were all entered have sequence numbers in range.
proof fn lemma_entered_below<C: Comparator>(
    user: C,
    contents: Map<Seq<u8>, Seq<u8>>,
    start: nat,
    changes: Seq<Change>,
)
    requires
        enter::entered_count(user, contents, start, changes) == changes.len(),
    ensures
        changes.len() > 0 ==> start + changes.len() <= crate::format::MAX_SEQUENCE_NUMBER + 1,
        seen::all_admitted(user, changes),
    decreases changes.len(),
{
    if changes.len() > 0 {
        let front = changes.drop_last();
        enter::lemma_count_bound(user, contents, start, front);
        lemma_entered_below(user, contents, start, front);
        assert forall|i: int| 0 <= i < changes.len() implies user.admits(
            (#[trigger] changes[i]).key(),
        ) by {
            if i < front.len() {
                assert(front[i] == changes[i]);
            } else {
                assert(changes[i] == changes.last());
            }
        }
    }
}

/// Updates that are entered behind all others leave the layers in order.
proof fn lemma_applied_settled<C: Comparator>(
    user: C,
    newer: Map<Seq<u8>, Seq<u8>>,
    older: Map<Seq<u8>, Seq<u8>>,
    start: nat,
    changes: Seq<Change>,
)
    requires
        seen::contents_sound(user, newer),
        seen::all_below(newer, start),
        seen::all_below(older, start),
        seen::shadows(user, newer, older),
        changes.len() > 0 ==> start + changes.len() <= crate::format::MAX_SEQUENCE_NUMBER + 1,
        seen::all_admitted(user, changes),
    ensures
        seen::all_below(seen::applied(newer, start, changes), start + changes.len()),
        seen::all_below(older, start + changes.len()),
        seen::shadows(user, seen::applied(newer, start, changes), older),
    decreases changes.len(),
{
    if changes.len() > 0 {
        let front = changes.drop_last();
        assert forall|i: int| 0 <= i < front.len() implies user.admits(
            (#[trigger] front[i]).key(),
        ) by {
            assert(front[i] == changes[i]);
        }
        assert(changes[changes.len() - 1] == changes.last());
        lemma_applied_settled(user, newer, older, start, front);
        seen::lemma_applied(user, newer, start, front);
        let before = seen::applied(newer, start, front);
        let at = (start + changes.len() - 1) as nat;
        seen::lemma_entered(user, before, at, changes.last());
        let after = seen::applied(newer, start, changes);
        let key = seen::entry_key(changes.last(), at);
        assert forall|a: Seq<u8>, b: Seq<u8>|
            #![trigger after.contains_key(a), older.contains_key(b)]
            after.contains_key(a) && older.contains_key(b) && crate::db_iter::user_view::same(
                user,
                crate::db_iter::user_view::user_of(a),
                crate::db_iter::user_view::user_of(b),
            ) implies (crate::format::parsed(a)->0).1 > (crate::format::parsed(b)->0).1 by {
            if a != key {
                assert(before.contains_key(a));
            }
        }
        assert forall|b: Seq<u8>| #[trigger] older.contains_key(b) implies (
        crate::format::parsed(b)->0).1 < start + changes.len() by {}
    }
}

// ---------------------------------------------------------------------------
// Laws
// ---------------------------------------------------------------------------

/// To look into the memtables one after the other is to look at all entries in
/// memory.
pub proof fn law_memory_is_one<C: Comparator>(core: DBImplCore<C>, sequence: nat, key: Seq<u8>)
    requires
        core.sound(),
        core.settled(),
        core.comparator.admits(key),
    ensures
        core.seen(sequence, key) == seen::seen_at(core.comparator, core.contents(), sequence, key),
        seen::contents_sound(core.comparator, core.contents()),
{
    match core.imm {
        None => {},
        Some(imm) => {
            seen::law_layers(
                core.comparator,
                enter::mem_contents(core.mem),
                enter::mem_contents(imm),
                sequence,
                key,
            );
        },
    }
}

/// What is seen beyond the newest entry does not depend on how far beyond.
proof fn lemma_beyond<C: Comparator>(
    user: C,
    contents: Map<Seq<u8>, Seq<u8>>,
    bound: nat,
    a: nat,
    b: nat,
    key: Seq<u8>,
)
    requires
        seen::contents_sound(user, contents),
        seen::all_below(contents, bound),
        a + 1 >= bound,
        b + 1 >= bound,
        user.admits(key),
    ensures
        seen::seen_at(user, contents, a, key) == seen::seen_at(user, contents, b, key),
{
    assert forall|k: Seq<u8>| #[trigger]
        seen::is_candidate(user, contents, a, key, k) implies seen::is_candidate(
        user,
        contents,
        b,
        key,
        k,
    ) by {
        assert(contents.contains_key(k));
    }
    assert forall|k: Seq<u8>| #[trigger]
        seen::is_candidate(user, contents, b, key, k) implies seen::is_candidate(
        user,
        contents,
        a,
        key,
        k,
    ) by {
        assert(contents.contains_key(k));
    }
    seen::lemma_same_candidates(user, contents, contents, a, b, key);
}

/// Whether the batches of the first writers were put together: the group, how many writers
/// it is of, whether a sync is due, and the sequence number of its first update.
pub open spec fn is_begun<C: Comparator>(
    before: DBImplCore<C>,
    after: DBImplCore<C>,
    group: (WriteBatch, usize, bool, u64),
) -> bool {
    let writers = before.queue.waiting();
    let count = group.1 as int;
    &&& crate::db_impl::write_queue::is_group(writers, count)
    &&& group.0.updates_bytes() == crate::db_impl::write_queue::bodies(writers.take(count))
    &&& group.0.counted() == crate::db_impl::write_queue::counts(writers.take(count))
    &&& group.2 == writers[0].sync
    &&& group.3 == before.last_sequence + 1
    &&& after.queue.waiting().len() == writers.len()
    &&& after == (DBImplCore { queue: after.queue, ..before })
}

/// Whether the second state comes of the first as a group is entered, or is not as it could
/// not be logged, and what the writers are told.
pub open spec fn is_commit<C: Comparator>(
    before: DBImplCore<C>,
    after: DBImplCore<C>,
    group: WriteBatch,
    logged: status::Result<()>,
    sync_failed: bool,
    outcome: status::Result<()>,
) -> bool {
    &&& after == (DBImplCore {
        mem: after.mem,
        mem_memory_usage: after.mem_memory_usage,
        bg_error: after.bg_error,
        last_sequence: after.last_sequence,
        ..before
    })
    &&& logged matches Err(error) ==> {
        &&& outcome == Err::<(), Status>(error)
        &&& after == (DBImplCore {
            bg_error: if sync_failed {
                Some(error)
            } else {
                before.bg_error
            },
            ..before
        })
    }
    &&& logged is Ok ==> {
        let (changes, problem) = write_batch::read_changes(group.updates_bytes());
        let start = before.last_sequence as nat + 1;
        let held = enter::mem_contents(before.mem);
        let count = enter::entered_count(before.comparator, held, start, changes);
        let roomy = enter::has_room(before.mem, changes.len());
        &&& after.bg_error == before.bg_error
        &&& enter::mem_contents(after.mem) == if roomy {
            seen::applied(held, start, changes.take(count as int))
        } else {
            held
        }
        &&& after.mem_memory_usage == if roomy {
            enter::at_most(
                (before.mem_memory_usage + enter::at_most(
                    enter::entered_bytes(start, changes.take(count as int)),
                )) as nat,
            )
        } else {
            before.mem_memory_usage
        }
        &&& outcome is Ok == (problem is None && changes.len() == group.counted() && count
            == changes.len() && roomy)
        &&& after.last_sequence == if outcome is Ok {
            before.last_sequence + group.counted()
        } else {
            before.last_sequence as int
        }
        &&& outcome matches Err(error) ==> error.kind() == status::Code::Corruption
        &&& roomy && count == changes.len() ==> (problem matches Some(text)
            ==> (outcome matches Err(error) && error.says(status::Code::Corruption, text)))
    }
}

/// Whether the second state comes of the first by the given updates.
pub open spec fn is_committed<C: Comparator>(
    before: DBImplCore<C>,
    after: DBImplCore<C>,
    changes: Seq<Change>,
) -> bool {
    &&& after.comparator == before.comparator
    &&& after.imm == before.imm
    &&& after.last_sequence == before.last_sequence + changes.len()
    &&& enter::mem_contents(after.mem) == seen::applied(
        enter::mem_contents(before.mem),
        before.last_sequence as nat + 1,
        changes,
    )
}

/// Once a group is committed a lookup of the latest state sees the last update of its
/// key in the group, and of all other keys what it saw before.
pub proof fn law_commit_is_seen<C: Comparator>(
    before: DBImplCore<C>,
    after: DBImplCore<C>,
    changes: Seq<Change>,
    key: Seq<u8>,
)
    requires
        before.sound(),
        before.settled(),
        after.last_sequence <= crate::format::MAX_SEQUENCE_NUMBER,
        is_committed(before, after, changes),
        seen::all_admitted(before.comparator, changes),
        before.comparator.admits(key),
    ensures
        after.seen(after.last_sequence as nat, key) == seen::last_said(
            before.comparator,
            changes,
            key,
            before.seen(before.last_sequence as nat, key),
        ),
{
    let user = before.comparator;
    let mem = enter::mem_contents(before.mem);
    let start = before.last_sequence as nat + 1;
    let latest = after.last_sequence as nat;
    seen::law_batch_is_seen(user, mem, start, changes, latest, key);
    lemma_beyond(user, mem, start, latest, before.last_sequence as nat, key);
    match before.imm {
        None => {},
        Some(imm) => {
            lemma_beyond(
                user,
                enter::mem_contents(imm),
                start,
                latest,
                before.last_sequence as nat,
                key,
            );
            lemma_last_said(
                user,
                changes,
                key,
                seen::seen_at(user, mem, before.last_sequence as nat, key),
                seen::seen_at(user, enter::mem_contents(imm), before.last_sequence as nat, key),
            );
        },
    }
}

/// The last update decides before any layer does.
pub proof fn lemma_last_said<C: Comparator>(
    user: C,
    changes: Seq<Change>,
    key: Seq<u8>,
    newer: Seen,
    older: Seen,
)
    ensures
        seen::first_seen(seen::last_said(user, changes, key, newer), older) == seen::last_said(
            user,
            changes,
            key,
            seen::first_seen(newer, older),
        ),
    decreases changes.len(),
{
    if changes.len() > 0 {
        lemma_last_said(user, changes.drop_last(), key, newer, older);
    }
}

/// A snapshot on which there is a handle is not forgotten, and nothing that it sees is
/// older than what is held on to.
pub proof fn law_held_is_live(
    snapshots: Seq<Arc<Snapshot>>,
    counts: Seq<usize>,
    latest: u64,
    index: int,
)
    requires
        counts.len() == snapshots.len(),
        0 <= index < snapshots.len(),
        counts[index] > 1,
    ensures
        live(snapshots, counts).contains(snapshots[index]),
        oldest(live(snapshots, counts), latest) <= snapshots[index].at(),
    decreases snapshots.len(),
{
    let front = live(snapshots.drop_last(), counts.drop_last());
    let whole = live(snapshots, counts);
    if counts.last() > 1 {
        assert(whole.drop_last() =~= front);
    }
    if index < snapshots.len() - 1 {
        law_held_is_live(snapshots.drop_last(), counts.drop_last(), latest, index);
        let k = choose|k: int| 0 <= k < front.len() && front[k] == snapshots[index];
        assert(whole[k] == snapshots[index]);
        lemma_least(front, k);
    } else {
        assert(whole[whole.len() - 1] == snapshots[index]);
    }
}

proof fn lemma_least(snapshots: Seq<Arc<Snapshot>>, k: int)
    requires
        0 <= k < snapshots.len(),
    ensures
        least(snapshots) matches Some(sequence) && sequence <= snapshots[k].at(),
    decreases snapshots.len(),
{
    if k < snapshots.len() - 1 {
        lemma_least(snapshots.drop_last(), k);
    }
}

/// Whether a snapshot is one of those on which there is another handle.
pub open spec fn is_held_among(
    snapshots: Seq<Arc<Snapshot>>,
    counts: Seq<usize>,
    snapshot: Arc<Snapshot>,
) -> bool {
    exists|i: int|
        0 <= i < counts.len() && #[trigger] counts[i] > 1 && snapshots[i] == snapshot
}

/// A snapshot that is not forgotten is one on which there is another handle.
pub proof fn law_live_is_held(snapshots: Seq<Arc<Snapshot>>, counts: Seq<usize>, k: int)
    requires
        counts.len() == snapshots.len(),
        0 <= k < live(snapshots, counts).len(),
    ensures
        is_held_among(snapshots, counts, live(snapshots, counts)[k]),
    decreases snapshots.len(),
{
    let last = snapshots.len() - 1;
    let front = live(snapshots.drop_last(), counts.drop_last());
    if k < front.len() {
        law_live_is_held(snapshots.drop_last(), counts.drop_last(), k);
        let i = choose|i: int|
            0 <= i < counts.drop_last().len() && #[trigger] counts.drop_last()[i] > 1
                && snapshots.drop_last()[i] == front[k];
        assert(counts[i] > 1 && snapshots[i] == live(snapshots, counts)[k]);
    } else {
        assert(counts[last] > 1);
    }
}

/// The least sequence number is that of one of the snapshots.
proof fn lemma_least_is_one(snapshots: Seq<Arc<Snapshot>>) -> (k: int)
    requires
        snapshots.len() > 0,
    ensures
        0 <= k < snapshots.len(),
        least(snapshots) == Some(snapshots[k].at()),
    decreases snapshots.len(),
{
    let front = snapshots.drop_last();
    if front.len() > 0 && least(front)->0 <= snapshots.last().at() {
        lemma_least_is_one(front)
    } else {
        snapshots.len() - 1
    }
}

/// A snapshot is forgotten only where the handles on it were counted, and there was none but
/// the one that is kept: as long as each count finds another one, the snapshot stays.
pub proof fn law_held_snapshot_stays(
    before: Seq<Arc<Snapshot>>,
    after: Seq<Arc<Snapshot>>,
    index: int,
)
    requires
        is_pruned(before, after),
        0 <= index < before.len(),
        forall|count: usize| #[trigger] was_counted(before[index], count) ==> count > 1,
    ensures
        after.contains(before[index]),
{
    let counts = choose|counts: Seq<usize>|
        were_counted(before, counts) && after == #[trigger] live(before, counts);
    assert(was_counted(before[index], counts[index]));
    law_held_is_live(before, counts, 0, index);
}

/// What a held snapshot sees is held on to: as long as each count of the handles on a
/// snapshot finds another one, the oldest state that is held is no newer than the snapshot.
pub proof fn law_oldest_is_no_newer(
    snapshots: Seq<Arc<Snapshot>>,
    latest: u64,
    sequence: u64,
    index: int,
)
    requires
        is_oldest_held(snapshots, latest, sequence),
        0 <= index < snapshots.len(),
        forall|count: usize| #[trigger] was_counted(snapshots[index], count) ==> count > 1,
    ensures
        sequence <= snapshots[index].at(),
{
    let counts = choose|counts: Seq<usize>|
        were_counted(snapshots, counts) && sequence == oldest(
            #[trigger] live(snapshots, counts),
            latest,
        );
    assert(was_counted(snapshots[index], counts[index]));
    law_held_is_live(snapshots, counts, latest, index);
}

/// A snapshot on which there is no other handle is forgotten.
pub proof fn law_dropped_is_forgotten(snapshots: Seq<Arc<Snapshot>>, counts: Seq<usize>)
    requires
        counts.len() == snapshots.len(),
        forall|i: int| 0 <= i < counts.len() ==> #[trigger] counts[i] <= 1,
    ensures
        live(snapshots, counts).len() == 0,
    decreases snapshots.len(),
{
    if snapshots.len() > 0 {
        assert(counts[counts.len() - 1] <= 1);
        assert forall|i: int| 0 <= i < counts.drop_last().len() implies #[trigger]
        counts.drop_last()[i] <= 1 by {
            assert(counts[i] <= 1);
        }
        law_dropped_is_forgotten(snapshots.drop_last(), counts.drop_last());
    }
}

/// A snapshot is not touched by what is written after it was taken.
pub proof fn law_snapshot_stays<C: Comparator>(
    before: DBImplCore<C>,
    after: DBImplCore<C>,
    changes: Seq<Change>,
    sequence: nat,
    key: Seq<u8>,
)
    requires
        before.sound(),
        before.settled(),
        after.last_sequence <= crate::format::MAX_SEQUENCE_NUMBER,
        is_committed(before, after, changes),
        seen::all_admitted(before.comparator, changes),
        before.comparator.admits(key),
        sequence <= before.last_sequence,
    ensures
        after.seen(sequence, key) == before.seen(sequence, key),
{
    seen::law_batch_is_hidden(
        before.comparator,
        enter::mem_contents(before.mem),
        before.last_sequence as nat + 1,
        changes,
        sequence,
        key,
    );
}

} // verus!
