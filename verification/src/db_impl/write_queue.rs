//! The queue of writers.
//!
//! Writers wait in a queue. The one in front writes for itself and for as many behind
//! it as fit in one group.

use vstd::prelude::*;

use crate::status;
use crate::write_batch;
use crate::write_batch::Change;
use crate::write_batch::WriteBatch;

verus! {

/// How large a group gets that starts with a large batch.
pub const MAX_BATCH_GROUP_SIZE: usize = 1048576;

/// How much a group that starts with a small batch may add to it.
pub const MAX_BATCH_GROUP_OVERHEAD: usize = 131072;

/// A writer that waits.
#[derive(Debug)]
pub struct PendingWriter {
    pub id: u64,
    /// The batch, until it is taken into a group.
    pub batch: Option<WriteBatch>,
    pub sync: bool,
    /// Whether the writer waits to be told how its write came out.
    pub waits: bool,
}

/// The size of the batch of a writer.
pub open spec fn batch_size(writer: PendingWriter) -> int {
    match writer.batch {
        Some(batch) => if write_batch::HEADER_SIZE + batch.updates_bytes().len() <= usize::MAX {
            write_batch::HEADER_SIZE + batch.updates_bytes().len()
        } else {
            usize::MAX as int
        },
        None => 0,
    }
}

/// The sum of the sizes of some batches.
pub open spec fn sizes(writers: Seq<PendingWriter>) -> int
    decreases writers.len(),
{
    if writers.len() == 0 {
        0
    } else {
        sizes(writers.drop_last()) + batch_size(writers.last())
    }
}

/// The sum of the counts of some batches.
pub open spec fn counts(writers: Seq<PendingWriter>) -> int
    decreases writers.len(),
{
    if writers.len() == 0 {
        0
    } else {
        counts(writers.drop_last()) + writers.last().batch->0.counted()
    }
}

/// The updates of some batches in bytes.
pub open spec fn bodies(writers: Seq<PendingWriter>) -> Seq<u8>
    decreases writers.len(),
{
    if writers.len() == 0 {
        Seq::empty()
    } else {
        bodies(writers.drop_last()) + writers.last().batch->0.updates_bytes()
    }
}

/// How large a group may get, by the size of its first batch.
pub open spec fn group_limit(first: int) -> int {
    if first <= MAX_BATCH_GROUP_OVERHEAD {
        first + MAX_BATCH_GROUP_OVERHEAD
    } else {
        MAX_BATCH_GROUP_SIZE as int
    }
}

/// Whether the writer behind `count` others joins their group. A writer that wants a
/// sync does not join others that do not, and no group gets too large.
pub open spec fn joins(writers: Seq<PendingWriter>, count: int) -> bool {
    &&& count < writers.len()
    &&& writers[count].sync ==> writers[0].sync
    &&& sizes(writers.take(count + 1)) <= group_limit(batch_size(writers[0]))
    &&& counts(writers.take(count + 1)) <= u32::MAX
}

/// Whether the first `count` writers are a group.
pub open spec fn is_group(writers: Seq<PendingWriter>, count: int) -> bool {
    &&& 1 <= count <= writers.len()
    &&& forall|k: int| 1 <= k < count ==> #[trigger] joins(writers, k)
    &&& !joins(writers, count)
}

/// The writers that wait, the oldest in front.
#[derive(Debug)]
pub struct WriterQueue {
    writers: Vec<PendingWriter>,
    next_id: u64,
}

impl WriterQueue {
    /// The writers.
    pub closed spec fn waiting(&self) -> Seq<PendingWriter> {
        self.writers@
    }

    /// The id that the next writer gets.
    pub closed spec fn next(&self) -> u64 {
        self.next_id
    }

    /// All writers but those of a group that is being written have their batches.
    pub open spec fn is_full(&self) -> bool {
        forall|i: int| 0 <= i < self.waiting().len() ==> (#[trigger] self.waiting()[i]).batch is Some
    }

    pub fn new() -> (queue: Self)
        ensures
            queue.waiting() == Seq::<PendingWriter>::empty(),
            queue.next() == 1,
    {
        WriterQueue { writers: Vec::new(), next_id: 1 }
    }

    /// How many writers wait.
    pub fn len(&self) -> (count: usize)
        ensures
            count == self.waiting().len(),
    {
        self.writers.len()
    }

    /// Puts a writer behind the others. Returns its id, and whether it is in front:
    /// then it leads a group, and waits for nobody.
    pub fn enqueue(&mut self, batch: WriteBatch, sync: bool) -> (entered: (u64, bool))
        ensures
            entered.0 == old(self).next(),
            entered.1 == (old(self).waiting().len() == 0),
            final(self).next() == if old(self).next() == u64::MAX {
                0
            } else {
                old(self).next() + 1
            },
            final(self).waiting() == old(self).waiting().push(
                PendingWriter { id: entered.0, batch: Some(batch), sync, waits: !entered.1 },
            ),
    {
        let id: u64 = self.next_id;
        let leads = self.writers.len() == 0;
        self.next_id = self.next_id.wrapping_add(1);
        self.writers.push(PendingWriter { id, batch: Some(batch), sync, waits: !leads });
        (id, leads)
    }

    /// Whether a writer is in front.
    pub fn is_front(&self, id: u64) -> (answer: bool)
        ensures
            answer == (self.waiting().len() > 0 && self.waiting()[0].id == id),
    {
        self.writers.len() > 0 && self.writers[0].id == id
    }

    /// Puts the batches of the first writers together. Returns the group, how many
    /// writers it has, and whether it is to be synced. The batch of the first writer
    /// is moved out.
    pub fn build_batch_group(&mut self) -> (group: (WriteBatch, usize, bool))
        requires
            old(self).waiting().len() > 0,
            old(self).is_full(),
        ensures
            ({
                let writers = old(self).waiting();
                let count = group.1 as int;
                &&& is_group(writers, count)
                &&& group.0.updates_bytes() == bodies(writers.take(count))
                &&& group.0.counted() == counts(writers.take(count))
                &&& group.0.first_sequence() == writers[0].batch->0.first_sequence()
                &&& group.2 == writers[0].sync
                &&& final(self).next() == old(self).next()
                &&& final(self).waiting() == writers.update(
                    0,
                    PendingWriter { batch: None, ..writers[0] },
                )
            }),
    {
        let ghost writers = self.writers@;
        let mut first = self.writers.remove(0);
        let sync: bool = first.sync;
        let taken = first.batch;
        first.batch = None;
        self.writers.insert(0, first);
        proof {
            assert(self.writers@ =~= writers.update(
                0,
                PendingWriter { batch: None, ..writers[0] },
            ));
        }
        let mut result = match taken {
            Some(batch) => batch,
            None => WriteBatch::new(),
        };
        let mut size: usize = result.approximate_size();
        let limit: usize = if size <= MAX_BATCH_GROUP_OVERHEAD {
            size + MAX_BATCH_GROUP_OVERHEAD
        } else {
            MAX_BATCH_GROUP_SIZE
        };
        let mut count: usize = 1;
        proof {
            assert(writers.take(1).drop_last() =~= Seq::<PendingWriter>::empty());
            assert(writers.take(1).last() == writers[0]);
            assert(sizes(writers.take(1).drop_last()) == 0);
            assert(counts(writers.take(1).drop_last()) == 0);
            assert(bodies(writers.take(1).drop_last()) =~= Seq::<u8>::empty());
            assert(bodies(writers.take(1)) =~= writers[0].batch->0.updates_bytes());
        }
        let mut growing = true;
        while growing && count < self.writers.len()
            invariant
                1 <= count <= writers.len(),
                writers == old(self).waiting(),
                old(self).is_full(),
                self.writers@ == writers.update(
                    0,
                    PendingWriter { batch: None, ..writers[0] },
                ),
                self.next_id == old(self).next(),
                sync == writers[0].sync,
                limit == group_limit(batch_size(writers[0])),
                result.updates_bytes() == bodies(writers.take(count as int)),
                result.counted() == counts(writers.take(count as int)),
                result.first_sequence() == writers[0].batch->0.first_sequence(),
                size == sizes(writers.take(count as int)),
                forall|k: int| 1 <= k < count ==> #[trigger] joins(writers, k),
                !growing ==> !joins(writers, count as int),
            decreases
                writers.len() - count,
                if growing {
                    1int
                } else {
                    0int
                },
        {
            let ghost more = writers.take(count + 1);
            proof {
                assert(more.drop_last() =~= writers.take(count as int));
                assert(more.last() == writers[count as int]);
                assert(old(self).waiting()[count as int].batch is Some);
            }
            let mut joined = false;
            if !(self.writers[count].sync && !sync) {
                match &self.writers[count].batch {
                    None => {},
                    Some(batch) => {
                        match size.checked_add(batch.approximate_size()) {
                            None => {},
                            Some(total) => {
                                if total <= limit && result.count().checked_add(
                                    batch.count(),
                                ).is_some() {
                                    result.append(batch);
                                    size = total;
                                    joined = true;
                                }
                            },
                        }
                    },
                }
            }
            if joined {
                assert(joins(writers, count as int));
                count = count + 1;
            } else {
                growing = false;
            }
        }
        (result, count, sync)
    }

    /// Takes the first writers out of the queue. Returns the ids of those that wait
    /// to be told how the write came out.
    pub fn finish_writer_group(&mut self, count: usize) -> (told: Vec<u64>)
        requires
            count <= old(self).waiting().len(),
        ensures
            final(self).waiting() == old(self).waiting().skip(count as int),
            final(self).next() == old(self).next(),
            told@ == waiting_ids(old(self).waiting().take(count as int)),
    {
        let ghost writers = self.writers@;
        let mut told: Vec<u64> = Vec::new();
        let mut done: usize = 0;
        assert(writers.skip(0) =~= writers);
        assert(writers.take(0) =~= Seq::<PendingWriter>::empty());
        while done < count
            invariant
                done <= count <= writers.len(),
                writers == old(self).waiting(),
                self.next_id == old(self).next(),
                self.writers@ == writers.skip(done as int),
                told@ == waiting_ids(writers.take(done as int)),
            decreases count - done,
        {
            let writer = self.writers.remove(0);
            proof {
                assert(self.writers@ =~= writers.skip(done + 1));
                let more = writers.take(done + 1);
                assert(more.drop_last() =~= writers.take(done as int));
                assert(more.last() == writer);
            }
            if writer.waits {
                told.push(writer.id);
            }
            done = done + 1;
        }
        told
    }
}

/// The ids of the writers that wait to be told.
pub open spec fn waiting_ids(writers: Seq<PendingWriter>) -> Seq<u64>
    decreases writers.len(),
{
    if writers.len() == 0 {
        Seq::empty()
    } else if writers.last().waits {
        waiting_ids(writers.drop_last()).push(writers.last().id)
    } else {
        waiting_ids(writers.drop_last())
    }
}

/// The updates of some writers, one after the other.
pub open spec fn all_changes(held: Seq<Seq<Change>>) -> Seq<Change>
    decreases held.len(),
{
    if held.len() == 0 {
        Seq::empty()
    } else {
        all_changes(held.drop_last()) + held.last()
    }
}

/// A group has the updates of its writers, in the order in which they came.
pub proof fn law_group_holds(
    writers: Seq<PendingWriter>,
    held: Seq<Seq<Change>>,
    group: WriteBatch,
)
    requires
        writers.len() == held.len(),
        forall|i: int|
            0 <= i < writers.len() ==> (#[trigger] writers[i]).batch is Some
                && writers[i].batch->0.holds(held[i]),
        group.updates_bytes() == bodies(writers),
        group.counted() == counts(writers),
    ensures
        group.holds(all_changes(held)),
{
    lemma_group_holds(writers, held);
}

proof fn lemma_group_holds(writers: Seq<PendingWriter>, held: Seq<Seq<Change>>)
    requires
        writers.len() == held.len(),
        forall|i: int|
            0 <= i < writers.len() ==> (#[trigger] writers[i]).batch is Some
                && writers[i].batch->0.holds(held[i]),
    ensures
        bodies(writers) == write_batch::body_bytes(all_changes(held)),
        counts(writers) == all_changes(held).len(),
    decreases writers.len(),
{
    if writers.len() > 0 {
        let front = writers.drop_last();
        let fronts = held.drop_last();
        assert forall|i: int| 0 <= i < front.len() implies (#[trigger] front[i]).batch is Some
            && front[i].batch->0.holds(fronts[i]) by {
            assert(front[i] == writers[i]);
            assert(fronts[i] == held[i]);
        }
        lemma_group_holds(front, fronts);
        let last = writers.len() - 1;
        assert(writers[last].batch->0.holds(held[last]));
        write_batch::lemma_body_join(all_changes(fronts), held.last());
    } else {
        assert(bodies(writers) =~= write_batch::body_bytes(all_changes(held)));
    }
}

/// The sum of some numbers.
pub open spec fn sum_of(numbers: Seq<int>) -> int {
    numbers.fold_left(0, |sum: int, number: int| sum + number)
}

/// The sizes of the batches of some writers.
pub open spec fn each_size(writers: Seq<PendingWriter>) -> Seq<int> {
    Seq::new(
        writers.len(),
        |i: int|
            match writers[i].batch {
                Some(batch) => if 12 + batch.updates_bytes().len() <= usize::MAX {
                    12 + batch.updates_bytes().len() as int
                } else {
                    usize::MAX as int
                },
                None => 0,
            },
    )
}

/// The counts of the updates of some writers.
pub open spec fn each_count(writers: Seq<PendingWriter>) -> Seq<int> {
    Seq::new(writers.len(), |i: int| writers[i].batch->0.counted() as int)
}

proof fn lemma_sum_of(numbers: Seq<int>)
    requires
        numbers.len() > 0,
    ensures
        sum_of(numbers) == sum_of(numbers.drop_last()) + numbers.last(),
{
    let plus = |sum: int, number: int| sum + number;
    assert(numbers.fold_left(0, plus) == plus(
        numbers.drop_last().fold_left(0, plus),
        numbers.last(),
    ));
}

proof fn lemma_sums(writers: Seq<PendingWriter>)
    ensures
        sizes(writers) == sum_of(each_size(writers)),
        counts(writers) == sum_of(each_count(writers)),
    decreases writers.len(),
{
    if writers.len() > 0 {
        let front = writers.drop_last();
        lemma_sums(front);
        lemma_sum_of(each_size(writers));
        lemma_sum_of(each_count(writers));
        assert(each_size(writers).drop_last() =~= each_size(front));
        assert(each_count(writers).drop_last() =~= each_count(front));
    }
}

/// A group is synced if one of its writers wants it, it does not get larger than its first
/// batch allows, and the writer behind it would not have fitted.
pub proof fn law_group_fits(writers: Seq<PendingWriter>, count: int)
    requires
        is_group(writers, count),
    ensures
        ({
            let first = each_size(writers)[0];
            let limit = if first <= 131072 {
                first + 131072
            } else {
                1048576
            };
            let size = |count: int| sum_of(each_size(writers.take(count)));
            let updates = |count: int| sum_of(each_count(writers.take(count)));
            &&& 1 <= count <= writers.len()
            &&& forall|i: int| 0 <= i < count && (#[trigger] writers[i]).sync ==> writers[0].sync
            &&& count > 1 ==> size(count) <= limit && updates(count) <= u32::MAX
            &&& count < writers.len() ==> {
                ||| writers[count].sync && !writers[0].sync
                ||| size(count + 1) > limit
                ||| updates(count + 1) > u32::MAX
            }
        }),
{
    lemma_sums(writers.take(count));
    assert forall|i: int| 0 <= i < count && (#[trigger] writers[i]).sync implies writers[0].sync by {
        if i >= 1 {
            assert(joins(writers, i));
        }
    }
    if count > 1 {
        assert(joins(writers, count - 1));
    }
    if count < writers.len() {
        lemma_sums(writers.take(count + 1));
    }
}

/// All writers of a group that wait are told, and no others.
pub proof fn law_waiting_are_told(writers: Seq<PendingWriter>, id: u64)
    ensures
        waiting_ids(writers).contains(id) <==> exists|i: int|
            0 <= i < writers.len() && (#[trigger] writers[i]).waits && writers[i].id == id,
        waiting_ids(writers).len() <= writers.len(),
        (forall|i: int| 0 <= i < writers.len() ==> (#[trigger] writers[i]).waits)
            ==> waiting_ids(writers) == Seq::new(writers.len(), |i: int| writers[i].id),
    decreases writers.len(),
{
    let all = waiting_ids(writers);
    if writers.len() > 0 {
        let front = writers.drop_last();
        let some = waiting_ids(front);
        law_waiting_are_told(front, id);
        if all.contains(id) {
            let k = choose|k: int| 0 <= k < all.len() && all[k] == id;
            if k < some.len() {
                assert(some[k] == id);
                let i = choose|i: int|
                    0 <= i < front.len() && (#[trigger] front[i]).waits && front[i].id == id;
                assert(writers[i] == front[i]);
            } else {
                assert(writers[writers.len() - 1].waits);
            }
        }
        if exists|i: int|
            0 <= i < writers.len() && (#[trigger] writers[i]).waits && writers[i].id == id {
            let i = choose|i: int|
                0 <= i < writers.len() && (#[trigger] writers[i]).waits && writers[i].id == id;
            if i < front.len() {
                assert(front[i] == writers[i]);
                let k = choose|k: int| 0 <= k < some.len() && some[k] == id;
                assert(all[k] == id);
            } else {
                assert(all[some.len() as int] == id);
            }
        }
        if forall|i: int| 0 <= i < writers.len() ==> (#[trigger] writers[i]).waits {
            assert forall|i: int| 0 <= i < front.len() implies (#[trigger] front[i]).waits by {
                assert(front[i] == writers[i]);
            }
            assert(writers[writers.len() - 1].waits);
            assert(all =~= Seq::new(writers.len(), |i: int| writers[i].id));
        }
    } else {
        assert(all =~= Seq::new(writers.len(), |i: int| writers[i].id));
    }
}

/// The updates of some groups are those of each, one group after the other.
pub proof fn law_changes_in_order(held: Seq<Seq<Change>>)
    ensures
        all_changes(held) == held.flatten(),
    decreases held.len(),
{
    if held.len() > 0 {
        let front = held.drop_last();
        law_changes_in_order(front);
        front.lemma_flatten_push(held.last());
        assert(front.push(held.last()) =~= held);
    } else {
        assert(all_changes(held) =~= held.flatten());
    }
}

} // verus!
