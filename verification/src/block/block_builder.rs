//! Builds a block entry by entry.

use vstd::prelude::*;

use crate::block::block_entry;
use crate::block::block_entry::BlockEntry;
use crate::block::block_restart_trailer;
use crate::block::data;
use crate::coding;
use crate::comparator;
use crate::comparator::Comparator;
use crate::db_iter::db_iterator;

verus! {

pub const DEFAULT_RESTART_INTERVAL: usize = 16;

/// Whether the entry at `index` is stored with its full key. The first entry
/// shares nothing either, but its restart point is always there.
pub open spec fn starts_over(index: int, interval: int) -> bool {
    index > 0 && index % interval == 0
}

/// How much of its key the last of the entries shares with the one before it.
pub open spec fn shared_len(entries: Seq<db_iterator::Pair>, interval: int) -> int {
    let last = entries.len() - 1;
    if last == 0 || starts_over(last, interval) {
        0
    } else {
        comparator::common_len(entries[last - 1].0, entries[last].0)
    }
}

/// What the last of the entries adds to a block. The lengths are held in 32
/// bits.
pub open spec fn last_entry_bytes(entries: Seq<db_iterator::Pair>, interval: int) -> Seq<u8> {
    let (key, value) = entries.last();
    let shared = shared_len(entries, interval);
    block_entry::entry_bytes(
        (shared as nat) % coding::two_pow_32(),
        ((key.len() - shared) as nat) % coding::two_pow_32(),
        value.len() % coding::two_pow_32(),
        key.skip(shared),
        value,
    )
}

/// The entries of a block in bytes.
pub open spec fn entries_image(entries: Seq<db_iterator::Pair>, interval: int) -> Seq<u8>
    decreases entries.len(),
{
    if entries.len() == 0 {
        Seq::empty()
    } else {
        entries_image(entries.drop_last(), interval) + last_entry_bytes(entries, interval)
    }
}

/// The restart points of a block. They are held in 32 bits.
pub open spec fn restarts(entries: Seq<db_iterator::Pair>, interval: int) -> Seq<u32>
    decreases entries.len(),
{
    if entries.len() == 0 {
        seq![0u32]
    } else {
        let before = restarts(entries.drop_last(), interval);
        if starts_over(entries.len() - 1, interval) {
            before.push(
                (entries_image(entries.drop_last(), interval).len() % coding::two_pow_32()) as u32,
            )
        } else {
            before
        }
    }
}

/// A whole block in bytes: the entries, then the restart points.
pub open spec fn block_image(entries: Seq<db_iterator::Pair>, interval: int) -> Seq<u8> {
    entries_image(entries, interval) + block_restart_trailer::trailer_bytes(
        restarts(entries, interval),
    )
}

/// Accumulates prefix-compressed entries.
pub struct BlockBuilder<C: Comparator> {
    comparator: C,
    buffer: Vec<u8>,
    restarts: Vec<u32>,
    counter: usize,
    finished: bool,
    last_key: Vec<u8>,
    block_restart_interval: usize,
    added: Ghost<Seq<db_iterator::Pair>>,
}

impl<C: Comparator> BlockBuilder<C> {
    /// The entries that were added so far.
    pub closed spec fn entries(&self) -> Seq<db_iterator::Pair> {
        self.added@
    }

    /// How many entries lie between two restart points.
    pub closed spec fn interval(&self) -> int {
        self.block_restart_interval as int
    }

    /// The comparator of the keys.
    pub closed spec fn order(&self) -> C {
        self.comparator
    }

    /// Whether the block was finished.
    pub closed spec fn is_finished(&self) -> bool {
        self.finished
    }

    /// The bytes so far.
    pub closed spec fn image(&self) -> Seq<u8> {
        self.buffer@
    }

    /// How many restart points there are so far.
    pub closed spec fn restart_points(&self) -> nat {
        self.restarts@.len()
    }

    /// The bytes are those of the entries.
    pub closed spec fn wf(&self) -> bool {
        let entries = self.added@;
        let interval = self.interval();
        &&& interval >= 1
        &&& self.restarts@ == restarts(entries, interval)
        &&& self.counter <= interval
        &&& entries.len() == 0 ==> self.counter == 0 && self.last_key@ == Seq::<u8>::empty()
        &&& entries.len() > 0 ==> self.last_key@ == entries.last().0 && self.counter == (
        entries.len() - 1) % interval + 1
        &&& self.buffer@ == if self.finished {
            block_image(entries, interval)
        } else {
            entries_image(entries, interval)
        }
        &&& forall|i: int, j: int|
            0 <= i < j < entries.len() ==> self.comparator.admits(#[trigger] entries[i].0)
                && self.comparator.admits(#[trigger] entries[j].0) && self.comparator.less(
                entries[i].0,
                entries[j].0,
            )
    }

    /// The bytes and the restart points, as the entries determine them.
    pub proof fn lemma_wf(&self)
        requires
            self.wf(),
        ensures
            self.interval() >= 1,
            self.restart_points() == restarts(self.entries(), self.interval()).len(),
            self.image() == if self.is_finished() {
                block_image(self.entries(), self.interval())
            } else {
                entries_image(self.entries(), self.interval())
            },
            self.entries().len() > 1 ==> db_iterator::sorted(self.order(), self.entries()),
    {
        let entries = self.entries();
        if entries.len() > 1 {
            assert forall|i: int| 0 <= i < entries.len() implies self.order().admits(
                #[trigger] entries[i].0,
            ) by {
                if i > 0 {
                    assert(self.comparator.less(entries[0].0, entries[i].0));
                } else {
                    assert(self.comparator.less(entries[0].0, entries[1].0));
                }
            }
        }
    }

    pub fn new(comparator: C, restart_interval: usize) -> (builder: Self)
        requires
            restart_interval >= 1,
        ensures
            builder.wf(),
            builder.entries() == Seq::<db_iterator::Pair>::empty(),
            builder.interval() == restart_interval,
            builder.order() == comparator,
            !builder.is_finished(),
    {
        let mut restarts: Vec<u32> = Vec::new();
        restarts.push(0);
        assert(restarts@ =~= seq![0u32]);
        BlockBuilder {
            comparator,
            buffer: Vec::new(),
            restarts,
            counter: 0,
            finished: false,
            last_key: Vec::new(),
            block_restart_interval: restart_interval,
            added: Ghost(Seq::empty()),
        }
    }

    /// Forgets all entries.
    pub fn reset(&mut self)
        requires
            old(self).wf(),
        ensures
            final(self).wf(),
            final(self).entries() == Seq::<db_iterator::Pair>::empty(),
            final(self).interval() == old(self).interval(),
            final(self).order() == old(self).order(),
            !final(self).is_finished(),
    {
        self.buffer.clear();
        self.restarts.clear();
        self.restarts.push(0);
        self.counter = 0;
        self.finished = false;
        self.last_key.clear();
        proof {
            self.added@ = Seq::empty();
            assert(self.restarts@ =~= seq![0u32]);
        }
    }

    pub fn empty(&self) -> (answer: bool)
        requires
            self.wf(),
        ensures
            answer == (self.image().len() == 0),
            !self.is_finished() ==> answer == (self.entries().len() == 0),
    {
        proof {
            lemma_image_grows(self.added@, self.interval());
        }
        self.buffer.len() == 0
    }

    /// The size that the block would have if it were finished now.
    pub fn current_size_estimate(&self) -> (size: usize)
        requires
            self.wf(),
            self.image().len() + 4 * self.restart_points() + 4 <= usize::MAX,
        ensures
            size == self.image().len() + 4 * self.restart_points() + 4,
            !self.is_finished() ==> size == block_image(self.entries(), self.interval()).len(),
    {
        proof {
            block_restart_trailer::lemma_words(self.restarts@);
            coding::lemma_le_bytes_len(self.restarts@.len() % coding::two_pow_32(), 4);
        }
        self.buffer.len() + self.restarts.len() * 4 + 4
    }

    /// Whether the block would have at least the given size if it were finished
    /// now.
    pub fn reaches(&self, size: usize) -> (answer: bool)
        requires
            self.wf(),
            !self.is_finished(),
        ensures
            answer == (block_image(self.entries(), self.interval()).len() >= size),
    {
        proof {
            block_restart_trailer::lemma_words(self.restarts@);
            coding::lemma_le_bytes_len(self.restarts@.len() % coding::two_pow_32(), 4);
        }
        self.buffer.len() as u128 + self.restarts.len() as u128 * 4 + 4 >= size as u128
    }

    /// Adds an entry behind all others.
    pub fn add(&mut self, key: &[u8], value: &[u8])
        requires
            old(self).wf(),
            !old(self).is_finished(),
            old(self).entries().len() > 0 ==> {
                &&& old(self).order().admits(old(self).entries().last().0)
                &&& old(self).order().admits(key@)
                &&& old(self).order().less(old(self).entries().last().0, key@)
            },
        ensures
            final(self).wf(),
            final(self).entries() == old(self).entries().push((key@, value@)),
            final(self).interval() == old(self).interval(),
            final(self).order() == old(self).order(),
            !final(self).is_finished(),
    {
        let ghost before = self.added@;
        let ghost after = before.push((key@, value@));
        let ghost interval = self.interval();
        proof {
            assert(after.drop_last() =~= before);
            if before.len() > 0 {
                lemma_counter(before.len() as int, interval);
            }
        }
        let shared = if self.counter < self.block_restart_interval {
            let shared = comparator::common_prefix(self.last_key.as_slice(), key);
            shared
        } else {
            self.restarts.push(coding::low_32_bits(self.buffer.len()));
            self.counter = 0;
            0
        };
        let unshared: usize = key.len() - shared;
        let delta: &[u8] = &key[shared..key.len()];
        proof {
            assert(shared == shared_len(after, interval));
            assert(delta@ =~= key@.skip(shared as int));
        }
        BlockEntry::encode_streaming(
            &mut self.buffer,
            coding::low_32_bits(shared),
            coding::low_32_bits(unshared),
            coding::low_32_bits(value.len()),
            delta,
            value,
        );
        self.last_key.truncate(shared);
        self.last_key.extend_from_slice(delta);
        self.counter = self.counter + 1;
        proof {
            self.added@ = after;
            assert(self.last_key@ =~= key@);
            assert forall|i: int, j: int| 0 <= i < j < after.len() implies self.comparator.admits(
                #[trigger] after[i].0,
            ) && self.comparator.admits(#[trigger] after[j].0) && self.comparator.less(
                after[i].0,
                after[j].0,
            ) by {
                let last = before.len() - 1;
                if j < before.len() {
                    assert(self.comparator.less(before[i].0, before[j].0));
                } else if i < last {
                    assert(self.comparator.less(before[i].0, before[last].0));
                    self.comparator.less_transitive(after[i].0, after[last].0, after[j].0);
                }
            }
        }
    }

    /// Ends the block: the restart points follow the entries.
    pub fn finish(&mut self) -> (image: &[u8])
        requires
            old(self).wf(),
            !old(self).is_finished(),
        ensures
            image@ == block_image(old(self).entries(), old(self).interval()),
            final(self).wf(),
            final(self).is_finished(),
            final(self).entries() == old(self).entries(),
            final(self).interval() == old(self).interval(),
            final(self).order() == old(self).order(),
    {
        let ghost start = self.buffer@;
        let mut index: usize = 0;
        assert(self.buffer@ =~= start + block_restart_trailer::words(self.restarts@.take(0)));
        while index < self.restarts.len()
            invariant
                index <= self.restarts@.len(),
                self.buffer@ == start + block_restart_trailer::words(
                    self.restarts@.take(index as int),
                ),
                self.restarts == old(self).restarts,
                self.comparator == old(self).comparator,
                self.counter == old(self).counter,
                self.last_key == old(self).last_key,
                self.block_restart_interval == old(self).block_restart_interval,
                self.added == old(self).added,
            decreases self.restarts@.len() - index,
        {
            coding::put_fixed32(&mut self.buffer, self.restarts[index]);
            index = index + 1;
            proof {
                let head = self.restarts@.take(index as int);
                assert(head.drop_last() =~= self.restarts@.take(index - 1));
                assert(self.buffer@ =~= start + block_restart_trailer::words(head));
            }
        }
        assert(self.restarts@.take(index as int) =~= self.restarts@);
        coding::put_fixed32(&mut self.buffer, coding::low_32_bits(self.restarts.len()));
        self.finished = true;
        assert(self.buffer@ =~= block_image(self.added@, self.interval()));
        self.buffer.as_slice()
    }
}

/// The counter of a builder tells whether the next entry starts over.
proof fn lemma_counter(count: int, interval: int)
    requires
        count > 0,
        interval >= 1,
    ensures
        (count - 1) % interval + 1 == interval <==> starts_over(count, interval),
        !starts_over(count, interval) ==> count % interval + 1 == (count - 1) % interval + 2,
        starts_over(count, interval) ==> count % interval + 1 == 1,
{
    vstd::arithmetic::div_mod::lemma_fundamental_div_mod(count - 1, interval);
    let q = (count - 1) / interval;
    let r = (count - 1) % interval;
    if r + 1 == interval {
        assert(count == (q + 1) * interval) by (nonlinear_arith)
            requires
                count - 1 == interval * q + r,
                r + 1 == interval,
        ;
        vstd::arithmetic::div_mod::lemma_fundamental_div_mod_converse(count, interval, q + 1, 0);
    } else {
        assert(count == q * interval + (r + 1)) by (nonlinear_arith)
            requires
                count - 1 == interval * q + r,
        ;
        vstd::arithmetic::div_mod::lemma_fundamental_div_mod_converse(count, interval, q, r + 1);
    }
}

/// Each entry takes at least three bytes.
pub proof fn lemma_image_grows(entries: Seq<db_iterator::Pair>, interval: int)
    ensures
        entries.len() == 0 ==> entries_image(entries, interval).len() == 0,
        entries.len() > 0 ==> entries_image(entries, interval).len() >= entries_image(
            entries.drop_last(),
            interval,
        ).len() + 3,
{
    if entries.len() > 0 {
        let (key, value) = entries.last();
        let shared = shared_len(entries, interval);
        coding::lemma_varint_len((shared as nat) % coding::two_pow_32());
        coding::lemma_varint_len(((key.len() - shared) as nat) % coding::two_pow_32());
        coding::lemma_varint_len(value.len() % coding::two_pow_32());
    }
}

// ---------------------------------------------------------------------------
// What is read from a block is what was added to it
// ---------------------------------------------------------------------------

/// The entries, each with its place in the block.
pub open spec fn built_items(entries: Seq<db_iterator::Pair>, interval: int) -> Seq<data::Item>
    decreases entries.len(),
{
    if entries.len() == 0 {
        Seq::empty()
    } else {
        built_items(entries.drop_last(), interval).push(
            data::Item {
                start: entries_image(entries.drop_last(), interval).len() as int,
                key: entries.last().0,
                value: entries.last().1,
                end: entries_image(entries, interval).len() as int,
            },
        )
    }
}

/// A varint can be read alike when more bytes follow.
proof fn lemma_varint_extends(bytes: Seq<u8>, more: Seq<u8>, max_bytes: nat)
    requires
        coding::read_varint(bytes, max_bytes) is Some,
    ensures
        coding::read_varint(bytes + more, max_bytes) == coding::read_varint(bytes, max_bytes),
    decreases max_bytes,
{
    if bytes[0] >= 128 {
        assert((bytes + more).skip(1) =~= bytes.skip(1) + more);
        lemma_varint_extends(bytes.skip(1), more, (max_bytes - 1) as nat);
    }
}

/// An entry can be read alike when more bytes follow.
proof fn lemma_item_extends(region: Seq<u8>, more: Seq<u8>, offset: int, previous: Seq<u8>)
    requires
        0 <= offset <= region.len(),
        data::item_at(region, offset, previous) is Ok,
    ensures
        data::item_at(region + more, offset, previous) == data::item_at(region, offset, previous),
{
    reveal(data::item_at);
    let bytes = region.skip(offset);
    let longer = (region + more).skip(offset);
    let max = coding::MAX_VARINT32_BYTES as nat;
    assert(longer =~= bytes + more);
    block_entry::lemma_header_size(bytes);
    lemma_varint_extends(bytes, more, max);
    let first = (coding::read_varint32(bytes)->0).1 as int;
    assert(longer.skip(first) =~= bytes.skip(first) + more);
    lemma_varint_extends(bytes.skip(first), more, max);
    let second = (coding::read_varint32(bytes.skip(first))->0).1 as int;
    assert(longer.skip(first + second) =~= bytes.skip(first + second) + more);
    lemma_varint_extends(bytes.skip(first + second), more, max);
    let header = block_entry::read_header(bytes)->Ok_0;
    assert(block_entry::read_header(longer) == block_entry::read_header(bytes));
    assert(block_entry::delta_of(longer, header) =~= block_entry::delta_of(bytes, header));
    assert(block_entry::value_of(longer, header) =~= block_entry::value_of(bytes, header));
}

/// A chain with one more entry behind it.
proof fn lemma_chain_push(
    head: Seq<u8>,
    tail: Seq<u8>,
    earlier: Seq<data::Item>,
    item: data::Item,
)
    requires
        data::chains(head, earlier),
        tail.len() > 0,
        item.start == head.len(),
        item.end == head.len() + tail.len(),
        data::item_at(
            head + tail,
            head.len() as int,
            data::previous_key(earlier, earlier.len() as int),
        ) == Ok::<data::Item, Seq<char>>(item),
    ensures
        data::chains(head + tail, earlier.push(item)),
{
    let items = earlier.push(item);
    assert forall|i: int| 0 <= i < items.len() implies data::item_at(
        head + tail,
        #[trigger] items[i].start,
        data::previous_key(items, i),
    ) == Ok::<data::Item, Seq<char>>(items[i]) by {
        assert(data::previous_key(items, i) == data::previous_key(earlier, i));
        if i < earlier.len() {
            assert(items[i] == earlier[i]);
            data::lemma_chain_bounds(head, earlier, i);
            lemma_item_extends(head, tail, earlier[i].start, data::previous_key(earlier, i));
        }
    }
    assert forall|i: int, j: int|
        0 <= i < items.len() && j == i + 1 && j < items.len() implies #[trigger] items[i].end
        == #[trigger] items[j].start by {
        assert(items[i] == earlier[i]);
        if j < earlier.len() {
            assert(items[j] == earlier[j]);
            assert(earlier[i].end == earlier[j].start);
        }
    }
    if earlier.len() > 0 {
        assert(items[0] == earlier[0]);
    }
}

/// The last entry of a block can be read at its place.
proof fn lemma_last_item(head: Seq<u8>, previous: Seq<u8>, key: Seq<u8>, value: Seq<u8>, shared: int)
    requires
        0 <= shared <= key.len(),
        shared <= previous.len(),
        shared < coding::two_pow_32(),
        previous.take(shared) == key.take(shared),
        key.skip(shared).len() < coding::two_pow_32(),
        value.len() < coding::two_pow_32(),
    ensures
        ({
            let tail = block_entry::entry_bytes(
                shared as nat,
                (key.len() - shared) as nat,
                value.len(),
                key.skip(shared),
                value,
            );
            data::item_at(head + tail, head.len() as int, previous) == Ok::<data::Item, Seq<char>>(
                data::Item {
                    start: head.len() as int,
                    key,
                    value,
                    end: (head.len() + tail.len()) as int,
                },
            )
        }),
{
    reveal(data::item_at);
    let delta = key.skip(shared);
    let tail = block_entry::entry_bytes(shared as nat, delta.len(), value.len(), delta, value);
    block_entry::law_entry_round_trip(shared as u32, delta, value, Seq::empty());
    assert((head + tail).skip(head.len() as int) =~= tail + Seq::<u8>::empty());
    assert(previous.take(shared) + delta =~= key);
}

/// The built entries are the entries.
proof fn lemma_built_pairs(entries: Seq<db_iterator::Pair>, interval: int)
    ensures
        built_items(entries, interval).len() == entries.len(),
        data::pairs(built_items(entries, interval)) == entries,
    decreases entries.len(),
{
    let items = built_items(entries, interval);
    if entries.len() == 0 {
        assert(data::pairs(items) =~= entries);
    } else {
        let earlier = built_items(entries.drop_last(), interval);
        lemma_built_pairs(entries.drop_last(), interval);
        assert(data::pairs(items) =~= data::pairs(earlier).push(entries.last()));
        assert(entries =~= entries.drop_last().push(entries.last()));
    }
}

/// No key is longer than the block, and there are no more entries than bytes.
proof fn lemma_key_bound(entries: Seq<db_iterator::Pair>, interval: int)
    ensures
        entries.len() > 0 ==> entries.last().0.len() <= entries_image(entries, interval).len(),
        entries.len() <= entries_image(entries, interval).len(),
    decreases entries.len(),
{
    if entries.len() > 0 {
        let shared = shared_len(entries, interval);
        lemma_image_grows(entries, interval);
        lemma_key_bound(entries.drop_last(), interval);
        lemma_shared(entries, interval);
        let tail = last_entry_bytes(entries, interval);
        assert(entries.last().0.skip(shared).len() <= tail.len());
    }
}

/// The built entries form a chain.
#[verifier::spinoff_prover]
#[verifier::rlimit(40)]
proof fn lemma_built_chain(entries: Seq<db_iterator::Pair>, interval: int)
    requires
        interval >= 1,
        entries_image(entries, interval).len() < coding::two_pow_32(),
    ensures
        data::chains(entries_image(entries, interval), built_items(entries, interval)),
        built_items(entries, interval).len() == entries.len(),
        data::pairs(built_items(entries, interval)) == entries,
        entries.len() <= entries_image(entries, interval).len(),
    decreases entries.len(),
{
    lemma_built_pairs(entries, interval);
    lemma_key_bound(entries, interval);
    if entries.len() > 0 {
        let before = entries.drop_last();
        let head = entries_image(before, interval);
        let earlier = built_items(before, interval);
        let (key, value) = entries.last();
        let shared = shared_len(entries, interval);
        lemma_image_grows(entries, interval);
        lemma_built_chain(before, interval);
        lemma_shared(entries, interval);
        let previous = data::previous_key(earlier, before.len() as int);
        if before.len() > 0 {
            assert(data::pairs(earlier)[before.len() - 1] == before.last());
            assert(previous == before.last().0);
        } else {
            assert(previous.take(0) =~= key.take(0));
        }
        let tail = last_entry_bytes(entries, interval);
        assert(key.skip(shared).len() <= tail.len());
        assert(value.len() <= tail.len());
        assert(tail == block_entry::entry_bytes(
            shared as nat,
            (key.len() - shared) as nat,
            value.len(),
            key.skip(shared),
            value,
        ));
        lemma_last_item(head, previous, key, value, shared);
        lemma_chain_push(head, tail, earlier, built_items(entries, interval).last());
    }
}

/// What the last key shares with the one before it lies in both.
proof fn lemma_shared(entries: Seq<db_iterator::Pair>, interval: int)
    requires
        entries.len() > 0,
    ensures
        ({
            let shared = shared_len(entries, interval);
            &&& 0 <= shared <= entries.last().0.len()
            &&& entries.len() == 1 ==> shared == 0
            &&& entries.len() > 1 ==> shared <= entries.drop_last().last().0.len()
                && entries.drop_last().last().0.take(shared) == entries.last().0.take(shared)
        }),
{
    if entries.len() > 1 {
        let previous = entries.drop_last().last().0;
        let key = entries.last().0;
        comparator::lemma_common_take(previous, key);
        assert(previous.take(0) =~= key.take(0));
    }
}

/// An entry that shares nothing can be read without the key before it.
proof fn lemma_restart_item(entries: Seq<db_iterator::Pair>, interval: int)
    requires
        interval >= 1,
        entries.len() > 0,
        entries.len() == 1 || starts_over(entries.len() - 1, interval),
        entries_image(entries, interval).len() < coding::two_pow_32(),
    ensures
        data::is_restart(
            entries_image(entries, interval),
            built_items(entries, interval),
            entries_image(entries.drop_last(), interval).len() as int,
        ),
{
    let before = entries.drop_last();
    let head = entries_image(before, interval);
    let tail = last_entry_bytes(entries, interval);
    let (key, value) = entries.last();
    let items = built_items(entries, interval);
    lemma_built_chain(entries, interval);
    assert(key.skip(0) =~= key);
    assert(key.len() <= tail.len());
    assert(value.len() <= tail.len());
    assert(Seq::<u8>::empty().take(0) =~= key.take(0));
    lemma_last_item(head, Seq::empty(), key, value, 0);
    assert(items[items.len() - 1].start == head.len());
}

/// A restart point stays one when another entry is added.
proof fn lemma_restart_stays(entries: Seq<db_iterator::Pair>, interval: int, offset: int)
    requires
        interval >= 1,
        entries.len() > 0,
        entries_image(entries, interval).len() < coding::two_pow_32(),
        data::is_restart(
            entries_image(entries.drop_last(), interval),
            built_items(entries.drop_last(), interval),
            offset,
        ),
    ensures
        data::is_restart(
            entries_image(entries, interval),
            built_items(entries, interval),
            offset,
        ),
        offset < entries_image(entries.drop_last(), interval).len(),
{
    let before = entries.drop_last();
    let head = entries_image(before, interval);
    let earlier = built_items(before, interval);
    let items = built_items(entries, interval);
    lemma_image_grows(entries, interval);
    lemma_built_chain(before, interval);
    let k = choose|k: int|
        0 <= k < earlier.len() && #[trigger] earlier[k].start == offset && data::item_at(
            head,
            offset,
            Seq::empty(),
        ) == Ok::<data::Item, Seq<char>>(earlier[k]);
    data::lemma_chain_bounds(head, earlier, k);
    lemma_item_extends(head, last_entry_bytes(entries, interval), offset, Seq::empty());
    assert(items[k] == earlier[k]);
    assert(items[k].start == offset);
}

/// The restart points rise from 0 and point at entries with full keys.
proof fn lemma_built_restarts(entries: Seq<db_iterator::Pair>, interval: int)
    requires
        interval >= 1,
        entries_image(entries, interval).len() < coding::two_pow_32(),
    ensures
        ({
            let points = restarts(entries, interval);
            let image = entries_image(entries, interval);
            let items = built_items(entries, interval);
            &&& 1 <= points.len() <= entries.len() + 1
            &&& points[0] == 0
            &&& entries.len() == 0 ==> points.len() == 1
            &&& entries.len() > 0 ==> forall|i: int|
                0 <= i < points.len() ==> data::is_restart(image, items, #[trigger] points[i] as int)
            &&& forall|i: int, j: int|
                0 <= i < j < points.len() ==> #[trigger] points[i] < #[trigger] points[j]
        }),
    decreases entries.len(),
{
    if entries.len() > 0 {
        let before = entries.drop_last();
        let head = entries_image(before, interval);
        let old_points = restarts(before, interval);
        let points = restarts(entries, interval);
        lemma_image_grows(entries, interval);
        lemma_built_restarts(before, interval);
        if before.len() == 0 || starts_over(entries.len() - 1, interval) {
            lemma_restart_item(entries, interval);
        }
        if before.len() > 0 {
            assert forall|i: int| 0 <= i < old_points.len() implies data::is_restart(
                entries_image(entries, interval),
                built_items(entries, interval),
                #[trigger] old_points[i] as int,
            ) && old_points[i] < head.len() by {
                lemma_restart_stays(entries, interval, old_points[i] as int);
            }
        } else {
            lemma_image_grows(before, interval);
        }
        assert forall|i: int| 0 <= i < points.len() implies data::is_restart(
            entries_image(entries, interval),
            built_items(entries, interval),
            #[trigger] points[i] as int,
        ) by {
            if i < old_points.len() {
                assert(points[i] == old_points[i]);
            }
        }
        assert forall|i: int, j: int| 0 <= i < j < points.len() implies #[trigger] points[i]
            < #[trigger] points[j] by {
            assert(points[i] == old_points[i]);
            if j < old_points.len() {
                assert(points[j] == old_points[j]);
            }
        }
    }
}

/// A block reads as what was added to it: the bytes of sorted entries are a
/// sound block with just these entries, as long as they fit in 32-bit offsets.
pub proof fn law_block_round_trip<C: Comparator>(
    comparator: C,
    entries: Seq<db_iterator::Pair>,
    interval: int,
)
    requires
        interval >= 1,
        db_iterator::sorted(comparator, entries),
        block_image(entries, interval).len() < coding::two_pow_32(),
    ensures
        data::sound(block_image(entries, interval), comparator),
        data::pairs(data::items_of(block_image(entries, interval))) == entries,
        data::region(block_image(entries, interval)) == entries_image(entries, interval),
{
    let image = block_image(entries, interval);
    let body = entries_image(entries, interval);
    let points = restarts(entries, interval);
    let items = built_items(entries, interval);
    let words = block_restart_trailer::words(points);
    let count = coding::le_bytes(points.len() % coding::two_pow_32(), 4);
    block_restart_trailer::lemma_words(points);
    coding::lemma_le_bytes_len(points.len() % coding::two_pow_32(), 4);
    lemma_built_chain(entries, interval);
    lemma_built_restarts(entries, interval);
    coding::lemma_pow256_values();
    coding::law_fixed_round_trip(points.len() % coding::two_pow_32(), 4);
    assert(points.len() < coding::two_pow_32());
    assert(image.skip(image.len() - 4) =~= count);
    assert(data::restart_count(image) == points.len());
    assert(data::region_len(image) == body.len());
    assert(data::region(image) =~= body);
    if entries.len() > 0 {
        data::lemma_chain_is_walk(body, items, 0);
        assert(items.skip(0) =~= items);
    } else {
        assert(items =~= Seq::<data::Item>::empty());
    }
    assert(data::items_of(image) == items);
    assert forall|i: int| 0 <= i < points.len() implies #[trigger] data::restart_at(image, i)
        == points[i] by {
        assert(block_restart_trailer::word_at(words, i) == points[i]);
        let at = body.len() + 4 * i;
        assert(image.subrange(at, at + 4) =~= words.subrange(4 * i, 4 * i + 4));
        coding::law_fixed_read_write(words.subrange(4 * i, 4 * i + 4));
    }
    assert forall|i: int, j: int|
        0 <= i < j < points.len() implies #[trigger] data::restart_at(image, i)
        < #[trigger] data::restart_at(image, j) by {
        assert(points[i] < points[j]);
    }
}

/// A restart point is kept for the first entry and for each that is a multiple of the
/// interval behind it: the place where the bytes of that entry start.
pub proof fn law_restart_points(entries: Seq<db_iterator::Pair>, interval: int)
    requires
        interval >= 1,
        block_image(entries, interval).len() < coding::two_pow_32(),
    ensures
        restarts(entries, interval).len() == if entries.len() == 0 {
            1
        } else {
            (entries.len() - 1) / interval + 1
        },
        forall|r: int|
            0 <= r < restarts(entries, interval).len() ==> #[trigger] restarts(entries, interval)[r]
                == entries_image(entries.take(r * interval), interval).len(),
    decreases entries.len(),
{
    let points = restarts(entries, interval);
    if entries.len() == 0 {
        assert(0 * interval == 0);
        assert(entries.take(0) =~= entries);
    } else {
        let front = entries.drop_last();
        let last = entries.len() - 1;
        let before = restarts(front, interval);
        assert(entries_image(front, interval).len() <= entries_image(entries, interval).len());
        assert(before.len() <= points.len());
        block_restart_trailer::lemma_words(points);
        block_restart_trailer::lemma_words(before);
        coding::lemma_le_bytes_len(points.len() % coding::two_pow_32(), 4);
        coding::lemma_le_bytes_len(before.len() % coding::two_pow_32(), 4);
        law_restart_points(front, interval);
        vstd::arithmetic::div_mod::lemma_fundamental_div_mod(last as int, interval);
        let quotient = last as int / interval;
        assert(interval * quotient == quotient * interval) by (nonlinear_arith);
        if last > 0 {
            let earlier = (last - 1) / interval;
            vstd::arithmetic::div_mod::lemma_fundamental_div_mod(last - 1, interval);
            vstd::arithmetic::div_mod::lemma_mod_pos_bound(last - 1, interval);
            vstd::arithmetic::div_mod::lemma_mod_pos_bound(last as int, interval);
            assert(interval * earlier == earlier * interval) by (nonlinear_arith);
            if starts_over(last as int, interval) {
                assert((quotient - 1) * interval == quotient * interval - interval)
                    by (nonlinear_arith);
                vstd::arithmetic::div_mod::lemma_fundamental_div_mod_converse(
                    last - 1,
                    interval,
                    quotient - 1,
                    interval - 1,
                );
            } else {
                vstd::arithmetic::div_mod::lemma_fundamental_div_mod_converse(
                    last - 1,
                    interval,
                    quotient,
                    last as int % interval - 1,
                );
            }
        } else {
            vstd::arithmetic::div_mod::lemma_div_basics_1(interval);
        }
        assert forall|r: int| 0 <= r < points.len() implies #[trigger] points[r] == entries_image(
            entries.take(r * interval),
            interval,
        ).len() by {
            if r < before.len() {
                assert(points[r] == before[r]);
                assert(r * interval <= last) by (nonlinear_arith)
                    requires
                        r <= quotient,
                        quotient * interval <= last,
                        interval >= 1,
                ;
                assert(0 <= r * interval) by (nonlinear_arith)
                    requires
                        0 <= r,
                        interval >= 1,
                ;
                assert(front.take(r * interval) =~= entries.take(r * interval));
            } else {
                assert(r == quotient);
                assert(entries.take(last as int) =~= front);
            }
        }
    }
}

} // verus!
