//! The bytes of a block, and the entries that they hold.

use vstd::prelude::*;

use crate::block::block_entry;
use crate::coding;
use crate::comparator::Comparator;
use crate::db_iter::db_iterator;
use crate::status;
use crate::status::Status;

verus! {

/// How many restart points the bytes of a block claim.
pub open spec fn restart_count(image: Seq<u8>) -> nat {
    coding::le_value(image.skip(image.len() - 4))
}

/// Where the entries of a block end.
pub open spec fn region_len(image: Seq<u8>) -> int {
    image.len() - 4 - 4 * restart_count(image)
}

/// The part of a block that holds its entries.
pub open spec fn region(image: Seq<u8>) -> Seq<u8> {
    image.take(region_len(image))
}

/// The restart point at an index.
pub open spec fn restart_at(image: Seq<u8>, index: int) -> nat {
    coding::le_value(
        image.subrange(region_len(image) + 4 * index, region_len(image) + 4 * index + 4),
    )
}

/// Whether the restart points fit in the bytes.
pub open spec fn is_block(image: Seq<u8>) -> bool {
    image.len() >= 4 && restart_count(image) <= (image.len() - 4) / 4
}

/// An entry of a block as it was read.
pub struct Item {
    /// Where the entry starts.
    pub start: int,
    pub key: Seq<u8>,
    pub value: Seq<u8>,
    /// Where the next entry starts.
    pub end: int,
}

/// The entry at `offset`, where `previous` is the key of the entry before it; or
/// what is wrong with it.
#[verifier::opaque]
pub open spec fn item_at(region: Seq<u8>, offset: int, previous: Seq<u8>) -> Result<
    Item,
    Seq<char>,
> {
    let bytes = region.skip(offset);
    match block_entry::read_header(bytes) {
        Err(block_entry::EntryFault::Shared) => Err("bad shared"@),
        Err(block_entry::EntryFault::Unshared) => Err("bad unshared"@),
        Err(_) => Err("bad value_len"@),
        Ok(header) => if bytes.len() < block_entry::entry_len(header) {
            Err("truncated entry"@)
        } else if header.shared > previous.len() {
            Err("shared > prev key len"@)
        } else {
            Ok(
                Item {
                    start: offset,
                    key: previous.take(header.shared as int) + block_entry::delta_of(bytes, header),
                    value: block_entry::value_of(bytes, header),
                    end: offset + block_entry::entry_len(header),
                },
            )
        },
    }
}

/// All entries from `offset` on, if each of them can be read.
pub open spec fn walk(region: Seq<u8>, offset: int, previous: Seq<u8>) -> Option<Seq<Item>>
    decreases region.len() - offset,
{
    if offset >= region.len() {
        Some(Seq::empty())
    } else {
        match item_at(region, offset, previous) {
            Err(_) => None,
            Ok(item) => if item.end <= offset || item.end > region.len() {
                None
            } else {
                match walk(region, item.end, item.key) {
                    None => None,
                    Some(rest) => Some(seq![item] + rest),
                }
            },
        }
    }
}

/// What a search through the bytes of a block comes to.
pub enum Sought {
    Found(Item),
    /// There is no such entry.
    End,
    /// The bytes cannot be read on from some place, and why.
    Fault(Seq<char>),
}

/// What comes of reading the entry at `offset`.
pub open spec fn read_one(region: Seq<u8>, offset: int, previous: Seq<u8>) -> Sought {
    if offset >= region.len() {
        Sought::End
    } else {
        match item_at(region, offset, previous) {
            Err(text) => Sought::Fault(text),
            Ok(item) => Sought::Found(item),
        }
    }
}

/// The first entry from `offset` on whose key is not before `target`.
pub open spec fn walk_to<C: Comparator>(
    comparator: C,
    region: Seq<u8>,
    offset: int,
    previous: Seq<u8>,
    target: Seq<u8>,
) -> Sought
    decreases region.len() - offset,
{
    match read_one(region, offset, previous) {
        Sought::Found(item) => if !comparator.admits(item.key) {
            Sought::Fault("bad key"@)
        } else if comparator.less(item.key, target) && offset < item.end <= region.len() {
            walk_to(comparator, region, item.end, item.key, target)
        } else {
            Sought::Found(item)
        },
        other => other,
    }
}

/// The first entry from `offset` on that reaches up to `limit`.
pub open spec fn walk_until(region: Seq<u8>, offset: int, previous: Seq<u8>, limit: int) -> Sought
    decreases region.len() - offset,
{
    match read_one(region, offset, previous) {
        Sought::Found(item) => if item.end < limit && offset < item.end <= region.len() {
            walk_until(region, item.end, item.key, limit)
        } else {
            Sought::Found(item)
        },
        other => other,
    }
}

/// What walking to `target` comes to, where `item` was read.
pub open spec fn walk_to_from<C: Comparator>(
    comparator: C,
    region: Seq<u8>,
    item: Item,
    target: Seq<u8>,
) -> Sought {
    if !comparator.admits(item.key) {
        Sought::Fault("bad key"@)
    } else if comparator.less(item.key, target) {
        walk_to(comparator, region, item.end, item.key, target)
    } else {
        Sought::Found(item)
    }
}

/// What walking up to `limit` comes to, where `item` was read.
pub open spec fn walk_until_from(region: Seq<u8>, item: Item, limit: int) -> Sought {
    if item.end < limit {
        walk_until(region, item.end, item.key, limit)
    } else {
        Sought::Found(item)
    }
}

/// What is left of some bytes behind the varint in front, if there is one.
pub open spec fn behind_varint(bytes: Seq<u8>) -> Seq<u8> {
    match coding::read_varint32(bytes) {
        None => bytes,
        Some((_, count)) => bytes.skip(count as int),
    }
}

/// The part of the key that the entry in front holds; or what is wrong with it.
pub open spec fn stored_key(bytes: Seq<u8>) -> Result<Seq<u8>, Seq<char>> {
    let rest = behind_varint(bytes);
    match coding::read_varint32(rest) {
        None => Err("bad seek unshared"@),
        Some((unshared, count)) => {
            let tail = behind_varint(rest.skip(count as int));
            if tail.len() < unshared {
                Err("truncated seek"@)
            } else {
                Ok(tail.take(unshared as int))
            }
        },
    }
}

/// The key at a restart point; or what is wrong with it.
pub open spec fn restart_key<C: Comparator>(image: Seq<u8>, comparator: C, index: int) -> Result<
    Seq<u8>,
    Seq<char>,
> {
    if restart_at(image, index) > region_len(image) {
        Err("bad seek restart"@)
    } else {
        match stored_key(region(image).skip(restart_at(image, index) as int)) {
            Err(text) => Err(text),
            Ok(key) => if comparator.admits(key) {
                Ok(key)
            } else {
                Err("bad seek key"@)
            },
        }
    }
}

/// The restart point to start from, by halving the ones from `left` to `right`: those
/// up to `left` are before `target`, those behind `right` are not.
pub open spec fn restart_for<C: Comparator>(
    image: Seq<u8>,
    comparator: C,
    target: Seq<u8>,
    left: int,
    right: int,
) -> Result<int, Seq<char>>
    decreases right - left,
{
    if left >= right {
        Ok(left)
    } else {
        let middle = left + (right - left + 1) / 2;
        match restart_key(image, comparator, middle) {
            Err(text) => Err(text),
            Ok(key) => if comparator.less(key, target) {
                restart_for(image, comparator, target, middle, right)
            } else {
                restart_for(image, comparator, target, left, middle - 1)
            },
        }
    }
}

/// What looking for the first entry that is not before `target` comes to.
pub open spec fn sought<C: Comparator>(image: Seq<u8>, comparator: C, target: Seq<u8>) -> Sought {
    if restart_count(image) == 0 {
        Sought::End
    } else {
        match restart_for(image, comparator, target, 0, restart_count(image) - 1) {
            Err(text) => Sought::Fault(text),
            Ok(index) => walk_to(
                comparator,
                region(image),
                restart_at(image, index) as int,
                Seq::empty(),
                target,
            ),
        }
    }
}

/// The text of a fault in a block.
pub open spec fn fault_text(text: Seq<char>) -> Seq<char> {
    "Block"@ + ": "@ + text
}

/// What is found has a key that is admitted and not before the one that was sought.
pub proof fn lemma_walk_to<C: Comparator>(
    comparator: C,
    region: Seq<u8>,
    offset: int,
    previous: Seq<u8>,
    target: Seq<u8>,
)
    requires
        0 <= offset,
    ensures
        walk_to(comparator, region, offset, previous, target) matches Sought::Found(item)
            ==> comparator.admits(item.key) && !comparator.less(item.key, target),
    decreases region.len() - offset,
{
    if offset < region.len() {
        lemma_item_bounds(region, offset, previous);
        match item_at(region, offset, previous) {
            Err(_) => {},
            Ok(item) => {
                lemma_walk_to(comparator, region, item.end, item.key, target);
            },
        }
    }
}

/// What is found has a key that is admitted and not before the one that was sought.
pub proof fn lemma_sought<C: Comparator>(image: Seq<u8>, comparator: C, target: Seq<u8>)
    ensures
        sought(image, comparator, target) matches Sought::Found(item) ==> comparator.admits(
            item.key,
        ) && !comparator.less(item.key, target),
{
    match restart_for(image, comparator, target, 0, restart_count(image) - 1) {
        Err(_) => {},
        Ok(index) => {
            lemma_walk_to(
                comparator,
                region(image),
                restart_at(image, index) as int,
                Seq::empty(),
                target,
            );
        },
    }
}

/// What looking for the first entry comes to.
pub open spec fn first_of(image: Seq<u8>) -> Sought {
    if restart_count(image) == 0 {
        Sought::End
    } else {
        read_one(region(image), restart_at(image, 0) as int, Seq::empty())
    }
}

/// The entries from `offset` on as far as they can be read, and what is wrong with the
/// one behind them.
pub open spec fn walk_all(region: Seq<u8>, offset: int, previous: Seq<u8>) -> (
    Seq<db_iterator::Pair>,
    Option<Seq<char>>,
)
    decreases region.len() - offset,
{
    match read_one(region, offset, previous) {
        Sought::End => (Seq::empty(), None),
        Sought::Fault(text) => (Seq::empty(), Some(text)),
        Sought::Found(item) => if offset < item.end <= region.len() {
            let (rest, fault) = walk_all(region, item.end, item.key);
            (seq![(item.key, item.value)] + rest, fault)
        } else {
            (Seq::empty(), None)
        },
    }
}

/// The entries of a block as far as they can be read from the first restart point on, and
/// what is wrong with the one behind them.
pub open spec fn all_of(image: Seq<u8>) -> (Seq<db_iterator::Pair>, Option<Seq<char>>) {
    if restart_count(image) == 0 {
        (Seq::empty(), None)
    } else {
        walk_all(region(image), restart_at(image, 0) as int, Seq::empty())
    }
}

/// Walking through the entries finds them all, unless there is one that cannot be read.
pub proof fn law_all_or_fault(region: Seq<u8>, offset: int, previous: Seq<u8>)
    requires
        0 <= offset,
    ensures
        match walk(region, offset, previous) {
            Some(items) => walk_all(region, offset, previous) == (pairs(items), None::<Seq<char>>),
            None => walk_all(region, offset, previous).1 is Some,
        },
    decreases region.len() - offset,
{
    if offset < region.len() {
        lemma_item_bounds(region, offset, previous);
        match item_at(region, offset, previous) {
            Err(_) => {},
            Ok(item) => {
                law_all_or_fault(region, item.end, item.key);
                match walk(region, item.end, item.key) {
                    None => {},
                    Some(rest) => {
                        assert(pairs(seq![item] + rest) =~= seq![(item.key, item.value)] + pairs(
                            rest,
                        ));
                    },
                }
            },
        }
    } else {
        assert(pairs(Seq::empty()) =~= Seq::<db_iterator::Pair>::empty());
    }
}

/// What looking for the last entry comes to.
pub open spec fn last_of(image: Seq<u8>) -> Sought {
    if restart_count(image) == 0 {
        Sought::End
    } else {
        walk_until(
            region(image),
            restart_at(image, restart_count(image) - 1) as int,
            Seq::empty(),
            region_len(image),
        )
    }
}

/// The last restart point up to `index` that is before `place`.
pub open spec fn restart_ahead_of(image: Seq<u8>, index: int, place: int) -> Option<int>
    decreases index + 1,
{
    if index < 0 {
        None
    } else if restart_at(image, index) < place {
        Some(index)
    } else {
        restart_ahead_of(image, index - 1, place)
    }
}

/// What looking for the entry in front of the one at `place` comes to, where the restart
/// points behind `index` are behind that one too.
pub open spec fn ahead_of(image: Seq<u8>, index: int, place: int) -> Sought {
    match restart_ahead_of(image, index, place) {
        None => Sought::End,
        Some(at) => walk_until(
            region(image),
            restart_at(image, at) as int,
            Seq::empty(),
            place,
        ),
    }
}

/// The key of the entry before the one at `index`.
pub open spec fn previous_key(items: Seq<Item>, index: int) -> Seq<u8> {
    if index <= 0 {
        Seq::empty()
    } else {
        items[index - 1].key
    }
}

/// Whether the entries lie one behind the other and fill the region.
pub open spec fn chains(region: Seq<u8>, items: Seq<Item>) -> bool {
    &&& items.len() == 0 <==> region.len() == 0
    &&& items.len() > 0 ==> items[0].start == 0 && items[items.len() - 1].end == region.len()
    &&& forall|i: int|
        0 <= i < items.len() ==> item_at(
            region,
            #[trigger] items[i].start,
            previous_key(items, i),
        ) == Ok::<Item, Seq<char>>(items[i])
    &&& forall|i: int, j: int|
        0 <= i < items.len() && j == i + 1 && j < items.len() ==> #[trigger] items[i].end
            == #[trigger] items[j].start
}

/// An entry that was read has at least three bytes and lies in the region.
pub proof fn lemma_item_bounds(region: Seq<u8>, offset: int, previous: Seq<u8>)
    requires
        0 <= offset <= region.len(),
    ensures
        item_at(region, offset, previous) matches Ok(item) ==> offset + 3 <= item.end
            <= region.len() && item.start == offset && item.value.len() <= item.end - offset,
{
    reveal(item_at);
    block_entry::lemma_header_size(region.skip(offset));
}

/// In a chain each entry ends where a later one starts, or before.
pub proof fn lemma_chain_order(region: Seq<u8>, items: Seq<Item>, i: int, j: int)
    requires
        chains(region, items),
        0 <= i < j < items.len(),
    ensures
        0 <= items[i].start,
        items[i].start + 3 <= items[i].end <= items[j].start,
        items[j].start + 3 <= items[j].end <= region.len(),
    decreases j,
{
    lemma_chain_bounds(region, items, i);
    lemma_chain_bounds(region, items, j);
    if i + 1 < j {
        lemma_chain_order(region, items, i, j - 1);
        assert(items[j - 1].end == items[j].start);
    } else {
        assert(items[i].end == items[j].start);
    }
}

/// In a chain each entry lies in the region.
pub proof fn lemma_chain_bounds(region: Seq<u8>, items: Seq<Item>, i: int)
    requires
        chains(region, items),
        0 <= i < items.len(),
    ensures
        0 <= items[i].start,
        items[i].start + 3 <= items[i].end <= region.len(),
        items[i].value.len() <= items[i].end - items[i].start,
        item_at(region, items[i].start, previous_key(items, i)) == Ok::<Item, Seq<char>>(items[i]),
    decreases i,
{
    assert(items[i].start == items[i].start);
    if i > 0 {
        lemma_chain_bounds(region, items, i - 1);
        assert(items[i - 1].end == items[i].start);
    }
    lemma_item_bounds(region, items[i].start, previous_key(items, i));
}

/// What a walk finds is a chain.
pub proof fn lemma_walk_chains(region: Seq<u8>, offset: int, previous: Seq<u8>)
    requires
        0 <= offset <= region.len(),
    ensures
        walk(region, offset, previous) matches Some(items) ==> {
            &&& items.len() == 0 <==> offset == region.len()
            &&& items.len() > 0 ==> items[0].start == offset && items[items.len() - 1].end
                == region.len()
            &&& forall|i: int|
                0 <= i < items.len() ==> item_at(
                    region,
                    #[trigger] items[i].start,
                    if i == 0 {
                        previous
                    } else {
                        items[i - 1].key
                    },
                ) == Ok::<Item, Seq<char>>(items[i])
            &&& forall|i: int, j: int|
                0 <= i < items.len() && j == i + 1 && j < items.len() ==> #[trigger] items[i].end
                    == #[trigger] items[j].start
        },
    decreases region.len() - offset,
{
    lemma_item_bounds(region, offset, previous);
    if offset < region.len() {
        match item_at(region, offset, previous) {
            Err(_) => {},
            Ok(item) => {
                lemma_walk_chains(region, item.end, item.key);
                match walk(region, item.end, item.key) {
                    None => {},
                    Some(rest) => {
                        let items = seq![item] + rest;
                        assert forall|i: int| 0 <= i < items.len() implies item_at(
                            region,
                            #[trigger] items[i].start,
                            if i == 0 {
                                previous
                            } else {
                                items[i - 1].key
                            },
                        ) == Ok::<Item, Seq<char>>(items[i]) by {
                            if i > 0 {
                                assert(items[i] == rest[i - 1]);
                                assert(rest[i - 1].start == rest[i - 1].start);
                                if i > 1 {
                                    assert(items[i - 1] == rest[i - 2]);
                                }
                            }
                        }
                        assert forall|i: int, j: int|
                            0 <= i < items.len() && j == i + 1 && j
                                < items.len() implies #[trigger] items[i].end
                            == #[trigger] items[j].start by {
                            assert(items[j] == rest[j - 1]);
                            if i > 0 {
                                assert(items[i] == rest[i - 1]);
                                assert(rest[i - 1].end == rest[j - 1].start);
                            }
                        }
                        if rest.len() > 0 {
                            assert(items[items.len() - 1] == rest[rest.len() - 1]);
                        }
                    },
                }
            },
        }
    }
}

/// A chain is what a walk finds.
pub proof fn lemma_chain_is_walk(region: Seq<u8>, items: Seq<Item>, from: int)
    requires
        chains(region, items),
        0 <= from < items.len(),
    ensures
        walk(region, items[from].start, previous_key(items, from)) == Some(items.skip(from)),
    decreases items.len() - from,
{
    lemma_chain_bounds(region, items, from);
    let item = items[from];
    if from + 1 < items.len() {
        lemma_chain_is_walk(region, items, from + 1);
        assert(items[from].end == items[from + 1].start);
        assert(items.skip(from) =~= seq![item] + items.skip(from + 1));
    } else {
        assert(walk(region, item.end, item.key) == Some(Seq::<Item>::empty()));
        assert(items.skip(from) =~= seq![item] + Seq::<Item>::empty());
    }
}

/// The keys and values of the entries.
pub open spec fn pairs(items: Seq<Item>) -> Seq<db_iterator::Pair> {
    Seq::new(items.len(), |i: int| (items[i].key, items[i].value))
}

/// Whether the entry at `offset` can be read without the key before it.
pub open spec fn is_restart(region: Seq<u8>, items: Seq<Item>, offset: int) -> bool {
    exists|k: int|
        0 <= k < items.len() && #[trigger] items[k].start == offset && item_at(
            region,
            offset,
            Seq::empty(),
        ) == Ok::<Item, Seq<char>>(items[k])
}

/// The entries of a block.
pub open spec fn items_of(image: Seq<u8>) -> Seq<Item> {
    walk(region(image), 0, Seq::empty())->0
}

/// Whether a block is as a builder leaves it: its entries can be read and are in
/// order, and its restart points rise and point at entries with full keys.
pub open spec fn sound<C: Comparator>(image: Seq<u8>, comparator: C) -> bool {
    let items = items_of(image);
    let count = restart_count(image);
    &&& is_block(image)
    &&& walk(region(image), 0, Seq::empty()) is Some
    &&& db_iterator::sorted(comparator, pairs(items))
    &&& region(image).len() == 0 ==> count <= 1
    &&& region(image).len() > 0 ==> count >= 1 && restart_at(image, 0) == 0
    &&& region(image).len() > 0 ==> forall|i: int|
        0 <= i < count ==> is_restart(region(image), items, #[trigger] restart_at(image, i) as int)
    &&& forall|i: int, j: int|
        0 <= i < j < count ==> #[trigger] restart_at(image, i) < #[trigger] restart_at(image, j)
}

/// The entries of a sound block form a chain.
pub proof fn lemma_sound_chain<C: Comparator>(image: Seq<u8>, comparator: C)
    requires
        sound(image, comparator),
    ensures
        chains(region(image), items_of(image)),
{
    lemma_walk_chains(region(image), 0, Seq::empty());
    let items = items_of(image);
    assert forall|i: int| 0 <= i < items.len() implies item_at(
        region(image),
        #[trigger] items[i].start,
        previous_key(items, i),
    ) == Ok::<Item, Seq<char>>(items[i]) by {}
}

/// Each entry of a sound block takes at least three bytes.
pub proof fn lemma_item_count<C: Comparator>(image: Seq<u8>, comparator: C)
    requires
        sound(image, comparator),
    ensures
        3 * items_of(image).len() <= image.len(),
        pairs(items_of(image)).len() == items_of(image).len(),
{
    lemma_sound_chain(image, comparator);
    let items = items_of(image);
    if items.len() > 0 {
        lemma_chain_count(region(image), items, items.len() - 1);
        lemma_chain_bounds(region(image), items, items.len() - 1);
    }
}

proof fn lemma_chain_count(region: Seq<u8>, items: Seq<Item>, i: int)
    requires
        chains(region, items),
        0 <= i < items.len(),
    ensures
        3 * (i + 1) <= items[i].end,
    decreases i,
{
    lemma_chain_bounds(region, items, i);
    if i > 0 {
        lemma_chain_count(region, items, i - 1);
        lemma_chain_order(region, items, i - 1, i);
    }
}

/// The bytes of a block that was read.
#[derive(Debug)]
pub struct Block {
    bytes: Vec<u8>,
    restart_offset: usize,
    num_restarts: u32,
}

impl View for Block {
    type V = Seq<u8>;

    closed spec fn view(&self) -> Seq<u8> {
        self.bytes@
    }
}

impl Clone for Block {
    fn clone(&self) -> (copy: Self)
        ensures
            copy@ == self@,
            self.wf() ==> copy.wf(),
    {
        Block {
            bytes: vstd::slice::slice_to_vec(self.bytes.as_slice()),
            restart_offset: self.restart_offset,
            num_restarts: self.num_restarts,
        }
    }
}

impl Block {
    /// The restart points are where the count says.
    pub closed spec fn wf(&self) -> bool {
        &&& is_block(self@)
        &&& self.restart_offset == region_len(self@)
        &&& self.num_restarts == restart_count(self@)
    }

    /// The bytes of a block can be read as one.
    pub proof fn lemma_is_block(&self)
        requires
            self.wf(),
        ensures
            is_block(self@),
    {
    }

    pub fn new(bytes: Vec<u8>) -> (block: status::Result<Self>)
        ensures
            match block {
                Ok(b) => is_block(bytes@) && b.wf() && b@ == bytes@,
                Err(e) => !is_block(bytes@) && e.says(
                    status::Code::Corruption,
                    if bytes@.len() < 4 {
                        "Block: too small for restart count"@
                    } else {
                        "Block: bad restart count"@
                    },
                ),
            },
    {
        let length: usize = bytes.len();
        if length < 4 {
            return Err(Status::corruption("Block: too small for restart count"));
        }
        let num_restarts = coding::decode_fixed32(&bytes.as_slice()[length - 4..length]);
        assert(bytes@.subrange(length - 4, length as int).take(4) =~= bytes@.skip(
            bytes@.len() - 4,
        ));
        let max_restarts: usize = (length - 4) / 4;
        if num_restarts as usize > max_restarts {
            return Err(Status::corruption("Block: bad restart count"));
        }
        let restart_offset: usize = length - 4 - num_restarts as usize * 4;
        Ok(Block { bytes, restart_offset, num_restarts })
    }

    pub fn bytes(&self) -> (bytes: &[u8])
        ensures
            bytes@ == self@,
    {
        self.bytes.as_slice()
    }

    pub fn num_restarts(&self) -> (count: u32)
        requires
            self.wf(),
        ensures
            count == restart_count(self@),
    {
        self.num_restarts
    }

    pub fn restart_offset(&self) -> (offset: usize)
        requires
            self.wf(),
        ensures
            offset == region_len(self@),
            offset <= self@.len(),
    {
        self.restart_offset
    }

    pub fn size(&self) -> (size: usize)
        ensures
            size == self@.len(),
    {
        self.bytes.len()
    }

    /// The restart point at `index`.
    pub fn read_restart(&self, index: u32) -> (offset: u32)
        requires
            self.wf(),
            index < restart_count(self@),
        ensures
            offset == restart_at(self@, index as int),
    {
        let length: usize = self.bytes.len();
        let at: usize = self.restart_offset + index as usize * 4;
        let offset = coding::decode_fixed32(&self.bytes.as_slice()[at..length]);
        assert(self@.subrange(at as int, length as int).take(4) =~= self@.subrange(
            region_len(self@) + 4 * index,
            region_len(self@) + 4 * index + 4,
        ));
        offset
    }

    /// The entries from `offset` on.
    pub fn entries_from(&self, offset: usize) -> (bytes: &[u8])
        requires
            self.wf(),
            offset <= region_len(self@),
        ensures
            bytes@ == region(self@).skip(offset as int),
    {
        let bytes = &self.bytes.as_slice()[offset..self.restart_offset];
        assert(bytes@ =~= region(self@).skip(offset as int));
        bytes
    }
}

} // verus!
