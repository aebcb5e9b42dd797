//! Iterator over the entries of a block.

use vstd::prelude::*;

use std::sync::Arc;

use crate::block::block_builder;
use crate::block::block_entry;
use crate::block::data;
use crate::block::data::Block;
use crate::coding;
use crate::comparator;
use crate::comparator::Comparator;
use crate::db_iter::db_iterator;
use crate::db_iter::db_iterator::DbIterator;
use crate::status;
use crate::status::Status;

verus! {

/// A block that is borrowed or shared.
enum BlockSource<'a> {
    Borrowed(&'a Block),
    Owned(Arc<Block>),
}

impl<'a> BlockSource<'a> {
    spec fn get(&self) -> Block {
        match self {
            BlockSource::Borrowed(block) => **block,
            BlockSource::Owned(block) => **block,
        }
    }

    fn block(&self) -> (block: &Block)
        ensures
            *block == self.get(),
    {
        match self {
            BlockSource::Borrowed(block) => block,
            BlockSource::Owned(block) => &**block,
        }
    }
}

/// Walks over the entries of a block. A seek searches the restart points, a step
/// back walks forward from the restart point before it.
pub struct BlockIter<'a, C: Comparator> {
    block: BlockSource<'a>,
    comparator: C,
    /// Where the current entry starts.
    current_offset: usize,
    /// Where the next entry starts.
    next_entry_offset: usize,
    /// A restart point at or before the current entry.
    restart_index: u32,
    /// The full key of the current entry.
    key: Vec<u8>,
    value_offset: usize,
    value_len: usize,
    valid: bool,
    failure: Option<Status>,
}

impl<'a, C: Comparator> BlockIter<'a, C> {
    /// The bytes of the block.
    pub closed spec fn image(&self) -> Seq<u8> {
        self.block.get()@
    }

    /// The comparator of the keys.
    pub closed spec fn order(&self) -> C {
        self.comparator
    }

    /// Where the next entry would be read.
    pub closed spec fn next_offset(&self) -> int {
        self.next_entry_offset as int
    }

    /// The key to which the next entry would add.
    pub closed spec fn running_key(&self) -> Seq<u8> {
        self.key@
    }

    /// The entry that was read last is `item`.
    spec fn holds(&self, item: data::Item) -> bool {
        &&& self.valid
        &&& self.current_offset == item.start
        &&& self.next_entry_offset == item.end
        &&& self.key@ == item.key
        &&& self.value_len == item.value.len()
        &&& self.value_offset == item.end - item.value.len()
        &&& self.current_offset <= self.value_offset
        &&& self.image().subrange(
            self.value_offset as int,
            self.value_offset + self.value_len,
        ) == item.value
    }

    /// The iterator stands on the entry at `index`.
    spec fn stands_on(&self, index: int) -> bool {
        &&& 0 <= index < data::items_of(self.image()).len()
        &&& self.holds(data::items_of(self.image())[index])
    }

    /// Only the position differs.
    spec fn same_block(&self, other: &Self) -> bool {
        &&& self.block == other.block
        &&& self.comparator == other.comparator
    }

    /// What holds between and during moves.
    spec fn steady(&self) -> bool {
        &&& self.block.get().wf()
        &&& self.restart_index <= data::restart_count(self.image())
        &&& self.valid ==> self.restart_index < data::restart_count(self.image())
        &&& self.valid ==> self.value_offset + self.value_len == self.next_entry_offset
            && self.next_entry_offset <= data::region_len(self.image())
            && self.current_offset <= self.next_entry_offset
        &&& data::sound(self.image(), self.comparator) ==> self.failure is None
    }

    /// What a failed read reports.
    pub open spec fn reports(failure: Option<Status>, text: Seq<char>) -> bool {
        failure matches Some(error) && error.says(
            status::Code::Corruption,
            data::fault_text(text),
        )
    }

    /// What a search leaves behind: the iterator stands on what was found, or nowhere.
    /// Bytes that cannot be read are reported.
    pub open spec fn lands(&self, earlier: &Self, found: data::Sought) -> bool {
        match found {
            data::Sought::Found(item) => {
                &&& self.scan().current == Some((item.key, item.value))
                &&& self.scan().failure == earlier.scan().failure
                &&& self.next_offset() == item.end
                &&& self.running_key() == item.key
            },
            data::Sought::End => {
                &&& self.scan().current is None
                &&& self.scan().failure == earlier.scan().failure
            },
            data::Sought::Fault(text) => {
                &&& self.scan().current is None
                &&& Self::reports(self.scan().failure, text)
            },
        }
    }

    /// Where the current entry starts.
    pub closed spec fn place(&self) -> int {
        self.current_offset as int
    }

    /// A restart point at or before the current entry.
    pub closed spec fn restart(&self) -> int {
        self.restart_index as int
    }

    /// The entry that is held is read, and walking on from it comes to `found`.
    spec fn on_way(&self, earlier: &Self, found: data::Sought, target: Seq<u8>) -> bool {
        &&& self.failure == earlier.failure
        &&& exists|item: data::Item| #[trigger]
            self.holds(item) && found == data::walk_to_from(
                self.comparator,
                data::region(self.image()),
                item,
                target,
            )
    }

    /// The entry that is held is read, and walking on from it comes to `found`.
    spec fn under_way(&self, earlier: &Self, found: data::Sought, limit: int) -> bool {
        &&& self.failure == earlier.failure
        &&& exists|item: data::Item| #[trigger]
            self.holds(item) && found == data::walk_until_from(
                data::region(self.image()),
                item,
                limit,
            )
    }

    /// What comes of reading the entry at `offset` after `previous`: the iterator
    /// stands on it, or nowhere where the entries end or it cannot be read.
    spec fn has_read(&self, earlier: &Self, offset: int, previous: Seq<u8>) -> bool {
        let region = data::region(self.image());
        if offset >= region.len() {
            &&& !self.valid
            &&& self.failure == earlier.failure
        } else {
            match data::item_at(region, offset, previous) {
                Ok(item) => self.holds(item) && self.failure == earlier.failure,
                Err(text) => !self.valid && Self::reports(self.failure, text),
            }
        }
    }

    /// What the iterator runs over, as the bytes of the block determine it.
    pub proof fn lemma_scan(&self)
        ensures
            self.scan().contents == db_iterator::map_of(data::pairs(data::items_of(self.image()))),
            self.scan().before == comparator::order_of(self.order()),
            self.scan().admits == comparator::domain_of(self.order()),
            self.scan().intact == data::sound(self.image(), self.order()),
            self.scan().steady,
    {
    }

    pub fn new(block: &'a Block, comparator: C) -> (iter: Self)
        requires
            block.wf(),
        ensures
            iter.wf(),
            iter.image() == block@,
            iter.order() == comparator,
            iter.scan().current is None,
            iter.scan().failure is None,
    {
        Self::from_source(BlockSource::Borrowed(block), comparator)
    }

    pub fn from_owned(block: Block, comparator: C) -> (iter: BlockIter<'static, C>)
        requires
            block.wf(),
        ensures
            iter.wf(),
            iter.image() == block@,
            iter.order() == comparator,
            iter.scan().current is None,
            iter.scan().failure is None,
    {
        BlockIter::from_source(BlockSource::Owned(Arc::new(block)), comparator)
    }

    pub fn from_shared(block: Arc<Block>, comparator: C) -> (iter: BlockIter<'static, C>)
        requires
            block.wf(),
        ensures
            iter.wf(),
            iter.image() == block@,
            iter.order() == comparator,
            iter.scan().current is None,
            iter.scan().failure is None,
    {
        BlockIter::from_source(BlockSource::Owned(block), comparator)
    }

    fn from_source(block: BlockSource<'a>, comparator: C) -> (iter: Self)
        requires
            block.get().wf(),
        ensures
            iter.wf(),
            iter.image() == block.get()@,
            iter.order() == comparator,
            !iter.valid,
            iter.failure is None,
    {
        let restart_offset = block.block().restart_offset();
        let num_restarts = block.block().num_restarts();
        BlockIter {
            block,
            comparator,
            current_offset: restart_offset,
            next_entry_offset: restart_offset,
            restart_index: num_restarts,
            key: Vec::new(),
            value_offset: 0,
            value_len: 0,
            valid: false,
            failure: None,
        }
    }

    fn set_corruption(&mut self, text: &str)
        requires
            old(self).block.get().wf(),
            old(self).restart_index <= data::restart_count(old(self).image()),
        ensures
            final(self).same_block(old(self)),
            final(self).restart_index == old(self).restart_index,
            !final(self).valid,
            final(self).current_offset == data::region_len(final(self).image()),
            final(self).next_entry_offset == data::region_len(final(self).image()),
            Self::reports(final(self).failure, text@),
    {
        self.valid = false;
        let restart_offset = self.block.block().restart_offset();
        self.current_offset = restart_offset;
        self.next_entry_offset = restart_offset;
        self.failure = Some(Self::corruption(text));
    }

    fn corruption(text: &str) -> (error: Status)
        ensures
            error.says(status::Code::Corruption, "Block"@ + ": "@ + text@),
    {
        let joined = Status::with_context(status::Code::Corruption, "Block", text);
        if text.is_empty() {
            let prefixed = Status::corruption("Block: ");
            proof {
                reveal_strlit("Block");
                reveal_strlit(": ");
                reveal_strlit("Block: ");
                assert("Block: "@ =~= "Block"@ + ": "@ + text@);
            }
            return prefixed;
        }
        joined
    }

    /// Reads the next entry. Says whether there was one.
    fn parse_next_entry(&mut self) -> (found: bool)
        requires
            old(self).block.get().wf(),
            old(self).restart_index < data::restart_count(old(self).image()),
            data::sound(old(self).image(), old(self).comparator) ==> old(self).failure is None,
        ensures
            final(self).same_block(old(self)),
            final(self).restart_index == old(self).restart_index,
            final(self).has_read(
                old(self),
                old(self).next_entry_offset as int,
                old(self).key@,
            ),
            found == final(self).valid,
            found ==> final(self).next_entry_offset <= data::region_len(final(self).image())
                && final(self).next_entry_offset > old(self).next_entry_offset
                && final(self).value_offset + final(self).value_len
                == final(self).next_entry_offset && final(self).current_offset
                == old(self).next_entry_offset,
            !found ==> final(self).current_offset == data::region_len(final(self).image())
                && final(self).next_entry_offset == data::region_len(final(self).image()),
    {
        let restart_offset = self.block.block().restart_offset();
        let start: usize = self.next_entry_offset;
        let ghost region = data::region(self.image());
        let ghost previous = self.key@;
        proof {
            reveal(data::item_at);
            assert(region.len() == restart_offset);
        }
        if start >= restart_offset {
            self.valid = false;
            self.current_offset = restart_offset;
            self.next_entry_offset = restart_offset;
            return false;
        }
        let bytes: &[u8] = self.block.block().entries_from(start);
        let header = match block_entry::get_header(bytes) {
            Err(fault) => {
                match fault {
                    block_entry::EntryFault::Shared => {
                        self.set_corruption("bad shared");
                    },
                    block_entry::EntryFault::Unshared => {
                        self.set_corruption("bad unshared");
                    },
                    _ => {
                        self.set_corruption("bad value_len");
                    },
                }
                return false;
            },
            Ok(header) => header,
        };
        proof {
            block_entry::lemma_header_size(bytes@);
        }
        let left: u64 = (bytes.len() - header.size) as u64;
        if left < header.unshared as u64 + header.value_len as u64 {
            self.set_corruption("truncated entry");
            return false;
        }
        if header.shared as usize > self.key.len() {
            self.set_corruption("shared > prev key len");
            return false;
        }
        let key_pos: usize = header.size;
        let value_pos: usize = key_pos + header.unshared as usize;
        let ghost item = data::item_at(region, start as int, previous)->Ok_0;
        let delta: &[u8] = &bytes[key_pos..value_pos];
        self.key.truncate(header.shared as usize);
        self.key.extend_from_slice(delta);
        self.current_offset = start;
        self.value_offset = start + value_pos;
        self.value_len = header.value_len as usize;
        self.next_entry_offset = self.value_offset + self.value_len;
        self.valid = true;
        proof {
            assert(self.key@ =~= item.key);
            assert(self.image().subrange(
                self.value_offset as int,
                self.value_offset + self.value_len,
            ) =~= item.value);
        }
        true
    }

    /// Gets ready to read the entry at a restart point.
    fn seek_to_restart_point(&mut self, index: u32)
        requires
            old(self).block.get().wf(),
            index < data::restart_count(old(self).image()),
        ensures
            final(self).same_block(old(self)),
            final(self).restart_index == index,
            final(self).key@ == Seq::<u8>::empty(),
            final(self).next_entry_offset == data::restart_at(final(self).image(), index as int),
            final(self).current_offset == final(self).next_entry_offset,
            !final(self).valid,
            final(self).failure == old(self).failure,
    {
        self.key.clear();
        self.restart_index = index;
        let offset = self.block.block().read_restart(index) as usize;
        self.next_entry_offset = offset;
        self.current_offset = offset;
        self.valid = false;
    }

    /// The part of the key that the entry at the front of `bytes` holds, or what
    /// is wrong with it.
    fn stored_key(bytes: &[u8]) -> (key: Result<&[u8], &'static str>)
        ensures
            match data::stored_key(bytes@) {
                Ok(stored) => key matches Ok(k) && k@ == stored,
                Err(text) => key matches Err(t) && t@ == text,
            },
            block_entry::read_entry(bytes@) matches Ok(header) ==> (key matches Ok(k) && k@
                == block_entry::delta_of(bytes@, header)),
    {
        proof {
            if block_entry::read_entry(bytes@) is Ok {
                block_entry::lemma_header_size(bytes@);
                Self::lemma_header_rest(bytes@);
            }
        }
        let mut rest: &[u8] = bytes;
        let _shared = coding::get_varint32(&mut rest);
        let unshared = match coding::get_varint32(&mut rest) {
            Some(unshared) => unshared as usize,
            None => {
                return Err("bad seek unshared");
            },
        };
        let _value_len = coding::get_varint32(&mut rest);
        if rest.len() < unshared {
            return Err("truncated seek");
        }
        let key = &rest[0..unshared];
        proof {
            assert(key@ =~= rest@.take(unshared as int));
            if block_entry::read_entry(bytes@) is Ok {
                let header = block_entry::read_entry(bytes@)->Ok_0;
                assert(key@ =~= block_entry::delta_of(bytes@, header));
            }
        }
        Ok(key)
    }

    /// The key at a restart point, or what is wrong with it.
    fn restart_key(&self, index: u32) -> (key: Result<&[u8], &'static str>)
        requires
            self.block.get().wf(),
            index < data::restart_count(self.image()),
        ensures
            match data::restart_key(self.image(), self.comparator, index as int) {
                Ok(stored) => key matches Ok(k) && k@ == stored && self.comparator.admits(k@),
                Err(text) => key matches Err(t) && t@ == text,
            },
            data::sound(self.image(), self.comparator) && data::region(self.image()).len() > 0 ==> {
                &&& key matches Ok(k)
                &&& self.restart_has_key(index as int, k@)
            },
    {
        let block = self.block.block();
        let offset = block.read_restart(index) as usize;
        let restart_offset = block.restart_offset();
        proof {
            if data::sound(self.image(), self.comparator) && data::region(self.image()).len() > 0 {
                self.lemma_restart_entry(index as int);
            }
        }
        if offset > restart_offset {
            return Err("bad seek restart");
        }
        match Self::stored_key(block.entries_from(offset)) {
            Err(text) => Err(text),
            Ok(key) => {
                proof {
                    if data::sound(self.image(), self.comparator) && data::region(
                        self.image(),
                    ).len() > 0 {
                        self.lemma_restart_admitted(index as int, key@);
                    }
                }
                if self.comparator.accepts(key) {
                    Ok(key)
                } else {
                    Err("bad seek key")
                }
            },
        }
    }

    /// The entry at a restart point has the given key.
    spec fn restart_has_key(&self, index: int, key: Seq<u8>) -> bool {
        let items = data::items_of(self.image());
        exists|i: int|
            0 <= i < items.len() && #[trigger] items[i].start == data::restart_at(
                self.image(),
                index,
            ) && items[i].key == key
    }

    /// In a sound block the entry at a restart point holds its key in full.
    proof fn lemma_restart_entry(&self, index: int)
        requires
            data::sound(self.image(), self.comparator),
            data::region(self.image()).len() > 0,
            0 <= index < data::restart_count(self.image()),
        ensures
            ({
                let at = data::restart_at(self.image(), index) as int;
                let bytes = data::region(self.image()).skip(at);
                &&& at <= data::region_len(self.image())
                &&& block_entry::read_entry(bytes) matches Ok(header)
                &&& self.restart_has_key(index, block_entry::delta_of(bytes, header))
            }),
    {
        let region = data::region(self.image());
        let items = data::items_of(self.image());
        let at = data::restart_at(self.image(), index) as int;
        assert(data::is_restart(region, items, at));
        data::lemma_sound_chain(self.image(), self.comparator);
        let k = choose|k: int|
            0 <= k < items.len() && #[trigger] items[k].start == at && data::item_at(
                region,
                at,
                Seq::empty(),
            ) == Ok::<data::Item, Seq<char>>(items[k]);
        data::lemma_chain_bounds(region, items, k);
        reveal(data::item_at);
        let bytes = region.skip(at);
        let header = block_entry::read_header(bytes)->Ok_0;
        block_entry::lemma_header_size(bytes);
        assert(items[k].key =~= block_entry::delta_of(bytes, header));
    }

    /// Three varints in a row take as many bytes as the header does.
    proof fn lemma_header_rest(bytes: Seq<u8>)
        requires
            block_entry::read_header(bytes) is Ok,
        ensures
            ({
                let header = block_entry::read_header(bytes)->Ok_0;
                let first = (coding::read_varint32(bytes)->0).1 as int;
                let second = (coding::read_varint32(bytes.skip(first))->0).1 as int;
                let third = (coding::read_varint32(bytes.skip(first).skip(second))->0).1 as int;
                &&& coding::read_varint32(bytes) is Some
                &&& coding::read_varint32(bytes.skip(first)) is Some
                &&& coding::read_varint32(bytes.skip(first).skip(second)) is Some
                &&& (coding::read_varint32(bytes.skip(first))->0).0 == header.unshared
                &&& bytes.skip(first).skip(second).skip(third) == bytes.skip(header.size as int)
            }),
    {
        block_entry::lemma_header_size(bytes);
        let first = (coding::read_varint32(bytes)->0).1 as int;
        let second = (coding::read_varint32(bytes.skip(first))->0).1 as int;
        assert(bytes.skip(first).skip(second) =~= bytes.skip(first + second));
        let third = (coding::read_varint32(bytes.skip(first + second))->0).1 as int;
        coding::lemma_read_varint_bounds(
            bytes.skip(first + second),
            coding::MAX_VARINT32_BYTES as nat,
        );
        assert(bytes.skip(first + second).skip(third) =~= bytes.skip(first + second + third));
    }

    /// The scan of a sound block runs over its entries.
    proof fn lemma_runs_over(&self)
        requires
            data::sound(self.image(), self.comparator),
        ensures
            db_iterator::runs_over(
                self.scan(),
                self.comparator,
                data::pairs(data::items_of(self.image())),
            ),
            data::chains(data::region(self.image()), data::items_of(self.image())),
    {
        data::lemma_sound_chain(self.image(), self.comparator);
    }

    /// Standing on an entry, the iterator's current entry is that one.
    proof fn lemma_current(&self, index: int)
        requires
            self.stands_on(index),
        ensures
            self.scan().current == db_iterator::pair_at(
                data::pairs(data::items_of(self.image())),
                index,
            ),
    {
    }

    /// The key at a restart point is before `target`.
    spec fn restart_precedes(&self, index: int, target: Seq<u8>) -> bool {
        let items = data::items_of(self.image());
        exists|i: int|
            0 <= i < items.len() && #[trigger] items[i].start == data::restart_at(
                self.image(),
                index,
            ) && self.comparator.less(items[i].key, target)
    }

    /// In a sound block the keys at restart points are admitted.
    proof fn lemma_restart_admitted(&self, index: int, key: Seq<u8>)
        requires
            data::sound(self.image(), self.comparator),
            self.restart_has_key(index, key),
        ensures
            self.comparator.admits(key),
    {
        let items = data::items_of(self.image());
        let i = choose|i: int|
            0 <= i < items.len() && #[trigger] items[i].start == data::restart_at(
                self.image(),
                index,
            ) && items[i].key == key;
        assert(self.comparator.admits(data::pairs(items)[i].0));
    }

    /// Where the key at a restart point is before `target`, so are all keys
    /// before it.
    proof fn lemma_before_restart(&self, index: int, target: Seq<u8>, k: int)
        requires
            data::sound(self.image(), self.comparator),
            self.comparator.admits(target),
            self.restart_precedes(index, target),
            0 <= k < data::items_of(self.image()).len(),
            data::items_of(self.image())[k].start == data::restart_at(self.image(), index),
        ensures
            forall|j: int|
                0 <= j < k ==> self.comparator.less(
                    #[trigger] data::pairs(data::items_of(self.image()))[j].0,
                    target,
                ),
    {
        let items = data::items_of(self.image());
        let entries = data::pairs(items);
        let region = data::region(self.image());
        let i = choose|i: int|
            0 <= i < items.len() && #[trigger] items[i].start == data::restart_at(
                self.image(),
                index,
            ) && self.comparator.less(items[i].key, target);
        data::lemma_sound_chain(self.image(), self.comparator);
        if i < k {
            data::lemma_chain_order(region, items, i, k);
        } else if k < i {
            data::lemma_chain_order(region, items, k, i);
        }
        assert forall|j: int| 0 <= j < k implies self.comparator.less(
            #[trigger] entries[j].0,
            target,
        ) by {
            assert(self.comparator.less(entries[j].0, entries[k].0));
            self.comparator.less_transitive(entries[j].0, entries[k].0, target);
        }
    }

    /// In a sound block the entry behind the one at `index` is read next.
    proof fn lemma_read_next(&self, earlier: &Self, index: int)
        requires
            data::sound(self.image(), self.comparator),
            self.same_block(earlier),
            earlier.stands_on(index),
            self.has_read(earlier, earlier.next_entry_offset as int, earlier.key@),
        ensures
            index + 1 < data::items_of(self.image()).len() ==> self.stands_on(index + 1),
            index + 1 >= data::items_of(self.image()).len() ==> !self.valid,
            self.failure == earlier.failure,
    {
        let items = data::items_of(self.image());
        let region = data::region(self.image());
        data::lemma_sound_chain(self.image(), self.comparator);
        data::lemma_chain_bounds(region, items, index);
        if index + 1 < items.len() {
            data::lemma_chain_bounds(region, items, index + 1);
            assert(items[index].end == items[index + 1].start);
            assert(data::previous_key(items, index + 1) == items[index].key);
        } else {
            assert(items[items.len() - 1].end == region.len());
        }
    }

    /// In a sound block the entry at a restart point is read from there.
    proof fn lemma_read_restart(&self, earlier: &Self, index: int) -> (k: int)
        requires
            data::sound(self.image(), self.comparator),
            self.same_block(earlier),
            0 <= index < data::restart_count(self.image()),
            self.has_read(
                earlier,
                data::restart_at(self.image(), index) as int,
                Seq::empty(),
            ),
        ensures
            self.failure == earlier.failure,
            data::items_of(self.image()).len() == 0 ==> !self.valid && k == 0,
            data::items_of(self.image()).len() > 0 ==> self.stands_on(k) && data::items_of(
                self.image(),
            )[k].start == data::restart_at(self.image(), index),
            data::items_of(self.image()).len() > 0 && index == 0 ==> k == 0,
    {
        let items = data::items_of(self.image());
        let region = data::region(self.image());
        let at = data::restart_at(self.image(), index) as int;
        data::lemma_sound_chain(self.image(), self.comparator);
        if items.len() > 0 {
            assert(data::is_restart(region, items, at));
            let k = choose|k: int|
                0 <= k < items.len() && #[trigger] items[k].start == at && data::item_at(
                    region,
                    at,
                    Seq::empty(),
                ) == Ok::<data::Item, Seq<char>>(items[k]);
            data::lemma_chain_bounds(region, items, k);
            if index == 0 && k > 0 {
                data::lemma_chain_order(region, items, 0, k);
            }
            k
        } else {
            0
        }
    }
}

/// An iterator over a finished block runs over the entries that were added.
pub proof fn law_built_block_scan<'a, C: Comparator>(
    iter: BlockIter<'a, C>,
    entries: Seq<db_iterator::Pair>,
    interval: int,
)
    requires
        interval >= 1,
        db_iterator::sorted(iter.order(), entries),
        iter.image() == block_builder::block_image(entries, interval),
        iter.image().len() < coding::two_pow_32(),
    ensures
        iter.scan().intact,
        iter.scan().contents == db_iterator::map_of(entries),
{
    block_builder::law_block_round_trip(iter.order(), entries, interval);
}

impl<'a, C: Comparator> DbIterator for BlockIter<'a, C> {
    closed spec fn wf(&self) -> bool {
        &&& self.steady()
        &&& data::sound(self.image(), self.comparator) && self.valid ==> exists|i: int|
            self.stands_on(i)
    }

    closed spec fn scan(&self) -> db_iterator::Scan {
        db_iterator::Scan {
            contents: db_iterator::map_of(data::pairs(data::items_of(self.image()))),
            before: comparator::order_of(self.comparator),
            admits: comparator::domain_of(self.comparator),
            intact: data::sound(self.image(), self.comparator),
            steady: true,
            current: if self.valid {
                Some(
                    (
                        self.key@,
                        self.image().subrange(
                            self.value_offset as int,
                            self.value_offset + self.value_len,
                        ),
                    ),
                )
            } else {
                None
            },
            failure: self.failure,
        }
    }

    fn valid(&self) -> (answer: bool) {
        self.valid
    }

    fn seek_to_first(&mut self)
        ensures
            final(self).image() == old(self).image(),
            final(self).order() == old(self).order(),
            final(self).lands(old(self), data::first_of(old(self).image())),
    {
        if self.block.block().num_restarts() == 0 {
            self.valid = false;
            proof {
                if data::sound(self.image(), self.comparator) {
                    self.lemma_runs_over();
                    db_iterator::lemma_at_first(
                        self.scan(),
                        self.comparator,
                        data::pairs(data::items_of(self.image())),
                    );
                }
            }
            return;
        }
        self.seek_to_restart_point(0);
        self.parse_next_entry();
        proof {
            if data::sound(self.image(), self.comparator) {
                let k = self.lemma_read_restart(old(self), 0);
                self.lemma_runs_over();
                if self.valid {
                    self.lemma_current(k);
                }
                db_iterator::lemma_at_first(
                    self.scan(),
                    self.comparator,
                    data::pairs(data::items_of(self.image())),
                );
            }
        }
    }

    fn seek_to_last(&mut self)
        ensures
            final(self).image() == old(self).image(),
            final(self).order() == old(self).order(),
            final(self).lands(old(self), data::last_of(old(self).image())),
    {
        let num_restarts = self.block.block().num_restarts();
        let restart_offset = self.block.block().restart_offset();
        let ghost image = self.image();
        let ghost items = data::items_of(image);
        let ghost whole = data::sound(image, self.comparator);
        if num_restarts == 0 {
            self.valid = false;
            proof {
                if whole {
                    self.lemma_runs_over();
                    db_iterator::lemma_at_last(self.scan(), self.comparator, data::pairs(items));
                }
            }
            return;
        }
        self.seek_to_restart_point(num_restarts - 1);
        let ghost start = *self;
        let mut more = self.parse_next_entry();
        let ghost mut index: int = 0;
        proof {
            if whole {
                index = self.lemma_read_restart(&start, num_restarts - 1);
            }
        }
        let ghost found = data::last_of(image);
        while more && self.next_entry_offset < restart_offset
            invariant
                self.block == old(self).block,
                self.comparator == old(self).comparator,
                self.image() == image,
                more ==> self.under_way(old(self), found, restart_offset as int),
                !more ==> self.lands(old(self), found),
                items == data::items_of(image),
                whole == data::sound(image, self.comparator),
                restart_offset == data::region_len(image),
                self.steady(),
                more == self.valid,
                self.restart_index < data::restart_count(image),
                whole && items.len() > 0 ==> self.stands_on(index),
                whole && items.len() == 0 ==> !self.valid,
            decreases restart_offset - self.next_entry_offset,
        {
            let ghost earlier = *self;
            more = self.parse_next_entry();
            proof {
                if whole {
                    self.lemma_read_next(&earlier, index);
                    data::lemma_sound_chain(image, self.comparator);
                    data::lemma_chain_bounds(data::region(image), items, index);
                    if index + 1 < items.len() {
                        index = index + 1;
                    } else {
                        assert(items[items.len() - 1].end == data::region(image).len());
                    }
                }
            }
        }
        proof {
            if whole {
                self.lemma_runs_over();
                if self.valid {
                    data::lemma_sound_chain(image, self.comparator);
                    if index + 1 < items.len() {
                        data::lemma_chain_order(data::region(image), items, index, index + 1);
                    }
                    self.lemma_current(index);
                }
                db_iterator::lemma_at_last(self.scan(), self.comparator, data::pairs(items));
            }
        }
    }

    fn seek(&mut self, target: &[u8])
        ensures
            final(self).image() == old(self).image(),
            final(self).order() == old(self).order(),
            final(self).lands(
                old(self),
                data::sought(old(self).image(), old(self).order(), target@),
            ),
    {
        let num_restarts = self.block.block().num_restarts();
        let restart_offset = self.block.block().restart_offset();
        let ghost image = self.image();
        let ghost items = data::items_of(image);
        let ghost entries = data::pairs(items);
        let ghost whole = data::sound(image, self.comparator);
        if num_restarts == 0 {
            self.valid = false;
            proof {
                if whole {
                    self.lemma_runs_over();
                    db_iterator::lemma_at_or_after(
                        self.scan(),
                        self.comparator,
                        entries,
                        target@,
                        0,
                    );
                }
            }
            return;
        }
        let mut left: u32 = 0;
        let mut right: u32 = num_restarts - 1;
        while left < right
            invariant
                self.block == old(self).block,
                self.comparator == old(self).comparator,
                self.failure == old(self).failure,
                self.image() == image,
                whole == data::sound(image, self.comparator),
                self.steady(),
                self.comparator.admits(target@),
                num_restarts == data::restart_count(image),
                left <= right < num_restarts,
                data::restart_for(image, self.comparator, target@, left as int, right as int)
                    == data::restart_for(image, self.comparator, target@, 0, num_restarts - 1),
                whole && left > 0 ==> self.restart_precedes(left as int, target@),
            decreases right - left,
        {
            let mid: u32 = left + (right - left + 1) / 2;
            let before = match self.restart_key(mid) {
                Ok(key) => Ok(comparator::precedes(&self.comparator, key, target)),
                Err(text) => Err(text),
            };
            match before {
                Err(text) => {
                    self.set_corruption(text);
                    return;
                },
                Ok(before) => {
                    if before {
                        left = mid;
                    } else {
                        right = mid - 1;
                    }
                },
            }
        }
        self.seek_to_restart_point(left);
        let ghost start = *self;
        let mut more = self.parse_next_entry();
        let ghost mut index: int = 0;
        proof {
            if whole {
                index = self.lemma_read_restart(&start, left as int);
                self.lemma_runs_over();
                if items.len() > 0 && left > 0 {
                    self.lemma_before_restart(left as int, target@, index);
                }
            }
        }
        let ghost found = data::sought(image, self.comparator, target@);
        while more
            invariant
                self.block == old(self).block,
                self.comparator == old(self).comparator,
                self.image() == image,
                found == data::sought(image, self.comparator, target@),
                more ==> self.on_way(old(self), found, target@),
                !more ==> self.lands(old(self), found),
                items == data::items_of(image),
                entries == data::pairs(items),
                whole == data::sound(image, self.comparator),
                restart_offset == data::region_len(image),
                self.steady(),
                more == self.valid,
                self.comparator.admits(target@),
                self.restart_index < data::restart_count(image),
                whole && more ==> self.stands_on(index),
                whole && !more ==> index == items.len(),
                whole ==> forall|j: int|
                    0 <= j < index ==> self.comparator.less(#[trigger] entries[j].0, target@),
            decreases
                restart_offset - self.next_entry_offset + if more {
                    1int
                } else {
                    0int
                },
        {
            proof {
                if whole {
                    self.lemma_runs_over();
                    self.lemma_current(index);
                    assert(self.comparator.admits(entries[index].0));
                }
            }
            if !self.comparator.accepts(self.key.as_slice()) {
                self.set_corruption("bad key");
                return;
            }
            if !comparator::precedes(&self.comparator, self.key.as_slice(), target) {
                proof {
                    if whole {
                        db_iterator::lemma_at_or_after(
                            self.scan(),
                            self.comparator,
                            entries,
                            target@,
                            index,
                        );
                    }
                }
                return;
            }
            let ghost earlier = *self;
            more = self.parse_next_entry();
            proof {
                if whole {
                    self.lemma_read_next(&earlier, index);
                    assert(entries[index].0 == earlier.key@);
                    index = index + 1;
                }
            }
        }
        proof {
            if whole {
                self.lemma_runs_over();
                db_iterator::lemma_at_or_after(
                    self.scan(),
                    self.comparator,
                    entries,
                    target@,
                    index,
                );
            }
        }
    }

    fn next(&mut self)
        ensures
            final(self).image() == old(self).image(),
            final(self).order() == old(self).order(),
            final(self).lands(
                old(self),
                data::read_one(
                    data::region(old(self).image()),
                    old(self).next_offset(),
                    old(self).running_key(),
                ),
            ),
    {
        let ghost image = self.image();
        let ghost items = data::items_of(image);
        let ghost whole = data::sound(image, self.comparator);
        let num_restarts = self.block.block().num_restarts();
        let ghost from = choose|i: int| self.stands_on(i);
        self.parse_next_entry();
        proof {
            if whole {
                self.lemma_read_next(old(self), from);
                self.lemma_runs_over();
                old(self).lemma_current(from);
                if self.valid {
                    self.lemma_current(from + 1);
                }
                db_iterator::lemma_after(self.scan(), self.comparator, data::pairs(items), from);
            }
        }
        let ghost read = *self;
        while self.restart_index + 1 < num_restarts && self.block.block().read_restart(
            self.restart_index + 1,
        ) as usize <= self.current_offset
            invariant
                *self == (BlockIter { restart_index: self.restart_index, ..read }),
                self.block.get().wf(),
                num_restarts == data::restart_count(self.image()),
                self.restart_index < num_restarts,
            decreases num_restarts - self.restart_index,
        {
            self.restart_index = self.restart_index + 1;
        }
        proof {
            assert(self.scan() == read.scan());
            if whole && self.valid {
                assert(read.stands_on(from + 1));
                assert(self.stands_on(from + 1));
            }
        }
    }

    fn prev(&mut self)
        ensures
            final(self).image() == old(self).image(),
            final(self).order() == old(self).order(),
            final(self).lands(
                old(self),
                data::ahead_of(old(self).image(), old(self).restart(), old(self).place()),
            ),
    {
        let ghost image = self.image();
        let ghost items = data::items_of(image);
        let ghost whole = data::sound(image, self.comparator);
        let ghost from = choose|i: int| self.stands_on(i);
        let original_offset: usize = self.current_offset;
        let restart_offset = self.block.block().restart_offset();
        proof {
            if whole {
                self.lemma_runs_over();
                self.lemma_current(from);
                data::lemma_chain_bounds(data::region(image), items, from);
            }
        }
        while self.block.block().read_restart(self.restart_index) as usize >= original_offset
            invariant
                self.block == old(self).block,
                self.comparator == old(self).comparator,
                self.failure == old(self).failure,
                self.image() == image,
                items == data::items_of(image),
                whole == data::sound(image, self.comparator),
                restart_offset == data::region_len(image),
                self.steady(),
                self.restart_index < data::restart_count(image),
                data::restart_ahead_of(image, self.restart_index as int, original_offset as int)
                    == data::restart_ahead_of(image, old(self).restart(), old(self).place()),
                whole ==> 0 <= from < items.len() && items[from].start == original_offset
                    && old(self).scan().key() == data::pairs(items)[from].0,
            decreases self.restart_index,
        {
            if self.restart_index == 0 {
                self.valid = false;
                self.current_offset = restart_offset;
                self.next_entry_offset = restart_offset;
                proof {
                    if whole {
                        self.lemma_runs_over();
                        if from > 0 {
                            data::lemma_chain_order(data::region(image), items, 0, from);
                        }
                        db_iterator::lemma_ahead_of(
                            self.scan(),
                            self.comparator,
                            data::pairs(items),
                            from,
                        );
                    }
                }
                return;
            }
            self.restart_index = self.restart_index - 1;
        }
        let index = self.restart_index;
        self.seek_to_restart_point(index);
        let ghost start = *self;
        let mut more = self.parse_next_entry();
        let ghost mut at: int = 0;
        proof {
            if whole {
                at = self.lemma_read_restart(&start, index as int);
                self.lemma_runs_over();
                if from < at {
                    data::lemma_chain_order(data::region(image), items, from, at);
                }
            }
        }
        let ghost found = data::ahead_of(image, old(self).restart(), old(self).place());
        while more && self.next_entry_offset < original_offset
            invariant
                self.block == old(self).block,
                self.comparator == old(self).comparator,
                self.image() == image,
                more ==> self.under_way(old(self), found, original_offset as int),
                !more ==> self.lands(old(self), found),
                items == data::items_of(image),
                whole == data::sound(image, self.comparator),
                self.steady(),
                more == self.valid,
                restart_offset == data::region_len(image),
                self.next_entry_offset <= restart_offset,
                self.restart_index < data::restart_count(image),
                whole ==> self.stands_on(at) && at < from && from < items.len()
                    && items[from].start == original_offset,
            decreases
                restart_offset - self.next_entry_offset + if more {
                    1int
                } else {
                    0int
                },
        {
            let ghost earlier = *self;
            more = self.parse_next_entry();
            proof {
                if whole {
                    self.lemma_read_next(&earlier, at);
                    self.lemma_runs_over();
                    if at + 1 == from {
                        assert(items[at].end == items[from].start);
                    }
                    at = at + 1;
                }
            }
        }
        proof {
            if whole {
                self.lemma_runs_over();
                self.lemma_current(at);
                if at + 1 < from {
                    data::lemma_chain_order(data::region(image), items, at + 1, from);
                    assert(items[at].end == items[at + 1].start);
                }
                db_iterator::lemma_ahead_of(
                    self.scan(),
                    self.comparator,
                    data::pairs(items),
                    from,
                );
            }
        }
    }

    fn key(&self) -> (key: &[u8]) {
        self.key.as_slice()
    }

    fn value(&self) -> (value: &[u8]) {
        let bytes = self.block.block().bytes();
        &bytes[self.value_offset..self.value_offset + self.value_len]
    }

    fn status(&self) -> (outcome: status::Result<()>) {
        match &self.failure {
            None => Ok(()),
            Some(error) => Err(error.clone()),
        }
    }
}

} // verus!
