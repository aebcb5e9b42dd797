//! What a table builder writes, step by step.

use vstd::prelude::*;

use std::sync::Arc;

use crate::block::block_builder;
use crate::block::BlockHandle;
use crate::comparator::Comparator;
use crate::db_iter::db_iterator;
use crate::filter::FilterPolicy;
use crate::filter::InternalFilterPolicy;
use crate::filter_block;
use crate::table::stored_block;
use crate::table::stored_block::Compressor;
use crate::table::table_footer::TableFooter;

verus! {

/// How a table is built.
pub struct Recipe<C: Comparator, P: FilterPolicy, Z: Compressor> {
    pub comparator: C,
    /// The size from which a data block is closed.
    pub block_size: usize,
    /// How many entries of a data block lie between two restart points.
    pub interval: usize,
    pub policy: Option<Arc<P>>,
    pub compressor: Option<Arc<Z>>,
}

/// A table that is being written.
#[verifier::ext_equal]
pub struct Draft {
    /// The bytes so far.
    pub written: Seq<u8>,
    /// The entries of the data blocks so far.
    pub blocks: Seq<Seq<db_iterator::Pair>>,
    /// Where the data blocks lie.
    pub handles: Seq<BlockHandle>,
    /// The entries of the data block that is still open.
    pub open: Seq<db_iterator::Pair>,
    /// The entries of the index. The last data block has none until it is known
    /// what follows it.
    pub index: Seq<db_iterator::Pair>,
    /// The groups of keys whose filters are made.
    pub groups: Seq<Seq<Seq<u8>>>,
    /// The keys that wait for their filter.
    pub waiting: Seq<Seq<u8>>,
}

/// The policy by which the filters of a table are made.
pub open spec fn table_policy<P: FilterPolicy>(policy: Arc<P>) -> InternalFilterPolicy<Arc<P>> {
    InternalFilterPolicy { user: policy }
}

/// The entries of some blocks, one behind the other.
pub open spec fn joined(blocks: Seq<Seq<db_iterator::Pair>>) -> Seq<db_iterator::Pair>
    decreases blocks.len(),
{
    if blocks.len() == 0 {
        Seq::empty()
    } else {
        joined(blocks.drop_last()) + blocks.last()
    }
}

/// No key of the block is beyond the bound.
pub open spec fn keys_under<C: Comparator>(
    comparator: C,
    bound: Seq<u8>,
    block: Seq<db_iterator::Pair>,
) -> bool {
    forall|k: int| 0 <= k < block.len() ==> !comparator.less(bound, #[trigger] block[k].0)
}

/// All keys of the block are beyond the bound.
pub open spec fn keys_over<C: Comparator>(
    comparator: C,
    bound: Seq<u8>,
    block: Seq<db_iterator::Pair>,
) -> bool {
    forall|k: int| 0 <= k < block.len() ==> comparator.less(bound, #[trigger] block[k].0)
}

/// The index keys part the blocks: each is at or beyond all keys of its own
/// block and before all keys of the blocks behind it.
pub open spec fn parted<C: Comparator>(
    comparator: C,
    index: Seq<db_iterator::Pair>,
    blocks: Seq<Seq<db_iterator::Pair>>,
) -> bool {
    &&& index.len() <= blocks.len()
    &&& forall|i: int| 0 <= i < index.len() ==> comparator.admits(#[trigger] index[i].0)
    &&& forall|i: int|
        0 <= i < blocks.len() ==> #[trigger] blocks[i].len() > 0 && db_iterator::sorted(
            comparator,
            blocks[i],
        )
    &&& forall|i: int|
        0 <= i < index.len() ==> keys_under(comparator, #[trigger] index[i].0, blocks[i])
    &&& forall|i: int, j: int|
        0 <= i < index.len() && i < j < blocks.len() ==> keys_over(
            comparator,
            #[trigger] index[i].0,
            #[trigger] blocks[j],
        )
}

/// A block lies in the file where its handle says.
pub open spec fn placed<Z: Compressor>(
    file: Seq<u8>,
    compressor: Option<Arc<Z>>,
    block: Seq<u8>,
    handle: BlockHandle,
) -> bool {
    &&& handle.offset + handle.size + 5 <= file.len()
    &&& handle.size + 5 <= usize::MAX
    &&& handle.size == stored_block::body_of(compressor, block).1.len()
    &&& file.subrange(handle.offset as int, handle.offset + handle.size + 5)
        == stored_block::stored(compressor, block)
    &&& stored_block::restores(compressor, block)
}

/// The key of the filter block in the metaindex.
pub open spec fn filter_key(title: Seq<char>) -> Seq<u8> {
    vstd::utf8::encode_utf8("filter."@ + title)
}

/// A finished table.
pub struct Finished {
    /// The bytes of the table up to the end of the filter block.
    pub with_filter: Seq<u8>,
    /// The bytes up to the end of the metaindex block.
    pub with_metaindex: Seq<u8>,
    /// The bytes up to the end of the index block.
    pub with_index: Seq<u8>,
    /// All bytes.
    pub image: Seq<u8>,
    pub filter: Seq<u8>,
    pub metaindex: Seq<db_iterator::Pair>,
    pub index: Seq<db_iterator::Pair>,
    pub filter_handle: BlockHandle,
    pub footer: TableFooter,
}

impl Draft {
    /// Nothing is written yet.
    pub open spec fn blank() -> Draft {
        Draft {
            written: Seq::empty(),
            blocks: Seq::empty(),
            handles: Seq::empty(),
            open: Seq::empty(),
            index: Seq::empty(),
            groups: Seq::empty(),
            waiting: Seq::empty(),
        }
    }

    /// All entries so far.
    pub open spec fn entries(self) -> Seq<db_iterator::Pair> {
        joined(self.blocks) + self.open
    }

    /// Whether the last data block has no index entry yet.
    pub open spec fn pending(self) -> bool {
        self.index.len() < self.blocks.len()
    }

    /// Whether more entries can follow: a data block that is closed gets its index
    /// entry from the next key.
    pub open spec fn ready(self) -> bool {
        self.open.len() == 0 && self.blocks.len() > 0 ==> self.pending()
    }

    /// The last key so far.
    pub open spec fn last_key(self) -> Seq<u8> {
        if self.open.len() > 0 {
            self.open.last().0
        } else if self.blocks.len() > 0 {
            self.blocks.last().last().0
        } else {
            Seq::empty()
        }
    }

    /// The draft with an index entry for the last data block.
    pub open spec fn with_index_key(self, key: Seq<u8>) -> Draft {
        Draft { index: self.index.push((key, self.handles.last().encoded())), ..self }
    }
}

impl<C: Comparator, P: FilterPolicy, Z: Compressor> Recipe<C, P, Z> {
    /// A block's handle if it is stored behind `before`.
    pub open spec fn handle_behind(self, before: Seq<u8>, block: Seq<u8>) -> BlockHandle {
        BlockHandle {
            offset: before.len() as u64,
            size: stored_block::body_of(self.compressor, block).1.len() as u64,
        }
    }

    /// The bytes of a data block.
    pub open spec fn block_image(self, entries: Seq<db_iterator::Pair>) -> Seq<u8> {
        block_builder::block_image(entries, self.interval as int)
    }

    /// The draft with one more entry in the open block.
    pub open spec fn with_entry(self, draft: Draft, key: Seq<u8>, value: Seq<u8>) -> Draft {
        let indexed = if draft.pending() {
            draft.with_index_key(self.comparator.separator(draft.last_key(), key))
        } else {
            draft
        };
        Draft {
            open: draft.open.push((key, value)),
            waiting: if self.policy is Some {
                draft.waiting.push(key)
            } else {
                draft.waiting
            },
            ..indexed
        }
    }

    /// The draft with the open block closed and stored.
    pub open spec fn flushed(self, draft: Draft) -> Draft {
        if draft.open.len() == 0 {
            draft
        } else {
            let image = self.block_image(draft.open);
            let written = draft.written + stored_block::stored(self.compressor, image);
            let index = written.len() as int / 2048;
            Draft {
                written,
                blocks: draft.blocks.push(draft.open),
                handles: draft.handles.push(self.handle_behind(draft.written, image)),
                open: Seq::empty(),
                index: draft.index,
                groups: if self.policy is Some {
                    filter_block::groups_up_to(draft.groups, draft.waiting, index)
                } else {
                    draft.groups
                },
                waiting: if self.policy is Some && index > draft.groups.len() {
                    Seq::empty()
                } else {
                    draft.waiting
                },
            }
        }
    }

    /// The draft with one more entry: a block that has grown to the block size
    /// is closed.
    pub open spec fn added(self, draft: Draft, key: Seq<u8>, value: Seq<u8>) -> Draft {
        let more = self.with_entry(draft, key, value);
        if self.block_image(more.open).len() >= self.block_size {
            self.flushed(more)
        } else {
            more
        }
    }

    /// What a table ends with: the filter block where there is a policy, the
    /// metaindex block, the index block and the footer.
    pub open spec fn finished(self, draft: Draft) -> Finished {
        let last = self.flushed(draft);
        let filter = match self.policy {
            None => Seq::<u8>::empty(),
            Some(policy) => filter_block::filter_image(
                table_policy(policy),
                filter_block::final_groups(last.groups, last.waiting),
            ),
        };
        let filter_handle = self.handle_behind(last.written, filter);
        let with_filter = if self.policy is Some {
            last.written + stored_block::stored(self.compressor, filter)
        } else {
            last.written
        };
        let metaindex = match self.policy {
            None => Seq::<db_iterator::Pair>::empty(),
            Some(policy) => Seq::<db_iterator::Pair>::empty().push(
                (filter_key(policy.title()), filter_handle.encoded()),
            ),
        };
        let metaindex_image = block_builder::block_image(metaindex, 1);
        let with_metaindex = with_filter + stored_block::stored(self.compressor, metaindex_image);
        let index = if last.pending() {
            last.with_index_key(self.comparator.successor(last.last_key())).index
        } else {
            last.index
        };
        let index_image = block_builder::block_image(index, 1);
        let with_index = with_metaindex + stored_block::stored(self.compressor, index_image);
        let footer = TableFooter {
            metaindex: self.handle_behind(with_filter, metaindex_image),
            index: self.handle_behind(with_metaindex, index_image),
        };
        Finished {
            with_filter,
            with_metaindex,
            with_index,
            image: with_index + footer.encoded(),
            filter,
            metaindex,
            index,
            filter_handle,
            footer,
        }
    }

    /// Each key of a data block is in the group of the block, or waits for it.
    pub open spec fn grouped(self, draft: Draft) -> bool {
        self.policy is Some ==> {
            &&& draft.groups.len() == draft.written.len() as int / 2048
            &&& forall|i: int, k: int|
                0 <= i < draft.blocks.len() && 0 <= k < draft.blocks[i].len() ==> key_is_grouped(
                    draft.groups,
                    draft.waiting,
                    draft.handles[i].offset as int / 2048,
                    (#[trigger] draft.blocks[i][k]).0,
                )
            &&& forall|k: int|
                0 <= k < draft.open.len() ==> draft.waiting.contains(
                    (#[trigger] draft.open[k]).0,
                )
        }
    }

    /// What holds of a draft at any time.
    pub open spec fn sound(self, draft: Draft) -> bool {
        &&& self.interval >= 1
        &&& draft.written.len() <= u64::MAX
        &&& draft.blocks.len() == draft.handles.len()
        &&& draft.blocks.len() <= draft.index.len() + 1
        &&& draft.open.len() > 0 ==> draft.index.len() == draft.blocks.len()
        &&& db_iterator::sorted(self.comparator, draft.open)
        &&& parted(self.comparator, draft.index, draft.blocks)
        &&& forall|i: int|
            0 <= i < draft.index.len() ==> keys_over(
                self.comparator,
                #[trigger] draft.index[i].0,
                draft.open,
            )
        &&& forall|i: int|
            0 <= i < draft.index.len() ==> (#[trigger] draft.index[i]).1
                == draft.handles[i].encoded()
        &&& forall|i: int|
            0 <= i < draft.blocks.len() ==> placed(
                draft.written,
                self.compressor,
                self.block_image(#[trigger] draft.blocks[i]),
                draft.handles[i],
            )
        &&& forall|i: int, j: int|
            0 <= i < j < draft.handles.len() ==> (#[trigger] draft.handles[i]).offset < (
            #[trigger] draft.handles[j]).offset
        &&& self.grouped(draft)
        &&& self.separated(draft)
    }

    /// The index keys are those that the comparator finds between two blocks.
    pub open spec fn separated(self, draft: Draft) -> bool {
        &&& forall|i: int, j: int|
            0 <= i < draft.index.len() && j == i + 1 && j < draft.blocks.len() ==> (
            #[trigger] draft.index[i]).0 == self.comparator.separator(
                draft.blocks[i].last().0,
                (#[trigger] draft.blocks[j])[0].0,
            )
        &&& draft.index.len() == draft.blocks.len() && draft.blocks.len() > 0 && draft.open.len()
            > 0 ==> draft.index.last().0 == self.comparator.separator(
            draft.blocks.last().last().0,
            draft.open[0].0,
        )
    }
}

/// A key is in its group, or waits for the group that comes next.
pub open spec fn key_is_grouped(
    groups: Seq<Seq<Seq<u8>>>,
    waiting: Seq<Seq<u8>>,
    index: int,
    key: Seq<u8>,
) -> bool {
    ||| 0 <= index < groups.len() && groups[index].contains(key)
    ||| index == groups.len() && waiting.contains(key)
}

// ---------------------------------------------------------------------------
// Each step keeps a draft sound
// ---------------------------------------------------------------------------

/// A block that was stored behind other bytes lies there, whatever follows.
pub proof fn lemma_placed_behind<C: Comparator, P: FilterPolicy, Z: Compressor>(
    recipe: Recipe<C, P, Z>,
    before: Seq<u8>,
    block: Seq<u8>,
    rest: Seq<u8>,
)
    requires
        stored_block::restores(recipe.compressor, block),
        stored_block::body_of(recipe.compressor, block).1.len() + 5 <= usize::MAX,
        (before + stored_block::stored(recipe.compressor, block)).len() <= u64::MAX,
    ensures
        placed(
            before + stored_block::stored(recipe.compressor, block) + rest,
            recipe.compressor,
            block,
            recipe.handle_behind(before, block),
        ),
        stored_block::stored(recipe.compressor, block).len() == stored_block::body_of(
            recipe.compressor,
            block,
        ).1.len() + 5,
{
    let (kind, body) = stored_block::body_of(recipe.compressor, block);
    let trailer = crate::block::BlockTrailer { kind, crc: stored_block::body_crc(kind, body) };
    crate::block::block_trailer::law_trailer_round_trip(trailer, Seq::empty());
    let stored = stored_block::stored(recipe.compressor, block);
    let file = before + stored + rest;
    let handle = recipe.handle_behind(before, block);
    assert(stored.len() == body.len() + 5);
    assert(file.subrange(handle.offset as int, handle.offset + handle.size + 5) =~= stored);
}

/// A block lies where it was when bytes are appended.
pub proof fn lemma_placed_stays<Z: Compressor>(
    file: Seq<u8>,
    rest: Seq<u8>,
    compressor: Option<Arc<Z>>,
    block: Seq<u8>,
    handle: BlockHandle,
)
    requires
        placed(file, compressor, block, handle),
    ensures
        placed(file + rest, compressor, block, handle),
{
    let at = handle.offset as int;
    let end = at + handle.size + 5;
    assert((file + rest).subrange(at, end) =~= file.subrange(at, end));
}

/// An index entry for the last data block parts it from what follows.
pub proof fn lemma_indexed<C: Comparator, P: FilterPolicy, Z: Compressor>(
    recipe: Recipe<C, P, Z>,
    draft: Draft,
    key: Seq<u8>,
)
    requires
        recipe.sound(draft),
        draft.pending(),
        recipe.comparator.admits(key),
        !recipe.comparator.less(key, draft.last_key()),
    ensures
        recipe.sound(draft.with_index_key(key)),
{
    let comparator = recipe.comparator;
    let after = draft.with_index_key(key);
    let last = draft.blocks.len() - 1;
    let block = draft.blocks[last];
    assert(block.len() > 0);
    assert forall|k: int| 0 <= k < block.len() implies !comparator.less(
        key,
        #[trigger] block[k].0,
    ) by {
        let end = block.last().0;
        if comparator.less(key, block[k].0) && k < block.len() - 1 {
            assert(comparator.less(block[k].0, block[block.len() - 1].0));
            comparator.less_transitive(key, block[k].0, end);
        }
    }
    assert forall|i: int| 0 <= i < after.index.len() implies keys_under(
        comparator,
        #[trigger] after.index[i].0,
        after.blocks[i],
    ) by {
        if i < draft.index.len() {
            assert(draft.index[i] == after.index[i]);
        }
    }
    assert forall|i: int, j: int|
        0 <= i < after.index.len() && i < j < after.blocks.len() implies keys_over(
        comparator,
        #[trigger] after.index[i].0,
        #[trigger] after.blocks[j],
    ) by {
        assert(draft.index[i] == after.index[i]);
        assert(draft.blocks[j] == after.blocks[j]);
    }
    assert forall|i: int| 0 <= i < after.index.len() implies comparator.admits(
        #[trigger] after.index[i].0,
    ) by {
        if i < draft.index.len() {
            assert(draft.index[i] == after.index[i]);
        }
    }
    assert forall|i: int| 0 <= i < after.index.len() implies (#[trigger] after.index[i]).1
        == after.handles[i].encoded() by {
        if i < draft.index.len() {
            assert(draft.index[i] == after.index[i]);
        }
    }
    assert(parted(comparator, after.index, after.blocks));
    assert(recipe.grouped(after));
    assert(recipe.separated(after)) by {
        assert forall|i: int, j: int|
            0 <= i < after.index.len() && j == i + 1 && j < after.blocks.len() implies (
        #[trigger] after.index[i]).0 == comparator.separator(
            after.blocks[i].last().0,
            (#[trigger] after.blocks[j])[0].0,
        ) by {
            assert(draft.index[i] == after.index[i]);
            assert(draft.blocks[j] == after.blocks[j]);
        }
    }
    assert forall|i: int| 0 <= i < after.blocks.len() implies placed(
        after.written,
        recipe.compressor,
        recipe.block_image(#[trigger] after.blocks[i]),
        after.handles[i],
    ) by {
        assert(draft.blocks[i] == after.blocks[i]);
    }
}

/// One more entry in the open block, behind all others.
pub proof fn lemma_opened<C: Comparator, P: FilterPolicy, Z: Compressor>(
    recipe: Recipe<C, P, Z>,
    draft: Draft,
    key: Seq<u8>,
    value: Seq<u8>,
)
    requires
        recipe.sound(draft),
        draft.ready(),
        recipe.comparator.admits(key),
        draft.open.len() + draft.blocks.len() > 0 ==> recipe.comparator.less(
            draft.last_key(),
            key,
        ),
    ensures
        recipe.sound(recipe.with_entry(draft, key, value)),
        recipe.with_entry(draft, key, value).entries() == draft.entries().push((key, value)),
        draft.pending() ==> {
            let separator = recipe.comparator.separator(draft.last_key(), key);
            &&& recipe.comparator.admits(draft.last_key())
            &&& recipe.comparator.admits(separator)
            &&& draft.index.len() > 0 ==> recipe.comparator.admits(draft.index.last().0)
                && recipe.comparator.less(draft.index.last().0, separator)
        },
{
    let comparator = recipe.comparator;
    let after = recipe.with_entry(draft, key, value);
    let separator = comparator.separator(draft.last_key(), key);
    assert(after.entries() =~= draft.entries().push((key, value)));
    if draft.pending() {
        let last = draft.blocks.len() - 1;
        let block = draft.blocks[last];
        assert(block.len() > 0);
        assert(comparator.admits(block[block.len() - 1].0));
        comparator.separator_separates(draft.last_key(), key);
        lemma_indexed(recipe, draft, separator);
        if draft.index.len() > 0 {
            let before = draft.index.len() - 1;
            assert(keys_over(comparator, draft.index[before].0, draft.blocks[last]));
            assert(comparator.less(draft.index[before].0, block[block.len() - 1].0));
            comparator.less_splits(draft.index[before].0, separator, draft.last_key());
        }
    }
    let middle = if draft.pending() {
        draft.with_index_key(separator)
    } else {
        draft
    };
    assert(recipe.sound(middle));
    lemma_all_before(recipe, middle, key);
    assert(db_iterator::sorted(comparator, after.open)) by {
        assert forall|i: int, j: int| 0 <= i < j < after.open.len() implies comparator.less(
            #[trigger] after.open[i].0,
            #[trigger] after.open[j].0,
        ) by {
            assert(after.open[i] == draft.open[i]);
            if j < draft.open.len() {
                assert(after.open[j] == draft.open[j]);
            } else if i < draft.open.len() - 1 {
                let end = draft.open.len() - 1;
                assert(comparator.less(draft.open[i].0, draft.open[end].0));
                comparator.less_transitive(draft.open[i].0, draft.open[end].0, key);
            }
        }
        assert forall|i: int| 0 <= i < after.open.len() implies comparator.admits(
            #[trigger] after.open[i].0,
        ) by {
            if i < draft.open.len() {
                assert(after.open[i] == draft.open[i]);
            }
        }
    }
    assert forall|i: int| 0 <= i < after.index.len() implies keys_over(
        comparator,
        #[trigger] after.index[i].0,
        after.open,
    ) by {
        assert(middle.index[i] == after.index[i]);
        assert(keys_over(comparator, middle.index[i].0, middle.open));
        assert forall|k: int| 0 <= k < after.open.len() implies comparator.less(
            after.index[i].0,
            #[trigger] after.open[k].0,
        ) by {
            if k < draft.open.len() {
                assert(after.open[k] == middle.open[k]);
            }
        }
    }
    assert(recipe.grouped(after)) by {
        if recipe.policy is Some {
            assert forall|i: int, k: int|
                0 <= i < after.blocks.len() && 0 <= k
                    < after.blocks[i].len() implies key_is_grouped(
                after.groups,
                after.waiting,
                after.handles[i].offset as int / 2048,
                (#[trigger] after.blocks[i][k]).0,
            ) by {
                let one = (draft.blocks[i][k]).0;
                assert(key_is_grouped(
                    draft.groups,
                    draft.waiting,
                    draft.handles[i].offset as int / 2048,
                    one,
                ));
                if draft.waiting.contains(one) {
                    let w = choose|w: int|
                        0 <= w < draft.waiting.len() && draft.waiting[w] == one;
                    assert(after.waiting[w] == one);
                }
            }
            assert forall|k: int| 0 <= k < after.open.len() implies after.waiting.contains(
                (#[trigger] after.open[k]).0,
            ) by {
                if k < draft.open.len() {
                    let one = draft.open[k].0;
                    assert(draft.waiting.contains(one));
                    let w = choose|w: int|
                        0 <= w < draft.waiting.len() && draft.waiting[w] == one;
                    assert(after.waiting[w] == one);
                } else {
                    assert(after.waiting[draft.waiting.len() as int] == key);
                }
            }
        }
    }
    assert(parted(comparator, after.index, after.blocks));
    assert(recipe.separated(after)) by {
        assert(recipe.separated(middle));
        if draft.open.len() > 0 {
            assert(after.open[0] == draft.open[0]);
        }
        assert forall|i: int, j: int|
            0 <= i < after.index.len() && j == i + 1 && j < after.blocks.len() implies (
        #[trigger] after.index[i]).0 == comparator.separator(
            after.blocks[i].last().0,
            (#[trigger] after.blocks[j])[0].0,
        ) by {
            assert(middle.index[i] == after.index[i]);
            assert(middle.blocks[j] == after.blocks[j]);
        }
    }
}

/// A key behind the last one is beyond all index keys.
proof fn lemma_all_before<C: Comparator, P: FilterPolicy, Z: Compressor>(
    recipe: Recipe<C, P, Z>,
    draft: Draft,
    key: Seq<u8>,
)
    requires
        recipe.sound(draft),
        !draft.pending(),
        recipe.comparator.admits(key),
        draft.open.len() > 0 ==> recipe.comparator.less(draft.open.last().0, key),
        draft.open.len() == 0 && draft.index.len() > 0 ==> recipe.comparator.less(
            draft.index.last().0,
            key,
        ),
    ensures
        forall|i: int|
            0 <= i < draft.index.len() ==> recipe.comparator.less(#[trigger] draft.index[i].0, key),
{
    let comparator = recipe.comparator;
    assert forall|i: int| 0 <= i < draft.index.len() implies comparator.less(
        #[trigger] draft.index[i].0,
        key,
    ) by {
        if draft.open.len() > 0 {
            let end = draft.open.len() - 1;
            assert(keys_over(comparator, draft.index[i].0, draft.open));
            assert(comparator.less(draft.index[i].0, draft.open[end].0));
            comparator.less_transitive(draft.index[i].0, draft.open[end].0, key);
        } else if i < draft.index.len() - 1 {
            let last = draft.index.len() - 1;
            lemma_index_sorted(comparator, draft.index, draft.blocks);
            comparator.less_transitive(draft.index[i].0, draft.index[last].0, key);
        }
    }
}

/// Index keys that part blocks rise.
pub proof fn lemma_index_sorted<C: Comparator>(
    comparator: C,
    index: Seq<db_iterator::Pair>,
    blocks: Seq<Seq<db_iterator::Pair>>,
)
    requires
        parted(comparator, index, blocks),
    ensures
        db_iterator::sorted(comparator, index),
{
    assert forall|i: int, j: int| 0 <= i < j < index.len() implies comparator.less(
        #[trigger] index[i].0,
        #[trigger] index[j].0,
    ) by {
        assert(blocks[j].len() > 0);
        let inner = blocks[j][0].0;
        assert(keys_over(comparator, index[i].0, blocks[j]));
        assert(keys_under(comparator, index[j].0, blocks[j]));
        assert(comparator.less(index[i].0, inner));
        comparator.less_splits(index[i].0, index[j].0, inner);
    }
}

/// Closing the open block.
pub proof fn lemma_flushed<C: Comparator, P: FilterPolicy, Z: Compressor>(
    recipe: Recipe<C, P, Z>,
    draft: Draft,
)
    requires
        recipe.sound(draft),
        draft.open.len() > 0,
        stored_block::restores(recipe.compressor, recipe.block_image(draft.open)),
        stored_block::body_of(recipe.compressor, recipe.block_image(draft.open)).1.len() + 5
            <= usize::MAX,
        recipe.flushed(draft).written.len() <= u64::MAX,
    ensures
        recipe.sound(recipe.flushed(draft)),
        recipe.flushed(draft).entries() == draft.entries(),
        recipe.flushed(draft).last_key() == draft.last_key(),
        recipe.flushed(draft).pending(),
{
    let comparator = recipe.comparator;
    let after = recipe.flushed(draft);
    let image = recipe.block_image(draft.open);
    let stored = stored_block::stored(recipe.compressor, image);
    let last = draft.blocks.len() as int;
    lemma_placed_behind(recipe, draft.written, image, Seq::empty());
    assert(draft.written + stored + Seq::<u8>::empty() =~= after.written);
    assert(after.blocks.drop_last() =~= draft.blocks);
    assert(after.entries() =~= draft.entries());
    assert forall|i: int| 0 <= i < after.blocks.len() implies placed(
        after.written,
        recipe.compressor,
        recipe.block_image(#[trigger] after.blocks[i]),
        after.handles[i],
    ) by {
        if i < last {
            assert(draft.blocks[i] == after.blocks[i]);
            lemma_placed_stays(
                draft.written,
                stored,
                recipe.compressor,
                recipe.block_image(draft.blocks[i]),
                draft.handles[i],
            );
        }
    }
    assert forall|i: int, j: int| 0 <= i < j < after.handles.len() implies (
    #[trigger] after.handles[i]).offset < (#[trigger] after.handles[j]).offset by {
        assert(after.handles[i] == draft.handles[i]);
        if j < last {
            assert(after.handles[j] == draft.handles[j]);
        } else {
            assert(placed(
                draft.written,
                recipe.compressor,
                recipe.block_image(draft.blocks[i]),
                draft.handles[i],
            ));
        }
    }
    assert(parted(comparator, after.index, after.blocks)) by {
        assert forall|i: int| 0 <= i < after.blocks.len() implies #[trigger] after.blocks[i].len()
            > 0 && db_iterator::sorted(comparator, after.blocks[i]) by {
            if i < last {
                assert(draft.blocks[i] == after.blocks[i]);
            }
        }
        assert forall|i: int| 0 <= i < after.index.len() implies keys_under(
            comparator,
            #[trigger] after.index[i].0,
            after.blocks[i],
        ) by {
            assert(draft.blocks[i] == after.blocks[i]);
        }
        assert forall|i: int, j: int|
            0 <= i < after.index.len() && i < j < after.blocks.len() implies keys_over(
            comparator,
            #[trigger] after.index[i].0,
            #[trigger] after.blocks[j],
        ) by {
            if j < last {
                assert(draft.blocks[j] == after.blocks[j]);
            } else {
                assert(keys_over(comparator, draft.index[i].0, draft.open));
            }
        }
    }
    assert(recipe.separated(after)) by {
        assert forall|i: int, j: int|
            0 <= i < after.index.len() && j == i + 1 && j < after.blocks.len() implies (
        #[trigger] after.index[i]).0 == comparator.separator(
            after.blocks[i].last().0,
            (#[trigger] after.blocks[j])[0].0,
        ) by {
            assert(draft.index[i] == after.index[i]);
            assert(draft.blocks[i] == after.blocks[i]);
            if j < last {
                assert(draft.blocks[j] == after.blocks[j]);
            }
        }
    }
    lemma_flushed_groups(recipe, draft);
}

/// Closing the open block keeps its keys in the right group.
proof fn lemma_flushed_groups<C: Comparator, P: FilterPolicy, Z: Compressor>(
    recipe: Recipe<C, P, Z>,
    draft: Draft,
)
    requires
        recipe.sound(draft),
        draft.open.len() > 0,
        recipe.flushed(draft).written.len() <= u64::MAX,
    ensures
        recipe.grouped(recipe.flushed(draft)),
{
    let after = recipe.flushed(draft);
    if recipe.policy is Some {
        let count = draft.groups.len();
        assert(after.written.len() >= draft.written.len());
        assert(after.groups.len() == after.written.len() as int / 2048);
        assert forall|i: int, k: int|
            0 <= i < after.blocks.len() && 0 <= k < after.blocks[i].len() implies key_is_grouped(
            after.groups,
            after.waiting,
            after.handles[i].offset as int / 2048,
            (#[trigger] after.blocks[i][k]).0,
        ) by {
            let key = (after.blocks[i][k]).0;
            let place = after.handles[i].offset as int / 2048;
            if i < draft.blocks.len() {
                assert(after.blocks[i] == draft.blocks[i]);
                assert(draft.blocks[i][k] == after.blocks[i][k]);
                assert(key_is_grouped(
                    draft.groups,
                    draft.waiting,
                    draft.handles[i].offset as int / 2048,
                    key,
                ));
            } else {
                assert(draft.waiting.contains(draft.open[k].0));
                assert(place == count);
            }
            assert(key_is_grouped(draft.groups, draft.waiting, place, key));
            if after.groups.len() > count {
                assert(after.groups[count as int] == draft.waiting);
                if place < count {
                    assert(after.groups[place] == draft.groups[place]);
                }
            }
        }
    }
}

/// Blocks that part have at least one entry each.
pub proof fn lemma_joined_len(blocks: Seq<Seq<db_iterator::Pair>>)
    requires
        forall|i: int| 0 <= i < blocks.len() ==> #[trigger] blocks[i].len() > 0,
    ensures
        joined(blocks).len() >= blocks.len(),
    decreases blocks.len(),
{
    if blocks.len() > 0 {
        let front = blocks.drop_last();
        assert forall|i: int| 0 <= i < front.len() implies #[trigger] front[i].len() > 0 by {
            assert(front[i] == blocks[i]);
        }
        lemma_joined_len(front);
        assert(blocks[blocks.len() - 1].len() > 0);
    }
}

/// The successor of the last key parts the last block from all that might follow.
pub proof fn lemma_successor<C: Comparator, P: FilterPolicy, Z: Compressor>(
    recipe: Recipe<C, P, Z>,
    draft: Draft,
)
    requires
        recipe.sound(draft),
        draft.pending(),
    ensures
        recipe.comparator.admits(draft.last_key()),
        recipe.sound(
            draft.with_index_key(recipe.comparator.successor(draft.last_key())),
        ),
        draft.index.len() > 0 ==> {
            let successor = recipe.comparator.successor(draft.last_key());
            &&& recipe.comparator.admits(draft.index.last().0)
            &&& recipe.comparator.admits(successor)
            &&& recipe.comparator.less(draft.index.last().0, successor)
        },
{
    let comparator = recipe.comparator;
    let block = draft.blocks[draft.blocks.len() - 1];
    assert(block.len() > 0);
    assert(comparator.admits(block[block.len() - 1].0));
    comparator.successor_follows(draft.last_key());
    let after = draft.with_index_key(comparator.successor(draft.last_key()));
    lemma_indexed(recipe, draft, comparator.successor(draft.last_key()));
    lemma_index_sorted(comparator, after.index, after.blocks);
    if draft.index.len() > 0 {
        let at = draft.index.len() - 1;
        assert(after.index[at] == draft.index[at]);
        assert(comparator.less(after.index[at].0, after.index[at + 1].0));
    }
}

/// The blocks that a finished table ends with can be restored, and its filters
/// deny none of its keys.
pub open spec fn finished_well<C: Comparator, P: FilterPolicy, Z: Compressor>(
    recipe: Recipe<C, P, Z>,
    draft: Draft,
) -> bool {
    let last = recipe.flushed(draft);
    let done = recipe.finished(draft);
    &&& recipe.sound(last)
    &&& done.image.len() <= u64::MAX
    &&& can_be_stored(recipe.compressor, block_builder::block_image(done.metaindex, 1))
    &&& can_be_stored(recipe.compressor, block_builder::block_image(done.index, 1))
    &&& recipe.policy matches Some(policy) ==> can_be_stored(recipe.compressor, done.filter)
        && filter_block::all_honest(
        table_policy(policy),
        filter_block::final_groups(last.groups, last.waiting),
    )
}

/// A block can be stored and restored.
pub open spec fn can_be_stored<Z: Compressor>(compressor: Option<Arc<Z>>, block: Seq<u8>) -> bool {
    &&& stored_block::restores(compressor, block)
    &&& stored_block::body_of(compressor, block).1.len() + 5 <= usize::MAX
}

/// The entries of some blocks are those of each, one block after the other.
pub proof fn law_entries_in_order(blocks: Seq<Seq<db_iterator::Pair>>)
    ensures
        joined(blocks) == blocks.flatten(),
    decreases blocks.len(),
{
    if blocks.len() > 0 {
        let front = blocks.drop_last();
        law_entries_in_order(front);
        front.lemma_flatten_push(blocks.last());
        assert(front.push(blocks.last()) =~= blocks);
    } else {
        assert(joined(blocks) =~= blocks.flatten());
    }
}

} // verus!
