//! What is read from a table is what was added to it.

use vstd::prelude::*;

use std::sync::Arc;

use crate::block::block_builder;
use crate::block::block_handle;
use crate::block::block_handle::HandleRead;
use crate::block::data;
use crate::block::BlockHandle;
use crate::coding;
use crate::comparator::Comparator;
use crate::db_iter::db_iterator;
use crate::env::RandomAccessFile;
use crate::filter;
use crate::filter::FilterPolicy;
use crate::filter_block;
use crate::format::InternalKeyComparator;
use crate::status;
use crate::table::draft;
use crate::table::draft::Draft;
use crate::table::draft::Recipe;
use crate::table::reader;
use crate::table::reader::BlockFor;
use crate::table::reader::OpenRead;
use crate::table::reader::Table;
use crate::table::stored_block;
use crate::table::stored_block::Compressor;
use crate::table::stored_block::StoredRead;
use crate::table::table_footer;
use crate::table::table_footer::TableFooter;
use crate::table_cache;
use crate::table_cache::TableSetup;
use crate::version_set::LookupResult;

verus! {

/// The blocks of a finished table are small enough for the 32 bits in which
/// offsets within a block are held.
pub open spec fn fits<C: Comparator, P: FilterPolicy, Z: Compressor>(
    recipe: Recipe<C, P, Z>,
    draft: Draft,
) -> bool {
    let last = recipe.flushed(draft);
    let done = recipe.finished(draft);
    &&& block_builder::block_image(done.index, 1).len() < coding::two_pow_32()
    &&& block_builder::block_image(done.metaindex, 1).len() < coding::two_pow_32()
    &&& done.filter.len() < coding::two_pow_32()
    &&& forall|i: int|
        0 <= i < last.blocks.len() ==> recipe.block_image(#[trigger] last.blocks[i]).len()
            < coding::two_pow_32()
}

/// The draft of a finished table with its last index entry.
spec fn closing<C: Comparator, P: FilterPolicy, Z: Compressor>(
    recipe: Recipe<C, P, Z>,
    draft: Draft,
) -> Draft {
    let last = recipe.flushed(draft);
    if last.pending() {
        last.with_index_key(recipe.comparator.successor(last.last_key()))
    } else {
        last
    }
}

proof fn lemma_closing<C: Comparator, P: FilterPolicy, Z: Compressor>(
    recipe: Recipe<C, P, Z>,
    draft: Draft,
)
    requires
        draft::finished_well(recipe, draft),
    ensures
        recipe.sound(closing(recipe, draft)),
        closing(recipe, draft).index == recipe.finished(draft).index,
        closing(recipe, draft).blocks == recipe.flushed(draft).blocks,
        closing(recipe, draft).handles == recipe.flushed(draft).handles,
        closing(recipe, draft).written == recipe.flushed(draft).written,
        recipe.flushed(draft).open.len() == 0,
        closing(recipe, draft).index.len() == closing(recipe, draft).blocks.len(),
        draft::joined(closing(recipe, draft).blocks) == draft.entries(),
{
    let last = recipe.flushed(draft);
    if last.pending() {
        draft::lemma_successor(recipe, last);
    }
    assert(last.open.len() == 0);
    if draft.open.len() == 0 {
        assert(draft.entries() =~= draft::joined(draft.blocks));
    } else {
        assert(last.blocks.drop_last() =~= draft.blocks);
        assert(draft::joined(last.blocks) =~= draft.entries());
    }
}

/// A block that was placed is read back.
proof fn lemma_placed_reads<Z: Compressor>(
    file: Seq<u8>,
    compressor: Option<Arc<Z>>,
    block: Seq<u8>,
    handle: BlockHandle,
    verify: bool,
)
    requires
        draft::placed(file, compressor, block, handle),
    ensures
        stored_block::read_stored(file, handle, verify, compressor) == StoredRead::Block(block),
{
    stored_block::law_stored_round_trip(file, handle, verify, compressor, block);
}

/// The index of a finished table.
spec fn index_image<C: Comparator, P: FilterPolicy, Z: Compressor>(
    recipe: Recipe<C, P, Z>,
    draft: Draft,
) -> Seq<u8> {
    block_builder::block_image(recipe.finished(draft).index, 1)
}

proof fn lemma_index_opens<C: Comparator, P: FilterPolicy, Z: Compressor>(
    recipe: Recipe<C, P, Z>,
    draft: Draft,
)
    requires
        draft::finished_well(recipe, draft),
        fits(recipe, draft),
    ensures
        reader::opened(
            recipe.finished(draft).image,
            recipe.finished(draft).image.len() as int,
            recipe.compressor,
        ) == (OpenRead::Opened {
            footer: recipe.finished(draft).footer,
            index: index_image(recipe, draft),
        }),
        data::sound(index_image(recipe, draft), recipe.comparator),
        data::pairs(data::items_of(index_image(recipe, draft))) == recipe.finished(draft).index,
{
    lemma_closing(recipe, draft);
    draft::lemma_index_sorted(
        recipe.comparator,
        recipe.finished(draft).index,
        recipe.flushed(draft).blocks,
    );
    block_builder::law_block_round_trip(recipe.comparator, recipe.finished(draft).index, 1);
    lemma_sections(recipe, draft);
    let image = recipe.finished(draft).image;
    let footer = recipe.finished(draft).footer;
    lemma_placed_reads(
        image,
        recipe.compressor,
        index_image(recipe, draft),
        footer.index,
        true,
    );
    lemma_footer_at_end(recipe.finished(draft).with_index, footer);
}

proof fn lemma_footer_at_end(front: Seq<u8>, footer: TableFooter)
    ensures
        ({
            let image = front + footer.encoded();
            let size = image.len() as int;
            &&& size >= 48
            &&& table_footer::read_footer(image.subrange(size - 48, size)) == Ok::<
                TableFooter,
                Seq<char>,
            >(footer)
        }),
{
    table_footer::law_footer_round_trip(footer);
    let image = front + footer.encoded();
    let size = image.len() as int;
    assert(image.subrange(size - 48, size) =~= footer.encoded());
}

proof fn lemma_block_leads<C: Comparator, P: FilterPolicy, Z: Compressor>(
    recipe: Recipe<C, P, Z>,
    draft: Draft,
    i: int,
    verify: bool,
)
    requires
        draft::finished_well(recipe, draft),
        fits(recipe, draft),
        0 <= i < recipe.flushed(draft).blocks.len(),
    ensures
        leads_to(
            recipe,
            recipe.finished(draft).image,
            recipe.finished(draft).index[i].1,
            verify,
            recipe.flushed(draft).blocks[i],
        ),
        block_handle::read_handle(recipe.finished(draft).index[i].1) == (HandleRead::Handle {
            handle: recipe.flushed(draft).handles[i],
            length: recipe.flushed(draft).handles[i].encoded().len(),
        }),
{
    let end = closing(recipe, draft);
    lemma_closing(recipe, draft);
    let block = end.blocks[i];
    let handle = end.handles[i];
    let written = end.written;
    let block_image = recipe.block_image(block);
    assert(block_image.len() < coding::two_pow_32());
    assert(draft::placed(written, recipe.compressor, block_image, handle));
    assert(end.index[i].1 == handle.encoded());
    assert(block.len() > 0 && db_iterator::sorted(recipe.comparator, block));
    lemma_sections(recipe, draft);
    lemma_leads(recipe, written, recipe.finished(draft).image, block, handle, verify);
}

proof fn lemma_leads<C: Comparator, P: FilterPolicy, Z: Compressor>(
    recipe: Recipe<C, P, Z>,
    written: Seq<u8>,
    file: Seq<u8>,
    block: Seq<db_iterator::Pair>,
    handle: BlockHandle,
    verify: bool,
)
    requires
        recipe.interval >= 1,
        written.is_prefix_of(file),
        recipe.block_image(block).len() < coding::two_pow_32(),
        draft::placed(written, recipe.compressor, recipe.block_image(block), handle),
        db_iterator::sorted(recipe.comparator, block),
    ensures
        leads_to(recipe, file, handle.encoded(), verify, block),
        block_handle::read_handle(handle.encoded()) == (HandleRead::Handle {
            handle,
            length: handle.encoded().len(),
        }),
{
    let block_image = recipe.block_image(block);
    let rest = file.skip(written.len() as int);
    assert(file =~= written + rest);
    draft::lemma_placed_stays(written, rest, recipe.compressor, block_image, handle);
    lemma_placed_reads(file, recipe.compressor, block_image, handle, verify);
    block_builder::law_block_round_trip(recipe.comparator, block, recipe.interval as int);
    block_handle::law_handle_round_trip(handle, Seq::empty());
    assert(handle.encoded() + Seq::<u8>::empty() =~= handle.encoded());
}

/// A finished table can be opened: the footer and the index are read back, and
/// each entry of the index leads to the block that it stands for.
pub proof fn law_finished_opens<C: Comparator, P: FilterPolicy, Z: Compressor>(
    recipe: Recipe<C, P, Z>,
    draft: Draft,
)
    requires
        draft::finished_well(recipe, draft),
        fits(recipe, draft),
    ensures
        ({
            let last = recipe.flushed(draft);
            let done = recipe.finished(draft);
            let image = block_builder::block_image(done.index, 1);
            &&& reader::opened(done.image, done.image.len() as int, recipe.compressor) == (
            OpenRead::Opened { footer: done.footer, index: image })
            &&& data::sound(image, recipe.comparator)
            &&& data::pairs(data::items_of(image)) == done.index
            &&& draft::parted(recipe.comparator, done.index, last.blocks)
            &&& done.index.len() == last.blocks.len()
            &&& draft::joined(last.blocks) == draft.entries()
            &&& forall|i: int, verify: bool|
                0 <= i < last.blocks.len() && #[trigger] either(verify) ==> leads_to(
                    recipe,
                    done.image,
                    done.index[i].1,
                    verify,
                    #[trigger] last.blocks[i],
                )
        }),
{
    lemma_index_opens(recipe, draft);
    lemma_closing(recipe, draft);
    assert forall|i: int, verify: bool|
        0 <= i < recipe.flushed(draft).blocks.len() && #[trigger] either(verify) implies leads_to(
        recipe,
        recipe.finished(draft).image,
        recipe.finished(draft).index[i].1,
        verify,
        #[trigger] recipe.flushed(draft).blocks[i],
    ) by {
        lemma_block_leads(recipe, draft, i, verify);
    }
}

/// Says nothing; it is there to be named.
pub open spec fn either(flag: bool) -> bool {
    true
}

/// The bytes of a handle lead to a block with the given entries.
pub open spec fn leads_to<C: Comparator, P: FilterPolicy, Z: Compressor>(
    recipe: Recipe<C, P, Z>,
    file: Seq<u8>,
    bytes: Seq<u8>,
    verify: bool,
    entries: Seq<db_iterator::Pair>,
) -> bool {
    block_handle::read_handle(bytes) matches HandleRead::Handle { handle, length: _ }
        && reader::block_behind(recipe.comparator, file, recipe.compressor, handle, verify)
        == BlockFor::Entries(entries)
}

/// The filter block, the metaindex block and the index block lie where their
/// handles say.
#[verifier::spinoff_prover]
proof fn lemma_sections<C: Comparator, P: FilterPolicy, Z: Compressor>(
    recipe: Recipe<C, P, Z>,
    draft: Draft,
)
    requires
        draft::finished_well(recipe, draft),
    ensures
        ({
            let last = recipe.flushed(draft);
            let done = recipe.finished(draft);
            &&& last.written.is_prefix_of(done.image)
            &&& recipe.policy is Some ==> draft::placed(
                done.image,
                recipe.compressor,
                done.filter,
                done.filter_handle,
            )
            &&& draft::placed(
                done.image,
                recipe.compressor,
                block_builder::block_image(done.metaindex, 1),
                done.footer.metaindex,
            )
            &&& draft::placed(
                done.image,
                recipe.compressor,
                block_builder::block_image(done.index, 1),
                done.footer.index,
            )
        }),
{
    let last = recipe.flushed(draft);
    let done = recipe.finished(draft);
    let index_image = block_builder::block_image(done.index, 1);
    let meta_image = block_builder::block_image(done.metaindex, 1);
    let footer_bytes = done.footer.encoded();
    table_footer::law_footer_round_trip(done.footer);
    let stored_index = stored_block::stored(recipe.compressor, index_image);
    let stored_meta = stored_block::stored(recipe.compressor, meta_image);
    let stored_filter = stored_block::stored(recipe.compressor, done.filter);
    assert(done.with_metaindex + stored_index + footer_bytes =~= done.image);
    draft::lemma_placed_behind(recipe, done.with_metaindex, index_image, footer_bytes);
    let after_meta = stored_index + footer_bytes;
    assert(done.with_filter + stored_meta + after_meta =~= done.image);
    draft::lemma_placed_behind(recipe, done.with_filter, meta_image, after_meta);
    if recipe.policy is Some {
        let after_filter = stored_meta + after_meta;
        assert(last.written + stored_filter + after_filter =~= done.image);
        draft::lemma_placed_behind(recipe, last.written, done.filter, after_filter);
    }
}

/// No two blocks of a finished table start at the same place, so that a cached
/// block is the one that was asked for.
pub proof fn law_blocks_apart<C: Comparator, F: RandomAccessFile, P: FilterPolicy, Z: Compressor>(
    recipe: Recipe<C, P, Z>,
    draft: Draft,
    table: Table<C, F, P, Z>,
)
    requires
        draft::finished_well(recipe, draft),
        fits(recipe, draft),
        table.order() == recipe.comparator,
        table.index_image() == block_builder::block_image(recipe.finished(draft).index, 1),
    ensures
        table.apart(),
{
    lemma_index_opens(recipe, draft);
    lemma_closing(recipe, draft);
    let handles = recipe.flushed(draft).handles;
    assert forall|a: BlockHandle, b: BlockHandle|
        table.indexed() && #[trigger] table.names(a) && #[trigger] table.names(b) && a.offset
            == b.offset implies a == b by {
        let i = choose|i: int|
            0 <= i < table.index().len() && (block_handle::read_handle(
                (#[trigger] table.index()[i]).1,
            ) matches HandleRead::Handle { handle: named, length: _ } && named == a);
        let j = choose|j: int|
            0 <= j < table.index().len() && (block_handle::read_handle(
                (#[trigger] table.index()[j]).1,
            ) matches HandleRead::Handle { handle: named, length: _ } && named == b);
        lemma_block_leads(recipe, draft, i, true);
        lemma_block_leads(recipe, draft, j, true);
        assert(handles[i] == a && handles[j] == b);
    }
}

/// The filter block of a finished table is found, as long as the comparator
/// admits the key under which the metaindex has it.
pub proof fn law_filter_is_found<C: Comparator, P: FilterPolicy, Z: Compressor>(
    recipe: Recipe<C, P, Z>,
    draft: Draft,
    loaded: Option<Seq<u8>>,
)
    requires
        draft::finished_well(recipe, draft),
        fits(recipe, draft),
        recipe.policy matches Some(policy) && recipe.comparator.admits(
            draft::filter_key(policy.title()),
        ) && reader::filter_is(
            recipe.finished(draft).image,
            recipe.finished(draft).footer.metaindex,
            recipe.comparator,
            policy.title(),
            recipe.compressor,
            loaded,
        ),
    ensures
        loaded == Some(recipe.finished(draft).filter),
{
    let done = recipe.finished(draft);
    let comparator = recipe.comparator;
    let key = draft::filter_key(recipe.policy->0.title());
    let meta_image = block_builder::block_image(done.metaindex, 1);
    lemma_sections(recipe, draft);
    assert(done.metaindex.len() == 1);
    assert(done.metaindex[0] == (key, done.filter_handle.encoded()));
    assert(db_iterator::sorted(comparator, done.metaindex));
    block_builder::law_block_round_trip(comparator, done.metaindex, 1);
    lemma_placed_reads(done.image, recipe.compressor, meta_image, done.footer.metaindex, true);
    comparator.less_irreflexive(key);
    assert(db_iterator::first_from(comparator, done.metaindex, key) == 0);
    block_handle::law_handle_round_trip(done.filter_handle, Seq::empty());
    assert(done.filter_handle.encoded() + Seq::<u8>::empty() =~= done.filter_handle.encoded());
    lemma_placed_reads(done.image, recipe.compressor, done.filter, done.filter_handle, true);
}

// ---------------------------------------------------------------------------
// Looking for a key in parts
// ---------------------------------------------------------------------------

/// Where a block starts among the entries of all blocks.
pub open spec fn start_of(blocks: Seq<Seq<db_iterator::Pair>>, place: int) -> nat {
    draft::joined(blocks.take(place)).len()
}

/// The entries of a block stand in one piece among those of all blocks.
pub proof fn lemma_block_in_joined(blocks: Seq<Seq<db_iterator::Pair>>, place: int, k: int)
    requires
        0 <= place < blocks.len(),
        0 <= k < blocks[place].len(),
    ensures
        start_of(blocks, place) + k < draft::joined(blocks).len(),
        draft::joined(blocks)[start_of(blocks, place) + k] == blocks[place][k],
        start_of(blocks, place + 1) == start_of(blocks, place) + blocks[place].len(),
        start_of(blocks, place + 1) <= draft::joined(blocks).len(),
    decreases blocks.len(),
{
    let front = blocks.drop_last();
    if place == blocks.len() - 1 {
        assert(blocks.take(place) =~= front);
        assert(blocks.take(place + 1) =~= blocks);
    } else {
        lemma_block_in_joined(front, place, k);
        assert(front.take(place) =~= blocks.take(place));
        assert(front.take(place + 1) =~= blocks.take(place + 1));
        assert(front[place] == blocks[place]);
    }
}

/// Each entry of all is in some block.
pub proof fn lemma_joined_in_block(blocks: Seq<Seq<db_iterator::Pair>>, at: int) -> (found: (int, int))
    requires
        0 <= at < draft::joined(blocks).len(),
    ensures
        0 <= found.0 < blocks.len(),
        0 <= found.1 < blocks[found.0].len(),
        start_of(blocks, found.0) + found.1 == at,
        blocks[found.0][found.1] == draft::joined(blocks)[at],
    decreases blocks.len(),
{
    let front = blocks.drop_last();
    let before = draft::joined(front);
    if at < before.len() {
        let found = lemma_joined_in_block(front, at);
        assert(front.take(found.0) =~= blocks.take(found.0));
        assert(front[found.0] == blocks[found.0]);
        found
    } else {
        let place = blocks.len() - 1;
        assert(blocks.take(place) =~= front);
        (place, at - before.len())
    }
}

/// The entries of parted blocks are sorted as a whole.
pub proof fn lemma_joined_sorted<C: Comparator>(
    comparator: C,
    index: Seq<db_iterator::Pair>,
    blocks: Seq<Seq<db_iterator::Pair>>,
)
    requires
        draft::parted(comparator, index, blocks),
        index.len() == blocks.len(),
    ensures
        db_iterator::sorted(comparator, draft::joined(blocks)),
{
    let all = draft::joined(blocks);
    assert forall|a: int| 0 <= a < all.len() implies comparator.admits(#[trigger] all[a].0) by {
        let (i, k) = lemma_joined_in_block(blocks, a);
        assert(blocks[i].len() > 0);
        assert(comparator.admits(blocks[i][k].0));
    }
    assert forall|a: int, b: int| 0 <= a < b < all.len() implies comparator.less(
        #[trigger] all[a].0,
        #[trigger] all[b].0,
    ) by {
        let (i, k) = lemma_joined_in_block(blocks, a);
        let (j, l) = lemma_joined_in_block(blocks, b);
        assert(blocks[i].len() > 0);
        assert(blocks[j].len() > 0);
        if i == j {
            assert(comparator.less(blocks[i][k].0, blocks[i][l].0));
        } else if i < j {
            lemma_before_in_parts(comparator, index, blocks, i, k, j, l);
        } else {
            lemma_starts_rise(blocks, j, i);
            lemma_block_in_joined(blocks, j, l);
        }
    }
}

/// Blocks further on start further on.
proof fn lemma_starts_rise(blocks: Seq<Seq<db_iterator::Pair>>, i: int, j: int)
    requires
        0 <= i < j <= blocks.len(),
        forall|p: int| 0 <= p < blocks.len() ==> #[trigger] blocks[p].len() > 0,
    ensures
        start_of(blocks, i) + blocks[i].len() <= start_of(blocks, j),
    decreases j - i,
{
    assert(blocks[i].len() > 0);
    lemma_block_in_joined(blocks, i, 0);
    if i + 1 < j {
        lemma_starts_rise(blocks, i + 1, j);
        assert(blocks[i + 1].len() > 0);
    }
}

/// A key of an earlier block is before those of later ones.
proof fn lemma_before_in_parts<C: Comparator>(
    comparator: C,
    index: Seq<db_iterator::Pair>,
    blocks: Seq<Seq<db_iterator::Pair>>,
    i: int,
    k: int,
    j: int,
    l: int,
)
    requires
        draft::parted(comparator, index, blocks),
        0 <= i < j < blocks.len(),
        i < index.len(),
        0 <= k < blocks[i].len(),
        0 <= l < blocks[j].len(),
    ensures
        comparator.less(blocks[i][k].0, blocks[j][l].0),
{
    let bound = index[i].0;
    assert(draft::keys_under(comparator, index[i].0, blocks[i]));
    assert(draft::keys_over(comparator, index[i].0, blocks[j]));
    assert(!comparator.less(bound, blocks[i][k].0));
    assert(comparator.less(bound, blocks[j][l].0));
    assert(comparator.admits(blocks[i][k].0));
    assert(comparator.admits(blocks[j][l].0));
    comparator.less_splits(bound, blocks[i][k].0, blocks[j][l].0);
}

/// The first entry from a key on is in the block that the index names; or it is
/// the first of the next block, beyond the index key.
proof fn lemma_first_in_parts<C: Comparator>(
    comparator: C,
    index: Seq<db_iterator::Pair>,
    blocks: Seq<Seq<db_iterator::Pair>>,
    target: Seq<u8>,
)
    requires
        draft::parted(comparator, index, blocks),
        index.len() == blocks.len(),
        comparator.admits(target),
    ensures
        ({
            let place = db_iterator::first_from(comparator, index, target);
            let all = draft::joined(blocks);
            let whole = db_iterator::first_from(comparator, all, target);
            &&& 0 <= place <= blocks.len()
            &&& place == blocks.len() ==> whole == all.len()
            &&& place < blocks.len() ==> {
                let inner = db_iterator::first_from(comparator, blocks[place], target);
                &&& !comparator.less(index[place].0, target)
                &&& inner < blocks[place].len() ==> db_iterator::pair_at(all, whole)
                    == db_iterator::pair_at(blocks[place], inner)
                &&& inner >= blocks[place].len() ==> {
                    &&& comparator.less(blocks[place].last().0, target)
                    &&& if place + 1 < blocks.len() {
                        db_iterator::pair_at(all, whole) == Some(blocks[place + 1][0])
                            && comparator.less(target, blocks[place + 1][0].0)
                    } else {
                        whole == all.len()
                    }
                }
            }
        }),
{
    let place = db_iterator::first_from(comparator, index, target);
    let all = draft::joined(blocks);
    let whole = db_iterator::first_from(comparator, all, target);
    db_iterator::lemma_first_from(comparator, index, target, 0);
    db_iterator::lemma_first_from(comparator, all, target, 0);
    lemma_joined_sorted(comparator, index, blocks);
    // The entries of the blocks in front are all before the target.
    assert forall|a: int| 0 <= a < all.len() && a < start_of(blocks, place) implies comparator.less(
        #[trigger] all[a].0,
        target,
    ) by {
        let (i, k) = lemma_joined_in_block(blocks, a);
        if i >= place {
            if i > place {
                lemma_starts_rise(blocks, place, i);
            }
        } else {
            assert(draft::keys_under(comparator, index[i].0, blocks[i]));
            assert(comparator.less(index[i].0, target));
            assert(!comparator.less(index[i].0, blocks[i][k].0));
            assert(blocks[i].len() > 0);
            assert(comparator.admits(blocks[i][k].0));
            comparator.less_splits(index[i].0, blocks[i][k].0, target);
        }
    }
    if place == blocks.len() {
        assert(blocks.take(place) =~= blocks);
        if whole < all.len() {
            assert(comparator.less(all[whole].0, target));
        }
    } else {
        let block = blocks[place];
        let start = start_of(blocks, place) as int;
        let inner = db_iterator::first_from(comparator, block, target);
        db_iterator::lemma_first_from(comparator, block, target, 0);
        assert(block.len() > 0);
        lemma_block_in_joined(blocks, place, 0);
        assert forall|k: int| 0 <= k < block.len() implies #[trigger] all[start + k]
            == block[k] by {
            lemma_block_in_joined(blocks, place, k);
        }
        if inner < block.len() {
            assert(all[start + inner] == block[inner]);
            if whole < start + inner {
                if whole >= start {
                    assert(all[start + (whole - start)] == block[whole - start]);
                    assert(comparator.less(block[whole - start].0, target));
                } else {
                    assert(comparator.less(all[whole].0, target));
                }
            }
            if whole > start + inner {
                assert(comparator.less(all[start + inner].0, target));
            }
            assert(whole == start + inner);
        } else {
            let end = block.len() - 1;
            assert(comparator.less(block[end].0, target));
            let next = start + block.len();
            if whole < next {
                if whole >= start {
                    assert(all[start + (whole - start)] == block[whole - start]);
                    assert(comparator.less(block[whole - start].0, target));
                } else {
                    assert(comparator.less(all[whole].0, target));
                }
            }
            if place + 1 < blocks.len() {
                assert(blocks[place + 1].len() > 0);
                lemma_block_in_joined(blocks, place + 1, 0);
                assert(all[next + 0] == blocks[place + 1][0]);
                let beyond = blocks[place + 1][0].0;
                assert(draft::keys_over(comparator, index[place].0, blocks[place + 1]));
                assert(comparator.less(index[place].0, beyond));
                assert(comparator.admits(beyond));
                comparator.less_splits(index[place].0, target, beyond);
                if comparator.less(beyond, target) {
                    comparator.less_transitive(beyond, target, beyond);
                    comparator.less_irreflexive(beyond);
                }
                if whole > next {
                    assert(comparator.less(all[next].0, target));
                }
                assert(whole == next);
            } else {
                assert(blocks.take(place + 1) =~= blocks);
                assert(next == all.len());
            }
        }
    }
}

/// A value is found among sorted entries if and only if an entry has a key that
/// is as good as the one looked for.
pub proof fn law_found_value<C: Comparator>(
    comparator: C,
    entries: Seq<db_iterator::Pair>,
    target: Seq<u8>,
    value: Seq<u8>,
)
    requires
        db_iterator::sorted(comparator, entries),
        comparator.admits(target),
    ensures
        reader::found_value(comparator, entries, target) == Some(value) <==> exists|i: int|
            0 <= i < entries.len() && !comparator.less(#[trigger] entries[i].0, target)
                && !comparator.less(target, entries[i].0) && entries[i].1 == value,
{
    let place = db_iterator::first_from(comparator, entries, target);
    db_iterator::lemma_first_from(comparator, entries, target, 0);
    assert forall|i: int|
        0 <= i < entries.len() && !comparator.less(#[trigger] entries[i].0, target)
            && !comparator.less(target, entries[i].0) implies i == place by {
        if i > place {
            assert(comparator.less(entries[place].0, entries[i].0));
            comparator.less_splits(entries[place].0, target, entries[i].0);
        }
    }
    if place < entries.len() {
        assert(entries[place].0 == entries[place].0);
    }
}

/// The filter of a finished table, once it is opened.
#[verifier::spinoff_prover]
#[verifier::rlimit(40)]
proof fn lemma_filter_loaded<C: Comparator, F: RandomAccessFile, P: FilterPolicy, Z: Compressor>(
    recipe: Recipe<C, P, Z>,
    draft: Draft,
    table: Table<C, F, P, Z>,
)
    requires
        draft::finished_well(recipe, draft),
        fits(recipe, draft),
        table.bytes() == recipe.finished(draft).image,
        reader::opens_as(
            reader::opened(
                table.bytes(),
                table.bytes().len() as int,
                recipe.compressor,
            ),
            recipe.comparator,
            recipe.policy,
            recipe.compressor,
            Ok::<Table<C, F, P, Z>, status::Status>(table),
        ),
    ensures
        table.filter_data() is None || (recipe.policy is Some && table.filter_data() == Some(
            (recipe.finished(draft).filter, recipe.policy->0),
        )),
{
    if table.filter_data() is Some {
        lemma_index_opens(recipe, draft);
        let title = recipe.policy->0.title();
        let loaded = Some((table.filter_data()->0).0);
        assert(reader::filter_is(
            table.bytes(),
            recipe.finished(draft).footer.metaindex,
            recipe.comparator,
            title,
            recipe.compressor,
            loaded,
        ));
        if recipe.comparator.admits(draft::filter_key(title)) {
            law_filter_is_found(recipe, draft, loaded);
        }
    }
}

/// Whether keys that are as good as one are that one.
pub open spec fn is_plain_key<C: Comparator>(
    comparator: C,
    entries: Seq<db_iterator::Pair>,
    target: Seq<u8>,
) -> bool {
    forall|i: int|
        0 <= i < entries.len() && !comparator.less(#[trigger] entries[i].0, target)
            && !comparator.less(target, entries[i].0) ==> entries[i].0 == target
}

/// A point lookup in a finished table finds a value if and only if an entry with that
/// key was added, and it is the value that was added; with the table's filter or
/// without. Filters see the bytes of keys: with one, keys that are as good as the one
/// looked for have to be that one.
#[verifier::spinoff_prover]
#[verifier::rlimit(60)]
pub proof fn law_get_finds<C: Comparator, F: RandomAccessFile, P: FilterPolicy, Z: Compressor>(
    recipe: Recipe<C, P, Z>,
    draft: Draft,
    table: Table<C, F, P, Z>,
    target: Seq<u8>,
    verify: bool,
    read: status::Result<Option<Vec<u8>>>,
)
    requires
        draft::finished_well(recipe, draft),
        fits(recipe, draft),
        recipe.comparator.admits(target),
        table.bytes() == recipe.finished(draft).image,
        reader::opens_as(
            reader::opened(
                table.bytes(),
                table.bytes().len() as int,
                recipe.compressor,
            ),
            recipe.comparator,
            recipe.policy,
            recipe.compressor,
            Ok::<Table<C, F, P, Z>, status::Status>(table),
        ),
        recipe.policy is Some ==> is_plain_key(recipe.comparator, draft.entries(), target),
        reader::value_is(
            table.block_for(target, target, verify),
            recipe.comparator,
            target,
            read,
        ),
    ensures
        match reader::found_value(recipe.comparator, draft.entries(), target) {
            None => read matches Ok(None),
            Some(value) => read matches Ok(Some(bytes)) && bytes@ == value,
        },
{
    let comparator = recipe.comparator;
    let index = recipe.finished(draft).index;
    let blocks = recipe.flushed(draft).blocks;
    lemma_index_opens(recipe, draft);
    lemma_closing(recipe, draft);
    lemma_first_in_parts(comparator, index, blocks, target);
    let place = db_iterator::first_from(comparator, index, target);
    lemma_filter_loaded(recipe, draft, table);
    if place < blocks.len() {
        let block = blocks[place];
        let inner = db_iterator::first_from(comparator, block, target);
        lemma_block_leads(recipe, draft, place, verify);
        db_iterator::lemma_first_from(comparator, block, target, 0);
        if table.filter_data() is Some && inner < block.len() && !comparator.less(
            target,
            block[inner].0,
        ) {
            lemma_block_in_joined(blocks, place, inner);
            let at = start_of(blocks, place) as int + inner;
            assert(draft.entries()[at] == block[inner]);
            assert(block[inner].0 == target);
            lemma_filter_admits(recipe, draft, place, inner, target);
        }
    }
}

// ---------------------------------------------------------------------------
// Internal keys
// ---------------------------------------------------------------------------

/// The separator of two internal keys is the first of them, or its user key is
/// before that of the second.
proof fn lemma_internal_separator<C: Comparator>(
    comparator: InternalKeyComparator<C>,
    start: Seq<u8>,
    limit: Seq<u8>,
)
    requires
        comparator.admits(start),
        comparator.admits(limit),
        comparator.less(start, limit),
    ensures
        comparator.separator(start, limit) == start || comparator.user_order().less(
            crate::format::user_part(comparator.separator(start, limit)),
            crate::format::user_part(limit),
        ),
{
    let user = comparator.user_order();
    let (us, ul) = (crate::format::user_part(start), crate::format::user_part(limit));
    let shorter = user.separator(us, ul);
    user.separator_separates(us, ul);
    if comparator.separator(start, limit) != start {
        crate::format::lemma_internal_key_parts(
            shorter,
            crate::format::packed(
                crate::format::MAX_SEQUENCE_NUMBER as nat,
                crate::format::VALUE_TYPE_FOR_SEEK,
            ),
        );
        if !user.less(us, ul) {
            user.less_irreflexive(us);
        }
    }
}

/// Looking for an internal key in parts finds what looking in all entries finds.
proof fn lemma_internal_in_parts<C: Comparator, P: FilterPolicy, Z: Compressor>(
    recipe: Recipe<InternalKeyComparator<C>, P, Z>,
    draft: Draft,
    target: Seq<u8>,
)
    requires
        recipe.sound(draft),
        draft.index.len() == draft.blocks.len(),
        recipe.comparator.admits(target),
    ensures
        ({
            let comparator = recipe.comparator;
            let place = db_iterator::first_from(comparator, draft.index, target);
            let all = draft::joined(draft.blocks);
            let whole = db_iterator::pair_at(
                all,
                db_iterator::first_from(comparator, all, target),
            );
            &&& 0 <= place <= draft.blocks.len()
            &&& place == draft.blocks.len() ==> whole is None
            &&& place < draft.blocks.len() ==> {
                let block = draft.blocks[place];
                let inner = db_iterator::pair_at(
                    block,
                    db_iterator::first_from(comparator, block, target),
                );
                inner == whole || (inner is None && crate::format::user_part((whole->0).0)
                    != crate::format::user_part(target))
            }
        }),
{
    let comparator = recipe.comparator;
    let user = comparator.user_order();
    let (index, blocks) = (draft.index, draft.blocks);
    lemma_first_in_parts(comparator, index, blocks, target);
    let place = db_iterator::first_from(comparator, index, target);
    db_iterator::lemma_first_from(comparator, index, target, 0);
    if place < blocks.len() {
        let block = blocks[place];
        db_iterator::lemma_first_from(comparator, block, target, 0);
        let inner = db_iterator::first_from(comparator, block, target);
        if inner >= block.len() && place + 1 < blocks.len() {
            let beyond = blocks[place + 1][0].0;
            let separator = index[place].0;
            assert(block.len() > 0);
            assert(blocks[place + 1].len() > 0);
            assert(comparator.admits(block[block.len() - 1].0));
            assert(comparator.admits(beyond));
            comparator.less_transitive(block.last().0, target, beyond);
            assert(separator == comparator.separator(block.last().0, beyond));
            lemma_internal_separator(comparator, block.last().0, beyond);
            if crate::format::user_part(beyond) == crate::format::user_part(target) {
                assert(comparator.less(block.last().0, target));
                if separator != block.last().0 {
                    assert(user.less(
                        crate::format::user_part(separator),
                        crate::format::user_part(target),
                    ));
                    assert(comparator.less(separator, target));
                }
            }
        }
    }
}

/// The filter of a finished table denies no user key of the block that is asked
/// for.
proof fn lemma_filter_admits<C: Comparator, P: FilterPolicy, Z: Compressor>(
    recipe: Recipe<C, P, Z>,
    draft: Draft,
    place: int,
    k: int,
    asked: Seq<u8>,
)
    requires
        draft::finished_well(recipe, draft),
        fits(recipe, draft),
        recipe.policy is Some,
        0 <= place < recipe.flushed(draft).blocks.len(),
        0 <= k < recipe.flushed(draft).blocks[place].len(),
        filter::stripped(recipe.flushed(draft).blocks[place][k].0) == filter::stripped(asked),
    ensures
        reader::filter_admits(
            Some((recipe.finished(draft).filter, recipe.policy->0)),
            recipe.flushed(draft).handles[place].offset,
            asked,
        ),
{
    let last = recipe.flushed(draft);
    let policy = draft::table_policy(recipe.policy->0);
    let groups = filter_block::final_groups(last.groups, last.waiting);
    let key = last.blocks[place][k].0;
    let offset = last.handles[place].offset;
    let at = offset as int / 2048;
    assert(draft::key_is_grouped(last.groups, last.waiting, at, key));
    if at < last.groups.len() {
        assert(groups[at] == last.groups[at]);
    } else {
        let w = choose|w: int| 0 <= w < last.waiting.len() && last.waiting[w] == key;
        assert(groups[at] == last.waiting);
    }
    assert(groups[at].contains(key));
    let g = choose|g: int| 0 <= g < groups[at].len() && groups[at][g] == key;
    filter_block::law_no_false_negative(policy, groups, offset, key);
    let image = recipe.finished(draft).filter;
    assert(filter_block::block_admits(policy, image, offset, key)
        == filter_block::block_admits(policy, image, offset, asked));
}

/// A lookup of an internal key in a finished table finds what is first from that
/// key on among all entries that were added, if it has the same user key; with
/// the table's filter or without.
#[verifier::spinoff_prover]
#[verifier::rlimit(60)]
pub proof fn law_internal_get_finds<
    C: Comparator,
    F: RandomAccessFile,
    P: FilterPolicy,
    Z: Compressor,
>(
    recipe: Recipe<InternalKeyComparator<C>, P, Z>,
    draft: Draft,
    table: Table<InternalKeyComparator<C>, F, P, Z>,
    target: Seq<u8>,
    verify: bool,
    read: status::Result<LookupResult>,
)
    requires
        draft::finished_well(recipe, draft),
        fits(recipe, draft),
        recipe.comparator.admits(target),
        table.bytes() == recipe.finished(draft).image,
        reader::opens_as(
            reader::opened(
                table.bytes(),
                table.bytes().len() as int,
                recipe.compressor,
            ),
            recipe.comparator,
            recipe.policy,
            recipe.compressor,
            Ok::<Table<InternalKeyComparator<C>, F, P, Z>, status::Status>(table),
        ),
        reader::lookup_is(
            table.block_for(target, target, verify),
            recipe.comparator,
            target,
            read,
        ),
    ensures
        reader::internal_is(
            db_iterator::pair_at(
                draft.entries(),
                db_iterator::first_from(recipe.comparator, draft.entries(), target),
            ),
            target,
            read,
        ),
{
    let comparator = recipe.comparator;
    let index = recipe.finished(draft).index;
    let blocks = recipe.flushed(draft).blocks;
    lemma_index_opens(recipe, draft);
    lemma_closing(recipe, draft);
    lemma_internal_in_parts(recipe, closing(recipe, draft), target);
    let place = db_iterator::first_from(comparator, index, target);
    lemma_filter_loaded(recipe, draft, table);
    if place < blocks.len() {
        let block = blocks[place];
        let offset = recipe.flushed(draft).handles[place].offset;
        lemma_block_leads(recipe, draft, place, verify);
        let inner = db_iterator::first_from(comparator, block, target);
        db_iterator::lemma_first_from(comparator, block, target, 0);
        if inner < block.len() {
            assert(blocks[place].len() > 0);
            assert(comparator.admits(block[inner].0));
            if table.filter_data() is Some && crate::format::user_part(block[inner].0)
                == crate::format::user_part(target) {
                lemma_filter_admits(recipe, draft, place, inner, target);
            }
        } else {
            lemma_first_in_parts(comparator, index, blocks, target);
            if place + 1 < blocks.len() {
                assert(blocks[place + 1].len() > 0);
                assert(comparator.admits(blocks[place + 1][0].0));
            }
        }
    }
}

/// The offset of a key in a finished table is where the block starts that the key is in; the
/// bytes of all blocks before it lie in front. A key behind all blocks is at the metaindex
/// block, which lies behind them.
pub proof fn law_offset_finds_block<
    C: Comparator,
    F: RandomAccessFile,
    P: FilterPolicy,
    Z: Compressor,
>(
    setup: TableSetup<C, P, Z>,
    files: Map<Seq<char>, Seq<u8>>,
    number: u64,
    recipe: Recipe<C, P, Z>,
    draft: Draft,
    key: Seq<u8>,
    offset: u64,
)
    requires
        draft::finished_well(recipe, draft),
        fits(recipe, draft),
        setup.comparator == recipe.comparator,
        setup.compressor == recipe.compressor,
        recipe.comparator.admits(key),
        files.contains_key(table_cache::table_path(files, setup.dbname, number)),
        files[table_cache::table_path(files, setup.dbname, number)] == recipe.finished(draft).image,
        table_cache::offset_read::<C, F, P, Z>(
            setup,
            files,
            number,
            key,
            Ok::<u64, status::Status>(offset),
        ),
    ensures
        ({
            let last = recipe.flushed(draft);
            let done = recipe.finished(draft);
            &&& forall|i: int, k: int|
                0 <= i < last.blocks.len() && 0 <= k < last.blocks[i].len() && (
                #[trigger] last.blocks[i][k]).0 == key ==> offset == last.handles[i].offset
            &&& (forall|i: int|
                0 <= i < done.index.len() ==> recipe.comparator.less(
                    (#[trigger] done.index[i]).0,
                    key,
                )) ==> offset == done.footer.metaindex.offset
            &&& last.written.len() <= done.footer.metaindex.offset
        }),
{
    let order = recipe.comparator;
    let last = recipe.flushed(draft);
    let done = recipe.finished(draft);
    law_finished_opens(recipe, draft);
    lemma_index_opens(recipe, draft);
    lemma_closing(recipe, draft);
    lemma_sections(recipe, draft);
    let table = choose|table: Table<C, F, P, Z>| #[trigger]
        table_cache::is_opened(setup, table, done.image) && (table.indexed() ==> offset
            == match reader::located(order, table.index(), key) {
            Some(HandleRead::Handle { handle, length: _ }) => handle.offset,
            _ => table.metaindex_place(),
        });
    assert(table.indexed());
    assert(table.index() == done.index);
    let place = db_iterator::first_from(order, done.index, key);
    db_iterator::lemma_first_from(order, done.index, key, 0);
    assert forall|i: int, k: int|
        0 <= i < last.blocks.len() && 0 <= k < last.blocks[i].len() && (
        #[trigger] last.blocks[i][k]).0 == key implies offset == last.handles[i].offset by {
        assert(draft::keys_under(order, done.index[i].0, last.blocks[i]));
        assert(!order.less(done.index[i].0, last.blocks[i][k].0));
        if place < i {
            assert(draft::keys_over(order, done.index[place].0, last.blocks[i]));
            assert(order.less(done.index[place].0, last.blocks[i][k].0));
        }
        assert(place == i);
        block_handle::law_handle_round_trip(last.handles[i], Seq::empty());
        assert(last.handles[i].encoded() + Seq::<u8>::empty() =~= last.handles[i].encoded());
        assert(done.index[i].1 == last.handles[i].encoded());
    }
    if forall|i: int|
        0 <= i < done.index.len() ==> order.less((#[trigger] done.index[i]).0, key) {
        if place < done.index.len() {
            assert(order.less(done.index[place].0, key));
        }
    }
}

/// A lookup of a key through the cache of tables finds the value that was added under that
/// key to the table of the number, and nothing if none was added.
pub proof fn law_cached_get_finds<
    C: Comparator,
    F: RandomAccessFile,
    P: FilterPolicy,
    Z: Compressor,
>(
    setup: TableSetup<C, P, Z>,
    files: Map<Seq<char>, Seq<u8>>,
    number: u64,
    recipe: Recipe<C, P, Z>,
    draft: Draft,
    key: Seq<u8>,
    verify: bool,
    read: status::Result<Option<Vec<u8>>>,
)
    requires
        draft::finished_well(recipe, draft),
        fits(recipe, draft),
        setup.comparator == recipe.comparator,
        setup.compressor == recipe.compressor,
        setup.policy == recipe.policy,
        recipe.comparator.admits(key),
        recipe.policy is Some ==> is_plain_key(recipe.comparator, draft.entries(), key),
        files.contains_key(table_cache::table_path(files, setup.dbname, number)),
        files[table_cache::table_path(files, setup.dbname, number)] == recipe.finished(draft).image,
        table_cache::value_read::<C, F, P, Z>(setup, files, number, key, verify, false, read),
    ensures
        forall|i: int|
            0 <= i < draft.entries().len() && (#[trigger] draft.entries()[i]).0 == key ==> (
            read matches Ok(Some(bytes)) && bytes@ == draft.entries()[i].1),
        (forall|i: int|
            0 <= i < draft.entries().len() ==> recipe.comparator.less(
                (#[trigger] draft.entries()[i]).0,
                key,
            ) || recipe.comparator.less(key, draft.entries()[i].0)) ==> (read matches Ok(None)),
{
    let order = recipe.comparator;
    let done = recipe.finished(draft);
    let entries = draft.entries();
    law_finished_opens(recipe, draft);
    lemma_index_opens(recipe, draft);
    let table = choose|table: Table<C, F, P, Z>| #[trigger]
        table_cache::is_opened(setup, table, done.image) && (table.indexed() && table.apart()
            ==> reader::value_is(table.block_for(key, key, verify), order, key, read));
    law_blocks_apart(recipe, draft, table);
    assert(table.indexed());
    law_get_finds(recipe, draft, table, key, verify, read);
    lemma_joined_sorted(order, done.index, recipe.flushed(draft).blocks);
    assert forall|i: int| 0 <= i < entries.len() && (#[trigger] entries[i]).0 == key implies (
    read matches Ok(Some(bytes)) && bytes@ == entries[i].1) by {
        order.less_irreflexive(key);
        law_found_value(order, entries, key, entries[i].1);
        assert(!order.less(entries[i].0, key));
    }
    match reader::found_value(order, entries, key) {
        Some(value) => {
            law_found_value(order, entries, key, value);
        },
        None => {},
    }
}

} // verus!
