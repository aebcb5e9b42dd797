//! Iterator over a table.

use vstd::prelude::*;

use std::sync::Arc;

use crate::block::block_builder;
use crate::block::block_handle;
use crate::block::block_handle::HandleRead;
use crate::block::block_iter::BlockIter;
use crate::block::data;
use crate::block::data::Block;
use crate::block::BlockHandle;
use crate::coding;
use crate::comparator;
use crate::comparator::Comparator;
use crate::db_iter::db_iterator;
use crate::db_iter::db_iterator::DbIterator;
use crate::db_iter::db_iterator::Scan;
use crate::env::RandomAccessFile;
use crate::filter::BloomFilterPolicy;
use crate::filter::FilterPolicy;
use crate::status;
use crate::table::draft;
use crate::table::draft::Draft;
use crate::table::draft::Recipe;
use crate::table::laws;
use crate::table::reader;
use crate::table::reader::BlockFor;
use crate::table::reader::Table;
use crate::table::reader::VecRandomAccessFile;
use crate::table::stored_block;
use crate::table::stored_block::Compressor;
use crate::table::stored_block::NoCompressor;
use crate::table::stored_block::StoredRead;
use crate::table::table_builder;
use crate::two_level_iter;
use crate::two_level_iter::BlockFunction;
use crate::two_level_iter::Blocks;
use crate::two_level_iter::TwoLevelIterator;

verus! {

/// What an iterator over a block runs over.
pub open spec fn block_scan<C: Comparator>(comparator: C, image: Seq<u8>) -> Scan {
    Scan {
        contents: db_iterator::map_of(data::pairs(data::items_of(image))),
        before: comparator::order_of(comparator),
        admits: comparator::domain_of(comparator),
        intact: data::sound(image, comparator),
        steady: true,
        current: None,
        failure: None,
    }
}

/// The blocks of a table that is stored in the given bytes.
pub open spec fn table_blocks<C: Comparator, Z: Compressor>(
    comparator: C,
    bytes: Seq<u8>,
    compressor: Option<Arc<Z>>,
    verify: bool,
) -> Blocks {
    Blocks {
        source: |handle: Seq<u8>|
            match block_handle::read_handle(handle) {
                HandleRead::Handle { handle: found, length: _ } => match stored_block::read_stored(
                    bytes,
                    found,
                    verify,
                    compressor,
                ) {
                    StoredRead::Block(image) => if data::is_block(image) {
                        Some(block_scan(comparator, image))
                    } else {
                        None
                    },
                    _ => None,
                },
                _ => None,
            },
        domain: comparator::domain_of(comparator),
    }
}

/// What an iterator over a table runs over that is stored in the given bytes, with the
/// given index. `steady` tells whether the bytes can always be read.
pub open spec fn table_scan<C: Comparator, Z: Compressor>(
    comparator: C,
    bytes: Seq<u8>,
    compressor: Option<Arc<Z>>,
    index: Seq<u8>,
    verify: bool,
    steady: bool,
) -> Scan {
    let blocks = table_blocks(comparator, bytes, compressor, verify);
    let scan = block_scan(comparator, index);
    Scan {
        contents: two_level_iter::all_blocks(blocks, scan.contents),
        before: scan.before,
        admits: scan.admits,
        intact: two_level_iter::joint(blocks, scan),
        steady: steady,
        current: None,
        failure: None,
    }
}

/// Loads the blocks of a table.
pub struct TableBlocks<C: Comparator, F: RandomAccessFile, P: FilterPolicy, Z: Compressor> {
    pub table: Arc<Table<C, F, P, Z>>,
    /// Whether the checksums of blocks are checked.
    pub verify: bool,
}

impl<
    C: Comparator + 'static,
    F: RandomAccessFile,
    P: FilterPolicy,
    Z: Compressor,
> BlockFunction for TableBlocks<C, F, P, Z> {
    type Iter = BlockIter<'static, C>;

    open spec fn blocks(&self) -> Blocks {
        table_blocks(self.table.order(), self.table.bytes(), self.table.zip(), self.verify)
    }

    open spec fn sure(&self) -> bool {
        self.table.reliable()
    }

    fn load(&self, handle: &[u8]) -> (loaded: status::Result<Self::Iter>) {
        let mut input: &[u8] = handle;
        let found = match BlockHandle::decode_from(&mut input) {
            Err(error) => {
                return Err(error);
            },
            Ok(found) => found,
        };
        match self.table.read_block(&found, self.verify) {
            Err(error) => Err(error),
            Ok(block) => {
                let iter = BlockIter::<'static, C>::from_shared(block, self.table.comparator_copy());
                proof {
                    iter.lemma_scan();
                }
                Ok(iter)
            },
        }
    }
}

/// Runs over a table. Only the index is in memory; blocks are read as they are
/// needed.
pub struct TableIterator<
    C: Comparator + 'static,
    F: RandomAccessFile = VecRandomAccessFile,
    P: FilterPolicy = BloomFilterPolicy,
    Z: Compressor = NoCompressor,
> {
    inner: TwoLevelIterator<BlockIter<'static, C>, TableBlocks<C, F, P, Z>>,
}

impl<
    C: Comparator + 'static,
    F: RandomAccessFile,
    P: FilterPolicy,
    Z: Compressor,
> TableIterator<C, F, P, Z> {
    /// What loads the blocks.
    pub closed spec fn blocks(&self) -> TableBlocks<C, F, P, Z> {
        self.inner.function()
    }

    /// The index.
    pub closed spec fn index(&self) -> Scan {
        self.inner.index()
    }

    /// Where the iterator stands nowhere, either the index is at its end or what went wrong
    /// is told.
    pub open spec fn tells(&self) -> bool {
        self.scan().current is None && self.index().current is Some ==> self.scan().failure is Some
    }

    pub fn new(table: Arc<Table<C, F, P, Z>>, verify: bool) -> (iter: Self)
        requires
            table.wf(),
        ensures
            iter.wf(),
            iter.blocks() == (TableBlocks { table, verify }),
            iter.index().same_source(block_scan(table.order(), table.index_image())),
            iter.scan().current is None,
            iter.scan().failure is None,
            iter.scan().alike(
                table_scan(
                    table.order(),
                    table.bytes(),
                    table.zip(),
                    table.index_image(),
                    verify,
                    true,
                ),
            ),
            table.reliable() && iter.scan().intact ==> iter.scan().steady,
    {
        let index_iter = table.index_iterator();
        proof {
            index_iter.lemma_scan();
        }
        let iter = TableIterator {
            inner: TwoLevelIterator::new(index_iter, TableBlocks { table, verify }),
        };
        proof {
            iter.lemma_scan();
            two_level_iter::lemma_same_joint(
                iter.blocks().blocks(),
                iter.index(),
                block_scan(table.order(), table.index_image()),
            );
        }
        iter
    }

    /// What the iterator runs over.
    pub proof fn lemma_scan(&self)
        ensures
            self.scan().contents == two_level_iter::all_blocks(
                self.blocks().blocks(),
                self.index().contents,
            ),
            self.scan().before == self.index().before,
            self.scan().admits == self.index().admits,
            self.scan().intact == two_level_iter::joint(self.blocks().blocks(), self.index()),
            self.scan().steady == two_level_iter::readable(
                self.blocks().blocks(),
                self.blocks().table.reliable(),
                self.index(),
            ),
    {
        self.inner.lemma_scan();
    }
}

impl<
    C: Comparator + 'static,
    F: RandomAccessFile,
    P: FilterPolicy,
    Z: Compressor,
> DbIterator for TableIterator<C, F, P, Z> {
    closed spec fn wf(&self) -> bool {
        self.inner.wf()
    }

    closed spec fn scan(&self) -> Scan {
        self.inner.scan()
    }

    fn valid(&self) -> (answer: bool) {
        self.inner.valid()
    }

    fn seek_to_first(&mut self)
        ensures
            final(self).tells(),
    {
        self.inner.seek_to_first();
    }

    fn seek_to_last(&mut self)
        ensures
            final(self).tells(),
    {
        self.inner.seek_to_last();
    }

    fn seek(&mut self, target: &[u8])
        ensures
            final(self).tells(),
    {
        self.inner.seek(target);
    }

    fn next(&mut self)
        ensures
            final(self).tells(),
    {
        self.inner.next();
    }

    fn prev(&mut self)
        ensures
            final(self).tells(),
    {
        self.inner.prev();
    }

    fn key(&self) -> (key: &[u8]) {
        self.inner.key()
    }

    fn value(&self) -> (value: &[u8]) {
        self.inner.value()
    }

    fn status(&self) -> (outcome: status::Result<()>) {
        self.inner.status()
    }
}

/// The keys and values behind some vectors.
pub open spec fn pair_views(entries: Seq<(Vec<u8>, Vec<u8>)>) -> Seq<db_iterator::Pair> {
    Seq::new(entries.len(), |i: int| (entries[i].0@, entries[i].1@))
}

/// All entries of a block.
fn block_entries<C: Comparator>(block: &Block, comparator: &C, out: &mut Vec<(Vec<u8>, Vec<u8>)>) -> (
    outcome: status::Result<()>)
    requires
        block.wf(),
    ensures
        pair_views(final(out)@) == pair_views(old(out)@) + data::all_of(block@).0,
        match data::all_of(block@).1 {
            None => outcome is Ok,
            Some(text) => outcome matches Err(error) && error.says(
                status::Code::Corruption,
                data::fault_text(text),
            ),
        },
        data::sound(block@, *comparator) ==> outcome is Ok && pair_views(final(out)@)
            == pair_views(old(out)@) + data::pairs(data::items_of(block@)),
{
    let ghost entries = data::pairs(data::items_of(block@));
    let ghost whole = data::sound(block@, *comparator);
    let ghost before = pair_views(out@);
    let ghost region = data::region(block@);
    let ghost all = data::all_of(block@);
    let mut iter = BlockIter::new(block, comparator::copy_of(comparator));
    proof {
        iter.lemma_scan();
    }
    iter.seek_to_first();
    let ghost mut count: int = 0;
    proof {
        if data::restart_count(block@) > 0 && data::restart_at(block@, 0) < region.len() {
            data::lemma_item_bounds(region, data::restart_at(block@, 0) as int, Seq::empty());
        }
        assert(before + all.0 =~= pair_views(out@) + all.0);
        if whole {
            db_iterator::lemma_on_first(iter.scan(), *comparator, entries);
            assert(pair_views(out@) =~= before + entries.take(0));
        }
    }
    while iter.valid()
        invariant
            iter.wf(),
            iter.image() == block@,
            region == data::region(block@),
            iter.scan().current matches Some(pair) ==> {
                let rest = data::walk_all(region, iter.next_offset(), iter.running_key());
                &&& 0 <= iter.next_offset() <= region.len()
                &&& before + all.0 == pair_views(out@) + (seq![pair] + rest.0)
                &&& all.1 == rest.1
                &&& iter.scan().failure is None
            },
            iter.scan().current is None ==> {
                &&& before + all.0 == pair_views(out@)
                &&& all.1 is None ==> iter.scan().failure is None
                &&& all.1 matches Some(text) ==> BlockIter::<C>::reports(
                    iter.scan().failure,
                    text,
                )
            },
            whole == data::sound(block@, *comparator),
            entries == data::pairs(data::items_of(block@)),
            whole ==> {
                &&& db_iterator::runs_over(iter.scan(), *comparator, entries)
                &&& iter.scan().intact
                &&& iter.scan().steady
                &&& 0 <= count <= entries.len()
                &&& iter.scan().current == db_iterator::pair_at(entries, count)
                &&& pair_views(out@) == before + entries.take(count)
            },
        decreases
            if iter.scan().current is Some {
                region.len() - iter.next_offset() + 1
            } else {
                0int
            },
    {
        let key = vstd::slice::slice_to_vec(iter.key());
        let value = vstd::slice::slice_to_vec(iter.value());
        let ghost earlier = pair_views(out@);
        let ghost place = iter.next_offset();
        let ghost running = iter.running_key();
        out.push((key, value));
        proof {
            assert(pair_views(out@) =~= earlier.push((key@, value@)));
            assert(earlier + (seq![(key@, value@)] + data::walk_all(region, place, running).0)
                =~= pair_views(out@) + data::walk_all(region, place, running).0);
            if place < region.len() {
                data::lemma_item_bounds(region, place, running);
            }
            if whole {
                assert(entries.take(count + 1) =~= entries.take(count).push(entries[count]));
                assert(pair_views(out@) =~= before + entries.take(count + 1));
            }
        }
        iter.next();
        proof {
            if iter.scan().current is None {
                assert(pair_views(out@) + Seq::<db_iterator::Pair>::empty() =~= pair_views(out@));
            }
            if whole {
                db_iterator::lemma_on_next(iter.scan(), *comparator, entries, count);
                count = count + 1;
            }
        }
    }
    proof {
        if whole {
            assert(count == entries.len());
            assert(entries.take(count) =~= entries);
        }
    }
    iter.status()
}

/// Whether all entries of a block can be read.
pub open spec fn readable(block: BlockFor) -> bool {
    match block {
        BlockFor::Entries(_) => true,
        BlockFor::Damaged(image) => data::all_of(image).1 is None,
        _ => false,
    }
}

/// The entries of a block.
pub open spec fn pairs_of(block: BlockFor) -> Seq<db_iterator::Pair> {
    match block {
        BlockFor::Entries(entries) => entries,
        BlockFor::Damaged(image) => data::all_of(image).0,
        _ => Seq::empty(),
    }
}

impl<C: Comparator, F: RandomAccessFile, P: FilterPolicy, Z: Compressor> Table<C, F, P, Z> {
    /// The entries of the first blocks, where these can be read.
    pub open spec fn entries_upto(&self, count: int, verify: bool) -> Seq<db_iterator::Pair>
        decreases count,
    {
        if count <= 0 {
            Seq::empty()
        } else {
            self.entries_upto(count - 1, verify) + pairs_of(self.block_at(count - 1, verify))
        }
    }

    /// Whether the first blocks can be read.
    pub open spec fn reads_upto(&self, count: int, verify: bool) -> bool {
        forall|i: int| 0 <= i < count ==> readable(#[trigger] self.block_at(i, verify))
    }

    /// All entries of the table. The blocks are read from the file, each once.
    pub fn collect_entries(&self) -> (collected: status::Result<Vec<(Vec<u8>, Vec<u8>)>>)
        requires
            self.wf(),
        ensures
            data::all_of(self.index_image()).1 is Some ==> collected is Err,
            self.reliable() || collected is Ok ==> self.collected_is(true, collected),
    {
        self.collect_entries_verify(true)
    }

    /// What collecting all entries returns: the entries of all blocks, or what is
    /// wrong with the first block that cannot be read, or else with the index.
    pub open spec fn collected_is(
        &self,
        verify: bool,
        collected: status::Result<Vec<(Vec<u8>, Vec<u8>)>>,
    ) -> bool {
        let count = self.walked().len() as int;
        &&& self.reads_upto(count, verify) ==> match data::all_of(self.index_image()).1 {
            None => collected matches Ok(all) && pair_views(all@) == self.entries_upto(
                count,
                verify,
            ),
            Some(text) => collected matches Err(error) && error.says(
                status::Code::Corruption,
                data::fault_text(text),
            ),
        }
        &&& forall|bad: int|
            0 <= bad < count && self.reads_upto(bad, verify) ==> match #[trigger] self.block_at(
                bad,
                verify,
            ) {
                BlockFor::Corrupt(text) => collected matches Err(error) && error.says(
                    status::Code::Corruption,
                    text,
                ),
                BlockFor::OutOfFile => collected is Err,
                BlockFor::Malformed => collected matches Err(error) && error.kind()
                    == status::Code::Corruption,
                BlockFor::Damaged(image) => data::all_of(image).1 matches Some(text) ==> (
                collected matches Err(error) && error.says(
                    status::Code::Corruption,
                    data::fault_text(text),
                )),
                BlockFor::Entries(_) | BlockFor::Nothing => true,
            }
    }

    /// All entries of the table. With `verify` the checksums of the blocks are
    /// checked.
    #[verifier::spinoff_prover]
    #[verifier::rlimit(40)]
    pub fn collect_entries_verify(&self, verify: bool) -> (collected: status::Result<
        Vec<(Vec<u8>, Vec<u8>)>,
    >)
        requires
            self.wf(),
        ensures
            data::all_of(self.index_image()).1 is Some ==> collected is Err,
            self.reliable() || collected is Ok ==> self.collected_is(verify, collected),
    {
        let ghost walked = self.walked();
        let ghost fault = data::all_of(self.index_image()).1;
        let ghost region = data::region(self.index_image());
        let mut entries: Vec<(Vec<u8>, Vec<u8>)> = Vec::new();
        let mut index_iter = self.index_iterator();
        let own = self.comparator_copy();
        proof {
            index_iter.lemma_scan();
        }
        index_iter.seek_to_first();
        let ghost mut count: int = 0;
        proof {
            let first = data::restart_at(self.index_image(), 0) as int;
            if data::restart_count(self.index_image()) > 0 && first < region.len() {
                data::lemma_item_bounds(region, first, Seq::empty());
            }
            assert(walked =~= walked.take(0) + walked);
            assert(pair_views(entries@) =~= Seq::<db_iterator::Pair>::empty());
        }
        while index_iter.valid()
            invariant
                self.wf(),
                own == self.order(),
                walked == self.walked(),
                fault == data::all_of(self.index_image()).1,
                index_iter.wf(),
                index_iter.image() == self.index_image(),
                region == data::region(self.index_image()),
                0 <= count <= walked.len(),
                index_iter.scan().current matches Some(pair) ==> {
                    let rest = data::walk_all(
                        region,
                        index_iter.next_offset(),
                        index_iter.running_key(),
                    );
                    &&& 0 <= index_iter.next_offset() <= region.len()
                    &&& walked == walked.take(count) + (seq![pair] + rest.0)
                    &&& fault == rest.1
                    &&& index_iter.scan().failure is None
                },
                index_iter.scan().current is None ==> {
                    &&& count == walked.len()
                    &&& fault is None ==> index_iter.scan().failure is None
                    &&& fault matches Some(text) ==> BlockIter::<C>::reports(
                        index_iter.scan().failure,
                        text,
                    )
                },
                self.reads_upto(count, verify),
                pair_views(entries@) == self.entries_upto(count, verify),
            decreases
                if index_iter.scan().current is Some {
                    region.len() - index_iter.next_offset() + 1
                } else {
                    0int
                },
        {
            let ghost pair = index_iter.scan().current->0;
            let ghost place = index_iter.next_offset();
            let ghost rest = data::walk_all(region, place, index_iter.running_key());
            proof {
                if place < region.len() {
                    data::lemma_item_bounds(region, place, index_iter.running_key());
                }
                assert(walked[count] == (walked.take(count) + (seq![pair] + rest.0))[count]);
            }
            let mut handle_bytes: &[u8] = index_iter.value();
            let handle = match BlockHandle::decode_from(&mut handle_bytes) {
                Err(error) => {
                    proof {
                        assert(self.block_at(count, verify) is Corrupt);
                        self.lemma_first_bad(count, verify);
                    }
                    return Err(error);
                },
                Ok(handle) => handle,
            };
            let block = match self.read_block(&handle, verify) {
                Err(error) => {
                    proof {
                        if self.reliable() {
                            self.lemma_first_bad(count, verify);
                        }
                    }
                    return Err(error);
                },
                Ok(block) => block,
            };
            proof {
                block.lemma_is_block();
            }
            match block_entries(&*block, &own, &mut entries) {
                Err(error) => {
                    proof {
                        assert(!readable(self.block_at(count, verify)));
                        self.lemma_first_bad(count, verify);
                    }
                    return Err(error);
                },
                Ok(_) => {},
            }
            index_iter.next();
            proof {
                assert(readable(self.block_at(count, verify)));
                assert(walked =~= walked.take(count + 1) + rest.0);
                count = count + 1;
            }
        }
        match index_iter.status() {
            Err(error) => Err(error),
            Ok(_) => Ok(entries),
        }
    }

    /// A block that cannot be read is the first such one if those in front of it
    /// can be.
    proof fn lemma_first_bad(&self, bad: int, verify: bool)
        requires
            0 <= bad < self.walked().len(),
            !readable(self.block_at(bad, verify)),
            self.reads_upto(bad, verify),
        ensures
            !self.reads_upto(self.walked().len() as int, verify),
            forall|other: int|
                0 <= other < self.walked().len() && self.reads_upto(other, verify) && other != bad
                    ==> readable(#[trigger] self.block_at(other, verify)),
    {
        assert forall|other: int|
            0 <= other < self.walked().len() && self.reads_upto(other, verify) && other
                != bad implies readable(#[trigger] self.block_at(other, verify)) by {
            if other > bad {
                assert(readable(self.block_at(bad, verify)));
            }
        }
    }
}

impl<
    C: Comparator + 'static,
    F: RandomAccessFile,
    P: FilterPolicy,
    Z: Compressor,
> Table<C, F, P, Z> {
    /// An iterator that checks the checksums of the blocks that it reads.
    pub fn new_iterator(self) -> (iter: status::Result<TableIterator<C, F, P, Z>>)
        requires
            self.wf(),
        ensures
            iter matches Ok(it) && it.wf() && it.scan().current is None && it.blocks() == (
            TableBlocks { table: Arc::new(self), verify: true }) && it.index().same_source(
                block_scan(self.order(), self.index_image()),
            ),
    {
        self.new_iterator_verify(true)
    }

    /// An iterator. With `verify` it checks the checksums of the blocks that it
    /// reads.
    pub fn new_iterator_verify(self, verify: bool) -> (iter: status::Result<
        TableIterator<C, F, P, Z>,
    >)
        requires
            self.wf(),
        ensures
            iter matches Ok(it) && it.wf() && it.scan().current is None && it.blocks() == (
            TableBlocks { table: Arc::new(self), verify }) && it.index().same_source(
                block_scan(self.order(), self.index_image()),
            ),
    {
        Ok(TableIterator::new(Arc::new(self), verify))
    }
}

/// An iterator over a finished table runs over all entries that were added.
#[verifier::spinoff_prover]
#[verifier::rlimit(60)]
pub proof fn law_table_scan<
    C: Comparator + 'static,
    F: RandomAccessFile,
    P: FilterPolicy,
    Z: Compressor,
>(recipe: Recipe<C, P, Z>, draft: Draft, iter: TableIterator<C, F, P, Z>)
    requires
        draft::finished_well(recipe, draft),
        laws::fits(recipe, draft),
        draft.entries().len() <= u64::MAX,
        iter.blocks().table.bytes() == recipe.finished(draft).image,
        iter.blocks().table.order() == recipe.comparator,
        iter.blocks().table.zip() == recipe.compressor,
        iter.index().same_source(
            block_scan(
                recipe.comparator,
                block_builder::block_image(recipe.finished(draft).index, 1),
            ),
        ),
    ensures
        iter.scan().intact,
        iter.blocks().table.reliable() ==> iter.scan().steady,
        iter.scan().contents == db_iterator::map_of(draft.entries()),
        iter.scan().before == comparator::order_of(recipe.comparator),
        iter.scan().admits == comparator::domain_of(recipe.comparator),
        db_iterator::in_a_row(iter.scan()),
{
    let blocks = recipe.flushed(draft).blocks;
    let index = recipe.finished(draft).index;
    let comparator = recipe.comparator;
    let function = iter.blocks().blocks();
    let verify = iter.blocks().verify;
    let scan = iter.index();
    let image = recipe.finished(draft).image;
    laws::law_finished_opens(recipe, draft);
    laws::lemma_joined_sorted(comparator, index, blocks);
    draft::lemma_index_sorted(comparator, index, blocks);
    iter.lemma_scan();
    assert(scan.contents == db_iterator::map_of(index));
    data::lemma_item_count(block_builder::block_image(index, 1), comparator);
    db_iterator::lemma_sorted_row(scan, comparator, index);
    assert forall|i: int| 0 <= i < index.len() implies behind_is(
        function,
        comparator,
        #[trigger] index[i],
        blocks[i],
    ) by {
        assert(laws::either(verify));
        assert(laws::leads_to(recipe, image, index[i].1, verify, blocks[i]));
    }
    lemma_joint(function, comparator, scan, index, blocks);
    lemma_same_contents(function, comparator, scan, index, blocks);
    assert(db_iterator::runs_over(iter.scan(), comparator, draft.entries()));
    db_iterator::lemma_sorted_row(iter.scan(), comparator, draft.entries());
}

/// What is behind an entry of the index is a sound block with the given entries.
pub open spec fn behind_is<C: Comparator>(
    function: Blocks,
    comparator: C,
    entry: db_iterator::Pair,
    block: Seq<db_iterator::Pair>,
) -> bool {
    (function.source)(entry.1) matches Some(source) && {
        &&& source.intact
        &&& source.before == comparator::order_of(comparator)
        &&& source.admits == comparator::domain_of(comparator)
        &&& source.contents == db_iterator::map_of(block)
    }
}

/// An index whose keys part sound blocks fits them.
pub proof fn lemma_joint<C: Comparator>(
    function: Blocks,
    comparator: C,
    scan: Scan,
    index: Seq<db_iterator::Pair>,
    blocks: Seq<Seq<db_iterator::Pair>>,
)
    requires
        draft::parted(comparator, index, blocks),
        index.len() == blocks.len(),
        scan.intact,
        db_iterator::in_a_row(scan),
        db_iterator::runs_over(scan, comparator, index),
        scan.admits == comparator::domain_of(comparator),
        function.domain == scan.admits,
        forall|i: int|
            0 <= i < index.len() ==> behind_is(
                function,
                comparator,
                #[trigger] index[i],
                blocks[i],
            ),
    ensures
        two_level_iter::joint(function, scan),
{
    assert forall|place: Seq<u8>| #[trigger] scan.contents.contains_key(place) implies {
        let source = two_level_iter::behind_entry(function, scan.contents, place);
        &&& (function.source)(scan.contents[place]) is Some
        &&& source.intact
        &&& source.before == scan.before
        &&& source.admits == scan.admits
    } by {
        let i = choose|i: int| 0 <= i < index.len() && #[trigger] index[i].0 == place;
        db_iterator::lemma_map_of(comparator, index, i);
        assert(behind_is(function, comparator, index[i], blocks[i]));
    }
    assert forall|place: Seq<u8>, key: Seq<u8>| #[trigger]
        two_level_iter::lies_behind(function, scan.contents, place, key) implies (scan.admits)(key)
        && !(scan.before)(place, key) by {
        let i = choose|i: int| 0 <= i < index.len() && #[trigger] index[i].0 == place;
        db_iterator::lemma_map_of(comparator, index, i);
        assert(behind_is(function, comparator, index[i], blocks[i]));
        assert(db_iterator::has_key(blocks[i], key));
        let k = choose|k: int| 0 <= k < blocks[i].len() && #[trigger] blocks[i][k].0 == key;
        assert(blocks[i].len() > 0);
        assert(draft::keys_under(comparator, index[i].0, blocks[i]));
    }
    assert forall|first: Seq<u8>, second: Seq<u8>, key: Seq<u8>|
        #![trigger scan.contents.contains_key(first), two_level_iter::lies_behind(function, scan.contents, second, key)]
        scan.contents.contains_key(first) && two_level_iter::lies_behind(
            function,
            scan.contents,
            second,
            key,
        ) && (scan.before)(first, second) implies (scan.before)(first, key) by {
        let i = choose|i: int| 0 <= i < index.len() && #[trigger] index[i].0 == first;
        let j = choose|j: int| 0 <= j < index.len() && #[trigger] index[j].0 == second;
        db_iterator::lemma_map_of(comparator, index, j);
        assert(behind_is(function, comparator, index[j], blocks[j]));
        assert(db_iterator::has_key(blocks[j], key));
        let k = choose|k: int| 0 <= k < blocks[j].len() && #[trigger] blocks[j][k].0 == key;
        if j <= i {
            db_iterator::lemma_sorted_order(comparator, index, j, i);
        }
        assert(draft::keys_over(comparator, index[i].0, blocks[j]));
    }
}

/// The entries of all blocks are those of the blocks one behind the other.
pub proof fn lemma_same_contents<C: Comparator>(
    function: Blocks,
    comparator: C,
    scan: Scan,
    index: Seq<db_iterator::Pair>,
    blocks: Seq<Seq<db_iterator::Pair>>,
)
    requires
        draft::parted(comparator, index, blocks),
        index.len() == blocks.len(),
        db_iterator::runs_over(scan, comparator, index),
        two_level_iter::joint(function, scan),
        forall|i: int|
            0 <= i < index.len() ==> behind_is(
                function,
                comparator,
                #[trigger] index[i],
                blocks[i],
            ),
    ensures
        two_level_iter::all_blocks(function, scan.contents) == db_iterator::map_of(
            draft::joined(blocks),
        ),
{
    let all = draft::joined(blocks);
    let left = two_level_iter::all_blocks(function, scan.contents);
    let right = db_iterator::map_of(all);
    laws::lemma_joined_sorted(comparator, index, blocks);
    assert forall|key: Seq<u8>| #[trigger] left.contains_key(key) implies right.contains_key(key)
        && right[key] == left[key] by {
        let place = choose|place: Seq<u8>|
            two_level_iter::lies_behind(function, scan.contents, place, key);
        let i = choose|i: int| 0 <= i < index.len() && #[trigger] index[i].0 == place;
        db_iterator::lemma_map_of(comparator, index, i);
        assert(behind_is(function, comparator, index[i], blocks[i]));
        assert(db_iterator::has_key(blocks[i], key));
        let k = choose|k: int| 0 <= k < blocks[i].len() && #[trigger] blocks[i][k].0 == key;
        assert(blocks[i].len() > 0);
        db_iterator::lemma_map_of(comparator, blocks[i], k);
        laws::lemma_block_in_joined(blocks, i, k);
        db_iterator::lemma_map_of(comparator, all, laws::start_of(blocks, i) + k);
        two_level_iter::lemma_one_block(function, scan, place, key);
    }
    assert forall|key: Seq<u8>| #[trigger] right.contains_key(key) implies left.contains_key(
        key,
    ) by {
        assert(db_iterator::has_key(all, key));
        let a = choose|a: int| 0 <= a < all.len() && #[trigger] all[a].0 == key;
        let (i, k) = laws::lemma_joined_in_block(blocks, a);
        assert(blocks[i].len() > 0);
        db_iterator::lemma_map_of(comparator, blocks[i], k);
        db_iterator::lemma_map_of(comparator, index, i);
        assert(behind_is(function, comparator, index[i], blocks[i]));
        assert(two_level_iter::lies_behind(function, scan.contents, index[i].0, key));
        assert(two_level_iter::lies_somewhere(function, scan.contents, key));
    }
    assert(left =~= right);
}

} // verus!
