//! Builders of tables.

use vstd::prelude::*;

use std::sync::Arc;

use crate::block::block_builder::BlockBuilder;
use crate::block::BlockHandle;
use crate::comparator;
use crate::comparator::Comparator;
use crate::db_iter::db_iterator;
use crate::env::MemWritableFile;
use crate::env::WritableFile;
use crate::filter::BloomFilterPolicy;
use crate::filter::FilterPolicy;
use crate::filter::InternalFilterPolicy;
use crate::filter_block;
use crate::filter_block::FilterBlockBuilder;
use crate::status;
use crate::table::draft;
use crate::table::draft::Draft;
use crate::table::draft::Recipe;
use crate::table::stored_block;
use crate::table::stored_block::Compressor;
use crate::table::stored_block::NoCompressor;
use crate::table::table_footer;
use crate::table::table_footer::TableFooter;
use crate::text;

verus! {

pub const DEFAULT_BLOCK_SIZE: usize = 4096;

pub const DEFAULT_BLOCK_RESTART_INTERVAL: usize = 16;

/// Another handle on the same value.
pub fn share<T>(value: &Arc<T>) -> (copy: Arc<T>)
    ensures
        copy == *value,
{
    Arc::clone(value)
}

/// Another handle on the same value, if there is one.
pub fn share_option<T>(value: &Option<Arc<T>>) -> (copy: Option<Arc<T>>)
    ensures
        copy == *value,
{
    match value {
        None => None,
        Some(inner) => Some(share(inner)),
    }
}

/// Writes a table to a file: data blocks with restart points, the filter block
/// where there is a filter policy, the metaindex block, the index block and the
/// footer. Blocks are written as soon as they are complete.
pub struct TableFileBuilder<
    C: Comparator,
    W: WritableFile,
    P: FilterPolicy = BloomFilterPolicy,
    Z: Compressor = NoCompressor,
> {
    recipe: Recipe<C, P, Z>,
    file: W,
    offset: u64,
    data_block: BlockBuilder<C>,
    /// Every entry of the index is a restart point.
    index_block: BlockBuilder<C>,
    last_key: Vec<u8>,
    num_entries: u64,
    closed: bool,
    pending_index_entry: bool,
    pending_handle: BlockHandle,
    filter_block: Option<FilterBlockBuilder<InternalFilterPolicy<Arc<P>>>>,
    state: Ghost<Draft>,
    /// What was in the file before.
    base: Ghost<Seq<u8>>,
}

impl<C: Comparator, W: WritableFile, P: FilterPolicy, Z: Compressor> TableFileBuilder<C, W, P, Z> {
    /// How the table is built.
    pub closed spec fn recipe(&self) -> Recipe<C, P, Z> {
        self.recipe
    }

    /// What was built so far.
    pub closed spec fn draft(&self) -> Draft {
        self.state@
    }

    /// The file that is written.
    pub closed spec fn sink(&self) -> W {
        self.file
    }

    /// What was in the file before the table.
    pub closed spec fn prefix(&self) -> Seq<u8> {
        self.base@
    }

    /// Whether the table was finished.
    pub closed spec fn is_closed(&self) -> bool {
        self.closed
    }

    /// How many entries were added.
    pub closed spec fn counted(&self) -> nat {
        self.num_entries as nat
    }

    /// The size of the table so far.
    pub closed spec fn size(&self) -> nat {
        self.offset as nat
    }

    /// The file holds what was built, and the open blocks hold the rest.
    pub closed spec fn wf(&self) -> bool {
        let draft = self.state@;
        &&& self.recipe.sound(draft)
        &&& draft.ready()
        &&& self.file.written() == self.base@ + draft.written
        &&& self.offset == draft.written.len()
        &&& self.data_block.wf()
        &&& !self.data_block.is_finished()
        &&& self.data_block.order() == self.recipe.comparator
        &&& self.data_block.interval() == self.recipe.interval
        &&& self.data_block.entries() == draft.open
        &&& self.index_block.wf()
        &&& !self.index_block.is_finished()
        &&& self.index_block.order() == self.recipe.comparator
        &&& self.index_block.interval() == 1
        &&& self.index_block.entries() == draft.index
        &&& self.last_key@ == draft.last_key()
        &&& self.num_entries == draft.entries().len()
        &&& self.pending_index_entry == draft.pending()
        &&& draft.pending() ==> self.pending_handle == draft.handles.last()
        &&& !self.closed
        &&& match self.filter_block {
            None => self.recipe.policy is None,
            Some(block) => {
                &&& self.recipe.policy matches Some(policy) && block.filter_policy()
                    == draft::table_policy(policy)
                &&& block.wf()
                &&& block.groups() == draft.groups
                &&& block.pending() == draft.waiting
            },
        }
    }

    /// What was built is sound.
    pub proof fn lemma_wf(&self)
        requires
            self.wf(),
        ensures
            self.recipe().sound(self.draft()),
            self.draft().ready(),
            self.sink().written() == self.prefix() + self.draft().written,
            self.size() == self.draft().written.len(),
            !self.is_closed(),
    {
    }

    pub fn new(comparator: C, block_size: usize, restart_interval: usize, file: W) -> (builder: Self)
        requires
            restart_interval >= 1,
        ensures
            builder.wf(),
            builder.draft() == Draft::blank(),
            builder.sink() == file,
            builder.prefix() == file.written(),
            builder.recipe() == (Recipe {
                comparator,
                block_size,
                interval: restart_interval,
                policy: None::<Arc<P>>,
                compressor: None::<Arc<Z>>,
            }),
    {
        Self::with_filter(comparator, block_size, restart_interval, file, None)
    }

    pub fn with_defaults(comparator: C, file: W) -> (builder: Self)
        ensures
            builder.wf(),
            builder.draft() == Draft::blank(),
            builder.sink() == file,
            builder.prefix() == file.written(),
            builder.recipe() == (Recipe {
                comparator,
                block_size: 4096,
                interval: 16,
                policy: None::<Arc<P>>,
                compressor: None::<Arc<Z>>,
            }),
    {
        Self::new(comparator, DEFAULT_BLOCK_SIZE, DEFAULT_BLOCK_RESTART_INTERVAL, file)
    }

    /// A builder that makes filters by the given policy.
    pub fn with_filter(
        comparator: C,
        block_size: usize,
        restart_interval: usize,
        file: W,
        filter_policy: Option<Arc<P>>,
    ) -> (builder: Self)
        requires
            restart_interval >= 1,
        ensures
            builder.wf(),
            builder.draft() == Draft::blank(),
            builder.sink() == file,
            builder.prefix() == file.written(),
            builder.recipe() == (Recipe {
                comparator,
                block_size,
                interval: restart_interval,
                policy: filter_policy,
                compressor: None::<Arc<Z>>,
            }),
    {
        Self::with_options(comparator, block_size, restart_interval, file, filter_policy, None)
    }

    /// A builder that makes filters and compresses blocks.
    pub fn with_options(
        comparator: C,
        block_size: usize,
        restart_interval: usize,
        file: W,
        filter_policy: Option<Arc<P>>,
        compressor: Option<Arc<Z>>,
    ) -> (builder: Self)
        requires
            restart_interval >= 1,
        ensures
            builder.wf(),
            builder.draft() == Draft::blank(),
            builder.sink() == file,
            builder.prefix() == file.written(),
            builder.recipe() == (Recipe {
                comparator,
                block_size,
                interval: restart_interval,
                policy: filter_policy,
                compressor,
            }),
    {
        let filter_block = match &filter_policy {
            None => None,
            Some(policy) => {
                let mut block = FilterBlockBuilder::new(InternalFilterPolicy::new(share(policy)));
                block.start_block(0);
                Some(block)
            },
        };
        let data_block = BlockBuilder::new(comparator::copy_of(&comparator), restart_interval);
        let index_block = BlockBuilder::new(comparator::copy_of(&comparator), 1);
        let builder = TableFileBuilder {
            recipe: Recipe {
                comparator,
                block_size,
                interval: restart_interval,
                policy: filter_policy,
                compressor,
            },
            offset: 0,
            data_block,
            index_block,
            last_key: Vec::new(),
            num_entries: 0,
            closed: false,
            pending_index_entry: false,
            pending_handle: BlockHandle::default(),
            filter_block,
            state: Ghost(Draft::blank()),
            base: Ghost(file.written()),
            file,
        };
        proof {
            assert(builder.file.written() =~= builder.base@ + builder.state@.written);
            assert(builder.last_key@ =~= builder.state@.last_key());
        }
        builder
    }

    /// A builder with filters and the default sizes.
    pub fn with_defaults_and_filter(
        comparator: C,
        file: W,
        filter_policy: Option<Arc<P>>,
    ) -> (builder: Self)
        ensures
            builder.wf(),
            builder.draft() == Draft::blank(),
            builder.sink() == file,
            builder.prefix() == file.written(),
            builder.recipe() == (Recipe {
                comparator,
                block_size: 4096,
                interval: 16,
                policy: filter_policy,
                compressor: None::<Arc<Z>>,
            }),
    {
        Self::with_filter(
            comparator,
            DEFAULT_BLOCK_SIZE,
            DEFAULT_BLOCK_RESTART_INTERVAL,
            file,
            filter_policy,
        )
    }

    /// A builder with filters, a compressor and the default sizes.
    pub fn with_defaults_filter_and_compressor(
        comparator: C,
        file: W,
        filter_policy: Option<Arc<P>>,
        compressor: Option<Arc<Z>>,
    ) -> (builder: Self)
        ensures
            builder.wf(),
            builder.draft() == Draft::blank(),
            builder.sink() == file,
            builder.prefix() == file.written(),
            builder.recipe() == (Recipe {
                comparator,
                block_size: 4096,
                interval: 16,
                policy: filter_policy,
                compressor,
            }),
    {
        Self::with_options(
            comparator,
            DEFAULT_BLOCK_SIZE,
            DEFAULT_BLOCK_RESTART_INTERVAL,
            file,
            filter_policy,
            compressor,
        )
    }

    /// How many entries were added.
    pub fn num_entries(&self) -> (count: u64)
        ensures
            count == self.counted(),
            self.wf() ==> count == self.draft().entries().len(),
    {
        self.num_entries
    }

    /// How many bytes were written.
    pub fn file_size(&self) -> (size: u64)
        ensures
            size == self.size(),
    {
        self.offset
    }

    /// Adds an entry behind all others.
    #[verifier::spinoff_prover]
    #[verifier::rlimit(40)]
    pub fn add(&mut self, key: &[u8], value: &[u8]) -> (outcome: status::Result<()>)
        requires
            old(self).wf(),
            old(self).recipe().comparator.admits(key@),
            old(self).draft().entries().len() > 0 ==> old(self).recipe().comparator.less(
                old(self).draft().last_key(),
                key@,
            ),
            old(self).draft().entries().len() < u64::MAX,
        ensures
            final(self).recipe() == old(self).recipe(),
            final(self).prefix() == old(self).prefix(),
            outcome is Ok ==> {
                &&& final(self).wf()
                &&& final(self).draft() == old(self).recipe().added(
                    old(self).draft(),
                    key@,
                    value@,
                )
                &&& final(self).draft().entries() == old(self).draft().entries().push((key@, value@))
                &&& final(self).sink().reliable() == old(self).sink().reliable()
            },
            old(self).sink().reliable() ==> outcome is Ok,
    {
        let ghost before = self.state@;
        let ghost more = self.recipe.with_entry(before, key@, value@);
        proof {
            draft::lemma_joined_len(before.blocks);
            if before.blocks.len() > 0 {
                assert(before.blocks[0].len() > 0);
            }
            draft::lemma_opened(self.recipe, before, key@, value@);
        }
        if self.pending_index_entry {
            self.recipe.comparator.find_shortest_separator(&mut self.last_key, key);
            let mut handle_bytes: Vec<u8> = Vec::new();
            self.pending_handle.encode(&mut handle_bytes);
            assert(handle_bytes@ =~= before.handles.last().encoded());
            self.index_block.add(self.last_key.as_slice(), handle_bytes.as_slice());
            self.pending_index_entry = false;
        }
        match &mut self.filter_block {
            None => {},
            Some(block) => {
                block.add_key(key);
            },
        }
        self.last_key.clear();
        self.last_key.extend_from_slice(key);
        assert(self.last_key@ =~= key@);
        self.num_entries = self.num_entries + 1;
        self.data_block.add(key, value);
        proof {
            self.state@ = more;
        }
        if self.data_block.reaches(self.recipe.block_size) {
            return self.flush();
        }
        Ok(())
    }

    /// Closes the open data block and writes it.
    #[verifier::spinoff_prover]
    #[verifier::rlimit(40)]
    fn flush(&mut self) -> (outcome: status::Result<()>)
        requires
            old(self).wf(),
        ensures
            final(self).recipe == old(self).recipe,
            final(self).base == old(self).base,
            outcome is Ok ==> {
                &&& final(self).wf()
                &&& final(self).state@ == old(self).recipe.flushed(old(self).state@)
                &&& final(self).state@.entries() == old(self).state@.entries()
                &&& final(self).file.reliable() == old(self).file.reliable()
            },
            old(self).file.reliable() ==> outcome is Ok,
    {
        if self.data_block.empty() {
            return Ok(());
        }
        let ghost before = self.state@;
        let ghost image = self.recipe.block_image(before.open);
        let block_bytes = vstd::slice::slice_to_vec(self.data_block.finish());
        let handle = match self.write_block(block_bytes.as_slice()) {
            Err(error) => {
                return Err(error);
            },
            Ok(handle) => handle,
        };
        proof {
            draft::lemma_flushed(self.recipe, before);
        }
        self.data_block.reset();
        self.pending_handle = handle;
        self.pending_index_entry = true;
        match &mut self.filter_block {
            None => {},
            Some(block) => {
                block.start_block(self.offset);
            },
        }
        proof {
            self.state@ = self.recipe.flushed(before);
            assert(self.file.written() =~= self.base@ + self.state@.written);
        }
        Ok(())
    }

    /// Stores a block and says where it lies.
    fn write_block(&mut self, block_data: &[u8]) -> (written: status::Result<BlockHandle>)
        requires
            old(self).offset <= old(self).file.written().len(),
        ensures
            *final(self) == (TableFileBuilder {
                file: final(self).file,
                offset: final(self).offset,
                ..*old(self)
            }),
            written matches Ok(handle) ==> {
                let stored = stored_block::stored(old(self).recipe.compressor, block_data@);
                let body = stored_block::body_of(old(self).recipe.compressor, block_data@).1;
                &&& final(self).file.written() == old(self).file.written() + stored
                &&& final(self).offset == old(self).offset + stored.len()
                &&& final(self).file.reliable() == old(self).file.reliable()
                &&& handle.offset == old(self).offset
                &&& handle.size == body.len()
                &&& body.len() + 5 <= usize::MAX
                &&& stored.len() == body.len() + 5
                &&& stored_block::restores(old(self).recipe.compressor, block_data@)
            },
            old(self).file.reliable() ==> written is Ok,
    {
        let (encoded, size) = stored_block::encode_stored(&self.recipe.compressor, block_data);
        let offset = self.offset;
        match self.file.append(encoded.as_slice()) {
            Err(error) => {
                return Err(error);
            },
            Ok(_) => {},
        }
        self.offset = self.offset + encoded.len() as u64;
        Ok(BlockHandle { offset, size: size as u64 })
    }

    /// Writes what a table ends with. The builder is of no further use then, but
    /// for syncing and closing the file.
    #[verifier::spinoff_prover]
    #[verifier::rlimit(60)]
    pub fn finish(&mut self) -> (outcome: status::Result<()>)
        requires
            old(self).wf(),
        ensures
            final(self).recipe() == old(self).recipe(),
            final(self).prefix() == old(self).prefix(),
            outcome is Ok ==> {
                &&& final(self).is_closed()
                &&& final(self).counted() == old(self).draft().entries().len()
                &&& final(self).sink().written() == old(self).prefix()
                    + old(self).recipe().finished(old(self).draft()).image
                &&& final(self).size() == old(self).recipe().finished(
                    old(self).draft(),
                ).image.len()
                &&& final(self).draft() == old(self).recipe().flushed(old(self).draft())
                &&& final(self).draft().entries() == old(self).draft().entries()
                &&& draft::finished_well(old(self).recipe(), old(self).draft())
                &&& final(self).sink().reliable() == old(self).sink().reliable()
            },
            old(self).sink().reliable() ==> outcome is Ok,
    {
        let ghost recipe = self.recipe;
        let ghost done = recipe.finished(self.state@);
        match self.flush() {
            Err(error) => {
                return Err(error);
            },
            Ok(_) => {},
        }
        let ghost last = self.state@;
        let ghost base = self.base@;
        proof {
            assert(base + last.written + Seq::<u8>::empty() =~= self.file.written());
        }
        let filter_handle: Option<BlockHandle> = match self.finish_filter() {
            Err(error) => {
                return Err(error);
            },
            Ok(handle) => handle,
        };
        assert(self.file.written() =~= base + done.with_filter);
        let mut metaindex = BlockBuilder::new(comparator::copy_of(&self.recipe.comparator), 1);
        match (&filter_handle, &self.recipe.policy) {
            (Some(handle), Some(policy)) => {
                let key = text::joined("filter.", policy.name());
                let mut handle_bytes: Vec<u8> = Vec::new();
                handle.encode(&mut handle_bytes);
                assert(handle_bytes@ =~= handle.encoded());
                metaindex.add(key.as_str().as_bytes(), handle_bytes.as_slice());
            },
            _ => {},
        }
        assert(metaindex.entries() =~= done.metaindex);
        let metaindex_bytes = vstd::slice::slice_to_vec(metaindex.finish());
        let metaindex_handle = match self.write_block(metaindex_bytes.as_slice()) {
            Err(error) => {
                return Err(error);
            },
            Ok(handle) => handle,
        };
        assert(self.file.written() =~= base + done.with_metaindex);
        if self.pending_index_entry {
            proof {
                draft::lemma_successor(recipe, last);
            }
            self.recipe.comparator.find_short_successor(&mut self.last_key);
            let mut handle_bytes: Vec<u8> = Vec::new();
            self.pending_handle.encode(&mut handle_bytes);
            assert(handle_bytes@ =~= last.handles.last().encoded());
            self.index_block.add(self.last_key.as_slice(), handle_bytes.as_slice());
            self.pending_index_entry = false;
        }
        assert(self.index_block.entries() =~= done.index);
        let index_bytes = vstd::slice::slice_to_vec(self.index_block.finish());
        let index_handle = match self.write_block(index_bytes.as_slice()) {
            Err(error) => {
                return Err(error);
            },
            Ok(handle) => handle,
        };
        assert(self.file.written() =~= base + done.with_index);
        let footer = TableFooter { metaindex: metaindex_handle, index: index_handle };
        let mut footer_bytes: Vec<u8> = Vec::new();
        footer.encode(&mut footer_bytes);
        assert(footer_bytes@ =~= footer.encoded());
        proof {
            table_footer::law_footer_round_trip(footer);
        }
        match self.file.append(footer_bytes.as_slice()) {
            Err(error) => {
                return Err(error);
            },
            Ok(_) => {},
        }
        self.offset = self.offset + footer_bytes.len() as u64;
        assert(footer == done.footer);
        assert(self.file.written() =~= base + done.image);
        match self.file.flush() {
            Err(error) => {
                return Err(error);
            },
            Ok(_) => {},
        }
        self.closed = true;
        Ok(())
    }

    /// Writes the filter block, where there is a filter policy.
    fn finish_filter(&mut self) -> (written: status::Result<Option<BlockHandle>>)
        requires
            old(self).wf(),
        ensures
            final(self).recipe == old(self).recipe,
            final(self).base == old(self).base,
            final(self).data_block == old(self).data_block,
            final(self).index_block == old(self).index_block,
            final(self).last_key == old(self).last_key,
            final(self).pending_index_entry == old(self).pending_index_entry,
            final(self).pending_handle == old(self).pending_handle,
            final(self).state == old(self).state,
            final(self).num_entries == old(self).num_entries,
            written matches Ok(found) ==> {
                let last = old(self).state@;
                &&& final(self).file.reliable() == old(self).file.reliable()
                &&& final(self).offset <= final(self).file.written().len()
                &&& final(self).offset == old(self).offset + final(self).file.written().len()
                    - old(self).file.written().len()
                &&& match old(self).recipe.policy {
                    None => found is None && final(self).file == old(self).file,
                    Some(policy) => {
                        let groups = filter_block::final_groups(last.groups, last.waiting);
                        let image = filter_block::filter_image(draft::table_policy(policy), groups);
                        &&& found == Some(old(self).recipe.handle_behind(last.written, image))
                        &&& final(self).file.written() == old(self).file.written()
                            + stored_block::stored(old(self).recipe.compressor, image)
                        &&& stored_block::restores(old(self).recipe.compressor, image)
                        &&& stored_block::body_of(old(self).recipe.compressor, image).1.len() + 5
                            <= usize::MAX
                        &&& filter_block::all_honest(draft::table_policy(policy), groups)
                    },
                }
            },
            old(self).file.reliable() ==> written is Ok,
    {
        let bytes = match &mut self.filter_block {
            None => {
                return Ok(None);
            },
            Some(block) => vstd::slice::slice_to_vec(block.finish()),
        };
        match self.write_block(bytes.as_slice()) {
            Err(error) => Err(error),
            Ok(handle) => Ok(Some(handle)),
        }
    }

    /// Makes the table last.
    pub fn sync(&mut self) -> (outcome: status::Result<()>)
        requires
            old(self).is_closed(),
        ensures
            final(self).is_closed(),
            final(self).recipe() == old(self).recipe(),
            final(self).prefix() == old(self).prefix(),
            final(self).size() == old(self).size(),
            final(self).counted() == old(self).counted(),
            outcome is Ok ==> final(self).sink().written() == old(self).sink().written()
                && final(self).sink().reliable() == old(self).sink().reliable()
                && final(self).sink().synced() == final(self).sink().written().len(),
            old(self).sink().reliable() ==> outcome is Ok,
    {
        self.file.sync()
    }

    /// Closes the file.
    pub fn close(&mut self) -> (outcome: status::Result<()>)
        ensures
            final(self).is_closed() == old(self).is_closed(),
            final(self).recipe() == old(self).recipe(),
            final(self).prefix() == old(self).prefix(),
            final(self).size() == old(self).size(),
            final(self).counted() == old(self).counted(),
            outcome is Ok ==> final(self).sink().written() == old(self).sink().written(),
            old(self).sink().reliable() ==> outcome is Ok,
    {
        self.file.close()
    }

    /// The file that is written.
    pub fn file(&self) -> (file: &W)
        ensures
            *file == self.sink(),
    {
        &self.file
    }

    /// Hands the file out.
    pub fn into_file(self) -> (file: W)
        ensures
            file == self.sink(),
    {
        self.file
    }
}

/// Builds a table in memory, without filters and compression.
pub struct TableBuilder<C: Comparator> {
    inner: TableFileBuilder<C, MemWritableFile, BloomFilterPolicy, NoCompressor>,
}

impl<C: Comparator> TableBuilder<C> {
    /// How the table is built.
    pub closed spec fn recipe(&self) -> Recipe<C, BloomFilterPolicy, NoCompressor> {
        self.inner.recipe()
    }

    /// What was built so far.
    pub closed spec fn draft(&self) -> Draft {
        self.inner.draft()
    }

    /// Whether the table was finished.
    pub closed spec fn is_closed(&self) -> bool {
        self.inner.is_closed()
    }

    /// How many entries were added.
    pub closed spec fn counted(&self) -> nat {
        self.inner.counted()
    }

    /// The bytes so far.
    pub closed spec fn image(&self) -> Seq<u8> {
        self.inner.sink().written()
    }

    /// The bytes are those of the draft.
    pub closed spec fn wf(&self) -> bool {
        &&& self.inner.wf()
        &&& self.inner.prefix() == Seq::<u8>::empty()
        &&& self.inner.sink().reliable()
    }

    /// What was built is sound.
    pub proof fn lemma_wf(&self)
        requires
            self.wf(),
        ensures
            self.recipe().sound(self.draft()),
            self.draft().ready(),
            self.image() == self.draft().written,
            !self.is_closed(),
    {
        self.inner.lemma_wf();
        assert(self.image() =~= self.draft().written);
    }

    pub fn new(comparator: C, block_size: usize, restart_interval: usize) -> (builder: Self)
        requires
            restart_interval >= 1,
        ensures
            builder.wf(),
            builder.draft() == Draft::blank(),
            builder.recipe() == (Recipe {
                comparator,
                block_size,
                interval: restart_interval,
                policy: None::<Arc<BloomFilterPolicy>>,
                compressor: None::<Arc<NoCompressor>>,
            }),
    {
        TableBuilder {
            inner: TableFileBuilder::new(
                comparator,
                block_size,
                restart_interval,
                MemWritableFile::new(),
            ),
        }
    }

    pub fn with_defaults(comparator: C) -> (builder: Self)
        ensures
            builder.wf(),
            builder.draft() == Draft::blank(),
            builder.recipe() == (Recipe {
                comparator,
                block_size: 4096,
                interval: 16,
                policy: None::<Arc<BloomFilterPolicy>>,
                compressor: None::<Arc<NoCompressor>>,
            }),
    {
        Self::new(comparator, DEFAULT_BLOCK_SIZE, DEFAULT_BLOCK_RESTART_INTERVAL)
    }

    /// How many entries were added.
    pub fn num_entries(&self) -> (count: u64)
        ensures
            count == self.counted(),
            self.wf() ==> count == self.draft().entries().len(),
    {
        self.inner.num_entries()
    }

    /// How many bytes there are.
    pub fn file_size(&self) -> (size: u64)
        ensures
            size == self.image().len(),
    {
        self.inner.file().bytes().len() as u64
    }

    /// Adds an entry behind all others.
    pub fn add(&mut self, key: &[u8], value: &[u8])
        requires
            old(self).wf(),
            old(self).recipe().comparator.admits(key@),
            old(self).draft().entries().len() > 0 ==> old(self).recipe().comparator.less(
                old(self).draft().last_key(),
                key@,
            ),
            old(self).draft().entries().len() < u64::MAX,
        ensures
            final(self).wf(),
            final(self).recipe() == old(self).recipe(),
            final(self).draft() == old(self).recipe().added(old(self).draft(), key@, value@),
            final(self).draft().entries() == old(self).draft().entries().push((key@, value@)),
    {
        let outcome = self.inner.add(key, value);
        assert(outcome is Ok);
    }

    /// Writes what a table ends with.
    pub fn finish(&mut self) -> (outcome: status::Result<()>)
        requires
            old(self).wf(),
        ensures
            outcome is Ok,
            final(self).is_closed(),
            final(self).recipe() == old(self).recipe(),
            final(self).image() == old(self).recipe().finished(old(self).draft()).image,
            final(self).counted() == old(self).draft().entries().len(),
            draft::finished_well(old(self).recipe(), old(self).draft()),
    {
        let outcome = self.inner.finish();
        assert(self.image() =~= old(self).recipe().finished(old(self).draft()).image);
        outcome
    }

    /// The bytes of the finished table.
    pub fn contents(&self) -> (bytes: &[u8])
        requires
            self.is_closed(),
        ensures
            bytes@ == self.image(),
    {
        self.inner.file().bytes()
    }
}

} // verus!
