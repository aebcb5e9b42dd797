//! Reads tables.

use vstd::prelude::*;

use std::sync::Arc;

use crate::block::block_handle;
use crate::block::block_handle::HandleRead;
use crate::block::block_iter::BlockIter;
use crate::block::data;
use crate::block::data::Block;
use crate::block::BlockHandle;
use crate::cache;
use crate::cache::Cache;
use crate::cache::CacheHandle;
use crate::coding;
use crate::comparator;
use crate::comparator::Comparator;
use crate::db_iter::db_iterator;
use crate::db_iter::db_iterator::DbIterator;
use crate::env::RandomAccessFile;
use crate::filter::BloomFilterPolicy;
use crate::filter::FilterPolicy;
use crate::filter::InternalFilterPolicy;
use crate::filter_block;
use crate::filter_block::FilterBlockReader;
use crate::format::ValueType;
use crate::status;
use crate::status::Status;
use crate::table::draft;
use crate::table::stored_block;
use crate::table::stored_block::Compressor;
use crate::table::stored_block::NoCompressor;
use crate::table::stored_block::StoredRead;
use crate::table::table_builder;
use crate::table::table_footer;
use crate::table::table_footer::TableFooter;
use crate::text;
use crate::version_set::LookupResult;

verus! {

/// A file in memory that is read at any place.
#[derive(Debug)]
pub struct VecRandomAccessFile {
    bytes: Arc<Vec<u8>>,
}

impl VecRandomAccessFile {
    pub fn new(bytes: Vec<u8>) -> (file: Self)
        ensures
            file.contents() == bytes@,
            file.reliable(),
    {
        VecRandomAccessFile { bytes: Arc::new(bytes) }
    }

    pub fn bytes(&self) -> (bytes: &[u8])
        ensures
            bytes@ == self.contents(),
    {
        self.bytes.as_slice()
    }
}

impl Clone for VecRandomAccessFile {
    fn clone(&self) -> (copy: Self)
        ensures
            copy == *self,
    {
        VecRandomAccessFile { bytes: Arc::clone(&self.bytes) }
    }
}

impl RandomAccessFile for VecRandomAccessFile {
    closed spec fn contents(&self) -> Seq<u8> {
        self.bytes@
    }

    open spec fn reliable(&self) -> bool {
        true
    }

    fn read_at(&self, offset: u64, n: usize) -> (read: status::Result<Vec<u8>>)
        ensures
            read matches Err(e) ==> self.contents().len() < offset + n && e.says(
                status::Code::IoError,
                if offset > usize::MAX {
                    "VecRandomAccessFile: offset overflow"@
                } else if offset + n > usize::MAX {
                    "VecRandomAccessFile: length overflow"@
                } else {
                    "VecRandomAccessFile: short read"@
                },
            ),
    {
        let length: usize = self.bytes.len();
        if offset > usize::MAX as u64 {
            return Err(Status::io_error("VecRandomAccessFile: offset overflow"));
        }
        let start: usize = offset as usize;
        let end: usize = match start.checked_add(n) {
            None => {
                return Err(Status::io_error("VecRandomAccessFile: length overflow"));
            },
            Some(end) => end,
        };
        if end > length {
            return Err(Status::io_error("VecRandomAccessFile: short read"));
        }
        Ok(vstd::slice::slice_to_vec(&self.bytes.as_slice()[start..end]))
    }
}

// ---------------------------------------------------------------------------
// What the bytes of a table say
// ---------------------------------------------------------------------------

/// What is wrong with bytes that are no block.
pub open spec fn block_error(image: Seq<u8>) -> Seq<char> {
    if image.len() < 4 {
        "Block: too small for restart count"@
    } else {
        "Block: bad restart count"@
    }
}

/// What comes of opening a table.
pub enum OpenRead {
    Corrupt(Seq<char>),
    OutOfFile,
    Malformed,
    Opened { footer: TableFooter, index: Seq<u8> },
}

/// Reads the footer and the index of a table of the given size.
pub open spec fn opened<Z: Compressor>(
    file: Seq<u8>,
    size: int,
    compressor: Option<Arc<Z>>,
) -> OpenRead {
    if size < TableFooter::ENCODED_LENGTH {
        OpenRead::Corrupt("Table: file too small for footer"@)
    } else if size > file.len() {
        OpenRead::OutOfFile
    } else {
        match table_footer::read_footer(file.subrange(size - 48, size)) {
            Err(text) => OpenRead::Corrupt(text),
            Ok(footer) => match stored_block::read_stored(file, footer.index, true, compressor) {
                StoredRead::Corrupt(text) => OpenRead::Corrupt(text),
                StoredRead::OutOfFile => OpenRead::OutOfFile,
                StoredRead::Malformed => OpenRead::Malformed,
                StoredRead::Block(image) => if data::is_block(image) {
                    OpenRead::Opened { footer, index: image }
                } else {
                    OpenRead::Corrupt(block_error(image))
                },
            },
        }
    }
}

/// What comes of looking for the block that a key may be in.
pub enum BlockFor {
    /// The key is in no block.
    Nothing,
    Corrupt(Seq<char>),
    OutOfFile,
    Malformed,
    /// The entries of the block.
    Entries(Seq<db_iterator::Pair>),
    /// The bytes of a block that can be read, but whose entries are not in order.
    Damaged(Seq<u8>),
}

/// The block that a handle leads to.
pub open spec fn block_behind<C: Comparator, Z: Compressor>(
    comparator: C,
    file: Seq<u8>,
    compressor: Option<Arc<Z>>,
    handle: BlockHandle,
    verify: bool,
) -> BlockFor {
    match stored_block::read_stored(file, handle, verify, compressor) {
        StoredRead::Corrupt(text) => BlockFor::Corrupt(text),
        StoredRead::OutOfFile => BlockFor::OutOfFile,
        StoredRead::Malformed => BlockFor::Malformed,
        StoredRead::Block(image) => if !data::is_block(image) {
            BlockFor::Corrupt(block_error(image))
        } else if data::sound(image, comparator) {
            BlockFor::Entries(data::pairs(data::items_of(image)))
        } else {
            BlockFor::Damaged(image)
        },
    }
}

/// The handle of the block that a key may be in.
pub open spec fn located<C: Comparator>(
    comparator: C,
    index: Seq<db_iterator::Pair>,
    target: Seq<u8>,
) -> Option<HandleRead> {
    match db_iterator::pair_at(index, db_iterator::first_from(comparator, index, target)) {
        None => None,
        Some((_, bytes)) => Some(block_handle::read_handle(bytes)),
    }
}

/// What a filter says of a key in the block at an offset. What is no filter block
/// denies nothing.
pub open spec fn filter_admits<P: FilterPolicy>(
    filter: Option<(Seq<u8>, Arc<P>)>,
    offset: u64,
    key: Seq<u8>,
) -> bool {
    filter matches Some((image, policy)) ==> filter_block::is_filter_block(image)
        ==> filter_block::block_admits(draft::table_policy(policy), image, offset, key)
}

/// The value of the entry whose key is as good as `target`.
pub open spec fn found_value<C: Comparator>(
    comparator: C,
    entries: Seq<db_iterator::Pair>,
    target: Seq<u8>,
) -> Option<Seq<u8>> {
    match db_iterator::pair_at(entries, db_iterator::first_from(comparator, entries, target)) {
        Some((key, value)) => if comparator.less(target, key) {
            None
        } else {
            Some(value)
        },
        None => None,
    }
}

/// What a point lookup returns of a block, by what the search in it comes to.
pub open spec fn value_sought<C: Comparator>(
    found: data::Sought,
    comparator: C,
    target: Seq<u8>,
    read: status::Result<Option<Vec<u8>>>,
) -> bool {
    match found {
        data::Sought::Fault(text) => read matches Err(error) && error.says(
            status::Code::Corruption,
            data::fault_text(text),
        ),
        data::Sought::End => read matches Ok(None),
        data::Sought::Found(item) => if comparator.less(target, item.key) {
            read matches Ok(None)
        } else {
            read matches Ok(Some(bytes)) && bytes@ == item.value
        },
    }
}

/// What a lookup of an internal key returns of a block, by what the search in it comes
/// to.
pub open spec fn lookup_sought(
    found: data::Sought,
    target: Seq<u8>,
    read: status::Result<LookupResult>,
) -> bool {
    match found {
        data::Sought::Fault(text) => read matches Err(error) && error.says(
            status::Code::Corruption,
            data::fault_text(text),
        ),
        data::Sought::End => internal_is(None, target, read),
        data::Sought::Found(item) => internal_is(Some((item.key, item.value)), target, read),
    }
}

/// What a point lookup returns.
pub open spec fn value_is<C: Comparator>(
    expected: BlockFor,
    comparator: C,
    target: Seq<u8>,
    read: status::Result<Option<Vec<u8>>>,
) -> bool {
    match expected {
        BlockFor::Nothing => read matches Ok(None),
        BlockFor::Corrupt(text) => read matches Err(error) && error.says(
            status::Code::Corruption,
            text,
        ),
        BlockFor::OutOfFile => read is Err,
        BlockFor::Malformed => read matches Err(error) && error.kind() == status::Code::Corruption,
        BlockFor::Entries(entries) => match found_value(comparator, entries, target) {
            None => read matches Ok(None),
            Some(value) => read matches Ok(Some(bytes)) && bytes@ == value,
        },
        BlockFor::Damaged(image) => value_sought(
            data::sought(image, comparator, target),
            comparator,
            target,
            read,
        ),
    }
}

/// What a lookup of an internal key finds: the first entry from `target` on, if it
/// has the same user key.
pub open spec fn internal_is(
    first: Option<db_iterator::Pair>,
    target: Seq<u8>,
    read: status::Result<LookupResult>,
) -> bool {
    match first {
        None => read matches Ok(LookupResult::NotFound),
        Some((key, value)) => if key.len() < 8 {
            read matches Err(error) && error.says(
                status::Code::Corruption,
                "Table: malformed internal key"@,
            )
        } else if crate::format::user_part(key) != crate::format::user_part(target) {
            read matches Ok(LookupResult::NotFound)
        } else {
            match crate::format::type_of_code((crate::format::tag_part(key) % 256) as u8) {
                Some(ValueType::Deletion) => read matches Ok(LookupResult::Deleted),
                Some(ValueType::Value) => read matches Ok(LookupResult::Found(bytes)) && bytes@
                    == value,
                None => read matches Err(error) && error.says(
                    status::Code::Corruption,
                    "Table: unknown ValueType"@,
                ),
            }
        },
    }
}

/// What a lookup of an internal key returns.
pub open spec fn lookup_is<C: Comparator>(
    expected: BlockFor,
    comparator: C,
    target: Seq<u8>,
    read: status::Result<LookupResult>,
) -> bool {
    match expected {
        BlockFor::Nothing => read matches Ok(LookupResult::NotFound),
        BlockFor::Corrupt(text) => read matches Err(error) && error.says(
            status::Code::Corruption,
            text,
        ),
        BlockFor::OutOfFile => read is Err,
        BlockFor::Malformed => read matches Err(error) && error.kind() == status::Code::Corruption,
        BlockFor::Entries(entries) => internal_is(
            db_iterator::pair_at(entries, db_iterator::first_from(comparator, entries, target)),
            target,
            read,
        ),
        BlockFor::Damaged(image) => lookup_sought(
            data::sought(image, comparator, target),
            target,
            read,
        ),
    }
}

/// The key under which a block is cached.
pub open spec fn cache_key(id: u64, offset: u64) -> Seq<u8> {
    coding::le_bytes(id as nat, 8) + coding::le_bytes(offset as nat, 8)
}

/// The filter block that an entry of a metaindex block leads to.
pub open spec fn filter_in_metaindex<Z: Compressor>(
    file: Seq<u8>,
    entry: Option<db_iterator::Pair>,
    key: Seq<u8>,
    compressor: Option<Arc<Z>>,
) -> Option<Seq<u8>> {
    match entry {
        None => None,
        Some((found, bytes)) => if found != key {
            None
        } else {
            match block_handle::read_handle(bytes) {
                HandleRead::Handle { handle, length: _ } => match stored_block::read_stored(
                    file,
                    handle,
                    true,
                    compressor,
                ) {
                    StoredRead::Block(image) => Some(image),
                    _ => None,
                },
                _ => None,
            }
        },
    }
}

/// Whether `loaded` is the filter block that the metaindex leads to.
pub open spec fn filter_is<C: Comparator, Z: Compressor>(
    file: Seq<u8>,
    handle: BlockHandle,
    comparator: C,
    title: Seq<char>,
    compressor: Option<Arc<Z>>,
    loaded: Option<Seq<u8>>,
) -> bool {
    let key = draft::filter_key(title);
    match stored_block::read_stored(file, handle, true, compressor) {
        StoredRead::Block(image) => if !data::is_block(image) || !comparator.admits(key) {
            loaded is None
        } else if data::sound(image, comparator) {
            let metaindex = data::pairs(data::items_of(image));
            loaded == filter_in_metaindex(
                file,
                db_iterator::pair_at(
                    metaindex,
                    db_iterator::first_from(comparator, metaindex, key),
                ),
                key,
                compressor,
            )
        } else {
            loaded == filter_in_metaindex(
                file,
                match data::sought(image, comparator, key) {
                    data::Sought::Found(item) => Some((item.key, item.value)),
                    _ => None,
                },
                key,
                compressor,
            )
        },
        _ => loaded is None,
    }
}

// ---------------------------------------------------------------------------
// Reader
// ---------------------------------------------------------------------------

/// The filter block of a table.
struct TableFilter<P: FilterPolicy> {
    data: Vec<u8>,
    policy: Arc<P>,
}

impl<P: FilterPolicy> TableFilter<P> {
    fn key_may_match(&self, block_offset: u64, key: &[u8]) -> (answer: bool)
        ensures
            answer == filter_admits(Some((self.data@, self.policy)), block_offset, key@),
    {
        let policy = InternalFilterPolicy::new(table_builder::share(&self.policy));
        match FilterBlockReader::new(policy, self.data.as_slice()) {
            Some(reader) => reader.key_may_match(block_offset, key),
            None => true,
        }
    }
}

/// A table opened for reading.
pub struct Table<
    C: Comparator,
    F: RandomAccessFile = VecRandomAccessFile,
    P: FilterPolicy = BloomFilterPolicy,
    Z: Compressor = NoCompressor,
> {
    file: F,
    comparator: C,
    index_block: Arc<Block>,
    metaindex_offset: u64,
    /// The id under which the blocks are cached.
    cache_id: u64,
    compressor: Option<Arc<Z>>,
    filter: Option<TableFilter<P>>,
}

/// Reads the filter block of a table. Whatever goes wrong, there is just no
/// filter.
fn read_filter_block<C: Comparator, F: RandomAccessFile, P: FilterPolicy, Z: Compressor>(
    file: &F,
    metaindex_handle: &BlockHandle,
    comparator: &C,
    policy: &Arc<P>,
    compressor: &Option<Arc<Z>>,
) -> (filter: Option<TableFilter<P>>)
    ensures
        filter matches Some(found) ==> found.policy == *policy,
        file.reliable() || filter is Some ==> filter_is(
            file.contents(),
            *metaindex_handle,
            *comparator,
            policy.title(),
            *compressor,
            match filter {
                None => None,
                Some(found) => Some(found.data@),
            },
        ),
{
    let meta_bytes = match stored_block::read_block_from_file(
        file,
        metaindex_handle,
        true,
        compressor,
    ) {
        Err(_) => {
            return None;
        },
        Ok(bytes) => bytes,
    };
    let meta = match Block::new(meta_bytes) {
        Err(_) => {
            return None;
        },
        Ok(block) => block,
    };
    let mut iter = BlockIter::new(&meta, comparator::copy_of(comparator));
    let name = text::joined("filter.", policy.name());
    let key: &[u8] = name.as_str().as_bytes();
    if !comparator.accepts(key) {
        return None;
    }
    proof {
        iter.lemma_scan();
    }
    iter.seek(key);
    proof {
        iter.lemma_scan();
        if data::sound(meta@, *comparator) {
            db_iterator::lemma_sought(
                iter.scan(),
                *comparator,
                data::pairs(data::items_of(meta@)),
                key@,
            );
        }
    }
    if !iter.valid() || !cache::same_bytes(iter.key(), key) {
        return None;
    }
    let mut handle_value: &[u8] = iter.value();
    let filter_handle = match BlockHandle::decode_from(&mut handle_value) {
        Err(_) => {
            return None;
        },
        Ok(handle) => handle,
    };
    match stored_block::read_block_from_file(file, &filter_handle, true, compressor) {
        Err(_) => None,
        Ok(data) => Some(TableFilter { data, policy: table_builder::share(policy) }),
    }
}

impl<C: Comparator> Table<C> {
    /// Opens a table in memory.
    pub fn open(file: Vec<u8>, comparator: C) -> (table: status::Result<Self>)
        ensures
            table matches Ok(t) ==> t.bytes() == file@ && t.reliable(),
            opens_as(
                opened(file@, file@.len() as int, None::<Arc<NoCompressor>>),
                comparator,
                None::<Arc<BloomFilterPolicy>>,
                None::<Arc<NoCompressor>>,
                table,
            ),
    {
        let file_size: u64 = file.len() as u64;
        Self::open_random(VecRandomAccessFile::new(file), file_size, comparator)
    }

    /// The bytes of the table.
    pub fn file(&self) -> (bytes: &[u8])
        ensures
            bytes@ == self.bytes(),
    {
        self.file.bytes()
    }
}

/// What opening a table returns.
pub open spec fn opens_as<C: Comparator, F: RandomAccessFile, P: FilterPolicy, Z: Compressor>(
    expected: OpenRead,
    comparator: C,
    policy: Option<Arc<P>>,
    compressor: Option<Arc<Z>>,
    table: status::Result<Table<C, F, P, Z>>,
) -> bool {
    match expected {
        OpenRead::Corrupt(text) => table matches Err(error) && error.says(
            status::Code::Corruption,
            text,
        ),
        OpenRead::OutOfFile => table is Err,
        OpenRead::Malformed => table matches Err(error) && error.kind() == status::Code::Corruption,
        OpenRead::Opened { footer, index } => table matches Ok(t) && {
            &&& t.wf()
            &&& t.index_image() == index
            &&& t.metaindex_place() == footer.metaindex.offset
            &&& t.order() == comparator
            &&& t.zip() == compressor
            &&& t.filter_data() matches Some((_, p)) ==> policy == Some(p)
            &&& t.reliable() || t.filter_data() is Some ==> match policy {
                None => t.filter_data() is None,
                Some(p) => filter_is(
                    t.bytes(),
                    footer.metaindex,
                    comparator,
                    p.title(),
                    compressor,
                    match t.filter_data() {
                        None => None,
                        Some((image, _)) => Some(image),
                    },
                ),
            }
        },
    }
}

impl<C: Comparator, F: RandomAccessFile, P: FilterPolicy, Z: Compressor> Table<C, F, P, Z> {
    /// The bytes of the file.
    pub closed spec fn bytes(&self) -> Seq<u8> {
        self.file.contents()
    }

    /// Whether the file can be read.
    pub closed spec fn reliable(&self) -> bool {
        self.file.reliable()
    }

    /// The comparator of the keys.
    pub closed spec fn order(&self) -> C {
        self.comparator
    }

    /// The bytes of the index block.
    pub closed spec fn index_image(&self) -> Seq<u8> {
        self.index_block@
    }

    /// The entries of the index block.
    pub open spec fn index(&self) -> Seq<db_iterator::Pair> {
        data::pairs(data::items_of(self.index_image()))
    }

    /// Whether the index block is as a builder leaves it.
    pub open spec fn indexed(&self) -> bool {
        data::sound(self.index_image(), self.order())
    }

    /// Where the metaindex block starts.
    pub closed spec fn metaindex_place(&self) -> u64 {
        self.metaindex_offset
    }

    /// The compressor of the blocks.
    pub closed spec fn zip(&self) -> Option<Arc<Z>> {
        self.compressor
    }

    /// The bytes of the filter block, and the policy by which it was made.
    pub closed spec fn filter_data(&self) -> Option<(Seq<u8>, Arc<P>)> {
        match self.filter {
            None => None,
            Some(filter) => Some((filter.data@, filter.policy)),
        }
    }

    /// The id under which the blocks are cached.
    pub closed spec fn id(&self) -> u64 {
        self.cache_id
    }

    /// The index block can be read.
    pub closed spec fn wf(&self) -> bool {
        self.index_block.wf()
    }

    /// The entries of the index block as far as they can be read one after the other.
    pub open spec fn walked(&self) -> Seq<db_iterator::Pair> {
        data::all_of(self.index_image()).0
    }

    /// An index that is in order can be read to its end.
    pub proof fn lemma_walked(&self)
        requires
            self.indexed(),
        ensures
            self.walked() == self.index(),
            data::all_of(self.index_image()).1 is None,
    {
        let image = self.index_image();
        data::law_all_or_fault(data::region(image), 0, Seq::empty());
        if data::region(image).len() == 0 {
            assert(self.index() =~= Seq::<db_iterator::Pair>::empty());
            assert(self.walked() =~= Seq::<db_iterator::Pair>::empty());
        }
    }

    /// The block that the entry of the index at a place leads to.
    pub open spec fn block_at(&self, place: int, verify: bool) -> BlockFor {
        match block_handle::read_handle(self.walked()[place].1) {
            HandleRead::Handle { handle, length: _ } => block_behind(
                self.order(),
                self.bytes(),
                self.zip(),
                handle,
                verify,
            ),
            failed => BlockFor::Corrupt(block_handle::handle_error(failed)),
        }
    }

    /// The block that a key may be in, unless the filter denies that it is there.
    pub open spec fn block_for(&self, target: Seq<u8>, asked: Seq<u8>, verify: bool) -> BlockFor {
        match located(self.order(), self.index(), target) {
            None => BlockFor::Nothing,
            Some(HandleRead::Handle { handle, length: _ }) => if !filter_admits(
                self.filter_data(),
                handle.offset,
                asked,
            ) {
                BlockFor::Nothing
            } else {
                block_behind(self.order(), self.bytes(), self.zip(), handle, verify)
            },
            Some(failed) => BlockFor::Corrupt(block_handle::handle_error(failed)),
        }
    }

    /// As [`Table::block_for`], by what a search in the bytes of the index comes to, whatever
    /// they are.
    pub open spec fn block_sought(
        &self,
        target: Seq<u8>,
        asked: Seq<u8>,
        verify: bool,
    ) -> BlockFor {
        match data::sought(self.index_image(), self.order(), target) {
            data::Sought::Fault(text) => BlockFor::Corrupt(data::fault_text(text)),
            data::Sought::End => BlockFor::Nothing,
            data::Sought::Found(item) => match block_handle::read_handle(item.value) {
                HandleRead::Handle { handle, length: _ } => if !filter_admits(
                    self.filter_data(),
                    handle.offset,
                    asked,
                ) {
                    BlockFor::Nothing
                } else {
                    block_behind(self.order(), self.bytes(), self.zip(), handle, verify)
                },
                failed => BlockFor::Corrupt(block_handle::handle_error(failed)),
            },
        }
    }

    /// The cached block that a search for a key comes to, if there is one.
    pub open spec fn cached_for(&self, cached: Map<Seq<u8>, Arc<Block>>, target: Seq<u8>) -> Option<
        Arc<Block>,
    > {
        match data::sought(self.index_image(), self.order(), target) {
            data::Sought::Found(item) => match block_handle::read_handle(item.value) {
                HandleRead::Handle { handle, length: _ } => if filter_admits(
                    self.filter_data(),
                    handle.offset,
                    target,
                ) && cached.contains_key(cache_key(self.id(), handle.offset)) {
                    Some(cached[cache_key(self.id(), handle.offset)])
                } else {
                    None
                },
                _ => None,
            },
            _ => None,
        }
    }

    /// Whether the index names the handle. An index that is not in order may name
    /// any.
    pub open spec fn names(&self, handle: BlockHandle) -> bool {
        self.indexed() ==> exists|i: int|
            0 <= i < self.index().len() && (block_handle::read_handle(
                (#[trigger] self.index()[i]).1,
            ) matches HandleRead::Handle { handle: named, length: _ } && named == handle)
    }

    /// A cached block is the one that a handle of the index leads to.
    pub open spec fn cached_right(&self, entries: Map<Seq<u8>, Arc<Block>>) -> bool {
        forall|offset: u64| #[trigger]
            entries.contains_key(cache_key(self.id(), offset)) ==> {
                let block = entries[cache_key(self.id(), offset)];
                block.wf() && self.holds_block(offset, *block)
            }
    }

    /// Some handle of the index with the given offset leads to the block.
    pub open spec fn holds_block(&self, offset: u64, block: Block) -> bool {
        exists|size: u64| #[trigger]
            self.names(BlockHandle { offset, size }) && stored_block::read_stored(
                self.bytes(),
                BlockHandle { offset, size },
                false,
                self.zip(),
            ) == StoredRead::Block(block@)
    }

    /// No two handles of the index have the same offset.
    pub open spec fn apart(&self) -> bool {
        forall|a: BlockHandle, b: BlockHandle|
            self.indexed() && #[trigger] self.names(a) && #[trigger] self.names(b) && a.offset
                == b.offset ==> a == b
    }

    pub fn open_random(file: F, file_size: u64, comparator: C) -> (table: status::Result<Self>)
        ensures
            table matches Ok(t) ==> t.bytes() == file.contents() && t.reliable()
                == file.reliable() && t.id() == 0,
            file.reliable() || table is Ok ==> opens_as(
                opened(file.contents(), file_size as int, None::<Arc<Z>>),
                comparator,
                None::<Arc<P>>,
                None::<Arc<Z>>,
                table,
            ),
    {
        Self::open_random_with_options(file, file_size, comparator, 0, None, None)
    }

    /// Opens a table whose blocks are to be cached.
    pub fn open_random_with_cache<B: Cache<Arc<Block>>>(
        file: F,
        file_size: u64,
        comparator: C,
        block_cache: &mut B,
    ) -> (table: status::Result<Self>)
        requires
            old(block_cache).wf(),
            old(block_cache).issued() < u64::MAX,
        ensures
            final(block_cache).wf(),
            final(block_cache).entries() == old(block_cache).entries(),
            table matches Ok(t) ==> t.bytes() == file.contents() && t.reliable()
                == file.reliable() && t.id() == old(block_cache).issued() + 1 && final(
                block_cache).issued() == old(block_cache).issued() + 1,
            file.reliable() || table is Ok ==> opens_as(
                opened(file.contents(), file_size as int, None::<Arc<Z>>),
                comparator,
                None::<Arc<P>>,
                None::<Arc<Z>>,
                table,
            ),
    {
        match Self::open_random(file, file_size, comparator) {
            Err(error) => Err(error),
            Ok(table) => {
                let mut table = table;
                table.cache_id = block_cache.new_id();
                Ok(table)
            },
        }
    }

    /// Opens a table. `cache_id` is the id under which its blocks are cached. With
    /// a filter policy the filter block is read, where there is one.
    pub fn open_random_with_options(
        file: F,
        file_size: u64,
        comparator: C,
        cache_id: u64,
        filter_policy: Option<Arc<P>>,
        compressor: Option<Arc<Z>>,
    ) -> (table: status::Result<Self>)
        ensures
            table matches Ok(t) ==> t.bytes() == file.contents() && t.reliable()
                == file.reliable() && t.id() == cache_id,
            file.reliable() || table is Ok ==> opens_as(
                opened(file.contents(), file_size as int, compressor),
                comparator,
                filter_policy,
                compressor,
                table,
            ),
    {
        if file_size < TableFooter::ENCODED_LENGTH as u64 {
            return Err(Status::corruption("Table: file too small for footer"));
        }
        let footer_start: u64 = file_size - TableFooter::ENCODED_LENGTH as u64;
        let footer_bytes = match file.read_at(footer_start, TableFooter::ENCODED_LENGTH) {
            Err(error) => {
                return Err(error);
            },
            Ok(bytes) => bytes,
        };
        let mut footer_input: &[u8] = footer_bytes.as_slice();
        let footer = match TableFooter::decode_from(&mut footer_input) {
            Err(error) => {
                return Err(error);
            },
            Ok(footer) => footer,
        };
        let index_bytes = match stored_block::read_block_from_file(
            &file,
            &footer.index,
            true,
            &compressor,
        ) {
            Err(error) => {
                return Err(error);
            },
            Ok(bytes) => bytes,
        };
        let index_block = match Block::new(index_bytes) {
            Err(error) => {
                return Err(error);
            },
            Ok(block) => Arc::new(block),
        };
        let filter = match &filter_policy {
            None => None,
            Some(policy) => read_filter_block(
                &file,
                &footer.metaindex,
                &comparator,
                policy,
                &compressor,
            ),
        };
        Ok(
            Table {
                file,
                comparator,
                index_block,
                metaindex_offset: footer.metaindex.offset,
                cache_id,
                compressor,
                filter,
            },
        )
    }

    /// A copy of the comparator.
    pub fn comparator_copy(&self) -> (comparator: C)
        ensures
            comparator == self.order(),
    {
        comparator::copy_of(&self.comparator)
    }

    /// An iterator over the index.
    pub fn index_iterator(&self) -> (iter: BlockIter<'static, C>)
        requires
            self.wf(),
        ensures
            iter.wf(),
            iter.image() == self.index_image(),
            iter.order() == self.order(),
            iter.scan().current is None,
            iter.scan().failure is None,
    {
        BlockIter::<'static, C>::from_shared(
            table_builder::share(&self.index_block),
            comparator::copy_of(&self.comparator),
        )
    }

    /// Reads the block that a handle leads to.
    pub fn read_block(&self, handle: &BlockHandle, verify: bool) -> (read: status::Result<
        Arc<Block>,
    >)
        ensures
            read matches Ok(block) ==> block.wf() && stored_block::read_stored(
                self.bytes(),
                *handle,
                verify,
                self.zip(),
            ) == StoredRead::Block(block@),
            self.reliable() ==> match stored_block::read_stored(
                self.bytes(),
                *handle,
                verify,
                self.zip(),
            ) {
                StoredRead::Corrupt(text) => read matches Err(error) && error.says(
                    status::Code::Corruption,
                    text,
                ),
                StoredRead::OutOfFile => read is Err,
                StoredRead::Malformed => read matches Err(error) && error.kind()
                    == status::Code::Corruption,
                StoredRead::Block(image) => if data::is_block(image) {
                    read is Ok
                } else {
                    read matches Err(error) && error.says(
                        status::Code::Corruption,
                        block_error(image),
                    )
                },
            },
    {
        let bytes = match stored_block::read_block_from_file(
            &self.file,
            handle,
            verify,
            &self.compressor,
        ) {
            Err(error) => {
                return Err(error);
            },
            Ok(bytes) => bytes,
        };
        match Block::new(bytes) {
            Err(error) => Err(error),
            Ok(block) => Ok(Arc::new(block)),
        }
    }

    /// Reads a block by way of the cache. What is found there is not verified
    /// again. With `fill_cache` a block that had to be read is put there.
    pub fn read_block_cached_full<B: Cache<Arc<Block>>>(
        &self,
        block_cache: &mut B,
        handle: &BlockHandle,
        verify: bool,
        fill_cache: bool,
    ) -> (read: status::Result<Arc<Block>>)
        requires
            old(block_cache).wf(),
            self.cached_right(old(block_cache).entries()),
            self.names(*handle),
        ensures
            final(block_cache).wf(),
            final(block_cache).issued() == old(block_cache).issued(),
            self.cached_right(final(block_cache).entries()),
            forall|key: Seq<u8>| #[trigger]
                final(block_cache).entries().contains_key(key) && key != cache_key(
                    self.id(),
                    handle.offset,
                ) ==> old(block_cache).entries().contains_key(key) && old(
                    block_cache).entries()[key] == final(block_cache).entries()[key],
            !fill_cache ==> final(block_cache).entries() == old(block_cache).entries(),
            read matches Ok(block) ==> block.wf() && self.holds_block(handle.offset, *block),
            old(block_cache).alone() && old(block_cache).entries().contains_key(
                cache_key(self.id(), handle.offset),
            ) ==> (read matches Ok(block) && block == old(block_cache).entries()[cache_key(
                self.id(),
                handle.offset,
            )]),
            read is Err ==> !self.reliable() || !(stored_block::read_stored(
                self.bytes(),
                *handle,
                verify,
                self.zip(),
            ) matches StoredRead::Block(image) && data::is_block(image)),
            final(block_cache).keeps() == old(block_cache).keeps(),
            !old(block_cache).entries().contains_key(cache_key(self.id(), handle.offset)) && (
            self.reliable() || read is Ok) ==> block_is(
                read,
                stored_block::read_stored(self.bytes(), *handle, verify, self.zip()),
            ),
            self.indexed() && self.apart() && (self.reliable() || read is Ok) ==> block_is(
                read,
                stored_block::read_stored(self.bytes(), *handle, verify, self.zip()),
            ) || (self.holds_unchecked(old(block_cache).entries(), *handle) && block_is(
                read,
                stored_block::read_stored(self.bytes(), *handle, false, self.zip()),
            )),
            verify && self.holds_unchecked(final(block_cache).entries(), *handle)
                ==> self.holds_unchecked(old(block_cache).entries(), *handle),
            fill_cache && old(block_cache).keeps() && read is Ok
                ==> final(block_cache).entries().contains_key(
                cache_key(self.id(), handle.offset),
            ),
            ({
                let key = cache_key(self.id(), handle.offset);
                !old(block_cache).entries().contains_key(key)
                    && final(block_cache).entries().contains_key(key) ==> (read matches Ok(block)
                    && final(block_cache).charge_of(key) == block@.len())
            }),
    {
        let ghost before = block_cache.entries();
        let ghost key_view = cache_key(self.id(), handle.offset);
        let mut key: Vec<u8> = Vec::new();
        coding::put_fixed64(&mut key, self.cache_id);
        coding::put_fixed64(&mut key, handle.offset);
        assert(key@ =~= key_view);
        match block_cache.lookup(key.as_slice()) {
            Some(found) => {
                let block = table_builder::share(found.value());
                proof {
                    assert(before.contains_key(key_view));
                    assert(self.holds_block(handle.offset, *block));
                    if self.indexed() && self.apart() {
                        let size = choose|size: u64| #[trigger]
                            self.names(BlockHandle { offset: handle.offset, size })
                                && stored_block::read_stored(
                                self.bytes(),
                                BlockHandle { offset: handle.offset, size },
                                false,
                                self.zip(),
                            ) == StoredRead::Block(block@);
                        assert(BlockHandle { offset: handle.offset, size } == *handle);
                        block.lemma_is_block();
                    }
                }
                return Ok(block);
            },
            None => {},
        }
        let block = match self.read_block(handle, verify) {
            Err(error) => {
                return Err(error);
            },
            Ok(block) => block,
        };
        proof {
            assert(BlockHandle { offset: handle.offset, size: handle.size } == *handle);
            assert(self.names(BlockHandle { offset: handle.offset, size: handle.size }));
            assert(self.holds_block(handle.offset, *block));
            block.lemma_is_block();
        }
        if fill_cache {
            let charge: usize = block.size();
            let handle_kept = block_cache.insert(
                key.as_slice(),
                table_builder::share(&block),
                charge,
            );
            proof {
                let after = block_cache.entries();
                assert forall|offset: u64| #[trigger]
                    after.contains_key(cache_key(self.id(), offset)) implies {
                    let block = after[cache_key(self.id(), offset)];
                    block.wf() && self.holds_block(offset, *block)
                } by {
                    lemma_cache_key(self.id(), offset, handle.offset);
                    if offset != handle.offset {
                        assert(before.contains_key(cache_key(self.id(), offset)));
                    }
                }
            }
        }
        Ok(block)
    }

    /// Whether the bytes of the index cannot be read as far as a key.
    pub open spec fn index_fails(&self, target: Seq<u8>) -> bool {
        data::sought(self.index_image(), self.order(), target) is Fault
    }

    /// The handle of the block that a key may be in. `asked` is what the filter is
    /// asked for.
    fn locate(&self, target: &[u8], asked: &[u8]) -> (found: status::Result<Option<BlockHandle>>)
        requires
            self.wf(),
            self.order().admits(target@),
        ensures
            found matches Ok(Some(handle)) ==> self.names(handle),
            match data::sought(self.index_image(), self.order(), target@) {
                data::Sought::Fault(text) => found matches Err(error) && error.says(
                    status::Code::Corruption,
                    data::fault_text(text),
                ),
                data::Sought::End => found matches Ok(None),
                data::Sought::Found(item) => match block_handle::read_handle(item.value) {
                    HandleRead::Handle { handle, length: _ } => if filter_admits(
                        self.filter_data(),
                        handle.offset,
                        asked@,
                    ) {
                        found matches Ok(Some(h)) && h == handle
                    } else {
                        found matches Ok(None)
                    },
                    failed => found matches Err(error) && error.says(
                        status::Code::Corruption,
                        block_handle::handle_error(failed),
                    ),
                },
            },
            self.indexed() ==> match located(self.order(), self.index(), target@) {
                None => found matches Ok(None),
                Some(HandleRead::Handle { handle, length: _ }) => if filter_admits(
                    self.filter_data(),
                    handle.offset,
                    asked@,
                ) {
                    found matches Ok(Some(h)) && h == handle
                } else {
                    found matches Ok(None)
                },
                Some(failed) => found matches Err(error) && error.says(
                    status::Code::Corruption,
                    block_handle::handle_error(failed),
                ),
            },
    {
        let mut index_iter = BlockIter::new(
            &*self.index_block,
            comparator::copy_of(&self.comparator),
        );
        proof {
            index_iter.lemma_scan();
        }
        index_iter.seek(target);
        let ghost index = self.index();
        let ghost place = db_iterator::first_from(self.comparator, index, target@);
        proof {
            index_iter.lemma_scan();
            if self.indexed() {
                db_iterator::lemma_sought(index_iter.scan(), self.comparator, index, target@);
                db_iterator::lemma_first_from(self.comparator, index, target@, 0);
            }
        }
        if !index_iter.valid() {
            return match index_iter.status() {
                Err(error) => Err(error),
                Ok(_) => Ok(None),
            };
        }
        let mut handle_bytes: &[u8] = index_iter.value();
        let handle = match BlockHandle::decode_from(&mut handle_bytes) {
            Err(error) => {
                return Err(error);
            },
            Ok(handle) => handle,
        };
        proof {
            if self.indexed() {
                assert(index[place].1 == index_iter.scan().value());
                assert(self.names(handle));
            }
        }
        match &self.filter {
            None => {},
            Some(filter) => {
                if !filter.key_may_match(handle.offset, asked) {
                    return Ok(None);
                }
            },
        }
        Ok(Some(handle))
    }

    /// The first entry of a block from a key on.
    fn first_in_block(&self, block: &Block, target: &[u8]) -> (found: status::Result<
        Option<(Vec<u8>, Vec<u8>)>,
    >)
        requires
            block.wf(),
            self.order().admits(target@),
        ensures
            match data::sought(block@, self.order(), target@) {
                data::Sought::Fault(text) => found matches Err(error) && error.says(
                    status::Code::Corruption,
                    data::fault_text(text),
                ),
                data::Sought::End => found matches Ok(None),
                data::Sought::Found(item) => found matches Ok(Some(pair)) && pair.0@ == item.key
                    && pair.1@ == item.value && self.order().admits(item.key)
                    && !self.order().less(item.key, target@),
            },
            data::sound(block@, self.order()) ==> {
                let entries = data::pairs(data::items_of(block@));
                match db_iterator::pair_at(
                    entries,
                    db_iterator::first_from(self.order(), entries, target@),
                ) {
                    None => found matches Ok(None),
                    Some((key, value)) => (found matches Ok(Some(pair)) && pair.0@ == key
                        && pair.1@ == value) && self.order().admits(key) && !self.order().less(
                        key,
                        target@,
                    ),
                }
            },
    {
        let mut iter = BlockIter::new(block, comparator::copy_of(&self.comparator));
        proof {
            iter.lemma_scan();
        }
        iter.seek(target);
        proof {
            iter.lemma_scan();
            data::lemma_sought(block@, self.comparator, target@);
            if data::sound(block@, self.order()) {
                let entries = data::pairs(data::items_of(block@));
                db_iterator::lemma_sought(iter.scan(), self.comparator, entries, target@);
                db_iterator::lemma_first_from(self.comparator, entries, target@, 0);
            }
        }
        if !iter.valid() {
            return match iter.status() {
                Err(error) => Err(error),
                Ok(_) => Ok(None),
            };
        }
        Ok(
            Some(
                (vstd::slice::slice_to_vec(iter.key()), vstd::slice::slice_to_vec(iter.value())),
            ),
        )
    }

    /// The value of a key in a block.
    fn value_in_block(&self, block: &Block, target: &[u8]) -> (read: status::Result<
        Option<Vec<u8>>,
    >)
        requires
            block.wf(),
            self.order().admits(target@),
        ensures
            value_sought(
                data::sought(block@, self.order(), target@),
                self.order(),
                target@,
                read,
            ),
            data::sound(block@, self.order()) ==> value_is(
                BlockFor::Entries(data::pairs(data::items_of(block@))),
                self.order(),
                target@,
                read,
            ),
    {
        match self.first_in_block(block, target) {
            Err(error) => Err(error),
            Ok(None) => Ok(None),
            Ok(Some((key, value))) => {
                if comparator::equivalent(&self.comparator, key.as_slice(), target) {
                    Ok(Some(value))
                } else {
                    Ok(None)
                }
            },
        }
    }

    /// What a block knows of an internal key.
    fn lookup_in_block(&self, block: &Block, target: &[u8]) -> (read: status::Result<
        LookupResult,
    >)
        requires
            block.wf(),
            self.order().admits(target@),
            target@.len() >= 8,
        ensures
            lookup_sought(data::sought(block@, self.order(), target@), target@, read),
            data::sound(block@, self.order()) ==> lookup_is(
                BlockFor::Entries(data::pairs(data::items_of(block@))),
                self.order(),
                target@,
                read,
            ),
    {
        match self.first_in_block(block, target) {
            Err(error) => Err(error),
            Ok(None) => Ok(LookupResult::NotFound),
            Ok(Some((key, value))) => entry_as_lookup(key.as_slice(), value, target),
        }
    }

    /// The value of a key. `None` where the table does not have it. The block is read from the
    /// file; [`Table::get_full`] reads by way of a cache.
    pub fn get(&self, target: &[u8]) -> (read: status::Result<Option<Vec<u8>>>)
        requires
            self.wf(),
            self.order().admits(target@),
        ensures
            self.index_fails(target@) ==> (read matches Err(error) && error.kind()
                == status::Code::Corruption),
            self.reliable() || read is Ok ==> value_is(
                self.block_sought(target@, target@, true),
                self.order(),
                target@,
                read,
            ),
            self.indexed() && (self.reliable() || read is Ok) ==> value_is(
                self.block_for(target@, target@, true),
                self.order(),
                target@,
                read,
            ),
    {
        self.get_verify(target, true)
    }

    /// The value of a key. With `verify` the checksum of the block is checked.
    pub fn get_verify(&self, target: &[u8], verify: bool) -> (read: status::Result<
        Option<Vec<u8>>,
    >)
        requires
            self.wf(),
            self.order().admits(target@),
        ensures
            self.index_fails(target@) ==> (read matches Err(error) && error.kind()
                == status::Code::Corruption),
            self.reliable() || read is Ok ==> value_is(
                self.block_sought(target@, target@, verify),
                self.order(),
                target@,
                read,
            ),
            self.indexed() && (self.reliable() || read is Ok) ==> value_is(
                self.block_for(target@, target@, verify),
                self.order(),
                target@,
                read,
            ),
    {
        let handle = match self.locate(target, target) {
            Err(error) => {
                return Err(error);
            },
            Ok(None) => {
                return Ok(None);
            },
            Ok(Some(handle)) => handle,
        };
        match self.read_block(&handle, verify) {
            Err(error) => Err(error),
            Ok(block) => {
                proof {
                    block.lemma_is_block();
                }
                self.value_in_block(&*block, target)
            },
        }
    }

    /// The value of a key, by way of the cache.
    pub fn get_full<B: Cache<Arc<Block>>>(
        &self,
        block_cache: &mut B,
        target: &[u8],
        verify: bool,
        fill_cache: bool,
    ) -> (read: status::Result<Option<Vec<u8>>>)
        requires
            self.wf(),
            self.order().admits(target@),
            old(block_cache).wf(),
            self.cached_right(old(block_cache).entries()),
        ensures
            final(block_cache).wf(),
            final(block_cache).issued() == old(block_cache).issued(),
            self.cached_right(final(block_cache).entries()),
            self.only_own_added(old(block_cache).entries(), final(block_cache).entries()),
            !fill_cache ==> final(block_cache).entries() == old(block_cache).entries(),
            final(block_cache).keeps() == old(block_cache).keeps(),
            self.index_fails(target@) ==> (read matches Err(error) && error.kind()
                == status::Code::Corruption),
            match self.cached_for(old(block_cache).entries(), target@) {
                None => self.reliable() || read is Ok ==> value_is(
                    self.block_sought(target@, target@, verify),
                    self.order(),
                    target@,
                    read,
                ),
                Some(block) => old(block_cache).alone() ==> value_sought(
                    data::sought(block@, self.order(), target@),
                    self.order(),
                    target@,
                    read,
                ),
            },
            self.indexed() && self.apart() && (self.reliable() || read is Ok) ==> value_is(
                self.block_for(target@, target@, verify),
                self.order(),
                target@,
                read,
            ) || (self.has_unchecked(old(block_cache).entries(), target@) && value_is(
                self.block_for(target@, target@, false),
                self.order(),
                target@,
                read,
            )),
            verify && self.has_unchecked(final(block_cache).entries(), target@)
                ==> self.has_unchecked(old(block_cache).entries(), target@),
            fill_cache && old(block_cache).keeps() && (read matches Ok(Some(_)))
                ==> self.keeps_block(final(block_cache).entries(), target@),
    {
        let handle = match self.locate(target, target) {
            Err(error) => {
                return Err(error);
            },
            Ok(None) => {
                return Ok(None);
            },
            Ok(Some(handle)) => handle,
        };
        match self.read_block_cached_full(block_cache, &handle, verify, fill_cache) {
            Err(error) => Err(error),
            Ok(block) => {
                proof {
                    block.lemma_is_block();
                }
                self.value_in_block(&*block, target)
            },
        }
    }

    /// What the table knows of an internal key. The block is read from the file;
    /// [`Table::internal_get_full`] reads by way of a cache.
    pub fn internal_get(&self, target: &[u8]) -> (read: status::Result<LookupResult>)
        requires
            self.wf(),
            self.order().admits(target@),
            target@.len() >= 8,
        ensures
            self.index_fails(target@) ==> (read matches Err(error) && error.kind()
                == status::Code::Corruption),
            self.reliable() || read is Ok ==> lookup_is(
                self.block_sought(target@, target@, true),
                self.order(),
                target@,
                read,
            ),
            self.indexed() && (self.reliable() || read is Ok) ==> lookup_is(
                self.block_for(target@, target@, true),
                self.order(),
                target@,
                read,
            ),
    {
        self.internal_get_verify(target, true)
    }

    /// What the table knows of an internal key. With `verify` the checksum of the
    /// block is checked.
    pub fn internal_get_verify(&self, target: &[u8], verify: bool) -> (read: status::Result<
        LookupResult,
    >)
        requires
            self.wf(),
            self.order().admits(target@),
            target@.len() >= 8,
        ensures
            self.index_fails(target@) ==> (read matches Err(error) && error.kind()
                == status::Code::Corruption),
            self.reliable() || read is Ok ==> lookup_is(
                self.block_sought(target@, target@, verify),
                self.order(),
                target@,
                read,
            ),
            self.indexed() && (self.reliable() || read is Ok) ==> lookup_is(
                self.block_for(target@, target@, verify),
                self.order(),
                target@,
                read,
            ),
    {
        let handle = match self.locate(target, target) {
            Err(error) => {
                return Err(error);
            },
            Ok(None) => {
                return Ok(LookupResult::NotFound);
            },
            Ok(Some(handle)) => handle,
        };
        match self.read_block(&handle, verify) {
            Err(error) => Err(error),
            Ok(block) => {
                proof {
                    block.lemma_is_block();
                }
                self.lookup_in_block(&*block, target)
            },
        }
    }

    /// What the table knows of an internal key, by way of the cache.
    pub fn internal_get_full<B: Cache<Arc<Block>>>(
        &self,
        block_cache: &mut B,
        target: &[u8],
        verify: bool,
        fill_cache: bool,
    ) -> (read: status::Result<LookupResult>)
        requires
            self.wf(),
            self.order().admits(target@),
            target@.len() >= 8,
            old(block_cache).wf(),
            self.cached_right(old(block_cache).entries()),
        ensures
            final(block_cache).wf(),
            final(block_cache).issued() == old(block_cache).issued(),
            self.cached_right(final(block_cache).entries()),
            self.only_own_added(old(block_cache).entries(), final(block_cache).entries()),
            !fill_cache ==> final(block_cache).entries() == old(block_cache).entries(),
            final(block_cache).keeps() == old(block_cache).keeps(),
            self.index_fails(target@) ==> (read matches Err(error) && error.kind()
                == status::Code::Corruption),
            match self.cached_for(old(block_cache).entries(), target@) {
                None => self.reliable() || read is Ok ==> lookup_is(
                    self.block_sought(target@, target@, verify),
                    self.order(),
                    target@,
                    read,
                ),
                Some(block) => old(block_cache).alone() ==> lookup_sought(
                    data::sought(block@, self.order(), target@),
                    target@,
                    read,
                ),
            },
            self.indexed() && self.apart() && (self.reliable() || read is Ok) ==> lookup_is(
                self.block_for(target@, target@, verify),
                self.order(),
                target@,
                read,
            ) || (self.has_unchecked(old(block_cache).entries(), target@) && lookup_is(
                self.block_for(target@, target@, false),
                self.order(),
                target@,
                read,
            )),
            verify && self.has_unchecked(final(block_cache).entries(), target@)
                ==> self.has_unchecked(old(block_cache).entries(), target@),
            fill_cache && old(block_cache).keeps() && (read matches Ok(
                result,
            ) && !(result is NotFound))
                ==> self.keeps_block(final(block_cache).entries(), target@),
    {
        let handle = match self.locate(target, target) {
            Err(error) => {
                return Err(error);
            },
            Ok(None) => {
                return Ok(LookupResult::NotFound);
            },
            Ok(Some(handle)) => handle,
        };
        match self.read_block_cached_full(block_cache, &handle, verify, fill_cache) {
            Err(error) => Err(error),
            Ok(block) => {
                proof {
                    block.lemma_is_block();
                }
                self.lookup_in_block(&*block, target)
            },
        }
    }

    /// Whether the block of a handle is cached although its checksum does not match: a
    /// read that did not check it put it there.
    pub open spec fn holds_unchecked(
        &self,
        cached: Map<Seq<u8>, Arc<Block>>,
        handle: BlockHandle,
    ) -> bool {
        cached.contains_key(cache_key(self.id(), handle.offset)) && !(stored_block::read_stored(
            self.bytes(),
            handle,
            true,
            self.zip(),
        ) is Block)
    }

    /// Whether the block that a key may be in is cached although its checksum does not match.
    pub open spec fn has_unchecked(&self, cached: Map<Seq<u8>, Arc<Block>>, target: Seq<u8>) -> bool {
        self.indexed() && match located(self.order(), self.index(), target) {
            Some(HandleRead::Handle { handle, length: _ }) => self.holds_unchecked(cached, handle),
            _ => false,
        }
    }

    /// Whether the block that a key may be in is cached, where the index tells which it is.
    pub open spec fn keeps_block(&self, cached: Map<Seq<u8>, Arc<Block>>, target: Seq<u8>) -> bool {
        self.indexed() ==> (located(self.order(), self.index(), target) matches Some(
            HandleRead::Handle { handle, length: _ },
        ) && cached.contains_key(cache_key(self.id(), handle.offset)))
    }

    /// What was put into a cache is put there under keys of this table.
    pub open spec fn only_own_added(
        &self,
        before: Map<Seq<u8>, Arc<Block>>,
        after: Map<Seq<u8>, Arc<Block>>,
    ) -> bool {
        forall|key: Seq<u8>| #[trigger]
            after.contains_key(key) ==> (before.contains_key(key) && before[key] == after[key]) || (
            exists|offset: u64| key == #[trigger] cache_key(self.id(), offset))
    }

    /// About where a key would be in the file: where the block starts that it may
    /// be in, or the metaindex block if it is behind all blocks.
    pub fn approximate_offset_of(&self, key: &[u8]) -> (offset: u64)
        requires
            self.wf(),
            self.order().admits(key@),
        ensures
            self.indexed() ==> offset == match located(self.order(), self.index(), key@) {
                Some(HandleRead::Handle { handle, length: _ }) => handle.offset,
                _ => self.metaindex_place(),
            },
            offset == match data::sought(self.index_image(), self.order(), key@) {
                data::Sought::Found(item) => match block_handle::read_handle(item.value) {
                    HandleRead::Handle { handle, length: _ } => handle.offset,
                    _ => self.metaindex_place(),
                },
                _ => self.metaindex_place(),
            },
    {
        let mut index_iter = BlockIter::new(
            &*self.index_block,
            comparator::copy_of(&self.comparator),
        );
        proof {
            index_iter.lemma_scan();
        }
        index_iter.seek(key);
        proof {
            index_iter.lemma_scan();
            if self.indexed() {
                db_iterator::lemma_sought(index_iter.scan(), self.comparator, self.index(), key@);
            }
        }
        if index_iter.valid() {
            let mut input: &[u8] = index_iter.value();
            match BlockHandle::decode_from(&mut input) {
                Ok(handle) => handle.offset,
                Err(_) => self.metaindex_offset,
            }
        } else {
            self.metaindex_offset
        }
    }
}

/// What an entry says of an internal key.
fn entry_as_lookup(key: &[u8], value: Vec<u8>, target: &[u8]) -> (read: status::Result<
    LookupResult,
>)
    requires
        target@.len() >= 8,
    ensures
        internal_is(Some((key@, value@)), target@, read),
{
    if key.len() < 8 {
        return Err(Status::corruption("Table: malformed internal key"));
    }
    let user_key = crate::format::required_user_key(key);
    let target_user_key = crate::format::required_user_key(target);
    if !cache::same_bytes(user_key, target_user_key) {
        return Ok(LookupResult::NotFound);
    }
    match crate::format::extract_value_type(key) {
        Some(ValueType::Deletion) => Ok(LookupResult::Deleted),
        Some(ValueType::Value) => Ok(LookupResult::Found(value)),
        None => Err(Status::corruption("Table: unknown ValueType")),
    }
}

/// Whether what was read is the block that was stored.
pub open spec fn block_is(read: status::Result<Arc<Block>>, expected: StoredRead) -> bool {
    match expected {
        StoredRead::Corrupt(text) => read matches Err(error) && error.says(
            status::Code::Corruption,
            text,
        ),
        StoredRead::OutOfFile => read is Err,
        StoredRead::Malformed => read matches Err(error) && error.kind()
            == status::Code::Corruption,
        StoredRead::Block(image) => if data::is_block(image) {
            read matches Ok(block) && block@ == image
        } else {
            read matches Err(error) && error.says(status::Code::Corruption, block_error(image))
        },
    }
}

/// The cache keys of different tables differ.
pub proof fn lemma_cache_ids(a: u64, b: u64, x: u64, y: u64)
    ensures
        cache_key(a, x) == cache_key(b, y) ==> a == b,
{
    coding::lemma_pow256_values();
    coding::lemma_le_bytes_len(a as nat, 8);
    coding::lemma_le_bytes_len(b as nat, 8);
    coding::law_fixed_round_trip(a as nat, 8);
    coding::law_fixed_round_trip(b as nat, 8);
    if cache_key(a, x) == cache_key(b, y) {
        assert(cache_key(a, x).take(8) =~= coding::le_bytes(a as nat, 8));
        assert(cache_key(b, y).take(8) =~= coding::le_bytes(b as nat, 8));
    }
}

/// The cache keys of one table differ by their offsets.
proof fn lemma_cache_key(id: u64, a: u64, b: u64)
    ensures
        cache_key(id, a) == cache_key(id, b) ==> a == b,
{
    coding::lemma_pow256_values();
    coding::lemma_le_bytes_len(id as nat, 8);
    coding::lemma_le_bytes_len(a as nat, 8);
    coding::lemma_le_bytes_len(b as nat, 8);
    coding::law_fixed_round_trip(a as nat, 8);
    coding::law_fixed_round_trip(b as nat, 8);
    if cache_key(id, a) == cache_key(id, b) {
        assert(cache_key(id, a).skip(8) =~= coding::le_bytes(a as nat, 8));
        assert(cache_key(id, b).skip(8) =~= coding::le_bytes(b as nat, 8));
    }
}

} // verus!
