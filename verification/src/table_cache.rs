//! Cache of open tables.
//!
//! A [`TableCache`] keeps tables open by the numbers of their files, and shares one
//! cache of blocks among them. Table files do not change once they are there, so a
//! table that was opened earlier still has the bytes of its file.

use vstd::prelude::*;

use std::sync::Arc;

use crate::block::block_handle::HandleRead;
use crate::block::data::Block;
use crate::cache::Cache;
use crate::cache::CacheHandle;
use crate::cache::ShardedLRUCache;
use crate::coding;
use crate::comparator;
use crate::comparator::Comparator;
use crate::db_iter::db_iterator::DbIterator;
use crate::env::Env;
use crate::filename;
use crate::filter::BloomFilterPolicy;
use crate::filter::FilterPolicy;
use crate::status;
use crate::table::reader;
use crate::table::reader::OpenRead;
use crate::table::table_builder;
use crate::table::table_iterator;
use crate::table::Compressor;
use crate::table::NoCompressor;
use crate::table::Table;
use crate::table::TableIterator;
use crate::version_set::LookupResult;

verus! {

/// The path of a table: what older tables are named only if there is no other.
pub open spec fn table_path(
    files: Map<Seq<char>, Seq<u8>>,
    dbname: Seq<char>,
    number: u64,
) -> Seq<char> {
    if files.contains_key(filename::numbered(dbname, number, "ldb"@)) {
        filename::numbered(dbname, number, "ldb"@)
    } else {
        filename::numbered(dbname, number, "sst"@)
    }
}

/// Whether the path of a table can be told: not where a file system that fails may hide one
/// of two files of its number.
pub open spec fn name_is_known<E: Env>(env: E, dbname: Seq<char>, number: u64) -> bool {
    env.reliable() || !(env.files().contains_key(filename::numbered(dbname, number, "ldb"@))
        && env.files().contains_key(filename::numbered(dbname, number, "sst"@)))
}

/// Whether the paths of some tables can be told.
pub open spec fn names_are_known<E: Env>(env: E, dbname: Seq<char>, numbers: Seq<u64>) -> bool {
    forall|i: int| 0 <= i < numbers.len() ==> name_is_known(env, dbname, #[trigger] numbers[i])
}

/// The key under which a table is cached.
pub open spec fn table_key(number: u64) -> Seq<u8> {
    coding::le_bytes(number as nat, 8)
}

/// Whether no block is cached under an id that was not given out.
pub open spec fn ids_ahead<B: Cache<Arc<Block>>>(block_cache: B) -> bool {
    forall|id: u64, offset: u64|
        id > block_cache.issued() ==> !#[trigger] block_cache.entries().contains_key(
            reader::cache_key(id, offset),
        )
}

/// Open tables by the numbers of their files.
pub struct TableCache<
    C: Comparator,
    E: Env,
    P: FilterPolicy = BloomFilterPolicy,
    Z: Compressor = NoCompressor,
    B: Cache<Arc<Block>> = ShardedLRUCache<Arc<Block>>,
> {
    dbname: String,
    comparator: C,
    cache: ShardedLRUCache<Arc<Table<C, E::RandomAccess, P, Z>>>,
    /// Blocks of all tables.
    block_cache: B,
    filter_policy: Option<Arc<P>>,
    compressor: Option<Arc<Z>>,
}

/// How the tables of a cache are opened.
pub struct TableSetup<C, P, Z> {
    pub dbname: Seq<char>,
    pub comparator: C,
    pub policy: Option<Arc<P>>,
    pub compressor: Option<Arc<Z>>,
}

impl<C: Comparator, P: FilterPolicy, Z: Compressor> TableSetup<C, P, Z> {
    /// What opening the file of the given bytes comes to.
    pub open spec fn opening(self, bytes: Seq<u8>) -> OpenRead {
        reader::opened(bytes, bytes.len() as int, self.compressor)
    }

    /// Whether a table is what opening a file of the given bytes gives.
    pub open spec fn is_table_of<F: crate::env::RandomAccessFile>(
        self,
        table: Table<C, F, P, Z>,
        bytes: Seq<u8>,
    ) -> bool {
        &&& table.bytes() == bytes
        &&& reader::opens_as(
            self.opening(bytes),
            self.comparator,
            self.policy,
            self.compressor,
            Ok::<Table<C, F, P, Z>, status::Status>(table),
        )
    }
}

/// What finding a table fails with, if it does.
pub open spec fn fails_as(expected: OpenRead, error: status::Status) -> bool {
    match expected {
        OpenRead::Corrupt(text) => error.says(status::Code::Corruption, text),
        OpenRead::OutOfFile => true,
        OpenRead::Malformed => error.kind() == status::Code::Corruption,
        OpenRead::Opened { footer: _, index: _ } => false,
    }
}

impl<
    C: Comparator,
    E: Env,
    P: FilterPolicy,
    Z: Compressor,
    B: Cache<Arc<Block>>,
> TableCache<C, E, P, Z, B> {
    /// How tables are opened.
    pub closed spec fn setup(&self) -> TableSetup<C, P, Z> {
        TableSetup {
            dbname: self.dbname@,
            comparator: self.comparator,
            policy: self.filter_policy,
            compressor: self.compressor,
        }
    }

    /// The tables that are open, by their keys.
    pub closed spec fn tables(&self) -> Map<Seq<u8>, Arc<Table<C, E::RandomAccess, P, Z>>> {
        self.cache.entries()
    }

    /// The cache of the blocks.
    pub closed spec fn blocks(&self) -> B {
        self.block_cache
    }

    /// A table of which all cached blocks are right. No other has its id.
    pub open spec fn tracks(&self, table: Table<C, E::RandomAccess, P, Z>) -> bool {
        &&& table.wf()
        &&& table.order() == self.setup().comparator
        &&& table.zip() == self.setup().compressor
        &&& table.id() <= self.blocks().issued()
        &&& table.cached_right(self.blocks().entries())
        &&& forall|key: Seq<u8>|
            self.tables().contains_key(key) && (#[trigger] self.tables()[key]).id() == table.id()
                ==> *self.tables()[key] == table
    }

    /// All tables are open, each under an id of its own, and their cached blocks are
    /// right. Each counts for one.
    pub closed spec fn wf(&self) -> bool {
        &&& self.cache.wf()
        &&& self.block_cache.wf()
        &&& ids_ahead(self.block_cache)
        &&& forall|key: Seq<u8>| #[trigger]
            self.cache.entries().contains_key(key) ==> self.tracks(*self.cache.entries()[key])
                && self.cache.charge_of(key) == 1
    }

    /// The open tables have the bytes of their files.
    pub open spec fn agrees(&self, env: E) -> bool {
        forall|number: u64| #[trigger]
            self.tables().contains_key(table_key(number)) ==> self.backed(
                env,
                number,
                *self.tables()[table_key(number)],
            )
    }

    /// Whether a table is that of a file number.
    pub open spec fn backed(
        &self,
        env: E,
        number: u64,
        table: Table<C, E::RandomAccess, P, Z>,
    ) -> bool {
        let path = table_path(env.files(), self.setup().dbname, number);
        &&& env.reliable() ==> table.reliable()
        &&& name_is_known(env, self.setup().dbname, number) ==> env.files().contains_key(path)
            && is_opened(self.setup(), table, env.files()[path])
    }

    /// The numbers of the open tables of which the block that a key may be in is cached
    /// although its checksum does not match.
    pub open spec fn unchecked(&self, key: Seq<u8>) -> Set<u64> {
        Set::new(
            |number: u64|
                self.tables().contains_key(table_key(number)) && self.tables()[table_key(
                    number,
                )].has_unchecked(self.blocks().entries(), key),
        )
    }

    /// Whether the table of a number is open, and the block that a key may be in is cached,
    /// where its index tells which it is.
    pub open spec fn keeps_block(&self, number: u64, key: Seq<u8>) -> bool {
        self.tables().contains_key(table_key(number)) && self.tables()[table_key(
            number,
        )].keeps_block(self.blocks().entries(), key)
    }

    /// Whether another id can be given out.
    pub open spec fn has_ids(&self) -> bool {
        self.blocks().issued() < u64::MAX
    }

    /// Whether so many more ids can be given out: one is taken for each table that is opened.
    pub fn has_ids_for(&self, count: u64) -> (answer: bool)
        requires
            self.wf(),
        ensures
            answer == (self.blocks().issued() + count <= u64::MAX),
    {
        count <= u64::MAX - self.block_cache.last_id()
    }

    /// A cache of `table_capacity` tables and `block_cache_size` bytes of blocks.
    pub fn new(
        dbname: &str,
        comparator: C,
        table_capacity: usize,
        block_cache_size: usize,
    ) -> (cache: TableCache<C, E, P, Z, ShardedLRUCache<Arc<Block>>>)
        ensures
            cache.wf(),
            cache.has_ids(),
            cache.setup() == (TableSetup {
                dbname: dbname@,
                comparator,
                policy: None::<Arc<P>>,
                compressor: None::<Arc<Z>>,
            }),
            cache.tables() == Map::<Seq<u8>, Arc<Table<C, E::RandomAccess, P, Z>>>::empty(),
    {
        Self::new_with_filter(dbname, comparator, table_capacity, block_cache_size, None)
    }

    /// As [`TableCache::new`], with a filter policy for the tables.
    pub fn new_with_filter(
        dbname: &str,
        comparator: C,
        table_capacity: usize,
        block_cache_size: usize,
        filter_policy: Option<Arc<P>>,
    ) -> (cache: TableCache<C, E, P, Z, ShardedLRUCache<Arc<Block>>>)
        ensures
            cache.wf(),
            cache.has_ids(),
            cache.setup() == (TableSetup {
                dbname: dbname@,
                comparator,
                policy: filter_policy,
                compressor: None::<Arc<Z>>,
            }),
            cache.tables() == Map::<Seq<u8>, Arc<Table<C, E::RandomAccess, P, Z>>>::empty(),
    {
        let block_cache: ShardedLRUCache<Arc<Block>> = ShardedLRUCache::new(block_cache_size);
        TableCache::<C, E, P, Z, ShardedLRUCache<Arc<Block>>>::new_full(
            dbname,
            comparator,
            table_capacity,
            block_cache,
            filter_policy,
            None,
        )
    }

    /// As [`TableCache::new_with_filter`], with a cache of blocks that is given.
    pub fn new_with_block_cache(
        dbname: &str,
        comparator: C,
        table_capacity: usize,
        block_cache: B,
        filter_policy: Option<Arc<P>>,
    ) -> (cache: Self)
        requires
            block_cache.wf(),
            ids_ahead(block_cache),
        ensures
            cache.wf(),
            cache.blocks() == block_cache,
            cache.setup() == (TableSetup {
                dbname: dbname@,
                comparator,
                policy: filter_policy,
                compressor: None::<Arc<Z>>,
            }),
            cache.tables() == Map::<Seq<u8>, Arc<Table<C, E::RandomAccess, P, Z>>>::empty(),
    {
        Self::new_full(dbname, comparator, table_capacity, block_cache, filter_policy, None)
    }

    /// A cache of tables with all there is to say of how they are opened.
    pub fn new_full(
        dbname: &str,
        comparator: C,
        table_capacity: usize,
        block_cache: B,
        filter_policy: Option<Arc<P>>,
        compressor: Option<Arc<Z>>,
    ) -> (cache: Self)
        requires
            block_cache.wf(),
            ids_ahead(block_cache),
        ensures
            cache.wf(),
            cache.blocks() == block_cache,
            cache.setup() == (TableSetup {
                dbname: dbname@,
                comparator,
                policy: filter_policy,
                compressor,
            }),
            cache.tables() == Map::<Seq<u8>, Arc<Table<C, E::RandomAccess, P, Z>>>::empty(),
    {
        TableCache {
            dbname: dbname.to_owned(),
            comparator,
            cache: ShardedLRUCache::new(table_capacity),
            block_cache,
            filter_policy,
            compressor,
        }
    }

    /// Opens the table of a file number.
    fn open_table(&self, env: &E, file_number: u64, id: u64) -> (opened: status::Result<
        Table<C, E::RandomAccess, P, Z>,
    >)
        requires
            env.wf(),
        ensures
            opened matches Ok(table) ==> {
                &&& table.wf()
                &&& table.order() == self.setup().comparator
                &&& table.zip() == self.setup().compressor
                &&& table.id() == id
                &&& self.backed(*env, file_number, table)
            },
            env.reliable() ==> {
                let path = table_path(env.files(), self.setup().dbname, file_number);
                &&& opened is Ok == (env.files().contains_key(path) && self.setup().opening(
                    env.files()[path],
                ) is Opened)
                &&& env.files().contains_key(path) ==> (opened matches Err(error) ==> fails_as(
                    self.setup().opening(env.files()[path]),
                    error,
                ))
            },
    {
        let ldb_path = filename::table_file_name(self.dbname.as_str(), file_number);
        let sst_path = filename::sst_table_file_name(self.dbname.as_str(), file_number);
        let path = if env.file_exists(ldb_path.as_str()) {
            ldb_path
        } else {
            sst_path
        };
        let file_size = match env.get_file_size(path.as_str()) {
            Err(error) => {
                return Err(error);
            },
            Ok(size) => size,
        };
        let file = match env.new_random_access_file(path.as_str()) {
            Err(error) => {
                return Err(error);
            },
            Ok(file) => file,
        };
        Table::open_random_with_options(
            file,
            file_size,
            comparator::copy_of(&self.comparator),
            id,
            table_builder::share_option(&self.filter_policy),
            table_builder::share_option(&self.compressor),
        )
    }

    /// The table of a file number, which is opened if it is not open.
    fn find_table(&mut self, env: &E, file_number: u64) -> (found: status::Result<
        CacheHandle<Arc<Table<C, E::RandomAccess, P, Z>>>,
    >)
        requires
            old(self).wf(),
            old(self).has_ids(),
            old(self).agrees(*env),
            env.wf(),
        ensures
            final(self).wf(),
            final(self).agrees(*env),
            final(self).setup() == old(self).setup(),
            old(self).blocks().issued() <= final(self).blocks().issued() <= old(self).blocks().issued()
                + 1,
            final(self).blocks().entries() == old(self).blocks().entries(),
            final(self).blocks().keeps() == old(self).blocks().keeps(),
            forall|key: Seq<u8>| #[trigger]
                final(self).unchecked(key).subset_of(old(self).unchecked(key)),
            found matches Ok(handle) ==> {
                &&& final(self).tracks(*handle.item())
                &&& final(self).backed(*env, file_number, *handle.item())
                &&& final(self).tables().contains_key(table_key(file_number))
                &&& final(self).tables()[table_key(file_number)] == handle.item()
            },
            env.reliable() ==> {
                let path = table_path(env.files(), old(self).setup().dbname, file_number);
                &&& found is Ok == (env.files().contains_key(path) && old(self).setup().opening(
                    env.files()[path],
                ) is Opened)
                &&& env.files().contains_key(path) ==> (found matches Err(error) ==> fails_as(
                    old(self).setup().opening(env.files()[path]),
                    error,
                ))
            },
    {
        let mut key: Vec<u8> = Vec::new();
        coding::put_fixed64(&mut key, file_number);
        assert(key@ =~= table_key(file_number));
        let looked_up = self.cache.lookup(key.as_slice());
        proof {
            lemma_id_given(*old(self), *self);
            lemma_same_tables(*old(self), *self, *env);
        }
        match looked_up {
            Some(handle) => {
                assert(self.tables().contains_key(table_key(file_number)));
                proof {
                    let one = handle.item();
                    assert(old(self).tracks(*one));
                    assert forall|key: Seq<u8>|
                        self.tables().contains_key(key) && (#[trigger] self.tables()[key]).id()
                            == one.id() implies *self.tables()[key] == *one by {
                        assert(old(self).tables()[key].id() == one.id());
                    }
                }
                return Ok(handle);
            },
            None => {},
        }
        let id = self.block_cache.new_id();
        proof {
            lemma_id_given(*old(self), *self);
            lemma_same_tables(*old(self), *self, *env);
        }
        match self.open_table(env, file_number, id) {
            Err(error) => Err(error),
            Ok(table) => {
                let ghost earlier = *self;
                let shared = Arc::new(table);
                let handle = self.cache.insert(key.as_slice(), shared, 1);
                proof {
                    lemma_table_added(*old(self), earlier, *self, file_number, shared, *env);
                }
                Ok(handle)
            },
        }
    }

    /// The value of a key in the table of a file. Checksums are checked.
    pub fn get(&mut self, env: &E, file_number: u64, key: &[u8]) -> (read: status::Result<
        Option<Vec<u8>>,
    >)
        requires
            old(self).wf(),
            old(self).has_ids(),
            old(self).agrees(*env),
            old(self).setup().comparator.admits(key@),
            env.wf(),
        ensures
            final(self).wf(),
            final(self).agrees(*env),
            final(self).setup() == old(self).setup(),
            env.reliable() || (read is Ok && name_is_known(
                *env,
                old(self).setup().dbname,
                file_number,
            )) ==> value_read::<C, E::RandomAccess, P, Z>(
                old(self).setup(),
                env.files(),
                file_number,
                key@,
                true,
                old(self).unchecked(key@).contains(file_number),
                read,
            ),
            final(self).unchecked(key@).subset_of(old(self).unchecked(key@)),
            old(self).blocks().keeps() && (read matches Ok(Some(_))) ==> final(self).keeps_block(
                file_number,
                key@,
            ),
    {
        self.get_verify(env, file_number, key, true)
    }

    /// The value of a key in the table of a file. With `verify` checksums are
    /// checked.
    pub fn get_verify(&mut self, env: &E, file_number: u64, key: &[u8], verify: bool) -> (read:
        status::Result<Option<Vec<u8>>>)
        requires
            old(self).wf(),
            old(self).has_ids(),
            old(self).agrees(*env),
            old(self).setup().comparator.admits(key@),
            env.wf(),
        ensures
            final(self).wf(),
            final(self).agrees(*env),
            final(self).setup() == old(self).setup(),
            env.reliable() || (read is Ok && name_is_known(
                *env,
                old(self).setup().dbname,
                file_number,
            )) ==> value_read::<C, E::RandomAccess, P, Z>(
                old(self).setup(),
                env.files(),
                file_number,
                key@,
                verify,
                old(self).unchecked(key@).contains(file_number),
                read,
            ),
            verify ==> final(self).unchecked(key@).subset_of(old(self).unchecked(key@)),
            old(self).blocks().keeps() && (read matches Ok(Some(_))) ==> final(self).keeps_block(
                file_number,
                key@,
            ),
    {
        self.get_full(env, file_number, key, verify, true)
    }

    /// The value of a key in the table of a file. With `fill_cache` the block that is
    /// read is kept.
    #[verifier::spinoff_prover]
    #[verifier::rlimit(60)]
    pub fn get_full(
        &mut self,
        env: &E,
        file_number: u64,
        key: &[u8],
        verify: bool,
        fill_cache: bool,
    ) -> (read: status::Result<Option<Vec<u8>>>)
        requires
            old(self).wf(),
            old(self).has_ids(),
            old(self).agrees(*env),
            old(self).setup().comparator.admits(key@),
            env.wf(),
        ensures
            final(self).wf(),
            final(self).agrees(*env),
            final(self).setup() == old(self).setup(),
            final(self).blocks().keeps() == old(self).blocks().keeps(),
            !fill_cache ==> final(self).blocks().entries() == old(self).blocks().entries(),
            env.reliable() || (read is Ok && name_is_known(
                *env,
                old(self).setup().dbname,
                file_number,
            )) ==> value_read::<C, E::RandomAccess, P, Z>(
                old(self).setup(),
                env.files(),
                file_number,
                key@,
                verify,
                old(self).unchecked(key@).contains(file_number),
                read,
            ),
            verify ==> final(self).unchecked(key@).subset_of(old(self).unchecked(key@)),
            fill_cache && old(self).blocks().keeps() && (read matches Ok(Some(_))) ==> final(self).keeps_block(
                file_number,
                key@,
            ),
    {
        match self.find_table(env, file_number) {
            Err(error) => Err(error),
            Ok(handle) => {
                let ghost before = *self;
                let read = handle.value().get_full(&mut self.block_cache, key, verify, fill_cache);
                proof {
                    lemma_block_cache_used(before, *self, handle.item());
                    lemma_same_tables(before, *self, *env);
                    if verify {
                        lemma_unchecked_kept(before, *self, handle.item(), key@);
                    }
                    assert(before.unchecked(key@).subset_of(old(self).unchecked(key@)));
                    assert(handle.item().has_unchecked(before.blocks().entries(), key@)
                        ==> before.unchecked(key@).contains(file_number));
                }
                read
            },
        }
    }

    /// What the table of a file knows of an internal key. Checksums are checked.
    pub fn internal_get(&mut self, env: &E, file_number: u64, internal_key: &[u8]) -> (read:
        status::Result<LookupResult>)
        requires
            old(self).wf(),
            old(self).has_ids(),
            old(self).agrees(*env),
            old(self).setup().comparator.admits(internal_key@),
            internal_key@.len() >= 8,
            env.wf(),
        ensures
            final(self).wf(),
            final(self).agrees(*env),
            final(self).setup() == old(self).setup(),
            env.reliable() || (read is Ok && name_is_known(
                *env,
                old(self).setup().dbname,
                file_number,
            )) ==> lookup_read::<C, E::RandomAccess, P, Z>(
                old(self).setup(),
                env.files(),
                file_number,
                internal_key@,
                true,
                old(self).unchecked(internal_key@).contains(file_number),
                read,
            ),
            final(self).unchecked(internal_key@).subset_of(old(self).unchecked(internal_key@)),
            old(self).blocks().keeps() && (read matches Ok(
                result,
            ) && !(result is NotFound)) ==> final(self).keeps_block(
                file_number,
                internal_key@,
            ),
    {
        self.internal_get_verify(env, file_number, internal_key, true)
    }

    /// What the table of a file knows of an internal key. With `verify` checksums are
    /// checked.
    pub fn internal_get_verify(
        &mut self,
        env: &E,
        file_number: u64,
        internal_key: &[u8],
        verify: bool,
    ) -> (read: status::Result<LookupResult>)
        requires
            old(self).wf(),
            old(self).has_ids(),
            old(self).agrees(*env),
            old(self).setup().comparator.admits(internal_key@),
            internal_key@.len() >= 8,
            env.wf(),
        ensures
            final(self).wf(),
            final(self).agrees(*env),
            final(self).setup() == old(self).setup(),
            env.reliable() || (read is Ok && name_is_known(
                *env,
                old(self).setup().dbname,
                file_number,
            )) ==> lookup_read::<C, E::RandomAccess, P, Z>(
                old(self).setup(),
                env.files(),
                file_number,
                internal_key@,
                verify,
                old(self).unchecked(internal_key@).contains(file_number),
                read,
            ),
            verify ==> final(self).unchecked(internal_key@).subset_of(old(self).unchecked(internal_key@)),
            old(self).blocks().keeps() && (read matches Ok(
                result,
            ) && !(result is NotFound)) ==> final(self).keeps_block(
                file_number,
                internal_key@,
            ),
    {
        self.internal_get_full(env, file_number, internal_key, verify, true)
    }

    /// What the table of a file knows of an internal key. With `fill_cache` the block
    /// that is read is kept.
    #[verifier::spinoff_prover]
    #[verifier::rlimit(60)]
    pub fn internal_get_full(
        &mut self,
        env: &E,
        file_number: u64,
        internal_key: &[u8],
        verify: bool,
        fill_cache: bool,
    ) -> (read: status::Result<LookupResult>)
        requires
            old(self).wf(),
            old(self).has_ids(),
            old(self).agrees(*env),
            old(self).setup().comparator.admits(internal_key@),
            internal_key@.len() >= 8,
            env.wf(),
        ensures
            final(self).wf(),
            final(self).agrees(*env),
            final(self).setup() == old(self).setup(),
            final(self).blocks().keeps() == old(self).blocks().keeps(),
            !fill_cache ==> final(self).blocks().entries() == old(self).blocks().entries(),
            old(self).blocks().issued() <= final(self).blocks().issued() <= old(self).blocks().issued() + 1,
            env.reliable() || (read is Ok && name_is_known(
                *env,
                old(self).setup().dbname,
                file_number,
            )) ==> lookup_read::<C, E::RandomAccess, P, Z>(
                old(self).setup(),
                env.files(),
                file_number,
                internal_key@,
                verify,
                old(self).unchecked(internal_key@).contains(file_number),
                read,
            ),
            verify ==> final(self).unchecked(internal_key@).subset_of(old(self).unchecked(internal_key@)),
            fill_cache && old(self).blocks().keeps() && (read matches Ok(
                result,
            ) && !(result is NotFound)) ==> final(self).keeps_block(
                file_number,
                internal_key@,
            ),
    {
        match self.find_table(env, file_number) {
            Err(error) => Err(error),
            Ok(handle) => {
                let ghost before = *self;
                let read = handle.value().internal_get_full(
                    &mut self.block_cache,
                    internal_key,
                    verify,
                    fill_cache,
                );
                proof {
                    lemma_block_cache_used(before, *self, handle.item());
                    lemma_same_tables(before, *self, *env);
                    if verify {
                        lemma_unchecked_kept(before, *self, handle.item(), internal_key@);
                    }
                    assert(before.unchecked(internal_key@).subset_of(old(self).unchecked(internal_key@)));
                    assert(handle.item().has_unchecked(before.blocks().entries(), internal_key@)
                        ==> before.unchecked(internal_key@).contains(file_number));
                }
                read
            },
        }
    }

    /// About where a key would be in the table of a file.
    pub fn approximate_offset_of(&mut self, env: &E, file_number: u64, key: &[u8]) -> (offset:
        status::Result<u64>)
        requires
            old(self).wf(),
            old(self).has_ids(),
            old(self).agrees(*env),
            old(self).setup().comparator.admits(key@),
            env.wf(),
        ensures
            final(self).wf(),
            final(self).agrees(*env),
            final(self).setup() == old(self).setup(),
            old(self).blocks().issued() <= final(self).blocks().issued() <= old(self).blocks().issued() + 1,
            env.reliable() || (offset is Ok && name_is_known(
                *env,
                old(self).setup().dbname,
                file_number,
            )) ==> offset_read::<C, E::RandomAccess, P, Z>(
                old(self).setup(),
                env.files(),
                file_number,
                key@,
                offset,
            ),
    {
        match self.find_table(env, file_number) {
            Err(error) => Err(error),
            Ok(handle) => {
                let offset = handle.value().approximate_offset_of(key);
                Ok(offset)
            },
        }
    }

    /// Closes the table of a file.
    pub fn evict(&mut self, file_number: u64)
        requires
            old(self).wf(),
        ensures
            final(self).wf(),
            final(self).setup() == old(self).setup(),
            final(self).blocks() == old(self).blocks(),
            final(self).tables() == old(self).tables().remove(table_key(file_number)),
            forall|env: E| #[trigger] old(self).agrees(env) ==> final(self).agrees(env),
    {
        let mut key: Vec<u8> = Vec::new();
        coding::put_fixed64(&mut key, file_number);
        assert(key@ =~= table_key(file_number));
        self.cache.erase(key.as_slice());
        proof {
            assert forall|k: Seq<u8>| #[trigger] self.cache.entries().contains_key(
                k,
            ) implies self.tracks(*self.cache.entries()[k]) by {
                assert(old(self).cache.entries().contains_key(k));
                let one = old(self).cache.entries()[k];
                assert(old(self).tracks(*one));
                assert forall|other: Seq<u8>|
                    self.tables().contains_key(other) && (#[trigger] self.tables()[other]).id()
                        == one.id() implies *self.tables()[other] == *one by {
                    assert(old(self).tables()[other] == self.tables()[other]);
                }
            }
            assert forall|env: E| #[trigger] old(self).agrees(env) implies self.agrees(env) by {
                assert forall|number: u64|
                    #[trigger] self.tables().contains_key(
                        table_key(number),
                    ) implies self.backed(
                    env,
                    number,
                    *self.tables()[table_key(number)],
                ) by {
                    assert(old(self).tables().contains_key(table_key(number)));
                }
            }
        }
    }
}

impl<
    C: Comparator + 'static,
    E: Env,
    P: FilterPolicy,
    Z: Compressor,
    B: Cache<Arc<Block>>,
> TableCache<C, E, P, Z, B> {
    /// The table of a file, which is opened if it is not open.
    pub fn table(&mut self, env: &E, file_number: u64) -> (found: status::Result<
        Arc<Table<C, E::RandomAccess, P, Z>>,
    >)
        requires
            old(self).wf(),
            old(self).has_ids(),
            old(self).agrees(*env),
            env.wf(),
        ensures
            final(self).wf(),
            final(self).agrees(*env),
            final(self).setup() == old(self).setup(),
            old(self).blocks().issued() <= final(self).blocks().issued() <= old(self).blocks().issued() + 1,
            found matches Ok(table) ==> table.wf() && table.order() == old(self).setup().comparator
                && final(self).backed(*env, file_number, *table),
            env.reliable() ==> {
                let path = table_path(env.files(), old(self).setup().dbname, file_number);
                &&& found is Ok == (env.files().contains_key(path) && old(self).setup().opening(
                    env.files()[path],
                ) is Opened)
                &&& env.files().contains_key(path) ==> (found matches Err(error) ==> fails_as(
                    old(self).setup().opening(env.files()[path]),
                    error,
                ))
            },
    {
        match self.find_table(env, file_number) {
            Err(error) => Err(error),
            Ok(handle) => Ok(table_builder::share(handle.value())),
        }
    }

    /// An iterator over the table of a file. With `verify` checksums are checked.
    pub fn new_iterator_verify(&mut self, env: &E, file_number: u64, verify: bool) -> (iter:
        status::Result<TableIterator<C, E::RandomAccess, P, Z>>)
        requires
            old(self).wf(),
            old(self).has_ids(),
            old(self).agrees(*env),
            env.wf(),
        ensures
            final(self).wf(),
            final(self).agrees(*env),
            final(self).setup() == old(self).setup(),
            old(self).blocks().issued() <= final(self).blocks().issued() <= old(self).blocks().issued() + 1,
            iter matches Ok(it) ==> {
                let table = it.blocks().table;
                &&& it.wf()
                &&& it.scan().current is None
                &&& it.scan().failure is None
                &&& it.scan().alike(
                    table_iterator::table_scan(
                        table.order(),
                        table.bytes(),
                        table.zip(),
                        table.index_image(),
                        verify,
                        true,
                    ),
                )
                &&& table.reliable() && it.scan().intact ==> it.scan().steady
                &&& table.order() == old(self).setup().comparator
                &&& it.blocks().verify == verify
                &&& final(self).backed(*env, file_number, *table)
                &&& it.index().same_source(
                    table_iterator::block_scan(table.order(), table.index_image()),
                )
            },
            env.reliable() ==> {
                let path = table_path(env.files(), old(self).setup().dbname, file_number);
                iter is Ok == (env.files().contains_key(path) && old(self).setup().opening(
                    env.files()[path],
                ) is Opened)
            },
    {
        match self.find_table(env, file_number) {
            Err(error) => Err(error),
            Ok(handle) => Ok(TableIterator::new(table_builder::share(handle.value()), verify)),
        }
    }
}

/// Whether a table is what opening the given bytes gives.
pub open spec fn is_opened<
    C: Comparator,
    F: crate::env::RandomAccessFile,
    P: FilterPolicy,
    Z: Compressor,
>(setup: TableSetup<C, P, Z>, table: Table<C, F, P, Z>, bytes: Seq<u8>) -> bool {
    setup.is_table_of(table, bytes)
}

/// What reading a value through the table of a file returns. With `verify` the checksum of
/// the block is checked, unless a block that was read earlier without a check is found again:
/// `unchecked` tells whether there is one whose checksum does not match.
pub open spec fn value_read<
    C: Comparator,
    F: crate::env::RandomAccessFile,
    P: FilterPolicy,
    Z: Compressor,
>(
    setup: TableSetup<C, P, Z>,
    files: Map<Seq<char>, Seq<u8>>,
    number: u64,
    key: Seq<u8>,
    verify: bool,
    unchecked: bool,
    read: status::Result<Option<Vec<u8>>>,
) -> bool {
    let path = table_path(files, setup.dbname, number);
    if !files.contains_key(path) {
        read is Err
    } else if !(setup.opening(files[path]) is Opened) {
        read matches Err(error) && fails_as(setup.opening(files[path]), error)
    } else {
        exists|table: Table<C, F, P, Z>| #[trigger]
            is_opened(setup, table, files[path]) && (table.indexed() && table.apart() ==> {
                ||| reader::value_is(
                    table.block_for(key, key, verify),
                    setup.comparator,
                    key,
                    read,
                )
                ||| unchecked && reader::value_is(
                    table.block_for(key, key, false),
                    setup.comparator,
                    key,
                    read,
                )
            })
    }
}

/// What looking an internal key up in the table of a file returns. With `verify` the checksum
/// of the block is checked, unless a block that was read earlier without a check is found
/// again: `unchecked` tells whether there is one whose checksum does not match.
pub open spec fn lookup_read<
    C: Comparator,
    F: crate::env::RandomAccessFile,
    P: FilterPolicy,
    Z: Compressor,
>(
    setup: TableSetup<C, P, Z>,
    files: Map<Seq<char>, Seq<u8>>,
    number: u64,
    key: Seq<u8>,
    verify: bool,
    unchecked: bool,
    read: status::Result<LookupResult>,
) -> bool {
    let path = table_path(files, setup.dbname, number);
    if !files.contains_key(path) {
        read is Err
    } else if !(setup.opening(files[path]) is Opened) {
        read matches Err(error) && fails_as(setup.opening(files[path]), error)
    } else {
        exists|table: Table<C, F, P, Z>| #[trigger]
            is_opened(setup, table, files[path]) && (table.indexed() && table.apart() ==> {
                ||| reader::lookup_is(
                    table.block_for(key, key, verify),
                    setup.comparator,
                    key,
                    read,
                )
                ||| unchecked && reader::lookup_is(
                    table.block_for(key, key, false),
                    setup.comparator,
                    key,
                    read,
                )
            })
    }
}

/// What the approximate offset of a key in the table of a file is.
pub open spec fn offset_read<
    C: Comparator,
    F: crate::env::RandomAccessFile,
    P: FilterPolicy,
    Z: Compressor,
>(
    setup: TableSetup<C, P, Z>,
    files: Map<Seq<char>, Seq<u8>>,
    number: u64,
    key: Seq<u8>,
    offset: status::Result<u64>,
) -> bool {
    let path = table_path(files, setup.dbname, number);
    if !files.contains_key(path) {
        offset is Err
    } else if !(setup.opening(files[path]) is Opened) {
        offset matches Err(error) && fails_as(setup.opening(files[path]), error)
    } else {
        exists|table: Table<C, F, P, Z>| #[trigger]
            is_opened(setup, table, files[path]) && (table.indexed() ==> (offset matches Ok(place)
                && place == match reader::located(setup.comparator, table.index(), key) {
                Some(HandleRead::Handle { handle, length: _ }) => handle.offset,
                _ => table.metaindex_place(),
            }))
    }
}

/// Whether tables agree with their files rests on the tables alone.
proof fn lemma_same_tables<
    C: Comparator,
    E: Env,
    P: FilterPolicy,
    Z: Compressor,
    B: Cache<Arc<Block>>,
>(before: TableCache<C, E, P, Z, B>, after: TableCache<C, E, P, Z, B>, env: E)
    requires
        before.agrees(env),
        before.tables() == after.tables(),
        before.setup() == after.setup(),
    ensures
        after.agrees(env),
{
    assert forall|number: u64|
        #[trigger] after.tables().contains_key(
            table_key(number),
        ) implies after.backed(env, number, *after.tables()[table_key(number)]) by {
        assert(before.tables().contains_key(table_key(number)));
    }
}

/// Ids that are given out leave all as it is.
proof fn lemma_id_given<
    C: Comparator,
    E: Env,
    P: FilterPolicy,
    Z: Compressor,
    B: Cache<Arc<Block>>,
>(before: TableCache<C, E, P, Z, B>, after: TableCache<C, E, P, Z, B>)
    requires
        before.wf(),
        after.cache.wf(),
        after.block_cache.wf(),
        after.tables() == before.tables(),
        after.setup() == before.setup(),
        after.blocks().entries() == before.blocks().entries(),
        after.blocks().issued() >= before.blocks().issued(),
        forall|key: Seq<u8>| #[trigger]
            after.cache.entries().contains_key(key) ==> after.cache.charge_of(key)
                == before.cache.charge_of(key),
    ensures
        after.wf(),
{
    assert forall|key: Seq<u8>| #[trigger] after.cache.entries().contains_key(key) implies after.tracks(
        *after.cache.entries()[key],
    ) && after.cache.charge_of(key) == 1 by {
        let one = before.cache.entries()[key];
        assert(before.cache.entries().contains_key(key));
        assert(before.tracks(*one));
        assert forall|other: Seq<u8>|
            after.tables().contains_key(other) && (#[trigger] after.tables()[other]).id()
                == one.id() implies *after.tables()[other] == *one by {
            assert(before.tables()[other].id() == one.id());
        }
    }
}

/// A table is added under an id that was just given out.
proof fn lemma_table_added<
    C: Comparator,
    E: Env,
    P: FilterPolicy,
    Z: Compressor,
    B: Cache<Arc<Block>>,
>(
    start: TableCache<C, E, P, Z, B>,
    before: TableCache<C, E, P, Z, B>,
    after: TableCache<C, E, P, Z, B>,
    number: u64,
    table: Arc<Table<C, E::RandomAccess, P, Z>>,
    env: E,
)
    requires
        start.wf(),
        before.wf(),
        before.agrees(env),
        before.tables() == start.tables(),
        before.blocks().entries() == start.blocks().entries(),
        before.blocks().issued() == start.blocks().issued() + 1,
        before.setup() == start.setup(),
        after.cache.wf(),
        after.setup() == before.setup(),
        after.blocks() == before.blocks(),
        crate::cache::within(after.tables(), before.tables().insert(table_key(number), table)),
        forall|key: Seq<u8>| #[trigger]
            after.cache.entries().contains_key(key) ==> after.cache.charge_of(key) == if key
                == table_key(number) {
                1
            } else {
                before.cache.charge_of(key)
            },
        table.wf(),
        table.order() == before.setup().comparator,
        table.zip() == before.setup().compressor,
        table.id() == before.blocks().issued(),
        before.backed(env, number, *table),
    ensures
        after.wf(),
        after.agrees(env),
        after.tracks(*table),
{
    let all = before.tables().insert(table_key(number), table);
    assert(table.cached_right(after.blocks().entries())) by {
        assert forall|offset: u64| #[trigger]
            after.blocks().entries().contains_key(
                reader::cache_key(table.id(), offset),
            ) implies false by {
            assert(!start.blocks().entries().contains_key(reader::cache_key(table.id(), offset)));
        }
    }
    assert forall|k: Seq<u8>|
        after.tables().contains_key(k) && (#[trigger] after.tables()[k]).id()
            == table.id() implies *after.tables()[k] == *table by {
        assert(all[k] == after.tables()[k]);
        if k != table_key(number) {
            assert(start.tables().contains_key(k));
            assert(start.tracks(*start.cache.entries()[k]));
        }
    }
    assert(after.tracks(*table));
    assert forall|k: Seq<u8>| #[trigger] after.cache.entries().contains_key(k) implies after.tracks(
        *after.cache.entries()[k],
    ) && after.cache.charge_of(k) == 1 by {
        assert(after.tables().contains_key(k));
        assert(all[k] == after.tables()[k]);
        if k != table_key(number) {
            let one = before.tables()[k];
            assert(before.cache.entries().contains_key(k));
            assert(before.tracks(*one));
            assert(start.tracks(*start.cache.entries()[k]));
            assert forall|other: Seq<u8>|
                after.tables().contains_key(other) && (#[trigger] after.tables()[other]).id()
                    == one.id() implies *after.tables()[other] == *one by {
                assert(all[other] == after.tables()[other]);
                if other != table_key(number) {
                    assert(before.tables()[other] == after.tables()[other]);
                }
            }
        }
    }
    assert forall|n: u64|
        #[trigger] after.tables().contains_key(
            table_key(n),
        ) implies after.backed(env, n, *after.tables()[table_key(n)]) by {
        assert(all[table_key(n)] == after.tables()[table_key(n)]);
        lemma_table_key(n, number);
        if n != number {
            assert(before.tables().contains_key(table_key(n)));
        }
    }
}

/// Tables are cached under different keys.
proof fn lemma_table_key(a: u64, b: u64)
    ensures
        table_key(a) == table_key(b) ==> a == b,
{
    coding::lemma_pow256_values();
    coding::law_fixed_round_trip(a as nat, 8);
    coding::law_fixed_round_trip(b as nat, 8);
}

/// A table that reads by way of the block cache leaves the cached blocks of the
/// others right.
proof fn lemma_block_cache_used<
    C: Comparator,
    E: Env,
    P: FilterPolicy,
    Z: Compressor,
    B: Cache<Arc<Block>>,
>(
    before: TableCache<C, E, P, Z, B>,
    after: TableCache<C, E, P, Z, B>,
    table: Arc<Table<C, E::RandomAccess, P, Z>>,
)
    requires
        before.wf(),
        before.tracks(*table),
        after.cache == before.cache,
        after.setup() == before.setup(),
        after.block_cache.wf(),
        after.block_cache.issued() == before.block_cache.issued(),
        table.cached_right(after.block_cache.entries()),
        table.only_own_added(before.block_cache.entries(), after.block_cache.entries()),
    ensures
        after.wf(),
{
    let earlier = before.block_cache.entries();
    let later = after.block_cache.entries();
    assert forall|id: u64, offset: u64| id > after.block_cache.issued() implies !#[trigger]
        later.contains_key(reader::cache_key(id, offset)) by {
        let key = reader::cache_key(id, offset);
        if later.contains_key(key) && !earlier.contains_key(key) {
            let other = choose|other: u64| key == #[trigger] reader::cache_key(table.id(), other);
            reader::lemma_cache_ids(id, table.id(), offset, other);
        }
    }
    assert forall|key: Seq<u8>| #[trigger] after.cache.entries().contains_key(key) implies after.tracks(
        *after.cache.entries()[key],
    ) by {
        let one = before.cache.entries()[key];
        assert(before.tracks(*one));
        assert(after.tables() == before.tables());
        assert(before.tables()[key] == one);
        assert forall|other: Seq<u8>|
            after.tables().contains_key(other) && (#[trigger] after.tables()[other]).id()
                == one.id() implies *after.tables()[other] == *one by {
            assert(before.tables()[other].id() == one.id());
        }
        if one.id() != table.id() {
            assert forall|offset: u64| #[trigger]
                later.contains_key(reader::cache_key(one.id(), offset)) implies {
                let block = later[reader::cache_key(one.id(), offset)];
                block.wf() && one.holds_block(offset, *block)
            } by {
                let k = reader::cache_key(one.id(), offset);
                if !(earlier.contains_key(k) && earlier[k] == later[k]) {
                    let other = choose|other: u64|
                        k == #[trigger] reader::cache_key(table.id(), other);
                    reader::lemma_cache_ids(one.id(), table.id(), offset, other);
                }
            }
        }
    }
}

/// A table that reads by way of the block cache, and puts no block there whose checksum does
/// not match, leaves none that was not there.
proof fn lemma_unchecked_kept<
    C: Comparator,
    E: Env,
    P: FilterPolicy,
    Z: Compressor,
    B: Cache<Arc<Block>>,
>(
    before: TableCache<C, E, P, Z, B>,
    after: TableCache<C, E, P, Z, B>,
    table: Arc<Table<C, E::RandomAccess, P, Z>>,
    key: Seq<u8>,
)
    requires
        before.tracks(*table),
        after.cache == before.cache,
        table.only_own_added(before.block_cache.entries(), after.block_cache.entries()),
        table.has_unchecked(after.block_cache.entries(), key) ==> table.has_unchecked(
            before.block_cache.entries(),
            key,
        ),
    ensures
        after.unchecked(key).subset_of(before.unchecked(key)),
{
    let earlier = before.block_cache.entries();
    let later = after.block_cache.entries();
    assert forall|number: u64| #[trigger] after.unchecked(key).contains(number) implies before.unchecked(
        key,
    ).contains(number) by {
        let one = before.tables()[table_key(number)];
        if one.id() == table.id() {
            assert(*one == *table);
        } else {
            match reader::located(one.order(), one.index(), key) {
                Some(HandleRead::Handle { handle, length: _ }) => {
                    let place = reader::cache_key(one.id(), handle.offset);
                    assert(later.contains_key(place));
                    if !earlier.contains_key(place) {
                        let other = choose|other: u64|
                            place == #[trigger] reader::cache_key(table.id(), other);
                        reader::lemma_cache_ids(one.id(), table.id(), handle.offset, other);
                    }
                },
                _ => {},
            }
        }
    }
}

/// Where no table is open, no block is cached that was not checked: with `verify` the first
/// read of each table checks the checksum.
pub proof fn law_first_read_is_checked<
    C: Comparator,
    E: Env,
    P: FilterPolicy,
    Z: Compressor,
    B: Cache<Arc<Block>>,
>(cache: TableCache<C, E, P, Z, B>, key: Seq<u8>)
    requires
        cache.tables() == Map::<Seq<u8>, Arc<Table<C, E::RandomAccess, P, Z>>>::empty(),
    ensures
        cache.unchecked(key) == Set::<u64>::empty(),
{
    assert(cache.unchecked(key) =~= Set::<u64>::empty());
}

/// A table is read from the file of its number that ends with `.ldb`. Only where there is none
/// is it read from the one that ends with `.sst`.
pub proof fn law_newer_name_comes_first(
    files: Map<Seq<char>, Seq<u8>>,
    dbname: Seq<char>,
    number: u64,
)
    ensures
        files.contains_key(filename::numbered(dbname, number, "ldb"@)) ==> table_path(
            files,
            dbname,
            number,
        ) == filename::numbered(dbname, number, "ldb"@),
        !files.contains_key(filename::numbered(dbname, number, "ldb"@)) ==> table_path(
            files,
            dbname,
            number,
        ) == filename::numbered(dbname, number, "sst"@),
{
}

/// The path of a table can be told where the file system does not fail, and also where there is
/// one file of its number only.
pub proof fn law_name_is_known<E: Env>(env: E, dbname: Seq<char>, number: u64)
    requires
        env.reliable() || !env.files().contains_key(filename::numbered(dbname, number, "ldb"@))
            || !env.files().contains_key(filename::numbered(dbname, number, "sst"@)),
    ensures
        name_is_known(env, dbname, number),
        names_are_known(env, dbname, seq![number]),
{
}

} // verus!
