//! Looking a key up in memory and in tables.

use vstd::prelude::*;

use std::sync::Arc;

use crate::block::data::Block;
use crate::cache::Cache;
use crate::coding;
use crate::comparator::Comparator;
use crate::db_impl::enter;
use crate::db_impl::options::ReadOptions;
use crate::db_impl::state::DBImplCore;
use crate::db_impl::stored;
use crate::db_iter::seen::Seen;
use crate::env::Env;
use crate::env::RandomAccessFile;
use crate::filter::FilterPolicy;
use crate::format::InternalKeyComparator;
use crate::format::LookupKey;
use crate::status;
use crate::table::Compressor;
use crate::table_cache;
use crate::table_cache::TableCache;
use crate::table_cache::TableSetup;
use crate::version_set::LookupResult;

verus! {

/// Whether tables were asked one after the other, up to the first that knows the key,
/// and the result is what that one said.
pub open spec fn is_search<C: Comparator, F: RandomAccessFile, P: FilterPolicy, Z: Compressor>(
    setup: TableSetup<C, P, Z>,
    files: Map<Seq<char>, Seq<u8>>,
    numbers: Seq<u64>,
    key: Seq<u8>,
    verify: bool,
    unchecked: Set<u64>,
    reads: Seq<status::Result<LookupResult>>,
    result: status::Result<LookupResult>,
) -> bool {
    &&& reads.len() <= numbers.len()
    &&& forall|i: int|
        0 <= i < reads.len() ==> table_cache::lookup_read::<C, F, P, Z>(
            setup,
            files,
            numbers[i],
            key,
            verify,
            unchecked.contains(numbers[i]),
            #[trigger] reads[i],
        )
    &&& forall|i: int|
        0 <= i < reads.len() - 1 ==> (#[trigger] reads[i] matches Ok(LookupResult::NotFound))
    &&& if reads.len() > 0 && !(reads.last() matches Ok(LookupResult::NotFound)) {
        result == reads.last()
    } else {
        reads.len() == numbers.len() && (result matches Ok(LookupResult::NotFound))
    }
}

/// Whether the tables of some numbers, asked one after the other, say so.
pub open spec fn tables_say<C: Comparator, F: RandomAccessFile, P: FilterPolicy, Z: Compressor>(
    setup: TableSetup<C, P, Z>,
    files: Map<Seq<char>, Seq<u8>>,
    numbers: Seq<u64>,
    key: Seq<u8>,
    verify: bool,
    unchecked: Set<u64>,
    result: status::Result<LookupResult>,
) -> bool {
    exists|reads: Seq<status::Result<LookupResult>>| #[trigger]
        is_search::<C, F, P, Z>(setup, files, numbers, key, verify, unchecked, reads, result)
}

/// Asks tables for an internal key, in the order of their numbers in the list. The
/// first that has an entry decides, so that a deletion hides older values.
pub fn search_tables<
    C: Comparator,
    E: Env,
    P: FilterPolicy,
    Z: Compressor,
    B: Cache<Arc<Block>>,
>(
    table_cache: &mut TableCache<C, E, P, Z, B>,
    env: &E,
    numbers: &Vec<u64>,
    internal_key: &[u8],
    verify: bool,
    fill_cache: bool,
) -> (result: status::Result<LookupResult>)
    requires
        old(table_cache).wf(),
        old(table_cache).agrees(*env),
        old(table_cache).blocks().issued() + numbers@.len() <= u64::MAX,
        old(table_cache).setup().comparator.admits(internal_key@),
        internal_key@.len() >= 8,
        env.wf(),
    ensures
        final(table_cache).wf(),
        final(table_cache).agrees(*env),
        final(table_cache).setup() == old(table_cache).setup(),
        env.reliable() || (result is Ok && table_cache::names_are_known(
            *env,
            old(table_cache).setup().dbname,
            numbers@,
        )) ==> tables_say::<C, E::RandomAccess, P, Z>(
            old(table_cache).setup(),
            env.files(),
            numbers@,
            internal_key@,
            verify,
            old(table_cache).unchecked(internal_key@),
            result,
        ),
        final(table_cache).blocks().keeps() == old(table_cache).blocks().keeps(),
        !fill_cache ==> final(table_cache).blocks().entries() == old(
            table_cache,
        ).blocks().entries(),
        fill_cache && old(table_cache).blocks().keeps() && (result matches Ok(found) && !(
        found is NotFound)) ==> exists|i: int|
            0 <= i < numbers@.len() && final(table_cache).keeps_block(
                #[trigger] numbers@[i],
                internal_key@,
            ),
{
    let ghost setup = table_cache.setup();
    let ghost known = table_cache::names_are_known(*env, setup.dbname, numbers@);
    let ghost unchecked = table_cache.unchecked(internal_key@);
    let ghost mut reads: Seq<status::Result<LookupResult>> = Seq::empty();
    let mut index: usize = 0;
    while index < numbers.len()
        invariant
            index <= numbers@.len(),
            table_cache.wf(),
            table_cache.agrees(*env),
            table_cache.setup() == setup,
            setup == old(table_cache).setup(),
            table_cache.blocks().issued() <= old(table_cache).blocks().issued() + index,
            old(table_cache).blocks().issued() + numbers@.len() <= u64::MAX,
            setup.comparator.admits(internal_key@),
            internal_key@.len() >= 8,
            env.wf(),
            reads.len() == index,
            known == table_cache::names_are_known(*env, setup.dbname, numbers@),
            unchecked == old(table_cache).unchecked(internal_key@),
            verify ==> table_cache.unchecked(internal_key@).subset_of(unchecked),
            table_cache.blocks().keeps() == old(table_cache).blocks().keeps(),
            !fill_cache ==> table_cache.blocks().entries() == old(table_cache).blocks().entries(),
            env.reliable() || known ==> forall|i: int|
                0 <= i < reads.len() ==> table_cache::lookup_read::<C, E::RandomAccess, P, Z>(
                    setup,
                    env.files(),
                    numbers@[i],
                    internal_key@,
                    verify,
                    unchecked.contains(numbers@[i]),
                    #[trigger] reads[i],
                ),
            forall|i: int|
                0 <= i < reads.len() ==> (#[trigger] reads[i] matches Ok(LookupResult::NotFound)),
        decreases numbers@.len() - index,
    {
        let read = table_cache.internal_get_full(
            env,
            numbers[index],
            internal_key,
            verify,
            fill_cache,
        );
        let ghost earlier = reads;
        proof {
            assert(known ==> table_cache::name_is_known(
                *env,
                setup.dbname,
                numbers@[index as int],
            ));
            reads = reads.push(read);
        }
        match read {
            Ok(LookupResult::NotFound) => {},
            decided => {
                proof {
                    if env.reliable() || (known && decided is Ok) {
                        assert(is_search::<C, E::RandomAccess, P, Z>(
                            setup,
                            env.files(),
                            numbers@,
                            internal_key@,
                            verify,
                            unchecked,
                            earlier.push(decided),
                            decided,
                        ));
                    }
                }
                return decided;
            },
        }
        index = index + 1;
    }
    proof {
        if env.reliable() || known {
            assert(is_search::<C, E::RandomAccess, P, Z>(
                setup,
                env.files(),
                numbers@,
                internal_key@,
                verify,
                unchecked,
                reads,
                Ok::<LookupResult, status::Status>(LookupResult::NotFound),
            ));
        }
    }
    Ok(LookupResult::NotFound)
}

/// What a reader is told of a lookup.
pub open spec fn is_told(
    result: status::Result<LookupResult>,
    told: status::Result<Option<Vec<u8>>>,
) -> bool {
    match result {
        Ok(LookupResult::Found(value)) => told matches Ok(Some(bytes)) && bytes@ == value@,
        Ok(LookupResult::Deleted) => told matches Ok(None),
        Ok(LookupResult::NotFound) => told matches Ok(None),
        Err(error) => told == Err::<Option<Vec<u8>>, status::Status>(error),
    }
}

/// The value that a lookup found; a deletion is as good as nothing.
pub fn tell(result: status::Result<LookupResult>) -> (told: status::Result<Option<Vec<u8>>>)
    ensures
        is_told(result, told),
{
    match result {
        Ok(LookupResult::Found(value)) => Ok(Some(value)),
        Ok(LookupResult::Deleted) => Ok(None),
        Ok(LookupResult::NotFound) => Ok(None),
        Err(error) => Err(error),
    }
}

impl<C: Comparator> DBImplCore<C> {
    /// The sequence number at which options read.
    pub open spec fn read_sequence(&self, options: ReadOptions) -> u64 {
        match options.snapshot {
            Some(snapshot) => snapshot.at(),
            None => self.last_sequence,
        }
    }

    /// Whether a lookup tells this: what is seen in memory, or else what the tables of some
    /// numbers say, asked one after the other.
    pub open spec fn answers_with<F: RandomAccessFile, P: FilterPolicy, Z: Compressor>(
        &self,
        setup: TableSetup<InternalKeyComparator<C>, P, Z>,
        files: Map<Seq<char>, Seq<u8>>,
        numbers: Seq<u64>,
        key: Seq<u8>,
        sequence: nat,
        verify: bool,
        unchecked: Set<u64>,
        told: status::Result<Option<Vec<u8>>>,
    ) -> bool {
        match self.seen(sequence, key) {
            Seen::Value(value) => told matches Ok(Some(bytes)) && bytes@ == value,
            Seen::Deleted => told matches Ok(None),
            Seen::Nothing => exists|result: status::Result<LookupResult>| #[trigger]
                is_told(result, told) && tables_say::<InternalKeyComparator<C>, F, P, Z>(
                    setup,
                    files,
                    numbers,
                    stored::lookup_target(key, sequence),
                    verify,
                    unchecked,
                    result,
                ),
        }
    }

    /// Looks up a key: in the memtable, then in the one that was set aside, then in the
    /// tables of the given numbers, newest first.
    pub fn get_with_options<E: Env, P: FilterPolicy, Z: Compressor, B: Cache<Arc<Block>>>(
        &self,
        options: &ReadOptions,
        key: &[u8],
        table_cache: &mut TableCache<InternalKeyComparator<C>, E, P, Z, B>,
        env: &E,
        numbers: &Vec<u64>,
        paranoid_checks: bool,
    ) -> (told: status::Result<Option<Vec<u8>>>)
        requires
            self.sound(),
            self.read_sequence(*options) <= crate::format::MAX_SEQUENCE_NUMBER,
            self.comparator.admits(key@),
            key@.len() + 8 < coding::two_pow_32(),
            old(table_cache).wf(),
            old(table_cache).agrees(*env),
            old(table_cache).blocks().issued() + numbers@.len() <= u64::MAX,
            old(table_cache).setup().comparator == InternalKeyComparator::over(self.comparator),
            env.wf(),
        ensures
            final(table_cache).wf(),
            final(table_cache).agrees(*env),
            final(table_cache).setup() == old(table_cache).setup(),
            env.reliable() || !(self.seen(
                self.read_sequence(*options) as nat,
                key@,
            ) is Nothing) || (told is Ok && table_cache::names_are_known(
                *env,
                old(table_cache).setup().dbname,
                numbers@,
            )) ==> self.answers_with::<E::RandomAccess, P, Z>(
                old(table_cache).setup(),
                env.files(),
                numbers@,
                key@,
                self.read_sequence(*options) as nat,
                paranoid_checks || options.verify_checksums,
                old(table_cache).unchecked(
                    stored::lookup_target(key@, self.read_sequence(*options) as nat),
                ),
                told,
            ),
            final(table_cache).blocks().keeps() == old(table_cache).blocks().keeps(),
            !options.fill_cache || !(self.seen(self.read_sequence(*options) as nat, key@) is Nothing)
                ==> final(table_cache).blocks().entries() == old(table_cache).blocks().entries(),
            options.fill_cache && self.seen(self.read_sequence(*options) as nat, key@) is Nothing
                && old(table_cache).blocks().keeps() && (told matches Ok(Some(_))) ==> exists|
                i: int,
            |
                0 <= i < numbers@.len() && final(table_cache).keeps_block(
                    #[trigger] numbers@[i],
                    stored::lookup_target(key@, self.read_sequence(*options) as nat),
                ),
    {
        let sequence: u64 = match &options.snapshot {
            Some(snapshot) => snapshot.sequence(),
            None => self.last_sequence,
        };
        match self.get_from_memory(key, sequence) {
            LookupResult::NotFound => {},
            found => {
                return tell(Ok(found));
            },
        }
        let verify = paranoid_checks || options.verify_checksums;
        let lookup = LookupKey::new(key, sequence);
        proof {
            crate::format::lemma_internal_key_parts(
                key@,
                crate::format::packed(sequence as nat, crate::format::VALUE_TYPE_FOR_SEEK),
            );
            InternalKeyComparator::<C>::lemma_over(self.comparator);
        }
        let result = search_tables(
            table_cache,
            env,
            numbers,
            lookup.internal_key(),
            verify,
            options.fill_cache,
        );
        let ghost said = result;
        let told = tell(result);
        assert(is_told(said, told));
        told
    }
}

/// A lookup with a snapshot reads at the sequence number of the snapshot, and one without at
/// the latest.
pub proof fn law_snapshot_is_read<C: Comparator>(core: DBImplCore<C>, options: ReadOptions)
    ensures
        options.snapshot matches Some(snapshot) ==> core.read_sequence(options) == snapshot.at(),
        options.snapshot is None ==> core.read_sequence(options) == core.last_sequence,
{
}

/// A reader is told a value just if one was found: what is deleted is told like what is not
/// there, and a failure is told as it is.
pub proof fn law_reader_is_told(
    result: status::Result<LookupResult>,
    told: status::Result<Option<Vec<u8>>>,
)
    requires
        is_told(result, told),
    ensures
        (told matches Ok(Some(_))) <==> (result matches Ok(LookupResult::Found(_))),
        (told matches Ok(None)) <==> (result matches Ok(LookupResult::Deleted)) || (
        result matches Ok(LookupResult::NotFound)),
        told is Err <==> result is Err,
        result matches Ok(LookupResult::Found(value)) ==> (told->Ok_0->0)@ == value@,
        result matches Err(error) ==> told->Err_0 == error,
{
}

} // verus!
