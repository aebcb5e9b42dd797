//! About how many bytes of tables a range of keys takes.

use vstd::prelude::*;

use std::sync::Arc;

use crate::block::data::Block;
use crate::cache::Cache;
use crate::comparator;
use crate::comparator::Comparator;
use crate::db_impl::options::Range;
use crate::env::Env;
use crate::env::RandomAccessFile;
use crate::filter::FilterPolicy;
use crate::format::InternalKey;
use crate::format::InternalKeyComparator;
use crate::format::MAX_SEQUENCE_NUMBER;
use crate::format::VALUE_TYPE_FOR_SEEK;
use crate::status;
use crate::table::Compressor;
use crate::table_cache;
use crate::table_cache::TableCache;
use crate::table_cache::TableSetup;
use crate::version_set::FileMetaData;

verus! {

/// Whether the search in a level ends at a table: it lies behind the key. In the first
/// level the tables are in no order, and it goes on.
pub open spec fn ends_at<C: Comparator>(
    order: C,
    level: int,
    file: FileMetaData,
    key: Seq<u8>,
) -> bool {
    &&& level > 0
    &&& order.less(key, file.largest@)
    &&& order.less(key, file.smallest@)
}

/// Whether the search in a level comes to a table.
pub open spec fn comes_to<C: Comparator>(
    order: C,
    level: int,
    files: Seq<FileMetaData>,
    key: Seq<u8>,
    place: int,
) -> bool {
    forall|i: int| 0 <= i < place ==> !ends_at(order, level, #[trigger] files[i], key)
}

/// Whether the key lies within a table.
pub open spec fn straddles<C: Comparator>(order: C, file: FileMetaData, key: Seq<u8>) -> bool {
    order.less(key, file.largest@) && !order.less(key, file.smallest@)
}

/// The bytes of a table that lie before the key: all of them, none, or those before the
/// place that was read for the key. A table that cannot be read adds none.
pub open spec fn amount<C: Comparator>(
    order: C,
    file: FileMetaData,
    key: Seq<u8>,
    read: status::Result<u64>,
) -> nat {
    if !order.less(key, file.largest@) {
        file.file_size as nat
    } else if straddles(order, file, key) {
        match read {
            Ok(offset) => offset as nat,
            Err(_) => 0,
        }
    } else {
        0
    }
}

/// The bytes of the first tables of a level that lie before the key.
pub open spec fn level_amount<C: Comparator>(
    order: C,
    level: int,
    files: Seq<FileMetaData>,
    key: Seq<u8>,
    reads: Seq<status::Result<u64>>,
    count: nat,
) -> nat
    decreases count,
{
    if count == 0 {
        0
    } else {
        level_amount(order, level, files, key, reads, (count - 1) as nat) + if comes_to(
            order,
            level,
            files,
            key,
            count - 1,
        ) {
            amount(order, files[count - 1], key, reads[count - 1])
        } else {
            0
        }
    }
}

/// The bytes of the first levels that lie before the key.
pub open spec fn levels_amount<C: Comparator>(
    order: C,
    levels: Seq<Vec<FileMetaData>>,
    key: Seq<u8>,
    reads: Seq<Seq<status::Result<u64>>>,
    count: nat,
) -> nat
    decreases count,
{
    if count == 0 {
        0
    } else {
        levels_amount(order, levels, key, reads, (count - 1) as nat) + level_amount(
            order,
            count - 1,
            levels[count - 1]@,
            key,
            reads[count - 1],
            levels[count - 1]@.len(),
        )
    }
}

/// Whether the names of some files are known for sure.
pub open spec fn all_known<E: Env>(env: E, dbname: Seq<char>, files: Seq<FileMetaData>) -> bool {
    forall|i: int|
        0 <= i < files.len() ==> table_cache::name_is_known(
            env,
            dbname,
            (#[trigger] files[i]).number,
        )
}

/// Whether the names of all files of some levels are known for sure.
pub open spec fn levels_known<E: Env>(
    env: E,
    dbname: Seq<char>,
    levels: Seq<Vec<FileMetaData>>,
) -> bool {
    forall|level: int|
        0 <= level < levels.len() ==> all_known(env, dbname, (#[trigger] levels[level])@)
}

/// Whether these were read for the key from the tables of a level that it lies in. Unless
/// it is sure that files can be read, some reads may have failed.
pub open spec fn level_reads<C: Comparator, F: RandomAccessFile, P: FilterPolicy, Z: Compressor>(
    setup: TableSetup<C, P, Z>,
    stored: Map<Seq<char>, Seq<u8>>,
    sure: bool,
    level: int,
    files: Seq<FileMetaData>,
    key: Seq<u8>,
    reads: Seq<status::Result<u64>>,
) -> bool {
    &&& reads.len() == files.len()
    &&& forall|i: int|
        0 <= i < reads.len() && comes_to(setup.comparator, level, files, key, i) && straddles(
            setup.comparator,
            files[i],
            key,
        ) && (sure || reads[i] is Ok) ==> table_cache::offset_read::<C, F, P, Z>(
            setup,
            stored,
            files[i].number,
            key,
            #[trigger] reads[i],
        )
}

/// Whether these were read for the key.
pub open spec fn all_reads<C: Comparator, F: RandomAccessFile, P: FilterPolicy, Z: Compressor>(
    setup: TableSetup<C, P, Z>,
    stored: Map<Seq<char>, Seq<u8>>,
    sure: bool,
    levels: Seq<Vec<FileMetaData>>,
    key: Seq<u8>,
    reads: Seq<Seq<status::Result<u64>>>,
) -> bool {
    &&& reads.len() == levels.len()
    &&& forall|i: int|
        0 <= i < reads.len() ==> level_reads::<C, F, P, Z>(
            setup,
            stored,
            sure,
            i,
            levels[i]@,
            key,
            #[trigger] reads[i],
        )
}

/// A number of bytes, or the greatest number there is.
pub open spec fn capped(bytes: nat) -> u64 {
    if bytes <= u64::MAX {
        bytes as u64
    } else {
        u64::MAX
    }
}

/// Whether so many bytes of the tables lie before the key.
pub open spec fn offset_is<C: Comparator, F: RandomAccessFile, P: FilterPolicy, Z: Compressor>(
    setup: TableSetup<C, P, Z>,
    stored: Map<Seq<char>, Seq<u8>>,
    sure: bool,
    levels: Seq<Vec<FileMetaData>>,
    key: Seq<u8>,
    offset: u64,
) -> bool {
    exists|reads: Seq<Seq<status::Result<u64>>>| #[trigger]
        all_reads::<C, F, P, Z>(setup, stored, sure, levels, key, reads) && offset == capped(
            levels_amount(setup.comparator, levels, key, reads, levels.len()),
        )
}

/// How many tables the first levels have.
pub open spec fn file_count(levels: Seq<Vec<FileMetaData>>, count: nat) -> nat
    decreases count,
{
    if count == 0 {
        0
    } else {
        file_count(levels, (count - 1) as nat) + levels[count - 1]@.len()
    }
}

/// Whether the bounds of all tables can be compared.
pub open spec fn bounds_admitted<C: Comparator>(
    order: C,
    levels: Seq<Vec<FileMetaData>>,
) -> bool {
    forall|level: int, i: int|
        0 <= level < levels.len() && 0 <= i < levels[level]@.len() ==> order.admits(
            (#[trigger] levels[level]@[i]).smallest@,
        ) && order.admits(levels[level]@[i].largest@)
}

/// What a level adds does not rest on reads of tables behind.
proof fn lemma_level_amount<C: Comparator>(
    order: C,
    level: int,
    files: Seq<FileMetaData>,
    key: Seq<u8>,
    reads: Seq<status::Result<u64>>,
    more: Seq<status::Result<u64>>,
    count: nat,
)
    requires
        count <= reads.len(),
        count <= more.len(),
        forall|i: int| 0 <= i < count ==> reads[i] == more[i],
    ensures
        level_amount(order, level, files, key, reads, count) == level_amount(
            order,
            level,
            files,
            key,
            more,
            count,
        ),
    decreases count,
{
    if count > 0 {
        lemma_level_amount(order, level, files, key, reads, more, (count - 1) as nat);
    }
}

/// Tables that the search does not come to add nothing.
proof fn lemma_nothing_behind<C: Comparator>(
    order: C,
    level: int,
    files: Seq<FileMetaData>,
    key: Seq<u8>,
    reads: Seq<status::Result<u64>>,
    end: int,
    count: nat,
)
    requires
        0 <= end < files.len(),
        end + 1 <= count <= files.len(),
        ends_at(order, level, files[end], key),
    ensures
        level_amount(order, level, files, key, reads, count) == level_amount(
            order,
            level,
            files,
            key,
            reads,
            (end + 1) as nat,
        ),
    decreases count,
{
    if count > end + 1 {
        lemma_nothing_behind(order, level, files, key, reads, end, (count - 1) as nat);
        assert(!comes_to(order, level, files, key, count - 1));
    }
}

/// What the first levels add does not rest on reads of levels behind.
proof fn lemma_levels_amount<C: Comparator>(
    order: C,
    levels: Seq<Vec<FileMetaData>>,
    key: Seq<u8>,
    reads: Seq<Seq<status::Result<u64>>>,
    more: Seq<Seq<status::Result<u64>>>,
    count: nat,
)
    requires
        count <= reads.len(),
        count <= more.len(),
        forall|i: int| 0 <= i < count ==> reads[i] == more[i],
    ensures
        levels_amount(order, levels, key, reads, count) == levels_amount(
            order,
            levels,
            key,
            more,
            count,
        ),
    decreases count,
{
    if count > 0 {
        lemma_levels_amount(order, levels, key, reads, more, (count - 1) as nat);
    }
}

/// Adds the bytes of a level that lie before the key.
fn add_level<C: Comparator, E: Env, P: FilterPolicy, Z: Compressor, B: Cache<Arc<Block>>>(
    table_cache: &mut TableCache<C, E, P, Z, B>,
    env: &E,
    comparator: &C,
    level: usize,
    files: &Vec<FileMetaData>,
    key: &[u8],
    start: u64,
) -> (total: (u64, Ghost<Seq<status::Result<u64>>>))
    requires
        old(table_cache).wf(),
        old(table_cache).agrees(*env),
        old(table_cache).blocks().issued() + files@.len() <= u64::MAX,
        old(table_cache).setup().comparator == *comparator,
        comparator.admits(key@),
        forall|i: int|
            0 <= i < files@.len() ==> comparator.admits((#[trigger] files@[i]).smallest@)
                && comparator.admits(files@[i].largest@),
        env.wf(),
    ensures
        final(table_cache).wf(),
        final(table_cache).agrees(*env),
        final(table_cache).setup() == old(table_cache).setup(),
        final(table_cache).blocks().issued() <= old(table_cache).blocks().issued() + files@.len(),
        all_known(*env, old(table_cache).setup().dbname, files@) ==> level_reads::<C, E::RandomAccess, P, Z>(
            old(table_cache).setup(),
            env.files(),
            env.reliable(),
            level as int,
            files@,
            key@,
            total.1@,
        ),
        total.0 == capped(
            start as nat + level_amount(
                *comparator,
                level as int,
                files@,
                key@,
                total.1@,
                files@.len(),
            ),
        ),
{
    let ghost setup = table_cache.setup();
    let ghost mut reads: Seq<status::Result<u64>> = Seq::empty();
    let mut total: u64 = start;
    let mut index: usize = 0;
    let mut ended: bool = false;
    let ghost mut end: int = -1;
    while index < files.len() && !ended
        invariant
            index <= files@.len(),
            table_cache.wf(),
            table_cache.agrees(*env),
            table_cache.setup() == setup,
            setup == old(table_cache).setup(),
            setup.comparator == *comparator,
            comparator.admits(key@),
            forall|i: int|
                0 <= i < files@.len() ==> comparator.admits((#[trigger] files@[i]).smallest@)
                    && comparator.admits(files@[i].largest@),
            env.wf(),
            table_cache.blocks().issued() <= old(table_cache).blocks().issued() + index,
            old(table_cache).blocks().issued() + files@.len() <= u64::MAX,
            reads.len() == index,
            ended ==> end == index - 1 && 0 <= end < files@.len() && ends_at(
                *comparator,
                level as int,
                files@[end],
                key@,
            ),
            !ended ==> comes_to(*comparator, level as int, files@, key@, index as int),
            all_known(*env, setup.dbname, files@) ==> forall|i: int|
                0 <= i < reads.len() && straddles(*comparator, files@[i], key@) && (env.reliable()
                    || reads[i] is Ok) ==> table_cache::offset_read::<C, E::RandomAccess, P, Z>(
                    setup,
                    env.files(),
                    files@[i].number,
                    key@,
                    #[trigger] reads[i],
                ),
            total == capped(
                start as nat + level_amount(
                    *comparator,
                    level as int,
                    files@,
                    key@,
                    reads,
                    index as nat,
                ),
            ),
        decreases files@.len() - index,
    {
        let file = &files[index];
        let ghost mut read: status::Result<u64> = Ok(0u64);
        let ghost before = reads;
        if !comparator::precedes(comparator, key, file.largest.as_slice()) {
            total = total.saturating_add(file.file_size);
        } else if comparator::precedes(comparator, key, file.smallest.as_slice()) {
            if level > 0 {
                ended = true;
                proof {
                    end = index as int;
                }
            }
        } else {
            let told = table_cache.approximate_offset_of(env, file.number, key);
            proof {
                read = told;
            }
            match told {
                Ok(offset) => {
                    total = total.saturating_add(offset);
                },
                Err(_) => {},
            }
        }
        proof {
            reads = reads.push(read);
            assert(all_known(*env, setup.dbname, files@) ==> table_cache::name_is_known(
                *env,
                setup.dbname,
                files@[index as int].number,
            ));
            lemma_level_amount(
                *comparator,
                level as int,
                files@,
                key@,
                before,
                reads,
                index as nat,
            );
        }
        index = index + 1;
    }
    proof {
        let rest = Seq::new((files@.len() - index) as nat, |i: int| Ok::<u64, status::Status>(0));
        let all = reads + rest;
        lemma_level_amount(*comparator, level as int, files@, key@, reads, all, index as nat);
        if ended {
            lemma_nothing_behind(
                *comparator,
                level as int,
                files@,
                key@,
                all,
                end,
                files@.len(),
            );
        }
        assert forall|i: int|
            all_known(*env, setup.dbname, files@) && 0 <= i < all.len() && (env.reliable()
                || all[i] is Ok) && comes_to(
                *comparator,
                level as int,
                files@,
                key@,
                i,
            ) && straddles(*comparator, files@[i], key@) implies table_cache::offset_read::<
            C,
            E::RandomAccess,
            P,
            Z,
        >(setup, env.files(), files@[i].number, key@, #[trigger] all[i]) by {
            if i >= index {
                assert(ends_at(*comparator, level as int, files@[end], key@));
            } else {
                assert(all[i] == reads[i]);
            }
        }
        reads = all;
    }
    (total, Ghost(reads))
}

/// About how many bytes of the tables lie before an internal key.
pub fn approximate_offset_of<
    C: Comparator,
    E: Env,
    P: FilterPolicy,
    Z: Compressor,
    B: Cache<Arc<Block>>,
>(
    table_cache: &mut TableCache<C, E, P, Z, B>,
    env: &E,
    comparator: &C,
    levels: &Vec<Vec<FileMetaData>>,
    internal_key: &[u8],
) -> (offset: u64)
    requires
        old(table_cache).wf(),
        old(table_cache).agrees(*env),
        old(table_cache).blocks().issued() + file_count(levels@, levels@.len()) <= u64::MAX,
        old(table_cache).setup().comparator == *comparator,
        comparator.admits(internal_key@),
        bounds_admitted(*comparator, levels@),
        env.wf(),
    ensures
        final(table_cache).wf(),
        final(table_cache).agrees(*env),
        final(table_cache).setup() == old(table_cache).setup(),
        final(table_cache).blocks().issued() <= old(table_cache).blocks().issued() + file_count(
            levels@,
            levels@.len(),
        ),
        levels_known(*env, old(table_cache).setup().dbname, levels@) ==> offset_is::<C, E::RandomAccess, P, Z>(
            old(table_cache).setup(),
            env.files(),
            env.reliable(),
            levels@,
            internal_key@,
            offset,
        ),
{
    let ghost setup = table_cache.setup();
    let ghost mut reads: Seq<Seq<status::Result<u64>>> = Seq::empty();
    let mut total: u64 = 0;
    let mut level: usize = 0;
    while level < levels.len()
        invariant
            level <= levels@.len(),
            table_cache.wf(),
            table_cache.agrees(*env),
            table_cache.setup() == setup,
            setup == old(table_cache).setup(),
            setup.comparator == *comparator,
            comparator.admits(internal_key@),
            bounds_admitted(*comparator, levels@),
            env.wf(),
            table_cache.blocks().issued() <= old(table_cache).blocks().issued() + file_count(
                levels@,
                level as nat,
            ),
            old(table_cache).blocks().issued() + file_count(levels@, levels@.len()) <= u64::MAX,
            reads.len() == level,
            levels_known(*env, setup.dbname, levels@) ==> forall|i: int|
                0 <= i < reads.len() ==> level_reads::<C, E::RandomAccess, P, Z>(
                    setup,
                    env.files(),
                    env.reliable(),
                    i,
                    levels@[i]@,
                    internal_key@,
                    #[trigger] reads[i],
                ),
            total == capped(
                levels_amount(*comparator, levels@, internal_key@, reads, level as nat),
            ),
        decreases levels@.len() - level,
    {
        let ghost before = reads;
        proof {
            lemma_file_count(levels@, level as nat + 1, levels@.len());
        }
        let (sum, Ghost(read)) = add_level(
            table_cache,
            env,
            comparator,
            level,
            &levels[level],
            internal_key,
            total,
        );
        proof {
            reads = reads.push(read);
            assert(levels_known(*env, setup.dbname, levels@) ==> all_known(
                *env,
                setup.dbname,
                levels@[level as int]@,
            ));
            lemma_levels_amount(
                *comparator,
                levels@,
                internal_key@,
                before,
                reads,
                level as nat,
            );
        }
        total = sum;
        level = level + 1;
    }
    proof {
        if levels_known(*env, setup.dbname, levels@) {
            assert(all_reads::<C, E::RandomAccess, P, Z>(
                setup,
                env.files(),
                env.reliable(),
                levels@,
                internal_key@,
                reads,
            ));
        }
    }
    total
}

/// More levels have more tables.
pub proof fn lemma_file_count(levels: Seq<Vec<FileMetaData>>, some: nat, all: nat)
    requires
        some <= all,
    ensures
        file_count(levels, some) <= file_count(levels, all),
    decreases all - some,
{
    if some < all {
        lemma_file_count(levels, some, (all - 1) as nat);
    }
}

/// Whether so many bytes of the tables lie in a range.
pub open spec fn size_is<C: Comparator, F: RandomAccessFile, P: FilterPolicy, Z: Compressor>(
    setup: TableSetup<C, P, Z>,
    stored: Map<Seq<char>, Seq<u8>>,
    sure: bool,
    levels: Seq<Vec<FileMetaData>>,
    range: Range,
    size: u64,
) -> bool {
    exists|start: u64, limit: u64|
        #![trigger
            offset_is::<C, F, P, Z>(
                setup,
                stored,
                sure,
                levels,
                crate::format::first_internal_key(range.start@),
                start,
            ),
            offset_is::<C, F, P, Z>(
                setup,
                stored,
                sure,
                levels,
                crate::format::first_internal_key(range.limit@),
                limit,
            )]
        offset_is::<C, F, P, Z>(setup, stored, sure, levels, crate::format::first_internal_key(range.start@), start)
            && offset_is::<C, F, P, Z>(setup, stored, sure, levels, crate::format::first_internal_key(range.limit@), limit)
            && size == if start <= limit {
            limit - start
        } else {
            0
        }
}

proof fn lemma_size<C: Comparator, F: RandomAccessFile, P: FilterPolicy, Z: Compressor>(
    setup: TableSetup<C, P, Z>,
    stored: Map<Seq<char>, Seq<u8>>,
    sure: bool,
    levels: Seq<Vec<FileMetaData>>,
    range: Range,
    start: u64,
    limit: u64,
    size: u64,
)
    requires
        offset_is::<C, F, P, Z>(setup, stored, sure, levels, crate::format::first_internal_key(range.start@), start),
        offset_is::<C, F, P, Z>(setup, stored, sure, levels, crate::format::first_internal_key(range.limit@), limit),
        size == if start <= limit {
            limit - start
        } else {
            0
        },
    ensures
        size_is::<C, F, P, Z>(setup, stored, sure, levels, range, size),
{
}

/// About how many bytes of the tables ranges of user keys take: what lies before the
/// limit of a range and not before its start.
pub fn get_approximate_sizes<
    C: Comparator,
    E: Env,
    P: FilterPolicy,
    Z: Compressor,
    B: Cache<Arc<Block>>,
>(
    table_cache: &mut TableCache<InternalKeyComparator<C>, E, P, Z, B>,
    env: &E,
    comparator: &InternalKeyComparator<C>,
    levels: &Vec<Vec<FileMetaData>>,
    ranges: &[Range],
) -> (sizes: Vec<u64>)
    requires
        old(table_cache).wf(),
        old(table_cache).agrees(*env),
        old(table_cache).blocks().issued() + 2 * (ranges@.len() * file_count(
            levels@,
            levels@.len(),
        )) <= u64::MAX,
        old(table_cache).setup().comparator == *comparator,
        forall|i: int|
            0 <= i < ranges@.len() ==> comparator.user_order().admits(
                (#[trigger] ranges@[i]).start@,
            ) && comparator.user_order().admits(ranges@[i].limit@),
        bounds_admitted(*comparator, levels@),
        env.wf(),
    ensures
        final(table_cache).wf(),
        final(table_cache).agrees(*env),
        final(table_cache).setup() == old(table_cache).setup(),
        sizes@.len() == ranges@.len(),
        levels_known(*env, old(table_cache).setup().dbname, levels@) ==> forall|i: int|
            0 <= i < ranges@.len() ==> size_is::<InternalKeyComparator<C>, E::RandomAccess, P, Z>(
                old(table_cache).setup(),
                env.files(),
                env.reliable(),
                levels@,
                ranges@[i],
                #[trigger] sizes@[i],
            ),
{
    let ghost setup = table_cache.setup();
    let ghost each = file_count(levels@, levels@.len());
    let mut sizes: Vec<u64> = Vec::new();
    let mut index: usize = 0;
    while index < ranges.len()
        invariant
            index <= ranges@.len(),
            each == file_count(levels@, levels@.len()),
            table_cache.wf(),
            table_cache.agrees(*env),
            table_cache.setup() == setup,
            setup == old(table_cache).setup(),
            setup.comparator == *comparator,
            forall|i: int|
                0 <= i < ranges@.len() ==> comparator.user_order().admits(
                    (#[trigger] ranges@[i]).start@,
                ) && comparator.user_order().admits(ranges@[i].limit@),
            bounds_admitted(*comparator, levels@),
            env.wf(),
            table_cache.blocks().issued() <= old(table_cache).blocks().issued() + 2 * (index
                * each),
            old(table_cache).blocks().issued() + 2 * (ranges@.len() * each) <= u64::MAX,
            sizes@.len() == index,
            levels_known(*env, setup.dbname, levels@) ==> forall|i: int|
                0 <= i < index ==> size_is::<InternalKeyComparator<C>, E::RandomAccess, P, Z>(
                    setup,
                    env.files(),
                    env.reliable(),
                    levels@,
                    ranges@[i],
                    #[trigger] sizes@[i],
                ),
        decreases ranges@.len() - index,
    {
        let range = &ranges[index];
        proof {
            let count = ranges@.len();
            assert((index + 1) * each <= count * each) by (nonlinear_arith)
                requires
                    index + 1 <= count,
                    0 <= each,
            ;
            assert((index + 1) * each == index * each + each) by (nonlinear_arith);
            crate::format::law_parse_round_trip(
                range.start@,
                MAX_SEQUENCE_NUMBER as nat,
                VALUE_TYPE_FOR_SEEK,
            );
            crate::format::law_parse_round_trip(
                range.limit@,
                MAX_SEQUENCE_NUMBER as nat,
                VALUE_TYPE_FOR_SEEK,
            );
        }
        let start_key = InternalKey::new(
            range.start.as_slice(),
            MAX_SEQUENCE_NUMBER,
            VALUE_TYPE_FOR_SEEK,
        );
        let limit_key = InternalKey::new(
            range.limit.as_slice(),
            MAX_SEQUENCE_NUMBER,
            VALUE_TYPE_FOR_SEEK,
        );
        let start: u64 = approximate_offset_of(
            table_cache,
            env,
            comparator,
            levels,
            start_key.encode(),
        );
        let limit: u64 = approximate_offset_of(
            table_cache,
            env,
            comparator,
            levels,
            limit_key.encode(),
        );
        let size: u64 = limit.saturating_sub(start);
        proof {
            if levels_known(*env, setup.dbname, levels@) {
                lemma_size::<InternalKeyComparator<C>, E::RandomAccess, P, Z>(
                    setup,
                    env.files(),
                    env.reliable(),
                    levels@,
                    *range,
                    start,
                    limit,
                    size,
                );
            }
        }
        sizes.push(size);
        index = index + 1;
    }
    sizes
}

} // verus!
