//! What the approximate sizes of ranges come to.

use vstd::prelude::*;

use crate::comparator::Comparator;
use crate::db_impl::compaction;
use crate::db_impl::options::Range;
use crate::db_impl::sizes;
use crate::env::Env;
use crate::env::RandomAccessFile;
use crate::filename;
use crate::filter::FilterPolicy;
use crate::format::InternalKeyComparator;
use crate::status;
use crate::table::Compressor;
use crate::table_cache;
use crate::table_cache::TableSetup;
use crate::version_set::FileMetaData;

verus! {

/// The sum of some numbers.
pub open spec fn total(numbers: Seq<int>) -> int {
    numbers.fold_left(0, |sum: int, number: int| sum + number)
}

/// A number, or the greatest that can be told.
pub open spec fn told(number: int) -> int {
    if number <= u64::MAX {
        number
    } else {
        u64::MAX as int
    }
}

/// Whether the tables of a level are in order and do not overlap.
pub open spec fn in_order<C: Comparator>(order: C, files: Seq<FileMetaData>) -> bool {
    &&& forall|i: int|
        0 <= i < files.len() ==> !order.less((#[trigger] files[i]).largest@, files[i].smallest@)
    &&& forall|i: int, j: int|
        0 <= i < j < files.len() ==> order.less(
            (#[trigger] files[i]).largest@,
            (#[trigger] files[j]).smallest@,
        )
}

/// Whether all levels but the first are in order.
pub open spec fn all_in_order<C: Comparator>(order: C, levels: Seq<Vec<FileMetaData>>) -> bool {
    forall|level: int|
        0 < level < levels.len() ==> in_order(order, (#[trigger] levels[level])@)
}

/// Whether no table spans a key.
pub open spec fn none_spans<C: Comparator>(
    order: C,
    levels: Seq<Vec<FileMetaData>>,
    key: Seq<u8>,
) -> bool {
    forall|level: int, i: int|
        0 <= level < levels.len() && 0 <= i < levels[level]@.len() ==> !order.less(
            key,
            (#[trigger] levels[level]@[i]).largest@,
        ) || order.less(key, levels[level]@[i].smallest@)
}

/// The sizes of the tables of a level that end before the key; zero for the others.
pub open spec fn passed<C: Comparator>(
    order: C,
    files: Seq<FileMetaData>,
    key: Seq<u8>,
) -> Seq<int> {
    Seq::new(
        files.len(),
        |i: int|
            if order.less(key, files[i].largest@) {
                0
            } else {
                files[i].file_size as int
            },
    )
}

/// The sizes of all tables that end before the key, over all levels.
pub open spec fn all_passed<C: Comparator>(
    order: C,
    levels: Seq<Vec<FileMetaData>>,
    key: Seq<u8>,
) -> int {
    total(Seq::new(levels.len(), |level: int| total(passed(order, levels[level]@, key))))
}

/// What is told of the tables of a level: the size of a table that ends before the key,
/// nothing of one that starts behind it, and of one that spans it what was read.
pub open spec fn shares<C: Comparator>(
    order: C,
    files: Seq<FileMetaData>,
    key: Seq<u8>,
    reads: Seq<status::Result<u64>>,
) -> Seq<int> {
    Seq::new(
        files.len(),
        |i: int|
            if !order.less(key, files[i].largest@) {
                files[i].file_size as int
            } else if order.less(key, files[i].smallest@) {
                0
            } else {
                match reads[i] {
                    Ok(offset) => offset as int,
                    Err(_) => 0,
                }
            },
    )
}

/// What is told of all tables, over all levels.
pub open spec fn all_shares<C: Comparator>(
    order: C,
    levels: Seq<Vec<FileMetaData>>,
    key: Seq<u8>,
    reads: Seq<Seq<status::Result<u64>>>,
) -> int {
    total(
        Seq::new(
            levels.len(),
            |level: int| total(shares(order, levels[level]@, key, reads[level])),
        ),
    )
}

/// Whether these were read of the tables that span a key.
pub open spec fn were_read<C: Comparator, F: RandomAccessFile, P: FilterPolicy, Z: Compressor>(
    setup: TableSetup<C, P, Z>,
    stored: Map<Seq<char>, Seq<u8>>,
    levels: Seq<Vec<FileMetaData>>,
    key: Seq<u8>,
    reads: Seq<Seq<status::Result<u64>>>,
) -> bool {
    forall|level: int, i: int|
        0 <= level < levels.len() && 0 <= i < levels[level]@.len() && setup.comparator.less(
            key,
            levels[level]@[i].largest@,
        ) && !setup.comparator.less(key, levels[level]@[i].smallest@)
            ==> table_cache::offset_read::<C, F, P, Z>(
            setup,
            stored,
            levels[level]@[i].number,
            key,
            #[trigger] reads[level][i],
        )
}

proof fn lemma_total_push(numbers: Seq<int>)
    requires
        numbers.len() > 0,
    ensures
        total(numbers) == total(numbers.drop_last()) + numbers.last(),
{
    let plus = |sum: int, number: int| sum + number;
    assert(numbers.fold_left(0, plus) == plus(
        numbers.drop_last().fold_left(0, plus),
        numbers.last(),
    ));
}

proof fn lemma_total_grows(some: Seq<int>, more: Seq<int>)
    requires
        some.len() == more.len(),
        forall|i: int| 0 <= i < some.len() ==> 0 <= #[trigger] some[i] <= more[i],
    ensures
        0 <= total(some) <= total(more),
    decreases some.len(),
{
    if some.len() > 0 {
        lemma_total_push(some);
        lemma_total_push(more);
        assert(some.last() == some[some.len() - 1]);
        assert(more.last() == more[some.len() - 1]);
        lemma_total_grows(some.drop_last(), more.drop_last());
    }
}

/// In a level in order, the search comes to each table that does not start behind the key.
proof fn lemma_comes_to<C: Comparator>(
    order: C,
    level: int,
    files: Seq<FileMetaData>,
    key: Seq<u8>,
    place: int,
)
    requires
        0 <= place < files.len(),
        level > 0 ==> in_order(order, files),
        order.admits(key),
        forall|i: int|
            0 <= i < files.len() ==> order.admits((#[trigger] files[i]).smallest@) && order.admits(
                files[i].largest@,
            ),
        !order.less(key, files[place].largest@) || !order.less(key, files[place].smallest@),
    ensures
        sizes::comes_to(order, level, files, key, place),
{
    assert forall|i: int| 0 <= i < place implies !sizes::ends_at(
        order,
        level,
        #[trigger] files[i],
        key,
    ) by {
        if level > 0 && order.less(key, files[i].smallest@) {
            let (first, last) = (files[i].smallest@, files[i].largest@);
            let (next, end) = (files[place].smallest@, files[place].largest@);
            assert(order.less(last, next));
            order.less_splits(key, last, first);
            order.less_transitive(key, last, next);
            order.less_splits(key, end, next);
        }
    }
}

proof fn lemma_level_shares<C: Comparator>(
    order: C,
    level: int,
    files: Seq<FileMetaData>,
    key: Seq<u8>,
    reads: Seq<status::Result<u64>>,
    count: nat,
)
    requires
        count <= files.len(),
        level > 0 ==> in_order(order, files),
        order.admits(key),
        forall|i: int|
            0 <= i < files.len() ==> order.admits((#[trigger] files[i]).smallest@) && order.admits(
                files[i].largest@,
            ),
    ensures
        sizes::level_amount(order, level, files, key, reads, count) == total(
            shares(order, files, key, reads).take(count as int),
        ),
    decreases count,
{
    let all = shares(order, files, key, reads);
    if count > 0 {
        let last = count - 1;
        lemma_level_shares(order, level, files, key, reads, last as nat);
        lemma_total_push(all.take(count as int));
        assert(all.take(count as int).drop_last() =~= all.take(last));
        assert(all.take(count as int).last() == all[last]);
        if !order.less(key, files[last].largest@) || !order.less(key, files[last].smallest@) {
            lemma_comes_to(order, level, files, key, last);
        }
        assert(sizes::level_amount(order, level, files, key, reads, count)
            == sizes::level_amount(order, level, files, key, reads, last as nat) + all[last]);
    } else {
        assert(all.take(0) =~= Seq::<int>::empty());
    }
}

proof fn lemma_levels_shares<C: Comparator>(
    order: C,
    levels: Seq<Vec<FileMetaData>>,
    key: Seq<u8>,
    reads: Seq<Seq<status::Result<u64>>>,
    count: nat,
)
    requires
        count <= levels.len(),
        all_in_order(order, levels),
        order.admits(key),
        sizes::bounds_admitted(order, levels),
    ensures
        sizes::levels_amount(order, levels, key, reads, count) == total(
            Seq::new(
                count,
                |level: int| total(shares(order, levels[level]@, key, reads[level])),
            ),
        ),
    decreases count,
{
    let all = Seq::new(
        count,
        |level: int| total(shares(order, levels[level]@, key, reads[level])),
    );
    if count > 0 {
        let last = count - 1;
        let front = Seq::new(
            last as nat,
            |level: int| total(shares(order, levels[level]@, key, reads[level])),
        );
        lemma_levels_shares(order, levels, key, reads, last as nat);
        lemma_total_push(all);
        assert(all.drop_last() =~= front);
        let files = levels[last]@;
        assert forall|i: int| 0 <= i < files.len() implies order.admits(
            (#[trigger] files[i]).smallest@,
        ) && order.admits(files[i].largest@) by {
            assert(levels[last]@[i] == files[i]);
        }
        lemma_level_shares(order, last, files, key, reads[last], files.len());
        let part = shares(order, files, key, reads[last]);
        assert(part.take(files.len() as int) =~= part);
    } else {
        assert(all =~= Seq::<int>::empty());
    }
}

/// The offset of a key is the sum, over all tables of all levels, of the sizes of those that
/// end before it and of what was read of those that span it. A table that starts behind the
/// key adds nothing.
pub proof fn law_offset_is_a_sum<
    C: Comparator,
    F: RandomAccessFile,
    P: FilterPolicy,
    Z: Compressor,
>(
    setup: TableSetup<C, P, Z>,
    stored: Map<Seq<char>, Seq<u8>>,
    levels: Seq<Vec<FileMetaData>>,
    key: Seq<u8>,
    offset: u64,
)
    requires
        sizes::offset_is::<C, F, P, Z>(setup, stored, true, levels, key, offset),
        all_in_order(setup.comparator, levels),
        setup.comparator.admits(key),
        sizes::bounds_admitted(setup.comparator, levels),
    ensures
        exists|reads: Seq<Seq<status::Result<u64>>>| #[trigger]
            were_read::<C, F, P, Z>(setup, stored, levels, key, reads) && offset == told(
                all_shares(setup.comparator, levels, key, reads),
            ),
{
    let order = setup.comparator;
    let reads = choose|reads: Seq<Seq<status::Result<u64>>>| #[trigger]
        sizes::all_reads::<C, F, P, Z>(setup, stored, true, levels, key, reads) && offset
            == sizes::capped(
            sizes::levels_amount(setup.comparator, levels, key, reads, levels.len()),
        );
    lemma_levels_shares(order, levels, key, reads, levels.len());
    assert forall|level: int, i: int|
        0 <= level < levels.len() && 0 <= i < levels[level]@.len() && order.less(
            key,
            levels[level]@[i].largest@,
        ) && !order.less(key, levels[level]@[i].smallest@) implies table_cache::offset_read::<
        C,
        F,
        P,
        Z,
    >(setup, stored, levels[level]@[i].number, key, #[trigger] reads[level][i]) by {
        let files = levels[level]@;
        assert(sizes::level_reads::<C, F, P, Z>(
            setup,
            stored,
            true,
            level,
            files,
            key,
            reads[level],
        ));
        assert forall|k: int| 0 <= k < files.len() implies order.admits(
            (#[trigger] files[k]).smallest@,
        ) && order.admits(files[k].largest@) by {
            assert(levels[level]@[k] == files[k]);
        }
        lemma_comes_to(order, level, files, key, i);
    }
    assert(were_read::<C, F, P, Z>(setup, stored, levels, key, reads));
}

/// The offset of a key is not below the sizes of all tables that end before it, and if no
/// table spans the key, it is just that: tables behind the key add nothing.
pub proof fn law_offset_passes_tables<
    C: Comparator,
    F: RandomAccessFile,
    P: FilterPolicy,
    Z: Compressor,
>(
    setup: TableSetup<C, P, Z>,
    stored: Map<Seq<char>, Seq<u8>>,
    sure: bool,
    levels: Seq<Vec<FileMetaData>>,
    key: Seq<u8>,
    offset: u64,
)
    requires
        sizes::offset_is::<C, F, P, Z>(setup, stored, sure, levels, key, offset),
        all_in_order(setup.comparator, levels),
        setup.comparator.admits(key),
        sizes::bounds_admitted(setup.comparator, levels),
    ensures
        told(all_passed(setup.comparator, levels, key)) <= offset,
        none_spans(setup.comparator, levels, key) ==> offset == told(
            all_passed(setup.comparator, levels, key),
        ),
{
    let order = setup.comparator;
    let reads = choose|reads: Seq<Seq<status::Result<u64>>>| #[trigger]
        sizes::all_reads::<C, F, P, Z>(setup, stored, sure, levels, key, reads) && offset
            == sizes::capped(
            sizes::levels_amount(setup.comparator, levels, key, reads, levels.len()),
        );
    lemma_levels_shares(order, levels, key, reads, levels.len());
    let some = Seq::new(levels.len(), |level: int| total(passed(order, levels[level]@, key)));
    let more = Seq::new(
        levels.len(),
        |level: int| total(shares(order, levels[level]@, key, reads[level])),
    );
    assert forall|level: int| 0 <= level < some.len() implies 0 <= #[trigger] some[level]
        <= more[level] by {
        lemma_total_grows(
            passed(order, levels[level]@, key),
            shares(order, levels[level]@, key, reads[level]),
        );
    }
    lemma_total_grows(some, more);
    if none_spans(order, levels, key) {
        assert forall|level: int| 0 <= level < some.len() implies #[trigger] some[level]
            == more[level] by {
            let (less, all) = (
                passed(order, levels[level]@, key),
                shares(order, levels[level]@, key, reads[level]),
            );
            assert forall|i: int| 0 <= i < less.len() implies less[i] == all[i] by {
                assert(!order.less(key, levels[level]@[i].largest@) || order.less(
                    key,
                    levels[level]@[i].smallest@,
                ));
            }
            assert(less =~= all);
        }
        assert(some =~= more);
    }
}

/// The sizes of the tables of a level.
pub open spec fn file_sizes(files: Seq<FileMetaData>) -> Seq<int> {
    Seq::new(files.len(), |i: int| files[i].file_size as int)
}

/// The sizes of all tables, over all levels.
pub open spec fn all_sizes(levels: Seq<Vec<FileMetaData>>) -> int {
    total(Seq::new(levels.len(), |level: int| total(file_sizes(levels[level]@))))
}

/// The size of a range is the sizes of the tables that end between its two ends, if no table
/// spans either of them.
pub proof fn law_range_holds_tables<
    C: Comparator,
    F: RandomAccessFile,
    P: FilterPolicy,
    Z: Compressor,
>(
    setup: TableSetup<InternalKeyComparator<C>, P, Z>,
    stored: Map<Seq<char>, Seq<u8>>,
    sure: bool,
    levels: Seq<Vec<FileMetaData>>,
    range: Range,
    size: u64,
)
    requires
        sizes::size_is::<InternalKeyComparator<C>, F, P, Z>(
            setup,
            stored,
            sure,
            levels,
            range,
            size,
        ),
        all_in_order(setup.comparator, levels),
        sizes::bounds_admitted(setup.comparator, levels),
        setup.comparator.admits(crate::format::first_internal_key(range.start@)),
        setup.comparator.admits(crate::format::first_internal_key(range.limit@)),
        none_spans(setup.comparator, levels, crate::format::first_internal_key(range.start@)),
        none_spans(setup.comparator, levels, crate::format::first_internal_key(range.limit@)),
    ensures
        ({
            let start = told(
                all_passed(
                    setup.comparator,
                    levels,
                    crate::format::first_internal_key(range.start@),
                ),
            );
            let limit = told(
                all_passed(
                    setup.comparator,
                    levels,
                    crate::format::first_internal_key(range.limit@),
                ),
            );
            size == if start <= limit {
                limit - start
            } else {
                0
            }
        }),
{
    let first = crate::format::first_internal_key(range.start@);
    let last = crate::format::first_internal_key(range.limit@);
    let (start, limit) = choose|start: u64, limit: u64|
        #![trigger
            sizes::offset_is::<InternalKeyComparator<C>, F, P, Z>(
                setup,
                stored,
                sure,
                levels,
                first,
                start,
            ),
            sizes::offset_is::<InternalKeyComparator<C>, F, P, Z>(
                setup,
                stored,
                sure,
                levels,
                last,
                limit,
            )]
        sizes::offset_is::<InternalKeyComparator<C>, F, P, Z>(
            setup,
            stored,
            sure,
            levels,
            first,
            start,
        ) && sizes::offset_is::<InternalKeyComparator<C>, F, P, Z>(
            setup,
            stored,
            sure,
            levels,
            last,
            limit,
        ) && size == if start <= limit {
            limit - start
        } else {
            0
        };
    law_offset_passes_tables::<InternalKeyComparator<C>, F, P, Z>(
        setup,
        stored,
        sure,
        levels,
        first,
        start,
    );
    law_offset_passes_tables::<InternalKeyComparator<C>, F, P, Z>(
        setup,
        stored,
        sure,
        levels,
        last,
        limit,
    );
}

/// The size of a range that starts before all tables and ends behind them is the sizes of
/// all tables together.
pub proof fn law_whole_range_is_all<
    C: Comparator,
    F: RandomAccessFile,
    P: FilterPolicy,
    Z: Compressor,
>(
    setup: TableSetup<InternalKeyComparator<C>, P, Z>,
    stored: Map<Seq<char>, Seq<u8>>,
    sure: bool,
    levels: Seq<Vec<FileMetaData>>,
    range: Range,
    size: u64,
)
    requires
        sizes::size_is::<InternalKeyComparator<C>, F, P, Z>(
            setup,
            stored,
            sure,
            levels,
            range,
            size,
        ),
        all_in_order(setup.comparator, levels),
        sizes::bounds_admitted(setup.comparator, levels),
        setup.comparator.admits(crate::format::first_internal_key(range.start@)),
        setup.comparator.admits(crate::format::first_internal_key(range.limit@)),
        forall|level: int, i: int|
            0 <= level < levels.len() && 0 <= i < levels[level]@.len() ==> {
                &&& !setup.comparator.less(
                    (#[trigger] levels[level]@[i]).largest@,
                    levels[level]@[i].smallest@,
                )
                &&& setup.comparator.less(
                    crate::format::first_internal_key(range.start@),
                    levels[level]@[i].smallest@,
                )
                &&& !setup.comparator.less(
                    crate::format::first_internal_key(range.limit@),
                    levels[level]@[i].largest@,
                )
            },
    ensures
        size == told(all_sizes(levels)),
{
    let order = setup.comparator;
    let first = crate::format::first_internal_key(range.start@);
    let last = crate::format::first_internal_key(range.limit@);
    law_range_holds_tables::<C, F, P, Z>(setup, stored, sure, levels, range, size);
    let none = Seq::new(levels.len(), |level: int| total(passed(order, levels[level]@, first)));
    let all = Seq::new(levels.len(), |level: int| total(passed(order, levels[level]@, last)));
    let every = Seq::new(levels.len(), |level: int| total(file_sizes(levels[level]@)));
    let zero = Seq::new(levels.len(), |level: int| 0int);
    assert forall|level: int|
        #![trigger none[level]]
        #![trigger all[level]]
        #![trigger every[level]]
        0 <= level < levels.len() implies none[level] == 0 && all[level] == every[level]
        && every[level] >= 0 by {
        let files = levels[level]@;
        assert forall|i: int| 0 <= i < files.len() implies order.less(
            first,
            (#[trigger] files[i]).largest@,
        ) && !order.less(last, files[i].largest@) by {
            assert(levels[level]@[i] == files[i]);
            order.less_splits(first, files[i].largest@, files[i].smallest@);
        }
        let zeros = Seq::new(files.len(), |i: int| 0int);
        assert(passed(order, files, first) =~= zeros);
        assert(passed(order, files, last) =~= file_sizes(files));
        lemma_zero(zeros);
        lemma_total_grows(file_sizes(files), file_sizes(files));
    }
    assert(none =~= zero);
    assert(all =~= every);
    lemma_zero(zero);
    lemma_total_grows(every, every);
}

proof fn lemma_zero(numbers: Seq<int>)
    requires
        forall|i: int| 0 <= i < numbers.len() ==> #[trigger] numbers[i] == 0,
    ensures
        total(numbers) == 0,
    decreases numbers.len(),
{
    if numbers.len() > 0 {
        lemma_total_push(numbers);
        assert(numbers.last() == numbers[numbers.len() - 1]);
        lemma_zero(numbers.drop_last());
    }
}

/// The size of some tables is the sum of the sizes of all of them.
pub proof fn law_size_sum(files: Seq<FileMetaData>)
    ensures
        compaction::size_sum(files) == total(file_sizes(files)),
    decreases files.len(),
{
    if files.len() > 0 {
        law_size_sum(files.drop_last());
        lemma_total_push(file_sizes(files));
        assert(file_sizes(files).drop_last() =~= file_sizes(files.drop_last()));
    }
}

/// The paths of all tables can be told where the file system does not fail, and also where no
/// table has files of both names.
pub proof fn law_levels_are_known<E: Env>(
    env: E,
    dbname: Seq<char>,
    levels: Seq<Vec<FileMetaData>>,
)
    requires
        env.reliable() || forall|level: int, i: int|
            0 <= level < levels.len() && 0 <= i < levels[level]@.len() ==> !(env.files().contains_key(
                filename::numbered(dbname, (#[trigger] levels[level]@[i]).number, "ldb"@),
            ) && env.files().contains_key(
                filename::numbered(dbname, levels[level]@[i].number, "sst"@),
            )),
    ensures
        sizes::levels_known(env, dbname, levels),
{
    assert forall|level: int| 0 <= level < levels.len() implies sizes::all_known(
        env,
        dbname,
        (#[trigger] levels[level])@,
    ) by {
        let files = levels[level]@;
        assert forall|i: int| 0 <= i < files.len() implies table_cache::name_is_known(
            env,
            dbname,
            (#[trigger] files[i]).number,
        ) by {
            assert(levels[level]@[i] == files[i]);
        }
    }
}

/// The number of all tables is the sum of those of all levels.
pub proof fn law_files_are_counted(levels: Seq<Vec<FileMetaData>>, count: nat)
    requires
        count <= levels.len(),
    ensures
        sizes::file_count(levels, count) == total(
            Seq::new(count, |level: int| levels[level]@.len() as int),
        ),
    decreases count,
{
    let all = Seq::new(count, |level: int| levels[level]@.len() as int);
    if count > 0 {
        let last = (count - 1) as nat;
        law_files_are_counted(levels, last);
        lemma_total_push(all);
        assert(all.drop_last() =~= Seq::new(last, |level: int| levels[level]@.len() as int));
    } else {
        assert(all =~= Seq::<int>::empty());
    }
}

} // verus!
