//! Reading the tables of a damaged database.

use vstd::prelude::*;

use std::sync::Arc;

use crate::comparator::Comparator;
use crate::db_impl::table_input;
use crate::db_iter::db_iterator;
use crate::env::Env;
use crate::env::RandomAccessFile;
use crate::filename;
use crate::repair::files;
use crate::repair::files::archive_file;
use crate::status;
use crate::table::table_iterator;
use crate::table::Compressor;
use crate::table_cache;
use crate::version_set::FileMetaData;

verus! {

/// What is found out about a table.
#[derive(Debug)]
pub struct TableInfo {
    pub meta: FileMetaData,
    /// The greatest sequence number of its entries.
    pub max_sequence: u64,
}

/// The greatest sequence number of some entries; keys that are malformed do not count.
pub open spec fn greatest_sequence(pairs: Seq<db_iterator::Pair>) -> nat
    decreases pairs.len(),
{
    if pairs.len() == 0 {
        0
    } else {
        let front = greatest_sequence(pairs.drop_last());
        match crate::format::parsed(pairs.last().0) {
            Some((_, sequence, _)) => if sequence > front {
                sequence
            } else {
                front
            },
            None => front,
        }
    }
}

fn find_greatest_sequence(entries: &Vec<(Vec<u8>, Vec<u8>)>) -> (greatest: u64)
    ensures
        greatest == greatest_sequence(table_iterator::pair_views(entries@)),
{
    let ghost pairs = table_iterator::pair_views(entries@);
    let mut greatest: u64 = 0;
    let mut index: usize = 0;
    assert(pairs.take(0) =~= Seq::<db_iterator::Pair>::empty());
    while index < entries.len()
        invariant
            index <= entries@.len(),
            pairs == table_iterator::pair_views(entries@),
            greatest == greatest_sequence(pairs.take(index as int)),
        decreases entries@.len() - index,
    {
        proof {
            let more = pairs.take(index + 1);
            assert(more.drop_last() =~= pairs.take(index as int));
            assert(more.last() == pairs[index as int]);
            assert(pairs[index as int].0 == entries@[index as int].0@);
        }
        match crate::format::parse_internal_key(entries[index].0.as_slice()) {
            Some(parsed) => {
                if parsed.sequence > greatest {
                    greatest = parsed.sequence;
                }
            },
            None => {},
        }
        index = index + 1;
    }
    assert(pairs.take(index as int) =~= pairs);
    greatest
}

/// Whether this is to be found out about a table of the given size and entries.
pub open spec fn is_info(
    info: TableInfo,
    number: u64,
    file_size: nat,
    pairs: Seq<db_iterator::Pair>,
) -> bool {
    &&& info.meta.number == number
    &&& info.meta.file_size == file_size
    &&& info.meta.smallest@ == pairs[0].0
    &&& info.meta.largest@ == pairs.last().0
    &&& info.max_sequence == greatest_sequence(pairs)
}

/// What is found out about the table of a number: nothing where it is missing, empty or
/// cannot be read.
pub open spec fn scan_says<C: Comparator, F: RandomAccessFile, Z: Compressor>(
    comparator: C,
    compressor: Option<Arc<Z>>,
    stored: Map<Seq<char>, Seq<u8>>,
    dbname: Seq<char>,
    number: u64,
    info: Option<TableInfo>,
) -> bool {
    let path = table_cache::table_path(stored, dbname, number);
    if !stored.contains_key(path) {
        info is None
    } else {
        exists|read: status::Result<Vec<(Vec<u8>, Vec<u8>)>>| #[trigger]
            table_input::entries_read::<C, F, Z>(
                comparator,
                compressor,
                stored[path],
                true,
                read,
            ) && match read {
                Ok(all) => if all@.len() > 0 {
                    info matches Some(found) && is_info(
                        found,
                        number,
                        stored[path].len(),
                        table_iterator::pair_views(all@),
                    )
                } else {
                    info is None
                },
                Err(_) => info is None,
            }
    }
}

/// Whether a path is one that the table of a number may have.
pub open spec fn is_name_of(dbname: Seq<char>, number: u64, path: Seq<char>) -> bool {
    path == filename::numbered(dbname, number, "ldb"@) || path == filename::numbered(
        dbname,
        number,
        "sst"@,
    )
}

/// Whether this was read from a table of a number.
pub open spec fn is_found<C: Comparator, F: RandomAccessFile, Z: Compressor>(
    comparator: C,
    compressor: Option<Arc<Z>>,
    stored: Map<Seq<char>, Seq<u8>>,
    dbname: Seq<char>,
    number: u64,
    info: TableInfo,
) -> bool {
    exists|path: Seq<char>, all: Vec<(Vec<u8>, Vec<u8>)>| #[trigger]
        table_input::part_read::<C, F, Z>(comparator, compressor, stored, path, true, all)
            && is_name_of(dbname, number, path) && all@.len() > 0 && is_info(
            info,
            number,
            stored[path].len(),
            table_iterator::pair_views(all@),
        )
}

/// The path of the table of a number: what older tables are named only if there is no
/// other.
fn find_table<E: Env>(env: &E, dbname: &str, number: u64) -> (path: String)
    requires
        env.wf(),
    ensures
        is_name_of(dbname@, number, path@),
        env.reliable() ==> path@ == table_cache::table_path(env.files(), dbname@, number),
{
    let path = filename::table_file_name(dbname, number);
    if env.file_exists(path.as_str()) {
        path
    } else {
        filename::sst_table_file_name(dbname, number)
    }
}

/// Reads a table to find out its bounds and its greatest sequence number. `None` if it
/// has no entries.
pub fn scan_table<E: Env, C: Comparator, Z: Compressor>(
    env: &E,
    dbname: &str,
    number: u64,
    comparator: &C,
    compressor: &Option<Arc<Z>>,
) -> (scanned: status::Result<Option<TableInfo>>)
    requires
        env.wf(),
    ensures
        env.reliable() ==> scan_says::<C, E::RandomAccess, Z>(
            *comparator,
            *compressor,
            env.files(),
            dbname@,
            number,
            match scanned {
                Ok(info) => info,
                Err(_) => None,
            },
        ),
        scanned matches Ok(Some(info)) ==> is_found::<C, E::RandomAccess, Z>(
            *comparator,
            *compressor,
            env.files(),
            dbname@,
            number,
            info,
        ),
{
    let path = find_table(env, dbname, number);
    let file_size: u64 = match env.get_file_size(path.as_str()) {
        Err(error) => {
            return Err(error);
        },
        Ok(size) => size,
    };
    let read = table_input::read_table_entries(env, path.as_str(), comparator, compressor, true);
    let ghost told = read;
    match read {
        Err(error) => Err(error),
        Ok(entries) => {
            assert(told == Ok::<Vec<(Vec<u8>, Vec<u8>)>, status::Status>(entries));
            if entries.len() == 0 {
                return Ok(None);
            }
            let info = TableInfo {
                meta: FileMetaData {
                    number,
                    file_size,
                    smallest: vstd::slice::slice_to_vec(entries[0].0.as_slice()),
                    largest: vstd::slice::slice_to_vec(entries[entries.len() - 1].0.as_slice()),
                },
                max_sequence: find_greatest_sequence(&entries),
            };
            assert(table_input::part_read::<C, E::RandomAccess, Z>(
                *comparator,
                *compressor,
                env.files(),
                path@,
                true,
                entries,
            ));
            Ok(Some(info))
        },
    }
}

/// Whether a table was read, or else set aside: `moved` is the path that was, if one was.
/// Where reads and moves do not fail, all is found out that can be, and what is there is
/// moved.
pub open spec fn is_scanned<C: Comparator, F: RandomAccessFile, Z: Compressor>(
    comparator: C,
    compressor: Option<Arc<Z>>,
    dbname: Seq<char>,
    sure: bool,
    before: Map<Seq<char>, Seq<u8>>,
    number: u64,
    info: Option<TableInfo>,
    moved: Option<Seq<char>>,
    after: Map<Seq<char>, Seq<u8>>,
) -> bool {
    let path = table_cache::table_path(before, dbname, number);
    &&& info matches Some(found) ==> is_found::<C, F, Z>(
        comparator,
        compressor,
        before,
        dbname,
        number,
        found,
    )
    &&& after == match moved {
        Some(from) => files::set_aside(before, dbname, from),
        None => before,
    }
    &&& moved matches Some(from) ==> info is None && is_name_of(dbname, number, from)
        && before.contains_key(from)
    &&& sure ==> scan_says::<C, F, Z>(comparator, compressor, before, dbname, number, info)
    &&& sure ==> moved == if info is None && before.contains_key(path) {
        Some(path)
    } else {
        None
    }
}

/// Whether tables were read one after the other.
pub open spec fn are_scanned<C: Comparator, F: RandomAccessFile, Z: Compressor>(
    comparator: C,
    compressor: Option<Arc<Z>>,
    dbname: Seq<char>,
    sure: bool,
    numbers: Seq<u64>,
    stages: Seq<Map<Seq<char>, Seq<u8>>>,
    infos: Seq<Option<TableInfo>>,
    moves: Seq<Option<Seq<char>>>,
) -> bool {
    &&& stages.len() == numbers.len() + 1
    &&& infos.len() == numbers.len()
    &&& moves.len() == numbers.len()
    &&& forall|i: int|
        #![trigger infos[i]]
        0 <= i < numbers.len() ==> is_scanned::<C, F, Z>(
            comparator,
            compressor,
            dbname,
            sure,
            stages[i],
            numbers[i],
            infos[i],
            moves[i],
            stages[i + 1],
        )
}

/// What was found out.
pub open spec fn kept(infos: Seq<Option<TableInfo>>) -> Seq<TableInfo>
    decreases infos.len(),
{
    if infos.len() == 0 {
        Seq::empty()
    } else {
        match infos.last() {
            Some(info) => kept(infos.drop_last()).push(info),
            None => kept(infos.drop_last()),
        }
    }
}

/// The numbers of the tables that were set aside.
pub open spec fn lost(numbers: Seq<u64>, moves: Seq<Option<Seq<char>>>) -> Seq<u64>
    decreases numbers.len(),
{
    if numbers.len() == 0 {
        Seq::empty()
    } else {
        let front = lost(numbers.drop_last(), moves.drop_last());
        if moves.last() is Some {
            front.push(numbers.last())
        } else {
            front
        }
    }
}

/// Whether each table of which nothing was found out was set aside.
pub open spec fn all_moved(
    infos: Seq<Option<TableInfo>>,
    moves: Seq<Option<Seq<char>>>,
) -> bool {
    forall|i: int| 0 <= i < infos.len() && #[trigger] infos[i] is None ==> moves[i] is Some
}

/// Whether no table was set aside of which something was found out.
pub open spec fn none_both(
    infos: Seq<Option<TableInfo>>,
    moves: Seq<Option<Seq<char>>>,
) -> bool {
    forall|i: int| 0 <= i < infos.len() && #[trigger] infos[i] is Some ==> moves[i] is None
}

/// Each table that could be moved, if it had to be, is kept or lost, and none is both.
pub proof fn law_kept_or_lost(
    numbers: Seq<u64>,
    infos: Seq<Option<TableInfo>>,
    moves: Seq<Option<Seq<char>>>,
)
    requires
        numbers.len() == infos.len(),
        numbers.len() == moves.len(),
        none_both(infos, moves),
    ensures
        kept(infos).len() + lost(numbers, moves).len() <= numbers.len(),
        all_moved(infos, moves) ==> kept(infos).len() + lost(numbers, moves).len()
            == numbers.len(),
    decreases numbers.len(),
{
    if numbers.len() > 0 {
        let last = numbers.len() - 1;
        let (some, others) = (infos.drop_last(), moves.drop_last());
        assert forall|i: int| 0 <= i < some.len() && #[trigger] some[i] is Some implies others[i] is None by {
            assert(infos[i] is Some);
        }
        if all_moved(infos, moves) {
            assert forall|i: int|
                0 <= i < some.len() && #[trigger] some[i] is None implies others[i] is Some by {
                assert(infos[i] is None);
            }
        }
        law_kept_or_lost(numbers.drop_last(), some, others);
        assert(infos.last() == infos[last] && moves.last() == moves[last]);
    }
}

/// A number is reported as lost if and only if a table of it was set aside.
pub proof fn law_lost_were_moved(
    numbers: Seq<u64>,
    moves: Seq<Option<Seq<char>>>,
    number: u64,
)
    requires
        numbers.len() == moves.len(),
    ensures
        lost(numbers, moves).contains(number) <==> exists|i: int|
            0 <= i < numbers.len() && numbers[i] == number && #[trigger] moves[i] is Some,
    decreases numbers.len(),
{
    if numbers.len() > 0 {
        let (front, others) = (numbers.drop_last(), moves.drop_last());
        let last = numbers.len() - 1;
        let before = lost(front, others);
        let all = lost(numbers, moves);
        law_lost_were_moved(front, others, number);
        if before.contains(number) {
            let k = choose|k: int| 0 <= k < before.len() && before[k] == number;
            assert(all[k] == number);
            let i = choose|i: int|
                0 <= i < front.len() && front[i] == number && #[trigger] others[i] is Some;
            assert(numbers[i] == number && moves[i] is Some);
        }
        if moves[last] is Some {
            assert(all[before.len() as int] == numbers[last]);
        }
        if all.contains(number) && !before.contains(number) {
            let k = choose|k: int| 0 <= k < all.len() && all[k] == number;
            if k < before.len() {
                assert(before[k] == number);
            }
            assert(moves[last] is Some);
        }
        if exists|i: int|
            0 <= i < numbers.len() && numbers[i] == number && #[trigger] moves[i] is Some {
            let i = choose|i: int|
                0 <= i < numbers.len() && numbers[i] == number && #[trigger] moves[i] is Some;
            if i < last {
                assert(front[i] == number && others[i] is Some);
            }
        }
    }
}

/// What is kept was found out about the table of one of the numbers.
pub proof fn lemma_kept_from<C: Comparator, F: RandomAccessFile, Z: Compressor>(
    comparator: C,
    compressor: Option<Arc<Z>>,
    dbname: Seq<char>,
    sure: bool,
    numbers: Seq<u64>,
    stages: Seq<Map<Seq<char>, Seq<u8>>>,
    infos: Seq<Option<TableInfo>>,
    moves: Seq<Option<Seq<char>>>,
    count: int,
    k: int,
) -> (from: int)
    requires
        are_scanned::<C, F, Z>(
            comparator,
            compressor,
            dbname,
            sure,
            numbers,
            stages,
            infos,
            moves,
        ),
        0 <= count <= infos.len(),
        0 <= k < kept(infos.take(count)).len(),
    ensures
        0 <= from < count,
        infos[from] == Some(kept(infos.take(count))[k]),
        moves[from] is None,
        kept(infos.take(count))[k].meta.number == numbers[from],
    decreases count,
{
    assert(infos.take(count).drop_last() =~= infos.take(count - 1));
    assert(infos.take(count).last() == infos[count - 1]);
    if k < kept(infos.take(count - 1)).len() {
        lemma_kept_from::<C, F, Z>(
            comparator,
            compressor,
            dbname,
            sure,
            numbers,
            stages,
            infos,
            moves,
            count - 1,
            k,
        )
    } else {
        assert(is_scanned::<C, F, Z>(
            comparator,
            compressor,
            dbname,
            sure,
            stages[count - 1],
            numbers[count - 1],
            infos[count - 1],
            moves[count - 1],
            stages[count],
        ));
        count - 1
    }
}

/// Where no number is read twice none is reported as lost twice.
pub proof fn law_lost_once(numbers: Seq<u64>, moves: Seq<Option<Seq<char>>>)
    requires
        numbers.len() == moves.len(),
        numbers.no_duplicates(),
    ensures
        lost(numbers, moves).no_duplicates(),
    decreases numbers.len(),
{
    if numbers.len() > 0 {
        let (front, others) = (numbers.drop_last(), moves.drop_last());
        let before = lost(front, others);
        law_lost_once(front, others);
        law_lost_were_moved(front, others, numbers.last());
        if before.contains(numbers.last()) {
            let i = choose|i: int|
                0 <= i < front.len() && front[i] == numbers.last() && #[trigger] others[i] is Some;
            assert(numbers[i] == numbers[numbers.len() - 1]);
        }
        let all = lost(numbers, moves);
        assert forall|i: int, j: int| 0 <= i < all.len() && 0 <= j < all.len() && i != j implies all[i]
            != all[j] by {
            if i < before.len() && j < before.len() {
                assert(before[i] != before[j]);
            } else if i < before.len() {
                assert(before.contains(before[i]));
            } else if j < before.len() {
                assert(before.contains(before[j]));
            }
        }
    }
}

/// Reads all tables. Those that cannot be read, or are empty, are set aside, and the
/// numbers of those that were moved are returned.
pub fn extract_metadata<E: Env, C: Comparator, Z: Compressor>(
    env: &mut E,
    dbname: &str,
    numbers: &Vec<u64>,
    comparator: &C,
    compressor: &Option<Arc<Z>>,
) -> (extracted: (Vec<TableInfo>, Vec<u64>))
    requires
        old(env).wf(),
    ensures
        final(env).wf(),
        final(env).locks() == old(env).locks(),
        final(env).reliable() == old(env).reliable(),
        extracted.0@.len() + extracted.1@.len() <= numbers@.len(),
        exists|
            stages: Seq<Map<Seq<char>, Seq<u8>>>,
            infos: Seq<Option<TableInfo>>,
            moves: Seq<Option<Seq<char>>>,
        |
            #[trigger] are_scanned::<C, E::RandomAccess, Z>(
                *comparator,
                *compressor,
                dbname@,
                old(env).reliable(),
                numbers@,
                stages,
                infos,
                moves,
            ) && stages[0] == old(env).files() && stages.last() == final(env).files()
                && extracted.0@ == kept(infos) && extracted.1@ == lost(numbers@, moves),
{
    let mut tables: Vec<TableInfo> = Vec::new();
    let mut archived: Vec<u64> = Vec::new();
    let ghost mut stages: Seq<Map<Seq<char>, Seq<u8>>> = seq![env.files()];
    let ghost mut infos: Seq<Option<TableInfo>> = Seq::empty();
    let ghost mut moves: Seq<Option<Seq<char>>> = Seq::empty();
    let mut index: usize = 0;
    assert(numbers@.take(0) =~= Seq::<u64>::empty());
    while index < numbers.len()
        invariant
            index <= numbers@.len(),
            env.wf(),
            env.locks() == old(env).locks(),
            env.reliable() == old(env).reliable(),
            stages.len() == index + 1,
            stages[0] == old(env).files(),
            stages[index as int] == env.files(),
            infos.len() == index,
            tables@.len() + archived@.len() <= index,
            tables@ == kept(infos),
            archived@ == lost(numbers@.take(index as int), moves),
            are_scanned::<C, E::RandomAccess, Z>(
                *comparator,
                *compressor,
                dbname@,
                env.reliable(),
                numbers@.take(index as int),
                stages,
                infos,
                moves,
            ),
        decreases numbers@.len() - index,
    {
        let number: u64 = numbers[index];
        let ghost before = env.files();
        let ghost earlier = stages;
        let ghost first = infos;
        let ghost before_moves = moves;
        let ghost mut moved: Option<Seq<char>> = None;
        let scanned = scan_table(env, dbname, number, comparator, compressor);
        let found: Option<TableInfo> = match scanned {
            Ok(info) => info,
            Err(_) => None,
        };
        let ghost info = found;
        match found {
            Some(table) => {
                tables.push(table);
            },
            None => {
                let path = find_table(env, dbname, number);
                match archive_file(env, dbname, path.as_str()) {
                    Ok(_) => {
                        proof {
                            moved = Some(path@);
                        }
                        archived.push(number);
                    },
                    Err(_) => {},
                }
            },
        }
        proof {
            stages = stages.push(env.files());
            infos = infos.push(info);
            moves = moves.push(moved);
            let done = numbers@.take(index + 1);
            assert(infos.drop_last() =~= first);
            assert(moves.drop_last() =~= before_moves);
            assert(done.drop_last() =~= numbers@.take(index as int));
            assert(stages[index as int] == before);
            assert(is_scanned::<C, E::RandomAccess, Z>(
                *comparator,
                *compressor,
                dbname@,
                env.reliable(),
                before,
                number,
                info,
                moved,
                env.files(),
            ));
            assert forall|i: int|
                #![trigger infos[i]]
                0 <= i < done.len() implies is_scanned::<C, E::RandomAccess, Z>(
                *comparator,
                *compressor,
                dbname@,
                env.reliable(),
                stages[i],
                done[i],
                infos[i],
                moves[i],
                stages[i + 1],
            ) by {
                if i < index {
                    assert(infos[i] == first[i]);
                    assert(moves[i] == before_moves[i]);
                    assert(numbers@.take(index as int)[i] == done[i]);
                    assert(stages[i] == earlier[i] && stages[i + 1] == earlier[i + 1]);
                }
            }
        }
        index = index + 1;
    }
    assert(numbers@.take(index as int) =~= numbers@);
    (tables, archived)
}

} // verus!
