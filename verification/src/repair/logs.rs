//! Turning the logs of a damaged database into tables.

use vstd::prelude::*;

use std::sync::Arc;

use crate::block::data::Block;
use crate::cache::Cache;
use crate::comparator;
use crate::comparator::Comparator;
use crate::db_impl::enter;
use crate::db_impl::flush;
use crate::db_impl::options::Options;
use crate::db_impl::table_output;
use crate::db_impl::wal;
use crate::db_impl::wal::Replay;
use crate::db_iter::db_iterator;
use crate::db_iter::seen;
use crate::env;
use crate::env::Env;
use crate::env::SequentialFile;
use crate::filename;
use crate::filter::FilterPolicy;
use crate::format::InternalKeyComparator;
use crate::log;
use crate::log::LogSequentialReader;
use crate::log::Logical;
use crate::memtable::SharedMemTable;
use crate::repair::files;
use crate::repair::files::archive_file;
use crate::status;
use crate::status::Status;
use crate::table::draft::Recipe;
use crate::table::table_builder;
use crate::table::Compressor;

verus! {

/// What a record adds: the updates that can be read and entered, whatever is wrong with
/// the rest.
pub open spec fn salvaged_record<C: Comparator>(user: C, before: Replay, record: Seq<u8>) -> Replay {
    Replay { max_sequence: 0, bytes: 0, ..wal::replay_record(user, before, record).0 }
}

/// What the records of a log from a place on add. A damaged record ends the log.
pub open spec fn salvaged_from<C: Comparator>(
    user: C,
    bytes: Seq<u8>,
    cursor: int,
    before: Replay,
) -> Replay
    decreases bytes.len() - cursor,
{
    match log::next_record(bytes, cursor, None) {
        Logical::Record { data, next } => if cursor < next <= bytes.len() {
            salvaged_from(user, bytes, next, salvaged_record(user, before, data))
        } else {
            before
        },
        _ => before,
    }
}

/// What the first `count` records of a log from a place on add, where they can all be read.
pub open spec fn salvaged_first<C: Comparator>(
    user: C,
    bytes: Seq<u8>,
    cursor: int,
    count: nat,
    before: Replay,
) -> Option<Replay>
    decreases count,
{
    if count == 0 {
        Some(before)
    } else {
        match log::next_record(bytes, cursor, None) {
            Logical::Record { data, next } => salvaged_first(
                user,
                bytes,
                next,
                (count - 1) as nat,
                salvaged_record(user, before, data),
            ),
            _ => None,
        }
    }
}

/// Whether these are the entries that the first records of a log add, whatever their number.
pub open spec fn is_cut_salvage<C: Comparator>(
    user: C,
    bytes: Seq<u8>,
    contents: Map<Seq<u8>, Seq<u8>>,
) -> bool {
    exists|count: nat|
        (#[trigger] salvaged_first(user, bytes, 0, count, nothing_salvaged())) matches Some(after)
            && after.contents == contents
}

/// Nothing salvaged so far.
pub open spec fn nothing_salvaged() -> Replay {
    Replay { contents: Map::empty(), held: 0, max_sequence: 0, bytes: 0 }
}

/// The entries that can be salvaged from a log.
pub open spec fn salvaged<C: Comparator>(user: C, bytes: Seq<u8>) -> Map<Seq<u8>, Seq<u8>> {
    salvaged_from(user, bytes, 0, nothing_salvaged()).contents
}

/// What a record adds does not rest on what is counted along the way.
proof fn lemma_counts_aside<C: Comparator>(user: C, before: Replay, other: Replay, record: Seq<u8>)
    requires
        before.contents == other.contents,
        before.held == other.held,
    ensures
        salvaged_record(user, before, record) == salvaged_record(user, other, record),
        before.held < usize::MAX ==> salvaged_record(user, before, record).held < usize::MAX,
{
    match wal::read_batch(record) {
        wal::BatchRead::Short => {},
        wal::BatchRead::Batch { sequence, count, changes, problem } => {
            enter::lemma_count_bound(user, before.contents, sequence as nat, changes);
        },
    }
}

/// Reads what can be read of a log.
pub fn salvage_log<C: Comparator, F: SequentialFile>(file: F, comparator: &C) -> (mem:
    SharedMemTable<C>)
    ensures
        enter::mem_sound(mem),
        enter::mem_user(mem) == *comparator,
        mem.table().entries().len() < u64::MAX,
        enter::mem_contents(mem) == salvaged(*comparator, file.rest()) || (!file.reliable()
            && is_cut_salvage(*comparator, file.rest(), enter::mem_contents(mem))),
{
    let ghost user = *comparator;
    let mut mem = SharedMemTable::new(comparator::copy_of(comparator));
    let mut reader = LogSequentialReader::new(file);
    let ghost whole = reader.log();
    proof {
        assert(enter::mem_contents(mem) =~= Map::<Seq<u8>, Seq<u8>>::empty());
        assert(wal::replay_of(mem, 0, 0) == nothing_salvaged());
    }
    let ghost mut count: nat = 0;
    loop
        invariant
            user == *comparator,
            forall|more: nat| #[trigger]
                salvaged_first(user, whole, reader.place(), more, wal::replay_of(mem, 0, 0))
                    == salvaged_first(user, whole, 0, count + more, nothing_salvaged()),
            enter::mem_sound(mem),
            enter::mem_user(mem) == user,
            mem.table().entries().len() < usize::MAX,
            reader.wf(),
            reader.reliable() == file.reliable(),
            reader.log() == whole,
            whole == file.rest(),
            0 <= reader.place(),
            salvaged_from(user, whole, 0, nothing_salvaged()) == salvaged_from(
                user,
                whole,
                reader.place(),
                wal::replay_of(mem, 0, 0),
            ),
        decreases whole.len() - reader.place(),
    {
        proof {
            wal::lemma_record_bounds(whole, reader.place(), None);
        }
        let ghost before = wal::replay_of(mem, 0, 0);
        let ghost place = reader.place();
        proof {
            assert(salvaged_first(user, whole, place, 0, before) == Some(before));
            assert(salvaged_first(user, whole, 0, count, nothing_salvaged()) == Some(before));
        }
        let record = match reader.read_record() {
            Err(_) => {
                return mem;
            },
            Ok(None) => {
                return mem;
            },
            Ok(Some(record)) => record,
        };
        let entered = wal::enter_record(&mut mem, record.as_slice(), 0, 0);
        proof {
            lemma_counts_aside(user, before, before, record@);
            assert(wal::replay_of(mem, 0, 0) == salvaged_record(user, before, record@));
            let later = wal::replay_of(mem, 0, 0);
            assert forall|more: nat| #[trigger]
                salvaged_first(user, whole, reader.place(), more, later) == salvaged_first(
                user,
                whole,
                0,
                (count + 1 + more) as nat,
                nothing_salvaged(),
            ) by {
                assert(salvaged_first(user, whole, place, (more + 1) as nat, before)
                    == salvaged_first(
                    user,
                    whole,
                    0,
                    (count + (more + 1)) as nat,
                    nothing_salvaged(),
                ));
            }
            count = count + 1;
        }
    }
}

/// How tables are written for a database under repair.
pub open spec fn recipe_of<C: Comparator, P: FilterPolicy, Z: Compressor, B: Cache<Arc<Block>>>(
    user: C,
    options: Options<P, Z, B>,
) -> Recipe<InternalKeyComparator<C>, P, Z> {
    Recipe {
        comparator: InternalKeyComparator::over(user),
        block_size: options.block_size,
        interval: options.block_restart_interval,
        policy: options.filter_policy,
        compressor: options.compressor,
    }
}

/// Whether these are the entries that can be salvaged from the log at a path, in order. Where
/// reads may fail, they may be those of its first records only, or none.
pub open spec fn is_salvage<C: Comparator>(
    user: C,
    stored: Map<Seq<char>, Seq<u8>>,
    sure: bool,
    path: Seq<char>,
    pairs: Seq<db_iterator::Pair>,
) -> bool {
    if stored.contains_key(path) && (sure || pairs.len() > 0) {
        &&& db_iterator::sorted(InternalKeyComparator::over(user), pairs)
        &&& db_iterator::map_of(pairs) == salvaged(user, stored[path]) || (!sure
            && is_cut_salvage(user, stored[path], db_iterator::map_of(pairs)))
    } else {
        pairs.len() == 0
    }
}

/// The files, and the next number, of a database under repair.
pub struct Stage {
    pub stored: Map<Seq<char>, Seq<u8>>,
    pub next: u64,
}

/// What becomes of the entries of a log: a table of the next number, if there are any.
/// Its number is told.
pub open spec fn tabled<C: Comparator, P: FilterPolicy, Z: Compressor>(
    recipe: Recipe<C, P, Z>,
    dbname: Seq<char>,
    before: Stage,
    pairs: Seq<db_iterator::Pair>,
) -> (Stage, Option<u64>) {
    if pairs.len() == 0 || before.next == u64::MAX {
        (before, None)
    } else {
        (
            Stage {
                stored: before.stored.insert(
                    filename::numbered(dbname, before.next, "ldb"@),
                    table_output::table_image(recipe, pairs),
                ),
                next: (before.next + 1) as u64,
            },
            Some(before.next),
        )
    }
}

/// What becomes of the entries of a log where the table may not be written: its file is then
/// there in part, or not at all, and its number is used up. `made` is the number of the
/// table, if it was written.
pub open spec fn is_tabled<C: Comparator, P: FilterPolicy, Z: Compressor>(
    recipe: Recipe<C, P, Z>,
    dbname: Seq<char>,
    sure: bool,
    before: Stage,
    pairs: Seq<db_iterator::Pair>,
    after: Stage,
    made: Option<u64>,
) -> bool {
    let (middle, number) = tabled(recipe, dbname, before, pairs);
    if sure || number is None || made is Some {
        made == number && after == middle
    } else {
        &&& env::agree_but(
            before.stored,
            after.stored,
            filename::numbered(dbname, before.next, "ldb"@),
        )
        &&& after.next == middle.next
    }
}

/// Whether a log was turned into a table and set aside.
pub open spec fn is_converted<C: Comparator, P: FilterPolicy, Z: Compressor>(
    user: C,
    recipe: Recipe<InternalKeyComparator<C>, P, Z>,
    dbname: Seq<char>,
    sure: bool,
    before: Stage,
    log_number: u64,
    after: Stage,
    made: Option<u64>,
) -> bool {
    let path = filename::numbered(dbname, log_number, "log"@);
    exists|pairs: Seq<db_iterator::Pair>, middle: Stage|
        #[trigger] is_salvage(user, before.stored, sure, path, pairs) && #[trigger] is_tabled(
            recipe,
            dbname,
            sure,
            before,
            pairs,
            middle,
            made,
        ) && after.next == middle.next && (after.stored == files::set_aside(
            middle.stored,
            dbname,
            path,
        ) || (!sure && after.stored == middle.stored))
}

/// Whether what can be salvaged from a log was written to a table, or the number of one was
/// used up.
pub open spec fn is_written_from<C: Comparator, P: FilterPolicy, Z: Compressor>(
    user: C,
    recipe: Recipe<InternalKeyComparator<C>, P, Z>,
    dbname: Seq<char>,
    sure: bool,
    before: Stage,
    log_number: u64,
    stored: Map<Seq<char>, Seq<u8>>,
    good: bool,
    used: bool,
) -> bool {
    exists|pairs: Seq<db_iterator::Pair>| #[trigger]
        is_salvage(
            user,
            before.stored,
            sure,
            filename::numbered(dbname, log_number, "log"@),
            pairs,
        ) && is_tabled(
            recipe,
            dbname,
            sure,
            before,
            pairs,
            Stage {
                stored,
                next: if used {
                    (before.next + 1) as u64
                } else {
                    before.next
                },
            },
            if good && used {
                Some(before.next)
            } else {
                None
            },
        )
}

/// Writes what can be salvaged from a log to a table of the given number. Returns
/// how it came out, and whether the number was used.
pub fn convert_log_to_table<
    E: Env,
    C: Comparator,
    P: FilterPolicy,
    Z: Compressor,
    B: Cache<Arc<Block>>,
>(
    env: &mut E,
    dbname: &str,
    log_number: u64,
    file_number: u64,
    comparator: &C,
    options: &Options<P, Z, B>,
) -> (converted: (status::Result<()>, bool))
    requires
        old(env).wf(),
        options.block_restart_interval >= 1,
    ensures
        final(env).wf(),
        final(env).locks() == old(env).locks(),
        final(env).reliable() == old(env).reliable(),
        converted.1 ==> file_number < u64::MAX,
        env::agree_but(
            old(env).files(),
            final(env).files(),
            filename::numbered(dbname@, file_number, "ldb"@),
        ),
        is_written_from(
            *comparator,
            recipe_of(*comparator, *options),
            dbname@,
            old(env).reliable(),
            Stage { stored: old(env).files(), next: file_number },
            log_number,
            final(env).files(),
            converted.0 is Ok,
            converted.1,
        ),
{
    let ghost before = Stage { stored: env.files(), next: file_number };
    let ghost recipe = recipe_of(*comparator, *options);
    let path = filename::log_file_name(dbname, log_number);
    let file = match env.new_sequential_file(path.as_str()) {
        Err(error) => {
            assert(is_salvage(
                *comparator,
                before.stored,
                env.reliable(),
                path@,
                Seq::empty(),
            ));
            return (Err(error), false);
        },
        Ok(file) => file,
    };
    let mem = salvage_log(file, comparator);
    let ghost pairs = mem.table().entries();
    proof {
        mem.table().lemma_sorted();
        mem.table().order().lemma_is_over();
        assert(is_salvage(*comparator, before.stored, env.reliable(), path@, pairs));
    }
    if mem.len() == 0 {
        return (Ok(()), false);
    }
    if file_number == u64::MAX {
        return (Err(Status::corruption("no file number is left")), false);
    }
    let flushed = flush::flush_memtable(
        env,
        dbname,
        file_number,
        &mem,
        options.block_size,
        options.block_restart_interval,
        table_builder::share_option(&options.filter_policy),
        table_builder::share_option(&options.compressor),
    );
    match flushed {
        Err(error) => (Err(error), true),
        Ok(_) => (Ok(()), true),
    }
}

/// Whether logs were turned into tables one after the other.
pub open spec fn are_converted<C: Comparator, P: FilterPolicy, Z: Compressor>(
    user: C,
    recipe: Recipe<InternalKeyComparator<C>, P, Z>,
    dbname: Seq<char>,
    sure: bool,
    logs: Seq<u64>,
    stages: Seq<Stage>,
    made: Seq<Option<u64>>,
) -> bool {
    &&& stages.len() == logs.len() + 1
    &&& made.len() == logs.len()
    &&& forall|i: int|
        #![trigger made[i]]
        0 <= i < logs.len() ==> is_converted(
            user,
            recipe,
            dbname,
            sure,
            stages[i],
            logs[i],
            stages[i + 1],
            made[i],
        )
}

/// The numbers of the tables that were made.
pub open spec fn made_numbers(made: Seq<Option<u64>>) -> Seq<u64>
    decreases made.len(),
{
    if made.len() == 0 {
        Seq::empty()
    } else {
        match made.last() {
            Some(number) => made_numbers(made.drop_last()).push(number),
            None => made_numbers(made.drop_last()),
        }
    }
}

/// What came of turning logs into tables.
#[derive(Debug)]
pub struct ConvertedLogs {
    /// The numbers of the tables.
    pub tables: Vec<u64>,
    pub next_file_number: u64,
}

/// Turns each log into a table, and sets it aside. What goes wrong with one log does
/// not keep the others from being read.
pub fn convert_log_files_to_tables<
    E: Env,
    C: Comparator,
    P: FilterPolicy,
    Z: Compressor,
    B: Cache<Arc<Block>>,
>(
    env: &mut E,
    dbname: &str,
    logs: &Vec<u64>,
    next_file_number: u64,
    comparator: &C,
    options: &Options<P, Z, B>,
) -> (converted: ConvertedLogs)
    requires
        old(env).wf(),
        options.block_restart_interval >= 1,
    ensures
        final(env).wf(),
        final(env).locks() == old(env).locks(),
        final(env).reliable() == old(env).reliable(),
        converted.next_file_number >= next_file_number,
        exists|stages: Seq<Stage>, made: Seq<Option<u64>>| #[trigger]
            are_converted(
                *comparator,
                recipe_of(*comparator, *options),
                dbname@,
                old(env).reliable(),
                logs@,
                stages,
                made,
            ) && stages[0] == (Stage { stored: old(env).files(), next: next_file_number })
                && stages.last() == (Stage {
                stored: final(env).files(),
                next: converted.next_file_number,
            }) && converted.tables@ == made_numbers(made),
{
    let ghost recipe = recipe_of(*comparator, *options);
    let mut next: u64 = next_file_number;
    let mut tables: Vec<u64> = Vec::new();
    let ghost mut stages: Seq<Stage> = seq![Stage { stored: env.files(), next }];
    let ghost mut made: Seq<Option<u64>> = Seq::empty();
    let mut index: usize = 0;
    assert(tables@ =~= made_numbers(made));
    while index < logs.len()
        invariant
            index <= logs@.len(),
            options.block_restart_interval >= 1,
            recipe == recipe_of(*comparator, *options),
            env.wf(),
            env.locks() == old(env).locks(),
            env.reliable() == old(env).reliable(),
            next >= next_file_number,
            stages.len() == index + 1,
            stages[0] == (Stage { stored: old(env).files(), next: next_file_number }),
            stages[index as int] == (Stage { stored: env.files(), next }),
            are_converted(
                *comparator,
                recipe,
                dbname@,
                env.reliable(),
                logs@.take(index as int),
                stages,
                made,
            ),
            tables@ == made_numbers(made),
        decreases logs@.len() - index,
    {
        let log_number: u64 = logs[index];
        let ghost before = Stage { stored: env.files(), next };
        let ghost earlier = stages;
        let ghost first = made;
        let (outcome, used) = convert_log_to_table(
            env,
            dbname,
            log_number,
            next,
            comparator,
            options,
        );
        let ghost middle = env.files();
        let ghost number: Option<u64> = if used && outcome is Ok {
            Some(next)
        } else {
            None
        };
        if used {
            if outcome.is_ok() {
                tables.push(next);
            }
            next = next + 1;
        }
        let path = filename::log_file_name(dbname, log_number);
        let _ = archive_file(env, dbname, path.as_str());
        proof {
            let after = Stage { stored: env.files(), next };
            stages = stages.push(after);
            made = made.push(number);
            assert(made.drop_last() =~= first);
            let sure = env.reliable();
            let then = Stage { stored: middle, next };
            let pairs = choose|pairs: Seq<db_iterator::Pair>| #[trigger]
                is_salvage(*comparator, before.stored, sure, path@, pairs) && is_tabled(
                    recipe,
                    dbname@,
                    sure,
                    before,
                    pairs,
                    then,
                    number,
                );
            assert(is_salvage(*comparator, before.stored, sure, path@, pairs));
            assert(is_tabled(recipe, dbname@, sure, before, pairs, then, number));
            assert(is_converted(
                *comparator,
                recipe,
                dbname@,
                sure,
                before,
                log_number,
                after,
                number,
            ));
            let done = logs@.take(index + 1);
            assert forall|i: int|
                #![trigger made[i]]
                0 <= i < done.len() implies is_converted(
                *comparator,
                recipe,
                dbname@,
                sure,
                stages[i],
                done[i],
                stages[i + 1],
                made[i],
            ) by {
                if i < index {
                    assert(made[i] == first[i]);
                    assert(logs@.take(index as int)[i] == done[i]);
                    assert(stages[i] == earlier[i] && stages[i + 1] == earlier[i + 1]);
                }
            }
        }
        index = index + 1;
    }
    assert(logs@.take(index as int) =~= logs@);
    ConvertedLogs { tables, next_file_number: next }
}

} // verus!
