//! Rebuilding what is known of a damaged database.
//!
//! Logs and tables that survive are found in the directory. What can be read of a log is
//! written to a new table. All tables are read, and those that cannot be are moved to the
//! directory `lost`. The edit that comes out places every table that was read at level 0;
//! compactions spread them over the levels later.

use vstd::prelude::*;

use std::sync::Arc;

use crate::block::data::Block;
use crate::cache::Cache;
use crate::cache::ShardedLRUCache;
use crate::comparator;
use crate::comparator::Comparator;
use crate::db_impl::options::Options;
use crate::db_impl::recovery;
use crate::env::Env;
use crate::env::RandomAccessFile;
use crate::filename::FileType;
use crate::filter::BloomFilterPolicy;
use crate::filter::FilterPolicy;
use crate::format::InternalKeyComparator;
use crate::status;
use crate::table::Compressor;
use crate::table::NoCompressor;
use crate::version_set::NewFile;
use crate::version_set::VersionEdit;

pub mod files;
pub mod laws;
pub mod logs;
pub mod tables;

pub use tables::TableInfo;

verus! {

/// What a repair recovered.
#[derive(Debug, Default)]
pub struct RepairReport {
    /// How many tables the new manifest refers to.
    pub recovered_files: usize,
    /// The sum of their sizes.
    pub recovered_bytes: u64,
    /// The numbers of the tables that were set aside, as they cannot be read or are
    /// empty.
    pub archived_table_numbers: Vec<u64>,
}

impl Clone for RepairReport {
    fn clone(&self) -> (copy: Self)
        ensures
            copy.recovered_files == self.recovered_files,
            copy.recovered_bytes == self.recovered_bytes,
            copy.archived_table_numbers@ == self.archived_table_numbers@,
    {
        RepairReport {
            recovered_files: self.recovered_files,
            recovered_bytes: self.recovered_bytes,
            archived_table_numbers: vstd::slice::slice_to_vec(
                self.archived_table_numbers.as_slice(),
            ),
        }
    }
}

/// What a repair comes to.
#[derive(Debug)]
pub struct Repair {
    pub report: RepairReport,
    /// The edit for a new manifest.
    pub edit: VersionEdit,
    /// A number that no file has.
    pub next_file_number: u64,
    /// The greatest sequence number of all entries.
    pub last_sequence: u64,
}

/// The sizes of some tables together.
pub open spec fn bytes_of(tables: Seq<TableInfo>) -> nat
    decreases tables.len(),
{
    if tables.len() == 0 {
        0
    } else {
        bytes_of(tables.drop_last()) + tables.last().meta.file_size as nat
    }
}

/// The greatest sequence number of some tables.
pub open spec fn sequence_of(tables: Seq<TableInfo>) -> u64
    decreases tables.len(),
{
    if tables.len() == 0 {
        0
    } else if tables.last().max_sequence > sequence_of(tables.drop_last()) {
        tables.last().max_sequence
    } else {
        sequence_of(tables.drop_last())
    }
}

/// Whether a repair comes to this, where these tables were read, and those set aside.
pub open spec fn comes_to(
    title: Seq<char>,
    tables: Seq<TableInfo>,
    archived: Seq<u64>,
    next_file_number: u64,
    repair: Repair,
) -> bool {
    &&& repair.report.recovered_files == tables.len()
    &&& repair.report.recovered_bytes == if bytes_of(tables) <= u64::MAX {
        bytes_of(tables) as int
    } else {
        u64::MAX as int
    }
    &&& repair.report.archived_table_numbers@ == archived
    &&& repair.edit.comparator matches Some(name)
    &&& name@ == vstd::utf8::encode_utf8(title)
    &&& repair.edit.log_number == Some(0u64)
    &&& repair.edit.compact_pointers@.len() == 0
    &&& repair.edit.deleted_files@.len() == 0
    &&& repair.edit.new_files@.len() == tables.len()
    &&& forall|i: int|
        0 <= i < tables.len() ==> (#[trigger] repair.edit.new_files@[i]).level == 0
            && repair.edit.new_files@[i].meta.model() == tables[i].meta.model()
    &&& repair.next_file_number == next_file_number
    &&& repair.last_sequence == sequence_of(tables)
}

/// Sums up a repair.
pub fn conclude<C: Comparator>(
    comparator: &C,
    tables: &Vec<TableInfo>,
    archived: Vec<u64>,
    next_file_number: u64,
) -> (repair: Repair)
    ensures
        comes_to(comparator.title(), tables@, archived@, next_file_number, repair),
        forall|i: int|
            0 <= i < tables@.len() ==> (#[trigger] tables@[i]).max_sequence <= repair.last_sequence,
        tables@.len() > 0 ==> exists|i: int|
            0 <= i < tables@.len() && (#[trigger] tables@[i]).max_sequence == repair.last_sequence,
        tables@.len() == 0 ==> repair.last_sequence == 0,
{
    let mut bytes: u64 = 0;
    let mut sequence: u64 = 0;
    let mut new_files: Vec<NewFile> = Vec::new();
    let mut index: usize = 0;
    assert(tables@.take(0) =~= Seq::<TableInfo>::empty());
    while index < tables.len()
        invariant
            index <= tables@.len(),
            bytes == if bytes_of(tables@.take(index as int)) <= u64::MAX {
                bytes_of(tables@.take(index as int)) as int
            } else {
                u64::MAX as int
            },
            sequence == sequence_of(tables@.take(index as int)),
            forall|i: int|
                0 <= i < index ==> (#[trigger] tables@[i]).max_sequence <= sequence,
            index > 0 ==> exists|i: int|
                0 <= i < index && (#[trigger] tables@[i]).max_sequence == sequence,
            index == 0 ==> sequence == 0,
            new_files@.len() == index,
            forall|i: int|
                0 <= i < index ==> (#[trigger] new_files@[i]).level == 0
                    && new_files@[i].meta.model() == tables@[i].meta.model(),
        decreases tables@.len() - index,
    {
        proof {
            let more = tables@.take(index + 1);
            assert(more.drop_last() =~= tables@.take(index as int));
            assert(more.last() == tables@[index as int]);
        }
        let table = &tables[index];
        bytes = bytes.saturating_add(table.meta.file_size);
        if table.max_sequence > sequence {
            sequence = table.max_sequence;
        }
        new_files.push(NewFile { level: 0, meta: table.meta.clone() });
        index = index + 1;
    }
    assert(tables@.take(index as int) =~= tables@);
    Repair {
        report: RepairReport {
            recovered_files: tables.len(),
            recovered_bytes: bytes,
            archived_table_numbers: archived,
        },
        edit: VersionEdit {
            comparator: Some(vstd::slice::slice_to_vec(comparator.name().as_bytes())),
            log_number: Some(0),
            compact_pointers: Vec::new(),
            deleted_files: Vec::new(),
            new_files,
        },
        next_file_number,
        last_sequence: sequence,
    }
}

/// The steps of a repair.
pub struct Steps {
    /// The entries of the directory.
    pub paths: Seq<Seq<char>>,
    /// How the database is before the first log is turned into a table, and after each.
    pub log_stages: Seq<logs::Stage>,
    /// The numbers of the tables that the logs were turned into.
    pub made: Seq<Option<u64>>,
    /// The files before the first table is read, and after each.
    pub table_stages: Seq<Map<Seq<char>, Seq<u8>>>,
    /// What was found out about the tables.
    pub infos: Seq<Option<TableInfo>>,
    /// The paths of the tables that were moved to the directory of lost files.
    pub moves: Seq<Option<Seq<char>>>,
}

/// The numbers of the tables that a repair reads: those that it finds, then those that
/// it makes.
pub open spec fn scanned_numbers(steps: Steps) -> Seq<u64> {
    recovery::numbers_of(steps.paths, FileType::TableFile) + logs::made_numbers(steps.made)
}

/// Whether a repair with these steps turns the files of a database into others, and comes
/// to this. It is `sure` where the file system does not fail: then all is read that can be,
/// and all is moved that has to be.
pub open spec fn is_repair<
    C: Comparator,
    F: RandomAccessFile,
    P: FilterPolicy,
    Z: Compressor,
    B: Cache<Arc<Block>>,
>(
    comparator: C,
    options: Options<P, Z, B>,
    dbname: Seq<char>,
    sure: bool,
    before: Map<Seq<char>, Seq<u8>>,
    steps: Steps,
    after: Map<Seq<char>, Seq<u8>>,
    repair: Repair,
) -> bool {
    let numbers = scanned_numbers(steps);
    &&& files::is_listing(before, dbname, steps.paths)
    &&& steps.paths.len() > 0
    &&& logs::are_converted(
        comparator,
        logs::recipe_of(comparator, options),
        dbname,
        sure,
        recovery::numbers_of(steps.paths, FileType::LogFile),
        steps.log_stages,
        steps.made,
    )
    &&& steps.log_stages[0] == (logs::Stage {
        stored: before,
        next: files::next_number(steps.paths),
    })
    &&& tables::are_scanned::<InternalKeyComparator<C>, F, Z>(
        InternalKeyComparator::over(comparator),
        options.compressor,
        dbname,
        sure,
        numbers,
        steps.table_stages,
        steps.infos,
        steps.moves,
    )
    &&& steps.table_stages[0] == steps.log_stages.last().stored
    &&& files::are_set_aside(
        steps.table_stages.last(),
        dbname,
        files::manifest_names(steps.paths),
        sure,
        after,
    )
    &&& comes_to(
        comparator.title(),
        tables::kept(steps.infos),
        tables::lost(numbers, steps.moves),
        steps.log_stages.last().next,
        repair,
    )
}

/// Repairs a database with the options that it was made with: tables are read with its
/// compressor, and new tables made with its filters, its compressor and its block sizes.
/// The edit that comes out is for a new manifest.
pub fn repair_db_with_options<
    E: Env,
    C: Comparator,
    P: FilterPolicy,
    Z: Compressor,
    B: Cache<Arc<Block>>,
>(dbname: &str, env: &mut E, comparator: &C, options: &Options<P, Z, B>) -> (repaired:
    status::Result<Repair>)
    requires
        old(env).wf(),
        options.block_restart_interval >= 1,
    ensures
        final(env).wf(),
        final(env).locks() == old(env).locks(),
        final(env).reliable() == old(env).reliable(),
        repaired is Err ==> final(env).files() == old(env).files(),
        match repaired {
            Ok(repair) => exists|steps: Steps| #[trigger]
                is_repair::<C, E::RandomAccess, P, Z, B>(
                    *comparator,
                    *options,
                    dbname@,
                    old(env).reliable(),
                    old(env).files(),
                    steps,
                    final(env).files(),
                    repair,
                ),
            Err(error) => old(env).reliable() ==> {
                &&& error.says(status::Code::IoError, files::no_files_text(dbname@))
                &&& forall|child: Seq<char>|
                    !#[trigger] crate::env::is_child(old(env).files(), dbname@, child)
            },
        },
{
    let found = match files::find_files(env, dbname) {
        Err(error) => {
            return Err(error);
        },
        Ok(found) => found,
    };
    let ghost before = env.files();
    let converted = logs::convert_log_files_to_tables(
        env,
        dbname,
        &found.logs,
        found.next_file_number,
        comparator,
        options,
    );
    let ghost converted_files = env.files();
    let internal = InternalKeyComparator::new(comparator::copy_of(comparator));
    proof {
        internal.lemma_is_over();
    }
    let mut numbers = found.tables;
    let mut made_tables = converted.tables;
    numbers.append(&mut made_tables);
    assert(numbers@ =~= found.tables@ + converted.tables@);
    let (tables, archived) = tables::extract_metadata(
        env,
        dbname,
        &numbers,
        &internal,
        &options.compressor,
    );
    let ghost scanned_files = env.files();
    files::archive_files(env, dbname, &found.manifests);
    let repair = conclude(comparator, &tables, archived, converted.next_file_number);
    proof {
        let paths = choose|paths: Seq<Seq<char>>| #[trigger]
            files::is_listing(before, dbname@, paths) && files::found_among(paths, found);
        let (log_stages, made) = choose|
            stages: Seq<logs::Stage>,
            made: Seq<Option<u64>>,
        | #[trigger]
            logs::are_converted(
                *comparator,
                logs::recipe_of(*comparator, *options),
                dbname@,
                env.reliable(),
                found.logs@,
                stages,
                made,
            ) && stages[0] == (logs::Stage { stored: before, next: found.next_file_number })
                && stages.last() == (logs::Stage {
                stored: converted_files,
                next: converted.next_file_number,
            }) && converted.tables@ == logs::made_numbers(made);
        let (table_stages, infos, moves) = choose|
            stages: Seq<Map<Seq<char>, Seq<u8>>>,
            infos: Seq<Option<TableInfo>>,
            moves: Seq<Option<Seq<char>>>,
        | #[trigger]
            tables::are_scanned::<InternalKeyComparator<C>, E::RandomAccess, Z>(
                internal,
                options.compressor,
                dbname@,
                env.reliable(),
                numbers@,
                stages,
                infos,
                moves,
            ) && stages[0] == converted_files && stages.last() == scanned_files && tables@
                == tables::kept(infos) && archived@ == tables::lost(numbers@, moves);
        let steps = Steps { paths, log_stages, made, table_stages, infos, moves };
        assert(is_repair::<C, E::RandomAccess, P, Z, B>(
            *comparator,
            *options,
            dbname@,
            env.reliable(),
            before,
            steps,
            env.files(),
            repair,
        ));
    }
    Ok(repair)
}

/// Repairs a database that was made without filters and without compression.
pub fn repair_db<E: Env, C: Comparator>(dbname: &str, env: &mut E, comparator: &C) -> (repaired:
    status::Result<Repair>)
    requires
        old(env).wf(),
    ensures
        final(env).wf(),
        final(env).locks() == old(env).locks(),
        final(env).reliable() == old(env).reliable(),
        repaired is Err ==> final(env).files() == old(env).files(),
        match repaired {
            Ok(repair) => exists|
                options: Options<
                    BloomFilterPolicy,
                    NoCompressor,
                    ShardedLRUCache<Arc<Block>>,
                >,
                steps: Steps,
            |
                #[trigger] is_repair::<
                    C,
                    E::RandomAccess,
                    BloomFilterPolicy,
                    NoCompressor,
                    ShardedLRUCache<Arc<Block>>,
                >(
                    *comparator,
                    options,
                    dbname@,
                    old(env).reliable(),
                    old(env).files(),
                    steps,
                    final(env).files(),
                    repair,
                ) && options.filter_policy is None && options.compressor is None
                    && options.block_size == crate::table::DEFAULT_BLOCK_SIZE
                    && options.block_restart_interval
                    == crate::table::DEFAULT_BLOCK_RESTART_INTERVAL,
            Err(error) => old(env).reliable() ==> {
                &&& error.says(status::Code::IoError, files::no_files_text(dbname@))
                &&& forall|child: Seq<char>|
                    !#[trigger] crate::env::is_child(old(env).files(), dbname@, child)
            },
        },
{
    let options: Options<BloomFilterPolicy, NoCompressor, ShardedLRUCache<Arc<Block>>> =
        Options::default();
    repair_db_with_options(dbname, env, comparator, &options)
}

/// Each table that a repair finds or makes is recovered, or set aside and reported, as
/// long as those can be moved that have to be. Just those are reported that were moved to
/// the directory of lost files, whatever else goes wrong; where no number is found twice,
/// none is reported twice, and none of them is in the new manifest.
pub proof fn law_all_tables_reported<
    C: Comparator,
    F: RandomAccessFile,
    P: FilterPolicy,
    Z: Compressor,
    B: Cache<Arc<Block>>,
>(
    comparator: C,
    options: Options<P, Z, B>,
    dbname: Seq<char>,
    sure: bool,
    before: Map<Seq<char>, Seq<u8>>,
    steps: Steps,
    after: Map<Seq<char>, Seq<u8>>,
    repair: Repair,
)
    requires
        is_repair::<C, F, P, Z, B>(
            comparator,
            options,
            dbname,
            sure,
            before,
            steps,
            after,
            repair,
        ),
    ensures
        tables::all_moved(steps.infos, steps.moves) ==> repair.report.recovered_files
            + repair.report.archived_table_numbers@.len() == scanned_numbers(steps).len(),
        forall|number: u64| #[trigger]
            repair.report.archived_table_numbers@.contains(number) <==> exists|i: int|
                0 <= i < scanned_numbers(steps).len() && scanned_numbers(steps)[i] == number
                    && #[trigger] steps.moves[i] is Some,
        forall|i: int|
            0 <= i < scanned_numbers(steps).len() && (#[trigger] steps.moves[i]) is Some ==> {
                let path = steps.moves[i]->0;
                &&& tables::is_name_of(dbname, scanned_numbers(steps)[i], path)
                &&& steps.table_stages[i].contains_key(path)
                &&& steps.table_stages[i + 1].contains_key(files::lost_path(dbname, path))
                &&& steps.table_stages[i + 1][files::lost_path(dbname, path)]
                    == steps.table_stages[i][path]
            },
        scanned_numbers(steps).no_duplicates()
            ==> repair.report.archived_table_numbers@.no_duplicates() && forall|k: int|
            0 <= k < repair.edit.new_files@.len()
                ==> !repair.report.archived_table_numbers@.contains(
                (#[trigger] repair.edit.new_files@[k]).meta.number,
            ),
        repair.edit.new_files@.len() == repair.report.recovered_files,
{
    let numbers = scanned_numbers(steps);
    let (infos, moves) = (steps.infos, steps.moves);
    assert forall|i: int| 0 <= i < numbers.len() implies tables::is_scanned::<
        InternalKeyComparator<C>,
        F,
        Z,
    >(
        InternalKeyComparator::over(comparator),
        options.compressor,
        dbname,
        sure,
        steps.table_stages[i],
        numbers[i],
        infos[i],
        #[trigger] moves[i],
        steps.table_stages[i + 1],
    ) by {
        assert(infos[i] == infos[i]);
    }
    assert(tables::none_both(infos, moves)) by {
        assert forall|i: int|
            0 <= i < infos.len() && #[trigger] infos[i] is Some implies moves[i] is None by {
            assert(moves[i] == moves[i]);
        }
    }
    tables::law_kept_or_lost(numbers, infos, moves);
    assert forall|number: u64| #[trigger]
        repair.report.archived_table_numbers@.contains(number) <==> exists|i: int|
            0 <= i < numbers.len() && numbers[i] == number && #[trigger] moves[i] is Some by {
        tables::law_lost_were_moved(numbers, moves, number);
    }
    if numbers.no_duplicates() {
        tables::law_lost_once(numbers, moves);
        assert(infos.take(infos.len() as int) =~= infos);
        assert forall|k: int| 0 <= k < repair.edit.new_files@.len() implies !repair.report.archived_table_numbers@.contains(
            (#[trigger] repair.edit.new_files@[k]).meta.number,
        ) by {
            let from = tables::lemma_kept_from::<InternalKeyComparator<C>, F, Z>(
                InternalKeyComparator::over(comparator),
                options.compressor,
                dbname,
                sure,
                numbers,
                steps.table_stages,
                infos,
                moves,
                infos.len() as int,
                k,
            );
            let number = repair.edit.new_files@[k].meta.number;
            assert(repair.edit.new_files@[k].meta.model() == tables::kept(infos)[k].meta.model());
            assert(number == numbers[from]);
            if repair.report.archived_table_numbers@.contains(number) {
                let i = choose|i: int|
                    0 <= i < numbers.len() && numbers[i] == number && #[trigger] moves[i] is Some;
                assert(i == from);
            }
        }
    }
}

} // verus!
