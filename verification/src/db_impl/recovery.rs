//! What is decided when a database is opened, and which files it no longer needs.

use vstd::prelude::*;

use std::sync::Arc;

use crate::block::data::Block;
use crate::cache::Cache;
use crate::comparator::Comparator;
use crate::db_impl::numbers;
use crate::db_impl::options::Options;
use crate::env::Env;
use crate::filename;
use crate::filename::FileType;
use crate::filter::FilterPolicy;
use crate::status;
use crate::status::Status;
use crate::table::Compressor;
use crate::table_cache::TableCache;
use crate::version_set::FileMetaData;
use crate::version_set::NewFile;
use crate::version_set::VersionEdit;

verus! {

/// Whether a database may be opened, given whether it exists.
pub fn check_existing<P: FilterPolicy, Z: Compressor, B: Cache<Arc<Block>>>(
    exists: bool,
    options: &Options<P, Z, B>,
) -> (outcome: status::Result<()>)
    ensures
        if exists && options.error_if_exists {
            outcome matches Err(error) && error.says(
                status::Code::InvalidArgument,
                "DB exists but error_if_exists is set"@,
            )
        } else if !exists && !options.create_if_missing {
            outcome matches Err(error) && error.says(
                status::Code::NotFound,
                "DB missing and create_if_missing is false"@,
            )
        } else {
            outcome is Ok
        },
{
    if exists && options.error_if_exists {
        return Err(Status::invalid_argument("DB exists but error_if_exists is set"));
    }
    if !exists && !options.create_if_missing {
        return Err(Status::not_found("DB missing and create_if_missing is false"));
    }
    Ok(())
}

/// Whether a database was made with the given comparator, as far as is known.
pub fn check_comparator<C: Comparator>(stored: &Option<Vec<u8>>, comparator: &C) -> (outcome:
    status::Result<()>)
    ensures
        match stored {
            Some(name) => if name@ == vstd::utf8::encode_utf8(comparator.title()) {
                outcome is Ok
            } else {
                outcome matches Err(error) && error.says(
                    status::Code::InvalidArgument,
                    "comparator does not match value in the existing DB"@,
                )
            },
            None => outcome is Ok,
        },
{
    match stored {
        Some(name) => {
            if !crate::cache::same_bytes(name.as_slice(), comparator.name().as_bytes()) {
                return Err(
                    Status::invalid_argument("comparator does not match value in the existing DB"),
                );
            }
            Ok(())
        },
        None => Ok(()),
    }
}

/// The edit of a database that is opened: it is logged from a new log on. The name of the
/// comparator is recorded.
pub fn opening_edit<C: Comparator>(comparator: &C, log_number: u64) -> (edit: VersionEdit)
    ensures
        edit.comparator matches Some(name) && name@ == vstd::utf8::encode_utf8(
            comparator.title(),
        ),
        edit.log_number == Some(log_number),
        edit.compact_pointers@.len() == 0,
        edit.deleted_files@.len() == 0,
        edit.new_files@.len() == 0,
{
    VersionEdit {
        comparator: Some(vstd::slice::slice_to_vec(comparator.name().as_bytes())),
        log_number: Some(log_number),
        compact_pointers: Vec::new(),
        deleted_files: Vec::new(),
        new_files: Vec::new(),
    }
}

/// The edit of a table that takes what logs brought back.
pub fn recovered_edit(level: u32, meta: FileMetaData) -> (edit: VersionEdit)
    ensures
        edit.comparator is None,
        edit.log_number is None,
        edit.compact_pointers@.len() == 0,
        edit.deleted_files@.len() == 0,
        edit.new_files@.len() == 1,
        edit.new_files@[0].level == level,
        edit.new_files@[0].meta == meta,
{
    let mut new_files: Vec<NewFile> = Vec::new();
    new_files.push(NewFile { level, meta });
    VersionEdit {
        comparator: None,
        log_number: None,
        compact_pointers: Vec::new(),
        deleted_files: Vec::new(),
        new_files,
    }
}

/// The numbers of the files of one kind among some names.
pub open spec fn numbers_of(names: Seq<Seq<char>>, kind: FileType) -> Seq<u64>
    decreases names.len(),
{
    if names.len() == 0 {
        Seq::empty()
    } else {
        let front = numbers_of(names.drop_last(), kind);
        match filename::parsed_name(filename::base_name(names.last())) {
            Some((number, found)) => if found == kind {
                front.push(number)
            } else {
                front
            },
            None => front,
        }
    }
}

/// Finds the numbers of the files of one kind.
pub fn file_numbers(names: &Vec<String>, kind: FileType) -> (found: Vec<u64>)
    ensures
        found@ == numbers_of(crate::env::texts(names@), kind),
{
    let ghost all = crate::env::texts(names@);
    let mut found: Vec<u64> = Vec::new();
    let mut index: usize = 0;
    assert(all.take(0) =~= Seq::<Seq<char>>::empty());
    while index < names.len()
        invariant
            index <= names@.len(),
            all == crate::env::texts(names@),
            found@ == numbers_of(all.take(index as int), kind),
        decreases names@.len() - index,
    {
        proof {
            let more = all.take(index + 1);
            assert(more.drop_last() =~= all.take(index as int));
            assert(more.last() == names@[index as int]@);
        }
        match filename::parse_file_name(names[index].as_str()) {
            Some((number, parsed)) => {
                if parsed == kind {
                    found.push(number);
                }
            },
            None => {},
        }
        index = index + 1;
    }
    assert(all.take(index as int) =~= all);
    found
}

/// Whether a log is replayed: it is not older than the oldest that is needed, or it is
/// the one that was set aside before.
pub open spec fn is_replayed(number: u64, min_log: u64, prev_log: u64) -> bool {
    number >= min_log || number == prev_log
}

/// The logs that are replayed when a database is opened, oldest first.
pub fn logs_to_replay(names: &Vec<String>, min_log: u64, prev_log: u64) -> (logs: Vec<u64>)
    ensures
        numbers::not_falling(logs@),
        logs@.to_multiset() == numbers_of(
            crate::env::texts(names@),
            FileType::LogFile,
        ).filter(|number: u64| is_replayed(number, min_log, prev_log)).to_multiset(),
{
    let found = file_numbers(names, FileType::LogFile);
    let ghost wanted = |number: u64| is_replayed(number, min_log, prev_log);
    let mut logs: Vec<u64> = Vec::new();
    let mut index: usize = 0;
    proof {
        assert(found@.take(0) =~= Seq::<u64>::empty());
        reveal(Seq::filter);
        assert(found@.take(0).filter(wanted) =~= logs@);
    }
    while index < found.len()
        invariant
            index <= found@.len(),
            wanted == (|number: u64| is_replayed(number, min_log, prev_log)),
            numbers::not_falling(logs@),
            logs@.to_multiset() == found@.take(index as int).filter(wanted).to_multiset(),
        decreases found@.len() - index,
    {
        let number: u64 = found[index];
        proof {
            let more = found@.take(index + 1);
            reveal(Seq::filter);
            assert(more.drop_last() =~= found@.take(index as int));
            assert(more.last() == number);
            found@.take(index as int).filter(wanted).to_multiset_ensures();
        }
        if number >= min_log || number == prev_log {
            numbers::insert_number(&mut logs, number);
        }
        index = index + 1;
    }
    assert(found@.take(index as int) =~= found@);
    logs
}

/// The numbers below a bound.
fn below(found: &Vec<u64>, bound: u64) -> (some: Vec<u64>)
    ensures
        forall|number: u64| some@.contains(number) <==> found@.contains(number) && number < bound,
{
    let mut some: Vec<u64> = Vec::new();
    let mut index: usize = 0;
    while index < found.len()
        invariant
            index <= found@.len(),
            forall|i: int|
                0 <= i < some@.len() ==> found@.contains(#[trigger] some@[i]) && some@[i] < bound,
            forall|i: int|
                0 <= i < index && found@[i] < bound ==> some@.contains(#[trigger] found@[i]),
        decreases found@.len() - index,
    {
        let number: u64 = found[index];
        let ghost before = some@;
        if number < bound {
            some.push(number);
            proof {
                assert(some@[before.len() as int] == number);
                assert forall|i: int| 0 <= i < index && found@[i] < bound implies some@.contains(
                    #[trigger] found@[i],
                ) by {
                    let k = choose|k: int| 0 <= k < before.len() && before[k] == found@[i];
                    assert(some@[k] == found@[i]);
                }
            }
        }
        index = index + 1;
    }
    some
}

/// The numbers but one.
fn all_but(found: &Vec<u64>, spared: u64) -> (some: Vec<u64>)
    ensures
        forall|number: u64| some@.contains(number) <==> found@.contains(number) && number != spared,
{
    let mut some: Vec<u64> = Vec::new();
    let mut index: usize = 0;
    while index < found.len()
        invariant
            index <= found@.len(),
            forall|i: int|
                0 <= i < some@.len() ==> found@.contains(#[trigger] some@[i]) && some@[i] != spared,
            forall|i: int|
                0 <= i < index && found@[i] != spared ==> some@.contains(#[trigger] found@[i]),
        decreases found@.len() - index,
    {
        let number: u64 = found[index];
        let ghost before = some@;
        if number != spared {
            some.push(number);
            proof {
                assert(some@[before.len() as int] == number);
                assert forall|i: int| 0 <= i < index && found@[i] != spared implies some@.contains(
                    #[trigger] found@[i],
                ) by {
                    let k = choose|k: int| 0 <= k < before.len() && before[k] == found@[i];
                    assert(some@[k] == found@[i]);
                }
            }
        }
        index = index + 1;
    }
    some
}

/// The logs that are no longer needed: those older than the one in use.
pub fn obsolete_logs(names: &Vec<String>, log_file_number: u64) -> (logs: Vec<u64>)
    ensures
        forall|number: u64|
            logs@.contains(number) <==> numbers_of(
                crate::env::texts(names@),
                FileType::LogFile,
            ).contains(number) && number < log_file_number,
{
    let found = file_numbers(names, FileType::LogFile);
    below(&found, log_file_number)
}

/// The manifests that are no longer needed: all but the one in use.
pub fn obsolete_manifests(names: &Vec<String>, live: u64) -> (manifests: Vec<u64>)
    ensures
        forall|number: u64|
            manifests@.contains(number) <==> numbers_of(
                crate::env::texts(names@),
                FileType::DescriptorFile,
            ).contains(number) && number != live,
{
    let found = file_numbers(names, FileType::DescriptorFile);
    all_but(&found, live)
}

/// Whether a path is that of a table of one of some numbers.
pub open spec fn is_table_path(dbname: Seq<char>, numbers: Seq<u64>, path: Seq<char>) -> bool {
    exists|i: int|
        0 <= i < numbers.len() && (path == filename::numbered(
            dbname,
            #[trigger] numbers[i],
            "ldb"@,
        ) || path == filename::numbered(dbname, numbers[i], "sst"@))
}

/// Closes tables and deletes their files. What cannot be deleted is left.
pub fn delete_table_files<
    C: Comparator,
    E: Env,
    P: FilterPolicy,
    Z: Compressor,
    B: Cache<Arc<Block>>,
>(
    env: &mut E,
    table_cache: &mut TableCache<C, E, P, Z, B>,
    dbname: &str,
    numbers: &Vec<u64>,
)
    requires
        old(env).wf(),
        old(table_cache).wf(),
    ensures
        final(env).wf(),
        final(env).reliable() == old(env).reliable(),
        final(env).locks() == old(env).locks(),
        final(table_cache).wf(),
        final(table_cache).setup() == old(table_cache).setup(),
        final(table_cache).blocks() == old(table_cache).blocks(),
        forall|path: Seq<char>|
            !#[trigger] is_table_path(dbname@, numbers@, path) ==> final(env).files().contains_key(
                path,
            ) == old(env).files().contains_key(path) && final(env).files()[path] == old(env).files()[path],
        old(env).reliable() ==> forall|path: Seq<char>| #[trigger]
            is_table_path(dbname@, numbers@, path) ==> !final(env).files().contains_key(path),
        forall|i: int|
            0 <= i < numbers@.len() ==> !final(table_cache).tables().contains_key(
                crate::table_cache::table_key(#[trigger] numbers@[i]),
            ),
{
    let mut index: usize = 0;
    while index < numbers.len()
        invariant
            index <= numbers@.len(),
            env.wf(),
            env.reliable() == old(env).reliable(),
            env.locks() == old(env).locks(),
            table_cache.wf(),
            table_cache.setup() == old(table_cache).setup(),
            table_cache.blocks() == old(table_cache).blocks(),
            forall|path: Seq<char>|
                !#[trigger] is_table_path(dbname@, numbers@, path) ==> env.files().contains_key(
                    path,
                ) == old(env).files().contains_key(path) && env.files()[path] == old(env).files()[path],
            env.reliable() ==> forall|i: int|
                0 <= i < index ==> !env.files().contains_key(
                    filename::numbered(dbname@, #[trigger] numbers@[i], "ldb"@),
                ) && !env.files().contains_key(
                    filename::numbered(dbname@, numbers@[i], "sst"@),
                ),
            forall|i: int|
                0 <= i < index ==> !table_cache.tables().contains_key(
                    crate::table_cache::table_key(#[trigger] numbers@[i]),
                ),
        decreases numbers@.len() - index,
    {
        let number: u64 = numbers[index];
        table_cache.evict(number);
        let ldb = filename::table_file_name(dbname, number);
        let sst = filename::sst_table_file_name(dbname, number);
        proof {
            assert(numbers@[index as int] == number);
            assert(is_table_path(dbname@, numbers@, ldb@));
            assert(is_table_path(dbname@, numbers@, sst@));
        }
        let _ = env.delete_file(ldb.as_str());
        let _ = env.delete_file(sst.as_str());
        index = index + 1;
    }
}

/// Whether a path is that of an old log.
pub open spec fn is_old_log(
    dbname: Seq<char>,
    names: Seq<Seq<char>>,
    bound: u64,
    path: Seq<char>,
) -> bool {
    exists|number: u64|
        numbers_of(names, FileType::LogFile).contains(number) && number < bound && path
            == #[trigger] filename::numbered(dbname, number, "log"@)
}

/// Deletes the logs among the given names that are older than the one in use.
pub fn delete_obsolete_logs<E: Env>(
    env: &mut E,
    dbname: &str,
    names: &Vec<String>,
    log_file_number: u64,
)
    requires
        old(env).wf(),
    ensures
        final(env).wf(),
        final(env).reliable() == old(env).reliable(),
        final(env).locks() == old(env).locks(),
        forall|path: Seq<char>|
            !#[trigger] is_old_log(
                dbname@,
                crate::env::texts(names@),
                log_file_number,
                path,
            ) ==> final(env).files().contains_key(path) == old(env).files().contains_key(path)
                && final(env).files()[path] == old(env).files()[path],
        old(env).reliable() ==> forall|path: Seq<char>| #[trigger]
            is_old_log(dbname@, crate::env::texts(names@), log_file_number, path)
                ==> !final(env).files().contains_key(path),
{
    let logs = obsolete_logs(names, log_file_number);
    let ghost all = crate::env::texts(names@);
    let mut index: usize = 0;
    while index < logs.len()
        invariant
            index <= logs@.len(),
            all == crate::env::texts(names@),
            forall|number: u64|
                logs@.contains(number) <==> numbers_of(all, FileType::LogFile).contains(number)
                    && number < log_file_number,
            env.wf(),
            env.reliable() == old(env).reliable(),
            env.locks() == old(env).locks(),
            forall|path: Seq<char>|
                !#[trigger] is_old_log(dbname@, all, log_file_number, path)
                    ==> env.files().contains_key(path) == old(env).files().contains_key(path)
                    && env.files()[path] == old(env).files()[path],
            env.reliable() ==> forall|i: int|
                0 <= i < index ==> !env.files().contains_key(
                    filename::numbered(dbname@, #[trigger] logs@[i], "log"@),
                ),
        decreases logs@.len() - index,
    {
        let path = filename::log_file_name(dbname, logs[index]);
        proof {
            let number = logs@[index as int];
            assert(logs@.contains(number));
            assert(path@ == filename::numbered(dbname@, number, "log"@));
            assert(is_old_log(dbname@, all, log_file_number, path@));
        }
        let _ = env.delete_file(path.as_str());
        index = index + 1;
    }
    proof {
        if env.reliable() {
            assert forall|path: Seq<char>| #[trigger]
                is_old_log(dbname@, all, log_file_number, path) implies !env.files().contains_key(
                path,
            ) by {
                let number = choose|number: u64|
                    numbers_of(all, FileType::LogFile).contains(number) && number
                        < log_file_number && path == #[trigger] filename::numbered(
                        dbname@,
                        number,
                        "log"@,
                    );
                assert(logs@.contains(number));
                let i = choose|i: int| 0 <= i < logs@.len() && logs@[i] == number;
                assert(!env.files().contains_key(filename::numbered(dbname@, logs@[i], "log"@)));
            }
        }
    }
}

/// Whether a path is that of an old manifest.
pub open spec fn is_old_manifest(
    dbname: Seq<char>,
    names: Seq<Seq<char>>,
    live: u64,
    path: Seq<char>,
) -> bool {
    exists|number: u64|
        numbers_of(names, FileType::DescriptorFile).contains(number) && number != live && path
            == filename::within(dbname, #[trigger] filename::manifest_name(number))
}

/// Deletes the manifests among the given names but the one in use.
pub fn delete_obsolete_manifests<E: Env>(
    env: &mut E,
    dbname: &str,
    names: &Vec<String>,
    live: u64,
)
    requires
        old(env).wf(),
    ensures
        final(env).wf(),
        final(env).reliable() == old(env).reliable(),
        final(env).locks() == old(env).locks(),
        forall|path: Seq<char>|
            !#[trigger] is_old_manifest(dbname@, crate::env::texts(names@), live, path)
                ==> final(env).files().contains_key(path) == old(env).files().contains_key(path)
                && final(env).files()[path] == old(env).files()[path],
        old(env).reliable() ==> forall|path: Seq<char>| #[trigger]
            is_old_manifest(dbname@, crate::env::texts(names@), live, path)
                ==> !final(env).files().contains_key(path),
{
    let manifests = obsolete_manifests(names, live);
    let ghost all = crate::env::texts(names@);
    let mut index: usize = 0;
    while index < manifests.len()
        invariant
            index <= manifests@.len(),
            all == crate::env::texts(names@),
            forall|number: u64|
                manifests@.contains(number) <==> numbers_of(
                    all,
                    FileType::DescriptorFile,
                ).contains(number) && number != live,
            env.wf(),
            env.reliable() == old(env).reliable(),
            env.locks() == old(env).locks(),
            forall|path: Seq<char>|
                !#[trigger] is_old_manifest(dbname@, all, live, path) ==> env.files().contains_key(
                    path,
                ) == old(env).files().contains_key(path) && env.files()[path] == old(env).files()[path],
            env.reliable() ==> forall|i: int|
                0 <= i < index ==> !env.files().contains_key(
                    filename::within(
                        dbname@,
                        filename::manifest_name(#[trigger] manifests@[i]),
                    ),
                ),
        decreases manifests@.len() - index,
    {
        let path = filename::descriptor_file_name(dbname, manifests[index]);
        proof {
            let number = manifests@[index as int];
            assert(manifests@.contains(number));
            assert(path@ == filename::within(dbname@, filename::manifest_name(number)));
            assert(is_old_manifest(dbname@, all, live, path@));
        }
        let _ = env.delete_file(path.as_str());
        index = index + 1;
    }
    proof {
        if env.reliable() {
            assert forall|path: Seq<char>| #[trigger]
                is_old_manifest(dbname@, all, live, path) implies !env.files().contains_key(
                path,
            ) by {
                let number = choose|number: u64|
                    numbers_of(all, FileType::DescriptorFile).contains(number) && number != live
                        && path == filename::within(
                        dbname@,
                        #[trigger] filename::manifest_name(number),
                    );
                assert(manifests@.contains(number));
                let i = choose|i: int| 0 <= i < manifests@.len() && manifests@[i] == number;
                assert(!env.files().contains_key(
                    filename::within(dbname@, filename::manifest_name(manifests@[i])),
                ));
            }
        }
    }
}

} // verus!
