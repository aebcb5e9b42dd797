//! Which files a recovery needs, and which are no longer needed.

use vstd::prelude::*;

use crate::db_impl::recover;
use crate::db_impl::recovery;
use crate::filename;
use crate::filename::FileType;

verus! {

/// Whether a name is that of a file of a kind with a number.
pub open spec fn is_named(name: Seq<char>, kind: FileType, number: u64) -> bool {
    filename::parsed_name(filename::base_name(name)) == Some((number, kind))
}

/// The numbers of the files of one kind are those that the names of such files tell.
pub proof fn law_numbers_are_those_of_names(
    names: Seq<Seq<char>>,
    kind: FileType,
    number: u64,
)
    ensures
        recovery::numbers_of(names, kind).contains(number) <==> exists|i: int|
            0 <= i < names.len() && is_named(#[trigger] names[i], kind, number),
        recovery::numbers_of(names, kind).len() <= names.len(),
    decreases names.len(),
{
    let found = recovery::numbers_of(names, kind);
    if names.len() > 0 {
        let rest = names.drop_last();
        let front = recovery::numbers_of(rest, kind);
        law_numbers_are_those_of_names(rest, kind, number);
        if found.contains(number) {
            let k = choose|k: int| 0 <= k < found.len() && found[k] == number;
            if k < front.len() {
                assert(front[k] == number);
                let i = choose|i: int|
                    0 <= i < rest.len() && is_named(#[trigger] rest[i], kind, number);
                assert(is_named(names[i], kind, number));
            } else {
                assert(is_named(names[names.len() - 1], kind, number));
            }
        }
        if exists|i: int| 0 <= i < names.len() && is_named(#[trigger] names[i], kind, number) {
            let i = choose|i: int|
                0 <= i < names.len() && is_named(#[trigger] names[i], kind, number);
            if i < rest.len() {
                assert(is_named(rest[i], kind, number));
                let k = choose|k: int| 0 <= k < front.len() && front[k] == number;
                assert(found[k] == number);
            } else {
                assert(found[front.len() as int] == number);
            }
        }
    }
}

proof fn lemma_filtered(found: Seq<u64>, wanted: spec_fn(u64) -> bool, number: u64)
    ensures
        found.filter(wanted).contains(number) <==> found.contains(number) && wanted(number),
    decreases found.len(),
{
    reveal(Seq::filter);
    if found.len() > 0 {
        let front = found.drop_last();
        lemma_filtered(front, wanted, number);
        let some = front.filter(wanted);
        if wanted(found.last()) {
            let all = some.push(found.last());
            assert(found.filter(wanted) == all);
            if some.contains(number) {
                let k = choose|k: int| 0 <= k < some.len() && some[k] == number;
                assert(all[k] == number);
            }
            assert(all[some.len() as int] == found.last());
        }
        if front.contains(number) {
            let k = choose|k: int| 0 <= k < front.len() && front[k] == number;
            assert(found[k] == number);
        }
        assert(found[found.len() - 1] == found.last());
        if found.contains(number) && number != found.last() {
            let k = choose|k: int| 0 <= k < found.len() && found[k] == number;
            assert(front[k] == number);
        }
    }
}

/// A recovery replays a log just if it is in the directory and is not older than the oldest
/// that is needed, or is the one that was set aside before. Older logs come first.
pub proof fn law_needed_logs_are_replayed(
    names: Seq<Seq<char>>,
    min_log: u64,
    prev_log: u64,
    logs: Seq<u64>,
    number: u64,
)
    requires
        recover::are_logs(names, min_log, prev_log, logs),
    ensures
        logs.contains(number) <==> (number >= min_log || number == prev_log) && exists|i: int|
            0 <= i < names.len() && is_named(#[trigger] names[i], FileType::LogFile, number),
        forall|i: int, j: int| 0 <= i < j < logs.len() ==> logs[i] <= logs[j],
{
    broadcast use vstd::seq_lib::group_to_multiset_ensures;

    let found = recovery::numbers_of(names, FileType::LogFile);
    let wanted = |number: u64| recovery::is_replayed(number, min_log, prev_log);
    let some = found.filter(wanted);
    law_numbers_are_those_of_names(names, FileType::LogFile, number);
    lemma_filtered(found, wanted, number);
    assert(logs.contains(number) <==> some.contains(number)) by {
        assert(logs.contains(number) <==> logs.to_multiset().count(number) > 0);
        assert(some.contains(number) <==> some.to_multiset().count(number) > 0);
    }
}

/// No log is deleted but one of the database that is older than the one in use: the log in
/// use, newer ones, and files of any other kind stay.
pub proof fn law_only_old_logs_go(
    dbname: Seq<char>,
    names: Seq<Seq<char>>,
    in_use: u64,
    path: Seq<char>,
)
    requires
        recovery::is_old_log(dbname, names, in_use, path),
    ensures
        exists|number: u64|
            number < in_use && path == #[trigger] filename::numbered(dbname, number, "log"@)
                && exists|i: int|
                0 <= i < names.len() && is_named(#[trigger] names[i], FileType::LogFile, number),
        forall|number: u64|
            number >= in_use ==> path != #[trigger] filename::numbered(dbname, number, "log"@),
        forall|number: u64| path != #[trigger] filename::numbered(dbname, number, "ldb"@),
        forall|number: u64| path != #[trigger] filename::numbered(dbname, number, "sst"@),
{
    let old_number = choose|number: u64|
        recovery::numbers_of(names, FileType::LogFile).contains(number) && number < in_use && path
            == #[trigger] filename::numbered(dbname, number, "log"@);
    law_numbers_are_those_of_names(names, FileType::LogFile, old_number);
    filename::law_numbered_names(dbname, old_number);
    assert forall|number: u64| number >= in_use implies path != #[trigger] filename::numbered(
        dbname,
        number,
        "log"@,
    ) by {
        filename::law_numbered_names(dbname, number);
    }
    assert forall|number: u64| path != #[trigger] filename::numbered(dbname, number, "ldb"@) by {
        filename::law_numbered_names(dbname, number);
    }
    assert forall|number: u64| path != #[trigger] filename::numbered(dbname, number, "sst"@) by {
        filename::law_numbered_names(dbname, number);
    }
}

/// All logs in the directory that are older than the one in use go.
pub proof fn law_old_logs_go(
    dbname: Seq<char>,
    names: Seq<Seq<char>>,
    in_use: u64,
    number: u64,
    i: int,
)
    requires
        0 <= i < names.len(),
        is_named(names[i], FileType::LogFile, number),
        number < in_use,
    ensures
        recovery::is_old_log(dbname, names, in_use, filename::numbered(dbname, number, "log"@)),
{
    law_numbers_are_those_of_names(names, FileType::LogFile, number);
}

/// No manifest is deleted but one that is not in use, and nothing that is no manifest.
pub proof fn law_only_old_manifests_go(
    dbname: Seq<char>,
    names: Seq<Seq<char>>,
    in_use: u64,
    path: Seq<char>,
)
    requires
        recovery::is_old_manifest(dbname, names, in_use, path),
    ensures
        path != filename::within(dbname, filename::manifest_name(in_use)),
        exists|number: u64|
            number != in_use && path == filename::within(
                dbname,
                #[trigger] filename::manifest_name(number),
            ),
{
    let old_number = choose|number: u64|
        recovery::numbers_of(names, FileType::DescriptorFile).contains(number) && number != in_use
            && path == filename::within(dbname, #[trigger] filename::manifest_name(number));
    filename::law_descriptor_name(dbname, old_number);
    filename::law_descriptor_name(dbname, in_use);
}

/// All manifests in the directory but the one in use go.
pub proof fn law_old_manifests_go(
    dbname: Seq<char>,
    names: Seq<Seq<char>>,
    in_use: u64,
    number: u64,
    i: int,
)
    requires
        0 <= i < names.len(),
        is_named(names[i], FileType::DescriptorFile, number),
        number != in_use,
    ensures
        recovery::is_old_manifest(
            dbname,
            names,
            in_use,
            filename::within(dbname, filename::manifest_name(number)),
        ),
{
    law_numbers_are_those_of_names(names, FileType::DescriptorFile, number);
    assert(filename::manifest_name(number) == filename::manifest_name(number));
}

/// Deleting tables by their numbers leaves the tables of all other numbers, and all logs.
pub proof fn law_other_tables_stay(
    dbname: Seq<char>,
    numbers: Seq<u64>,
    number: u64,
)
    ensures
        recovery::is_table_path(dbname, numbers, filename::numbered(dbname, number, "ldb"@))
            <==> numbers.contains(number),
        recovery::is_table_path(dbname, numbers, filename::numbered(dbname, number, "sst"@))
            <==> numbers.contains(number),
        !recovery::is_table_path(dbname, numbers, filename::numbered(dbname, number, "log"@)),
{
    filename::law_numbered_names(dbname, number);
    assert forall|i: int| 0 <= i < numbers.len() implies filename::parsed_name(
        filename::base_name(filename::numbered(dbname, #[trigger] numbers[i], "ldb"@)),
    ) == Some((numbers[i], FileType::TableFile)) && filename::parsed_name(
        filename::base_name(filename::numbered(dbname, numbers[i], "sst"@)),
    ) == Some((numbers[i], FileType::TableFile)) by {
        filename::law_numbered_names(dbname, numbers[i]);
    }
    if numbers.contains(number) {
        let i = choose|i: int| 0 <= i < numbers.len() && numbers[i] == number;
        assert(numbers[i] == number);
    }
}

} // verus!
