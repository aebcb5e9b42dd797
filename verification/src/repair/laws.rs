//! What a repair finds out.

use vstd::prelude::*;

use std::sync::Arc;

use crate::block::data::Block;
use crate::cache::Cache;
use crate::comparator::Comparator;
use crate::db_impl::options::Options;
use crate::db_impl::recovery_laws;
use crate::db_impl::table_input;
use crate::db_impl::wal;
use crate::db_impl::wal::Replay;
use crate::db_impl::write_queue;
use crate::db_iter::db_iterator;
use crate::db_iter::seen;
use crate::env::RandomAccessFile;
use crate::filename;
use crate::filename::FileType;
use crate::filter::FilterPolicy;
use crate::log;
use crate::log::Logical;
use crate::repair;
use crate::repair::files;
use crate::repair::logs;
use crate::repair::tables;
use crate::repair::tables::TableInfo;
use crate::repair::Repair;
use crate::repair::Steps;
use crate::status;
use crate::table::draft;
use crate::table::draft::Draft;
use crate::table::draft::Recipe;
use crate::table::laws as table_laws;
use crate::table::table_iterator;
use crate::table::Compressor;
use crate::table_cache;
use crate::write_batch::Change;

verus! {

/// The greatest sequence number of some entries is not below that of any of them, and is that
/// of one of them, unless none has one.
pub proof fn law_greatest_sequence(pairs: Seq<db_iterator::Pair>)
    ensures
        forall|i: int|
            0 <= i < pairs.len() ==> (crate::format::parsed((#[trigger] pairs[i]).0) matches Some(
                parts,
            ) ==> parts.1 <= tables::greatest_sequence(pairs)),
        tables::greatest_sequence(pairs) > 0 ==> exists|i: int|
            0 <= i < pairs.len() && (crate::format::parsed((#[trigger] pairs[i]).0) matches Some(
                parts,
            ) && parts.1 == tables::greatest_sequence(pairs)),
    decreases pairs.len(),
{
    if pairs.len() > 0 {
        let front = pairs.drop_last();
        law_greatest_sequence(front);
        assert forall|i: int| 0 <= i < pairs.len() implies (crate::format::parsed(
            (#[trigger] pairs[i]).0,
        ) matches Some(parts) ==> parts.1 <= tables::greatest_sequence(pairs)) by {
            if i < front.len() {
                assert(front[i] == pairs[i]);
            }
        }
        if tables::greatest_sequence(pairs) > 0 {
            if tables::greatest_sequence(pairs) == tables::greatest_sequence(front) {
                let i = choose|i: int|
                    0 <= i < front.len() && (crate::format::parsed(
                        (#[trigger] front[i]).0,
                    ) matches Some(parts) && parts.1 == tables::greatest_sequence(front));
                assert(pairs[i] == front[i]);
            } else {
                assert(pairs[pairs.len() - 1] == pairs.last());
            }
        }
    }
}

proof fn lemma_sequence_of(all: Seq<TableInfo>)
    ensures
        forall|i: int|
            0 <= i < all.len() ==> (#[trigger] all[i]).max_sequence <= repair::sequence_of(all),
        all.len() > 0 ==> exists|i: int|
            0 <= i < all.len() && (#[trigger] all[i]).max_sequence == repair::sequence_of(all),
        all.len() == 0 ==> repair::sequence_of(all) == 0,
    decreases all.len(),
{
    if all.len() > 0 {
        let front = all.drop_last();
        lemma_sequence_of(front);
        assert forall|i: int| 0 <= i < all.len() implies (#[trigger] all[i]).max_sequence
            <= repair::sequence_of(all) by {
            if i < front.len() {
                assert(front[i] == all[i]);
            }
        }
        if all.last().max_sequence == repair::sequence_of(all) {
            assert(all[all.len() - 1].max_sequence == repair::sequence_of(all));
        } else {
            let i = choose|i: int|
                0 <= i < front.len() && (#[trigger] front[i]).max_sequence == repair::sequence_of(
                    front,
                );
            assert(all[i] == front[i]);
        }
    }
}

/// The last sequence number of a repaired database is the greatest of all its tables: it is
/// not below that of any of them, and is that of one of them, or zero if there is none.
pub proof fn law_last_sequence_is_the_greatest(
    title: Seq<char>,
    all: Seq<TableInfo>,
    archived: Seq<u64>,
    next_file_number: u64,
    repaired: Repair,
)
    requires
        repair::comes_to(title, all, archived, next_file_number, repaired),
    ensures
        forall|i: int|
            0 <= i < all.len() ==> (#[trigger] all[i]).max_sequence <= repaired.last_sequence,
        all.len() > 0 ==> exists|i: int|
            0 <= i < all.len() && (#[trigger] all[i]).max_sequence == repaired.last_sequence,
        all.len() == 0 ==> repaired.last_sequence == 0,
{
    lemma_sequence_of(all);
}

/// The sizes of some tables, one after the other.
pub open spec fn sizes_of(all: Seq<TableInfo>) -> Seq<int> {
    Seq::new(all.len(), |i: int| all[i].meta.file_size as int)
}

proof fn lemma_bytes_of(all: Seq<TableInfo>)
    ensures
        repair::bytes_of(all) == sizes_of(all).fold_left(0, |sum: int, size: int| sum + size),
    decreases all.len(),
{
    let plus = |sum: int, size: int| sum + size;
    if all.len() > 0 {
        lemma_bytes_of(all.drop_last());
        assert(sizes_of(all).drop_last() =~= sizes_of(all.drop_last()));
        assert(sizes_of(all).last() == all.last().meta.file_size);
        assert(sizes_of(all).fold_left(0, plus) == plus(
            sizes_of(all).drop_last().fold_left(0, plus),
            sizes_of(all).last(),
        ));
    }
}

/// A repair reports all tables of the new manifest, all of them in the first level, and the
/// sum of their sizes.
pub proof fn law_report_counts_all(
    title: Seq<char>,
    all: Seq<TableInfo>,
    archived: Seq<u64>,
    next_file_number: u64,
    repaired: Repair,
)
    requires
        repair::comes_to(title, all, archived, next_file_number, repaired),
    ensures
        repaired.report.recovered_files == repaired.edit.new_files@.len(),
        repaired.edit.new_files@.len() == all.len(),
        repaired.edit.deleted_files@.len() == 0,
        repaired.edit.log_number == Some(0u64),
        repaired.next_file_number == next_file_number,
        repaired.report.archived_table_numbers@ == archived,
        forall|i: int|
            0 <= i < all.len() ==> (#[trigger] repaired.edit.new_files@[i]).level == 0
                && repaired.edit.new_files@[i].meta.number == all[i].meta.number
                && repaired.edit.new_files@[i].meta.file_size == all[i].meta.file_size
                && repaired.edit.new_files@[i].meta.smallest@ == all[i].meta.smallest@
                && repaired.edit.new_files@[i].meta.largest@ == all[i].meta.largest@,
        ({
            let sum = sizes_of(all).fold_left(0, |sum: int, size: int| sum + size);
            repaired.report.recovered_bytes == if sum <= u64::MAX {
                sum
            } else {
                u64::MAX as int
            }
        }),
{
    lemma_bytes_of(all);
    assert forall|i: int| 0 <= i < all.len() implies (
    #[trigger] repaired.edit.new_files@[i]).meta.number == all[i].meta.number
        && repaired.edit.new_files@[i].meta.file_size == all[i].meta.file_size
        && repaired.edit.new_files@[i].meta.smallest@ == all[i].meta.smallest@
        && repaired.edit.new_files@[i].meta.largest@ == all[i].meta.largest@ by {
        assert(repaired.edit.new_files@[i].meta.model() == all[i].meta.model());
    }
}

proof fn lemma_kept_has(infos: Seq<Option<TableInfo>>, i: int) -> (k: int)
    requires
        0 <= i < infos.len(),
        infos[i] is Some,
    ensures
        0 <= k < tables::kept(infos).len(),
        tables::kept(infos)[k] == infos[i]->0,
    decreases infos.len(),
{
    let front = infos.drop_last();
    if i == infos.len() - 1 {
        tables::kept(front).len() as int
    } else {
        lemma_kept_has(front, i)
    }
}

/// No entry of a table that was recovered is newer than the last sequence number.
pub proof fn law_recovered_entries_are_not_newer<
    C: Comparator,
    F: RandomAccessFile,
    P: FilterPolicy,
    Z: Compressor,
    B: Cache<Arc<Block>>,
>(
    comparator: C,
    options: Options<P, Z, B>,
    dbname: Seq<char>,
    sure: bool,
    before: Map<Seq<char>, Seq<u8>>,
    steps: Steps,
    after: Map<Seq<char>, Seq<u8>>,
    repaired: Repair,
    i: int,
    number: u64,
    size: nat,
    pairs: Seq<db_iterator::Pair>,
    k: int,
)
    requires
        repair::is_repair::<C, F, P, Z, B>(
            comparator,
            options,
            dbname,
            sure,
            before,
            steps,
            after,
            repaired,
        ),
        0 <= i < steps.infos.len(),
        steps.infos[i] matches Some(info) && tables::is_info(info, number, size, pairs),
        0 <= k < pairs.len(),
    ensures
        crate::format::parsed(pairs[k].0) matches Some(parts) ==> parts.1 <= repaired.last_sequence,
{
    law_greatest_sequence(pairs);
    let place = lemma_kept_has(steps.infos, i);
    lemma_sequence_of(tables::kept(steps.infos));
    assert(tables::kept(steps.infos)[place].max_sequence <= repaired.last_sequence);
}

/// The manifests among some paths are those that are named as such.
pub proof fn law_manifests_are_those_of_names(paths: Seq<Seq<char>>, name: Seq<char>)
    ensures
        files::manifest_names(paths).contains(name) <==> exists|i: int|
            0 <= i < paths.len() && filename::base_name(#[trigger] paths[i]) == name && (
            filename::parsed_name(name) matches Some((_, FileType::DescriptorFile))),
    decreases paths.len(),
{
    let all = files::manifest_names(paths);
    if paths.len() > 0 {
        let rest = paths.drop_last();
        let front = files::manifest_names(rest);
        law_manifests_are_those_of_names(rest, name);
        if all.contains(name) {
            let k = choose|k: int| 0 <= k < all.len() && all[k] == name;
            if k < front.len() {
                assert(front[k] == name);
                let i = choose|i: int|
                    0 <= i < rest.len() && filename::base_name(#[trigger] rest[i]) == name && (
                    filename::parsed_name(name) matches Some((_, FileType::DescriptorFile)));
                assert(filename::base_name(paths[i]) == name);
            } else {
                assert(filename::base_name(paths[paths.len() - 1]) == name);
            }
        }
        if exists|i: int|
            0 <= i < paths.len() && filename::base_name(#[trigger] paths[i]) == name && (
            filename::parsed_name(name) matches Some((_, FileType::DescriptorFile))) {
            let i = choose|i: int|
                0 <= i < paths.len() && filename::base_name(#[trigger] paths[i]) == name && (
                filename::parsed_name(name) matches Some((_, FileType::DescriptorFile)));
            if i < rest.len() {
                assert(filename::base_name(rest[i]) == name);
                let k = choose|k: int| 0 <= k < front.len() && front[k] == name;
                assert(all[k] == name);
            } else {
                assert(all[front.len() as int] == name);
            }
        }
    }
}

/// A repair reads each table that is in the directory, and turns each log into one.
pub proof fn law_repair_reads_all_tables(steps: Steps, i: int, number: u64)
    requires
        0 <= i < steps.paths.len(),
        recovery_laws::is_named(steps.paths[i], FileType::TableFile, number),
    ensures
        repair::scanned_numbers(steps).contains(number),
{
    recovery_laws::law_numbers_are_those_of_names(steps.paths, FileType::TableFile, number);
    let found = crate::db_impl::recovery::numbers_of(steps.paths, FileType::TableFile);
    let k = choose|k: int| 0 <= k < found.len() && found[k] == number;
    assert(repair::scanned_numbers(steps)[k] == number);
}

proof fn lemma_salvage_from<C: Comparator>(
    user: C,
    start: nat,
    groups: Seq<Seq<Change>>,
    bytes: Seq<u8>,
    index: int,
    state: Replay,
)
    requires
        log::is_log_of(bytes, wal::log_records(start, groups), false),
        start + write_queue::all_changes(groups).len() <= crate::format::MAX_SEQUENCE_NUMBER + 1,
        wal::all_fit(user, write_queue::all_changes(groups)),
        forall|i: int| 0 <= i < groups.len() ==> (#[trigger] groups[i]).len() <= u32::MAX,
        write_queue::all_changes(groups).len() + 2 < usize::MAX,
        0 <= index <= groups.len(),
        state.contents == seen::applied(
            Map::empty(),
            start,
            write_queue::all_changes(groups.take(index)),
        ),
        state.held == write_queue::all_changes(groups.take(index)).len(),
    ensures
        logs::salvaged_from(
            user,
            bytes,
            log::log_image(wal::log_records(start, groups).take(index)).len() as int,
            state,
        ).contents == seen::applied(Map::empty(), start, write_queue::all_changes(groups)),
    decreases groups.len() - index,
{
    let records = wal::log_records(start, groups);
    if index == groups.len() {
        assert(records.take(index) =~= records);
        assert(groups.take(index) =~= groups);
    } else {
        wal::lemma_record_replays(user, Map::empty(), 0, start, groups, bytes, index, state);
        lemma_salvage_from(
            user,
            start,
            groups,
            bytes,
            index + 1,
            logs::salvaged_record(user, state, records[index]),
        );
    }
}

/// All that was written to a log is salvaged from it, under the sequence numbers under which
/// it was written, also where a record behind it was not written to its end.
pub proof fn law_log_is_salvaged<C: Comparator>(
    user: C,
    start: nat,
    groups: Seq<Seq<Change>>,
    bytes: Seq<u8>,
)
    requires
        log::is_log_of(bytes, wal::log_records(start, groups), false),
        start + write_queue::all_changes(groups).len() <= crate::format::MAX_SEQUENCE_NUMBER + 1,
        wal::all_fit(user, write_queue::all_changes(groups)),
        forall|i: int| 0 <= i < groups.len() ==> (#[trigger] groups[i]).len() <= u32::MAX,
        write_queue::all_changes(groups).len() + 2 < usize::MAX,
    ensures
        logs::salvaged(user, bytes) == seen::applied(
            Map::empty(),
            start,
            write_queue::all_changes(groups),
        ),
{
    let records = wal::log_records(start, groups);
    assert(groups.take(0) =~= Seq::<Seq<Change>>::empty());
    assert(write_queue::all_changes(groups.take(0)) =~= Seq::<Change>::empty());
    assert(records.take(0) =~= Seq::<Seq<u8>>::empty());
    assert(log::log_image(records.take(0)) =~= Seq::<u8>::empty());
    lemma_salvage_from(user, start, groups, bytes, 0, logs::nothing_salvaged());
}

/// The next number is the least that is behind those of all files but manifests: it is one, or
/// just behind the number of some file.
pub proof fn law_next_number_is_least(paths: Seq<Seq<char>>)
    ensures
        files::next_number(paths) >= 1,
        files::next_number(paths) > 1 ==> exists|i: int|
            0 <= i < paths.len() && (filename::parsed_name(
                filename::base_name(#[trigger] paths[i]),
            ) matches Some((number, kind)) && kind != FileType::DescriptorFile && (number + 1
                == files::next_number(paths) || (number == u64::MAX && files::next_number(paths)
                == u64::MAX))),
    decreases paths.len(),
{
    if paths.len() > 0 {
        let front = paths.drop_last();
        law_next_number_is_least(front);
        if files::next_number(paths) > 1 {
            if files::next_number(paths) == files::next_number(front) {
                let i = choose|i: int|
                    0 <= i < front.len() && (filename::parsed_name(
                        filename::base_name(#[trigger] front[i]),
                    ) matches Some((number, kind)) && kind != FileType::DescriptorFile && (number
                        + 1 == files::next_number(front) || (number == u64::MAX
                        && files::next_number(front) == u64::MAX)));
                assert(paths[i] == front[i]);
            } else {
                assert(paths[paths.len() - 1] == paths.last());
            }
        }
    }
}

/// The tables that were made of logs are those that got a number.
pub proof fn law_made_are_those_with_numbers(made: Seq<Option<u64>>, number: u64)
    ensures
        logs::made_numbers(made).contains(number) <==> made.contains(Some(number)),
        logs::made_numbers(made).len() <= made.len(),
        (forall|i: int| 0 <= i < made.len() ==> (#[trigger] made[i]) is Some)
            ==> logs::made_numbers(made).len() == made.len(),
    decreases made.len(),
{
    let all = logs::made_numbers(made);
    if made.len() > 0 {
        let front = made.drop_last();
        let some = logs::made_numbers(front);
        law_made_are_those_with_numbers(front, number);
        assert(made[made.len() - 1] == made.last());
        if all.contains(number) {
            let k = choose|k: int| 0 <= k < all.len() && all[k] == number;
            if k < some.len() {
                assert(some[k] == number);
                let i = choose|i: int| 0 <= i < front.len() && front[i] == Some(number);
                assert(made[i] == Some(number));
            }
        }
        if made.contains(Some(number)) {
            let i = choose|i: int| 0 <= i < made.len() && made[i] == Some(number);
            if i < front.len() {
                assert(front[i] == Some(number));
                let k = choose|k: int| 0 <= k < some.len() && some[k] == number;
                assert(all[k] == number);
            } else {
                assert(all[some.len() as int] == number);
            }
        }
        if forall|i: int| 0 <= i < made.len() ==> (#[trigger] made[i]) is Some {
            assert forall|i: int| 0 <= i < front.len() implies (#[trigger] front[i]) is Some by {
                assert(front[i] == made[i]);
            }
        }
    }
}

/// Where a file of a name is set aside.
pub open spec fn lost_place(dbname: Seq<char>, name: Seq<char>) -> Seq<char> {
    dbname + "/lost/"@ + name
}

proof fn lemma_places_apart(dbname: Seq<char>, a: Seq<char>, b: Seq<char>)
    requires
        filename::is_plain(a),
        filename::is_plain(b),
    ensures
        files::lost_path(dbname, filename::within(dbname, a)) == lost_place(dbname, a),
        lost_place(dbname, a) != filename::within(dbname, b),
        a != b ==> lost_place(dbname, a) != lost_place(dbname, b),
        a != b ==> filename::within(dbname, a) != filename::within(dbname, b),
{
    reveal_strlit("/lost");
    reveal_strlit("/lost/");
    reveal_strlit("/");
    filename::lemma_base_name(dbname, a);
    filename::lemma_base_name(dbname, b);
    let (x, y) = (lost_place(dbname, a), filename::within(dbname, b));
    assert(dbname + "/lost"@ + "/"@ + a =~= x);
    let slash = dbname.len() as int + 5;
    assert(x[slash] == '/');
    if x == y {
        assert(y[slash] == b[slash - dbname.len() - 1]);
    }
    if lost_place(dbname, a) == lost_place(dbname, b) {
        assert(x.skip(dbname.len() as int + 6) =~= a);
        assert(lost_place(dbname, b).skip(dbname.len() as int + 6) =~= b);
    }
}

/// Setting files of a database aside moves each of them, as it is, to the directory of lost
/// files, and leaves all others as they are.
pub proof fn law_set_aside_moves_files(
    before: Map<Seq<char>, Seq<u8>>,
    dbname: Seq<char>,
    names: Seq<Seq<char>>,
    moved: Seq<bool>,
)
    requires
        moved.len() == names.len(),
        names.no_duplicates(),
        forall|i: int| 0 <= i < names.len() ==> filename::is_plain(#[trigger] names[i]),
    ensures
        ({
            let after = files::some_set_aside(before, dbname, names, moved);
            &&& forall|i: int|
                0 <= i < names.len() && before.contains_key(
                    filename::within(dbname, #[trigger] names[i]),
                ) ==> if moved[i] {
                    &&& !after.contains_key(filename::within(dbname, names[i]))
                    &&& after.contains_key(lost_place(dbname, names[i]))
                    &&& after[lost_place(dbname, names[i])] == before[filename::within(
                        dbname,
                        names[i],
                    )]
                } else {
                    &&& after.contains_key(filename::within(dbname, names[i]))
                    &&& after[filename::within(dbname, names[i])] == before[filename::within(
                        dbname,
                        names[i],
                    )]
                }
            &&& forall|path: Seq<char>|
                (forall|i: int|
                    0 <= i < names.len() ==> path != filename::within(dbname, #[trigger] names[i])
                        && path != lost_place(dbname, names[i])) ==> (
                #[trigger] after.contains_key(path) <==> before.contains_key(path)) && (
                before.contains_key(path) ==> after[path] == before[path])
        }),
    decreases names.len(),
{
    if names.len() > 0 {
        let (front, some) = (names.drop_last(), moved.drop_last());
        let last = names.len() - 1;
        assert forall|i: int| 0 <= i < front.len() implies filename::is_plain(
            #[trigger] front[i],
        ) by {
            assert(front[i] == names[i]);
        }
        law_set_aside_moves_files(before, dbname, front, some);
        let middle = files::some_set_aside(before, dbname, front, some);
        let after = files::some_set_aside(before, dbname, names, moved);
        let path = filename::within(dbname, names[last]);
        lemma_places_apart(dbname, names[last], names[last]);
        assert forall|i: int| 0 <= i < front.len() implies path != filename::within(
            dbname,
            #[trigger] front[i],
        ) && path != lost_place(dbname, front[i]) by {
            assert(front[i] == names[i]);
            lemma_places_apart(dbname, names[i], names[last]);
        }
        assert(middle.contains_key(path) <==> before.contains_key(path));
        assert forall|i: int|
            0 <= i < names.len() && before.contains_key(
                filename::within(dbname, #[trigger] names[i]),
            ) implies if moved[i] {
            &&& !after.contains_key(filename::within(dbname, names[i]))
            &&& after.contains_key(lost_place(dbname, names[i]))
            &&& after[lost_place(dbname, names[i])] == before[filename::within(dbname, names[i])]
        } else {
            &&& after.contains_key(filename::within(dbname, names[i]))
            &&& after[filename::within(dbname, names[i])] == before[filename::within(
                dbname,
                names[i],
            )]
        } by {
            if i < last {
                assert(front[i] == names[i]);
                assert(some[i] == moved[i]);
                lemma_places_apart(dbname, names[i], names[last]);
                lemma_places_apart(dbname, names[last], names[i]);
            }
        }
        assert forall|other: Seq<char>|
            (forall|i: int|
                0 <= i < names.len() ==> other != filename::within(dbname, #[trigger] names[i])
                    && other != lost_place(dbname, names[i])) implies (
        #[trigger] after.contains_key(other) <==> before.contains_key(other)) && (
        before.contains_key(other) ==> after[other] == before[other]) by {
            assert forall|i: int| 0 <= i < front.len() implies other != filename::within(
                dbname,
                #[trigger] front[i],
            ) && other != lost_place(dbname, front[i]) by {
                assert(front[i] == names[i]);
            }
            assert(other != filename::within(dbname, names[last]));
            assert(middle.contains_key(other) <==> before.contains_key(other));
        }
    }
}

/// A table that was written is recovered by a repair: it is told with its number, its size, its
/// first and its last key, and with the greatest sequence number of its entries.
pub proof fn law_written_table_is_recovered<
    C: Comparator,
    F: RandomAccessFile,
    P: FilterPolicy,
    Z: Compressor,
>(
    recipe: Recipe<C, P, Z>,
    draft: Draft,
    stored: Map<Seq<char>, Seq<u8>>,
    dbname: Seq<char>,
    number: u64,
    info: Option<TableInfo>,
)
    requires
        draft::finished_well(recipe, draft),
        table_laws::fits(recipe, draft),
        draft.entries().len() > 0,
        stored.contains_key(table_cache::table_path(stored, dbname, number)),
        stored[table_cache::table_path(stored, dbname, number)] == recipe.finished(draft).image,
        tables::scan_says::<C, F, Z>(
            recipe.comparator,
            recipe.compressor,
            stored,
            dbname,
            number,
            info,
        ),
    ensures
        info matches Some(found) && {
            let entries = draft.entries();
            &&& found.meta.number == number
            &&& found.meta.file_size == recipe.finished(draft).image.len()
            &&& found.meta.smallest@ == entries[0].0
            &&& found.meta.largest@ == entries[entries.len() - 1].0
            &&& forall|i: int|
                0 <= i < entries.len() ==> (crate::format::parsed(
                    (#[trigger] entries[i]).0,
                ) matches Some(parts) ==> parts.1 <= found.max_sequence)
            &&& found.max_sequence > 0 ==> exists|i: int|
                0 <= i < entries.len() && (crate::format::parsed(
                    (#[trigger] entries[i]).0,
                ) matches Some(parts) && parts.1 == found.max_sequence)
        },
{
    let path = table_cache::table_path(stored, dbname, number);
    let read = choose|read: status::Result<Vec<(Vec<u8>, Vec<u8>)>>| #[trigger]
        table_input::entries_read::<C, F, Z>(
            recipe.comparator,
            recipe.compressor,
            stored[path],
            true,
            read,
        ) && match read {
            Ok(all) => if all@.len() > 0 {
                info matches Some(found) && tables::is_info(
                    found,
                    number,
                    stored[path].len(),
                    table_iterator::pair_views(all@),
                )
            } else {
                info is None
            },
            Err(_) => info is None,
        };
    table_input::law_written_is_read::<C, F, P, Z>(recipe, draft, true, read);
    law_greatest_sequence(draft.entries());
}

/// A record of a log that is no batch is passed over: what follows it is salvaged.
pub proof fn law_salvage_passes_over_bad_records<C: Comparator>(
    user: C,
    bytes: Seq<u8>,
    cursor: int,
    record: Seq<u8>,
    next: int,
    contents: Map<Seq<u8>, Seq<u8>>,
    held: nat,
)
    requires
        0 <= cursor,
        log::next_record(bytes, cursor, None) == (Logical::Record { data: record, next }),
        record.len() < 12,
    ensures
        ({
            let state = Replay { contents, held, max_sequence: 0, bytes: 0 };
            logs::salvaged_from(user, bytes, cursor, state) == logs::salvaged_from(
                user,
                bytes,
                next,
                state,
            )
        }),
{
    wal::lemma_record_bounds(bytes, cursor, None);
}

} // verus!
