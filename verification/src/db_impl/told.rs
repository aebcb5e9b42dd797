//! What a database tells of a key: its memory and its tables together.

use vstd::prelude::*;

use crate::comparator::Comparator;
use crate::db_impl::read;
use crate::db_impl::recover;
use crate::db_impl::state;
use crate::db_impl::state::DBImplCore;
use crate::db_impl::stored;
use crate::db_impl::table_output;
use crate::db_impl::wal;
use crate::db_iter::db_iterator;
use crate::db_iter::seen;
use crate::db_iter::seen::Seen;
use crate::env::RandomAccessFile;
use crate::filename;
use crate::filter::FilterPolicy;
use crate::format::InternalKeyComparator;
use crate::status;
use crate::table::draft;
use crate::table::draft::Draft;
use crate::table::draft::Recipe;
use crate::table::laws;
use crate::table::Compressor;
use crate::table::Table;
use crate::table_cache;
use crate::table_cache::TableSetup;
use crate::version_set::FileMetaData;
use crate::version_set::LookupResult;
use crate::write_batch::Change;

verus! {

/// What is seen of a key in tables of some entries, newest first.
pub open spec fn seen_in_tables<C: Comparator>(
    user: C,
    tables: Seq<Seq<db_iterator::Pair>>,
    sequence: nat,
    user_key: Seq<u8>,
) -> Seen
    decreases tables.len(),
{
    if tables.len() == 0 {
        Seen::Nothing
    } else {
        seen::first_seen(
            seen::seen_at(user, db_iterator::map_of(tables[0]), sequence, user_key),
            seen_in_tables(user, tables.drop_first(), sequence, user_key),
        )
    }
}

/// How the tables of a database are written and read again.
pub open spec fn setup_of<C: Comparator, P: FilterPolicy, Z: Compressor>(
    recipe: Recipe<InternalKeyComparator<C>, P, Z>,
    dbname: Seq<char>,
) -> TableSetup<InternalKeyComparator<C>, P, Z> {
    TableSetup {
        dbname,
        comparator: recipe.comparator,
        policy: recipe.policy,
        compressor: recipe.compressor,
    }
}

/// Whether some entries can be found again in a table: they can be compared, the table is
/// not too large for its format, and keys that count as the same as one are the same.
pub open spec fn is_findable<C: Comparator, P: FilterPolicy, Z: Compressor>(
    recipe: Recipe<InternalKeyComparator<C>, P, Z>,
    entries: Seq<db_iterator::Pair>,
    user_key: Seq<u8>,
) -> bool {
    let draft = table_output::drafted(recipe, Draft::blank(), entries);
    &&& draft::finished_well(recipe, draft)
    &&& laws::fits(recipe, draft)
    &&& seen::contents_sound(recipe.comparator.user_order(), db_iterator::map_of(entries))
    &&& stored::is_plain_among(recipe.comparator.user_order(), entries, user_key)
}

/// Whether the table of a number is one of some entries.
pub open spec fn is_stored<C: Comparator, P: FilterPolicy, Z: Compressor>(
    recipe: Recipe<InternalKeyComparator<C>, P, Z>,
    dbname: Seq<char>,
    files: Map<Seq<char>, Seq<u8>>,
    number: u64,
    entries: Seq<db_iterator::Pair>,
) -> bool {
    let path = table_cache::table_path(files, dbname, number);
    files.contains_key(path) && files[path] == table_output::table_image(recipe, entries)
}

/// Whether the tables of some numbers are ones of some entries each.
pub open spec fn are_stored<C: Comparator, P: FilterPolicy, Z: Compressor>(
    recipe: Recipe<InternalKeyComparator<C>, P, Z>,
    dbname: Seq<char>,
    files: Map<Seq<char>, Seq<u8>>,
    numbers: Seq<u64>,
    tables: Seq<Seq<db_iterator::Pair>>,
    user_key: Seq<u8>,
) -> bool {
    &&& numbers.len() == tables.len()
    &&& forall|i: int|
        0 <= i < numbers.len() ==> is_stored(recipe, dbname, files, #[trigger] numbers[i], tables[i])
            && is_findable(recipe, tables[i], user_key)
}

/// Whether a reader is told what is seen.
pub open spec fn tells_reader(what: Seen, told: status::Result<Option<Vec<u8>>>) -> bool {
    match what {
        Seen::Value(value) => told matches Ok(Some(bytes)) && bytes@ == value,
        Seen::Deleted => told matches Ok(None),
        Seen::Nothing => told matches Ok(None),
    }
}

/// A lookup in the table of a number tells what is seen among its entries.
#[verifier::spinoff_prover]
#[verifier::rlimit(40)]
proof fn lemma_table_tells<C: Comparator, F: RandomAccessFile, P: FilterPolicy, Z: Compressor>(
    recipe: Recipe<InternalKeyComparator<C>, P, Z>,
    dbname: Seq<char>,
    files: Map<Seq<char>, Seq<u8>>,
    number: u64,
    entries: Seq<db_iterator::Pair>,
    user_key: Seq<u8>,
    sequence: nat,
    verify: bool,
    unchecked: Set<u64>,
    read: status::Result<LookupResult>,
)
    requires
        is_stored(recipe, dbname, files, number, entries),
        is_findable(recipe, entries, user_key),
        recipe.comparator.user_order().admits(user_key),
        sequence <= crate::format::MAX_SEQUENCE_NUMBER,
        table_cache::lookup_read::<InternalKeyComparator<C>, F, P, Z>(
            setup_of(recipe, dbname),
            files,
            number,
            stored::lookup_target(user_key, sequence),
            verify,
            unchecked.contains(number),
            read,
        ),
    ensures
        stored::tells(
            seen::seen_at(
                recipe.comparator.user_order(),
                db_iterator::map_of(entries),
                sequence,
                user_key,
            ),
            read,
        ),
{
    let setup = setup_of(recipe, dbname);
    let path = table_cache::table_path(files, dbname, number);
    let draft = table_output::drafted(recipe, Draft::blank(), entries);
    let target = stored::lookup_target(user_key, sequence);
    stored::lemma_drafted_entries(recipe, entries);
    laws::law_finished_opens(recipe, draft);
    assert(setup.opening(files[path]) is Opened);
    let table = choose|table: Table<InternalKeyComparator<C>, F, P, Z>| #[trigger]
        table_cache::is_opened(setup, table, files[path]) && (table.indexed() && table.apart()
            ==> {
            ||| crate::table::reader::lookup_is(
                table.block_for(target, target, verify),
                setup.comparator,
                target,
                read,
            )
            ||| unchecked.contains(number) && crate::table::reader::lookup_is(
                table.block_for(target, target, false),
                setup.comparator,
                target,
                read,
            )
        });
    assert(table_cache::is_opened(setup, table, files[path]));
    laws::law_blocks_apart(recipe, draft, table);
    assert(table.indexed());
    if crate::table::reader::lookup_is(
        table.block_for(target, target, verify),
        setup.comparator,
        target,
        read,
    ) {
        stored::law_table_tells_what_is_seen(
            recipe,
            draft,
            table,
            user_key,
            sequence,
            verify,
            read,
        );
    } else {
        stored::law_table_tells_what_is_seen(
            recipe,
            draft,
            table,
            user_key,
            sequence,
            false,
            read,
        );
    }
}

/// Tables that are asked one after the other tell what is seen in them, newest first.
pub proof fn law_tables_tell<
    C: Comparator,
    F: RandomAccessFile,
    P: FilterPolicy,
    Z: Compressor,
>(
    recipe: Recipe<InternalKeyComparator<C>, P, Z>,
    dbname: Seq<char>,
    files: Map<Seq<char>, Seq<u8>>,
    numbers: Seq<u64>,
    tables: Seq<Seq<db_iterator::Pair>>,
    user_key: Seq<u8>,
    sequence: nat,
    verify: bool,
    unchecked: Set<u64>,
    result: status::Result<LookupResult>,
)
    requires
        are_stored(recipe, dbname, files, numbers, tables, user_key),
        recipe.comparator.user_order().admits(user_key),
        sequence <= crate::format::MAX_SEQUENCE_NUMBER,
        read::tables_say::<InternalKeyComparator<C>, F, P, Z>(
            setup_of(recipe, dbname),
            files,
            numbers,
            stored::lookup_target(user_key, sequence),
            verify,
            unchecked,
            result,
        ),
    ensures
        stored::tells(
            seen_in_tables(recipe.comparator.user_order(), tables, sequence, user_key),
            result,
        ),
    decreases numbers.len(),
{
    let setup = setup_of(recipe, dbname);
    let target = stored::lookup_target(user_key, sequence);
    let reads = choose|reads: Seq<status::Result<LookupResult>>| #[trigger]
        read::is_search::<InternalKeyComparator<C>, F, P, Z>(
            setup,
            files,
            numbers,
            target,
            verify,
            unchecked,
            reads,
            result,
        );
    if numbers.len() > 0 {
        assert(reads.len() > 0);
        let first = reads[0];
        assert(is_stored(recipe, dbname, files, numbers[0], tables[0]));
        lemma_table_tells::<C, F, P, Z>(
            recipe,
            dbname,
            files,
            numbers[0],
            tables[0],
            user_key,
            sequence,
            verify,
            unchecked,
            first,
        );
        if first matches Ok(LookupResult::NotFound) {
            let rest = numbers.drop_first();
            let others = tables.drop_first();
            let more = reads.drop_first();
            assert forall|i: int| 0 <= i < rest.len() implies is_stored(
                recipe,
                dbname,
                files,
                #[trigger] rest[i],
                others[i],
            ) && is_findable(recipe, others[i], user_key) by {
                assert(rest[i] == numbers[i + 1]);
            }
            assert forall|i: int|
                0 <= i < more.len() implies table_cache::lookup_read::<
                InternalKeyComparator<C>,
                F,
                P,
                Z,
            >(setup, files, rest[i], target, verify, unchecked.contains(rest[i]), #[trigger] more[i]) by {
                assert(more[i] == reads[i + 1]);
            }
            assert forall|i: int| 0 <= i < more.len() - 1 implies (
            #[trigger] more[i] matches Ok(LookupResult::NotFound)) by {
                assert(more[i] == reads[i + 1]);
            }
            if more.len() > 0 {
                assert(more.last() == reads.last());
            }
            assert(read::is_search::<InternalKeyComparator<C>, F, P, Z>(
                setup,
                files,
                rest,
                target,
                verify,
                unchecked,
                more,
                result,
            ));
            law_tables_tell::<C, F, P, Z>(
                recipe,
                dbname,
                files,
                rest,
                others,
                user_key,
                sequence,
                verify,
                unchecked,
                result,
            );
        } else {
            assert(reads.len() == 1);
        }
    }
}

/// A lookup tells what is seen in memory, and else in the tables.
pub proof fn law_lookup_tells_all<
    C: Comparator,
    F: RandomAccessFile,
    P: FilterPolicy,
    Z: Compressor,
>(
    core: DBImplCore<C>,
    recipe: Recipe<InternalKeyComparator<C>, P, Z>,
    dbname: Seq<char>,
    files: Map<Seq<char>, Seq<u8>>,
    numbers: Seq<u64>,
    tables: Seq<Seq<db_iterator::Pair>>,
    user_key: Seq<u8>,
    sequence: nat,
    verify: bool,
    unchecked: Set<u64>,
    told: status::Result<Option<Vec<u8>>>,
)
    requires
        recipe.comparator == InternalKeyComparator::over(core.comparator),
        are_stored(recipe, dbname, files, numbers, tables, user_key),
        core.comparator.admits(user_key),
        sequence <= crate::format::MAX_SEQUENCE_NUMBER,
        core.answers_with::<F, P, Z>(
            setup_of(recipe, dbname),
            files,
            numbers,
            user_key,
            sequence,
            verify,
            unchecked,
            told,
        ),
    ensures
        tells_reader(
            seen::first_seen(
                core.seen(sequence, user_key),
                seen_in_tables(core.comparator, tables, sequence, user_key),
            ),
            told,
        ),
{
    InternalKeyComparator::<C>::lemma_over(core.comparator);
    if core.seen(sequence, user_key) is Nothing {
        let result = choose|result: status::Result<LookupResult>| #[trigger]
            read::is_told(result, told) && read::tables_say::<InternalKeyComparator<C>, F, P, Z>(
                setup_of(recipe, dbname),
                files,
                numbers,
                stored::lookup_target(user_key, sequence),
                verify,
                unchecked,
                result,
            );
        law_tables_tell::<C, F, P, Z>(
            recipe,
            dbname,
            files,
            numbers,
            tables,
            user_key,
            sequence,
            verify,
            unchecked,
            result,
        );
    }
}

/// Once a group is committed a lookup tells of each key the last update in the group, and of
/// all other keys what was there before, in memory or in the tables.
pub proof fn law_committed_is_told<
    C: Comparator,
    F: RandomAccessFile,
    P: FilterPolicy,
    Z: Compressor,
>(
    before: DBImplCore<C>,
    after: DBImplCore<C>,
    changes: Seq<Change>,
    recipe: Recipe<InternalKeyComparator<C>, P, Z>,
    dbname: Seq<char>,
    files: Map<Seq<char>, Seq<u8>>,
    numbers: Seq<u64>,
    tables: Seq<Seq<db_iterator::Pair>>,
    user_key: Seq<u8>,
    verify: bool,
    unchecked: Set<u64>,
    told: status::Result<Option<Vec<u8>>>,
)
    requires
        before.sound(),
        before.settled(),
        after.last_sequence <= crate::format::MAX_SEQUENCE_NUMBER,
        state::is_committed(before, after, changes),
        seen::all_admitted(before.comparator, changes),
        before.comparator.admits(user_key),
        recipe.comparator == InternalKeyComparator::over(before.comparator),
        are_stored(recipe, dbname, files, numbers, tables, user_key),
        after.answers_with::<F, P, Z>(
            setup_of(recipe, dbname),
            files,
            numbers,
            user_key,
            after.last_sequence as nat,
            verify,
            unchecked,
            told,
        ),
    ensures
        tells_reader(
            seen::last_said(
                before.comparator,
                changes,
                user_key,
                seen::first_seen(
                    before.seen(before.last_sequence as nat, user_key),
                    seen_in_tables(
                        before.comparator,
                        tables,
                        after.last_sequence as nat,
                        user_key,
                    ),
                ),
            ),
            told,
        ),
{
    let latest = after.last_sequence as nat;
    state::law_commit_is_seen(before, after, changes, user_key);
    law_lookup_tells_all::<C, F, P, Z>(
        after,
        recipe,
        dbname,
        files,
        numbers,
        tables,
        user_key,
        latest,
        verify,
        unchecked,
        told,
    );
    state::lemma_last_said(
        before.comparator,
        changes,
        user_key,
        before.seen(before.last_sequence as nat, user_key),
        seen_in_tables(before.comparator, tables, latest, user_key),
    );
}

/// When the memtable that was set aside is dropped for the table that it was written to,
/// nothing changes in what is seen.
pub proof fn law_flush_changes_nothing<C: Comparator>(
    before: DBImplCore<C>,
    after: DBImplCore<C>,
    tables: Seq<Seq<db_iterator::Pair>>,
    sequence: nat,
    user_key: Seq<u8>,
)
    requires
        before.imm is Some,
        after.imm is None,
        after.mem == before.mem,
        after.comparator == before.comparator,
    ensures
        seen::first_seen(
            after.seen(sequence, user_key),
            seen_in_tables(
                after.comparator,
                seq![(before.imm->0).table().entries()] + tables,
                sequence,
                user_key,
            ),
        ) == seen::first_seen(
            before.seen(sequence, user_key),
            seen_in_tables(before.comparator, tables, sequence, user_key),
        ),
{
    let all = seq![(before.imm->0).table().entries()] + tables;
    assert(all.drop_first() =~= tables);
}

/// A table that is written under a new number leaves the others as they are.
proof fn lemma_others_stay<C: Comparator, P: FilterPolicy, Z: Compressor>(
    recipe: Recipe<InternalKeyComparator<C>, P, Z>,
    dbname: Seq<char>,
    files: Map<Seq<char>, Seq<u8>>,
    fresh: u64,
    image: Seq<u8>,
    number: u64,
    entries: Seq<db_iterator::Pair>,
)
    requires
        is_stored(recipe, dbname, files, number, entries),
        number != fresh,
    ensures
        is_stored(
            recipe,
            dbname,
            files.insert(filename::numbered(dbname, fresh, "ldb"@), image),
            number,
            entries,
        ),
{
    filename::law_numbered_names(dbname, number);
    filename::law_numbered_names(dbname, fresh);
}

/// The tables that are there once a database is opened again: the one that holds what was
/// recovered, if there is one, and those from before.
pub open spec fn reopened_numbers(written: Option<FileMetaData>, numbers: Seq<u64>) -> Seq<u64> {
    match written {
        None => numbers,
        Some(meta) => seq![meta.number] + numbers,
    }
}

/// Once a database is opened again its tables tell of each key the last update that was
/// logged, in all logs that were replayed, and of all other keys what the tables told
/// before. What was written is there, and what was deleted does not come back.
#[verifier::spinoff_prover]
#[verifier::rlimit(40)]
pub proof fn law_reopened_tells_all<
    C: Comparator,
    F: RandomAccessFile,
    P: FilterPolicy,
    Z: Compressor,
>(
    recipe: Recipe<InternalKeyComparator<C>, P, Z>,
    dbname: Seq<char>,
    before: Map<Seq<char>, Seq<u8>>,
    after: Map<Seq<char>, Seq<u8>>,
    log_numbers: Seq<u64>,
    last_sequence: u64,
    logs: Seq<Seq<Seq<Change>>>,
    paranoid: bool,
    given: Seq<u64>,
    latest: u64,
    written: Option<FileMetaData>,
    numbers: Seq<u64>,
    tables: Seq<Seq<db_iterator::Pair>>,
    user_key: Seq<u8>,
    verify: bool,
    unchecked: Set<u64>,
    result: status::Result<LookupResult>,
)
    requires
        recover::logs_hold(before, dbname, log_numbers, last_sequence, logs, paranoid),
        recover::logs_fit(recipe.comparator.user_order(), last_sequence, logs),
        recover::comes_out(
            recipe,
            dbname,
            wal::recovered(
                recipe.comparator.user_order(),
                before,
                dbname,
                log_numbers,
                paranoid,
                recover::nothing_recovered(last_sequence),
            ),
            before,
            after,
            given,
            Ok::<(u64, Option<FileMetaData>), status::Status>((latest, written)),
        ),
        are_stored(recipe, dbname, before, numbers, tables, user_key),
        written matches Some(meta) ==> !numbers.contains(meta.number),
        forall|entries: Seq<db_iterator::Pair>|
            db_iterator::sorted(recipe.comparator, entries) && #[trigger] db_iterator::map_of(
                entries,
            ) == seen::applied(
                Map::empty(),
                last_sequence as nat + 1,
                recover::all_logged(logs),
            ) ==> laws::fits(recipe, table_output::drafted(recipe, Draft::blank(), entries))
                && stored::is_plain_among(recipe.comparator.user_order(), entries, user_key),
        recipe.comparator.user_order().admits(user_key),
        read::tables_say::<InternalKeyComparator<C>, F, P, Z>(
            setup_of(recipe, dbname),
            after,
            reopened_numbers(written, numbers),
            stored::lookup_target(user_key, latest as nat),
            verify,
            unchecked,
            result,
        ),
    ensures
        latest == last_sequence + recover::all_logged(logs).len(),
        stored::tells(
            seen::last_said(
                recipe.comparator.user_order(),
                recover::all_logged(logs),
                user_key,
                seen_in_tables(
                    recipe.comparator.user_order(),
                    tables,
                    latest as nat,
                    user_key,
                ),
            ),
            result,
        ),
{
    let user = recipe.comparator.user_order();
    let changes = recover::all_logged(logs);
    recover::law_logs_replay(user, before, dbname, log_numbers, last_sequence, logs, paranoid);
    recover::law_logged_is_recovered(
        user,
        before,
        dbname,
        log_numbers,
        last_sequence,
        logs,
        paranoid,
        user_key,
    );
    let all = wal::recovered(
        user,
        before,
        dbname,
        log_numbers,
        paranoid,
        recover::nothing_recovered(last_sequence),
    )->Ok_0;
    let older = seen_in_tables(user, tables, latest as nat, user_key);
    match written {
        None => {
            law_tables_tell::<C, F, P, Z>(
                recipe,
                dbname,
                after,
                numbers,
                tables,
                user_key,
                latest as nat,
                verify,
                unchecked,
                result,
            );
            assert(changes.len() == 0);
        },
        Some(meta) => {
            let entries = choose|entries: Seq<db_iterator::Pair>| #[trigger]
                recover::is_written(recipe, dbname, all.contents, before, after, meta, entries);
            let image = table_output::table_image(recipe, entries);
            assert(db_iterator::map_of(entries) == seen::applied(
                Map::empty(),
                last_sequence as nat + 1,
                changes,
            ));
            assert(is_findable(recipe, entries, user_key));
            let shelf = seq![meta.number] + numbers;
            let held = seq![entries] + tables;
            assert(is_stored(recipe, dbname, after, meta.number, entries));
            assert forall|i: int| 0 <= i < shelf.len() implies is_stored(
                recipe,
                dbname,
                after,
                #[trigger] shelf[i],
                held[i],
            ) && is_findable(recipe, held[i], user_key) by {
                if i > 0 {
                    assert(shelf[i] == numbers[i - 1]);
                    assert(held[i] == tables[i - 1]);
                    assert(numbers.contains(numbers[i - 1]));
                    lemma_others_stay(
                        recipe,
                        dbname,
                        before,
                        meta.number,
                        image,
                        numbers[i - 1],
                        tables[i - 1],
                    );
                }
            }
            law_tables_tell::<C, F, P, Z>(
                recipe,
                dbname,
                after,
                shelf,
                held,
                user_key,
                latest as nat,
                verify,
                unchecked,
                result,
            );
            assert(held.drop_first() =~= tables);
            state::lemma_last_said(user, changes, user_key, Seen::Nothing, older);
        },
    }
}

} // verus!
