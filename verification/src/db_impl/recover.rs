//! Bringing back what the logs of a database hold.
//!
//! When a database is opened the logs that its tables do not cover are replayed into a
//! memtable, which is then written to a table.

use vstd::prelude::*;

use crate::comparator;
use crate::comparator::Comparator;
use crate::db_impl::enter;
use crate::db_impl::flush;
use crate::db_impl::numbers;
use crate::db_impl::outputs;
use crate::db_impl::outputs::FileNumbers;
use crate::db_impl::outputs::OutputSettings;
use crate::db_impl::recovery;
use crate::db_impl::recovery_laws;
use crate::db_impl::table_output;
use crate::db_impl::wal;
use crate::db_impl::wal::Recovered;
use crate::db_impl::wal::Replay;
use crate::db_impl::write_queue;
use crate::db_iter::db_iterator;
use crate::db_iter::seen;
use crate::db_iter::seen::Seen;
use crate::db_iter::user_view;
use crate::env;
use crate::env::Env;
use crate::filename;
use crate::filename::FileType;
use crate::filter::FilterPolicy;
use crate::format::InternalKeyComparator;
use crate::log;
use crate::memtable::SharedMemTable;
use crate::status;
use crate::table::draft;
use crate::table::draft::Draft;
use crate::table::draft::Recipe;
use crate::table::table_builder;
use crate::table::Compressor;
use crate::version_set::FileMetaData;
use crate::write_batch::Change;

verus! {

/// Whether these are the logs that are replayed, oldest first, given the entries of the
/// directory.
pub open spec fn are_logs(names: Seq<Seq<char>>, min_log: u64, prev_log: u64, logs: Seq<u64>) -> bool {
    &&& numbers::not_falling(logs)
    &&& logs.to_multiset() == recovery::numbers_of(names, FileType::LogFile).filter(
        |number: u64| recovery::is_replayed(number, min_log, prev_log),
    ).to_multiset()
}

/// Whether these are the entries of a directory: all that lies in it, and nothing that
/// does not.
pub open spec fn is_listing(
    files: Map<Seq<char>, Seq<u8>>,
    dir: Seq<char>,
    names: Seq<Seq<char>>,
) -> bool {
    &&& forall|child: Seq<char>|
        env::is_child(files, dir, child) ==> #[trigger] names.contains(child)
    &&& forall|i: int|
        0 <= i < names.len() ==> env::child_towards(#[trigger] names[i], dir) == Some(names[i])
}

/// What a recovery starts with.
pub open spec fn nothing_recovered(last_sequence: u64) -> Recovered {
    Recovered { contents: Map::empty(), held: 0, last_sequence }
}

/// Whether a table was written that holds some entries in order.
pub open spec fn is_written<C: Comparator, P: FilterPolicy, Z: Compressor>(
    recipe: Recipe<InternalKeyComparator<C>, P, Z>,
    dbname: Seq<char>,
    contents: Map<Seq<u8>, Seq<u8>>,
    before: Map<Seq<char>, Seq<u8>>,
    after: Map<Seq<char>, Seq<u8>>,
    meta: FileMetaData,
    entries: Seq<db_iterator::Pair>,
) -> bool {
    let image = table_output::table_image(recipe, entries);
    &&& db_iterator::sorted(recipe.comparator, entries)
    &&& db_iterator::map_of(entries) == contents
    &&& after == before.insert(filename::numbered(dbname, meta.number, "ldb"@), image)
    &&& draft::finished_well(recipe, table_output::drafted(recipe, Draft::blank(), entries))
    &&& table_output::describes(meta, meta.number, image, entries)
}

/// Whether a table was written that holds what was recovered.
pub open spec fn holds_recovered<C: Comparator, P: FilterPolicy, Z: Compressor>(
    recipe: Recipe<InternalKeyComparator<C>, P, Z>,
    dbname: Seq<char>,
    contents: Map<Seq<u8>, Seq<u8>>,
    before: Map<Seq<char>, Seq<u8>>,
    after: Map<Seq<char>, Seq<u8>>,
    meta: FileMetaData,
) -> bool {
    exists|entries: Seq<db_iterator::Pair>| #[trigger]
        is_written(recipe, dbname, contents, before, after, meta, entries)
}

/// Whether a recovery comes out like this, given what the logs hold.
pub open spec fn comes_out<C: Comparator, P: FilterPolicy, Z: Compressor>(
    recipe: Recipe<InternalKeyComparator<C>, P, Z>,
    dbname: Seq<char>,
    replayed: Result<Recovered, Option<Seq<char>>>,
    before: Map<Seq<char>, Seq<u8>>,
    after: Map<Seq<char>, Seq<u8>>,
    given: Seq<u64>,
    outcome: status::Result<(u64, Option<FileMetaData>)>,
) -> bool {
    match replayed {
        Err(fault) => (outcome matches Err(error) && wal::says_fault(error, fault)) && after
            == before && given.len() == 0,
        Ok(all) => match outcome {
            Ok((sequence, None)) => sequence == all.last_sequence && all.held == 0 && after
                == before && given.len() == 0,
            Ok((sequence, Some(meta))) => sequence == all.last_sequence && all.held > 0 && given
                == seq![meta.number] && holds_recovered(
                recipe,
                dbname,
                all.contents,
                before,
                after,
                meta,
            ),
            Err(_) => all.held >= u64::MAX,
        },
    }
}

/// Whether a recovery comes out like this, given the files of the database.
pub open spec fn recovers<C: Comparator, P: FilterPolicy, Z: Compressor>(
    recipe: Recipe<InternalKeyComparator<C>, P, Z>,
    dbname: Seq<char>,
    min_log: u64,
    prev_log: u64,
    last_sequence: u64,
    paranoid: bool,
    before: Map<Seq<char>, Seq<u8>>,
    after: Map<Seq<char>, Seq<u8>>,
    given: Seq<u64>,
    outcome: status::Result<(u64, Option<FileMetaData>)>,
) -> bool {
    exists|names: Seq<Seq<char>>, logs: Seq<u64>|
        is_listing(before, dbname, names) && #[trigger] are_logs(names, min_log, prev_log, logs)
            && comes_out(
            recipe,
            dbname,
            wal::recovered(
                recipe.comparator.user_order(),
                before,
                dbname,
                logs,
                paranoid,
                nothing_recovered(last_sequence),
            ),
            before,
            after,
            given,
            outcome,
        )
}

/// Whether a recovery comes out like this, given the files of the database, wherever reading
/// the logs ended.
pub open spec fn recovers_upto<C: Comparator, P: FilterPolicy, Z: Compressor>(
    recipe: Recipe<InternalKeyComparator<C>, P, Z>,
    dbname: Seq<char>,
    min_log: u64,
    prev_log: u64,
    last_sequence: u64,
    before: Map<Seq<char>, Seq<u8>>,
    after: Map<Seq<char>, Seq<u8>>,
    given: Seq<u64>,
    outcome: status::Result<(u64, Option<FileMetaData>)>,
) -> bool {
    exists|names: Seq<Seq<char>>, logs: Seq<u64>, all: Recovered|
        is_listing(before, dbname, names) && #[trigger] are_logs(names, min_log, prev_log, logs)
            && #[trigger] wal::is_recovered_upto(
            recipe.comparator.user_order(),
            before,
            dbname,
            logs,
            nothing_recovered(last_sequence),
            all,
        ) && comes_out(
            recipe,
            dbname,
            Ok::<Recovered, Option<Seq<char>>>(all),
            before,
            after,
            given,
            outcome,
        )
}

/// Replays the logs of a database that are not older than `min_log`, and the one of
/// `prev_log`. What they hold is written to a table. Returns the greatest sequence
/// number, of `last_sequence` and of all logs, and what is known of the table, if there
/// is one.
pub fn recover<E: Env, C: Comparator, P: FilterPolicy, Z: Compressor, N: FileNumbers>(
    env: &mut E,
    dbname: &str,
    comparator: &C,
    min_log: u64,
    prev_log: u64,
    last_sequence: u64,
    paranoid: bool,
    settings: &OutputSettings<P, Z>,
    numbers: &mut N,
) -> (outcome: status::Result<(u64, Option<FileMetaData>)>)
    requires
        old(env).wf(),
        settings.restart_interval >= 1,
    ensures
        final(env).wf(),
        final(env).locks() == old(env).locks(),
        final(env).reliable() == old(env).reliable(),
        old(numbers).handed_out().is_prefix_of(final(numbers).handed_out()),
        outcome is Err ==> outputs::agree_but_tables(
            old(env).files(),
            final(env).files(),
            dbname@,
            final(numbers).handed_out().skip(old(numbers).handed_out().len() as int),
        ),
        old(env).reliable() || (paranoid && outcome is Ok) ==> recovers(
            settings.recipe(InternalKeyComparator::over(*comparator)),
            dbname@,
            min_log,
            prev_log,
            last_sequence,
            paranoid,
            old(env).files(),
            final(env).files(),
            final(numbers).handed_out().skip(old(numbers).handed_out().len() as int),
            outcome,
        ),
        !paranoid && outcome is Ok ==> recovers_upto(
            settings.recipe(InternalKeyComparator::over(*comparator)),
            dbname@,
            min_log,
            prev_log,
            last_sequence,
            old(env).files(),
            final(env).files(),
            final(numbers).handed_out().skip(old(numbers).handed_out().len() as int),
            outcome,
        ),
{
    let ghost recipe = settings.recipe(InternalKeyComparator::over(*comparator));
    let ghost held = numbers.handed_out();
    proof {
        assert(held.skip(held.len() as int) =~= Seq::<u64>::empty());
        InternalKeyComparator::<C>::lemma_over(*comparator);
    }
    let names = match env.list_dir(dbname) {
        Err(error) => {
            return Err(error);
        },
        Ok(names) => names,
    };
    let logs = recovery::logs_to_replay(&names, min_log, prev_log);
    let mut mem = SharedMemTable::new(comparator::copy_of(comparator));
    let ghost empty = mem;
    proof {
        mem.table().order().lemma_is_over();
        assert(enter::mem_contents(mem) =~= Map::<Seq<u8>, Seq<u8>>::empty());
        assert(wal::recovered_as(mem, last_sequence) == nothing_recovered(last_sequence));
        assert(is_listing(env.files(), dbname@, env::texts(names@))) by {
            assert forall|i: int| 0 <= i < env::texts(names@).len() implies env::child_towards(
                #[trigger] env::texts(names@)[i],
                dbname@,
            ) == Some(env::texts(names@)[i]) by {
                assert(names@[i]@ == env::texts(names@)[i]);
            }
        }
        assert(are_logs(env::texts(names@), min_log, prev_log, logs@));
    }
    let last: u64 = match wal::replay_logs(env, dbname, &logs, &mut mem, last_sequence, paranoid) {
        Err(error) => {
            return Err(error);
        },
        Ok(last) => last,
    };
    if mem.len() == 0 {
        return Ok((last, None));
    }
    let number: u64 = numbers.new_file_number();
    proof {
        mem.table().lemma_sorted();
        assert(numbers.handed_out().skip(held.len() as int) =~= seq![number]);
    }
    let flushed = flush::flush_memtable(
        env,
        dbname,
        number,
        &mem,
        settings.block_size,
        settings.restart_interval,
        table_builder::share_option(&settings.filter_policy),
        table_builder::share_option(&settings.compressor),
    );
    match flushed {
        Err(error) => {
            proof {
                assert forall|path: Seq<char>|
                    !outputs::is_table_of(dbname@, seq![number], path) implies #[trigger] old(
                    env,
                ).files().contains_key(path) == env.files().contains_key(path) && old(
                    env,
                ).files()[path] == env.files()[path] by {
                    assert(seq![number][0] == number);
                }
            }
            Err(error)
        },
        Ok(made) => {
            proof {
                let meta = made->0;
                assert(is_written(
                    recipe,
                    dbname@,
                    enter::mem_contents(mem),
                    old(env).files(),
                    env.files(),
                    meta,
                    mem.table().entries(),
                ));
            }
            Ok((last, made))
        },
    }
}

/// The updates of some logs, one after the other.
pub open spec fn all_logged(logs: Seq<Seq<Seq<Change>>>) -> Seq<Change>
    decreases logs.len(),
{
    if logs.len() == 0 {
        Seq::empty()
    } else {
        all_logged(logs.drop_last()) + write_queue::all_changes(logs.last())
    }
}

/// Whether the logs of some numbers hold some groups each, numbered on from `last_sequence`.
/// Unless it is paranoid, the replay does not mind a record behind them that was not written
/// to its end.
pub open spec fn logs_hold(
    files: Map<Seq<char>, Seq<u8>>,
    dbname: Seq<char>,
    numbers: Seq<u64>,
    last_sequence: u64,
    logs: Seq<Seq<Seq<Change>>>,
    paranoid: bool,
) -> bool {
    &&& numbers.len() == logs.len()
    &&& forall|i: int|
        0 <= i < numbers.len() ==> {
            let path = filename::numbered(dbname, #[trigger] numbers[i], "log"@);
            &&& files.contains_key(path)
            &&& log::is_log_of(
                files[path],
                wal::log_records(last_sequence as nat + 1 + all_logged(logs.take(i)).len(), logs[i]),
                paranoid,
            )
        }
}

/// Whether what some logs hold can be replayed: the keys can be compared, and there are not
/// more updates than can be counted.
pub open spec fn logs_fit<C: Comparator>(
    user: C,
    last_sequence: u64,
    logs: Seq<Seq<Seq<Change>>>,
) -> bool {
    let changes = all_logged(logs);
    &&& last_sequence + changes.len() <= crate::format::MAX_SEQUENCE_NUMBER
    &&& wal::all_fit(user, changes)
    &&& changes.len() + 2 < usize::MAX
    &&& forall|i: int, j: int|
        0 <= i < logs.len() && 0 <= j < logs[i].len() ==> (#[trigger] logs[i][j]).len() <= u32::MAX
}

/// A replay of several logs enters all their updates, in the order and under the sequence
/// numbers under which they were written.
pub proof fn law_logs_replay<C: Comparator>(
    user: C,
    files: Map<Seq<char>, Seq<u8>>,
    dbname: Seq<char>,
    numbers: Seq<u64>,
    last_sequence: u64,
    logs: Seq<Seq<Seq<Change>>>,
    paranoid: bool,
)
    requires
        logs_hold(files, dbname, numbers, last_sequence, logs, paranoid),
        logs_fit(user, last_sequence, logs),
    ensures
        ({
            let changes = all_logged(logs);
            let all = wal::recovered(
                user,
                files,
                dbname,
                numbers,
                paranoid,
                nothing_recovered(last_sequence),
            );
            &&& all is Ok
            &&& all->Ok_0.last_sequence == last_sequence + changes.len()
            &&& all->Ok_0.held == changes.len()
            &&& all->Ok_0.contents == seen::applied(
                Map::empty(),
                last_sequence as nat + 1,
                changes,
            )
            &&& seen::contents_sound(user, all->Ok_0.contents)
        }),
    decreases logs.len(),
{
    let empty = Map::<Seq<u8>, Seq<u8>>::empty();
    let start = last_sequence as nat + 1;
    let changes = all_logged(logs);
    assert(seen::contents_sound(user, empty));
    assert(seen::all_below(empty, start));
    assert(seen::all_admitted(user, changes)) by {
        assert forall|i: int| 0 <= i < changes.len() implies user.admits(
            (#[trigger] changes[i]).key(),
        ) by {}
    }
    seen::lemma_applied(user, empty, start, changes);
    if logs.len() > 0 {
        let front = logs.drop_last();
        let groups = logs.last();
        let last = logs.len() - 1;
        let first = all_logged(front);
        let more = write_queue::all_changes(groups);
        assert(changes == first + more);
        assert forall|i: int| 0 <= i < first.len() implies {
            &&& user.admits((#[trigger] first[i]).key())
            &&& first[i].key().len() + 8 < crate::coding::two_pow_32()
            &&& seen::entry_value(first[i]).len() < crate::coding::two_pow_32()
        } by {
            assert(changes[i] == first[i]);
        }
        assert forall|i: int| 0 <= i < more.len() implies {
            &&& user.admits((#[trigger] more[i]).key())
            &&& more[i].key().len() + 8 < crate::coding::two_pow_32()
            &&& seen::entry_value(more[i]).len() < crate::coding::two_pow_32()
        } by {
            assert(changes[first.len() + i] == more[i]);
        }
        assert forall|i: int, j: int|
            0 <= i < front.len() && 0 <= j < front[i].len() implies (
        #[trigger] front[i][j]).len() <= u32::MAX by {
            assert(logs[i][j].len() <= u32::MAX);
        }
        let held = numbers.drop_last();
        assert forall|i: int| 0 <= i < held.len() implies {
            let path = filename::numbered(dbname, #[trigger] held[i], "log"@);
            &&& files.contains_key(path)
            &&& log::is_log_of(
                files[path],
                wal::log_records(start + all_logged(front.take(i)).len(), front[i]),
                paranoid,
            )
        } by {
            assert(held[i] == numbers[i]);
            assert(front.take(i) =~= logs.take(i));
        }
        law_logs_replay(user, files, dbname, held, last_sequence, front, paranoid);
        let so_far = wal::recovered(
            user,
            files,
            dbname,
            held,
            paranoid,
            nothing_recovered(last_sequence),
        )->Ok_0;
        assert(numbers.last() == numbers[last]);
        assert(logs.take(last) =~= front);
        assert forall|j: int| 0 <= j < groups.len() implies (#[trigger] groups[j]).len()
            <= u32::MAX by {
            assert(logs[last][j].len() <= u32::MAX);
        }
        assert(seen::all_admitted(user, first)) by {
            assert forall|i: int| 0 <= i < first.len() implies user.admits(
                (#[trigger] first[i]).key(),
            ) by {}
        }
        seen::lemma_applied(user, empty, start, first);
        wal::law_log_replays(
            user,
            Replay { contents: so_far.contents, held: so_far.held, max_sequence: 0, bytes: 0 },
            start + first.len(),
            groups,
            files[filename::numbered(dbname, numbers.last(), "log"@)],
            paranoid,
        );
        wal::lemma_applied_join(empty, start, first, more);
        if groups.len() == 0 {
            assert(more =~= Seq::<Change>::empty());
        }
    } else {
        assert(changes =~= Seq::<Change>::empty());
    }
}

/// What was logged before a database was closed is seen once it is opened again: of each
/// key the last update in all logs.
pub proof fn law_logged_is_recovered<C: Comparator>(
    user: C,
    files: Map<Seq<char>, Seq<u8>>,
    dbname: Seq<char>,
    numbers: Seq<u64>,
    last_sequence: u64,
    logs: Seq<Seq<Seq<Change>>>,
    paranoid: bool,
    user_key: Seq<u8>,
)
    requires
        logs_hold(files, dbname, numbers, last_sequence, logs, paranoid),
        logs_fit(user, last_sequence, logs),
        user.admits(user_key),
    ensures
        ({
            let all = wal::recovered(
                user,
                files,
                dbname,
                numbers,
                paranoid,
                nothing_recovered(last_sequence),
            );
            let changes = all_logged(logs);
            &&& all is Ok
            &&& all->Ok_0.last_sequence == last_sequence + changes.len()
            &&& seen::seen_at(
                user,
                all->Ok_0.contents,
                all->Ok_0.last_sequence as nat,
                user_key,
            ) == seen::last_said(user, changes, user_key, Seen::Nothing)
        }),
{
    let changes = all_logged(logs);
    let empty = Map::<Seq<u8>, Seq<u8>>::empty();
    let latest = (last_sequence + changes.len()) as nat;
    law_logs_replay(user, files, dbname, numbers, last_sequence, logs, paranoid);
    assert(seen::contents_sound(user, empty));
    assert(seen::all_admitted(user, changes)) by {
        assert forall|i: int| 0 <= i < changes.len() implies user.admits(
            (#[trigger] changes[i]).key(),
        ) by {}
    }
    seen::law_batch_is_seen(user, empty, last_sequence as nat + 1, changes, latest, user_key);
    assert(seen::seen_at(user, empty, latest, user_key) is Nothing) by {
        if exists|key: Seq<u8>| seen::answers(user, empty, latest, user_key, key) {
            let key = choose|key: Seq<u8>| seen::answers(user, empty, latest, user_key, key);
            assert(user_view::visible(empty, latest, key));
        }
    }
}

/// A recovery brings back all that was logged: the sequence numbers go on from where the logs
/// end, and a table is written that holds every update, unless there is none. No other file
/// is changed.
pub proof fn law_recovery_stores_all<C: Comparator, P: FilterPolicy, Z: Compressor>(
    recipe: Recipe<InternalKeyComparator<C>, P, Z>,
    dbname: Seq<char>,
    numbers: Seq<u64>,
    last_sequence: u64,
    logs: Seq<Seq<Seq<Change>>>,
    paranoid: bool,
    before: Map<Seq<char>, Seq<u8>>,
    after: Map<Seq<char>, Seq<u8>>,
    given: Seq<u64>,
    outcome: status::Result<(u64, Option<FileMetaData>)>,
)
    requires
        logs_hold(before, dbname, numbers, last_sequence, logs, paranoid),
        logs_fit(recipe.comparator.user_order(), last_sequence, logs),
        comes_out(
            recipe,
            dbname,
            wal::recovered(
                recipe.comparator.user_order(),
                before,
                dbname,
                numbers,
                paranoid,
                nothing_recovered(last_sequence),
            ),
            before,
            after,
            given,
            outcome,
        ),
    ensures
        ({
            let changes = all_logged(logs);
            &&& outcome is Ok
            &&& outcome->Ok_0.0 == last_sequence + changes.len()
            &&& changes.len() == 0 ==> outcome->Ok_0.1 is None && after == before
            &&& changes.len() > 0 ==> (outcome->Ok_0.1 matches Some(meta) && given
                == seq![meta.number] && exists|entries: Seq<db_iterator::Pair>|
                {
                    let path = filename::numbered(dbname, meta.number, "ldb"@);
                    &&& #[trigger] db_iterator::map_of(entries) == seen::applied(
                        Map::empty(),
                        last_sequence as nat + 1,
                        changes,
                    )
                    &&& db_iterator::sorted(recipe.comparator, entries)
                    &&& after == before.insert(path, table_output::table_image(recipe, entries))
                    &&& meta.file_size == after[path].len()
                    &&& meta.smallest@ == entries[0].0
                    &&& meta.largest@ == entries[entries.len() - 1].0
                })
        }),
{
    let user = recipe.comparator.user_order();
    let changes = all_logged(logs);
    law_logs_replay(user, before, dbname, numbers, last_sequence, logs, paranoid);
    let all = wal::recovered(
        user,
        before,
        dbname,
        numbers,
        paranoid,
        nothing_recovered(last_sequence),
    )->Ok_0;
    if changes.len() > 0 {
        let meta = outcome->Ok_0.1->0;
        let entries = choose|entries: Seq<db_iterator::Pair>| #[trigger]
            is_written(recipe, dbname, all.contents, before, after, meta, entries);
        assert(db_iterator::map_of(entries) == all.contents);
    }
}

/// A recovery goes by what lies in the directory: it replays the logs that are needed, oldest
/// first, and none that is not needed.
pub proof fn law_recovery_replays_needed_logs<C: Comparator, P: FilterPolicy, Z: Compressor>(
    recipe: Recipe<InternalKeyComparator<C>, P, Z>,
    dbname: Seq<char>,
    min_log: u64,
    prev_log: u64,
    last_sequence: u64,
    paranoid: bool,
    before: Map<Seq<char>, Seq<u8>>,
    after: Map<Seq<char>, Seq<u8>>,
    given: Seq<u64>,
    outcome: status::Result<(u64, Option<FileMetaData>)>,
)
    requires
        recovers(
            recipe,
            dbname,
            min_log,
            prev_log,
            last_sequence,
            paranoid,
            before,
            after,
            given,
            outcome,
        ),
    ensures
        exists|numbers: Seq<u64>|
            {
                &&& forall|i: int, j: int| 0 <= i < j < numbers.len() ==> numbers[i] <= numbers[j]
                &&& forall|number: u64|
                    numbers.contains(number) ==> number >= min_log || number == prev_log
                &&& forall|number: u64|
                    (number >= min_log || number == prev_log) && has_log(before, dbname, number)
                        ==> numbers.contains(number)
                &&& comes_out(
                    recipe,
                    dbname,
                    #[trigger] wal::recovered(
                        recipe.comparator.user_order(),
                        before,
                        dbname,
                        numbers,
                        paranoid,
                        nothing_recovered(last_sequence),
                    ),
                    before,
                    after,
                    given,
                    outcome,
                )
            },
{
    let (names, numbers) = choose|names: Seq<Seq<char>>, logs: Seq<u64>|
        is_listing(before, dbname, names) && #[trigger] are_logs(names, min_log, prev_log, logs)
            && comes_out(
            recipe,
            dbname,
            wal::recovered(
                recipe.comparator.user_order(),
                before,
                dbname,
                logs,
                paranoid,
                nothing_recovered(last_sequence),
            ),
            before,
            after,
            given,
            outcome,
        );
    assert forall|number: u64| numbers.contains(number) implies number >= min_log || number
        == prev_log by {
        recovery_laws::law_needed_logs_are_replayed(names, min_log, prev_log, numbers, number);
    }
    assert forall|number: u64|
        (number >= min_log || number == prev_log) && has_log(
            before,
            dbname,
            number,
        ) implies numbers.contains(number) by {
        recovery_laws::law_needed_logs_are_replayed(names, min_log, prev_log, numbers, number);
        let child = choose|child: Seq<char>|
            env::is_child(before, dbname, child) && #[trigger] recovery_laws::is_named(
                child,
                FileType::LogFile,
                number,
            );
        assert(names.contains(child));
        let i = choose|i: int| 0 <= i < names.len() && names[i] == child;
        assert(recovery_laws::is_named(names[i], FileType::LogFile, number));
    }
    if numbers.len() >= 2 {
        recovery_laws::law_needed_logs_are_replayed(names, min_log, prev_log, numbers, 0);
    }
}

/// Whether the directory has an entry that is named as the log of a number.
pub open spec fn has_log(
    files: Map<Seq<char>, Seq<u8>>,
    dbname: Seq<char>,
    number: u64,
) -> bool {
    exists|child: Seq<char>|
        env::is_child(files, dbname, child) && #[trigger] recovery_laws::is_named(
            child,
            FileType::LogFile,
            number,
        )
}

} // verus!
