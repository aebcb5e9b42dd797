//! What is kept of the updates that a database took.
//!
//! A session is a stretch of a database's life on one log: each group of updates that is
//! acknowledged is in the log and in the memtable. When the database is opened again, all of
//! them are told.

use vstd::prelude::*;

use crate::comparator::Comparator;
use crate::db_impl::enter;
use crate::db_impl::read;
use crate::db_impl::recover;
use crate::db_impl::state;
use crate::db_impl::state::DBImplCore;
use crate::db_impl::stored;
use crate::db_impl::table_output;
use crate::db_impl::told;
use crate::db_impl::wal;
use crate::db_impl::write_queue;
use crate::db_iter::db_iterator;
use crate::db_iter::seen;
use crate::env::RandomAccessFile;
use crate::filename;
use crate::filter::FilterPolicy;
use crate::format::InternalKeyComparator;
use crate::log;
use crate::status;
use crate::table::draft::Draft;
use crate::table::draft::Recipe;
use crate::table::laws;
use crate::table::Compressor;
use crate::version_set::FileMetaData;
use crate::version_set::LookupResult;
use crate::write_batch;
use crate::write_batch::Change;
use crate::write_batch::WriteBatch;

verus! {

/// A database and the log of its memtable: what was written to it, and how much its last
/// block holds.
pub struct Moment<C: Comparator> {
    pub core: DBImplCore<C>,
    pub written: Seq<u8>,
    pub offset: int,
}

/// Whether the given groups were written one after the other since the log was begun: they
/// are all that is in the log, and they were all entered into the memtable.
pub open spec fn has_written<C: Comparator>(
    start: Moment<C>,
    now: Moment<C>,
    groups: Seq<Seq<Change>>,
) -> bool {
    let changes = write_queue::all_changes(groups);
    let records = wal::log_records(start.core.last_sequence as nat + 1, groups);
    &&& now.written == log::log_image(records)
    &&& now.offset == log::log_offset(records)
    &&& state::is_committed(start.core, now.core, changes)
    &&& now.core.sound()
    &&& now.core.settled()
    &&& wal::all_fit(start.core.comparator, changes)
    &&& forall|i: int| 0 <= i < groups.len() ==> (#[trigger] groups[i]).len() <= u32::MAX
}

/// Whether the writers in front held the given updates, and were acknowledged: their batches
/// were put together, logged and entered.
pub open spec fn is_acknowledged<C: Comparator>(
    before: Moment<C>,
    begun: DBImplCore<C>,
    group: (WriteBatch, usize, bool, u64),
    after: Moment<C>,
    held: Seq<Seq<Change>>,
) -> bool {
    let writers = before.core.queue.waiting();
    &&& before.core.queue.is_full()
    &&& state::is_begun(before.core, begun, group)
    &&& held.len() == group.1
    &&& forall|i: int|
        0 <= i < held.len() ==> (#[trigger] writers[i]).batch->0.holds(held[i])
    &&& forall|i: int|
        0 <= i < write_queue::all_changes(held).len() ==> (
        #[trigger] write_queue::all_changes(held)[i]).is_sized()
    &&& wal::is_logged(
        group.3,
        group.0,
        before.offset,
        before.written,
        after.offset,
        after.written,
    )
    &&& state::is_commit(
        begun,
        after.core,
        group.0,
        Ok::<(), status::Status>(()),
        false,
        Ok::<(), status::Status>(()),
    )
    &&& after.core.sound()
}

/// Whether two moments differ in who waits to write at most.
pub open spec fn only_queued<C: Comparator>(earlier: Moment<C>, later: Moment<C>) -> bool {
    &&& later.core == (DBImplCore { queue: later.core.queue, ..earlier.core })
    &&& later.written == earlier.written
    &&& later.offset == earlier.offset
}

/// Updates that could all be entered have keys that can be compared and lengths that can be
/// written down.
proof fn lemma_entered_fit<C: Comparator>(
    user: C,
    contents: Map<Seq<u8>, Seq<u8>>,
    start: nat,
    changes: Seq<Change>,
)
    requires
        enter::entered_count(user, contents, start, changes) == changes.len(),
    ensures
        wal::all_fit(user, changes),
    decreases changes.len(),
{
    if changes.len() > 0 {
        let front = changes.drop_last();
        enter::lemma_count_bound(user, contents, start, front);
        lemma_entered_fit(user, contents, start, front);
        assert forall|i: int| 0 <= i < changes.len() implies {
            &&& user.admits((#[trigger] changes[i]).key())
            &&& changes[i].key().len() + 8 < crate::coding::two_pow_32()
            &&& seen::entry_value(changes[i]).len() < crate::coding::two_pow_32()
        } by {
            if i < front.len() {
                assert(front[i] == changes[i]);
            } else {
                assert(changes[i] == changes.last());
            }
        }
    }
}

/// A group that was acknowledged was committed: the state comes of the one before by the
/// updates of its writers, in the order in which they came. The last sequence number grows by
/// their number. A writer that waits alone is the whole group.
pub proof fn law_acknowledged_is_committed<C: Comparator>(
    before: Moment<C>,
    begun: DBImplCore<C>,
    group: (WriteBatch, usize, bool, u64),
    after: Moment<C>,
    held: Seq<Seq<Change>>,
)
    requires
        is_acknowledged(before, begun, group, after, held),
    ensures
        state::is_committed(before.core, after.core, write_queue::all_changes(held)),
        after.core.last_sequence == before.core.last_sequence + write_queue::all_changes(
            held,
        ).len(),
        wal::all_fit(before.core.comparator, write_queue::all_changes(held)),
        group.0.holds(write_queue::all_changes(held)),
        before.core.queue.waiting().len() == 1 ==> held.len() == 1 && write_queue::all_changes(
            held,
        ) == held[0],
{
    let writers = before.core.queue.waiting().take(group.1 as int);
    let changes = write_queue::all_changes(held);
    assert forall|i: int| 0 <= i < writers.len() implies (#[trigger] writers[i]).batch is Some
        && writers[i].batch->0.holds(held[i]) by {
        assert(before.core.queue.waiting()[i].batch is Some);
    }
    write_queue::law_group_holds(writers, held, group.0);
    write_batch::law_batch_updates(group.0, changes);
    assert(changes.take(changes.len() as int) =~= changes);
    lemma_entered_fit(
        begun.comparator,
        enter::mem_contents(begun.mem),
        begun.last_sequence as nat + 1,
        changes,
    );
    if before.core.queue.waiting().len() == 1 {
        assert(held.drop_last() =~= Seq::empty());
        assert(write_queue::all_changes(held.drop_last()) =~= Seq::empty());
        assert(changes =~= held[0]);
    }
}

/// The records of a log of some groups and one more.
proof fn lemma_records_push(start: nat, groups: Seq<Seq<Change>>, group: Seq<Change>)
    ensures
        wal::log_records(start, groups.push(group)) == wal::log_records(start, groups).push(
            write_batch::batch_bytes(
                (start + write_queue::all_changes(groups).len()) as u64,
                group.len() as u32,
                write_batch::body_bytes(group),
            ),
        ),
        write_queue::all_changes(groups.push(group)) == write_queue::all_changes(groups) + group,
{
    let more = groups.push(group);
    assert(more.drop_last() =~= groups);
    assert forall|i: int| 0 <= i <= groups.len() implies #[trigger] more.take(i) == groups.take(
        i,
    ) by {
        assert(more.take(i) =~= groups.take(i));
    }
    assert(groups.take(groups.len() as int) =~= groups);
    assert(wal::log_records(start, more) =~= wal::log_records(start, groups).push(
        write_batch::batch_bytes(
            (start + write_queue::all_changes(groups).len()) as u64,
            group.len() as u32,
            write_batch::body_bytes(group),
        ),
    ));
}

/// A session starts with an empty log.
pub proof fn law_session_starts<C: Comparator>(start: Moment<C>)
    requires
        start.core.sound(),
        start.core.settled(),
        start.written.len() == 0,
        start.offset == 0,
    ensures
        has_written(start, start, Seq::empty()),
{
    let none = Seq::<Seq<Change>>::empty();
    log::law_log_grows(Seq::empty(), Seq::empty());
    assert(wal::log_records(start.core.last_sequence as nat + 1, none) =~= Seq::empty());
    assert(write_queue::all_changes(none) =~= Seq::empty());
    assert(start.written =~= Seq::empty());
}

/// Each group that is acknowledged is kept, behind those before it: it is in the log and in
/// the memtable.
#[verifier::spinoff_prover]
#[verifier::rlimit(40)]
pub proof fn law_acknowledged_is_kept<C: Comparator>(
    start: Moment<C>,
    now: Moment<C>,
    groups: Seq<Seq<Change>>,
    queued: Moment<C>,
    begun: DBImplCore<C>,
    group: (WriteBatch, usize, bool, u64),
    after: Moment<C>,
    held: Seq<Seq<Change>>,
)
    requires
        has_written(start, now, groups),
        only_queued(now, queued),
        is_acknowledged(queued, begun, group, after, held),
        after.core.settled(),
    ensures
        has_written(start, after, groups.push(write_queue::all_changes(held))),
{
    let changes = write_queue::all_changes(held);
    let first = start.core.last_sequence as nat + 1;
    let earlier = write_queue::all_changes(groups);
    let more = groups.push(changes);
    let records = wal::log_records(first, groups);
    law_acknowledged_is_committed(queued, begun, group, after, held);
    lemma_records_push(first, groups, changes);
    let record = write_batch::batch_bytes(
        group.3,
        group.0.counted(),
        group.0.updates_bytes(),
    );
    assert(group.3 == (first + earlier.len()) as u64);
    log::law_log_grows(records, record);
    wal::lemma_applied_join(enter::mem_contents(start.core.mem), first, earlier, changes);
    let all = earlier + changes;
    assert(wal::all_fit(start.core.comparator, all)) by {
        assert forall|i: int| 0 <= i < all.len() implies {
            &&& start.core.comparator.admits((#[trigger] all[i]).key())
            &&& all[i].key().len() + 8 < crate::coding::two_pow_32()
            &&& seen::entry_value(all[i]).len() < crate::coding::two_pow_32()
        } by {
            if i < earlier.len() {
                assert(all[i] == earlier[i]);
            } else {
                assert(all[i] == changes[i - earlier.len()]);
            }
        }
    }
    assert forall|i: int| 0 <= i < more.len() implies (#[trigger] more[i]).len() <= u32::MAX by {
        if i < groups.len() {
            assert(more[i] == groups[i]);
        }
    }
}

/// Once a write is acknowledged a lookup of the latest state tells of each key the last update
/// of the write, and of all other keys what was told before, in memory or in the tables.
pub proof fn law_write_is_told<
    C: Comparator,
    F: RandomAccessFile,
    P: FilterPolicy,
    Z: Compressor,
>(
    before: Moment<C>,
    begun: DBImplCore<C>,
    group: (WriteBatch, usize, bool, u64),
    after: Moment<C>,
    held: Seq<Seq<Change>>,
    recipe: Recipe<InternalKeyComparator<C>, P, Z>,
    dbname: Seq<char>,
    files: Map<Seq<char>, Seq<u8>>,
    numbers: Seq<u64>,
    tables: Seq<Seq<db_iterator::Pair>>,
    user_key: Seq<u8>,
    verify: bool,
    unchecked: Set<u64>,
    outcome: status::Result<Option<Vec<u8>>>,
)
    requires
        before.core.sound(),
        before.core.settled(),
        is_acknowledged(before, begun, group, after, held),
        before.core.comparator.admits(user_key),
        recipe.comparator == InternalKeyComparator::over(before.core.comparator),
        told::are_stored(recipe, dbname, files, numbers, tables, user_key),
        after.core.answers_with::<F, P, Z>(
            told::setup_of(recipe, dbname),
            files,
            numbers,
            user_key,
            after.core.last_sequence as nat,
            verify,
            unchecked,
            outcome,
        ),
    ensures
        after.core.last_sequence == before.core.last_sequence + write_queue::all_changes(
            held,
        ).len(),
        told::tells_reader(
            seen::last_said(
                before.core.comparator,
                write_queue::all_changes(held),
                user_key,
                seen::first_seen(
                    before.core.seen(before.core.last_sequence as nat, user_key),
                    told::seen_in_tables(
                        before.core.comparator,
                        tables,
                        after.core.last_sequence as nat,
                        user_key,
                    ),
                ),
            ),
            outcome,
        ),
{
    law_acknowledged_is_committed(before, begun, group, after, held);
    told::law_committed_is_told::<C, F, P, Z>(
        before.core,
        after.core,
        write_queue::all_changes(held),
        recipe,
        dbname,
        files,
        numbers,
        tables,
        user_key,
        verify,
        unchecked,
        outcome,
    );
}

/// Whether the given sessions followed each other, the first from `last_sequence` on, each
/// with the groups that it acknowledged, and their logs are in the files of the given numbers.
pub open spec fn sessions_are_logged<C: Comparator>(
    files: Map<Seq<char>, Seq<u8>>,
    dbname: Seq<char>,
    log_numbers: Seq<u64>,
    last_sequence: u64,
    starts: Seq<Moment<C>>,
    ends: Seq<Moment<C>>,
    groups: Seq<Seq<Seq<Change>>>,
) -> bool {
    &&& log_numbers.len() == groups.len()
    &&& starts.len() == groups.len()
    &&& ends.len() == groups.len()
    &&& forall|i: int|
        0 <= i < groups.len() ==> {
            let path = filename::numbered(dbname, log_numbers[i], "log"@);
            &&& has_written(#[trigger] starts[i], ends[i], groups[i])
            &&& starts[i].core.comparator == starts[0].core.comparator
            &&& starts[i].core.last_sequence == if i == 0 {
                last_sequence
            } else {
                ends[i - 1].core.last_sequence
            }
            &&& files.contains_key(path)
            &&& files[path] == ends[i].written
        }
}

/// Where a session starts and ends, by the updates of the sessions before it.
proof fn lemma_session_places<C: Comparator>(
    files: Map<Seq<char>, Seq<u8>>,
    dbname: Seq<char>,
    log_numbers: Seq<u64>,
    last_sequence: u64,
    starts: Seq<Moment<C>>,
    ends: Seq<Moment<C>>,
    groups: Seq<Seq<Seq<Change>>>,
    at: int,
)
    requires
        sessions_are_logged(files, dbname, log_numbers, last_sequence, starts, ends, groups),
        0 <= at < groups.len(),
    ensures
        starts[at].core.last_sequence == last_sequence + recover::all_logged(groups.take(at)).len(),
        ends[at].core.last_sequence == last_sequence + recover::all_logged(
            groups.take(at + 1),
        ).len(),
        wal::all_fit(starts[0].core.comparator, recover::all_logged(groups.take(at + 1))),
    decreases at,
{
    let user = starts[0].core.comparator;
    let head = groups.take(at + 1);
    assert(head.drop_last() =~= groups.take(at));
    assert(head.last() == groups[at]);
    assert(has_written(starts[at], ends[at], groups[at]));
    if at > 0 {
        lemma_session_places(
            files,
            dbname,
            log_numbers,
            last_sequence,
            starts,
            ends,
            groups,
            at - 1,
        );
    } else {
        assert(groups.take(0) =~= Seq::empty());
        assert(recover::all_logged(groups.take(0)) =~= Seq::empty());
    }
    let earlier = recover::all_logged(groups.take(at));
    let changes = write_queue::all_changes(groups[at]);
    let all = recover::all_logged(head);
    assert(all == earlier + changes);
    assert forall|i: int| 0 <= i < all.len() implies {
        &&& user.admits((#[trigger] all[i]).key())
        &&& all[i].key().len() + 8 < crate::coding::two_pow_32()
        &&& seen::entry_value(all[i]).len() < crate::coding::two_pow_32()
    } by {
        if i < earlier.len() {
            assert(all[i] == earlier[i]);
        } else {
            assert(all[i] == changes[i - earlier.len()]);
        }
    }
}

/// The logs of sessions hold all groups that were acknowledged, and can be replayed.
pub proof fn law_sessions_are_replayed<C: Comparator>(
    files: Map<Seq<char>, Seq<u8>>,
    dbname: Seq<char>,
    log_numbers: Seq<u64>,
    last_sequence: u64,
    starts: Seq<Moment<C>>,
    ends: Seq<Moment<C>>,
    groups: Seq<Seq<Seq<Change>>>,
    user: C,
    paranoid: bool,
)
    requires
        sessions_are_logged(files, dbname, log_numbers, last_sequence, starts, ends, groups),
        groups.len() > 0 ==> starts[0].core.comparator == user,
        last_sequence <= crate::format::MAX_SEQUENCE_NUMBER,
        recover::all_logged(groups).len() + 2 < usize::MAX,
    ensures
        recover::logs_hold(files, dbname, log_numbers, last_sequence, groups, paranoid),
        recover::logs_fit(user, last_sequence, groups),
{
    assert forall|i: int| 0 <= i < log_numbers.len() implies {
        let path = filename::numbered(dbname, #[trigger] log_numbers[i], "log"@);
        &&& files.contains_key(path)
        &&& log::is_log_of(
            files[path],
            wal::log_records(
                last_sequence as nat + 1 + recover::all_logged(groups.take(i)).len(),
                groups[i],
            ),
            paranoid,
        )
    } by {
        assert(has_written(starts[i], ends[i], groups[i]));
        lemma_session_places(
            files,
            dbname,
            log_numbers,
            last_sequence,
            starts,
            ends,
            groups,
            i,
        );
        log::law_whole_log(
            wal::log_records(
                last_sequence as nat + 1 + recover::all_logged(groups.take(i)).len(),
                groups[i],
            ),
            paranoid,
        );
    }
    assert forall|i: int, j: int| 0 <= i < groups.len() && 0 <= j < groups[i].len() implies (
    #[trigger] groups[i][j]).len() <= u32::MAX by {
        assert(has_written(starts[i], ends[i], groups[i]));
    }
    if groups.len() > 0 {
        let last = groups.len() - 1;
        lemma_session_places(
            files,
            dbname,
            log_numbers,
            last_sequence,
            starts,
            ends,
            groups,
            last,
        );
        assert(groups.take(last + 1) =~= groups);
        assert(has_written(starts[last], ends[last], groups[last]));
    } else {
        assert(recover::all_logged(groups) =~= Seq::empty());
    }
}

/// Once a database is opened again it tells of each key the last update that was acknowledged,
/// in all sessions whose logs are there, and of all other keys what its tables told before.
/// What was written is there, and what was deleted does not come back.
pub proof fn law_acknowledged_is_told_again<
    C: Comparator,
    F: RandomAccessFile,
    P: FilterPolicy,
    Z: Compressor,
>(
    recipe: Recipe<InternalKeyComparator<C>, P, Z>,
    dbname: Seq<char>,
    before: Map<Seq<char>, Seq<u8>>,
    after: Map<Seq<char>, Seq<u8>>,
    log_numbers: Seq<u64>,
    last_sequence: u64,
    starts: Seq<Moment<C>>,
    ends: Seq<Moment<C>>,
    groups: Seq<Seq<Seq<Change>>>,
    paranoid: bool,
    given: Seq<u64>,
    latest: u64,
    written: Option<FileMetaData>,
    numbers: Seq<u64>,
    tables: Seq<Seq<db_iterator::Pair>>,
    user_key: Seq<u8>,
    verify: bool,
    unchecked: Set<u64>,
    result: status::Result<LookupResult>,
)
    requires
        sessions_are_logged(before, dbname, log_numbers, last_sequence, starts, ends, groups),
        groups.len() > 0 ==> starts[0].core.comparator == recipe.comparator.user_order(),
        last_sequence <= crate::format::MAX_SEQUENCE_NUMBER,
        recover::all_logged(groups).len() + 2 < usize::MAX,
        recover::comes_out(
            recipe,
            dbname,
            wal::recovered(
                recipe.comparator.user_order(),
                before,
                dbname,
                log_numbers,
                paranoid,
                recover::nothing_recovered(last_sequence),
            ),
            before,
            after,
            given,
            Ok::<(u64, Option<FileMetaData>), status::Status>((latest, written)),
        ),
        told::are_stored(recipe, dbname, before, numbers, tables, user_key),
        written matches Some(meta) ==> !numbers.contains(meta.number),
        forall|entries: Seq<db_iterator::Pair>|
            db_iterator::sorted(recipe.comparator, entries) && #[trigger] db_iterator::map_of(
                entries,
            ) == seen::applied(
                Map::empty(),
                last_sequence as nat + 1,
                recover::all_logged(groups),
            ) ==> laws::fits(recipe, table_output::drafted(recipe, Draft::blank(), entries))
                && stored::is_plain_among(recipe.comparator.user_order(), entries, user_key),
        recipe.comparator.user_order().admits(user_key),
        read::tables_say::<InternalKeyComparator<C>, F, P, Z>(
            told::setup_of(recipe, dbname),
            after,
            told::reopened_numbers(written, numbers),
            stored::lookup_target(user_key, latest as nat),
            verify,
            unchecked,
            result,
        ),
    ensures
        latest == last_sequence + recover::all_logged(groups).len(),
        stored::tells(
            seen::last_said(
                recipe.comparator.user_order(),
                recover::all_logged(groups),
                user_key,
                told::seen_in_tables(
                    recipe.comparator.user_order(),
                    tables,
                    latest as nat,
                    user_key,
                ),
            ),
            result,
        ),
{
    law_sessions_are_replayed(
        before,
        dbname,
        log_numbers,
        last_sequence,
        starts,
        ends,
        groups,
        recipe.comparator.user_order(),
        paranoid,
    );
    told::law_reopened_tells_all::<C, F, P, Z>(
        recipe,
        dbname,
        before,
        after,
        log_numbers,
        last_sequence,
        groups,
        paranoid,
        given,
        latest,
        written,
        numbers,
        tables,
        user_key,
        verify,
        unchecked,
        result,
    );
}

} // verus!
