//! What a replay does with a damaged log.

use vstd::prelude::*;

use crate::comparator::Comparator;
use crate::db_impl::wal;
use crate::db_impl::wal::Recovered;
use crate::db_impl::wal::Replay;
use crate::db_impl::write_queue;
use crate::db_iter::seen;
use crate::filename;
use crate::log;
use crate::log::Logical;
use crate::write_batch;
use crate::write_batch::Change;

verus! {

/// Whether a log starts with some groups that can all be replayed on top of some entries.
pub open spec fn starts_with<C: Comparator>(
    user: C,
    before: Replay,
    start: nat,
    groups: Seq<Seq<Change>>,
    bytes: Seq<u8>,
) -> bool {
    &&& log::log_image(wal::log_records(start, groups)).is_prefix_of(bytes)
    &&& seen::contents_sound(user, before.contents)
    &&& seen::all_below(before.contents, start)
    &&& start + write_queue::all_changes(groups).len() <= crate::format::MAX_SEQUENCE_NUMBER + 1
    &&& wal::all_fit(user, write_queue::all_changes(groups))
    &&& forall|i: int| 0 <= i < groups.len() ==> (#[trigger] groups[i]).len() <= u32::MAX
    &&& before.held + write_queue::all_changes(groups).len() + 2 < usize::MAX
}

/// Where the groups that a log starts with end.
pub open spec fn end_of(start: nat, groups: Seq<Seq<Change>>) -> int {
    log::log_image(wal::log_records(start, groups)).len() as int
}

proof fn lemma_reaches_end<C: Comparator>(
    user: C,
    before: Replay,
    start: nat,
    groups: Seq<Seq<Change>>,
    bytes: Seq<u8>,
    paranoid: bool,
    index: int,
    state: Replay,
) -> (done: Replay)
    requires
        starts_with(user, before, start, groups, bytes),
        0 <= index <= groups.len(),
        state.contents == seen::applied(
            before.contents,
            start,
            write_queue::all_changes(groups.take(index)),
        ),
        state.held == before.held + write_queue::all_changes(groups.take(index)).len(),
    ensures
        wal::replay_log(
            user,
            bytes,
            log::log_image(wal::log_records(start, groups).take(index)).len() as int,
            paranoid,
            state,
        ) == wal::replay_log(user, bytes, end_of(start, groups), paranoid, done),
        done.contents == seen::applied(
            before.contents,
            start,
            write_queue::all_changes(groups),
        ),
        done.held == before.held + write_queue::all_changes(groups).len(),
    decreases groups.len() - index,
{
    let records = wal::log_records(start, groups);
    if index == groups.len() {
        assert(records.take(index) =~= records);
        assert(groups.take(index) =~= groups);
        state
    } else {
        wal::lemma_record_replays(
            user,
            before.contents,
            before.held,
            start,
            groups,
            bytes,
            index,
            state,
        );
        let next_state = wal::replay_record(user, state, records[index]).0;
        lemma_reaches_end(user, before, start, groups, bytes, paranoid, index + 1, next_state)
    }
}

proof fn lemma_from_start<C: Comparator>(
    user: C,
    before: Replay,
    start: nat,
    groups: Seq<Seq<Change>>,
    bytes: Seq<u8>,
    paranoid: bool,
) -> (done: Replay)
    requires
        starts_with(user, before, start, groups, bytes),
    ensures
        wal::replay_log(user, bytes, 0, paranoid, before) == wal::replay_log(
            user,
            bytes,
            end_of(start, groups),
            paranoid,
            done,
        ),
        done.contents == seen::applied(
            before.contents,
            start,
            write_queue::all_changes(groups),
        ),
        done.held == before.held + write_queue::all_changes(groups).len(),
{
    let records = wal::log_records(start, groups);
    assert(groups.take(0) =~= Seq::<Seq<Change>>::empty());
    assert(write_queue::all_changes(groups.take(0)) =~= Seq::<Change>::empty());
    assert(records.take(0) =~= Seq::<Seq<u8>>::empty());
    assert(log::log_image(records.take(0)) =~= Seq::<u8>::empty());
    lemma_reaches_end(user, before, start, groups, bytes, paranoid, 0, before)
}

/// At a damaged record a replay stops. What was written before it is entered. A paranoid
/// replay fails with what is wrong; another one does not mind.
pub proof fn law_damage_is_met<C: Comparator>(
    user: C,
    before: Replay,
    start: nat,
    groups: Seq<Seq<Change>>,
    bytes: Seq<u8>,
)
    requires
        starts_with(user, before, start, groups, bytes),
        log::next_record(bytes, end_of(start, groups), None) is Fault,
    ensures
        ({
            let strict = wal::replay_log(user, bytes, 0, true, before);
            let lenient = wal::replay_log(user, bytes, 0, false, before);
            let entered = seen::applied(
                before.contents,
                start,
                write_queue::all_changes(groups),
            );
            &&& strict.1 == Some(log::next_record(bytes, end_of(start, groups), None)->text)
            &&& lenient.1 is None
            &&& strict.0.contents == entered
            &&& lenient.0.contents == entered
        }),
{
    let strict = lemma_from_start(user, before, start, groups, bytes, true);
    let lenient = lemma_from_start(user, before, start, groups, bytes, false);
}

/// A record that is too short for the head of a batch is no batch: a paranoid replay fails, and
/// another one stops, with all that was written before it entered.
pub proof fn law_short_record_is_refused<C: Comparator>(
    user: C,
    before: Replay,
    start: nat,
    groups: Seq<Seq<Change>>,
    bytes: Seq<u8>,
    record: Seq<u8>,
    next: int,
)
    requires
        starts_with(user, before, start, groups, bytes),
        log::next_record(bytes, end_of(start, groups), None) == (Logical::Record {
            data: record,
            next,
        }),
        record.len() < 12,
    ensures
        ({
            let strict = wal::replay_log(user, bytes, 0, true, before);
            let lenient = wal::replay_log(user, bytes, 0, false, before);
            let entered = seen::applied(
                before.contents,
                start,
                write_queue::all_changes(groups),
            );
            &&& strict.1 == Some("malformed WriteBatch (too small)"@)
            &&& lenient.1 is None
            &&& strict.0.contents == entered
            &&& lenient.0.contents == entered
        }),
{
    let strict = lemma_from_start(user, before, start, groups, bytes, true);
    let lenient = lemma_from_start(user, before, start, groups, bytes, false);
}

/// A batch that does not hold as many updates as it says is refused: a paranoid replay fails,
/// and another one stops there.
pub proof fn law_wrong_count_is_refused<C: Comparator>(
    user: C,
    before: Replay,
    start: nat,
    groups: Seq<Seq<Change>>,
    bytes: Seq<u8>,
    sequence: u64,
    count: u32,
    changes: Seq<Change>,
    next: int,
)
    requires
        starts_with(user, before, start, groups, bytes),
        forall|i: int| 0 <= i < changes.len() ==> (#[trigger] changes[i]).is_sized(),
        count != changes.len(),
        log::next_record(bytes, end_of(start, groups), None) == (Logical::Record {
            data: write_batch::batch_bytes(sequence, count, write_batch::body_bytes(changes)),
            next,
        }),
    ensures
        wal::replay_log(user, bytes, 0, true, before).1 is Some,
        wal::replay_log(user, bytes, 0, false, before).1 is None,
{
    let strict = lemma_from_start(user, before, start, groups, bytes, true);
    let lenient = lemma_from_start(user, before, start, groups, bytes, false);
    let body = write_batch::body_bytes(changes);
    let record = write_batch::batch_bytes(sequence, count, body);
    wal::lemma_read_batch(record, sequence, count, body);
    write_batch::law_body_round_trip(changes);
}

proof fn lemma_first_replayed<C: Comparator>(
    user: C,
    before: Replay,
    start: nat,
    groups: Seq<Seq<Change>>,
    bytes: Seq<u8>,
    index: int,
    count: nat,
    state: Replay,
)
    requires
        starts_with(user, before, start, groups, bytes),
        0 <= index,
        index + count <= groups.len(),
        state.contents == seen::applied(
            before.contents,
            start,
            write_queue::all_changes(groups.take(index)),
        ),
        state.held == before.held + write_queue::all_changes(groups.take(index)).len(),
    ensures
        wal::replay_first(
            user,
            bytes,
            log::log_image(wal::log_records(start, groups).take(index)).len() as int,
            count,
            state,
        ) matches Some(after) && after.contents == seen::applied(
            before.contents,
            start,
            write_queue::all_changes(groups.take(index + count)),
        ),
    decreases count,
{
    if count > 0 {
        let records = wal::log_records(start, groups);
        wal::lemma_record_replays(
            user,
            before.contents,
            before.held,
            start,
            groups,
            bytes,
            index,
            state,
        );
        let next_state = wal::replay_record(user, state, records[index]).0;
        lemma_first_replayed(
            user,
            before,
            start,
            groups,
            bytes,
            index + 1,
            (count - 1) as nat,
            next_state,
        );
    }
}

/// A replay that ended early, as the log could not be read any further, has entered the first
/// groups, whole, and no others.
pub proof fn law_cut_replay_has_first_groups<C: Comparator>(
    user: C,
    before: Replay,
    start: nat,
    groups: Seq<Seq<Change>>,
    bytes: Seq<u8>,
    count: nat,
)
    requires
        starts_with(user, before, start, groups, bytes),
        count <= groups.len(),
    ensures
        wal::replay_first(user, bytes, 0, count, before) matches Some(after) && after.contents
            == seen::applied(
            before.contents,
            start,
            write_queue::all_changes(groups.take(count as int)),
        ),
{
    let records = wal::log_records(start, groups);
    assert(groups.take(0) =~= Seq::<Seq<Change>>::empty());
    assert(write_queue::all_changes(groups.take(0)) =~= Seq::<Change>::empty());
    assert(records.take(0) =~= Seq::<Seq<u8>>::empty());
    assert(log::log_image(records.take(0)) =~= Seq::<u8>::empty());
    lemma_first_replayed(user, before, start, groups, bytes, 0, count, before);
}

proof fn lemma_lenient<C: Comparator>(user: C, bytes: Seq<u8>, cursor: int, before: Replay)
    requires
        0 <= cursor,
    ensures
        wal::replay_log(user, bytes, cursor, false, before).1 is None,
    decreases bytes.len() - cursor,
{
    wal::lemma_record_bounds(bytes, cursor, None);
    match log::next_record(bytes, cursor, None) {
        Logical::Record { data, next } => {
            let (after, problem) = wal::replay_record(user, before, data);
            if problem is None {
                lemma_lenient(user, bytes, next, after);
            }
        },
        _ => {},
    }
}

/// Replaying logs of which none was cut short is replaying them whole, by one who does not mind
/// damage.
pub proof fn law_uncut_recovery_is_whole<C: Comparator>(
    user: C,
    files: Map<Seq<char>, Seq<u8>>,
    dbname: Seq<char>,
    logs: Seq<u64>,
    cuts: Seq<Option<nat>>,
    before: Recovered,
    after: Recovered,
)
    requires
        cuts.len() == logs.len(),
        forall|i: int| 0 <= i < cuts.len() ==> (#[trigger] cuts[i]) is None,
    ensures
        wal::recovered_upto(user, files, dbname, logs, cuts, before) == Some(after)
            <==> wal::recovered(user, files, dbname, logs, false, before) == Ok::<
            Recovered,
            Option<Seq<char>>,
        >(after),
        wal::recovered_upto(user, files, dbname, logs, cuts, before) is None <==> wal::recovered(
            user,
            files,
            dbname,
            logs,
            false,
            before,
        ) is Err,
    decreases logs.len(),
{
    if logs.len() > 0 {
        let (front, some) = (logs.drop_last(), cuts.drop_last());
        assert forall|i: int| 0 <= i < some.len() implies (#[trigger] some[i]) is None by {
            assert(some[i] == cuts[i]);
        }
        assert(cuts[cuts.len() - 1] is None);
        match wal::recovered_upto(user, files, dbname, front, some, before) {
            None => {
                law_uncut_recovery_is_whole(user, files, dbname, front, some, before, before);
            },
            Some(so_far) => {
                law_uncut_recovery_is_whole(user, files, dbname, front, some, before, so_far);
                let path = filename::numbered(dbname, logs.last(), "log"@);
                let start = Replay {
                    contents: so_far.contents,
                    held: so_far.held,
                    max_sequence: 0,
                    bytes: 0,
                };
                lemma_lenient(user, files[path], 0, start);
            },
        }
    }
}

} // verus!
