//! What a write does to the state of a database.

use vstd::prelude::*;

use crate::comparator::Comparator;
use crate::db_impl::enter;
use crate::db_impl::sizes_laws;
use crate::db_impl::state;
use crate::db_impl::state::DBImplCore;
use crate::db_impl::wal;
use crate::db_iter::seen;
use crate::memtable;
use crate::status;
use crate::status::Status;
use crate::write_batch::Change;
use crate::write_batch::WriteBatch;

verus! {

/// A group that could not be logged is told why, and not entered: the memtable and the last
/// sequence number stay as they are. If it could not be synced, all later writes fail with
/// the same error; otherwise nothing at all is changed.
pub proof fn law_refused_group_changes_nothing<C: Comparator>(
    before: DBImplCore<C>,
    after: DBImplCore<C>,
    group: WriteBatch,
    error: Status,
    sync_failed: bool,
    outcome: status::Result<()>,
)
    requires
        state::is_commit(before, after, group, Err::<(), Status>(error), sync_failed, outcome),
    ensures
        outcome == Err::<(), Status>(error),
        after.mem == before.mem,
        after.imm == before.imm,
        after.last_sequence == before.last_sequence,
        after.mem_memory_usage == before.mem_memory_usage,
        sync_failed ==> after.bg_error == Some(error),
        !sync_failed ==> after == before,
{
}

/// The updates that are entered are the first ones, up to the first that cannot be.
pub proof fn law_entered_up_to_the_first_bad<C: Comparator>(
    user: C,
    contents: Map<Seq<u8>, Seq<u8>>,
    start: nat,
    changes: Seq<Change>,
)
    ensures
        ({
            let count = enter::entered_count(user, contents, start, changes);
            &&& count <= changes.len()
            &&& forall|i: int|
                0 <= i < count ==> enter::enterable(
                    user,
                    seen::applied(contents, start, changes.take(i)),
                    (start + i) as nat,
                    #[trigger] changes[i],
                )
            &&& count < changes.len() ==> !enter::enterable(
                user,
                seen::applied(contents, start, changes.take(count as int)),
                start + count,
                changes[count as int],
            )
        }),
    decreases changes.len(),
{
    if changes.len() > 0 {
        let front = changes.drop_last();
        let last = changes.len() - 1;
        law_entered_up_to_the_first_bad(user, contents, start, front);
        let count = enter::entered_count(user, contents, start, changes);
        let some = enter::entered_count(user, contents, start, front);
        assert(changes.take(last) =~= front);
        assert forall|i: int| 0 <= i < count implies enter::enterable(
            user,
            seen::applied(contents, start, changes.take(i)),
            (start + i) as nat,
            #[trigger] changes[i],
        ) by {
            if i < some {
                assert(front[i] == changes[i]);
                assert(front.take(i) =~= changes.take(i));
            }
        }
        if some < front.len() {
            assert(front.take(some as int) =~= changes.take(some as int));
            assert(front[some as int] == changes[some as int]);
        }
    }
}

/// The sizes of the entries of some updates.
pub open spec fn entry_sizes(start: nat, changes: Seq<Change>) -> Seq<int> {
    Seq::new(
        changes.len(),
        |i: int|
            memtable::entry_bytes(
                seen::entry_key(changes[i], (start + i) as nat),
                seen::entry_value(changes[i]),
            ).len() as int,
    )
}

proof fn lemma_entered_bytes(start: nat, changes: Seq<Change>)
    ensures
        enter::entered_bytes(start, changes) == sizes_laws::total(entry_sizes(start, changes)),
    decreases changes.len(),
{
    if changes.len() > 0 {
        let front = changes.drop_last();
        let all = entry_sizes(start, changes);
        let plus = |sum: int, number: int| sum + number;
        lemma_entered_bytes(start, front);
        assert(all.drop_last() =~= entry_sizes(start, front));
        assert(all.fold_left(0, plus) == plus(all.drop_last().fold_left(0, plus), all.last()));
    }
}

/// A group that is committed adds the sizes of all its entries to what the memtable is
/// charged, and as many sequence numbers as it has updates.
pub proof fn law_commit_is_charged<C: Comparator>(
    before: DBImplCore<C>,
    after: DBImplCore<C>,
    group: WriteBatch,
    changes: Seq<Change>,
    outcome: status::Result<()>,
)
    requires
        state::is_commit(before, after, group, Ok::<(), Status>(()), false, outcome),
        group.holds(changes),
        forall|i: int| 0 <= i < changes.len() ==> (#[trigger] changes[i]).is_sized(),
        outcome is Ok,
    ensures
        after.last_sequence == before.last_sequence + changes.len(),
        ({
            let start = before.last_sequence as nat + 1;
            let bytes = before.mem_memory_usage + sizes_laws::total(entry_sizes(start, changes));
            after.mem_memory_usage == if bytes <= usize::MAX {
                bytes
            } else {
                usize::MAX as int
            }
        }),
{
    let start = before.last_sequence as nat + 1;
    crate::write_batch::law_body_round_trip(changes);
    lemma_entered_bytes(start, changes);
    assert(changes.take(changes.len() as int) =~= changes);
}

/// A group that was logged is entered whole: there is no reason to refuse it, as long as its
/// keys can be compared, its lengths can be written down and the memtable can count it.
pub proof fn law_logged_group_is_entered<C: Comparator>(
    before: DBImplCore<C>,
    after: DBImplCore<C>,
    group: WriteBatch,
    changes: Seq<Change>,
    outcome: status::Result<()>,
)
    requires
        state::is_commit(before, after, group, Ok::<(), Status>(()), false, outcome),
        before.sound(),
        before.settled(),
        group.holds(changes),
        wal::all_fit(before.comparator, changes),
        before.last_sequence + changes.len() <= crate::format::MAX_SEQUENCE_NUMBER,
        before.mem.table().entries().len() + changes.len() + 2 < usize::MAX,
    ensures
        outcome is Ok,
        enter::mem_contents(after.mem) == seen::applied(
            enter::mem_contents(before.mem),
            before.last_sequence as nat + 1,
            changes,
        ),
{
    let start = before.last_sequence as nat + 1;
    let held = enter::mem_contents(before.mem);
    assert forall|i: int| 0 <= i < changes.len() implies (#[trigger] changes[i]).is_sized() by {
        assert(changes[i].key().len() + 8 < crate::coding::two_pow_32());
    }
    assert(seen::all_admitted(before.comparator, changes)) by {
        assert forall|i: int| 0 <= i < changes.len() implies before.comparator.admits(
            (#[trigger] changes[i]).key(),
        ) by {}
    }
    crate::write_batch::law_body_round_trip(changes);
    enter::lemma_newer_enter(before.comparator, held, start, changes);
    assert(changes.take(changes.len() as int) =~= changes);
}

} // verus!
