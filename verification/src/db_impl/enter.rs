//! Entering updates into a memtable, and looking keys up there.

use vstd::prelude::*;

use crate::coding;
use crate::comparator::Comparator;
use crate::db_iter::db_iterator;
use crate::db_iter::seen;
use crate::db_iter::seen::Seen;
use crate::db_iter::user_view;
use crate::format::InternalKeyComparator;
use crate::format::LookupKey;
use crate::format::ValueType;
use crate::memtable;
use crate::memtable::SharedMemTable;
use crate::version_set::LookupResult;
use crate::write_batch;
use crate::write_batch::Change;
use crate::write_batch::Update;

verus! {

/// The entries of a memtable, by their internal keys.
pub open spec fn mem_contents<C: Comparator>(mem: SharedMemTable<C>) -> Map<Seq<u8>, Seq<u8>> {
    db_iterator::map_of(mem.table().entries())
}

/// The order of the user keys of a memtable.
pub open spec fn mem_user<C: Comparator>(mem: SharedMemTable<C>) -> C {
    mem.table().order().user_order()
}

/// A memtable whose entries are internal keys.
pub open spec fn mem_sound<C: Comparator>(mem: SharedMemTable<C>) -> bool {
    mem.table().wf() && seen::contents_sound(mem_user(mem), mem_contents(mem))
}

/// Whether an internal key is in order with all entries.
pub open spec fn in_order_with<C: Comparator>(
    user: C,
    contents: Map<Seq<u8>, Seq<u8>>,
    key: Seq<u8>,
) -> bool {
    forall|other: Seq<u8>| #[trigger]
        contents.contains_key(other) ==> InternalKeyComparator::over(user).less(other, key)
            || InternalKeyComparator::over(user).less(key, other)
}

/// Whether an update can be entered: no entry counts as the same, and the lengths
/// can be written down.
pub open spec fn enterable<C: Comparator>(
    user: C,
    contents: Map<Seq<u8>, Seq<u8>>,
    sequence: nat,
    change: Change,
) -> bool {
    &&& sequence <= crate::format::MAX_SEQUENCE_NUMBER
    &&& user.admits(change.key())
    &&& change.key().len() + 8 < coding::two_pow_32()
    &&& seen::entry_value(change).len() < coding::two_pow_32()
    &&& in_order_with(user, contents, seen::entry_key(change, sequence))
}

/// How many updates can be entered one after the other.
pub open spec fn entered_count<C: Comparator>(
    user: C,
    contents: Map<Seq<u8>, Seq<u8>>,
    start: nat,
    changes: Seq<Change>,
) -> nat
    decreases changes.len(),
{
    if changes.len() == 0 {
        0
    } else {
        let front = changes.drop_last();
        let count = entered_count(user, contents, start, front);
        if count == front.len() && enterable(
            user,
            seen::applied(contents, start, front),
            start + front.len(),
            changes.last(),
        ) {
            changes.len()
        } else {
            count
        }
    }
}

/// How many bytes the entries of some updates take.
pub open spec fn entered_bytes(start: nat, changes: Seq<Change>) -> nat
    decreases changes.len(),
{
    if changes.len() == 0 {
        0
    } else {
        entered_bytes(start, changes.drop_last()) + memtable::entry_bytes(
            seen::entry_key(changes.last(), (start + changes.len() - 1) as nat),
            seen::entry_value(changes.last()),
        ).len()
    }
}

/// A number, or the greatest there is.
pub open spec fn at_most(number: nat) -> usize {
    if number <= usize::MAX {
        number as usize
    } else {
        usize::MAX
    }
}

/// Whether a memtable can take so many more entries.
pub open spec fn has_room<C: Comparator>(mem: SharedMemTable<C>, more: nat) -> bool {
    mem.table().entries().len() + more + 2 < usize::MAX
}

pub proof fn lemma_count_bound<C: Comparator>(
    user: C,
    contents: Map<Seq<u8>, Seq<u8>>,
    start: nat,
    changes: Seq<Change>,
)
    ensures
        entered_count(user, contents, start, changes) <= changes.len(),
    decreases changes.len(),
{
    if changes.len() > 0 {
        lemma_count_bound(user, contents, start, changes.drop_last());
    }
}

/// What cannot be entered stops all that follows.
proof fn lemma_count_stops<C: Comparator>(
    user: C,
    contents: Map<Seq<u8>, Seq<u8>>,
    start: nat,
    changes: Seq<Change>,
    upto: int,
)
    requires
        0 <= upto < changes.len(),
        entered_count(user, contents, start, changes.take(upto)) == upto,
        !enterable(
            user,
            seen::applied(contents, start, changes.take(upto)),
            start + upto as nat,
            changes[upto],
        ),
    ensures
        entered_count(user, contents, start, changes) == upto,
    decreases changes.len(),
{
    if changes.len() == upto + 1 {
        assert(changes.drop_last() =~= changes.take(upto));
    } else {
        let front = changes.drop_last();
        assert(front.take(upto) =~= changes.take(upto));
        lemma_count_stops(user, contents, start, front, upto);
    }
}

/// Updates that are newer than all entries can be entered.
pub proof fn lemma_newer_enter<C: Comparator>(
    user: C,
    contents: Map<Seq<u8>, Seq<u8>>,
    start: nat,
    changes: Seq<Change>,
)
    requires
        seen::contents_sound(user, contents),
        seen::all_below(contents, start),
        start + changes.len() <= crate::format::MAX_SEQUENCE_NUMBER + 1,
        seen::all_admitted(user, changes),
        forall|i: int|
            0 <= i < changes.len() ==> (#[trigger] changes[i]).key().len() + 8
                < coding::two_pow_32() && seen::entry_value(changes[i]).len()
                < coding::two_pow_32(),
    ensures
        entered_count(user, contents, start, changes) == changes.len(),
    decreases changes.len(),
{
    if changes.len() > 0 {
        let front = changes.drop_last();
        assert forall|i: int| 0 <= i < front.len() implies (#[trigger] front[i]).key().len() + 8
            < coding::two_pow_32() && seen::entry_value(front[i]).len() < coding::two_pow_32() by {
            assert(front[i] == changes[i]);
        }
        assert(seen::all_admitted(user, front)) by {
            assert forall|i: int| 0 <= i < front.len() implies user.admits(
                (#[trigger] front[i]).key(),
            ) by {
                assert(front[i] == changes[i]);
            }
        }
        lemma_newer_enter(user, contents, start, front);
        seen::lemma_applied(user, contents, start, front);
        let before = seen::applied(contents, start, front);
        let at = start + front.len();
        assert(changes[changes.len() - 1] == changes.last());
        seen::lemma_entered(user, before, at, changes.last());
        let key = seen::entry_key(changes.last(), at);
        let after = before.insert(key, seen::entry_value(changes.last()));
        assert forall|other: Seq<u8>| #[trigger]
            before.contains_key(other) implies InternalKeyComparator::over(user).less(other, key)
            || InternalKeyComparator::over(user).less(key, other) by {
            assert(after.contains_key(other) && after.contains_key(key));
        }
    }
}

/// An entry that is in order with all others leaves them in order.
proof fn lemma_fresh_entry<C: Comparator>(
    user: C,
    contents: Map<Seq<u8>, Seq<u8>>,
    sequence: nat,
    change: Change,
)
    requires
        seen::contents_sound(user, contents),
        enterable(user, contents, sequence, change),
    ensures
        seen::contents_sound(
            user,
            contents.insert(seen::entry_key(change, sequence), seen::entry_value(change)),
        ),
{
    let key = seen::entry_key(change, sequence);
    let after = contents.insert(key, seen::entry_value(change));
    let value_type = match change {
        Change::Put { key: _, value: _ } => ValueType::Value,
        Change::Delete { key: _ } => ValueType::Deletion,
    };
    crate::format::law_parse_round_trip(change.key(), sequence, value_type);
    let order = InternalKeyComparator::over(user);
    assert forall|a: Seq<u8>, b: Seq<u8>|
        #![trigger after.contains_key(a), after.contains_key(b)]
        after.contains_key(a) && after.contains_key(b) && a != b implies order.less(a, b)
        || order.less(b, a) by {
        if a == key {
            assert(contents.contains_key(b));
        } else if b == key {
            assert(contents.contains_key(a));
        } else {
            assert(contents.contains_key(a) && contents.contains_key(b));
        }
    }
}

/// An entry more among sorted ones is an entry more in the map.
pub proof fn lemma_map_insert<C: Comparator>(
    comparator: C,
    before: Seq<db_iterator::Pair>,
    place: int,
    pair: db_iterator::Pair,
)
    requires
        db_iterator::sorted(comparator, before),
        db_iterator::sorted(comparator, before.insert(place, pair)),
        0 <= place <= before.len(),
    ensures
        db_iterator::map_of(before.insert(place, pair)) == db_iterator::map_of(before).insert(
            pair.0,
            pair.1,
        ),
{
    let after = before.insert(place, pair);
    let left = db_iterator::map_of(after);
    let right = db_iterator::map_of(before).insert(pair.0, pair.1);
    assert(after[place] == pair);
    db_iterator::lemma_map_of(comparator, after, place);
    assert forall|key: Seq<u8>| #[trigger] left.contains_key(key) implies right.contains_key(key)
        && right[key] == left[key] by {
        let i = choose|i: int| 0 <= i < after.len() && #[trigger] after[i].0 == key;
        db_iterator::lemma_map_of(comparator, after, i);
        if i != place {
            let j = if i < place { i } else { i - 1 };
            assert(after[i] == before[j]);
            db_iterator::lemma_map_of(comparator, before, j);
            if key == pair.0 {
                comparator.less_irreflexive(key);
                if i < place {
                    db_iterator::lemma_sorted_order(comparator, after, i, place);
                } else {
                    db_iterator::lemma_sorted_order(comparator, after, place, i);
                }
            }
        }
    }
    assert forall|key: Seq<u8>| #[trigger] right.contains_key(key) implies left.contains_key(
        key,
    ) by {
        if key != pair.0 {
            let j = choose|j: int| 0 <= j < before.len() && #[trigger] before[j].0 == key;
            let i = if j < place { j } else { j + 1 };
            assert(after[i] == before[j]);
            assert(after[i].0 == key);
        }
    }
    assert(left =~= right);
}

/// A table lacks a key just where the key is in order with all entries.
proof fn lemma_lacks<C: Comparator>(mem: SharedMemTable<C>, key: Seq<u8>)
    requires
        mem.table().wf(),
    ensures
        mem.table().lacks(key) == in_order_with(mem_user(mem), mem_contents(mem), key),
{
    let entries = mem.table().entries();
    let contents = mem_contents(mem);
    mem.table().lemma_sorted();
    mem.table().order().lemma_is_over();
    let order = mem.table().order();
    if mem.table().lacks(key) {
        assert forall|other: Seq<u8>| #[trigger] contents.contains_key(other) implies order.less(
            other,
            key,
        ) || order.less(key, other) by {
            let i = choose|i: int| 0 <= i < entries.len() && #[trigger] entries[i].0 == other;
            assert(order.less(entries[i].0, key) || order.less(key, entries[i].0));
        }
    }
    if in_order_with(mem_user(mem), contents, key) {
        assert forall|i: int| 0 <= i < entries.len() implies order.less(#[trigger] entries[i].0, key)
            || order.less(key, entries[i].0) by {
            db_iterator::lemma_map_of(order, entries, i);
            assert(contents.contains_key(entries[i].0));
        }
    }
}

/// Enters one update.
fn enter_update<C: Comparator>(mem: &mut SharedMemTable<C>, sequence: u64, update: &Update) -> (
    size: Option<usize>)
    requires
        mem_sound(*old(mem)),
        has_room(*old(mem), 1),
    ensures
        mem_sound(*final(mem)),
        final(mem).table().order() == old(mem).table().order(),
        ({
            let user = mem_user(*old(mem));
            let change = update.change();
            let before = mem_contents(*old(mem));
            let key = seen::entry_key(change, sequence as nat);
            match size {
                Some(bytes) => {
                    &&& enterable(user, before, sequence as nat, change)
                    &&& mem_contents(*final(mem)) == before.insert(key, seen::entry_value(change))
                    &&& bytes == memtable::entry_bytes(key, seen::entry_value(change)).len()
                    &&& final(mem).table().entries().len() == old(mem).table().entries().len() + 1
                },
                None => !enterable(user, before, sequence as nat, change) && *final(mem) == *old(mem),
            }
        }),
{
    if sequence > crate::format::MAX_SEQUENCE_NUMBER {
        return None;
    }
    let none: [u8; 0] = [];
    assert(none@ =~= Seq::<u8>::empty());
    let (value_type, key, value): (ValueType, &[u8], &[u8]) = match update {
        Update::Put(key, value) => (ValueType::Value, key.as_slice(), value.as_slice()),
        Update::Delete(key) => (ValueType::Deletion, key.as_slice(), none.as_slice()),
    };
    if !mem.user_comparator().accepts(key) {
        return None;
    }
    if key.len() as u64 > 0xffff_fff7 || value.len() as u64 > 0xffff_ffff {
        return None;
    }
    let ghost internal_key = seen::entry_key(update.change(), sequence as nat);
    proof {
        lemma_lacks(*mem, internal_key);
    }
    if mem.has_entry(sequence, value_type, key) {
        return None;
    }
    let ghost before = mem.table().entries();
    proof {
        mem.table().lemma_sorted();
        lemma_fresh_entry(mem_user(*mem), mem_contents(*mem), sequence as nat, update.change());
    }
    let size = mem.add(sequence, value_type, key, value);
    proof {
        mem.table().lemma_sorted();
        let pair = (internal_key, value@);
        let place = choose|place: int|
            0 <= place <= before.len() && mem.table().entries() == #[trigger] before.insert(
                place,
                pair,
            );
        lemma_map_insert(mem.table().order(), before, place, pair);
        assert(mem_contents(*mem) == mem_contents(*old(mem)).insert(
            internal_key,
            seen::entry_value(update.change()),
        ));
    }
    Some(size)
}

/// Enters updates one after the other, from a sequence number on, up to the first
/// that cannot be entered. Returns how many bytes the entries take, and whether all
/// updates were entered.
pub fn enter_updates<C: Comparator>(mem: &mut SharedMemTable<C>, sequence: u64, updates: &[Update]) -> (
    outcome: (usize, bool))
    requires
        mem_sound(*old(mem)),
    ensures
        mem_sound(*final(mem)),
        final(mem).table().order() == old(mem).table().order(),
        ({
            let user = mem_user(*old(mem));
            let changes = write_batch::changes(updates@);
            let before = mem_contents(*old(mem));
            let count = entered_count(user, before, sequence as nat, changes) as int;
            if has_room(*old(mem), changes.len()) {
                &&& 0 <= count <= changes.len()
                &&& mem_contents(*final(mem)) == seen::applied(
                    before,
                    sequence as nat,
                    changes.take(count),
                )
                &&& outcome.0 == at_most(entered_bytes(sequence as nat, changes.take(count)))
                &&& outcome.1 == (count == changes.len())
                &&& final(mem).table().entries().len() == old(mem).table().entries().len() + count
            } else {
                *final(mem) == *old(mem) && outcome == (0usize, false)
            }
        }),
{
    let ghost user = mem_user(*mem);
    let ghost changes = write_batch::changes(updates@);
    let ghost before = mem_contents(*mem);
    let ghost start = mem.table().entries().len();
    let held: usize = mem.len();
    match held.checked_add(updates.len()) {
        None => {
            return (0, false);
        },
        Some(total) => {
            if total >= usize::MAX - 2 {
                return (0, false);
            }
        },
    }
    mem.reserve_entries(updates.len());
    let mut bytes: usize = 0;
    let mut index: usize = 0;
    assert(changes.take(0) =~= Seq::<Change>::empty());
    while index < updates.len()
        invariant
            index <= updates@.len(),
            mem_sound(*mem),
            mem.table().order() == old(mem).table().order(),
            user == mem_user(*old(mem)),
            changes == write_batch::changes(updates@),
            before == mem_contents(*old(mem)),
            start == old(mem).table().entries().len(),
            start + updates@.len() + 2 < usize::MAX,
            mem.table().entries().len() == start + index,
            mem_contents(*mem) == seen::applied(
                before,
                sequence as nat,
                changes.take(index as int),
            ),
            entered_count(user, before, sequence as nat, changes.take(index as int)) == index,
            bytes == at_most(entered_bytes(sequence as nat, changes.take(index as int))),
        decreases updates@.len() - index,
    {
        let ghost front = changes.take(index as int);
        let ghost more = changes.take(index + 1);
        proof {
            assert(more.drop_last() =~= front);
            assert(more.last() == updates@[index as int].change());
        }
        let now: u64 = match sequence.checked_add(index as u64) {
            None => {
                proof {
                    lemma_count_stops(user, before, sequence as nat, changes, index as int);
                }
                return (bytes, false);
            },
            Some(now) => now,
        };
        match enter_update(mem, now, &updates[index]) {
            None => {
                proof {
                    lemma_count_stops(user, before, sequence as nat, changes, index as int);
                }
                return (bytes, false);
            },
            Some(size) => {
                bytes = match bytes.checked_add(size) {
                    None => usize::MAX,
                    Some(sum) => sum,
                };
            },
        }
        index = index + 1;
    }
    assert(changes.take(index as int) =~= changes);
    (bytes, true)
}

// ---------------------------------------------------------------------------
// Lookups
// ---------------------------------------------------------------------------

/// Whether a result says what is seen.
pub open spec fn tells(result: LookupResult, what: Seen) -> bool {
    match what {
        Seen::Nothing => result is NotFound,
        Seen::Deleted => result is Deleted,
        Seen::Value(value) => result matches LookupResult::Found(bytes) && bytes@ == value,
    }
}

proof fn lemma_newest_visible<C: Comparator>(
    comparator: InternalKeyComparator<C>,
    entries: Seq<db_iterator::Pair>,
    target: Seq<u8>,
    from: int,
)
    requires
        0 <= from,
    ensures
        match memtable::newest_visible(comparator, entries, target, from) {
            None => forall|i: int|
                from <= i < entries.len() ==> !memtable::visible(
                    comparator,
                    #[trigger] entries[i].0,
                    target,
                ),
            Some(index) => {
                &&& from <= index < entries.len()
                &&& memtable::visible(comparator, entries[index].0, target)
                &&& forall|i: int|
                    from <= i < index ==> !memtable::visible(
                        comparator,
                        #[trigger] entries[i].0,
                        target,
                    )
            },
        },
    decreases entries.len() - from,
{
    if from < entries.len() && !memtable::visible(comparator, entries[from].0, target) {
        lemma_newest_visible(comparator, entries, target, from + 1);
    }
}

/// The first visible entry of a memtable is what a lookup sees.
proof fn lemma_mem_seen<C: Comparator>(mem: SharedMemTable<C>, sequence: nat, user_key: Seq<u8>)
    requires
        mem_sound(mem),
        sequence <= crate::format::MAX_SEQUENCE_NUMBER,
        mem_user(mem).admits(user_key),
    ensures
        ({
            let entries = mem.table().entries();
            let target = crate::format::internal_key_bytes(
                user_key,
                sequence,
                crate::format::VALUE_TYPE_FOR_SEEK,
            );
            seen::seen_at(mem_user(mem), mem_contents(mem), sequence, user_key)
                == match memtable::newest_visible(mem.table().order(), entries, target, 0) {
                None => Seen::Nothing,
                Some(index) => if crate::format::tag_part(entries[index].0) % 256 == 0 {
                    Seen::Deleted
                } else {
                    Seen::Value(entries[index].1)
                },
            }
        }),
{
    let user = mem_user(mem);
    let contents = mem_contents(mem);
    let entries = mem.table().entries();
    let order = mem.table().order();
    let target = crate::format::internal_key_bytes(
        user_key,
        sequence,
        crate::format::VALUE_TYPE_FOR_SEEK,
    );
    order.lemma_is_over();
    mem.table().lemma_sorted();
    crate::format::lemma_internal_key_parts(
        user_key,
        crate::format::packed(sequence, crate::format::VALUE_TYPE_FOR_SEEK),
    );
    lemma_newest_visible(order, entries, target, 0);
    assert forall|i: int| 0 <= i < entries.len() implies memtable::visible(
        order,
        #[trigger] entries[i].0,
        target,
    ) == seen::is_candidate(user, contents, sequence, user_key, entries[i].0) by {
        db_iterator::lemma_map_of(order, entries, i);
        assert(contents.contains_key(entries[i].0));
        lemma_tag_upto(entries[i].0, user_key, sequence);
    }
    match memtable::newest_visible(order, entries, target, 0) {
        None => {
            if exists|key: Seq<u8>| seen::answers(user, contents, sequence, user_key, key) {
                let key = choose|key: Seq<u8>|
                    seen::answers(user, contents, sequence, user_key, key);
                assert(user_view::visible(contents, sequence, key));
                let i = choose|i: int| 0 <= i < entries.len() && #[trigger] entries[i].0 == key;
                assert(memtable::visible(order, entries[i].0, target));
            }
        },
        Some(index) => {
            let key = entries[index].0;
            db_iterator::lemma_map_of(order, entries, index);
            assert(seen::is_candidate(user, contents, sequence, user_key, key));
            assert forall|other: Seq<u8>| #[trigger]
                user_view::visible(contents, sequence, other) && user_view::same(
                    user,
                    user_view::user_of(other),
                    user_view::user_of(key),
                ) && other != key implies InternalKeyComparator::over(user).less(key, other) by {
                let i = choose|i: int| 0 <= i < entries.len() && #[trigger] entries[i].0 == other;
                user_view::lemma_same_less(
                    user,
                    user_view::user_of(key),
                    user_key,
                    user_view::user_of(other),
                );
                assert(seen::is_candidate(user, contents, sequence, user_key, entries[i].0));
                assert(memtable::visible(order, entries[i].0, target));
                db_iterator::lemma_sorted_order(order, entries, index, i);
            }
            assert(seen::answers(user, contents, sequence, user_key, key));
            seen::lemma_answer(user, contents, sequence, user_key, key);
        },
    }
}

/// An entry is not before the key of a seek just where its sequence number is not
/// beyond.
proof fn lemma_tag_upto(key: Seq<u8>, user_key: Seq<u8>, sequence: nat)
    requires
        crate::format::parsed(key) is Some,
    ensures
        crate::format::tag_part(key) <= crate::format::packed(
            sequence,
            crate::format::VALUE_TYPE_FOR_SEEK,
        ) <==> (crate::format::parsed(key)->0).1 <= sequence,
{
    crate::format::lemma_tag_bounds(key);
}

/// What a memtable knows of a key at a sequence number.
pub fn look_up<C: Comparator>(mem: &SharedMemTable<C>, user_key: &[u8], sequence: u64) -> (result:
    LookupResult)
    requires
        mem_sound(*mem),
        sequence <= crate::format::MAX_SEQUENCE_NUMBER,
        mem_user(*mem).admits(user_key@),
        user_key@.len() + 8 < coding::two_pow_32(),
    ensures
        tells(
            result,
            seen::seen_at(mem_user(*mem), mem_contents(*mem), sequence as nat, user_key@),
        ),
{
    let lookup = LookupKey::new(user_key, sequence);
    proof {
        lemma_mem_seen(*mem, sequence as nat, user_key@);
        crate::format::lemma_internal_key_parts(
            user_key@,
            crate::format::packed(sequence as nat, crate::format::VALUE_TYPE_FOR_SEEK),
        );
        mem.table().order().lemma_is_over();
        assert(mem.table().order().admits(lookup.target()));
    }
    match mem.get(&lookup) {
        None => LookupResult::NotFound,
        Some(found) => match found {
            Ok(value) => LookupResult::Found(value),
            Err(_) => LookupResult::Deleted,
        },
    }
}

} // verus!
