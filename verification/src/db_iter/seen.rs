//! What a lookup sees of the entries of a database at a sequence number.

use vstd::prelude::*;

use crate::comparator::Comparator;
use crate::db_iter::db_iterator;
use crate::db_iter::user_view;
use crate::format::InternalKeyComparator;
use crate::format::ValueType;
use crate::write_batch::Change;

verus! {

/// What a lookup sees of a key.
pub enum Seen {
    /// No entry.
    Nothing,
    /// The newest entry deletes the key.
    Deleted,
    /// The newest entry stores a value.
    Value(Seq<u8>),
}

/// The entries are finitely many internal keys, no two of which count as the same.
pub open spec fn contents_sound<C: Comparator>(user: C, contents: Map<Seq<u8>, Seq<u8>>) -> bool {
    &&& contents.dom().finite()
    &&& forall|key: Seq<u8>| #[trigger]
        contents.contains_key(key) ==> crate::format::parsed(key) is Some && user.admits(
            user_view::user_of(key),
        )
    &&& forall|a: Seq<u8>, b: Seq<u8>|
        #![trigger contents.contains_key(a), contents.contains_key(b)]
        contents.contains_key(a) && contents.contains_key(b) && a != b
            ==> InternalKeyComparator::over(user).less(a, b) || InternalKeyComparator::over(
            user,
        ).less(b, a)
}

/// Whether an entry is what a lookup finds.
pub open spec fn answers<C: Comparator>(
    user: C,
    contents: Map<Seq<u8>, Seq<u8>>,
    sequence: nat,
    user_key: Seq<u8>,
    key: Seq<u8>,
) -> bool {
    user_view::newest(user, contents, sequence, key) && user_view::same(
        user,
        user_view::user_of(key),
        user_key,
    )
}

/// What an entry says of its key.
pub open spec fn said(contents: Map<Seq<u8>, Seq<u8>>, key: Seq<u8>) -> Seen {
    if (crate::format::parsed(key)->0).2 == ValueType::Deletion {
        Seen::Deleted
    } else {
        Seen::Value(contents[key])
    }
}

/// What a lookup of a key sees at a sequence number.
pub open spec fn seen_at<C: Comparator>(
    user: C,
    contents: Map<Seq<u8>, Seq<u8>>,
    sequence: nat,
    user_key: Seq<u8>,
) -> Seen {
    if exists|key: Seq<u8>| answers(user, contents, sequence, user_key, key) {
        said(contents, choose|key: Seq<u8>| answers(user, contents, sequence, user_key, key))
    } else {
        Seen::Nothing
    }
}

/// Whether an entry is an older or equal one of a key.
pub open spec fn is_candidate<C: Comparator>(
    user: C,
    contents: Map<Seq<u8>, Seq<u8>>,
    sequence: nat,
    user_key: Seq<u8>,
    key: Seq<u8>,
) -> bool {
    user_view::visible(contents, sequence, key) && user_view::same(
        user,
        user_view::user_of(key),
        user_key,
    )
}

/// There is at most one entry that a lookup finds.
pub proof fn lemma_answer<C: Comparator>(
    user: C,
    contents: Map<Seq<u8>, Seq<u8>>,
    sequence: nat,
    user_key: Seq<u8>,
    key: Seq<u8>,
)
    requires
        contents_sound(user, contents),
        user.admits(user_key),
        answers(user, contents, sequence, user_key, key),
    ensures
        seen_at(user, contents, sequence, user_key) == said(contents, key),
{
    let found = choose|found: Seq<u8>| answers(user, contents, sequence, user_key, found);
    assert(answers(user, contents, sequence, user_key, found));
    if found != key {
        let order = InternalKeyComparator::over(user);
        lemma_both_same(user, user_view::user_of(found), user_view::user_of(key), user_key);
        assert(user_view::visible(contents, sequence, key));
        assert(user_view::visible(contents, sequence, found));
        assert(order.less(key, found));
        assert(order.less(found, key));
        InternalKeyComparator::<C>::lemma_over(user);
        order.less_transitive(key, found, key);
        order.less_irreflexive(key);
    }
}

pub proof fn lemma_both_same<C: Comparator>(user: C, a: Seq<u8>, b: Seq<u8>, c: Seq<u8>)
    requires
        user.admits(a),
        user.admits(b),
        user.admits(c),
        user_view::same(user, a, c),
        user_view::same(user, b, c),
    ensures
        user_view::same(user, a, b),
        user_view::same(user, b, a),
{
    user_view::lemma_same_less(user, a, c, b);
}

/// Where there is an entry to be seen, a lookup finds one.
pub proof fn lemma_some_answer<C: Comparator>(
    user: C,
    contents: Map<Seq<u8>, Seq<u8>>,
    sequence: nat,
    user_key: Seq<u8>,
    candidate: Seq<u8>,
) -> (key: Seq<u8>)
    requires
        contents_sound(user, contents),
        user.admits(user_key),
        is_candidate(user, contents, sequence, user_key, candidate),
    ensures
        answers(user, contents, sequence, user_key, key),
{
    let all = contents.dom().filter(
        |key: Seq<u8>| is_candidate(user, contents, sequence, user_key, key),
    );
    assert(all.contains(candidate));
    assert(all.subset_of(contents.dom()));
    vstd::set_lib::lemma_len_subset(all, contents.dom());
    let key = lemma_least(user, contents, all);
    assert forall|other: Seq<u8>| #[trigger]
        user_view::visible(contents, sequence, other) && user_view::same(
            user,
            user_view::user_of(other),
            user_view::user_of(key),
        ) && other != key implies InternalKeyComparator::over(user).less(key, other) by {
        user_view::lemma_same_less(
            user,
            user_view::user_of(key),
            user_key,
            user_view::user_of(other),
        );
        assert(is_candidate(user, contents, sequence, user_key, other));
        assert(all.contains(other));
    }
    key
}

/// Of finitely many entries one comes before all others.
proof fn lemma_least<C: Comparator>(
    user: C,
    contents: Map<Seq<u8>, Seq<u8>>,
    all: Set<Seq<u8>>,
) -> (least: Seq<u8>)
    requires
        contents_sound(user, contents),
        all.finite(),
        all.len() > 0,
        forall|key: Seq<u8>| #[trigger] all.contains(key) ==> contents.contains_key(key),
    ensures
        all.contains(least),
        forall|key: Seq<u8>| #[trigger]
            all.contains(key) && key != least ==> InternalKeyComparator::over(user).less(least, key),
    decreases all.len(),
{
    let order = InternalKeyComparator::over(user);
    InternalKeyComparator::<C>::lemma_over(user);
    let one = all.choose();
    assert(all.contains(one));
    let rest = all.remove(one);
    if rest.len() == 0 {
        assert forall|key: Seq<u8>| #[trigger] all.contains(key) && key != one implies order.less(
            one,
            key,
        ) by {
            assert(rest.contains(key));
            assert(rest =~= Set::empty());
        }
        one
    } else {
        let other = lemma_least(user, contents, rest);
        assert(contents.contains_key(one) && contents.contains_key(other));
        if order.less(one, other) {
            assert forall|key: Seq<u8>| #[trigger]
                all.contains(key) && key != one implies order.less(one, key) by {
                assert(rest.contains(key));
                if key != other {
                    assert(contents.contains_key(key));
                    order.less_transitive(one, other, key);
                }
            }
            one
        } else {
            assert forall|key: Seq<u8>| #[trigger]
                all.contains(key) && key != other implies order.less(other, key) by {
                if key != one {
                    assert(rest.contains(key));
                }
            }
            other
        }
    }
}

/// What is seen rests on the entries of the key that can be seen.
pub proof fn lemma_same_candidates<C: Comparator>(
    user: C,
    a: Map<Seq<u8>, Seq<u8>>,
    b: Map<Seq<u8>, Seq<u8>>,
    a_sequence: nat,
    b_sequence: nat,
    user_key: Seq<u8>,
)
    requires
        contents_sound(user, a),
        contents_sound(user, b),
        user.admits(user_key),
        forall|key: Seq<u8>| #[trigger]
            is_candidate(user, a, a_sequence, user_key, key) ==> is_candidate(
                user,
                b,
                b_sequence,
                user_key,
                key,
            ) && a[key] == b[key],
        forall|key: Seq<u8>| #[trigger]
            is_candidate(user, b, b_sequence, user_key, key) ==> is_candidate(
                user,
                a,
                a_sequence,
                user_key,
                key,
            ),
    ensures
        seen_at(user, a, a_sequence, user_key) == seen_at(user, b, b_sequence, user_key),
{
    if exists|key: Seq<u8>| answers(user, a, a_sequence, user_key, key) {
        let key = choose|key: Seq<u8>| answers(user, a, a_sequence, user_key, key);
        lemma_answer(user, a, a_sequence, user_key, key);
        assert(is_candidate(user, a, a_sequence, user_key, key));
        assert forall|other: Seq<u8>| #[trigger]
            user_view::visible(b, b_sequence, other) && user_view::same(
                user,
                user_view::user_of(other),
                user_view::user_of(key),
            ) && other != key implies InternalKeyComparator::over(user).less(key, other) by {
            user_view::lemma_same_less(
                user,
                user_view::user_of(key),
                user_key,
                user_view::user_of(other),
            );
            assert(is_candidate(user, b, b_sequence, user_key, other));
            assert(is_candidate(user, a, a_sequence, user_key, other));
        }
        assert(answers(user, b, b_sequence, user_key, key));
        lemma_answer(user, b, b_sequence, user_key, key);
    } else if exists|key: Seq<u8>| answers(user, b, b_sequence, user_key, key) {
        let key = choose|key: Seq<u8>| answers(user, b, b_sequence, user_key, key);
        assert(is_candidate(user, b, b_sequence, user_key, key));
        let found = lemma_some_answer(user, a, a_sequence, user_key, key);
    }
}

// ---------------------------------------------------------------------------
// Updates
// ---------------------------------------------------------------------------

/// The internal key under which an update is entered.
pub open spec fn entry_key(change: Change, sequence: nat) -> Seq<u8> {
    crate::format::internal_key_bytes(
        change.key(),
        sequence,
        match change {
            Change::Put { key: _, value: _ } => ValueType::Value,
            Change::Delete { key: _ } => ValueType::Deletion,
        },
    )
}

/// The value that an update enters.
pub open spec fn entry_value(change: Change) -> Seq<u8> {
    match change {
        Change::Put { key: _, value } => value,
        Change::Delete { key: _ } => Seq::empty(),
    }
}

/// The entries with some updates entered, from a sequence number on.
pub open spec fn applied(
    contents: Map<Seq<u8>, Seq<u8>>,
    start: nat,
    changes: Seq<Change>,
) -> Map<Seq<u8>, Seq<u8>>
    decreases changes.len(),
{
    if changes.len() == 0 {
        contents
    } else {
        applied(contents, start, changes.drop_last()).insert(
            entry_key(changes.last(), (start + changes.len() - 1) as nat),
            entry_value(changes.last()),
        )
    }
}

/// Whether all entries have sequence numbers below the given one.
pub open spec fn all_below(contents: Map<Seq<u8>, Seq<u8>>, sequence: nat) -> bool {
    forall|key: Seq<u8>| #[trigger]
        contents.contains_key(key) ==> (crate::format::parsed(key)->0).1 < sequence
}

/// What an update says of its key.
pub open spec fn change_says(change: Change) -> Seen {
    match change {
        Change::Put { key: _, value } => Seen::Value(value),
        Change::Delete { key: _ } => Seen::Deleted,
    }
}

/// What the last update of a key says, or what was seen before.
pub open spec fn last_said<C: Comparator>(
    user: C,
    changes: Seq<Change>,
    user_key: Seq<u8>,
    before: Seen,
) -> Seen
    decreases changes.len(),
{
    if changes.len() == 0 {
        before
    } else if user_view::same(user, changes.last().key(), user_key) {
        change_says(changes.last())
    } else {
        last_said(user, changes.drop_last(), user_key, before)
    }
}

/// An entry that is newer than all others.
pub proof fn lemma_entered<C: Comparator>(
    user: C,
    contents: Map<Seq<u8>, Seq<u8>>,
    sequence: nat,
    change: Change,
)
    requires
        contents_sound(user, contents),
        all_below(contents, sequence),
        sequence <= crate::format::MAX_SEQUENCE_NUMBER,
        user.admits(change.key()),
    ensures
        ({
            let key = entry_key(change, sequence);
            let after = contents.insert(key, entry_value(change));
            &&& contents_sound(user, after)
            &&& all_below(after, sequence + 1)
            &&& !contents.contains_key(key)
            &&& user_view::user_of(key) == change.key()
            &&& crate::format::parsed(key) == Some(
                (
                    change.key(),
                    sequence,
                    match change {
                        Change::Put { key: _, value: _ } => ValueType::Value,
                        Change::Delete { key: _ } => ValueType::Deletion,
                    },
                ),
            )
            &&& forall|other: Seq<u8>| #[trigger]
                contents.contains_key(other) && user_view::same(
                    user,
                    user_view::user_of(other),
                    change.key(),
                ) ==> InternalKeyComparator::over(user).less(key, other)
        }),
{
    let value_type = match change {
        Change::Put { key: _, value: _ } => ValueType::Value,
        Change::Delete { key: _ } => ValueType::Deletion,
    };
    let key = entry_key(change, sequence);
    let after = contents.insert(key, entry_value(change));
    crate::format::law_parse_round_trip(change.key(), sequence, value_type);
    InternalKeyComparator::<C>::lemma_over(user);
    let order = InternalKeyComparator::over(user);
    assert(user_view::user_of(key) == change.key());
    if contents.contains_key(key) {
        assert((crate::format::parsed(key)->0).1 < sequence);
    }
    assert forall|other: Seq<u8>| #[trigger] contents.contains_key(other) implies {
        &&& user_view::same(user, user_view::user_of(other), change.key()) ==> order.less(key, other)
        &&& order.less(key, other) || order.less(other, key)
    } by {
        lemma_tag_of_sequence(key, other);
        lemma_order_by_tag(user, key, other);
    }
    assert forall|a: Seq<u8>, b: Seq<u8>|
        #![trigger after.contains_key(a), after.contains_key(b)]
        after.contains_key(a) && after.contains_key(b) && a != b implies order.less(a, b)
        || order.less(b, a) by {
        if a == key {
            assert(contents.contains_key(b));
        } else if b == key {
            assert(contents.contains_key(a));
        } else {
            assert(contents.contains_key(a) && contents.contains_key(b));
        }
    }
    assert forall|other: Seq<u8>| #[trigger] after.contains_key(other) implies (
    crate::format::parsed(other)->0).1 < sequence + 1 by {
        if other != key {
            assert(contents.contains_key(other));
        }
    }
}

/// Of two internal keys the one with the greater sequence number has the greater
/// tag.
pub proof fn lemma_tag_of_sequence(newer: Seq<u8>, older: Seq<u8>)
    requires
        crate::format::parsed(newer) is Some,
        crate::format::parsed(older) is Some,
    ensures
        (crate::format::parsed(newer)->0).1 > (crate::format::parsed(older)->0).1
            ==> crate::format::tag_part(newer) > crate::format::tag_part(older),
{
    crate::format::lemma_tag_bounds(newer);
    crate::format::lemma_tag_bounds(older);
}

/// Internal keys with different tags are in an order; of one user key the greater
/// tag comes first.
pub proof fn lemma_order_by_tag<C: Comparator>(user: C, newer: Seq<u8>, older: Seq<u8>)
    requires
        crate::format::tag_part(newer) > crate::format::tag_part(older),
    ensures
        user_view::same(user, user_view::user_of(newer), user_view::user_of(older))
            ==> InternalKeyComparator::over(user).less(newer, older),
        user_view::same(user, user_view::user_of(older), user_view::user_of(newer))
            ==> InternalKeyComparator::over(user).less(newer, older),
        InternalKeyComparator::over(user).less(newer, older) || InternalKeyComparator::over(
            user,
        ).less(older, newer),
{
    InternalKeyComparator::<C>::lemma_over(user);
}

/// One update: it is seen from its sequence number on, by its key alone.
proof fn lemma_one_update<C: Comparator>(
    user: C,
    contents: Map<Seq<u8>, Seq<u8>>,
    at: nat,
    change: Change,
    sequence: nat,
    user_key: Seq<u8>,
)
    requires
        contents_sound(user, contents),
        all_below(contents, at),
        at <= crate::format::MAX_SEQUENCE_NUMBER,
        user.admits(change.key()),
        user.admits(user_key),
    ensures
        ({
            let after = contents.insert(entry_key(change, at), entry_value(change));
            seen_at(user, after, sequence, user_key) == if sequence >= at && user_view::same(
                user,
                change.key(),
                user_key,
            ) {
                change_says(change)
            } else {
                seen_at(user, contents, sequence, user_key)
            }
        }),
{
    let key = entry_key(change, at);
    let after = contents.insert(key, entry_value(change));
    lemma_entered(user, contents, at, change);
    if sequence >= at && user_view::same(user, change.key(), user_key) {
        assert(user_view::visible(after, sequence, key));
        assert forall|other: Seq<u8>| #[trigger]
            user_view::visible(after, sequence, other) && user_view::same(
                user,
                user_view::user_of(other),
                user_view::user_of(key),
            ) && other != key implies InternalKeyComparator::over(user).less(key, other) by {
            assert(contents.contains_key(other));
        }
        assert(answers(user, after, sequence, user_key, key));
        lemma_answer(user, after, sequence, user_key, key);
    } else {
        assert forall|other: Seq<u8>| #[trigger]
            is_candidate(user, after, sequence, user_key, other) implies is_candidate(
            user,
            contents,
            sequence,
            user_key,
            other,
        ) && after[other] == contents[other] by {
            if other == key {
                assert(user_view::visible(after, sequence, key));
            }
        }
        assert forall|other: Seq<u8>| #[trigger]
            is_candidate(user, contents, sequence, user_key, other) implies is_candidate(
            user,
            after,
            sequence,
            user_key,
            other,
        ) by {
            assert(after.contains_key(other));
        }
        lemma_same_candidates(user, after, contents, sequence, sequence, user_key);
    }
}

/// Whether the keys of some updates can be compared.
pub open spec fn all_admitted<C: Comparator>(user: C, changes: Seq<Change>) -> bool {
    forall|i: int| 0 <= i < changes.len() ==> user.admits((#[trigger] changes[i]).key())
}

/// Updates that are entered behind all others keep the entries in order.
pub proof fn lemma_applied<C: Comparator>(
    user: C,
    contents: Map<Seq<u8>, Seq<u8>>,
    start: nat,
    changes: Seq<Change>,
)
    requires
        contents_sound(user, contents),
        all_below(contents, start),
        start + changes.len() <= crate::format::MAX_SEQUENCE_NUMBER + 1,
        all_admitted(user, changes),
    ensures
        contents_sound(user, applied(contents, start, changes)),
        all_below(applied(contents, start, changes), start + changes.len()),
    decreases changes.len(),
{
    if changes.len() > 0 {
        lemma_applied(user, contents, start, changes.drop_last());
        lemma_entered(
            user,
            applied(contents, start, changes.drop_last()),
            (start + changes.len() - 1) as nat,
            changes.last(),
        );
    }
}

/// A lookup sees the last update of its key in a batch, and of other keys what it
/// saw before.
pub proof fn law_batch_is_seen<C: Comparator>(
    user: C,
    contents: Map<Seq<u8>, Seq<u8>>,
    start: nat,
    changes: Seq<Change>,
    sequence: nat,
    user_key: Seq<u8>,
)
    requires
        contents_sound(user, contents),
        all_below(contents, start),
        start + changes.len() <= crate::format::MAX_SEQUENCE_NUMBER + 1,
        all_admitted(user, changes),
        user.admits(user_key),
        sequence + 1 >= start + changes.len(),
    ensures
        seen_at(user, applied(contents, start, changes), sequence, user_key) == last_said(
            user,
            changes,
            user_key,
            seen_at(user, contents, sequence, user_key),
        ),
    decreases changes.len(),
{
    if changes.len() > 0 {
        let front = changes.drop_last();
        lemma_applied(user, contents, start, front);
        law_batch_is_seen(user, contents, start, front, sequence, user_key);
        lemma_one_update(
            user,
            applied(contents, start, front),
            (start + changes.len() - 1) as nat,
            changes.last(),
            sequence,
            user_key,
        );
    }
}

/// A lookup at an earlier sequence number sees nothing of a batch.
pub proof fn law_batch_is_hidden<C: Comparator>(
    user: C,
    contents: Map<Seq<u8>, Seq<u8>>,
    start: nat,
    changes: Seq<Change>,
    sequence: nat,
    user_key: Seq<u8>,
)
    requires
        contents_sound(user, contents),
        all_below(contents, start),
        start + changes.len() <= crate::format::MAX_SEQUENCE_NUMBER + 1,
        all_admitted(user, changes),
        user.admits(user_key),
        sequence < start,
    ensures
        seen_at(user, applied(contents, start, changes), sequence, user_key) == seen_at(
            user,
            contents,
            sequence,
            user_key,
        ),
    decreases changes.len(),
{
    if changes.len() > 0 {
        let front = changes.drop_last();
        lemma_applied(user, contents, start, front);
        law_batch_is_hidden(user, contents, start, front, sequence, user_key);
        lemma_one_update(
            user,
            applied(contents, start, front),
            (start + changes.len() - 1) as nat,
            changes.last(),
            sequence,
            user_key,
        );
    }
}

/// A value that was stored is what a lookup sees.
pub proof fn law_put_is_seen<C: Comparator>(
    user: C,
    contents: Map<Seq<u8>, Seq<u8>>,
    last: nat,
    key: Seq<u8>,
    value: Seq<u8>,
)
    requires
        contents_sound(user, contents),
        all_below(contents, last + 1),
        last < crate::format::MAX_SEQUENCE_NUMBER,
        user.admits(key),
    ensures
        seen_at(
            user,
            applied(contents, last + 1, seq![Change::Put { key, value }]),
            last + 1,
            key,
        ) == Seen::Value(value),
{
    let changes = seq![Change::Put { key, value }];
    law_batch_is_seen(user, contents, last + 1, changes, last + 1, key);
    user.less_irreflexive(key);
}

/// A key that was deleted is gone.
pub proof fn law_delete_is_seen<C: Comparator>(
    user: C,
    contents: Map<Seq<u8>, Seq<u8>>,
    last: nat,
    key: Seq<u8>,
)
    requires
        contents_sound(user, contents),
        all_below(contents, last + 1),
        last < crate::format::MAX_SEQUENCE_NUMBER,
        user.admits(key),
    ensures
        seen_at(
            user,
            applied(contents, last + 1, seq![Change::Delete { key }]),
            last + 1,
            key,
        ) == Seen::Deleted,
{
    let changes = seq![Change::Delete { key }];
    law_batch_is_seen(user, contents, last + 1, changes, last + 1, key);
    user.less_irreflexive(key);
}

// ---------------------------------------------------------------------------
// Layers
// ---------------------------------------------------------------------------

/// Whether the entries of each key in the first are newer than those in the second.
pub open spec fn shadows<C: Comparator>(
    user: C,
    newer: Map<Seq<u8>, Seq<u8>>,
    older: Map<Seq<u8>, Seq<u8>>,
) -> bool {
    forall|a: Seq<u8>, b: Seq<u8>|
        #![trigger newer.contains_key(a), older.contains_key(b)]
        newer.contains_key(a) && older.contains_key(b) && user_view::same(
            user,
            user_view::user_of(a),
            user_view::user_of(b),
        ) ==> (crate::format::parsed(a)->0).1 > (crate::format::parsed(b)->0).1
}

/// What is seen in a newer layer, or else in an older one.
pub open spec fn first_seen(newer: Seen, older: Seen) -> Seen {
    if newer is Nothing {
        older
    } else {
        newer
    }
}

/// To look into the newer layer first and into the older one only if nothing is
/// there is to look into both at once.
pub proof fn law_layers<C: Comparator>(
    user: C,
    newer: Map<Seq<u8>, Seq<u8>>,
    older: Map<Seq<u8>, Seq<u8>>,
    sequence: nat,
    user_key: Seq<u8>,
)
    requires
        contents_sound(user, newer),
        contents_sound(user, older),
        shadows(user, newer, older),
        user.admits(user_key),
    ensures
        contents_sound(user, older.union_prefer_right(newer)),
        seen_at(user, older.union_prefer_right(newer), sequence, user_key) == first_seen(
            seen_at(user, newer, sequence, user_key),
            seen_at(user, older, sequence, user_key),
        ),
{
    let both = older.union_prefer_right(newer);
    let order = InternalKeyComparator::over(user);
    assert(both.dom() =~= older.dom().union(newer.dom()));
    assert forall|a: Seq<u8>, b: Seq<u8>|
        #![trigger both.contains_key(a), both.contains_key(b)]
        both.contains_key(a) && both.contains_key(b) && a != b implies order.less(a, b)
        || order.less(b, a) by {
        if newer.contains_key(a) && newer.contains_key(b) {
        } else if older.contains_key(a) && older.contains_key(b) {
        } else if newer.contains_key(a) {
            lemma_layer_order(user, newer, older, a, b);
        } else {
            lemma_layer_order(user, newer, older, b, a);
        }
    }
    if exists|key: Seq<u8>| answers(user, newer, sequence, user_key, key) {
        let key = choose|key: Seq<u8>| answers(user, newer, sequence, user_key, key);
        lemma_answer(user, newer, sequence, user_key, key);
        assert forall|other: Seq<u8>| #[trigger]
            user_view::visible(both, sequence, other) && user_view::same(
                user,
                user_view::user_of(other),
                user_view::user_of(key),
            ) && other != key implies order.less(key, other) by {
            if newer.contains_key(other) {
                assert(user_view::visible(newer, sequence, other));
            } else {
                lemma_layer_order(user, newer, older, key, other);
            }
        }
        assert(user_view::visible(newer, sequence, key));
        assert(both.contains_key(key));
        assert(answers(user, both, sequence, user_key, key));
        lemma_answer(user, both, sequence, user_key, key);
    } else {
        assert forall|key: Seq<u8>| #[trigger]
            is_candidate(user, both, sequence, user_key, key) implies is_candidate(
            user,
            older,
            sequence,
            user_key,
            key,
        ) && both[key] == older[key] by {
            if newer.contains_key(key) {
                assert(is_candidate(user, newer, sequence, user_key, key));
                let found = lemma_some_answer(user, newer, sequence, user_key, key);
            }
        }
        assert forall|key: Seq<u8>| #[trigger]
            is_candidate(user, older, sequence, user_key, key) implies is_candidate(
            user,
            both,
            sequence,
            user_key,
            key,
        ) by {
            assert(both.contains_key(key));
        }
        lemma_same_candidates(user, both, older, sequence, sequence, user_key);
    }
}

/// An entry of the newer layer is in order with one of the older.
proof fn lemma_layer_order<C: Comparator>(
    user: C,
    newer: Map<Seq<u8>, Seq<u8>>,
    older: Map<Seq<u8>, Seq<u8>>,
    a: Seq<u8>,
    b: Seq<u8>,
)
    requires
        contents_sound(user, newer),
        contents_sound(user, older),
        shadows(user, newer, older),
        newer.contains_key(a),
        older.contains_key(b),
    ensures
        InternalKeyComparator::over(user).less(a, b) || InternalKeyComparator::over(user).less(
            b,
            a,
        ),
        user_view::same(user, user_view::user_of(a), user_view::user_of(b))
            ==> InternalKeyComparator::over(user).less(a, b),
        user_view::same(user, user_view::user_of(b), user_view::user_of(a))
            ==> InternalKeyComparator::over(user).less(a, b),
{
    InternalKeyComparator::<C>::lemma_over(user);
    if user_view::same(user, user_view::user_of(a), user_view::user_of(b)) {
        lemma_tag_of_sequence(a, b);
        lemma_order_by_tag(user, a, b);
    }
}

// ---------------------------------------------------------------------------
// Lookups and scans
// ---------------------------------------------------------------------------

/// A lookup sees a value just where a scan shows one under a key that counts as the
/// same.
pub proof fn law_lookup_and_scan_agree<C: Comparator>(
    user: C,
    contents: Map<Seq<u8>, Seq<u8>>,
    sequence: nat,
    user_key: Seq<u8>,
    value: Seq<u8>,
)
    requires
        contents_sound(user, contents),
        user.admits(user_key),
    ensures
        seen_at(user, contents, sequence, user_key) == Seen::Value(value) <==> exists|
            shown: Seq<u8>,
        |
            #[trigger] user_view::user_view(user, contents, sequence).contains_key(shown)
                && user_view::same(user, shown, user_key) && user_view::user_view(
                user,
                contents,
                sequence,
            )[shown] == value,
{
    let view = user_view::user_view(user, contents, sequence);
    if seen_at(user, contents, sequence, user_key) == Seen::Value(value) {
        let key = choose|key: Seq<u8>| answers(user, contents, sequence, user_key, key);
        assert(user_view::visible(contents, sequence, key));
        assert(user_view::shown(user, contents, sequence, key));
        let shown = user_view::user_of(key);
        assert(user_view::is_shown(user, contents, sequence, shown));
        assert(view.contains_key(shown));
        let other = choose|other: Seq<u8>| #[trigger]
            user_view::shown(user, contents, sequence, other) && user_view::user_of(other) == shown;
        assert(answers(user, contents, sequence, user_key, other));
        lemma_answer(user, contents, sequence, user_key, other);
        assert(view[shown] == value);
    }
    if exists|shown: Seq<u8>| #[trigger]
        view.contains_key(shown) && user_view::same(user, shown, user_key) && view[shown] == value {
        let shown = choose|shown: Seq<u8>| #[trigger]
            view.contains_key(shown) && user_view::same(user, shown, user_key) && view[shown]
                == value;
        assert(user_view::is_shown(user, contents, sequence, shown));
        let key = choose|key: Seq<u8>| #[trigger]
            user_view::shown(user, contents, sequence, key) && user_view::user_of(key) == shown;
        assert(answers(user, contents, sequence, user_key, key));
        lemma_answer(user, contents, sequence, user_key, key);
    }
}

} // verus!
