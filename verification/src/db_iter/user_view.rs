//! What a reader sees of the entries of a database at a sequence number.

use vstd::prelude::*;

use crate::comparator::Comparator;
use crate::db_iter::db_iterator;
use crate::db_iter::db_iterator::Scan;
use crate::format::InternalKeyComparator;
use crate::format::ValueType;

verus! {

/// The user key of an internal key.
pub open spec fn user_of(key: Seq<u8>) -> Seq<u8> {
    crate::format::user_part(key)
}

/// Whether two user keys count as the same.
pub open spec fn same<C: Comparator>(user: C, a: Seq<u8>, b: Seq<u8>) -> bool {
    !user.less(a, b) && !user.less(b, a)
}

/// Whether the entry under an internal key is seen at a sequence number.
pub open spec fn visible(
    contents: Map<Seq<u8>, Seq<u8>>,
    sequence: nat,
    key: Seq<u8>,
) -> bool {
    contents.contains_key(key) && (crate::format::parsed(key) matches Some(parts) && parts.1
        <= sequence)
}

/// Whether an entry is the newest of its user key that is seen.
pub open spec fn newest<C: Comparator>(
    user: C,
    contents: Map<Seq<u8>, Seq<u8>>,
    sequence: nat,
    key: Seq<u8>,
) -> bool {
    &&& visible(contents, sequence, key)
    &&& forall|other: Seq<u8>| #[trigger]
        visible(contents, sequence, other) && same(user, user_of(other), user_of(key)) && other
            != key ==> InternalKeyComparator::over(user).less(key, other)
}

/// Whether an entry is shown to the reader: the newest of its user key, and no
/// deletion.
pub open spec fn shown<C: Comparator>(
    user: C,
    contents: Map<Seq<u8>, Seq<u8>>,
    sequence: nat,
    key: Seq<u8>,
) -> bool {
    newest(user, contents, sequence, key) && (crate::format::parsed(key)->0).2 == ValueType::Value
}

/// Whether some entry shows a user key.
pub open spec fn is_shown<C: Comparator>(
    user: C,
    contents: Map<Seq<u8>, Seq<u8>>,
    sequence: nat,
    user_key: Seq<u8>,
) -> bool {
    exists|key: Seq<u8>| #[trigger]
        shown(user, contents, sequence, key) && user_of(key) == user_key
}

/// What the reader sees: user keys and values.
pub open spec fn user_view<C: Comparator>(
    user: C,
    contents: Map<Seq<u8>, Seq<u8>>,
    sequence: nat,
) -> Map<Seq<u8>, Seq<u8>> {
    Map::new(
        |user_key: Seq<u8>| is_shown(user, contents, sequence, user_key),
        |user_key: Seq<u8>|
            contents[choose|key: Seq<u8>| #[trigger]
                shown(user, contents, sequence, key) && user_of(key) == user_key],
    )
}

/// The entries are internal keys in a row.
pub open spec fn internal_row<C: Comparator>(user: C, scan: Scan) -> bool {
    &&& db_iterator::in_a_row(scan)
    &&& scan.before == crate::comparator::order_of(InternalKeyComparator::over(user))
    &&& forall|key: Seq<u8>| #[trigger]
        scan.contents.contains_key(key) ==> crate::format::parsed(key) is Some && user.admits(
            user_of(key),
        )
}

/// The order of internal keys follows that of user keys.
pub proof fn lemma_internal_less<C: Comparator>(user: C, a: Seq<u8>, b: Seq<u8>)
    ensures
        InternalKeyComparator::over(user).less(a, b) ==> !user.less(user_of(b), user_of(a))
            || user.less(user_of(a), user_of(b)),
        user.less(user_of(a), user_of(b)) ==> InternalKeyComparator::over(user).less(a, b),
        InternalKeyComparator::over(user).less(a, b) && !user.less(user_of(a), user_of(b))
            ==> crate::format::tag_part(a) > crate::format::tag_part(b),
{
    InternalKeyComparator::<C>::lemma_over(user);
}

/// Of two internal keys in order the user keys are in order, or the same.
pub proof fn lemma_user_order<C: Comparator>(user: C, a: Seq<u8>, b: Seq<u8>)
    requires
        user.admits(user_of(a)),
        user.admits(user_of(b)),
        InternalKeyComparator::over(user).less(a, b),
    ensures
        !user.less(user_of(b), user_of(a)),
{
    lemma_internal_less(user, a, b);
    if user.less(user_of(b), user_of(a)) && user.less(user_of(a), user_of(b)) {
        user.less_transitive(user_of(a), user_of(b), user_of(a));
        user.less_irreflexive(user_of(a));
    }
}

/// Keys that count as the same are before and behind the same keys.
pub proof fn lemma_same_less<C: Comparator>(user: C, a: Seq<u8>, b: Seq<u8>, c: Seq<u8>)
    requires
        user.admits(a),
        user.admits(b),
        user.admits(c),
        same(user, a, b),
    ensures
        user.less(a, c) == user.less(b, c),
        user.less(c, a) == user.less(c, b),
        same(user, a, c) == same(user, b, c),
{
    if user.less(a, c) {
        user.less_splits(a, b, c);
    }
    if user.less(b, c) {
        user.less_splits(b, a, c);
    }
    if user.less(c, a) {
        user.less_splits(c, b, a);
    }
    if user.less(c, b) {
        user.less_splits(c, a, b);
    }
}

/// If `a` is not behind `b` and `b` not behind `c`, then `a` is not behind `c`.
pub proof fn lemma_not_behind<C: Comparator>(user: C, a: Seq<u8>, b: Seq<u8>, c: Seq<u8>)
    requires
        user.admits(a),
        user.admits(b),
        user.admits(c),
        !user.less(b, a),
        !user.less(c, b),
    ensures
        !user.less(c, a),
{
    if user.less(c, a) {
        user.less_splits(c, b, a);
    }
}

/// Two entries that are shown have different user keys.
pub proof fn lemma_one_shown<C: Comparator>(
    user: C,
    scan: Scan,
    sequence: nat,
    a: Seq<u8>,
    b: Seq<u8>,
)
    requires
        internal_row(user, scan),
        newest(user, scan.contents, sequence, a),
        newest(user, scan.contents, sequence, b),
        same(user, user_of(a), user_of(b)),
    ensures
        a == b,
{
    if a != b {
        InternalKeyComparator::<C>::lemma_over(user);
        assert(visible(scan.contents, sequence, a));
        assert(visible(scan.contents, sequence, b));
        let order = InternalKeyComparator::over(user);
        assert(order.less(a, b));
        assert(order.less(b, a));
        order.less_transitive(a, b, a);
        order.less_irreflexive(a);
    }
}

/// What is shown is in the view.
pub proof fn lemma_view_has<C: Comparator>(user: C, scan: Scan, sequence: nat, key: Seq<u8>)
    requires
        internal_row(user, scan),
        shown(user, scan.contents, sequence, key),
    ensures
        user_view(user, scan.contents, sequence).contains_key(user_of(key)),
        user_view(user, scan.contents, sequence)[user_of(key)] == scan.contents[key],
{
    assert(is_shown(user, scan.contents, sequence, user_of(key)));
    let found = choose|found: Seq<u8>| #[trigger]
        shown(user, scan.contents, sequence, found) && user_of(found) == user_of(key);
    assert(visible(scan.contents, sequence, key));
    user.less_irreflexive(user_of(key));
    lemma_one_shown(user, scan, sequence, found, key);
}

// ---------------------------------------------------------------------------
// Sweeping forward
// ---------------------------------------------------------------------------

/// Whether an internal key lies ahead of a place; all do if there is none.
pub open spec fn is_passed<C: Comparator>(user: C, key: Seq<u8>, place: Option<Seq<u8>>) -> bool {
    place matches Some(at) ==> InternalKeyComparator::over(user).less(key, at)
}

/// Where a sweep stands. The user keys in `out` lie ahead of it. While `skipping`,
/// the entries of the user keys up to `saved` are not shown.
pub struct Sweep {
    pub place: Option<Seq<u8>>,
    pub skipping: bool,
    pub saved: Seq<u8>,
    pub out: spec_fn(Seq<u8>) -> bool,
    pub wanted: spec_fn(Seq<u8>) -> bool,
}

impl Sweep {
    /// Whether a user key is skipped.
    pub open spec fn skips<C: Comparator>(self, user: C, user_key: Seq<u8>) -> bool {
        self.skipping && !user.less(self.saved, user_key)
    }

    /// What was passed is out or skipped; what is to come is neither out nor ahead
    /// of what is skipped. The wanted user keys are those that are neither.
    pub open spec fn sound<C: Comparator>(
        self,
        user: C,
        contents: Map<Seq<u8>, Seq<u8>>,
        sequence: nat,
    ) -> bool {
        &&& self.skipping ==> user.admits(self.saved)
        &&& forall|x: Seq<u8>| #[trigger]
            visible(contents, sequence, x) ==> {
                let u = user_of(x);
                &&& is_passed(user, x, self.place) ==> (self.out)(u) || self.skips(user, u)
                &&& !is_passed(user, x, self.place) ==> !(self.out)(u) && (self.skipping
                    ==> !user.less(u, self.saved))
                &&& (self.out)(u) ==> !(self.wanted)(u)
                &&& self.skips(user, u) && shown(user, contents, sequence, x) ==> !(self.wanted)(u)
                &&& !(self.out)(u) && !self.skips(user, u) ==> (self.wanted)(u)
            }
        &&& forall|x: Seq<u8>, y: Seq<u8>|
            #![trigger visible(contents, sequence, x), visible(contents, sequence, y)]
            visible(contents, sequence, x) && visible(contents, sequence, y) && same(
                user,
                user_of(x),
                user_of(y),
            ) ==> (self.out)(user_of(x)) == (self.out)(user_of(y))
    }
}

/// A step past an entry that is not seen, or whose user key is out or skipped.
pub proof fn lemma_sweep_step<C: Comparator>(
    user: C,
    earlier: Scan,
    later: Scan,
    sequence: nat,
    sweep: Sweep,
)
    requires
        internal_row(user, earlier),
        earlier.current is Some,
        earlier.contents.contains_key(earlier.key()),
        sweep.place == Some(earlier.key()),
        sweep.sound(user, earlier.contents, sequence),
        visible(earlier.contents, sequence, earlier.key()) ==> sweep.skips(
            user,
            user_of(earlier.key()),
        ),
        later.same_source(earlier),
        later.after(earlier.key()),
    ensures
        (Sweep {
            place: match later.current {
                None => None,
                Some((key, _)) => Some(key),
            },
            ..sweep
        }).sound(user, later.contents, sequence),
{
    let contents = earlier.contents;
    let from = earlier.key();
    let order = InternalKeyComparator::over(user);
    InternalKeyComparator::<C>::lemma_over(user);
    let after = Sweep {
        place: match later.current {
            None => None,
            Some((key, _)) => Some(key),
        },
        ..sweep
    };
    assert forall|x: Seq<u8>| #[trigger] visible(contents, sequence, x) implies {
        let u = user_of(x);
        &&& is_passed(user, x, after.place) ==> (after.out)(u) || after.skips(user, u)
        &&& !is_passed(user, x, after.place) ==> !(after.out)(u) && (after.skipping ==> !user.less(
            u,
            after.saved,
        ))
    } by {
        assert(contents.contains_key(x));
        if x == from {
            if later.current is Some {
                assert(later.contents.contains_key(later.key()));
                assert(order.less(from, later.key()));
            }
        } else if order.less(from, x) {
            if later.current is Some {
                let to = later.key();
                assert(later.contents.contains_key(to));
                if x != to {
                    assert(order.less(to, x));
                    if order.less(x, to) {
                        order.less_transitive(to, x, to);
                        order.less_irreflexive(to);
                    }
                } else {
                    order.less_irreflexive(to);
                }
            }
            if order.less(x, from) {
                order.less_transitive(from, x, from);
                order.less_irreflexive(from);
            }
        } else {
            assert((earlier.before)(x, from));
            if later.current is Some {
                let to = later.key();
                assert(later.contents.contains_key(to));
                order.less_transitive(x, from, to);
            }
        }
    }
    assert(after.sound(user, contents, sequence));
}

/// A deletion that is seen hides what follows for its user key.
pub proof fn lemma_sweep_delete<C: Comparator>(
    user: C,
    scan: Scan,
    sequence: nat,
    sweep: Sweep,
    key: Seq<u8>,
)
    requires
        internal_row(user, scan),
        sweep.place == Some(key),
        sweep.sound(user, scan.contents, sequence),
        visible(scan.contents, sequence, key),
        (crate::format::parsed(key)->0).2 == ValueType::Deletion,
    ensures
        (Sweep { skipping: true, saved: user_of(key), ..sweep }).sound(
            user,
            scan.contents,
            sequence,
        ),
{
    let contents = scan.contents;
    let order = InternalKeyComparator::over(user);
    InternalKeyComparator::<C>::lemma_over(user);
    let after = Sweep { skipping: true, saved: user_of(key), ..sweep };
    let bound = user_of(key);
    assert(!is_passed(user, key, sweep.place)) by {
        order.less_irreflexive(key);
    }
    assert forall|x: Seq<u8>| #[trigger] visible(contents, sequence, x) implies {
        let u = user_of(x);
        &&& is_passed(user, x, after.place) ==> (after.out)(u) || after.skips(user, u)
        &&& !is_passed(user, x, after.place) ==> !(after.out)(u) && (after.skipping ==> !user.less(
            u,
            after.saved,
        ))
        &&& (after.out)(u) ==> !(after.wanted)(u)
        &&& after.skips(user, u) && shown(user, contents, sequence, x) ==> !(after.wanted)(u)
        &&& !(after.out)(u) && !after.skips(user, u) ==> (after.wanted)(u)
    } by {
        let u = user_of(x);
        assert(contents.contains_key(x));
        lemma_internal_less(user, x, key);
        if is_passed(user, x, after.place) {
            lemma_user_order(user, x, key);
        }
        if after.skips(user, u) && shown(user, contents, sequence, x) {
            if !is_passed(user, x, sweep.place) {
                assert(same(user, u, bound));
                assert(same(user, bound, u));
                if x != key {
                    assert(order.less(x, key));
                }
            }
        }
        if !(after.out)(u) && !after.skips(user, u) {
            if sweep.skips(user, u) {
                lemma_not_behind(user, u, sweep.saved, bound);
            }
        }
    }
}

/// A value that is seen and not skipped is the first of the wanted ones.
pub proof fn lemma_sweep_found<C: Comparator>(
    user: C,
    scan: Scan,
    sequence: nat,
    sweep: Sweep,
    key: Seq<u8>,
    view: Scan,
)
    requires
        internal_row(user, scan),
        sweep.place == Some(key),
        sweep.sound(user, scan.contents, sequence),
        visible(scan.contents, sequence, key),
        (crate::format::parsed(key)->0).2 == ValueType::Value,
        !sweep.skips(user, user_of(key)),
        view.contents == user_view(user, scan.contents, sequence),
        view.before == crate::comparator::order_of(user),
        view.current == Some((user_of(key), scan.contents[key])),
    ensures
        shown(user, scan.contents, sequence, key),
        view.on_least(sweep.wanted),
{
    let contents = scan.contents;
    let order = InternalKeyComparator::over(user);
    InternalKeyComparator::<C>::lemma_over(user);
    let u = user_of(key);
    assert(!is_passed(user, key, sweep.place)) by {
        order.less_irreflexive(key);
    }
    assert forall|other: Seq<u8>| #[trigger]
        visible(contents, sequence, other) && same(user, user_of(other), u) && other
            != key implies order.less(key, other) by {
        assert(contents.contains_key(other));
        if order.less(other, key) {
            assert(is_passed(user, other, sweep.place));
            if sweep.skips(user, user_of(other)) {
                lemma_same_less(user, user_of(other), u, sweep.saved);
            }
        } else {
            assert((scan.before)(key, other));
        }
    }
    assert(newest(user, contents, sequence, key));
    lemma_view_has(user, scan, sequence, key);
    assert forall|other: Seq<u8>| #[trigger]
        view.contents.contains_key(other) && (sweep.wanted)(other) && other != u implies (
    view.before)(u, other) by {
        let x = choose|x: Seq<u8>| #[trigger]
            shown(user, contents, sequence, x) && user_of(x) == other;
        assert(visible(contents, sequence, x));
        assert(contents.contains_key(x));
        assert(!is_passed(user, x, sweep.place));
        assert(x != key);
        assert((scan.before)(key, x));
        lemma_internal_less(user, key, x);
        lemma_user_order(user, key, x);
        if !user.less(u, other) {
            lemma_one_shown(user, scan, sequence, key, x);
        }
    }
}

/// At the end nothing wanted is left.
pub proof fn lemma_sweep_end<C: Comparator>(
    user: C,
    scan: Scan,
    sequence: nat,
    sweep: Sweep,
    view: Scan,
)
    requires
        sweep.place is None,
        sweep.sound(user, scan.contents, sequence),
        view.contents == user_view(user, scan.contents, sequence),
        view.current is None,
    ensures
        view.on_least(sweep.wanted),
{
    assert forall|other: Seq<u8>| #[trigger]
        view.contents.contains_key(other) implies !(sweep.wanted)(other) by {
        let x = choose|x: Seq<u8>| #[trigger]
            shown(user, scan.contents, sequence, x) && user_of(x) == other;
        assert(visible(scan.contents, sequence, x));
    }
}

// ---------------------------------------------------------------------------
// Sweeping back
// ---------------------------------------------------------------------------

/// Whether an internal key lies at a place or ahead of it.
pub open spec fn is_upto<C: Comparator>(user: C, key: Seq<u8>, place: Option<Seq<u8>>) -> bool {
    place matches Some(at) && !InternalKeyComparator::over(user).less(at, key)
}

/// Where a sweep back stands. `held` is the first of the seen entries that were
/// passed.
pub struct Retreat {
    pub place: Option<Seq<u8>>,
    pub held: Option<Seq<u8>>,
    pub wanted: spec_fn(Seq<u8>) -> bool,
}

impl Retreat {
    /// What is to come is wanted. What was passed and is wanted lies behind the
    /// entry that is held, and none of it with a greater user key is shown.
    pub open spec fn sound<C: Comparator>(
        self,
        user: C,
        contents: Map<Seq<u8>, Seq<u8>>,
        sequence: nat,
    ) -> bool {
        &&& forall|x: Seq<u8>| #[trigger]
            visible(contents, sequence, x) ==> {
                let u = user_of(x);
                &&& is_upto(user, x, self.place) ==> (self.wanted)(u)
                &&& !is_upto(user, x, self.place) && (self.wanted)(u) ==> (self.held matches Some(
                    held,
                ) && !InternalKeyComparator::over(user).less(x, held) && (shown(
                    user,
                    contents,
                    sequence,
                    x,
                ) ==> !user.less(user_of(held), u)))
            }
        &&& self.held matches Some(held) ==> visible(contents, sequence, held) && (self.wanted)(
            user_of(held),
        ) && !is_upto(user, held, self.place)
        &&& forall|x: Seq<u8>, y: Seq<u8>|
            #![trigger visible(contents, sequence, x), visible(contents, sequence, y)]
            visible(contents, sequence, x) && visible(contents, sequence, y) && same(
                user,
                user_of(x),
                user_of(y),
            ) ==> (self.wanted)(user_of(x)) == (self.wanted)(user_of(y))
    }
}

/// A step back past an entry. One that is seen is held from then on, which must
/// not lose a value that is held already.
#[verifier::spinoff_prover]
#[verifier::rlimit(40)]
pub proof fn lemma_retreat_step<C: Comparator>(
    user: C,
    earlier: Scan,
    later: Scan,
    sequence: nat,
    retreat: Retreat,
)
    requires
        internal_row(user, earlier),
        earlier.current is Some,
        earlier.contents.contains_key(earlier.key()),
        retreat.place == Some(earlier.key()),
        retreat.sound(user, earlier.contents, sequence),
        visible(earlier.contents, sequence, earlier.key()) ==> (retreat.held matches Some(held)
            ==> (crate::format::parsed(held)->0).2 == ValueType::Deletion || !user.less(
            user_of(earlier.key()),
            user_of(held),
        )),
        later.same_source(earlier),
        later.ahead_of(earlier.key()),
    ensures
        (Retreat {
            place: match later.current {
                None => None,
                Some((key, _)) => Some(key),
            },
            held: if visible(earlier.contents, sequence, earlier.key()) {
                Some(earlier.key())
            } else {
                retreat.held
            },
            ..retreat
        }).sound(user, later.contents, sequence),
{
    let contents = earlier.contents;
    let from = earlier.key();
    let order = InternalKeyComparator::over(user);
    InternalKeyComparator::<C>::lemma_over(user);
    let after = Retreat {
        place: match later.current {
            None => None,
            Some((key, _)) => Some(key),
        },
        held: if visible(contents, sequence, from) {
            Some(from)
        } else {
            retreat.held
        },
        ..retreat
    };
    order.less_irreflexive(from);
    // What lies up to the new place is what lay up to the old one, but for the
    // entry that was passed.
    assert forall|x: Seq<u8>| contents.contains_key(x) implies #[trigger] is_upto(
        user,
        x,
        after.place,
    ) == (is_upto(user, x, retreat.place) && x != from) by {
        if x != from {
            assert((earlier.before)(x, from) || (earlier.before)(from, x));
        }
        if later.current is Some {
            let to = later.key();
            assert(later.contents.contains_key(to));
            assert(order.less(to, from));
            if x != from && order.less(x, from) {
                if x != to {
                    assert(order.less(x, to));
                    if order.less(to, x) {
                        order.less_transitive(to, x, to);
                        order.less_irreflexive(to);
                    }
                } else {
                    order.less_irreflexive(to);
                }
                if order.less(from, x) {
                    order.less_transitive(from, x, from);
                }
            }
            if x != from && order.less(from, x) {
                order.less_transitive(to, from, x);
            }
        } else if x != from && order.less(x, from) {
            assert(later.contents.contains_key(x));
        }
    }
    assert forall|x: Seq<u8>| #[trigger] visible(contents, sequence, x) implies {
        let u = user_of(x);
        &&& is_upto(user, x, after.place) ==> (after.wanted)(u)
        &&& !is_upto(user, x, after.place) && (after.wanted)(u) ==> (after.held matches Some(held)
            && !order.less(x, held) && (shown(user, contents, sequence, x) ==> !user.less(
            user_of(held),
            u,
        )))
    } by {
        let u = user_of(x);
        assert(contents.contains_key(x));
        if !is_upto(user, x, after.place) && (after.wanted)(u) && visible(
            contents,
            sequence,
            from,
        ) {
            if x == from {
                user.less_irreflexive(u);
            } else {
                assert(!is_upto(user, x, retreat.place));
                assert(order.less(from, x));
                if order.less(x, from) {
                    order.less_transitive(from, x, from);
                }
                if shown(user, contents, sequence, x) && user.less(user_of(from), u) {
                    let held = retreat.held->0;
                    assert(visible(contents, sequence, held));
                    assert(contents.contains_key(held));
                    assert(!is_upto(user, held, retreat.place));
                    assert(order.less(from, held));
                    lemma_internal_less(user, x, held);
                    assert(same(user, u, user_of(held)));
                    assert(same(user, user_of(held), u));
                    if x != held {
                        assert(order.less(x, held));
                    }
                    assert(x == held);
                    lemma_user_order(user, from, held);
                }
            }
        }
    }
    if visible(contents, sequence, from) {
        assert(is_upto(user, from, retreat.place));
    } else if retreat.held is Some {
        assert(contents.contains_key(retreat.held->0));
    }
}

/// A value that is held when its user key ends is the last of the wanted ones.
pub proof fn lemma_retreat_found<C: Comparator>(
    user: C,
    scan: Scan,
    sequence: nat,
    retreat: Retreat,
    view: Scan,
)
    requires
        internal_row(user, scan),
        retreat.sound(user, scan.contents, sequence),
        retreat.held matches Some(held) && (crate::format::parsed(held)->0).2 == ValueType::Value,
        retreat.place matches Some(at) ==> scan.contents.contains_key(at) && user.less(
            user_of(at),
            user_of(retreat.held->0),
        ),
        view.contents == user_view(user, scan.contents, sequence),
        view.before == crate::comparator::order_of(user),
        view.current == Some((user_of(retreat.held->0), scan.contents[retreat.held->0])),
    ensures
        shown(user, scan.contents, sequence, retreat.held->0),
        view.on_greatest(retreat.wanted),
{
    let contents = scan.contents;
    let order = InternalKeyComparator::over(user);
    InternalKeyComparator::<C>::lemma_over(user);
    let held = retreat.held->0;
    let u = user_of(held);
    assert(visible(contents, sequence, held));
    assert(contents.contains_key(held));
    // What lies up to the place has a smaller user key.
    assert forall|x: Seq<u8>| #[trigger]
        visible(contents, sequence, x) && is_upto(user, x, retreat.place) implies user.less(
        user_of(x),
        u,
    ) by {
        let at = retreat.place->0;
        assert(contents.contains_key(x));
        assert(contents.contains_key(at));
        lemma_internal_less(user, at, x);
        if !user.less(user_of(x), u) {
            user.less_splits(user_of(at), user_of(x), u);
        }
    }
    assert forall|other: Seq<u8>| #[trigger]
        visible(contents, sequence, other) && same(user, user_of(other), u) && other
            != held implies order.less(held, other) by {
        assert(contents.contains_key(other));
        assert(!is_upto(user, other, retreat.place));
        assert((retreat.wanted)(user_of(other)));
        assert(!order.less(other, held));
        assert((scan.before)(held, other) || (scan.before)(other, held));
    }
    assert(newest(user, contents, sequence, held));
    lemma_view_has(user, scan, sequence, held);
    assert forall|other: Seq<u8>| #[trigger]
        view.contents.contains_key(other) && (retreat.wanted)(other) && other != u implies (
    view.before)(other, u) by {
        let x = choose|x: Seq<u8>| #[trigger]
            shown(user, contents, sequence, x) && user_of(x) == other;
        assert(visible(contents, sequence, x));
        assert(contents.contains_key(x));
        if !is_upto(user, x, retreat.place) {
            lemma_internal_less(user, x, held);
            if !user.less(other, u) {
                lemma_one_shown(user, scan, sequence, x, held);
            }
        }
    }
}

/// When no value is held at the end, nothing wanted is shown.
pub proof fn lemma_retreat_end<C: Comparator>(
    user: C,
    scan: Scan,
    sequence: nat,
    retreat: Retreat,
    view: Scan,
)
    requires
        internal_row(user, scan),
        retreat.sound(user, scan.contents, sequence),
        retreat.place is None,
        retreat.held matches Some(held) ==> (crate::format::parsed(held)->0).2
            == ValueType::Deletion,
        view.contents == user_view(user, scan.contents, sequence),
        view.current is None,
    ensures
        view.on_greatest(retreat.wanted),
{
    let contents = scan.contents;
    assert forall|other: Seq<u8>| #[trigger]
        view.contents.contains_key(other) implies !(retreat.wanted)(other) by {
        let x = choose|x: Seq<u8>| #[trigger]
            shown(user, contents, sequence, x) && user_of(x) == other;
        assert(visible(contents, sequence, x));
        if (retreat.wanted)(other) {
            let held = retreat.held->0;
            assert(visible(contents, sequence, held));
            lemma_internal_less(user, x, held);
            assert(same(user, user_of(held), other));
            if x != held {
                assert(InternalKeyComparator::over(user).less(x, held));
            }
        }
    }
}

} // verus!
