//! The iterator that all sources of sorted entries offer.

use vstd::prelude::*;

use crate::comparator;
use crate::comparator::Comparator;
use crate::status;
use crate::status::Status;

verus! {

/// What an iterator stands for.
#[verifier::ext_equal]
pub struct Scan {
    /// The entries that it runs over.
    pub contents: Map<Seq<u8>, Seq<u8>>,
    /// The order in which it runs over them.
    pub before: spec_fn(Seq<u8>, Seq<u8>) -> bool,
    /// The keys that may be sought.
    pub admits: spec_fn(Seq<u8>) -> bool,
    /// Whether the source is sound, so that moving about follows the entries.
    pub intact: bool,
    /// Whether a sound source can always be read.
    pub steady: bool,
    /// The entry that it stands on.
    pub current: Option<(Seq<u8>, Seq<u8>)>,
    /// What went wrong so far.
    pub failure: Option<Status>,
}

impl Scan {
    /// Whether two sources hold the same.
    pub open spec fn alike(self, other: Scan) -> bool {
        &&& self.contents == other.contents
        &&& self.before == other.before
        &&& self.admits == other.admits
        &&& self.intact == other.intact
    }

    /// Whether two iterators run over the same source.
    pub open spec fn same_source(self, other: Scan) -> bool {
        self.alike(other) && self.steady == other.steady
    }

    /// The source is sound, and nothing went wrong so far.
    pub open spec fn good(self) -> bool {
        self.intact && self.failure is None
    }

    /// Something went wrong with a sound source.
    pub open spec fn broken(self) -> bool {
        self.intact && self.failure is Some
    }

    /// What went wrong with a sound source stays told.
    pub open spec fn keeps(self, earlier: Scan) -> bool {
        earlier.broken() ==> self.failure is Some
    }

    /// Nothing goes wrong on a sound source that can always be read.
    pub open spec fn calm(self) -> bool {
        self.intact && self.steady ==> self.failure is None
    }

    /// The key of the entry that the iterator stands on.
    pub open spec fn key(self) -> Seq<u8> {
        (self.current->0).0
    }

    /// The value of the entry that the iterator stands on.
    pub open spec fn value(self) -> Seq<u8> {
        (self.current->0).1
    }

    /// The iterator stands on the least of the wanted entries; nowhere if none
    /// is wanted.
    pub open spec fn on_least(self, wanted: spec_fn(Seq<u8>) -> bool) -> bool {
        match self.current {
            Some((key, value)) => self.contents.contains_key(key) && self.contents[key] == value
                && wanted(key) && forall|other: Seq<u8>| #[trigger]
                self.contents.contains_key(other) && wanted(other) && other != key ==> (self.before)(
                    key,
                    other,
                ),
            None => forall|other: Seq<u8>| #[trigger]
                self.contents.contains_key(other) ==> !wanted(other),
        }
    }

    /// The iterator stands on the greatest of the wanted entries; nowhere if
    /// none is wanted.
    pub open spec fn on_greatest(self, wanted: spec_fn(Seq<u8>) -> bool) -> bool {
        match self.current {
            Some((key, value)) => self.contents.contains_key(key) && self.contents[key] == value
                && wanted(key) && forall|other: Seq<u8>| #[trigger]
                self.contents.contains_key(other) && wanted(other) && other != key ==> (self.before)(
                    other,
                    key,
                ),
            None => forall|other: Seq<u8>| #[trigger]
                self.contents.contains_key(other) ==> !wanted(other),
        }
    }

    /// On the first entry of all.
    pub open spec fn at_first(self) -> bool {
        self.on_least(|key: Seq<u8>| true)
    }

    /// On the last entry of all.
    pub open spec fn at_last(self) -> bool {
        self.on_greatest(|key: Seq<u8>| true)
    }

    /// On the first entry that is not before `target`.
    pub open spec fn at_or_after(self, target: Seq<u8>) -> bool {
        self.on_least(|key: Seq<u8>| !(self.before)(key, target))
    }

    /// On the first entry that `place` is before.
    pub open spec fn after(self, place: Seq<u8>) -> bool {
        self.on_least(|key: Seq<u8>| (self.before)(place, key))
    }

    /// On the last entry that is before `place`.
    pub open spec fn ahead_of(self, place: Seq<u8>) -> bool {
        self.on_greatest(|key: Seq<u8>| (self.before)(key, place))
    }
}

// ---------------------------------------------------------------------------
// Orders
// ---------------------------------------------------------------------------

/// A strict weak order on the keys that are admitted.
#[verifier::opaque]
pub open spec fn is_order(
    before: spec_fn(Seq<u8>, Seq<u8>) -> bool,
    admits: spec_fn(Seq<u8>) -> bool,
) -> bool {
    &&& forall|a: Seq<u8>| admits(a) ==> !(#[trigger] before(a, a))
    &&& forall|a: Seq<u8>, b: Seq<u8>, c: Seq<u8>|
        admits(a) && admits(b) && admits(c) && #[trigger] before(a, b) && #[trigger] before(
            b,
            c,
        ) ==> before(a, c)
    &&& forall|a: Seq<u8>, b: Seq<u8>, c: Seq<u8>|
        admits(a) && admits(b) && admits(c) && before(a, c) ==> #[trigger] before(a, b)
            || #[trigger] before(b, c)
}

/// Of two keys at most one is before the other.
pub proof fn lemma_order_asymmetric(
    before: spec_fn(Seq<u8>, Seq<u8>) -> bool,
    admits: spec_fn(Seq<u8>) -> bool,
    a: Seq<u8>,
    b: Seq<u8>,
)
    requires
        is_order(before, admits),
        admits(a),
        admits(b),
        before(a, b),
    ensures
        !before(b, a),
        a != b,
{
    reveal(is_order);
    if before(b, a) {
        assert(before(a, a));
    }
}

pub proof fn lemma_order_transitive(
    before: spec_fn(Seq<u8>, Seq<u8>) -> bool,
    admits: spec_fn(Seq<u8>) -> bool,
    a: Seq<u8>,
    b: Seq<u8>,
    c: Seq<u8>,
)
    requires
        is_order(before, admits),
        admits(a),
        admits(b),
        admits(c),
        before(a, b),
        before(b, c),
    ensures
        before(a, c),
{
    reveal(is_order);
}

pub proof fn lemma_order_splits(
    before: spec_fn(Seq<u8>, Seq<u8>) -> bool,
    admits: spec_fn(Seq<u8>) -> bool,
    a: Seq<u8>,
    b: Seq<u8>,
    c: Seq<u8>,
)
    requires
        is_order(before, admits),
        admits(a),
        admits(b),
        admits(c),
        before(a, c),
    ensures
        before(a, b) || before(b, c),
{
    reveal(is_order);
    assert(before(a, b) || before(b, c));
}

/// The order of a comparator is one.
pub proof fn lemma_comparator_order<C: Comparator>(comparator: C)
    ensures
        is_order(comparator::order_of(comparator), comparator::domain_of(comparator)),
{
    reveal(is_order);
    let before = comparator::order_of(comparator);
    let admits = comparator::domain_of(comparator);
    assert forall|a: Seq<u8>| admits(a) implies !(#[trigger] before(a, a)) by {
        comparator.less_irreflexive(a);
    }
    assert forall|a: Seq<u8>, b: Seq<u8>, c: Seq<u8>|
        admits(a) && admits(b) && admits(c) && #[trigger] before(a, b) && #[trigger] before(
            b,
            c,
        ) implies before(a, c) by {
        comparator.less_transitive(a, b, c);
    }
    assert forall|a: Seq<u8>, b: Seq<u8>, c: Seq<u8>|
        admits(a) && admits(b) && admits(c) && before(a, c) implies #[trigger] before(a, b)
        || #[trigger] before(b, c) by {
        comparator.less_splits(a, b, c);
    }
}

/// The keys are admitted and stand in a row, and there are no more of them than 64
/// bits can count.
pub open spec fn in_a_row(scan: Scan) -> bool {
    &&& is_order(scan.before, scan.admits)
    &&& scan.contents.dom().finite()
    &&& scan.contents.dom().len() <= u64::MAX
    &&& forall|a: Seq<u8>| #[trigger] scan.contents.contains_key(a) ==> (scan.admits)(a)
    &&& forall|a: Seq<u8>, b: Seq<u8>|
        #![trigger scan.contents.contains_key(a), scan.contents.contains_key(b)]
        scan.contents.contains_key(a) && scan.contents.contains_key(b) && a != b ==> (scan.before)(
            a,
            b,
        ) || (scan.before)(b, a)
}

/// How many entries there are from the current one on.
pub open spec fn ahead(scan: Scan) -> nat {
    match scan.current {
        None => 0,
        Some((key, _)) => scan.contents.dom().filter(
            |other: Seq<u8>| !(scan.before)(other, key),
        ).len(),
    }
}

/// How many entries there are up to the current one.
pub open spec fn behind(scan: Scan) -> nat {
    match scan.current {
        None => 0,
        Some((key, _)) => scan.contents.dom().filter(
            |other: Seq<u8>| !(scan.before)(key, other),
        ).len(),
    }
}

/// There are no more entries ahead than there are in all.
pub proof fn lemma_ahead_bounded(scan: Scan)
    requires
        in_a_row(scan),
    ensures
        ahead(scan) <= u64::MAX,
        behind(scan) <= u64::MAX,
{
    match scan.current {
        None => {},
        Some((key, _)) => {
            let dom = scan.contents.dom();
            dom.lemma_len_filter(|other: Seq<u8>| !(scan.before)(other, key));
            dom.lemma_len_filter(|other: Seq<u8>| !(scan.before)(key, other));
        },
    }
}

/// A step on leaves fewer entries ahead.
pub proof fn lemma_ahead_falls(earlier: Scan, later: Scan)
    requires
        in_a_row(earlier),
        later.same_source(earlier),
        earlier.current is Some,
        earlier.contents.contains_key(earlier.key()),
        later.after(earlier.key()),
    ensures
        ahead(later) < ahead(earlier),
{
    let dom = earlier.contents.dom();
    let key = earlier.key();
    let old_set = dom.filter(|other: Seq<u8>| !(earlier.before)(other, key));
    reveal(is_order);
    assert(old_set.contains(key));
    match later.current {
        None => {
            vstd::set_lib::lemma_len_subset(Set::<Seq<u8>>::empty().insert(key), old_set);
        },
        Some((next, _)) => {
            let new_set = dom.filter(|other: Seq<u8>| !(later.before)(other, next));
            assert(later.contents.contains_key(next));
            assert(new_set.subset_of(old_set.remove(key))) by {
                assert forall|other: Seq<u8>| new_set.contains(other) implies old_set.remove(
                    key,
                ).contains(other) by {
                    assert(earlier.contents.contains_key(other));
                    if (earlier.before)(other, key) {
                        lemma_order_transitive(
                            earlier.before,
                            earlier.admits,
                            other,
                            key,
                            next,
                        );
                    }
                }
            }
            vstd::set_lib::lemma_len_subset(new_set, old_set.remove(key));
        },
    }
}

/// A step back leaves fewer entries behind.
pub proof fn lemma_behind_falls(earlier: Scan, later: Scan)
    requires
        in_a_row(earlier),
        later.same_source(earlier),
        earlier.current is Some,
        earlier.contents.contains_key(earlier.key()),
        later.ahead_of(earlier.key()),
    ensures
        behind(later) < behind(earlier),
{
    let dom = earlier.contents.dom();
    let key = earlier.key();
    let old_set = dom.filter(|other: Seq<u8>| !(earlier.before)(key, other));
    reveal(is_order);
    assert(old_set.contains(key));
    match later.current {
        None => {
            vstd::set_lib::lemma_len_subset(Set::<Seq<u8>>::empty().insert(key), old_set);
        },
        Some((next, _)) => {
            let new_set = dom.filter(|other: Seq<u8>| !(later.before)(next, other));
            assert(later.contents.contains_key(next));
            assert(new_set.subset_of(old_set.remove(key))) by {
                assert forall|other: Seq<u8>| new_set.contains(other) implies old_set.remove(
                    key,
                ).contains(other) by {
                    assert(earlier.contents.contains_key(other));
                    if (earlier.before)(key, other) {
                        lemma_order_transitive(
                            earlier.before,
                            earlier.admits,
                            next,
                            key,
                            other,
                        );
                    }
                }
            }
            vstd::set_lib::lemma_len_subset(new_set, old_set.remove(key));
        },
    }
}

/// Some entry is ahead where there is a current one.
pub proof fn lemma_ahead_positive(scan: Scan)
    requires
        in_a_row(scan),
        scan.current is Some,
        scan.contents.contains_key(scan.key()),
    ensures
        ahead(scan) > 0,
        behind(scan) > 0,
{
    reveal(is_order);
    let key = scan.key();
    let dom = scan.contents.dom();
    let one = Set::<Seq<u8>>::empty().insert(key);
    let from = dom.filter(|other: Seq<u8>| !(scan.before)(other, key));
    let upto = dom.filter(|other: Seq<u8>| !(scan.before)(key, other));
    assert(from.contains(key));
    assert(upto.contains(key));
    vstd::set_lib::lemma_len_subset(one, from);
    vstd::set_lib::lemma_len_subset(one, upto);
}

/// Sorted entries stand in a row.
pub proof fn lemma_sorted_row<C: Comparator>(scan: Scan, comparator: C, entries: Seq<Pair>)
    requires
        runs_over(scan, comparator, entries),
        scan.admits == comparator::domain_of(comparator),
        entries.len() <= u64::MAX,
    ensures
        in_a_row(scan),
        scan.contents.dom().len() <= entries.len(),
{
    lemma_comparator_order(comparator);
    let keys = Seq::new(entries.len(), |i: int| entries[i].0);
    let dom = scan.contents.dom();
    assert(dom =~= keys.to_set()) by {
        assert forall|key: Seq<u8>| #[trigger] dom.contains(key) == keys.to_set().contains(
            key,
        ) by {
            if has_key(entries, key) {
                let i = choose|i: int| 0 <= i < entries.len() && #[trigger] entries[i].0 == key;
                assert(keys[i] == key);
            }
            if keys.contains(key) {
                let i = choose|i: int| 0 <= i < keys.len() && keys[i] == key;
                assert(entries[i].0 == key);
            }
        }
    }
    vstd::seq_lib::seq_to_set_is_finite(keys);
    keys.lemma_cardinality_of_set();
    assert forall|a: Seq<u8>, b: Seq<u8>|
        #![trigger scan.contents.contains_key(a), scan.contents.contains_key(b)]
        scan.contents.contains_key(a) && scan.contents.contains_key(b) && a != b implies (
    scan.before)(a, b) || (scan.before)(b, a) by {
        let i = choose|i: int| 0 <= i < entries.len() && #[trigger] entries[i].0 == a;
        let j = choose|j: int| 0 <= j < entries.len() && #[trigger] entries[j].0 == b;
        if i < j {
            assert(comparator.less(entries[i].0, entries[j].0));
        } else {
            assert(comparator.less(entries[j].0, entries[i].0));
        }
    }
}

// ---------------------------------------------------------------------------
// Entries in a row
// ---------------------------------------------------------------------------

/// A key and its value.
pub type Pair = (Seq<u8>, Seq<u8>);

/// The entries are in the order of the comparator, and no two share a key.
pub open spec fn sorted<C: Comparator>(comparator: C, entries: Seq<Pair>) -> bool {
    &&& forall|i: int| 0 <= i < entries.len() ==> comparator.admits(#[trigger] entries[i].0)
    &&& forall|i: int, j: int|
        0 <= i < j < entries.len() ==> comparator.less(
            #[trigger] entries[i].0,
            #[trigger] entries[j].0,
        )
}

/// Whether some entry has the given key.
pub open spec fn has_key(entries: Seq<Pair>, key: Seq<u8>) -> bool {
    exists|i: int| 0 <= i < entries.len() && #[trigger] entries[i].0 == key
}

/// The entries as a map.
pub open spec fn map_of(entries: Seq<Pair>) -> Map<Seq<u8>, Seq<u8>> {
    Map::new(
        |key: Seq<u8>| has_key(entries, key),
        |key: Seq<u8>|
            entries[choose|i: int| 0 <= i < entries.len() && #[trigger] entries[i].0 == key].1,
    )
}

/// Each of the sorted entries is in the map.
pub proof fn lemma_map_of<C: Comparator>(comparator: C, entries: Seq<Pair>, index: int)
    requires
        sorted(comparator, entries),
        0 <= index < entries.len(),
    ensures
        map_of(entries).contains_key(entries[index].0),
        map_of(entries)[entries[index].0] == entries[index].1,
{
    let key = entries[index].0;
    assert(has_key(entries, key));
    let found = choose|i: int| 0 <= i < entries.len() && #[trigger] entries[i].0 == key;
    comparator.less_irreflexive(key);
    assert(found == index);
}

/// Of two sorted entries only the first is before the other.
pub proof fn lemma_sorted_order<C: Comparator>(comparator: C, entries: Seq<Pair>, i: int, j: int)
    requires
        sorted(comparator, entries),
        0 <= i <= j < entries.len(),
    ensures
        !comparator.less(entries[j].0, entries[i].0),
        i < j ==> comparator.less(entries[i].0, entries[j].0),
{
    comparator.less_irreflexive(entries[i].0);
    if i < j && comparator.less(entries[j].0, entries[i].0) {
        comparator.less_transitive(entries[i].0, entries[j].0, entries[i].0);
    }
}

/// The entry at an index; nothing outside.
pub open spec fn pair_at(entries: Seq<Pair>, index: int) -> Option<Pair> {
    if 0 <= index < entries.len() {
        Some(entries[index])
    } else {
        None
    }
}

/// The scan runs over the entries.
pub open spec fn runs_over<C: Comparator>(scan: Scan, comparator: C, entries: Seq<Pair>) -> bool {
    &&& sorted(comparator, entries)
    &&& scan.contents == map_of(entries)
    &&& scan.before == comparator::order_of(comparator)
}

pub proof fn lemma_at_first<C: Comparator>(scan: Scan, comparator: C, entries: Seq<Pair>)
    requires
        runs_over(scan, comparator, entries),
        scan.current == pair_at(entries, 0),
    ensures
        scan.at_first(),
{
    if entries.len() > 0 {
        lemma_map_of(comparator, entries, 0);
        assert forall|other: Seq<u8>| #[trigger]
            scan.contents.contains_key(other) && other != entries[0].0 implies (scan.before)(
            entries[0].0,
            other,
        ) by {
            assert(has_key(entries, other));
        }
    }
}

pub proof fn lemma_at_last<C: Comparator>(scan: Scan, comparator: C, entries: Seq<Pair>)
    requires
        runs_over(scan, comparator, entries),
        scan.current == pair_at(entries, entries.len() - 1),
    ensures
        scan.at_last(),
{
    if entries.len() > 0 {
        let last = entries.len() - 1;
        lemma_map_of(comparator, entries, last);
        assert forall|other: Seq<u8>| #[trigger]
            scan.contents.contains_key(other) && other != entries[last].0 implies (scan.before)(
            other,
            entries[last].0,
        ) by {
            assert(has_key(entries, other));
        }
    }
}

pub proof fn lemma_after<C: Comparator>(
    scan: Scan,
    comparator: C,
    entries: Seq<Pair>,
    index: int,
)
    requires
        runs_over(scan, comparator, entries),
        0 <= index < entries.len(),
        scan.current == pair_at(entries, index + 1),
    ensures
        scan.after(entries[index].0),
{
    assert forall|other: Seq<u8>| #[trigger]
        scan.contents.contains_key(other) && (scan.before)(entries[index].0, other) implies exists|
        j: int,
    | index < j < entries.len() && #[trigger] entries[j].0 == other by {
        assert(has_key(entries, other));
        let j = choose|j: int| 0 <= j < entries.len() && #[trigger] entries[j].0 == other;
        if j <= index {
            lemma_sorted_order(comparator, entries, j, index);
        }
    }
    if index + 1 < entries.len() {
        lemma_map_of(comparator, entries, index + 1);
    }
}

pub proof fn lemma_ahead_of<C: Comparator>(
    scan: Scan,
    comparator: C,
    entries: Seq<Pair>,
    index: int,
)
    requires
        runs_over(scan, comparator, entries),
        0 <= index < entries.len(),
        scan.current == pair_at(entries, index - 1),
    ensures
        scan.ahead_of(entries[index].0),
{
    assert forall|other: Seq<u8>| #[trigger]
        scan.contents.contains_key(other) && (scan.before)(other, entries[index].0) implies exists|
        j: int,
    | 0 <= j < index && #[trigger] entries[j].0 == other by {
        assert(has_key(entries, other));
        let j = choose|j: int| 0 <= j < entries.len() && #[trigger] entries[j].0 == other;
        if j >= index {
            lemma_sorted_order(comparator, entries, index, j);
        }
    }
    if index > 0 {
        lemma_map_of(comparator, entries, index - 1);
    }
}

pub proof fn lemma_at_or_after<C: Comparator>(
    scan: Scan,
    comparator: C,
    entries: Seq<Pair>,
    target: Seq<u8>,
    index: int,
)
    requires
        runs_over(scan, comparator, entries),
        comparator.admits(target),
        0 <= index <= entries.len(),
        forall|j: int| 0 <= j < index ==> comparator.less(#[trigger] entries[j].0, target),
        index < entries.len() ==> !comparator.less(entries[index].0, target),
        scan.current == pair_at(entries, index),
    ensures
        scan.at_or_after(target),
{
    if index < entries.len() {
        lemma_map_of(comparator, entries, index);
    }
    assert forall|other: Seq<u8>| #[trigger]
        scan.contents.contains_key(other) && !(scan.before)(other, target) implies exists|j: int|
        index <= j < entries.len() && #[trigger] entries[j].0 == other by {
        assert(has_key(entries, other));
        let j = choose|j: int| 0 <= j < entries.len() && #[trigger] entries[j].0 == other;
    }
}

/// Where the first entry that is not before `target` stands, from `index` on.
pub open spec fn first_from_index<C: Comparator>(
    comparator: C,
    entries: Seq<Pair>,
    target: Seq<u8>,
    index: int,
) -> int
    decreases entries.len() - index,
{
    if index >= entries.len() || !comparator.less(entries[index].0, target) {
        index
    } else {
        first_from_index(comparator, entries, target, index + 1)
    }
}

/// Where the first entry that is not before `target` stands.
pub open spec fn first_from<C: Comparator>(
    comparator: C,
    entries: Seq<Pair>,
    target: Seq<u8>,
) -> int {
    first_from_index(comparator, entries, target, 0)
}

/// All entries in front of the first one from `target` on are before `target`.
pub proof fn lemma_first_from<C: Comparator>(
    comparator: C,
    entries: Seq<Pair>,
    target: Seq<u8>,
    index: int,
)
    requires
        0 <= index <= entries.len(),
    ensures
        index <= first_from_index(comparator, entries, target, index) <= entries.len(),
        forall|j: int|
            index <= j < first_from_index(comparator, entries, target, index) ==> comparator.less(
                #[trigger] entries[j].0,
                target,
            ),
        first_from_index(comparator, entries, target, index) < entries.len() ==> !comparator.less(
            entries[first_from_index(comparator, entries, target, index)].0,
            target,
        ),
    decreases entries.len() - index,
{
    if index < entries.len() && comparator.less(entries[index].0, target) {
        lemma_first_from(comparator, entries, target, index + 1);
    }
}

/// A scan on the first entry from `target` on stands on the entry found so.
pub proof fn lemma_sought<C: Comparator>(
    scan: Scan,
    comparator: C,
    entries: Seq<Pair>,
    target: Seq<u8>,
)
    requires
        runs_over(scan, comparator, entries),
        scan.at_or_after(target),
    ensures
        scan.current == pair_at(entries, first_from(comparator, entries, target)),
{
    let place = first_from(comparator, entries, target);
    lemma_first_from(comparator, entries, target, 0);
    match scan.current {
        None => {
            if place < entries.len() {
                lemma_map_of(comparator, entries, place);
            }
        },
        Some((key, value)) => {
            assert(has_key(entries, key));
            let i = choose|i: int| 0 <= i < entries.len() && #[trigger] entries[i].0 == key;
            lemma_map_of(comparator, entries, i);
            if place < i {
                lemma_map_of(comparator, entries, place);
                lemma_sorted_order(comparator, entries, place, i);
                assert(entries[place].0 != key);
                assert((scan.before)(key, entries[place].0));
            }
            assert(i == place);
        },
    }
}

/// A scan on the first entry of all stands on the one at the front.
pub proof fn lemma_on_first<C: Comparator>(scan: Scan, comparator: C, entries: Seq<Pair>)
    requires
        runs_over(scan, comparator, entries),
        scan.at_first(),
    ensures
        scan.current == pair_at(entries, 0),
{
    if entries.len() > 0 {
        lemma_map_of(comparator, entries, 0);
    }
    match scan.current {
        None => {},
        Some((key, value)) => {
            assert(has_key(entries, key));
            let i = choose|i: int| 0 <= i < entries.len() && #[trigger] entries[i].0 == key;
            lemma_map_of(comparator, entries, i);
            lemma_sorted_order(comparator, entries, 0, i);
            if i > 0 {
                assert(entries[0].0 != key);
                assert((scan.before)(key, entries[0].0));
            }
        },
    }
}

/// A scan on the first entry behind another stands on the next one.
pub proof fn lemma_on_next<C: Comparator>(
    scan: Scan,
    comparator: C,
    entries: Seq<Pair>,
    index: int,
)
    requires
        runs_over(scan, comparator, entries),
        0 <= index < entries.len(),
        scan.after(entries[index].0),
    ensures
        scan.current == pair_at(entries, index + 1),
{
    if index + 1 < entries.len() {
        lemma_map_of(comparator, entries, index + 1);
    }
    match scan.current {
        None => {},
        Some((key, value)) => {
            assert(has_key(entries, key));
            let i = choose|i: int| 0 <= i < entries.len() && #[trigger] entries[i].0 == key;
            lemma_map_of(comparator, entries, i);
            if i <= index {
                lemma_sorted_order(comparator, entries, i, index);
            } else if i > index + 1 {
                lemma_sorted_order(comparator, entries, index + 1, i);
                assert(entries[index + 1].0 != key);
                assert((scan.before)(key, entries[index + 1].0));
            }
        },
    }
}

/// An iterator over sorted entries.
///
/// It cannot report an error at each step; [`DbIterator::status`] tells
/// afterwards what went wrong. Where the source cannot always be read a move may fail. As
/// long as no failure is told, the iterator stands where it should; one that is told stays
/// so.
pub trait DbIterator {
    /// What the iterator keeps true of itself.
    spec fn wf(&self) -> bool;

    /// What the iterator stands for.
    spec fn scan(&self) -> Scan;

    /// Whether the iterator stands on an entry.
    fn valid(&self) -> (answer: bool)
        requires
            self.wf(),
        ensures
            answer == (self.scan().current is Some),
    ;

    /// Moves to the first entry.
    fn seek_to_first(&mut self)
        requires
            old(self).wf(),
        ensures
            final(self).wf(),
            final(self).scan().same_source(old(self).scan()),
            final(self).scan().calm(),
            final(self).scan().keeps(old(self).scan()),
            final(self).scan().good() ==> final(self).scan().at_first(),
    ;

    /// Moves to the last entry.
    fn seek_to_last(&mut self)
        requires
            old(self).wf(),
        ensures
            final(self).wf(),
            final(self).scan().same_source(old(self).scan()),
            final(self).scan().calm(),
            final(self).scan().keeps(old(self).scan()),
            final(self).scan().good() ==> final(self).scan().at_last(),
    ;

    /// Moves to the first entry that is not before `target`.
    fn seek(&mut self, target: &[u8])
        requires
            old(self).wf(),
            (old(self).scan().admits)(target@),
        ensures
            final(self).wf(),
            final(self).scan().same_source(old(self).scan()),
            final(self).scan().calm(),
            final(self).scan().keeps(old(self).scan()),
            final(self).scan().good() ==> final(self).scan().at_or_after(target@),
    ;

    /// Moves to the next entry.
    fn next(&mut self)
        requires
            old(self).wf(),
            old(self).scan().current is Some,
        ensures
            final(self).wf(),
            final(self).scan().same_source(old(self).scan()),
            final(self).scan().calm(),
            final(self).scan().keeps(old(self).scan()),
            final(self).scan().good() ==> final(self).scan().after(old(self).scan().key()),
    ;

    /// Moves to the entry before.
    fn prev(&mut self)
        requires
            old(self).wf(),
            old(self).scan().current is Some,
        ensures
            final(self).wf(),
            final(self).scan().same_source(old(self).scan()),
            final(self).scan().calm(),
            final(self).scan().keeps(old(self).scan()),
            final(self).scan().good() ==> final(self).scan().ahead_of(old(self).scan().key()),
    ;

    /// The key of the current entry.
    fn key(&self) -> (key: &[u8])
        requires
            self.wf(),
            self.scan().current is Some,
        ensures
            key@ == self.scan().key(),
    ;

    /// The value of the current entry.
    fn value(&self) -> (value: &[u8])
        requires
            self.wf(),
            self.scan().current is Some,
        ensures
            value@ == self.scan().value(),
    ;

    /// What went wrong, if anything did.
    fn status(&self) -> (outcome: status::Result<()>)
        requires
            self.wf(),
        ensures
            match self.scan().failure {
                None => outcome is Ok,
                Some(error) => outcome == Err::<(), Status>(error),
            },
            self.scan().intact && self.scan().steady ==> outcome is Ok,
    ;
}

} // verus!
