//! Sorting entries by their keys.

use vstd::prelude::*;

use crate::comparator;
use crate::comparator::Comparator;
use crate::db_iter::db_iterator;
use crate::table::table_iterator;

verus! {

/// Whether an entry comes before another: by its key, or by its place where the keys
/// count as the same.
pub open spec fn ahead<C: Comparator>(
    comparator: C,
    entries: Seq<db_iterator::Pair>,
    a: int,
    b: int,
) -> bool {
    comparator.less(entries[a].0, entries[b].0) || (!comparator.less(entries[b].0, entries[a].0)
        && a < b)
}

/// Whether the places of entries are in order.
pub open spec fn in_rank<C: Comparator>(
    comparator: C,
    entries: Seq<db_iterator::Pair>,
    order: Seq<usize>,
) -> bool {
    forall|i: int, j: int|
        0 <= i < j < order.len() ==> ahead(
            comparator,
            entries,
            #[trigger] order[i] as int,
            #[trigger] order[j] as int,
        )
}

/// Whether all keys can be compared.
pub open spec fn all_comparable<C: Comparator>(
    comparator: C,
    entries: Seq<db_iterator::Pair>,
) -> bool {
    forall|i: int| 0 <= i < entries.len() ==> comparator.admits(#[trigger] entries[i].0)
}

/// Whether all places are of entries.
pub open spec fn all_within(order: Seq<usize>, count: nat) -> bool {
    forall|i: int| 0 <= i < order.len() ==> (#[trigger] order[i]) < count
}

proof fn lemma_ahead_transitive<C: Comparator>(
    comparator: C,
    entries: Seq<db_iterator::Pair>,
    a: int,
    b: int,
    c: int,
)
    requires
        all_comparable(comparator, entries),
        0 <= a < entries.len(),
        0 <= b < entries.len(),
        0 <= c < entries.len(),
        ahead(comparator, entries, a, b),
        ahead(comparator, entries, b, c),
    ensures
        ahead(comparator, entries, a, c),
{
    let x = entries[a].0;
    let y = entries[b].0;
    let z = entries[c].0;
    assert(comparator.admits(x) && comparator.admits(y) && comparator.admits(z));
    if comparator.less(x, y) {
        comparator.less_splits(x, z, y);
        if comparator.less(z, y) && !comparator.less(x, z) {
            if comparator.less(y, z) {
                comparator.less_transitive(y, z, y);
                comparator.less_irreflexive(y);
            }
        }
    } else if comparator.less(y, z) {
        comparator.less_splits(y, x, z);
    } else if comparator.less(z, x) {
        comparator.less_splits(z, y, x);
    }
}

/// Whether a place is among the first of an order.
pub open spec fn is_among(order: Seq<usize>, count: int, place: usize) -> bool {
    exists|i: int| 0 <= i < count && i < order.len() && #[trigger] order[i] == place
}

proof fn lemma_one_more(order: Seq<usize>, count: int)
    requires
        0 <= count < order.len(),
    ensures
        forall|place: usize| #[trigger]
            is_among(order, count + 1, place) <==> is_among(order, count, place) || place
                == order[count],
{
    assert forall|place: usize| #[trigger] is_among(order, count + 1, place) <==> is_among(
        order,
        count,
        place,
    ) || place == order[count] by {
        if is_among(order, count + 1, place) {
            let i = choose|i: int|
                0 <= i < count + 1 && i < order.len() && #[trigger] order[i] == place;
            if i < count {
                assert(order[i] == place);
            }
        }
        if is_among(order, count, place) {
            let i = choose|i: int| 0 <= i < count && i < order.len() && #[trigger] order[i] == place;
            assert(order[i] == place);
        }
        if place == order[count] {
            assert(order[count] == place);
        }
    }
}

/// Puts a place behind others that are all before it.
proof fn lemma_pushed<C: Comparator>(
    comparator: C,
    entries: Seq<db_iterator::Pair>,
    out: Seq<usize>,
    place: usize,
)
    requires
        in_rank(comparator, entries, out),
        forall|i: int|
            0 <= i < out.len() ==> ahead(
                comparator,
                entries,
                #[trigger] out[i] as int,
                place as int,
            ),
    ensures
        in_rank(comparator, entries, out.push(place)),
        forall|p: usize| #[trigger]
            is_among(out.push(place), out.len() as int + 1, p) <==> is_among(
                out,
                out.len() as int,
                p,
            ) || p == place,
{
    let more = out.push(place);
    assert forall|i: int, j: int| 0 <= i < j < more.len() implies ahead(
        comparator,
        entries,
        #[trigger] more[i] as int,
        #[trigger] more[j] as int,
    ) by {
        assert(more[i] == out[i]);
        if j < out.len() {
            assert(more[j] == out[j]);
        }
    }
    lemma_one_more(more, out.len() as int);
    assert forall|p: usize| is_among(more, out.len() as int, p) <==> is_among(
        out,
        out.len() as int,
        p,
    ) by {
        if is_among(more, out.len() as int, p) {
            let i = choose|i: int|
                0 <= i < out.len() && i < more.len() && #[trigger] more[i] == p;
            assert(out[i] == p);
        }
        if is_among(out, out.len() as int, p) {
            let i = choose|i: int| 0 <= i < out.len() && i < out.len() && #[trigger] out[i] == p;
            assert(more[i] == p);
        }
    }
}

/// Whether all of an order from a place on come behind those of another.
pub open spec fn all_ahead<C: Comparator>(
    comparator: C,
    entries: Seq<db_iterator::Pair>,
    out: Seq<usize>,
    order: Seq<usize>,
    from: int,
) -> bool {
    forall|i: int, j: int|
        0 <= i < out.len() && from <= j < order.len() ==> ahead(
            comparator,
            entries,
            #[trigger] out[i] as int,
            #[trigger] order[j] as int,
        )
}

proof fn lemma_still_ahead<C: Comparator>(
    comparator: C,
    entries: Seq<db_iterator::Pair>,
    out: Seq<usize>,
    order: Seq<usize>,
    from: int,
    place: usize,
    to: int,
)
    requires
        all_ahead(comparator, entries, out, order, from),
        from <= to,
        forall|j: int|
            to <= j < order.len() ==> ahead(
                comparator,
                entries,
                place as int,
                #[trigger] order[j] as int,
            ),
    ensures
        all_ahead(comparator, entries, out.push(place), order, to),
{
    let more = out.push(place);
    assert forall|i: int, j: int| 0 <= i < more.len() && to <= j < order.len() implies ahead(
        comparator,
        entries,
        #[trigger] more[i] as int,
        #[trigger] order[j] as int,
    ) by {
        if i < out.len() {
            assert(more[i] == out[i]);
        }
    }
}

/// Merges two orders. The places of the first are below those of the second.
#[verifier::spinoff_prover]
#[verifier::rlimit(40)]
fn merge<C: Comparator>(
    comparator: &C,
    entries: &Vec<(Vec<u8>, Vec<u8>)>,
    left: Vec<usize>,
    right: Vec<usize>,
    middle: usize,
) -> (out: Vec<usize>)
    requires
        all_comparable(*comparator, table_iterator::pair_views(entries@)),
        in_rank(*comparator, table_iterator::pair_views(entries@), left@),
        in_rank(*comparator, table_iterator::pair_views(entries@), right@),
        all_within(left@, middle as nat),
        all_within(right@, entries@.len()),
        middle <= entries@.len(),
        forall|i: int| 0 <= i < right@.len() ==> (#[trigger] right@[i]) >= middle,
    ensures
        in_rank(*comparator, table_iterator::pair_views(entries@), out@),
        all_within(out@, entries@.len()),
        forall|place: usize| #[trigger]
            is_among(out@, out@.len() as int, place) <==> is_among(left@, left@.len() as int, place)
                || is_among(right@, right@.len() as int, place),
{
    let ghost pairs = table_iterator::pair_views(entries@);
    let mut out: Vec<usize> = Vec::new();
    let mut i: usize = 0;
    let mut j: usize = 0;
    while i < left.len() || j < right.len()
        invariant
            i <= left@.len(),
            j <= right@.len(),
            pairs == table_iterator::pair_views(entries@),
            all_comparable(*comparator, pairs),
            in_rank(*comparator, pairs, left@),
            in_rank(*comparator, pairs, right@),
            in_rank(*comparator, pairs, out@),
            all_within(left@, middle as nat),
            all_within(right@, entries@.len()),
            all_within(out@, entries@.len()),
            middle <= entries@.len(),
            forall|k: int| 0 <= k < right@.len() ==> (#[trigger] right@[k]) >= middle,
            all_ahead(*comparator, pairs, out@, left@, i as int),
            all_ahead(*comparator, pairs, out@, right@, j as int),
            forall|place: usize| #[trigger]
                is_among(out@, out@.len() as int, place) <==> is_among(left@, i as int, place)
                    || is_among(right@, j as int, place),
        decreases left@.len() - i + right@.len() - j,
    {
        let from_left = if i >= left.len() {
            false
        } else if j >= right.len() {
            true
        } else {
            assert(left@[i as int] < middle);
            assert(right@[j as int] < entries@.len());
            proof {
                assert(pairs[left@[i as int] as int].0 == entries@[left@[i as int] as int].0@);
                assert(pairs[right@[j as int] as int].0 == entries@[right@[j as int] as int].0@);
                assert(comparator.admits(pairs[left@[i as int] as int].0));
                assert(comparator.admits(pairs[right@[j as int] as int].0));
            }
            !comparator::precedes(
                comparator,
                entries[right[j]].0.as_slice(),
                entries[left[i]].0.as_slice(),
            )
        };
        let ghost before = out@;
        if from_left {
            let place: usize = left[i];
            proof {
                assert(left@[i as int] < middle);
                lemma_pushed(*comparator, pairs, before, place);
                lemma_one_more(left@, i as int);
                lemma_still_ahead(
                    *comparator,
                    pairs,
                    before,
                    left@,
                    i as int,
                    place,
                    i + 1,
                );
                assert forall|k: int| j <= k < right@.len() implies ahead(
                    *comparator,
                    pairs,
                    place as int,
                    #[trigger] right@[k] as int,
                ) by {
                    assert(right@[j as int] >= middle);
                    assert(ahead(*comparator, pairs, place as int, right@[j as int] as int));
                    assert(right@[j as int] < entries@.len());
                    assert(right@[k] < entries@.len());
                    if k > j {
                        lemma_ahead_transitive(
                            *comparator,
                            pairs,
                            place as int,
                            right@[j as int] as int,
                            right@[k] as int,
                        );
                    }
                }
                lemma_still_ahead(
                    *comparator,
                    pairs,
                    before,
                    right@,
                    j as int,
                    place,
                    j as int,
                );
            }
            out.push(place);
            i = i + 1;
        } else {
            let place: usize = right[j];
            proof {
                assert(right@[j as int] < entries@.len());
                lemma_pushed(*comparator, pairs, before, place);
                lemma_one_more(right@, j as int);
                lemma_still_ahead(
                    *comparator,
                    pairs,
                    before,
                    right@,
                    j as int,
                    place,
                    j + 1,
                );
                assert forall|k: int| i <= k < left@.len() implies ahead(
                    *comparator,
                    pairs,
                    place as int,
                    #[trigger] left@[k] as int,
                ) by {
                    assert(left@[i as int] < middle);
                    assert(left@[k] < middle);
                    assert(ahead(*comparator, pairs, place as int, left@[i as int] as int));
                    if k > i {
                        lemma_ahead_transitive(
                            *comparator,
                            pairs,
                            place as int,
                            left@[i as int] as int,
                            left@[k] as int,
                        );
                    }
                }
                lemma_still_ahead(
                    *comparator,
                    pairs,
                    before,
                    left@,
                    i as int,
                    place,
                    i as int,
                );
            }
            out.push(place);
            j = j + 1;
        }
    }
    out
}

/// The places of the entries from `from` to `to`, in the order of the keys.
fn sort_part<C: Comparator>(
    comparator: &C,
    entries: &Vec<(Vec<u8>, Vec<u8>)>,
    from: usize,
    to: usize,
) -> (out: Vec<usize>)
    requires
        all_comparable(*comparator, table_iterator::pair_views(entries@)),
        from <= to <= entries@.len(),
    ensures
        in_rank(*comparator, table_iterator::pair_views(entries@), out@),
        forall|place: usize| #[trigger]
            is_among(out@, out@.len() as int, place) <==> from <= place < to,
    decreases to - from,
{
    if to - from == 0 {
        return Vec::new();
    }
    if to - from == 1 {
        let mut one: Vec<usize> = Vec::new();
        one.push(from);
        proof {
            assert forall|place: usize| #[trigger] is_among(one@, 1, place) <==> from <= place
                < to by {
                if place == from {
                    assert(one@[0] == place);
                }
            }
        }
        return one;
    }
    let middle: usize = from + (to - from) / 2;
    let left = sort_part(comparator, entries, from, middle);
    let right = sort_part(comparator, entries, middle, to);
    proof {
        assert forall|i: int| 0 <= i < left@.len() implies (#[trigger] left@[i]) < middle by {
            assert(is_among(left@, left@.len() as int, left@[i]));
        }
        assert forall|i: int| 0 <= i < right@.len() implies (#[trigger] right@[i])
            >= middle && right@[i] < entries@.len() by {
            assert(is_among(right@, right@.len() as int, right@[i]));
        }
    }
    merge(comparator, entries, left, right, middle)
}

/// Whether the second are the first in the order of the keys. Entries whose keys count
/// as the same stay in the order in which they were.
pub open spec fn is_sorted_by<C: Comparator>(
    comparator: C,
    entries: Seq<db_iterator::Pair>,
    order: Seq<usize>,
) -> bool {
    &&& in_rank(comparator, entries, order)
    &&& forall|place: usize| #[trigger]
        is_among(order, order.len() as int, place) <==> place < entries.len()
}

/// The places of the entries in the order of their keys.
pub fn sorted_order<C: Comparator>(comparator: &C, entries: &Vec<(Vec<u8>, Vec<u8>)>) -> (order: Vec<
    usize,
>)
    requires
        all_comparable(*comparator, table_iterator::pair_views(entries@)),
    ensures
        is_sorted_by(*comparator, table_iterator::pair_views(entries@), order@),
        all_within(order@, entries@.len()),
{
    let order = sort_part(comparator, entries, 0, entries.len());
    proof {
        assert forall|i: int| 0 <= i < order@.len() implies (#[trigger] order@[i])
            < entries@.len() by {
            assert(is_among(order@, order@.len() as int, order@[i]));
        }
    }
    order
}

/// Whether all keys can be compared.
pub fn can_compare_all<C: Comparator>(comparator: &C, entries: &Vec<(Vec<u8>, Vec<u8>)>) -> (answer:
    bool)
    ensures
        answer == all_comparable(*comparator, table_iterator::pair_views(entries@)),
{
    let ghost pairs = table_iterator::pair_views(entries@);
    let mut index: usize = 0;
    while index < entries.len()
        invariant
            index <= entries@.len(),
            pairs == table_iterator::pair_views(entries@),
            forall|i: int| 0 <= i < index ==> comparator.admits(#[trigger] pairs[i].0),
        decreases entries@.len() - index,
    {
        if !comparator.accepts(entries[index].0.as_slice()) {
            assert(!comparator.admits(pairs[index as int].0));
            return false;
        }
        index = index + 1;
    }
    true
}

} // verus!
