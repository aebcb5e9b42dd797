//! What a cache keeps.

use vstd::prelude::*;

use crate::cache;
use crate::cache::Slot;

verus! {

/// The sum of the charges of some slots.
pub open spec fn charges<V>(slots: Seq<Slot<V>>) -> int {
    slots.fold_left(0, |sum: int, slot: Slot<V>| sum + slot.charge)
}

/// All slots but the one with the key, in the same order.
pub open spec fn others<V>(slots: Seq<Slot<V>>, key: Seq<u8>) -> Seq<Slot<V>> {
    slots.filter(|slot: Slot<V>| slot.key != key)
}

/// What is charged is the sum of the charges of all slots.
pub proof fn law_total_is_sum<V>(slots: Seq<Slot<V>>)
    ensures
        cache::total(slots) == charges(slots),
    decreases slots.len(),
{
    let plus = |sum: int, slot: Slot<V>| sum + slot.charge;
    if slots.len() > 0 {
        law_total_is_sum(slots.drop_last());
        assert(slots.fold_left(0, plus) == plus(
            slots.drop_last().fold_left(0, plus),
            slots.last(),
        ));
    }
}

/// What is charged over all shards is the sum over all of them.
pub proof fn law_shards_total_is_sum<V>(shards: Seq<Seq<Slot<V>>>)
    ensures
        cache::shards_total(shards) == shards.fold_left(
            0,
            |sum: int, shard: Seq<Slot<V>>| sum + charges(shard),
        ),
    decreases shards.len(),
{
    let plus = |sum: int, shard: Seq<Slot<V>>| sum + charges(shard);
    if shards.len() > 0 {
        law_shards_total_is_sum(shards.drop_last());
        law_total_is_sum(shards.last());
        assert(shards.fold_left(0, plus) == plus(
            shards.drop_last().fold_left(0, plus),
            shards.last(),
        ));
    }
}

proof fn lemma_filter_all<V>(slots: Seq<Slot<V>>, key: Seq<u8>)
    requires
        forall|i: int| 0 <= i < slots.len() ==> (#[trigger] slots[i]).key != key,
    ensures
        others(slots, key) == slots,
    decreases slots.len(),
{
    reveal(Seq::filter);
    if slots.len() > 0 {
        let front = slots.drop_last();
        assert forall|i: int| 0 <= i < front.len() implies (#[trigger] front[i]).key != key by {
            assert(front[i] == slots[i]);
        }
        lemma_filter_all(front, key);
        assert(slots.last() == slots[slots.len() - 1]);
        assert(front.push(slots.last()) =~= slots);
    } else {
        assert(others(slots, key) =~= slots);
    }
}

proof fn lemma_filter_one<V>(slots: Seq<Slot<V>>, key: Seq<u8>, place: int)
    requires
        0 <= place < slots.len(),
        forall|i: int|
            0 <= i < slots.len() ==> ((#[trigger] slots[i]).key == key <==> i == place),
    ensures
        others(slots, key) == slots.remove(place),
    decreases slots.len(),
{
    reveal(Seq::filter);
    let front = slots.drop_last();
    let last = slots.len() - 1;
    assert forall|i: int| 0 <= i < front.len() implies (#[trigger] front[i]).key == slots[i].key by {
        assert(front[i] == slots[i]);
    }
    if place == last {
        lemma_filter_all(front, key);
        assert(slots.remove(place) =~= front);
    } else {
        lemma_filter_one(front, key, place);
        assert(front.remove(place).push(slots.last()) =~= slots.remove(place));
    }
}

/// Erasing a key takes its slot away and leaves all others, in their order.
pub proof fn law_erase_takes_one<V>(slots: Seq<Slot<V>>, key: Seq<u8>)
    requires
        cache::distinct(slots),
    ensures
        cache::without(slots, key) == others(slots, key),
{
    if cache::has_slot(slots, key) {
        let place = cache::slot_index(slots, key);
        assert forall|i: int| 0 <= i < slots.len() implies ((#[trigger] slots[i]).key == key
            <==> i == place) by {
            if i < place {
                assert(slots[i].key != slots[place].key);
            } else if i > place {
                assert(slots[place].key != slots[i].key);
            }
        }
        lemma_filter_one(slots, key, place);
    } else {
        assert forall|i: int| 0 <= i < slots.len() implies (#[trigger] slots[i]).key != key by {}
        lemma_filter_all(slots, key);
    }
}

/// A lookup of a key that is there makes its slot the one that was used last, and leaves all
/// others in their order. Another lookup changes nothing.
pub proof fn law_lookup_renews<V>(slots: Seq<Slot<V>>, key: Seq<u8>)
    requires
        cache::distinct(slots),
    ensures
        forall|i: int|
            0 <= i < slots.len() && (#[trigger] slots[i]).key == key ==> cache::touched(slots, key)
                == others(slots, key).push(slots[i]),
        (forall|i: int| 0 <= i < slots.len() ==> (#[trigger] slots[i]).key != key)
            ==> cache::touched(slots, key) == slots,
{
    law_erase_takes_one(slots, key);
    assert forall|i: int| 0 <= i < slots.len() && (#[trigger] slots[i]).key == key implies
        cache::touched(slots, key) == others(slots, key).push(slots[i]) by {
        assert(cache::has_slot(slots, key));
        let place = cache::slot_index(slots, key);
        if i < place {
            assert(slots[i].key != slots[place].key);
        } else if i > place {
            assert(slots[place].key != slots[i].key);
        }
    }
}

proof fn lemma_room<V>(slots: Seq<Slot<V>>, charge: nat, capacity: nat) -> (gone: int)
    ensures
        0 <= gone <= slots.len(),
        cache::with_room(slots, charge, capacity) == slots.skip(gone),
        gone == slots.len() || charges(slots.skip(gone)) + charge <= capacity,
        forall|k: int| 0 <= k < gone ==> charges(#[trigger] slots.skip(k)) + charge > capacity,
    decreases slots.len(),
{
    law_total_is_sum(slots);
    assert(slots.skip(0) =~= slots);
    if slots.len() == 0 || cache::total(slots) + charge <= capacity {
        0
    } else {
        let gone = lemma_room(slots.drop_first(), charge, capacity);
        assert(slots.drop_first().skip(gone) =~= slots.skip(gone + 1));
        assert forall|k: int| 0 <= k < gone + 1 implies charges(#[trigger] slots.skip(k)) + charge
            > capacity by {
            if k > 0 {
                assert(slots.drop_first().skip(k - 1) =~= slots.skip(k));
            }
        }
        gone + 1
    }
}

/// Taking a value in makes it the one that was used last. Of the others, those that were
/// used last stay, as many as there is room for beside it: what was not used for longest
/// goes, and no more than has to.
pub proof fn law_insert_lets_go_of_the_oldest<V>(slots: Seq<Slot<V>>, slot: Slot<V>, capacity: nat)
    requires
        cache::distinct(slots),
    ensures
        exists|gone: int|
            0 <= gone <= others(slots, slot.key).len() && cache::with_slot(slots, slot, capacity)
                == (#[trigger] others(slots, slot.key).skip(gone)).push(slot) && (gone == others(
                slots,
                slot.key,
            ).len() || charges(others(slots, slot.key).skip(gone)) + slot.charge <= capacity) && (
            forall|k: int|
                0 <= k < gone ==> charges(#[trigger] others(slots, slot.key).skip(k)) + slot.charge
                    > capacity),
{
    law_erase_takes_one(slots, slot.key);
    let gone = lemma_room(others(slots, slot.key), slot.charge as nat, capacity);
    assert(cache::with_slot(slots, slot, capacity) == others(slots, slot.key).skip(gone).push(
        slot,
    ));
}

/// Pruning lets go of a value just if no more than one handle was counted on it.
pub proof fn law_held_values_stay<V>(before: Seq<Slot<V>>, after: Seq<Slot<V>>, i: int)
    requires
        cache::is_pruned(before, after),
        cache::distinct(before),
        0 <= i < before.len(),
    ensures
        exists|count: usize| #[trigger]
            cache::was_counted(before[i], count) && (count > 1 <==> after.contains(before[i])),
        forall|k: int| 0 <= k < after.len() ==> before.contains(#[trigger] after[k]),
{
    let counts = choose|counts: Seq<usize>| #[trigger]
        cache::all_counted(before, counts) && after == cache::kept(
            before,
            Seq::new(counts.len(), |i: int| counts[i] > 1),
        );
    let keep = Seq::new(counts.len(), |i: int| counts[i] > 1);
    cache::lemma_kept_members(before, keep);
    assert(cache::was_counted(before[i], counts[i]));
    assert(keep[i] == (counts[i] > 1));
}

} // verus!
