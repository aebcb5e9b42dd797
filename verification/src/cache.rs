//! A cache of shared values.
//!
//! [`Cache`] is what the engine asks of a cache; [`ShardedLRUCache`] is one that
//! forgets what was not used for longest. Handles are counted references: a value
//! lives as long as a handle on it, even when the cache has let go of it.

use vstd::prelude::*;

use std::sync::Arc;

use crate::hash;

pub mod laws;

verus! {

pub const NUM_SHARD_BITS: u32 = 4;

pub const NUM_SHARDS: usize = 16;

/// All that is in the first map is in the second.
pub open spec fn within<V>(some: Map<Seq<u8>, V>, all: Map<Seq<u8>, V>) -> bool {
    forall|key: Seq<u8>| #[trigger]
        some.contains_key(key) ==> all.contains_key(key) && all[key] == some[key]
}

/// Values by their keys.
pub type HeldValues<V> = Map<Seq<u8>, V>;

/// A sum of charges.
pub type ChargeSum = nat;

/// The id that was given out last.
pub type LastId = nat;

/// The key of a value.
pub type ValueKey = Seq<u8>;

/// Holds values by key for as long as it sees fit.
pub trait Cache<V> {
    /// What the cache keeps true of itself.
    spec fn wf(&self) -> bool;

    /// Whether nobody else takes values in, which may make the cache let go of others.
    spec fn alone(&self) -> bool;

    /// What the cache holds. Where others use it too: what it was given and may still hold.
    spec fn entries(&self) -> HeldValues<V>;

    /// The sum of the charges of what it holds.
    spec fn charged(&self) -> ChargeSum;

    /// The charge of what it holds under a key.
    spec fn charge_of(&self, key: ValueKey) -> ChargeSum;

    /// The last id that it gave out.
    spec fn issued(&self) -> LastId;

    /// Whether it holds what it takes in, at least until it takes in something else.
    spec fn keeps(&self) -> bool;

    /// Takes a value in. The cache may let go of others, or not keep this one.
    fn insert(&mut self, key: &[u8], value: V, charge: usize) -> (handle: CacheHandle<V>)
        requires
            old(self).wf(),
        ensures
            final(self).wf(),
            final(self).alone() == old(self).alone(),
            handle.item() == value,
            handle.weight() == charge,
            within(final(self).entries(), old(self).entries().insert(key@, value)),
            final(self).issued() == old(self).issued(),
            final(self).keeps() == old(self).keeps(),
            forall|k: Seq<u8>| #[trigger]
                final(self).entries().contains_key(k) ==> final(self).charge_of(k) == if k == key@ {
                    charge as nat
                } else {
                    old(self).charge_of(k)
                },
            old(self).keeps() ==> final(self).entries().contains_key(key@),
    ;

    fn lookup(&mut self, key: &[u8]) -> (found: Option<CacheHandle<V>>)
        requires
            old(self).wf(),
        ensures
            final(self).wf(),
            final(self).alone() == old(self).alone(),
            final(self).entries() == old(self).entries(),
            final(self).charged() == old(self).charged(),
            forall|k: Seq<u8>| #[trigger]
                final(self).entries().contains_key(k) ==> final(self).charge_of(k) == old(
                    self).charge_of(k),
            final(self).issued() == old(self).issued(),
            final(self).keeps() == old(self).keeps(),
            match found {
                None => old(self).alone() ==> !old(self).entries().contains_key(key@),
                Some(handle) => old(self).entries().contains_key(key@) && handle.item() == old(
                    self,
                ).entries()[key@],
            },
    ;

    fn erase(&mut self, key: &[u8])
        requires
            old(self).wf(),
        ensures
            final(self).wf(),
            final(self).alone() == old(self).alone(),
            final(self).entries() == old(self).entries().remove(key@),
            forall|k: Seq<u8>| #[trigger]
                final(self).entries().contains_key(k) ==> final(self).charge_of(k) == old(
                    self).charge_of(k),
            final(self).issued() == old(self).issued(),
            final(self).keeps() == old(self).keeps(),
    ;

    /// The id that was given out last.
    fn last_id(&self) -> (id: u64)
        requires
            self.wf(),
        ensures
            id == self.issued(),
    ;

    /// An id that was not given out before.
    fn new_id(&mut self) -> (id: u64)
        requires
            old(self).wf(),
            old(self).issued() < u64::MAX,
        ensures
            final(self).wf(),
            final(self).alone() == old(self).alone(),
            id == old(self).issued() + 1,
            forall|k: Seq<u8>| #[trigger]
                final(self).entries().contains_key(k) ==> final(self).charge_of(k) == old(
                    self).charge_of(k),
            final(self).issued() == old(self).issued() + 1,
            final(self).keeps() == old(self).keeps(),
            final(self).entries() == old(self).entries(),
            final(self).charged() == old(self).charged(),
    ;

    fn total_charge(&self) -> (charge: usize)
        requires
            self.wf(),
            self.charged() <= usize::MAX,
        ensures
            self.alone() ==> charge == self.charged(),
    ;

    /// Lets go of what nobody else holds.
    fn prune(&mut self)
        requires
            old(self).wf(),
        ensures
            final(self).wf(),
            final(self).alone() == old(self).alone(),
            within(final(self).entries(), old(self).entries()),
            final(self).issued() == old(self).issued(),
            final(self).keeps() == old(self).keeps(),
    ;
}

/// A value with its charge.
#[derive(Debug)]
struct Entry<V> {
    value: V,
    charge: usize,
}

/// A counted reference to a value of a cache.
#[derive(Debug)]
pub struct CacheHandle<V> {
    entry: Arc<Entry<V>>,
}

impl<V> CacheHandle<V> {
    /// The value.
    pub closed spec fn item(&self) -> V {
        self.entry.value
    }

    /// The charge of the value.
    pub closed spec fn weight(&self) -> usize {
        self.entry.charge
    }

    pub fn new(value: V, charge: usize) -> (handle: Self)
        ensures
            handle.item() == value,
            handle.weight() == charge,
    {
        CacheHandle { entry: Arc::new(Entry { value, charge }) }
    }

    pub fn value(&self) -> (value: &V)
        ensures
            *value == self.item(),
    {
        &self.entry.value
    }

    pub fn charge(&self) -> (charge: usize)
        ensures
            charge == self.weight(),
    {
        self.entry.charge
    }
}

impl<V> Clone for CacheHandle<V> {
    fn clone(&self) -> (copy: Self)
        ensures
            copy == *self,
    {
        CacheHandle { entry: Arc::clone(&self.entry) }
    }
}

// ---------------------------------------------------------------------------
// One shard
// ---------------------------------------------------------------------------

/// What a shard holds under one key.
pub struct Slot<V> {
    pub key: Seq<u8>,
    pub value: V,
    pub charge: usize,
}

/// No two slots share a key.
pub open spec fn distinct<V>(slots: Seq<Slot<V>>) -> bool {
    forall|i: int, j: int|
        0 <= i < j < slots.len() ==> (#[trigger] slots[i]).key != (#[trigger] slots[j]).key
}

/// Whether some slot has the key.
pub open spec fn has_slot<V>(slots: Seq<Slot<V>>, key: Seq<u8>) -> bool {
    exists|i: int| 0 <= i < slots.len() && (#[trigger] slots[i]).key == key
}

/// The slot with the key.
pub open spec fn slot_index<V>(slots: Seq<Slot<V>>, key: Seq<u8>) -> int {
    choose|i: int| 0 <= i < slots.len() && (#[trigger] slots[i]).key == key
}

/// The slots as a map.
pub open spec fn slot_map<V>(slots: Seq<Slot<V>>) -> Map<Seq<u8>, V> {
    Map::new(
        |key: Seq<u8>| has_slot(slots, key),
        |key: Seq<u8>| slots[slot_index(slots, key)].value,
    )
}

/// The sum of the charges.
pub open spec fn total<V>(slots: Seq<Slot<V>>) -> nat
    decreases slots.len(),
{
    if slots.len() == 0 {
        0
    } else {
        total(slots.drop_last()) + slots.last().charge as nat
    }
}

/// The slots but for the one with the key.
pub open spec fn without<V>(slots: Seq<Slot<V>>, key: Seq<u8>) -> Seq<Slot<V>> {
    if has_slot(slots, key) {
        slots.remove(slot_index(slots, key))
    } else {
        slots
    }
}

/// The slots that stay when room for `charge` is needed: those that were not used
/// for longest go first.
pub open spec fn with_room<V>(slots: Seq<Slot<V>>, charge: nat, capacity: nat) -> Seq<Slot<V>>
    decreases slots.len(),
{
    if slots.len() == 0 || total(slots) + charge <= capacity {
        slots
    } else {
        with_room(slots.drop_first(), charge, capacity)
    }
}

/// The slots with a new one, or one renewed.
pub open spec fn with_slot<V>(slots: Seq<Slot<V>>, slot: Slot<V>, capacity: nat) -> Seq<Slot<V>> {
    with_room(without(slots, slot.key), slot.charge as nat, capacity).push(slot)
}

/// The slots once one of them was used.
pub open spec fn touched<V>(slots: Seq<Slot<V>>, key: Seq<u8>) -> Seq<Slot<V>> {
    if has_slot(slots, key) {
        without(slots, key).push(slots[slot_index(slots, key)])
    } else {
        slots
    }
}

/// The slots that are to be kept.
pub open spec fn kept<V>(slots: Seq<Slot<V>>, keep: Seq<bool>) -> Seq<Slot<V>>
    decreases slots.len(),
{
    if slots.len() == 0 {
        Seq::empty()
    } else {
        let front = kept(slots.drop_last(), keep.drop_last());
        if keep.last() {
            front.push(slots.last())
        } else {
            front
        }
    }
}

proof fn lemma_slot_index<V>(slots: Seq<Slot<V>>, index: int)
    requires
        distinct(slots),
        0 <= index < slots.len(),
    ensures
        has_slot(slots, slots[index].key),
        slot_index(slots, slots[index].key) == index,
        slot_map(slots).contains_key(slots[index].key),
        slot_map(slots)[slots[index].key] == slots[index].value,
{
    assert(has_slot(slots, slots[index].key));
    let found = slot_index(slots, slots[index].key);
    assert(slots[found].key == slots[index].key);
}

proof fn lemma_total_remove<V>(slots: Seq<Slot<V>>, index: int)
    requires
        0 <= index < slots.len(),
    ensures
        total(slots.remove(index)) == total(slots) - slots[index].charge,
    decreases slots.len(),
{
    let shorter = slots.remove(index);
    if index < slots.len() - 1 {
        lemma_total_remove(slots.drop_last(), index);
        assert(shorter.drop_last() =~= slots.drop_last().remove(index));
    } else {
        assert(shorter =~= slots.drop_last());
    }
}

/// What remains without a key.
proof fn lemma_without<V>(slots: Seq<Slot<V>>, key: Seq<u8>)
    requires
        distinct(slots),
    ensures
        distinct(without(slots, key)),
        !has_slot(without(slots, key), key),
        slot_map(without(slots, key)) == slot_map(slots).remove(key),
        total(without(slots, key)) <= total(slots),
{
    let rest = without(slots, key);
    if has_slot(slots, key) {
        let gone = slot_index(slots, key);
        lemma_total_remove(slots, gone);
        assert forall|i: int| 0 <= i < rest.len() implies (#[trigger] rest[i]) == slots[if i < gone {
            i
        } else {
            i + 1
        }] by {}
        assert(distinct(rest));
        assert forall|k: Seq<u8>| #[trigger] has_slot(rest, k) == (has_slot(slots, k) && k
            != key) by {
            if has_slot(rest, k) {
                let i = slot_index(rest, k);
                let from = if i < gone {
                    i
                } else {
                    i + 1
                };
                assert(slots[from].key == k);
                lemma_slot_index(slots, from);
            }
            if has_slot(slots, k) && k != key {
                let i = slot_index(slots, k);
                let to = if i < gone {
                    i
                } else {
                    i - 1
                };
                assert(rest[to].key == k);
            }
        }
        assert forall|k: Seq<u8>| has_slot(rest, k) implies slot_map(rest)[k] == slot_map(
            slots,
        )[k] by {
            let i = slot_index(rest, k);
            let from = if i < gone {
                i
            } else {
                i + 1
            };
            lemma_slot_index(slots, from);
        }
    }
    assert(slot_map(rest) =~= slot_map(slots).remove(key));
}

/// Making room lets some slots go and adds none.
proof fn lemma_with_room<V>(slots: Seq<Slot<V>>, charge: nat, capacity: nat)
    requires
        distinct(slots),
    ensures
        distinct(with_room(slots, charge, capacity)),
        within(slot_map(with_room(slots, charge, capacity)), slot_map(slots)),
        total(with_room(slots, charge, capacity)) + charge <= capacity || with_room(
            slots,
            charge,
            capacity,
        ).len() == 0,
    decreases slots.len(),
{
    if slots.len() == 0 || total(slots) + charge <= capacity {
    } else {
        let rest = slots.drop_first();
        assert forall|i: int| 0 <= i < rest.len() implies (#[trigger] rest[i]) == slots[i + 1] by {}
        assert(distinct(rest));
        lemma_with_room(rest, charge, capacity);
        assert(within(slot_map(rest), slot_map(slots))) by {
            assert forall|k: Seq<u8>| #[trigger] slot_map(rest).contains_key(k) implies slot_map(
                slots,
            ).contains_key(k) && slot_map(slots)[k] == slot_map(rest)[k] by {
                let i = slot_index(rest, k);
                lemma_slot_index(slots, i + 1);
            }
        }
    }
}

/// A slot at the end.
proof fn lemma_push<V>(slots: Seq<Slot<V>>, slot: Slot<V>)
    requires
        distinct(slots),
        !has_slot(slots, slot.key),
    ensures
        distinct(slots.push(slot)),
        slot_map(slots.push(slot)) == slot_map(slots).insert(slot.key, slot.value),
        total(slots.push(slot)) == total(slots) + slot.charge,
{
    let more = slots.push(slot);
    assert(more.drop_last() =~= slots);
    assert forall|i: int, j: int| 0 <= i < j < more.len() implies (#[trigger] more[i]).key != (
    #[trigger] more[j]).key by {
        assert(more[i] == slots[i]);
        if j < slots.len() {
            assert(more[j] == slots[j]);
        }
    }
    lemma_slot_index(more, slots.len() as int);
    assert forall|k: Seq<u8>| #[trigger] has_slot(more, k) == (has_slot(slots, k) || k
        == slot.key) by {
        if has_slot(slots, k) {
            assert(more[slot_index(slots, k)].key == k);
        }
        if has_slot(more, k) && k != slot.key {
            let i = slot_index(more, k);
            assert(slots[i].key == k);
        }
    }
    assert forall|k: Seq<u8>| has_slot(slots, k) implies slot_map(more)[k] == slot_map(
        slots,
    )[k] by {
        let i = slot_index(slots, k);
        assert(more[i] == slots[i]);
        lemma_slot_index(more, i);
    }
    assert(slot_map(more) =~= slot_map(slots).insert(slot.key, slot.value));
}

/// Using a slot changes neither what is held nor the charges.
proof fn lemma_touched<V>(slots: Seq<Slot<V>>, key: Seq<u8>)
    requires
        distinct(slots),
    ensures
        distinct(touched(slots, key)),
        slot_map(touched(slots, key)) == slot_map(slots),
        total(touched(slots, key)) == total(slots),
{
    if has_slot(slots, key) {
        let at = slot_index(slots, key);
        lemma_without(slots, key);
        lemma_total_remove(slots, at);
        lemma_push(without(slots, key), slots[at]);
        assert(slot_map(slots).remove(key).insert(key, slots[at].value) =~= slot_map(slots));
    }
}

proof fn lemma_kept<V>(slots: Seq<Slot<V>>, keep: Seq<bool>)
    requires
        distinct(slots),
        keep.len() == slots.len(),
    ensures
        distinct(kept(slots, keep)),
        within(slot_map(kept(slots, keep)), slot_map(slots)),
        total(kept(slots, keep)) <= total(slots),
        kept(slots, keep).len() <= slots.len(),
    decreases slots.len(),
{
    if slots.len() > 0 {
        let front = slots.drop_last();
        let some = kept(front, keep.drop_last());
        assert forall|i: int| 0 <= i < front.len() implies (#[trigger] front[i]) == slots[i] by {}
        lemma_kept(front, keep.drop_last());
        assert(!has_slot(front, slots.last().key)) by {
            if has_slot(front, slots.last().key) {
                let i = slot_index(front, slots.last().key);
                assert(slots[i].key == slots[slots.len() - 1].key);
            }
        }
        lemma_push(front, slots.last());
        assert(front.push(slots.last()) =~= slots);
        assert(!has_slot(some, slots.last().key)) by {
            if has_slot(some, slots.last().key) {
                assert(slot_map(some).contains_key(slots.last().key));
                assert(slot_map(front).contains_key(slots.last().key));
            }
        }
        lemma_push(some, slots.last());
    }
}

struct HeldSlot<V> {
    key: Vec<u8>,
    entry: Arc<Entry<V>>,
}

impl<V> View for HeldSlot<V> {
    type V = Slot<V>;

    closed spec fn view(&self) -> Slot<V> {
        Slot { key: self.key@, value: self.entry.value, charge: self.entry.charge }
    }
}

/// A part of a cache. The slots stand in the order of their last use.
struct LruShard<V> {
    slots: Vec<HeldSlot<V>>,
    usage: usize,
    capacity: usize,
}

/// How many handles there are on a shared value, by [`Arc::strong_count`]. Nothing is
/// stated of the count: it changes as other owners come and go.
#[verifier::external_body]
pub(crate) fn handle_count<T>(shared: &Arc<T>) -> (count: usize) {
    Arc::strong_count(shared)
}

/// Whether two byte strings are the same.
pub fn same_bytes(a: &[u8], b: &[u8]) -> (answer: bool)
    ensures
        answer == (a@ == b@),
{
    if a.len() != b.len() {
        return false;
    }
    let mut index: usize = 0;
    while index < a.len()
        invariant
            a@.len() == b@.len(),
            index <= a@.len(),
            forall|i: int| 0 <= i < index ==> a@[i] == b@[i],
        decreases a@.len() - index,
    {
        if a[index] != b[index] {
            return false;
        }
        index = index + 1;
    }
    assert(a@ =~= b@);
    true
}

impl<V> LruShard<V> {
    spec fn model(&self) -> Seq<Slot<V>> {
        Seq::new(self.slots@.len(), |i: int| self.slots@[i]@)
    }

    spec fn wf(&self) -> bool {
        &&& distinct(self.model())
        &&& self.usage == total(self.model())
    }

    fn new(capacity: usize) -> (shard: Self)
        ensures
            shard.wf(),
            shard.model() == Seq::<Slot<V>>::empty(),
            shard.capacity == capacity,
    {
        let shard = LruShard { slots: Vec::new(), usage: 0, capacity };
        assert(shard.model() =~= Seq::<Slot<V>>::empty());
        shard
    }

    fn find(&self, key: &[u8]) -> (found: Option<usize>)
        requires
            self.wf(),
        ensures
            match found {
                None => !has_slot(self.model(), key@),
                Some(index) => index < self.slots@.len() && has_slot(self.model(), key@)
                    && slot_index(self.model(), key@) == index,
            },
    {
        let mut index: usize = 0;
        while index < self.slots.len()
            invariant
                self.wf(),
                index <= self.slots@.len(),
                forall|i: int| 0 <= i < index ==> (#[trigger] self.model()[i]).key != key@,
            decreases self.slots@.len() - index,
        {
            if same_bytes(self.slots[index].key.as_slice(), key) {
                proof {
                    lemma_slot_index(self.model(), index as int);
                }
                return Some(index);
            }
            assert(self.model()[index as int].key != key@);
            index = index + 1;
        }
        None
    }

    fn erase(&mut self, key: &[u8])
        requires
            old(self).wf(),
        ensures
            final(self).wf(),
            final(self).capacity == old(self).capacity,
            final(self).model() == without(old(self).model(), key@),
    {
        let ghost before = self.model();
        proof {
            lemma_without(before, key@);
        }
        match self.find(key) {
            None => {},
            Some(index) => {
                proof {
                    lemma_total_remove(before, index as int);
                }
                let gone = self.slots.remove(index);
                assert(gone@ == before[index as int]);
                self.usage = self.usage - gone.entry.charge;
                assert(self.model() =~= before.remove(index as int));
            },
        }
    }

    fn evict_oldest(&mut self)
        requires
            old(self).wf(),
            old(self).model().len() > 0,
        ensures
            final(self).wf(),
            final(self).capacity == old(self).capacity,
            final(self).model() == old(self).model().drop_first(),
    {
        let ghost before = self.model();
        proof {
            lemma_total_remove(before, 0);
            lemma_slot_index(before, 0);
            lemma_without(before, before[0].key);
            assert(before.remove(0) =~= before.drop_first());
        }
        let gone = self.slots.remove(0);
        assert(gone@ == before[0]);
        self.usage = self.usage - gone.entry.charge;
        assert(self.model() =~= before.drop_first());
    }

    fn insert(&mut self, key: &[u8], value: V, charge: usize) -> (entry: Arc<Entry<V>>)
        requires
            old(self).wf(),
        ensures
            final(self).wf(),
            final(self).capacity == old(self).capacity,
            final(self).model() == with_slot(
                old(self).model(),
                (Slot { key: key@, value, charge }),
                old(self).capacity as nat,
            ),
            entry.value == value,
            entry.charge == charge,
    {
        let ghost before = self.model();
        proof {
            lemma_without(before, key@);
        }
        self.erase(key);
        let ghost rest = self.model();
        let ghost goal = with_room(rest, charge as nat, self.capacity as nat);
        while self.slots.len() > 0 && self.usage as u128 + charge as u128 > self.capacity as u128
            invariant
                self.wf(),
                self.capacity == old(self).capacity,
                goal == with_room(self.model(), charge as nat, self.capacity as nat),
            decreases self.slots@.len(),
        {
            self.evict_oldest();
        }
        let entry = Arc::new(Entry { value, charge });
        proof {
            lemma_with_room(rest, charge as nat, self.capacity as nat);
            assert(self.model() == goal);
            assert(!has_slot(goal, key@)) by {
                if has_slot(goal, key@) {
                    assert(slot_map(goal).contains_key(key@));
                }
            }
            lemma_push(goal, Slot { key: key@, value, charge });
        }
        self.slots.push(
            HeldSlot { key: vstd::slice::slice_to_vec(key), entry: Arc::clone(&entry) },
        );
        self.usage = self.usage + charge;
        assert(self.model() =~= goal.push(Slot { key: key@, value, charge }));
        entry
    }

    fn lookup(&mut self, key: &[u8]) -> (found: Option<Arc<Entry<V>>>)
        requires
            old(self).wf(),
        ensures
            final(self).wf(),
            final(self).capacity == old(self).capacity,
            final(self).model() == touched(old(self).model(), key@),
            match found {
                None => !has_slot(old(self).model(), key@),
                Some(entry) => has_slot(old(self).model(), key@) && old(self).model()[slot_index(
                    old(self).model(),
                    key@,
                )] == (Slot { key: key@, value: entry.value, charge: entry.charge }),
            },
    {
        let ghost before = self.model();
        proof {
            lemma_touched(before, key@);
        }
        match self.find(key) {
            None => None,
            Some(index) => {
                let slot = self.slots.remove(index);
                assert(slot@ == before[index as int]);
                let entry = Arc::clone(&slot.entry);
                self.slots.push(slot);
                assert(self.model() =~= before.remove(index as int).push(before[index as int]));
                Some(entry)
            },
        }
    }

    /// Keeps the slots with more than one handle, by the given counts.
    fn retain_held(&mut self, counts: &Vec<usize>)
        requires
            old(self).wf(),
            counts@.len() == old(self).model().len(),
        ensures
            final(self).wf(),
            final(self).capacity == old(self).capacity,
            final(self).model() == kept(
                old(self).model(),
                Seq::new(counts@.len(), |i: int| counts@[i] > 1),
            ),
    {
        let ghost before = self.model();
        let ghost keep = Seq::new(counts@.len(), |i: int| counts@[i] > 1);
        let mut slots: Vec<HeldSlot<V>> = Vec::new();
        let mut usage: usize = 0;
        let mut index: usize = 0;
        proof {
            assert(Seq::new(slots@.len(), |i: int| slots@[i]@) =~= kept(
                before.take(0),
                keep.take(0),
            ));
        }
        while index < counts.len()
            invariant
                index <= counts@.len(),
                counts@.len() == before.len(),
                distinct(before),
                self.usage == total(before),
                self.capacity == old(self).capacity,
                keep == Seq::new(counts@.len(), |i: int| counts@[i] > 1),
                self.slots@.len() == before.len() - index,
                forall|i: int|
                    0 <= i < self.slots@.len() ==> (#[trigger] self.slots@[i])@ == before[index + i],
                Seq::new(slots@.len(), |i: int| slots@[i]@) == kept(
                    before.take(index as int),
                    keep.take(index as int),
                ),
                usage == total(kept(before.take(index as int), keep.take(index as int))),
            decreases counts@.len() - index,
        {
            let ghost front = before.take(index + 1);
            proof {
                assert(front.drop_last() =~= before.take(index as int));
                assert(keep.take(index + 1).drop_last() =~= keep.take(index as int));
                lemma_total_take(before, index + 1);
                assert forall|i: int, j: int| 0 <= i < j < front.len() implies (
                #[trigger] front[i]).key != (#[trigger] front[j]).key by {
                    assert(front[i] == before[i] && front[j] == before[j]);
                }
                lemma_kept(front, keep.take(index + 1));
            }
            let ghost earlier = slots@;
            let slot = self.slots.remove(0);
            assert(slot@ == before[index as int]);
            if counts[index] > 1 {
                let ghost some = kept(before.take(index as int), keep.take(index as int));
                proof {
                    assert(some.push(slot@).drop_last() =~= some);
                }
                usage = usage + slot.entry.charge;
                slots.push(slot);
                proof {
                    assert(Seq::new(slots@.len(), |i: int| slots@[i]@) =~= some.push(slot@));
                }
            }
            index = index + 1;
        }
        self.slots = slots;
        self.usage = usage;
        proof {
            assert(before.take(index as int) =~= before);
            assert(keep.take(index as int) =~= keep);
            lemma_kept(before, keep);
            assert(self.model() =~= kept(before, keep));
        }
    }

    /// Lets go of the slots on which nobody else has a handle.
    fn prune(&mut self)
        requires
            old(self).wf(),
        ensures
            final(self).wf(),
            final(self).capacity == old(self).capacity,
            is_pruned(old(self).model(), final(self).model()),
    {
        let ghost before = self.model();
        let mut counts: Vec<usize> = Vec::new();
        let mut index: usize = 0;
        while index < self.slots.len()
            invariant
                index <= self.slots@.len(),
                counts@.len() == index,
                *self == *old(self),
                before == self.model(),
                forall|i: int|
                    0 <= i < index ==> was_counted(#[trigger] before[i], counts@[i]),
            decreases self.slots@.len() - index,
        {
            let entry = &self.slots[index].entry;
            let count: usize = handle_count(entry);
            proof {
                assert(before[index as int] == self.slots@[index as int]@);
                assert(call_ensures(handle_count::<Entry<V>>, (entry,), count));
                assert(was_counted(before[index as int], count));
            }
            counts.push(count);
            index = index + 1;
        }
        self.retain_held(&counts);
        proof {
            assert(all_counted(before, counts@));
        }
    }
}

proof fn lemma_total_take<V>(slots: Seq<Slot<V>>, count: int)
    requires
        0 <= count <= slots.len(),
    ensures
        total(slots.take(count)) <= total(slots),
    decreases slots.len(),
{
    if count == slots.len() {
        assert(slots.take(count) =~= slots);
    } else {
        lemma_total_take(slots.drop_last(), count);
        assert(slots.drop_last().take(count) =~= slots.take(count));
    }
}

// ---------------------------------------------------------------------------
// All shards
// ---------------------------------------------------------------------------

/// The shard of a key: the upper bits of its hash.
pub open spec fn shard_of(key: Seq<u8>) -> int {
    (hash::hash_of(key, 0) >> 28u32) as int
}

/// The sum over all shards.
pub open spec fn shards_total<V>(shards: Seq<Seq<Slot<V>>>) -> nat
    decreases shards.len(),
{
    if shards.len() == 0 {
        0
    } else {
        shards_total(shards.drop_last()) + total(shards.last())
    }
}

/// A cache in parts. Each part lets go of what was not used for longest.
pub struct ShardedLRUCache<V> {
    shards: Vec<LruShard<V>>,
    last_id: u64,
}

impl<V> ShardedLRUCache<V> {
    /// What each shard holds, in the order of the last use.
    pub closed spec fn slots(&self) -> Seq<Seq<Slot<V>>> {
        Seq::new(self.shards@.len(), |i: int| self.shards@[i].model())
    }

    /// How much each shard holds at most, but for a single value that is larger.
    pub closed spec fn shard_capacity(&self) -> nat {
        self.shards@[0].capacity as nat
    }

    spec fn inv(&self) -> bool {
        &&& self.shards@.len() == NUM_SHARDS
        &&& forall|i: int| 0 <= i < NUM_SHARDS ==> (#[trigger] self.shards@[i]).wf()
        &&& forall|i: int|
            0 <= i < NUM_SHARDS ==> (#[trigger] self.shards@[i]).capacity
                == self.shards@[0].capacity
    }

    /// A cache of the given capacity. Each shard gets its part, rounded up.
    pub fn new(capacity: usize) -> (cache: Self)
        ensures
            cache.wf(),
            cache.entries() == Map::<Seq<u8>, V>::empty(),
            cache.issued() == 0,
            cache.shard_capacity() == (capacity + 15) / 16,
            cache.slots() == Seq::new(16, |i: int| Seq::<Slot<V>>::empty()),
    {
        let per_shard: usize = if capacity % NUM_SHARDS == 0 {
            capacity / NUM_SHARDS
        } else {
            capacity / NUM_SHARDS + 1
        };
        let mut shards: Vec<LruShard<V>> = Vec::new();
        while shards.len() < NUM_SHARDS
            invariant
                shards@.len() <= NUM_SHARDS,
                forall|i: int|
                    0 <= i < shards@.len() ==> (#[trigger] shards@[i]).wf() && shards@[i].model()
                        == Seq::<Slot<V>>::empty() && shards@[i].capacity == per_shard,
            decreases NUM_SHARDS - shards@.len(),
        {
            shards.push(LruShard::new(per_shard));
        }
        let cache = ShardedLRUCache { shards, last_id: 0 };
        proof {
            assert(cache.slots() =~= Seq::new(16, |i: int| Seq::<Slot<V>>::empty()));
            assert forall|key: Seq<u8>| !(#[trigger] cache.entries().contains_key(key)) by {
                lemma_shard_of(key);
                assert(cache.slots()[shard_of(key)] == Seq::<Slot<V>>::empty());
            }
            assert(cache.entries() =~= Map::<Seq<u8>, V>::empty());
        }
        cache
    }

    fn shard_for(&self, key: &[u8]) -> (index: usize)
        ensures
            index == shard_of(key@),
            index < NUM_SHARDS,
    {
        proof {
            lemma_shard_of(key@);
        }
        let h = hash::hash(key, 0);
        (h >> 28u32) as usize
    }
}

proof fn lemma_shard_of(key: Seq<u8>)
    ensures
        0 <= shard_of(key) < 16,
{
    let h = hash::hash_of(key, 0);
    assert(h >> 28u32 < 16) by (bit_vector);
}

/// A map made of the maps of the shards.
pub open spec fn shards_map<V>(shards: Seq<Seq<Slot<V>>>) -> Map<Seq<u8>, V> {
    Map::new(
        |key: Seq<u8>| has_slot(shards[shard_of(key)], key),
        |key: Seq<u8>| slot_map(shards[shard_of(key)])[key],
    )
}

/// The charge of the slot with the key.
pub open spec fn slot_charge<V>(shards: Seq<Seq<Slot<V>>>, key: Seq<u8>) -> nat {
    let shard = shards[shard_of(key)];
    shard[slot_index(shard, key)].charge as nat
}

impl<V> Cache<V> for ShardedLRUCache<V> {
    closed spec fn wf(&self) -> bool {
        self.inv()
    }

    open spec fn alone(&self) -> bool {
        true
    }

    open spec fn keeps(&self) -> bool {
        true
    }

    open spec fn entries(&self) -> Map<Seq<u8>, V> {
        shards_map(self.slots())
    }

    open spec fn charged(&self) -> nat {
        shards_total(self.slots())
    }

    open spec fn charge_of(&self, key: Seq<u8>) -> nat {
        slot_charge(self.slots(), key)
    }

    closed spec fn issued(&self) -> nat {
        self.last_id as nat
    }

    #[verifier::spinoff_prover]
    #[verifier::rlimit(40)]
    fn insert(&mut self, key: &[u8], value: V, charge: usize) -> (handle: CacheHandle<V>)
        ensures
            final(self).slots() == old(self).slots().update(
                shard_of(key@),
                with_slot(
                    old(self).slots()[shard_of(key@)],
                    (Slot { key: key@, value, charge }),
                    old(self).shard_capacity(),
                ),
            ),
            final(self).shard_capacity() == old(self).shard_capacity(),
            final(self).entries().contains_key(key@),
    {
        let ghost before = self.slots();
        let at = self.shard_for(key);
        let ghost shard = self.shards@[at as int].model();
        let ghost slot = Slot { key: key@, value, charge };
        let mut one = self.shards.remove(at);
        let entry = one.insert(key, value, charge);
        self.shards.insert(at, one);
        proof {
            lemma_inserted(before, slot, self.shard_capacity());
            assert(self.slots() =~= before.update(
                at as int,
                with_slot(shard, slot, one.capacity as nat),
            ));
            lemma_members_with_slot(shard, slot, self.shard_capacity());
            lemma_charges(before, self.slots(), at as int, Some(slot));
        }
        CacheHandle { entry }
    }

    #[verifier::spinoff_prover]
    #[verifier::rlimit(40)]
    fn lookup(&mut self, key: &[u8]) -> (found: Option<CacheHandle<V>>)
        ensures
            final(self).slots() == old(self).slots().update(
                shard_of(key@),
                touched(old(self).slots()[shard_of(key@)], key@),
            ),
            final(self).shard_capacity() == old(self).shard_capacity(),
    {
        let ghost before = self.slots();
        let at = self.shard_for(key);
        let ghost shard = self.shards@[at as int].model();
        let mut one = self.shards.remove(at);
        let found = one.lookup(key);
        self.shards.insert(at, one);
        proof {
            lemma_looked_up(before, key@);
            assert(self.slots() =~= before.update(at as int, touched(shard, key@)));
            lemma_members_touched(shard, key@);
            lemma_charges(before, self.slots(), at as int, None);
        }
        match found {
            None => None,
            Some(entry) => Some(CacheHandle { entry }),
        }
    }

    #[verifier::spinoff_prover]
    #[verifier::rlimit(40)]
    fn erase(&mut self, key: &[u8])
        ensures
            final(self).slots() == old(self).slots().update(
                shard_of(key@),
                without(old(self).slots()[shard_of(key@)], key@),
            ),
            final(self).shard_capacity() == old(self).shard_capacity(),
    {
        let ghost before = self.slots();
        let at = self.shard_for(key);
        let ghost shard = self.shards@[at as int].model();
        let mut one = self.shards.remove(at);
        one.erase(key);
        self.shards.insert(at, one);
        proof {
            lemma_erased(before, key@);
            assert(self.slots() =~= before.update(at as int, without(shard, key@)));
            lemma_members_without(shard, key@);
            lemma_charges(before, self.slots(), at as int, None);
        }
    }

    fn last_id(&self) -> (id: u64) {
        self.last_id
    }

    fn new_id(&mut self) -> (id: u64)
        ensures
            final(self).slots() == old(self).slots(),
            final(self).shard_capacity() == old(self).shard_capacity(),
    {
        self.last_id = self.last_id + 1;
        self.last_id
    }

    fn total_charge(&self) -> (charge: usize) {
        let mut sum: usize = 0;
        let mut index: usize = 0;
        let ghost slots = self.slots();
        assert(slots.take(0) =~= Seq::<Seq<Slot<V>>>::empty());
        while index < self.shards.len()
            invariant
                index <= self.shards@.len(),
                slots == self.slots(),
                shards_total(slots) <= usize::MAX,
                sum == shards_total(slots.take(index as int)),
                forall|i: int| 0 <= i < self.shards@.len() ==> (#[trigger] self.shards@[i]).wf(),
            decreases self.shards@.len() - index,
        {
            proof {
                assert(slots.take(index + 1).drop_last() =~= slots.take(index as int));
                lemma_shards_total_take(slots, index + 1);
                assert(slots[index as int] == self.shards@[index as int].model());
            }
            sum = sum + self.shards[index].usage;
            index = index + 1;
        }
        assert(slots.take(index as int) =~= slots);
        sum
    }

    #[verifier::spinoff_prover]
    #[verifier::rlimit(40)]
    fn prune(&mut self)
        ensures
            final(self).shard_capacity() == old(self).shard_capacity(),
            forall|i: int|
                0 <= i < 16 ==> is_pruned(old(self).slots()[i], #[trigger] final(self).slots()[i]),
    {
        let ghost before = self.slots();
        let ghost capacity = self.shards@[0].capacity;
        let mut index: usize = 0;
        while index < NUM_SHARDS
            invariant
                index <= NUM_SHARDS,
                self.inv(),
                self.last_id == old(self).last_id,
                self.shards@[0].capacity == capacity,
                before.len() == NUM_SHARDS,
                forall|i: int|
                    index <= i < NUM_SHARDS ==> (#[trigger] self.shards@[i]).model() == before[i],
                forall|i: int|
                    0 <= i < index ==> is_pruned(before[i], (#[trigger] self.shards@[i]).model()),
            decreases NUM_SHARDS - index,
        {
            let ghost earlier = self.shards@;
            let mut one = self.shards.remove(index);
            one.prune();
            self.shards.insert(index, one);
            proof {
                assert(self.shards@ =~= earlier.update(index as int, one));
            }
            index = index + 1;
        }
        proof {
            let after = self.slots();
            assert forall|i: int| 0 <= i < 16 implies is_pruned(before[i], #[trigger] after[i]) by {
                assert(after[i] == self.shards@[i].model());
            }
            assert forall|i: int| 0 <= i < 16 implies distinct(#[trigger] before[i]) by {
                assert(old(self).shards@[i].wf());
            }
            lemma_pruned(before, after);
        }
    }
}

/// Whether so many handles were counted on the value of a slot.
pub closed spec fn was_counted<V>(slot: Slot<V>, count: usize) -> bool {
    exists|entry: Arc<Entry<V>>|
        entry.value == slot.value && entry.charge == slot.charge && #[trigger] call_ensures(
            handle_count::<Entry<V>>,
            (&entry,),
            count,
        )
}

/// Whether so many handles were counted on the values of some slots.
pub open spec fn all_counted<V>(slots: Seq<Slot<V>>, counts: Seq<usize>) -> bool {
    &&& counts.len() == slots.len()
    &&& forall|i: int| 0 <= i < slots.len() ==> was_counted(#[trigger] slots[i], counts[i])
}

/// The slots on which more than one handle was counted, in the same order.
pub open spec fn is_pruned<V>(before: Seq<Slot<V>>, after: Seq<Slot<V>>) -> bool {
    exists|counts: Seq<usize>| #[trigger]
        all_counted(before, counts) && after == kept(
            before,
            Seq::new(counts.len(), |i: int| counts[i] > 1),
        )
}

/// A slot stays if it is to be kept.
pub(crate) proof fn lemma_kept_members<V>(slots: Seq<Slot<V>>, keep: Seq<bool>)
    requires
        distinct(slots),
        keep.len() == slots.len(),
    ensures
        forall|i: int|
            0 <= i < slots.len() ==> (keep[i] <==> kept(slots, keep).contains(
                #[trigger] slots[i],
            )),
        forall|k: int|
            0 <= k < kept(slots, keep).len() ==> slots.contains(#[trigger] kept(slots, keep)[k]),
    decreases slots.len(),
{
    if slots.len() > 0 {
        let front = slots.drop_last();
        let some = kept(front, keep.drop_last());
        let all = kept(slots, keep);
        lemma_kept_members(front, keep.drop_last());
        assert forall|k: int| 0 <= k < all.len() implies slots.contains(#[trigger] all[k]) by {
            if k < some.len() {
                assert(front.contains(some[k]));
                let i = choose|i: int| 0 <= i < front.len() && front[i] == some[k];
                assert(slots[i] == all[k]);
            } else {
                assert(slots[slots.len() - 1] == all[k]);
            }
        }
        assert forall|i: int| 0 <= i < slots.len() implies (keep[i] <==> all.contains(
            #[trigger] slots[i],
        )) by {
            if i < front.len() {
                assert(front[i] == slots[i]);
                assert(keep.drop_last()[i] == keep[i]);
                if some.contains(slots[i]) {
                    let k = choose|k: int| 0 <= k < some.len() && some[k] == slots[i];
                    assert(all[k] == slots[i]);
                }
                if all.contains(slots[i]) {
                    let k = choose|k: int| 0 <= k < all.len() && all[k] == slots[i];
                    if k >= some.len() {
                        assert(slots.last() == slots[i]);
                        assert(slots[slots.len() - 1].key == slots[i].key);
                    }
                    assert(some[k] == slots[i]);
                }
            } else {
                if keep[i] {
                    assert(all[some.len() as int] == slots[i]);
                }
                if all.contains(slots[i]) && !keep[i] {
                    let k = choose|k: int| 0 <= k < all.len() && all[k] == slots[i];
                    assert(front.contains(some[k]));
                    let j = choose|j: int| 0 <= j < front.len() && front[j] == some[k];
                    assert(slots[j].key == slots[i].key);
                }
            }
        }
    }
}

/// Slots that stay were there.
proof fn lemma_members_without<V>(slots: Seq<Slot<V>>, key: Seq<u8>)
    ensures
        forall|i: int|
            0 <= i < without(slots, key).len() ==> slots.contains(#[trigger] without(slots, key)[i]),
{
    let rest = without(slots, key);
    assert forall|i: int| 0 <= i < rest.len() implies slots.contains(#[trigger] rest[i]) by {
        if has_slot(slots, key) {
            let at = slot_index(slots, key);
            assert(rest[i] == if i < at {
                slots[i]
            } else {
                slots[i + 1]
            });
        } else {
            assert(rest[i] == slots[i]);
        }
    }
}

proof fn lemma_members_touched<V>(slots: Seq<Slot<V>>, key: Seq<u8>)
    ensures
        forall|i: int|
            0 <= i < touched(slots, key).len() ==> slots.contains(#[trigger] touched(slots, key)[i]),
{
    lemma_members_without(slots, key);
    let after = touched(slots, key);
    assert forall|i: int| 0 <= i < after.len() implies slots.contains(#[trigger] after[i]) by {
        if has_slot(slots, key) {
            let rest = without(slots, key);
            if i < rest.len() {
                assert(after[i] == rest[i]);
            } else {
                assert(after[i] == slots[slot_index(slots, key)]);
            }
        } else {
            assert(after[i] == slots[i]);
        }
    }
}

proof fn lemma_members_with_room<V>(slots: Seq<Slot<V>>, charge: nat, capacity: nat)
    ensures
        forall|i: int|
            0 <= i < with_room(slots, charge, capacity).len() ==> slots.contains(
                #[trigger] with_room(slots, charge, capacity)[i],
            ),
    decreases slots.len(),
{
    let after = with_room(slots, charge, capacity);
    if slots.len() == 0 || total(slots) + charge <= capacity {
        assert forall|i: int| 0 <= i < after.len() implies slots.contains(#[trigger] after[i]) by {
            assert(after[i] == slots[i]);
        }
    } else {
        let rest = slots.drop_first();
        lemma_members_with_room(rest, charge, capacity);
        assert forall|i: int| 0 <= i < after.len() implies slots.contains(#[trigger] after[i]) by {
            assert(with_room(rest, charge, capacity)[i] == after[i]);
            let j = choose|j: int| 0 <= j < rest.len() && rest[j] == after[i];
            assert(slots[j + 1] == after[i]);
        }
    }
}

proof fn lemma_members_with_slot<V>(slots: Seq<Slot<V>>, slot: Slot<V>, capacity: nat)
    ensures
        with_slot(slots, slot, capacity).contains(slot),
        forall|i: int|
            0 <= i < with_slot(slots, slot, capacity).len() ==> slots.contains(
                #[trigger] with_slot(slots, slot, capacity)[i],
            ) || with_slot(slots, slot, capacity)[i] == slot,
{
    let others = without(slots, slot.key);
    let rest = with_room(others, slot.charge as nat, capacity);
    let after = with_slot(slots, slot, capacity);
    lemma_members_without(slots, slot.key);
    lemma_members_with_room(others, slot.charge as nat, capacity);
    assert(after[rest.len() as int] == slot);
    assert forall|i: int| 0 <= i < after.len() implies slots.contains(#[trigger] after[i])
        || after[i] == slot by {
        if i < rest.len() {
            assert(after[i] == rest[i]);
            assert(others.contains(rest[i]));
            let j = choose|j: int| 0 <= j < others.len() && others[j] == rest[i];
            assert(slots.contains(others[j]));
        }
    }
}

/// What stays in a cache keeps its charge.
proof fn lemma_charges<V>(
    before: Seq<Seq<Slot<V>>>,
    after: Seq<Seq<Slot<V>>>,
    at: int,
    slot: Option<Slot<V>>,
)
    requires
        before.len() == 16,
        0 <= at < 16,
        after == before.update(at, after[at]),
        distinct(before[at]),
        distinct(after[at]),
        slot matches Some(one) ==> at == shard_of(one.key) && after[at].contains(one),
        forall|i: int|
            0 <= i < after[at].len() ==> before[at].contains(#[trigger] after[at][i]) || slot
                == Some(after[at][i]),
    ensures
        forall|k: Seq<u8>| #[trigger]
            shards_map(after).contains_key(k) ==> slot_charge(after, k) == if slot is Some && k
                == slot->0.key {
                slot->0.charge as nat
            } else {
                slot_charge(before, k)
            },
{
    assert forall|k: Seq<u8>| #[trigger] shards_map(after).contains_key(k) implies slot_charge(
        after,
        k,
    ) == if slot is Some && k == slot->0.key {
        slot->0.charge as nat
    } else {
        slot_charge(before, k)
    } by {
        lemma_shard_of(k);
        if shard_of(k) == at {
            let i = slot_index(after[at], k);
            assert(has_slot(after[at], k));
            assert(0 <= i < after[at].len() && after[at][i].key == k);
            if slot is Some && k == slot->0.key {
                let j = choose|j: int| 0 <= j < after[at].len() && after[at][j] == slot->0;
                lemma_slot_index(after[at], j);
            } else {
                assert(before[at].contains(after[at][i]));
                let j = choose|j: int| 0 <= j < before[at].len() && before[at][j] == after[at][i];
                lemma_slot_index(before[at], j);
            }
        }
    }
}

/// A value taken in.
proof fn lemma_inserted<V>(before: Seq<Seq<Slot<V>>>, slot: Slot<V>, capacity: nat)
    requires
        before.len() == 16,
        distinct(before[shard_of(slot.key)]),
    ensures
        ({
            let at = shard_of(slot.key);
            let after = before.update(at, with_slot(before[at], slot, capacity));
            &&& within(shards_map(after), shards_map(before).insert(slot.key, slot.value))
            &&& shards_map(after).contains_key(slot.key)
        }),
{
    let at = shard_of(slot.key);
    let shard = before[at];
    let after = before.update(at, with_slot(shard, slot, capacity));
    lemma_shard_of(slot.key);
    lemma_without(shard, slot.key);
    let rest = with_room(without(shard, slot.key), slot.charge as nat, capacity);
    lemma_with_room(without(shard, slot.key), slot.charge as nat, capacity);
    assert(!has_slot(rest, slot.key)) by {
        if has_slot(rest, slot.key) {
            assert(slot_map(rest).contains_key(slot.key));
        }
    }
    lemma_push(rest, slot);
    assert forall|k: Seq<u8>| #[trigger] shards_map(after).contains_key(k) implies shards_map(
        before,
    ).insert(slot.key, slot.value).contains_key(k) && shards_map(before).insert(
        slot.key,
        slot.value,
    )[k] == shards_map(after)[k] by {
        lemma_shard_of(k);
        if shard_of(k) == at {
            assert(slot_map(after[at]).contains_key(k));
            if k != slot.key {
                assert(slot_map(rest).contains_key(k));
                assert(slot_map(without(shard, slot.key)).contains_key(k));
            }
        }
    }
    assert(slot_map(after[at]).contains_key(slot.key));
}

/// A value looked up.
proof fn lemma_looked_up<V>(before: Seq<Seq<Slot<V>>>, key: Seq<u8>)
    requires
        before.len() == 16,
        distinct(before[shard_of(key)]),
    ensures
        ({
            let at = shard_of(key);
            let after = before.update(at, touched(before[at], key));
            &&& shards_map(after) == shards_map(before)
            &&& shards_total(after) == shards_total(before)
            &&& shards_map(before).contains_key(key) == has_slot(before[at], key)
            &&& has_slot(before[at], key) ==> shards_map(before)[key] == before[at][slot_index(
                before[at],
                key,
            )].value
        }),
{
    let at = shard_of(key);
    let after = before.update(at, touched(before[at], key));
    lemma_shard_of(key);
    lemma_touched(before[at], key);
    lemma_same_maps(before, after);
    lemma_same_total(before, after);
}

/// A value let go of.
proof fn lemma_erased<V>(before: Seq<Seq<Slot<V>>>, key: Seq<u8>)
    requires
        before.len() == 16,
        distinct(before[shard_of(key)]),
    ensures
        shards_map(
            before.update(shard_of(key), without(before[shard_of(key)], key)),
        ) == shards_map(before).remove(key),
{
    let at = shard_of(key);
    let after = before.update(at, without(before[at], key));
    lemma_shard_of(key);
    lemma_without(before[at], key);
    assert forall|k: Seq<u8>| #[trigger] shards_map(after).contains_key(k) == shards_map(
        before,
    ).remove(key).contains_key(k) by {
        lemma_shard_of(k);
        assert(slot_map(after[shard_of(k)]).contains_key(k) == has_slot(after[shard_of(k)], k));
        assert(slot_map(before[shard_of(k)]).contains_key(k) == has_slot(before[shard_of(k)], k));
    }
    assert forall|k: Seq<u8>| #[trigger] shards_map(after).contains_key(k) implies shards_map(
        after,
    )[k] == shards_map(before).remove(key)[k] by {
        lemma_shard_of(k);
        assert(slot_map(after[shard_of(k)]).contains_key(k));
    }
    assert(shards_map(after) =~= shards_map(before).remove(key));
}

/// Values that nobody holds let go of.
proof fn lemma_pruned<V>(before: Seq<Seq<Slot<V>>>, after: Seq<Seq<Slot<V>>>)
    requires
        before.len() == 16,
        after.len() == 16,
        forall|i: int| 0 <= i < 16 ==> distinct(#[trigger] before[i]),
        forall|i: int| 0 <= i < 16 ==> is_pruned(before[i], #[trigger] after[i]),
    ensures
        within(shards_map(after), shards_map(before)),
{
    assert forall|k: Seq<u8>| #[trigger] shards_map(after).contains_key(k) implies shards_map(
        before,
    ).contains_key(k) && shards_map(before)[k] == shards_map(after)[k] by {
        lemma_shard_of(k);
        let i = shard_of(k);
        assert(is_pruned(before[i], after[i]));
        let counts = choose|counts: Seq<usize>| #[trigger]
            all_counted(before[i], counts) && after[i] == kept(
                before[i],
                Seq::new(counts.len(), |i: int| counts[i] > 1),
            );
        let keep = Seq::new(counts.len(), |i: int| counts[i] > 1);
        lemma_kept(before[i], keep);
        assert(slot_map(after[i]).contains_key(k));
        assert(slot_map(before[i]).contains_key(k));
    }
}

/// Shards that hold the same things make the same map.
proof fn lemma_same_maps<V>(before: Seq<Seq<Slot<V>>>, after: Seq<Seq<Slot<V>>>)
    requires
        before.len() == 16,
        after.len() == 16,
        forall|i: int|
            0 <= i < 16 ==> slot_map(#[trigger] before[i]) == slot_map(#[trigger] after[i]),
    ensures
        shards_map(before) == shards_map(after),
{
    assert forall|k: Seq<u8>| #[trigger] shards_map(before).contains_key(k) == shards_map(
        after,
    ).contains_key(k) by {
        lemma_shard_of(k);
        let i = shard_of(k);
        assert(slot_map(before[i]).contains_key(k) == slot_map(after[i]).contains_key(k));
    }
    assert forall|k: Seq<u8>| #[trigger] shards_map(before).contains_key(k) implies shards_map(
        before,
    )[k] == shards_map(after)[k] by {
        lemma_shard_of(k);
        assert(slot_map(before[shard_of(k)]) == slot_map(after[shard_of(k)]));
    }
    assert(shards_map(before) =~= shards_map(after));
}

/// Shards with the same charges have the same sum.
proof fn lemma_same_total<V>(before: Seq<Seq<Slot<V>>>, after: Seq<Seq<Slot<V>>>)
    requires
        before.len() == after.len(),
        forall|i: int|
            0 <= i < before.len() ==> total(#[trigger] before[i]) == total(#[trigger] after[i]),
    ensures
        shards_total(before) == shards_total(after),
    decreases before.len(),
{
    if before.len() > 0 {
        assert forall|i: int| 0 <= i < before.drop_last().len() implies total(
            #[trigger] before.drop_last()[i],
        ) == total(#[trigger] after.drop_last()[i]) by {
            assert(total(before[i]) == total(after[i]));
        }
        lemma_same_total(before.drop_last(), after.drop_last());
        let last = before.len() - 1;
        assert(total(before[last]) == total(after[last]));
    }
}

proof fn lemma_shards_total_take<V>(shards: Seq<Seq<Slot<V>>>, count: int)
    requires
        0 <= count <= shards.len(),
    ensures
        shards_total(shards.take(count)) <= shards_total(shards),
    decreases shards.len(),
{
    if count == shards.len() {
        assert(shards.take(count) =~= shards);
    } else {
        lemma_shards_total_take(shards.drop_last(), count);
        assert(shards.drop_last().take(count) =~= shards.take(count));
    }
}

} // verus!
