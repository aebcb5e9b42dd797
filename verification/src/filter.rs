//! Probabilistic key-presence filter.
//!
//! A [`FilterPolicy`] turns a set of keys into a short byte string that can
//! later tell of a key that it is definitely absent. It may take an absent key
//! for a present one, never a present key for an absent one.

use vstd::prelude::*;

use std::sync::Arc;

use crate::hash;

verus! {

/// The keys behind some references.
pub open spec fn key_views(keys: Seq<&[u8]>) -> Seq<Seq<u8>> {
    Seq::new(keys.len(), |i: int| keys[i]@)
}

/// The filter that a policy makes of some keys denies none of them.
pub open spec fn honest<P: FilterPolicy + ?Sized>(policy: &P, keys: Seq<Seq<u8>>) -> bool {
    forall|key: Seq<u8>| #[trigger]
        keys.contains(key) ==> policy.admits(key, policy.filter(keys))
}

/// The characters of the name of a policy.
pub type PolicyTitle = Seq<char>;

/// What a key or a filter holds.
pub type FilterBytes = Seq<u8>;

/// What some keys hold.
pub type KeyBytes = Seq<Seq<u8>>;

/// Makes filters and asks them.
pub trait FilterPolicy: Send + Sync {
    /// The name under which filters are recorded.
    spec fn title(&self) -> PolicyTitle;

    /// The filter of some keys.
    spec fn filter(&self, keys: KeyBytes) -> FilterBytes;

    /// What a filter says of a key.
    spec fn admits(&self, key: FilterBytes, filter: FilterBytes) -> bool;

    fn name(&self) -> (name: &'static str)
        ensures
            name@ == self.title(),
    ;

    /// Appends the filter of `keys`, which denies none of them.
    fn create_filter(&self, keys: &[&[u8]], dst: &mut Vec<u8>)
        ensures
            final(dst)@ == old(dst)@ + self.filter(key_views(keys@)),
            forall|key: Seq<u8>| #[trigger]
                key_views(keys@).contains(key) ==> self.admits(
                    key,
                    self.filter(key_views(keys@)),
                ),
    ;

    /// Whether `key` may be among the keys that `filter` was made of.
    fn key_may_match(&self, key: &[u8], filter: &[u8]) -> (answer: bool)
        ensures
            answer == self.admits(key@, filter@),
    ;
}

pub const DEFAULT_BITS_PER_KEY: usize = 10;

pub const HASH_SEED: u32 = 0xbc9f_1d34;

/// The probe of a key at an index: each probe adds the key's hash, rotated, to
/// the one before.
pub open spec fn probe(key: Seq<u8>, index: nat) -> u32
    decreases index,
{
    let start = hash::hash_of(key, HASH_SEED);
    if index == 0 {
        start
    } else {
        probe(key, (index - 1) as nat).wrapping_add((start << 15) | (start >> 17))
    }
}

/// The bit that a probe asks for, among the bits of `bytes` bytes.
pub open spec fn probe_bit(key: Seq<u8>, index: nat, bytes: nat) -> int {
    probe(key, index) as int % (8 * bytes as int)
}

/// Whether a bit is set.
pub open spec fn bit_is_set(array: Seq<u8>, bit: int) -> bool {
    array[bit / 8] & (1u8 << ((bit % 8) as u8)) != 0
}

/// The array with a bit set.
pub open spec fn with_bit(array: Seq<u8>, bit: int) -> Seq<u8> {
    array.update(bit / 8, array[bit / 8] | (1u8 << ((bit % 8) as u8)))
}

/// The array with the first `count` probes of a key set.
pub open spec fn with_probes(array: Seq<u8>, key: Seq<u8>, count: nat) -> Seq<u8>
    decreases count,
{
    if count == 0 {
        array
    } else {
        let before = with_probes(array, key, (count - 1) as nat);
        with_bit(before, probe_bit(key, (count - 1) as nat, array.len()))
    }
}

/// The array with all probes of all keys set.
pub open spec fn with_keys(array: Seq<u8>, keys: Seq<Seq<u8>>, count: nat) -> Seq<u8>
    decreases keys.len(),
{
    if keys.len() == 0 {
        array
    } else {
        with_probes(with_keys(array, keys.drop_last(), count), keys.last(), count)
    }
}

/// How many bytes the bits of a filter take: at least eight, and no more than
/// memory can address.
pub open spec fn bloom_bytes(keys: nat, bits_per_key: nat) -> nat {
    let wanted = keys * bits_per_key;
    let capped = if wanted > usize::MAX - 7 {
        (usize::MAX - 7) as nat
    } else {
        wanted
    };
    if capped < 64 {
        8
    } else {
        (capped + 7) / 8
    }
}

/// A whole Bloom filter: the bits, then the number of probes.
pub open spec fn bloom_filter(keys: Seq<Seq<u8>>, bits_per_key: nat, probes: nat) -> Seq<u8> {
    with_keys(Seq::new(bloom_bytes(keys.len(), bits_per_key), |i: int| 0u8), keys, probes).push(
        probes as u8,
    )
}

/// What a Bloom filter says of a key: all its probes are set. A filter with more
/// than 30 probes is of a kind yet to come and denies nothing.
pub open spec fn bloom_admits(key: Seq<u8>, filter: Seq<u8>) -> bool {
    if filter.len() < 2 {
        false
    } else if filter.last() > 30 {
        true
    } else {
        forall|i: nat|
            i < filter.last() ==> bit_is_set(
                filter.drop_last(),
                #[trigger] probe_bit(key, i, (filter.len() - 1) as nat),
            )
    }
}

// ---------------------------------------------------------------------------
// Laws
// ---------------------------------------------------------------------------

/// Setting a bit sets it and leaves all others.
proof fn lemma_with_bit(array: Seq<u8>, bit: int, other: int)
    requires
        0 <= bit < 8 * array.len(),
        0 <= other < 8 * array.len(),
    ensures
        with_bit(array, bit).len() == array.len(),
        bit_is_set(with_bit(array, bit), other) <==> bit_is_set(array, other) || other == bit,
{
    let byte = array[bit / 8];
    let s = (bit % 8) as u8;
    let t = (other % 8) as u8;
    assert(s < 8 && t < 8);
    assert((byte | (1u8 << s)) & (1u8 << t) != 0 <==> (byte & (1u8 << t) != 0 || s == t))
        by (bit_vector)
        requires
            s < 8,
            t < 8,
    ;
}

/// Just the bits of the probes are added.
proof fn lemma_with_probes(array: Seq<u8>, key: Seq<u8>, count: nat, bit: int)
    requires
        array.len() > 0,
        0 <= bit < 8 * array.len(),
    ensures
        with_probes(array, key, count).len() == array.len(),
        bit_is_set(with_probes(array, key, count), bit) <==> bit_is_set(array, bit) || exists|i: nat|
            i < count && #[trigger] probe_bit(key, i, array.len()) == bit,
    decreases count,
{
    if count > 0 {
        let last = (count - 1) as nat;
        lemma_with_probes(array, key, last, bit);
        let set = probe_bit(key, last, array.len());
        lemma_with_bit(with_probes(array, key, last), set, bit);
        if exists|i: nat| i < count && #[trigger] probe_bit(key, i, array.len()) == bit {
            let i = choose|i: nat| i < count && #[trigger] probe_bit(key, i, array.len()) == bit;
            assert(i < last || i == last);
        }
    }
}

/// Which bits a Bloom filter sets: the probes of its keys and no others.
pub proof fn law_bloom_bits(array: Seq<u8>, keys: Seq<Seq<u8>>, count: nat, bit: int)
    requires
        array.len() > 0,
        0 <= bit < 8 * array.len(),
    ensures
        with_keys(array, keys, count).len() == array.len(),
        bit_is_set(with_keys(array, keys, count), bit) <==> bit_is_set(array, bit) || exists|
            j: int,
            i: nat,
        |
            0 <= j < keys.len() && i < count && #[trigger] probe_bit(keys[j], i, array.len())
                == bit,
    decreases keys.len(),
{
    if keys.len() > 0 {
        let before = with_keys(array, keys.drop_last(), count);
        law_bloom_bits(array, keys.drop_last(), count, bit);
        lemma_with_probes(before, keys.last(), count, bit);
        let last = keys.len() - 1;
        if exists|i: nat| i < count && #[trigger] probe_bit(keys.last(), i, array.len()) == bit {
            let i = choose|i: nat|
                i < count && #[trigger] probe_bit(keys.last(), i, array.len()) == bit;
            assert(probe_bit(keys[last], i, array.len()) == bit);
        }
        if exists|j: int, i: nat|
            0 <= j < keys.drop_last().len() && i < count && #[trigger] probe_bit(
                keys.drop_last()[j],
                i,
                array.len(),
            ) == bit {
            let (j, i) = choose|j: int, i: nat|
                0 <= j < keys.drop_last().len() && i < count && #[trigger] probe_bit(
                    keys.drop_last()[j],
                    i,
                    array.len(),
                ) == bit;
            assert(probe_bit(keys[j], i, array.len()) == bit);
        }
        if exists|j: int, i: nat|
            0 <= j < keys.len() && i < count && #[trigger] probe_bit(keys[j], i, array.len())
                == bit {
            let (j, i) = choose|j: int, i: nat|
                0 <= j < keys.len() && i < count && #[trigger] probe_bit(
                    keys[j],
                    i,
                    array.len(),
                ) == bit;
            if j < last {
                assert(keys.drop_last()[j] == keys[j]);
            }
        }
    }
}

/// A Bloom filter never denies a key that it was made of.
pub proof fn law_bloom_no_false_negative(
    keys: Seq<Seq<u8>>,
    bits_per_key: nat,
    probes: nat,
    key: Seq<u8>,
)
    requires
        probes <= 30,
        keys.contains(key),
    ensures
        bloom_admits(key, bloom_filter(keys, bits_per_key, probes)),
{
    let filter = bloom_filter(keys, bits_per_key, probes);
    let array = Seq::new(bloom_bytes(keys.len(), bits_per_key), |i: int| 0u8);
    let j = choose|j: int| 0 <= j < keys.len() && keys[j] == key;
    law_bloom_bits(array, keys, probes, 0);
    assert(filter.drop_last() =~= with_keys(array, keys, probes));
    assert forall|i: nat| i < filter.last() implies bit_is_set(
        filter.drop_last(),
        #[trigger] probe_bit(key, i, (filter.len() - 1) as nat),
    ) by {
        let bit = probe_bit(key, i, array.len());
        law_bloom_bits(array, keys, probes, bit);
        assert(probe_bit(keys[j], i, array.len()) == bit);
    }
}

/// Whether one of some keys asks for a bit.
pub open spec fn is_asked_for(keys: Seq<Seq<u8>>, probes: nat, bytes: nat, bit: int) -> bool {
    exists|j: int, m: nat|
        0 <= j < keys.len() && m < probes && #[trigger] probe_bit(keys[j], m, bytes) == bit
}

proof fn lemma_asked_for(bytes: nat, keys: Seq<Seq<u8>>, probes: nat, bit: int)
    requires
        bytes > 0,
        0 <= bit < 8 * bytes,
    ensures
        bit_is_set(with_keys(Seq::new(bytes, |i: int| 0u8), keys, probes), bit) <==> is_asked_for(
            keys,
            probes,
            bytes,
            bit,
        ),
        with_keys(Seq::new(bytes, |i: int| 0u8), keys, probes).len() == bytes,
{
    let array = Seq::new(bytes, |i: int| 0u8);
    law_bloom_bits(array, keys, probes, bit);
    let shift = (bit % 8) as u8;
    assert(0u8 & (1u8 << shift) == 0) by (bit_vector);
}

proof fn lemma_bit_in_range(key: Seq<u8>, index: nat, bytes: nat)
    requires
        bytes > 0,
    ensures
        0 <= probe_bit(key, index, bytes) < 8 * bytes,
{
    vstd::arithmetic::div_mod::lemma_mod_pos_bound(probe(key, index) as int, 8 * bytes as int);
}

/// A Bloom filter admits a key just if each bit that the key asks for is one that some key asks
/// for of which the filter was made.
pub proof fn law_bloom_admits(
    keys: Seq<Seq<u8>>,
    bits_per_key: nat,
    probes: nat,
    key: Seq<u8>,
)
    requires
        probes <= 30,
    ensures
        bloom_admits(key, bloom_filter(keys, bits_per_key, probes)) <==> forall|i: nat|
            i < probes ==> is_asked_for(
                keys,
                probes,
                bloom_bytes(keys.len(), bits_per_key),
                #[trigger] probe_bit(key, i, bloom_bytes(keys.len(), bits_per_key)),
            ),
{
    let filter = bloom_filter(keys, bits_per_key, probes);
    let bytes = bloom_bytes(keys.len(), bits_per_key);
    let bits = filter.drop_last();
    lemma_asked_for(bytes, keys, probes, 0);
    assert(bits =~= with_keys(Seq::new(bytes, |i: int| 0u8), keys, probes));
    assert(filter.len() - 1 == bytes);
    assert(filter.last() == probes);
    if bloom_admits(key, filter) {
        assert forall|i: nat| i < probes implies is_asked_for(
            keys,
            probes,
            bytes,
            #[trigger] probe_bit(key, i, bytes),
        ) by {
            let bit = probe_bit(key, i, (filter.len() - 1) as nat);
            assert(bit_is_set(filter.drop_last(), bit));
            lemma_bit_in_range(key, i, bytes);
            lemma_asked_for(bytes, keys, probes, bit);
        }
    }
    if forall|i: nat|
        i < probes ==> is_asked_for(keys, probes, bytes, #[trigger] probe_bit(key, i, bytes)) {
        assert forall|i: nat| i < filter.last() implies bit_is_set(
            filter.drop_last(),
            #[trigger] probe_bit(key, i, (filter.len() - 1) as nat),
        ) by {
            lemma_bit_in_range(key, i, bytes);
            lemma_asked_for(bytes, keys, probes, probe_bit(key, i, bytes));
        }
    }
}

// ---------------------------------------------------------------------------
// Bloom filter
// ---------------------------------------------------------------------------

/// The number of probes for a number of bits: 0.69 times as many, at least one
/// and at most thirty.
pub open spec fn bloom_probes(bits_per_key: nat) -> nat {
    let wanted = bits_per_key * 69 / 100;
    if wanted < 1 {
        1
    } else if wanted > 30 {
        30
    } else {
        wanted
    }
}

/// Filters of a fixed number of bits for each key.
#[derive(Debug, Clone, Copy)]
pub struct BloomFilterPolicy {
    bits_per_key: usize,
    k: usize,
}

impl BloomFilterPolicy {
    /// The bits for each key.
    pub closed spec fn bits(&self) -> nat {
        self.bits_per_key as nat
    }

    /// The number of probes.
    pub closed spec fn probes(&self) -> nat {
        self.k as nat
    }

    #[verifier::type_invariant]
    spec fn inv(&self) -> bool {
        self.k == bloom_probes(self.bits_per_key as nat)
    }

    pub fn new(bits_per_key: usize) -> (policy: Self)
        ensures
            policy.bits() == bits_per_key,
            policy.probes() == bloom_probes(bits_per_key as nat),
    {
        let k: usize = if bits_per_key >= 44 {
            30
        } else if bits_per_key < 2 {
            1
        } else {
            bits_per_key * 69 / 100
        };
        BloomFilterPolicy { bits_per_key, k }
    }

    pub fn bits_per_key(&self) -> (bits: usize)
        ensures
            bits == self.bits(),
    {
        self.bits_per_key
    }

    pub fn k(&self) -> (probes: usize)
        ensures
            probes == self.probes(),
    {
        self.k
    }
}

impl Default for BloomFilterPolicy {
    fn default() -> (policy: Self)
        ensures
            policy.bits() == DEFAULT_BITS_PER_KEY,
            policy.probes() == bloom_probes(DEFAULT_BITS_PER_KEY as nat),
    {
        BloomFilterPolicy::new(DEFAULT_BITS_PER_KEY)
    }
}

/// What [`BloomFilterPolicy`] writes and asks.
impl FilterPolicy for BloomFilterPolicy {
    open spec fn title(&self) -> Seq<char> {
        "pulsearc-db.BuiltinBloomFilter2"@
    }

    open spec fn filter(&self, keys: Seq<Seq<u8>>) -> Seq<u8> {
        bloom_filter(keys, self.bits(), bloom_probes(self.bits()))
    }

    open spec fn admits(&self, key: Seq<u8>, filter: Seq<u8>) -> bool {
        bloom_admits(key, filter)
    }

    fn name(&self) -> (name: &'static str) {
        "pulsearc-db.BuiltinBloomFilter2"
    }

    fn create_filter(&self, keys: &[&[u8]], dst: &mut Vec<u8>) {
        proof {
            use_type_invariant(self);
        }
        let ghost views = key_views(keys@);
        let ghost start = dst@;
        let mut wanted: usize = match keys.len().checked_mul(self.bits_per_key) {
            Some(product) => product,
            None => usize::MAX,
        };
        if wanted > usize::MAX - 7 {
            wanted = usize::MAX - 7;
        }
        if wanted < 64 {
            wanted = 64;
        }
        let bytes: usize = (wanted + 7) / 8;
        let ghost blank = Seq::new(bytes as nat, |i: int| 0u8);
        proof {
            let product = keys@.len() * self.bits_per_key as nat;
            assert(product >= 0) by (nonlinear_arith);
            assert(bytes == bloom_bytes(views.len(), self.bits()));
        }
        let mut array: Vec<u8> = Vec::new();
        array.resize(bytes, 0);
        assert(array@ =~= blank);
        let mut index: usize = 0;
        assert(views.take(0) =~= Seq::<Seq<u8>>::empty());
        while index < keys.len()
            invariant
                index <= keys@.len(),
                views == key_views(keys@),
                bytes > 0,
                array@.len() == bytes,
                bytes * 8 <= usize::MAX,
                self.k <= 30,
                array@ == with_keys(blank, views.take(index as int), self.k as nat),
            decreases keys@.len() - index,
        {
            let ghost before = array@;
            Self::set_probes(&mut array, keys[index], self.k);
            index = index + 1;
            proof {
                let head = views.take(index as int);
                assert(head.drop_last() =~= views.take(index - 1));
                assert(head.last() == keys@[index - 1]@);
            }
        }
        assert(views.take(index as int) =~= views);
        dst.extend_from_slice(array.as_slice());
        dst.push(self.k as u8);
        proof {
            assert(dst@ =~= start + self.filter(views));
            assert forall|key: Seq<u8>| #[trigger] views.contains(key) implies self.admits(
                key,
                self.filter(views),
            ) by {
                law_bloom_no_false_negative(views, self.bits(), bloom_probes(self.bits()), key);
            }
        }
    }

    fn key_may_match(&self, key: &[u8], filter: &[u8]) -> (answer: bool) {
        let length: usize = filter.len();
        if length < 2 {
            return false;
        }
        let array: &[u8] = &filter[0..length - 1];
        let k: usize = filter[length - 1] as usize;
        assert(array@ =~= filter@.drop_last());
        if k > 30 {
            return true;
        }
        let bits: u128 = array.len() as u128 * 8;
        let mut h: u32 = hash::hash(key, HASH_SEED);
        let delta: u32 = (h << 15) | (h >> 17);
        let mut index: usize = 0;
        while index < k
            invariant
                index <= k,
                k <= 30,
                k == filter@.last(),
                filter@.len() == length,
                length >= 2,
                array@ == filter@.drop_last(),
                bits == 8 * array@.len(),
                h == probe(key@, index as nat),
                delta == (hash::hash_of(key@, HASH_SEED) << 15) | (hash::hash_of(key@, HASH_SEED)
                    >> 17),
                forall|i: nat|
                    i < index ==> bit_is_set(array@, #[trigger] probe_bit(key@, i, array@.len())),
            decreases k - index,
        {
            proof {
                vstd::arithmetic::div_mod::lemma_mod_decreases(h as nat, bits as nat);
            }
            let bit: usize = (h as u128 % bits) as usize;
            assert(bit == probe_bit(key@, index as nat, array@.len()));
            if array[bit / 8] & (1u8 << ((bit % 8) as u8)) == 0 {
                assert(!bit_is_set(
                    filter@.drop_last(),
                    probe_bit(key@, index as nat, (filter@.len() - 1) as nat),
                ));
                return false;
            }
            h = h.wrapping_add(delta);
            index = index + 1;
        }
        true
    }
}

impl BloomFilterPolicy {
    /// Sets the bits of a key's probes.
    fn set_probes(array: &mut Vec<u8>, key: &[u8], k: usize)
        requires
            0 < old(array)@.len(),
            8 * old(array)@.len() <= usize::MAX,
        ensures
            final(array)@ == with_probes(old(array)@, key@, k as nat),
            final(array)@.len() == old(array)@.len(),
    {
        let ghost start = array@;
        let bits: usize = array.len() * 8;
        let mut h: u32 = hash::hash(key, HASH_SEED);
        let delta: u32 = (h << 15) | (h >> 17);
        let mut index: usize = 0;
        while index < k
            invariant
                index <= k,
                start.len() == array@.len(),
                bits == 8 * start.len(),
                bits > 0,
                h == probe(key@, index as nat),
                delta == (hash::hash_of(key@, HASH_SEED) << 15) | (hash::hash_of(key@, HASH_SEED)
                    >> 17),
                array@ == with_probes(start, key@, index as nat),
            decreases k - index,
        {
            let bit: usize = h as usize % bits;
            assert(bit == probe_bit(key@, index as nat, array@.len()));
            let byte: u8 = array[bit / 8] | (1u8 << ((bit % 8) as u8));
            array.set(bit / 8, byte);
            h = h.wrapping_add(delta);
            index = index + 1;
        }
    }
}

impl<P: FilterPolicy + ?Sized> FilterPolicy for Arc<P> {
    open spec fn title(&self) -> Seq<char> {
        (**self).title()
    }

    open spec fn filter(&self, keys: Seq<Seq<u8>>) -> Seq<u8> {
        (**self).filter(keys)
    }

    open spec fn admits(&self, key: Seq<u8>, filter: Seq<u8>) -> bool {
        (**self).admits(key, filter)
    }

    fn name(&self) -> (name: &'static str) {
        (**self).name()
    }

    fn create_filter(&self, keys: &[&[u8]], dst: &mut Vec<u8>) {
        (**self).create_filter(keys, dst)
    }

    fn key_may_match(&self, key: &[u8], filter: &[u8]) -> (answer: bool) {
        (**self).key_may_match(key, filter)
    }
}

impl<P: FilterPolicy + ?Sized> FilterPolicy for Box<P> {
    open spec fn title(&self) -> Seq<char> {
        (**self).title()
    }

    open spec fn filter(&self, keys: Seq<Seq<u8>>) -> Seq<u8> {
        (**self).filter(keys)
    }

    open spec fn admits(&self, key: Seq<u8>, filter: Seq<u8>) -> bool {
        (**self).admits(key, filter)
    }

    fn name(&self) -> (name: &'static str) {
        (**self).name()
    }

    fn create_filter(&self, keys: &[&[u8]], dst: &mut Vec<u8>) {
        (**self).create_filter(keys, dst)
    }

    fn key_may_match(&self, key: &[u8], filter: &[u8]) -> (answer: bool) {
        (**self).key_may_match(key, filter)
    }
}

// ---------------------------------------------------------------------------
// Internal keys
// ---------------------------------------------------------------------------

/// The part of an internal key that filters see. What is too short to be an
/// internal key stays as it is.
pub open spec fn stripped(key: Seq<u8>) -> Seq<u8> {
    if key.len() >= 8 {
        key.take(key.len() - 8)
    } else {
        key
    }
}

/// The parts of internal keys that filters see.
pub open spec fn all_stripped(keys: Seq<Seq<u8>>) -> Seq<Seq<u8>> {
    Seq::new(keys.len(), |i: int| stripped(keys[i]))
}

/// Hands user keys to the policy within.
#[derive(Debug)]
pub struct InternalFilterPolicy<P: FilterPolicy> {
    pub user: P,
}

impl<P: FilterPolicy> InternalFilterPolicy<P> {
    pub fn new(user: P) -> (policy: Self)
        ensures
            policy.user == user,
    {
        InternalFilterPolicy { user }
    }
}

impl<P: FilterPolicy> FilterPolicy for InternalFilterPolicy<P> {
    open spec fn title(&self) -> Seq<char> {
        self.user.title()
    }

    open spec fn filter(&self, keys: Seq<Seq<u8>>) -> Seq<u8> {
        self.user.filter(all_stripped(keys))
    }

    open spec fn admits(&self, key: Seq<u8>, filter: Seq<u8>) -> bool {
        self.user.admits(stripped(key), filter)
    }

    fn name(&self) -> (name: &'static str) {
        self.user.name()
    }

    fn create_filter(&self, keys: &[&[u8]], dst: &mut Vec<u8>) {
        let mut short: Vec<&[u8]> = Vec::new();
        let mut index: usize = 0;
        while index < keys.len()
            invariant
                index <= keys@.len(),
                short@.len() == index,
                forall|i: int| 0 <= i < index ==> #[trigger] short@[i]@ == stripped(keys@[i]@),
            decreases keys@.len() - index,
        {
            short.push(user_key_of(keys[index]));
            index = index + 1;
        }
        assert(key_views(short@) =~= all_stripped(key_views(keys@)));
        self.user.create_filter(short.as_slice(), dst);
        proof {
            let views = key_views(keys@);
            assert forall|key: Seq<u8>| #[trigger] views.contains(key) implies self.admits(
                key,
                self.filter(views),
            ) by {
                let j = choose|j: int| 0 <= j < views.len() && views[j] == key;
                assert(all_stripped(views)[j] == stripped(key));
                assert(all_stripped(views).contains(stripped(key)));
            }
        }
    }

    fn key_may_match(&self, key: &[u8], filter: &[u8]) -> (answer: bool) {
        self.user.key_may_match(user_key_of(key), filter)
    }
}

fn user_key_of(internal_key: &[u8]) -> (user_key: &[u8])
    ensures
        user_key@ == stripped(internal_key@),
{
    if internal_key.len() >= 8 {
        let user_key = &internal_key[0..internal_key.len() - 8];
        assert(user_key@ =~= stripped(internal_key@));
        user_key
    } else {
        internal_key
    }
}

/// The probes of a key go up from its hash in equal steps, around the 32-bit numbers.
pub proof fn law_probes_step(key: Seq<u8>, index: nat)
    ensures
        ({
            let start = hash::hash_of(key, HASH_SEED);
            let step = (start << 15) | (start >> 17);
            probe(key, index) == (start + index * step) % 0x1_0000_0000
        }),
    decreases index,
{
    let start = hash::hash_of(key, HASH_SEED);
    let step = (start << 15) | (start >> 17);
    if index > 0 {
        let before = (index - 1) as nat;
        law_probes_step(key, before);
        let sum = start + before * step;
        assert(start + index * step == sum + step) by (nonlinear_arith)
            requires
                index == before + 1,
                sum == start + before * step,
        ;
        assert(sum >= 0) by (nonlinear_arith)
            requires
                sum == start + before * step,
                start >= 0,
                step >= 0,
                before >= 0,
        ;
        vstd::arithmetic::div_mod::lemma_add_mod_noop(sum, step as int, 0x1_0000_0000);
        vstd::arithmetic::div_mod::lemma_small_mod(step as nat, 0x1_0000_0000);
        let total = probe(key, before) + step;
        if total >= 0x1_0000_0000 {
            vstd::arithmetic::div_mod::lemma_fundamental_div_mod_converse(
                total,
                0x1_0000_0000,
                1,
                total - 0x1_0000_0000,
            );
        } else {
            vstd::arithmetic::div_mod::lemma_small_mod(total as nat, 0x1_0000_0000);
        }
    } else {
        assert(0 * step == 0) by (nonlinear_arith);
        vstd::arithmetic::div_mod::lemma_small_mod(start as nat, 0x1_0000_0000);
    }
}

/// A filter has as many bits as are wanted for its keys, rounded up to whole bytes, and at
/// least 64. It is probed in 69 of 100 of the bits for each key, at least once and at most
/// thirty times.
pub proof fn law_filter_size(keys: nat, bits_per_key: nat)
    requires
        keys * bits_per_key <= usize::MAX - 7,
    ensures
        8 * bloom_bytes(keys, bits_per_key) >= 64,
        8 * bloom_bytes(keys, bits_per_key) >= keys * bits_per_key,
        keys * bits_per_key > 64 ==> 8 * bloom_bytes(keys, bits_per_key) < keys * bits_per_key + 8,
        keys * bits_per_key <= 64 ==> bloom_bytes(keys, bits_per_key) == 8,
        1 <= bloom_probes(bits_per_key) <= 30,
        2 <= bits_per_key <= 43 ==> 100 * bloom_probes(bits_per_key) <= 69 * bits_per_key < 100 * (
        bloom_probes(bits_per_key) + 1),
        bits_per_key > 43 ==> bloom_probes(bits_per_key) == 30,
        bits_per_key < 2 ==> bloom_probes(bits_per_key) == 1,
{
}

} // verus!
