//! In-memory write buffer.
//!
//! A memtable holds entries in a skip list, ordered by internal key. An entry is
//! an internal key and a value, each behind its length.

use vstd::prelude::*;

use std::cmp::Ordering;

use crate::coding;
use crate::comparator;
use crate::comparator::Comparator;
use crate::db_iter::db_iterator;
use crate::db_iter::db_iterator::DbIterator;
use crate::format::InternalKeyComparator;
use crate::format::LookupKey;
use crate::format::ParsedInternalKey;
use crate::format::ValueType;
use crate::skiplist::SkipList;
use crate::skiplist::SkipListIter;
use crate::status;
use crate::status::Status;

verus! {

/// An entry in bytes.
pub open spec fn entry_bytes(internal_key: Seq<u8>, value: Seq<u8>) -> Seq<u8> {
    coding::length_prefixed(internal_key) + coding::length_prefixed(value)
}

/// The internal key of an entry.
pub open spec fn entry_key(entry: Seq<u8>) -> Seq<u8> {
    (coding::read_length_prefixed(entry)->0).0
}

/// What follows the internal key of an entry.
pub open spec fn entry_rest(entry: Seq<u8>) -> Seq<u8> {
    entry.skip((coding::read_length_prefixed(entry)->0).1 as int)
}

/// The value of an entry.
pub open spec fn entry_value(entry: Seq<u8>) -> Seq<u8> {
    (coding::read_length_prefixed(entry_rest(entry))->0).0
}

/// Whether key and value can be read.
pub open spec fn is_entry(entry: Seq<u8>) -> bool {
    &&& coding::read_length_prefixed(entry) is Some
    &&& entry_key(entry).len() >= 8
    &&& coding::read_length_prefixed(entry_rest(entry)) is Some
}

/// Whether an entry is the internal key's user key, seen no later than it.
pub open spec fn visible<C: Comparator>(
    comparator: InternalKeyComparator<C>,
    key: Seq<u8>,
    target: Seq<u8>,
) -> bool {
    let user = comparator.user_order();
    &&& !user.less(crate::format::user_part(key), crate::format::user_part(target))
    &&& !user.less(crate::format::user_part(target), crate::format::user_part(key))
    &&& !comparator.less(key, target)
}

/// The first entry from `from` on that is visible. Entries of one user key come
/// newest first, so this is the newest.
pub open spec fn newest_visible<C: Comparator>(
    comparator: InternalKeyComparator<C>,
    entries: Seq<db_iterator::Pair>,
    target: Seq<u8>,
    from: int,
) -> Option<int>
    decreases entries.len() - from,
{
    if from >= entries.len() {
        None
    } else if visible(comparator, entries[from].0, target) {
        Some(from)
    } else {
        newest_visible(comparator, entries, target, from + 1)
    }
}

/// What a look into a memtable gives: nothing where it has no entry of the key, an
/// error where the newest one is a deletion, else the value.
pub open spec fn looked_up<C: Comparator>(
    comparator: InternalKeyComparator<C>,
    entries: Seq<db_iterator::Pair>,
    target: Seq<u8>,
    answer: Option<status::Result<Vec<u8>>>,
) -> bool {
    match newest_visible(comparator, entries, target, 0) {
        None => answer is None,
        Some(index) => if crate::format::tag_part(entries[index].0) % 256 == 0 {
            answer matches Some(found) && found matches Err(error) && error.says(
                status::Code::NotFound,
                "memtable tombstone"@,
            )
        } else {
            answer matches Some(found) && found matches Ok(value) && value@ == entries[index].1
        },
    }
}

/// Reads length-prefixed bytes and says where they end.
fn get_memtable_length_prefixed_slice(data: &[u8]) -> (read: Option<(&[u8], usize)>)
    ensures
        match coding::read_length_prefixed(data@) {
            None => read is None,
            Some((bytes, count)) => read matches Some((b, c)) && b@ == bytes && c == count && c
                <= data@.len(),
        },
{
    let mut cursor: &[u8] = data;
    proof {
        coding::lemma_read_varint_bounds(data@, coding::MAX_VARINT32_BYTES as nat);
    }
    match coding::get_length_prefixed_slice(&mut cursor) {
        None => None,
        Some(bytes) => Some((bytes, data.len() - cursor.len())),
    }
}

/// Puts an entry together.
fn encode_entry(sequence: u64, value_type: ValueType, key: &[u8], value: &[u8]) -> (entry: Vec<u8>)
    requires
        sequence <= crate::format::MAX_SEQUENCE_NUMBER,
    ensures
        entry@ == entry_bytes(
            crate::format::internal_key_bytes(key@, sequence as nat, value_type),
            value@,
        ),
{
    let mut bytes: Vec<u8> = Vec::new();
    crate::format::append_internal_key(
        &mut bytes,
        &ParsedInternalKey::new(key, sequence, value_type),
    );
    assert(bytes@ =~= crate::format::internal_key_bytes(key@, sequence as nat, value_type));
    let mut entry: Vec<u8> = Vec::new();
    coding::put_length_prefixed_slice(&mut entry, bytes.as_slice());
    coding::put_length_prefixed_slice(&mut entry, value);
    assert(entry@ =~= entry_bytes(bytes@, value@));
    entry
}

/// Orders memtable entries by their internal keys.
#[derive(Debug)]
pub struct KeyComparator<C: Comparator> {
    inner: InternalKeyComparator<C>,
}

impl<C: Comparator> Clone for KeyComparator<C> {
    fn clone(&self) -> (copy: Self)
        ensures
            copy == *self,
    {
        KeyComparator { inner: self.inner.clone() }
    }
}

impl<C: Comparator> KeyComparator<C> {
    /// The comparator of the internal keys.
    pub closed spec fn internal_order(&self) -> InternalKeyComparator<C> {
        self.inner
    }

    /// The internal key of an entry.
    fn internal_key(entry: &[u8]) -> (key: &[u8])
        requires
            coding::read_length_prefixed(entry@) is Some,
        ensures
            key@ == entry_key(entry@),
    {
        match get_memtable_length_prefixed_slice(entry) {
            Some((key, _)) => key,
            None => entry,
        }
    }
}

impl<C: Comparator> Comparator for KeyComparator<C> {
    open spec fn title(&self) -> Seq<char> {
        "pulsearc-db.MemTableKeyComparator"@
    }

    open spec fn admits(&self, key: Seq<u8>) -> bool {
        coding::read_length_prefixed(key) is Some && self.internal_order().admits(entry_key(key))
    }

    open spec fn less(&self, a: Seq<u8>, b: Seq<u8>) -> bool {
        self.internal_order().less(entry_key(a), entry_key(b))
    }

    open spec fn separator(&self, start: Seq<u8>, limit: Seq<u8>) -> Seq<u8> {
        start
    }

    open spec fn successor(&self, key: Seq<u8>) -> Seq<u8> {
        key
    }

    proof fn separator_separates(&self, start: Seq<u8>, limit: Seq<u8>) {
        self.less_irreflexive(start);
    }

    proof fn successor_follows(&self, key: Seq<u8>) {
        self.less_irreflexive(key);
    }

    proof fn less_irreflexive(&self, a: Seq<u8>) {
        self.internal_order().less_irreflexive(entry_key(a));
    }

    proof fn less_transitive(&self, a: Seq<u8>, b: Seq<u8>, c: Seq<u8>) {
        self.internal_order().less_transitive(entry_key(a), entry_key(b), entry_key(c));
    }

    proof fn less_splits(&self, a: Seq<u8>, b: Seq<u8>, c: Seq<u8>) {
        self.internal_order().less_splits(entry_key(a), entry_key(b), entry_key(c));
    }

    proof fn clone_is_same(&self, copy: Self) {
    }

    fn name(&self) -> (name: &'static str) {
        "pulsearc-db.MemTableKeyComparator"
    }

    fn accepts(&self, key: &[u8]) -> (answer: bool) {
        match get_memtable_length_prefixed_slice(key) {
            None => false,
            Some((internal_key, _)) => self.inner.accepts(internal_key),
        }
    }

    fn compare(&self, a: &[u8], b: &[u8]) -> (order: Ordering) {
        self.inner.compare(Self::internal_key(a), Self::internal_key(b))
    }

    fn find_shortest_separator(&self, start: &mut Vec<u8>, limit: &[u8]) {
    }

    fn find_short_successor(&self, key: &mut Vec<u8>) {
    }
}

/// A write buffer.
pub struct MemTable<C: Comparator> {
    comparator: InternalKeyComparator<C>,
    list: SkipList<KeyComparator<C>>,
}

impl<C: Comparator> MemTable<C> {
    /// The comparator of the internal keys.
    pub closed spec fn order(&self) -> InternalKeyComparator<C> {
        self.comparator
    }

    /// The entries in order: internal keys and values.
    pub closed spec fn entries(&self) -> Seq<db_iterator::Pair> {
        pairs_of(self.list.keys())
    }

    /// All entries can be read.
    pub closed spec fn wf(&self) -> bool {
        &&& self.list.wf()
        &&& self.list.key_order().internal_order() == self.comparator
        &&& forall|i: int| 0 <= i < self.list.keys().len() ==> is_entry(#[trigger] self.list.keys()[i])
    }

    /// The entries are sorted.
    pub proof fn lemma_sorted(&self)
        requires
            self.wf(),
        ensures
            db_iterator::sorted(self.order(), self.entries()),
    {
        self.list.lemma_keys();
        let keys = self.list.keys();
        let entries = self.entries();
        assert forall|i: int| 0 <= i < entries.len() implies self.order().admits(
            #[trigger] entries[i].0,
        ) by {
            assert(self.list.key_order().admits(keys[i]));
        }
        assert forall|i: int, j: int| 0 <= i < j < entries.len() implies self.order().less(
            #[trigger] entries[i].0,
            #[trigger] entries[j].0,
        ) by {
            assert(self.list.key_order().less(keys[i], keys[j]));
        }
    }

    pub fn new(comparator: C) -> (table: Self)
        ensures
            table.wf(),
            table.order().user_order() == comparator,
            table.entries() == Seq::<db_iterator::Pair>::empty(),
    {
        let internal = InternalKeyComparator::new(comparator);
        let list = SkipList::new(KeyComparator { inner: internal.clone() });
        let table = MemTable { comparator: internal, list };
        assert(table.entries() =~= Seq::<db_iterator::Pair>::empty());
        table
    }

    /// Makes room for more entries.
    pub fn reserve_entries(&mut self, additional: usize)
        ensures
            *final(self) == *old(self),
    {
        self.list.reserve(additional);
    }

    /// Whether no entry has the given internal key.
    pub open spec fn lacks(&self, key: Seq<u8>) -> bool {
        forall|i: int|
            0 <= i < self.entries().len() ==> self.order().less(
                #[trigger] self.entries()[i].0,
                key,
            ) || self.order().less(key, self.entries()[i].0)
    }

    /// Adds an entry and says how many bytes it takes.
    pub fn add(
        &mut self,
        sequence: u64,
        value_type: ValueType,
        key: &[u8],
        value: &[u8],
    ) -> (size: usize)
        requires
            old(self).wf(),
            sequence <= crate::format::MAX_SEQUENCE_NUMBER,
            old(self).order().user_order().admits(key@),
            old(self).lacks(crate::format::internal_key_bytes(key@, sequence as nat, value_type)),
            key@.len() + 8 < coding::two_pow_32(),
            value@.len() < coding::two_pow_32(),
            old(self).entries().len() + 2 < usize::MAX,
        ensures
            final(self).wf(),
            final(self).order() == old(self).order(),
            size == entry_bytes(
                crate::format::internal_key_bytes(key@, sequence as nat, value_type),
                value@,
            ).len(),
            exists|place: int|
                0 <= place <= old(self).entries().len() && final(self).entries()
                    == #[trigger] old(self).entries().insert(
                    place,
                    (crate::format::internal_key_bytes(key@, sequence as nat, value_type), value@),
                ),
    {
        let ghost internal_key = crate::format::internal_key_bytes(key@, sequence as nat, value_type);
        let entry = encode_entry(sequence, value_type, key, value);
        let size: usize = entry.len();
        let ghost before = self.list.keys();
        let ghost added = entry@;
        proof {
            crate::format::lemma_internal_key_parts(
                key@,
                crate::format::packed(sequence as nat, value_type),
            );
            lemma_entry_round_trip(internal_key, value@);
            self.lemma_list_lacks(added);
        }
        self.list.insert(entry);
        proof {
            self.lemma_added(before, added);
        }
        size
    }

    /// How many entries there are.
    pub fn len(&self) -> (count: usize)
        requires
            self.wf(),
        ensures
            count == self.entries().len(),
    {
        self.list.len()
    }

    /// Whether there is an entry of the given internal key.
    pub fn has_entry(&self, sequence: u64, value_type: ValueType, key: &[u8]) -> (answer: bool)
        requires
            self.wf(),
            sequence <= crate::format::MAX_SEQUENCE_NUMBER,
            self.order().user_order().admits(key@),
            key@.len() + 8 < coding::two_pow_32(),
        ensures
            answer == !self.lacks(
                crate::format::internal_key_bytes(key@, sequence as nat, value_type),
            ),
    {
        let none: [u8; 0] = [];
        let probe = encode_entry(sequence, value_type, key, none.as_slice());
        proof {
            let internal_key = crate::format::internal_key_bytes(key@, sequence as nat, value_type);
            crate::format::lemma_internal_key_parts(
                key@,
                crate::format::packed(sequence as nat, value_type),
            );
            lemma_entry_round_trip(internal_key, none@);
            if self.lacks(internal_key) {
                self.lemma_list_lacks(probe@);
            } else {
                let i = choose|i: int|
                    0 <= i < self.entries().len() && !(self.order().less(
                        #[trigger] self.entries()[i].0,
                        internal_key,
                    ) || self.order().less(internal_key, self.entries()[i].0));
                assert(self.entries()[i].0 == entry_key(self.list.keys()[i]));
                assert(!(self.list.key_order().less(self.list.keys()[i], probe@)
                    || self.list.key_order().less(probe@, self.list.keys()[i])));
            }
        }
        self.list.contains(probe.as_slice())
    }

    /// A list lacks an entry whose internal key the table lacks.
    proof fn lemma_list_lacks(&self, added: Seq<u8>)
        requires
            self.wf(),
            self.lacks(entry_key(added)),
        ensures
            self.list.lacks(added),
    {
        let keys = self.list.keys();
        assert forall|i: int| 0 <= i < keys.len() implies self.list.key_order().less(
            #[trigger] keys[i],
            added,
        ) || self.list.key_order().less(added, keys[i]) by {
            assert(self.entries()[i].0 == entry_key(keys[i]));
        }
    }

    /// A list with one more entry is a table with one more entry.
    proof fn lemma_added(&self, before: Seq<Seq<u8>>, added: Seq<u8>)
        requires
            is_entry(added),
            forall|i: int| 0 <= i < before.len() ==> is_entry(#[trigger] before[i]),
            exists|place: int|
                0 <= place <= before.len() && self.list.keys() == #[trigger] before.insert(
                    place,
                    added,
                ),
        ensures
            forall|i: int|
                0 <= i < self.list.keys().len() ==> is_entry(#[trigger] self.list.keys()[i]),
            exists|place: int|
                0 <= place <= pairs_of(before).len() && self.entries() == #[trigger] pairs_of(
                    before,
                ).insert(place, (entry_key(added), entry_value(added))),
    {
        let place = choose|place: int|
            0 <= place <= before.len() && self.list.keys() == #[trigger] before.insert(place, added);
        let after = self.list.keys();
        assert(after == before.insert(place, added));
        let pair = (entry_key(added), entry_value(added));
        assert(pairs_of(after) =~= pairs_of(before).insert(place, pair));
        assert forall|i: int| 0 <= i < after.len() implies is_entry(#[trigger] after[i]) by {
            if i < place {
                assert(after[i] == before[i]);
            } else if i > place {
                assert(after[i] == before[i - 1]);
            }
        }
    }

    /// The newest value of a key. See [`looked_up`].
    pub fn get(&self, lookup_key: &LookupKey) -> (answer: Option<status::Result<Vec<u8>>>)
        requires
            self.wf(),
            lookup_key.wf(),
            self.order().admits(lookup_key.target()),
            lookup_key.target().len() < coding::two_pow_32(),
            lookup_key.bytes() == coding::length_prefixed(lookup_key.target()),
        ensures
            looked_up(self.order(), self.entries(), lookup_key.target(), answer),
    {
        let ghost target = lookup_key.target();
        let ghost entries = self.entries();
        let ghost keys = self.list.keys();
        let mut iter = self.list.iter();
        let sought = lookup_key.memtable_key();
        proof {
            self.lemma_sorted();
            coding::law_length_prefixed_round_trip(target, Seq::empty());
            assert(sought@ + Seq::<u8>::empty() =~= sought@);
        }
        iter.seek(sought);
        proof {
            iter.lemma_position();
            assert forall|i: int| 0 <= i < entries.len() implies (self.order().less(
                #[trigger] entries[i].0,
                target,
            ) <==> self.list.key_order().less(keys[i], sought@)) by {
                assert(entries[i].0 == entry_key(keys[i]));
            }
        }
        if !iter.valid() {
            proof {
                lemma_newest_none(self.order(), entries, target, entries.len() as int);
            }
            return None;
        }
        let ghost index = iter.position()->0;
        let entry = iter.key();
        assert(is_entry(entry@));
        let (internal_key, value_offset) = match get_memtable_length_prefixed_slice(entry) {
            None => {
                return None;
            },
            Some(found) => found,
        };
        assert(internal_key@ == entries[index].0);
        assert(self.order().admits(entries[index].0));
        if !comparator::equivalent(
            self.comparator.user_comparator(),
            crate::format::required_user_key(internal_key),
            lookup_key.user_key(),
        ) {
            proof {
                lemma_newest_none(self.order(), entries, target, index);
            }
            return None;
        }
        proof {
            lemma_newest_at(self.order(), entries, target, index);
        }
        let tag = crate::format::required_tag(internal_key);
        if tag % 256 == 0 {
            return Some(Err(Status::not_found("memtable tombstone")));
        }
        let rest: &[u8] = &entry[value_offset..entry.len()];
        assert(rest@ =~= entry_rest(entry@));
        match get_memtable_length_prefixed_slice(rest) {
            None => None,
            Some((value, _)) => {
                assert(value@ == entries[index].1);
                Some(Ok(vstd::slice::slice_to_vec(value)))
            },
        }
    }

    /// All entries in order.
    pub fn collect_entries(&self) -> (collected: Vec<(Vec<u8>, Vec<u8>)>)
        requires
            self.wf(),
        ensures
            collected@.len() == self.entries().len(),
            forall|i: int|
                0 <= i < collected@.len() ==> (#[trigger] collected@[i]).0@ == self.entries()[i].0
                    && collected@[i].1@ == self.entries()[i].1,
    {
        let ghost entries = self.entries();
        let mut collected: Vec<(Vec<u8>, Vec<u8>)> = Vec::new();
        let mut iter = self.list.iter();
        iter.seek_to_first();
        while iter.valid()
            invariant
                self.wf(),
                iter.wf(),
                *iter.source() == self.list,
                entries == self.entries(),
                match iter.position() {
                    None => collected@.len() == entries.len(),
                    Some(index) => collected@.len() == index && index < entries.len(),
                },
                forall|i: int|
                    0 <= i < collected@.len() ==> (#[trigger] collected@[i]).0@ == entries[i].0
                        && collected@[i].1@ == entries[i].1,
            decreases
                entries.len() - collected@.len() + if iter.position() is Some {
                    1int
                } else {
                    0int
                },
        {
            let entry = iter.key();
            proof {
                assert(is_entry(self.list.keys()[iter.position()->0]));
            }
            match get_memtable_length_prefixed_slice(entry) {
                None => {},
                Some((internal_key, value_offset)) => {
                    let rest: &[u8] = &entry[value_offset..entry.len()];
                    assert(rest@ =~= entry_rest(entry@));
                    match get_memtable_length_prefixed_slice(rest) {
                        None => {},
                        Some((value, _)) => {
                            collected.push(
                                (
                                    vstd::slice::slice_to_vec(internal_key),
                                    vstd::slice::slice_to_vec(value),
                                ),
                            );
                        },
                    }
                },
            }
            iter.next();
        }
        collected
    }

    /// An iterator over the entries.
    pub fn new_iterator(&self) -> (iter: MemTableIterator<'_, C>)
        requires
            self.wf(),
        ensures
            iter.wf(),
            iter.scan().current is None,
            iter.scan().contents == db_iterator::map_of(self.entries()),
            iter.scan().before == comparator::order_of(self.order()),
            iter.scan().admits == comparator::short_domain_of(self.order()),
            iter.scan().intact,
    {
        MemTableIterator { table: self, iter: self.list.iter(), tmp: Vec::new() }
    }
}

/// The keys and values of some entries.
pub open spec fn pairs_of(entries: Seq<Seq<u8>>) -> Seq<db_iterator::Pair> {
    Seq::new(entries.len(), |i: int| (entry_key(entries[i]), entry_value(entries[i])))
}

/// An entry holds the key and the value that it was made of.
pub proof fn lemma_entry_round_trip(internal_key: Seq<u8>, value: Seq<u8>)
    requires
        8 <= internal_key.len() < coding::two_pow_32(),
        value.len() < coding::two_pow_32(),
    ensures
        is_entry(entry_bytes(internal_key, value)),
        entry_key(entry_bytes(internal_key, value)) == internal_key,
        entry_value(entry_bytes(internal_key, value)) == value,
{
    let entry = entry_bytes(internal_key, value);
    let tail = coding::length_prefixed(value);
    coding::law_length_prefixed_round_trip(internal_key, tail);
    coding::law_length_prefixed_round_trip(value, Seq::empty());
    assert(entry_rest(entry) =~= tail);
    assert(tail + Seq::<u8>::empty() =~= tail);
}

/// Where the first entry that is not before the target has another user key, none
/// is visible.
proof fn lemma_newest_none<C: Comparator>(
    comparator: InternalKeyComparator<C>,
    entries: Seq<db_iterator::Pair>,
    target: Seq<u8>,
    index: int,
)
    requires
        db_iterator::sorted(comparator, entries),
        comparator.admits(target),
        0 <= index <= entries.len(),
        forall|i: int| 0 <= i < index ==> comparator.less(#[trigger] entries[i].0, target),
        index < entries.len() ==> !comparator.less(entries[index].0, target) && !visible(
            comparator,
            entries[index].0,
            target,
        ),
    ensures
        newest_visible(comparator, entries, target, 0) is None,
{
    let user = comparator.user_order();
    let t = crate::format::user_part(target);
    assert forall|i: int| 0 <= i < entries.len() implies !visible(
        comparator,
        #[trigger] entries[i].0,
        target,
    ) by {
        if i > index {
            let a = crate::format::user_part(entries[index].0);
            let b = crate::format::user_part(entries[i].0);
            assert(comparator.less(entries[index].0, entries[i].0));
            assert(comparator.admits(entries[index].0));
            assert(comparator.admits(entries[i].0));
            if user.less(b, a) {
                user.less_splits(b, a, a);
                db_iterator::lemma_sorted_order(comparator, entries, index, i);
                user.less_irreflexive(a);
                if user.less(a, b) {
                    user.less_transitive(a, b, a);
                }
            }
            if user.less(a, t) {
            } else {
                assert(user.less(t, a));
                user.less_splits(t, b, a);
            }
        }
    }
    lemma_none_visible(comparator, entries, target, 0);
}

proof fn lemma_none_visible<C: Comparator>(
    comparator: InternalKeyComparator<C>,
    entries: Seq<db_iterator::Pair>,
    target: Seq<u8>,
    from: int,
)
    requires
        0 <= from,
        forall|i: int|
            from <= i < entries.len() ==> !visible(comparator, #[trigger] entries[i].0, target),
    ensures
        newest_visible(comparator, entries, target, from) is None,
    decreases entries.len() - from,
{
    if from < entries.len() {
        assert(!visible(comparator, entries[from].0, target));
        lemma_none_visible(comparator, entries, target, from + 1);
    }
}

/// Where the first entry that is not before the target has its user key, it is the
/// newest visible one.
proof fn lemma_newest_at<C: Comparator>(
    comparator: InternalKeyComparator<C>,
    entries: Seq<db_iterator::Pair>,
    target: Seq<u8>,
    index: int,
)
    requires
        0 <= index < entries.len(),
        forall|i: int| 0 <= i < index ==> comparator.less(#[trigger] entries[i].0, target),
        visible(comparator, entries[index].0, target),
    ensures
        newest_visible(comparator, entries, target, 0) == Some(index),
{
    lemma_newest_from(comparator, entries, target, index, 0);
}

proof fn lemma_newest_from<C: Comparator>(
    comparator: InternalKeyComparator<C>,
    entries: Seq<db_iterator::Pair>,
    target: Seq<u8>,
    index: int,
    from: int,
)
    requires
        0 <= from <= index < entries.len(),
        forall|i: int| 0 <= i < index ==> comparator.less(#[trigger] entries[i].0, target),
        visible(comparator, entries[index].0, target),
    ensures
        newest_visible(comparator, entries, target, from) == Some(index),
    decreases index - from,
{
    if from < index {
        assert(comparator.less(entries[from].0, target));
        lemma_newest_from(comparator, entries, target, index, from + 1);
    }
}

// ---------------------------------------------------------------------------
// Iterator
// ---------------------------------------------------------------------------

/// Walks over the entries of a memtable.
pub struct MemTableIterator<'a, C: Comparator> {
    table: &'a MemTable<C>,
    iter: SkipListIter<'a, KeyComparator<C>>,
    tmp: Vec<u8>,
}

impl<'a, C: Comparator> MemTableIterator<'a, C> {
    /// The scan of a memtable runs over its entries.
    proof fn lemma_runs_over(&self)
        requires
            self.wf(),
        ensures
            db_iterator::sorted(self.table.order(), self.table.entries()),
            self.scan().current == match self.iter.position() {
                None => None,
                Some(index) => db_iterator::pair_at(self.table.entries(), index),
            },
    {
        self.table.lemma_sorted();
        self.iter.lemma_position();
    }
}

impl<'a, C: Comparator> DbIterator for MemTableIterator<'a, C> {
    closed spec fn wf(&self) -> bool {
        &&& self.table.wf()
        &&& self.iter.wf()
        &&& *self.iter.source() == self.table.list
    }

    closed spec fn scan(&self) -> db_iterator::Scan {
        db_iterator::Scan {
            contents: db_iterator::map_of(self.table.entries()),
            before: comparator::order_of(self.table.order()),
            admits: comparator::short_domain_of(self.table.order()),
            intact: true,
            steady: true,
            current: match self.iter.position() {
                None => None,
                Some(index) => Some(self.table.entries()[index]),
            },
            failure: None,
        }
    }

    fn valid(&self) -> (answer: bool) {
        self.iter.valid()
    }

    fn seek_to_first(&mut self) {
        self.iter.seek_to_first();
        proof {
            self.lemma_runs_over();
            db_iterator::lemma_at_first(
                self.scan(),
                self.table.order(),
                self.table.entries(),
            );
        }
    }

    fn seek_to_last(&mut self) {
        self.iter.seek_to_last();
        proof {
            self.lemma_runs_over();
            db_iterator::lemma_at_last(
                self.scan(),
                self.table.order(),
                self.table.entries(),
            );
        }
    }

    fn seek(&mut self, target: &[u8]) {
        self.tmp.clear();
        coding::put_length_prefixed_slice(&mut self.tmp, target);
        proof {
            coding::law_length_prefixed_round_trip(target@, Seq::empty());
            assert(self.tmp@ + Seq::<u8>::empty() =~= coding::length_prefixed(target@)
                + Seq::<u8>::empty());
            assert(self.tmp@ + Seq::<u8>::empty() =~= self.tmp@);
        }
        self.iter.seek(self.tmp.as_slice());
        proof {
            self.lemma_runs_over();
            let entries = self.table.entries();
            let keys = self.table.list.keys();
            let index = match self.iter.position() {
                Some(index) => index,
                None => entries.len() as int,
            };
            assert forall|i: int| 0 <= i < index implies self.table.order().less(
                #[trigger] entries[i].0,
                target@,
            ) by {
                assert(self.table.list.key_order().less(keys[i], self.tmp@));
            }
            if index < entries.len() {
                assert(!self.table.list.key_order().less(keys[index], self.tmp@));
            }
            db_iterator::lemma_at_or_after(
                self.scan(),
                self.table.order(),
                entries,
                target@,
                index,
            );
        }
    }

    fn next(&mut self) {
        proof {
            self.lemma_runs_over();
            self.iter.lemma_position();
        }
        self.iter.next();
        proof {
            self.lemma_runs_over();
            db_iterator::lemma_after(
                self.scan(),
                self.table.order(),
                self.table.entries(),
                old(self).iter.position()->0,
            );
        }
    }

    fn prev(&mut self) {
        proof {
            self.lemma_runs_over();
            self.iter.lemma_position();
        }
        self.iter.prev();
        proof {
            self.lemma_runs_over();
            db_iterator::lemma_ahead_of(
                self.scan(),
                self.table.order(),
                self.table.entries(),
                old(self).iter.position()->0,
            );
        }
    }

    fn key(&self) -> (key: &[u8]) {
        proof {
            self.iter.lemma_position();
            assert(is_entry(self.table.list.keys()[self.iter.position()->0]));
        }
        KeyComparator::<C>::internal_key(self.iter.key())
    }

    fn value(&self) -> (value: &[u8]) {
        proof {
            self.iter.lemma_position();
            assert(is_entry(self.table.list.keys()[self.iter.position()->0]));
        }
        let entry = self.iter.key();
        match get_memtable_length_prefixed_slice(entry) {
            None => entry,
            Some((_, value_offset)) => {
                let rest: &[u8] = &entry[value_offset..entry.len()];
                assert(rest@ =~= entry_rest(entry@));
                match get_memtable_length_prefixed_slice(rest) {
                    None => entry,
                    Some((value, _)) => value,
                }
            },
        }
    }

    fn status(&self) -> (outcome: status::Result<()>) {
        Ok(())
    }
}

/// The handle through which a database writes and reads a memtable.
pub struct SharedMemTable<C: Comparator> {
    inner: MemTable<C>,
}

impl<C: Comparator> SharedMemTable<C> {
    /// The memtable.
    pub closed spec fn table(&self) -> MemTable<C> {
        self.inner
    }

    pub fn new(comparator: C) -> (shared: Self)
        ensures
            shared.table().wf(),
            shared.table().order().user_order() == comparator,
            shared.table().entries() == Seq::<db_iterator::Pair>::empty(),
    {
        SharedMemTable { inner: MemTable::new(comparator) }
    }

    pub fn reserve_entries(&mut self, additional: usize)
        ensures
            *final(self) == *old(self),
    {
        self.inner.reserve_entries(additional);
    }

    /// Adds an entry and says how many bytes it takes.
    pub fn add(
        &mut self,
        sequence: u64,
        value_type: ValueType,
        key: &[u8],
        value: &[u8],
    ) -> (size: usize)
        requires
            old(self).table().wf(),
            sequence <= crate::format::MAX_SEQUENCE_NUMBER,
            old(self).table().order().user_order().admits(key@),
            old(self).table().lacks(
                crate::format::internal_key_bytes(key@, sequence as nat, value_type),
            ),
            key@.len() + 8 < coding::two_pow_32(),
            value@.len() < coding::two_pow_32(),
            old(self).table().entries().len() + 2 < usize::MAX,
        ensures
            final(self).table().wf(),
            final(self).table().order() == old(self).table().order(),
            size == entry_bytes(
                crate::format::internal_key_bytes(key@, sequence as nat, value_type),
                value@,
            ).len(),
            exists|place: int|
                0 <= place <= old(self).table().entries().len() && final(self).table().entries()
                    == #[trigger] old(self).table().entries().insert(
                    place,
                    (crate::format::internal_key_bytes(key@, sequence as nat, value_type), value@),
                ),
    {
        self.inner.add(sequence, value_type, key, value)
    }

    /// How many entries there are.
    pub fn len(&self) -> (count: usize)
        requires
            self.table().wf(),
        ensures
            count == self.table().entries().len(),
    {
        self.inner.len()
    }

    /// Whether there is an entry of the given internal key.
    pub fn has_entry(&self, sequence: u64, value_type: ValueType, key: &[u8]) -> (answer: bool)
        requires
            self.table().wf(),
            sequence <= crate::format::MAX_SEQUENCE_NUMBER,
            self.table().order().user_order().admits(key@),
            key@.len() + 8 < coding::two_pow_32(),
        ensures
            answer == !self.table().lacks(
                crate::format::internal_key_bytes(key@, sequence as nat, value_type),
            ),
    {
        self.inner.has_entry(sequence, value_type, key)
    }

    /// The comparator of the user keys.
    pub fn user_comparator(&self) -> (comparator: &C)
        ensures
            *comparator == self.table().order().user_order(),
    {
        self.inner.comparator.user_comparator()
    }

    /// The newest value of a key. See [`looked_up`].
    pub fn get(&self, lookup_key: &LookupKey) -> (answer: Option<status::Result<Vec<u8>>>)
        requires
            self.table().wf(),
            lookup_key.wf(),
            self.table().order().admits(lookup_key.target()),
            lookup_key.target().len() < coding::two_pow_32(),
            lookup_key.bytes() == coding::length_prefixed(lookup_key.target()),
        ensures
            looked_up(
                self.table().order(),
                self.table().entries(),
                lookup_key.target(),
                answer,
            ),
    {
        self.inner.get(lookup_key)
    }

    /// All entries in order.
    pub fn collect_entries(&self) -> (collected: Vec<(Vec<u8>, Vec<u8>)>)
        requires
            self.table().wf(),
        ensures
            collected@.len() == self.table().entries().len(),
            forall|i: int|
                0 <= i < collected@.len() ==> (#[trigger] collected@[i]).0@
                    == self.table().entries()[i].0 && collected@[i].1@
                    == self.table().entries()[i].1,
    {
        self.inner.collect_entries()
    }

    /// An iterator over the entries.
    pub fn new_iterator(&self) -> (iter: MemTableIterator<'_, C>)
        requires
            self.table().wf(),
        ensures
            iter.wf(),
            iter.scan().current is None,
            iter.scan().contents == db_iterator::map_of(self.table().entries()),
            iter.scan().before == comparator::order_of(self.table().order()),
            iter.scan().admits == comparator::short_domain_of(self.table().order()),
            iter.scan().intact,
    {
        self.inner.new_iterator()
    }
}

// ---------------------------------------------------------------------------
// What was added
// ---------------------------------------------------------------------------

/// An entry as it is added.
pub struct Added {
    pub sequence: nat,
    pub value_type: ValueType,
    pub key: Seq<u8>,
    pub value: Seq<u8>,
}

impl Added {
    /// The internal key and the value.
    pub open spec fn pair(self) -> db_iterator::Pair {
        (crate::format::internal_key_bytes(self.key, self.sequence, self.value_type), self.value)
    }

    /// Greater for newer entries. Under one sequence number a value counts as newer than a
    /// deletion.
    pub open spec fn age_rank(self) -> nat {
        crate::format::packed(self.sequence, self.value_type)
    }

    /// Whether the entry is one of a key, and not newer than a sequence number.
    pub open spec fn is_seen<C: Comparator>(self, user: C, key: Seq<u8>, sequence: nat) -> bool {
        &&& !user.less(self.key, key)
        &&& !user.less(key, self.key)
        &&& self.sequence <= sequence
    }
}

/// The internal keys and values of what was added.
pub open spec fn added_pairs(adds: Seq<Added>) -> Seq<db_iterator::Pair> {
    Seq::new(adds.len(), |i: int| adds[i].pair())
}

/// Whether entries are those of before and one more.
pub open spec fn is_one_more(
    before: Seq<db_iterator::Pair>,
    after: Seq<db_iterator::Pair>,
    pair: db_iterator::Pair,
) -> bool {
    exists|place: int|
        0 <= place <= before.len() && after == #[trigger] before.insert(place, pair)
}

/// Whether a table went through these states while entries were added to it, one after the
/// other, from when it was new.
pub open spec fn is_filled<C: Comparator>(states: Seq<MemTable<C>>, adds: Seq<Added>) -> bool {
    &&& states.len() == adds.len() + 1
    &&& states[0].entries().len() == 0
    &&& forall|k: int| 0 <= k < states.len() ==> (#[trigger] states[k]).wf()
    &&& forall|k: int| 0 <= k < states.len() ==> (#[trigger] states[k]).order() == states[0].order()
    &&& forall|k: int|
        0 <= k < adds.len() ==> (#[trigger] adds[k]).sequence <= crate::format::MAX_SEQUENCE_NUMBER
            && is_one_more(states[k].entries(), states[k + 1].entries(), adds[k].pair())
}

/// The keys and values that were collected.
pub open spec fn collected_pairs(collected: Seq<(Vec<u8>, Vec<u8>)>) -> Seq<db_iterator::Pair> {
    Seq::new(collected.len(), |i: int| (collected[i].0@, collected[i].1@))
}

/// A table holds what was added to it, and nothing else.
proof fn lemma_holds_added<C: Comparator>(states: Seq<MemTable<C>>, adds: Seq<Added>, count: int)
    requires
        is_filled(states, adds),
        0 <= count <= adds.len(),
    ensures
        states[count].entries().to_multiset() == added_pairs(adds).take(count).to_multiset(),
    decreases count,
{
    let pairs = added_pairs(adds);
    if count > 0 {
        lemma_holds_added(states, adds, count - 1);
        let before = states[count - 1].entries();
        let after = states[count - 1 + 1].entries();
        let pair = adds[count - 1].pair();
        assert(is_one_more(before, after, pair));
        let place = choose|place: int|
            0 <= place <= before.len() && after == #[trigger] before.insert(place, pair);
        before.to_multiset_ensures();
        broadcast use vstd::seq_lib::group_to_multiset_ensures;

        assert(after.to_multiset() =~= before.to_multiset().insert(pair));
        assert(pairs.take(count) =~= pairs.take(count - 1).push(pair));
        assert(pairs.take(count).to_multiset() =~= pairs.take(count - 1).to_multiset().insert(
            pair,
        ));
    } else {
        assert(states[0].entries() =~= pairs.take(0));
    }
}

/// What is collected of a table is all that was added to it, each entry once, in the order of
/// the internal keys.
pub proof fn law_added_is_collected<C: Comparator>(
    states: Seq<MemTable<C>>,
    adds: Seq<Added>,
    collected: Seq<(Vec<u8>, Vec<u8>)>,
)
    requires
        is_filled(states, adds),
        collected_pairs(collected) == states.last().entries(),
    ensures
        collected_pairs(collected).to_multiset() == added_pairs(adds).to_multiset(),
        db_iterator::sorted(states[0].order(), collected_pairs(collected)),
{
    lemma_holds_added(states, adds, adds.len() as int);
    assert(added_pairs(adds).take(adds.len() as int) =~= added_pairs(adds));
    states.last().lemma_sorted();
}

/// What a table says of a key: whether some entry of it was added that is not newer than a
/// sequence number, and the newest of these.
pub open spec fn tells_newest<C: Comparator>(
    user: C,
    adds: Seq<Added>,
    key: Seq<u8>,
    sequence: nat,
    answer: Option<status::Result<Vec<u8>>>,
) -> bool {
    match answer {
        None => forall|i: int|
            0 <= i < adds.len() ==> !(#[trigger] adds[i]).is_seen(user, key, sequence),
        Some(found) => exists|i: int|
            {
                &&& 0 <= i < adds.len()
                &&& (#[trigger] adds[i]).is_seen(user, key, sequence)
                &&& forall|j: int|
                    0 <= j < adds.len() && (#[trigger] adds[j]).is_seen(user, key, sequence)
                        ==> adds[j].age_rank() <= adds[i].age_rank()
                &&& match adds[i].value_type {
                    ValueType::Deletion => found matches Err(error) && error.says(
                        status::Code::NotFound,
                        "memtable tombstone"@,
                    ),
                    ValueType::Value => found matches Ok(value) && value@ == adds[i].value,
                }
            },
    }
}

/// Which entries of a table are visible.
proof fn lemma_is_seen<C: Comparator>(
    order: InternalKeyComparator<C>,
    add: Added,
    key: Seq<u8>,
    sequence: nat,
)
    requires
        add.sequence <= crate::format::MAX_SEQUENCE_NUMBER,
        sequence <= crate::format::MAX_SEQUENCE_NUMBER,
    ensures
        visible(
            order,
            add.pair().0,
            crate::format::internal_key_bytes(key, sequence, crate::format::VALUE_TYPE_FOR_SEEK),
        ) == add.is_seen(order.user_order(), key, sequence),
        crate::format::user_part(add.pair().0) == add.key,
        crate::format::tag_part(add.pair().0) == add.age_rank(),
        crate::format::tag_part(add.pair().0) % 256 == add.value_type.code(),
{
    crate::format::lemma_internal_key_parts(add.key, add.age_rank());
    crate::format::lemma_internal_key_parts(
        key,
        crate::format::packed(sequence, crate::format::VALUE_TYPE_FOR_SEEK),
    );
}

/// A first visible entry is visible, and none in front of it is.
proof fn lemma_first_visible<C: Comparator>(
    comparator: InternalKeyComparator<C>,
    entries: Seq<db_iterator::Pair>,
    target: Seq<u8>,
    from: int,
)
    requires
        0 <= from <= entries.len(),
    ensures
        match newest_visible(comparator, entries, target, from) {
            None => forall|i: int|
                from <= i < entries.len() ==> !visible(comparator, #[trigger] entries[i].0, target),
            Some(index) => {
                &&& from <= index < entries.len()
                &&& visible(comparator, entries[index].0, target)
                &&& forall|i: int|
                    from <= i < index ==> !visible(comparator, #[trigger] entries[i].0, target)
            },
        },
    decreases entries.len() - from,
{
    if from < entries.len() && !visible(comparator, entries[from].0, target) {
        lemma_first_visible(comparator, entries, target, from + 1);
    }
}

/// Sequences with the same elements hold the same ones.
proof fn lemma_same_elements(
    a: Seq<db_iterator::Pair>,
    b: Seq<db_iterator::Pair>,
    pair: db_iterator::Pair,
)
    requires
        a.to_multiset() == b.to_multiset(),
        a.contains(pair),
    ensures
        b.contains(pair),
{
    broadcast use vstd::seq_lib::group_to_multiset_ensures;

    assert(a.to_multiset().count(pair) > 0);
}

/// The first visible entry is the newest one.
proof fn lemma_first_is_newest<C: Comparator>(
    order: InternalKeyComparator<C>,
    entries: Seq<db_iterator::Pair>,
    key: Seq<u8>,
    sequence: nat,
    index: int,
    at: int,
)
    requires
        db_iterator::sorted(order, entries),
        order.user_order().admits(key),
        sequence <= crate::format::MAX_SEQUENCE_NUMBER,
        0 <= index <= at < entries.len(),
        visible(
            order,
            entries[index].0,
            crate::format::internal_key_bytes(key, sequence, crate::format::VALUE_TYPE_FOR_SEEK),
        ),
        visible(
            order,
            entries[at].0,
            crate::format::internal_key_bytes(key, sequence, crate::format::VALUE_TYPE_FOR_SEEK),
        ),
    ensures
        crate::format::tag_part(entries[at].0) <= crate::format::tag_part(entries[index].0),
{
    let user = order.user_order();
    let a = crate::format::user_part(entries[index].0);
    let b = crate::format::user_part(entries[at].0);
    crate::format::lemma_internal_key_parts(
        key,
        crate::format::packed(sequence, crate::format::VALUE_TYPE_FOR_SEEK),
    );
    if index < at {
        assert(order.less(entries[index].0, entries[at].0));
        assert(order.admits(entries[index].0));
        assert(order.admits(entries[at].0));
        if user.less(a, b) {
            user.less_splits(a, key, b);
        }
    }
}

/// An entry that is seen is in the table, no newer than the first visible one.
proof fn lemma_seen_is_visible<C: Comparator>(
    order: InternalKeyComparator<C>,
    entries: Seq<db_iterator::Pair>,
    adds: Seq<Added>,
    key: Seq<u8>,
    sequence: nat,
    j: int,
)
    requires
        db_iterator::sorted(order, entries),
        entries.to_multiset() == added_pairs(adds).to_multiset(),
        order.user_order().admits(key),
        sequence <= crate::format::MAX_SEQUENCE_NUMBER,
        0 <= j < adds.len(),
        adds[j].sequence <= crate::format::MAX_SEQUENCE_NUMBER,
        adds[j].is_seen(order.user_order(), key, sequence),
    ensures
        newest_visible(
            order,
            entries,
            crate::format::internal_key_bytes(key, sequence, crate::format::VALUE_TYPE_FOR_SEEK),
            0,
        ) matches Some(index) && adds[j].age_rank() <= crate::format::tag_part(entries[index].0),
{
    let target = crate::format::internal_key_bytes(
        key,
        sequence,
        crate::format::VALUE_TYPE_FOR_SEEK,
    );
    lemma_is_seen(order, adds[j], key, sequence);
    lemma_first_visible(order, entries, target, 0);
    assert(added_pairs(adds)[j] == adds[j].pair());
    lemma_same_elements(added_pairs(adds), entries, adds[j].pair());
    let at = choose|at: int| 0 <= at < entries.len() && entries[at] == adds[j].pair();
    assert(visible(order, entries[at].0, target));
    let index = newest_visible(order, entries, target, 0)->0;
    lemma_first_is_newest(order, entries, key, sequence, index, at);
}

/// A look into a table gives, of all entries that were added, the newest one of the key that
/// is not newer than the sequence number: its value, or that it is a deletion.
pub proof fn law_newest_is_found<C: Comparator>(
    states: Seq<MemTable<C>>,
    adds: Seq<Added>,
    key: Seq<u8>,
    sequence: nat,
    answer: Option<status::Result<Vec<u8>>>,
)
    requires
        is_filled(states, adds),
        states[0].order().user_order().admits(key),
        sequence <= crate::format::MAX_SEQUENCE_NUMBER,
        looked_up(
            states[0].order(),
            states.last().entries(),
            crate::format::internal_key_bytes(key, sequence, crate::format::VALUE_TYPE_FOR_SEEK),
            answer,
        ),
    ensures
        tells_newest(states[0].order().user_order(), adds, key, sequence, answer),
{
    let order = states[0].order();
    let user = order.user_order();
    let entries = states.last().entries();
    let pairs = added_pairs(adds);
    let target = crate::format::internal_key_bytes(
        key,
        sequence,
        crate::format::VALUE_TYPE_FOR_SEEK,
    );
    lemma_holds_added(states, adds, adds.len() as int);
    assert(pairs.take(adds.len() as int) =~= pairs);
    states.last().lemma_sorted();
    let first = newest_visible(order, entries, target, 0);
    assert forall|j: int|
        0 <= j < adds.len() && (#[trigger] adds[j]).is_seen(user, key, sequence) implies first
        is Some && adds[j].age_rank() <= crate::format::tag_part(entries[first->0].0) by {
        lemma_seen_is_visible(order, entries, adds, key, sequence, j);
    }
    match first {
        None => {},
        Some(index) => {
            lemma_first_visible(order, entries, target, 0);
            lemma_same_elements(entries, pairs, entries[index]);
            let i = choose|i: int| 0 <= i < pairs.len() && pairs[i] == entries[index];
            assert(adds[i].pair() == entries[index]);
            lemma_is_seen(order, adds[i], key, sequence);
            assert(adds[i].is_seen(user, key, sequence));
        },
    }
}

} // verus!
