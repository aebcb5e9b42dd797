//! Internal-key format and the constants of the level set.
//!
//! An internal key is a user key followed by an eight-byte tag, which holds a
//! sequence number and a [`ValueType`]. Internal keys are ordered by user key,
//! and the newest entry of a user key comes first.

use vstd::prelude::*;

use std::cmp::Ordering;

use crate::coding;
use crate::comparator;
use crate::comparator::BytewiseComparator;
use crate::comparator::Comparator;

pub mod internal_key;

verus! {

pub const NUM_LEVELS: usize = 7;

pub const L0_COMPACTION_TRIGGER: usize = 4;

pub const L0_SLOWDOWN_WRITES_TRIGGER: usize = 8;

pub const L0_STOP_WRITES_TRIGGER: usize = 12;

pub const MAX_MEM_COMPACT_LEVEL: usize = 2;

pub const READ_BYTES_PERIOD: usize = 1048576;

/// A position in the history of writes; 56 bits are in use.
pub type SequenceNumber = u64;

pub const MAX_SEQUENCE_NUMBER: SequenceNumber = 0xff_ffff_ffff_ffff;

/// What an entry says of its user key.
#[derive(Debug, Copy, Clone, PartialEq, Eq, Structural)]
pub enum ValueType {
    Deletion,
    Value,
}

pub const VALUE_TYPE_FOR_SEEK: ValueType = ValueType::Value;

impl ValueType {
    /// The byte that stands for this type.
    pub open spec fn code(self) -> u8 {
        match self {
            ValueType::Deletion => 0,
            ValueType::Value => 1,
        }
    }

    /// The byte that stands for this type.
    pub fn to_byte(self) -> (byte: u8)
        ensures
            byte == self.code(),
    {
        match self {
            ValueType::Deletion => 0,
            ValueType::Value => 1,
        }
    }
}

/// The type that a byte stands for.
pub open spec fn type_of_code(byte: u8) -> Option<ValueType> {
    if byte == 0 {
        Some(ValueType::Deletion)
    } else if byte == 1 {
        Some(ValueType::Value)
    } else {
        None
    }
}

/// The tag of a sequence number and a type.
pub open spec fn packed(sequence: nat, value_type: ValueType) -> nat {
    sequence * 256 + value_type.code() as nat
}

/// An internal key in bytes.
pub open spec fn internal_key_bytes(
    user_key: Seq<u8>,
    sequence: nat,
    value_type: ValueType,
) -> Seq<u8> {
    user_key + coding::le_bytes(packed(sequence, value_type), 8)
}

/// The user key of an internal key of at least eight bytes.
pub open spec fn user_part(internal_key: Seq<u8>) -> Seq<u8> {
    internal_key.take(internal_key.len() - 8)
}

/// The tag of an internal key of at least eight bytes.
pub open spec fn tag_part(internal_key: Seq<u8>) -> nat {
    coding::le_value(internal_key.skip(internal_key.len() - 8))
}

/// What an internal key says, where it is well formed: user key, sequence
/// number and type.
pub open spec fn parsed(internal_key: Seq<u8>) -> Option<(Seq<u8>, nat, ValueType)> {
    if internal_key.len() < 8 {
        None
    } else {
        match type_of_code((tag_part(internal_key) % 256) as u8) {
            None => None,
            Some(value_type) => Some(
                (user_part(internal_key), tag_part(internal_key) / 256, value_type),
            ),
        }
    }
}

// ---------------------------------------------------------------------------
// Laws
// ---------------------------------------------------------------------------

/// An internal key holds the user key and the tag that it was made of.
pub proof fn lemma_internal_key_parts(user_key: Seq<u8>, tag: nat)
    requires
        tag < coding::two_pow_64(),
    ensures
        (user_key + coding::le_bytes(tag, 8)).len() == user_key.len() + 8,
        user_part(user_key + coding::le_bytes(tag, 8)) == user_key,
        tag_part(user_key + coding::le_bytes(tag, 8)) == tag,
{
    let bytes = user_key + coding::le_bytes(tag, 8);
    coding::lemma_le_bytes_len(tag, 8);
    coding::lemma_pow256_values();
    coding::law_fixed_round_trip(tag, 8);
    assert(user_part(bytes) =~= user_key);
    assert(bytes.skip(bytes.len() - 8) =~= coding::le_bytes(tag, 8));
}

/// The tag of an internal key fits in 64 bits, and user key and tag make up the
/// key.
pub proof fn lemma_tag_bounds(internal_key: Seq<u8>)
    requires
        internal_key.len() >= 8,
    ensures
        tag_part(internal_key) < coding::two_pow_64(),
        user_part(internal_key) + coding::le_bytes(tag_part(internal_key), 8) == internal_key,
{
    coding::law_fixed_read_write(internal_key.skip(internal_key.len() - 8));
    coding::lemma_pow256_values();
    assert(user_part(internal_key) + internal_key.skip(internal_key.len() - 8) =~= internal_key);
}

/// Parsing an internal key gives back what it was made of.
pub proof fn law_parse_round_trip(user_key: Seq<u8>, sequence: nat, value_type: ValueType)
    requires
        sequence <= MAX_SEQUENCE_NUMBER,
    ensures
        parsed(internal_key_bytes(user_key, sequence, value_type)) == Some(
            (user_key, sequence, value_type),
        ),
        internal_key_bytes(user_key, sequence, value_type).len() == user_key.len() + 8,
{
    lemma_internal_key_parts(user_key, packed(sequence, value_type));
}

/// Writing what was parsed gives back the internal key, and its sequence number
/// is in range.
pub proof fn law_parse_write(internal_key: Seq<u8>)
    ensures
        parsed(internal_key) matches Some((user_key, sequence, value_type)) ==> internal_key_bytes(
            user_key,
            sequence,
            value_type,
        ) == internal_key && sequence <= MAX_SEQUENCE_NUMBER,
{
    if internal_key.len() >= 8 {
        lemma_tag_bounds(internal_key);
        let tag = tag_part(internal_key);
        assert(tag == tag / 256 * 256 + tag % 256);
    }
}

/// Internal keys are ordered by user key; the newer of two entries of one user
/// key comes first, and at one sequence number a value comes before a deletion.
pub proof fn law_internal_order<C: Comparator>(
    comparator: InternalKeyComparator<C>,
    a: (Seq<u8>, nat, ValueType),
    b: (Seq<u8>, nat, ValueType),
)
    requires
        a.1 <= MAX_SEQUENCE_NUMBER,
        b.1 <= MAX_SEQUENCE_NUMBER,
    ensures
        ({
            let user = comparator.user_order();
            comparator.less(internal_key_bytes(a.0, a.1, a.2), internal_key_bytes(b.0, b.1, b.2))
                <==> user.less(a.0, b.0) || (!user.less(b.0, a.0) && (a.1 > b.1 || (a.1 == b.1
                && a.2.code() > b.2.code())))
        }),
{
    lemma_internal_key_parts(a.0, packed(a.1, a.2));
    lemma_internal_key_parts(b.0, packed(b.1, b.2));
}

// ---------------------------------------------------------------------------
// Internal keys
// ---------------------------------------------------------------------------

/// An internal key taken apart.
#[derive(Debug)]
pub struct ParsedInternalKey {
    pub user_key: Vec<u8>,
    pub sequence: SequenceNumber,
    pub value_type: ValueType,
}

impl ParsedInternalKey {
    /// The bytes of this key.
    pub open spec fn bytes(&self) -> Seq<u8> {
        internal_key_bytes(self.user_key@, self.sequence as nat, self.value_type)
    }

    pub fn new(user_key: &[u8], sequence: SequenceNumber, value_type: ValueType) -> (key: Self)
        ensures
            key.user_key@ == user_key@,
            key.sequence == sequence,
            key.value_type == value_type,
    {
        ParsedInternalKey { user_key: vstd::slice::slice_to_vec(user_key), sequence, value_type }
    }

    pub fn encoding_len(&self) -> (length: usize)
        requires
            self.user_key@.len() + 8 <= usize::MAX,
        ensures
            length == self.user_key@.len() + 8,
    {
        self.user_key.len() + 8
    }
}

impl Clone for ParsedInternalKey {
    fn clone(&self) -> (copy: Self)
        ensures
            copy.user_key@ == self.user_key@,
            copy.sequence == self.sequence,
            copy.value_type == self.value_type,
    {
        ParsedInternalKey::new(self.user_key.as_slice(), self.sequence, self.value_type)
    }
}

/// An internal key in its encoded form. It may be empty, which no key is.
#[derive(Debug)]
pub struct InternalKey {
    rep: Vec<u8>,
}

impl View for InternalKey {
    type V = Seq<u8>;

    closed spec fn view(&self) -> Seq<u8> {
        self.rep@
    }
}

impl Clone for InternalKey {
    fn clone(&self) -> (copy: Self)
        ensures
            copy@ == self@,
    {
        InternalKey { rep: vstd::slice::slice_to_vec(self.rep.as_slice()) }
    }
}

impl Default for InternalKey {
    fn default() -> (key: Self)
        ensures
            key@ == Seq::<u8>::empty(),
    {
        InternalKey { rep: Vec::new() }
    }
}

impl InternalKey {
    pub fn new(user_key: &[u8], sequence: SequenceNumber, value_type: ValueType) -> (key: Self)
        requires
            sequence <= MAX_SEQUENCE_NUMBER,
        ensures
            key@ == internal_key_bytes(user_key@, sequence as nat, value_type),
    {
        let mut rep: Vec<u8> = Vec::new();
        append_internal_key(&mut rep, &ParsedInternalKey::new(user_key, sequence, value_type));
        assert(rep@ =~= internal_key_bytes(user_key@, sequence as nat, value_type));
        InternalKey { rep }
    }

    pub fn decode_from(&mut self, encoded: &[u8])
        ensures
            final(self)@ == encoded@,
    {
        self.rep.clear();
        self.rep.extend_from_slice(encoded);
        assert(self.rep@ =~= encoded@);
    }

    pub fn encode(&self) -> (bytes: &[u8])
        requires
            self@.len() > 0,
        ensures
            bytes@ == self@,
    {
        self.rep.as_slice()
    }

    pub fn user_key(&self) -> (user_key: &[u8])
        requires
            self@.len() >= 8,
        ensures
            user_key@ == user_part(self@),
    {
        required_user_key(self.rep.as_slice())
    }

    pub fn clear(&mut self)
        ensures
            final(self)@ == Seq::<u8>::empty(),
    {
        self.rep.clear();
    }

    pub fn is_empty(&self) -> (answer: bool)
        ensures
            answer == (self@.len() == 0),
    {
        self.rep.len() == 0
    }
}

pub fn internal_key_encoding_len(key: &ParsedInternalKey) -> (length: usize)
    requires
        key.user_key@.len() + 8 <= usize::MAX,
    ensures
        length == key.bytes().len(),
{
    proof {
        coding::lemma_le_bytes_len(packed(key.sequence as nat, key.value_type), 8);
    }
    key.encoding_len()
}

pub fn append_internal_key(dst: &mut Vec<u8>, key: &ParsedInternalKey)
    requires
        key.sequence <= MAX_SEQUENCE_NUMBER,
    ensures
        final(dst)@ == old(dst)@ + key.bytes(),
{
    dst.extend_from_slice(key.user_key.as_slice());
    coding::put_fixed64(dst, pack_sequence_and_type(key.sequence, key.value_type));
    assert(dst@ =~= old(dst)@ + key.bytes());
}

pub fn parse_internal_key(internal_key: &[u8]) -> (key: Option<ParsedInternalKey>)
    ensures
        match parsed(internal_key@) {
            None => key is None,
            Some((user_key, sequence, value_type)) => key matches Some(k) && k.user_key@ == user_key
                && k.sequence == sequence && k.value_type == value_type,
        },
{
    if internal_key.len() < 8 {
        return None;
    }
    let tag = required_tag(internal_key);
    match value_type_from_tag((tag % 256) as u8) {
        None => None,
        Some(value_type) => Some(
            ParsedInternalKey::new(required_user_key(internal_key), tag / 256, value_type),
        ),
    }
}

pub fn extract_user_key(internal_key: &[u8]) -> (user_key: Option<&[u8]>)
    ensures
        internal_key@.len() < 8 ==> user_key is None,
        internal_key@.len() >= 8 ==> (user_key matches Some(u) && u@ == user_part(internal_key@)),
{
    if internal_key.len() < 8 {
        return None;
    }
    Some(required_user_key(internal_key))
}

pub fn extract_value_type(internal_key: &[u8]) -> (value_type: Option<ValueType>)
    ensures
        value_type == match parsed(internal_key@) {
            None => None::<ValueType>,
            Some((_, _, found)) => Some(found),
        },
{
    if internal_key.len() < 8 {
        return None;
    }
    let tag = required_tag(internal_key);
    value_type_from_tag((tag % 256) as u8)
}

pub fn pack_sequence_and_type(sequence: SequenceNumber, value_type: ValueType) -> (tag: u64)
    requires
        sequence <= MAX_SEQUENCE_NUMBER,
    ensures
        tag == packed(sequence as nat, value_type),
{
    sequence * 256 + value_type.to_byte() as u64
}

fn value_type_from_tag(byte: u8) -> (value_type: Option<ValueType>)
    ensures
        value_type == type_of_code(byte),
{
    match byte {
        0 => Some(ValueType::Deletion),
        1 => Some(ValueType::Value),
        _ => None,
    }
}

pub fn required_user_key(internal_key: &[u8]) -> (user_key: &[u8])
    requires
        internal_key@.len() >= 8,
    ensures
        user_key@ == user_part(internal_key@),
{
    let user_key = &internal_key[0..internal_key.len() - 8];
    assert(user_key@ =~= user_part(internal_key@));
    user_key
}

/// The tag of an internal key.
pub fn required_tag(internal_key: &[u8]) -> (tag: u64)
    requires
        internal_key@.len() >= 8,
    ensures
        tag == tag_part(internal_key@),
{
    let tail = &internal_key[internal_key.len() - 8..internal_key.len()];
    assert(tail@.take(8) =~= internal_key@.skip(internal_key@.len() - 8));
    coding::decode_fixed64(tail)
}

// ---------------------------------------------------------------------------
// Order
// ---------------------------------------------------------------------------

/// Orders internal keys: by user key, then by falling tag.
#[derive(Debug)]
pub struct InternalKeyComparator<C = BytewiseComparator> {
    user_comparator: C,
}

impl<C: Comparator> Clone for InternalKeyComparator<C> {
    fn clone(&self) -> (copy: Self)
        ensures
            copy == *self,
    {
        InternalKeyComparator { user_comparator: comparator::copy_of(&self.user_comparator) }
    }
}

impl Default for InternalKeyComparator<BytewiseComparator> {
    fn default() -> (comparator: Self)
        ensures
            comparator.user_order() == BytewiseComparator,
    {
        InternalKeyComparator { user_comparator: BytewiseComparator }
    }
}

/// What stands in for an internal key once its user key was shortened to
/// `user_key`: the first internal key of that user key.
pub open spec fn first_internal_key(user_key: Seq<u8>) -> Seq<u8> {
    internal_key_bytes(user_key, MAX_SEQUENCE_NUMBER as nat, VALUE_TYPE_FOR_SEEK)
}

impl<C> InternalKeyComparator<C> {
    /// The comparator of the user keys.
    pub closed spec fn user_order(&self) -> C {
        self.user_comparator
    }

    /// The order of internal keys over an order of user keys.
    pub closed spec fn over(user_comparator: C) -> Self {
        InternalKeyComparator { user_comparator }
    }

    /// An order of internal keys is told by the one within.
    pub proof fn lemma_is_over(self)
        ensures
            self == Self::over(self.user_order()),
    {
    }

    /// The order of user keys is the one within.
    pub broadcast proof fn lemma_over(user_comparator: C)
        ensures
            (#[trigger] Self::over(user_comparator)).user_order() == user_comparator,
    {
    }
}

impl<C: Comparator> InternalKeyComparator<C> {
    pub fn new(user_comparator: C) -> (comparator: Self)
        ensures
            comparator.user_order() == user_comparator,
            comparator == Self::over(user_comparator),
    {
        InternalKeyComparator { user_comparator }
    }

    pub fn user_comparator(&self) -> (comparator: &C)
        ensures
            *comparator == self.user_order(),
    {
        &self.user_comparator
    }

    pub fn name_inherent(&self) -> (name: &'static str)
        ensures
            name@ == "pulsearc-db.InternalKeyComparator"@,
    {
        "pulsearc-db.InternalKeyComparator"
    }

    /// The user key with the tag that comes first.
    fn first_key_of(mut user_key: Vec<u8>) -> (key: Vec<u8>)
        ensures
            key@ == first_internal_key(user_key@),
    {
        coding::put_fixed64(
            &mut user_key,
            pack_sequence_and_type(MAX_SEQUENCE_NUMBER, VALUE_TYPE_FOR_SEEK),
        );
        user_key
    }
}

impl<C: Comparator> Comparator for InternalKeyComparator<C> {
    open spec fn title(&self) -> Seq<char> {
        "pulsearc-db.InternalKeyComparator"@
    }

    open spec fn admits(&self, key: Seq<u8>) -> bool {
        key.len() >= 8 && self.user_order().admits(user_part(key))
    }

    open spec fn less(&self, a: Seq<u8>, b: Seq<u8>) -> bool {
        self.user_order().less(user_part(a), user_part(b)) || (!self.user_order().less(
            user_part(b),
            user_part(a),
        ) && tag_part(a) > tag_part(b))
    }

    open spec fn separator(&self, start: Seq<u8>, limit: Seq<u8>) -> Seq<u8> {
        let shorter = self.user_order().separator(user_part(start), user_part(limit));
        if shorter.len() < user_part(start).len() && self.user_order().less(
            user_part(start),
            shorter,
        ) {
            first_internal_key(shorter)
        } else {
            start
        }
    }

    open spec fn successor(&self, key: Seq<u8>) -> Seq<u8> {
        let shorter = self.user_order().successor(user_part(key));
        if shorter.len() < user_part(key).len() && self.user_order().less(
            user_part(key),
            shorter,
        ) {
            first_internal_key(shorter)
        } else {
            key
        }
    }

    proof fn separator_separates(&self, start: Seq<u8>, limit: Seq<u8>) {
        let user = self.user_order();
        let shorter = user.separator(user_part(start), user_part(limit));
        user.separator_separates(user_part(start), user_part(limit));
        self.less_irreflexive(start);
        lemma_internal_key_parts(shorter, packed(MAX_SEQUENCE_NUMBER as nat, VALUE_TYPE_FOR_SEEK));
        if user.less(user_part(start), shorter) && user.less(shorter, user_part(start)) {
            user.less_transitive(shorter, user_part(start), shorter);
            user.less_irreflexive(shorter);
        }
    }

    proof fn successor_follows(&self, key: Seq<u8>) {
        let user = self.user_order();
        let shorter = user.successor(user_part(key));
        user.successor_follows(user_part(key));
        self.less_irreflexive(key);
        lemma_internal_key_parts(shorter, packed(MAX_SEQUENCE_NUMBER as nat, VALUE_TYPE_FOR_SEEK));
    }

    proof fn less_irreflexive(&self, a: Seq<u8>) {
        self.user_order().less_irreflexive(user_part(a));
    }

    proof fn less_transitive(&self, a: Seq<u8>, b: Seq<u8>, c: Seq<u8>) {
        let user = self.user_order();
        let (ua, ub, uc) = (user_part(a), user_part(b), user_part(c));
        if user.less(ua, ub) && user.less(ub, uc) {
            user.less_transitive(ua, ub, uc);
        } else if user.less(ua, ub) {
            user.less_splits(ua, uc, ub);
        } else if user.less(ub, uc) {
            user.less_splits(ub, ua, uc);
        } else if user.less(uc, ua) {
            user.less_splits(uc, ub, ua);
        }
    }

    proof fn less_splits(&self, a: Seq<u8>, b: Seq<u8>, c: Seq<u8>) {
        let user = self.user_order();
        let (ua, ub, uc) = (user_part(a), user_part(b), user_part(c));
        if user.less(ua, uc) {
            user.less_splits(ua, ub, uc);
        } else {
            if user.less(ub, ua) {
                user.less_splits(ub, uc, ua);
            }
            if user.less(uc, ub) {
                user.less_splits(uc, ua, ub);
            }
        }
    }

    proof fn clone_is_same(&self, copy: Self) {
    }

    fn name(&self) -> (name: &'static str) {
        self.name_inherent()
    }

    fn accepts(&self, key: &[u8]) -> (answer: bool) {
        key.len() >= 8 && self.user_comparator.accepts(required_user_key(key))
    }

    fn compare(&self, a: &[u8], b: &[u8]) -> (order: Ordering) {
        let user_order = self.user_comparator.compare(required_user_key(a), required_user_key(b));
        proof {
            let (ua, ub) = (user_part(a@), user_part(b@));
            self.user_comparator.less_irreflexive(ua);
            if self.user_comparator.less(ua, ub) && self.user_comparator.less(ub, ua) {
                self.user_comparator.less_transitive(ua, ub, ua);
            }
        }
        match user_order {
            Ordering::Less => Ordering::Less,
            Ordering::Greater => Ordering::Greater,
            Ordering::Equal => {
                let a_tag = required_tag(a);
                let b_tag = required_tag(b);
                if a_tag > b_tag {
                    Ordering::Less
                } else if a_tag < b_tag {
                    Ordering::Greater
                } else {
                    Ordering::Equal
                }
            },
        }
    }

    fn find_shortest_separator(&self, start: &mut Vec<u8>, limit: &[u8]) {
        let user_start = vstd::slice::slice_to_vec(required_user_key(start.as_slice()));
        let user_limit = required_user_key(limit);
        let mut shorter = vstd::slice::slice_to_vec(user_start.as_slice());
        self.user_comparator.find_shortest_separator(&mut shorter, user_limit);
        proof {
            self.user_comparator.separator_separates(user_start@, user_limit@);
        }
        if shorter.len() < user_start.len() && comparator::precedes(
            &self.user_comparator,
            user_start.as_slice(),
            shorter.as_slice(),
        ) {
            *start = Self::first_key_of(shorter);
        }
    }

    fn find_short_successor(&self, key: &mut Vec<u8>) {
        let user_key = vstd::slice::slice_to_vec(required_user_key(key.as_slice()));
        let mut shorter = vstd::slice::slice_to_vec(user_key.as_slice());
        self.user_comparator.find_short_successor(&mut shorter);
        proof {
            self.user_comparator.successor_follows(user_key@);
        }
        if shorter.len() < user_key.len() && comparator::precedes(
            &self.user_comparator,
            user_key.as_slice(),
            shorter.as_slice(),
        ) {
            *key = Self::first_key_of(shorter);
        }
    }
}

// ---------------------------------------------------------------------------
// Lookup keys
// ---------------------------------------------------------------------------

/// The key with which a user key is looked up as of a sequence number.
#[derive(Debug)]
pub struct LookupKey {
    rep: Vec<u8>,
    kstart: usize,
}

impl LookupKey {
    /// Prefix and internal key lie one behind the other.
    pub closed spec fn wf(&self) -> bool {
        self.kstart + 8 <= self.rep@.len()
    }

    /// The bytes of the lookup key: a length and an internal key.
    pub closed spec fn bytes(&self) -> Seq<u8> {
        self.rep@
    }

    /// The internal key that is looked for.
    pub closed spec fn target(&self) -> Seq<u8> {
        self.rep@.skip(self.kstart as int)
    }

    pub fn new(user_key: &[u8], sequence: SequenceNumber) -> (key: Self)
        requires
            sequence <= MAX_SEQUENCE_NUMBER,
        ensures
            key.wf(),
            key.target() == internal_key_bytes(user_key@, sequence as nat, VALUE_TYPE_FOR_SEEK),
            key.bytes() == coding::length_prefixed(key.target()),
    {
        let ghost target = internal_key_bytes(user_key@, sequence as nat, VALUE_TYPE_FOR_SEEK);
        let mut rep: Vec<u8> = Vec::new();
        proof {
            coding::lemma_le_bytes_len(packed(sequence as nat, VALUE_TYPE_FOR_SEEK), 8);
        }
        coding::put_varint32(&mut rep, coding::low_32_bits(user_key.len()).wrapping_add(8));
        let kstart: usize = rep.len();
        rep.extend_from_slice(user_key);
        coding::put_fixed64(&mut rep, pack_sequence_and_type(sequence, VALUE_TYPE_FOR_SEEK));
        assert(rep@ =~= coding::varint(target.len() % coding::two_pow_32()) + target);
        assert(rep@.skip(kstart as int) =~= target);
        LookupKey { rep, kstart }
    }

    pub fn memtable_key(&self) -> (key: &[u8])
        ensures
            key@ == self.bytes(),
    {
        self.rep.as_slice()
    }

    pub fn internal_key(&self) -> (key: &[u8])
        requires
            self.wf(),
        ensures
            key@ == self.target(),
    {
        let rep = self.rep.as_slice();
        let key = &rep[self.kstart..rep.len()];
        assert(key@ =~= self.target());
        key
    }

    pub fn user_key(&self) -> (key: &[u8])
        requires
            self.wf(),
        ensures
            key@ == user_part(self.target()),
    {
        let rep = self.rep.as_slice();
        let key = &rep[self.kstart..rep.len() - 8];
        assert(key@ =~= user_part(self.target()));
        key
    }
}

} // verus!
