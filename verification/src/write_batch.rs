//! Batches of updates.
//!
//! A batch is written to the log as its first sequence number, the count of its
//! updates, and the updates one behind the other. An update is the code of its kind,
//! the key behind its length and, if it stores one, the value behind its length.

use vstd::prelude::*;

use crate::coding;
use crate::status;
use crate::status::Status;

verus! {

/// How many bytes stand in front of the updates.
pub const HEADER_SIZE: usize = 12;

/// An update, by the keys and values it speaks of.
pub enum Change {
    Put { key: Seq<u8>, value: Seq<u8> },
    Delete { key: Seq<u8> },
}

impl Change {
    /// The key that is updated.
    pub open spec fn key(self) -> Seq<u8> {
        match self {
            Change::Put { key, value: _ } => key,
            Change::Delete { key } => key,
        }
    }

    /// The update in bytes.
    pub open spec fn bytes(self) -> Seq<u8> {
        match self {
            Change::Put { key, value } => seq![1u8] + coding::length_prefixed(key)
                + coding::length_prefixed(value),
            Change::Delete { key } => seq![0u8] + coding::length_prefixed(key),
        }
    }

    /// Whether the lengths can be written down.
    pub open spec fn is_sized(self) -> bool {
        match self {
            Change::Put { key, value } => key.len() < coding::two_pow_32() && value.len()
                < coding::two_pow_32(),
            Change::Delete { key } => key.len() < coding::two_pow_32(),
        }
    }
}

/// An update.
#[derive(Debug)]
pub enum Update {
    Put(Vec<u8>, Vec<u8>),
    Delete(Vec<u8>),
}

impl Update {
    /// What the update changes.
    pub open spec fn change(&self) -> Change {
        match self {
            Update::Put(key, value) => Change::Put { key: key@, value: value@ },
            Update::Delete(key) => Change::Delete { key: key@ },
        }
    }
}

/// What some updates change.
pub open spec fn changes(updates: Seq<Update>) -> Seq<Change> {
    Seq::new(updates.len(), |i: int| updates[i].change())
}

/// Updates one behind the other.
pub open spec fn body_bytes(changes: Seq<Change>) -> Seq<u8>
    decreases changes.len(),
{
    if changes.len() == 0 {
        Seq::empty()
    } else {
        changes[0].bytes() + body_bytes(changes.skip(1))
    }
}

/// Reads one update and says how many bytes it takes, or what is wrong.
pub open spec fn read_change(bytes: Seq<u8>) -> Result<(Change, int), Seq<char>> {
    if bytes[0] == 1u8 {
        match coding::read_length_prefixed(bytes.skip(1)) {
            None => Err("bad WriteBatch Put"@),
            Some((key, used)) => match coding::read_length_prefixed(bytes.skip(1).skip(used as int)) {
                None => Err("bad WriteBatch Put"@),
                Some((value, more)) => Ok((Change::Put { key, value }, (1 + used + more) as int)),
            },
        }
    } else if bytes[0] == 0u8 {
        match coding::read_length_prefixed(bytes.skip(1)) {
            None => Err("bad WriteBatch Delete"@),
            Some((key, used)) => Ok((Change::Delete { key }, (1 + used) as int)),
        }
    } else {
        Err("unknown WriteBatch tag"@)
    }
}

/// Reads updates up to the end, or to the first that cannot be read.
pub open spec fn read_changes(bytes: Seq<u8>) -> (Seq<Change>, Option<Seq<char>>)
    decreases bytes.len(),
{
    if bytes.len() == 0 {
        (Seq::empty(), None)
    } else {
        match read_change(bytes) {
            Err(text) => (Seq::empty(), Some(text)),
            Ok((change, used)) => if 0 < used <= bytes.len() {
                let (rest, problem) = read_changes(bytes.skip(used));
                (seq![change] + rest, problem)
            } else {
                (Seq::empty(), None)
            },
        }
    }
}

/// A batch in bytes.
pub open spec fn batch_bytes(sequence: u64, count: u32, body: Seq<u8>) -> Seq<u8> {
    coding::le_bytes(sequence as nat, 8) + coding::le_bytes(count as nat, 4) + body
}

proof fn lemma_read_change(bytes: Seq<u8>)
    requires
        bytes.len() > 0,
    ensures
        read_change(bytes) matches Ok((change, used)) ==> 0 < used <= bytes.len(),
{
    coding::lemma_read_varint_bounds(bytes.skip(1), coding::MAX_VARINT32_BYTES as nat);
    match coding::read_length_prefixed(bytes.skip(1)) {
        None => {},
        Some((key, used)) => {
            coding::lemma_read_varint_bounds(
                bytes.skip(1).skip(used as int),
                coding::MAX_VARINT32_BYTES as nat,
            );
        },
    }
}

proof fn lemma_change_round_trip(change: Change, rest: Seq<u8>)
    requires
        change.is_sized(),
    ensures
        read_change(change.bytes() + rest) == Ok::<(Change, int), Seq<char>>(
            (change, change.bytes().len() as int),
        ),
        change.bytes().len() > 0,
{
    let bytes = change.bytes() + rest;
    match change {
        Change::Put { key, value } => {
            let tail = coding::length_prefixed(value) + rest;
            coding::law_length_prefixed_round_trip(key, tail);
            coding::law_length_prefixed_round_trip(value, rest);
            assert(bytes.skip(1) =~= coding::length_prefixed(key) + tail);
            assert(bytes.skip(1).skip(coding::length_prefixed(key).len() as int) =~= tail);
        },
        Change::Delete { key } => {
            coding::law_length_prefixed_round_trip(key, rest);
            assert(bytes.skip(1) =~= coding::length_prefixed(key) + rest);
        },
    }
}

/// Updates that were written can be read back.
#[verifier::spinoff_prover]
#[verifier::rlimit(40)]
pub proof fn law_body_round_trip(changes: Seq<Change>)
    requires
        forall|i: int| 0 <= i < changes.len() ==> (#[trigger] changes[i]).is_sized(),
    ensures
        read_changes(body_bytes(changes)) == (changes, None::<Seq<char>>),
    decreases changes.len(),
{
    if changes.len() > 0 {
        let rest = changes.skip(1);
        law_body_round_trip(rest);
        lemma_change_round_trip(changes[0], body_bytes(rest));
        let bytes = body_bytes(changes);
        assert(bytes.skip(changes[0].bytes().len() as int) =~= body_bytes(rest));
        assert(seq![changes[0]] + rest =~= changes);
    } else {
        assert(changes =~= Seq::<Change>::empty());
    }
}

/// An update more is written behind the others.
pub proof fn lemma_body_push(changes: Seq<Change>, change: Change)
    ensures
        body_bytes(changes.push(change)) == body_bytes(changes) + change.bytes(),
    decreases changes.len(),
{
    if changes.len() > 0 {
        lemma_body_push(changes.skip(1), change);
        assert(changes.push(change).skip(1) =~= changes.skip(1).push(change));
        assert(body_bytes(changes.push(change)) =~= body_bytes(changes) + change.bytes());
    } else {
        let rest = changes.push(change).skip(1);
        assert(rest =~= Seq::<Change>::empty());
        assert(body_bytes(rest) =~= Seq::<u8>::empty());
        assert(body_bytes(changes.push(change)) =~= body_bytes(changes) + change.bytes());
    }
}

/// The updates of two batches are written one behind the other.
pub proof fn lemma_body_join(first: Seq<Change>, second: Seq<Change>)
    ensures
        body_bytes(first + second) == body_bytes(first) + body_bytes(second),
    decreases first.len(),
{
    if first.len() > 0 {
        lemma_body_join(first.skip(1), second);
        assert((first + second).skip(1) =~= first.skip(1) + second);
        assert(body_bytes(first + second) =~= body_bytes(first) + body_bytes(second));
    } else {
        assert(first + second =~= second);
        assert(body_bytes(first + second) =~= body_bytes(first) + body_bytes(second));
    }
}

/// Updates that are applied together.
#[derive(Debug)]
pub struct WriteBatch {
    sequence: u64,
    count: u32,
    body: Vec<u8>,
}

impl Default for WriteBatch {
    fn default() -> (batch: Self)
        ensures
            batch.first_sequence() == 0,
            batch.counted() == 0,
            batch.updates_bytes() == Seq::<u8>::empty(),
    {
        WriteBatch::new()
    }
}

impl WriteBatch {
    /// The sequence number of the first update.
    pub closed spec fn first_sequence(&self) -> u64 {
        self.sequence
    }

    /// How many updates the batch says it has.
    pub closed spec fn counted(&self) -> u32 {
        self.count
    }

    /// The updates in bytes.
    pub closed spec fn updates_bytes(&self) -> Seq<u8> {
        self.body@
    }

    /// Whether the batch is what was put together of the given updates.
    pub open spec fn holds(&self, changes: Seq<Change>) -> bool {
        &&& self.updates_bytes() == body_bytes(changes)
        &&& self.counted() == changes.len()
    }

    /// A batch without updates.
    pub fn new() -> (batch: Self)
        ensures
            batch.first_sequence() == 0,
            batch.counted() == 0,
            batch.updates_bytes() == Seq::<u8>::empty(),
            batch.holds(Seq::empty()),
    {
        WriteBatch { sequence: 0, count: 0, body: Vec::new() }
    }

    /// Adds the storing of a value under a key.
    pub fn put(&mut self, key: &[u8], value: &[u8])
        requires
            old(self).counted() < u32::MAX,
        ensures
            final(self).first_sequence() == old(self).first_sequence(),
            final(self).counted() == old(self).counted() + 1,
            final(self).updates_bytes() == old(self).updates_bytes() + (Change::Put {
                key: key@,
                value: value@,
            }).bytes(),
            forall|held: Seq<Change>| #[trigger]
                old(self).holds(held) ==> final(self).holds(
                    held.push(Change::Put { key: key@, value: value@ }),
                ),
    {
        self.count = self.count + 1;
        self.body.push(1);
        coding::put_length_prefixed_slice(&mut self.body, key);
        coding::put_length_prefixed_slice(&mut self.body, value);
        proof {
            let change = Change::Put { key: key@, value: value@ };
            assert(self.body@ =~= old(self).body@ + change.bytes());
            assert forall|held: Seq<Change>| #[trigger] old(self).holds(held) implies self.holds(
                held.push(change),
            ) by {
                lemma_body_push(held, change);
            }
        }
    }

    /// Adds the deletion of a key.
    pub fn delete(&mut self, key: &[u8])
        requires
            old(self).counted() < u32::MAX,
        ensures
            final(self).first_sequence() == old(self).first_sequence(),
            final(self).counted() == old(self).counted() + 1,
            final(self).updates_bytes() == old(self).updates_bytes() + (Change::Delete {
                key: key@,
            }).bytes(),
            forall|held: Seq<Change>| #[trigger]
                old(self).holds(held) ==> final(self).holds(
                    held.push(Change::Delete { key: key@ }),
                ),
    {
        self.count = self.count + 1;
        self.body.push(0);
        coding::put_length_prefixed_slice(&mut self.body, key);
        proof {
            let change = Change::Delete { key: key@ };
            assert(self.body@ =~= old(self).body@ + change.bytes());
            assert forall|held: Seq<Change>| #[trigger] old(self).holds(held) implies self.holds(
                held.push(change),
            ) by {
                lemma_body_push(held, change);
            }
        }
    }

    /// Adds the updates of another batch.
    pub fn append(&mut self, other: &WriteBatch)
        requires
            old(self).counted() + other.counted() <= u32::MAX,
        ensures
            final(self).first_sequence() == old(self).first_sequence(),
            final(self).counted() == old(self).counted() + other.counted(),
            final(self).updates_bytes() == old(self).updates_bytes() + other.updates_bytes(),
            forall|held: Seq<Change>, more: Seq<Change>|
                #![trigger old(self).holds(held), other.holds(more)]
                old(self).holds(held) && other.holds(more) ==> final(self).holds(held + more),
    {
        self.count = self.count + other.count;
        self.body.extend_from_slice(other.body.as_slice());
        proof {
            assert(self.body@ =~= old(self).body@ + other.body@);
            assert forall|held: Seq<Change>, more: Seq<Change>|
                #![trigger old(self).holds(held), other.holds(more)]
                old(self).holds(held) && other.holds(more) implies self.holds(held + more) by {
                lemma_body_join(held, more);
            }
        }
    }

    /// Removes all updates.
    pub fn clear(&mut self)
        ensures
            final(self).first_sequence() == 0,
            final(self).counted() == 0,
            final(self).updates_bytes() == Seq::<u8>::empty(),
    {
        self.sequence = 0;
        self.count = 0;
        self.body = Vec::new();
    }

    pub fn sequence(&self) -> (sequence: u64)
        ensures
            sequence == self.first_sequence(),
    {
        self.sequence
    }

    pub fn set_sequence(&mut self, sequence: u64)
        ensures
            final(self).first_sequence() == sequence,
            final(self).counted() == old(self).counted(),
            final(self).updates_bytes() == old(self).updates_bytes(),
    {
        self.sequence = sequence;
    }

    pub fn count(&self) -> (count: u32)
        ensures
            count == self.counted(),
    {
        self.count
    }

    /// The size of the batch in bytes.
    pub fn approximate_size(&self) -> (size: usize)
        ensures
            size == if HEADER_SIZE + self.updates_bytes().len() <= usize::MAX {
                HEADER_SIZE + self.updates_bytes().len()
            } else {
                usize::MAX as int
            },
    {
        match self.body.len().checked_add(HEADER_SIZE) {
            Some(size) => size,
            None => usize::MAX,
        }
    }

    /// What follows the sequence number in the bytes of the batch.
    pub fn unnumbered(&self) -> (bytes: Vec<u8>)
        ensures
            bytes@ == coding::le_bytes(self.counted() as nat, 4) + self.updates_bytes(),
    {
        let mut bytes: Vec<u8> = Vec::new();
        coding::put_fixed32(&mut bytes, self.count);
        bytes.extend_from_slice(self.body.as_slice());
        assert(bytes@ =~= coding::le_bytes(self.count as nat, 4) + self.body@);
        bytes
    }

    /// The bytes of the batch.
    pub fn contents(&self) -> (bytes: Vec<u8>)
        ensures
            bytes@ == batch_bytes(self.first_sequence(), self.counted(), self.updates_bytes()),
    {
        let mut bytes: Vec<u8> = Vec::new();
        coding::put_fixed64(&mut bytes, self.sequence);
        coding::put_fixed32(&mut bytes, self.count);
        bytes.extend_from_slice(self.body.as_slice());
        assert(bytes@ =~= batch_bytes(self.sequence, self.count, self.body@));
        bytes
    }

    /// Takes over the bytes of a batch; an error if they are too few.
    pub fn set_contents(&mut self, contents: &[u8]) -> (outcome: status::Result<()>)
        ensures
            outcome is Ok == (contents@.len() >= HEADER_SIZE),
            outcome is Ok ==> batch_bytes(
                final(self).first_sequence(),
                final(self).counted(),
                final(self).updates_bytes(),
            ) == contents@,
            outcome matches Err(error) ==> *final(self) == *old(self) && error.says(
                status::Code::Corruption,
                "malformed WriteBatch (too small)"@,
            ),
    {
        if contents.len() < HEADER_SIZE {
            return Err(Status::corruption("malformed WriteBatch (too small)"));
        }
        let length: usize = contents.len();
        let sequence_bytes: &[u8] = &contents[0..8];
        let count_bytes: &[u8] = &contents[8..12];
        self.sequence = coding::decode_fixed64(sequence_bytes);
        self.count = coding::decode_fixed32(count_bytes);
        self.body = vstd::slice::slice_to_vec(&contents[12..length]);
        proof {
            coding::law_fixed_read_write(sequence_bytes@);
            coding::law_fixed_read_write(count_bytes@);
            assert(sequence_bytes@.take(8) =~= sequence_bytes@);
            assert(count_bytes@.take(4) =~= count_bytes@);
            assert(batch_bytes(self.sequence, self.count, self.body@) =~= contents@);
        }
        Ok(())
    }

    /// The updates in order, up to the first that cannot be read, and what is wrong
    /// if anything is.
    pub fn updates(&self) -> (read: (Vec<Update>, Option<Status>))
        ensures
            changes(read.0@) == read_changes(self.updates_bytes()).0,
            match read_changes(self.updates_bytes()).1 {
                Some(text) => read.1 matches Some(error) && error.says(
                    status::Code::Corruption,
                    text,
                ),
                None => if read.0@.len() == self.counted() {
                    read.1 is None
                } else {
                    read.1 matches Some(error) && error.says(
                        status::Code::Corruption,
                        "WriteBatch has wrong count"@,
                    )
                },
            },
    {
        let ghost whole = read_changes(self.body@);
        let mut out: Vec<Update> = Vec::new();
        let mut input: &[u8] = self.body.as_slice();
        assert(changes(out@) + read_changes(input@).0 =~= whole.0);
        while input.len() > 0
            invariant
                whole == read_changes(self.body@),
                changes(out@) + read_changes(input@).0 == whole.0,
                read_changes(input@).1 == whole.1,
            decreases input@.len(),
        {
            let ghost before = input@;
            let ghost done = changes(out@);
            proof {
                lemma_read_change(before);
            }
            let mut cursor: &[u8] = &input[1..input.len()];
            assert(cursor@ =~= before.skip(1));
            let tag: u8 = input[0];
            if tag == 1 {
                let key = match coding::get_length_prefixed_slice(&mut cursor) {
                    None => {
                        return (out, Some(Status::corruption("bad WriteBatch Put")));
                    },
                    Some(key) => key,
                };
                let value = match coding::get_length_prefixed_slice(&mut cursor) {
                    None => {
                        return (out, Some(Status::corruption("bad WriteBatch Put")));
                    },
                    Some(value) => value,
                };
                out.push(
                    Update::Put(vstd::slice::slice_to_vec(key), vstd::slice::slice_to_vec(value)),
                );
            } else if tag == 0 {
                let key = match coding::get_length_prefixed_slice(&mut cursor) {
                    None => {
                        return (out, Some(Status::corruption("bad WriteBatch Delete")));
                    },
                    Some(key) => key,
                };
                out.push(Update::Delete(vstd::slice::slice_to_vec(key)));
            } else {
                return (out, Some(Status::corruption("unknown WriteBatch tag")));
            }
            input = cursor;
            proof {
                let change = (read_change(before)->Ok_0).0;
                let used = (read_change(before)->Ok_0).1;
                assert(input@ =~= before.skip(used));
                assert(changes(out@) =~= done.push(change));
                assert(changes(out@) + read_changes(input@).0 =~= done + (seq![change]
                    + read_changes(input@).0));
            }
        }
        proof {
            assert(changes(out@) =~= whole.0);
        }
        if out.len() as u64 != self.count as u64 {
            return (out, Some(Status::corruption("WriteBatch has wrong count")));
        }
        (out, None)
    }
}

/// A batch that was put together of some updates has just these.
pub proof fn law_batch_updates(batch: WriteBatch, held: Seq<Change>)
    requires
        batch.holds(held),
        forall|i: int| 0 <= i < held.len() ==> (#[trigger] held[i]).is_sized(),
    ensures
        read_changes(batch.updates_bytes()) == (held, None::<Seq<char>>),
{
    law_body_round_trip(held);
}

/// The bytes of a batch tell it.
pub proof fn law_batch_bytes(
    a_sequence: u64,
    a_count: u32,
    a: Seq<u8>,
    b_sequence: u64,
    b_count: u32,
    b: Seq<u8>,
)
    requires
        batch_bytes(a_sequence, a_count, a) == batch_bytes(b_sequence, b_count, b),
    ensures
        a_sequence == b_sequence,
        a_count == b_count,
        a == b,
{
    let bytes = batch_bytes(a_sequence, a_count, a);
    coding::lemma_pow256_values();
    coding::lemma_le_bytes_len(a_sequence as nat, 8);
    coding::lemma_le_bytes_len(b_sequence as nat, 8);
    coding::lemma_le_bytes_len(a_count as nat, 4);
    coding::lemma_le_bytes_len(b_count as nat, 4);
    coding::law_fixed_round_trip(a_sequence as nat, 8);
    coding::law_fixed_round_trip(b_sequence as nat, 8);
    coding::law_fixed_round_trip(a_count as nat, 4);
    coding::law_fixed_round_trip(b_count as nat, 4);
    assert(bytes.take(8) =~= coding::le_bytes(a_sequence as nat, 8));
    assert(bytes.take(8) =~= coding::le_bytes(b_sequence as nat, 8));
    assert(bytes.subrange(8, 12) =~= coding::le_bytes(a_count as nat, 4));
    assert(bytes.subrange(8, 12) =~= coding::le_bytes(b_count as nat, 4));
    assert(bytes.skip(12) =~= a);
    assert(bytes.skip(12) =~= b);
}

} // verus!
