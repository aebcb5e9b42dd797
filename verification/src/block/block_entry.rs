//! One entry of a block: the key without the prefix that it shares with the
//! key before it, and the value.

use vstd::prelude::*;

use crate::coding;
use crate::status;
use crate::status::Status;

verus! {

/// An entry of a block.
#[derive(Debug)]
pub struct BlockEntry {
    pub shared: u32,
    pub unshared: u32,
    pub value_len: u32,
    pub key_delta: Vec<u8>,
    pub value: Vec<u8>,
}

impl Default for BlockEntry {
    fn default() -> (entry: Self)
        ensures
            entry.shared == 0,
            entry.unshared == 0,
            entry.value_len == 0,
            entry.key_delta@ == Seq::<u8>::empty(),
            entry.value@ == Seq::<u8>::empty(),
    {
        BlockEntry {
            shared: 0,
            unshared: 0,
            value_len: 0,
            key_delta: Vec::new(),
            value: Vec::new(),
        }
    }
}

/// The numbers in front of an entry, and the bytes that they take.
#[derive(Debug, Copy, Clone, PartialEq, Eq, Structural)]
pub struct EntryHeader {
    pub shared: u32,
    pub unshared: u32,
    pub value_len: u32,
    pub size: usize,
}

/// Which part of an entry cannot be read.
#[derive(Debug, Copy, Clone, PartialEq, Eq, Structural)]
pub enum EntryFault {
    Shared,
    Unshared,
    ValueLen,
    KeyDelta,
    Value,
}

/// The header at the front of `bytes`.
pub open spec fn read_header(bytes: Seq<u8>) -> Result<EntryHeader, EntryFault> {
    match coding::read_varint32(bytes) {
        None => Err(EntryFault::Shared),
        Some((shared, first)) => match coding::read_varint32(bytes.skip(first as int)) {
            None => Err(EntryFault::Unshared),
            Some((unshared, second)) => match coding::read_varint32(
                bytes.skip((first + second) as int),
            ) {
                None => Err(EntryFault::ValueLen),
                Some((value_len, third)) => Ok(
                    EntryHeader {
                        shared,
                        unshared,
                        value_len,
                        size: (first + second + third) as usize,
                    },
                ),
            },
        },
    }
}

/// The header of an entry whose key and value are there in full.
pub open spec fn read_entry(bytes: Seq<u8>) -> Result<EntryHeader, EntryFault> {
    match read_header(bytes) {
        Err(fault) => Err(fault),
        Ok(header) => if bytes.len() < header.size + header.unshared {
            Err(EntryFault::KeyDelta)
        } else if bytes.len() < header.size + header.unshared + header.value_len {
            Err(EntryFault::Value)
        } else {
            Ok(header)
        },
    }
}

/// The part of the key that an entry holds.
pub open spec fn delta_of(bytes: Seq<u8>, header: EntryHeader) -> Seq<u8> {
    bytes.subrange(header.size as int, header.size + header.unshared)
}

/// The value that an entry holds.
pub open spec fn value_of(bytes: Seq<u8>, header: EntryHeader) -> Seq<u8> {
    bytes.subrange(
        header.size + header.unshared,
        header.size + header.unshared + header.value_len,
    )
}

/// The number of bytes that an entry takes.
pub open spec fn entry_len(header: EntryHeader) -> int {
    header.size + header.unshared + header.value_len
}

/// What a failed read of an entry reports.
pub open spec fn entry_error(fault: EntryFault) -> Seq<char> {
    match fault {
        EntryFault::Shared => "BlockEntry: missing shared"@,
        EntryFault::Unshared => "BlockEntry: missing unshared"@,
        EntryFault::ValueLen => "BlockEntry: missing value_len"@,
        EntryFault::KeyDelta => "BlockEntry: missing key_delta"@,
        EntryFault::Value => "BlockEntry: missing value"@,
    }
}

/// The bytes of an entry.
pub open spec fn entry_bytes(
    shared: nat,
    unshared: nat,
    value_len: nat,
    key_delta: Seq<u8>,
    value: Seq<u8>,
) -> Seq<u8> {
    coding::varint(shared) + coding::varint(unshared) + coding::varint(value_len) + key_delta
        + value
}

/// A header lies within the bytes that it was read from.
pub proof fn lemma_header_size(bytes: Seq<u8>)
    ensures
        read_header(bytes) matches Ok(header) ==> 3 <= header.size <= 15 && header.size
            <= bytes.len(),
        coding::read_varint32(bytes) matches Some((shared, first)) ==> 1 <= first <= 5 && first
            <= bytes.len() && (coding::read_varint32(bytes.skip(first as int)) matches Some(
            (unshared, second),
        ) ==> 1 <= second <= 5 && first + second <= bytes.len()),
{
    let max = coding::MAX_VARINT32_BYTES as nat;
    coding::lemma_read_varint_bounds(bytes, max);
    match coding::read_varint32(bytes) {
        None => {},
        Some((_, first)) => {
            coding::lemma_read_varint_bounds(bytes.skip(first as int), max);
            match coding::read_varint32(bytes.skip(first as int)) {
                None => {},
                Some((_, second)) => {
                    coding::lemma_read_varint_bounds(bytes.skip((first + second) as int), max);
                },
            }
        },
    }
}

/// Reading an entry gives back what was written, whatever follows.
pub proof fn law_entry_round_trip(
    shared: u32,
    key_delta: Seq<u8>,
    value: Seq<u8>,
    rest: Seq<u8>,
)
    requires
        key_delta.len() < coding::two_pow_32(),
        value.len() < coding::two_pow_32(),
    ensures
        ({
            let entry = entry_bytes(
                shared as nat,
                key_delta.len(),
                value.len(),
                key_delta,
                value,
            );
            let bytes = entry + rest;
            &&& read_entry(bytes) matches Ok(header)
            &&& header.shared == shared
            &&& header.unshared == key_delta.len()
            &&& header.value_len == value.len()
            &&& entry_len(header) == entry.len()
            &&& delta_of(bytes, header) == key_delta
            &&& value_of(bytes, header) == value
        }),
{
    let a = coding::varint(shared as nat);
    let b = coding::varint(key_delta.len());
    let c = coding::varint(value.len());
    let entry = entry_bytes(shared as nat, key_delta.len(), value.len(), key_delta, value);
    let bytes = entry + rest;
    let tail = key_delta + value + rest;
    coding::lemma_varint_len(shared as nat);
    coding::lemma_varint_len(key_delta.len());
    coding::lemma_varint_len(value.len());
    assert(bytes =~= a + (b + (c + tail)));
    assert(bytes.skip(a.len() as int) =~= b + (c + tail));
    assert(bytes.skip((a.len() + b.len()) as int) =~= c + tail);
    coding::law_varint32_round_trip(shared, b + (c + tail));
    coding::law_varint32_round_trip(key_delta.len() as u32, c + tail);
    coding::law_varint32_round_trip(value.len() as u32, tail);
    let header = read_header(bytes)->Ok_0;
    assert(header.size == a.len() + b.len() + c.len());
    assert(delta_of(bytes, header) =~= key_delta);
    assert(value_of(bytes, header) =~= value);
}

/// Reads the header at the front of `bytes`.
pub fn get_header(bytes: &[u8]) -> (header: Result<EntryHeader, EntryFault>)
    ensures
        header == read_header(bytes@),
{
    let mut cursor: &[u8] = bytes;
    proof {
        lemma_header_size(bytes@);
    }
    let shared = match coding::get_varint32(&mut cursor) {
        None => {
            return Err(EntryFault::Shared);
        },
        Some(shared) => shared,
    };
    let unshared = match coding::get_varint32(&mut cursor) {
        None => {
            return Err(EntryFault::Unshared);
        },
        Some(unshared) => unshared,
    };
    proof {
        let first = (coding::read_varint32(bytes@)->0).1;
        let second = (coding::read_varint32(bytes@.skip(first as int))->0).1;
        assert(bytes@.skip(first as int).skip(second as int) =~= bytes@.skip((first + second) as int));
    }
    let value_len = match coding::get_varint32(&mut cursor) {
        None => {
            return Err(EntryFault::ValueLen);
        },
        Some(value_len) => value_len,
    };
    proof {
        let first = (coding::read_varint32(bytes@)->0).1;
        let second = (coding::read_varint32(bytes@.skip(first as int))->0).1;
        coding::lemma_read_varint_bounds(
            bytes@.skip((first + second) as int),
            coding::MAX_VARINT32_BYTES as nat,
        );
    }
    Ok(EntryHeader { shared, unshared, value_len, size: bytes.len() - cursor.len() })
}

/// Reads the header of the entry at the front of `bytes`, if all of the entry is
/// there.
fn get_entry(bytes: &[u8]) -> (header: Result<EntryHeader, EntryFault>)
    ensures
        header == read_entry(bytes@),
{
    let header = match get_header(bytes) {
        Err(fault) => {
            return Err(fault);
        },
        Ok(header) => header,
    };
    proof {
        lemma_header_size(bytes@);
    }
    let left: u64 = (bytes.len() - header.size) as u64;
    if left < header.unshared as u64 {
        Err(EntryFault::KeyDelta)
    } else if left < header.unshared as u64 + header.value_len as u64 {
        Err(EntryFault::Value)
    } else {
        Ok(header)
    }
}

impl EntryFault {
    /// The error that a failed read of an entry reports.
    fn to_status(self) -> (error: Status)
        ensures
            error.says(status::Code::Corruption, entry_error(self)),
    {
        match self {
            EntryFault::Shared => Status::corruption("BlockEntry: missing shared"),
            EntryFault::Unshared => Status::corruption("BlockEntry: missing unshared"),
            EntryFault::ValueLen => Status::corruption("BlockEntry: missing value_len"),
            EntryFault::KeyDelta => Status::corruption("BlockEntry: missing key_delta"),
            EntryFault::Value => Status::corruption("BlockEntry: missing value"),
        }
    }
}

impl BlockEntry {
    /// The bytes of this entry.
    pub open spec fn encoded(&self) -> Seq<u8> {
        entry_bytes(
            self.shared as nat,
            self.unshared as nat,
            self.value_len as nat,
            self.key_delta@,
            self.value@,
        )
    }

    pub fn encode(&self, dst: &mut Vec<u8>)
        ensures
            final(dst)@ == old(dst)@ + self.encoded(),
    {
        Self::encode_streaming(
            dst,
            self.shared,
            self.unshared,
            self.value_len,
            self.key_delta.as_slice(),
            self.value.as_slice(),
        );
    }

    pub fn encode_streaming(
        dst: &mut Vec<u8>,
        shared: u32,
        unshared: u32,
        value_len: u32,
        key_delta: &[u8],
        value: &[u8],
    )
        ensures
            final(dst)@ == old(dst)@ + entry_bytes(
                shared as nat,
                unshared as nat,
                value_len as nat,
                key_delta@,
                value@,
            ),
    {
        coding::put_varint32(dst, shared);
        coding::put_varint32(dst, unshared);
        coding::put_varint32(dst, value_len);
        dst.extend_from_slice(key_delta);
        dst.extend_from_slice(value);
        assert(dst@ =~= old(dst)@ + entry_bytes(
            shared as nat,
            unshared as nat,
            value_len as nat,
            key_delta@,
            value@,
        ));
    }

    pub fn decode_from(input: &mut &[u8]) -> (read: status::Result<Self>)
        ensures
            match read_entry(old(input)@) {
                Ok(header) => (read matches Ok(entry) && entry.shared == header.shared
                    && entry.unshared == header.unshared && entry.value_len == header.value_len
                    && entry.key_delta@ == delta_of(old(input)@, header) && entry.value@ == value_of(
                    old(input)@,
                    header,
                )) && final(input)@ == old(input)@.skip(entry_len(header)),
                Err(fault) => (read matches Err(e) && e.says(
                    status::Code::Corruption,
                    entry_error(fault),
                )) && final(input)@ == old(input)@,
            },
    {
        let bytes: &[u8] = *input;
        let total: usize = bytes.len();
        match get_entry(bytes) {
            Err(fault) => Err(fault.to_status()),
            Ok(header) => {
                proof {
                    lemma_header_size(bytes@);
                }
                let middle: usize = header.size + header.unshared as usize;
                let end: usize = middle + header.value_len as usize;
                *input = &bytes[end..total];
                Ok(
                    BlockEntry {
                        shared: header.shared,
                        unshared: header.unshared,
                        value_len: header.value_len,
                        key_delta: vstd::slice::slice_to_vec(&bytes[header.size..middle]),
                        value: vstd::slice::slice_to_vec(&bytes[middle..end]),
                    },
                )
            },
        }
    }

    /// Reads an entry and hands its parts to `f`.
    pub fn visit<F, R>(input: &mut &[u8], f: F) -> (visited: status::Result<R>) where
        F: FnOnce(u32, u32, u32, &[u8], &[u8]) -> R,

        requires
            read_entry(old(input)@) matches Ok(header) ==> forall|delta: &[u8], value: &[u8]|
                delta@ == delta_of(old(input)@, header) && value@ == value_of(old(input)@, header)
                    ==> #[trigger] f.requires(
                    (header.shared, header.unshared, header.value_len, delta, value),
                ),
        ensures
            visited is Ok == read_entry(old(input)@) is Ok,
            read_entry(old(input)@) matches Ok(header) ==> exists|delta: &[u8], value: &[u8]|
                #![trigger delta@, value@]
                delta@ == delta_of(old(input)@, header) && value@ == value_of(old(input)@, header)
                    && f.ensures(
                    (header.shared, header.unshared, header.value_len, delta, value),
                    visited->Ok_0,
                ),
            read_entry(old(input)@) matches Ok(header) ==> final(input)@ == old(input)@.skip(
                entry_len(header),
            ),
            read_entry(old(input)@) matches Err(fault) ==> (visited->Err_0).says(
                status::Code::Corruption,
                entry_error(fault),
            ) && final(input)@ == old(input)@,
    {
        let bytes: &[u8] = *input;
        let total: usize = bytes.len();
        match get_entry(bytes) {
            Err(fault) => Err(fault.to_status()),
            Ok(header) => {
                proof {
                    lemma_header_size(bytes@);
                }
                let middle: usize = header.size + header.unshared as usize;
                let end: usize = middle + header.value_len as usize;
                let delta: &[u8] = &bytes[header.size..middle];
                let value: &[u8] = &bytes[middle..end];
                *input = &bytes[end..total];
                let result = f(header.shared, header.unshared, header.value_len, delta, value);
                assert(delta@ =~= delta_of(bytes@, header));
                assert(value@ =~= value_of(bytes@, header));
                assert(f.ensures(
                    (header.shared, header.unshared, header.value_len, delta, value),
                    result,
                ));
                Ok(result)
            },
        }
    }
}

} // verus!
