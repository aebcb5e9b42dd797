//! Where a block lies in a table file.

use vstd::prelude::*;

use crate::coding;
use crate::status;
use crate::status::Status;

verus! {

/// The place and the length of a block.
#[derive(Debug, Copy, Clone, PartialEq, Eq, Structural)]
pub struct BlockHandle {
    pub offset: u64,
    pub size: u64,
}

impl Default for BlockHandle {
    fn default() -> (handle: Self)
        ensures
            handle == (BlockHandle { offset: 0, size: 0 }),
    {
        BlockHandle { offset: 0, size: 0 }
    }
}

/// What the front of some bytes holds, read as a handle.
pub enum HandleRead {
    NoOffset,
    NoSize,
    Handle { handle: BlockHandle, length: nat },
}

/// Reads a handle at the front of `bytes`.
pub open spec fn read_handle(bytes: Seq<u8>) -> HandleRead {
    match coding::read_varint64(bytes) {
        None => HandleRead::NoOffset,
        Some((offset, first)) => match coding::read_varint64(bytes.skip(first as int)) {
            None => HandleRead::NoSize,
            Some((size, second)) => HandleRead::Handle {
                handle: BlockHandle { offset, size },
                length: first + second,
            },
        },
    }
}

/// What a failed read of a handle reports.
pub open spec fn handle_error(read: HandleRead) -> Seq<char> {
    match read {
        HandleRead::NoOffset => "BlockHandle: missing offset"@,
        _ => "BlockHandle: missing size"@,
    }
}

/// Reading a handle gives back what was written, whatever follows.
pub proof fn law_handle_round_trip(handle: BlockHandle, rest: Seq<u8>)
    ensures
        read_handle(handle.encoded() + rest) == (HandleRead::Handle {
            handle,
            length: handle.encoded().len(),
        }),
        2 <= handle.encoded().len() <= 20,
{
    let first = coding::varint(handle.offset as nat);
    let second = coding::varint(handle.size as nat);
    let bytes = handle.encoded() + rest;
    coding::lemma_varint_len(handle.offset as nat);
    coding::lemma_varint_len(handle.size as nat);
    assert(bytes =~= first + (second + rest));
    coding::law_varint64_round_trip(handle.offset, second + rest);
    assert(bytes.skip(first.len() as int) =~= second + rest);
    coding::law_varint64_round_trip(handle.size, rest);
}

/// A handle that was read lies within the bytes it was read from.
pub proof fn lemma_handle_length(bytes: Seq<u8>)
    ensures
        read_handle(bytes) matches HandleRead::Handle { handle, length } ==> 2 <= length
            <= bytes.len(),
{
    coding::lemma_read_varint_bounds(bytes, coding::MAX_VARINT64_BYTES as nat);
    match coding::read_varint64(bytes) {
        None => {},
        Some((_, first)) => {
            coding::lemma_read_varint_bounds(
                bytes.skip(first as int),
                coding::MAX_VARINT64_BYTES as nat,
            );
        },
    }
}

impl BlockHandle {
    /// The bytes of a handle.
    pub open spec fn encoded(&self) -> Seq<u8> {
        coding::varint(self.offset as nat) + coding::varint(self.size as nat)
    }

    pub fn encode(&self, dst: &mut Vec<u8>)
        ensures
            final(dst)@ == old(dst)@ + self.encoded(),
    {
        Self::encode_streaming(dst, self.offset, self.size);
    }

    pub fn encode_streaming(dst: &mut Vec<u8>, offset: u64, size: u64)
        ensures
            final(dst)@ == old(dst)@ + (BlockHandle { offset, size }).encoded(),
    {
        coding::put_varint64(dst, offset);
        coding::put_varint64(dst, size);
        assert(dst@ =~= old(dst)@ + (BlockHandle { offset, size }).encoded());
    }

    pub fn decode_from(input: &mut &[u8]) -> (read: status::Result<Self>)
        ensures
            match read_handle(old(input)@) {
                HandleRead::Handle { handle, length } => read == Ok::<BlockHandle, Status>(handle)
                    && final(input)@ == old(input)@.skip(length as int),
                failed => (read matches Err(e) && e.says(
                    status::Code::Corruption,
                    handle_error(failed),
                )) && final(input)@ == old(input)@,
            },
    {
        let mut cursor: &[u8] = *input;
        let offset = match coding::get_varint64(&mut cursor) {
            None => {
                return Err(Status::corruption("BlockHandle: missing offset"));
            },
            Some(offset) => offset,
        };
        let size = match coding::get_varint64(&mut cursor) {
            None => {
                return Err(Status::corruption("BlockHandle: missing size"));
            },
            Some(size) => size,
        };
        proof {
            lemma_handle_length(input@);
            let first = (coding::read_varint64(input@)->0).1;
            coding::lemma_read_varint_bounds(input@, coding::MAX_VARINT64_BYTES as nat);
            let length = read_handle(input@)->length;
            assert(input@.skip(first as int).skip(length - first) =~= input@.skip(length as int));
        }
        *input = cursor;
        Ok(BlockHandle { offset, size })
    }

    /// Reads a handle and hands its parts to `f`.
    pub fn visit<F, R>(input: &mut &[u8], f: F) -> (visited: status::Result<R>) where
        F: FnOnce(u64, u64) -> R,

        requires
            read_handle(old(input)@) matches HandleRead::Handle { handle, length } ==> f.requires(
                (handle.offset, handle.size),
            ),
        ensures
            match read_handle(old(input)@) {
                HandleRead::Handle { handle, length } => (visited matches Ok(r) && f.ensures(
                    (handle.offset, handle.size),
                    r,
                )) && final(input)@ == old(input)@.skip(length as int),
                failed => (visited matches Err(e) && e.says(
                    status::Code::Corruption,
                    handle_error(failed),
                )) && final(input)@ == old(input)@,
            },
    {
        match Self::decode_from(input) {
            Ok(handle) => Ok(f(handle.offset, handle.size)),
            Err(error) => Err(error),
        }
    }
}

} // verus!
