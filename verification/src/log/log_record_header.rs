//! The header of a fragment in a log.

use vstd::prelude::*;

use crate::coding;
use crate::crc32c;
use crate::status;
use crate::status::Status;

verus! {

/// Checksum, length and kind of a fragment.
#[derive(Debug, Copy, Clone, PartialEq, Eq, Structural)]
pub struct LogRecordHeader {
    pub crc: u32,
    pub length: u16,
    pub kind: u8,
}

impl Default for LogRecordHeader {
    fn default() -> (header: Self)
        ensures
            header == (LogRecordHeader { crc: 0, length: 0, kind: 0 }),
    {
        LogRecordHeader { crc: 0, length: 0, kind: 0 }
    }
}

/// The header at the front of at least seven bytes.
pub open spec fn header_of(bytes: Seq<u8>) -> LogRecordHeader {
    LogRecordHeader {
        crc: crc32c::unmasked(coding::le_value(bytes.take(4)) as u32),
        length: coding::le_value(bytes.subrange(4, 6)) as u16,
        kind: bytes[6],
    }
}

/// Reading a header gives back what was written, whatever follows.
pub proof fn law_header_round_trip(header: LogRecordHeader, rest: Seq<u8>)
    ensures
        header_of(header.encoded() + rest) == header,
        header.encoded().len() == LogRecordHeader::SIZE,
{
    let word = crc32c::masked(header.crc) as nat;
    let bytes = header.encoded() + rest;
    coding::lemma_le_bytes_len(word, 4);
    coding::lemma_le_bytes_len(header.length as nat, 2);
    coding::lemma_pow256_values();
    coding::law_fixed_round_trip(word, 4);
    coding::law_fixed_round_trip(header.length as nat, 2);
    crc32c::law_mask_round_trip(header.crc);
    assert(bytes.take(4) =~= coding::le_bytes(word, 4));
    assert(bytes.subrange(4, 6) =~= coding::le_bytes(header.length as nat, 2));
}

impl LogRecordHeader {
    pub const SIZE: usize = 7;

    pub const KIND_ZERO: u8 = 0;

    pub const KIND_FULL: u8 = 1;

    pub const KIND_FIRST: u8 = 2;

    pub const KIND_MIDDLE: u8 = 3;

    pub const KIND_LAST: u8 = 4;

    /// The bytes of a header.
    pub open spec fn encoded(&self) -> Seq<u8> {
        coding::le_bytes(crc32c::masked(self.crc) as nat, 4) + coding::le_bytes(
            self.length as nat,
            2,
        ) + seq![self.kind]
    }

    pub fn encode(&self, dst: &mut Vec<u8>)
        ensures
            final(dst)@ == old(dst)@ + self.encoded(),
    {
        coding::put_fixed32(dst, crc32c::mask(self.crc));
        coding::put_fixed16(dst, self.length);
        dst.push(self.kind);
        assert(dst@ =~= old(dst)@ + self.encoded());
    }

    pub fn decode_from(input: &mut &[u8]) -> (read: status::Result<Self>)
        ensures
            match read {
                Ok(header) => old(input)@.len() >= 7 && header == header_of(old(input)@) && final(
                    input)@ == old(input)@.skip(7),
                Err(e) => old(input)@.len() < 7 && final(input)@ == old(input)@ && e.says(
                    status::Code::Corruption,
                    if old(input)@.len() < 4 {
                        "LogRecordHeader: missing crc"@
                    } else if old(input)@.len() < 6 {
                        "LogRecordHeader: missing length"@
                    } else {
                        "LogRecordHeader: missing kind"@
                    },
                ),
            },
    {
        let mut cursor: &[u8] = *input;
        let stored = match coding::get_fixed32(&mut cursor) {
            None => {
                return Err(Status::corruption("LogRecordHeader: missing crc"));
            },
            Some(stored) => stored,
        };
        let length = match coding::get_fixed16(&mut cursor) {
            None => {
                return Err(Status::corruption("LogRecordHeader: missing length"));
            },
            Some(length) => length,
        };
        let kind = match coding::get_u8(&mut cursor) {
            None => {
                return Err(Status::corruption("LogRecordHeader: missing kind"));
            },
            Some(kind) => kind,
        };
        proof {
            assert(input@.skip(4).take(2) =~= input@.subrange(4, 6));
            assert(input@.skip(4).skip(2) =~= input@.skip(6));
            assert(input@.skip(6).skip(1) =~= input@.skip(7));
        }
        *input = cursor;
        Ok(LogRecordHeader { crc: crc32c::unmask(stored), length, kind })
    }
}

} // verus!
