//! What follows each block in a table file.

use vstd::prelude::*;

use crate::coding;
use crate::crc32c;
use crate::status;
use crate::status::Status;

verus! {

/// How a block is stored, and its checksum.
#[derive(Debug, Copy, Clone, PartialEq, Eq, Structural)]
pub struct BlockTrailer {
    pub kind: u8,
    pub crc: u32,
}

impl Default for BlockTrailer {
    fn default() -> (trailer: Self)
        ensures
            trailer == (BlockTrailer { kind: 0, crc: 0 }),
    {
        BlockTrailer { kind: 0, crc: 0 }
    }
}

/// The trailer at the front of at least five bytes.
pub open spec fn trailer_of(bytes: Seq<u8>) -> BlockTrailer {
    BlockTrailer {
        kind: bytes[0],
        crc: crc32c::unmasked(coding::le_value(bytes.subrange(1, 5)) as u32),
    }
}

/// Reading a trailer gives back what was written, whatever follows.
pub proof fn law_trailer_round_trip(trailer: BlockTrailer, rest: Seq<u8>)
    ensures
        trailer_of(trailer.encoded() + rest) == trailer,
        trailer.encoded().len() == BlockTrailer::SIZE,
{
    let word = crc32c::masked(trailer.crc) as nat;
    coding::lemma_le_bytes_len(word, 4);
    coding::lemma_pow256_values();
    coding::law_fixed_round_trip(word, 4);
    crc32c::law_mask_round_trip(trailer.crc);
    assert((trailer.encoded() + rest).subrange(1, 5) =~= coding::le_bytes(word, 4));
}

impl BlockTrailer {
    pub const SIZE: usize = 5;

    pub const KIND_NO_COMPRESSION: u8 = 0;

    pub const KIND_SNAPPY: u8 = 1;

    /// The bytes of a trailer.
    pub open spec fn encoded(&self) -> Seq<u8> {
        seq![self.kind] + coding::le_bytes(crc32c::masked(self.crc) as nat, 4)
    }

    pub fn encode(&self, dst: &mut Vec<u8>)
        ensures
            final(dst)@ == old(dst)@ + self.encoded(),
    {
        dst.push(self.kind);
        coding::put_fixed32(dst, crc32c::mask(self.crc));
        assert(dst@ =~= old(dst)@ + self.encoded());
    }

    pub fn decode_from(input: &mut &[u8]) -> (read: status::Result<Self>)
        ensures
            match read {
                Ok(trailer) => old(input)@.len() >= 5 && trailer == trailer_of(old(input)@) && final(
                    input)@ == old(input)@.skip(5),
                Err(e) => old(input)@.len() < 5 && final(input)@ == old(input)@ && e.says(
                    status::Code::Corruption,
                    if old(input)@.len() == 0 {
                        "BlockTrailer: missing kind"@
                    } else {
                        "BlockTrailer: missing crc"@
                    },
                ),
            },
    {
        let mut cursor: &[u8] = *input;
        let kind = match coding::get_u8(&mut cursor) {
            None => {
                return Err(Status::corruption("BlockTrailer: missing kind"));
            },
            Some(kind) => kind,
        };
        let stored = match coding::get_fixed32(&mut cursor) {
            None => {
                return Err(Status::corruption("BlockTrailer: missing crc"));
            },
            Some(stored) => stored,
        };
        proof {
            assert(input@.skip(1).take(4) =~= input@.subrange(1, 5));
            assert(input@.skip(1).skip(4) =~= input@.skip(5));
        }
        *input = cursor;
        Ok(BlockTrailer { kind, crc: crc32c::unmask(stored) })
    }
}

} // verus!
