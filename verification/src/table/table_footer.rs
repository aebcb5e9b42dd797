//! The last bytes of a table file.

use vstd::prelude::*;

use crate::block::block_handle;
use crate::block::block_handle::HandleRead;
use crate::block::BlockHandle;
use crate::coding;
use crate::status;
use crate::status::Status;

verus! {

/// Where the metaindex and the index of a table lie.
#[derive(Debug, Copy, Clone, PartialEq, Eq, Structural)]
pub struct TableFooter {
    pub metaindex: BlockHandle,
    pub index: BlockHandle,
}

impl Default for TableFooter {
    fn default() -> (footer: Self)
        ensures
            footer == (TableFooter {
                metaindex: BlockHandle { offset: 0, size: 0 },
                index: BlockHandle { offset: 0, size: 0 },
            }),
    {
        TableFooter { metaindex: BlockHandle::default(), index: BlockHandle::default() }
    }
}

/// The given number of zero bytes.
pub open spec fn zero_bytes(count: int) -> Seq<u8> {
    Seq::new(count as nat, |i: int| 0u8)
}

/// What a footer says, or what is wrong with it.
pub open spec fn read_footer(bytes: Seq<u8>) -> Result<TableFooter, Seq<char>> {
    if bytes.len() < TableFooter::ENCODED_LENGTH {
        Err("TableFooter: truncated input"@)
    } else if coding::le_value(bytes.subrange(40, 48)) != TableFooter::MAGIC {
        Err("TableFooter: bad magic number"@)
    } else {
        match block_handle::read_handle(bytes.take(40)) {
            HandleRead::Handle { handle: metaindex, length } => {
                match block_handle::read_handle(bytes.take(40).skip(length as int)) {
                    HandleRead::Handle { handle: index, length: _ } => Ok(
                        TableFooter { metaindex, index },
                    ),
                    failed => Err(block_handle::handle_error(failed)),
                }
            },
            failed => Err(block_handle::handle_error(failed)),
        }
    }
}

/// Reading a footer gives back what was written.
pub proof fn law_footer_round_trip(footer: TableFooter)
    ensures
        read_footer(footer.encoded()) == Ok::<TableFooter, Seq<char>>(footer),
        footer.encoded().len() == TableFooter::ENCODED_LENGTH,
{
    let first = footer.metaindex.encoded();
    let second = footer.index.encoded();
    let bytes = footer.encoded();
    block_handle::law_handle_round_trip(footer.metaindex, Seq::empty());
    block_handle::law_handle_round_trip(footer.index, Seq::empty());
    let pad = zero_bytes(40 - first.len() - second.len());
    let magic = coding::le_bytes(TableFooter::MAGIC as nat, 8);
    coding::lemma_le_bytes_len(TableFooter::MAGIC as nat, 8);
    coding::lemma_pow256_values();
    coding::law_fixed_round_trip(TableFooter::MAGIC as nat, 8);
    assert(bytes.subrange(40, 48) =~= magic);
    assert(bytes.take(40) =~= first + (second + pad));
    block_handle::law_handle_round_trip(footer.metaindex, second + pad);
    assert(bytes.take(40).skip(first.len() as int) =~= second + pad);
    block_handle::law_handle_round_trip(footer.index, pad);
}

impl TableFooter {
    pub const ENCODED_LENGTH: usize = 48;

    pub const MAGIC: u64 = 15800726617472432983;

    /// The bytes of a footer: the handles, zeros up to forty bytes, and the magic
    /// number.
    pub open spec fn encoded(&self) -> Seq<u8> {
        let handles = self.metaindex.encoded() + self.index.encoded();
        handles + zero_bytes(40 - handles.len()) + coding::le_bytes(TableFooter::MAGIC as nat, 8)
    }

    pub fn encode(&self, dst: &mut Vec<u8>)
        ensures
            final(dst)@ == old(dst)@ + self.encoded(),
    {
        let ghost before = dst@;
        let ghost handles = self.metaindex.encoded() + self.index.encoded();
        let mut bytes: Vec<u8> = Vec::new();
        self.metaindex.encode(&mut bytes);
        self.index.encode(&mut bytes);
        proof {
            block_handle::law_handle_round_trip(self.metaindex, Seq::empty());
            block_handle::law_handle_round_trip(self.index, Seq::empty());
            assert(bytes@ =~= handles);
        }
        bytes.resize(40, 0);
        assert(bytes@ =~= handles + zero_bytes(40 - handles.len()));
        dst.extend_from_slice(bytes.as_slice());
        coding::put_fixed64(dst, Self::MAGIC);
        assert(dst@ =~= before + self.encoded());
    }

    pub fn decode_from(input: &mut &[u8]) -> (read: status::Result<Self>)
        ensures
            match read_footer(old(input)@) {
                Ok(footer) => read == Ok::<TableFooter, Status>(footer) && final(input)@ == old(
                    input)@.skip(48),
                Err(text) => (read matches Err(e) && e.says(status::Code::Corruption, text))
                    && final(input)@ == old(input)@,
            },
    {
        let bytes: &[u8] = *input;
        if bytes.len() < Self::ENCODED_LENGTH {
            return Err(Status::corruption("TableFooter: truncated input"));
        }
        let magic = coding::decode_fixed64(&bytes[40..48]);
        assert(bytes@.subrange(40, 48).take(8) =~= bytes@.subrange(40, 48));
        if magic != Self::MAGIC {
            return Err(Status::corruption("TableFooter: bad magic number"));
        }
        let mut prefix: &[u8] = &bytes[0..40];
        assert(prefix@ =~= bytes@.take(40));
        let metaindex = match BlockHandle::decode_from(&mut prefix) {
            Err(error) => {
                return Err(error);
            },
            Ok(handle) => handle,
        };
        let index = match BlockHandle::decode_from(&mut prefix) {
            Err(error) => {
                return Err(error);
            },
            Ok(handle) => handle,
        };
        *input = &bytes[48..bytes.len()];
        Ok(TableFooter { metaindex, index })
    }
}

} // verus!
