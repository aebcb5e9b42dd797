//! The restart points at the end of a block.

use vstd::prelude::*;

use crate::coding;
use crate::status;
use crate::status::Status;

verus! {

/// The offsets of the entries whose keys are stored in full.
#[derive(Debug)]
pub struct BlockRestartTrailer {
    pub items: Vec<u32>,
}

impl Default for BlockRestartTrailer {
    fn default() -> (trailer: Self)
        ensures
            trailer.items@ == Seq::<u32>::empty(),
    {
        BlockRestartTrailer { items: Vec::new() }
    }
}

/// The bytes of some 32-bit numbers.
pub open spec fn words(items: Seq<u32>) -> Seq<u8>
    decreases items.len(),
{
    if items.len() == 0 {
        Seq::empty()
    } else {
        words(items.drop_last()) + coding::le_bytes(items.last() as nat, 4)
    }
}

/// The 32-bit number at `index` among `bytes`.
pub open spec fn word_at(bytes: Seq<u8>, index: int) -> u32 {
    coding::le_value(bytes.subrange(4 * index, 4 * index + 4)) as u32
}

/// The bytes of a restart trailer: the offsets and their number.
pub open spec fn trailer_bytes(items: Seq<u32>) -> Seq<u8> {
    words(items) + coding::le_bytes(items.len() % coding::two_pow_32(), 4)
}

/// Each number takes four bytes and can be found at its place.
pub proof fn lemma_words(items: Seq<u32>)
    ensures
        words(items).len() == 4 * items.len(),
        forall|i: int| 0 <= i < items.len() ==> #[trigger] word_at(words(items), i) == items[i],
    decreases items.len(),
{
    if items.len() > 0 {
        let head = words(items.drop_last());
        let tail = coding::le_bytes(items.last() as nat, 4);
        lemma_words(items.drop_last());
        coding::lemma_le_bytes_len(items.last() as nat, 4);
        coding::lemma_pow256_values();
        coding::law_fixed_round_trip(items.last() as nat, 4);
        assert forall|i: int| 0 <= i < items.len() implies #[trigger] word_at(words(items), i)
            == items[i] by {
            if i < items.len() - 1 {
                assert(words(items).subrange(4 * i, 4 * i + 4) =~= head.subrange(4 * i, 4 * i + 4));
                assert(word_at(head, i) == items.drop_last()[i]);
            } else {
                assert(words(items).subrange(4 * i, 4 * i + 4) =~= tail);
            }
        }
    }
}

/// Words that agree one by one have the same bytes.
proof fn lemma_words_read(bytes: Seq<u8>, items: Seq<u32>)
    requires
        bytes.len() == 4 * items.len(),
        forall|i: int| 0 <= i < items.len() ==> #[trigger] word_at(bytes, i) == items[i],
    ensures
        words(items) == bytes,
    decreases items.len(),
{
    if items.len() == 0 {
        assert(bytes =~= words(items));
    } else {
        let n = items.len() - 1;
        let head = bytes.take(4 * n);
        let tail = bytes.subrange(4 * n, 4 * n + 4);
        assert forall|i: int| 0 <= i < n implies #[trigger] word_at(head, i) == items.drop_last()[i]
            by {
            assert(head.subrange(4 * i, 4 * i + 4) =~= bytes.subrange(4 * i, 4 * i + 4));
            assert(word_at(bytes, i) == items[i]);
        }
        lemma_words_read(head, items.drop_last());
        coding::law_fixed_read_write(tail);
        coding::lemma_pow256_values();
        assert(word_at(bytes, n) == items[n]);
        assert(bytes =~= head + tail);
    }
}

/// Reading a restart trailer gives back what was written.
pub proof fn law_restart_trailer_round_trip(items: Seq<u32>, read: Seq<u32>)
    requires
        items.len() < coding::two_pow_32(),
        read.len() < coding::two_pow_32(),
        trailer_bytes(read) == trailer_bytes(items),
    ensures
        read == items,
{
    lemma_words(items);
    lemma_words(read);
    coding::lemma_le_bytes_len(items.len() % coding::two_pow_32(), 4);
    coding::lemma_le_bytes_len(read.len() % coding::two_pow_32(), 4);
    assert(trailer_bytes(items).len() == 4 * items.len() + 4);
    assert(trailer_bytes(read).len() == 4 * read.len() + 4);
    assert(words(items) =~= trailer_bytes(items).take(4 * items.len() as int));
    assert(words(read) =~= trailer_bytes(items).take(4 * items.len() as int));
    assert forall|i: int| 0 <= i < items.len() implies read[i] == items[i] by {
        assert(word_at(words(items), i) == items[i]);
        assert(word_at(words(read), i) == read[i]);
    }
    assert(read =~= items);
}

impl BlockRestartTrailer {
    pub fn encode(&self, dst: &mut Vec<u8>)
        ensures
            final(dst)@ == old(dst)@ + trailer_bytes(self.items@),
    {
        let ghost before = dst@;
        let mut index: usize = 0;
        assert(dst@ =~= before + words(self.items@.take(0)));
        while index < self.items.len()
            invariant
                index <= self.items@.len(),
                dst@ == before + words(self.items@.take(index as int)),
            decreases self.items@.len() - index,
        {
            coding::put_fixed32(dst, self.items[index]);
            index = index + 1;
            proof {
                let head = self.items@.take(index as int);
                assert(head.drop_last() =~= self.items@.take(index - 1));
                assert(dst@ =~= before + words(head));
            }
        }
        assert(self.items@.take(index as int) =~= self.items@);
        coding::put_fixed32(dst, coding::low_32_bits(self.items.len()));
        assert(dst@ =~= before + trailer_bytes(self.items@));
    }

    /// Takes all of `input`.
    pub fn decode_from(input: &mut &[u8]) -> (read: status::Result<Self>)
        ensures
            match read {
                Ok(trailer) => trailer.items@.len() < coding::two_pow_32() && trailer_bytes(
                    trailer.items@,
                ) == old(input)@ && final(input)@ == Seq::<u8>::empty(),
                Err(e) => final(input)@ == old(input)@ && if old(input)@.len() < 4 {
                    e.says(status::Code::Corruption, "BlockRestartTrailer: missing count"@)
                } else {
                    &&& e.says(
                        status::Code::Corruption,
                        "BlockRestartTrailer: count/length mismatch"@,
                    )
                    &&& old(input)@.len() - 4 != 4 * coding::le_value(
                        old(input)@.skip(old(input)@.len() - 4),
                    )
                },
            },
    {
        let bytes: &[u8] = *input;
        if bytes.len() < 4 {
            return Err(Status::corruption("BlockRestartTrailer: missing count"));
        }
        let count_offset: usize = bytes.len() - 4;
        let count = coding::decode_fixed32(&bytes[count_offset..bytes.len()]);
        let ghost tail = bytes@.skip(count_offset as int);
        assert(bytes@.subrange(count_offset as int, bytes@.len() as int).take(4) =~= tail);
        if count_offset as u64 != count as u64 * 4 {
            return Err(Status::corruption("BlockRestartTrailer: count/length mismatch"));
        }
        let ghost head = bytes@.take(count_offset as int);
        let mut items: Vec<u32> = Vec::new();
        let mut offset: usize = 0;
        while offset < count_offset
            invariant
                bytes@.len() == count_offset + 4,
                head == bytes@.take(count_offset as int),
                count_offset == 4 * count,
                offset <= count_offset,
                offset == 4 * items@.len(),
                forall|i: int| 0 <= i < items@.len() ==> #[trigger] word_at(head, i) == items@[i],
            decreases count_offset - offset,
        {
            let word = coding::decode_fixed32(&bytes[offset..bytes.len()]);
            proof {
                let at = bytes@.subrange(offset as int, bytes@.len() as int).take(4);
                let index = items@.len() as int;
                assert(at =~= head.subrange(4 * index, 4 * index + 4));
            }
            items.push(word);
            offset = offset + 4;
        }
        proof {
            lemma_words_read(head, items@);
            coding::law_fixed_read_write(tail);
            assert(items@.len() == count);
            assert(bytes@ =~= head + tail);
        }
        *input = &bytes[bytes.len()..bytes.len()];
        assert(input@ =~= Seq::<u8>::empty());
        Ok(BlockRestartTrailer { items })
    }
}

} // verus!
