//! Non-cryptographic 32-bit hash.
//!
//! The Bloom filter and the sharded cache use it. Its constants are part of
//! the filters on disk.

use vstd::prelude::*;

use crate::coding;

verus! {

/// The multiplier of the mixer.
pub const MULTIPLIER: u32 = 0xc6a4_a793;

/// Adds `word` to the state, multiplies, and folds the high bits down.
pub open spec fn mix(state: u32, word: u32, shift: u32) -> u32 {
    let scaled = state.wrapping_add(word).wrapping_mul(MULTIPLIER);
    scaled ^ (scaled >> shift)
}

/// Mixes in `data` word by word; what is left over counts as one short word.
pub open spec fn mix_all(state: u32, data: Seq<u8>) -> u32
    decreases data.len(),
{
    if data.len() == 0 {
        state
    } else if data.len() < 4 {
        mix(state, coding::le_value(data) as u32, 24)
    } else {
        mix_all(mix(state, coding::le_value(data.take(4)) as u32, 16), data.skip(4))
    }
}

/// The hash of `data` under `seed`.
pub open spec fn hash_of(data: Seq<u8>, seed: u32) -> u32 {
    mix_all(seed ^ ((data.len() % coding::two_pow_32()) as u32).wrapping_mul(MULTIPLIER), data)
}

fn mix_word(state: u32, word: u32, shift: u32) -> (mixed: u32)
    requires
        shift < 32,
    ensures
        mixed == mix(state, word, shift),
{
    let scaled: u32 = state.wrapping_add(word).wrapping_mul(MULTIPLIER);
    scaled ^ (scaled >> shift)
}

pub fn hash(data: &[u8], seed: u32) -> (hashed: u32)
    ensures
        hashed == hash_of(data@, seed),
{
    let mut state: u32 = seed ^ coding::low_32_bits(data.len()).wrapping_mul(MULTIPLIER);
    let mut offset: usize = 0;
    assert(data@.skip(0) =~= data@);
    while data.len() - offset >= 4
        invariant
            offset <= data@.len(),
            hash_of(data@, seed) == mix_all(state, data@.skip(offset as int)),
        decreases data@.len() - offset,
    {
        let word = coding::decode_fixed32(&data[offset..data.len()]);
        proof {
            assert(data@.subrange(offset as int, data@.len() as int) =~= data@.skip(offset as int));
            assert(data@.skip(offset as int).skip(4) =~= data@.skip(offset + 4));
        }
        state = mix_word(state, word, 16);
        offset = offset + 4;
    }
    let ghost rest = data@.skip(offset as int);
    proof {
        reveal_with_fuel(coding::le_value, 4);
        if rest.len() > 1 {
            assert(rest.skip(1)[0] == rest[1]);
        }
        if rest.len() > 2 {
            assert(rest.skip(1).skip(1)[0] == rest[2]);
        }
    }
    let left: usize = data.len() - offset;
    if left == 3 {
        let word: u32 = data[offset] as u32 + 0x100 * data[offset + 1] as u32 + 0x1_0000 * data[offset
            + 2] as u32;
        mix_word(state, word, 24)
    } else if left == 2 {
        let word: u32 = data[offset] as u32 + 0x100 * data[offset + 1] as u32;
        mix_word(state, word, 24)
    } else if left == 1 {
        mix_word(state, data[offset] as u32, 24)
    } else {
        state
    }
}

/// Each word of four bytes is added to the state, which is multiplied and folded in the middle.
/// The last bytes, if they are no word, are added as a shorter number, and folded further down.
pub proof fn law_hash_takes_words(state: u32, word: Seq<u8>, rest: Seq<u8>)
    ensures
        word.len() == 4 ==> ({
            let scaled = state.wrapping_add(coding::le_value(word) as u32).wrapping_mul(
                0xc6a4_a793,
            );
            mix_all(state, word + rest) == mix_all(scaled ^ (scaled >> 16u32), rest)
        }),
        0 < word.len() < 4 ==> ({
            let scaled = state.wrapping_add(coding::le_value(word) as u32).wrapping_mul(
                0xc6a4_a793,
            );
            mix_all(state, word) == scaled ^ (scaled >> 24u32)
        }),
        mix_all(state, Seq::empty()) == state,
{
    if word.len() == 4 {
        assert((word + rest).take(4) =~= word);
        assert((word + rest).skip(4) =~= rest);
    }
}

/// To hash whole words and then more bytes is to hash them all.
pub proof fn law_hash_concat(state: u32, first: Seq<u8>, second: Seq<u8>)
    requires
        first.len() % 4 == 0,
    ensures
        mix_all(state, first + second) == mix_all(mix_all(state, first), second),
    decreases first.len(),
{
    if first.len() > 0 {
        let word = first.take(4);
        let more = first.skip(4);
        law_hash_takes_words(state, word, more);
        law_hash_takes_words(state, word, more + second);
        assert(word + more =~= first);
        assert(word + (more + second) =~= first + second);
        let scaled = state.wrapping_add(coding::le_value(word) as u32).wrapping_mul(0xc6a4_a793);
        law_hash_concat(scaled ^ (scaled >> 16u32), more, second);
    } else {
        assert(first + second =~= second);
        assert(first =~= Seq::<u8>::empty());
    }
}

} // verus!
