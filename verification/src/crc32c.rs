//! CRC-32 with the Castagnoli polynomial.
//!
//! Log records and table blocks carry it in masked form. The polynomial and
//! the mask are part of the file formats.

use vstd::prelude::*;

verus! {

/// The Castagnoli polynomial, bits reversed.
pub const POLY: u32 = 0x82f6_3b78;

/// What masking adds after the rotation.
pub const MASK_DELTA: u32 = 0xa282_ead8;

/// One bit of the division by the polynomial.
pub open spec fn shift_bit(register: u32) -> u32 {
    if register & 1 == 1 {
        (register >> 1) ^ POLY
    } else {
        register >> 1
    }
}

/// Eight bits of the division.
pub open spec fn shift_byte(register: u32) -> u32 {
    shift_bit(
        shift_bit(shift_bit(shift_bit(shift_bit(shift_bit(shift_bit(shift_bit(register))))))),
    )
}

/// The register after the bytes of `data` have been fed into it, one by one.
pub open spec fn feed(register: u32, data: Seq<u8>) -> u32
    decreases data.len(),
{
    if data.len() == 0 {
        register
    } else {
        shift_byte(feed(register, data.drop_last()) ^ data.last() as u32)
    }
}

/// The checksum of what `init_crc` is the checksum of, followed by `data`.
pub open spec fn extended(init_crc: u32, data: Seq<u8>) -> u32 {
    feed(init_crc ^ 0xffff_ffff, data) ^ 0xffff_ffff
}

/// The checksum of `data`.
pub open spec fn checksum(data: Seq<u8>) -> u32 {
    extended(0, data)
}

/// Rotation to the right by 15 bits.
pub open spec fn rotate_15(word: u32) -> u32 {
    (word >> 15) | (word << 17)
}

/// Rotation to the right by 17 bits.
pub open spec fn rotate_17(word: u32) -> u32 {
    (word >> 17) | (word << 15)
}

/// A checksum in the form in which it is stored beside the data it covers.
pub open spec fn masked(crc: u32) -> u32 {
    rotate_15(crc).wrapping_add(MASK_DELTA)
}

/// The checksum that a stored form stands for.
pub open spec fn unmasked(masked_crc: u32) -> u32 {
    rotate_17(masked_crc.wrapping_sub(MASK_DELTA))
}

/// Unmasking undoes masking, and masking undoes unmasking.
pub proof fn law_mask_round_trip(crc: u32)
    ensures
        unmasked(masked(crc)) == crc,
        masked(unmasked(crc)) == crc,
{
    let rotated = rotate_15(crc);
    assert(rotated.wrapping_add(MASK_DELTA).wrapping_sub(MASK_DELTA) == rotated);
    assert(rotate_17(rotate_15(crc)) == crc) by (bit_vector);
    let shifted = crc.wrapping_sub(MASK_DELTA);
    assert(rotate_15(rotate_17(shifted)) == shifted) by (bit_vector);
    assert(crc.wrapping_sub(MASK_DELTA).wrapping_add(MASK_DELTA) == crc);
}

proof fn lemma_feed_concat(register: u32, first: Seq<u8>, second: Seq<u8>)
    ensures
        feed(register, first + second) == feed(feed(register, first), second),
    decreases second.len(),
{
    if second.len() == 0 {
        assert(first + second =~= first);
    } else {
        lemma_feed_concat(register, first, second.drop_last());
        assert((first + second).drop_last() =~= first + second.drop_last());
    }
}

/// Extending a checksum piece by piece gives the checksum of the whole.
pub proof fn law_extend_concat(init_crc: u32, first: Seq<u8>, second: Seq<u8>)
    ensures
        extended(extended(init_crc, first), second) == extended(init_crc, first + second),
        extended(init_crc, Seq::empty()) == init_crc,
{
    lemma_feed_concat(init_crc ^ 0xffff_ffff, first, second);
    let register = feed(init_crc ^ 0xffff_ffff, first);
    assert((register ^ 0xffff_ffff) ^ 0xffff_ffff == register) by (bit_vector);
    assert((init_crc ^ 0xffff_ffff) ^ 0xffff_ffff == init_crc) by (bit_vector);
}

/// A step of the division loses nothing of the register.
proof fn lemma_shift_injective(a: u32, b: u32)
    requires
        a != b,
    ensures
        shift_byte(a) != shift_byte(b),
{
    assert(forall|x: u32, y: u32| #[trigger] shift_bit(x) == #[trigger] shift_bit(y) ==> x == y)
        by (bit_vector);
}

/// Registers that differ still do once the same bytes were fed into them.
proof fn lemma_feed_injective(a: u32, b: u32, data: Seq<u8>)
    requires
        a != b,
    ensures
        feed(a, data) != feed(b, data),
    decreases data.len(),
{
    if data.len() > 0 {
        lemma_feed_injective(a, b, data.drop_last());
        let left = feed(a, data.drop_last());
        let right = feed(b, data.drop_last());
        let byte = data.last() as u32;
        assert(left ^ byte == right ^ byte ==> left == right) by (bit_vector);
        lemma_shift_injective(left ^ byte, right ^ byte);
    }
}

/// Checksums that differ still do once they are extended by the same bytes.
pub proof fn law_extension_keeps_apart(a: u32, b: u32, data: Seq<u8>)
    requires
        a != b,
    ensures
        extended(a, data) != extended(b, data),
{
    assert(a ^ 0xffff_ffff == b ^ 0xffff_ffff ==> a == b) by (bit_vector);
    lemma_feed_injective(a ^ 0xffff_ffff, b ^ 0xffff_ffff, data);
    let left = feed(a ^ 0xffff_ffff, data);
    let right = feed(b ^ 0xffff_ffff, data);
    assert(left ^ 0xffff_ffff == right ^ 0xffff_ffff ==> left == right) by (bit_vector);
}

/// A change of one byte changes the checksum.
pub proof fn law_changed_byte_is_noticed(init_crc: u32, data: Seq<u8>, other: Seq<u8>, at: int)
    requires
        data.len() == other.len(),
        0 <= at < data.len(),
        data[at] != other[at],
        forall|i: int| 0 <= i < data.len() && i != at ==> data[i] == other[i],
    ensures
        extended(init_crc, data) != extended(init_crc, other),
{
    let start = init_crc ^ 0xffff_ffff;
    let front = data.take(at);
    let rest = data.skip(at + 1);
    let register = feed(start, front);
    let (x, y) = (data[at] as u32, other[at] as u32);
    assert(other.take(at) =~= front);
    assert(data.take(at + 1).drop_last() =~= front);
    assert(other.take(at + 1).drop_last() =~= front);
    assert(register ^ x == register ^ y ==> x == y) by (bit_vector);
    lemma_shift_injective(register ^ x, register ^ y);
    lemma_feed_injective(feed(start, data.take(at + 1)), feed(start, other.take(at + 1)), rest);
    assert(other.skip(at + 1) =~= rest);
    lemma_feed_concat(start, data.take(at + 1), rest);
    lemma_feed_concat(start, other.take(at + 1), rest);
    assert(data.take(at + 1) + rest =~= data);
    assert(other.take(at + 1) + rest =~= other);
    let left = feed(start, data);
    let right = feed(start, other);
    assert(left ^ 0xffff_ffff == right ^ 0xffff_ffff ==> left == right) by (bit_vector);
}

/// Four bits of the division.
spec fn shift_nibble(register: u32) -> u32 {
    shift_bit(shift_bit(shift_bit(shift_bit(register))))
}

/// The remainders of the sixteen four-bit dividends.
const NIBBLES: [u32; 16] = [
    0x0000_0000,
    0x105e_c76f,
    0x20bd_8ede,
    0x30e3_49b1,
    0x417b_1dbc,
    0x5125_dad3,
    0x61c6_9362,
    0x7198_540d,
    0x82f6_3b78,
    0x92a8_fc17,
    0xa24b_b5a6,
    0xb215_72c9,
    0xc38d_26c4,
    0xd3d3_e1ab,
    0xe330_a81a,
    0xf36e_6f75,
];

/// Divides four bits by one look into the table.
fn step_nibble(register: u32) -> (shifted: u32)
    ensures
        shifted == shift_nibble(register),
{
    let index: u32 = register & 15;
    proof {
        assert(register & 15 < 16) by (bit_vector);
        lemma_nibbles(index);
        assert(shift_nibble(register) == shift_nibble(register & 15) ^ (register >> 4))
            by (bit_vector);
    }
    NIBBLES[index as usize] ^ (register >> 4)
}

proof fn lemma_nibbles(index: u32)
    requires
        index < 16,
    ensures
        NIBBLES@[index as int] == shift_nibble(index),
{
    assert(shift_nibble(0) == 0x0000_0000 && shift_nibble(1) == 0x105e_c76f && shift_nibble(2)
        == 0x20bd_8ede && shift_nibble(3) == 0x30e3_49b1 && shift_nibble(4) == 0x417b_1dbc
        && shift_nibble(5) == 0x5125_dad3 && shift_nibble(6) == 0x61c6_9362 && shift_nibble(7)
        == 0x7198_540d && shift_nibble(8) == 0x82f6_3b78 && shift_nibble(9) == 0x92a8_fc17
        && shift_nibble(10) == 0xa24b_b5a6 && shift_nibble(11) == 0xb215_72c9 && shift_nibble(12)
        == 0xc38d_26c4 && shift_nibble(13) == 0xd3d3_e1ab && shift_nibble(14) == 0xe330_a81a
        && shift_nibble(15) == 0xf36e_6f75) by (bit_vector);
}

pub fn extend(init_crc: u32, data: &[u8]) -> (crc: u32)
    ensures
        crc == extended(init_crc, data@),
{
    let mut register: u32 = init_crc ^ 0xffff_ffff;
    let mut offset: usize = 0;
    assert(data@.take(0) =~= Seq::<u8>::empty());
    while offset < data.len()
        invariant
            offset <= data@.len(),
            register == feed(init_crc ^ 0xffff_ffff, data@.take(offset as int)),
        decreases data@.len() - offset,
    {
        proof {
            assert(data@.take(offset + 1).drop_last() =~= data@.take(offset as int));
        }
        register = step_nibble(step_nibble(register ^ data[offset] as u32));
        offset = offset + 1;
    }
    assert(data@.take(data@.len() as int) =~= data@);
    register ^ 0xffff_ffff
}

pub fn value(data: &[u8]) -> (crc: u32)
    ensures
        crc == checksum(data@),
{
    extend(0, data)
}

pub fn mask(crc: u32) -> (masked_crc: u32)
    ensures
        masked_crc == masked(crc),
{
    let rotated: u32 = (crc >> 15) | (crc << 17);
    rotated.wrapping_add(MASK_DELTA)
}

pub fn unmask(masked_crc: u32) -> (crc: u32)
    ensures
        crc == unmasked(masked_crc),
{
    let rotated: u32 = masked_crc.wrapping_sub(MASK_DELTA);
    (rotated >> 17) | (rotated << 15)
}

} // verus!
