//! Fixed-width and varint primitives for on-disk byte layouts.
//!
//! Decoders take a cursor `input: &mut &[u8]`. On success the cursor moves
//! past the consumed bytes; on failure it stays where it was.

use vstd::prelude::*;

verus! {

/// `value` in `width` bytes, least significant byte first.
pub open spec fn le_bytes(value: nat, width: nat) -> Seq<u8>
    decreases width,
{
    if width == 0 {
        Seq::empty()
    } else {
        seq![(value % 256) as u8] + le_bytes(value / 256, (width - 1) as nat)
    }
}

/// The number whose little-endian bytes are given.
pub open spec fn le_value(bytes: Seq<u8>) -> nat
    decreases bytes.len(),
{
    if bytes.len() == 0 {
        0
    } else {
        bytes[0] as nat + 256 * le_value(bytes.skip(1))
    }
}

/// `value` in groups of seven bits, least significant group first; every byte
/// but the last has its top bit set.
pub open spec fn varint(value: nat) -> Seq<u8>
    decreases value,
{
    if value < 128 {
        seq![value as u8]
    } else {
        seq![(value % 128 + 128) as u8] + varint(value / 128)
    }
}

/// The varint at the front of `bytes`, with the number of bytes it takes.
/// `None` where no byte among the first `max_bytes` ends one.
pub open spec fn read_varint(bytes: Seq<u8>, max_bytes: nat) -> Option<(nat, nat)>
    decreases max_bytes,
{
    if max_bytes == 0 || bytes.len() == 0 {
        None
    } else if bytes[0] < 128 {
        Some((bytes[0] as nat, 1))
    } else {
        match read_varint(bytes.skip(1), (max_bytes - 1) as nat) {
            None => None,
            Some((value, count)) => Some(((bytes[0] - 128) as nat + 128 * value, count + 1)),
        }
    }
}

/// The number of values of 32 bits.
pub open spec fn two_pow_32() -> nat {
    0x1_0000_0000
}

/// The number of values of 64 bits.
pub open spec fn two_pow_64() -> nat {
    0x1_0000_0000_0000_0000
}

/// The most bytes a 32-bit varint takes.
pub const MAX_VARINT32_BYTES: usize = 5;

/// The most bytes a 64-bit varint takes.
pub const MAX_VARINT64_BYTES: usize = 10;

/// The 32-bit varint at the front of `bytes` and its length.
pub open spec fn read_varint32(bytes: Seq<u8>) -> Option<(u32, nat)> {
    match read_varint(bytes, MAX_VARINT32_BYTES as nat) {
        None => None,
        Some((value, count)) => Some(((value % two_pow_32()) as u32, count)),
    }
}

/// The 64-bit varint at the front of `bytes` and its length.
pub open spec fn read_varint64(bytes: Seq<u8>) -> Option<(u64, nat)> {
    match read_varint(bytes, MAX_VARINT64_BYTES as nat) {
        None => None,
        Some((value, count)) => Some(((value % two_pow_64()) as u64, count)),
    }
}

/// A varint length followed by that many bytes. The length is held in 32 bits.
pub open spec fn length_prefixed(bytes: Seq<u8>) -> Seq<u8> {
    varint(bytes.len() % two_pow_32()) + bytes
}

/// The length-prefixed bytes at the front of `bytes`, with the number of bytes
/// they take together with their prefix.
pub open spec fn read_length_prefixed(bytes: Seq<u8>) -> Option<(Seq<u8>, nat)> {
    match read_varint32(bytes) {
        None => None,
        Some((length, count)) => if bytes.len() < count + length {
            None
        } else {
            Some((bytes.subrange(count as int, count + length), (count + length) as nat))
        },
    }
}

// ---------------------------------------------------------------------------
// Laws
// ---------------------------------------------------------------------------

/// A fixed-width encoding has its width.
pub proof fn lemma_le_bytes_len(value: nat, width: nat)
    ensures
        le_bytes(value, width).len() == width,
    decreases width,
{
    if width > 0 {
        lemma_le_bytes_len(value / 256, (width - 1) as nat);
    }
}

/// 256 to the given power.
pub open spec fn pow256(width: nat) -> nat
    decreases width,
{
    if width == 0 {
        1
    } else {
        256 * pow256((width - 1) as nat)
    }
}

/// Reading a fixed-width encoding gives back what was written, for every value
/// that fits in the width.
pub proof fn law_fixed_round_trip(value: nat, width: nat)
    requires
        value < pow256(width),
    ensures
        le_value(le_bytes(value, width)) == value,
    decreases width,
{
    if width > 0 {
        let rest = le_bytes(value / 256, (width - 1) as nat);
        law_fixed_round_trip(value / 256, (width - 1) as nat);
        assert(le_bytes(value, width).skip(1) =~= rest);
    }
}

/// Writing what a fixed-width read gave gives back the bytes.
pub proof fn law_fixed_read_write(bytes: Seq<u8>)
    ensures
        le_bytes(le_value(bytes), bytes.len()) == bytes,
        le_value(bytes) < pow256(bytes.len()),
    decreases bytes.len(),
{
    if bytes.len() > 0 {
        let rest = bytes.skip(1);
        law_fixed_read_write(rest);
        assert(le_value(bytes) % 256 == bytes[0]);
        assert(le_value(bytes) / 256 == le_value(rest));
        assert(le_bytes(le_value(bytes), bytes.len()) =~= bytes);
    } else {
        assert(le_bytes(0, 0) =~= bytes);
    }
}

/// The powers of 256 that the fixed widths rest on.
pub proof fn lemma_pow256_values()
    ensures
        pow256(1) == 0x100,
        pow256(2) == 0x1_0000,
        pow256(4) == 0x1_0000_0000,
        pow256(8) == 0x1_0000_0000_0000_0000,
{
    reveal_with_fuel(pow256, 9);
}

/// A varint has at least one byte, and no more than the groups of seven bits
/// that its value needs.
pub proof fn lemma_varint_len(value: nat)
    ensures
        varint(value).len() >= 1,
        value < 128 ==> varint(value).len() == 1,
        value < two_pow_32() ==> varint(value).len() <= MAX_VARINT32_BYTES,
        value < two_pow_64() ==> varint(value).len() <= MAX_VARINT64_BYTES,
{
    reveal_with_fuel(varint, 11);
    lemma_varint_nonempty(value);
}

proof fn lemma_varint_nonempty(value: nat)
    ensures
        varint(value).len() >= 1,
    decreases value,
{
    if value >= 128 {
        lemma_varint_nonempty(value / 128);
    }
}

/// Reading a varint gives back what was written, whatever follows it.
pub proof fn law_varint_round_trip(value: nat, rest: Seq<u8>, max_bytes: nat)
    requires
        varint(value).len() <= max_bytes,
    ensures
        read_varint(varint(value) + rest, max_bytes) == Some((value, varint(value).len())),
    decreases value,
{
    let bytes = varint(value) + rest;
    if value >= 128 {
        let tail = varint(value / 128);
        law_varint_round_trip(value / 128, rest, (max_bytes - 1) as nat);
        assert(bytes.skip(1) =~= tail + rest);
    }
}

/// A 32-bit varint read gives back the 32-bit value that was written.
pub proof fn law_varint32_round_trip(value: u32, rest: Seq<u8>)
    ensures
        read_varint32(varint(value as nat) + rest) == Some((value, varint(value as nat).len())),
{
    lemma_varint_len(value as nat);
    law_varint_round_trip(value as nat, rest, MAX_VARINT32_BYTES as nat);
}

/// A 64-bit varint read gives back the 64-bit value that was written.
pub proof fn law_varint64_round_trip(value: u64, rest: Seq<u8>)
    ensures
        read_varint64(varint(value as nat) + rest) == Some((value, varint(value as nat).len())),
{
    lemma_varint_len(value as nat);
    law_varint_round_trip(value as nat, rest, MAX_VARINT64_BYTES as nat);
}

/// A varint that was read lies within the bytes it was read from, and takes at
/// least one byte.
pub proof fn lemma_read_varint_bounds(bytes: Seq<u8>, max_bytes: nat)
    ensures
        read_varint(bytes, max_bytes) matches Some((value, count)) ==> 1 <= count <= bytes.len()
            && count <= max_bytes,
    decreases max_bytes,
{
    if max_bytes > 0 && bytes.len() > 0 && bytes[0] >= 128 {
        lemma_read_varint_bounds(bytes.skip(1), (max_bytes - 1) as nat);
    }
}

/// Reading length-prefixed bytes gives back what was written, whatever follows,
/// for every byte string whose length fits in 32 bits.
pub proof fn law_length_prefixed_round_trip(bytes: Seq<u8>, rest: Seq<u8>)
    requires
        bytes.len() < two_pow_32(),
    ensures
        read_length_prefixed(length_prefixed(bytes) + rest) == Some(
            (bytes, length_prefixed(bytes).len()),
        ),
{
    let head = varint(bytes.len());
    assert(length_prefixed(bytes) + rest =~= head + (bytes + rest));
    law_varint32_round_trip(bytes.len() as u32, bytes + rest);
    assert((length_prefixed(bytes) + rest).subrange(
        head.len() as int,
        (head.len() + bytes.len()) as int,
    ) =~= bytes);
}

// ---------------------------------------------------------------------------
// Fixed width
// ---------------------------------------------------------------------------

/// The low 32 bits of a length.
pub fn low_32_bits(length: usize) -> (low: u32)
    ensures
        low == (length as nat) % two_pow_32(),
{
    let low: u32 = (length as u64 % 0x1_0000_0000) as u32;
    low
}

/// Appends the low `width` bytes of `value`, least significant byte first.
fn put_fixed(dst: &mut Vec<u8>, value: u64, width: usize)
    ensures
        final(dst)@ == old(dst)@ + le_bytes(value as nat, width as nat),
{
    let ghost before = dst@;
    let mut left: u64 = value;
    let mut written: usize = 0;
    assert(before + le_bytes(value as nat, width as nat) == dst@ + le_bytes(left as nat, width as nat));
    while written < width
        invariant
            written <= width,
            before + le_bytes(value as nat, width as nat) == dst@ + le_bytes(
                left as nat,
                (width - written) as nat,
            ),
        decreases width - written,
    {
        let ghost so_far = dst@;
        let ghost byte = (left % 256) as u8;
        dst.push((left % 256) as u8);
        proof {
            let tail = le_bytes((left / 256) as nat, (width - written - 1) as nat);
            assert(so_far + (seq![byte] + tail) =~= so_far.push(byte) + tail);
        }
        left = left / 256;
        written = written + 1;
    }
    assert(dst@ + Seq::<u8>::empty() =~= dst@);
}

pub fn put_fixed16(dst: &mut Vec<u8>, value: u16)
    ensures
        final(dst)@ == old(dst)@ + le_bytes(value as nat, 2),
{
    put_fixed(dst, value as u64, 2);
}

pub fn put_fixed32(dst: &mut Vec<u8>, value: u32)
    ensures
        final(dst)@ == old(dst)@ + le_bytes(value as nat, 4),
{
    put_fixed(dst, value as u64, 4);
}

pub fn put_fixed64(dst: &mut Vec<u8>, value: u64)
    ensures
        final(dst)@ == old(dst)@ + le_bytes(value as nat, 8),
{
    put_fixed(dst, value, 8);
}

/// Writes `value` over the first eight bytes of `dst`.
pub fn encode_fixed64(dst: &mut [u8], value: u64)
    requires
        old(dst)@.len() >= 8,
    ensures
        final(dst)@ == le_bytes(value as nat, 8) + old(dst)@.skip(8),
{
    let ghost code = le_bytes(value as nat, 8);
    let mut left: u64 = value;
    let mut offset: usize = 0;
    proof {
        lemma_le_bytes_len(value as nat, 8);
        assert(code.skip(0) =~= code);
        assert(dst@ =~= code.take(0) + old(dst)@.skip(0));
    }
    while offset < 8
        invariant
            offset <= 8,
            code.len() == 8,
            dst@.len() == old(dst)@.len(),
            dst@.len() >= 8,
            code.skip(offset as int) == le_bytes(left as nat, (8 - offset) as nat),
            dst@ == code.take(offset as int) + old(dst)@.skip(offset as int),
        decreases 8 - offset,
    {
        proof {
            let tail = le_bytes((left / 256) as nat, (8 - offset - 1) as nat);
            assert(code.skip(offset as int)[0] == code[offset as int]);
            assert(code.skip(offset + 1) =~= code.skip(offset as int).skip(1));
            assert((seq![(left % 256) as u8] + tail).skip(1) =~= tail);
        }
        dst[offset] = (left % 256) as u8;
        left = left / 256;
        offset = offset + 1;
        assert(dst@ =~= code.take(offset as int) + old(dst)@.skip(offset as int));
    }
    assert(code.take(8) =~= code);
}

pub fn decode_fixed16(src: &[u8]) -> (value: u16)
    requires
        src@.len() >= 2,
    ensures
        value == le_value(src@.take(2)),
{
    proof {
        lemma_le_value_2(src@.take(2));
    }
    src[0] as u16 + 256 * src[1] as u16
}

pub fn decode_fixed32(src: &[u8]) -> (value: u32)
    requires
        src@.len() >= 4,
    ensures
        value == le_value(src@.take(4)),
{
    proof {
        lemma_le_value_4(src@.take(4));
    }
    src[0] as u32 + 0x100 * src[1] as u32 + 0x1_0000 * src[2] as u32 + 0x100_0000 * src[3] as u32
}

pub fn decode_fixed64(src: &[u8]) -> (value: u64)
    requires
        src@.len() >= 8,
    ensures
        value == le_value(src@.take(8)),
{
    let low = decode_fixed32(src);
    let high = decode_fixed32(&src[4..src.len()]);
    proof {
        let bytes = src@.take(8);
        assert(src@.take(4) =~= bytes.take(4));
        assert(src@.subrange(4, src@.len() as int).take(4) =~= bytes.skip(4));
        lemma_le_value_split(bytes);
    }
    low as u64 + 0x1_0000_0000 * high as u64
}

proof fn lemma_le_value_2(bytes: Seq<u8>)
    requires
        bytes.len() == 2,
    ensures
        le_value(bytes) == bytes[0] + 256 * bytes[1],
{
    reveal_with_fuel(le_value, 3);
    assert(bytes.skip(1)[0] == bytes[1]);
}

proof fn lemma_le_value_4(bytes: Seq<u8>)
    requires
        bytes.len() == 4,
    ensures
        le_value(bytes) == bytes[0] + 0x100 * bytes[1] + 0x1_0000 * bytes[2] + 0x100_0000
            * bytes[3],
{
    reveal_with_fuel(le_value, 5);
    assert(bytes.skip(1)[0] == bytes[1]);
    assert(bytes.skip(1).skip(1)[0] == bytes[2]);
    assert(bytes.skip(1).skip(1).skip(1)[0] == bytes[3]);
}

proof fn lemma_le_value_split(bytes: Seq<u8>)
    requires
        bytes.len() == 8,
    ensures
        le_value(bytes) == le_value(bytes.take(4)) + 0x1_0000_0000 * le_value(bytes.skip(4)),
{
    lemma_le_value_4(bytes.take(4));
    let b1 = bytes.skip(1);
    let b2 = b1.skip(1);
    let b3 = b2.skip(1);
    let b4 = b3.skip(1);
    assert(b4 =~= bytes.skip(4));
    assert(le_value(b3) == bytes[3] + 256 * le_value(b4));
    assert(le_value(b2) == bytes[2] + 256 * le_value(b3));
    assert(le_value(b1) == bytes[1] + 256 * le_value(b2));
}

// ---------------------------------------------------------------------------
// Cursor reads of fixed width
// ---------------------------------------------------------------------------

pub fn get_u8(input: &mut &[u8]) -> (value: Option<u8>)
    ensures
        old(input)@.len() == 0 ==> value is None && final(input)@ == old(input)@,
        old(input)@.len() > 0 ==> value == Some(old(input)@[0]) && final(input)@
            == old(input)@.skip(1),
{
    let bytes: &[u8] = *input;
    if bytes.len() == 0 {
        return None;
    }
    *input = &bytes[1..bytes.len()];
    Some(bytes[0])
}

pub fn get_fixed16(input: &mut &[u8]) -> (value: Option<u16>)
    ensures
        old(input)@.len() < 2 ==> value is None && final(input)@ == old(input)@,
        old(input)@.len() >= 2 ==> value == Some(le_value(old(input)@.take(2)) as u16)
            && final(input)@ == old(input)@.skip(2),
{
    let bytes: &[u8] = *input;
    if bytes.len() < 2 {
        return None;
    }
    let value = decode_fixed16(bytes);
    *input = &bytes[2..bytes.len()];
    Some(value)
}

pub fn get_fixed32(input: &mut &[u8]) -> (value: Option<u32>)
    ensures
        old(input)@.len() < 4 ==> value is None && final(input)@ == old(input)@,
        old(input)@.len() >= 4 ==> value == Some(le_value(old(input)@.take(4)) as u32)
            && final(input)@ == old(input)@.skip(4),
{
    let bytes: &[u8] = *input;
    if bytes.len() < 4 {
        return None;
    }
    let value = decode_fixed32(bytes);
    *input = &bytes[4..bytes.len()];
    Some(value)
}

pub fn get_fixed64(input: &mut &[u8]) -> (value: Option<u64>)
    ensures
        old(input)@.len() < 8 ==> value is None && final(input)@ == old(input)@,
        old(input)@.len() >= 8 ==> value == Some(le_value(old(input)@.take(8)) as u64)
            && final(input)@ == old(input)@.skip(8),
{
    let bytes: &[u8] = *input;
    if bytes.len() < 8 {
        return None;
    }
    let value = decode_fixed64(bytes);
    *input = &bytes[8..bytes.len()];
    Some(value)
}

// ---------------------------------------------------------------------------
// Varints
// ---------------------------------------------------------------------------

pub fn put_varint32(dst: &mut Vec<u8>, value: u32)
    ensures
        final(dst)@ == old(dst)@ + varint(value as nat),
{
    put_varint64(dst, value as u64);
}

pub fn put_varint64(dst: &mut Vec<u8>, value: u64)
    ensures
        final(dst)@ == old(dst)@ + varint(value as nat),
{
    let ghost before = dst@;
    let mut left: u64 = value;
    while left >= 128
        invariant
            before + varint(value as nat) == dst@ + varint(left as nat),
        decreases left,
    {
        let ghost written = dst@;
        let ghost group = (left % 128 + 128) as u8;
        dst.push((left % 128 + 128) as u8);
        proof {
            assert(written + varint(left as nat) =~= written.push(group) + varint(
                (left / 128) as nat,
            ));
        }
        left = left / 128;
    }
    dst.push(left as u8);
    assert(dst@ =~= before + varint(value as nat));
}

pub fn encode_varint32(dst: &mut [u8], value: u32) -> (count: usize)
    requires
        old(dst)@.len() >= varint(value as nat).len(),
    ensures
        count == varint(value as nat).len(),
        final(dst)@ == varint(value as nat) + old(dst)@.skip(count as int),
{
    encode_varint64(dst, value as u64)
}

/// Writes a varint over the front of `dst` and says how many bytes it took.
pub fn encode_varint64(dst: &mut [u8], value: u64) -> (count: usize)
    requires
        old(dst)@.len() >= varint(value as nat).len(),
    ensures
        count == varint(value as nat).len(),
        final(dst)@ == varint(value as nat) + old(dst)@.skip(count as int),
{
    let ghost code = varint(value as nat);
    let mut left: u64 = value;
    let mut offset: usize = 0;
    while left >= 128
        invariant
            code == varint(value as nat),
            code.len() <= dst@.len(),
            dst@.len() == old(dst)@.len(),
            offset + varint(left as nat).len() == code.len(),
            code.skip(offset as int) == varint(left as nat),
            dst@ == code.take(offset as int) + old(dst)@.skip(offset as int),
        decreases left,
    {
        proof {
            lemma_varint_nonempty((left / 128) as nat);
            assert(code.skip(offset as int)[0] == code[offset as int]);
            assert(code.skip(offset + 1) =~= code.skip(offset as int).skip(1));
            assert(varint(left as nat).skip(1) =~= varint((left / 128) as nat));
        }
        dst[offset] = (left % 128 + 128) as u8;
        left = left / 128;
        offset = offset + 1;
        assert(dst@ =~= code.take(offset as int) + old(dst)@.skip(offset as int));
    }
    proof {
        assert(code.skip(offset as int)[0] == code[offset as int]);
    }
    dst[offset] = left as u8;
    assert(dst@ =~= code + old(dst)@.skip(offset + 1));
    offset + 1
}

/// What a varint read comes to once `read` bytes have given `result`, where the
/// next group counts `scale` times.
spec fn resumed(result: nat, scale: nat, read: nat, rest: Option<(nat, nat)>) -> Option<(nat, nat)> {
    match rest {
        None => None,
        Some((value, count)) => Some((result + scale * value, read + count)),
    }
}

proof fn lemma_resume_step(result: nat, scale: nat, read: nat, bytes: Seq<u8>, max_bytes: nat)
    requires
        max_bytes > 0,
        bytes.len() > 0,
        bytes[0] >= 128,
    ensures
        resumed(result, scale, read, read_varint(bytes, max_bytes)) == resumed(
            (result + scale * (bytes[0] - 128)) as nat,
            scale * 128,
            read + 1,
            read_varint(bytes.skip(1), (max_bytes - 1) as nat),
        ),
{
    let group = (bytes[0] - 128) as nat;
    assert(scale * group >= 0) by (nonlinear_arith);
    match read_varint(bytes.skip(1), (max_bytes - 1) as nat) {
        None => {},
        Some((value, count)) => {
            assert(scale * (group + 128 * value) == scale * group + (scale * 128) * value)
                by (nonlinear_arith);
        },
    }
}

pub fn get_varint32(input: &mut &[u8]) -> (value: Option<u32>)
    ensures
        match read_varint32(old(input)@) {
            None => value is None && final(input)@ == old(input)@,
            Some((number, count)) => value == Some(number) && final(input)@ == old(input)@.skip(
                count as int,
            ),
        },
{
    match read_groups(*input, MAX_VARINT32_BYTES) {
        None => None,
        Some((value, count)) => {
            proof {
                lemma_read_varint_bounds(input@, MAX_VARINT32_BYTES as nat);
            }
            let bytes: &[u8] = *input;
            *input = &bytes[count..bytes.len()];
            Some((value % 0x1_0000_0000) as u32)
        },
    }
}

pub fn get_varint64(input: &mut &[u8]) -> (value: Option<u64>)
    ensures
        match read_varint64(old(input)@) {
            None => value is None && final(input)@ == old(input)@,
            Some((number, count)) => value == Some(number) && final(input)@ == old(input)@.skip(
                count as int,
            ),
        },
{
    match read_groups(*input, MAX_VARINT64_BYTES) {
        None => None,
        Some((value, count)) => {
            proof {
                lemma_read_varint_bounds(input@, MAX_VARINT64_BYTES as nat);
            }
            let bytes: &[u8] = *input;
            *input = &bytes[count..bytes.len()];
            Some((value % 0x1_0000_0000_0000_0000) as u64)
        },
    }
}

/// Reads seven-bit groups up to the byte that ends them.
fn read_groups(bytes: &[u8], max_bytes: usize) -> (groups: Option<(u128, usize)>)
    requires
        max_bytes <= MAX_VARINT64_BYTES,
    ensures
        match read_varint(bytes@, max_bytes as nat) {
            None => groups is None,
            Some((value, count)) => groups matches Some((v, c)) && v == value && c == count,
        },
{
    let mut result: u128 = 0;
    let mut scale: u128 = 1;
    let mut offset: usize = 0;
    proof {
        assert(bytes@.skip(0) =~= bytes@);
    }
    while offset < max_bytes && offset < bytes.len()
        invariant
            max_bytes <= 10,
            offset <= max_bytes,
            offset <= bytes@.len(),
            result < scale,
            1 <= scale,
            scale <= scale_of(offset as nat),
            read_varint(bytes@, max_bytes as nat) == resumed(
                result as nat,
                scale as nat,
                offset as nat,
                read_varint(bytes@.skip(offset as int), (max_bytes - offset) as nat),
            ),
        decreases max_bytes - offset,
    {
        let byte = bytes[offset];
        proof {
            lemma_scale_bound(offset as nat);
            assert(bytes@.skip(offset as int)[0] == byte);
            assert(scale * (byte as int) <= scale * 255) by (nonlinear_arith)
                requires
                    byte <= 255,
                    scale >= 0,
            ;
            assert(scale * (byte as int) >= 0) by (nonlinear_arith)
                requires
                    scale >= 0,
                    byte >= 0,
            ;
        }
        if byte < 128 {
            return Some((result + scale * byte as u128, offset + 1));
        }
        proof {
            lemma_resume_step(
                result as nat,
                scale as nat,
                offset as nat,
                bytes@.skip(offset as int),
                (max_bytes - offset) as nat,
            );
            assert(bytes@.skip(offset as int).skip(1) =~= bytes@.skip(offset + 1));
            assert(scale * (byte - 128) <= scale * 127) by (nonlinear_arith)
                requires
                    128 <= byte <= 255,
                    scale >= 0,
            ;
            assert(scale * (byte - 128) >= 0) by (nonlinear_arith)
                requires
                    128 <= byte,
                    scale >= 0,
            ;
        }
        result = result + scale * (byte - 128) as u128;
        scale = scale * 128;
        offset = offset + 1;
    }
    None
}

/// 128 to the given power.
spec fn scale_of(groups: nat) -> nat
    decreases groups,
{
    if groups == 0 {
        1
    } else {
        128 * scale_of((groups - 1) as nat)
    }
}

proof fn lemma_scale_bound(groups: nat)
    requires
        groups < 10,
    ensures
        scale_of(groups) * 256 <= 0x1_0000_0000_0000_0000_0000_0000,
        scale_of(groups + 1) == scale_of(groups) * 128,
{
    reveal_with_fuel(scale_of, 11);
}

/// The number of bytes that the varint of `value` takes.
pub fn varint_length(value: u64) -> (count: usize)
    ensures
        count == varint(value as nat).len(),
{
    let mut left: u64 = value;
    let mut count: usize = 1;
    proof {
        lemma_varint_len(value as nat);
    }
    while left >= 128
        invariant
            varint(value as nat).len() <= 10,
            count - 1 + varint(left as nat).len() == varint(value as nat).len(),
        decreases left,
    {
        proof {
            lemma_varint_nonempty((left / 128) as nat);
        }
        left = left / 128;
        count = count + 1;
    }
    count
}

// ---------------------------------------------------------------------------
// Length-prefixed bytes
// ---------------------------------------------------------------------------

pub fn put_length_prefixed_slice(dst: &mut Vec<u8>, value: &[u8])
    ensures
        final(dst)@ == old(dst)@ + length_prefixed(value@),
{
    put_varint32(dst, low_32_bits(value.len()));
    dst.extend_from_slice(value);
    assert(dst@ =~= old(dst)@ + length_prefixed(value@));
}

pub fn get_length_prefixed_slice<'a>(input: &mut &'a [u8]) -> (value: Option<&'a [u8]>)
    ensures
        match read_length_prefixed(old(input)@) {
            None => value is None && final(input)@ == old(input)@,
            Some((bytes, count)) => value matches Some(v) && v@ == bytes && final(input)@
                == old(input)@.skip(count as int),
        },
{
    let mut cursor: &'a [u8] = *input;
    let length = match get_varint32(&mut cursor) {
        None => {
            return None;
        },
        Some(length) => length as usize,
    };
    proof {
        lemma_read_varint_bounds(input@, MAX_VARINT32_BYTES as nat);
    }
    if cursor.len() < length {
        return None;
    }
    let ghost count = (read_varint32(input@)->0).1;
    let (value, rest) = cursor.split_at(length);
    assert(value@ =~= input@.subrange(count as int, count + length));
    assert(rest@ =~= input@.skip((count + length) as int));
    *input = rest;
    Some(value)
}

} // verus!
