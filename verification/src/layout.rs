//! How numbers, keys, batches, logs and tables lie in bytes.

use vstd::prelude::*;

use crate::block::block_entry;
use crate::block::BlockHandle;
use crate::coding;
use crate::crc32c;
use crate::format::ValueType;
use crate::log;
use crate::table::stored_block;
use crate::table::table_footer::TableFooter;
use crate::write_batch;
use crate::write_batch::Change;

verus! {

/// A number of fixed width has its lowest byte first.
pub proof fn law_fixed_layout(value: nat)
    ensures
        coding::le_bytes(value, 2) == seq![(value % 256) as u8, (value / 256 % 256) as u8],
        coding::le_bytes(value, 4) == seq![
            (value % 256) as u8,
            (value / 256 % 256) as u8,
            (value / 256 / 256 % 256) as u8,
            (value / 256 / 256 / 256 % 256) as u8,
        ],
        coding::le_bytes(value, 8) == seq![
            (value % 256) as u8,
            (value / 256 % 256) as u8,
            (value / 256 / 256 % 256) as u8,
            (value / 256 / 256 / 256 % 256) as u8,
            (value / 256 / 256 / 256 / 256 % 256) as u8,
            (value / 256 / 256 / 256 / 256 / 256 % 256) as u8,
            (value / 256 / 256 / 256 / 256 / 256 / 256 % 256) as u8,
            (value / 256 / 256 / 256 / 256 / 256 / 256 / 256 % 256) as u8,
        ],
{
    reveal_with_fuel(coding::le_bytes, 9);
    assert(coding::le_bytes(value, 2) =~= seq![(value % 256) as u8, (value / 256 % 256) as u8]);
    assert(coding::le_bytes(value, 4) =~= seq![
        (value % 256) as u8,
        (value / 256 % 256) as u8,
        (value / 256 / 256 % 256) as u8,
        (value / 256 / 256 / 256 % 256) as u8,
    ]);
    assert(coding::le_bytes(value, 8) =~= seq![
        (value % 256) as u8,
        (value / 256 % 256) as u8,
        (value / 256 / 256 % 256) as u8,
        (value / 256 / 256 / 256 % 256) as u8,
        (value / 256 / 256 / 256 / 256 % 256) as u8,
        (value / 256 / 256 / 256 / 256 / 256 % 256) as u8,
        (value / 256 / 256 / 256 / 256 / 256 / 256 % 256) as u8,
        (value / 256 / 256 / 256 / 256 / 256 / 256 / 256 % 256) as u8,
    ]);
}

/// A number of variable width has seven bits in each byte, the lowest first. The top bit tells
/// that more bytes follow.
pub proof fn law_varint_layout(value: nat)
    ensures
        coding::varint(value).len() >= 1,
        coding::varint(value)[0] % 128 == value % 128,
        coding::varint(value)[0] < 128 <==> value < 128,
        value < 128 ==> coding::varint(value).len() == 1,
        value >= 128 ==> coding::varint(value).skip(1) == coding::varint(value / 128),
{
    if value >= 128 {
        assert(coding::varint(value).skip(1) =~= coding::varint(value / 128));
    }
}

/// An internal key is the user key, and in eight bytes the sequence number and the type: one for
/// a value, zero for a deletion.
pub proof fn law_internal_key_layout(user_key: Seq<u8>, sequence: nat)
    ensures
        crate::format::internal_key_bytes(user_key, sequence, ValueType::Value) == user_key
            + coding::le_bytes(sequence * 256 + 1, 8),
        crate::format::internal_key_bytes(user_key, sequence, ValueType::Deletion) == user_key
            + coding::le_bytes(sequence * 256, 8),
{
}

/// A batch is the sequence number in eight bytes, the number of updates in four, and the updates
/// behind each other: for each a byte that tells what it does, the key, and the value if one
/// is put, each with its length in front.
pub proof fn law_batch_layout(
    sequence: u64,
    count: u32,
    key: Seq<u8>,
    value: Seq<u8>,
    rest: Seq<Change>,
)
    requires
        key.len() < 0x1_0000_0000,
        value.len() < 0x1_0000_0000,
    ensures
        write_batch::batch_bytes(sequence, count, Seq::empty()) == coding::le_bytes(
            sequence as nat,
            8,
        ) + coding::le_bytes(count as nat, 4),
        write_batch::body_bytes(seq![Change::Put { key, value }] + rest) == seq![1u8]
            + coding::varint(key.len()) + key + coding::varint(value.len()) + value
            + write_batch::body_bytes(rest),
        write_batch::body_bytes(seq![Change::Delete { key }] + rest) == seq![0u8] + coding::varint(
            key.len(),
        ) + key + write_batch::body_bytes(rest),
{
    let put = seq![Change::Put { key, value }] + rest;
    let delete = seq![Change::Delete { key }] + rest;
    assert(put.skip(1) =~= rest);
    assert(delete.skip(1) =~= rest);
    assert(write_batch::body_bytes(put) =~= seq![1u8] + coding::varint(key.len()) + key
        + coding::varint(value.len()) + value + write_batch::body_bytes(rest));
    assert(write_batch::body_bytes(delete) =~= seq![0u8] + coding::varint(key.len()) + key
        + write_batch::body_bytes(rest));
    assert(write_batch::batch_bytes(sequence, count, Seq::empty()) =~= coding::le_bytes(
        sequence as nat,
        8,
    ) + coding::le_bytes(count as nat, 4));
}

/// A checksum is stored turned by fifteen bits to the right, with a number added around the
/// 32-bit numbers.
pub proof fn law_stored_checksum(crc: u32)
    ensures
        crc32c::masked(crc) == (((crc >> 15u32) | (crc << 17u32)) + 0xa282_ead8)
            % 0x1_0000_0000,
{
    let turned = (crc >> 15u32) | (crc << 17u32);
    let sum = turned + 0xa282_ead8;
    if sum >= 0x1_0000_0000 {
        vstd::arithmetic::div_mod::lemma_fundamental_div_mod_converse(
            sum,
            0x1_0000_0000,
            1,
            sum - 0x1_0000_0000,
        );
    } else {
        vstd::arithmetic::div_mod::lemma_small_mod(sum as nat, 0x1_0000_0000);
    }
}

/// A fragment of a log has in front its checksum in four bytes, its length in two, and its kind.
/// The checksum covers the kind and the bytes of the fragment.
pub proof fn law_fragment_layout(kind: u8, payload: Seq<u8>)
    requires
        payload.len() <= 0xffff,
    ensures
        log::fragment(kind, payload) == coding::le_bytes(
            crc32c::masked(crc32c::checksum(seq![kind] + payload)) as nat,
            4,
        ) + coding::le_bytes(payload.len(), 2) + seq![kind] + payload,
{
    crc32c::law_extend_concat(0, seq![kind], payload);
    assert(log::fragment(kind, payload) =~= coding::le_bytes(
        crc32c::masked(crc32c::checksum(seq![kind] + payload)) as nat,
        4,
    ) + coding::le_bytes(payload.len(), 2) + seq![kind] + payload);
}

/// A record that fits in the rest of a block of a log is one fragment of the first kind.
pub proof fn law_small_record_layout(offset: int, data: Seq<u8>)
    requires
        0 <= offset,
        offset + 7 + data.len() <= 32768,
    ensures
        log::framed(offset, data, true) == log::fragment(1, data),
        log::offset_after(offset, data.len() as int) == offset + 7 + data.len(),
{
    assert(data.take(data.len() as int) =~= data);
    assert(log::padding(offset) + log::fragment(1, data) =~= log::fragment(1, data));
}

/// A record that does not fit in the rest of a block is cut: the block is filled, and the rest
/// goes on in the next one. Where not even a header fits, the block is filled up with zeros.
pub proof fn law_large_record_layout(offset: int, data: Seq<u8>)
    requires
        0 <= offset <= 32768,
        offset + 7 + data.len() > 32768,
    ensures
        offset + 7 <= 32768 ==> log::framed(offset, data, true) == log::fragment(
            2,
            data.take(32768 - 7 - offset),
        ) + log::framed(32768, data.skip(32768 - 7 - offset), false),
        offset + 7 > 32768 ==> log::framed(offset, data, true) == log::zero_bytes(32768 - offset)
            + log::framed(0, data, true),
{
    if offset + 7 <= 32768 {
        let taken = 32768 - 7 - offset;
        assert(log::padding(offset) + log::fragment(2, data.take(taken)) =~= log::fragment(
            2,
            data.take(taken),
        ));
    } else {
        let taken = log::fragment_len(0, data.len() as int);
        assert(log::fragment_len(offset, data.len() as int) == taken);
        let kind = log::fragment_kind(true, taken == data.len());
        let piece = log::fragment(kind, data.take(taken));
        assert(log::padding(0) + piece =~= piece);
        if taken == data.len() {
            assert(log::framed(offset, data, true) =~= log::zero_bytes(32768 - offset)
                + log::framed(0, data, true));
        } else {
            assert(log::framed(offset, data, true) =~= log::zero_bytes(32768 - offset)
                + log::framed(0, data, true));
        }
    }
}

/// A handle is the offset and the size of a block.
pub proof fn law_handle_layout(handle: BlockHandle)
    ensures
        handle.encoded() == coding::varint(handle.offset as nat) + coding::varint(
            handle.size as nat,
        ),
{
}

/// A stored block has behind it the byte that tells how it is stored, and in four bytes the
/// checksum of the block and of that byte.
pub proof fn law_stored_block_layout(kind: u8, body: Seq<u8>)
    ensures
        stored_block::with_trailer(kind, body) == body + seq![kind] + coding::le_bytes(
            crc32c::masked(crc32c::checksum(body + seq![kind])) as nat,
            4,
        ),
{
    crc32c::law_extend_concat(0, body, seq![kind]);
    assert(stored_block::with_trailer(kind, body) =~= body + seq![kind] + coding::le_bytes(
        crc32c::masked(crc32c::checksum(body + seq![kind])) as nat,
        4,
    ));
}

/// An entry of a block is the length of the key that it shares with the one before, that of the
/// rest of the key, that of the value, then the rest of the key and the value.
pub proof fn law_entry_layout(
    shared: nat,
    unshared: nat,
    value_len: nat,
    delta: Seq<u8>,
    value: Seq<u8>,
)
    ensures
        block_entry::entry_bytes(shared, unshared, value_len, delta, value) == coding::varint(
            shared,
        ) + coding::varint(unshared) + coding::varint(value_len) + delta + value,
{
}

/// A table ends with 48 bytes: the handles of the metaindex block and of the index block, zeros,
/// and the eight bytes by which a table is known.
pub proof fn law_footer_layout(footer: TableFooter)
    ensures
        footer.encoded().len() == 48,
        (footer.metaindex.encoded() + footer.index.encoded()).is_prefix_of(footer.encoded()),
        footer.encoded().skip(40) == seq![
            0x57u8,
            0xfbu8,
            0x80u8,
            0x8bu8,
            0x24u8,
            0x75u8,
            0x47u8,
            0xdbu8,
        ],
{
    let handles = footer.metaindex.encoded() + footer.index.encoded();
    crate::block::block_handle::law_handle_round_trip(footer.metaindex, Seq::empty());
    crate::block::block_handle::law_handle_round_trip(footer.index, Seq::empty());
    crate::table::table_footer::law_footer_round_trip(footer);
    law_fixed_layout(TableFooter::MAGIC as nat);
    assert(footer.encoded().take(handles.len() as int) =~= handles);
    assert(footer.encoded().skip(40) =~= coding::le_bytes(TableFooter::MAGIC as nat, 8));
}

} // verus!
