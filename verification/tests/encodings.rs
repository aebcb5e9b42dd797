use std::cmp::Ordering;

use pulsearc_db::coding;
use pulsearc_db::comparator::compare_bytes;
use pulsearc_db::comparator::BytewiseComparator;
use pulsearc_db::comparator::Comparator;
use pulsearc_db::crc32c;
use pulsearc_db::filename;
use pulsearc_db::filename::FileType;
use pulsearc_db::format::InternalKey;
use pulsearc_db::format::InternalKeyComparator;
use pulsearc_db::format::LookupKey;
use pulsearc_db::format::ParsedInternalKey;
use pulsearc_db::format::ValueType;
use pulsearc_db::hash::hash;
use pulsearc_db::slice::Slice;
use pulsearc_db::status::Code;
use pulsearc_db::status::Status;
use pulsearc_db::text;

#[test]
fn fixed_numbers_are_little_endian() {
    let mut bytes = Vec::new();
    coding::put_fixed16(&mut bytes, 0x0102);
    coding::put_fixed32(&mut bytes, 0x01020304);
    coding::put_fixed64(&mut bytes, 0x0102030405060708);
    assert_eq!(bytes, vec![2, 1, 4, 3, 2, 1, 8, 7, 6, 5, 4, 3, 2, 1]);
    let mut input: &[u8] = &bytes;
    assert_eq!(coding::get_fixed16(&mut input), Some(0x0102));
    assert_eq!(coding::get_fixed32(&mut input), Some(0x01020304));
    assert_eq!(coding::get_fixed64(&mut input), Some(0x0102030405060708));
    assert_eq!(coding::get_u8(&mut input), None);
}

#[test]
fn a_short_input_leaves_the_cursor() {
    let bytes = [1u8, 2, 3];
    let mut input: &[u8] = &bytes;
    assert_eq!(coding::get_fixed32(&mut input), None);
    assert_eq!(input.len(), 3);
    assert_eq!(coding::get_u8(&mut input), Some(1));
}

#[test]
fn varints_round_trip() {
    let values = [0u64, 1, 127, 128, 300, 16383, 16384, u32::MAX as u64, u64::MAX];
    for value in values {
        let mut bytes = Vec::new();
        coding::put_varint64(&mut bytes, value);
        assert_eq!(bytes.len(), coding::varint_length(value));
        let mut input: &[u8] = &bytes;
        assert_eq!(coding::get_varint64(&mut input), Some(value));
        assert!(input.is_empty());
    }
    let mut bytes = Vec::new();
    coding::put_varint32(&mut bytes, 300);
    assert_eq!(bytes, vec![0xac, 0x02]);
}

#[test]
fn an_unended_varint_is_refused() {
    let mut input: &[u8] = &[0x80, 0x80];
    assert_eq!(coding::get_varint32(&mut input), None);
    assert_eq!(input.len(), 2);
}

#[test]
fn length_prefixed_bytes_round_trip() {
    let mut bytes = Vec::new();
    coding::put_length_prefixed_slice(&mut bytes, b"abc");
    coding::put_length_prefixed_slice(&mut bytes, b"");
    assert_eq!(bytes, vec![3, b'a', b'b', b'c', 0]);
    let mut input: &[u8] = &bytes;
    assert_eq!(coding::get_length_prefixed_slice(&mut input), Some(&b"abc"[..]));
    assert_eq!(coding::get_length_prefixed_slice(&mut input), Some(&b""[..]));
    assert_eq!(coding::get_length_prefixed_slice(&mut input), None);
}

#[test]
fn crc_of_known_inputs() {
    assert_eq!(crc32c::value(&[0u8; 32]), 0x8a9136aa);
    assert_eq!(crc32c::value(&[0xffu8; 32]), 0x62a8ab43);
    assert_eq!(crc32c::value(b"123456789"), 0xe3069283);
}

#[test]
fn crc_of_parts_is_that_of_the_whole() {
    let first = crc32c::value(b"hello ");
    assert_eq!(crc32c::extend(first, b"world"), crc32c::value(b"hello world"));
}

#[test]
fn crc_masks_undo() {
    let crc = crc32c::value(b"foo");
    assert_ne!(crc32c::mask(crc), crc);
    assert_eq!(crc32c::unmask(crc32c::mask(crc)), crc);
    assert_eq!(crc32c::mask(0), 0xa282ead8);
}

#[test]
fn hash_of_known_inputs() {
    assert_eq!(hash(b"", 0xbc9f1d34), 0xbc9f1d34);
    assert_eq!(hash(&[0x62], 0xbc9f1d34), 0xef1345c4);
    assert_eq!(hash(&[0xc3, 0x97], 0xbc9f1d34), 0x5b663814);
    assert_eq!(hash(&[0xe2, 0x99, 0xa5], 0xbc9f1d34), 0x323c078f);
    assert_eq!(hash(&[0xe1, 0x80, 0xb9, 0x32], 0xbc9f1d34), 0xed21633a);
}

#[test]
fn statuses_tell_their_class() {
    assert!(Status::ok().is_ok());
    assert!(Status::not_found("a").is_not_found());
    assert!(Status::corruption("a").is_corruption());
    assert!(Status::not_supported("a").is_not_supported());
    assert!(Status::invalid_argument("a").is_invalid_argument());
    assert!(Status::io_error("a").is_io_error());
    let status = Status::with_context(Code::IoError, "cannot read", "/db/CURRENT");
    assert_eq!(status.message(), "cannot read: /db/CURRENT");
    assert_eq!(status.render(), "IO error: cannot read: /db/CURRENT");
    assert_eq!(Status::with_context(Code::NotFound, "gone", "").render(), "NotFound: gone");
    assert_eq!(Status::ok().render(), "OK");
    assert_eq!(Status::not_supported("x").render(), "Not implemented: x");
}

#[test]
fn slices_compare_by_bytes() {
    let slice = Slice::new(b"abcd");
    assert!(slice.starts_with(Slice::new(b"ab")));
    assert!(!slice.starts_with(Slice::new(b"b")));
    assert_eq!(slice.compare(Slice::new(b"abd")), Ordering::Less);
    assert_eq!(slice.compare(Slice::new(b"abcd")), Ordering::Equal);
    assert_eq!(slice.compare(Slice::new(b"abc")), Ordering::Greater);
    let mut rest = slice;
    rest.remove_prefix(3);
    assert_eq!(rest.to_vec(), b"d".to_vec());
    assert_eq!(compare_bytes(b"", b"a"), Ordering::Less);
}

#[test]
fn separators_are_short() {
    let mut start = b"abcdefg".to_vec();
    BytewiseComparator.find_shortest_separator(&mut start, b"abzz");
    assert_eq!(start, b"abd".to_vec());
    let mut prefix = b"abc".to_vec();
    BytewiseComparator.find_shortest_separator(&mut prefix, b"abcd");
    assert_eq!(prefix, b"abc".to_vec());
    let mut key = vec![0xff, 0xff, b'a', b'b'];
    BytewiseComparator.find_short_successor(&mut key);
    assert_eq!(key, vec![0xff, 0xff, b'b']);
}

#[test]
fn numbers_in_decimal() {
    assert_eq!(text::decimal_text(0), "0");
    assert_eq!(text::decimal_text(u64::MAX), "18446744073709551615");
    assert_eq!(text::parse_number("18446744073709551615"), Some(u64::MAX));
    assert_eq!(text::parse_number("18446744073709551616"), None);
    assert_eq!(text::parse_number("+7"), Some(7));
    assert_eq!(text::parse_number(""), None);
    assert_eq!(text::parse_number("1a"), None);
}

#[test]
fn file_names_are_read_back() {
    assert_eq!(filename::log_file_name("/db", 7), "/db/000007.log");
    assert_eq!(filename::table_file_name("/db", 1234567), "/db/1234567.ldb");
    assert_eq!(filename::sst_table_file_name("/db", 2), "/db/000002.sst");
    assert_eq!(filename::descriptor_file_name("/db", 3), "/db/MANIFEST-000003");
    assert_eq!(filename::current_file_name("/db"), "/db/CURRENT");
    assert_eq!(filename::lock_file_name("/db"), "/db/LOCK");
    assert_eq!(filename::temp_file_name("/db", 4), "/db/000004.dbtmp");
    assert_eq!(filename::info_log_file_name("/db"), "/db/LOG");
    assert_eq!(filename::old_info_log_file_name("/db"), "/db/LOG.old");
    assert_eq!(filename::parse_file_name("/db/000007.log"), Some((7, FileType::LogFile)));
    assert_eq!(filename::parse_file_name("000002.sst"), Some((2, FileType::TableFile)));
    assert_eq!(filename::parse_file_name("/db/MANIFEST-000003"), Some((3, FileType::DescriptorFile)));
    assert_eq!(filename::parse_file_name("LOCK"), Some((0, FileType::DbLockFile)));
    assert_eq!(filename::parse_file_name("100.foo"), None);
    assert_eq!(filename::parse_file_name("foo"), None);
    assert_eq!(filename::parse_file_name("100"), None);
}

#[test]
fn internal_keys_are_taken_apart() {
    let key = InternalKey::new(b"user", 9, ValueType::Deletion);
    let parsed = pulsearc_db::format::parse_internal_key(key.encode()).unwrap();
    assert_eq!(parsed.user_key, b"user".to_vec());
    assert_eq!(parsed.sequence, 9);
    assert_eq!(parsed.value_type, ValueType::Deletion);
    assert_eq!(key.encode().len(), 12);
    assert_eq!(pulsearc_db::format::pack_sequence_and_type(9, ValueType::Value), 9 * 256 + 1);
    assert!(pulsearc_db::format::parse_internal_key(b"short").is_none());
    let mut bytes = b"user".to_vec();
    bytes.extend_from_slice(&[2, 0, 0, 0, 0, 0, 0, 0]);
    assert!(pulsearc_db::format::parse_internal_key(&bytes).is_none());
}

#[test]
fn newer_entries_of_a_key_come_first() {
    let order = InternalKeyComparator::new(BytewiseComparator);
    let newer = InternalKey::new(b"a", 5, ValueType::Value);
    let older = InternalKey::new(b"a", 4, ValueType::Value);
    let other = InternalKey::new(b"b", 9, ValueType::Value);
    assert_eq!(order.compare(newer.encode(), older.encode()), Ordering::Less);
    assert_eq!(order.compare(older.encode(), other.encode()), Ordering::Less);
    assert_eq!(order.compare(other.encode(), newer.encode()), Ordering::Greater);
}

#[test]
fn lookup_keys_frame_the_internal_key() {
    let key = LookupKey::new(b"abc", 7);
    assert_eq!(key.user_key(), b"abc");
    assert_eq!(key.internal_key().len(), 11);
    assert_eq!(key.memtable_key()[0], 11);
    let mut bytes = Vec::new();
    pulsearc_db::format::append_internal_key(&mut bytes, &ParsedInternalKey::new(b"abc", 7, ValueType::Value));
    assert_eq!(key.internal_key(), bytes.as_slice());
}

#[test]
fn numbers_are_written_over_the_front() {
    let mut bytes = [9u8; 10];
    coding::encode_fixed64(&mut bytes, 0x0102030405060708);
    assert_eq!(bytes, [8, 7, 6, 5, 4, 3, 2, 1, 9, 9]);
    assert_eq!(coding::encode_varint32(&mut bytes, 300), 2);
    assert_eq!(bytes[..3], [0xac, 0x02, 6]);
    assert_eq!(coding::encode_varint64(&mut bytes, u64::MAX), 10);
    assert_eq!(bytes, [0xff, 0xff, 0xff, 0xff, 0xff, 0xff, 0xff, 0xff, 0xff, 0x01]);
}

#[test]
fn slices_are_made_of_vectors_and_texts() {
    let bytes = vec![b'a', b'b'];
    assert_eq!(Slice::from_vec(&bytes).data(), b"ab");
    assert_eq!(Slice::from_text("ab").to_vec(), bytes);
    let key = ParsedInternalKey::new(b"abc", 7, ValueType::Value);
    assert_eq!(pulsearc_db::format::internal_key_encoding_len(&key), 11);
}
