use pulsearc_db::snappy::keep_if_smaller;
use pulsearc_db::snappy::SnappyCompressor;
use pulsearc_db::table::Compressor;

#[test]
fn round_trip_compressible_input() {
    let c = SnappyCompressor;
    let input = b"aaaaaaaaaaaaaaaaaaaaaaaaaaaaaaaaaaaaaaaaaaaaaaaaaaaaaa".repeat(50);
    let compressed = c.compress(&input).expect("highly compressible input must compress");
    assert!(
        compressed.len() < input.len() - (input.len() / 8),
        "compressed {} vs input {} doesn't beat 12.5% threshold",
        compressed.len(),
        input.len(),
    );
    let decoded = c.decompress(&compressed).unwrap();
    assert_eq!(decoded, input);
}

#[test]
fn incompressible_input_returns_none() {
    let c = SnappyCompressor;
    let input: Vec<u8> = (0..1024).map(|i| (i as u8).wrapping_mul(31)).collect();
    if let Some(compressed) = c.compress(&input) {
        assert!(compressed.len() < input.len() - (input.len() / 8));
        let decoded = c.decompress(&compressed).unwrap();
        assert_eq!(decoded, input);
    }
}

#[test]
fn empty_input_round_trips() {
    let c = SnappyCompressor;
    let compressed = c.compress(b"");
    assert!(compressed.is_none());
}

#[test]
fn corrupt_payload_surfaces_corruption() {
    let c = SnappyCompressor;
    let result = c.decompress(&[0xff, 0xff, 0xff, 0xff]);
    assert!(matches!(&result, Err(e) if e.is_corruption()));
}

#[test]
fn kind_byte_is_one() {
    assert_eq!(SnappyCompressor.kind(), 1);
}

#[test]
fn corrupt_payload_names_snappy() {
    let error = SnappyCompressor.decompress(&[0xff, 0xff, 0xff, 0xff]).unwrap_err();
    assert!(error.message().starts_with("snappy decompress: "));
}

#[test]
fn short_random_input_is_not_kept() {
    assert!(SnappyCompressor.compress(b"abcdefg").is_none());
}

#[test]
fn an_encoding_is_kept_below_seven_eighths() {
    let input = [7u8; 16];
    assert_eq!(keep_if_smaller(&input, Some(vec![1; 13])), Some(vec![1; 13]));
    assert_eq!(keep_if_smaller(&input, Some(vec![1; 14])), None);
    assert_eq!(keep_if_smaller(&input, None), None);
}
