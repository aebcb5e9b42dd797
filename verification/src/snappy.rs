//! Snappy block compression.
//!
//! Compressed blocks are raw Snappy streams without framing, marked by the kind
//! byte of Snappy. A block that would not shrink by an eighth is stored as it is.

use vstd::prelude::*;

use crate::status;
use crate::status::Status;
use crate::table::Compressor;
use crate::text;

verus! {

/// The error of the Snappy codec.
#[verifier::external_type_specification]
#[verifier::external_body]
pub struct ExSnapError(snap::Error);

/// The raw Snappy stream that [`snap::raw::Encoder::compress_vec`] makes of some
/// bytes; `None` where it refuses them.
pub uninterp spec fn snappy_encoded(input: Seq<u8>) -> Option<Seq<u8>>;

/// The bytes that [`snap::raw::Decoder::decompress_vec`] finds in a raw Snappy
/// stream; `None` where it finds the stream malformed.
pub uninterp spec fn snappy_decoded(input: Seq<u8>) -> Option<Seq<u8>>;

/// Calls [`snap::raw::Encoder::compress_vec`] on a fresh encoder. It refuses just
/// the inputs whose greatest compressed size does not fit in 32 bits, and what it
/// makes is decoded to the input again.
#[verifier::external_body]
fn encode(input: &[u8]) -> (encoded: Result<Vec<u8>, snap::Error>)
    ensures
        match snappy_encoded(input@) {
            None => encoded is Err,
            Some(bytes) => encoded matches Ok(found) && found@ == bytes && snappy_decoded(bytes)
                == Some(input@),
        },
        encoded is Err <==> 32 + input@.len() + input@.len() / 6 > 0xffff_ffff,
{
    snap::raw::Encoder::new().compress_vec(input)
}

/// Calls [`snap::raw::Decoder::decompress_vec`] on a fresh decoder.
#[verifier::external_body]
fn decode(input: &[u8]) -> (decoded: Result<Vec<u8>, snap::Error>)
    ensures
        match snappy_decoded(input@) {
            None => decoded is Err,
            Some(bytes) => decoded matches Ok(found) && found@ == bytes,
        },
{
    snap::raw::Decoder::new().decompress_vec(input)
}

/// The text of an error, as [`snap::Error`] displays it. Nothing is stated of the
/// text.
#[verifier::external_body]
fn error_text(error: &snap::Error) -> (text: String) {
    format!("{}", error)
}

/// Whether a block of `from` bytes shrinks enough when it has `to` bytes.
pub open spec fn pays_off(from: nat, to: nat) -> bool {
    to < from - from / 8
}

/// What is stored of a block, given what the encoder made of it.
pub open spec fn kept_if_smaller(input: Seq<u8>, encoded: Option<Seq<u8>>) -> Option<Seq<u8>> {
    match encoded {
        Some(bytes) => if pays_off(input.len(), bytes.len()) {
            Some(bytes)
        } else {
            None
        },
        None => None,
    }
}

/// Keeps what an encoder made of `input` only if it is at least an eighth smaller.
pub fn keep_if_smaller(input: &[u8], encoded: Option<Vec<u8>>) -> (kept: Option<Vec<u8>>)
    ensures
        match kept_if_smaller(
            input@,
            match encoded {
                None => None,
                Some(bytes) => Some(bytes@),
            },
        ) {
            None => kept is None,
            Some(bytes) => kept matches Some(found) && found@ == bytes,
        },
{
    match encoded {
        Some(bytes) => {
            if bytes.len() < input.len() - input.len() / 8 {
                Some(bytes)
            } else {
                None
            }
        },
        None => None,
    }
}

/// The Snappy compressor.
#[derive(Debug, Copy, Clone)]
pub struct SnappyCompressor;

impl Default for SnappyCompressor {
    fn default() -> (compressor: Self)
        ensures
            compressor == SnappyCompressor,
    {
        SnappyCompressor
    }
}

impl SnappyCompressor {
    pub fn new() -> (compressor: Self)
        ensures
            compressor == SnappyCompressor,
    {
        SnappyCompressor
    }
}

impl Compressor for SnappyCompressor {
    open spec fn code(&self) -> u8 {
        1
    }

    open spec fn pressed(&self, input: Seq<u8>) -> Option<Seq<u8>> {
        kept_if_smaller(input, snappy_encoded(input))
    }

    open spec fn unpressed(&self, input: Seq<u8>) -> Option<Seq<u8>> {
        snappy_decoded(input)
    }

    fn kind(&self) -> (kind: u8)
        ensures
            kind == 1,
    {
        1
    }

    fn compress(&self, input: &[u8]) -> (output: Option<Vec<u8>>)
        ensures
            output matches Some(bytes) ==> pays_off(input@.len(), bytes@.len()),
            input@.len() == 0 ==> output is None,
    {
        let encoded: Option<Vec<u8>> = match encode(input) {
            Ok(bytes) => Some(bytes),
            Err(_) => None,
        };
        keep_if_smaller(input, encoded)
    }

    fn decompress(&self, input: &[u8]) -> (output: status::Result<Vec<u8>>)
        ensures
            output matches Err(error) ==> "snappy decompress: "@.is_prefix_of(error.text()),
    {
        match decode(input) {
            Ok(bytes) => Ok(bytes),
            Err(error) => {
                let message = text::joined("snappy decompress: ", error_text(&error).as_str());
                Err(Status::corruption(message.as_str()))
            },
        }
    }
}

} // verus!
