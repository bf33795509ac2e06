//! Compression codec for assistant content.
//!
//! Answers are stored brotli-compressed (quality 11, window bits 22, buffer
//! 4096 bytes). Decoding reads a complete blob back to bytes and interprets
//! them as UTF-8; malformed input fails with [`CodecError`].

use vstd::prelude::*;
use vstd::utf8::{decode_utf8, encode_utf8, valid_utf8};
use std::io::Read;
use std::io::Write;

verus! {

/// Failure of decompression or of UTF-8 decoding during a cache hit.
#[derive(Clone, Copy, Debug, PartialEq, Eq, Structural)]
pub enum CodecError {
    Decompression,
    Utf8,
}

/// The brotli encoding (quality 11, window bits 22) of a byte sequence,
/// named here and pinned down only by the trusted wrappers below.
pub uninterp spec fn compressed_of(data: Seq<u8>) -> Seq<u8>;

/// What the brotli decoder yields on a byte sequence: `None` on malformed
/// input. Named here and pinned down only by the trusted wrappers below.
pub uninterp spec fn decompressed_of(data: Seq<u8>) -> Option<Seq<u8>>;

/// Relies on brotli's `CompressorWriter`: with fixed parameters the encoding
/// depends on the input bytes alone, and the decoder recovers the input
/// exactly (the format is lossless).
#[verifier::external_body]
fn brotli_compress(data: &[u8]) -> (r: Vec<u8>)
    ensures
        r@ == compressed_of(data@),
        decompressed_of(r@) == Some(data@),
{
    let mut compressed = Vec::with_capacity(data.len() / 2);
    {
        let mut compressor = brotli::CompressorWriter::new(&mut compressed, 4096, 11, 22);
        if compressor.write_all(data).is_err() {
            return Vec::new();
        }
        if compressor.flush().is_err() {
            return Vec::new();
        }
    }
    compressed
}

/// Relies on brotli's `Decompressor`: reading it to the end yields the
/// decoded bytes, or fails exactly on input the format rejects.
#[verifier::external_body]
fn brotli_decompress(data: &[u8]) -> (r: Option<Vec<u8>>)
    ensures
        match r {
            Some(v) => decompressed_of(data@) == Some(v@),
            None => decompressed_of(data@) is None,
        },
{
    let mut decompressed = Vec::new();
    let mut decompressor = brotli::Decompressor::new(data, data.len());
    match decompressor.read_to_end(&mut decompressed) {
        Ok(_) => Some(decompressed),
        Err(_) => None,
    }
}

/// Relies on `String::from_utf8`: succeeds exactly on valid UTF-8 and then
/// returns the decoded characters.
#[verifier::external_body]
fn string_from_utf8(bytes: Vec<u8>) -> (r: Option<String>)
    ensures
        match r {
            Some(s) => valid_utf8(bytes@) && s@ == decode_utf8(bytes@),
            None => !valid_utf8(bytes@),
        },
{
    String::from_utf8(bytes).ok()
}

/// What decoding a stored blob yields: the decompressed bytes interpreted
/// as UTF-8, or the error naming the step that failed.
pub open spec fn decoded_content_of(blob: Seq<u8>) -> Result<Seq<char>, CodecError> {
    match decompressed_of(blob) {
        Some(bytes) => if valid_utf8(bytes) {
            Ok(decode_utf8(bytes))
        } else {
            Err(CodecError::Utf8)
        },
        None => Err(CodecError::Decompression),
    }
}

/// Compresses assistant content for storage. The result decodes back to
/// exactly the input.
pub fn compress_content(content: &str) -> (r: Vec<u8>)
    ensures
        r@ == compressed_of(encode_utf8(content@)),
        decoded_content_of(r@) == Ok::<Seq<char>, CodecError>(content@),
{
    proof {
        broadcast use vstd::utf8::encode_utf8_valid_utf8;
        broadcast use vstd::utf8::encode_utf8_decode_utf8;
    }
    brotli_compress(content.as_bytes())
}

/// Decodes a stored blob back to assistant content.
pub fn decompress_content(blob: &Vec<u8>) -> (r: Result<String, CodecError>)
    ensures
        match r {
            Ok(s) => decoded_content_of(blob@) == Ok::<Seq<char>, CodecError>(s@),
            Err(e) => decoded_content_of(blob@) == Err::<Seq<char>, CodecError>(e),
        },
{
    match brotli_decompress(blob.as_slice()) {
        Some(bytes) => match string_from_utf8(bytes) {
            Some(s) => Ok(s),
            None => Err(CodecError::Utf8),
        },
        None => Err(CodecError::Decompression),
    }
}

} // verus!
