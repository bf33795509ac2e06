//! Content fingerprints: question keys and answer keys.
//!
//! A question key is the lowercase hex form of the SHA-256 digest of the
//! user message content; an answer key is the same digest over the
//! compressed answer bytes.

use vstd::prelude::*;
use vstd::utf8::encode_utf8;
use sha2::Digest;

verus! {

/// The lowercase hex digit for a value below 16.
pub open spec fn hex_digit(v: u8) -> char
    recommends
        v < 16,
{
    if v == 0 {
        '0'
    } else if v == 1 {
        '1'
    } else if v == 2 {
        '2'
    } else if v == 3 {
        '3'
    } else if v == 4 {
        '4'
    } else if v == 5 {
        '5'
    } else if v == 6 {
        '6'
    } else if v == 7 {
        '7'
    } else if v == 8 {
        '8'
    } else if v == 9 {
        '9'
    } else if v == 10 {
        'a'
    } else if v == 11 {
        'b'
    } else if v == 12 {
        'c'
    } else if v == 13 {
        'd'
    } else if v == 14 {
        'e'
    } else {
        'f'
    }
}

/// Lowercase hex encoding: two digits for each byte, in order.
pub open spec fn hex_of(bytes: Seq<u8>) -> Seq<char>
    decreases bytes.len(),
{
    if bytes.len() == 0 {
        Seq::empty()
    } else {
        seq![hex_digit(bytes[0] / 16), hex_digit(bytes[0] % 16)] + hex_of(bytes.drop_first())
    }
}

pub proof fn lemma_hex_of_len(bytes: Seq<u8>)
    ensures
        hex_of(bytes).len() == 2 * bytes.len(),
    decreases bytes.len(),
{
    if bytes.len() > 0 {
        lemma_hex_of_len(bytes.drop_first());
    }
}

/// The SHA-256 digest of a byte sequence, named here and pinned down only by
/// the trusted wrapper below.
pub uninterp spec fn sha256_of(bytes: Seq<u8>) -> Seq<u8>;

/// Relies on sha2's `Sha256::digest`: the digest depends on the input bytes
/// alone and is exactly 32 bytes long.
#[verifier::external_body]
fn sha256_bytes(data: &[u8]) -> (r: Vec<u8>)
    ensures
        r@ == sha256_of(data@),
        r@.len() == 32,
{
    sha2::Sha256::digest(data).to_vec()
}

/// Relies on hex::encode: two lowercase hex digits for each input byte,
/// in input order.
#[verifier::external_body]
fn hex_encode(data: &Vec<u8>) -> (r: String)
    ensures
        r@ == hex_of(data@),
{
    hex::encode(data)
}

/// The key under which a compressed answer is stored.
pub open spec fn answer_key_of(compressed: Seq<u8>) -> Seq<char> {
    hex_of(sha256_of(compressed))
}

/// The key under which a user question is stored: the digest is taken over
/// the UTF-8 bytes of the content.
pub open spec fn question_key_of(content: Seq<char>) -> Seq<char> {
    hex_of(sha256_of(encode_utf8(content)))
}

/// Fingerprint of a compressed answer blob.
pub fn answer_key(compressed: &Vec<u8>) -> (r: String)
    ensures
        r@ == answer_key_of(compressed@),
        r@.len() == 64,
{
    let digest = sha256_bytes(compressed.as_slice());
    proof {
        lemma_hex_of_len(digest@);
    }
    hex_encode(&digest)
}

/// Fingerprint of a user question's content.
pub fn question_key(content: &str) -> (r: String)
    ensures
        r@ == question_key_of(content@),
        r@.len() == 64,
{
    let digest = sha256_bytes(content.as_bytes());
    proof {
        lemma_hex_of_len(digest@);
    }
    hex_encode(&digest)
}

} // verus!
