//! The per-response nonce that the page's content-security policy names:
//! random bytes, base64-encoded.

use vstd::prelude::*;

verus! {

/// The base64 encoding (standard alphabet, padded) of a byte sequence.
/// The characters themselves are the base64 crate's business; they depend
/// on the bytes alone.
pub uninterp spec fn base64_std_of(b: Seq<u8>) -> Seq<char>;

/// Relies on rand::rng() and Rng::fill_bytes: the buffer comes back
/// filled with random bytes, so nothing but its length holds of every
/// outcome.
#[verifier::external_body]
fn random_bytes(len: usize) -> (r: Vec<u8>)
    ensures
        r@.len() == len,
{
    let mut buf = vec![0u8; len];
    rand::Rng::fill_bytes(&mut rand::rng(), buf.as_mut_slice());
    buf
}

/// Relies on base64's Engine::encode with the STANDARD engine: the result
/// is a function of the bytes alone, four characters for every three
/// bytes, rounded up (the last block is padded).
#[verifier::external_body]
fn base64_encode(b: &Vec<u8>) -> (r: String)
    requires
        4 * ((b@.len() as int + 2) / 3) <= usize::MAX as int,
    ensures
        r@ == base64_std_of(b@),
        r@.len() == 4 * ((b@.len() as int + 2) / 3),
{
    base64::Engine::encode(&base64::engine::general_purpose::STANDARD, b.as_slice())
}

/// A fresh nonce: `len` random bytes, base64-encoded.
pub fn generate_nonce_base64(len: usize) -> (r: String)
    requires
        4 * ((len as int + 2) / 3) <= usize::MAX as int,
    ensures
        r@.len() == 4 * ((len as int + 2) / 3),
{
    let bytes = random_bytes(len);
    base64_encode(&bytes)
}

} // verus!
