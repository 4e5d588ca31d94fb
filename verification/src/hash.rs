use vstd::prelude::*;
use crate::strutil::{hex_lower_of, lemma_hex_lower_len, to_hex_lower};

verus! {

/// What SHA-256 returns for a byte string: a function of the bytes alone.
pub uninterp spec fn sha256_of(bytes: Seq<u8>) -> Seq<u8>;

/// Relies on sha2's `Sha256`: the 32-byte SHA-256 digest of the input,
/// a function of the bytes alone.
#[verifier::external_body]
fn sha256(bytes: &[u8]) -> (r: Vec<u8>)
    ensures
        r@ == sha256_of(bytes@),
        r@.len() == 32,
{
    <sha2::Sha256 as sha2::Digest>::digest(bytes).to_vec()
}

/// The SHA-256 digest rendered as the usual lowercase hex string.
pub open spec fn sha256_hex_of(bytes: Seq<u8>) -> Seq<char> {
    hex_lower_of(sha256_of(bytes))
}

/// Computes the SHA-256 digest of `bytes`, as 64 lowercase hex digits.
pub fn sha256_hex(bytes: &[u8]) -> (r: String)
    ensures
        r@ == sha256_hex_of(bytes@),
        r@.len() == 64,
{
    let digest = sha256(bytes);
    proof {
        lemma_hex_lower_len(digest@);
    }
    to_hex_lower(&digest)
}

} // verus!
