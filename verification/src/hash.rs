//! SHA-256, from the `sha2` crate.
use sha2::{Digest, Sha256};
use vstd::prelude::*;

verus! {

/// The SHA-256 digest of `data`, as `sha2` computes it.
pub uninterp spec fn sha256(data: Seq<u8>) -> Seq<u8>;

/// `<Sha256 as Digest>::digest`: the 32-byte SHA-256 digest of `data`.
///
/// The contract claims only that the result is the digest of exactly these
/// bytes (named [`sha256`]) and that a SHA-256 digest is 32 bytes long; the
/// hash function itself is `sha2`'s and is not restated.
#[verifier::external_body]
pub(crate) fn sha256_digest(data: &[u8]) -> (r: Vec<u8>)
    ensures
        r@ == sha256(data@),
        r@.len() == 32,
{
    Sha256::digest(data).to_vec()
}

} // verus!
