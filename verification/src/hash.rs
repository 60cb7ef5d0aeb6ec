//! The hash primitive that binds two byte strings into one digest.

use sha2::{Digest, Sha256};
use vstd::prelude::*;

verus! {

/// Number of bytes in a digest.
pub const DIGEST_LEN: usize = 32;

/// The SHA-256 digest of a byte string, as `sha2::Sha256` computes it.
pub uninterp spec fn sha256(data: Seq<u8>) -> Seq<u8>;

/// The digest that binds `left` and `right`, in this order.
pub open spec fn pair_digest(left: Seq<u8>, right: Seq<u8>) -> Seq<u8> {
    sha256(left + right)
}

/// Computes the SHA-256 digest of `left` followed by `right`.
///
/// Trusted: feeds both slices, in order, to a fresh `sha2::Sha256` through
/// `Digest::update` and takes `Digest::finalize`. The contract claims that
/// this is the SHA-256 digest of the concatenation, and that it has 32 bytes.
#[verifier::external_body]
pub fn hash(left: &[u8], right: &[u8]) -> (digest: Vec<u8>)
    ensures
        digest@ == sha256(left@ + right@),
        digest@.len() == DIGEST_LEN,
{
    let mut hasher = Sha256::new();
    hasher.update(left);
    hasher.update(right);
    hasher.finalize().to_vec()
}

} // verus!
