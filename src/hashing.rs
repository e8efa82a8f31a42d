//! The digest primitive the tree is built on.
use vstd::prelude::*;

use digest::Digest;

verus! {

/// The SHA-256 digest of a byte sequence.
pub uninterp spec fn sha256_of(data: Seq<u8>) -> Seq<u8>;

/// The digest given as root for a tree that has no node digests: all zero bytes.
pub open spec fn default_digest() -> Seq<u8> {
    Seq::new(32, |i: int| 0u8)
}

/// Relies on `digest::Digest::digest` as implemented for `sha2::Sha256`:
/// the 32-byte SHA-256 digest of `data`, a function of `data` alone.
#[verifier::external_body]
pub(crate) fn sha256(data: &[u8]) -> (r: [u8; 32])
    ensures
        r@ == sha256_of(data@),
{
    sha2::Sha256::digest(data).into()
}

} // verus!
