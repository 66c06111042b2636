//! The hash function of the merkle substrate.
//!
//! Every interior node of a tree is labelled by the SHA-256 digest of the
//! concatenated byte representations of its two children.  The digest itself
//! is an outside computation; the rest of the crate reasons about it purely
//! through the name `sha256_of`.

use vstd::prelude::*;

verus! {

/// The SHA-256 digest of a byte string, as a function of the bytes alone.
pub uninterp spec fn sha256_of(data: Seq<u8>) -> Seq<u8>;

/// Relies on sha2::Sha256 through the `Digest` interface: `update` twice then
/// `finalize` digests the concatenation of the two inputs, the digest is 32
/// bytes long, and it depends on the input bytes alone.
#[verifier::external_body]
pub(crate) fn sha256_concat(left: &Vec<u8>, right: &Vec<u8>) -> (r: Vec<u8>)
    ensures
        r@ == sha256_of(left@ + right@),
        r@.len() == 32,
{
    let mut hasher: sha2::Sha256 = <sha2::Sha256 as sha2::Digest>::new();
    sha2::Digest::update(&mut hasher, left.as_slice());
    sha2::Digest::update(&mut hasher, right.as_slice());
    sha2::Digest::finalize(hasher).to_vec()
}

} // verus!
