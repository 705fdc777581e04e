//! The hash engine: SHA3-256 over byte sequences, and the node-combining
//! step that hashes the concatenation of two digests.

use vstd::prelude::*;

verus! {

/// A digest: the fixed-width output of the hash engine (SHA3-256, 32 bytes).
pub type Digest = [u8; 32];

/// The SHA3-256 digest of a byte sequence. The hash itself is opaque to the
/// proofs: all that is relied on is that it is a function of the bytes alone.
pub uninterp spec fn hash_of(data: Seq<u8>) -> Seq<u8>;

/// The digest of an internal node: the hash of the concatenation of the left
/// child's digest and the right child's digest, in that byte order.
pub open spec fn combine(left: Seq<u8>, right: Seq<u8>) -> Seq<u8> {
    hash_of(left + right)
}

/// Relies on `sha3::Sha3_256` (via the `digest` crate's `Digest` trait):
/// `Sha3_256::digest(d)` returns the 32-byte SHA3-256 digest of `d`, a pure
/// function of the input bytes alone.
#[verifier::external_body]
pub(crate) fn hash_element(data: &Vec<u8>) -> (r: Digest)
    ensures
        r@ == hash_of(data@),
{
    <sha3::Sha3_256 as sha3::Digest>::digest(data).into()
}

/// Relies on `sha3::Sha3_256` (via the `digest` crate's `Digest` trait):
/// feeding `update` with `left` and then `right` and finalizing returns the
/// SHA3-256 digest of the concatenation `left ++ right`.
#[verifier::external_body]
pub(crate) fn combine_digests(left: &Digest, right: &Digest) -> (r: Digest)
    ensures
        r@ == combine(left@, right@),
{
    let mut hasher = <sha3::Sha3_256 as sha3::Digest>::new();
    <sha3::Sha3_256 as sha3::Digest>::update(&mut hasher, left);
    <sha3::Sha3_256 as sha3::Digest>::update(&mut hasher, right);
    <sha3::Sha3_256 as sha3::Digest>::finalize(hasher).into()
}

} // verus!
