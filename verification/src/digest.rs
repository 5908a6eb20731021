//! The hash function used to content-address tree nodes.
//!
//! Node digests are produced by the BLAKE3 hash function.  The function
//! itself is an outside dependency; this crate only relies on its output
//! being a 32-byte digest determined by the input bytes alone, so the digest
//! of a byte string is given a name, `blake3_of`, and every hashing contract
//! in the node model is stated in terms of that name.

use vstd::prelude::*;

verus! {

/// The 32-byte digest that BLAKE3 assigns to a byte string.
pub uninterp spec fn blake3_of(input: Seq<u8>) -> Seq<u8>;

/// Relies on `blake3::hash`: the returned digest is 32 bytes and is a
/// function of the input bytes alone.
#[verifier::external_body]
pub(crate) fn blake3_digest(input: &[u8]) -> (r: [u8; 32])
    ensures
        r@ == blake3_of(input@),
{
    *blake3::hash(input).as_bytes()
}

} // verus!
