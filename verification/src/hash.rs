//! The hash function of the Monero protocol.

use vstd::prelude::*;

verus! {

/// The Keccak-256 digest of `data`.
pub uninterp spec fn keccak256_digest(data: Seq<u8>) -> Seq<u8>;

/// `sha3::Keccak256::digest`, Keccak-256 over the whole of `data`.
///
/// Claimed of it: the digest depends on the bytes hashed alone.
#[verifier::external_body]
pub(crate) fn keccak256(data: &[u8]) -> (res: [u8; 32])
    ensures
        res@ == keccak256_digest(data@),
{
    <sha3::Keccak256 as sha3::Digest>::digest(data).into()
}

} // verus!
