//! The cryptographic digest used for commit-time integrity checking.

use vstd::prelude::*;

verus! {

/// The SHA-256 digest of a byte sequence, as computed by the `sha2` crate.
/// The function is named, not defined: contracts relate digests of equal
/// inputs but state nothing about the digest's value.
pub uninterp spec fn sha256_of(data: Seq<u8>) -> Seq<u8>;

/// Relies on `sha2::Sha256::digest`: the one-shot SHA-256 of the input
/// bytes, a function of those bytes alone, returned as 32 bytes.
#[verifier::external_body]
pub(crate) fn sha256(data: &Vec<u8>) -> (r: [u8; 32])
    ensures
        r@ == sha256_of(data@),
{
    let out: [u8; 32] = <sha2::Sha256 as sha2::Digest>::digest(data.as_slice()).into();
    out
}

} // verus!
