//! The fixed-length hash functions that fingerprints and leaves are made with.
use blake2::Blake2s256;
use blake2::Digest;
use sha3::Sha3_256;
use vstd::prelude::*;

verus! {

/// The BLAKE2s digest of `data`.
pub uninterp spec fn blake2s256(data: Seq<u8>) -> [u8; 32];

/// The SHA3-256 digest of `data`.
pub uninterp spec fn sha3_256(data: Seq<u8>) -> [u8; 32];

/// `blake2::Blake2s256`: the 32-byte digest of `data`, absorbed in one piece.
/// Believed of it: the digest is a function of `data`.
#[verifier::external_body]
pub(crate) fn blake2s(data: &[u8]) -> (out: [u8; 32])
    ensures
        out == blake2s256(data@),
{
    Blake2s256::digest(data).into()
}

/// `sha3::Sha3_256`: the 32-byte digest of `data`, absorbed in one piece. Believed of
/// it: the digest is a function of `data`.
#[verifier::external_body]
pub(crate) fn sha3(data: &[u8]) -> (out: [u8; 32])
    ensures
        out == sha3_256(data@),
{
    Sha3_256::digest(data).into()
}

} // verus!
