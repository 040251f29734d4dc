//! Digests of byte strings.
use sha2::{Digest, Sha256, Sha384};
use vstd::prelude::*;

verus! {

/// The SHA-256 digest of `data`.
pub uninterp spec fn sha256_digest(data: Seq<u8>) -> Seq<u8>;

/// Calls `sha2::Sha256::digest`. What it returns is a function of the bytes it is given,
/// and has 32 bytes; which bytes they are is left to the name `sha256_digest`.
#[verifier::external_body]
pub(crate) fn sha256(data: &[u8]) -> (digest: [u8; 32])
    ensures
        digest@ == sha256_digest(data@),
{
    Sha256::digest(data).into()
}

/// The SHA-384 digest of `data`.
pub uninterp spec fn sha384_digest(data: Seq<u8>) -> Seq<u8>;

/// Calls `sha2::Sha384::digest`. What it returns is a function of the bytes it is given, and
/// has 48 bytes; which bytes they are is left to the name `sha384_digest`.
#[verifier::external_body]
pub(crate) fn sha384(data: &[u8]) -> (digest: Vec<u8>)
    ensures
        digest@ == sha384_digest(data@),
        digest@.len() == 48,
{
    Sha384::digest(data).to_vec()
}

} // verus!
