//! Hashing primitives.
//!
//! BLAKE3 is the primary hash function; SHA-256 and RIPEMD-160 serve address
//! derivation.

use vstd::prelude::*;
use crate::hash;
use sha2::Digest;

verus! {

/// The SHA-256 digest of some bytes.
pub uninterp spec fn spec_sha256(data: Seq<u8>) -> [u8; 32];

/// The RIPEMD-160 digest of some bytes.
pub uninterp spec fn spec_ripemd160(data: Seq<u8>) -> [u8; 20];

/// RIPEMD160(SHA256(data)).
pub open spec fn spec_hash160(data: Seq<u8>) -> [u8; 20] {
    spec_ripemd160(spec_sha256(data)@)
}

/// `Sha256::digest`: the SHA-256 digest, a function of the input alone.
#[verifier::external_body]
fn sha256_digest(data: &[u8]) -> (out: [u8; 32])
    ensures
        out == spec_sha256(data@),
{
    sha2::Sha256::digest(data).into()
}

/// `Ripemd160::digest`: the RIPEMD-160 digest, a function of the input alone.
#[verifier::external_body]
fn ripemd160_digest(data: &[u8]) -> (out: [u8; 20])
    ensures
        out == spec_ripemd160(data@),
{
    ripemd::Ripemd160::digest(data).into()
}

/// BLAKE3 hash.
pub fn blake3(data: &[u8]) -> (r: hash::Hash)
    ensures
        r == hash::hash_of(data@),
{
    hash::blake3(data)
}

/// SHA-256 hash.
pub fn sha256(data: &[u8]) -> (r: [u8; 32])
    ensures
        r == spec_sha256(data@),
{
    sha256_digest(data)
}

/// RIPEMD-160 hash.
pub fn ripemd160(data: &[u8]) -> (r: [u8; 20])
    ensures
        r == spec_ripemd160(data@),
{
    ripemd160_digest(data)
}

/// RIPEMD160(SHA256(data)), from which an address is made.
pub fn hash160(data: &[u8]) -> (r: [u8; 20])
    ensures
        r == spec_hash160(data@),
{
    let sha = sha256(data);
    ripemd160(&sha)
}

/// Double SHA-256.
pub fn sha256d(data: &[u8]) -> (r: [u8; 32])
    ensures
        r == spec_sha256(spec_sha256(data@)@),
{
    let first = sha256(data);
    sha256(&first)
}

} // verus!
