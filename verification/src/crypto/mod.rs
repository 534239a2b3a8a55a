//! Cryptographic primitives: hashing, Schnorr signatures, addresses, proof of
//! work and node identity.

pub mod address;
pub mod error;
pub mod hash;
pub mod noise;
pub mod randomx;
pub mod schnorr;
