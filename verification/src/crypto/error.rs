//! Cryptographic errors.

use vstd::prelude::*;
use crate::error::joined;

verus! {

#[derive(Debug, Clone, PartialEq, Eq)]
pub enum CryptoError {
    InvalidSecretKey(String),
    InvalidPublicKey(String),
    InvalidSignature(String),
    InvalidAddress(String),
    RandomX(String),
    Noise(String),
}

pub type CryptoResult<T> = std::result::Result<T, CryptoError>;

impl CryptoError {
    /// The message to show.
    pub open spec fn spec_message(&self) -> Seq<char> {
        match *self {
            CryptoError::InvalidSecretKey(s) => "invalid secret key: "@ + s@,
            CryptoError::InvalidPublicKey(s) => "invalid public key: "@ + s@,
            CryptoError::InvalidSignature(s) => "invalid signature: "@ + s@,
            CryptoError::InvalidAddress(s) => "invalid address: "@ + s@,
            CryptoError::RandomX(s) => "randomx error: "@ + s@,
            CryptoError::Noise(s) => "noise error: "@ + s@,
        }
    }

    /// The message to show.
    pub fn message(&self) -> (m: String)
        ensures
            m@ == self.spec_message(),
    {
        match self {
            CryptoError::InvalidSecretKey(s) => joined("invalid secret key: ", s),
            CryptoError::InvalidPublicKey(s) => joined("invalid public key: ", s),
            CryptoError::InvalidSignature(s) => joined("invalid signature: ", s),
            CryptoError::InvalidAddress(s) => joined("invalid address: ", s),
            CryptoError::RandomX(s) => joined("randomx error: ", s),
            CryptoError::Noise(s) => joined("noise error: ", s),
        }
    }
}

} // verus!
