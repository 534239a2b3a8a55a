//! Hash values and the BLAKE3 function.

use vstd::prelude::*;
use vstd::string::*;
use crate::bytes;
use crate::text;
use crate::text::HexError;

verus! {

/// The BLAKE3 digest of some bytes.
pub uninterp spec fn spec_blake3(data: Seq<u8>) -> [u8; 32];

/// The keyed BLAKE3 digest of some bytes.
pub uninterp spec fn spec_blake3_keyed(key: [u8; 32], data: Seq<u8>) -> [u8; 32];

/// `blake3::hash`: the default 32-byte digest, a function of the input alone.
#[verifier::external_body]
fn blake3_digest(data: &[u8]) -> (out: [u8; 32])
    ensures
        out == spec_blake3(data@),
{
    *blake3::hash(data).as_bytes()
}

/// `blake3::keyed_hash`: the 32-byte digest under a key, a function of key and
/// input alone.
#[verifier::external_body]
fn blake3_keyed_digest(key: &[u8; 32], data: &[u8]) -> (out: [u8; 32])
    ensures
        out == spec_blake3_keyed(*key, data@),
{
    *blake3::keyed_hash(key, data).as_bytes()
}

/// 32-byte hash.
#[derive(Clone, Copy, Eq, Hash, PartialOrd, Ord, Debug)]
pub struct Hash(pub [u8; 32]);

/// 20-byte hash, used for addresses.
#[derive(Clone, Copy, Eq, Hash, PartialOrd, Ord, Debug)]
pub struct Hash160(pub [u8; 20]);

/// The hash of some bytes.
pub open spec fn hash_of(data: Seq<u8>) -> Hash {
    Hash(spec_blake3(data))
}

/// The hash with every byte zero.
pub open spec fn zero_hash() -> Hash {
    Hash([
        0u8, 0u8, 0u8, 0u8, 0u8, 0u8, 0u8, 0u8,
        0u8, 0u8, 0u8, 0u8, 0u8, 0u8, 0u8, 0u8,
        0u8, 0u8, 0u8, 0u8, 0u8, 0u8, 0u8, 0u8,
        0u8, 0u8, 0u8, 0u8, 0u8, 0u8, 0u8, 0u8,
    ])
}

pub proof fn lemma_zero_hash()
    ensures
        zero_hash().0@ == bytes::zeros(32),
{
    assert(zero_hash().0@ =~= bytes::zeros(32));
}

impl PartialEq for Hash {
    fn eq(&self, other: &Self) -> (r: bool) {
        let r = bytes::bytes_equal(&self.0, &other.0);
        proof {
            if r {
                bytes::lemma_array_equal(self.0, other.0);
            }
        }
        r
    }
}

impl vstd::std_specs::cmp::PartialEqSpecImpl for Hash {
    open spec fn obeys_eq_spec() -> bool {
        true
    }

    open spec fn eq_spec(&self, other: &Self) -> bool {
        *self == *other
    }
}

impl PartialEq for Hash160 {
    fn eq(&self, other: &Self) -> (r: bool) {
        let r = bytes::bytes_equal(&self.0, &other.0);
        proof {
            if r {
                bytes::lemma_array_equal(self.0, other.0);
            }
        }
        r
    }
}

impl vstd::std_specs::cmp::PartialEqSpecImpl for Hash160 {
    open spec fn obeys_eq_spec() -> bool {
        true
    }

    open spec fn eq_spec(&self, other: &Self) -> bool {
        *self == *other
    }
}

impl Default for Hash {
    fn default() -> (r: Self)
        ensures
            r == zero_hash(),
    {
        Hash::zero()
    }
}

impl Default for Hash160 {
    fn default() -> (r: Self)
        ensures
            r.0@ == bytes::zeros(20),
    {
        Hash160::zero()
    }
}

impl From<[u8; 32]> for Hash {
    fn from(b: [u8; 32]) -> (r: Self) {
        Hash(b)
    }
}

impl vstd::std_specs::convert::FromSpecImpl<[u8; 32]> for Hash {
    open spec fn obeys_from_spec() -> bool {
        true
    }

    open spec fn from_spec(b: [u8; 32]) -> Self {
        Hash(b)
    }
}

impl From<[u8; 20]> for Hash160 {
    fn from(b: [u8; 20]) -> (r: Self) {
        Hash160(b)
    }
}

impl vstd::std_specs::convert::FromSpecImpl<[u8; 20]> for Hash160 {
    open spec fn obeys_from_spec() -> bool {
        true
    }

    open spec fn from_spec(b: [u8; 20]) -> Self {
        Hash160(b)
    }
}

impl Hash {
    /// The hash with every byte zero: the root of an empty tree.
    pub fn zero() -> (r: Hash)
        ensures
            r == zero_hash(),
            r.0@ == bytes::zeros(32),
    {
        let r = Hash(bytes::zero_array::<32>());
        proof {
            lemma_zero_hash();
            bytes::lemma_array_equal(r.0, zero_hash().0);
        }
        r
    }

    pub fn from_bytes(b: [u8; 32]) -> (r: Hash)
        ensures
            r.0 == b,
    {
        Hash(b)
    }

    /// Create from a slice, which must be 32 bytes.
    pub fn from_slice(slice: &[u8]) -> (r: Result<Hash, &'static str>)
        ensures
            r is Ok <==> slice@.len() == 32,
            r matches Ok(h) ==> h.0@ == slice@,
    {
        if slice.len() != 32 {
            return Err("Hash must be 32 bytes");
        }
        let b: [u8; 32] = bytes::take_array::<32>(slice, 0);
        assert(slice@.subrange(0, 32) =~= slice@);
        Ok(Hash(b))
    }

    /// BLAKE3 hash of data.
    pub fn blake3(data: &[u8]) -> (r: Hash)
        ensures
            r == hash_of(data@),
    {
        Hash(blake3_digest(data))
    }

    /// BLAKE3 hash of data under a key.
    pub fn blake3_keyed(key: &[u8; 32], data: &[u8]) -> (r: Hash)
        ensures
            r.0 == spec_blake3_keyed(*key, data@),
    {
        Hash(blake3_keyed_digest(key, data))
    }

    pub fn as_bytes(&self) -> (r: &[u8; 32])
        ensures
            *r == self.0,
    {
        &self.0
    }

    /// Lower-case hexadecimal, first byte first.
    pub fn to_hex(&self) -> (s: String)
        ensures
            s@ == text::hex_text(self.0@),
    {
        text::hex_encode(&self.0)
    }

    /// Parse hexadecimal text for 32 bytes.
    pub fn from_hex(s: &str) -> (r: Result<Hash, HexError>)
        ensures
            r is Ok <==> text::is_hex_text(s.spec_bytes()) && s.spec_bytes().len() == 64,
            r matches Ok(h) ==> h.0@ == text::hex_bytes(s.spec_bytes()),
            r matches Err(e) ==> text::hex_fault(e, s.spec_bytes(), 64),
    {
        match text::hex_decode(s) {
            Ok(b) => match Hash::from_slice(&b) {
                Ok(h) => Ok(h),
                Err(_) => Err(HexError::InvalidStringLength),
            },
            Err(e) => Err(e),
        }
    }
}

impl Hash160 {
    pub fn zero() -> (r: Hash160)
        ensures
            r.0@ == bytes::zeros(20),
    {
        Hash160(bytes::zero_array::<20>())
    }

    pub fn from_bytes(b: [u8; 20]) -> (r: Hash160)
        ensures
            r.0 == b,
    {
        Hash160(b)
    }

    /// Create from a slice, which must be 20 bytes.
    pub fn from_slice(slice: &[u8]) -> (r: Result<Hash160, &'static str>)
        ensures
            r is Ok <==> slice@.len() == 20,
            r matches Ok(h) ==> h.0@ == slice@,
    {
        if slice.len() != 20 {
            return Err("Hash160 must be 20 bytes");
        }
        let b: [u8; 20] = bytes::take_array::<20>(slice, 0);
        assert(slice@.subrange(0, 20) =~= slice@);
        Ok(Hash160(b))
    }

    pub fn as_bytes(&self) -> (r: &[u8; 20])
        ensures
            *r == self.0,
    {
        &self.0
    }

    /// Lower-case hexadecimal, first byte first.
    pub fn to_hex(&self) -> (s: String)
        ensures
            s@ == text::hex_text(self.0@),
    {
        text::hex_encode(&self.0)
    }

    /// Parse hexadecimal text for 20 bytes.
    pub fn from_hex(s: &str) -> (r: Result<Hash160, HexError>)
        ensures
            r is Ok <==> text::is_hex_text(s.spec_bytes()) && s.spec_bytes().len() == 40,
            r matches Ok(h) ==> h.0@ == text::hex_bytes(s.spec_bytes()),
            r matches Err(e) ==> text::hex_fault(e, s.spec_bytes(), 40),
    {
        match text::hex_decode(s) {
            Ok(b) => match Hash160::from_slice(&b) {
                Ok(h) => Ok(h),
                Err(_) => Err(HexError::InvalidStringLength),
            },
            Err(e) => Err(e),
        }
    }
}

/// BLAKE3 hash of data.
pub fn blake3(data: &[u8]) -> (r: Hash)
    ensures
        r == hash_of(data@),
{
    Hash::blake3(data)
}

} // verus!
