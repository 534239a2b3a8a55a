//! Node identity.

use vstd::prelude::*;
use vstd::string::*;
use crate::bytes;
use crate::crypto::error::{CryptoError, CryptoResult};
use crate::text;
use crate::text::HexError;

verus! {

/// Node identity: a 32-byte static key.
#[derive(Clone, Copy, Eq, Hash, Debug)]
pub struct NodeId(pub [u8; 32]);

/// The static key that a node's handshake uses.
#[derive(Clone, Copy, Eq, Hash, Debug)]
pub struct NoiseKey(pub [u8; 32]);

/// State of a handshake.
pub struct NoiseState {
    pub local_node_id: NodeId,
    pub peer_node_id: Option<NodeId>,
}

/// `getrandom::getrandom`: fresh random bytes, or nothing when the system has
/// none to give. Nothing is said of their values.
#[verifier::external_body]
pub(crate) fn random_bytes() -> (r: Option<[u8; 32]>) {
    let mut b = [0u8; 32];
    getrandom::getrandom(&mut b).ok()?;
    Some(b)
}

impl PartialEq for NodeId {
    fn eq(&self, other: &Self) -> (r: bool) {
        let r = bytes::bytes_equal(&self.0, &other.0);
        proof {
            if r {
                bytes::lemma_array_equal(self.0, other.0);
            }
        }
        r
    }
}

impl vstd::std_specs::cmp::PartialEqSpecImpl for NodeId {
    open spec fn obeys_eq_spec() -> bool {
        true
    }

    open spec fn eq_spec(&self, other: &Self) -> bool {
        *self == *other
    }
}

impl NodeId {
    /// A fresh random identity. Fails, with the one error this can have, when
    /// the system gives no random bytes.
    pub fn generate() -> (r: CryptoResult<NodeId>)
        ensures
            r matches Err(e) ==> (e matches CryptoError::Noise(s) && s@ == "CSPRNG failure"@),
    {
        match random_bytes() {
            Some(b) => Ok(NodeId::from_bytes(b)),
            None => Err(CryptoError::Noise("CSPRNG failure".to_string())),
        }
    }

    pub fn from_bytes(b: [u8; 32]) -> (r: NodeId)
        ensures
            r.0 == b,
    {
        NodeId(b)
    }

    /// Lower-case hexadecimal, first byte first.
    pub fn to_hex(&self) -> (s: String)
        ensures
            s@ == text::hex_text(self.0@),
    {
        text::hex_encode(&self.0)
    }

    /// Parse hexadecimal text for 32 bytes.
    pub fn from_hex(s: &str) -> (r: Result<NodeId, HexError>)
        ensures
            r is Ok <==> text::is_hex_text(s.spec_bytes()) && s.spec_bytes().len() == 64,
            r matches Ok(k) ==> k.0@ == text::hex_bytes(s.spec_bytes()),
            r matches Err(e) ==> text::hex_fault(e, s.spec_bytes(), 64),
    {
        match text::hex_key(s) {
            Ok(b) => Ok(NodeId(b)),
            Err(e) => Err(e),
        }
    }
}

impl PartialEq for NoiseKey {
    fn eq(&self, other: &Self) -> (r: bool) {
        let r = bytes::bytes_equal(&self.0, &other.0);
        proof {
            if r {
                bytes::lemma_array_equal(self.0, other.0);
            }
        }
        r
    }
}

impl vstd::std_specs::cmp::PartialEqSpecImpl for NoiseKey {
    open spec fn obeys_eq_spec() -> bool {
        true
    }

    open spec fn eq_spec(&self, other: &Self) -> bool {
        *self == *other
    }
}

impl NoiseKey {
    pub fn from_bytes(b: [u8; 32]) -> (r: NoiseKey)
        ensures
            r.0 == b,
    {
        NoiseKey(b)
    }

    /// Lower-case hexadecimal, first byte first.
    pub fn to_hex(&self) -> (s: String)
        ensures
            s@ == text::hex_text(self.0@),
    {
        text::hex_encode(&self.0)
    }

    /// Parse hexadecimal text for 32 bytes.
    pub fn from_hex(s: &str) -> (r: Result<NoiseKey, HexError>)
        ensures
            r is Ok <==> text::is_hex_text(s.spec_bytes()) && s.spec_bytes().len() == 64,
            r matches Ok(k) ==> k.0@ == text::hex_bytes(s.spec_bytes()),
            r matches Err(e) ==> text::hex_fault(e, s.spec_bytes(), 64),
    {
        match text::hex_key(s) {
            Ok(b) => Ok(NoiseKey(b)),
            Err(e) => Err(e),
        }
    }
}

impl NoiseState {
    /// A handshake that has not met its peer yet.
    pub fn new(local_id: NodeId) -> (r: NoiseState)
        ensures
            r.local_node_id == local_id,
            r.peer_node_id is None,
    {
        NoiseState { local_node_id: local_id, peer_node_id: None }
    }
}

} // verus!
