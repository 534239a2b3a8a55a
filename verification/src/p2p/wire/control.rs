//! Messages that set up a connection and keep it alive.

use vstd::prelude::*;
use crate::bytes;
use crate::error;
use crate::error::{CoreError, Fault, Result};
use crate::text;

verus! {

/// The complaint that a message of a fixed size is too short, or how much too
/// long it is.
pub open spec fn other_size(what: Seq<char>, expected: nat, found: nat) -> Fault {
    if found < expected {
        error::malformed(what + ": too short"@)
    } else {
        error::malformed(
            what + text::number_between(": "@, (found - expected) as nat, " trailing bytes"@),
        )
    }
}

/// The text of that complaint.
pub fn other_size_text(what: &str, expected: usize, found: usize) -> (s: String)
    requires
        found != expected,
    ensures
        s@ == other_size(what@, expected as nat, found as nat).detail,
{
    if found < expected {
        error::joined(what, ": too short")
    } else {
        error::joined(
            what,
            text::phrase_around(": ", (found - expected) as u64, " trailing bytes").as_str(),
        )
    }
}

/// Version handshake payload.
///
/// `listen_port` is the port the sender accepts inbound connections on. An
/// inbound connection arrives from an ephemeral source port, which is useless as
/// a peer identity, so peers are keyed by the remote address and `listen_port`
/// once the version is known.
///
/// `nonce` is the sender's per-process identity nonce, used to detect and drop
/// self-connections.
#[derive(Clone, Copy, Debug, PartialEq, Eq, Structural)]
pub struct VersionMessage {
    pub version: u32,
    pub services: u64,
    pub timestamp: u64,
    pub height: u32,
    pub nonce: u64,
    pub listen_port: u16,
}

impl VersionMessage {
    /// Canonical encoded size.
    pub const SERIALIZED_SIZE: usize = 34;

    /// The bytes on the wire.
    pub open spec fn spec_bytes(self) -> Seq<u8> {
        bytes::le_bytes(self.version as nat, 4)
            + bytes::le_bytes(self.services as nat, 8)
            + bytes::le_bytes(self.timestamp as nat, 8)
            + bytes::le_bytes(self.height as nat, 4)
            + bytes::le_bytes(self.nonce as nat, 8)
            + bytes::le_bytes(self.listen_port as nat, 2)
    }

    pub fn encode(&self) -> (r: Vec<u8>)
        ensures
            r@ == self.spec_bytes(),
    {
        let mut buf: Vec<u8> = Vec::new();
        bytes::push_le(&mut buf, self.version as u64, 4);
        bytes::push_le(&mut buf, self.services, 8);
        bytes::push_le(&mut buf, self.timestamp, 8);
        bytes::push_le(&mut buf, self.height as u64, 4);
        bytes::push_le(&mut buf, self.nonce, 8);
        bytes::push_le(&mut buf, self.listen_port as u64, 2);
        assert(buf@ =~= self.spec_bytes());
        buf
    }

    /// Decode a version payload.
    ///
    /// Trailing bytes are ignored, here and in no other message: a later protocol
    /// version may add fields, and has to remain readable by nodes that predate
    /// it for the two to agree on a version at all.
    pub fn decode(data: &[u8]) -> (r: Result<VersionMessage>)
        ensures
            match r {
                Ok(m) => data@.len() >= 34 && data@.subrange(0, 34) == m.spec_bytes(),
                Err(e) => data@.len() < 34 && e.fault() == error::malformed("version: too short"@),
            },
    {
        if data.len() < 34 {
            return Err(CoreError::Serialization("version: too short".to_string()));
        }
        proof {
            bytes::lemma_pow256_values();
        }
        let version: u32 = bytes::read_le(data, 0, 4) as u32;
        let services: u64 = bytes::read_le(data, 4, 8);
        let timestamp: u64 = bytes::read_le(data, 12, 8);
        let height: u32 = bytes::read_le(data, 20, 4) as u32;
        let nonce: u64 = bytes::read_le(data, 24, 8);
        let listen_port: u16 = bytes::read_le(data, 32, 2) as u16;
        let m = VersionMessage { version, services, timestamp, height, nonce, listen_port };
        proof {
            bytes::lemma_le_bytes_of_value(data@.subrange(0, 4));
            bytes::lemma_le_bytes_of_value(data@.subrange(4, 12));
            bytes::lemma_le_bytes_of_value(data@.subrange(12, 20));
            bytes::lemma_le_bytes_of_value(data@.subrange(20, 24));
            bytes::lemma_le_bytes_of_value(data@.subrange(24, 32));
            bytes::lemma_le_bytes_of_value(data@.subrange(32, 34));
            bytes::lemma_join_ranges(data@, 0, 4, 12);
            bytes::lemma_join_ranges(data@, 0, 12, 20);
            bytes::lemma_join_ranges(data@, 0, 20, 24);
            bytes::lemma_join_ranges(data@, 0, 24, 32);
            bytes::lemma_join_ranges(data@, 0, 32, 34);
        }
        Ok(m)
    }
}

/// A version message reads back from its bytes: they have the fixed length and stand
/// for no other value.
pub proof fn version_roundtrip(m: VersionMessage, v: VersionMessage)
    ensures
        m.spec_bytes().len() == 34,
        m.spec_bytes() == v.spec_bytes() ==> m == v,
{
    bytes::lemma_le_bytes_len(m.version as nat, 4);
    bytes::lemma_le_bytes_len(v.version as nat, 4);
    bytes::lemma_le_bytes_len(m.services as nat, 8);
    bytes::lemma_le_bytes_len(v.services as nat, 8);
    bytes::lemma_le_bytes_len(m.timestamp as nat, 8);
    bytes::lemma_le_bytes_len(v.timestamp as nat, 8);
    bytes::lemma_le_bytes_len(m.height as nat, 4);
    bytes::lemma_le_bytes_len(v.height as nat, 4);
    bytes::lemma_le_bytes_len(m.nonce as nat, 8);
    bytes::lemma_le_bytes_len(v.nonce as nat, 8);
    bytes::lemma_le_bytes_len(m.listen_port as nat, 2);
    bytes::lemma_le_bytes_len(v.listen_port as nat, 2);
    if m.spec_bytes() == v.spec_bytes() {
        bytes::lemma_split_equal(
            bytes::le_bytes(m.version as nat, 4) + bytes::le_bytes(m.services as nat, 8) + bytes::le_bytes(m.timestamp as nat, 8) + bytes::le_bytes(m.height as nat, 4) + bytes::le_bytes(m.nonce as nat, 8),
            bytes::le_bytes(m.listen_port as nat, 2),
            bytes::le_bytes(v.version as nat, 4) + bytes::le_bytes(v.services as nat, 8) + bytes::le_bytes(v.timestamp as nat, 8) + bytes::le_bytes(v.height as nat, 4) + bytes::le_bytes(v.nonce as nat, 8),
            bytes::le_bytes(v.listen_port as nat, 2),
        );
        bytes::lemma_split_equal(
            bytes::le_bytes(m.version as nat, 4) + bytes::le_bytes(m.services as nat, 8) + bytes::le_bytes(m.timestamp as nat, 8) + bytes::le_bytes(m.height as nat, 4),
            bytes::le_bytes(m.nonce as nat, 8),
            bytes::le_bytes(v.version as nat, 4) + bytes::le_bytes(v.services as nat, 8) + bytes::le_bytes(v.timestamp as nat, 8) + bytes::le_bytes(v.height as nat, 4),
            bytes::le_bytes(v.nonce as nat, 8),
        );
        bytes::lemma_split_equal(
            bytes::le_bytes(m.version as nat, 4) + bytes::le_bytes(m.services as nat, 8) + bytes::le_bytes(m.timestamp as nat, 8),
            bytes::le_bytes(m.height as nat, 4),
            bytes::le_bytes(v.version as nat, 4) + bytes::le_bytes(v.services as nat, 8) + bytes::le_bytes(v.timestamp as nat, 8),
            bytes::le_bytes(v.height as nat, 4),
        );
        bytes::lemma_split_equal(
            bytes::le_bytes(m.version as nat, 4) + bytes::le_bytes(m.services as nat, 8),
            bytes::le_bytes(m.timestamp as nat, 8),
            bytes::le_bytes(v.version as nat, 4) + bytes::le_bytes(v.services as nat, 8),
            bytes::le_bytes(v.timestamp as nat, 8),
        );
        bytes::lemma_split_equal(
            bytes::le_bytes(m.version as nat, 4),
            bytes::le_bytes(m.services as nat, 8),
            bytes::le_bytes(v.version as nat, 4),
            bytes::le_bytes(v.services as nat, 8),
        );
        bytes::lemma_pow256_values();
        bytes::lemma_le_bytes_injective(m.version as nat, v.version as nat, 4);
        bytes::lemma_le_bytes_injective(m.services as nat, v.services as nat, 8);
        bytes::lemma_le_bytes_injective(m.timestamp as nat, v.timestamp as nat, 8);
        bytes::lemma_le_bytes_injective(m.height as nat, v.height as nat, 4);
        bytes::lemma_le_bytes_injective(m.nonce as nat, v.nonce as nat, 8);
        bytes::lemma_le_bytes_injective(m.listen_port as nat, v.listen_port as nat, 2);
    }
}

/// A version message reads back whatever a newer peer appends to it.
pub proof fn version_ignores_what_follows(m: VersionMessage, after: Seq<u8>)
    ensures
        (m.spec_bytes() + after).len() >= 34,
        (m.spec_bytes() + after).subrange(0, 34) == m.spec_bytes(),
{
    version_roundtrip(m, m);
    assert((m.spec_bytes() + after).subrange(0, 34) =~= m.spec_bytes());
}

/// A ping, and the pong that answers it with the same nonce.
#[derive(Clone, Copy, Debug, PartialEq, Eq, Structural)]
pub struct PingMessage {
    pub nonce: u64,
}

impl PingMessage {
    /// The bytes on the wire.
    pub open spec fn spec_bytes(self) -> Seq<u8> {
        bytes::le_bytes(self.nonce as nat, 8)
    }

    pub fn encode(&self) -> (r: Vec<u8>)
        ensures
            r@ == self.spec_bytes(),
    {
        let mut buf: Vec<u8> = Vec::new();
        bytes::push_le(&mut buf, self.nonce, 8);
        assert(buf@ =~= self.spec_bytes());
        buf
    }

    pub fn decode(data: &[u8]) -> (r: Result<PingMessage>)
        ensures
            match r {
                Ok(m) => data@ == m.spec_bytes(),
                Err(e) => data@.len() != 8 && e.fault() == other_size("ping"@, 8, data@.len()),
            },
    {
        if data.len() != 8 {
            return Err(CoreError::Serialization(other_size_text("ping", 8, data.len())));
        }
        proof {
            bytes::lemma_pow256_values();
        }
        let nonce: u64 = bytes::read_le(data, 0, 8);
        let m = PingMessage { nonce };
        proof {
            bytes::lemma_le_bytes_of_value(data@.subrange(0, 8));
            assert(data@.subrange(0, 8) =~= data@);
        }
        Ok(m)
    }
}

/// A ping reads back from its bytes: they have the fixed length and stand
/// for no other value.
pub proof fn ping_roundtrip(m: PingMessage, v: PingMessage)
    ensures
        m.spec_bytes().len() == 8,
        m.spec_bytes() == v.spec_bytes() ==> m == v,
{
    bytes::lemma_le_bytes_len(m.nonce as nat, 8);
    bytes::lemma_le_bytes_len(v.nonce as nat, 8);
    if m.spec_bytes() == v.spec_bytes() {
        bytes::lemma_pow256_values();
        bytes::lemma_le_bytes_injective(m.nonce as nat, v.nonce as nat, 8);
    }
}

} // verus!
