//! What a client makes of text that people type, and of what a node tells it.

use vstd::prelude::*;
use vstd::string::*;
use crate::bytes;
use crate::crypto::address;
use crate::crypto::address::{AddressString, ADDRESS_MARK};
use crate::hash;
use crate::hash::Hash160;
use crate::p2p::node::base::{PROTOCOL_VERSION, SERVICES};
use crate::p2p::wire::reject;
use crate::p2p::wire::{Message, MessageType, RejectMessage, VersionMessage};
use crate::text;
use crate::types::Address;

verus! {

/// The address that text stands for: address text, or 40 hexadecimal digits
/// with or without `0x` in front.
pub open spec fn address_in(s: Seq<char>) -> Option<Seq<u8>> {
    if address::has_mark(s) {
        address::address_payload(address::spec_bech32_decode(s))
    } else {
        hex_in(text::without_hex_mark(s), 40)
    }
}

/// The bytes that so many hexadecimal digits stand for.
pub open spec fn hex_in(s: Seq<char>, digits: nat) -> Option<Seq<u8>> {
    let b = vstd::utf8::encode_utf8(s);
    if text::is_hex_text(b) && b.len() == digits {
        Some(text::hex_bytes(b))
    } else {
        None
    }
}

/// Read an address, in either form.
pub fn bech32_to_address(s: &str) -> (r: Option<Address>)
    ensures
        match r {
            Some(a) => address_in(s@) == Some(a.0.0@),
            None => address_in(s@) is None,
        },
{
    if text::begins_with(s, ADDRESS_MARK) {
        match AddressString(s.to_string()).to_hash160() {
            Some(h) => Some(Address(h)),
            None => None,
        }
    } else {
        match Hash160::from_hex(text::strip_hex_mark(s)) {
            Ok(h) => Some(Address(h)),
            Err(_) => None,
        }
    }
}

/// Render an address as address text.
pub fn address_to_bech32(a: &Address) -> (r: String)
    ensures
        r@ == address::spec_bech32m_encode("chr"@, a.0.0@),
        address_in(r@) == Some(a.0.0@),
{
    match AddressString::from_hash160(&a.0, None) {
        Some(t) => t.0,
        None => String::new(),
    }
}

/// Read a hash of 64 hexadecimal digits, with or without `0x` in front and
/// white space around it.
pub fn parse_hash(s: &str) -> (r: Option<hash::Hash>)
    ensures
        match r {
            Some(h) => hex_in(text::without_hex_mark(text::trimmed(s@)), 64) == Some(h.0@),
            None => hex_in(text::without_hex_mark(text::trimmed(s@)), 64) is None,
        },
{
    match hash::Hash::from_hex(text::strip_hex_mark(text::trim(s))) {
        Ok(h) => Some(h),
        Err(_) => None,
    }
}

/// Read a key file: 64 hexadecimal digits, with white space around them or
/// not.
pub fn parse_key(s: &str) -> (r: Option<[u8; 32]>)
    ensures
        match r {
            Some(k) => hex_in(text::trimmed(s@), 64) == Some(k@),
            None => hex_in(text::trimmed(s@), 64) is None,
        },
{
    match text::hex_key(text::trim(s)) {
        Ok(k) => Some(k),
        Err(_) => None,
    }
}

/// Why a passphrase is not taken.
#[derive(Clone, Copy, PartialEq, Eq, Structural, Debug)]
pub enum PassphraseFault {
    /// It would leave the wallet unprotected.
    Empty,
    /// It was not the same when asked again.
    Mismatch,
}

/// Check a passphrase that was entered, and entered again where one is being
/// set.
pub fn check_passphrase(passphrase: &String, again: Option<&String>) -> (r: Result<
    (),
    PassphraseFault,
>)
    ensures
        r == if passphrase@.len() == 0 {
            Err::<(), PassphraseFault>(PassphraseFault::Empty)
        } else if again matches Some(t) && t@ != passphrase@ {
            Err(PassphraseFault::Mismatch)
        } else {
            Ok(())
        },
{
    if passphrase.as_str().unicode_len() == 0 {
        return Err(PassphraseFault::Empty);
    }
    match again {
        Some(t) => if *t != *passphrase {
            Err(PassphraseFault::Mismatch)
        } else {
            Ok(())
        },
        None => Ok(()),
    }
}

/// A client's version message. It is no peer to dial back, so the port it
/// listens on means nothing.
pub fn client_version(nonce: u64, secs: u64) -> (r: VersionMessage)
    ensures
        r == (VersionMessage {
            version: PROTOCOL_VERSION,
            services: SERVICES,
            timestamp: secs,
            height: 0,
            nonce,
            listen_port: 0,
        }),
{
    VersionMessage {
        version: PROTOCOL_VERSION,
        services: SERVICES,
        timestamp: secs,
        height: 0,
        nonce,
        listen_port: 0,
    }
}

/// Where the first sealed chunk of a stream ends, once all of it has arrived: a
/// chunk is four bytes that say, big-endian, how many ciphertext bytes follow,
/// and those bytes.
pub open spec fn sealed_end(stream: Seq<u8>) -> Option<int> {
    if stream.len() < 4 {
        None
    } else {
        let end = 4 + bytes::be_value(stream.subrange(0, 4));
        if end <= stream.len() {
            Some(end as int)
        } else {
            None
        }
    }
}

/// Take the first sealed chunk, length and all, off the front of what has
/// arrived. A partial one waits for the rest.
pub fn next_sealed(stream: &mut Vec<u8>) -> (r: Option<Vec<u8>>)
    ensures
        match sealed_end(old(stream)@) {
            Some(end) => {
                &&& r matches Some(chunk) && chunk@ == old(stream)@.subrange(0, end)
                &&& final(stream)@ == old(stream)@.subrange(end, old(stream)@.len() as int)
            },
            None => r is None && final(stream)@ == old(stream)@,
        },
{
    let n: usize = stream.len();
    if n < 4 {
        return None;
    }
    let len: u64 = stream[0] as u64 * 0x100_0000 + stream[1] as u64 * 0x1_0000 + stream[2] as u64
        * 0x100 + stream[3] as u64;
    proof {
        let s = stream@.subrange(0, 4);
        reveal_with_fuel(bytes::be_value, 5);
        assert(bytes::be_value(s) == len);
    }
    if n as u64 - 4 < len {
        return None;
    }
    let end: usize = 4 + len as usize;
    let mut chunk: Vec<u8> = Vec::new();
    bytes::push_bytes(&mut chunk, &stream[0..end]);
    let mut rest: Vec<u8> = Vec::new();
    bytes::push_bytes(&mut rest, &stream[end..n]);
    assert(chunk@ =~= stream@.subrange(0, end as int));
    assert(rest@ =~= stream@.subrange(end as int, n as int));
    *stream = rest;
    Some(chunk)
}

/// A sealed chunk comes off the front of a stream whole, whatever follows it,
/// and not before its last byte has arrived.
pub proof fn sealed_chunk_comes_out_whole(length: Seq<u8>, cipher: Seq<u8>, after: Seq<u8>, n: int)
    requires
        length.len() == 4,
        bytes::be_value(length) == cipher.len(),
        0 <= n < 4 + cipher.len(),
    ensures
        sealed_end(length + cipher + after) == Some(4 + cipher.len() as int),
        (length + cipher + after).subrange(0, 4 + cipher.len() as int) == length + cipher,
        (length + cipher + after).subrange(
            4 + cipher.len() as int,
            4 + cipher.len() + after.len() as int,
        ) == after,
        sealed_end((length + cipher).subrange(0, n)) is None,
{
    let whole = length + cipher + after;
    let part = (length + cipher).subrange(0, n);
    assert(whole.subrange(0, 4) =~= length);
    assert(whole.subrange(0, 4 + cipher.len() as int) =~= length + cipher);
    assert(whole.subrange(4 + cipher.len() as int, 4 + cipher.len() + after.len() as int) =~= after);
    if n >= 4 {
        assert(part.subrange(0, 4) =~= length);
    }
}

/// What a client does on a message during the handshake.
#[derive(Clone, Copy, PartialEq, Eq, Structural, Debug)]
pub enum HandshakeStep {
    /// The node is ready for us.
    Done,
    /// Acknowledge the node's version.
    Acknowledge,
    /// Wait for another message.
    Wait,
}

/// What a client does on a message during the handshake.
pub fn handshake_step(t: MessageType) -> (r: HandshakeStep)
    ensures
        r == match t {
            MessageType::VerAck => HandshakeStep::Done,
            MessageType::Version => HandshakeStep::Acknowledge,
            _ => HandshakeStep::Wait,
        },
{
    match t {
        MessageType::VerAck => HandshakeStep::Done,
        MessageType::Version => HandshakeStep::Acknowledge,
        _ => HandshakeStep::Wait,
    }
}

/// What a node says against a submitted transaction: nothing, unless it is a
/// rejection.
pub open spec fn refusal_in(t: MessageType, payload: Seq<u8>) -> Option<Seq<char>> {
    if t != MessageType::Reject {
        None
    } else {
        match reject::reject_parts(payload) {
            Some(p) => Some(
                "node rejected the transaction: "@ + reject::spec_utf8_lossy(p.2),
            ),
            None => Some("node rejected the transaction"@),
        }
    }
}

/// What a node says against a submitted transaction.
pub fn refusal(msg: &Message) -> (r: Option<String>)
    ensures
        match r {
            Some(s) => refusal_in(msg.msg_type, msg.payload@) == Some(s@),
            None => refusal_in(msg.msg_type, msg.payload@) is None,
        },
{
    if msg.msg_type != MessageType::Reject {
        return None;
    }
    match RejectMessage::decode(&msg.payload) {
        Ok(m) => {
            let mut s: String = "node rejected the transaction: ".to_string();
            s.append(m.reason.as_str());
            Some(s)
        },
        Err(_) => Some("node rejected the transaction".to_string()),
    }
}

/// Text that begins as an address does is read as one, and only `chr` and twenty
/// bytes make one. Any other text is forty hexadecimal digits behind any `0x`.
pub proof fn address_text_is_marked_or_hexadecimal(s: Seq<char>)
    ensures
        address::has_mark(s) <==> s.len() >= 4 && s[0] == 'c' && s[1] == 'h' && s[2] == 'r' && s[3]
            == '1',
        address::has_mark(s) ==> (address_in(s) matches Some(b) ==> b.len() == 20
            && address::spec_bech32_decode(s) == Some(("chr"@, b))),
        address::has_mark(s) && (address::spec_bech32_decode(s) matches Some((part, data)) && part
            == "chr"@ && data.len() == 20) ==> address_in(s) is Some,
        !address::has_mark(s) ==> ({
            let t = vstd::utf8::encode_utf8(text::without_hex_mark(s));
            &&& address_in(s) is Some <==> t.len() == 40 && forall|i: int|
                0 <= i < t.len() ==> text::is_hex(#[trigger] t[i])
            &&& address_in(s) matches Some(b) ==> b == text::hex_bytes(t)
        }),
{
    reveal_strlit("chr1");
    if address::has_mark(s) {
        let t = s.subrange(0, 4);
        assert(t[0] == s[0] && t[1] == s[1] && t[2] == s[2] && t[3] == s[3]);
    }
    if s.len() >= 4 && s[0] == 'c' && s[1] == 'h' && s[2] == 'r' && s[3] == '1' {
        assert(s.subrange(0, 4) =~= "chr1"@);
    }
}

/// A piece of the stream is complete once four bytes and as many more as those
/// say, most significant first, are there.
pub proof fn sealed_piece_says_its_length(s: Seq<u8>)
    ensures
        s.len() < 4 ==> sealed_end(s) is None,
        s.len() >= 4 ==> ({
            let end = 4 + s[0] * 0x100_0000 + s[1] * 0x1_0000 + s[2] * 0x100 + s[3];
            &&& end <= s.len() ==> sealed_end(s) == Some(end)
            &&& end > s.len() ==> sealed_end(s) is None
        }),
{
    if s.len() >= 4 {
        reveal_with_fuel(bytes::be_value, 5);
        let h = s.subrange(0, 4);
        assert(h[0] == s[0] && h[1] == s[1] && h[2] == s[2] && h[3] == s[3]);
    }
}

/// Only a rejection speaks against a transaction. It is passed on with its reason
/// where it reads, and without one where it does not.
pub proof fn only_a_rejection_refuses(t: MessageType, payload: Seq<u8>)
    ensures
        refusal_in(t, payload) is Some <==> t == MessageType::Reject,
        t == MessageType::Reject && reject::reject_parts(payload) is None ==> refusal_in(t, payload)
            == Some("node rejected the transaction"@),
        t == MessageType::Reject ==> (reject::reject_parts(payload) matches Some(p) ==> refusal_in(
            t,
            payload,
        ) == Some("node rejected the transaction: "@ + reject::spec_utf8_lossy(p.2))),
{
}

} // verus!
