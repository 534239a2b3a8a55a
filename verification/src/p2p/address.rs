//! Who a peer is, where it is, and which part of the network it belongs to.

use vstd::prelude::*;
use vstd::string::*;
use crate::bytes;
use crate::crypto::noise::{NodeId, NoiseKey};
use crate::error::joined;
use crate::p2p::net::{IpAddr, NetAddr};
use crate::text;
use crate::text::HexError;

verus! {

/// Everything needed to dial a peer: where it is, who it is, and the static
/// key its handshake will use.
///
/// Both keys are here because they do different jobs. The dialer must hold the
/// static key before it connects. The node id is the identity that signed that
/// static key, and it is the part that has to be right.
///
/// Written as `<node-id>.<noise-key>@host:port`, both keys in hex.
#[derive(Clone, Copy, Eq, Hash, Debug)]
pub struct PeerAddress {
    pub node_id: NodeId,
    pub noise_key: NoiseKey,
    pub socket: NetAddr,
}

impl PartialEq for PeerAddress {
    fn eq(&self, other: &Self) -> (r: bool) {
        self.node_id == other.node_id && self.noise_key == other.noise_key && self.socket
            == other.socket
    }
}

impl vstd::std_specs::cmp::PartialEqSpecImpl for PeerAddress {
    open spec fn obeys_eq_spec() -> bool {
        true
    }

    open spec fn eq_spec(&self, other: &Self) -> bool {
        *self == *other
    }
}

/// A peer address as text, given how its socket is written.
pub open spec fn peer_text(id: NodeId, key: NoiseKey, socket: Seq<char>) -> Seq<char> {
    text::hex_text(id.0@) + seq!['.'] + text::hex_text(key.0@) + seq!['@'] + socket
}

/// The three parts of a peer address: what stands before the first `@`, cut at
/// its first dot, and what stands after.
pub open spec fn peer_parts(s: Seq<char>) -> Option<(Seq<char>, Seq<char>, Seq<char>)> {
    match text::first_at(s, '@', 0) {
        Some(at) => {
            let keys = s.subrange(0, at);
            match text::first_at(keys, '.', 0) {
                Some(dot) => Some(
                    (
                        keys.subrange(0, dot),
                        keys.subrange(dot + 1, keys.len() as int),
                        s.subrange(at + 1, s.len() as int),
                    ),
                ),
                None => None,
            }
        },
        None => None,
    }
}

/// A peer address whose socket is still text.
#[derive(Debug)]
pub struct PeerText {
    pub node_id: NodeId,
    pub noise_key: NoiseKey,
    pub socket: String,
}

/// Why text is no peer address.
#[derive(Clone, Copy, Debug, PartialEq, Eq, Structural)]
pub enum PeerTextError {
    /// Not of the form `<node-id>.<noise-key>@<host:port>`.
    Shape,
    BadNodeId(HexError),
    BadNoiseKey(HexError),
}

impl PeerTextError {
    /// What is wrong with some text, in words.
    pub open spec fn words(self, s: Seq<char>) -> Seq<char> {
        match self {
            PeerTextError::Shape => "expected <node-id>.<noise-key>@<host:port>, got "@
                + text::spec_debug_text(s),
            PeerTextError::BadNodeId(e) => "bad node id: "@ + e.words(),
            PeerTextError::BadNoiseKey(e) => "bad noise key: "@ + e.words(),
        }
    }

    /// What is wrong with the text that was read, in words.
    pub fn message(&self, s: &str) -> (r: String)
        ensures
            r@ == self.words(s@),
    {
        match self {
            PeerTextError::Shape => joined(
                "expected <node-id>.<noise-key>@<host:port>, got ",
                text::debug_text(s).as_str(),
            ),
            PeerTextError::BadNodeId(e) => joined("bad node id: ", e.message().as_str()),
            PeerTextError::BadNoiseKey(e) => joined("bad noise key: ", e.message().as_str()),
        }
    }
}

/// Whether text is hexadecimal for 32 bytes.
pub open spec fn is_key_text(s: Seq<char>) -> bool {
    text::is_hex_text(vstd::utf8::encode_utf8(s)) && vstd::utf8::encode_utf8(s).len() == 64
}

impl PeerAddress {
    pub fn new(node_id: NodeId, noise_key: NoiseKey, socket: NetAddr) -> (r: PeerAddress)
        ensures
            r.node_id == node_id,
            r.noise_key == noise_key,
            r.socket == socket,
    {
        PeerAddress { node_id, noise_key, socket }
    }

    /// The address as text, given how its socket is written.
    pub fn to_text(&self, socket: &str) -> (r: String)
        ensures
            r@ == peer_text(self.node_id, self.noise_key, socket@),
    {
        proof {
            reveal_strlit(".");
            reveal_strlit("@");
            assert("."@ =~= seq!['.']);
            assert("@"@ =~= seq!['@']);
        }
        let mut r: String = self.node_id.to_hex();
        r.append(".");
        r.append(self.noise_key.to_hex().as_str());
        r.append("@");
        r.append(socket);
        r
    }

    /// Read the keys of a peer address, leaving its socket as text.
    pub fn parse(s: &str) -> (r: Result<PeerText, PeerTextError>)
        ensures
            match peer_parts(s@) {
                None => r matches Err(PeerTextError::Shape),
                Some((id, key, socket)) => match r {
                    Ok(p) => {
                        &&& is_key_text(id) && is_key_text(key)
                        &&& p.node_id.0@ == text::hex_bytes(vstd::utf8::encode_utf8(id))
                        &&& p.noise_key.0@ == text::hex_bytes(vstd::utf8::encode_utf8(key))
                        &&& p.socket@ == socket
                    },
                    Err(PeerTextError::BadNodeId(e)) => !is_key_text(id) && text::hex_fault(
                        e,
                        vstd::utf8::encode_utf8(id),
                        64,
                    ),
                    Err(PeerTextError::BadNoiseKey(e)) => is_key_text(id) && !is_key_text(key)
                        && text::hex_fault(e, vstd::utf8::encode_utf8(key), 64),
                    Err(PeerTextError::Shape) => false,
                },
            },
    {
        let at = match text::find_char(s, '@') {
            Some(i) => i,
            None => {
                return Err(PeerTextError::Shape);
            },
        };
        let keys = s.substring_char(0, at);
        let dot = match text::find_char(keys, '.') {
            Some(i) => i,
            None => {
                return Err(PeerTextError::Shape);
            },
        };
        let node_id = match NodeId::from_hex(keys.substring_char(0, dot)) {
            Ok(k) => k,
            Err(e) => {
                return Err(PeerTextError::BadNodeId(e));
            },
        };
        let noise_key = match NoiseKey::from_hex(keys.substring_char(dot + 1, at)) {
            Ok(k) => k,
            Err(e) => {
                return Err(PeerTextError::BadNoiseKey(e));
            },
        };
        let n: usize = s.unicode_len();
        let socket: String = s.substring_char(at + 1, n).to_string();
        Ok(PeerText { node_id, noise_key, socket })
    }
}

/// A peer address falls back into the parts it was written from.
pub proof fn peer_text_roundtrip(id: NodeId, key: NoiseKey, socket: Seq<char>)
    ensures
        peer_parts(peer_text(id, key, socket)) == Some(
            (text::hex_text(id.0@), text::hex_text(key.0@), socket),
        ),
{
    let a = text::hex_text(id.0@);
    let b = text::hex_text(key.0@);
    let s = peer_text(id, key, socket);
    let at = (a.len() + 1 + b.len()) as int;
    assert forall|i: int| 0 <= i < at implies s[i] != '@' by {
        lemma_hex_is_plain(id.0@, i);
        lemma_hex_is_plain(key.0@, i - a.len() - 1);
    }
    text::lemma_first_at(s, '@', 0, at);
    let keys = s.subrange(0, at);
    assert(keys =~= a + seq!['.'] + b);
    assert forall|i: int| 0 <= i < a.len() implies keys[i] != '.' by {
        lemma_hex_is_plain(id.0@, i);
    }
    text::lemma_first_at(keys, '.', 0, a.len() as int);
    assert(keys.subrange(0, a.len() as int) =~= a);
    assert(keys.subrange(a.len() as int + 1, keys.len() as int) =~= b);
    assert(s.subrange(at + 1, s.len() as int) =~= socket);
}

proof fn lemma_hex_is_plain(s: Seq<u8>, i: int)
    ensures
        0 <= i < text::hex_text(s).len() ==> text::hex_text(s)[i] != '@' && text::hex_text(s)[i]
            != '.',
{
}

/// The unit a peer's resource use is counted under.
///
/// Not an address. A single IPv6 subscriber line is handed a /64, so counting
/// by address would be no limit at all. /64 is roughly one line and /48 roughly
/// one site, and both are counted so that a site cannot spread across its own
/// /64s.
///
/// IPv4 is counted by /24: smaller than that is not routed separately.
#[derive(Clone, Copy, Eq, Hash, Debug)]
pub enum AddressGroup {
    /// An IPv4 /24.
    V4([u8; 3]),
    /// An IPv6 /64.
    V6([u8; 8]),
    /// Loopback and private ranges, which are exempt from the connection
    /// limits.
    Local,
}

impl PartialEq for AddressGroup {
    fn eq(&self, other: &Self) -> (r: bool) {
        match (self, other) {
            (AddressGroup::V4(a), AddressGroup::V4(b)) => {
                let r = bytes::bytes_equal(a, b);
                proof {
                    if r {
                        bytes::lemma_array_equal(*a, *b);
                    }
                }
                r
            },
            (AddressGroup::V6(a), AddressGroup::V6(b)) => {
                let r = bytes::bytes_equal(a, b);
                proof {
                    if r {
                        bytes::lemma_array_equal(*a, *b);
                    }
                }
                r
            },
            (AddressGroup::Local, AddressGroup::Local) => true,
            _ => false,
        }
    }
}

impl vstd::std_specs::cmp::PartialEqSpecImpl for AddressGroup {
    open spec fn obeys_eq_spec() -> bool {
        true
    }

    open spec fn eq_spec(&self, other: &Self) -> bool {
        *self == *other
    }
}

/// Whether an IPv4 address is a loopback (127/8), private (10/8, 172.16/12,
/// 192.168/16) or link-local (169.254/16) one.
pub open spec fn is_local_v4(o: [u8; 4]) -> bool {
    o[0] == 127 || o[0] == 10 || (o[0] == 172 && 16 <= o[1] <= 31) || (o[0] == 192 && o[1] == 168)
        || (o[0] == 169 && o[1] == 254)
}

/// Whether an IPv6 address is the loopback, a unique-local (fc00::/7) or a
/// link-local (fe80::/10) one.
pub open spec fn is_local_v6(o: [u8; 16]) -> bool {
    o@ == bytes::zeros(15).push(1) || o[0] == 0xFC || o[0] == 0xFD || (o[0] == 0xFE && 0x80 <= o[1]
        <= 0xBF)
}

/// The group of an address.
pub open spec fn group_of(ip: IpAddr) -> AddressGroup {
    match ip {
        IpAddr::V4(o) => if is_local_v4(o) {
            AddressGroup::Local
        } else {
            AddressGroup::V4([o[0], o[1], o[2]])
        },
        IpAddr::V6(o) => if is_local_v6(o) {
            AddressGroup::Local
        } else {
            AddressGroup::V6([o[0], o[1], o[2], o[3], o[4], o[5], o[6], o[7]])
        },
    }
}

/// The wider grouping of a group.
pub open spec fn site_of(g: AddressGroup) -> Option<[u8; 6]> {
    match g {
        AddressGroup::V6(p) => Some([p[0], p[1], p[2], p[3], p[4], p[5]]),
        _ => None,
    }
}

impl AddressGroup {
    pub fn of(ip: IpAddr) -> (r: AddressGroup)
        ensures
            r == group_of(ip),
    {
        match ip {
            IpAddr::V4(o) => {
                if o[0] == 127 || o[0] == 10 || (o[0] == 172 && 16 <= o[1] && o[1] <= 31) || (o[0]
                    == 192 && o[1] == 168) || (o[0] == 169 && o[1] == 254) {
                    return AddressGroup::Local;
                }
                AddressGroup::V4([o[0], o[1], o[2]])
            },
            IpAddr::V6(o) => {
                let loopback: [u8; 16] = [0, 0, 0, 0, 0, 0, 0, 0, 0, 0, 0, 0, 0, 0, 0, 1];
                assert(loopback@ =~= bytes::zeros(15).push(1));
                if bytes::bytes_equal(&o, &loopback) {
                    return AddressGroup::Local;
                }
                if o[0] == 0xFC || o[0] == 0xFD {
                    return AddressGroup::Local;
                }
                if o[0] == 0xFE && 0x80 <= o[1] && o[1] <= 0xBF {
                    return AddressGroup::Local;
                }
                AddressGroup::V6([o[0], o[1], o[2], o[3], o[4], o[5], o[6], o[7]])
            },
        }
    }

    /// The wider IPv6 grouping (/48) this belongs to, if any.
    pub fn site(&self) -> (r: Option<[u8; 6]>)
        ensures
            r == site_of(*self),
    {
        match self {
            AddressGroup::V6(p) => Some([p[0], p[1], p[2], p[3], p[4], p[5]]),
            _ => None,
        }
    }

    pub fn is_local(&self) -> (r: bool)
        ensures
            r == (*self is Local),
    {
        match self {
            AddressGroup::Local => true,
            _ => false,
        }
    }
}

/// Addresses that differ only below /24, or only below /64, are one group, and
/// addresses of one /48 that are not local are one site.
pub proof fn prefixes_decide_groups(a: [u8; 4], b: [u8; 4], c: [u8; 16], d: [u8; 16])
    requires
        a[0] == b[0] && a[1] == b[1] && a[2] == b[2],
        !(group_of(IpAddr::V6(c)) is Local),
        !(group_of(IpAddr::V6(d)) is Local),
    ensures
        group_of(IpAddr::V4(a)) == group_of(IpAddr::V4(b)),
        c@.subrange(0, 8) == d@.subrange(0, 8) ==> group_of(IpAddr::V6(c)) == group_of(
            IpAddr::V6(d),
        ),
        c@.subrange(0, 6) == d@.subrange(0, 6) ==> site_of(group_of(IpAddr::V6(c))) == site_of(
            group_of(IpAddr::V6(d)),
        ),
{
    if c@.subrange(0, 8) == d@.subrange(0, 8) {
        assert forall|i: int| 0 <= i < 8 implies c@[i] == d@[i] by {
            assert(c@.subrange(0, 8)[i] == d@.subrange(0, 8)[i]);
        }
        assert(c[0] == d[0] && c[1] == d[1] && c[2] == d[2] && c[3] == d[3] && c[4] == d[4] && c[5]
            == d[5] && c[6] == d[6] && c[7] == d[7]);
    }
    if c@.subrange(0, 6) == d@.subrange(0, 6) {
        assert forall|i: int| 0 <= i < 6 implies c@[i] == d@[i] by {
            assert(c@.subrange(0, 6)[i] == d@.subrange(0, 6)[i]);
        }
        assert(c[0] == d[0] && c[1] == d[1] && c[2] == d[2] && c[3] == d[3] && c[4] == d[4] && c[5]
            == d[5]);
    }
}

} // verus!
