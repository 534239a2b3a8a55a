//! Lists of peers, exchanged so nodes can find each other.

use vstd::prelude::*;
use crate::bytes;
use crate::crypto::noise::{NodeId, NoiseKey};
use crate::error;
use crate::error::{CoreError, Fault, Result};
use crate::p2p::address::PeerAddress;
use crate::p2p::net::{IpAddr, NetAddr};
use crate::serialize;
use crate::text;

verus! {

/// Largest address list we will send or act on in one message. Bounds both the
/// work a peer can ask of us and how fast a hostile peer can seed our table.
pub const MAX_ADDRS_PER_MESSAGE: usize = 1000;

/// An IP address on the wire: its family, 4 or 6, and its bytes.
pub open spec fn ip_bytes(ip: IpAddr) -> Seq<u8> {
    match ip {
        IpAddr::V4(o) => seq![4u8] + o@,
        IpAddr::V6(o) => seq![6u8] + o@,
    }
}

/// One peer on the wire: its two keys, its address, and its port.
pub open spec fn peer_bytes(p: PeerAddress) -> Seq<u8> {
    p.node_id.0@ + p.noise_key.0@ + ip_bytes(p.socket.ip) + bytes::le_bytes(
        p.socket.port as nat,
        2,
    )
}

/// Peers on the wire, one after the other.
pub open spec fn peers_bytes(s: Seq<PeerAddress>) -> Seq<u8>
    decreases s.len(),
{
    if s.len() == 0 {
        Seq::empty()
    } else {
        peer_bytes(s[0]) + peers_bytes(s.subrange(1, s.len() as int))
    }
}

/// The part of a list that goes out.
pub open spec fn shared(s: Seq<PeerAddress>) -> Seq<PeerAddress> {
    if s.len() <= MAX_ADDRS_PER_MESSAGE {
        s
    } else {
        s.subrange(0, MAX_ADDRS_PER_MESSAGE as int)
    }
}

/// A list of peers on the wire: a LEB128 count, and that many peers.
pub open spec fn addr_payload(s: Seq<PeerAddress>) -> Seq<u8> {
    serialize::leb128(shared(s).len()) + peers_bytes(shared(s))
}

/// Whether some bytes are this list of peers.
pub open spec fn addr_denoted(data: Seq<u8>, s: Seq<PeerAddress>) -> bool {
    serialize::leb_value(data, 0) matches Some((n, pos)) && n == s.len() && n
        <= MAX_ADDRS_PER_MESSAGE && pos <= data.len() && data.subrange(pos, data.len() as int)
        == peers_bytes(s)
}

proof fn lemma_peer_len(p: PeerAddress)
    ensures
        peer_bytes(p).len() == 67 + match p.socket.ip {
            IpAddr::V4(_) => 4nat,
            IpAddr::V6(_) => 16nat,
        },
        peer_bytes(p).subrange(0, 32) == p.node_id.0@,
        peer_bytes(p).subrange(32, 64) == p.noise_key.0@,
        peer_bytes(p)[64] == match p.socket.ip {
            IpAddr::V4(_) => 4u8,
            IpAddr::V6(_) => 6u8,
        },
        match p.socket.ip {
            IpAddr::V4(o) => peer_bytes(p).subrange(65, 69) == o@ && peer_bytes(p).subrange(69, 71)
                == bytes::le_bytes(p.socket.port as nat, 2),
            IpAddr::V6(o) => peer_bytes(p).subrange(65, 81) == o@ && peer_bytes(p).subrange(81, 83)
                == bytes::le_bytes(p.socket.port as nat, 2),
        },
{
    let s = peer_bytes(p);
    bytes::lemma_le_bytes_len(p.socket.port as nat, 2);
    assert(s.subrange(0, 32) =~= p.node_id.0@);
    assert(s.subrange(32, 64) =~= p.noise_key.0@);
    match p.socket.ip {
        IpAddr::V4(o) => {
            assert(s.subrange(65, 69) =~= o@);
            assert(s.subrange(69, 71) =~= bytes::le_bytes(p.socket.port as nat, 2));
        },
        IpAddr::V6(o) => {
            assert(s.subrange(65, 81) =~= o@);
            assert(s.subrange(81, 83) =~= bytes::le_bytes(p.socket.port as nat, 2));
        },
    }
}

/// No peer's bytes begin another's: what begins with a peer begins with one
/// peer only.
proof fn lemma_peer_prefix(p: PeerAddress, a: Seq<u8>, q: PeerAddress, b: Seq<u8>)
    requires
        peer_bytes(p) + a == peer_bytes(q) + b,
    ensures
        p == q,
        a == b,
{
    let s = peer_bytes(p) + a;
    let t = peer_bytes(q) + b;
    lemma_peer_len(p);
    lemma_peer_len(q);
    assert(s[64] == t[64]);
    bytes::lemma_split_equal(peer_bytes(p), a, peer_bytes(q), b);
    bytes::lemma_array_equal(p.node_id.0, q.node_id.0);
    bytes::lemma_array_equal(p.noise_key.0, q.noise_key.0);
    bytes::lemma_pow256_values();
    bytes::lemma_le_bytes_injective(p.socket.port as nat, q.socket.port as nat, 2);
    match (p.socket.ip, q.socket.ip) {
        (IpAddr::V4(x), IpAddr::V4(y)) => {
            bytes::lemma_array_equal(x, y);
        },
        (IpAddr::V6(x), IpAddr::V6(y)) => {
            bytes::lemma_array_equal(x, y);
        },
        _ => {},
    }
}

proof fn lemma_peers_push(s: Seq<PeerAddress>, p: PeerAddress)
    ensures
        peers_bytes(s.push(p)) == peers_bytes(s) + peer_bytes(p),
    decreases s.len(),
{
    let t = s.push(p);
    if s.len() == 0 {
        assert(t.subrange(1, 1) =~= Seq::<PeerAddress>::empty());
        assert(peers_bytes(t.subrange(1, 1)) =~= Seq::<u8>::empty());
        assert(peers_bytes(t) =~= peers_bytes(s) + peer_bytes(p));
    } else {
        let rest = s.subrange(1, s.len() as int);
        assert(t.subrange(1, t.len() as int) =~= rest.push(p));
        lemma_peers_push(rest, p);
        assert(peers_bytes(t) =~= peers_bytes(s) + peer_bytes(p));
    }
}

/// Lists of peers that agree byte for byte agree peer for peer.
pub proof fn lemma_peers_injective(a: Seq<PeerAddress>, b: Seq<PeerAddress>)
    requires
        a.len() == b.len(),
        peers_bytes(a) == peers_bytes(b),
    ensures
        a == b,
    decreases a.len(),
{
    if a.len() > 0 {
        let x = a.subrange(1, a.len() as int);
        let y = b.subrange(1, b.len() as int);
        lemma_peer_prefix(a[0], peers_bytes(x), b[0], peers_bytes(y));
        lemma_peers_injective(x, y);
        assert(a =~= seq![a[0]] + x);
        assert(b =~= seq![b[0]] + y);
    } else {
        assert(a =~= b);
    }
}

fn push_peer(buf: &mut Vec<u8>, p: &PeerAddress)
    ensures
        final(buf)@ == old(buf)@ + peer_bytes(*p),
{
    bytes::push_bytes(buf, &p.node_id.0);
    bytes::push_bytes(buf, &p.noise_key.0);
    match &p.socket.ip {
        IpAddr::V4(o) => {
            buf.push(4);
            bytes::push_bytes(buf, o);
        },
        IpAddr::V6(o) => {
            buf.push(6);
            bytes::push_bytes(buf, o);
        },
    }
    bytes::push_le(buf, p.socket.port as u64, 2);
    assert(buf@ =~= old(buf)@ + peer_bytes(*p));
}

/// What is wrong with bytes that do not begin with a peer, if they do not.
pub open spec fn peer_fault(tail: Seq<u8>) -> Option<Fault> {
    if tail.len() < 32 {
        Some(error::malformed("addr: truncated node id"@))
    } else if tail.len() < 64 {
        Some(error::malformed("addr: truncated noise key"@))
    } else if tail.len() < 65 {
        Some(error::malformed("addr: truncated"@))
    } else if tail[64] == 4 {
        if tail.len() < 69 {
            Some(error::malformed("addr: truncated v4"@))
        } else if tail.len() < 71 {
            Some(error::malformed("addr: truncated port"@))
        } else {
            None
        }
    } else if tail[64] == 6 {
        if tail.len() < 81 {
            Some(error::malformed("addr: truncated v6"@))
        } else if tail.len() < 83 {
            Some(error::malformed("addr: truncated port"@))
        } else {
            None
        }
    } else {
        Some(
            error::malformed("addr: unknown address family "@ + text::decimal(tail[64] as nat)),
        )
    }
}

/// How many bytes the peer takes that some bytes begin with.
pub open spec fn peer_size(tail: Seq<u8>) -> int {
    if tail[64] == 4 {
        71
    } else {
        83
    }
}

/// What is wrong with bytes that are not so many peers and nothing else.
pub open spec fn peers_fault(tail: Seq<u8>, n: nat) -> Fault
    decreases n,
{
    if n == 0 {
        error::malformed(text::number_between("addr: "@, tail.len(), " trailing bytes"@))
    } else {
        match peer_fault(tail) {
            Some(f) => f,
            None => peers_fault(
                tail.subrange(peer_size(tail), tail.len() as int),
                (n - 1) as nat,
            ),
        }
    }
}

/// What is wrong with bytes that are no list of peers.
pub open spec fn addr_fault(data: Seq<u8>) -> Fault {
    match serialize::leb_value(data, 0) {
        Some((n, pos)) => if n > MAX_ADDRS_PER_MESSAGE {
            error::malformed(
                text::two_numbers(
                    "addr: "@,
                    n,
                    " entries exceeds the "@,
                    MAX_ADDRS_PER_MESSAGE as nat,
                ) + " limit"@,
            )
        } else {
            peers_fault(data.subrange(pos, data.len() as int), n)
        },
        None => serialize::leb_fault(data, 0),
    }
}

/// Read one peer, and the position behind it.
fn read_peer(data: &[u8], pos: usize) -> (r: Result<(PeerAddress, usize)>)
    requires
        pos <= data@.len(),
    ensures
        match r {
            Ok((p, next)) => {
                let tail = data@.subrange(pos as int, data@.len() as int);
                &&& pos < next <= data@.len()
                &&& data@.subrange(pos as int, next as int) == peer_bytes(p)
                &&& peer_fault(tail) is None
                &&& next == pos + peer_size(tail)
            },
            Err(e) => {
                let tail = data@.subrange(pos as int, data@.len() as int);
                &&& peer_fault(tail) == Some(e.fault())
                &&& forall|p: PeerAddress, rest: Seq<u8>|
                    tail != #[trigger] (peer_bytes(p) + rest)
            },
        },
{
    let len: usize = data.len();
    let ghost tail = data@.subrange(pos as int, len as int);
    proof {
        assert forall|p: PeerAddress, rest: Seq<u8>|
            tail == #[trigger] (peer_bytes(p) + rest) implies tail.len() >= 71 && (tail[64] == 4 || (
        tail[64] == 6 && tail.len() >= 83)) by {
            lemma_peer_len(p);
        }
        bytes::lemma_pow256_values();
    }
    if len - pos < 32 {
        return Err(CoreError::Serialization("addr: truncated node id".to_string()));
    }
    if len - pos < 64 {
        return Err(CoreError::Serialization("addr: truncated noise key".to_string()));
    }
    if len - pos < 65 {
        return Err(CoreError::Serialization("addr: truncated".to_string()));
    }
    let node_id = NodeId(bytes::take_array::<32>(data, pos));
    let noise_key = NoiseKey(bytes::take_array::<32>(data, pos + 32));
    let family: u8 = data[pos + 64];
    if family == 4 {
        if len - pos < 69 {
            return Err(CoreError::Serialization("addr: truncated v4".to_string()));
        }
        if len - pos < 71 {
            return Err(CoreError::Serialization("addr: truncated port".to_string()));
        }
        let o: [u8; 4] = bytes::take_array::<4>(data, pos + 65);
        let port: u16 = bytes::read_le(data, pos + 69, 2) as u16;
        let p = PeerAddress::new(node_id, noise_key, NetAddr::new(IpAddr::V4(o), port));
        proof {
            bytes::lemma_le_bytes_of_value(data@.subrange(pos + 69, pos + 71));
            assert(data@.subrange(pos as int, pos + 71) =~= peer_bytes(p));
        }
        Ok((p, pos + 71))
    } else if family == 6 {
        if len - pos < 81 {
            return Err(CoreError::Serialization("addr: truncated v6".to_string()));
        }
        if len - pos < 83 {
            return Err(CoreError::Serialization("addr: truncated port".to_string()));
        }
        let o: [u8; 16] = bytes::take_array::<16>(data, pos + 65);
        let port: u16 = bytes::read_le(data, pos + 81, 2) as u16;
        let p = PeerAddress::new(node_id, noise_key, NetAddr::new(IpAddr::V6(o), port));
        proof {
            bytes::lemma_le_bytes_of_value(data@.subrange(pos + 81, pos + 83));
            assert(data@.subrange(pos as int, pos + 83) =~= peer_bytes(p));
        }
        Ok((p, pos + 83))
    } else {
        Err(
            CoreError::Serialization(
                text::phrase1("addr: unknown address family ", family as u64),
            ),
        )
    }
}

/// A list of peers, exchanged so nodes can find each other without every one
/// of them having to be configured by hand.
///
/// Each entry carries the peer's node identity as well as its address: a
/// dialer that only learned an address would have nothing to check the far end
/// against.
#[derive(Clone, Debug, PartialEq, Eq)]
pub struct AddrMessage {
    pub addrs: Vec<PeerAddress>,
}

/// Whether the peers read so far are those of any list that the bytes could be.
spec fn tracks(
    data: Seq<u8>,
    s: Seq<PeerAddress>,
    read: Seq<PeerAddress>,
    pos: int,
) -> bool {
    &&& read.len() <= s.len()
    &&& s.subrange(0, read.len() as int) == read
    &&& data.subrange(pos, data.len() as int) == peers_bytes(
        s.subrange(read.len() as int, s.len() as int),
    )
}

impl AddrMessage {
    /// The bytes on the wire, for no more peers than a message may carry.
    pub fn encode(&self) -> (r: Vec<u8>)
        ensures
            r@ == addr_payload(self.addrs@),
    {
        let count: usize = if self.addrs.len() <= MAX_ADDRS_PER_MESSAGE {
            self.addrs.len()
        } else {
            MAX_ADDRS_PER_MESSAGE
        };
        let mut buf = serialize::encode_leb128(count as u64);
        let ghost head = buf@;
        let ghost s = shared(self.addrs@);
        let mut i: usize = 0;
        assert(s.subrange(0, 0) =~= Seq::<PeerAddress>::empty());
        assert(buf@ =~= head + peers_bytes(s.subrange(0, 0)));
        while i < count
            invariant
                i <= count == s.len(),
                count <= self.addrs@.len(),
                s == self.addrs@.subrange(0, count as int),
                buf@ == head + peers_bytes(s.subrange(0, i as int)),
            decreases count - i,
        {
            push_peer(&mut buf, &self.addrs[i]);
            proof {
                assert(s.subrange(0, i + 1) =~= s.subrange(0, i as int).push(s[i as int]));
                lemma_peers_push(s.subrange(0, i as int), s[i as int]);
                assert(buf@ =~= head + peers_bytes(s.subrange(0, i + 1)));
            }
            i = i + 1;
        }
        assert(s.subrange(0, i as int) =~= s);
        buf
    }

    pub fn decode(data: &[u8]) -> (r: Result<AddrMessage>)
        ensures
            match r {
                Ok(m) => addr_denoted(data@, m.addrs@),
                Err(e) => e.fault() == addr_fault(data@) && forall|s: Seq<PeerAddress>|
                    !#[trigger] addr_denoted(data@, s),
            },
    {
        let (count, start) = match serialize::decode_leb128(data, 0) {
            Ok(p) => p,
            Err(e) => {
                return Err(e);
            },
        };
        if count > MAX_ADDRS_PER_MESSAGE as u64 {
            return Err(
                CoreError::Serialization(
                    error::joined(
                        text::phrase2(
                            "addr: ",
                            count,
                            " entries exceeds the ",
                            MAX_ADDRS_PER_MESSAGE as u64,
                        ).as_str(),
                        " limit",
                    ),
                ),
            );
        }
        let n: usize = count as usize;
        let mut addrs: Vec<PeerAddress> = Vec::new();
        let mut i: usize = 0;
        let mut pos: usize = start;
        proof {
            assert(data@.subrange(start as int, start as int) =~= Seq::<u8>::empty());
            assert forall|s: Seq<PeerAddress>| #[trigger] addr_denoted(data@, s) implies tracks(
                data@,
                s,
                addrs@,
                pos as int,
            ) by {
                assert(s.subrange(0, 0) =~= addrs@);
                assert(s.subrange(0, s.len() as int) =~= s);
            }
        }
        while i < n
            invariant
                i <= n,
                n == count,
                n <= MAX_ADDRS_PER_MESSAGE,
                start <= pos <= data@.len(),
                serialize::leb_value(data@, 0) == Some((count as nat, start as int)),
                addrs@.len() == i,
                addr_fault(data@) == peers_fault(
                    data@.subrange(pos as int, data@.len() as int),
                    (n - i) as nat,
                ),
                peers_bytes(addrs@) == data@.subrange(start as int, pos as int),
                forall|s: Seq<PeerAddress>| #[trigger]
                    addr_denoted(data@, s) ==> tracks(data@, s, addrs@, pos as int),
            decreases n - i,
        {
            let ghost before = addrs@;
            let ghost tail = data@.subrange(pos as int, data@.len() as int);
            proof {
                assert forall|s: Seq<PeerAddress>| #[trigger] addr_denoted(data@, s) implies tail
                    == peer_bytes(s[i as int]) + peers_bytes(
                    s.subrange(i + 1, s.len() as int),
                ) by {
                    assert(tracks(data@, s, before, pos as int));
                    let rest = s.subrange(i as int, s.len() as int);
                    assert(rest.subrange(1, rest.len() as int) =~= s.subrange(
                        i + 1,
                        s.len() as int,
                    ));
                }
            }
            match read_peer(data, pos) {
                Ok((p, next)) => {
                    addrs.push(p);
                    proof {
                        assert(tail.subrange(peer_size(tail), tail.len() as int) =~= data@.subrange(
                            next as int,
                            data@.len() as int,
                        ));
                        lemma_peers_push(before, p);
                        bytes::lemma_join_ranges(data@, start as int, pos as int, next as int);
                        bytes::lemma_join_ranges(
                            data@,
                            pos as int,
                            next as int,
                            data@.len() as int,
                        );
                        assert forall|s: Seq<PeerAddress>| #[trigger]
                            addr_denoted(data@, s) implies tracks(
                            data@,
                            s,
                            addrs@,
                            next as int,
                        ) by {
                            assert(tracks(data@, s, before, pos as int));
                            lemma_peer_prefix(
                                p,
                                data@.subrange(next as int, data@.len() as int),
                                s[i as int],
                                peers_bytes(s.subrange(i + 1, s.len() as int)),
                            );
                            assert(s.subrange(0, i + 1) =~= s.subrange(0, i as int).push(p));
                        }
                    }
                    pos = next;
                },
                Err(e) => {
                    return Err(e);
                },
            }
            i = i + 1;
        }
        if pos != data.len() {
            proof {
                assert forall|s: Seq<PeerAddress>| !#[trigger] addr_denoted(data@, s) by {
                    if addr_denoted(data@, s) {
                        assert(tracks(data@, s, addrs@, pos as int));
                        assert(s.subrange(i as int, s.len() as int).len() == 0);
                    }
                }
            }
            return Err(
                CoreError::Serialization(
                    text::phrase_around("addr: ", (data.len() - pos) as u64, " trailing bytes"),
                ),
            );
        }
        Ok(AddrMessage { addrs })
    }
}

/// What goes out of a list of peers reads back: the bytes stand for that part
/// of the list and for no other.
pub proof fn addr_roundtrip(s: Seq<PeerAddress>, t: Seq<PeerAddress>)
    ensures
        addr_denoted(addr_payload(s), t) <==> t == shared(s),
{
    let u = shared(s);
    let data = addr_payload(s);
    let count = serialize::leb128(u.len());
    serialize::leb128_roundtrip(u.len(), Seq::empty(), peers_bytes(u));
    assert(Seq::<u8>::empty() + count + peers_bytes(u) =~= data);
    assert(data.subrange(count.len() as int, data.len() as int) =~= peers_bytes(u));
    if addr_denoted(data, t) {
        lemma_peers_injective(t, u);
    }
}

} // verus!
