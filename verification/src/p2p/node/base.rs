//! The state of a node, and its part in handshakes and in keeping connections
//! alive.

use vstd::prelude::*;
use crate::block::BlockView;
use crate::bytes;
use crate::consensus::chain;
use crate::consensus::chain::{ChainState, ChainView};
use crate::crypto::hash as digest;
use crate::crypto::noise;
use crate::crypto::schnorr;
use crate::crypto::schnorr::{PublicKey32, SecretKey32};
use crate::hash;
use crate::hash::Hash160;
use crate::p2p::clock::Clock;
use crate::p2p::mempool::{Entries, Mempool};
use crate::p2p::net::NetAddr;
use crate::p2p::node::event;
use crate::p2p::node::event::{Act, Action, EventView, Flow, FlowView, NodeEvent};
use crate::p2p::orphan;
use crate::p2p::orphan::OrphanPool;
use crate::p2p::peer;
use crate::p2p::peer::{
    ConnectionSlot, PeerFilter, PeerInfo, PeerManager, PeerState, PeersView,
    MAX_OUTBOUND_PEERS, MSG_RATE_LIMIT, PEER_TIMEOUT_SECS, VERSION_TIMEOUT_SECS,
};
use crate::p2p::sync::{ChainSyncer, HeaderChain, HeaderView, SyncState};
use crate::p2p::wire::frame::MessageView;
use crate::p2p::wire::reject;
use crate::p2p::wire::{
    GetHeadersMessage, Message, MessageType, PingMessage, RejectMessage, VersionMessage, HEADER_SIZE,
};
use crate::types::Address;

verus! {

pub const PROTOCOL_VERSION: u32 = 1;

/// The oldest protocol version that is still spoken.
pub const MIN_PROTOCOL_VERSION: u32 = 1;

pub const SERVICES: u64 = 0;

/// The code of a rejection for an obsolete protocol version.
pub const REJECT_OBSOLETE: u8 = 0x02;

/// A number that is not likely to come twice: eight random bytes, or the time
/// where the system has none to give.
pub fn rand_u64() -> (r: u64) {
    match noise::random_bytes() {
        Some(b) => bytes::read_le(&b, 0, 8),
        None => chain::now_secs(),
    }
}

/// A fresh random payout address, so two nodes started the same way do not
/// mine to the same account. It is the address of some key pair.
pub fn random_address() -> (r: Address)
    ensures
        exists|secret: [u8; 32]| #[trigger]
            schnorr::valid_secret(secret@) && r.0.0 == digest::spec_hash160(
                schnorr::spec_xonly(secret)@,
            ),
{
    let secret = SecretKey32::generate();
    assert(schnorr::valid_secret(secret.0@));
    match PublicKey32::from_secret(&secret) {
        Ok(key) => Address(Hash160(digest::hash160(&key.0))),
        Err(_) => Address(Hash160::zero()),
    }
}

/// One connection, as long as it lasts.
///
/// An inbound connection arrives from an ephemeral port, so its peer is
/// re-keyed to the port it listens on once its version is known.
#[derive(Clone, Copy, Debug)]
pub struct Connection {
    /// The socket's remote address.
    pub src: NetAddr,
    pub inbound: bool,
    /// The address that the peer is known under.
    pub key: NetAddr,
    /// Whether the connection owns the peer's slot.
    pub keyed: bool,
}

impl Connection {
    /// A connection that has just been opened.
    pub fn new(src: NetAddr, inbound: bool) -> (r: Connection)
        ensures
            r == (Connection { src, inbound, key: src, keyed: !inbound }),
    {
        Connection { src, inbound, key: src, keyed: !inbound }
    }
}

/// The state of a node.
pub struct NodeCore {
    pub peers: PeerManager,
    pub pool: Mempool,
    pub chain: ChainState,
    pub headers: HeaderChain,
    pub syncer: ChainSyncer,
    pub orphans: OrphanPool,
    /// Echoed in our version message, to spot the case where we dial
    /// ourselves.
    pub identity_nonce: u64,
    pub listen_port: u16,
}

/// What a node holds.
#[verifier::ext_equal]
pub struct CoreView {
    pub peers: PeersView,
    pub pool: Entries,
    pub chain: ChainView,
    pub headers: HeaderView,
    pub syncer: ChainSyncer,
    pub orphans: Seq<BlockView>,
    pub identity_nonce: u64,
    pub listen_port: u16,
}

impl View for NodeCore {
    type V = CoreView;

    open spec fn view(&self) -> CoreView {
        CoreView {
            peers: self.peers@,
            pool: self.pool@,
            chain: self.chain@,
            headers: self.headers@,
            syncer: self.syncer,
            orphans: self.orphans@,
            identity_nonce: self.identity_nonce,
            listen_port: self.listen_port,
        }
    }
}

/// What a message does: the node and the connection after it, what is to be
/// done, and where the connection goes.
#[verifier::ext_equal]
pub struct Outcome {
    pub core: CoreView,
    pub conn: Connection,
    pub acts: Seq<Act>,
    pub flow: FlowView,
}

/// A message that does nothing.
pub open spec fn ignored(v: CoreView, c: Connection) -> Outcome {
    Outcome { core: v, conn: c, acts: Seq::empty(), flow: FlowView::Continue }
}

/// A message that ends a connection with an error that says this.
pub open spec fn failed(v: CoreView, c: Connection, words: Seq<char>) -> Outcome {
    Outcome { core: v, conn: c, acts: Seq::empty(), flow: FlowView::Fail(words) }
}

/// A message of a type with a payload.
pub open spec fn say(t: MessageType, payload: Seq<u8>) -> MessageView {
    MessageView { msg_type: t, payload }
}

/// A note on a peer.
#[derive(Clone, Copy, Debug)]
pub enum Mark {
    /// It sent its version.
    Greeted(VersionMessage),
    /// The handshake is complete.
    Ready,
    /// It did something useful.
    Alive,
    /// It answered our ping.
    Answered,
    /// It did something wrong.
    Bad(i32),
    /// We sent it a ping.
    Pinged(u64),
}

/// A peer after a note at a time.
pub open spec fn marked(p: PeerInfo, m: Mark, now: u64) -> PeerInfo {
    match m {
        Mark::Greeted(ver) => PeerInfo {
            version: if ver.version < PROTOCOL_VERSION {
                ver.version
            } else {
                PROTOCOL_VERSION
            },
            height: ver.height,
            services: ver.services,
            state: PeerState::Handshaking,
            last_seen: Some(now),
            ..p
        },
        Mark::Ready => PeerInfo {
            state: PeerState::Ready,
            handshaked: true,
            last_seen: Some(now),
            ..p
        },
        Mark::Alive => (PeerInfo { last_seen: Some(now), ..p }).after_tick(),
        Mark::Answered => (PeerInfo {
            last_seen: Some(now),
            last_ping_nonce: None,
            last_ping_at: None,
            ..p
        }).after_tick(),
        Mark::Bad(points) => p.after_bad(points, now),
        Mark::Pinged(nonce) => PeerInfo {
            last_ping_nonce: Some(nonce),
            last_ping_at: Some(now),
            ..p
        },
    }
}

/// Peers after a note on one of them, if it is known.
pub open spec fn with_mark(v: PeersView, addr: NetAddr, m: Mark, now: u64) -> PeersView {
    match peer::place(v.peers, addr) {
        Some(i) => v.with_peer(i, marked(v.peers[i], m, now)),
        None => v,
    }
}

/// Take a note on a peer, if it is known.
pub fn mark(peers: &mut PeerManager, addr: &NetAddr, m: Mark, now: u64)
    requires
        old(peers)@.wf(),
    ensures
        final(peers)@.wf(),
        final(peers)@ == with_mark(old(peers)@, *addr, m, now),
{
    proof {
        peer::lemma_place(peers@.peers, *addr);
    }
    let mut p = match peers.get_peer(addr) {
        Some(p) => *p,
        None => {
            return;
        },
    };
    match m {
        Mark::Greeted(ver) => {
            p.version = if ver.version < PROTOCOL_VERSION {
                ver.version
            } else {
                PROTOCOL_VERSION
            };
            p.height = ver.height;
            p.services = ver.services;
            p.state = PeerState::Handshaking;
            p.last_seen = Some(now);
        },
        Mark::Ready => {
            p.state = PeerState::Ready;
            p.handshaked = true;
            p.last_seen = Some(now);
        },
        Mark::Alive => {
            p.last_seen = Some(now);
            p.score_tick();
        },
        Mark::Answered => {
            p.last_seen = Some(now);
            p.last_ping_nonce = None;
            p.last_ping_at = None;
            p.score_tick();
        },
        Mark::Bad(points) => {
            p.score_bad_at(points, now);
        },
        Mark::Pinged(nonce) => {
            p.last_ping_nonce = Some(nonce);
            p.last_ping_at = Some(now);
        },
    }
    peers.put_peer(p);
}

// ---------------------------------------------------------------------------
// Handshake
// ---------------------------------------------------------------------------

/// Our version message at a time, in Unix seconds.
pub open spec fn our_version(v: CoreView, secs: u64) -> VersionMessage {
    VersionMessage {
        version: PROTOCOL_VERSION,
        services: SERVICES,
        timestamp: secs,
        height: v.chain.tip.height.0,
        nonce: v.identity_nonce,
        listen_port: v.listen_port,
    }
}

/// The rejection of an obsolete protocol version.
pub open spec fn obsolete_reply() -> MessageView {
    say(
        MessageType::Reject,
        reject::reject_bytes(
            vstd::utf8::encode_utf8("version"@),
            REJECT_OBSOLETE,
            vstd::utf8::encode_utf8("obsolete protocol version"@),
        ),
    )
}

/// What a version message does.
///
/// Our own nonce means that we dialed ourselves. A version too old is answered
/// with a rejection. An inbound peer is re-keyed to the port it listens on and
/// has to get the slot for that address; it has not seen our version yet.
pub open spec fn after_version(
    v: CoreView,
    c: Connection,
    m: VersionMessage,
    ms: u64,
    secs: u64,
) -> Outcome {
    let announced = NetAddr { ip: c.src.ip, port: m.listen_port };
    if m.nonce == v.identity_nonce {
        Outcome { flow: FlowView::Close, ..ignored(v, c) }
    } else if m.version < MIN_PROTOCOL_VERSION {
        Outcome {
            acts: seq![Act::Reply(obsolete_reply())],
            flow: FlowView::Close,
            ..ignored(v, c)
        }
    } else if c.inbound && v.peers.slot(announced, true, ms) != ConnectionSlot::Accepted {
        Outcome { flow: FlowView::Close, ..ignored(v, c) }
    } else if c.inbound {
        Outcome {
            core: CoreView {
                peers: with_mark(
                    v.peers.begun(announced, true, ms),
                    announced,
                    Mark::Greeted(m),
                    ms,
                ),
                ..v
            },
            conn: Connection { key: announced, keyed: true, ..c },
            acts: seq![
                Act::Plug(announced),
                Act::Reply(say(MessageType::Version, our_version(v, secs).spec_bytes())),
                Act::Reply(say(MessageType::VerAck, Seq::empty())),
            ],
            flow: FlowView::Continue,
        }
    } else {
        Outcome {
            core: CoreView { peers: with_mark(v.peers, c.key, Mark::Greeted(m), ms), ..v },
            conn: c,
            acts: seq![Act::Reply(say(MessageType::VerAck, Seq::empty()))],
            flow: FlowView::Continue,
        }
    }
}

/// Whether we ask a peer for headers: it claims more than we have, and we are
/// not asking anyone yet.
pub open spec fn asks_for_headers(v: CoreView, p: PeerInfo) -> bool {
    p.height > v.headers.top && !v.syncer.busy()
}

/// A request for the headers after our best one.
pub open spec fn header_request(v: CoreView) -> MessageView {
    say(
        MessageType::GetHeaders,
        (GetHeadersMessage {
            start_hash: v.headers.best(),
            stop_hash: hash::zero_hash(),
        }).spec_bytes(),
    )
}

/// What a version acknowledgement does: the peer is ready. The first time it is
/// announced, asked for headers that we lack, and for peers if we want more.
pub open spec fn after_verack(v: CoreView, c: Connection, ms: u64) -> Outcome {
    match v.peers.peer(c.key) {
        None => ignored(v, c),
        Some(p) => {
            let peers = with_mark(v.peers, c.key, Mark::Ready, ms);
            if p.state is Ready {
                Outcome { core: CoreView { peers, ..v }, ..ignored(v, c) }
            } else {
                let connected = seq![Act::Emit(EventView::PeerConnected(c.key))];
                let gossip = if peers.select(PeerFilter::Ready, 0).len() < MAX_OUTBOUND_PEERS {
                    seq![Act::Reply(say(MessageType::GetAddr, Seq::empty()))]
                } else {
                    Seq::empty()
                };
                if asks_for_headers(v, p) {
                    Outcome {
                        core: CoreView {
                            peers,
                            syncer: ChainSyncer {
                                state: SyncState::SyncingHeaders,
                                sync_peer: Some(c.key),
                                ..v.syncer
                            },
                            ..v
                        },
                        conn: c,
                        acts: connected + seq![Act::Reply(header_request(v))] + gossip,
                        flow: FlowView::Continue,
                    }
                } else {
                    Outcome {
                        core: CoreView { peers, ..v },
                        conn: c,
                        acts: connected + gossip,
                        flow: FlowView::Continue,
                    }
                }
            }
        },
    }
}

/// What a ping does: it is answered, and counts in the peer's favour.
pub open spec fn after_ping(v: CoreView, c: Connection, m: PingMessage, ms: u64) -> Outcome {
    Outcome {
        core: CoreView { peers: with_mark(v.peers, c.key, Mark::Alive, ms), ..v },
        acts: seq![Act::Reply(say(MessageType::Pong, m.spec_bytes()))],
        ..ignored(v, c)
    }
}

/// What a pong does. Only the answer to the outstanding ping is proof of life;
/// another answer to it counts against the peer.
pub open spec fn after_pong(v: CoreView, c: Connection, m: PingMessage, ms: u64) -> Outcome {
    match v.peers.peer(c.key) {
        Some(p) => match p.last_ping_nonce {
            Some(expected) => Outcome {
                core: CoreView {
                    peers: with_mark(
                        v.peers,
                        c.key,
                        if expected == m.nonce {
                            Mark::Answered
                        } else {
                            Mark::Bad(1)
                        },
                        ms,
                    ),
                    ..v
                },
                ..ignored(v, c)
            },
            None => ignored(v, c),
        },
        None => ignored(v, c),
    }
}

/// The bytes of a message on the wire.
pub open spec fn wire_size(payload: nat) -> usize {
    if payload + HEADER_SIZE > usize::MAX {
        usize::MAX
    } else {
        (payload + HEADER_SIZE) as usize
    }
}

/// The peers after one has sent a message of some size, and whether it may: a
/// peer that is not known yet is not limited. Both the message and its bytes
/// are counted.
pub open spec fn charged(v: PeersView, addr: NetAddr, size: usize, ms: u64) -> (PeersView, bool) {
    match peer::place(v.peers, addr) {
        Some(i) => {
            let p = v.peers[i].after_message(ms).after_bytes(size, ms);
            (v.with_peer(i, p), p.rate.messages <= MSG_RATE_LIMIT)
        },
        None => (v, true),
    }
}

/// The peers that get a ping and the pings they get, each with the next of some
/// nonces. One that has not answered the last ping gets none.
pub open spec fn pinged(v: PeersView, addrs: Seq<NetAddr>, nonces: Seq<u64>, ms: u64) -> (
    PeersView,
    Seq<Act>,
)
    decreases addrs.len(),
{
    if addrs.len() == 0 {
        (v, Seq::empty())
    } else {
        let (w, sent) = pinged(v, addrs.drop_last(), nonces, ms);
        let a = addrs.last();
        let nonce = nonces[addrs.len() - 1];
        match w.peer(a) {
            Some(p) if p.last_ping_nonce is None => (
                with_mark(w, a, Mark::Pinged(nonce), ms),
                sent.push(
                    Act::Send(a, say(MessageType::Ping, (PingMessage { nonce }).spec_bytes())),
                ),
            ),
            _ => (w, sent),
        }
    }
}

/// Disconnects for some addresses.
pub open spec fn cut(addrs: Seq<NetAddr>) -> Seq<Act> {
    Seq::new(addrs.len(), |i: int| Act::Disconnect(addrs[i]))
}

/// What the regular maintenance of connections does: peers that stopped
/// answering are cut, the rest are pinged, and what is gone is forgotten.
pub open spec fn maintained(v: PeersView, nonces: Seq<u64>, ms: u64) -> (PeersView, Seq<Act>) {
    let stale = v.select(PeerFilter::Stale((PEER_TIMEOUT_SECS * 1000) as u64), ms).map_values(
        peer::addr_of(),
    );
    let ready = v.select(PeerFilter::ReadyOpen, ms).map_values(peer::addr_of());
    let (w, sent) = pinged(v, ready, nonces, ms);
    (w.pruned(ms), cut(stale) + sent)
}

/// A node that has a chain and nothing else yet.
pub open spec fn fresh_node(
    clock: Clock,
    chain: ChainView,
    identity_nonce: u64,
    listen_port: u16,
) -> CoreView {
    let headers = crate::p2p::sync::genesis_headers(chain.params).followed(chain);
    CoreView {
        peers: peer::no_peers(clock),
        pool: Seq::empty(),
        chain,
        headers,
        syncer: ChainSyncer {
            state: SyncState::Idle,
            best_height: headers.top,
            best_hash: headers.best(),
            sync_peer: None,
        },
        orphans: Seq::empty(),
        identity_nonce,
        listen_port,
    }
}

impl NodeCore {
    /// Whether the parts of a node are sound.
    pub open spec fn wf(&self) -> bool {
        &&& self.peers@.wf()
        &&& self.pool.wf()
        &&& self.chain@.wf()
        &&& self.headers@.wf()
        &&& orphan::orphans_wf(self.orphans@)
    }

    /// A node that has a chain and nothing else yet.
    pub fn new(chain: ChainState, identity_nonce: u64, listen_port: u16) -> (r: NodeCore)
        requires
            chain@.wf(),
        ensures
            r.wf(),
            r@ == fresh_node(r@.peers.clock, chain@, identity_nonce, listen_port),
    {
        let mut headers = HeaderChain::with_params(chain.params);
        headers.follow(&chain);
        let mut syncer = ChainSyncer::new(headers.best_hash());
        syncer.received_header(headers.best_hash(), headers.height());
        NodeCore {
            peers: PeerManager::new(),
            pool: Mempool::new(),
            chain,
            headers,
            syncer,
            orphans: OrphanPool::new(),
            identity_nonce,
            listen_port,
        }
    }

    /// Our version handshake payload, carrying the port we listen on so the
    /// peer can key us by a stable address rather than an ephemeral one.
    pub fn version_message(&self, secs: u64) -> (r: VersionMessage)
        ensures
            r == our_version(self@, secs),
    {
        VersionMessage {
            version: PROTOCOL_VERSION,
            services: SERVICES,
            timestamp: secs,
            height: self.chain.tip.height.0,
            nonce: self.identity_nonce,
            listen_port: self.listen_port,
        }
    }

    /// Act on a peer's version.
    pub fn on_version(&mut self, conn: &mut Connection, ver: &VersionMessage, ms: u64, secs: u64)
        -> (r: (Vec<Action>, Flow))
        requires
            old(self).wf(),
        ensures
            final(self).wf(),
            ({
                let o = after_version(old(self)@, *old(conn), *ver, ms, secs);
                &&& final(self)@ == o.core
                &&& *final(conn) == o.conn
                &&& event::acts(r.0@) == o.acts
                &&& r.1@ == o.flow
            }),
    {
        let mut out: Vec<Action> = Vec::new();
        let ghost o = after_version(self@, *conn, *ver, ms, secs);
        assert(event::acts(out@) =~= Seq::<Act>::empty());
        if ver.nonce == self.identity_nonce {
            return (out, Flow::Close);
        }
        if ver.version < MIN_PROTOCOL_VERSION {
            let refusal = RejectMessage {
                message: "version".to_string(),
                code: REJECT_OBSOLETE,
                reason: "obsolete protocol version".to_string(),
            };
            event::add_action(
                &mut out,
                Action::Reply(Message::new(MessageType::Reject, refusal.encode())),
            );
            assert(event::acts(out@) =~= o.acts);
            return (out, Flow::Close);
        }
        if conn.inbound {
            let announced = NetAddr::new(conn.src.ip, ver.listen_port);
            let version = self.version_message(secs);
            let slot = self.peers.begin_connection_at(announced, true, ms);
            if slot != ConnectionSlot::Accepted {
                return (out, Flow::Close);
            }
            conn.key = announced;
            conn.keyed = true;
            mark(&mut self.peers, &announced, Mark::Greeted(*ver), ms);
            event::add_action(&mut out, Action::Plug(announced));
            event::add_action(
                &mut out,
                Action::Reply(Message::new(MessageType::Version, version.encode())),
            );
        } else {
            mark(&mut self.peers, &conn.key, Mark::Greeted(*ver), ms);
        }
        event::add_action(&mut out, Action::Reply(Message::new(MessageType::VerAck, Vec::new())));
        assert(event::acts(out@) =~= o.acts);
        (out, Flow::Continue)
    }

    /// Act on a peer's acknowledgement of our version.
    pub fn on_verack(&mut self, conn: &Connection, ms: u64) -> (r: (Vec<Action>, Flow))
        requires
            old(self).wf(),
        ensures
            final(self).wf(),
            ({
                let o = after_verack(old(self)@, *conn, ms);
                &&& final(self)@ == o.core
                &&& event::acts(r.0@) == o.acts
                &&& r.1@ == o.flow
            }),
    {
        let mut out: Vec<Action> = Vec::new();
        let ghost o = after_verack(self@, *conn, ms);
        assert(event::acts(out@) =~= Seq::<Act>::empty());
        let p = match self.peers.get_peer(&conn.key) {
            Some(p) => *p,
            None => {
                return (out, Flow::Continue);
            },
        };
        mark(&mut self.peers, &conn.key, Mark::Ready, ms);
        if p.state == PeerState::Ready {
            return (out, Flow::Continue);
        }
        event::add_action(&mut out, Action::Emit(NodeEvent::PeerConnected(conn.key)));
        if p.height > self.headers.height() && !self.syncer.is_syncing() {
            let req = self.syncer.start_header_sync(conn.key, self.headers.best_hash());
            event::add_action(
                &mut out,
                Action::Reply(Message::new(MessageType::GetHeaders, req.encode())),
            );
        }
        if self.peers.need_more_peers() {
            event::add_action(
                &mut out,
                Action::Reply(Message::new(MessageType::GetAddr, Vec::new())),
            );
        }
        assert(event::acts(out@) =~= o.acts);
        (out, Flow::Continue)
    }

    /// Act on a ping.
    pub fn on_ping(&mut self, conn: &Connection, ping: &PingMessage, ms: u64) -> (r: (
        Vec<Action>,
        Flow,
    ))
        requires
            old(self).wf(),
        ensures
            final(self).wf(),
            ({
                let o = after_ping(old(self)@, *conn, *ping, ms);
                &&& final(self)@ == o.core
                &&& event::acts(r.0@) == o.acts
                &&& r.1@ == o.flow
            }),
    {
        let mut out: Vec<Action> = Vec::new();
        mark(&mut self.peers, &conn.key, Mark::Alive, ms);
        event::add_action(
            &mut out,
            Action::Reply(Message::new(MessageType::Pong, ping.encode())),
        );
        assert(event::acts(out@) =~= after_ping(old(self)@, *conn, *ping, ms).acts);
        (out, Flow::Continue)
    }

    /// Act on a pong.
    pub fn on_pong(&mut self, conn: &Connection, pong: &PingMessage, ms: u64) -> (r: (
        Vec<Action>,
        Flow,
    ))
        requires
            old(self).wf(),
        ensures
            final(self).wf(),
            ({
                let o = after_pong(old(self)@, *conn, *pong, ms);
                &&& final(self)@ == o.core
                &&& event::acts(r.0@) == o.acts
                &&& r.1@ == o.flow
            }),
    {
        let out: Vec<Action> = Vec::new();
        assert(event::acts(out@) =~= Seq::<Act>::empty());
        let expected = match self.peers.get_peer(&conn.key) {
            Some(p) => p.last_ping_nonce,
            None => None,
        };
        match expected {
            Some(n) => {
                if n == pong.nonce {
                    mark(&mut self.peers, &conn.key, Mark::Answered, ms);
                } else {
                    mark(&mut self.peers, &conn.key, Mark::Bad(1), ms);
                }
            },
            None => {},
        }
        (out, Flow::Continue)
    }

    /// Count a message of some size against its peer's allowances. Gives
    /// whether the peer may still send messages; how long it has to wait for
    /// having sent too many bytes, [`NodeCore::read_after`] says.
    pub fn charge(&mut self, addr: &NetAddr, size: usize, ms: u64) -> (r: bool)
        requires
            old(self).wf(),
        ensures
            final(self).wf(),
            ({
                let (peers, within) = charged(old(self)@.peers, *addr, size, ms);
                &&& final(self)@ == (CoreView { peers, ..old(self)@ })
                &&& r == within
            }),
    {
        proof {
            peer::lemma_place(self.peers@.peers, *addr);
        }
        let mut p = match self.peers.get_peer(addr) {
            Some(p) => *p,
            None => {
                return true;
            },
        };
        let within = p.allow_message_at(ms);
        let _ = p.allow_bytes_at(size, ms);
        self.peers.put_peer(p);
        within
    }

    /// When the next bytes of a connection may be read. A peer past its byte
    /// budget is not read from until what it sent is paid for, so that it slows
    /// down; nothing that it sent is lost.
    pub fn read_after(&self, conn: &Connection, ms: u64) -> (r: u64)
        requires
            self.wf(),
        ensures
            r == match self@.peers.peer(conn.key) {
                Some(p) => p.paid_at(ms),
                None => ms,
            },
    {
        proof {
            peer::lemma_place(self.peers@.peers, conn.key);
        }
        match self.peers.get_peer(&conn.key) {
            Some(p) => p.paid_time(ms),
            None => ms,
        }
    }

    /// Act on bytes that are no message: garbage, or more than a message may
    /// have. They count against the peer.
    pub fn on_bad_stream(&mut self, conn: &Connection, ms: u64)
        requires
            old(self).wf(),
        ensures
            final(self).wf(),
            final(self)@ == (CoreView {
                peers: with_mark(old(self)@.peers, conn.key, Mark::Bad(20), ms),
                ..old(self)@
            }),
    {
        self.penalize(&conn.key, 20, ms);
    }

    /// Until when the next bytes of a connection have to arrive, and whether its
    /// handshake is complete.
    ///
    /// Until then the connection lives on a short leash from the time it was
    /// opened; afterwards the idle timeout governs, refreshed by pings.
    pub fn read_deadline(&self, conn: &Connection, opened: u64, ms: u64) -> (r: (u64, bool))
        requires
            self.wf(),
        ensures
            r.1 == (self@.peers.peer(conn.key) matches Some(p) && p.state is Ready),
            r.0 == if r.1 {
                peer::later(ms, (PEER_TIMEOUT_SECS * 1000) as u64)
            } else {
                peer::later(opened, (VERSION_TIMEOUT_SECS * 1000) as u64)
            },
    {
        proof {
            peer::lemma_place(self.peers@.peers, conn.key);
        }
        let ready = match self.peers.get_peer(&conn.key) {
            Some(p) => p.state == PeerState::Ready,
            None => false,
        };
        if ready {
            (ms.saturating_add(PEER_TIMEOUT_SECS * 1000), true)
        } else {
            (opened.saturating_add(VERSION_TIMEOUT_SECS * 1000), false)
        }
    }

    /// Count points against a peer, if it is known.
    pub fn penalize(&mut self, addr: &NetAddr, points: i32, ms: u64)
        requires
            old(self).wf(),
        ensures
            final(self).wf(),
            final(self)@ == (CoreView {
                peers: with_mark(old(self)@.peers, *addr, Mark::Bad(points), ms),
                ..old(self)@
            }),
    {
        mark(&mut self.peers, addr, Mark::Bad(points), ms);
    }

    /// Take note that a peer could not be reached.
    pub fn dial_failed(&mut self, addr: &NetAddr, ms: u64)
        requires
            old(self).wf(),
        ensures
            final(self).wf(),
            final(self)@ == (CoreView {
                peers: with_mark(old(self)@.peers, *addr, Mark::Bad(5), ms).ended(*addr),
                ..old(self)@
            }),
    {
        mark(&mut self.peers, addr, Mark::Bad(5), ms);
        self.peers.mark_disconnected(addr);
    }

    /// Take note that a connection has ended.
    ///
    /// Only one that claimed the peer's slot marks the peer disconnected:
    /// otherwise a rejected duplicate would tear down the live connection it
    /// collided with.
    pub fn finish_connection(&mut self, conn: &Connection) -> (r: Vec<Action>)
        requires
            old(self).wf(),
        ensures
            final(self).wf(),
            conn.keyed ==> final(self)@ == (CoreView {
                peers: old(self)@.peers.ended(conn.key),
                ..old(self)@
            }) && event::acts(r@) == seq![Act::Emit(EventView::PeerDisconnected(conn.key))],
            !conn.keyed ==> final(self)@ == old(self)@ && r@.len() == 0,
    {
        let mut out: Vec<Action> = Vec::new();
        if conn.keyed {
            self.peers.mark_disconnected(&conn.key);
            event::add_action(&mut out, Action::Emit(NodeEvent::PeerDisconnected(conn.key)));
            assert(event::acts(out@) =~= seq![
                Act::Emit(EventView::PeerDisconnected(conn.key)),
            ]);
        }
        out
    }

    /// Maintain connections, with fresh nonces for the pings.
    pub fn tick(&mut self, ms: u64) -> (r: Vec<Action>)
        requires
            old(self).wf(),
        ensures
            final(self).wf(),
            exists|nonces: Seq<u64>|
                ({
                    let (peers, sent) = #[trigger] maintained(old(self)@.peers, nonces, ms);
                    &&& final(self)@ == (CoreView { peers, ..old(self)@ })
                    &&& event::acts(r@) == sent
                }),
    {
        let n: usize = self.peers.ready_peers_at(ms).len();
        let mut nonces: Vec<u64> = Vec::new();
        while nonces.len() < n
            invariant
                nonces@.len() <= n,
            decreases n - nonces@.len(),
        {
            nonces.push(rand_u64());
        }
        self.tick_with(&nonces, ms)
    }

    /// Maintain connections, with these nonces for the pings, one per peer that
    /// is ready.
    pub fn tick_with(&mut self, nonces: &[u64], ms: u64) -> (r: Vec<Action>)
        requires
            old(self).wf(),
            nonces@.len() == old(self)@.peers.select(PeerFilter::ReadyOpen, ms).len(),
        ensures
            final(self).wf(),
            ({
                let (peers, sent) = maintained(old(self)@.peers, nonces@, ms);
                &&& final(self)@ == (CoreView { peers, ..old(self)@ })
                &&& event::acts(r@) == sent
            }),
    {
        let mut out: Vec<Action> = Vec::new();
        assert(event::acts(out@) =~= Seq::<Act>::empty());
        let stale = self.peers.stale_peers_at(PEER_TIMEOUT_SECS * 1000, ms);
        let mut i: usize = 0;
        while i < stale.len()
            invariant
                i <= stale@.len(),
                event::acts(out@) == cut(stale@).subrange(0, i as int),
            decreases stale@.len() - i,
        {
            event::add_action(&mut out, Action::Disconnect(stale[i]));
            i = i + 1;
            assert(event::acts(out@) =~= cut(stale@).subrange(0, i as int));
        }
        let ghost head = event::acts(out@);
        assert(head =~= cut(stale@));
        let ready = self.peers.peers_for_announcement_at(ms);
        let ghost v = self.peers@;
        let mut j: usize = 0;
        proof {
            assert(ready@.subrange(0, 0) =~= Seq::<NetAddr>::empty());
            assert(event::acts(out@) =~= head + Seq::<Act>::empty());
        }
        while j < ready.len()
            invariant
                j <= ready@.len(),
                ready@.len() == nonces@.len(),
                self.peers@.wf(),
                self.wf(),
                pinged(v, ready@.subrange(0, j as int), nonces@, ms).0 == self.peers@,
                event::acts(out@) == head + pinged(
                    v,
                    ready@.subrange(0, j as int),
                    nonces@,
                    ms,
                ).1,
                self@ == (CoreView { peers: self.peers@, ..old(self)@ }),
            decreases ready@.len() - j,
        {
            let addr = ready[j];
            let nonce = nonces[j];
            let ghost before = pinged(v, ready@.subrange(0, j as int), nonces@, ms).1;
            proof {
                let t = ready@.subrange(0, j + 1);
                assert(t.drop_last() =~= ready@.subrange(0, j as int));
                assert(t.last() == addr);
            }
            let wanted = match self.peers.get_peer(&addr) {
                Some(p) => p.last_ping_nonce.is_none(),
                None => false,
            };
            if wanted {
                mark(&mut self.peers, &addr, Mark::Pinged(nonce), ms);
                let ping = PingMessage { nonce };
                let msg = Message::new(MessageType::Ping, ping.encode());
                let ghost said = msg@;
                event::add_action(&mut out, Action::Send(addr, msg));
                assert(event::acts(out@) =~= head + before.push(Act::Send(addr, said)));
            }
            j = j + 1;
        }
        assert(ready@.subrange(0, j as int) =~= ready@);
        self.peers.prune_disconnected_at(ms);
        out
    }
}

// ---------------------------------------------------------------------------
// Laws
// ---------------------------------------------------------------------------

/// A node that dials itself hangs up, whichever side of the connection it is
/// on, and nothing changes.
pub proof fn self_connection_is_dropped(
    v: CoreView,
    c: Connection,
    m: VersionMessage,
    ms: u64,
    secs: u64,
)
    requires
        m.nonce == v.identity_nonce,
    ensures
        after_version(v, c, m, ms, secs) == (Outcome { flow: FlowView::Close, ..ignored(v, c) }),
        forall|t: u64| our_version(v, t).nonce == v.identity_nonce,
{
}

/// A second inbound connection that announces the address of a live peer is
/// refused, and the live one is left as it is.
pub proof fn duplicate_connection_is_refused(
    v: CoreView,
    c: Connection,
    m: VersionMessage,
    ms: u64,
    secs: u64,
)
    requires
        c.inbound,
        m.version >= MIN_PROTOCOL_VERSION,
        v.peers.peer(NetAddr { ip: c.src.ip, port: m.listen_port }) matches Some(p) && p.active()
            && !p.banned_at(ms),
    ensures
        after_version(v, c, m, ms, secs).flow is Close,
        after_version(v, c, m, ms, secs).core == v,
        after_version(v, c, m, ms, secs).conn == c,
{
}

} // verus!
