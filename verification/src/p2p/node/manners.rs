//! What is promised of a node's manners: how it greets, answers, keeps
//! connections alive and speaks of other peers.

use vstd::prelude::*;
use crate::block;
use crate::block::{BlockHeader, BlockView};
use crate::consensus::chain::{BlockSource, ChainView};
use crate::keymap;
use crate::p2p::address::PeerAddress;
use crate::p2p::clock::Clock;
use crate::p2p::conduct;
use crate::p2p::net::NetAddr;
use crate::p2p::node::base;
use crate::p2p::node::base::{Connection, CoreView, Mark};
use crate::p2p::node::dispatch;
use crate::p2p::node::dispatch::Meaning;
use crate::p2p::node::event::{Act, EventView, FlowView};
use crate::p2p::node::gossip;
use crate::p2p::node::query;
use crate::p2p::node::query::{HistoryLookup, TxLookup};
use crate::p2p::node::relay;
use crate::p2p::peer;
use crate::p2p::peer::{ConnectionSlot, PeerFilter, PeerInfo, PeerState, PeersView};
use crate::p2p::sync::SyncState;
use crate::p2p::wire::addr;
use crate::p2p::wire::frame::MessageView;
use crate::p2p::wire::headers;
use crate::p2p::wire::inventory;
use crate::p2p::wire::layout;
use crate::p2p::wire::lookup;
use crate::p2p::wire::{
    GetAccountMessage, GetHeadersMessage, GetHistoryMessage, GetTransactionMessage, InvEntry,
    LookupStatus, MessageType, PingMessage, VersionMessage,
};
use crate::serialize::{CanonicalDecode, CanonicalEncode};
use crate::tx::Transaction;

verus! {

// ---------------------------------------------------------------------------
// Notes on peers
// ---------------------------------------------------------------------------

/// A note on a peer changes what it says and nothing else that is known of the
/// peer, and nothing of any other.
pub proof fn note_touches_one_peer(v: PeersView, addr: NetAddr, m: Mark, now: u64, other: NetAddr)
    requires
        v.wf(),
        other != addr,
    ensures
        ({
            let w = base::with_mark(v, addr, m, now);
            &&& v.peer(addr) is None ==> w == v
            &&& v.peer(addr) matches Some(p) ==> w.peer(addr) == Some(base::marked(p, m, now))
            &&& w.peer(other) == v.peer(other)
            &&& w.channels == v.channels
            &&& w.pending == v.pending
            &&& w.wf()
        }),
{
    peer::lemma_place(v.peers, addr);
    if peer::place(v.peers, addr) is Some {
        let i = peer::place(v.peers, addr)->0;
        conduct::lemma_update_one(v, i, base::marked(v.peers[i], m, now), other);
    }
}

/// What each note says of a peer. All but a bad one are signs of life, except for
/// a ping, which only asks for one.
pub proof fn notes_say_what_happened(
    p: PeerInfo,
    ver: VersionMessage,
    points: i32,
    nonce: u64,
    now: u64,
)
    ensures
        ({
            let q = base::marked(p, Mark::Greeted(ver), now);
            &&& q == (PeerInfo {
                version: q.version,
                height: ver.height,
                services: ver.services,
                state: PeerState::Handshaking,
                last_seen: Some(now),
                ..p
            })
            &&& ver.version >= 1 ==> q.version == 1
            &&& ver.version < 1 ==> q.version == ver.version
        }),
        base::marked(p, Mark::Ready, now) == (PeerInfo {
            state: PeerState::Ready,
            handshaked: true,
            last_seen: Some(now),
            ..p
        }),
        ({
            let q = base::marked(p, Mark::Alive, now);
            let r = base::marked(p, Mark::Answered, now);
            &&& q == (PeerInfo { score: q.score, last_seen: Some(now), ..p })
            &&& r == (PeerInfo {
                score: q.score,
                last_seen: Some(now),
                last_ping_nonce: None,
                last_ping_at: None,
                ..p
            })
            &&& p.score < i32::MAX ==> q.score == p.score + 1
        }),
        base::marked(p, Mark::Bad(points), now) == p.after_bad(points, now),
        base::marked(p, Mark::Pinged(nonce), now) == (PeerInfo {
            last_ping_nonce: Some(nonce),
            last_ping_at: Some(now),
            ..p
        }),
{
}

// ---------------------------------------------------------------------------
// Handshake
// ---------------------------------------------------------------------------

/// A greeting is taken unless it is our own, too old, or from an inbound peer
/// that there is no slot for. One that is taken is acknowledged, and an inbound
/// peer gets our own version first, under the port that it listens on.
pub proof fn greeting_is_returned(
    v: CoreView,
    c: Connection,
    m: VersionMessage,
    ms: u64,
    secs: u64,
    other: NetAddr,
)
    requires
        v.peers.wf(),
    ensures
        ({
            let o = base::after_version(v, c, m, ms, secs);
            let home = NetAddr { ip: c.src.ip, port: m.listen_port };
            let key = if c.inbound {
                home
            } else {
                c.key
            };
            let own = m.nonce == v.identity_nonce;
            let old_one = m.version < 1;
            let no_slot = c.inbound && v.peers.slot(home, true, ms) != ConnectionSlot::Accepted;
            let back = base::our_version(v, secs);
            &&& own || old_one || no_slot ==> o.flow == FlowView::Close && o.core == v && o.conn == c
            &&& !own && old_one ==> o.acts.len() == 1 && o.acts[0] is Reply
            &&& own || (!old_one && no_slot) ==> o.acts.len() == 0
            &&& !(own || old_one || no_slot) ==> {
                &&& o.flow == FlowView::Continue
                &&& o.conn.key == key
                &&& o.conn.keyed == (c.inbound || c.keyed)
                &&& o.conn.src == c.src && o.conn.inbound == c.inbound
                &&& o.core == (CoreView { peers: o.core.peers, ..v })
                &&& c.inbound ==> o.acts == seq![
                    Act::Plug(home),
                    Act::Reply(
                        MessageView {
                            msg_type: MessageType::Version,
                            payload: back.spec_bytes(),
                        },
                    ),
                    Act::Reply(
                        MessageView { msg_type: MessageType::VerAck, payload: Seq::empty() },
                    ),
                ]
                &&& !c.inbound ==> o.acts == seq![
                    Act::Reply(
                        MessageView { msg_type: MessageType::VerAck, payload: Seq::empty() },
                    ),
                ]
                &&& c.inbound || v.peers.peer(key) is Some ==> (o.core.peers.peer(
                    key,
                ) matches Some(p) && p.state == PeerState::Handshaking && p.height == m.height
                    && p.services == m.services && p.last_seen == Some(ms))
                &&& other != key ==> o.core.peers.peer(other) == v.peers.peer(other)
            }
            &&& back.version == 1 && back.services == 0 && back.timestamp == secs && back.nonce == v.identity_nonce
            &&& back.height == v.chain.tip.height.0 && back.listen_port == v.listen_port
        }),
{
    let home = NetAddr { ip: c.src.ip, port: m.listen_port };
    if c.inbound {
        let w = v.peers.begun(home, true, ms);
        if v.peers.slot(home, true, ms) == ConnectionSlot::Accepted {
            lemma_begun_wf(v.peers, home, true, ms);
            let far = if other != home {
                other
            } else {
                NetAddr { ip: home.ip, port: (if home.port == 0 { 1u16 } else { 0u16 }) }
            };
            conduct::connection_begins_afresh(v.peers, home, true, ms, far);
            note_touches_one_peer(w, home, Mark::Greeted(m), ms, far);
        }
    } else {
        let far = if other != c.key {
            other
        } else {
            NetAddr { ip: c.key.ip, port: (if c.key.port == 0 { 1u16 } else { 0u16 }) }
        };
        note_touches_one_peer(v.peers, c.key, Mark::Greeted(m), ms, far);
    }
}

proof fn lemma_begun_wf(v: PeersView, addr: NetAddr, inbound: bool, now: u64)
    requires
        v.wf(),
    ensures
        v.begun(addr, inbound, now).wf(),
{
    if v.slot(addr, inbound, now) == ConnectionSlot::Accepted {
        let m = v.added(addr, now);
        conduct::lemma_add_one(v, addr, now, addr);
        peer::lemma_place(m.peers, addr);
        let i = peer::place(m.peers, addr)->0;
        conduct::lemma_update_one(m, i, v.begun(addr, inbound, now).peers[i], addr);
    }
}

/// An acknowledgement makes a known peer ready. The first one is told of; the
/// peer is then asked for headers if it claims more than we have and nobody else
/// is being asked, and for peers while fewer than eight are ready.
pub proof fn acknowledged_peer_is_ready(v: CoreView, c: Connection, ms: u64, other: NetAddr)
    requires
        v.peers.wf(),
        other != c.key,
    ensures
        ({
            let o = base::after_verack(v, c, ms);
            let had = v.peers.peer(c.key);
            let first = had is Some && had->0.state != PeerState::Ready;
            let ahead = first && had->0.height > v.headers.top && v.syncer.state
                != SyncState::SyncingHeaders && v.syncer.state != SyncState::SyncingBlocks;
            let few = first && o.core.peers.select(PeerFilter::Ready, 0).len() < 8;
            let ask = Act::Reply(base::header_request(v));
            let gossip = Act::Reply(
                MessageView { msg_type: MessageType::GetAddr, payload: Seq::empty() },
            );
            &&& o.flow == FlowView::Continue && o.conn == c
            &&& had is None ==> o.core == v && o.acts.len() == 0
            &&& had is Some ==> (o.core.peers.peer(c.key) matches Some(p) && p.state
                == PeerState::Ready && p.handshaked && p.last_seen == Some(ms) && p.score
                == had->0.score)
            &&& o.core.peers.peer(other) == v.peers.peer(other)
            &&& !first ==> o.acts.len() == 0
            &&& first ==> o.acts[0] == Act::Emit(EventView::PeerConnected(c.key))
            &&& first ==> o.acts.len() == 1 + (if ahead {
                1int
            } else {
                0
            }) + (if few {
                1int
            } else {
                0
            })
            &&& ahead ==> o.acts[1] == ask && o.core.syncer.state == SyncState::SyncingHeaders
                && o.core.syncer.sync_peer == Some(c.key)
            &&& !ahead ==> o.core.syncer == v.syncer
            &&& few ==> o.acts.last() == gossip
            &&& o.core == (CoreView { peers: o.core.peers, syncer: o.core.syncer, ..v })
        }),
{
    note_touches_one_peer(v.peers, c.key, Mark::Ready, ms, other);
}

/// A ping is answered at once, with the number that it came with. It counts in
/// the peer's favour.
pub proof fn ping_comes_back(v: CoreView, c: Connection, m: PingMessage, ms: u64, other: NetAddr)
    requires
        v.peers.wf(),
        other != c.key,
    ensures
        ({
            let o = base::after_ping(v, c, m, ms);
            &&& o.acts == seq![
                Act::Reply(MessageView { msg_type: MessageType::Pong, payload: m.spec_bytes() }),
            ]
            &&& o.flow == FlowView::Continue && o.conn == c
            &&& o.core == (CoreView { peers: o.core.peers, ..v })
            &&& v.peers.peer(c.key) matches Some(p) ==> (o.core.peers.peer(c.key) matches Some(q)
                && q.last_seen == Some(ms) && (p.score < i32::MAX ==> q.score == p.score + 1))
            &&& o.core.peers.peer(other) == v.peers.peer(other)
        }),
{
    note_touches_one_peer(v.peers, c.key, Mark::Alive, ms, other);
}

/// A pong proves that a peer is alive exactly when it carries the number of the
/// ping that is out. Another one costs the peer a point, and one that nobody asked
/// for does nothing.
pub proof fn pong_proves_life_once(v: CoreView, c: Connection, m: PingMessage, ms: u64, other: NetAddr)
    requires
        v.peers.wf(),
        other != c.key,
    ensures
        ({
            let o = base::after_pong(v, c, m, ms);
            let had = v.peers.peer(c.key);
            let out = if had is Some {
                had->0.last_ping_nonce
            } else {
                None
            };
            &&& o.acts.len() == 0 && o.flow == FlowView::Continue && o.conn == c
            &&& o.core == (CoreView { peers: o.core.peers, ..v })
            &&& out is None ==> o.core == v
            &&& out == Some(m.nonce) ==> (o.core.peers.peer(c.key) matches Some(q) && q.last_seen
                == Some(ms) && q.last_ping_nonce is None && q.last_ping_at is None
                && (had->0.score < i32::MAX ==> q.score == had->0.score + 1))
            &&& out is Some && out != Some(m.nonce) ==> (o.core.peers.peer(c.key) matches Some(q)
                && q == had->0.after_bad(1, ms))
            &&& o.core.peers.peer(other) == v.peers.peer(other)
        }),
{
    let p = v.peers.peer(c.key)->0;
    note_touches_one_peer(v.peers, c.key, Mark::Answered, ms, other);
    note_touches_one_peer(v.peers, c.key, Mark::Bad(1), ms, other);
}

/// Every message of a known peer counts as one and with all its bytes, frame
/// included. The hundredth within a second passes, the next one does not.
pub proof fn every_message_is_charged(
    v: PeersView,
    addr: NetAddr,
    payload: nat,
    ms: u64,
    other: NetAddr,
)
    requires
        v.wf(),
        other != addr,
        payload + 13 <= u32::MAX,
    ensures
        ({
            let (w, within) = base::charged(v, addr, base::wire_size(payload), ms);
            &&& v.peer(addr) is None ==> within && w == v
            &&& v.peer(addr) matches Some(p) ==> (w.peer(addr) matches Some(q) && {
                let over = ms - p.rate.started >= 1000;
                let m = if over {
                    0
                } else {
                    p.rate.messages as int
                };
                let b = if over {
                    0
                } else {
                    p.rate.bytes as int
                };
                &&& m < u32::MAX ==> q.rate.messages == m + 1
                &&& b + 13 + payload <= usize::MAX ==> q.rate.bytes == b + 13 + payload
                &&& within <==> m < 100
                &&& q == (PeerInfo { rate: q.rate, ..p })
            })
            &&& w.peer(other) == v.peer(other)
        }),
{
    peer::lemma_place(v.peers, addr);
    if peer::place(v.peers, addr) is Some {
        let i = peer::place(v.peers, addr)->0;
        let size = base::wire_size(payload);
        let q = v.peers[i].after_message(ms).after_bytes(size, ms);
        conduct::lemma_update_one(v, i, q, other);
    }
}

// ---------------------------------------------------------------------------
// Maintenance
// ---------------------------------------------------------------------------

proof fn lemma_pinged(v: PeersView, addrs: Seq<NetAddr>, nonces: Seq<u64>, ms: u64)
    requires
        v.wf(),
        forall|i: int, j: int| 0 <= i < j < addrs.len() ==> addrs[i] != addrs[j],
    ensures
        ({
            let (w, sent) = base::pinged(v, addrs, nonces, ms);
            &&& w.wf()
            &&& forall|a: NetAddr|
                !addrs.contains(a) ==> #[trigger] w.peer(a) == v.peer(a)
            &&& forall|i: int|
                0 <= i < addrs.len() ==> {
                    let had = v.peer(#[trigger] addrs[i]);
                    let quiet = had is Some && had->0.last_ping_nonce is None;
                    let ping = Act::Send(
                        addrs[i],
                        base::say(
                            MessageType::Ping,
                            (PingMessage { nonce: nonces[i] }).spec_bytes(),
                        ),
                    );
                    &&& quiet ==> sent.contains(ping) && w.peer(addrs[i]) == Some(
                        PeerInfo {
                            last_ping_nonce: Some(nonces[i]),
                            last_ping_at: Some(ms),
                            ..had->0
                        },
                    )
                    &&& !quiet ==> w.peer(addrs[i]) == had
                }
            &&& forall|k: int|
                0 <= k < sent.len() ==> ((#[trigger] sent[k]) matches Act::Send(a, m)
                    && addrs.contains(a) && v.peer(a) is Some && (v.peer(
                    a,
                )->0).last_ping_nonce is None && m.msg_type == MessageType::Ping)
        }),
    decreases addrs.len(),
{
    if addrs.len() > 0 {
        let rest = addrs.drop_last();
        let a = addrs.last();
        let n = addrs.len() - 1;
        assert forall|i: int, j: int| 0 <= i < j < rest.len() implies rest[i] != rest[j] by {
            assert(addrs[i] != addrs[j]);
        }
        lemma_pinged(v, rest, nonces, ms);
        let (u, some) = base::pinged(v, rest, nonces, ms);
        let (w, sent) = base::pinged(v, addrs, nonces, ms);
        assert(!rest.contains(a)) by {
            if rest.contains(a) {
                let i = choose|i: int| 0 <= i < rest.len() && rest[i] == a;
                assert(addrs[i] != addrs[n]);
            }
        }
        assert(u.peer(a) == v.peer(a));
        assert forall|b: NetAddr| rest.contains(b) implies addrs.contains(b) by {
            let i = choose|i: int| 0 <= i < rest.len() && rest[i] == b;
            assert(addrs[i] == b);
        }
        assert(addrs[n] == a);
        let quiet = v.peer(a) is Some && (v.peer(a)->0).last_ping_nonce is None;
        if quiet {
            let nonce = nonces[n];
            let ping = Act::Send(
                a,
                base::say(MessageType::Ping, (PingMessage { nonce }).spec_bytes()),
            );
            assert(sent == some.push(ping));
            assert(sent[some.len() as int] == ping);
            peer::lemma_place(u.peers, a);
            let k = peer::place(u.peers, a)->0;
            let q = base::marked(u.peers[k], Mark::Pinged(nonce), ms);
            conduct::lemma_update_one(u, k, q, a);
            assert forall|b: NetAddr| b != a implies #[trigger] w.peer(b) == u.peer(b) by {
                conduct::lemma_update_one(u, k, q, b);
            }
            assert forall|k: int| 0 <= k < sent.len() implies ((
            #[trigger] sent[k]) matches Act::Send(b, m) && addrs.contains(b) && v.peer(b) is Some
                && (v.peer(b)->0).last_ping_nonce is None && m.msg_type == MessageType::Ping) by {
                if k < some.len() {
                    assert(sent[k] == some[k]);
                }
            }
        }
        assert forall|i: int| 0 <= i < addrs.len() implies {
            let had = v.peer(#[trigger] addrs[i]);
            let quiet = had is Some && had->0.last_ping_nonce is None;
            let ping = Act::Send(
                addrs[i],
                base::say(MessageType::Ping, (PingMessage { nonce: nonces[i] }).spec_bytes()),
            );
            &&& quiet ==> sent.contains(ping) && w.peer(addrs[i]) == Some(
                PeerInfo {
                    last_ping_nonce: Some(nonces[i]),
                    last_ping_at: Some(ms),
                    ..had->0
                },
            )
            &&& !quiet ==> w.peer(addrs[i]) == had
        } by {
            if i < n {
                assert(rest[i] == addrs[i]);
                assert(addrs[i] != addrs[n]);
                let had = v.peer(addrs[i]);
                if had is Some && had->0.last_ping_nonce is None {
                    let ping = Act::Send(
                        addrs[i],
                        base::say(
                            MessageType::Ping,
                            (PingMessage { nonce: nonces[i] }).spec_bytes(),
                        ),
                    );
                    assert(some.contains(ping));
                    let k = choose|k: int| 0 <= k < some.len() && some[k] == ping;
                    assert(sent[k] == ping);
                }
            }
        }
        assert forall|b: NetAddr| !addrs.contains(b) implies #[trigger] w.peer(b) == v.peer(b) by {
            assert(b != a);
            assert(!rest.contains(b));
            assert(u.peer(b) == v.peer(b));
        }
    }
}

proof fn lemma_distinct_addrs(v: PeersView, f: PeerFilter, ms: u64)
    requires
        v.wf(),
    ensures
        ({
            let addrs = v.select(f, ms).map_values(peer::addr_of());
            forall|i: int, j: int| 0 <= i < j < addrs.len() ==> addrs[i] != addrs[j]
        }),
{
    lemma_distinct_filter(v.peers, peer::such(f, ms));
    let s = v.select(f, ms);
    let addrs = s.map_values(peer::addr_of());
    assert forall|i: int, j: int| 0 <= i < j < addrs.len() implies addrs[i] != addrs[j] by {
        assert(addrs[i] == s[i].addr && addrs[j] == s[j].addr);
    }
}

proof fn lemma_distinct_filter(s: Seq<PeerInfo>, f: spec_fn(PeerInfo) -> bool)
    requires
        forall|i: int, j: int|
            0 <= i < j < s.len() ==> (#[trigger] s[i]).addr != (#[trigger] s[j]).addr,
    ensures
        forall|i: int, j: int|
            0 <= i < j < s.filter(f).len() ==> (#[trigger] s.filter(f)[i]).addr != (
            #[trigger] s.filter(f)[j]).addr,
    decreases s.len(),
{
    reveal(Seq::filter);
    if s.len() > 0 {
        let t = s.drop_last();
        assert forall|i: int, j: int| 0 <= i < j < t.len() implies (#[trigger] t[i]).addr != (
        #[trigger] t[j]).addr by {
            assert(s[i].addr != s[j].addr);
        }
        lemma_distinct_filter(t, f);
        let u = t.filter(f);
        let w = s.filter(f);
        assert forall|i: int, j: int| 0 <= i < j < w.len() implies (#[trigger] w[i]).addr != (
        #[trigger] w[j]).addr by {
            assert(w[i] == u[i]);
            if j < u.len() {
                assert(w[j] == u[j]);
            } else {
                conduct::lemma_filter_contains(t, f, u[i]);
                assert(u.contains(u[i]));
                let k = choose|k: int| 0 <= k < t.len() && t[k] == u[i];
                assert(s[k].addr != s[s.len() - 1].addr);
            }
        }
    }
}

/// Maintenance closes the connections of exactly the peers that have been quiet
/// for more than thirty seconds. It pings exactly the ready ones that have no ping
/// out, with numbers that are noted, and then forgets who is gone.
pub proof fn maintenance_cuts_the_quiet_and_pings_the_rest(
    v: PeersView,
    nonces: Seq<u64>,
    ms: u64,
    p: PeerInfo,
    i: int,
)
    requires
        v.wf(),
        v.peers.contains(p),
    ensures
        ({
            let (w, acts) = base::maintained(v, nonces, ms);
            let live = p.state == PeerState::Connecting || p.state == PeerState::Connected || p.state
                == PeerState::Handshaking || p.state == PeerState::Ready;
            let ready = p.state == PeerState::Ready && !p.banned_at(ms);
            &&& acts.contains(Act::Disconnect(p.addr)) <==> live && p.stale_at(30_000, ms)
            &&& ready && p.last_ping_nonce is None <==> exists|m: MessageView|
                #[trigger] acts.contains(Act::Send(p.addr, m))
            &&& 0 <= i < acts.len() ==> acts[i] is Disconnect || (acts[i] matches Act::Send(a, m)
                && m.msg_type == MessageType::Ping)
            &&& w == base::pinged(
                v,
                v.select(PeerFilter::ReadyOpen, ms).map_values(peer::addr_of()),
                nonces,
                ms,
            ).0.pruned(ms)
        }),
{
    let stale_peers = v.select(PeerFilter::Stale(30_000), ms);
    let stale = stale_peers.map_values(peer::addr_of());
    let ready_peers = v.select(PeerFilter::ReadyOpen, ms);
    let ready = ready_peers.map_values(peer::addr_of());
    let (w, sent) = base::pinged(v, ready, nonces, ms);
    let acts = base::cut(stale) + sent;
    let cuts = base::cut(stale);
    lemma_distinct_addrs(v, PeerFilter::ReadyOpen, ms);
    lemma_pinged(v, ready, nonces, ms);
    conduct::lemma_picked(v, PeerFilter::Stale(30_000), p, ms);
    conduct::lemma_picked(v, PeerFilter::ReadyOpen, p, ms);
    let x = choose|x: int| 0 <= x < v.peers.len() && v.peers[x] == p;
    lemma_known_as(v, x);
    if stale_peers.contains(p) {
        let k = choose|k: int| 0 <= k < stale_peers.len() && stale_peers[k] == p;
        assert(cuts[k] == Act::Disconnect(p.addr));
        assert(acts[k] == Act::Disconnect(p.addr));
    }
    if acts.contains(Act::Disconnect(p.addr)) {
        let k = choose|k: int| 0 <= k < acts.len() && acts[k] == Act::Disconnect(p.addr);
        if k >= cuts.len() {
            assert(acts[k] == sent[k - cuts.len()]);
        } else {
            assert(acts[k] == cuts[k]);
            let q = stale_peers[k];
            assert(stale_peers.contains(q));
            conduct::lemma_picked(v, PeerFilter::Stale(30_000), q, ms);
            let y = choose|y: int| 0 <= y < v.peers.len() && v.peers[y] == q;
            lemma_known_as(v, y);
        }
    }
    if ready_peers.contains(p) && p.last_ping_nonce is None {
        let k = choose|k: int| 0 <= k < ready_peers.len() && ready_peers[k] == p;
        assert(ready[k] == p.addr);
        let m = base::say(MessageType::Ping, (PingMessage { nonce: nonces[k] }).spec_bytes());
        assert(sent.contains(Act::Send(p.addr, m)));
        let j = choose|j: int| 0 <= j < sent.len() && sent[j] == Act::Send(p.addr, m);
        assert(acts[cuts.len() + j] == Act::Send(p.addr, m));
        assert(acts.contains(Act::Send(p.addr, m)));
    }
    if exists|m: MessageView| #[trigger] acts.contains(Act::Send(p.addr, m)) {
        let m = choose|m: MessageView| #[trigger] acts.contains(Act::Send(p.addr, m));
        let k = choose|k: int| 0 <= k < acts.len() && acts[k] == Act::Send(p.addr, m);
        if k < cuts.len() {
            assert(acts[k] == cuts[k]);
        } else {
            assert(acts[k] == sent[k - cuts.len()]);
            assert(ready.contains(p.addr));
            let j = choose|j: int| 0 <= j < ready.len() && ready[j] == p.addr;
            let q = ready_peers[j];
            assert(ready_peers.contains(q));
            conduct::lemma_picked(v, PeerFilter::ReadyOpen, q, ms);
            let y = choose|y: int| 0 <= y < v.peers.len() && v.peers[y] == q;
            lemma_known_as(v, y);
        }
    }
    if 0 <= i < acts.len() {
        if i < cuts.len() {
            assert(acts[i] == cuts[i]);
        } else {
            assert(acts[i] == sent[i - cuts.len()]);
        }
    }
}

proof fn lemma_known_as(v: PeersView, x: int)
    requires
        v.wf(),
        0 <= x < v.peers.len(),
    ensures
        v.peer(v.peers[x].addr) == Some(v.peers[x]),
{
    let a = v.peers[x].addr;
    assert forall|j: int| x < j < v.peers.len() implies (#[trigger] v.peers[j]).addr != a by {
        assert(v.peers[x].addr != v.peers[j].addr);
    }
    peer::lemma_place_is(v.peers, a, x);
}

// ---------------------------------------------------------------------------
// Gossip
// ---------------------------------------------------------------------------

/// Whoever asks for peers is told of those that have completed a handshake, can
/// be called and are not banned, but not of itself. All of them are told, up to a
/// thousand.
pub proof fn gossip_tells_of_all_it_may(v: CoreView, c: Connection, ms: u64, p: PeerInfo)
    requires
        v.peers.peers.contains(p),
        v.peers.select(PeerFilter::Shareable(Some(c.key)), ms).len() <= 1000,
    ensures
        ({
            let t = gossip::told(v, c, ms);
            let o = gossip::after_get_addr(v, c, ms);
            &&& p.handshaked && p.addr != c.key && !p.banned_at(ms) && p.dial_address() is Some
                ==> t.contains(p.dial_address()->0)
            &&& o.acts == seq![
                Act::Reply(
                    MessageView { msg_type: MessageType::Addr, payload: addr::addr_payload(t) },
                ),
            ]
            &&& o.core == v && o.conn == c && o.flow == FlowView::Continue
        }),
{
    let s = v.peers.select(PeerFilter::Shareable(Some(c.key)), ms);
    conduct::lemma_picked(v.peers, PeerFilter::Shareable(Some(c.key)), p, ms);
    if s.contains(p) {
        let i = choose|i: int| 0 <= i < s.len() && s[i] == p;
        assert(gossip::told(v, c, ms)[i] == p.dial_address()->0);
    }
}

proof fn lemma_learned(v: PeersView, s: Seq<PeerAddress>, ms: u64)
    requires
        v.wf(),
    ensures
        gossip::learned(v, s, ms).wf(),
        forall|i: int|
            0 <= i < s.len() ==> gossip::learned(v, s, ms).peer(
                (#[trigger] s[i]).socket,
            ) is Some,
        forall|a: NetAddr|
            v.peer(a) is Some ==> (#[trigger] gossip::learned(v, s, ms).peer(a)) is Some,
        forall|a: NetAddr|
            (forall|i: int| 0 <= i < s.len() ==> (#[trigger] s[i]).socket != a)
                ==> #[trigger] gossip::learned(v, s, ms).peer(a) == v.peer(a),
    decreases s.len(),
{
    if s.len() > 0 {
        let rest = s.drop_last();
        let x = s.last();
        lemma_learned(v, rest, ms);
        let u = gossip::learned(v, rest, ms);
        let w = gossip::learned(v, s, ms);
        lemma_identified(u, x, ms);
        assert forall|i: int| 0 <= i < s.len() implies w.peer((#[trigger] s[i]).socket) is Some by {
            if i < rest.len() {
                assert(rest[i] == s[i]);
                assert(u.peer(s[i].socket) is Some);
            }
        }
        assert forall|a: NetAddr| v.peer(a) is Some implies (#[trigger] w.peer(a)) is Some by {
            assert(u.peer(a) is Some);
        }
        assert forall|a: NetAddr|
            (forall|i: int| 0 <= i < s.len() ==> (
            #[trigger] s[i]).socket != a) implies #[trigger] w.peer(a) == v.peer(a) by {
            assert forall|i: int| 0 <= i < rest.len() implies (#[trigger] rest[i]).socket != a by {
                assert(rest[i] == s[i]);
            }
            assert(s[s.len() - 1].socket != a);
            assert(u.peer(a) == v.peer(a));
        }
    }
}

proof fn lemma_identified(u: PeersView, x: PeerAddress, ms: u64)
    requires
        u.wf(),
    ensures
        ({
            let w = u.identified(x, ms);
            &&& w.wf()
            &&& w.peer(x.socket) matches Some(p) && p.node_id == Some(x.node_id) && p.noise_key
                == Some(x.noise_key)
            &&& forall|a: NetAddr| a != x.socket ==> #[trigger] w.peer(a) == u.peer(a)
        }),
{
    let m = u.added(x.socket, ms);
    conduct::lemma_add_one(u, x.socket, ms, x.socket);
    peer::lemma_place(m.peers, x.socket);
    let i = peer::place(m.peers, x.socket)->0;
    let q = PeerInfo { node_id: Some(x.node_id), noise_key: Some(x.noise_key), ..m.peers[i] };
    conduct::lemma_update_one(m, i, q, x.socket);
    let w = u.identified(x, ms);
    assert forall|a: NetAddr| a != x.socket implies #[trigger] w.peer(a) == u.peer(a) by {
        conduct::lemma_add_one(u, x.socket, ms, a);
        conduct::lemma_update_one(m, i, q, a);
    }
}

/// Every peer that is told of is known afterwards, nobody is forgotten, and of
/// the others nothing changes. As many known peers are then called as are missing
/// to eight outbound connections.
pub proof fn gossip_is_remembered_and_followed(
    v: CoreView,
    c: Connection,
    s: Seq<PeerAddress>,
    ms: u64,
    i: int,
    a: NetAddr,
)
    requires
        v.peers.wf(),
        0 <= i < s.len(),
    ensures
        ({
            let o = gossip::after_addr(v, c, s, ms);
            let w = o.core.peers;
            let held = w.select(PeerFilter::Outbound, 0).len();
            let known = w.select(PeerFilter::Dialable, ms);
            &&& w.peer(s[i].socket) is Some
            &&& i == s.len() - 1 ==> w.peer(s[i].socket)->0.node_id == Some(s[i].node_id) && w.peer(
                s[i].socket,
            )->0.noise_key == Some(s[i].noise_key)
            &&& v.peers.peer(a) is Some ==> w.peer(a) is Some
            &&& (forall|j: int| 0 <= j < s.len() ==> (#[trigger] s[j]).socket != a) ==> w.peer(a)
                == v.peers.peer(a)
            &&& held >= 8 ==> o.acts.len() == 0
            &&& held < 8 && known.len() <= 8 - held ==> o.acts.len() == known.len()
            &&& held < 8 && known.len() > 8 - held ==> o.acts.len() == 8 - held
            &&& forall|k: int|
                0 <= k < o.acts.len() ==> #[trigger] o.acts[k] == Act::Dial(known[k].addr)
            &&& o.core == (CoreView { peers: w, ..v }) && o.conn == c && o.flow
                == FlowView::Continue
        }),
{
    lemma_learned(v.peers, s, ms);
    let o = gossip::after_addr(v, c, s, ms);
    let w = o.core.peers;
    let known = w.select(PeerFilter::Dialable, ms);
    lemma_learned(v.peers, s.drop_last(), ms);
    lemma_identified(gossip::learned(v.peers, s.drop_last(), ms), s.last(), ms);
    assert(s[s.len() - 1] == s.last());
    let d = peer::upto(known, gossip::deficit(w));
    assert forall|k: int| 0 <= k < o.acts.len() implies #[trigger] o.acts[k] == Act::Dial(
        known[k].addr,
    ) by {
        assert(d[k] == known[k]);
        assert(known.contains(known[k]));
        conduct::lemma_picked(w, PeerFilter::Dialable, known[k], ms);
    }
}

// ---------------------------------------------------------------------------
// Questions
// ---------------------------------------------------------------------------

/// Questions are answered from the chain as it is, and change nothing.
pub proof fn questions_are_answered_from_the_chain(
    v: CoreView,
    c: Connection,
    a: GetAccountMessage,
    t: GetTransactionMessage,
    h: GetHistoryMessage,
)
    ensures
        ({
            let o = query::after_get_chain_info(v, c);
            let i = query::chain_info(v);
            &&& o.acts == seq![
                Act::Reply(
                    MessageView { msg_type: MessageType::ChainInfo, payload: i.spec_bytes() },
                ),
            ]
            &&& i.height == v.chain.tip.height.0 && i.tip == v.chain.tip.hash && i.bits
                == v.chain.tip.header.bits.0 && i.supply == v.chain.tip.supply
            &&& o.core == v && o.conn == c && o.flow == FlowView::Continue
        }),
        ({
            let o = query::after_get_account(v, c, a);
            let i = query::account_info(v, a);
            let k = a.address.0.0;
            let s = v.chain.state.accounts;
            &&& o.acts == seq![
                Act::Reply(MessageView { msg_type: MessageType::Account, payload: i.spec_bytes() }),
            ]
            &&& i.address == a.address
            &&& i.exists <==> keymap::value_of(s, k) is Some
            &&& keymap::value_of(s, k) matches Some(x) ==> i.balance == x.balance && i.nonce
                == x.nonce
            &&& keymap::value_of(s, k) is None ==> i.balance == 0 && i.nonce == 0
            &&& o.core == v && o.conn == c && o.flow == FlowView::Continue
        }),
        ({
            let o = query::after_get_transaction(v, c, t);
            let p = query::after_get_history(v, c, h);
            &&& o.flow == FlowView::FindTransaction(t.tx_hash) && o.core == v && o.acts.len() == 0
            &&& p.flow == FlowView::FindHistory(
                h.address,
                if h.limit < 1000 {
                    h.limit
                } else {
                    1000
                },
            ) && p.core == v && p.acts.len() == 0
        }),
{
    keymap::lemma_value_of(v.chain.state.accounts, a.address.0.0);
}

/// What the index has found is passed on with the hash that was asked for, and
/// with whether the block is on the chain that is being followed. What it has not
/// found is told apart from there being no index.
pub proof fn lookups_are_passed_on(
    v: CoreView,
    t: GetTransactionMessage,
    found: TxLookup,
    limit: u32,
    history: HistoryLookup,
)
    ensures
        ({
            let m = query::transaction_info(v, t.tx_hash, found);
            &&& found is NotIndexed <==> m.status == LookupStatus::NotIndexed
            &&& found is NotFound <==> m.status == LookupStatus::NotFound
            &&& !(found is Found) ==> m.transaction is None
            &&& found matches TxLookup::Found { block_hash, height, position, transaction } ==> {
                &&& m.status == LookupStatus::Found
                &&& m.tx_hash == t.tx_hash
                &&& m.block_hash == block_hash
                &&& m.height == height
                &&& m.position == position
                &&& m.transaction == Some(transaction)
                &&& m.on_active_chain <==> v.chain.headers.contains_key(height)
                    && block::header_hash(v.chain.headers[height]) == block_hash
            }
        }),
        ({
            let m = query::history_info(limit, history);
            &&& m.msg_type == MessageType::History
            &&& history is NotIndexed ==> m.payload == seq![2u8]
            &&& history matches HistoryLookup::Found { total, entries } ==> {
                let most = if limit < 1000 {
                    limit as int
                } else {
                    1000
                };
                &&& entries@.len() <= most ==> m.payload == lookup::history_bytes(total, entries@)
                &&& entries@.len() > most ==> m.payload == lookup::history_bytes(
                    total,
                    entries@.subrange(0, most),
                )
            }
        }),
{
}

// ---------------------------------------------------------------------------
// Dispatch
// ---------------------------------------------------------------------------

/// Each message is handled for what it says.
pub proof fn messages_are_handled_for_what_they_say<S: BlockSource>(
    v: CoreView,
    c: Connection,
    p: Meaning,
    source: &S,
    ms: u64,
    secs: u64,
)
    ensures
        dispatch::acted(v, c, p, source, ms, secs) == match p {
            Meaning::Version(m) => base::after_version(v, c, m, ms, secs),
            Meaning::VerAck => base::after_verack(v, c, ms),
            Meaning::Ping(m) => base::after_ping(v, c, m, ms),
            Meaning::Pong(m) => base::after_pong(v, c, m, ms),
            Meaning::GetAddr => gossip::after_get_addr(v, c, ms),
            Meaning::Addr(s) => gossip::after_addr(v, c, s, ms),
            Meaning::GetHeaders(m) => relay::after_get_headers(v, c, m),
            Meaning::Headers(s) => relay::after_headers(v, c, s, source, ms),
            Meaning::Inv(s) => relay::after_inv(v, c, s, source),
            Meaning::GetData(s) => relay::after_get_data(v, c, s, source, ms),
            Meaning::Tx(t) => relay::after_tx(v, c, t, ms, secs),
            Meaning::Block(b) => relay::after_block_message(v, c, b, source),
            Meaning::GetChainInfo => query::after_get_chain_info(v, c),
            Meaning::GetAccount(m) => query::after_get_account(v, c, m),
            Meaning::GetTransaction(m) => query::after_get_transaction(v, c, m),
            Meaning::GetHistory(m) => query::after_get_history(v, c, m),
            Meaning::BadBlock(why) => dispatch::after_bad_block(v, c, ms, why),
            Meaning::Unreadable(why) => base::failed(v, c, "protocol: "@ + why.words()),
            Meaning::Answer => base::ignored(v, c),
        },
{
    reveal(dispatch::peers_acted);
    reveal(dispatch::data_acted);
    reveal(dispatch::rest_acted);
}

/// A known peer's message past the hundredth in a second ends the connection and
/// does nothing else. Any other message of a peer does what it says.
pub proof fn messages_past_the_limit_end_the_connection<S: BlockSource>(
    v: CoreView,
    c: Connection,
    m: MessageView,
    source: &S,
    ms: u64,
    secs: u64,
)
    requires
        v.peers.wf(),
    ensures
        ({
            let o = dispatch::handled(v, c, m, source, ms, secs);
            let charged = base::charged(v.peers, c.key, base::wire_size(m.payload.len()), ms).0;
            let w = CoreView { peers: charged, ..v };
            let over = v.peers.peer(c.key) matches Some(p) && ms - p.rate.started < 1000
                && p.rate.messages >= 100;
            &&& over ==> o.flow is Fail && o.acts.len() == 0 && o.core == w && o.conn == c
            &&& !over ==> o == dispatch::acted(w, c, dispatch::meaning(m), source, ms, secs)
        }),
{
    peer::lemma_place(v.peers.peers, c.key);
}

/// A message that does not read ends the connection with the reason. A block that
/// does not read costs its sender ten points instead.
pub proof fn unreadable_messages_are_answered_for(
    v: CoreView,
    c: Connection,
    ms: u64,
    why: crate::error::Fault,
    other: NetAddr,
)
    requires
        v.peers.wf(),
        other != c.key,
    ensures
        ({
            let o = dispatch::after_bad_block(v, c, ms, why);
            &&& o.flow == FlowView::Continue && o.conn == c
            &&& o.acts.len() == 1 && o.acts[0] is Emit
            &&& v.peers.peer(c.key) matches Some(p) ==> o.core.peers.peer(c.key) == Some(
                p.after_bad(10, ms),
            )
            &&& o.core.peers.peer(other) == v.peers.peer(other)
            &&& o.core == (CoreView { peers: o.core.peers, ..v })
        }),
        ({
            let o = base::failed(v, c, "protocol: "@ + why.words());
            &&& o.flow == FlowView::Fail("protocol: "@ + why.words())
            &&& o.acts.len() == 0 && o.core == v && o.conn == c
        }),
{
    note_touches_one_peer(v.peers, c.key, Mark::Bad(10), ms, other);
}

/// A message that was written for something says that, whatever else follows a
/// greeting, and what is too short or too long for its kind does not read.
pub proof fn messages_mean_what_was_written(
    v: VersionMessage,
    after: Seq<u8>,
    p: PingMessage,
    h: GetHeadersMessage,
    a: GetAccountMessage,
    t: GetTransactionMessage,
    g: GetHistoryMessage,
    s: Seq<InvEntry>,
)
    requires
        s.len() <= u32::MAX,
    ensures
        dispatch::meaning(base::say(MessageType::Version, v.spec_bytes() + after))
            == Meaning::Version(v),
        dispatch::meaning(base::say(MessageType::Ping, p.spec_bytes())) == Meaning::Ping(p),
        dispatch::meaning(base::say(MessageType::Pong, p.spec_bytes())) == Meaning::Pong(p),
        dispatch::meaning(base::say(MessageType::GetHeaders, h.spec_bytes()))
            == Meaning::GetHeaders(h),
        dispatch::meaning(base::say(MessageType::GetAccount, a.spec_bytes()))
            == Meaning::GetAccount(a),
        dispatch::meaning(base::say(MessageType::GetTransaction, t.spec_bytes()))
            == Meaning::GetTransaction(t),
        dispatch::meaning(base::say(MessageType::GetHistory, g.spec_bytes()))
            == Meaning::GetHistory(g),
        dispatch::meaning(base::say(MessageType::Inv, inventory::inventory_bytes(s)))
            == Meaning::Inv(s),
        dispatch::meaning(base::say(MessageType::GetData, inventory::inventory_bytes(s)))
            == Meaning::GetData(s),
        dispatch::meaning(base::say(MessageType::VerAck, after)) == Meaning::VerAck,
        dispatch::meaning(base::say(MessageType::GetAddr, after)) == Meaning::GetAddr,
        dispatch::meaning(base::say(MessageType::GetChainInfo, after)) == Meaning::GetChainInfo,
        dispatch::meaning(base::say(MessageType::Reject, after)) == Meaning::Answer,
        dispatch::meaning(base::say(MessageType::NotFound, after)) == Meaning::Answer,
        after.len() < 34 ==> dispatch::meaning(
            base::say(MessageType::Version, after),
        ) is Unreadable,
        after.len() != 8 ==> dispatch::meaning(base::say(MessageType::Ping, after)) is Unreadable
            && dispatch::meaning(base::say(MessageType::Pong, after)) is Unreadable,
        after.len() != 64 ==> dispatch::meaning(
            base::say(MessageType::GetHeaders, after),
        ) is Unreadable,
        after.len() != 20 ==> dispatch::meaning(
            base::say(MessageType::GetAccount, after),
        ) is Unreadable,
        after.len() != 32 ==> dispatch::meaning(
            base::say(MessageType::GetTransaction, after),
        ) is Unreadable,
        after.len() != 24 ==> dispatch::meaning(
            base::say(MessageType::GetHistory, after),
        ) is Unreadable,
{
    layout::version_and_ping_layout(v, p);
    assert((v.spec_bytes() + after).subrange(0, 34) =~= v.spec_bytes());
    lemma_means(base::say(MessageType::Version, v.spec_bytes() + after), Meaning::Version(v));
    lemma_means(base::say(MessageType::Ping, p.spec_bytes()), Meaning::Ping(p));
    lemma_means(base::say(MessageType::Pong, p.spec_bytes()), Meaning::Pong(p));
    lemma_means(base::say(MessageType::GetHeaders, h.spec_bytes()), Meaning::GetHeaders(h));
    lemma_means(base::say(MessageType::GetAccount, a.spec_bytes()), Meaning::GetAccount(a));
    lemma_means(base::say(MessageType::GetTransaction, t.spec_bytes()), Meaning::GetTransaction(t));
    lemma_means(base::say(MessageType::GetHistory, g.spec_bytes()), Meaning::GetHistory(g));
    inventory::inventory_roundtrip(s, s);
    lemma_means(base::say(MessageType::Inv, inventory::inventory_bytes(s)), Meaning::Inv(s));
    lemma_means(base::say(MessageType::GetData, inventory::inventory_bytes(s)), Meaning::GetData(s));
    lemma_means(base::say(MessageType::VerAck, after), Meaning::VerAck);
    lemma_means(base::say(MessageType::GetAddr, after), Meaning::GetAddr);
    lemma_means(base::say(MessageType::GetChainInfo, after), Meaning::GetChainInfo);
    lemma_means(base::say(MessageType::Reject, after), Meaning::Answer);
    lemma_means(base::say(MessageType::NotFound, after), Meaning::Answer);
    if after.len() < 34 {
        lemma_means(
            base::say(MessageType::Version, after),
            Meaning::Unreadable(crate::error::malformed("version: too short"@)),
        );
    }
    if after.len() != 8 {
        let f = crate::p2p::wire::control::other_size("ping"@, 8, after.len());
        lemma_means(base::say(MessageType::Ping, after), Meaning::Unreadable(f));
        lemma_means(base::say(MessageType::Pong, after), Meaning::Unreadable(f));
    }
    if after.len() != 64 {
        let f = crate::p2p::wire::control::other_size("getheaders"@, 64, after.len());
        lemma_means(base::say(MessageType::GetHeaders, after), Meaning::Unreadable(f));
    }
    if after.len() != 20 {
        let f = crate::p2p::wire::query::wrong_size("getaccount"@, 20, after.len());
        lemma_means(base::say(MessageType::GetAccount, after), Meaning::Unreadable(f));
    }
    if after.len() != 32 {
        let f = crate::p2p::wire::query::wrong_size("gettransaction"@, 32, after.len());
        lemma_means(base::say(MessageType::GetTransaction, after), Meaning::Unreadable(f));
    }
    if after.len() != 24 {
        let f = crate::p2p::wire::query::wrong_size("gethistory"@, 24, after.len());
        lemma_means(base::say(MessageType::GetHistory, after), Meaning::Unreadable(f));
    }
}

proof fn lemma_means(m: MessageView, p: Meaning)
    requires
        dispatch::says(m, p),
    ensures
        dispatch::meaning(m) == p,
{
    dispatch::message_has_one_meaning(m, p, p);
}

/// What carries a block, a transaction, headers or peers is read as these where it
/// reads as such, and otherwise does not read.
pub proof fn payloads_are_read_as_such(
    data: Seq<u8>,
    t: Transaction,
    b: BlockView,
    hs: Seq<BlockHeader>,
    ps: Seq<PeerAddress>,
)
    ensures
        Transaction::decodable(data) && data == t.spec_encode() ==> dispatch::meaning(
            base::say(MessageType::Tx, data),
        ) == Meaning::Tx(t),
        !Transaction::decodable(data) ==> dispatch::meaning(
            base::say(MessageType::Tx, data),
        ) is Unreadable,
        block::block_decodable(data) && block::block_denotes(data, b) ==> dispatch::meaning(
            base::say(MessageType::Block, data),
        ) == Meaning::Block(b),
        !block::block_decodable(data) ==> dispatch::meaning(
            base::say(MessageType::Block, data),
        ) is BadBlock,
        headers::headers_decodable(data) && headers::headers_denoted(data, hs) ==> dispatch::meaning(
            base::say(MessageType::Headers, data),
        ) == Meaning::Headers(hs),
        !headers::headers_decodable(data) ==> dispatch::meaning(
            base::say(MessageType::Headers, data),
        ) is Unreadable,
        addr::addr_denoted(data, ps) ==> dispatch::meaning(base::say(MessageType::Addr, data))
            == Meaning::Addr(ps),
{
    if Transaction::decodable(data) {
        if data == t.spec_encode() {
            lemma_means(base::say(MessageType::Tx, data), Meaning::Tx(t));
        }
    } else {
        lemma_means(
            base::say(MessageType::Tx, data),
            Meaning::Unreadable(Transaction::decode_fault(data)),
        );
    }
    if block::block_decodable(data) {
        if block::block_denotes(data, b) {
            lemma_means(base::say(MessageType::Block, data), Meaning::Block(b));
        }
    } else {
        lemma_means(
            base::say(MessageType::Block, data),
            Meaning::BadBlock(block::block_fault(data)),
        );
    }
    if headers::headers_decodable(data) {
        if headers::headers_denoted(data, hs) {
            lemma_means(base::say(MessageType::Headers, data), Meaning::Headers(hs));
        }
    } else {
        lemma_means(
            base::say(MessageType::Headers, data),
            Meaning::Unreadable(headers::headers_fault(data)),
        );
    }
    if addr::addr_denoted(data, ps) {
        lemma_means(base::say(MessageType::Addr, data), Meaning::Addr(ps));
    }
}

/// A node starts with its chain and nothing else: no peers, no pool, nothing
/// parked and nobody asked. Its headers reach its tip.
pub proof fn node_starts_with_its_chain(
    clock: Clock,
    chain: ChainView,
    identity_nonce: u64,
    listen_port: u16,
)
    requires
        chain.wf(),
    ensures
        ({
            let v = base::fresh_node(clock, chain, identity_nonce, listen_port);
            &&& v.chain == chain
            &&& v.peers.peers.len() == 0 && v.peers.channels.len() == 0 && v.peers.pending.len()
                == 0
            &&& v.pool.len() == 0
            &&& v.orphans.len() == 0
            &&& v.identity_nonce == identity_nonce && v.listen_port == listen_port
            &&& v.syncer.state == SyncState::Idle && v.syncer.sync_peer is None
            &&& v.syncer.best_height == v.headers.top
            &&& v.syncer.best_hash == block::header_hash(v.headers.headers[v.headers.top])
            &&& v.headers.params == chain.params
            &&& v.headers.top >= chain.tip.height.0
            &&& block::header_hash(v.headers.headers[chain.tip.height.0]) == chain.tip.hash
        }),
{
    crate::p2p::sync::following_leads_past_the_tip(
        crate::p2p::sync::genesis_headers(chain.params),
        chain,
    );
}

} // verus!
