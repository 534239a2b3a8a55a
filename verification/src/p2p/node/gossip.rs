//! Telling peers of peers.

use vstd::prelude::*;
use crate::p2p::address::PeerAddress;
use crate::p2p::node::base;
use crate::p2p::node::base::{Connection, CoreView, NodeCore, Outcome};
use crate::p2p::node::event;
use crate::p2p::node::event::{Act, Action, Flow};
use crate::p2p::peer;
use crate::p2p::peer::{PeerFilter, PeersView, MAX_OUTBOUND_PEERS};
use crate::p2p::wire::addr;
use crate::p2p::wire::{AddrMessage, Message, MessageType, MAX_ADDRS_PER_MESSAGE};

verus! {

/// The peers that are told to another one at a time: those we have completed a
/// handshake with, but never the one that asks.
pub open spec fn told(v: CoreView, c: Connection, ms: u64) -> Seq<PeerAddress> {
    peer::upto(
        v.peers.select(PeerFilter::Shareable(Some(c.key)), ms),
        MAX_ADDRS_PER_MESSAGE as int,
    ).map_values(peer::dial_of())
}

/// What a request for peers does.
pub open spec fn after_get_addr(v: CoreView, c: Connection, ms: u64) -> Outcome {
    Outcome {
        acts: seq![
            Act::Reply(base::say(MessageType::Addr, addr::addr_payload(told(v, c, ms)))),
        ],
        ..base::ignored(v, c)
    }
}

/// The peers after some have been learned of.
pub open spec fn learned(v: PeersView, s: Seq<PeerAddress>, ms: u64) -> PeersView
    decreases s.len(),
{
    if s.len() == 0 {
        v
    } else {
        learned(v, s.drop_last(), ms).identified(s.last(), ms)
    }
}

/// How many more outbound connections are wanted.
pub open spec fn deficit(v: PeersView) -> int {
    let held = v.select(PeerFilter::Outbound, 0).len();
    if held >= MAX_OUTBOUND_PEERS {
        0
    } else {
        MAX_OUTBOUND_PEERS - held
    }
}

/// Opening connections to some peers.
pub open spec fn dials(s: Seq<PeerAddress>) -> Seq<Act> {
    Seq::new(s.len(), |i: int| Act::Dial(s[i].socket))
}

/// What a list of peers does: it is remembered, and as many known peers as we
/// have room for are dialed.
pub open spec fn after_addr(v: CoreView, c: Connection, s: Seq<PeerAddress>, ms: u64) -> Outcome {
    let peers = learned(v.peers, s, ms);
    Outcome {
        core: CoreView { peers, ..v },
        acts: dials(
            peer::upto(peers.select(PeerFilter::Dialable, ms), deficit(peers)).map_values(
                peer::dial_of(),
            ),
        ),
        ..base::ignored(v, c)
    }
}

impl NodeCore {
    /// Act on a request for peers.
    pub fn on_get_addr(&self, conn: &Connection, ms: u64) -> (r: (Vec<Action>, Flow))
        requires
            self.wf(),
        ensures
            ({
                let o = after_get_addr(self@, *conn, ms);
                &&& self@ == o.core
                &&& event::acts(r.0@) == o.acts
                &&& r.1@ == o.flow
            }),
    {
        let mut out: Vec<Action> = Vec::new();
        let m = AddrMessage {
            addrs: self.peers.shareable_addrs_at(MAX_ADDRS_PER_MESSAGE, Some(conn.key), ms),
        };
        event::add_action(&mut out, Action::Reply(Message::new(MessageType::Addr, m.encode())));
        assert(event::acts(out@) =~= after_get_addr(self@, *conn, ms).acts);
        (out, Flow::Continue)
    }

    /// Act on a list of peers.
    pub fn on_addr(&mut self, conn: &Connection, m: &AddrMessage, ms: u64) -> (r: (
        Vec<Action>,
        Flow,
    ))
        requires
            old(self).wf(),
        ensures
            final(self).wf(),
            ({
                let o = after_addr(old(self)@, *conn, m.addrs@, ms);
                &&& final(self)@ == o.core
                &&& event::acts(r.0@) == o.acts
                &&& r.1@ == o.flow
            }),
    {
        let mut out: Vec<Action> = Vec::new();
        let ghost v = self@;
        let mut i: usize = 0;
        assert(m.addrs@.subrange(0, 0) =~= Seq::<PeerAddress>::empty());
        while i < m.addrs.len()
            invariant
                i <= m.addrs@.len(),
                self.wf(),
                v == old(self)@,
                self@ == (CoreView {
                    peers: learned(v.peers, m.addrs@.subrange(0, i as int), ms),
                    ..v
                }),
            decreases m.addrs@.len() - i,
        {
            let peer = m.addrs[i];
            proof {
                let t = m.addrs@.subrange(0, i + 1);
                assert(t.drop_last() =~= m.addrs@.subrange(0, i as int));
                assert(t.last() == peer);
            }
            self.peers.add_known_peer_at(peer, ms);
            i = i + 1;
        }
        assert(m.addrs@.subrange(0, i as int) =~= m.addrs@);
        let found = self.peers.dialable_addrs_at(self.peers.outbound_deficit(), ms);
        let mut j: usize = 0;
        assert(event::acts(out@) =~= dials(found@).subrange(0, 0));
        while j < found.len()
            invariant
                j <= found@.len(),
                event::acts(out@) == dials(found@).subrange(0, j as int),
            decreases found@.len() - j,
        {
            event::add_action(&mut out, Action::Dial(found[j].socket));
            j = j + 1;
            assert(event::acts(out@) =~= dials(found@).subrange(0, j as int));
        }
        assert(event::acts(out@) =~= dials(found@));
        (out, Flow::Continue)
    }
}

/// A peer is never told of itself, nor of a peer that no handshake was
/// completed with.
pub proof fn gossip_tells_of_verified_others(v: CoreView, c: Connection, ms: u64, i: int)
    requires
        0 <= i < told(v, c, ms).len(),
    ensures
        told(v, c, ms)[i].socket != c.key,
        exists|j: int|
            0 <= j < v.peers.peers.len() && (#[trigger] v.peers.peers[j]).handshaked
                && v.peers.peers[j].dial_address() == Some(told(v, c, ms)[i]),
{
    peer::shared_peers_are_verified(v.peers, MAX_ADDRS_PER_MESSAGE as nat, Some(c.key), ms, i);
    let p = peer::upto(
        v.peers.select(PeerFilter::Shareable(Some(c.key)), ms),
        MAX_ADDRS_PER_MESSAGE as int,
    )[i];
    let j = choose|j: int| 0 <= j < v.peers.peers.len() && v.peers.peers[j] == p;
    assert(v.peers.peers[j].handshaked);
}

} // verus!
