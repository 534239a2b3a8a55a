//! Finding the first peers.

use vstd::prelude::*;
use crate::p2p::net::NetAddr;
use crate::p2p::peer;
use crate::p2p::peer::{PeerManager, PeersView};

verus! {

/// DNS seeds. Each name resolves to a set of bootstrap node addresses.
pub const DNS_SEEDS: [&'static str; 1] = ["seed.chroma.network:8333"];

pub const MAX_SEED_FAILURES: usize = 3;

/// How the search for peers stands.
pub struct Discovery {
    seed_failures: usize,
}

/// A table with some addresses in it, and those of them that were new.
pub open spec fn registered(v: PeersView, addrs: Seq<NetAddr>, now: u64) -> (
    PeersView,
    Seq<NetAddr>,
)
    decreases addrs.len(),
{
    if addrs.len() == 0 {
        (v, Seq::empty())
    } else {
        let (w, found) = registered(v, addrs.drop_last(), now);
        if peer::place(w.peers, addrs.last()) is Some {
            (w, found)
        } else {
            (w.added(addrs.last(), now), found.push(addrs.last()))
        }
    }
}

/// Register addresses and give the ones that are new.
///
/// This only populates the peer table, it does not dial. The caller must
/// connect to what is given, or a discovered peer is never contacted.
pub fn register(peers: &mut PeerManager, addrs: &[NetAddr], now: u64) -> (found: Vec<NetAddr>)
    requires
        old(peers)@.wf(),
    ensures
        final(peers)@.wf(),
        registered(old(peers)@, addrs@, now) == (final(peers)@, found@),
{
    let mut found: Vec<NetAddr> = Vec::new();
    let mut i: usize = 0;
    assert(addrs@.subrange(0, 0) =~= Seq::<NetAddr>::empty());
    while i < addrs.len()
        invariant
            i <= addrs@.len(),
            peers@.wf(),
            registered(old(peers)@, addrs@.subrange(0, i as int), now) == (peers@, found@),
        decreases addrs@.len() - i,
    {
        let addr = addrs[i];
        proof {
            let t = addrs@.subrange(0, i + 1);
            assert(t.drop_last() =~= addrs@.subrange(0, i as int));
            assert(t.last() == addr);
        }
        if peers.get_peer(&addr).is_none() {
            peers.add_peer_at(addr, now);
            found.push(addr);
        }
        i = i + 1;
    }
    assert(addrs@.subrange(0, i as int) =~= addrs@);
    found
}

impl Default for Discovery {
    fn default() -> (r: Discovery)
        ensures
            r.failures() == 0,
    {
        Discovery::new()
    }
}

impl Discovery {
    /// Consecutive seed lookups that have failed.
    pub closed spec fn failures(&self) -> nat {
        self.seed_failures as nat
    }

    pub fn new() -> (r: Discovery)
        ensures
            r.failures() == 0,
    {
        Discovery { seed_failures: 0 }
    }

    /// Number of consecutive seed lookups that have failed.
    pub fn seed_failures(&self) -> (r: usize)
        ensures
            r == self.failures(),
    {
        self.seed_failures
    }

    /// Whether another seed is worth a lookup.
    pub fn may_look_up(&self) -> (r: bool)
        ensures
            r == (self.failures() < MAX_SEED_FAILURES),
    {
        self.seed_failures < MAX_SEED_FAILURES
    }

    /// Take note of what a lookup gave: the addresses of a seed, which are
    /// registered, or nothing, which counts as a failure. Gives the addresses
    /// that are new.
    pub fn looked_up(
        &mut self,
        resolved: Option<Vec<NetAddr>>,
        peers: &mut PeerManager,
        now: u64,
    ) -> (found: Vec<NetAddr>)
        requires
            old(peers)@.wf(),
            old(self).failures() < MAX_SEED_FAILURES,
        ensures
            final(peers)@.wf(),
            match resolved {
                Some(addrs) => final(self).failures() == 0 && registered(
                    old(peers)@,
                    addrs@,
                    now,
                ) == (final(peers)@, found@),
                None => final(self).failures() == old(self).failures() + 1 && final(peers)@ == old(
                    peers,
                )@ && found@.len() == 0,
            },
            final(self).failures() <= MAX_SEED_FAILURES,
    {
        match resolved {
            Some(addrs) => {
                self.seed_failures = 0;
                register(peers, &addrs, now)
            },
            None => {
                self.seed_failures = self.seed_failures + 1;
                Vec::new()
            },
        }
    }
}

/// Every address that is reported as new was unknown before and is known after,
/// and asking again reports nothing.
pub proof fn registration_is_reported_once(v: PeersView, addrs: Seq<NetAddr>, now: u64, later: u64)
    ensures
        ({
            let (w, found) = registered(v, addrs, now);
            &&& forall|i: int|
                0 <= i < addrs.len() ==> peer::place(w.peers, #[trigger] addrs[i]) is Some
            &&& forall|i: int|
                0 <= i < found.len() ==> peer::place(v.peers, #[trigger] found[i]) is None
            &&& registered(w, addrs, later) == (w, Seq::<NetAddr>::empty())
        }),
{
    lemma_registered(v, addrs, now);
    let w = registered(v, addrs, now).0;
    lemma_known_again(w, addrs, later);
}

proof fn lemma_registered(v: PeersView, addrs: Seq<NetAddr>, now: u64)
    ensures
        ({
            let (w, found) = registered(v, addrs, now);
            &&& forall|i: int|
                0 <= i < addrs.len() ==> peer::place(w.peers, #[trigger] addrs[i]) is Some
            &&& forall|i: int|
                0 <= i < found.len() ==> peer::place(v.peers, #[trigger] found[i]) is None
            &&& forall|a: NetAddr|
                peer::place(v.peers, a) is Some ==> (#[trigger] peer::place(w.peers, a)) is Some
        }),
    decreases addrs.len(),
{
    if addrs.len() > 0 {
        let rest = addrs.drop_last();
        lemma_registered(v, rest, now);
        let (w, found) = registered(v, rest, now);
        let a = addrs.last();
        let (x, more) = registered(v, addrs, now);
        if peer::place(w.peers, a) is None {
            assert(x.peers.drop_last() =~= w.peers);
        }
        assert forall|b: NetAddr| peer::place(w.peers, b) is Some implies (
        #[trigger] peer::place(x.peers, b)) is Some by {}
        assert forall|b: NetAddr| peer::place(v.peers, b) is Some implies (
        #[trigger] peer::place(x.peers, b)) is Some by {
            assert(peer::place(w.peers, b) is Some);
        }
        assert forall|i: int| 0 <= i < more.len() implies peer::place(v.peers, #[trigger] more[i])
            is None by {
            if i < found.len() {
                assert(more[i] == found[i]);
            } else {
                assert(peer::place(w.peers, a) is None);
            }
        }
        assert forall|i: int| 0 <= i < addrs.len() implies peer::place(x.peers, #[trigger] addrs[i])
            is Some by {
            if i < rest.len() {
                assert(rest[i] == addrs[i]);
            }
        }
    }
}

proof fn lemma_known_again(w: PeersView, addrs: Seq<NetAddr>, now: u64)
    requires
        forall|i: int| 0 <= i < addrs.len() ==> peer::place(w.peers, #[trigger] addrs[i]) is Some,
    ensures
        registered(w, addrs, now) == (w, Seq::<NetAddr>::empty()),
    decreases addrs.len(),
{
    if addrs.len() > 0 {
        let rest = addrs.drop_last();
        assert forall|i: int| 0 <= i < rest.len() implies peer::place(w.peers, #[trigger] rest[i])
            is Some by {
            assert(rest[i] == addrs[i]);
        }
        lemma_known_again(w, rest, now);
        assert(peer::place(w.peers, addrs[addrs.len() - 1]) is Some);
    }
}

/// What is reported is each address that was given and not known, once, in the
/// order in which they were given first. Exactly those are added behind the peers
/// there were, which stay as they are.
pub proof fn registration_reports_the_unknown(v: PeersView, addrs: Seq<NetAddr>, now: u64, a: NetAddr)
    ensures
        ({
            let (w, found) = registered(v, addrs, now);
            let n = v.peers.len() as int;
            &&& found.contains(a) <==> addrs.contains(a) && (forall|i: int|
                0 <= i < n ==> (#[trigger] v.peers[i]).addr != a)
            &&& w.peers.len() == n + found.len()
            &&& forall|i: int| 0 <= i < n ==> #[trigger] w.peers[i] == v.peers[i]
            &&& forall|i: int|
                0 <= i < found.len() ==> (#[trigger] w.peers[n + i]) == peer::new_peer(
                    v.clock,
                    found[i],
                    now,
                )
            &&& forall|i: int, j: int| 0 <= i < j < found.len() ==> found[i] != found[j]
            &&& w.clock == v.clock && w.channels == v.channels && w.pending == v.pending
        }),
    decreases addrs.len(),
{
    if addrs.len() > 0 {
        let rest = addrs.drop_last();
        let b = addrs.last();
        registration_reports_the_unknown(v, rest, now, a);
        registration_reports_the_unknown(v, rest, now, b);
        let (u, some) = registered(v, rest, now);
        let (w, found) = registered(v, addrs, now);
        let n = v.peers.len() as int;
        peer::lemma_place(u.peers, b);
        assert(addrs =~= rest.push(b));
        assert(addrs.contains(a) <==> rest.contains(a) || a == b) by {
            if rest.contains(a) {
                let i = choose|i: int| 0 <= i < rest.len() && rest[i] == a;
                assert(addrs[i] == a);
            }
            if a == b {
                assert(addrs[addrs.len() - 1] == a);
            }
        }
        if peer::place(u.peers, b) is Some {
            let i = peer::place(u.peers, b)->0;
            if i < n {
                assert(u.peers[i] == v.peers[i]);
            } else {
                assert(u.peers[n + (i - n)].addr == some[i - n]);
                assert(some.contains(b));
            }
        } else {
            assert(found == some.push(b));
            assert forall|i: int| 0 <= i < some.len() implies some[i] != b by {
                assert(u.peers[n + i].addr == some[i]);
            }
            assert forall|i: int| 0 <= i < n implies (#[trigger] v.peers[i]).addr != b by {
                assert(u.peers[i] == v.peers[i]);
            }
            assert(found.contains(a) <==> some.contains(a) || a == b) by {
                if some.contains(a) {
                    let i = choose|i: int| 0 <= i < some.len() && some[i] == a;
                    assert(found[i] == a);
                }
                if a == b {
                    assert(found[some.len() as int] == a);
                }
            }
            assert forall|i: int| 0 <= i < n implies #[trigger] w.peers[i] == v.peers[i] by {
                assert(w.peers[i] == u.peers[i]);
            }
            assert forall|i: int| 0 <= i < found.len() implies (#[trigger] w.peers[n + i])
                == peer::new_peer(v.clock, found[i], now) by {
                if i < some.len() {
                    assert(w.peers[n + i] == u.peers[n + i]);
                }
            }
        }
    }
}

} // verus!
