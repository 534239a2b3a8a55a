//! What is promised of the peer rules: how charges add up, when a peer is banned,
//! quiet or worth a call, who is let in, and that what is done about one peer
//! leaves the others alone.

use vstd::prelude::*;
use crate::p2p::address;
use crate::p2p::address::PeerAddress;
use crate::p2p::net::{IpAddr, NetAddr};
use crate::p2p::peer;
use crate::p2p::peer::{
    AddressGroup, Channel, ConnectionSlot, InboundAdmission, PeerFilter, PeerInfo, PeerState,
    PeersView, RateWindow,
};

verus! {

// ---------------------------------------------------------------------------
// One peer
// ---------------------------------------------------------------------------

/// Within a second charges add up from when the second began. After it the first
/// charge begins a new second. Each charge touches its own counter alone, and
/// nothing else that is known of the peer.
pub proof fn charges_add_up_within_a_second(p: PeerInfo, count: usize, now: u64)
    ensures
        ({
            let over = now - p.rate.started >= 1000;
            let started = if over {
                now
            } else {
                p.rate.started
            };
            let m = p.after_message(now);
            let t = p.after_transaction(now);
            let g = p.after_getdata(count, now);
            let b = p.after_bytes(count, now);
            &&& m == (PeerInfo { rate: m.rate, ..p })
            &&& t == (PeerInfo { rate: t.rate, ..p })
            &&& g == (PeerInfo { rate: g.rate, ..p })
            &&& b == (PeerInfo { rate: b.rate, ..p })
            &&& m.rate.started == started && t.rate.started == started && g.rate.started == started
                && b.rate.started == started
            &&& over ==> m.rate.messages == 1 && m.rate.transactions == 0 && m.rate.getdata == 0
                && m.rate.bytes == 0
            &&& over ==> t.rate.transactions == 1 && t.rate.messages == 0 && t.rate.getdata == 0
                && t.rate.bytes == 0
            &&& over && count <= u32::MAX ==> g.rate.getdata == count && g.rate.messages == 0
                && g.rate.transactions == 0 && g.rate.bytes == 0
            &&& over ==> b.rate.bytes == count && b.rate.messages == 0 && b.rate.transactions == 0
                && b.rate.getdata == 0
            &&& !over && p.rate.messages < u32::MAX ==> m.rate == (RateWindow {
                messages: (p.rate.messages + 1) as u32,
                ..p.rate
            })
            &&& !over && p.rate.transactions < u32::MAX ==> t.rate == (RateWindow {
                transactions: (p.rate.transactions + 1) as u32,
                ..p.rate
            })
            &&& !over && p.rate.getdata + count <= u32::MAX ==> g.rate == (RateWindow {
                getdata: (p.rate.getdata + count) as u32,
                ..p.rate
            })
            &&& !over && p.rate.bytes + count <= usize::MAX ==> b.rate == (RateWindow {
                bytes: (p.rate.bytes + count) as usize,
                ..p.rate
            })
        }),
{
}

/// A peer may ask for fifty entries a second: what is left and what it asked for
/// make up fifty, and asking uses up what is left one for one.
pub proof fn fifty_entries_a_second(p: PeerInfo, count: usize, now: u64)
    ensures
        ({
            let used = if now - p.rate.started >= 1000 {
                0
            } else {
                p.rate.getdata as int
            };
            &&& used <= 50 ==> p.getdata_left(now) + used == 50
            &&& used > 50 ==> p.getdata_left(now) == 0
            &&& count <= p.getdata_left(now) ==> p.after_getdata(count, now).getdata_left(now)
                == p.getdata_left(now) - count
        }),
{
}

/// A mebibyte a second is free. What goes beyond it is read on only when, at that
/// rate since the second began, everything sent has been paid for to the
/// millisecond.
pub proof fn bytes_are_paid_for_at_the_rate(p: PeerInfo, now: u64)
    ensures
        ({
            let over = now - p.rate.started >= 1000;
            let sent = p.rate.bytes as int;
            let wait = p.paid_at(now) - p.rate.started;
            &&& over || sent <= 1_048_576 ==> p.paid_at(now) == now
            &&& !over && sent > 1_048_576 && p.paid_at(now) < u64::MAX && sent * 1000
                <= u64::MAX ==> wait * 1_048_576 <= sent * 1000 < (wait + 1) * 1_048_576
            &&& over && now + 1000 <= u64::MAX ==> p.window_end(now) == now + 1000
            &&& !over && p.rate.started + 1000 <= u64::MAX ==> p.window_end(now) == p.rate.started
                + 1000
        }),
{
    let x = p.rate.bytes as int * 1000;
    vstd::arithmetic::div_mod::lemma_fundamental_div_mod(x, 1_048_576);
    vstd::arithmetic::div_mod::lemma_mod_pos_bound(x, 1_048_576);
}

/// A mark in a peer's favour is one point. Points against it come off its score,
/// and one that has fallen to two hundred below zero is banned for an hour: at
/// every time before the hour is over and at none after.
pub proof fn score_falls_to_a_ban(p: PeerInfo, points: i32, now: u64, t: u64)
    requires
        now + 3_600_000 <= u64::MAX,
    ensures
        ({
            let good = p.after_tick();
            let bad = p.after_bad(points, now);
            let low = p.score - points;
            &&& good == (PeerInfo { score: good.score, ..p })
            &&& p.score < i32::MAX ==> good.score == p.score + 1
            &&& p.score == i32::MAX ==> good.score == p.score
            &&& i32::MIN <= low <= i32::MAX ==> bad.score == low
            &&& low < i32::MIN ==> bad.score == i32::MIN
            &&& low <= -200 ==> bad.state is Banned && (bad.banned_at(t) <==> t < now + 3_600_000)
                && bad == (PeerInfo {
                score: bad.score,
                ban_until: bad.ban_until,
                state: bad.state,
                ..p
            })
            &&& low > -200 ==> bad == (PeerInfo { score: bad.score, ..p })
        }),
{
}

/// A peer is banned while a set time lasts, or where none is set, while its score
/// is at two hundred below zero. It is quiet when nothing was heard of it, since
/// it last spoke or else since it connected, for longer than the timeout.
pub proof fn ban_and_silence_go_by_the_clock(p: PeerInfo, timeout: u64, now: u64, t: u64)
    ensures
        p.ban_until == Some(t) ==> (p.banned_at(now) <==> now < t),
        p.ban_until is None ==> (p.banned_at(now) <==> p.score <= -200),
        p.last_seen == Some(t) ==> (p.stale_at(timeout, now) <==> now > t + timeout),
        p.last_seen is None && p.connected_at == Some(t) ==> (p.stale_at(timeout, now) <==> now > t
            + timeout),
        p.last_seen is None && p.connected_at is None ==> !p.stale_at(timeout, now),
{
}

/// Which peers are picked for what.
pub proof fn peers_are_picked_by_their_state(
    v: PeersView,
    p: PeerInfo,
    now: u64,
    timeout: u64,
    except: NetAddr,
    g: AddressGroup,
)
    ensures
        ({
            let here = v.peers.contains(p);
            let live = p.state == PeerState::Connecting || p.state == PeerState::Connected || p.state
                == PeerState::Handshaking || p.state == PeerState::Ready;
            let keyed = p.node_id is Some && p.noise_key is Some;
            let banned = p.banned_at(now);
            &&& v.select(PeerFilter::Inbound, now).contains(p) <==> here && live && p.inbound
            &&& v.select(PeerFilter::Outbound, now).contains(p) <==> here && live && !p.inbound
            &&& v.select(PeerFilter::Group(g), now).contains(p) <==> here && live
                && address::group_of(p.addr.ip) == g
            &&& v.select(PeerFilter::Ready, now).contains(p) <==> here && p.state
                == PeerState::Ready
            &&& v.select(PeerFilter::ReadyOpen, now).contains(p) <==> here && p.state
                == PeerState::Ready && !banned
            &&& v.select(PeerFilter::Connected, now).contains(p) <==> here && p.state
                != PeerState::Disconnected && !banned
            &&& v.select(PeerFilter::Stale(timeout), now).contains(p) <==> here && live
                && p.stale_at(timeout, now)
            &&& v.select(PeerFilter::Shareable(None), now).contains(p) <==> here && p.handshaked
                && keyed && !banned
            &&& v.select(PeerFilter::Shareable(Some(except)), now).contains(p) <==> here
                && p.handshaked && keyed && !banned && p.addr != except
            &&& v.select(PeerFilter::Dialable, now).contains(p) <==> here && !live && keyed
                && !banned
            &&& v.select(PeerFilter::Prunable, now).contains(p) <==> here && p.state
                == PeerState::Disconnected && !banned
        }),
{
    lemma_picked(v, PeerFilter::Inbound, p, now);
    lemma_picked(v, PeerFilter::Outbound, p, now);
    lemma_picked(v, PeerFilter::Group(g), p, now);
    lemma_picked(v, PeerFilter::Ready, p, now);
    lemma_picked(v, PeerFilter::ReadyOpen, p, now);
    lemma_picked(v, PeerFilter::Connected, p, now);
    lemma_picked(v, PeerFilter::Stale(timeout), p, now);
    lemma_picked(v, PeerFilter::Shareable(None), p, now);
    lemma_picked(v, PeerFilter::Shareable(Some(except)), p, now);
    lemma_picked(v, PeerFilter::Dialable, p, now);
    lemma_picked(v, PeerFilter::Prunable, p, now);
}

pub proof fn lemma_filter_contains<T>(s: Seq<T>, f: spec_fn(T) -> bool, x: T)
    ensures
        s.filter(f).contains(x) <==> s.contains(x) && f(x),
    decreases s.len(),
{
    reveal(Seq::filter);
    if s.len() > 0 {
        let t = s.drop_last();
        let u = t.filter(f);
        lemma_filter_contains(t, f, x);
        assert(s =~= t.push(s.last()));
        if t.contains(x) {
            let i = choose|i: int| 0 <= i < t.len() && t[i] == x;
            assert(s[i] == x);
        }
        if x == s.last() {
            assert(s[s.len() - 1] == x);
        }
        if f(s.last()) {
            assert(s.filter(f) == u.push(s.last()));
            assert(u.push(s.last())[u.len() as int] == s.last());
            if u.contains(x) {
                let i = choose|i: int| 0 <= i < u.len() && u[i] == x;
                assert(u.push(s.last())[i] == x);
            }
        }
    }
}

pub proof fn lemma_picked(v: PeersView, f: PeerFilter, p: PeerInfo, now: u64)
    ensures
        v.select(f, now).contains(p) <==> v.peers.contains(p) && f.passes(p, now),
{
    lemma_filter_contains(v.peers, peer::such(f, now), p);
}

/// A peer can be called at the address it is known under, with the keys that it
/// presented, once it has presented both.
pub proof fn dialing_takes_both_keys(p: PeerInfo)
    ensures
        p.dial_address() is Some <==> p.node_id is Some && p.noise_key is Some,
        p.dial_address() matches Some(a) ==> a.socket == p.addr && p.node_id == Some(a.node_id)
            && p.noise_key == Some(a.noise_key),
{
}

// ---------------------------------------------------------------------------
// One among all
// ---------------------------------------------------------------------------

pub proof fn lemma_update_one(v: PeersView, i: int, p: PeerInfo, other: NetAddr)
    requires
        v.wf(),
        0 <= i < v.peers.len(),
        p.addr == v.peers[i].addr,
    ensures
        v.with_peer(i, p).peer(p.addr) == Some(p),
        other != p.addr ==> v.with_peer(i, p).peer(other) == v.peer(other),
        v.with_peer(i, p).wf(),
{
    let w = v.with_peer(i, p);
    peer::lemma_wf_update(v, i, p);
    peer::lemma_place_is(w.peers, p.addr, i);
    if other != p.addr {
        peer::lemma_place(v.peers, other);
        peer::lemma_place(w.peers, other);
        if peer::place(v.peers, other) is Some {
            let k = peer::place(v.peers, other)->0;
            assert(w.peers[k] == v.peers[k]);
            peer::lemma_place_is(w.peers, other, k);
        } else if peer::place(w.peers, other) is Some {
            let k = peer::place(w.peers, other)->0;
            assert(w.peers[k] == v.peers[k]);
        }
    }
}

pub proof fn lemma_add_one(v: PeersView, addr: NetAddr, now: u64, other: NetAddr)
    requires
        v.wf(),
    ensures
        v.added(addr, now).wf(),
        v.added(addr, now).peer(addr) == if v.peer(addr) is Some {
            v.peer(addr)
        } else {
            Some(peer::new_peer(v.clock, addr, now))
        },
        other != addr ==> v.added(addr, now).peer(other) == v.peer(other),
        peer::place(v.added(addr, now).peers, addr) is Some,
{
    let w = v.added(addr, now);
    peer::lemma_place(v.peers, addr);
    peer::lemma_place(v.peers, other);
    if v.peer(addr) is None {
        let n = v.peers.len() as int;
        assert forall|i: int, j: int| 0 <= i < j < w.peers.len() implies (#[trigger] w.peers[i]).addr
            != (#[trigger] w.peers[j]).addr by {
            assert(w.peers[i] == v.peers[i]);
            if j < n {
                assert(w.peers[j] == v.peers[j]);
            }
        }
        peer::lemma_place_is(w.peers, addr, n);
        if other != addr {
            assert(w.peers.drop_last() =~= v.peers);
        }
    }
}

/// A peer that is added is known, as disconnected and with nothing to its name.
/// Adding one that is known changes nothing, and neither touches any other.
pub proof fn adding_makes_known(v: PeersView, addr: NetAddr, now: u64, other: NetAddr)
    requires
        v.wf(),
        other != addr,
    ensures
        ({
            let w = v.added(addr, now);
            &&& v.peer(addr) is Some ==> w == v
            &&& v.peer(addr) is None ==> w.peers.len() == v.peers.len() + 1 && (w.peer(
                addr,
            ) matches Some(p) && p.addr == addr && p.state == PeerState::Disconnected && p.score
                == 0 && p.ban_until is None && p.node_id is None && p.noise_key is None
                && !p.handshaked && !p.inbound && p.height == 0 && p.connected_at is None
                && p.last_seen is None && p.rate.messages == 0 && p.rate.started == now)
            &&& w.peer(other) == v.peer(other)
            &&& w.channels == v.channels
            &&& w.pending == v.pending
        }),
{
    lemma_add_one(v, addr, now, other);
}

/// A peer that presented its keys is known by them afterwards, and keeps whatever
/// else was known of it.
pub proof fn identity_is_remembered(v: PeersView, a: PeerAddress, now: u64, other: NetAddr)
    requires
        v.wf(),
        other != a.socket,
    ensures
        ({
            let w = v.identified(a, now);
            &&& w.peer(a.socket) matches Some(p) && p.node_id == Some(a.node_id) && p.noise_key
                == Some(a.noise_key) && (v.peer(a.socket) matches Some(q) ==> p == (PeerInfo {
                node_id: p.node_id,
                noise_key: p.noise_key,
                ..q
            }))
            &&& w.peer(other) == v.peer(other)
            &&& w.channels == v.channels
            &&& w.pending == v.pending
        }),
{
    let m = v.added(a.socket, now);
    lemma_add_one(v, a.socket, now, other);
    peer::lemma_place(m.peers, a.socket);
    let i = peer::place(m.peers, a.socket)->0;
    lemma_update_one(
        m,
        i,
        PeerInfo { node_id: Some(a.node_id), noise_key: Some(a.noise_key), ..m.peers[i] },
        other,
    );
}

/// A slot is refused to a peer that is banned, then to one that is live already,
/// then to any when sixteen inbound or eight outbound connections are live.
/// Nothing else keeps a peer out.
pub proof fn slot_is_given_unless(v: PeersView, addr: NetAddr, inbound: bool, now: u64)
    ensures
        ({
            let r = v.slot(addr, inbound, now);
            let p = v.peer(addr);
            let banned = p is Some && p->0.banned_at(now);
            let live = p is Some && (p->0.state is Connecting || p->0.state is Connected
                || p->0.state is Handshaking || p->0.state is Ready);
            let many = if inbound {
                v.select(PeerFilter::Inbound, now).len() >= 16
            } else {
                v.select(PeerFilter::Outbound, now).len() >= 8
            };
            &&& r == ConnectionSlot::Banned <==> banned
            &&& r == ConnectionSlot::Duplicate <==> !banned && live
            &&& r == ConnectionSlot::Full <==> !banned && !live && many
            &&& r == ConnectionSlot::Accepted <==> !banned && !live && !many
        }),
{
}

/// A connection that is begun is being established, in the direction asked for,
/// since now, with nothing heard and no ping out. What the peer had earned or
/// presented stays, and no other peer is touched.
pub proof fn connection_begins_afresh(
    v: PeersView,
    addr: NetAddr,
    inbound: bool,
    now: u64,
    other: NetAddr,
)
    requires
        v.wf(),
        other != addr,
    ensures
        ({
            let w = v.begun(addr, inbound, now);
            let given = v.slot(addr, inbound, now) == ConnectionSlot::Accepted;
            &&& !given ==> w == v
            &&& given ==> (w.peer(addr) matches Some(p) && p.state == PeerState::Connecting
                && p.inbound == inbound && p.connected_at == Some(now) && p.last_seen is None
                && p.last_ping_nonce is None && p.last_ping_at is None && (v.peer(addr) matches Some(
                q,
            ) ==> p.score == q.score && p.ban_until == q.ban_until && p.node_id == q.node_id
                && p.noise_key == q.noise_key && p.handshaked == q.handshaked && p.rate == q.rate
                && p.height == q.height && p.version == q.version && p.services == q.services))
            &&& w.peer(other) == v.peer(other)
            &&& w.channels == v.channels
            &&& w.pending == v.pending
        }),
{
    if v.slot(addr, inbound, now) == ConnectionSlot::Accepted {
        let m = v.added(addr, now);
        lemma_add_one(v, addr, now, other);
        peer::lemma_place(m.peers, addr);
        let i = peer::place(m.peers, addr)->0;
        lemma_update_one(m, i, v.begun(addr, inbound, now).peers[i], other);
    }
}

/// A connection that ends leaves the peer known and disconnected, or banned where
/// it was, with its score and its keys, and without a ping out or a channel.
pub proof fn connection_ends_without_a_trace(v: PeersView, addr: NetAddr, other: NetAddr)
    requires
        v.wf(),
        other != addr,
    ensures
        ({
            let w = v.ended(addr);
            &&& v.peer(addr) is None <==> w.peer(addr) is None
            &&& v.peer(addr) matches Some(q) ==> (w.peer(addr) matches Some(p) && p == (PeerInfo {
                state: p.state,
                last_ping_nonce: None,
                last_ping_at: None,
                ..q
            }) && p.state == if q.state == PeerState::Banned {
                PeerState::Banned
            } else {
                PeerState::Disconnected
            })
            &&& w.peer(other) == v.peer(other)
            &&& w.channels == v.unplugged(addr).channels
            &&& w.pending == v.pending
        }),
{
    let m = v.unplugged(addr);
    lemma_unplugged_wf(v, addr);
    peer::lemma_place(m.peers, addr);
    if peer::place(m.peers, addr) is Some {
        let i = peer::place(m.peers, addr)->0;
        lemma_update_one(m, i, v.ended(addr).peers[i], other);
    }
}

/// A known peer that is banned is so for an hour from now, below any score that
/// it could have; one that is not known stays so.
pub proof fn banning_lasts_an_hour(v: PeersView, addr: NetAddr, now: u64, t: u64, other: NetAddr)
    requires
        v.wf(),
        other != addr,
        now + 3_600_000 <= u64::MAX,
    ensures
        ({
            let w = v.with_ban(addr, now);
            &&& v.peer(addr) is None ==> w == v
            &&& v.peer(addr) matches Some(q) ==> (w.peer(addr) matches Some(p) && p == (PeerInfo {
                score: p.score,
                ban_until: p.ban_until,
                state: PeerState::Banned,
                ..q
            }) && p.score < -200 && (p.banned_at(t) <==> t < now + 3_600_000))
            &&& w.peer(other) == v.peer(other)
            &&& w.channels == v.channels
            &&& w.pending == v.pending
        }),
{
    peer::lemma_place(v.peers, addr);
    if peer::place(v.peers, addr) is Some {
        let i = peer::place(v.peers, addr)->0;
        lemma_update_one(v, i, v.with_ban(addr, now).peers[i], other);
    }
}

proof fn lemma_remove_one(v: PeersView, i: int, other: NetAddr)
    requires
        v.wf(),
        0 <= i < v.peers.len(),
    ensures
        ({
            let w = PeersView { peers: v.peers.remove(i), ..v };
            &&& w.peer(v.peers[i].addr) is None
            &&& other != v.peers[i].addr ==> w.peer(other) == v.peer(other)
        }),
{
    let w = PeersView { peers: v.peers.remove(i), ..v };
    let addr = v.peers[i].addr;
    assert forall|j: int| 0 <= j < w.peers.len() implies #[trigger] w.peers[j] == if j < i {
        v.peers[j]
    } else {
        v.peers[j + 1]
    } by {}
    peer::lemma_place(w.peers, addr);
    if peer::place(w.peers, addr) is Some {
        let j = peer::place(w.peers, addr)->0;
        if j < i {
            assert(v.peers[j].addr != v.peers[i].addr);
        } else {
            assert(v.peers[i].addr != v.peers[j + 1].addr);
        }
    }
    if other != addr {
        peer::lemma_place(v.peers, other);
        peer::lemma_place(w.peers, other);
        if peer::place(v.peers, other) is Some {
            let k = peer::place(v.peers, other)->0;
            let j = if k < i {
                k
            } else {
                k - 1
            };
            assert(w.peers[j] == v.peers[k]);
            peer::lemma_place_is(w.peers, other, j);
        }
    }
}

/// A peer that is removed is not known any more; every other is as it was.
pub proof fn removal_forgets_one(v: PeersView, addr: NetAddr, other: NetAddr)
    requires
        v.wf(),
        other != addr,
    ensures
        v.removed(addr).peer(addr) is None,
        v.removed(addr).peer(other) == v.peer(other),
        v.removed(addr).channels == v.unplugged(addr).channels,
        v.removed(addr).pending == v.pending,
{
    let m = v.unplugged(addr);
    lemma_unplugged_wf(v, addr);
    peer::lemma_place(m.peers, addr);
    if peer::place(m.peers, addr) is Some {
        lemma_remove_one(m, peer::place(m.peers, addr)->0, other);
    }
}

proof fn lemma_channel_found(channels: Seq<(NetAddr, Channel)>, addr: NetAddr)
    ensures
        match peer::channel_place(channels, addr) {
            Some(i) => 0 <= i < channels.len() && channels[i].0 == addr,
            None => forall|j: int| 0 <= j < channels.len() ==> (#[trigger] channels[j]).0 != addr,
        },
    decreases channels.len(),
{
    if channels.len() > 0 && channels.last().0 != addr {
        lemma_channel_found(channels.drop_last(), addr);
        assert forall|j: int| 0 <= j < channels.len() - 1 implies channels[j]
            == channels.drop_last()[j] by {}
    }
}

proof fn lemma_unplugged_wf(v: PeersView, addr: NetAddr)
    requires
        v.wf(),
    ensures
        v.unplugged(addr).wf(),
{
    lemma_channel_found(v.channels, addr);
    let w = v.unplugged(addr);
    if peer::channel_place(v.channels, addr) is Some {
        let k = peer::channel_place(v.channels, addr)->0;
        assert forall|j: int| 0 <= j < w.channels.len() implies #[trigger] w.channels[j] == if j < k {
            v.channels[j]
        } else {
            v.channels[j + 1]
        } by {}
        assert forall|i: int, j: int| 0 <= i < j < w.channels.len() implies (
        #[trigger] w.channels[i]).0 != (#[trigger] w.channels[j]).0 by {
            let a = if i < k {
                i
            } else {
                i + 1
            };
            let b = if j < k {
                j
            } else {
                j + 1
            };
            assert(v.channels[a].0 != v.channels[b].0);
        }
    }
}

/// After a channel has been put in there is exactly that one to the peer, and
/// after it has been taken out there is none; the channels to others stay.
pub proof fn one_channel_to_a_peer(v: PeersView, addr: NetAddr, tx: Channel, other: NetAddr, c: Channel)
    requires
        v.wf(),
        other != addr,
    ensures
        v.plugged(addr, tx).channels.contains((addr, tx)),
        v.plugged(addr, tx).channels.contains((other, c)) <==> v.channels.contains((other, c)),
        v.plugged(addr, tx).channels.contains((addr, c)) ==> c == tx,
        !v.unplugged(addr).channels.contains((addr, c)),
        v.unplugged(addr).channels.contains((other, c)) <==> v.channels.contains((other, c)),
{
    lemma_channel_found(v.channels, addr);
    let p = v.plugged(addr, tx).channels;
    let u = v.unplugged(addr).channels;
    let s = v.channels;
    match peer::channel_place(s, addr) {
        Some(k) => {
            assert(p[k] == (addr, tx));
            assert forall|j: int| 0 <= j < u.len() implies #[trigger] u[j] == if j < k {
                s[j]
            } else {
                s[j + 1]
            } by {}
            if s.contains((other, c)) {
                let i = choose|i: int| 0 <= i < s.len() && s[i] == (other, c);
                assert(p[i] == (other, c));
                let j = if i < k {
                    i
                } else {
                    i - 1
                };
                assert(u[j] == (other, c));
            }
            if p.contains((other, c)) {
                let i = choose|i: int| 0 <= i < p.len() && p[i] == (other, c);
                assert(s[i] == (other, c));
            }
            if u.contains((other, c)) {
                let i = choose|i: int| 0 <= i < u.len() && u[i] == (other, c);
                if i < k {
                    assert(s[i] == (other, c));
                } else {
                    assert(s[i + 1] == (other, c));
                }
            }
            if p.contains((addr, c)) {
                let i = choose|i: int| 0 <= i < p.len() && p[i] == (addr, c);
                if i < k {
                    assert(s[i].0 != s[k].0);
                } else if i > k {
                    assert(s[k].0 != s[i].0);
                }
            }
            if u.contains((addr, c)) {
                let i = choose|i: int| 0 <= i < u.len() && u[i] == (addr, c);
                if i < k {
                    assert(s[i].0 != s[k].0);
                } else {
                    assert(s[k].0 != s[i + 1].0);
                }
            }
        },
        None => {
            let n = s.len() as int;
            assert(p[n] == (addr, tx));
            if s.contains((other, c)) {
                let i = choose|i: int| 0 <= i < s.len() && s[i] == (other, c);
                assert(p[i] == (other, c));
            }
            if p.contains((other, c)) {
                let i = choose|i: int| 0 <= i < p.len() && p[i] == (other, c);
                assert(s[i] == (other, c));
            }
            if p.contains((addr, c)) {
                let i = choose|i: int| 0 <= i < p.len() && p[i] == (addr, c);
                if i < n {
                    assert(s[i].0 != addr);
                }
            }
        },
    }
}

/// Pruning forgets exactly the peers that are disconnected and not banned.
pub proof fn pruning_forgets_the_disconnected(v: PeersView, p: PeerInfo, now: u64)
    ensures
        v.pruned(now).peers.contains(p) <==> v.peers.contains(p) && !(p.state
            == PeerState::Disconnected && !p.banned_at(now)),
        v.pruned(now).pending == v.pending,
{
    lemma_filter_contains(v.peers, |q: PeerInfo| !PeerFilter::Prunable.passes(q, now), p);
}

// ---------------------------------------------------------------------------
// The way in
// ---------------------------------------------------------------------------

/// Sockets of a group, as a test.
pub open spec fn of_group(g: AddressGroup) -> spec_fn(AddressGroup) -> bool {
    |x: AddressGroup| x == g
}

/// Sockets of a site, as a test.
pub open spec fn of_site(s: [u8; 6]) -> spec_fn(AddressGroup) -> bool {
    |x: AddressGroup| address::site_of(x) == Some(s)
}

/// What is counted against a group or a site is each socket and each live
/// connection of it, once.
pub proof fn connections_are_counted_once(v: PeersView, g: AddressGroup, s: [u8; 6])
    ensures
        v.held_by_group(g) == v.pending.filter(of_group(g)).len() + v.select(
            PeerFilter::Group(g),
            0,
        ).len(),
        v.held_by_site(s) == v.pending.filter(of_site(s)).len() + v.select(
            PeerFilter::Site(s),
            0,
        ).len(),
        v.in_flight() == v.pending.len() + v.select(PeerFilter::Inbound, 0).len(),
{
    lemma_tally(v.pending, g);
    lemma_site_tally(v.pending, s);
}

proof fn lemma_tally(pending: Seq<AddressGroup>, g: AddressGroup)
    ensures
        peer::tally(pending, g) == pending.filter(of_group(g)).len(),
    decreases pending.len(),
{
    reveal(Seq::filter);
    if pending.len() > 0 {
        lemma_tally(pending.drop_last(), g);
    }
}

proof fn lemma_site_tally(pending: Seq<AddressGroup>, s: [u8; 6])
    ensures
        peer::site_tally(pending, s) == pending.filter(of_site(s)).len(),
    decreases pending.len(),
{
    reveal(Seq::filter);
    if pending.len() > 0 {
        lemma_site_tally(pending.drop_last(), s);
    }
}

/// A socket is let in exactly when its group holds fewer than two connections and
/// its site fewer than four, unless it is local; when fewer than sixteen are held
/// in all; and, for a group that holds one, when fewer than twelve are. What is
/// told of a refusal is the first of these that fails.
pub proof fn socket_is_let_in_exactly_when(v: PeersView, src: NetAddr)
    ensures
        ({
            let g = address::group_of(src.ip);
            let local = g == AddressGroup::Local;
            let site_full = address::site_of(g) matches Some(s) && v.held_by_site(s) >= 4;
            let crowded = !local && (v.held_by_group(g) >= 2 || site_full);
            let r = v.admission(src);
            &&& r == InboundAdmission::GroupFull <==> crowded
            &&& r == InboundAdmission::Full <==> !crowded && v.in_flight() >= 16
            &&& r == InboundAdmission::Reserved <==> !crowded && 12 <= v.in_flight() < 16
                && v.held_by_group(g) > 0
            &&& r == InboundAdmission::Accepted <==> !crowded && v.in_flight() < 16
                && (v.in_flight() < 12 || v.held_by_group(g) == 0)
            &&& r == InboundAdmission::Accepted ==> v.admitted(src).pending == v.pending.push(g)
            &&& r != InboundAdmission::Accepted ==> v.admitted(src).pending == v.pending
            &&& v.admitted(src).peers == v.peers
            &&& v.admitted(src).channels == v.channels
        }),
{
}

/// Giving back a place takes one socket of the group off the count, if there is
/// one, and none of any other group.
pub proof fn release_frees_one_place(v: PeersView, src: NetAddr, other: AddressGroup)
    requires
        other != address::group_of(src.ip),
    ensures
        ({
            let g = address::group_of(src.ip);
            let w = v.released(src);
            let n = v.pending.filter(of_group(g)).len();
            &&& n > 0 ==> w.pending.filter(of_group(g)).len() == n - 1
            &&& n == 0 ==> w == v
            &&& w.pending.filter(of_group(other)) == v.pending.filter(of_group(other))
            &&& w.peers == v.peers
            &&& w.channels == v.channels
        }),
{
    let g = address::group_of(src.ip);
    lemma_release(v.pending, g, other);
}

proof fn lemma_release(s: Seq<AddressGroup>, g: AddressGroup, other: AddressGroup)
    requires
        other != g,
    ensures
        ({
            let n = s.filter(of_group(g)).len();
            match peer::last_pending(s, g) {
                Some(i) => 0 <= i < s.len() && n > 0 && s.remove(i).filter(of_group(g)).len() == n
                    - 1 && s.remove(i).filter(of_group(other)) == s.filter(of_group(other)),
                None => n == 0,
            }
        }),
    decreases s.len(),
{
    reveal(Seq::filter);
    if s.len() > 0 {
        let t = s.drop_last();
        lemma_release(t, g, other);
        if s.last() == g {
            assert(s.remove(s.len() - 1) =~= t);
        } else if peer::last_pending(t, g) is Some {
            let i = peer::last_pending(t, g)->0;
            let u = s.remove(i);
            assert(u.drop_last() =~= t.remove(i));
            assert(u.last() == s.last());
        }
    }
}

/// An address counts under its first three bytes, or an IPv6 one under its first
/// eight and, more widely, its first six. What is on the own machine or network
/// counts under one group, whatever its bytes.
pub proof fn addresses_count_under_their_first_bytes(a: [u8; 4], b: [u8; 16])
    ensures
        ({
            let own = a[0] == 127 || a[0] == 10 || (a[0] == 172 && a[1] >= 16 && a[1] < 32) || (a[0]
                == 192 && a[1] == 168) || (a[0] == 169 && a[1] == 254);
            let g = address::group_of(IpAddr::V4(a));
            &&& own <==> g == AddressGroup::Local
            &&& !own ==> (g matches AddressGroup::V4(p) && p@ == a@.subrange(0, 3))
            &&& address::site_of(g) is None
        }),
        ({
            let g = address::group_of(IpAddr::V6(b));
            let own = (b[15] == 1 && forall|i: int| 0 <= i < 15 ==> #[trigger] b@[i] == 0) || b[0]
                == 252 || b[0] == 253 || (b[0] == 254 && b[1] >= 128 && b[1] < 192);
            &&& own <==> g is Local
            &&& g is Local || (g matches AddressGroup::V6(p) && p@ == b@.subrange(0, 8))
            &&& g is V6 ==> (address::site_of(g) matches Some(s) && s@ == b@.subrange(0, 6))
            &&& g is Local ==> address::site_of(g) is None
        }),
{
    let g = address::group_of(IpAddr::V4(a));
    if g is V4 {
        assert(g->V4_0@ =~= a@.subrange(0, 3));
    }
    let h = address::group_of(IpAddr::V6(b));
    let one = crate::bytes::zeros(15).push(1);
    if b@ == one {
        assert forall|i: int| 0 <= i < 15 implies #[trigger] b@[i] == 0 by {
            assert(one[i] == 0);
        }
        assert(one[15] == 1);
    }
    if b[15] == 1 && forall|i: int| 0 <= i < 15 ==> #[trigger] b@[i] == 0 {
        assert(b@ =~= one);
    }
    if h is V6 {
        assert(h->V6_0@ =~= b@.subrange(0, 8));
        assert((address::site_of(h)->0)@ =~= b@.subrange(0, 6));
    }
}

/// Peers take turns: consecutive numbers pick consecutive peers, and as many of
/// them as there are peers pick each one.
pub proof fn peers_take_turns(n: u64, len: nat)
    requires
        0 < len,
        n < u64::MAX,
    ensures
        0 <= peer::turn(n, len) < len,
        peer::turn((n + 1) as u64, len) == if peer::turn(n, len) + 1 == len {
            0
        } else {
            peer::turn(n, len) + 1
        },
{
    let q = n as int / len as int;
    let r = peer::turn(n, len);
    vstd::arithmetic::div_mod::lemma_fundamental_div_mod(n as int, len as int);
    vstd::arithmetic::div_mod::lemma_mod_pos_bound(n as int, len as int);
    if r + 1 == len {
        assert(n + 1 == len * (q + 1) + 0) by (nonlinear_arith)
            requires
                n == len * q + r,
                r + 1 == len,
        ;
        vstd::arithmetic::div_mod::lemma_fundamental_div_mod_converse(
            n + 1,
            len as int,
            q + 1,
            0,
        );
    } else {
        assert(n + 1 == q * len + (r + 1)) by (nonlinear_arith)
            requires
                n == len * q + r,
        ;
        vstd::arithmetic::div_mod::lemma_fundamental_div_mod_converse(n + 1, len as int, q, r + 1);
    }
}

/// Where peers are handed out, they are handed out in order, by their address or
/// by how they can be called, and no more of them than are wanted.
pub proof fn peers_are_handed_out_in_order(s: Seq<PeerInfo>, limit: int, i: int, now: u64, by: u64)
    requires
        0 <= limit,
    ensures
        ({
            let t = peer::upto(s, limit);
            &&& s.len() <= limit ==> t.len() == s.len()
            &&& s.len() > limit ==> t.len() == limit
            &&& 0 <= i < t.len() ==> t[i] == s[i]
            &&& 0 <= i < t.len() ==> t.map_values(peer::addr_of())[i] == s[i].addr
            &&& 0 <= i < t.len() && s[i].dial_address() is Some ==> Some(
                t.map_values(peer::dial_of())[i],
            ) == s[i].dial_address()
            &&& t.map_values(peer::addr_of()).len() == t.len()
            &&& t.map_values(peer::dial_of()).len() == t.len()
            &&& now + by <= u64::MAX ==> peer::later(now, by) == now + by
            &&& now + by > u64::MAX ==> peer::later(now, by) == u64::MAX
        }),
{
}

/// A live peer counts under the site that its address lies in, and a channel lasts
/// as long as its peer is not forgotten.
pub proof fn sites_and_channels_follow_their_peers(
    v: PeersView,
    p: PeerInfo,
    s: [u8; 6],
    now: u64,
    c: (NetAddr, Channel),
)
    ensures
        v.select(PeerFilter::Site(s), now).contains(p) <==> v.peers.contains(p) && (p.state
            == PeerState::Connecting || p.state == PeerState::Connected || p.state
            == PeerState::Handshaking || p.state == PeerState::Ready) && address::site_of(
            address::group_of(p.addr.ip),
        ) == Some(s),
        v.pruned(now).channels.contains(c) <==> v.channels.contains(c) && !(v.peer(
            c.0,
        ) matches Some(q) && q.state == PeerState::Disconnected && !q.banned_at(now)),
{
    lemma_picked(v, PeerFilter::Site(s), p, now);
    lemma_filter_contains(v.channels, |c: (NetAddr, Channel)| v.outlasts(c.0, now), c);
}

/// A peer is found under its address where one has it, and nowhere otherwise; the
/// same goes for channels.
pub proof fn lookups_go_by_address(v: PeersView, addr: NetAddr, i: int)
    requires
        v.wf(),
    ensures
        v.peer(addr) is None <==> (forall|j: int|
            0 <= j < v.peers.len() ==> (#[trigger] v.peers[j]).addr != addr),
        0 <= i < v.peers.len() && v.peers[i].addr == addr ==> v.peer(addr) == Some(v.peers[i]),
        peer::channel_place(v.channels, addr) is None <==> (forall|j: int|
            0 <= j < v.channels.len() ==> (#[trigger] v.channels[j]).0 != addr),
        peer::channel_place(v.channels, addr) matches Some(k) ==> 0 <= k < v.channels.len()
            && v.channels[k].0 == addr,
{
    peer::lemma_place(v.peers, addr);
    lemma_channel_found(v.channels, addr);
    if 0 <= i < v.peers.len() && v.peers[i].addr == addr {
        assert forall|j: int| i < j < v.peers.len() implies (#[trigger] v.peers[j]).addr != addr by {
            assert(v.peers[i].addr != v.peers[j].addr);
        }
        peer::lemma_place_is(v.peers, addr, i);
    }
}

} // verus!
