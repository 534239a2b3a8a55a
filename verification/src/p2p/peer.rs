//! Peers: what is known of each, what each may do, and how many there may be.

use vstd::prelude::*;
use crate::bytes;
use crate::crypto::noise::{NodeId, NoiseKey};
use crate::p2p::address;
use crate::p2p::clock::Clock;
use crate::p2p::net::NetAddr;

pub use crate::p2p::address::{AddressGroup, PeerAddress};

verus! {

pub const PEER_SCORE_GOOD: i32 = 10;

pub const PEER_SCORE_BAD: i32 = -100;

pub const BAN_SCORE_THRESHOLD: i32 = -200;

pub const MAX_OUTBOUND_PEERS: usize = 8;

pub const MAX_INBOUND_PEERS: usize = 16;

pub const PEER_TIMEOUT_SECS: u64 = 30;

pub const PING_INTERVAL_SECS: u64 = 5;

pub const VERSION_TIMEOUT_SECS: u64 = 10;

/// Per-peer rate limits, enforced over a rolling one-second window.
pub const MSG_RATE_LIMIT: u32 = 100;

pub const TX_RATE_LIMIT: u32 = 10;

/// Bytes a peer may send us per second.
///
/// Message count alone does not bound bandwidth. A peer past it is not read
/// from until what it sent is paid for.
pub const BYTE_RATE_LIMIT: usize = 1_048_576;

/// Inventory entries a peer may ask for per second. The only request that
/// reads the database gets a limit of its own; entries past it wait.
pub const GETDATA_RATE_LIMIT: u32 = 50;

/// Connections allowed from one address group.
pub const MAX_CONNECTIONS_PER_GROUP: usize = 2;

/// Connections allowed from one IPv6 site (/48), across all its /64s.
pub const MAX_CONNECTIONS_PER_SITE: usize = 4;

/// Inbound slots held back for address groups we have no connection from.
pub const RESERVED_INBOUND_SLOTS: usize = 4;

/// How long a ban lasts, in milliseconds.
pub const BAN_MILLIS: u64 = 3_600_000;

/// How long a rate-limit window lasts, in milliseconds.
pub const RATE_WINDOW_MILLIS: u64 = 1_000;

/// `tokio::sync::mpsc::Sender`: the way to a peer's writer. It is only carried
/// here, never used.
#[verifier::external_type_specification]
#[verifier::external_body]
#[verifier::reject_recursive_types(T)]
pub struct ExSender<T>(tokio::sync::mpsc::Sender<T>);

/// Counters for one peer's rolling rate-limit window.
#[derive(Clone, Copy, Debug, PartialEq, Eq, Structural)]
pub struct RateWindow {
    /// When the window began, in milliseconds.
    pub started: u64,
    pub messages: u32,
    pub transactions: u32,
    pub getdata: u32,
    pub bytes: usize,
}

impl RateWindow {
    /// A window with nothing in it.
    pub open spec fn fresh(now: u64) -> RateWindow {
        RateWindow { started: now, messages: 0, transactions: 0, getdata: 0, bytes: 0 }
    }

    /// The window that counts at a time: a fresh one once a second has gone by.
    pub open spec fn rolled(self, now: u64) -> RateWindow {
        if now - self.started >= RATE_WINDOW_MILLIS {
            RateWindow::fresh(now)
        } else {
            self
        }
    }

    fn new(now: u64) -> (r: RateWindow)
        ensures
            r == RateWindow::fresh(now),
    {
        RateWindow { started: now, messages: 0, transactions: 0, getdata: 0, bytes: 0 }
    }

    fn roll(&mut self, now: u64)
        ensures
            *final(self) == old(self).rolled(now),
    {
        if now >= self.started && now - self.started >= RATE_WINDOW_MILLIS {
            *self = RateWindow::new(now);
        }
    }
}

#[derive(Clone, Copy, Debug, PartialEq, Eq, Structural)]
pub enum PeerState {
    Connecting,
    Connected,
    Handshaking,
    Ready,
    Disconnected,
    Banned,
}

/// Outcome of claiming a connection slot for a peer.
#[derive(Clone, Copy, PartialEq, Eq, Structural, Debug)]
pub enum ConnectionSlot {
    /// The slot was claimed; the caller owns this connection.
    Accepted,
    /// A connection to this peer is already live.
    Duplicate,
    /// The peer is banned.
    Banned,
    /// The relevant connection limit is already reached.
    Full,
}

/// The answer to "may this inbound socket proceed?".
#[derive(Debug, Clone, Copy, PartialEq, Eq, Structural)]
pub enum InboundAdmission {
    /// Accepted; the caller must call `release_inbound` when the connection
    /// ends, however it ends.
    Accepted,
    /// No inbound slot left at all.
    Full,
    /// This address group already holds as many connections as it may.
    GroupFull,
    /// Slots remain, but the ones left are reserved for groups we have no
    /// connection from, and this is not one of those.
    Reserved,
}

/// What is known of one peer. Times are in milliseconds of its clock.
#[derive(Clone, Copy, Debug)]
pub struct PeerInfo {
    /// What its times are read from.
    pub clock: Clock,
    pub addr: NetAddr,
    pub state: PeerState,
    pub score: i32,
    pub connected_at: Option<u64>,
    pub last_seen: Option<u64>,
    pub last_ping_nonce: Option<u64>,
    /// When the outstanding ping was sent.
    pub last_ping_at: Option<u64>,
    pub height: u32,
    pub version: u32,
    pub services: u64,
    pub ban_until: Option<u64>,
    /// True if the remote opened the connection to us.
    pub inbound: bool,
    /// The node identity this peer presented, once known.
    pub node_id: Option<NodeId>,
    /// The static key that identity authorised. Needed to dial the peer, so an
    /// entry without it can be talked to but not called back.
    pub noise_key: Option<NoiseKey>,
    /// True once a handshake completed on this address at least once.
    ///
    /// Only these are worth passing to other nodes.
    pub handshaked: bool,
    /// Rolling counters backing the per-peer rate limits.
    pub rate: RateWindow,
}

/// What is known of a peer of which only the address is known.
pub open spec fn new_peer(clock: Clock, addr: NetAddr, now: u64) -> PeerInfo {
    PeerInfo {
        clock,
        addr,
        state: PeerState::Disconnected,
        score: 0,
        connected_at: None,
        last_seen: None,
        last_ping_nonce: None,
        last_ping_at: None,
        height: 0,
        version: 0,
        services: 0,
        ban_until: None,
        inbound: false,
        node_id: None,
        noise_key: None,
        handshaked: false,
        rate: RateWindow::fresh(now),
    }
}

/// A counter after one charge, and whether it is still within its limit.
pub open spec fn charged(count: int, by: int, most: int) -> int {
    if count + by > most {
        most
    } else {
        count + by
    }
}

/// A later time, or the last one there is.
pub open spec fn later(now: u64, by: u64) -> u64 {
    if now + by > u64::MAX {
        u64::MAX
    } else {
        (now + by) as u64
    }
}

impl PeerInfo {
    /// Whether a connection to the peer is live or being established.
    pub open spec fn active(self) -> bool {
        self.state is Connecting || self.state is Connected || self.state is Handshaking
            || self.state is Ready
    }

    /// Whether the peer is banned at a time.
    pub open spec fn banned_at(self, now: u64) -> bool {
        match self.ban_until {
            Some(until) => now < until,
            None => self.score <= BAN_SCORE_THRESHOLD,
        }
    }

    /// Whether the peer has been quiet for longer than a timeout. One that was
    /// never connected is not quiet.
    pub open spec fn stale_at(self, timeout: u64, now: u64) -> bool {
        match self.last_seen {
            Some(t) => now - t > timeout,
            None => match self.connected_at {
                Some(t) => now - t > timeout,
                None => false,
            },
        }
    }

    /// The group the peer is counted under.
    pub open spec fn group_of(self) -> AddressGroup {
        address::group_of(self.addr.ip)
    }

    /// The address another node could dial the peer on: both keys or nothing.
    pub open spec fn dial_address(self) -> Option<PeerAddress> {
        match (self.node_id, self.noise_key) {
            (Some(node_id), Some(noise_key)) => Some(
                PeerAddress { node_id, noise_key, socket: self.addr },
            ),
            _ => None,
        }
    }

    /// The peer after a message has been counted.
    pub open spec fn after_message(self, now: u64) -> PeerInfo {
        let w = self.rate.rolled(now);
        PeerInfo {
            rate: RateWindow {
                messages: charged(w.messages as int, 1, u32::MAX as int) as u32,
                ..w
            },
            ..self
        }
    }

    /// The peer after a transaction has been counted.
    pub open spec fn after_transaction(self, now: u64) -> PeerInfo {
        let w = self.rate.rolled(now);
        PeerInfo {
            rate: RateWindow {
                transactions: charged(w.transactions as int, 1, u32::MAX as int) as u32,
                ..w
            },
            ..self
        }
    }

    /// The peer after inventory entries have been counted.
    pub open spec fn after_getdata(self, count: usize, now: u64) -> PeerInfo {
        let w = self.rate.rolled(now);
        PeerInfo {
            rate: RateWindow {
                getdata: charged(w.getdata as int, count as int, u32::MAX as int) as u32,
                ..w
            },
            ..self
        }
    }

    /// The peer after received bytes have been counted.
    pub open spec fn after_bytes(self, bytes: usize, now: u64) -> PeerInfo {
        let w = self.rate.rolled(now);
        PeerInfo {
            rate: RateWindow {
                bytes: charged(w.bytes as int, bytes as int, usize::MAX as int) as usize,
                ..w
            },
            ..self
        }
    }

    /// When the bytes that were counted are paid for: at once within the
    /// budget, and past it only after the time that the budget allows them in.
    pub open spec fn paid_at(self, now: u64) -> u64 {
        let w = self.rate.rolled(now);
        if w.bytes <= BYTE_RATE_LIMIT {
            now
        } else {
            later(w.started, (w.bytes * RATE_WINDOW_MILLIS / BYTE_RATE_LIMIT as int) as u64)
        }
    }

    /// How many more inventory entries the peer may ask for at a time.
    pub open spec fn getdata_left(self, now: u64) -> nat {
        let w = self.rate.rolled(now);
        if w.getdata >= GETDATA_RATE_LIMIT {
            0
        } else {
            (GETDATA_RATE_LIMIT - w.getdata) as nat
        }
    }

    /// When the window that counts at a time is over.
    pub open spec fn window_end(self, now: u64) -> u64 {
        later(self.rate.rolled(now).started, RATE_WINDOW_MILLIS)
    }

    /// The peer after a mark in its favour.
    pub open spec fn after_tick(self) -> PeerInfo {
        PeerInfo { score: charged(self.score as int, 1, i32::MAX as int) as i32, ..self }
    }

    /// The peer after points against it. At the threshold it is banned.
    pub open spec fn after_bad(self, points: i32, now: u64) -> PeerInfo {
        let low = self.score - points;
        let score = if low < i32::MIN {
            i32::MIN
        } else if low > i32::MAX {
            i32::MAX
        } else {
            low as i32
        };
        if score <= BAN_SCORE_THRESHOLD {
            PeerInfo {
                score,
                ban_until: Some(later(now, BAN_MILLIS)),
                state: PeerState::Banned,
                ..self
            }
        } else {
            PeerInfo { score, ..self }
        }
    }

    /// What is known of a peer of which only the address is known, at a time of
    /// a clock.
    pub fn new_on(clock: Clock, addr: NetAddr, now: u64) -> (r: PeerInfo)
        ensures
            r == new_peer(clock, addr, now),
    {
        PeerInfo {
            clock,
            addr,
            state: PeerState::Disconnected,
            score: 0,
            connected_at: None,
            last_seen: None,
            last_ping_nonce: None,
            last_ping_at: None,
            height: 0,
            version: 0,
            services: 0,
            ban_until: None,
            inbound: false,
            node_id: None,
            noise_key: None,
            handshaked: false,
            rate: RateWindow::new(now),
        }
    }

    /// What is known of a peer of which only the address is known. Its clock
    /// starts now.
    pub fn new(addr: NetAddr) -> (r: PeerInfo)
        ensures
            exists|now: u64| r == #[trigger] new_peer(r.clock, addr, now),
    {
        let clock = Clock::start();
        let now: u64 = clock.millis();
        let r = PeerInfo::new_on(clock, addr, now);
        assert(r == new_peer(r.clock, addr, now));
        r
    }

    /// The address another node could dial this peer on.
    ///
    /// Both keys or nothing: half an identity is not something to hand out or
    /// act on.
    pub fn peer_address(&self) -> (r: Option<PeerAddress>)
        ensures
            r == self.dial_address(),
    {
        match (self.node_id, self.noise_key) {
            (Some(node_id), Some(noise_key)) => Some(
                PeerAddress::new(node_id, noise_key, self.addr),
            ),
            _ => None,
        }
    }

    /// Count a received message against the peer's allowance. Gives false once
    /// the peer is over its limit for the current second.
    pub fn allow_message(&mut self) -> (r: bool)
        ensures
            exists|now: u64|
                *final(self) == #[trigger] old(self).after_message(now) && r == (
                final(self).rate.messages <= MSG_RATE_LIMIT),
    {
        self.allow_message_at(self.clock.millis())
    }

    /// Count a message received at a time.
    pub fn allow_message_at(&mut self, now: u64) -> (r: bool)
        ensures
            *final(self) == old(self).after_message(now),
            r == (final(self).rate.messages <= MSG_RATE_LIMIT),
    {
        self.rate.roll(now);
        self.rate.messages = self.rate.messages.saturating_add(1);
        self.rate.messages <= MSG_RATE_LIMIT
    }

    /// Count a received transaction against the peer's separate, tighter
    /// transaction allowance.
    pub fn allow_transaction(&mut self) -> (r: bool)
        ensures
            exists|now: u64|
                *final(self) == #[trigger] old(self).after_transaction(now) && r == (
                final(self).rate.transactions <= TX_RATE_LIMIT),
    {
        self.allow_transaction_at(self.clock.millis())
    }

    /// Count a transaction received at a time.
    pub fn allow_transaction_at(&mut self, now: u64) -> (r: bool)
        ensures
            *final(self) == old(self).after_transaction(now),
            r == (final(self).rate.transactions <= TX_RATE_LIMIT),
    {
        self.rate.roll(now);
        self.rate.transactions = self.rate.transactions.saturating_add(1);
        self.rate.transactions <= TX_RATE_LIMIT
    }

    /// Charge inventory entries against this peer's `GetData` budget.
    pub fn allow_getdata(&mut self, count: usize) -> (r: bool)
        ensures
            exists|now: u64|
                *final(self) == #[trigger] old(self).after_getdata(count, now) && r == (
                final(self).rate.getdata <= GETDATA_RATE_LIMIT),
    {
        self.allow_getdata_at(count, self.clock.millis())
    }

    /// Charge inventory entries asked for at a time.
    pub fn allow_getdata_at(&mut self, count: usize, now: u64) -> (r: bool)
        ensures
            *final(self) == old(self).after_getdata(count, now),
            r == (final(self).rate.getdata <= GETDATA_RATE_LIMIT),
    {
        self.rate.roll(now);
        let by: u32 = if count as u64 > u32::MAX as u64 {
            u32::MAX
        } else {
            count as u32
        };
        self.rate.getdata = self.rate.getdata.saturating_add(by);
        self.rate.getdata <= GETDATA_RATE_LIMIT
    }

    /// Charge received bytes against this peer's bandwidth budget.
    pub fn allow_bytes(&mut self, bytes: usize) -> (r: bool)
        ensures
            exists|now: u64|
                *final(self) == #[trigger] old(self).after_bytes(bytes, now) && r == (
                final(self).rate.bytes <= BYTE_RATE_LIMIT),
    {
        self.allow_bytes_at(bytes, self.clock.millis())
    }

    /// Charge bytes received at a time.
    pub fn allow_bytes_at(&mut self, bytes: usize, now: u64) -> (r: bool)
        ensures
            *final(self) == old(self).after_bytes(bytes, now),
            r == (final(self).rate.bytes <= BYTE_RATE_LIMIT),
    {
        self.rate.roll(now);
        self.rate.bytes = self.rate.bytes.saturating_add(bytes);
        self.rate.bytes <= BYTE_RATE_LIMIT
    }

    /// When the bytes that were counted are paid for.
    pub fn paid_time(&self, now: u64) -> (r: u64)
        ensures
            r == self.paid_at(now),
    {
        let mut w = self.rate;
        w.roll(now);
        if w.bytes <= BYTE_RATE_LIMIT {
            return now;
        }
        let bytes: u128 = w.bytes as u128;
        assert(bytes * 1000 <= 0xffff_ffff_ffff_ffff * 1000) by (nonlinear_arith)
            requires
                bytes <= 0xffff_ffff_ffff_ffff,
        ;
        let wait: u128 = bytes * RATE_WINDOW_MILLIS as u128 / BYTE_RATE_LIMIT as u128;
        w.started.saturating_add(wait as u64)
    }

    /// How many more inventory entries the peer may ask for at a time, and when
    /// the window that counts them is over.
    pub fn getdata_allowance(&self, now: u64) -> (r: (usize, u64))
        ensures
            r.0 == self.getdata_left(now),
            r.1 == self.window_end(now),
    {
        let mut w = self.rate;
        w.roll(now);
        let left: u32 = if w.getdata >= GETDATA_RATE_LIMIT {
            0
        } else {
            GETDATA_RATE_LIMIT - w.getdata
        };
        (left as usize, w.started.saturating_add(RATE_WINDOW_MILLIS))
    }

    /// The address group this peer is counted under.
    pub fn group(&self) -> (r: AddressGroup)
        ensures
            r == self.group_of(),
    {
        AddressGroup::of(self.addr.ip)
    }

    /// True while a connection to this peer is live or being established.
    pub fn is_active(&self) -> (r: bool)
        ensures
            r == self.active(),
    {
        match self.state {
            PeerState::Connecting
            | PeerState::Connected
            | PeerState::Handshaking
            | PeerState::Ready => true,
            _ => false,
        }
    }

    /// True if the peer has gone quiet for longer than a timeout, in
    /// milliseconds.
    pub fn is_stale(&self, timeout: u64) -> (r: bool)
        ensures
            exists|now: u64| r == #[trigger] self.stale_at(timeout, now),
    {
        self.is_stale_at(timeout, self.clock.millis())
    }

    /// True if at a time the peer has been quiet for longer than a timeout.
    pub fn is_stale_at(&self, timeout: u64, now: u64) -> (r: bool)
        ensures
            r == self.stale_at(timeout, now),
    {
        let reference = match self.last_seen {
            Some(t) => Some(t),
            None => self.connected_at,
        };
        match reference {
            Some(t) => now >= t && now - t > timeout,
            None => false,
        }
    }

    pub fn is_banned(&self) -> (r: bool)
        ensures
            exists|now: u64| r == #[trigger] self.banned_at(now),
    {
        self.is_banned_at(self.clock.millis())
    }

    /// Whether the peer is banned at a time.
    pub fn is_banned_at(&self, now: u64) -> (r: bool)
        ensures
            r == self.banned_at(now),
    {
        match self.ban_until {
            Some(until) => now < until,
            None => self.score <= BAN_SCORE_THRESHOLD,
        }
    }

    pub fn score_tick(&mut self)
        ensures
            *final(self) == old(self).after_tick(),
    {
        if self.score < i32::MAX {
            self.score = self.score + 1;
        }
    }

    pub fn score_bad(&mut self, points: i32)
        ensures
            exists|now: u64| *final(self) == #[trigger] old(self).after_bad(points, now),
    {
        self.score_bad_at(points, self.clock.millis());
    }

    /// Count points against the peer at a time.
    pub fn score_bad_at(&mut self, points: i32, now: u64)
        ensures
            *final(self) == old(self).after_bad(points, now),
    {
        let low: i64 = self.score as i64 - points as i64;
        self.score = if low < i32::MIN as i64 {
            i32::MIN
        } else if low > i32::MAX as i64 {
            i32::MAX
        } else {
            low as i32
        };
        if self.score <= BAN_SCORE_THRESHOLD {
            self.ban_until = Some(now.saturating_add(BAN_MILLIS));
            self.state = PeerState::Banned;
        }
    }
}

/// The four budgets of a peer are separate: charging one leaves the counters of
/// the others as they are within a window, and a new window clears them all.
pub proof fn budgets_are_separate(p: PeerInfo, now: u64, count: usize)
    ensures
        ({
            let w = p.rate.rolled(now);
            &&& p.after_message(now).rate == (RateWindow {
                messages: p.after_message(now).rate.messages,
                ..w
            })
            &&& p.after_transaction(now).rate == (RateWindow {
                transactions: p.after_transaction(now).rate.transactions,
                ..w
            })
            &&& p.after_getdata(count, now).rate == (RateWindow {
                getdata: p.after_getdata(count, now).rate.getdata,
                ..w
            })
            &&& p.after_bytes(count, now).rate == (RateWindow {
                bytes: p.after_bytes(count, now).rate.bytes,
                ..w
            })
            &&& now - p.rate.started >= RATE_WINDOW_MILLIS ==> w == RateWindow::fresh(now)
            &&& now - p.rate.started < RATE_WINDOW_MILLIS ==> w == p.rate
        }),
{
}

/// Bytes within the budget cost no time. Past it the peer has to wait for at
/// least the rest of the second, and so long that what it sent does not exceed
/// the budget for the time.
pub proof fn bandwidth_is_paid_for(p: PeerInfo, now: u64)
    requires
        ({
            let w = p.rate.rolled(now);
            w.started + w.bytes * RATE_WINDOW_MILLIS / BYTE_RATE_LIMIT as int <= u64::MAX
        }),
    ensures
        ({
            let w = p.rate.rolled(now);
            let wait = p.paid_at(now) - w.started;
            &&& w.bytes <= BYTE_RATE_LIMIT ==> p.paid_at(now) == now
            &&& w.bytes > BYTE_RATE_LIMIT ==> wait >= RATE_WINDOW_MILLIS && w.bytes
                * RATE_WINDOW_MILLIS < (wait + 1) * BYTE_RATE_LIMIT
        }),
{
}

/// The peer after a number of messages at one time.
pub open spec fn after_messages(p: PeerInfo, n: nat, now: u64) -> PeerInfo
    decreases n,
{
    if n == 0 {
        p
    } else {
        after_messages(p, (n - 1) as nat, now).after_message(now)
    }
}

/// In a fresh window exactly the allowed number of messages passes.
pub proof fn message_limit_is_exact(p: PeerInfo, n: nat, now: u64)
    requires
        p.rate == RateWindow::fresh(now),
    ensures
        after_messages(p, n, now).rate.messages <= MSG_RATE_LIMIT <==> n <= MSG_RATE_LIMIT,
{
    lemma_messages_counted(p, n, now);
}

proof fn lemma_messages_counted(p: PeerInfo, n: nat, now: u64)
    requires
        p.rate == RateWindow::fresh(now),
    ensures
        after_messages(p, n, now).rate.started == now,
        after_messages(p, n, now).rate.messages == charged(0, n as int, u32::MAX as int),
    decreases n,
{
    if n > 0 {
        lemma_messages_counted(p, (n - 1) as nat, now);
    }
}

/// A peer whose score falls to the threshold is banned for the full time, and
/// points that do not take it there do not ban it.
pub proof fn points_ban_at_the_threshold(p: PeerInfo, points: i32, now: u64)
    requires
        now <= u64::MAX - BAN_MILLIS,
    ensures
        p.after_bad(points, now).score <= BAN_SCORE_THRESHOLD ==> {
            &&& p.after_bad(points, now).state is Banned
            &&& !p.after_bad(points, now).active()
            &&& forall|t: u64|
                now <= t < now + BAN_MILLIS ==> #[trigger] p.after_bad(points, now).banned_at(t)
        },
        p.after_bad(points, now).score > BAN_SCORE_THRESHOLD ==> p.after_bad(points, now).state
            == p.state && p.after_bad(points, now).ban_until == p.ban_until,
{
}

// ---------------------------------------------------------------------------
// All peers
// ---------------------------------------------------------------------------

/// Which peers are meant.
#[derive(Clone, Copy, Debug)]
pub enum PeerFilter {
    /// Live connections that the remote opened.
    Inbound,
    /// Live connections that we opened.
    Outbound,
    /// Live connections of an address group.
    Group(AddressGroup),
    /// Live connections of an IPv6 site.
    Site([u8; 6]),
    /// Past the handshake.
    Ready,
    /// Past the handshake and not banned.
    ReadyOpen,
    /// Not disconnected and not banned.
    Connected,
    /// Live but quiet for longer than a timeout.
    Stale(u64),
    /// Worth telling other nodes about, but for one of them.
    Shareable(Option<NetAddr>),
    /// Known but not connected, and with both keys.
    Dialable,
    /// Disconnected and not banned.
    Prunable,
}

impl PeerFilter {
    /// Whether a peer is meant at a time.
    pub open spec fn passes(self, p: PeerInfo, now: u64) -> bool {
        match self {
            PeerFilter::Inbound => p.inbound && p.active(),
            PeerFilter::Outbound => !p.inbound && p.active(),
            PeerFilter::Group(g) => p.active() && p.group_of() == g,
            PeerFilter::Site(s) => p.active() && address::site_of(p.group_of()) == Some(s),
            PeerFilter::Ready => p.state is Ready,
            PeerFilter::ReadyOpen => p.state is Ready && !p.banned_at(now),
            PeerFilter::Connected => !(p.state is Disconnected) && !p.banned_at(now),
            PeerFilter::Stale(timeout) => p.active() && p.stale_at(timeout, now),
            PeerFilter::Shareable(except) => p.handshaked && !p.banned_at(now) && except != Some(
                p.addr,
            ) && p.dial_address() is Some,
            PeerFilter::Dialable => !p.active() && !p.banned_at(now) && p.dial_address() is Some,
            PeerFilter::Prunable => p.state is Disconnected && !p.banned_at(now),
        }
    }

    fn admits(&self, p: &PeerInfo, now: u64) -> (r: bool)
        ensures
            r == self.passes(*p, now),
    {
        match self {
            PeerFilter::Inbound => p.inbound && p.is_active(),
            PeerFilter::Outbound => !p.inbound && p.is_active(),
            PeerFilter::Group(g) => p.is_active() && p.group() == *g,
            PeerFilter::Site(s) => p.is_active() && match p.group().site() {
                Some(t) => {
                    let same = bytes::bytes_equal(&t, s);
                    proof {
                        if same {
                            bytes::lemma_array_equal(t, *s);
                        }
                    }
                    same
                },
                None => false,
            },
            PeerFilter::Ready => p.state == PeerState::Ready,
            PeerFilter::ReadyOpen => p.state == PeerState::Ready && !p.is_banned_at(now),
            PeerFilter::Connected => p.state != PeerState::Disconnected && !p.is_banned_at(now),
            PeerFilter::Stale(timeout) => p.is_active() && p.is_stale_at(*timeout, now),
            PeerFilter::Shareable(except) => p.handshaked && !p.is_banned_at(now) && match except {
                Some(a) => *a != p.addr,
                None => true,
            } && p.peer_address().is_some(),
            PeerFilter::Dialable => !p.is_active() && !p.is_banned_at(now)
                && p.peer_address().is_some(),
            PeerFilter::Prunable => p.state == PeerState::Disconnected && !p.is_banned_at(now),
        }
    }
}

/// The peers that are meant, as a test.
pub open spec fn such(f: PeerFilter, now: u64) -> spec_fn(PeerInfo) -> bool {
    |p: PeerInfo| f.passes(p, now)
}

/// The first of some things, no more than a limit.
pub open spec fn upto<T>(s: Seq<T>, limit: int) -> Seq<T> {
    if s.len() <= limit {
        s
    } else {
        s.subrange(0, limit)
    }
}

/// Where a peer stands, if it is known.
pub open spec fn place(peers: Seq<PeerInfo>, addr: NetAddr) -> Option<int>
    decreases peers.len(),
{
    if peers.len() == 0 {
        None
    } else if peers.last().addr == addr {
        Some(peers.len() - 1)
    } else {
        place(peers.drop_last(), addr)
    }
}

/// The way to a peer's writer.
pub type Channel = tokio::sync::mpsc::Sender<Vec<u8>>;

/// Where a channel stands, if there is one.
pub open spec fn channel_place(channels: Seq<(NetAddr, Channel)>, addr: NetAddr) -> Option<int>
    decreases channels.len(),
{
    if channels.len() == 0 {
        None
    } else if channels.last().0 == addr {
        Some(channels.len() - 1)
    } else {
        channel_place(channels.drop_last(), addr)
    }
}

/// How many pending sockets a group has.
pub open spec fn tally(pending: Seq<AddressGroup>, g: AddressGroup) -> nat
    decreases pending.len(),
{
    if pending.len() == 0 {
        0
    } else {
        tally(pending.drop_last(), g) + if pending.last() == g {
            1nat
        } else {
            0nat
        }
    }
}

/// How many pending sockets a site has.
pub open spec fn site_tally(pending: Seq<AddressGroup>, s: [u8; 6]) -> nat
    decreases pending.len(),
{
    if pending.len() == 0 {
        0
    } else {
        site_tally(pending.drop_last(), s) + if address::site_of(pending.last()) == Some(s) {
            1nat
        } else {
            0nat
        }
    }
}

/// Where the last pending socket of a group stands.
pub open spec fn last_pending(pending: Seq<AddressGroup>, g: AddressGroup) -> Option<int>
    decreases pending.len(),
{
    if pending.len() == 0 {
        None
    } else if pending.last() == g {
        Some(pending.len() - 1)
    } else {
        last_pending(pending.drop_last(), g)
    }
}

/// All peers, the ways to their writers, and the inbound sockets that are not
/// through the handshake yet, by address group.
pub struct PeerManager {
    clock: Clock,
    peers: Vec<PeerInfo>,
    channels: Vec<(NetAddr, Channel)>,
    pending_inbound: Vec<AddressGroup>,
}

/// What a peer manager holds.
#[verifier::ext_equal]
pub struct PeersView {
    pub clock: Clock,
    pub peers: Seq<PeerInfo>,
    pub channels: Seq<(NetAddr, Channel)>,
    pub pending: Seq<AddressGroup>,
}

impl View for PeerManager {
    type V = PeersView;

    closed spec fn view(&self) -> PeersView {
        PeersView {
            clock: self.clock,
            peers: self.peers@,
            channels: self.channels@,
            pending: self.pending_inbound@,
        }
    }
}

/// A peer manager that knows nobody.
pub open spec fn no_peers(clock: Clock) -> PeersView {
    PeersView {
        clock,
        peers: Seq::empty(),
        channels: Seq::empty(),
        pending: Seq::empty(),
    }
}

impl PeersView {
    /// Whether no address stands twice among the peers or among the channels.
    pub open spec fn wf(self) -> bool {
        &&& forall|i: int, j: int|
            0 <= i < j < self.peers.len() ==> (#[trigger] self.peers[i]).addr != (
            #[trigger] self.peers[j]).addr
        &&& forall|i: int, j: int|
            0 <= i < j < self.channels.len() ==> (#[trigger] self.channels[i]).0 != (
            #[trigger] self.channels[j]).0
    }

    /// The peers that are meant.
    pub open spec fn select(self, f: PeerFilter, now: u64) -> Seq<PeerInfo> {
        self.peers.filter(such(f, now))
    }

    /// The peer at an address.
    pub open spec fn peer(self, addr: NetAddr) -> Option<PeerInfo> {
        match place(self.peers, addr) {
            Some(i) => Some(self.peers[i]),
            None => None,
        }
    }

    /// Connections held by a group, pending or live.
    pub open spec fn held_by_group(self, g: AddressGroup) -> nat {
        tally(self.pending, g) + self.select(PeerFilter::Group(g), 0).len()
    }

    /// Connections held by a site, pending or live.
    pub open spec fn held_by_site(self, s: [u8; 6]) -> nat {
        site_tally(self.pending, s) + self.select(PeerFilter::Site(s), 0).len()
    }

    /// Inbound sockets, pending or live.
    pub open spec fn in_flight(self) -> nat {
        self.pending.len() + self.select(PeerFilter::Inbound, 0).len()
    }

    /// With one peer changed.
    pub open spec fn with_peer(self, i: int, p: PeerInfo) -> PeersView {
        PeersView { peers: self.peers.update(i, p), ..self }
    }

    /// With a peer, if it was not known.
    pub open spec fn added(self, addr: NetAddr, now: u64) -> PeersView {
        if place(self.peers, addr) is Some {
            self
        } else {
            PeersView { peers: self.peers.push(new_peer(self.clock, addr, now)), ..self }
        }
    }

    /// With a peer whose identity is known.
    pub open spec fn identified(self, a: PeerAddress, now: u64) -> PeersView {
        let v = self.added(a.socket, now);
        let i = place(v.peers, a.socket)->0;
        v.with_peer(
            i,
            PeerInfo {
                node_id: Some(a.node_id),
                noise_key: Some(a.noise_key),
                ..v.peers[i]
            },
        )
    }

    /// Without a channel.
    pub open spec fn unplugged(self, addr: NetAddr) -> PeersView {
        match channel_place(self.channels, addr) {
            Some(i) => PeersView { channels: self.channels.remove(i), ..self },
            None => self,
        }
    }

    /// Without a peer and its channel.
    pub open spec fn removed(self, addr: NetAddr) -> PeersView {
        let v = self.unplugged(addr);
        match place(v.peers, addr) {
            Some(i) => PeersView { peers: v.peers.remove(i), ..v },
            None => v,
        }
    }

    /// The answer to a claim for a connection slot.
    pub open spec fn slot(self, addr: NetAddr, inbound: bool, now: u64) -> ConnectionSlot {
        match self.peer(addr) {
            Some(p) if p.banned_at(now) => ConnectionSlot::Banned,
            Some(p) if p.active() => ConnectionSlot::Duplicate,
            _ => if inbound && self.select(PeerFilter::Inbound, now).len() >= MAX_INBOUND_PEERS {
                ConnectionSlot::Full
            } else if !inbound && self.select(PeerFilter::Outbound, now).len()
                >= MAX_OUTBOUND_PEERS {
                ConnectionSlot::Full
            } else {
                ConnectionSlot::Accepted
            },
        }
    }

    /// With a connection begun.
    pub open spec fn begun(self, addr: NetAddr, inbound: bool, now: u64) -> PeersView {
        if self.slot(addr, inbound, now) != ConnectionSlot::Accepted {
            self
        } else {
            let v = self.added(addr, now);
            let i = place(v.peers, addr)->0;
            v.with_peer(
                i,
                PeerInfo {
                    state: PeerState::Connecting,
                    inbound,
                    connected_at: Some(now),
                    last_seen: None,
                    last_ping_nonce: None,
                    last_ping_at: None,
                    ..v.peers[i]
                },
            )
        }
    }

    /// With a connection ended. Score and ban stay.
    pub open spec fn ended(self, addr: NetAddr) -> PeersView {
        let v = self.unplugged(addr);
        match place(v.peers, addr) {
            Some(i) => v.with_peer(
                i,
                PeerInfo {
                    state: if v.peers[i].state is Banned {
                        PeerState::Banned
                    } else {
                        PeerState::Disconnected
                    },
                    last_ping_nonce: None,
                    last_ping_at: None,
                    ..v.peers[i]
                },
            ),
            None => v,
        }
    }

    /// With a peer banned, if it is known.
    pub open spec fn with_ban(self, addr: NetAddr, now: u64) -> PeersView {
        match place(self.peers, addr) {
            Some(i) => self.with_peer(
                i,
                PeerInfo {
                    score: (BAN_SCORE_THRESHOLD - 1) as i32,
                    ban_until: Some(later(now, BAN_MILLIS)),
                    state: PeerState::Banned,
                    ..self.peers[i]
                },
            ),
            None => self,
        }
    }

    /// Whether pruning leaves what stands under an address.
    pub open spec fn outlasts(self, addr: NetAddr, now: u64) -> bool {
        match self.peer(addr) {
            Some(p) => !PeerFilter::Prunable.passes(p, now),
            None => true,
        }
    }

    /// Without the peers that are disconnected and not banned.
    pub open spec fn pruned(self, now: u64) -> PeersView {
        PeersView {
            clock: self.clock,
            peers: self.peers.filter(|p: PeerInfo| !PeerFilter::Prunable.passes(p, now)),
            channels: self.channels.filter(|c: (NetAddr, Channel)| self.outlasts(c.0, now)),
            pending: self.pending,
        }
    }

    /// The answer to an inbound socket.
    pub open spec fn admission(self, src: NetAddr) -> InboundAdmission {
        let g = address::group_of(src.ip);
        if !(g is Local) && self.held_by_group(g) >= MAX_CONNECTIONS_PER_GROUP {
            InboundAdmission::GroupFull
        } else if !(g is Local) && (address::site_of(g) matches Some(s) && self.held_by_site(s)
            >= MAX_CONNECTIONS_PER_SITE) {
            InboundAdmission::GroupFull
        } else if self.in_flight() >= MAX_INBOUND_PEERS {
            InboundAdmission::Full
        } else if self.held_by_group(g) > 0 && self.in_flight() >= MAX_INBOUND_PEERS
            - RESERVED_INBOUND_SLOTS {
            InboundAdmission::Reserved
        } else {
            InboundAdmission::Accepted
        }
    }

    /// With an inbound socket's place claimed, if it may proceed.
    pub open spec fn admitted(self, src: NetAddr) -> PeersView {
        if self.admission(src) != InboundAdmission::Accepted {
            self
        } else {
            PeersView { pending: self.pending.push(address::group_of(src.ip)), ..self }
        }
    }

    /// With an inbound socket's place given back.
    pub open spec fn released(self, src: NetAddr) -> PeersView {
        match last_pending(self.pending, address::group_of(src.ip)) {
            Some(i) => PeersView { pending: self.pending.remove(i), ..self },
            None => self,
        }
    }

    /// With a way to a peer's writer.
    pub open spec fn plugged(self, addr: NetAddr, tx: Channel) -> PeersView {
        match channel_place(self.channels, addr) {
            Some(i) => PeersView { channels: self.channels.update(i, (addr, tx)), ..self },
            None => PeersView { channels: self.channels.push((addr, tx)), ..self },
        }
    }
}

/// The address of a peer, as a map.
pub open spec fn addr_of() -> spec_fn(PeerInfo) -> NetAddr {
    |p: PeerInfo| p.addr
}

/// The dialable address of a peer that has one, as a map.
pub open spec fn dial_of() -> spec_fn(PeerInfo) -> PeerAddress {
    |p: PeerInfo| p.dial_address()->0
}

/// A peer is found where it stands last, and not found where it stands nowhere.
pub proof fn lemma_place(peers: Seq<PeerInfo>, addr: NetAddr)
    ensures
        match place(peers, addr) {
            Some(i) => 0 <= i < peers.len() && peers[i].addr == addr && forall|j: int|
                i < j < peers.len() ==> (#[trigger] peers[j]).addr != addr,
            None => forall|j: int| 0 <= j < peers.len() ==> (#[trigger] peers[j]).addr != addr,
        },
    decreases peers.len(),
{
    if peers.len() > 0 && peers.last().addr != addr {
        lemma_place(peers.drop_last(), addr);
        assert forall|j: int| 0 <= j < peers.len() - 1 implies peers[j]
            == peers.drop_last()[j] by {}
    }
}

/// A peer that stands last at a place is found there.
pub proof fn lemma_place_is(peers: Seq<PeerInfo>, addr: NetAddr, i: int)
    requires
        0 <= i < peers.len(),
        peers[i].addr == addr,
        forall|j: int| i < j < peers.len() ==> (#[trigger] peers[j]).addr != addr,
    ensures
        place(peers, addr) == Some(i),
{
    lemma_place(peers, addr);
}

proof fn lemma_channel_place(channels: Seq<(NetAddr, Channel)>, addr: NetAddr)
    ensures
        match channel_place(channels, addr) {
            Some(i) => 0 <= i < channels.len() && channels[i].0 == addr && forall|j: int|
                i < j < channels.len() ==> (#[trigger] channels[j]).0 != addr,
            None => forall|j: int| 0 <= j < channels.len() ==> (#[trigger] channels[j]).0 != addr,
        },
    decreases channels.len(),
{
    if channels.len() > 0 && channels.last().0 != addr {
        lemma_channel_place(channels.drop_last(), addr);
        assert forall|j: int| 0 <= j < channels.len() - 1 implies channels[j]
            == channels.drop_last()[j] by {}
    }
}

proof fn lemma_wf_push(v: PeersView, p: PeerInfo)
    requires
        v.wf(),
        place(v.peers, p.addr) is None,
    ensures
        (PeersView { peers: v.peers.push(p), ..v }).wf(),
{
    lemma_place(v.peers, p.addr);
    let peers = v.peers.push(p);
    assert forall|i: int, j: int| 0 <= i < j < peers.len() implies (#[trigger] peers[i]).addr != (
    #[trigger] peers[j]).addr by {
        assert(peers[i] == v.peers[i]);
        if j < v.peers.len() {
            assert(peers[j] == v.peers[j]);
        }
    }
}

pub proof fn lemma_wf_update(v: PeersView, k: int, p: PeerInfo)
    requires
        v.wf(),
        0 <= k < v.peers.len(),
        v.peers[k].addr == p.addr,
    ensures
        v.with_peer(k, p).wf(),
{
    let peers = v.peers.update(k, p);
    assert forall|i: int, j: int| 0 <= i < j < peers.len() implies (#[trigger] peers[i]).addr != (
    #[trigger] peers[j]).addr by {
        assert(peers[i].addr == v.peers[i].addr);
        assert(peers[j].addr == v.peers[j].addr);
    }
}

proof fn lemma_wf_remove(v: PeersView, k: int)
    requires
        v.wf(),
        0 <= k < v.peers.len(),
    ensures
        (PeersView { peers: v.peers.remove(k), ..v }).wf(),
{
    let peers = v.peers.remove(k);
    assert forall|i: int, j: int| 0 <= i < j < peers.len() implies (#[trigger] peers[i]).addr != (
    #[trigger] peers[j]).addr by {
        let a = if i < k {
            i
        } else {
            i + 1
        };
        let b = if j < k {
            j
        } else {
            j + 1
        };
        assert(peers[i] == v.peers[a] && peers[j] == v.peers[b]);
    }
}

/// What a filter keeps of a prefix is a prefix of what it keeps of the whole.
pub proof fn lemma_filter_prefix<T>(s: Seq<T>, n: int, f: spec_fn(T) -> bool)
    requires
        0 <= n <= s.len(),
    ensures
        s.subrange(0, n).filter(f).len() <= s.filter(f).len(),
        s.subrange(0, n).filter(f) == s.filter(f).subrange(0, s.subrange(0, n).filter(f).len() as int),
        s.subrange(0, n).filter(f).len() <= n,
    decreases s.len(),
{
    reveal(Seq::filter);
    if n == s.len() {
        assert(s.subrange(0, n) =~= s);
        assert(s.filter(f).subrange(0, s.filter(f).len() as int) =~= s.filter(f));
        if n > 0 {
            let m = s.drop_last();
            lemma_filter_prefix(m, m.len() as int, f);
            assert(m.subrange(0, m.len() as int) =~= m);
        }
    } else {
        let m = s.drop_last();
        lemma_filter_prefix(m, n, f);
        assert(m.subrange(0, n) =~= s.subrange(0, n));
        let k = s.subrange(0, n).filter(f).len() as int;
        assert(s.filter(f).subrange(0, k) =~= m.filter(f).subrange(0, k));
    }
}

/// What a filter keeps of a prefix one longer.
pub proof fn lemma_filter_step<T>(s: Seq<T>, i: int, f: spec_fn(T) -> bool)
    requires
        0 <= i < s.len(),
    ensures
        s.subrange(0, i + 1).filter(f) == if f(s[i]) {
            s.subrange(0, i).filter(f).push(s[i])
        } else {
            s.subrange(0, i).filter(f)
        },
{
    reveal(Seq::filter);
    assert(s.subrange(0, i + 1).drop_last() =~= s.subrange(0, i));
}

pub proof fn lemma_filter_none<T>(s: Seq<T>, f: spec_fn(T) -> bool)
    ensures
        s.subrange(0, 0).filter(f) == Seq::<T>::empty(),
{
    reveal(Seq::filter);
    assert(s.subrange(0, 0) =~= Seq::<T>::empty());
}

/// The peers that are meant, no more than a limit.
fn pick(peers: &Vec<PeerInfo>, f: PeerFilter, now: u64, limit: usize) -> (r: Vec<PeerInfo>)
    ensures
        r@ == upto(peers@.filter(such(f, now)), limit as int),
{
    let mut r: Vec<PeerInfo> = Vec::new();
    let mut i: usize = 0;
    let ghost test = such(f, now);
    proof {
        lemma_filter_none(peers@, test);
    }
    while i < peers.len() && r.len() < limit
        invariant
            i <= peers@.len(),
            r@.len() <= limit,
            test == such(f, now),
            r@ == peers@.subrange(0, i as int).filter(test),
        decreases peers@.len() - i,
    {
        proof {
            lemma_filter_step(peers@, i as int, test);
        }
        if f.admits(&peers[i], now) {
            r.push(peers[i]);
        }
        i = i + 1;
    }
    proof {
        lemma_filter_prefix(peers@, i as int, test);
        if i == peers@.len() {
            assert(peers@.subrange(0, i as int) =~= peers@);
        }
        let all = peers@.filter(test);
        assert(r@ =~= upto(all, limit as int));
    }
    r
}

/// How many peers are meant.
fn count(peers: &Vec<PeerInfo>, f: PeerFilter, now: u64) -> (r: usize)
    ensures
        r == peers@.filter(such(f, now)).len(),
        r <= peers@.len(),
{
    let mut n: usize = 0;
    let mut i: usize = 0;
    let ghost test = such(f, now);
    proof {
        lemma_filter_none(peers@, test);
    }
    while i < peers.len()
        invariant
            n <= i <= peers@.len(),
            test == such(f, now),
            n == peers@.subrange(0, i as int).filter(test).len(),
        decreases peers@.len() - i,
    {
        proof {
            lemma_filter_step(peers@, i as int, test);
        }
        if f.admits(&peers[i], now) {
            n = n + 1;
        }
        i = i + 1;
    }
    assert(peers@.subrange(0, i as int) =~= peers@);
    n
}

impl Default for PeerManager {
    fn default() -> (r: PeerManager)
        ensures
            r@ == no_peers(r@.clock),
            r@.wf(),
    {
        PeerManager::new()
    }
}

impl PeerManager {
    pub fn new() -> (r: PeerManager)
        ensures
            r@ == no_peers(r@.clock),
            r@.wf(),
    {
        PeerManager {
            clock: Clock::start(),
            peers: Vec::new(),
            channels: Vec::new(),
            pending_inbound: Vec::new(),
        }
    }

    /// The clock that all times are read from.
    pub fn clock(&self) -> (r: Clock)
        ensures
            r == self@.clock,
    {
        self.clock
    }

    fn find(&self, addr: &NetAddr) -> (r: Option<usize>)
        ensures
            match r {
                Some(i) => i < self.peers@.len() && place(self@.peers, *addr) == Some(i as int),
                None => place(self@.peers, *addr) is None,
            },
    {
        let mut i: usize = self.peers.len();
        assert(self.peers@.subrange(0, i as int) =~= self.peers@);
        while i > 0
            invariant
                i <= self.peers@.len(),
                place(self@.peers, *addr) == place(self.peers@.subrange(0, i as int), *addr),
            decreases i,
        {
            proof {
                let s = self.peers@.subrange(0, i as int);
                assert(s.drop_last() =~= self.peers@.subrange(0, i - 1));
                assert(s.last() == self.peers@[i - 1]);
            }
            i = i - 1;
            if self.peers[i].addr == *addr {
                return Some(i);
            }
        }
        None
    }

    fn find_channel(&self, addr: &NetAddr) -> (r: Option<usize>)
        ensures
            match r {
                Some(i) => i < self.channels@.len() && channel_place(self@.channels, *addr)
                    == Some(i as int),
                None => channel_place(self@.channels, *addr) is None,
            },
    {
        let mut i: usize = self.channels.len();
        assert(self.channels@.subrange(0, i as int) =~= self.channels@);
        while i > 0
            invariant
                i <= self.channels@.len(),
                channel_place(self@.channels, *addr) == channel_place(
                    self.channels@.subrange(0, i as int),
                    *addr,
                ),
            decreases i,
        {
            proof {
                let s = self.channels@.subrange(0, i as int);
                assert(s.drop_last() =~= self.channels@.subrange(0, i - 1));
                assert(s.last() == self.channels@[i - 1]);
            }
            i = i - 1;
            if self.channels[i].0 == *addr {
                return Some(i);
            }
        }
        None
    }

    /// How many peers are meant.
    fn number(&self, f: PeerFilter, now: u64) -> (r: usize)
        ensures
            r == self@.select(f, now).len(),
            r <= self@.peers.len(),
    {
        count(&self.peers, f, now)
    }

    /// Connections currently held by `group`, counting both the sockets still
    /// in their handshake and the peers past it.
    pub fn connections_from(&self, group: AddressGroup) -> (r: usize)
        requires
            self@.pending.len() + self@.peers.len() <= usize::MAX,
        ensures
            r == self@.held_by_group(group),
    {
        let mut n: usize = 0;
        let mut i: usize = 0;
        assert(self@.pending.subrange(0, 0) =~= Seq::<AddressGroup>::empty());
        while i < self.pending_inbound.len()
            invariant
                n <= i <= self@.pending.len(),
                self@.pending == self.pending_inbound@,
                n == tally(self@.pending.subrange(0, i as int), group),
            decreases self@.pending.len() - i,
        {
            proof {
                let s = self@.pending.subrange(0, i + 1);
                assert(s.drop_last() =~= self@.pending.subrange(0, i as int));
            }
            if self.pending_inbound[i] == group {
                n = n + 1;
            }
            i = i + 1;
        }
        assert(self@.pending.subrange(0, i as int) =~= self@.pending);
        n + self.number(PeerFilter::Group(group), 0)
    }

    /// Connections currently held by an IPv6 site (/48), across its /64s.
    fn connections_from_site(&self, site: [u8; 6]) -> (r: usize)
        requires
            self@.pending.len() + self@.peers.len() <= usize::MAX,
        ensures
            r == self@.held_by_site(site),
    {
        let mut n: usize = 0;
        let mut i: usize = 0;
        assert(self@.pending.subrange(0, 0) =~= Seq::<AddressGroup>::empty());
        while i < self.pending_inbound.len()
            invariant
                n <= i <= self@.pending.len(),
                self@.pending == self.pending_inbound@,
                n == site_tally(self@.pending.subrange(0, i as int), site),
            decreases self@.pending.len() - i,
        {
            proof {
                let s = self@.pending.subrange(0, i + 1);
                assert(s.drop_last() =~= self@.pending.subrange(0, i as int));
            }
            match self.pending_inbound[i].site() {
                Some(t) => {
                    if bytes::bytes_equal(&t, &site) {
                        proof {
                            bytes::lemma_array_equal(t, site);
                        }
                        n = n + 1;
                    }
                },
                None => {},
            }
            i = i + 1;
        }
        assert(self@.pending.subrange(0, i as int) =~= self@.pending);
        n + self.number(PeerFilter::Site(site), 0)
    }

    /// Inbound sockets in flight, handshaking or connected.
    pub fn inbound_in_flight(&self) -> (r: usize)
        requires
            self@.pending.len() + self@.peers.len() <= usize::MAX,
        ensures
            r == self@.in_flight(),
    {
        self.pending_inbound.len() + self.inbound_count()
    }

    /// Decide whether a freshly accepted socket may proceed, and if so claim
    /// its place.
    ///
    /// Called with the socket's source address, which for an inbound
    /// connection has an ephemeral port and so cannot identify the peer. The
    /// address group can still be read from it, and that is what the limits
    /// are counted under.
    pub fn admit_inbound(&mut self, src: NetAddr) -> (r: InboundAdmission)
        requires
            old(self)@.pending.len() + old(self)@.peers.len() <= usize::MAX,
        ensures
            r == old(self)@.admission(src),
            final(self)@ == old(self)@.admitted(src),
    {
        let group = AddressGroup::of(src.ip);
        // A node sharing a machine or a network with us is exempt from the
        // group limits. The total still holds.
        if !group.is_local() {
            if self.connections_from(group) >= MAX_CONNECTIONS_PER_GROUP {
                return InboundAdmission::GroupFull;
            }
            match group.site() {
                Some(site) => {
                    if self.connections_from_site(site) >= MAX_CONNECTIONS_PER_SITE {
                        return InboundAdmission::GroupFull;
                    }
                },
                None => {},
            }
        }
        let in_flight = self.inbound_in_flight();
        if in_flight >= MAX_INBOUND_PEERS {
            return InboundAdmission::Full;
        }
        // The last few slots are kept for groups we are not already talking
        // to.
        if self.connections_from(group) > 0 && in_flight >= MAX_INBOUND_PEERS
            - RESERVED_INBOUND_SLOTS {
            return InboundAdmission::Reserved;
        }
        self.pending_inbound.push(group);
        InboundAdmission::Accepted
    }

    /// Give back the place claimed by `admit_inbound`.
    ///
    /// Must be called once per accepted socket, on every path out of the
    /// connection.
    pub fn release_inbound(&mut self, src: NetAddr)
        ensures
            final(self)@ == old(self)@.released(src),
    {
        let group = AddressGroup::of(src.ip);
        let mut i: usize = self.pending_inbound.len();
        assert(self.pending_inbound@.subrange(0, i as int) =~= self.pending_inbound@);
        while i > 0
            invariant
                i <= self.pending_inbound@.len(),
                group == address::group_of(src.ip),
                self@ == old(self)@,
                last_pending(self@.pending, group) == last_pending(
                    self.pending_inbound@.subrange(0, i as int),
                    group,
                ),
            decreases i,
        {
            proof {
                let s = self.pending_inbound@.subrange(0, i as int);
                assert(s.drop_last() =~= self.pending_inbound@.subrange(0, i - 1));
                assert(s.last() == self.pending_inbound@[i - 1]);
            }
            i = i - 1;
            if self.pending_inbound[i] == group {
                let _ = self.pending_inbound.remove(i);
                return;
            }
        }
    }

    pub fn add_peer(&mut self, addr: NetAddr)
        requires
            old(self)@.wf(),
        ensures
            final(self)@.wf(),
            exists|now: u64| final(self)@ == #[trigger] old(self)@.added(addr, now),
    {
        self.add_peer_at(addr, self.clock.millis());
    }

    /// Record a peer at a time.
    pub fn add_peer_at(&mut self, addr: NetAddr, now: u64)
        requires
            old(self)@.wf(),
        ensures
            final(self)@.wf(),
            final(self)@ == old(self)@.added(addr, now),
    {
        proof {
            lemma_place(self@.peers, addr);
        }
        if self.find(&addr).is_none() {
            proof {
                lemma_wf_push(self@, new_peer(self@.clock, addr, now));
            }
            self.peers.push(PeerInfo::new_on(self.clock, addr, now));
        }
    }

    /// Record a peer whose identity we already know, so it can be dialed.
    pub fn add_known_peer(&mut self, peer: PeerAddress)
        requires
            old(self)@.wf(),
        ensures
            final(self)@.wf(),
            exists|now: u64| final(self)@ == #[trigger] old(self)@.identified(peer, now),
    {
        self.add_known_peer_at(peer, self.clock.millis());
    }

    /// Record a peer whose identity we know, at a time.
    pub fn add_known_peer_at(&mut self, peer: PeerAddress, now: u64)
        requires
            old(self)@.wf(),
        ensures
            final(self)@.wf(),
            final(self)@ == old(self)@.identified(peer, now),
    {
        self.add_peer_at(peer.socket, now);
        let ghost mid = self@;
        proof {
            lemma_place(old(self)@.peers, peer.socket);
            lemma_place(mid.peers, peer.socket);
        }
        match self.find(&peer.socket) {
            Some(i) => {
                let mut p = self.peers[i];
                p.node_id = Some(peer.node_id);
                p.noise_key = Some(peer.noise_key);
                proof {
                    lemma_place(self@.peers, p.addr);
                    lemma_wf_update(self@, i as int, p);
                }
                self.peers.set(i, p);
            },
            None => {
                assert(mid.peers.len() > 0 && mid.peers.last().addr == peer.socket);
            },
        }
    }

    pub fn remove_peer(&mut self, addr: &NetAddr)
        requires
            old(self)@.wf(),
        ensures
            final(self)@.wf(),
            final(self)@ == old(self)@.removed(*addr),
    {
        self.unplug(addr);
        match self.find(addr) {
            Some(i) => {
                proof {
                    lemma_wf_remove(self@, i as int);
                }
                let _ = self.peers.remove(i);
            },
            None => {},
        }
    }

    fn unplug(&mut self, addr: &NetAddr)
        requires
            old(self)@.wf(),
        ensures
            final(self)@.wf(),
            final(self)@ == old(self)@.unplugged(*addr),
    {
        match self.find_channel(addr) {
            Some(i) => {
                let _ = self.channels.remove(i);
            },
            None => {},
        }
    }

    /// Atomically claim a connection slot for `addr`.
    ///
    /// Checking "is this peer already connected?" and marking it connected
    /// happen in one step, otherwise two simultaneous dials to the same peer
    /// both observe "not connected" and both proceed.
    pub fn begin_connection(&mut self, addr: NetAddr, inbound: bool) -> (r: ConnectionSlot)
        requires
            old(self)@.wf(),
        ensures
            final(self)@.wf(),
            exists|now: u64|
                r == old(self)@.slot(addr, inbound, now) && final(self)@ == #[trigger] old(
                    self,
                )@.begun(addr, inbound, now),
    {
        self.begin_connection_at(addr, inbound, self.clock.millis())
    }

    /// Claim a connection slot at a time.
    pub fn begin_connection_at(&mut self, addr: NetAddr, inbound: bool, now: u64) -> (r:
        ConnectionSlot)
        requires
            old(self)@.wf(),
        ensures
            final(self)@.wf(),
            r == old(self)@.slot(addr, inbound, now),
            final(self)@ == old(self)@.begun(addr, inbound, now),
    {
        match self.find(&addr) {
            Some(i) => {
                if self.peers[i].is_banned_at(now) {
                    return ConnectionSlot::Banned;
                }
                if self.peers[i].is_active() {
                    return ConnectionSlot::Duplicate;
                }
            },
            None => {},
        }
        let full = if inbound {
            self.number(PeerFilter::Inbound, now) >= MAX_INBOUND_PEERS
        } else {
            self.number(PeerFilter::Outbound, now) >= MAX_OUTBOUND_PEERS
        };
        if full {
            return ConnectionSlot::Full;
        }
        self.add_peer_at(addr, now);
        let ghost mid = self@;
        proof {
            lemma_place(old(self)@.peers, addr);
            lemma_place(mid.peers, addr);
        }
        match self.find(&addr) {
            Some(i) => {
                let mut p = self.peers[i];
                p.state = PeerState::Connecting;
                p.inbound = inbound;
                p.connected_at = Some(now);
                p.last_seen = None;
                p.last_ping_nonce = None;
                p.last_ping_at = None;
                proof {
                    lemma_place(self@.peers, p.addr);
                    lemma_wf_update(self@, i as int, p);
                }
                self.peers.set(i, p);
            },
            None => {
                assert(mid.peers.len() > 0 && mid.peers.last().addr == addr);
            },
        }
        ConnectionSlot::Accepted
    }

    /// Mark a peer's connection as closed.
    ///
    /// The entry is kept so the accumulated score and any ban survive the
    /// disconnect.
    pub fn mark_disconnected(&mut self, addr: &NetAddr)
        requires
            old(self)@.wf(),
        ensures
            final(self)@.wf(),
            final(self)@ == old(self)@.ended(*addr),
    {
        self.unplug(addr);
        match self.find(addr) {
            Some(i) => {
                let mut p = self.peers[i];
                if p.state != PeerState::Banned {
                    p.state = PeerState::Disconnected;
                }
                p.last_ping_nonce = None;
                p.last_ping_at = None;
                proof {
                    lemma_place(self@.peers, p.addr);
                    lemma_wf_update(self@, i as int, p);
                }
                self.peers.set(i, p);
            },
            None => {},
        }
    }

    /// Number of live inbound connections.
    pub fn inbound_count(&self) -> (r: usize)
        ensures
            r == self@.select(PeerFilter::Inbound, 0).len(),
            r <= self@.peers.len(),
    {
        self.number(PeerFilter::Inbound, 0)
    }

    /// Number of live outbound connections.
    pub fn outbound_count(&self) -> (r: usize)
        ensures
            r == self@.select(PeerFilter::Outbound, 0).len(),
    {
        self.number(PeerFilter::Outbound, 0)
    }

    /// Addresses worth telling other nodes about.
    ///
    /// Restricted to peers we have actually completed a handshake with and
    /// that are not banned, so gossip spreads reachable nodes rather than
    /// whatever a peer chose to claim.
    pub fn shareable_addrs(&self, limit: usize, except: Option<NetAddr>) -> (r: Vec<PeerAddress>)
        ensures
            exists|now: u64|
                r@ == upto(
                    #[trigger] self@.select(PeerFilter::Shareable(except), now),
                    limit as int,
                ).map_values(dial_of()),
    {
        self.shareable_addrs_at(limit, except, self.clock.millis())
    }

    /// Addresses worth telling other nodes about at a time.
    pub fn shareable_addrs_at(&self, limit: usize, except: Option<NetAddr>, now: u64) -> (r: Vec<
        PeerAddress,
    >)
        ensures
            r@ == upto(
                self@.select(PeerFilter::Shareable(except), now),
                limit as int,
            ).map_values(dial_of()),
    {
        let picked = pick(&self.peers, PeerFilter::Shareable(except), now, limit);
        proof {
            lemma_picked_pass(self.peers@, PeerFilter::Shareable(except), now, limit as int);
        }
        dial_addresses(&picked)
    }

    /// Peers we know of but are not connected to, for filling out our outbound
    /// slots. Only those whose identity we know.
    pub fn dialable_addrs(&self, limit: usize) -> (r: Vec<PeerAddress>)
        ensures
            exists|now: u64|
                r@ == upto(
                    #[trigger] self@.select(PeerFilter::Dialable, now),
                    limit as int,
                ).map_values(dial_of()),
    {
        self.dialable_addrs_at(limit, self.clock.millis())
    }

    /// Peers to dial at a time.
    pub fn dialable_addrs_at(&self, limit: usize, now: u64) -> (r: Vec<PeerAddress>)
        ensures
            r@ == upto(self@.select(PeerFilter::Dialable, now), limit as int).map_values(dial_of()),
    {
        let picked = pick(&self.peers, PeerFilter::Dialable, now, limit);
        proof {
            lemma_picked_pass(self.peers@, PeerFilter::Dialable, now, limit as int);
        }
        dial_addresses(&picked)
    }

    /// How many more outbound connections we would like.
    pub fn outbound_deficit(&self) -> (r: usize)
        ensures
            r == if self@.select(PeerFilter::Outbound, 0).len() >= MAX_OUTBOUND_PEERS {
                0
            } else {
                MAX_OUTBOUND_PEERS - self@.select(PeerFilter::Outbound, 0).len()
            },
    {
        let n = self.outbound_count();
        if n >= MAX_OUTBOUND_PEERS {
            0
        } else {
            MAX_OUTBOUND_PEERS - n
        }
    }

    /// Peers that have gone quiet for longer than `timeout` milliseconds and
    /// should be cut.
    pub fn stale_peers(&self, timeout: u64) -> (r: Vec<NetAddr>)
        ensures
            exists|now: u64|
                r@ == (#[trigger] self@.select(PeerFilter::Stale(timeout), now)).map_values(
                    addr_of(),
                ),
    {
        self.stale_peers_at(timeout, self.clock.millis())
    }

    /// Peers that have gone quiet at a time.
    pub fn stale_peers_at(&self, timeout: u64, now: u64) -> (r: Vec<NetAddr>)
        ensures
            r@ == self@.select(PeerFilter::Stale(timeout), now).map_values(addr_of()),
    {
        addresses(&self.all(PeerFilter::Stale(timeout), now))
    }

    fn all(&self, f: PeerFilter, now: u64) -> (r: Vec<PeerInfo>)
        ensures
            r@ == self@.select(f, now),
    {
        proof {
            lemma_filter_prefix(self.peers@, self.peers@.len() as int, such(f, now));
            assert(self.peers@.subrange(0, self.peers@.len() as int) =~= self.peers@);
        }
        let n: usize = self.peers.len();
        pick(&self.peers, f, now, n)
    }

    pub fn get_peer(&self, addr: &NetAddr) -> (r: Option<&PeerInfo>)
        ensures
            match r {
                Some(p) => self@.peer(*addr) == Some(*p),
                None => self@.peer(*addr) is None,
            },
    {
        match self.find(addr) {
            Some(i) => Some(&self.peers[i]),
            None => None,
        }
    }

    /// A peer to change. Its address is not to be changed.
    pub fn get_peer_mut(&mut self, addr: &NetAddr) -> (r: Option<&mut PeerInfo>)
        ensures
            match r {
                Some(p) => {
                    &&& place(old(self)@.peers, *addr) is Some
                    &&& *p == old(self)@.peers[place(old(self)@.peers, *addr)->0]
                    &&& final(self)@ == old(self)@.with_peer(
                        place(old(self)@.peers, *addr)->0,
                        *final(p),
                    )
                },
                None => place(old(self)@.peers, *addr) is None && final(self)@ == old(self)@,
            },
    {
        match self.find(addr) {
            Some(i) => Some(&mut self.peers[i]),
            None => None,
        }
    }

    /// Replace what is known of a peer.
    pub fn put_peer(&mut self, p: PeerInfo)
        requires
            old(self)@.wf(),
        ensures
            final(self)@.wf(),
            match place(old(self)@.peers, p.addr) {
                Some(i) => final(self)@ == old(self)@.with_peer(i, p),
                None => final(self)@ == old(self)@,
            },
    {
        proof {
            lemma_place(self@.peers, p.addr);
        }
        match self.find(&p.addr) {
            Some(i) => {
                proof {
                    lemma_place(self@.peers, p.addr);
                    lemma_wf_update(self@, i as int, p);
                }
                self.peers.set(i, p);
            },
            None => {},
        }
    }

    pub fn connected_count(&self) -> (r: usize)
        ensures
            r == self@.select(PeerFilter::Ready, 0).len(),
    {
        self.number(PeerFilter::Ready, 0)
    }

    /// Peers past the handshake and not banned.
    pub fn ready_peers(&self) -> (r: Vec<PeerInfo>)
        ensures
            exists|now: u64| r@ == #[trigger] self@.select(PeerFilter::ReadyOpen, now),
    {
        self.ready_peers_at(self.clock.millis())
    }

    /// Peers past the handshake and not banned at a time.
    pub fn ready_peers_at(&self, now: u64) -> (r: Vec<PeerInfo>)
        ensures
            r@ == self@.select(PeerFilter::ReadyOpen, now),
    {
        self.all(PeerFilter::ReadyOpen, now)
    }

    pub fn connected_peers(&self) -> (r: Vec<PeerInfo>)
        ensures
            exists|now: u64| r@ == #[trigger] self@.select(PeerFilter::Connected, now),
    {
        self.connected_peers_at(self.clock.millis())
    }

    /// Peers not disconnected and not banned at a time.
    pub fn connected_peers_at(&self, now: u64) -> (r: Vec<PeerInfo>)
        ensures
            r@ == self@.select(PeerFilter::Connected, now),
    {
        self.all(PeerFilter::Connected, now)
    }

    pub fn need_more_peers(&self) -> (r: bool)
        ensures
            r == (self@.select(PeerFilter::Ready, 0).len() < MAX_OUTBOUND_PEERS),
    {
        self.connected_count() < MAX_OUTBOUND_PEERS
    }

    /// Any peer past the handshake and not banned, if there is one.
    pub fn random_peer(&self) -> (r: Option<PeerInfo>)
        ensures
            exists|now: u64|
                match r {
                    Some(p) => (#[trigger] self@.select(PeerFilter::ReadyOpen, now)).contains(p),
                    None => self@.select(PeerFilter::ReadyOpen, now).len() == 0,
                },
    {
        let now = self.clock.millis();
        self.ready_peer_at(now, now)
    }

    /// The peer whose turn it is among those past the handshake and not banned
    /// at a time.
    pub fn ready_peer_at(&self, n: u64, now: u64) -> (r: Option<PeerInfo>)
        ensures
            ({
                let ready = self@.select(PeerFilter::ReadyOpen, now);
                match r {
                    Some(p) => ready.len() > 0 && p == ready[turn(n, ready.len())],
                    None => ready.len() == 0,
                }
            }),
    {
        let ready = self.ready_peers_at(now);
        if ready.len() == 0 {
            return None;
        }
        let i: u64 = n % ready.len() as u64;
        Some(ready[i as usize])
    }

    pub fn set_channel(&mut self, addr: NetAddr, tx: Channel)
        requires
            old(self)@.wf(),
        ensures
            final(self)@.wf(),
            final(self)@ == old(self)@.plugged(addr, tx),
    {
        proof {
            lemma_channel_place(self@.channels, addr);
        }
        match self.find_channel(&addr) {
            Some(i) => {
                self.channels.set(i, (addr, tx));
            },
            None => {
                self.channels.push((addr, tx));
            },
        }
    }

    pub fn get_channel(&self, addr: &NetAddr) -> (r: Option<&Channel>)
        ensures
            match r {
                Some(c) => channel_place(self@.channels, *addr) matches Some(i)
                    && self@.channels[i].1 == *c,
                None => channel_place(self@.channels, *addr) is None,
            },
    {
        match self.find_channel(addr) {
            Some(i) => Some(&self.channels[i].1),
            None => None,
        }
    }

    pub fn ban_peer(&mut self, addr: &NetAddr)
        requires
            old(self)@.wf(),
        ensures
            final(self)@.wf(),
            exists|now: u64| final(self)@ == #[trigger] old(self)@.with_ban(*addr, now),
    {
        self.ban_peer_at(addr, self.clock.millis());
    }

    /// Ban a peer at a time.
    pub fn ban_peer_at(&mut self, addr: &NetAddr, now: u64)
        requires
            old(self)@.wf(),
        ensures
            final(self)@.wf(),
            final(self)@ == old(self)@.with_ban(*addr, now),
    {
        match self.find(addr) {
            Some(i) => {
                let mut p = self.peers[i];
                p.score = BAN_SCORE_THRESHOLD - 1;
                p.ban_until = Some(now.saturating_add(BAN_MILLIS));
                p.state = PeerState::Banned;
                proof {
                    lemma_place(self@.peers, p.addr);
                    lemma_wf_update(self@, i as int, p);
                }
                self.peers.set(i, p);
            },
            None => {},
        }
    }

    /// Drop entries for peers that are disconnected and not banned. Banned
    /// peers are retained so that the ban outlives the connection.
    pub fn prune_disconnected(&mut self)
        requires
            old(self)@.wf(),
        ensures
            final(self)@.wf(),
            exists|now: u64| final(self)@ == #[trigger] old(self)@.pruned(now),
    {
        self.prune_disconnected_at(self.clock.millis());
    }

    /// Drop entries for peers that are disconnected and not banned at a time.
    pub fn prune_disconnected_at(&mut self, now: u64)
        requires
            old(self)@.wf(),
        ensures
            final(self)@.wf(),
            final(self)@ == old(self)@.pruned(now),
    {
        let ghost before = self@;
        let ghost keep = |c: (NetAddr, Channel)| before.outlasts(c.0, now);
        let ghost stays = |p: PeerInfo| !PeerFilter::Prunable.passes(p, now);
        let mut j: usize = 0;
        let ghost mut k: int = 0;
        proof {
            lemma_filter_none(before.channels, keep);
            assert(self.channels@ =~= before.channels.subrange(0, 0).filter(keep)
                + before.channels.subrange(0, before.channels.len() as int));
        }
        while j < self.channels.len()
            invariant
                0 <= k <= before.channels.len(),
                keep == |c: (NetAddr, Channel)| before.outlasts(c.0, now),
                j == before.channels.subrange(0, k).filter(keep).len(),
                self.channels@ == before.channels.subrange(0, k).filter(keep)
                    + before.channels.subrange(k, before.channels.len() as int),
                self.peers@ == before.peers,
                self.pending_inbound@ == before.pending,
                self.clock == before.clock,
            decreases before.channels.len() - k,
        {
            let ghost done = before.channels.subrange(0, k).filter(keep);
            let ghost rest = before.channels.subrange(k, before.channels.len() as int);
            proof {
                assert(self.channels@[j as int] == rest[0]);
                assert(rest[0] == before.channels[k]);
                lemma_filter_step(before.channels, k, keep);
            }
            let addr = self.channels[j].0;
            let stays_on = match self.find(&addr) {
                Some(i) => !PeerFilter::Prunable.admits(&self.peers[i], now),
                None => true,
            };
            if stays_on {
                j = j + 1;
                assert(self.channels@ =~= done.push(before.channels[k])
                    + before.channels.subrange(k + 1, before.channels.len() as int));
            } else {
                let _ = self.channels.remove(j);
                assert(self.channels@ =~= done + before.channels.subrange(
                    k + 1,
                    before.channels.len() as int,
                ));
            }
            proof {
                k = k + 1;
            }
        }
        proof {
            assert(k == before.channels.len());
            assert(before.channels.subrange(0, k) =~= before.channels);
            assert(self.channels@ =~= before.channels.filter(keep));
        }
        let mut kept: Vec<PeerInfo> = Vec::new();
        let mut i: usize = 0;
        proof {
            lemma_filter_none(before.peers, stays);
        }
        while i < self.peers.len()
            invariant
                i <= self.peers@.len(),
                self.peers@ == before.peers,
                self.pending_inbound@ == before.pending,
                self.clock == before.clock,
                self.channels@ == before.channels.filter(keep),
                stays == |p: PeerInfo| !PeerFilter::Prunable.passes(p, now),
                kept@ == before.peers.subrange(0, i as int).filter(stays),
            decreases self.peers@.len() - i,
        {
            proof {
                lemma_filter_step(before.peers, i as int, stays);
            }
            if !PeerFilter::Prunable.admits(&self.peers[i], now) {
                kept.push(self.peers[i]);
            }
            i = i + 1;
        }
        assert(before.peers.subrange(0, i as int) =~= before.peers);
        self.peers = kept;
        proof {
            lemma_filter_distinct(before.peers, stays);
            lemma_filter_channels_distinct(before.channels, keep);
        }
    }

    pub fn peers_for_announcement(&self) -> (r: Vec<NetAddr>)
        ensures
            exists|now: u64|
                r@ == (#[trigger] self@.select(PeerFilter::ReadyOpen, now)).map_values(addr_of()),
    {
        self.peers_for_announcement_at(self.clock.millis())
    }

    /// Addresses of the peers past the handshake and not banned at a time.
    pub fn peers_for_announcement_at(&self, now: u64) -> (r: Vec<NetAddr>)
        ensures
            r@ == self@.select(PeerFilter::ReadyOpen, now).map_values(addr_of()),
    {
        addresses(&self.all(PeerFilter::ReadyOpen, now))
    }
}

/// Whose turn a number makes it among some.
pub open spec fn turn(n: u64, len: nat) -> int {
    n as int % len as int
}

/// The addresses of some peers.
pub fn addresses(peers: &Vec<PeerInfo>) -> (r: Vec<NetAddr>)
    ensures
        r@ == peers@.map_values(addr_of()),
{
    let mut r: Vec<NetAddr> = Vec::new();
    let mut i: usize = 0;
    while i < peers.len()
        invariant
            i <= peers@.len(),
            r@ == peers@.subrange(0, i as int).map_values(addr_of()),
        decreases peers@.len() - i,
    {
        r.push(peers[i].addr);
        i = i + 1;
        assert(r@ =~= peers@.subrange(0, i as int).map_values(addr_of()));
    }
    assert(peers@.subrange(0, i as int) =~= peers@);
    r
}

fn dial_addresses(peers: &Vec<PeerInfo>) -> (r: Vec<PeerAddress>)
    requires
        forall|i: int|
            0 <= i < peers@.len() ==> (#[trigger] peers@[i]).dial_address() is Some,
    ensures
        r@ == peers@.map_values(dial_of()),
{
    let mut r: Vec<PeerAddress> = Vec::new();
    let mut i: usize = 0;
    while i < peers.len()
        invariant
            i <= peers@.len(),
            forall|j: int|
                0 <= j < peers@.len() ==> (#[trigger] peers@[j]).dial_address() is Some,
            r@ == peers@.subrange(0, i as int).map_values(dial_of()),
        decreases peers@.len() - i,
    {
        match peers[i].peer_address() {
            Some(a) => {
                r.push(a);
            },
            None => {
                assert(peers@[i as int].dial_address() is Some);
            },
        }
        i = i + 1;
        assert(r@ =~= peers@.subrange(0, i as int).map_values(dial_of()));
    }
    assert(peers@.subrange(0, i as int) =~= peers@);
    r
}

/// What is picked is meant.
proof fn lemma_picked_pass(peers: Seq<PeerInfo>, f: PeerFilter, now: u64, limit: int)
    requires
        limit >= 0,
    ensures
        forall|i: int|
            0 <= i < upto(peers.filter(such(f, now)), limit).len() ==> f.passes(
                #[trigger] upto(peers.filter(such(f, now)), limit)[i],
                now,
            ),
{
    lemma_filter_pass(peers, such(f, now));
    let all = peers.filter(such(f, now));
    assert forall|i: int| 0 <= i < upto(all, limit).len() implies f.passes(
        #[trigger] upto(all, limit)[i],
        now,
    ) by {
        assert(upto(all, limit)[i] == all[i]);
        assert(such(f, now)(all[i]));
    }
}

proof fn lemma_filter_pass<T>(s: Seq<T>, f: spec_fn(T) -> bool)
    ensures
        forall|i: int| 0 <= i < s.filter(f).len() ==> f(#[trigger] s.filter(f)[i]),
    decreases s.len(),
{
    reveal(Seq::filter);
    if s.len() > 0 {
        lemma_filter_pass(s.drop_last(), f);
    }
}

/// What a filter keeps stands in the sequence, in the same order.
proof fn lemma_filter_from<T>(s: Seq<T>, f: spec_fn(T) -> bool, i: int, j: int) -> (r: (int, int))
    requires
        0 <= i < j < s.filter(f).len(),
    ensures
        0 <= r.0 < r.1 < s.len(),
        s[r.0] == s.filter(f)[i],
        s[r.1] == s.filter(f)[j],
    decreases s.len(),
{
    reveal(Seq::filter);
    let m = s.drop_last();
    if f(s.last()) && j == s.filter(f).len() - 1 {
        let a = lemma_filter_source(m, f, i);
        (a, s.len() - 1)
    } else {
        lemma_filter_from(m, f, i, j)
    }
}

proof fn lemma_filter_source<T>(s: Seq<T>, f: spec_fn(T) -> bool, i: int) -> (r: int)
    requires
        0 <= i < s.filter(f).len(),
    ensures
        0 <= r < s.len(),
        s[r] == s.filter(f)[i],
    decreases s.len(),
{
    reveal(Seq::filter);
    let m = s.drop_last();
    if f(s.last()) && i == s.filter(f).len() - 1 {
        s.len() - 1
    } else {
        lemma_filter_source(m, f, i)
    }
}

proof fn lemma_filter_distinct(s: Seq<PeerInfo>, f: spec_fn(PeerInfo) -> bool)
    requires
        forall|i: int, j: int|
            0 <= i < j < s.len() ==> (#[trigger] s[i]).addr != (#[trigger] s[j]).addr,
    ensures
        forall|i: int, j: int|
            0 <= i < j < s.filter(f).len() ==> (#[trigger] s.filter(f)[i]).addr != (
            #[trigger] s.filter(f)[j]).addr,
{
    assert forall|i: int, j: int| 0 <= i < j < s.filter(f).len() implies (
    #[trigger] s.filter(f)[i]).addr != (#[trigger] s.filter(f)[j]).addr by {
        let r = lemma_filter_from(s, f, i, j);
        assert(s[r.0].addr != s[r.1].addr);
    }
}

proof fn lemma_filter_channels_distinct(
    s: Seq<(NetAddr, Channel)>,
    f: spec_fn((NetAddr, Channel)) -> bool,
)
    requires
        forall|i: int, j: int|
            0 <= i < j < s.len() ==> (#[trigger] s[i]).0 != (#[trigger] s[j]).0,
    ensures
        forall|i: int, j: int|
            0 <= i < j < s.filter(f).len() ==> (#[trigger] s.filter(f)[i]).0 != (
            #[trigger] s.filter(f)[j]).0,
{
    assert forall|i: int, j: int| 0 <= i < j < s.filter(f).len() implies (
    #[trigger] s.filter(f)[i]).0 != (#[trigger] s.filter(f)[j]).0 by {
        let r = lemma_filter_from(s, f, i, j);
        assert(s[r.0].0 != s[r.1].0);
    }
}

// ---------------------------------------------------------------------------
// Laws
// ---------------------------------------------------------------------------

/// Changing one element changes how many a filter keeps by that element alone.
proof fn lemma_filter_update<T>(s: Seq<T>, i: int, x: T, f: spec_fn(T) -> bool)
    requires
        0 <= i < s.len(),
    ensures
        s.update(i, x).filter(f).len() == s.filter(f).len() - (if f(s[i]) {
            1int
        } else {
            0int
        }) + (if f(x) {
            1int
        } else {
            0int
        }),
    decreases s.len(),
{
    reveal(Seq::filter);
    let t = s.update(i, x);
    if i == s.len() - 1 {
        assert(t.drop_last() =~= s.drop_last());
    } else {
        assert(t.drop_last() =~= s.drop_last().update(i, x));
        lemma_filter_update(s.drop_last(), i, x, f);
    }
}

proof fn lemma_filter_push<T>(s: Seq<T>, x: T, f: spec_fn(T) -> bool)
    ensures
        s.push(x).filter(f) == if f(x) {
            s.filter(f).push(x)
        } else {
            s.filter(f)
        },
{
    reveal(Seq::filter);
    assert(s.push(x).drop_last() =~= s);
}

/// What passes a filter is kept.
proof fn lemma_filter_keeps<T>(s: Seq<T>, f: spec_fn(T) -> bool, i: int) -> (r: int)
    requires
        0 <= i < s.len(),
        f(s[i]),
    ensures
        0 <= r < s.filter(f).len(),
        s.filter(f)[r] == s[i],
    decreases s.len(),
{
    reveal(Seq::filter);
    if i == s.len() - 1 {
        s.filter(f).len() - 1
    } else {
        lemma_filter_keeps(s.drop_last(), f, i)
    }
}

/// A peer that stands somewhere among peers with distinct addresses is the one
/// found under its address.
proof fn lemma_peer_found(v: PeersView, i: int)
    requires
        v.wf(),
        0 <= i < v.peers.len(),
    ensures
        place(v.peers, v.peers[i].addr) == Some(i),
        v.peer(v.peers[i].addr) == Some(v.peers[i]),
{
    lemma_place_is(v.peers, v.peers[i].addr, i);
}

/// A ban lasts its full time: it survives the end of the connection and the
/// pruning of the table, and until it is over the peer gets no slot.
pub proof fn ban_outlives_the_connection(
    v: PeersView,
    addr: NetAddr,
    now: u64,
    t: u64,
    inbound: bool,
)
    requires
        v.wf(),
        v.peer(addr) is Some,
        now <= t,
        t < now + BAN_MILLIS <= u64::MAX,
    ensures
        ({
            let after = v.with_ban(addr, now).ended(addr).pruned(t);
            &&& after.peer(addr) is Some
            &&& after.peer(addr)->0.banned_at(t)
            &&& after.peer(addr)->0.state is Banned
            &&& after.slot(addr, inbound, t) is Banned
        }),
{
    lemma_place(v.peers, addr);
    let i = place(v.peers, addr)->0;
    let b = v.with_ban(addr, now);
    lemma_wf_update(v, i, b.peers[i]);
    lemma_peer_found(b, i);
    let u = b.unplugged(addr);
    let e = b.ended(addr);
    assert(u.peers == b.peers);
    let p = e.peers[i];
    assert(p.state is Banned && p.banned_at(t) && p.addr == addr);
    let stays = |q: PeerInfo| !PeerFilter::Prunable.passes(q, t);
    assert(stays(p));
    let r = lemma_filter_keeps(e.peers, stays, i);
    let after = e.pruned(t);
    assert forall|x: int, y: int| 0 <= x < y < e.peers.len() implies (#[trigger] e.peers[x]).addr
        != (#[trigger] e.peers[y]).addr by {
        assert(e.peers[x].addr == b.peers[x].addr);
        assert(e.peers[y].addr == b.peers[y].addr);
    }
    lemma_filter_distinct(e.peers, stays);
    assert(after.peers == e.peers.filter(stays));
    lemma_place_is(after.peers, addr, r);
}

/// An inbound socket is let in only within all limits: the total, its group's,
/// its site's, and for a group already at the table without the slots that are
/// held back.
pub proof fn admission_respects_the_limits(v: PeersView, src: NetAddr)
    requires
        v.admission(src) is Accepted,
    ensures
        ({
            let after = v.admitted(src);
            let g = address::group_of(src.ip);
            &&& after.in_flight() == v.in_flight() + 1
            &&& after.in_flight() <= MAX_INBOUND_PEERS
            &&& !(g is Local) ==> after.held_by_group(g) <= MAX_CONNECTIONS_PER_GROUP
            &&& !(g is Local) && address::site_of(g) is Some ==> after.held_by_site(
                address::site_of(g)->0,
            ) <= MAX_CONNECTIONS_PER_SITE
            &&& v.held_by_group(g) > 0 ==> after.in_flight() <= MAX_INBOUND_PEERS
                - RESERVED_INBOUND_SLOTS
        }),
{
    let g = address::group_of(src.ip);
    let after = v.admitted(src);
    assert(after.pending.drop_last() =~= v.pending);
}

/// Giving back a place undoes claiming it.
pub proof fn release_undoes_admission(v: PeersView, src: NetAddr)
    requires
        v.admission(src) is Accepted,
    ensures
        v.admitted(src).released(src) == v,
{
    let g = address::group_of(src.ip);
    let after = v.admitted(src);
    assert(after.pending.last() == g);
    assert(after.pending.remove(after.pending.len() - 1) =~= v.pending);
}

/// A claimed slot is one more live connection, within its limit, and is claimed
/// only once: the next claim for the same peer is a duplicate.
pub proof fn slot_is_claimed_once(v: PeersView, addr: NetAddr, inbound: bool, again: bool, now: u64)
    requires
        v.wf(),
        v.slot(addr, inbound, now) is Accepted,
    ensures
        ({
            let after = v.begun(addr, inbound, now);
            &&& after.slot(addr, again, now) is Duplicate
            &&& inbound ==> after.select(PeerFilter::Inbound, now).len() == v.select(
                PeerFilter::Inbound,
                now,
            ).len() + 1
            &&& inbound ==> after.select(PeerFilter::Inbound, now).len() <= MAX_INBOUND_PEERS
            &&& inbound ==> after.select(PeerFilter::Outbound, now).len() == v.select(
                PeerFilter::Outbound,
                now,
            ).len()
            &&& !inbound ==> after.select(PeerFilter::Outbound, now).len() == v.select(
                PeerFilter::Outbound,
                now,
            ).len() + 1
            &&& !inbound ==> after.select(PeerFilter::Outbound, now).len() <= MAX_OUTBOUND_PEERS
            &&& !inbound ==> after.select(PeerFilter::Inbound, now).len() == v.select(
                PeerFilter::Inbound,
                now,
            ).len()
        }),
{
    lemma_place(v.peers, addr);
    let mid = v.added(addr, now);
    let fin = such(PeerFilter::Inbound, now);
    let fout = such(PeerFilter::Outbound, now);
    if place(v.peers, addr) is None {
        lemma_wf_push(v, new_peer(v.clock, addr, now));
        lemma_filter_push(v.peers, new_peer(v.clock, addr, now), fin);
        lemma_filter_push(v.peers, new_peer(v.clock, addr, now), fout);
    }
    lemma_place(mid.peers, addr);
    let i = place(mid.peers, addr)->0;
    let after = v.begun(addr, inbound, now);
    let q = after.peers[i];
    lemma_filter_update(mid.peers, i, q, fin);
    lemma_filter_update(mid.peers, i, q, fout);
    lemma_wf_update(mid, i, q);
    lemma_peer_found(after, i);
}

/// Every address handed out belongs to a peer that completed a handshake, is
/// not banned, and is not the one it is handed to.
pub proof fn shared_peers_are_verified(
    v: PeersView,
    limit: nat,
    except: Option<NetAddr>,
    now: u64,
    i: int,
)
    requires
        0 <= i < upto(v.select(PeerFilter::Shareable(except), now), limit as int).len(),
    ensures
        ({
            let p = upto(v.select(PeerFilter::Shareable(except), now), limit as int)[i];
            &&& v.peers.contains(p)
            &&& p.handshaked
            &&& !p.banned_at(now)
            &&& except != Some(p.addr)
            &&& p.dial_address() is Some
            &&& p.dial_address()->0.socket == p.addr
        }),
{
    lemma_picked_pass(v.peers, PeerFilter::Shareable(except), now, limit as int);
    let all = v.select(PeerFilter::Shareable(except), now);
    assert(upto(all, limit as int)[i] == all[i]);
    let r = lemma_filter_source(v.peers, such(PeerFilter::Shareable(except), now), i);
}

} // verus!
