//! Passing on transactions, headers and blocks.

use vstd::prelude::*;
use crate::block;
use crate::block::{Block, BlockHeader, BlockView};
use crate::consensus::chain;
use crate::consensus::chain::{BlockOutcome, BlockSource};
use crate::error::{joined, joined4, CoreError, Fault};
use crate::hash;
use crate::p2p::address;
use crate::p2p::mempool;
use crate::p2p::mempool::{Admission, Entries, Rejection};
use crate::p2p::net;
use crate::p2p::net::NetAddr;
use crate::p2p::node::base;
use crate::p2p::node::base::{Connection, CoreView, Mark, NodeCore, Outcome};
use crate::p2p::node::event;
use crate::p2p::node::event::{Act, Action, EventView, Flow, FlowView, NodeEvent};
use crate::p2p::orphan;
use crate::p2p::peer;
use crate::p2p::peer::{
    AddressGroup, PeerFilter, PeerInfo, PeersView, GETDATA_RATE_LIMIT, RATE_WINDOW_MILLIS,
    TX_RATE_LIMIT,
};
use crate::p2p::sync::{ChainSyncer, SyncState};
use crate::p2p::wire::frame::MessageView;
use crate::p2p::wire::headers;
use crate::p2p::wire::inventory;
use crate::p2p::wire::reject;
use crate::p2p::wire::{
    GetDataMessage, GetHeadersMessage, HeadersMessage, InvEntry, InvMessage, InvType, Message,
    MessageType, RejectMessage,
};
use crate::serialize::CanonicalEncode;
use crate::tx;
use crate::tx::Transaction;

verus! {

/// Largest inventory we will act on in one message, in either direction.
/// Bounds the work a single peer can ask of us.
pub const MAX_INVENTORY: usize = 500;

/// The code of a rejected transaction.
pub const REJECT_TX: u8 = 0x01;

// ---------------------------------------------------------------------------
// Announcements
// ---------------------------------------------------------------------------

/// The announcement of one thing: only its hash goes out.
pub open spec fn announcement(inv_type: InvType, h: hash::Hash) -> MessageView {
    base::say(
        MessageType::Inv,
        inventory::inventory_bytes(seq![InvEntry { inv_type, hash: h }]),
    )
}

/// A message to some peers, but for one of them.
pub open spec fn sends(addrs: Seq<NetAddr>, except: Option<NetAddr>, m: MessageView) -> Seq<Act>
    decreases addrs.len(),
{
    if addrs.len() == 0 {
        Seq::empty()
    } else {
        let rest = sends(addrs.drop_last(), except, m);
        if except == Some(addrs.last()) {
            rest
        } else {
            rest.push(Act::Send(addrs.last(), m))
        }
    }
}

/// The announcement of one thing to every ready peer, but for one of them.
pub open spec fn announced(
    v: PeersView,
    inv_type: InvType,
    h: hash::Hash,
    except: Option<NetAddr>,
    ms: u64,
) -> Seq<Act> {
    sends(
        v.select(PeerFilter::ReadyOpen, ms).map_values(peer::addr_of()),
        except,
        announcement(inv_type, h),
    )
}

/// A message to every connected peer.
pub open spec fn broadcasted(v: PeersView, m: MessageView, ms: u64) -> Seq<Act> {
    sends(v.select(PeerFilter::Connected, ms).map_values(peer::addr_of()), None, m)
}

/// A request for some things, if there are any.
pub open spec fn request(wanted: Seq<InvEntry>) -> Seq<Act> {
    if wanted.len() == 0 {
        Seq::empty()
    } else {
        seq![Act::Reply(base::say(MessageType::GetData, inventory::inventory_bytes(wanted)))]
    }
}

/// Send a message to some peers, but for one of them.
fn send_to(out: &mut Vec<Action>, addrs: &Vec<NetAddr>, except: Option<NetAddr>, msg: &Message)
    ensures
        event::acts(final(out)@) == event::acts(old(out)@) + sends(addrs@, except, msg@),
{
    let ghost before = event::acts(out@);
    let mut i: usize = 0;
    proof {
        assert(addrs@.subrange(0, 0) =~= Seq::<NetAddr>::empty());
        assert(before =~= before + sends(addrs@.subrange(0, 0), except, msg@));
    }
    while i < addrs.len()
        invariant
            i <= addrs@.len(),
            event::acts(out@) == before + sends(addrs@.subrange(0, i as int), except, msg@),
        decreases addrs@.len() - i,
    {
        let addr = addrs[i];
        proof {
            let t = addrs@.subrange(0, i + 1);
            assert(t.drop_last() =~= addrs@.subrange(0, i as int));
            assert(t.last() == addr);
        }
        let skip = match except {
            Some(a) => a == addr,
            None => false,
        };
        if !skip {
            let ghost so_far = sends(addrs@.subrange(0, i as int), except, msg@);
            event::add_action(out, Action::Send(addr, msg.clone()));
            assert(event::acts(out@) =~= before + so_far.push(Act::Send(addr, msg@)));
        }
        i = i + 1;
    }
    assert(addrs@.subrange(0, i as int) =~= addrs@);
}

fn one_entry(inv_type: InvType, h: hash::Hash) -> (r: Vec<InvEntry>)
    ensures
        r@ == seq![InvEntry { inv_type, hash: h }],
{
    let mut v: Vec<InvEntry> = Vec::new();
    v.push(InvEntry { inv_type, hash: h });
    assert(v@ =~= seq![InvEntry { inv_type, hash: h }]);
    v
}

/// The entries from one place to another.
fn entries_between(s: &Vec<InvEntry>, from: usize, to: usize) -> (r: Vec<InvEntry>)
    requires
        from <= to <= s@.len(),
    ensures
        r@ == s@.subrange(from as int, to as int),
{
    let mut r: Vec<InvEntry> = Vec::new();
    let mut i: usize = from;
    while i < to
        invariant
            from <= i <= to <= s@.len(),
            r@ == s@.subrange(from as int, i as int),
        decreases to - i,
    {
        r.push(s[i]);
        i = i + 1;
        assert(r@ =~= s@.subrange(from as int, i as int));
    }
    r
}

fn add_request(out: &mut Vec<Action>, wanted: Vec<InvEntry>)
    ensures
        event::acts(final(out)@) == event::acts(old(out)@) + request(wanted@),
{
    let ghost before = event::acts(out@);
    if wanted.len() > 0 {
        let ghost w = wanted@;
        let m = GetDataMessage { inventory: wanted };
        event::add_action(
            out,
            Action::Reply(Message::new(MessageType::GetData, m.encode())),
        );
        assert(event::acts(out@) =~= before + request(w));
    } else {
        assert(event::acts(out@) =~= before + request(wanted@));
    }
}

// ---------------------------------------------------------------------------
// Transactions
// ---------------------------------------------------------------------------

/// Peers after one has been charged for a transaction, and whether it is within
/// its limit.
pub open spec fn tx_charged(v: PeersView, addr: NetAddr, ms: u64) -> (PeersView, bool) {
    match peer::place(v.peers, addr) {
        Some(i) => {
            let p = v.peers[i].after_transaction(ms);
            (v.with_peer(i, p), p.rate.transactions <= TX_RATE_LIMIT)
        },
        None => (v, true),
    }
}

/// The rejection of a transaction.
pub open spec fn tx_refusal(why: Rejection) -> MessageView {
    base::say(
        MessageType::Reject,
        reject::reject_bytes(
            vstd::utf8::encode_utf8("tx"@),
            REJECT_TX,
            vstd::utf8::encode_utf8(why.words()),
        ),
    )
}

/// What a transaction does. It is offered to the pool, charged to the address
/// group it came from, and passed on if it is new: a transaction that is not
/// only ever reaches the one node it was submitted to. A rejection that an
/// honest peer would not earn is answered and counts against the peer.
pub open spec fn after_tx(v: CoreView, c: Connection, t: Transaction, ms: u64, secs: u64) -> Outcome {
    let (peers, within) = tx_charged(v.peers, c.key, ms);
    let source = address::group_of(c.key.ip);
    let accounts = v.chain.state.accounts;
    let pool = mempool::after_offer(v.pool, t, source, accounts, secs);
    if !within {
        Outcome { core: CoreView { peers, ..v }, ..base::ignored(v, c) }
    } else {
        match mempool::verdict(v.pool, t, source, accounts) {
            Ok(Admission::Accepted) => {
                let after = base::with_mark(peers, c.key, Mark::Alive, ms);
                Outcome {
                    core: CoreView { peers: after, pool, ..v },
                    acts: seq![Act::Emit(EventView::TxReceived(tx::tx_hash(t)))] + announced(
                        after,
                        InvType::Tx,
                        tx::tx_hash(t),
                        Some(c.key),
                        ms,
                    ),
                    ..base::ignored(v, c)
                }
            },
            Ok(Admission::Duplicate) => Outcome {
                core: CoreView { peers, pool, ..v },
                ..base::ignored(v, c)
            },
            Err(why) => if why.damning() {
                Outcome {
                    core: CoreView {
                        peers: base::with_mark(peers, c.key, Mark::Bad(10), ms),
                        pool,
                        ..v
                    },
                    acts: seq![Act::Reply(tx_refusal(why))],
                    ..base::ignored(v, c)
                }
            } else {
                Outcome {
                    core: CoreView { peers, pool, ..v },
                    acts: seq![
                        Act::Emit(EventView::Error("mempool rejected tx: "@ + why.words())),
                    ],
                    ..base::ignored(v, c)
                }
            },
        }
    }
}

// ---------------------------------------------------------------------------
// Inventory
// ---------------------------------------------------------------------------

/// The part of an inventory that we act on.
pub open spec fn within_bounds(s: Seq<InvEntry>) -> Seq<InvEntry> {
    peer::upto(s, MAX_INVENTORY as int)
}

/// Whether we lack a thing, as a test.
pub open spec fn lacking<S: BlockSource>(pool: Entries, source: &S) -> spec_fn(InvEntry) -> bool {
    |e: InvEntry|
        match e.inv_type {
            InvType::Block => source.block_under(e.hash) is None,
            InvType::Tx => mempool::spot(pool, e.hash) is None,
        }
}

/// What an announcement does: we ask for what we lack, and for nothing else.
pub open spec fn after_inv<S: BlockSource>(
    v: CoreView,
    c: Connection,
    s: Seq<InvEntry>,
    source: &S,
) -> Outcome {
    Outcome {
        acts: request(within_bounds(s).filter(lacking(v.pool, source))),
        ..base::ignored(v, c)
    }
}

/// The answers to a request.
#[verifier::ext_equal]
pub struct Served {
    pub replies: Seq<Act>,
    /// What we do not have.
    pub missing: Seq<InvEntry>,
}

/// Serve the entries of a request in turn.
pub open spec fn served<S: BlockSource>(pool: Entries, s: Seq<InvEntry>, source: &S) -> Served
    decreases s.len(),
{
    if s.len() == 0 {
        Served { replies: Seq::empty(), missing: Seq::empty() }
    } else {
        let done = served(pool, s.drop_last(), source);
        let e = s.last();
        let found = match e.inv_type {
            InvType::Block => match source.block_under(e.hash) {
                Some(b) => Some(base::say(MessageType::Block, block::block_bytes(b))),
                None => None,
            },
            InvType::Tx => match mempool::spot(pool, e.hash) {
                Some(i) => Some(base::say(MessageType::Tx, pool[i].tx.spec_encode())),
                None => None,
            },
        };
        match found {
            Some(m) => Served { replies: done.replies.push(Act::Reply(m)), ..done },
            None => Served { missing: done.missing.push(e), ..done },
        }
    }
}

/// How many of some entries a peer's budget covers at a time: all of them for a
/// peer that is not known yet.
pub open spec fn covered(v: PeersView, addr: NetAddr, n: nat, ms: u64) -> nat {
    match v.peer(addr) {
        Some(p) => if p.getdata_left(ms) < n {
            p.getdata_left(ms)
        } else {
            n
        },
        None => n,
    }
}

/// Peers after one has been charged for so many entries.
pub open spec fn getdata_charged(v: PeersView, addr: NetAddr, n: nat, ms: u64) -> PeersView {
    match peer::place(v.peers, addr) {
        Some(i) => v.with_peer(i, v.peers[i].after_getdata(n as usize, ms)),
        None => v,
    }
}

/// Where a connection goes after a request: on, or first to the entries that
/// the budget does not cover, once the peer has a new one.
pub open spec fn put_off(v: PeersView, addr: NetAddr, rest: Seq<InvEntry>, ms: u64) -> FlowView {
    match v.peer(addr) {
        Some(p) if rest.len() > 0 => FlowView::Later(rest, p.window_end(ms)),
        _ => FlowView::Continue,
    }
}

/// What a request does. The entries that the peer's budget covers are served:
/// what we have is sent, and what we have not is reported. The rest has to wait
/// for the next budget.
pub open spec fn after_get_data<S: BlockSource>(
    v: CoreView,
    c: Connection,
    s: Seq<InvEntry>,
    source: &S,
    ms: u64,
) -> Outcome {
    let all = within_bounds(s);
    let n = covered(v.peers, c.key, all.len(), ms);
    let d = served(v.pool, all.subrange(0, n as int), source);
    Outcome {
        core: CoreView { peers: getdata_charged(v.peers, c.key, n, ms), ..v },
        conn: c,
        flow: put_off(v.peers, c.key, all.subrange(n as int, all.len() as int), ms),
        acts: d.replies + if d.missing.len() == 0 {
            Seq::empty()
        } else {
            seq![
                Act::Reply(
                    base::say(MessageType::NotFound, inventory::inventory_bytes(d.missing)),
                ),
            ]
        },
    }
}

// ---------------------------------------------------------------------------
// Headers
// ---------------------------------------------------------------------------

/// What a request for headers does.
pub open spec fn after_get_headers(v: CoreView, c: Connection, m: GetHeadersMessage) -> Outcome {
    Outcome {
        acts: seq![
            Act::Reply(
                base::say(
                    MessageType::Headers,
                    headers::headers_payload(v.headers.after(m.start_hash, m.stop_hash)),
                ),
            ),
        ],
        ..base::ignored(v, c)
    }
}

/// Storing some headers.
pub open spec fn stores(hs: Seq<BlockHeader>) -> Seq<Act> {
    Seq::new(hs.len(), |i: int| Act::StoreHeader(hs[i]))
}

/// Whether we lack the block behind a header, as a test.
pub open spec fn blockless<S: BlockSource>(source: &S) -> spec_fn(BlockHeader) -> bool {
    |h: BlockHeader| source.block_under(block::header_hash(h)) is None
}

/// The block behind a header, as an inventory entry.
pub open spec fn block_entry() -> spec_fn(BlockHeader) -> InvEntry {
    |h: BlockHeader| InvEntry { inv_type: InvType::Block, hash: block::header_hash(h) }
}

/// The blocks behind some headers that we lack, in the same order, no more than
/// we ask for at once.
pub open spec fn missing_blocks<S: BlockSource>(hs: Seq<BlockHeader>, source: &S) -> Seq<InvEntry> {
    peer::upto(hs.filter(blockless(source)), MAX_INVENTORY as int).map_values(block_entry())
}

/// What headers do. An empty run ends a synchronization with its peer. Otherwise
/// they are taken and stored up to the first bad one; a bad one counts against
/// the peer. If all are good, the blocks behind them are asked for, oldest
/// first, and then more headers.
pub open spec fn after_headers<S: BlockSource>(
    v: CoreView,
    c: Connection,
    hs: Seq<BlockHeader>,
    source: &S,
    ms: u64,
) -> Outcome {
    if hs.len() == 0 {
        if v.syncer.sync_peer == Some(c.key) {
            Outcome {
                core: CoreView {
                    syncer: ChainSyncer {
                        state: SyncState::CaughtUp,
                        sync_peer: None,
                        ..v.syncer
                    },
                    ..v
                },
                acts: seq![Act::Emit(EventView::SyncComplete)],
                ..base::ignored(v, c)
            }
        } else {
            base::ignored(v, c)
        }
    } else {
        let (after, n, fault) = crate::p2p::sync::absorbed(v.headers, hs);
        let taken = hs.subrange(0, n as int);
        let core = CoreView {
            headers: after,
            syncer: v.syncer.noted(after.best(), after.top),
            ..v
        };
        if fault is Some {
            Outcome {
                core: CoreView {
                    peers: base::with_mark(v.peers, c.key, Mark::Bad(20), ms),
                    ..core
                },
                acts: stores(taken) + seq![
                    Act::Emit(
                        EventView::Error(
                            "bad headers from "@ + net::addr_text(c.key) + ": "@
                                + fault->0.words(),
                        ),
                    ),
                ],
                ..base::ignored(v, c)
            }
        } else {
            Outcome {
                core,
                acts: stores(taken) + seq![Act::Emit(EventView::HeadersAccepted(n as usize))]
                    + request(missing_blocks(taken, source)) + seq![
                    Act::Reply(base::header_request(core)),
                ],
                ..base::ignored(v, c)
            }
        }
    }
}

// ---------------------------------------------------------------------------
// Blocks
// ---------------------------------------------------------------------------

/// Whether we hold the block under a hash.
pub open spec fn have<S: BlockSource>(source: &S, h: hash::Hash) -> bool {
    source.block_under(h) is Some
}

/// What a block does on arrival. One that we hold or have parked does nothing.
/// One whose parent we lack is parked, and the parent asked for. Any other is
/// to be stored and connected.
pub open spec fn after_block_message<S: BlockSource>(
    v: CoreView,
    c: Connection,
    b: BlockView,
    source: &S,
) -> Outcome {
    let h = block::header_hash(b.header);
    let parent = b.header.previous_hash;
    if have(source, h) || orphan::parked(v.orphans, h) {
        base::ignored(v, c)
    } else if b.header.height.0 == 0 || have(source, parent) || v.chain.tip.hash == parent {
        Outcome { flow: FlowView::Connect(b), ..base::ignored(v, c) }
    } else {
        Outcome {
            core: CoreView { orphans: orphan::with_block(v.orphans, b), ..v },
            acts: request(seq![InvEntry { inv_type: InvType::Block, hash: parent }]),
            ..base::ignored(v, c)
        }
    }
}

/// The hashes of the transfers of a block.
pub open spec fn transfer_hashes(b: BlockView) -> Seq<hash::Hash> {
    if b.txs.len() == 0 {
        Seq::empty()
    } else {
        b.txs.subrange(1, b.txs.len() as int).map_values(|t: Transaction| tx::tx_hash(t))
    }
}

/// What connecting a block does: the node after it, what is to be done, and the
/// parked blocks that were waiting for it.
#[verifier::ext_equal]
pub struct Connected {
    pub core: CoreView,
    pub acts: Seq<Act>,
    pub unblocked: Seq<BlockView>,
}

/// What follows once the chain has taken a block.
pub open spec fn after_chain(v: CoreView, b: BlockView) -> CoreView {
    let after = v.headers.followed(v.chain);
    let h = block::header_hash(b.header);
    CoreView {
        headers: after,
        syncer: v.syncer.noted(after.best(), after.top),
        pool: mempool::all_removed(v.pool, transfer_hashes(b)),
        orphans: v.orphans.filter(orphan::waits_for_another(h)),
        ..v
    }
}

/// What a block that the chain has refused for a reason does: it takes its
/// parked children with it.
pub open spec fn refused(v: CoreView, b: BlockView, why: Fault) -> Connected {
    let h = block::header_hash(b.header);
    Connected {
        core: CoreView {
            orphans: v.orphans.filter(orphan::is_another(h)).filter(orphan::waits_for_another(h)),
            ..v
        },
        acts: seq![Act::Emit(EventView::Error("block validation failed: "@ + why.words()))],
        unblocked: Seq::empty(),
    }
}

/// What a block that the chain has taken does: it is stored as far as it changes
/// the tip, its transactions leave the pool, it is passed on to everyone but the
/// peer it came from, and the blocks that waited for it come next.
pub open spec fn settled(
    v: CoreView,
    b: BlockView,
    outcome: BlockOutcome,
    from: Option<NetAddr>,
    ms: u64,
) -> Connected {
    let h = block::header_hash(b.header);
    let tip = v.chain.tip;
    Connected {
        core: after_chain(v, b),
        acts: (match outcome {
            BlockOutcome::Reorganized { depth } => seq![
                Act::Emit(EventView::Reorganized { depth, new_tip: tip.hash }),
                Act::StoreActiveChain,
            ],
            _ => Seq::empty(),
        }) + seq![Act::StoreTip, Act::Emit(EventView::BlockReceived(h, tip.height.0))]
            + announced(v.peers, InvType::Block, h, from, ms),
        unblocked: v.orphans.filter(orphan::waits_for(h)),
    }
}

/// What connecting a block does.
pub open spec fn connected<S: BlockSource>(
    v: CoreView,
    b: BlockView,
    source: &S,
    from: Option<NetAddr>,
    ms: u64,
    secs: u64,
) -> Connected {
    let (chain, result) = chain::offered(v.chain, b, source, secs);
    match result {
        Err(why) => refused(v, b, why),
        Ok(outcome) => settled(CoreView { chain, ..v }, b, outcome, from, ms),
    }
}

impl NodeCore {
    /// Add the announcement of one thing to every ready peer, but for one of
    /// them.
    ///
    /// Only the hash goes out: peers that already have it say nothing, and only
    /// those missing it spend bandwidth asking.
    pub fn announce(
        &self,
        out: &mut Vec<Action>,
        inv_type: InvType,
        h: hash::Hash,
        except: Option<NetAddr>,
        ms: u64,
    )
        ensures
            event::acts(final(out)@) == event::acts(old(out)@) + announced(
                self@.peers,
                inv_type,
                h,
                except,
                ms,
            ),
    {
        let addrs = self.peers.peers_for_announcement_at(ms);
        let inv = InvMessage { inventory: one_entry(inv_type, h) };
        send_to(out, &addrs, except, &Message::new(MessageType::Inv, inv.encode()));
    }

    /// A message to every connected peer.
    pub fn broadcast_message(&self, msg: &Message, ms: u64) -> (r: Vec<Action>)
        ensures
            event::acts(r@) == broadcasted(self@.peers, msg@, ms),
    {
        let mut out: Vec<Action> = Vec::new();
        let connected = self.peers.connected_peers_at(ms);
        let addrs = peer::addresses(&connected);
        send_to(&mut out, &addrs, None, msg);
        assert(event::acts(out@) =~= broadcasted(self@.peers, msg@, ms));
        out
    }

    /// The announcement of a transaction to every connected peer.
    pub fn broadcast_transaction(&self, tx_hash: hash::Hash, ms: u64) -> (r: Vec<Action>)
        ensures
            event::acts(r@) == broadcasted(
                self@.peers,
                announcement(InvType::Tx, tx_hash),
                ms,
            ),
    {
        let inv = InvMessage { inventory: one_entry(InvType::Tx, tx_hash) };
        self.broadcast_message(&Message::new(MessageType::Inv, inv.encode()), ms)
    }

    /// The announcement of a block to every connected peer.
    pub fn broadcast_block(&self, block_hash: hash::Hash, ms: u64) -> (r: Vec<Action>)
        ensures
            event::acts(r@) == broadcasted(
                self@.peers,
                announcement(InvType::Block, block_hash),
                ms,
            ),
    {
        let inv = InvMessage { inventory: one_entry(InvType::Block, block_hash) };
        self.broadcast_message(&Message::new(MessageType::Inv, inv.encode()), ms)
    }

    /// Act on a transaction.
    pub fn on_tx(&mut self, conn: &Connection, t: &Transaction, ms: u64, secs: u64) -> (r: (
        Vec<Action>,
        Flow,
    ))
        requires
            old(self).wf(),
        ensures
            final(self).wf(),
            ({
                let o = after_tx(old(self)@, *conn, *t, ms, secs);
                &&& final(self)@ == o.core
                &&& event::acts(r.0@) == o.acts
                &&& r.1@ == o.flow
            }),
    {
        let mut out: Vec<Action> = Vec::new();
        let ghost o = after_tx(self@, *conn, *t, ms, secs);
        assert(event::acts(out@) =~= Seq::<Act>::empty());
        proof {
            peer::lemma_place(self.peers@.peers, conn.key);
        }
        match self.peers.get_peer(&conn.key) {
            Some(p) => {
                let mut q = *p;
                let within = q.allow_transaction_at(ms);
                self.peers.put_peer(q);
                if !within {
                    return (out, Flow::Continue);
                }
            },
            None => {},
        }
        let source = AddressGroup::of(conn.key.ip);
        match self.pool.add_transaction(*t, source, &self.chain.state, secs) {
            Ok(Admission::Accepted) => {
                base::mark(&mut self.peers, &conn.key, Mark::Alive, ms);
                let h = t.hash();
                event::add_action(&mut out, Action::Emit(NodeEvent::TxReceived(h)));
                self.announce(&mut out, InvType::Tx, h, Some(conn.key), ms);
                assert(event::acts(out@) =~= o.acts);
            },
            Ok(Admission::Duplicate) => {},
            Err(why) => {
                if why.is_misbehaviour() {
                    base::mark(&mut self.peers, &conn.key, Mark::Bad(10), ms);
                    let refusal = RejectMessage {
                        message: "tx".to_string(),
                        code: REJECT_TX,
                        reason: why.message().to_string(),
                    };
                    event::add_action(
                        &mut out,
                        Action::Reply(Message::new(MessageType::Reject, refusal.encode())),
                    );
                } else {
                    event::add_action(
                        &mut out,
                        Action::Emit(
                            NodeEvent::Error(
                                joined("mempool rejected tx: ", why.message()),
                            ),
                        ),
                    );
                }
                assert(event::acts(out@) =~= o.acts);
            },
        }
        (out, Flow::Continue)
    }

    /// Act on an announcement.
    pub fn on_inv<S: BlockSource>(
        &self,
        conn: &Connection,
        inv: &InvMessage,
        source: &S,
    ) -> (r: (Vec<Action>, Flow))
        requires
            self.wf(),
        ensures
            ({
                let o = after_inv(self@, *conn, inv.inventory@, source);
                &&& self@ == o.core
                &&& event::acts(r.0@) == o.acts
                &&& r.1@ == o.flow
            }),
    {
        let mut out: Vec<Action> = Vec::new();
        assert(event::acts(out@) =~= Seq::<Act>::empty());
        let limit: usize = if inv.inventory.len() <= MAX_INVENTORY {
            inv.inventory.len()
        } else {
            MAX_INVENTORY
        };
        let mut wanted: Vec<InvEntry> = Vec::new();
        let mut i: usize = 0;
        let ghost all = within_bounds(inv.inventory@);
        let ghost test = lacking(self@.pool, source);
        proof {
            reveal(Seq::filter);
            assert(all.subrange(0, 0) =~= Seq::<InvEntry>::empty());
        }
        while i < limit
            invariant
                i <= limit,
                limit == all.len(),
                limit <= inv.inventory@.len(),
                all == inv.inventory@.subrange(0, limit as int),
                test == lacking(self@.pool, source),
                self.wf(),
                wanted@ == all.subrange(0, i as int).filter(test),
            decreases limit - i,
        {
            let e = inv.inventory[i];
            proof {
                reveal(Seq::filter);
                assert(all.subrange(0, i + 1).drop_last() =~= all.subrange(0, i as int));
                assert(all[i as int] == e);
            }
            let missing = match e.inv_type {
                InvType::Block => source.get_block(&e.hash).is_none(),
                InvType::Tx => !self.pool.has_transaction(&e.hash),
            };
            if missing {
                wanted.push(e);
            }
            i = i + 1;
        }
        proof {
            assert(all.subrange(0, i as int) =~= all);
        }
        add_request(&mut out, wanted);
        assert(event::acts(out@) =~= after_inv(self@, *conn, inv.inventory@, source).acts);
        (out, Flow::Continue)
    }

    /// Act on a request for blocks and transactions, or on the rest of one that
    /// had to wait.
    pub fn on_get_data<S: BlockSource>(
        &mut self,
        conn: &Connection,
        req: &GetDataMessage,
        source: &S,
        ms: u64,
    ) -> (r: (Vec<Action>, Flow))
        requires
            old(self).wf(),
        ensures
            final(self).wf(),
            ({
                let o = after_get_data(old(self)@, *conn, req.inventory@, source, ms);
                &&& final(self)@ == o.core
                &&& event::acts(r.0@) == o.acts
                &&& r.1@ == o.flow
            }),
    {
        let ghost whole = within_bounds(req.inventory@);
        let most: usize = if req.inventory.len() <= MAX_INVENTORY {
            req.inventory.len()
        } else {
            MAX_INVENTORY
        };
        proof {
            peer::lemma_place(self.peers@.peers, conn.key);
        }
        let (limit, flow) = match self.peers.get_peer(&conn.key) {
            Some(p) => {
                let mut q = *p;
                let (left, over) = q.getdata_allowance(ms);
                let limit: usize = if left < most {
                    left
                } else {
                    most
                };
                let _ = q.allow_getdata_at(limit, ms);
                self.peers.put_peer(q);
                if limit < most {
                    (limit, Flow::Later(entries_between(&req.inventory, limit, most), over))
                } else {
                    (limit, Flow::Continue)
                }
            },
            None => (most, Flow::Continue),
        };
        let ghost o = after_get_data(old(self)@, *conn, req.inventory@, source, ms);
        proof {
            assert(flow@ == o.flow);
            assert(self@ == o.core);
        }
        let out = self.serve(&req.inventory, limit, source);
        proof {
            assert(req.inventory@.subrange(0, limit as int) =~= whole.subrange(0, limit as int));
        }
        (out, flow)
    }

    /// Serve the first entries of a request.
    fn serve<S: BlockSource>(&self, inventory: &Vec<InvEntry>, limit: usize, source: &S) -> (r: Vec<
        Action,
    >)
        requires
            self.wf(),
            limit <= inventory@.len(),
        ensures
            ({
                let d = served(self@.pool, inventory@.subrange(0, limit as int), source);
                event::acts(r@) == d.replies + if d.missing.len() == 0 {
                    Seq::empty()
                } else {
                    seq![
                        Act::Reply(
                            base::say(
                                MessageType::NotFound,
                                inventory::inventory_bytes(d.missing),
                            ),
                        ),
                    ]
                }
            }),
    {
        let mut out: Vec<Action> = Vec::new();
        let mut missing: Vec<InvEntry> = Vec::new();
        let ghost all = inventory@.subrange(0, limit as int);
        let mut i: usize = 0;
        proof {
            assert(event::acts(out@) =~= Seq::<Act>::empty());
            assert(all.subrange(0, 0) =~= Seq::<InvEntry>::empty());
        }
        while i < limit
            invariant
                i <= limit,
                limit == all.len(),
                limit <= inventory@.len(),
                all == inventory@.subrange(0, limit as int),
                self.wf(),
                ({
                    let d = served(self@.pool, all.subrange(0, i as int), source);
                    &&& event::acts(out@) == d.replies
                    &&& missing@ == d.missing
                }),
            decreases limit - i,
        {
            let e = inventory[i];
            proof {
                let t = all.subrange(0, i + 1);
                assert(t.drop_last() =~= all.subrange(0, i as int));
                assert(t.last() == e);
            }
            let found = match e.inv_type {
                InvType::Block => match source.get_block(&e.hash) {
                    Some(b) => Some(Message::new(MessageType::Block, b.encode_block())),
                    None => None,
                },
                InvType::Tx => match self.pool.get_transaction(&e.hash) {
                    Some(t) => Some(Message::new(MessageType::Tx, t.encode())),
                    None => None,
                },
            };
            match found {
                Some(m) => {
                    event::add_action(&mut out, Action::Reply(m));
                },
                None => {
                    missing.push(e);
                },
            }
            i = i + 1;
        }
        assert(all.subrange(0, i as int) =~= all);
        let ghost replies = event::acts(out@);
        if missing.len() > 0 {
            let ghost gone = missing@;
            let m = InvMessage { inventory: missing };
            event::add_action(
                &mut out,
                Action::Reply(Message::new(MessageType::NotFound, m.encode())),
            );
            assert(event::acts(out@) =~= replies + seq![
                Act::Reply(base::say(MessageType::NotFound, inventory::inventory_bytes(gone))),
            ]);
        } else {
            assert(event::acts(out@) =~= replies + Seq::<Act>::empty());
        }
        out
    }

    /// Act on a request for headers.
    pub fn on_get_headers(&self, conn: &Connection, req: &GetHeadersMessage) -> (r: (
        Vec<Action>,
        Flow,
    ))
        requires
            self.wf(),
        ensures
            ({
                let o = after_get_headers(self@, *conn, *req);
                &&& self@ == o.core
                &&& event::acts(r.0@) == o.acts
                &&& r.1@ == o.flow
            }),
    {
        let mut out: Vec<Action> = Vec::new();
        let m = HeadersMessage {
            headers: self.headers.headers_after(&req.start_hash, &req.stop_hash),
        };
        event::add_action(
            &mut out,
            Action::Reply(Message::new(MessageType::Headers, m.encode())),
        );
        assert(event::acts(out@) =~= after_get_headers(self@, *conn, *req).acts);
        (out, Flow::Continue)
    }

    /// Act on headers.
    pub fn on_headers<S: BlockSource>(
        &mut self,
        conn: &Connection,
        m: &HeadersMessage,
        source: &S,
        ms: u64,
    ) -> (r: (Vec<Action>, Flow))
        requires
            old(self).wf(),
        ensures
            final(self).wf(),
            ({
                let o = after_headers(old(self)@, *conn, m.headers@, source, ms);
                &&& final(self)@ == o.core
                &&& event::acts(r.0@) == o.acts
                &&& r.1@ == o.flow
            }),
    {
        let mut out: Vec<Action> = Vec::new();
        let ghost o = after_headers(self@, *conn, m.headers@, source, ms);
        assert(event::acts(out@) =~= Seq::<Act>::empty());
        if m.headers.len() == 0 {
            let ours = match self.syncer.sync_peer() {
                Some(a) => a == conn.key,
                None => false,
            };
            if ours {
                self.syncer.sync_complete();
                event::add_action(&mut out, Action::Emit(NodeEvent::SyncComplete));
                assert(event::acts(out@) =~= o.acts);
            }
            return (out, Flow::Continue);
        }
        let batch = self.headers.absorb_headers(&m.headers);
        let best = self.headers.best_hash();
        self.syncer.received_header(best, self.headers.height());
        let ghost taken = m.headers@.subrange(0, batch.accepted as int);
        let mut i: usize = 0;
        while i < batch.accepted
            invariant
                i <= batch.accepted <= m.headers@.len(),
                taken == m.headers@.subrange(0, batch.accepted as int),
                event::acts(out@) == stores(taken).subrange(0, i as int),
            decreases batch.accepted - i,
        {
            event::add_action(&mut out, Action::StoreHeader(m.headers[i]));
            i = i + 1;
            assert(event::acts(out@) =~= stores(taken).subrange(0, i as int));
        }
        let ghost stored = event::acts(out@);
        assert(stored =~= stores(taken));
        match batch.rejected {
            Some(e) => {
                base::mark(&mut self.peers, &conn.key, Mark::Bad(20), ms);
                event::add_action(
                    &mut out,
                    Action::Emit(
                        NodeEvent::Error(
                            joined4(
                                "bad headers from ",
                                conn.key.to_text().as_str(),
                                ": ",
                                e.message().as_str(),
                            ),
                        ),
                    ),
                );
                assert(event::acts(out@) =~= o.acts);
            },
            None => {
                event::add_action(
                    &mut out,
                    Action::Emit(NodeEvent::HeadersAccepted(batch.accepted)),
                );
                let wanted = blocks_behind(&m.headers, batch.accepted, source);
                add_request(&mut out, wanted);
                let more = GetHeadersMessage { start_hash: best, stop_hash: hash::Hash::zero() };
                event::add_action(
                    &mut out,
                    Action::Reply(Message::new(MessageType::GetHeaders, more.encode())),
                );
                assert(event::acts(out@) =~= o.acts);
            },
        }
        (out, Flow::Continue)
    }

    /// Act on a block.
    pub fn on_block<S: BlockSource>(&mut self, conn: &Connection, block: Block, source: &S) -> (r: (
        Vec<Action>,
        Flow,
    ))
        requires
            old(self).wf(),
        ensures
            final(self).wf(),
            ({
                let o = after_block_message(old(self)@, *conn, block@, source);
                &&& final(self)@ == o.core
                &&& event::acts(r.0@) == o.acts
                &&& r.1@ == o.flow
            }),
    {
        let mut out: Vec<Action> = Vec::new();
        let ghost o = after_block_message(self@, *conn, block@, source);
        assert(event::acts(out@) =~= Seq::<Act>::empty());
        let h = block.hash();
        if source.get_block(&h).is_some() || self.orphans.contains(&h) {
            return (out, Flow::Continue);
        }
        let parent = block.header.previous_hash;
        let parent_known = block.header.height.0 == 0 || source.get_block(&parent).is_some()
            || self.chain.tip.hash == parent;
        if parent_known {
            return (out, Flow::Connect(block));
        }
        // Park it and go get the parent, rather than dropping a block we may
        // well be able to use in a moment.
        let _ = self.orphans.insert(block);
        add_request(&mut out, one_entry(InvType::Block, parent));
        assert(event::acts(out@) =~= o.acts);
        (out, Flow::Continue)
    }

    /// Validate and connect a block that has been stored. Gives what is to be
    /// done, and the blocks that were waiting for it, which are to be stored
    /// and connected in turn.
    pub fn connect_block<S: BlockSource>(
        &mut self,
        block: &Block,
        source: &S,
        from: Option<NetAddr>,
        ms: u64,
        secs: u64,
    ) -> (r: (Vec<Action>, Vec<Block>))
        requires
            old(self).wf(),
        ensures
            final(self).wf(),
            ({
                let o = connected(old(self)@, block@, source, from, ms, secs);
                &&& final(self)@ == o.core
                &&& event::acts(r.0@) == o.acts
                &&& orphan::views(r.1@) == o.unblocked
            }),
    {
        match self.chain.apply_block_at(block, source, secs) {
            Ok(outcome) => self.block_taken(block, outcome, from, ms),
            Err(e) => self.block_refused(block, e),
        }
    }

    /// Follow up on a block that the chain has taken.
    pub fn block_taken(
        &mut self,
        block: &Block,
        outcome: BlockOutcome,
        from: Option<NetAddr>,
        ms: u64,
    ) -> (r: (Vec<Action>, Vec<Block>))
        requires
            old(self).wf(),
        ensures
            final(self).wf(),
            ({
                let o = settled(old(self)@, block@, outcome, from, ms);
                &&& final(self)@ == o.core
                &&& event::acts(r.0@) == o.acts
                &&& orphan::views(r.1@) == o.unblocked
            }),
    {
        let mut out: Vec<Action> = Vec::new();
        let ghost o = settled(self@, block@, outcome, from, ms);
        let h = block.hash();
        match outcome {
            BlockOutcome::Reorganized { depth } => {
                let new_tip = self.chain.tip.hash;
                event::add_action(
                    &mut out,
                    Action::Emit(NodeEvent::Reorganized { depth, new_tip }),
                );
                event::add_action(&mut out, Action::StoreActiveChain);
            },
            _ => {},
        }
        event::add_action(&mut out, Action::StoreTip);
        self.took_block(block);
        event::add_action(
            &mut out,
            Action::Emit(NodeEvent::BlockReceived(h, self.chain.tip.height.0)),
        );
        self.announce(&mut out, InvType::Block, h, from, ms);
        let unblocked = self.orphans.take_children_of(&h);
        assert(event::acts(out@) =~= o.acts);
        (out, unblocked)
    }

    /// Follow up on a block that the chain has refused.
    pub fn block_refused(&mut self, block: &Block, why: CoreError) -> (r: (
        Vec<Action>,
        Vec<Block>,
    ))
        requires
            old(self).wf(),
        ensures
            final(self).wf(),
            ({
                let o = refused(old(self)@, block@, why.fault());
                &&& final(self)@ == o.core
                &&& event::acts(r.0@) == o.acts
                &&& orphan::views(r.1@) == o.unblocked
            }),
    {
        let mut out: Vec<Action> = Vec::new();
        let ghost o = refused(self@, block@, why.fault());
        let h = block.hash();
        event::add_action(
            &mut out,
            Action::Emit(
                NodeEvent::Error(joined("block validation failed: ", why.message().as_str())),
            ),
        );
        // Its children can never connect either.
        self.orphans.remove(&h);
        let _ = self.orphans.take_children_of(&h);
        let none: Vec<Block> = Vec::new();
        assert(event::acts(out@) =~= o.acts);
        assert(orphan::views(none@) =~= Seq::<BlockView>::empty());
        (out, none)
    }

    /// Bring the headers and the pool in line with a block that the chain has
    /// taken.
    pub fn took_block(&mut self, block: &Block)
        requires
            old(self).wf(),
        ensures
            final(self).wf(),
            final(self)@ == (CoreView {
                orphans: old(self)@.orphans,
                ..after_chain(old(self)@, block@)
            }),
    {
        self.headers.follow(&self.chain);
        let best = self.headers.best_hash();
        self.syncer.received_header(best, self.headers.height());
        let hashes = mined_hashes(block);
        self.pool.remove_transactions(&hashes);
    }
}

/// The hashes of the transfers of a block.
pub fn mined_hashes(block: &Block) -> (r: Vec<hash::Hash>)
    ensures
        r@ == transfer_hashes(block@),
{
    let mut r: Vec<hash::Hash> = Vec::new();
    let mut i: usize = 1;
    while i < block.transactions.len()
        invariant
            1 <= i,
            r@.len() == i - 1,
            i <= block.transactions@.len() || i == 1,
            forall|j: int|
                0 <= j < r@.len() ==> #[trigger] r@[j] == tx::tx_hash(block.transactions@[j + 1]),
        decreases block.transactions@.len() - i,
    {
        r.push(block.transactions[i].hash());
        i = i + 1;
    }
    assert(r@ =~= transfer_hashes(block@));
    r
}

/// The blocks behind the first of some headers that we lack, in the same order,
/// no more than we ask for at once.
///
/// Asked for in ascending height, so that parents arrive before children.
fn blocks_behind<S: BlockSource>(hs: &Vec<BlockHeader>, n: usize, source: &S) -> (r: Vec<InvEntry>)
    requires
        n <= hs@.len(),
    ensures
        r@ == missing_blocks(hs@.subrange(0, n as int), source),
{
    let ghost all = hs@.subrange(0, n as int);
    let ghost test = blockless(source);
    let mut wanted: Vec<InvEntry> = Vec::new();
    let mut i: usize = 0;
    proof {
        peer::lemma_filter_none(all, test);
        assert(wanted@ =~= all.subrange(0, 0).filter(test).map_values(block_entry()));
    }
    while i < n && wanted.len() < MAX_INVENTORY
        invariant
            i <= n == all.len(),
            n <= hs@.len(),
            all == hs@.subrange(0, n as int),
            test == blockless(source),
            wanted@.len() <= MAX_INVENTORY,
            wanted@ == all.subrange(0, i as int).filter(test).map_values(block_entry()),
        decreases n - i,
    {
        let h = hs[i].hash();
        let ghost before = all.subrange(0, i as int).filter(test);
        proof {
            peer::lemma_filter_step(all, i as int, test);
            assert(all[i as int] == hs@[i as int]);
        }
        if source.get_block(&h).is_none() {
            wanted.push(InvEntry { inv_type: InvType::Block, hash: h });
            assert(wanted@ =~= before.push(all[i as int]).map_values(block_entry()));
        }
        i = i + 1;
    }
    proof {
        peer::lemma_filter_prefix(all, i as int, test);
        if i == n {
            assert(all.subrange(0, i as int) =~= all);
        }
        assert(wanted@ =~= missing_blocks(all, source));
    }
    wanted
}

// ---------------------------------------------------------------------------
// Laws
// ---------------------------------------------------------------------------

/// An announcement of things that we have is answered with nothing.
pub proof fn known_inventory_is_not_requested<S: BlockSource>(
    v: CoreView,
    c: Connection,
    s: Seq<InvEntry>,
    source: &S,
)
    requires
        forall|i: int| 0 <= i < s.len() ==> !lacking(v.pool, source)(#[trigger] s[i]),
    ensures
        after_inv(v, c, s, source).acts.len() == 0,
        after_inv(v, c, s, source).core == v,
{
    let t = within_bounds(s);
    assert forall|i: int| 0 <= i < t.len() implies !lacking(v.pool, source)(#[trigger] t[i]) by {
        assert(t[i] == s[i]);
    }
    lemma_filter_nothing(t, lacking(v.pool, source));
}

proof fn lemma_filter_nothing<T>(s: Seq<T>, f: spec_fn(T) -> bool)
    requires
        forall|i: int| 0 <= i < s.len() ==> !f(#[trigger] s[i]),
    ensures
        s.filter(f).len() == 0,
    decreases s.len(),
{
    reveal(Seq::filter);
    if s.len() > 0 {
        let t = s.drop_last();
        assert forall|i: int| 0 <= i < t.len() implies !f(#[trigger] t[i]) by {
            assert(t[i] == s[i]);
        }
        lemma_filter_nothing(t, f);
        assert(!f(s[s.len() - 1]));
    }
}

/// A request for one thing by a peer within its budget is answered: with the
/// block or the transaction if we have it, and with a report that it is missing
/// if not.
pub proof fn request_is_answered<S: BlockSource>(
    v: CoreView,
    c: Connection,
    e: InvEntry,
    source: &S,
    ms: u64,
)
    requires
        v.peers.peer(c.key) matches Some(p) ==> p.getdata_left(ms) > 0,
    ensures
        ({
            let o = after_get_data(v, c, seq![e], source, ms);
            &&& o.flow is Continue
            &&& o.acts.len() == 1
            &&& e.inv_type is Block && have(source, e.hash) ==> o.acts[0] == Act::Reply(
                base::say(
                    MessageType::Block,
                    block::block_bytes(source.block_under(e.hash)->0),
                ),
            )
            &&& e.inv_type is Tx && mempool::spot(v.pool, e.hash) is Some ==> o.acts[0]
                == Act::Reply(
                base::say(
                    MessageType::Tx,
                    v.pool[mempool::spot(v.pool, e.hash)->0].tx.spec_encode(),
                ),
            )
            &&& lacking(v.pool, source)(e) ==> o.acts[0] == Act::Reply(
                base::say(MessageType::NotFound, inventory::inventory_bytes(seq![e])),
            )
        }),
{
    let s = seq![e];
    assert(s.drop_last() =~= Seq::<InvEntry>::empty());
    let none = served(v.pool, s.drop_last(), source);
    let d = served(v.pool, s, source);
    assert(none.missing.push(e) =~= seq![e]);
    let o = after_get_data(v, c, s, source, ms);
    assert(within_bounds(s) =~= s);
    assert(s.subrange(0, 1) =~= s);
    if d.missing.len() == 0 {
        assert(o.acts =~= d.replies);
    } else {
        assert(d.missing =~= seq![e]);
        assert(d.replies.len() == 0);
        assert(o.acts =~= seq![
            Act::Reply(base::say(MessageType::NotFound, inventory::inventory_bytes(seq![e]))),
        ]);
    }
}

proof fn lemma_served_counts<S: BlockSource>(pool: Entries, s: Seq<InvEntry>, source: &S)
    ensures
        served(pool, s, source).replies.len() + served(pool, s, source).missing.len() == s.len(),
    decreases s.len(),
{
    if s.len() > 0 {
        lemma_served_counts(pool, s.drop_last(), source);
    }
}

/// In one second a peer is served no more entries than its budget has. Those of
/// a request that the budget covers are served or reported missing, the rest
/// waits, and once the second is over the full budget is there for it.
pub proof fn requests_are_budgeted<S: BlockSource>(
    v: CoreView,
    c: Connection,
    s: Seq<InvEntry>,
    source: &S,
    ms: u64,
    p: PeerInfo,
)
    requires
        v.peers.peer(c.key) == Some(p),
        p.rate.rolled(ms).getdata <= GETDATA_RATE_LIMIT,
    ensures
        ({
            let o = after_get_data(v, c, s, source, ms);
            let all = within_bounds(s);
            let n = covered(v.peers, c.key, all.len(), ms) as int;
            let d = served(v.pool, all.subrange(0, n), source);
            &&& 0 <= n <= all.len()
            &&& d.replies.len() + d.missing.len() == n
            &&& n < all.len() ==> o.flow == FlowView::Later(
                all.subrange(n, all.len() as int),
                p.window_end(ms),
            )
            &&& n == all.len() ==> o.flow is Continue
            &&& o.core.peers.peer(c.key) matches Some(q) && {
                &&& q.rate.getdata == p.rate.rolled(ms).getdata + n
                &&& q.rate.getdata <= GETDATA_RATE_LIMIT
                &&& forall|t: u64|
                    t - q.rate.started >= RATE_WINDOW_MILLIS ==> #[trigger] q.getdata_left(t)
                        == GETDATA_RATE_LIMIT
            }
        }),
{
    let all = within_bounds(s);
    let n = covered(v.peers, c.key, all.len(), ms);
    lemma_served_counts(v.pool, all.subrange(0, n as int), source);
    peer::lemma_place(v.peers.peers, c.key);
    let i = peer::place(v.peers.peers, c.key)->0;
    let q = p.after_getdata(n as usize, ms);
    let after = v.peers.with_peer(i, q);
    peer::lemma_place_is(after.peers, c.key, i);
}

/// Nothing is announced back to where it came from.
pub proof fn source_hears_nothing_back(
    addrs: Seq<NetAddr>,
    from: NetAddr,
    m: MessageView,
    i: int,
)
    requires
        0 <= i < sends(addrs, Some(from), m).len(),
    ensures
        sends(addrs, Some(from), m)[i] matches Act::Send(a, x) && a != from && x == m
            && addrs.contains(a),
    decreases addrs.len(),
{
    let rest = sends(addrs.drop_last(), Some(from), m);
    if i < rest.len() {
        source_hears_nothing_back(addrs.drop_last(), from, m, i);
        let a = rest[i]->Send_0;
        let x = choose|x: int| 0 <= x < addrs.drop_last().len() && addrs.drop_last()[x] == a;
        assert(addrs[x] == a);
    } else {
        assert(addrs[addrs.len() - 1] == addrs.last());
    }
}

/// What is announced goes to every ready peer but the one it came from.
pub proof fn announcements_reach_everyone_else(
    addrs: Seq<NetAddr>,
    except: Option<NetAddr>,
    m: MessageView,
    i: int,
)
    requires
        0 <= i < addrs.len(),
        except != Some(addrs[i]),
    ensures
        sends(addrs, except, m).contains(Act::Send(addrs[i], m)),
    decreases addrs.len(),
{
    let rest = sends(addrs.drop_last(), except, m);
    let all = sends(addrs, except, m);
    if i == addrs.len() - 1 {
        assert(all[all.len() - 1] == Act::Send(addrs[i], m));
    } else {
        announcements_reach_everyone_else(addrs.drop_last(), except, m, i);
        let j = choose|j: int| 0 <= j < rest.len() && rest[j] == Act::Send(addrs[i], m);
        assert(all[j] == Act::Send(addrs[i], m));
    }
}

/// An announcement of a thing that we lack is answered with a request for it.
pub proof fn unknown_inventory_is_requested<S: BlockSource>(
    v: CoreView,
    c: Connection,
    e: InvEntry,
    source: &S,
)
    requires
        lacking(v.pool, source)(e),
    ensures
        after_inv(v, c, seq![e], source).acts == seq![
            Act::Reply(base::say(MessageType::GetData, inventory::inventory_bytes(seq![e]))),
        ],
{
    reveal(Seq::filter);
    let s = seq![e];
    assert(s.drop_last() =~= Seq::<InvEntry>::empty());
    assert(s.drop_last().filter(lacking(v.pool, source)) =~= Seq::<InvEntry>::empty());
    assert(s.filter(lacking(v.pool, source)) =~= seq![e]);
}

/// A transaction that is not signed by its sender never enters the pool,
/// whoever sends it.
pub proof fn unsigned_transaction_stays_out(
    v: CoreView,
    c: Connection,
    t: Transaction,
    ms: u64,
    secs: u64,
)
    requires
        !tx::signed(t),
    ensures
        after_tx(v, c, t, ms, secs).core.pool == v.pool,
{
}

} // verus!
