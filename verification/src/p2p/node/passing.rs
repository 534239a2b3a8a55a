//! What is promised of how a node passes things on: transactions, blocks,
//! headers and what it mines itself.

use vstd::prelude::*;
use crate::block;
use crate::block::{BlockHeader, BlockView};
use crate::consensus::chain;
use crate::consensus::chain::{BlockOutcome, BlockSource};
use crate::consensus::headers;
use crate::error::Fault;
use crate::hash;
use crate::p2p::address;
use crate::p2p::conduct;
use crate::p2p::mempool;
use crate::p2p::mempool::{Admission, Entries, Rejection};
use crate::p2p::net;
use crate::p2p::net::NetAddr;
use crate::p2p::node::base;
use crate::p2p::node::base::{Connection, CoreView, Mark};
use crate::p2p::node::dispatch;
use crate::p2p::node::event::{Act, EventView, FlowView};
use crate::p2p::node::manners;
use crate::p2p::node::mining;
use crate::p2p::node::mining::Fate;
use crate::p2p::node::relay;
use crate::p2p::orphan;
use crate::p2p::peer;
use crate::p2p::peer::{PeerFilter, PeerInfo, PeersView};
use crate::p2p::sync::SyncState;
use crate::p2p::wire::frame::MessageView;
use crate::p2p::wire::headers as wire_headers;
use crate::p2p::wire::inventory;
use crate::p2p::wire::reject;
use crate::p2p::wire::{GetHeadersMessage, InvEntry, InvType, MessageType};
use crate::serialize::CanonicalEncode;
use crate::tx;
use crate::tx::Transaction;
use crate::types::{Address, CompactTarget};

verus! {

// ---------------------------------------------------------------------------
// Announcements
// ---------------------------------------------------------------------------

/// What is announced goes to exactly the ready peers that are not banned, but for
/// the one it came from: one message each, that names the thing by its hash.
pub proof fn announcement_goes_to_the_ready(
    v: PeersView,
    t: InvType,
    h: hash::Hash,
    except: Option<NetAddr>,
    ms: u64,
    p: PeerInfo,
    i: int,
)
    requires
        v.wf(),
        v.peers.contains(p),
    ensures
        ({
            let acts = relay::announced(v, t, h, except, ms);
            let m = MessageView {
                msg_type: MessageType::Inv,
                payload: inventory::inventory_bytes(seq![InvEntry { inv_type: t, hash: h }]),
            };
            &&& acts.contains(Act::Send(p.addr, m)) <==> p.state is Ready && !p.banned_at(ms)
                && except != Some(p.addr)
            &&& 0 <= i < acts.len() ==> (acts[i] matches Act::Send(a, x) && x == m)
        }),
{
    let s = v.select(PeerFilter::ReadyOpen, ms);
    let addrs = s.map_values(peer::addr_of());
    let m = relay::announcement(t, h);
    conduct::lemma_picked(v, PeerFilter::ReadyOpen, p, ms);
    let acts = relay::sends(addrs, except, m);
    if s.contains(p) && except != Some(p.addr) {
        let k = choose|k: int| 0 <= k < s.len() && s[k] == p;
        assert(addrs[k] == p.addr);
        relay::announcements_reach_everyone_else(addrs, except, m, k);
    }
    if acts.contains(Act::Send(p.addr, m)) {
        let k = choose|k: int| 0 <= k < acts.len() && acts[k] == Act::Send(p.addr, m);
        lemma_sends(addrs, except, m, k);
        let j = choose|j: int| 0 <= j < addrs.len() && addrs[j] == p.addr;
        let q = s[j];
        assert(s.contains(q));
        conduct::lemma_picked(v, PeerFilter::ReadyOpen, q, ms);
        let x = choose|x: int| 0 <= x < v.peers.len() && v.peers[x] == p;
        let y = choose|y: int| 0 <= y < v.peers.len() && v.peers[y] == q;
        if x < y {
            assert(v.peers[x].addr != v.peers[y].addr);
        } else if y < x {
            assert(v.peers[y].addr != v.peers[x].addr);
        }
    }
    if 0 <= i < acts.len() {
        lemma_sends(addrs, except, m, i);
    }
}

proof fn lemma_sends(addrs: Seq<NetAddr>, except: Option<NetAddr>, m: MessageView, i: int)
    requires
        0 <= i < relay::sends(addrs, except, m).len(),
    ensures
        relay::sends(addrs, except, m)[i] matches Act::Send(a, x) && x == m && except != Some(a)
            && addrs.contains(a),
    decreases addrs.len(),
{
    let rest = relay::sends(addrs.drop_last(), except, m);
    if i < rest.len() {
        lemma_sends(addrs.drop_last(), except, m, i);
        let a = rest[i]->Send_0;
        let x = choose|x: int| 0 <= x < addrs.drop_last().len() && addrs.drop_last()[x] == a;
        assert(addrs[x] == a);
    } else {
        assert(addrs[addrs.len() - 1] == addrs.last());
    }
}

/// A broadcast goes to everyone who is connected and not banned.
pub proof fn broadcast_goes_to_the_connected(v: PeersView, m: MessageView, ms: u64, p: PeerInfo)
    requires
        v.peers.contains(p),
        !(p.state is Disconnected),
        !p.banned_at(ms),
    ensures
        relay::broadcasted(v, m, ms).contains(Act::Send(p.addr, m)),
{
    let s = v.select(PeerFilter::Connected, ms);
    conduct::lemma_picked(v, PeerFilter::Connected, p, ms);
    let k = choose|k: int| 0 <= k < s.len() && s[k] == p;
    let addrs = s.map_values(peer::addr_of());
    assert(addrs[k] == p.addr);
    relay::announcements_reach_everyone_else(addrs, None, m, k);
}

// ---------------------------------------------------------------------------
// Transactions
// ---------------------------------------------------------------------------

/// The eleventh transaction of a peer within a second is dropped unseen. Any
/// other is put to the pool in the name of the peer's group. One that the pool
/// takes is told of and announced to the others. One that speaks against its
/// sender costs the peer ten points and is answered; any other refusal is only
/// reported.
pub proof fn transaction_is_put_to_the_pool(
    v: CoreView,
    c: Connection,
    t: Transaction,
    ms: u64,
    secs: u64,
    other: NetAddr,
)
    requires
        v.peers.wf(),
        other != c.key,
    ensures
        ({
            let o = relay::after_tx(v, c, t, ms, secs);
            let had = v.peers.peer(c.key);
            let many = had is Some && ms - had->0.rate.started < 1000 && had->0.rate.transactions
                >= 10;
            let group = address::group_of(c.key.ip);
            let r = mempool::verdict(v.pool, t, group, v.chain.state.accounts);
            let h = hash::Hash(hash::spec_blake3(t.spec_encode()));
            &&& o.flow == FlowView::Continue && o.conn == c
            &&& o.core == (CoreView { peers: o.core.peers, pool: o.core.pool, ..v })
            &&& many ==> o.core.pool == v.pool && o.acts.len() == 0
            &&& !many ==> o.core.pool == mempool::after_offer(
                v.pool,
                t,
                group,
                v.chain.state.accounts,
                secs,
            )
            &&& !many && r == Ok::<Admission, Rejection>(Admission::Accepted) ==> {
                &&& o.acts.len() > 0
                &&& o.acts[0] == Act::Emit(EventView::TxReceived(h))
                &&& o.acts.drop_first() == relay::announced(
                    o.core.peers,
                    InvType::Tx,
                    h,
                    Some(c.key),
                    ms,
                )
            }
            &&& !many && r == Ok::<Admission, Rejection>(Admission::Duplicate) ==> o.acts.len() == 0
            &&& !many && r is Err ==> o.acts.len() == 1
            &&& !many && (r == Err::<Admission, Rejection>(Rejection::Coinbase) || r == Err::<
                Admission,
                Rejection,
            >(Rejection::BadSignature) || r == Err::<Admission, Rejection>(
                Rejection::UnfundedSender,
            )) ==> o.acts[0] is Reply && (had is Some ==> (o.core.peers.peer(c.key) matches Some(q)
                && q.score == had->0.after_bad(10, ms).score))
            &&& !many && (r == Err::<Admission, Rejection>(Rejection::SourceQuotaFull) || r == Err::<
                Admission,
                Rejection,
            >(Rejection::NonceTooLow) || r == Err::<Admission, Rejection>(Rejection::NonceTooHigh)
                || r == Err::<Admission, Rejection>(Rejection::InsufficientBalance) || r == Err::<
                Admission,
                Rejection,
            >(Rejection::Full)) ==> o.acts[0] is Emit && (had is Some ==> (o.core.peers.peer(
                c.key,
            ) matches Some(q) && q.score == had->0.score))
            &&& o.core.peers.peer(other) == v.peers.peer(other)
        }),
{
    tx::transaction_hash_names_the_transaction(t, t);
    let (peers, within) = relay::tx_charged(v.peers, c.key, ms);
    peer::lemma_place(v.peers.peers, c.key);
    if peer::place(v.peers.peers, c.key) is Some {
        let i = peer::place(v.peers.peers, c.key)->0;
        conduct::lemma_update_one(v.peers, i, v.peers.peers[i].after_transaction(ms), other);
    }
    manners::note_touches_one_peer(peers, c.key, Mark::Alive, ms, other);
    manners::note_touches_one_peer(peers, c.key, Mark::Bad(10), ms, other);
    let o = relay::after_tx(v, c, t, ms, secs);
    let r = mempool::verdict(
        v.pool,
        t,
        address::group_of(c.key.ip),
        v.chain.state.accounts,
    );
    if within && r == Ok::<Admission, Rejection>(Admission::Accepted) {
        let rest = relay::announced(o.core.peers, InvType::Tx, tx::tx_hash(t), Some(c.key), ms);
        assert(o.acts == seq![Act::Emit(EventView::TxReceived(tx::tx_hash(t)))] + rest);
        assert(o.acts.drop_first() =~= rest);
    }
}

// ---------------------------------------------------------------------------
// Inventory
// ---------------------------------------------------------------------------

/// Whether a node lacks a thing: a block that it has not stored, or a transaction
/// that no entry of the pool stands under.
pub open spec fn lacks<S: BlockSource>(pool: Entries, source: &S, e: InvEntry) -> bool {
    if e.inv_type == InvType::Block {
        source.block_under(e.hash) is None
    } else {
        forall|i: int| 0 <= i < pool.len() ==> (#[trigger] pool[i]).tx_hash != e.hash
    }
}

/// Of the first five hundred things that are announced, exactly those that the
/// node lacks are asked for, in one message.
pub proof fn announced_things_are_asked_for<S: BlockSource>(
    v: CoreView,
    c: Connection,
    s: Seq<InvEntry>,
    source: &S,
    e: InvEntry,
)
    ensures
        ({
            let o = relay::after_inv(v, c, s, source);
            let first = if s.len() <= 500 {
                s
            } else {
                s.subrange(0, 500)
            };
            let wanted = first.filter(relay::lacking(v.pool, source));
            &&& wanted.contains(e) <==> first.contains(e) && lacks(v.pool, source, e)
            &&& wanted.len() == 0 ==> o.acts.len() == 0
            &&& wanted.len() > 0 ==> o.acts == seq![
                Act::Reply(
                    MessageView {
                        msg_type: MessageType::GetData,
                        payload: inventory::inventory_bytes(wanted),
                    },
                ),
            ]
            &&& o.core == v && o.conn == c && o.flow == FlowView::Continue
        }),
{
    let first = relay::within_bounds(s);
    conduct::lemma_filter_contains(first, relay::lacking(v.pool, source), e);
    mempool::lemma_spot(v.pool, e.hash);
}

/// Serving one request after the other is serving both at once.
pub proof fn requests_are_served_one_by_one<S: BlockSource>(
    pool: Entries,
    a: Seq<InvEntry>,
    b: Seq<InvEntry>,
    source: &S,
)
    ensures
        ({
            let x = relay::served(pool, a, source);
            let y = relay::served(pool, b, source);
            let z = relay::served(pool, a + b, source);
            &&& z.replies == x.replies + y.replies
            &&& z.missing == x.missing + y.missing
        }),
    decreases b.len(),
{
    let x = relay::served(pool, a, source);
    if b.len() == 0 {
        assert(a + b =~= a);
        let y = relay::served(pool, b, source);
        assert(x.replies + y.replies =~= x.replies);
        assert(x.missing + y.missing =~= x.missing);
    } else {
        requests_are_served_one_by_one(pool, a, b.drop_last(), source);
        assert((a + b).drop_last() =~= a + b.drop_last());
        let y = relay::served(pool, b, source);
        let z = relay::served(pool, a + b, source);
        assert(z.replies =~= x.replies + y.replies);
        assert(z.missing =~= x.missing + y.missing);
    }
}

/// One thing that is asked for is sent if the node has it, as the block or the
/// transaction under that hash, and reported missing exactly if it lacks it.
pub proof fn one_thing_is_served<S: BlockSource>(pool: Entries, e: InvEntry, source: &S)
    ensures
        ({
            let d = relay::served(pool, seq![e], source);
            &&& lacks(pool, source, e) ==> d.replies.len() == 0 && d.missing == seq![e]
            &&& !lacks(pool, source, e) ==> d.missing.len() == 0 && d.replies.len() == 1
            &&& e.inv_type == InvType::Block ==> (source.block_under(e.hash) matches Some(b)
                ==> d.replies[0] == Act::Reply(
                MessageView { msg_type: MessageType::Block, payload: block::block_bytes(b) },
            ))
            &&& e.inv_type == InvType::Tx && !lacks(pool, source, e) ==> exists|i: int|
                0 <= i < pool.len() && (#[trigger] pool[i]).tx_hash == e.hash && d.replies[0]
                    == Act::Reply(
                    MessageView {
                        msg_type: MessageType::Tx,
                        payload: pool[i].tx.spec_encode(),
                    },
                )
        }),
{
    let s = seq![e];
    assert(s.drop_last() =~= Seq::<InvEntry>::empty());
    let none = relay::served(pool, s.drop_last(), source);
    assert(none.replies =~= Seq::<Act>::empty() && none.missing =~= Seq::<InvEntry>::empty());
    mempool::lemma_spot(pool, e.hash);
    let d = relay::served(pool, s, source);
    if e.inv_type == InvType::Tx && !lacks(pool, source, e) {
        let i = mempool::spot(pool, e.hash)->0;
        assert(pool[i].tx_hash == e.hash);
    }
    if lacks(pool, source, e) {
        assert(d.missing =~= seq![e]);
    }
}

/// A request is served as far as the peer's fifty entries a second go, and the
/// rest of its first five hundred waits until the second is over. What is missing
/// is reported in one message behind the rest.
pub proof fn request_is_served_within_the_budget<S: BlockSource>(
    v: CoreView,
    c: Connection,
    s: Seq<InvEntry>,
    source: &S,
    ms: u64,
)
    requires
        v.peers.wf(),
    ensures
        ({
            let o = relay::after_get_data(v, c, s, source, ms);
            let first = if s.len() <= 500 {
                s
            } else {
                s.subrange(0, 500)
            };
            let had = v.peers.peer(c.key);
            let left = if had is Some {
                had->0.getdata_left(ms) as int
            } else {
                first.len() as int
            };
            let n = if left < first.len() {
                left
            } else {
                first.len() as int
            };
            let d = relay::served(v.pool, first.subrange(0, n), source);
            &&& d.missing.len() == 0 ==> o.acts == d.replies
            &&& d.missing.len() > 0 ==> o.acts == d.replies.push(
                Act::Reply(
                    MessageView {
                        msg_type: MessageType::NotFound,
                        payload: inventory::inventory_bytes(d.missing),
                    },
                ),
            )
            &&& n == first.len() ==> o.flow == FlowView::Continue
            &&& n < first.len() ==> o.flow == FlowView::Later(
                first.subrange(n, first.len() as int),
                had->0.window_end(ms),
            )
            &&& had is None ==> o.core == v
            &&& had matches Some(p) ==> o.core.peers.peer(c.key) == Some(
                p.after_getdata(n as usize, ms),
            )
            &&& o.core == (CoreView { peers: o.core.peers, ..v }) && o.conn == c
        }),
{
    let first = relay::within_bounds(s);
    peer::lemma_place(v.peers.peers, c.key);
    let n = relay::covered(v.peers, c.key, first.len(), ms);
    let d = relay::served(v.pool, first.subrange(0, n as int), source);
    let o = relay::after_get_data(v, c, s, source, ms);
    if d.missing.len() == 0 {
        assert(o.acts =~= d.replies);
    } else {
        assert(o.acts =~= d.replies.push(
            Act::Reply(
                base::say(MessageType::NotFound, inventory::inventory_bytes(d.missing)),
            ),
        ));
    }
    if peer::place(v.peers.peers, c.key) is Some {
        let i = peer::place(v.peers.peers, c.key)->0;
        conduct::lemma_update_one(
            v.peers,
            i,
            v.peers.peers[i].after_getdata(n as usize, ms),
            c.key,
        );
    }
}

// ---------------------------------------------------------------------------
// Headers
// ---------------------------------------------------------------------------

/// A request for headers is answered with those above the one that it names.
pub proof fn header_request_is_answered(v: CoreView, c: Connection, m: GetHeadersMessage)
    ensures
        ({
            let o = relay::after_get_headers(v, c, m);
            &&& o.acts == seq![
                Act::Reply(
                    MessageView {
                        msg_type: MessageType::Headers,
                        payload: wire_headers::headers_payload(
                            v.headers.after(m.start_hash, m.stop_hash),
                        ),
                    },
                ),
            ]
            &&& o.core == v && o.conn == c && o.flow == FlowView::Continue
        }),
{
}

/// No headers from the peer that is being asked mean that we have caught up; from
/// another they mean nothing.
pub proof fn no_headers_end_the_asking<S: BlockSource>(
    v: CoreView,
    c: Connection,
    source: &S,
    ms: u64,
)
    ensures
        ({
            let o = relay::after_headers(v, c, Seq::empty(), source, ms);
            let asked = v.syncer.sync_peer == Some(c.key);
            &&& !asked ==> o.core == v && o.acts.len() == 0
            &&& asked ==> o.acts == seq![Act::Emit(EventView::SyncComplete)] && o.core.syncer.state
                == SyncState::CaughtUp && o.core.syncer.sync_peer is None
            &&& o.core == (CoreView { syncer: o.core.syncer, ..v })
            &&& o.conn == c && o.flow == FlowView::Continue
        }),
{
}

/// Whether the block behind a header is one that a node lacks, and what it is
/// asked for by.
pub open spec fn asked_for<S: BlockSource>(h: BlockHeader, source: &S, e: InvEntry) -> bool {
    &&& e.inv_type == InvType::Block
    &&& e.hash == block::header_hash(h)
    &&& source.block_under(e.hash) is None
}

/// Headers are taken up to the first bad one, and each that is taken is stored.
/// A bad one costs the peer twenty points and ends it there. Good ones are
/// followed by a request for the blocks behind them that are lacking, and one for
/// the headers above the new best.
pub proof fn headers_are_taken_stored_and_followed<S: BlockSource>(
    v: CoreView,
    c: Connection,
    hs: Seq<BlockHeader>,
    source: &S,
    ms: u64,
    other: NetAddr,
)
    requires
        v.peers.wf(),
        hs.len() > 0,
        other != c.key,
    ensures
        ({
            let o = relay::after_headers(v, c, hs, source, ms);
            let (w, n, fault) = crate::p2p::sync::absorbed(v.headers, hs);
            let had = v.peers.peer(c.key);
            let ask = Act::Reply(
                MessageView {
                    msg_type: MessageType::GetHeaders,
                    payload: (GetHeadersMessage {
                        start_hash: block::header_hash(w.headers[w.top]),
                        stop_hash: hash::zero_hash(),
                    }).spec_bytes(),
                },
            );
            let wanted = relay::missing_blocks(hs.subrange(0, n as int), source);
            let k = o.acts.len() as int;
            &&& n <= hs.len()
            &&& o.core.headers == w
            &&& o.core.syncer.best_height >= v.syncer.best_height
            &&& w.top > v.syncer.best_height ==> o.core.syncer.best_height == w.top
                && o.core.syncer.best_hash == block::header_hash(w.headers[w.top])
            &&& o.core.syncer.state == v.syncer.state && o.core.syncer.sync_peer
                == v.syncer.sync_peer
            &&& forall|i: int| 0 <= i < n ==> #[trigger] o.acts[i] == Act::StoreHeader(hs[i])
            &&& fault is Some ==> k == n + 1 && o.acts[n as int] is Emit && (had matches Some(p)
                ==> o.core.peers.peer(c.key) == Some(p.after_bad(20, ms)))
            &&& fault is None ==> n == hs.len() && o.acts[n as int] == Act::Emit(
                EventView::HeadersAccepted(n as usize),
            ) && o.acts[k - 1] == ask && o.core.peers == v.peers
            &&& fault is None && wanted.len() == 0 ==> k == n + 2
            &&& fault is None && wanted.len() > 0 ==> k == n + 3 && o.acts[k - 2] == Act::Reply(
                MessageView {
                    msg_type: MessageType::GetData,
                    payload: inventory::inventory_bytes(wanted),
                },
            )
            &&& o.core.peers.peer(other) == v.peers.peer(other)
            &&& o.core.chain == v.chain && o.core.pool == v.pool && o.core.orphans == v.orphans
            &&& o.conn == c && o.flow == FlowView::Continue
        }),
{
    lemma_absorbed_count(v.headers, hs);
    manners::note_touches_one_peer(v.peers, c.key, Mark::Bad(20), ms, other);
    let o = relay::after_headers(v, c, hs, source, ms);
    let (w, n, fault) = crate::p2p::sync::absorbed(v.headers, hs);
    let taken = hs.subrange(0, n as int);
    let wanted = relay::missing_blocks(taken, source);
    let front = relay::stores(taken);
    assert(front.len() == n);
    assert forall|i: int| 0 <= i < n implies #[trigger] o.acts[i] == Act::StoreHeader(hs[i]) by {
        assert(o.acts[i] == front[i]);
    }
}

proof fn lemma_absorbed_count(v: crate::p2p::sync::HeaderView, hs: Seq<BlockHeader>)
    ensures
        crate::p2p::sync::absorbed(v, hs).1 <= hs.len(),
        crate::p2p::sync::absorbed(v, hs).2 is None ==> crate::p2p::sync::absorbed(v, hs).1
            == hs.len(),
    decreases hs.len(),
{
    if hs.len() > 0 {
        lemma_absorbed_count(v, hs.drop_last());
    }
}

/// The blocks that are asked for behind headers are those that the node lacks, no
/// more than five hundred, and all of them if they are no more.
pub proof fn lacking_blocks_are_asked_for<S: BlockSource>(
    hs: Seq<BlockHeader>,
    source: &S,
    e: InvEntry,
)
    ensures
        ({
            let wanted = relay::missing_blocks(hs, source);
            let all = hs.filter(relay::blockless(source)).len();
            &&& wanted.contains(e) ==> exists|i: int|
                0 <= i < hs.len() && asked_for(#[trigger] hs[i], source, e)
            &&& all <= 500 && (exists|i: int|
                0 <= i < hs.len() && asked_for(#[trigger] hs[i], source, e)) ==> wanted.contains(e)
            &&& wanted.len() == if all <= 500 {
                all
            } else {
                500
            }
        }),
{
    let lacking = hs.filter(relay::blockless(source));
    let some = peer::upto(lacking, 500);
    let wanted = relay::missing_blocks(hs, source);
    if wanted.contains(e) {
        let k = choose|k: int| 0 <= k < wanted.len() && wanted[k] == e;
        let h = some[k];
        assert(lacking[k] == h);
        assert(lacking.contains(h));
        conduct::lemma_filter_contains(hs, relay::blockless(source), h);
        let i = choose|i: int| 0 <= i < hs.len() && hs[i] == h;
        assert(asked_for(hs[i], source, e));
    }
    if lacking.len() <= 500 && exists|i: int|
        0 <= i < hs.len() && asked_for(#[trigger] hs[i], source, e) {
        let i = choose|i: int| 0 <= i < hs.len() && asked_for(#[trigger] hs[i], source, e);
        conduct::lemma_filter_contains(hs, relay::blockless(source), hs[i]);
        assert(hs.contains(hs[i]));
        let k = choose|k: int| 0 <= k < lacking.len() && lacking[k] == hs[i];
        assert(wanted[k] == e);
    }
}

// ---------------------------------------------------------------------------
// Blocks
// ---------------------------------------------------------------------------

/// A block that arrives is passed over if it is stored or parked already. It is
/// connected if its parent is stored or is the tip, and otherwise parked while the
/// parent is asked for.
pub proof fn arriving_block_is_connected_or_parked<S: BlockSource>(
    v: CoreView,
    c: Connection,
    b: BlockView,
    source: &S,
)
    ensures
        ({
            let o = relay::after_block_message(v, c, b, source);
            let h = block::header_hash(b.header);
            let prev = b.header.previous_hash;
            let known = source.block_under(h) is Some || exists|i: int|
                0 <= i < v.orphans.len() && block::header_hash((#[trigger] v.orphans[i]).header)
                    == h;
            let fits = b.header.height.0 == 0 || source.block_under(prev) is Some || v.chain.tip.hash
                == prev;
            &&& known ==> o.core == v && o.acts.len() == 0 && o.flow == FlowView::Continue
            &&& !known && fits ==> o.core == v && o.acts.len() == 0 && o.flow == FlowView::Connect(b)
            &&& !known && !fits ==> {
                &&& o.core == (CoreView { orphans: o.core.orphans, ..v })
                &&& o.core.orphans.len() > 0 && o.core.orphans.last() == b
                &&& o.flow == FlowView::Continue
                &&& o.acts == seq![
                    Act::Reply(
                        MessageView {
                            msg_type: MessageType::GetData,
                            payload: inventory::inventory_bytes(
                                seq![InvEntry { inv_type: InvType::Block, hash: prev }],
                            ),
                        },
                    ),
                ]
            }
            &&& o.conn == c
        }),
{
}

/// A block that the chain refuses changes nothing but the parked blocks: it goes,
/// and the blocks that waited for it go with it.
pub proof fn refused_block_takes_its_children_along<S: BlockSource>(
    v: CoreView,
    b: BlockView,
    source: &S,
    from: Option<NetAddr>,
    ms: u64,
    secs: u64,
    x: BlockView,
)
    requires
        chain::offered(v.chain, b, source, secs).1 is Err,
    ensures
        ({
            let r = relay::connected(v, b, source, from, ms, secs);
            let h = block::header_hash(b.header);
            &&& r.core == (CoreView { orphans: r.core.orphans, ..v })
            &&& r.core.orphans.contains(x) <==> v.orphans.contains(x) && block::header_hash(
                x.header,
            ) != h && x.header.previous_hash != h
            &&& r.acts.len() == 1 && r.acts[0] is Emit
            &&& r.unblocked.len() == 0
        }),
{
    let h = block::header_hash(b.header);
    let s = v.orphans.filter(orphan::is_another(h));
    conduct::lemma_filter_contains(v.orphans, orphan::is_another(h), x);
    conduct::lemma_filter_contains(s, orphan::waits_for_another(h), x);
}

/// A block that the chain takes leaves the chain as fork choice has it. Its
/// transfers, and no others, leave the pool. The blocks that waited for it, and no
/// others, come next. It is stored and announced to everyone but its sender, and a
/// switch of chains is told of first.
pub proof fn taken_block_is_settled<S: BlockSource>(
    v: CoreView,
    b: BlockView,
    source: &S,
    from: Option<NetAddr>,
    ms: u64,
    secs: u64,
    x: BlockView,
    e: mempool::MempoolEntry,
)
    requires
        mempool::pool_wf(v.pool),
        v.chain.wf(),
        chain::offered(v.chain, b, source, secs).1 is Ok,
    ensures
        ({
            let (after, outcome) = chain::offered(v.chain, b, source, secs);
            let r = relay::connected(v, b, source, from, ms, secs);
            let h = block::header_hash(b.header);
            let told = seq![
                Act::StoreTip,
                Act::Emit(EventView::BlockReceived(h, after.tip.height.0)),
            ] + relay::announced(v.peers, InvType::Block, h, from, ms);
            &&& r.core.chain == after
            &&& r.core.headers == v.headers.followed(after)
            &&& r.core.peers == v.peers
            &&& r.core.pool.contains(e) <==> v.pool.contains(e) && (forall|i: int|
                1 <= i < b.txs.len() ==> e.tx_hash.0 != hash::spec_blake3(
                    (#[trigger] b.txs[i]).spec_encode(),
                ))
            &&& r.unblocked.contains(x) <==> v.orphans.contains(x) && x.header.previous_hash == h
            &&& r.core.orphans.contains(x) <==> v.orphans.contains(x) && x.header.previous_hash != h
            &&& outcome->Ok_0 matches BlockOutcome::Reorganized { depth } ==> r.acts == seq![
                Act::Emit(EventView::Reorganized { depth, new_tip: after.tip.hash }),
                Act::StoreActiveChain,
            ] + told
            &&& !(outcome->Ok_0 is Reorganized) ==> r.acts == told
        }),
{
    let (after, outcome) = chain::offered(v.chain, b, source, secs);
    let h = block::header_hash(b.header);
    conduct::lemma_filter_contains(v.orphans, orphan::waits_for(h), x);
    conduct::lemma_filter_contains(v.orphans, orphan::waits_for_another(h), x);
    lemma_transfers_leave(v.pool, b, e);
    let r = relay::connected(v, b, source, from, ms, secs);
    let told = seq![
        Act::StoreTip,
        Act::Emit(EventView::BlockReceived(h, after.tip.height.0)),
    ] + relay::announced(v.peers, InvType::Block, h, from, ms);
    match outcome->Ok_0 {
        BlockOutcome::Reorganized { depth } => {
            assert(r.acts =~= seq![
                Act::Emit(EventView::Reorganized { depth, new_tip: after.tip.hash }),
                Act::StoreActiveChain,
            ] + told);
        },
        _ => {
            assert(r.acts =~= told);
        },
    }
}

proof fn lemma_transfers_leave(pool: Entries, b: BlockView, e: mempool::MempoolEntry)
    requires
        mempool::pool_wf(pool),
    ensures
        mempool::all_removed(pool, relay::transfer_hashes(b)).contains(e) <==> pool.contains(e)
            && (forall|i: int|
            1 <= i < b.txs.len() ==> e.tx_hash.0 != hash::spec_blake3(
                (#[trigger] b.txs[i]).spec_encode(),
            )),
{
    let hashes = relay::transfer_hashes(b);
    mempool::removal_takes_out_just_those(pool, hashes, e.tx_hash);
    if hashes.contains(e.tx_hash) {
        let k = choose|k: int| 0 <= k < hashes.len() && hashes[k] == e.tx_hash;
        tx::transaction_hash_names_the_transaction(b.txs[k + 1], b.txs[k + 1]);
        assert(e.tx_hash.0 == hash::spec_blake3(b.txs[k + 1].spec_encode()));
    } else {
        assert forall|i: int| 1 <= i < b.txs.len() implies e.tx_hash.0 != hash::spec_blake3(
            (#[trigger] b.txs[i]).spec_encode(),
        ) by {
            tx::transaction_hash_names_the_transaction(b.txs[i], b.txs[i]);
            assert(hashes[i - 1] == tx::tx_hash(b.txs[i]));
            if e.tx_hash.0 == hash::spec_blake3(b.txs[i].spec_encode()) {
                assert(hashes[i - 1] == e.tx_hash);
            }
        }
    }
}

// ---------------------------------------------------------------------------
// Mining
// ---------------------------------------------------------------------------

/// The next block is planned on the tip, one above it, for the miner's own
/// address, and at the time that it is, unless the median of the last blocks asks
/// for a later one.
pub proof fn next_block_is_planned_on_the_tip(
    v: CoreView,
    miner: Address,
    bits: CompactTarget,
    secs: u64,
)
    requires
        v.chain.tip.height.0 < u32::MAX,
    ensures
        ({
            let x = mining::next_context(v, miner, bits, secs);
            let median = headers::median_before(
                v.chain.headers,
                (v.chain.tip.height.0 + 1) as u32,
            );
            &&& x.height.0 == v.chain.tip.height.0 + 1
            &&& x.previous_hash == v.chain.tip.hash
            &&& x.bits == bits
            &&& x.coinbase_recipient == miner
            &&& secs > median ==> x.timestamp == secs
            &&& secs <= median && median < u64::MAX ==> x.timestamp == median + 1
            &&& mining::due_median(v) == median
            &&& mining::due_bits(v) == crate::consensus::retarget::bits_for(
                x.height.0,
                v.chain.headers,
                v.chain.params,
            )
        }),
{
}

/// A mined block is given up if its time does not hold any more, and handed to the
/// chain otherwise. If the chain takes it, its transfers leave the pool and it is
/// stored, told of and announced to every ready peer. If not, nothing changes.
pub proof fn mined_block_is_handed_in(
    v: CoreView,
    b: BlockView,
    median: u64,
    ms: u64,
    secs: u64,
    e: mempool::MempoolEntry,
)
    requires
        mempool::pool_wf(v.pool),
    ensures
        ({
            let (w, acts, fate) = mining::submitted(v, b, median, ms, secs);
            let (after, outcome) = chain::offered(v.chain, b, &chain::NoBlockSource, secs);
            let holds = median < b.header.timestamp && b.header.timestamp <= secs + 20;
            let h = block::header_hash(b.header);
            &&& !holds <==> fate is Stale
            &&& holds && outcome is Err <==> fate is Refused
            &&& fate matches Fate::Refused(why) ==> outcome == Err::<BlockOutcome, Fault>(why)
            &&& holds && outcome is Ok <==> fate is Accepted
            &&& !(fate is Accepted) ==> w == v && acts.len() == 0
            &&& fate is Accepted ==> {
                &&& w.chain == after
                &&& w.headers == v.headers.followed(after)
                &&& w.peers == v.peers && w.orphans == v.orphans
                &&& w.pool.contains(e) <==> v.pool.contains(e) && (forall|i: int|
                    1 <= i < b.txs.len() ==> e.tx_hash.0 != hash::spec_blake3(
                        (#[trigger] b.txs[i]).spec_encode(),
                    ))
                &&& acts == seq![
                    Act::StoreTip,
                    Act::Emit(EventView::BlockMined(h, b.header.height.0)),
                ] + relay::announced(v.peers, InvType::Block, h, None, ms)
            }
        }),
{
    reveal(mining::put_to_chain);
    lemma_transfers_leave(v.pool, b, e);
}

// ---------------------------------------------------------------------------
// Words
// ---------------------------------------------------------------------------

/// A refusal is answered with what was refused, a code and the reason.
pub proof fn refusals_are_answered_in_words(why: Rejection)
    ensures
        base::obsolete_reply() == (MessageView {
            msg_type: MessageType::Reject,
            payload: reject::reject_bytes(
                vstd::utf8::encode_utf8("version"@),
                2,
                vstd::utf8::encode_utf8("obsolete protocol version"@),
            ),
        }),
        relay::tx_refusal(why) == (MessageView {
            msg_type: MessageType::Reject,
            payload: reject::reject_bytes(
                vstd::utf8::encode_utf8("tx"@),
                1,
                vstd::utf8::encode_utf8(why.words()),
            ),
        }),
{
}

/// What goes wrong is reported with its reason, and with who is to blame where a
/// peer is.
pub proof fn failures_are_reported_in_words<S: BlockSource>(
    v: CoreView,
    c: Connection,
    b: BlockView,
    hs: Seq<BlockHeader>,
    t: Transaction,
    source: &S,
    from: Option<NetAddr>,
    ms: u64,
    secs: u64,
    why: Fault,
)
    ensures
        chain::offered(v.chain, b, source, secs).1 matches Err(f) ==> relay::connected(
            v,
            b,
            source,
            from,
            ms,
            secs,
        ).acts[0] == Act::Emit(EventView::Error("block validation failed: "@ + f.words())),
        hs.len() > 0 && crate::p2p::sync::absorbed(v.headers, hs).2 is Some ==> relay::after_headers(
            v,
            c,
            hs,
            source,
            ms,
        ).acts.last() == Act::Emit(
            EventView::Error(
                "bad headers from "@ + net::addr_text(c.key) + ": "@
                    + (crate::p2p::sync::absorbed(v.headers, hs).2->0).words(),
            ),
        ),
        dispatch::after_bad_block(v, c, ms, why).acts == seq![
            Act::Emit(
                EventView::Error(
                    "block decode failed from "@ + net::addr_text(c.key) + ": "@ + why.words(),
                ),
            ),
        ],
        ({
            let o = relay::after_tx(v, c, t, ms, secs);
            let r = mempool::verdict(
                v.pool,
                t,
                address::group_of(c.key.ip),
                v.chain.state.accounts,
            );
            o.acts.len() == 1 && r is Err ==> o.acts[0] == Act::Reply(
                relay::tx_refusal(r->Err_0),
            ) || o.acts[0] == Act::Emit(
                EventView::Error("mempool rejected tx: "@ + (r->Err_0).words()),
            )
        }),
{
}

} // verus!
