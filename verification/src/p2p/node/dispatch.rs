//! From the bytes of a message to what it does.

use vstd::prelude::*;
use crate::block;
use crate::block::{Block, BlockHeader, BlockView};
use crate::consensus::chain::BlockSource;
use crate::error;
use crate::error::{joined4, CoreError, Fault};
use crate::p2p::address::PeerAddress;
use crate::p2p::net;
use crate::p2p::node::base;
use crate::p2p::node::base::{Connection, CoreView, Mark, NodeCore, Outcome};
use crate::p2p::node::event;
use crate::p2p::node::event::{Act, Action, EventView, Flow, NodeEvent, P2pError};
use crate::p2p::node::gossip;
use crate::p2p::node::query;
use crate::p2p::node::relay;
use crate::p2p::wire::addr;
use crate::p2p::wire::control;
use crate::p2p::wire::frame::MessageView;
use crate::p2p::wire::headers;
use crate::p2p::wire::inventory;
use crate::p2p::wire::{
    AddrMessage, GetAccountMessage, GetDataMessage, GetHeadersMessage, GetHistoryMessage,
    GetTransactionMessage, HeadersMessage, InvEntry, InvMessage, Message, MessageType,
    PingMessage, VersionMessage, HEADER_SIZE,
};
use crate::serialize::{CanonicalDecode, CanonicalEncode};
use crate::tx;
use crate::tx::Transaction;

verus! {

/// A message that has been read.
#[derive(Debug)]
pub enum Body {
    Version(VersionMessage),
    VerAck,
    Ping(PingMessage),
    Pong(PingMessage),
    GetAddr,
    Addr(AddrMessage),
    GetHeaders(GetHeadersMessage),
    Headers(HeadersMessage),
    Inv(InvMessage),
    GetData(GetDataMessage),
    Tx(Transaction),
    Block(Block),
    GetChainInfo,
    GetAccount(GetAccountMessage),
    GetTransaction(GetTransactionMessage),
    GetHistory(GetHistoryMessage),
    /// What a node does not act on: an answer to a question it did not ask.
    Answer,
    /// A block that does not read.
    BadBlock(CoreError),
    /// Anything else that does not read.
    Unreadable(CoreError),
}

/// What a message says.
#[verifier::ext_equal]
pub enum Meaning {
    Version(VersionMessage),
    VerAck,
    Ping(PingMessage),
    Pong(PingMessage),
    GetAddr,
    Addr(Seq<PeerAddress>),
    GetHeaders(GetHeadersMessage),
    Headers(Seq<BlockHeader>),
    Inv(Seq<InvEntry>),
    GetData(Seq<InvEntry>),
    Tx(Transaction),
    Block(BlockView),
    GetChainInfo,
    GetAccount(GetAccountMessage),
    GetTransaction(GetTransactionMessage),
    GetHistory(GetHistoryMessage),
    Answer,
    BadBlock(Fault),
    Unreadable(Fault),
}

impl View for Body {
    type V = Meaning;

    open spec fn view(&self) -> Meaning {
        match *self {
            Body::Version(m) => Meaning::Version(m),
            Body::VerAck => Meaning::VerAck,
            Body::Ping(m) => Meaning::Ping(m),
            Body::Pong(m) => Meaning::Pong(m),
            Body::GetAddr => Meaning::GetAddr,
            Body::Addr(m) => Meaning::Addr(m.addrs@),
            Body::GetHeaders(m) => Meaning::GetHeaders(m),
            Body::Headers(m) => Meaning::Headers(m.headers@),
            Body::Inv(m) => Meaning::Inv(m.inventory@),
            Body::GetData(m) => Meaning::GetData(m.inventory@),
            Body::Tx(t) => Meaning::Tx(t),
            Body::Block(b) => Meaning::Block(b@),
            Body::GetChainInfo => Meaning::GetChainInfo,
            Body::GetAccount(m) => Meaning::GetAccount(m),
            Body::GetTransaction(m) => Meaning::GetTransaction(m),
            Body::GetHistory(m) => Meaning::GetHistory(m),
            Body::Answer => Meaning::Answer,
            Body::BadBlock(e) => Meaning::BadBlock(e.fault()),
            Body::Unreadable(e) => Meaning::Unreadable(e.fault()),
        }
    }
}

/// Whether some bytes are this inventory.
pub open spec fn is_inventory(data: Seq<u8>, s: Seq<InvEntry>) -> bool {
    inventory::inventory_decodable(data) && data == inventory::inventory_bytes(s) && s.len()
        <= u32::MAX
}

/// Whether a message of some type says this.
pub open spec fn says(m: MessageView, p: Meaning) -> bool {
    let data = m.payload;
    match m.msg_type {
        MessageType::Version => match p {
            Meaning::Version(x) => data.len() >= 34 && data.subrange(0, 34) == x.spec_bytes(),
            Meaning::Unreadable(f) => data.len() < 34 && f == error::malformed(
                "version: too short"@,
            ),
            _ => false,
        },
        MessageType::VerAck => p is VerAck,
        MessageType::Ping => match p {
            Meaning::Ping(x) => data == x.spec_bytes(),
            Meaning::Unreadable(f) => data.len() != 8 && f == control::other_size(
                "ping"@,
                8,
                data.len(),
            ),
            _ => false,
        },
        MessageType::Pong => match p {
            Meaning::Pong(x) => data == x.spec_bytes(),
            Meaning::Unreadable(f) => data.len() != 8 && f == control::other_size(
                "ping"@,
                8,
                data.len(),
            ),
            _ => false,
        },
        MessageType::GetAddr => p is GetAddr,
        MessageType::Addr => match p {
            Meaning::Addr(s) => addr::addr_denoted(data, s),
            Meaning::Unreadable(f) => f == addr::addr_fault(data) && forall|s: Seq<PeerAddress>|
                !#[trigger] addr::addr_denoted(data, s),
            _ => false,
        },
        MessageType::GetHeaders => match p {
            Meaning::GetHeaders(x) => data == x.spec_bytes(),
            Meaning::Unreadable(f) => data.len() != 64 && f == control::other_size(
                "getheaders"@,
                64,
                data.len(),
            ),
            _ => false,
        },
        MessageType::Headers => match p {
            Meaning::Headers(s) => headers::headers_decodable(data) && headers::headers_denoted(
                data,
                s,
            ),
            Meaning::Unreadable(f) => !headers::headers_decodable(data) && f
                == headers::headers_fault(data),
            _ => false,
        },
        MessageType::Inv => match p {
            Meaning::Inv(s) => is_inventory(data, s),
            Meaning::Unreadable(f) => !inventory::inventory_decodable(data) && f
                == inventory::inventory_fault("inv"@, data),
            _ => false,
        },
        MessageType::GetData => match p {
            Meaning::GetData(s) => is_inventory(data, s),
            Meaning::Unreadable(f) => !inventory::inventory_decodable(data) && f
                == inventory::inventory_fault("getdata"@, data),
            _ => false,
        },
        MessageType::Tx => match p {
            Meaning::Tx(t) => Transaction::decodable(data) && data == t.spec_encode(),
            Meaning::Unreadable(f) => !Transaction::decodable(data) && f
                == Transaction::decode_fault(data),
            _ => false,
        },
        MessageType::Block => match p {
            Meaning::Block(b) => block::block_decodable(data) && block::block_denotes(data, b),
            Meaning::BadBlock(f) => !block::block_decodable(data) && f == block::block_fault(data),
            _ => false,
        },
        MessageType::GetChainInfo => p is GetChainInfo,
        MessageType::GetAccount => match p {
            Meaning::GetAccount(x) => data == x.spec_bytes(),
            Meaning::Unreadable(f) => data.len() != 20 && f == crate::p2p::wire::query::wrong_size(
                "getaccount"@,
                20,
                data.len(),
            ),
            _ => false,
        },
        MessageType::GetTransaction => match p {
            Meaning::GetTransaction(x) => data == x.spec_bytes(),
            Meaning::Unreadable(f) => data.len() != 32 && f == crate::p2p::wire::query::wrong_size(
                "gettransaction"@,
                32,
                data.len(),
            ),
            _ => false,
        },
        MessageType::GetHistory => match p {
            Meaning::GetHistory(x) => data == x.spec_bytes(),
            Meaning::Unreadable(f) => data.len() != 24 && f == crate::p2p::wire::query::wrong_size(
                "gethistory"@,
                24,
                data.len(),
            ),
            _ => false,
        },
        MessageType::NotFound | MessageType::Reject | MessageType::ChainInfo
        | MessageType::Account | MessageType::TransactionAt | MessageType::History => p is Answer,
    }
}

/// What a message says.
pub open spec fn meaning(m: MessageView) -> Meaning {
    choose|p: Meaning| says(m, p)
}

/// A message says one thing only.
pub proof fn message_has_one_meaning(m: MessageView, p: Meaning, q: Meaning)
    requires
        says(m, p),
        says(m, q),
    ensures
        p == q,
        meaning(m) == p,
{
    lemma_one_meaning(m, p, q);
    lemma_one_meaning(m, p, meaning(m));
}

proof fn lemma_one_meaning(m: MessageView, p: Meaning, q: Meaning)
    requires
        says(m, p),
        says(m, q),
    ensures
        p == q,
{
    match (p, q) {
        (Meaning::Version(x), Meaning::Version(y)) => control::version_roundtrip(x, y),
        (Meaning::Ping(x), Meaning::Ping(y)) => control::ping_roundtrip(x, y),
        (Meaning::Pong(x), Meaning::Pong(y)) => control::ping_roundtrip(x, y),
        (Meaning::Addr(x), Meaning::Addr(y)) => addr::lemma_peers_injective(x, y),
        (Meaning::GetHeaders(x), Meaning::GetHeaders(y)) => inventory::get_headers_roundtrip(x, y),
        (Meaning::Headers(x), Meaning::Headers(y)) => headers::lemma_headers_injective(x, y),
        (Meaning::Inv(x), Meaning::Inv(y)) => inventory::inventory_roundtrip(x, y),
        (Meaning::GetData(x), Meaning::GetData(y)) => inventory::inventory_roundtrip(x, y),
        (Meaning::Tx(x), Meaning::Tx(y)) => tx::tx_encoding_injective(x, y),
        (Meaning::Block(x), Meaning::Block(y)) => {
            block::header_encoding_injective(x.header, y.header);
            block::tx_bytes_injective(x.txs, y.txs);
        },
        (Meaning::GetAccount(x), Meaning::GetAccount(y)) => {
            crate::p2p::wire::query::get_account_roundtrip(x, y);
        },
        (Meaning::GetTransaction(x), Meaning::GetTransaction(y)) => {
            crate::p2p::wire::query::get_transaction_roundtrip(x, y);
        },
        (Meaning::GetHistory(x), Meaning::GetHistory(y)) => {
            crate::p2p::wire::query::get_history_roundtrip(x, y);
        },
        _ => {
            lemma_readable(m, p);
            lemma_readable(m, q);
        },
    }
}

/// What reads is not unreadable.
proof fn lemma_readable(m: MessageView, p: Meaning)
    requires
        says(m, p),
    ensures
        !(p is Unreadable) && !(p is BadBlock) ==> forall|f: Fault|
            !says(m, Meaning::Unreadable(f)) && !says(m, Meaning::BadBlock(f)),
{
    match p {
        Meaning::Ping(x) => control::ping_roundtrip(x, x),
        Meaning::Pong(x) => control::ping_roundtrip(x, x),
        Meaning::GetHeaders(x) => inventory::get_headers_roundtrip(x, x),
        Meaning::GetAccount(x) => crate::p2p::wire::query::get_account_roundtrip(x, x),
        Meaning::GetTransaction(x) => crate::p2p::wire::query::get_transaction_roundtrip(x, x),
        Meaning::GetHistory(x) => crate::p2p::wire::query::get_history_roundtrip(x, x),
        _ => {},
    }
}

/// Read a message.
pub fn read_message(msg: &Message) -> (r: Body)
    ensures
        r@ == meaning(msg@),
        says(msg@, r@),
{
    let r = read_body(msg);
    proof {
        message_has_one_meaning(msg@, r@, r@);
    }
    r
}

fn read_body(msg: &Message) -> (r: Body)
    ensures
        says(msg@, r@),
{
    let data: &[u8] = msg.payload.as_slice();
    match msg.msg_type {
        MessageType::Version => match VersionMessage::decode(data) {
            Ok(m) => Body::Version(m),
            Err(e) => Body::Unreadable(e),
        },
        MessageType::VerAck => Body::VerAck,
        MessageType::Ping => match PingMessage::decode(data) {
            Ok(m) => Body::Ping(m),
            Err(e) => Body::Unreadable(e),
        },
        MessageType::Pong => match PingMessage::decode(data) {
            Ok(m) => Body::Pong(m),
            Err(e) => Body::Unreadable(e),
        },
        MessageType::GetAddr => Body::GetAddr,
        MessageType::Addr => match AddrMessage::decode(data) {
            Ok(m) => Body::Addr(m),
            Err(e) => Body::Unreadable(e),
        },
        MessageType::GetHeaders => match GetHeadersMessage::decode(data) {
            Ok(m) => Body::GetHeaders(m),
            Err(e) => Body::Unreadable(e),
        },
        MessageType::Headers => match HeadersMessage::decode(data) {
            Ok(m) => Body::Headers(m),
            Err(e) => Body::Unreadable(e),
        },
        MessageType::Inv => match InvMessage::decode(data) {
            Ok(m) => Body::Inv(m),
            Err(e) => Body::Unreadable(e),
        },
        MessageType::GetData => match GetDataMessage::decode(data) {
            Ok(m) => Body::GetData(m),
            Err(e) => Body::Unreadable(e),
        },
        MessageType::Tx => match Transaction::decode(data) {
            Ok(t) => Body::Tx(t),
            Err(e) => Body::Unreadable(e),
        },
        MessageType::Block => match Block::decode_block(data) {
            Ok(b) => Body::Block(b),
            Err(e) => Body::BadBlock(e),
        },
        MessageType::GetChainInfo => Body::GetChainInfo,
        MessageType::GetAccount => match GetAccountMessage::decode(data) {
            Ok(m) => Body::GetAccount(m),
            Err(e) => Body::Unreadable(e),
        },
        MessageType::GetTransaction => match GetTransactionMessage::decode(data) {
            Ok(m) => Body::GetTransaction(m),
            Err(e) => Body::Unreadable(e),
        },
        MessageType::GetHistory => match GetHistoryMessage::decode(data) {
            Ok(m) => Body::GetHistory(m),
            Err(e) => Body::Unreadable(e),
        },
        MessageType::NotFound | MessageType::Reject | MessageType::ChainInfo
        | MessageType::Account | MessageType::TransactionAt | MessageType::History => Body::Answer,
    }
}

/// What a block that does not read does: it counts against the peer, and is
/// reported.
pub open spec fn after_bad_block(
    v: CoreView,
    c: Connection,
    ms: u64,
    why: Fault,
) -> Outcome {
    Outcome {
        core: CoreView { peers: base::with_mark(v.peers, c.key, Mark::Bad(10), ms), ..v },
        acts: seq![
            Act::Emit(
                EventView::Error(
                    "block decode failed from "@ + net::addr_text(c.key) + ": "@
                        + why.words(),
                ),
            ),
        ],
        ..base::ignored(v, c)
    }
}

/// Whether a message is about peers.
pub open spec fn concerns_peers(p: Meaning) -> bool {
    p is Version || p is VerAck || p is Ping || p is Pong || p is GetAddr || p is Addr
}

/// Whether a message is about headers, blocks or transactions.
pub open spec fn concerns_data(p: Meaning) -> bool {
    p is GetHeaders || p is Headers || p is Inv || p is GetData || p is Tx || p is Block
}

fn about_peers(body: &Body) -> (r: bool)
    ensures
        r == concerns_peers(body@),
{
    match body {
        Body::Version(_) | Body::VerAck | Body::Ping(_) | Body::Pong(_) | Body::GetAddr
        | Body::Addr(_) => true,
        _ => false,
    }
}

fn about_data(body: &Body) -> (r: bool)
    ensures
        r == concerns_data(body@),
{
    match body {
        Body::GetHeaders(_) | Body::Headers(_) | Body::Inv(_) | Body::GetData(_) | Body::Tx(_)
        | Body::Block(_) => true,
        _ => false,
    }
}

/// What a message about peers does.
#[verifier::opaque]
pub open spec fn peers_acted(
    v: CoreView,
    c: Connection,
    p: Meaning,
    ms: u64,
    secs: u64,
) -> Outcome {
    match p {
        Meaning::Version(m) => base::after_version(v, c, m, ms, secs),
        Meaning::VerAck => base::after_verack(v, c, ms),
        Meaning::Ping(m) => base::after_ping(v, c, m, ms),
        Meaning::Pong(m) => base::after_pong(v, c, m, ms),
        Meaning::GetAddr => gossip::after_get_addr(v, c, ms),
        Meaning::Addr(s) => gossip::after_addr(v, c, s, ms),
        _ => base::ignored(v, c),
    }
}

/// What a message about headers, blocks or transactions does.
#[verifier::opaque]
pub open spec fn data_acted<S: BlockSource>(
    v: CoreView,
    c: Connection,
    p: Meaning,
    source: &S,
    ms: u64,
    secs: u64,
) -> Outcome {
    match p {
        Meaning::GetHeaders(m) => relay::after_get_headers(v, c, m),
        Meaning::Headers(s) => relay::after_headers(v, c, s, source, ms),
        Meaning::Inv(s) => relay::after_inv(v, c, s, source),
        Meaning::GetData(s) => relay::after_get_data(v, c, s, source, ms),
        Meaning::Tx(t) => relay::after_tx(v, c, t, ms, secs),
        Meaning::Block(b) => relay::after_block_message(v, c, b, source),
        _ => base::ignored(v, c),
    }
}

/// What any other message does: a question is answered, and what does not read
/// ends the connection or counts against the peer.
#[verifier::opaque]
pub open spec fn rest_acted(
    v: CoreView,
    c: Connection,
    p: Meaning,
    ms: u64,
) -> Outcome {
    match p {
        Meaning::GetChainInfo => query::after_get_chain_info(v, c),
        Meaning::GetAccount(m) => query::after_get_account(v, c, m),
        Meaning::GetTransaction(m) => query::after_get_transaction(v, c, m),
        Meaning::GetHistory(m) => query::after_get_history(v, c, m),
        Meaning::BadBlock(why) => after_bad_block(v, c, ms, why),
        Meaning::Unreadable(why) => base::failed(v, c, "protocol: "@ + why.words()),
        _ => base::ignored(v, c),
    }
}

/// What a message does, once it has been read.
pub open spec fn acted<S: BlockSource>(
    v: CoreView,
    c: Connection,
    p: Meaning,
    source: &S,
    ms: u64,
    secs: u64,
) -> Outcome {
    if concerns_peers(p) {
        peers_acted(v, c, p, ms, secs)
    } else if concerns_data(p) {
        data_acted(v, c, p, source, ms, secs)
    } else {
        rest_acted(v, c, p, ms)
    }
}

/// What a message does. The message and its bytes are charged to the peer
/// first: one that sends too many messages is cut off.
pub open spec fn handled<S: BlockSource>(
    v: CoreView,
    c: Connection,
    m: MessageView,
    source: &S,
    ms: u64,
    secs: u64,
) -> Outcome {
    let (peers, within) = base::charged(v.peers, c.key, base::wire_size(m.payload.len()), ms);
    let w = CoreView { peers, ..v };
    if within {
        acted(w, c, meaning(m), source, ms, secs)
    } else {
        base::failed(w, c, "protocol: "@ + "peer exceeded its rate limit"@)
    }
}

impl NodeCore {
    /// Handle one message of a connection. Gives what is to be done, and where
    /// the connection goes.
    pub fn handle_message<S: BlockSource>(
        &mut self,
        conn: &mut Connection,
        msg: &Message,
        source: &S,
        ms: u64,
        secs: u64,
    ) -> (r: (Vec<Action>, Flow))
        requires
            old(self).wf(),
        ensures
            final(self).wf(),
            ({
                let o = handled(old(self)@, *old(conn), msg@, source, ms, secs);
                &&& final(self)@ == o.core
                &&& *final(conn) == o.conn
                &&& event::acts(r.0@) == o.acts
                &&& r.1@ == o.flow
            }),
    {
        let body = read_message(msg);
        let size: usize = HEADER_SIZE.saturating_add(msg.payload.len());
        assert(size == base::wire_size(msg@.payload.len()));
        if !self.charge(&conn.key, size, ms) {
            let none: Vec<Action> = Vec::new();
            assert(event::acts(none@) =~= Seq::<Act>::empty());
            return (
                none,
                Flow::Fail(P2pError::Protocol("peer exceeded its rate limit".to_string())),
            );
        }
        self.act_on(conn, body, source, ms, secs)
    }

    /// Act on a message that has been read.
    pub fn act_on<S: BlockSource>(
        &mut self,
        conn: &mut Connection,
        body: Body,
        source: &S,
        ms: u64,
        secs: u64,
    ) -> (r: (Vec<Action>, Flow))
        requires
            old(self).wf(),
        ensures
            final(self).wf(),
            ({
                let o = acted(old(self)@, *old(conn), body@, source, ms, secs);
                &&& final(self)@ == o.core
                &&& *final(conn) == o.conn
                &&& event::acts(r.0@) == o.acts
                &&& r.1@ == o.flow
            }),
    {
        if about_peers(&body) {
            self.act_on_peers(conn, body, source, ms, secs)
        } else if about_data(&body) {
            self.act_on_data(conn, body, source, ms, secs)
        } else {
            self.act_on_questions(conn, body, source, ms, secs)
        }
    }

    /// Act on a message about peers.
    fn act_on_peers<S: BlockSource>(
        &mut self,
        conn: &mut Connection,
        body: Body,
        source: &S,
        ms: u64,
        secs: u64,
    ) -> (r: (Vec<Action>, Flow))
        requires
            old(self).wf(),
            concerns_peers(body@),
        ensures
            final(self).wf(),
            ({
                let o = acted(old(self)@, *old(conn), body@, source, ms, secs);
                &&& final(self)@ == o.core
                &&& *final(conn) == o.conn
                &&& event::acts(r.0@) == o.acts
                &&& r.1@ == o.flow
            }),
    {
        proof {
            reveal(peers_acted);
        }
        match body {
            Body::Version(m) => self.on_version(conn, &m, ms, secs),
            Body::VerAck => self.on_verack(conn, ms),
            Body::Ping(m) => self.on_ping(conn, &m, ms),
            Body::Pong(m) => self.on_pong(conn, &m, ms),
            Body::GetAddr => self.on_get_addr(conn, ms),
            Body::Addr(m) => self.on_addr(conn, &m, ms),
            _ => (Vec::new(), Flow::Continue),
        }
    }

    /// Act on a message about headers, blocks or transactions.
    fn act_on_data<S: BlockSource>(
        &mut self,
        conn: &mut Connection,
        body: Body,
        source: &S,
        ms: u64,
        secs: u64,
    ) -> (r: (Vec<Action>, Flow))
        requires
            old(self).wf(),
            concerns_data(body@),
        ensures
            final(self).wf(),
            ({
                let o = acted(old(self)@, *old(conn), body@, source, ms, secs);
                &&& final(self)@ == o.core
                &&& *final(conn) == o.conn
                &&& event::acts(r.0@) == o.acts
                &&& r.1@ == o.flow
            }),
    {
        proof {
            reveal(data_acted);
        }
        match body {
            Body::GetHeaders(m) => self.on_get_headers(conn, &m),
            Body::Headers(m) => self.on_headers(conn, &m, source, ms),
            Body::Inv(m) => self.on_inv(conn, &m, source),
            Body::GetData(m) => self.on_get_data(conn, &m, source, ms),
            Body::Tx(t) => self.on_tx(conn, &t, ms, secs),
            Body::Block(b) => self.on_block(conn, b, source),
            _ => (Vec::new(), Flow::Continue),
        }
    }

    /// Act on any other message.
    fn act_on_questions<S: BlockSource>(
        &mut self,
        conn: &mut Connection,
        body: Body,
        source: &S,
        ms: u64,
        secs: u64,
    ) -> (r: (Vec<Action>, Flow))
        requires
            old(self).wf(),
            !concerns_peers(body@),
            !concerns_data(body@),
        ensures
            final(self).wf(),
            ({
                let o = acted(old(self)@, *old(conn), body@, source, ms, secs);
                &&& final(self)@ == o.core
                &&& *final(conn) == o.conn
                &&& event::acts(r.0@) == o.acts
                &&& r.1@ == o.flow
            }),
    {
        proof {
            reveal(rest_acted);
        }
        let mut out: Vec<Action> = Vec::new();
        assert(event::acts(out@) =~= Seq::<Act>::empty());
        match body {
            Body::GetChainInfo => self.on_get_chain_info(conn),
            Body::GetAccount(m) => self.on_get_account(conn, &m),
            Body::GetTransaction(m) => (out, Flow::FindTransaction(m.tx_hash)),
            Body::GetHistory(m) => (
                out,
                Flow::FindHistory(m.address, query::clamp_history(m.limit)),
            ),
            Body::BadBlock(e) => {
                base::mark(&mut self.peers, &conn.key, Mark::Bad(10), ms);
                event::add_action(
                    &mut out,
                    Action::Emit(
                        NodeEvent::Error(
                            joined4(
                                "block decode failed from ",
                                conn.key.to_text().as_str(),
                                ": ",
                                e.message().as_str(),
                            ),
                        ),
                    ),
                );
                assert(event::acts(out@) =~= after_bad_block(
                    old(self)@,
                    *conn,
                    ms,
                    e.fault(),
                ).acts);
                (out, Flow::Continue)
            },
            Body::Unreadable(e) => (out, Flow::Fail(P2pError::from_core(&e))),
            _ => (out, Flow::Continue),
        }
    }
}

// ---------------------------------------------------------------------------
// Laws
// ---------------------------------------------------------------------------

/// A message changes nothing but what it is about: whatever is sent, the chain
/// stays as it is until a block has been stored and connected, and so do the
/// node's own identity and port.
pub proof fn messages_leave_the_chain_alone<S: BlockSource>(
    v: CoreView,
    c: Connection,
    m: MessageView,
    source: &S,
    ms: u64,
    secs: u64,
)
    ensures
        ({
            let o = handled(v, c, m, source, ms, secs);
            &&& o.core.chain == v.chain
            &&& o.core.identity_nonce == v.identity_nonce
            &&& o.core.listen_port == v.listen_port
        }),
{
    reveal(peers_acted);
    reveal(data_acted);
    reveal(rest_acted);
}

/// A peer that sends too many messages is cut off: its message does nothing
/// else.
pub proof fn flooding_peer_is_cut_off<S: BlockSource>(
    v: CoreView,
    c: Connection,
    m: MessageView,
    source: &S,
    ms: u64,
    secs: u64,
)
    requires
        !base::charged(v.peers, c.key, base::wire_size(m.payload.len()), ms).1,
    ensures
        ({
            let o = handled(v, c, m, source, ms, secs);
            &&& o.flow is Fail
            &&& o.acts.len() == 0
            &&& o.conn == c
            &&& o.core == (CoreView {
                peers: base::charged(v.peers, c.key, base::wire_size(m.payload.len()), ms).0,
                ..v
            })
        }),
{
}

} // verus!
