//! Nodes that talk to each other, without sockets in between.

use std::collections::HashMap;

use chroma::block::Block;
use chroma::consensus::chain::{now_secs, BlockSource, ChainState};
use chroma::consensus::genesis::build_genesis_block_with;
use chroma::consensus::miner::mine_block_with_limit;
use chroma::consensus::params::ChainParams;
use chroma::consensus::restore::PersistedTip;
use chroma::crypto::hash::hash160;
use chroma::crypto::noise::{NodeId, NoiseKey};
use chroma::crypto::schnorr::{PublicKey32, SecretKey32};
use chroma::hash;
use chroma::hash::Hash160;
use chroma::p2p::address::PeerAddress;
use chroma::p2p::net::{IpAddr, NetAddr};
use chroma::p2p::node::base::{rand_u64, random_address, Connection, NodeCore, PROTOCOL_VERSION};
use chroma::p2p::node::config::{check_start, NodeConfig, StartFault};
use chroma::p2p::node::event::{Action, Flow, NodeEvent, P2pError};
use chroma::p2p::node::mining::{Submission, NONCES_PER_ROUND};
use chroma::p2p::node::query::{HistoryLookup, TxLookup};
use chroma::p2p::node::stream::{FrameBuffer, MAX_BUFFERED};
use chroma::p2p::peer::{
    ConnectionSlot, PeerState, BYTE_RATE_LIMIT, GETDATA_RATE_LIMIT, MSG_RATE_LIMIT, TX_RATE_LIMIT,
};
use chroma::p2p::wire::{
    AccountMessage, AddrMessage, ChainInfoMessage, GetAccountMessage, GetDataMessage,
    GetHeadersMessage, GetHistoryMessage, GetTransactionMessage, HeadersMessage, HistoryEntry,
    HistoryMessage, InvEntry, InvMessage, InvType, LookupStatus, Message, MessageType, PingMessage,
    RejectMessage, TransactionAtMessage, VersionMessage, MAX_HISTORY_ENTRIES,
};
use chroma::serialize::CanonicalEncode;
use chroma::tx::Transaction;
use chroma::types::{Address, Amount, BlockHeight, Nonce};

/// Blocks kept in memory.
#[derive(Default)]
struct MemoryBlocks(HashMap<hash::Hash, Block>);

impl MemoryBlocks {
    fn put(&mut self, block: &Block) {
        self.0.insert(block.hash(), block.clone());
    }
}

impl BlockSource for MemoryBlocks {
    fn get_block(&self, hash: &hash::Hash) -> Option<Block> {
        self.0.get(hash).cloned()
    }
}

/// One end of a connection.
struct Side {
    core: NodeCore,
    blocks: MemoryBlocks,
    conn: Connection,
    events: Vec<NodeEvent>,
    dials: Vec<NetAddr>,
    open: bool,
    failed: bool,
    ms: u64,
}

fn addr(port: u16) -> NetAddr {
    NetAddr::new(IpAddr::V4([127, 0, 0, 1]), port)
}

fn fresh(nonce: u64, port: u16) -> NodeCore {
    NodeCore::new(ChainState::with_params(ChainParams::regtest()), nonce, port)
}

impl Side {
    fn new(core: NodeCore, conn: Connection) -> Side {
        let mut blocks = MemoryBlocks::default();
        blocks.put(&build_genesis_block_with(&ChainParams::regtest()));
        Side {
            core,
            blocks,
            conn,
            events: Vec::new(),
            dials: Vec::new(),
            open: true,
            failed: false,
            ms: 1_000_000,
        }
    }

    /// The side that dialed the node at a port.
    fn dialer(mut core: NodeCore, port: u16) -> Side {
        assert_eq!(
            core.peers.begin_connection_at(addr(port), false, 1_000_000),
            ConnectionSlot::Accepted
        );
        Side::new(core, Connection::new(addr(port), false))
    }

    /// The side that was dialed, from a port that nobody listens on.
    fn listener(core: NodeCore) -> Side {
        Side::new(core, Connection::new(addr(50_123), true))
    }

    /// Do what is to be done, and give what goes out on this connection.
    fn perform(&mut self, actions: Vec<Action>) -> Vec<Message> {
        let mut out = Vec::new();
        for action in actions {
            match action {
                Action::Reply(m) => out.push(m),
                Action::Send(to, m) => {
                    if to == self.conn.key {
                        out.push(m);
                    }
                }
                Action::Dial(to) => self.dials.push(to),
                Action::Emit(e) => self.events.push(e),
                _ => {}
            }
        }
        out
    }

    /// Handle one message, and give what goes out on this connection.
    fn deliver(&mut self, msg: &Message) -> Vec<Message> {
        let (actions, flow) =
            self.core.handle_message(&mut self.conn, msg, &self.blocks, self.ms, now_secs());
        let mut out = self.perform(actions);
        match flow {
            Flow::Continue => {}
            Flow::Close => self.open = false,
            Flow::Fail(_) => {
                self.open = false;
                self.failed = true;
            }
            Flow::Later(rest, at) => {
                let mut waiting = Some((rest, at));
                while let Some((inventory, at)) = waiting {
                    self.ms = at;
                    let req = GetDataMessage { inventory };
                    let (actions, flow) =
                        self.core.on_get_data(&self.conn, &req, &self.blocks, self.ms);
                    out.extend(self.perform(actions));
                    waiting = match flow {
                        Flow::Later(rest, at) => Some((rest, at)),
                        _ => None,
                    };
                }
            }
            Flow::Connect(block) => {
                let mut queue = vec![block];
                while let Some(candidate) = queue.pop() {
                    self.blocks.put(&candidate);
                    let (actions, unblocked) = self.core.connect_block(
                        &candidate,
                        &self.blocks,
                        Some(self.conn.key),
                        self.ms,
                        now_secs(),
                    );
                    out.extend(self.perform(actions));
                    queue.extend(unblocked);
                }
            }
            Flow::FindTransaction(h) => {
                let answer = self.core.answer_transaction(h, &TxLookup::NotIndexed);
                out.extend(self.perform(vec![answer]));
            }
            Flow::FindHistory(_, limit) => {
                let answer = NodeCore::answer_history(limit, HistoryLookup::NotIndexed);
                out.extend(self.perform(vec![answer]));
            }
        }
        out
    }

    fn state_of_peer(&self) -> Option<PeerState> {
        self.core.peers.get_peer(&self.conn.key).map(|p| p.state)
    }

    /// Mine one block and submit it.
    fn mine(&mut self, miner: Address) -> Vec<Message> {
        let secs = now_secs();
        let mut plan = self.core.plan_block(miner, secs).unwrap();
        mine_block_with_limit(&mut plan.block, NONCES_PER_ROUND).unwrap();
        let (actions, fate) =
            self.core.submit_block(&plan.block, plan.median_time_past, self.ms, secs);
        assert!(matches!(fate, Submission::Accepted), "{:?}", fate);
        self.blocks.put(&plan.block);
        self.perform(actions)
    }
}

/// Carry messages back and forth until both sides are quiet.
fn converse(a: &mut Side, b: &mut Side, to_b: Vec<Message>) {
    let mut for_a: Vec<Message> = Vec::new();
    let mut for_b = to_b;
    while !for_a.is_empty() || !for_b.is_empty() {
        for m in std::mem::take(&mut for_b) {
            b.ms += 10;
            for_a.extend(b.deliver(&m));
        }
        for m in std::mem::take(&mut for_a) {
            a.ms += 10;
            for_b.extend(a.deliver(&m));
        }
    }
}

fn greeting(side: &Side) -> Message {
    Message::new(MessageType::Version, side.core.version_message(now_secs()).encode())
}

/// Two nodes after their handshake; the first dialed the second.
fn connected(a: NodeCore, b: NodeCore, port: u16) -> (Side, Side) {
    let mut a = Side::dialer(a, port);
    let mut b = Side::listener(b);
    let hello = greeting(&a);
    converse(&mut a, &mut b, vec![hello]);
    (a, b)
}

/// A node, and a peer of it that has completed its handshake and is written
/// out by hand.
fn with_raw_peer() -> Side {
    let mut node = Side::listener(fresh(1, 9_000));
    let version = VersionMessage {
        version: PROTOCOL_VERSION,
        services: 0,
        timestamp: now_secs(),
        height: 0,
        nonce: 77,
        listen_port: 40_000,
    };
    let replies = node.deliver(&Message::new(MessageType::Version, version.encode()));
    assert_eq!(types(&replies), vec![MessageType::Version, MessageType::VerAck]);
    node.deliver(&Message::new(MessageType::VerAck, vec![]));
    assert_eq!(node.state_of_peer(), Some(PeerState::Ready));
    node
}

/// The text of the last event, which is an error.
fn last_error(side: &Side) -> String {
    match side.events.last() {
        Some(NodeEvent::Error(text)) => text.clone(),
        other => panic!("not an error: {:?}", other),
    }
}

fn types(messages: &[Message]) -> Vec<MessageType> {
    messages.iter().map(|m| m.msg_type).collect()
}

fn account(seed: u8) -> (SecretKey32, Address) {
    let secret = SecretKey32::from_bytes([seed; 32]).unwrap();
    let pubkey = PublicKey32::from_secret(&secret).unwrap();
    (secret, Address::from_hash160(Hash160(hash160(&pubkey.0))))
}

fn transfer(seed: u8, amount: u64, nonce: u64) -> Transaction {
    let (secret, sender) = account(seed);
    let to = Address::from_hash160(Hash160([0x99; 20]));
    chroma::tx::create_transaction(&secret, sender, to, Amount(amount), Nonce(nonce)).unwrap()
}

fn inv(inv_type: InvType, hash: hash::Hash) -> Vec<InvEntry> {
    vec![InvEntry { inv_type, hash }]
}

// ---------------------------------------------------------------------------
// Handshake
// ---------------------------------------------------------------------------

#[test]
fn two_nodes_complete_handshake() {
    let (a, b) = connected(fresh(1, 9_001), fresh(2, 9_002), 9_002);
    assert_eq!(a.state_of_peer(), Some(PeerState::Ready));
    assert_eq!(b.state_of_peer(), Some(PeerState::Ready));
    assert_eq!(b.conn.key, addr(9_001), "an inbound peer is known by the port it listens on");
    assert!(a.events.iter().any(|e| matches!(e, NodeEvent::PeerConnected(_))));
    assert!(b.events.iter().any(|e| matches!(e, NodeEvent::PeerConnected(_))));
}

#[test]
fn self_connection_is_dropped() {
    let (a, b) = connected(fresh(7, 9_001), fresh(7, 9_002), 9_002);
    assert!(!b.open);
    assert!(!b.failed, "it is no error");
    assert_ne!(a.state_of_peer(), Some(PeerState::Ready));
}

#[test]
fn duplicate_connection_is_refused() {
    let mut node = with_raw_peer();
    let mut again = Connection::new(addr(50_999), true);
    let version = VersionMessage {
        version: PROTOCOL_VERSION,
        services: 0,
        timestamp: now_secs(),
        height: 0,
        nonce: 78,
        listen_port: 40_000,
    };
    let (actions, flow) = node.core.handle_message(
        &mut again,
        &Message::new(MessageType::Version, version.encode()),
        &node.blocks,
        node.ms,
        now_secs(),
    );
    assert!(actions.is_empty());
    assert!(matches!(flow, Flow::Close));
    assert!(!again.keyed);

    // Turning it away must not tear down the live connection.
    let gone = node.core.finish_connection(&again);
    assert!(gone.is_empty());
    assert_eq!(node.state_of_peer(), Some(PeerState::Ready));

    let gone = node.core.finish_connection(&node.conn);
    assert!(matches!(gone[0], Action::Emit(NodeEvent::PeerDisconnected(_))));
    assert_eq!(node.state_of_peer(), Some(PeerState::Disconnected));
}

#[test]
fn obsolete_protocol_version_is_rejected() {
    let mut node = Side::listener(fresh(1, 9_000));
    let version = VersionMessage {
        version: 0,
        services: 0,
        timestamp: 1_700_000_000,
        height: 0,
        nonce: 0x1234_5678_9ABC_DEF0,
        listen_port: 40_020,
    };
    let replies = node.deliver(&Message::new(MessageType::Version, version.encode()));
    assert_eq!(types(&replies), vec![MessageType::Reject]);
    let reject = RejectMessage::decode(&replies[0].payload).unwrap();
    assert!(reject.reason.contains("version"), "unexpected reject reason: {}", reject.reason);
    assert!(!node.open);
}

#[test]
fn newer_peer_is_spoken_to_in_our_version() {
    let mut node = Side::listener(fresh(1, 9_000));
    let version = VersionMessage {
        version: PROTOCOL_VERSION + 5,
        services: 3,
        timestamp: 1_700_000_000,
        height: 12,
        nonce: 5,
        listen_port: 40_021,
    };
    node.deliver(&Message::new(MessageType::Version, version.encode()));
    let peer = node.core.peers.get_peer(&addr(40_021)).unwrap();
    assert_eq!(peer.version, PROTOCOL_VERSION);
    assert_eq!(peer.height, 12);
    assert_eq!(peer.state, PeerState::Handshaking);
}

#[test]
fn deadline_is_short_until_the_handshake_is_complete() {
    let young = Side::listener(fresh(1, 9_000));
    assert_eq!(young.core.read_deadline(&young.conn, 500, 9_000), (10_500, false));
    let node = with_raw_peer();
    assert_eq!(node.core.read_deadline(&node.conn, 500, 9_000), (39_000, true));
}

// ---------------------------------------------------------------------------
// Keeping connections alive
// ---------------------------------------------------------------------------

#[test]
fn ping_is_answered_and_pong_counts_once() {
    let mut node = with_raw_peer();
    let replies = node.deliver(&Message::new(MessageType::Ping, PingMessage { nonce: 9 }.encode()));
    assert_eq!(types(&replies), vec![MessageType::Pong]);
    assert_eq!(PingMessage::decode(&replies[0].payload).unwrap().nonce, 9);

    let actions = node.core.tick_with(&[42], node.ms);
    let pings = node.perform(actions);
    assert_eq!(types(&pings), vec![MessageType::Ping]);
    assert_eq!(PingMessage::decode(&pings[0].payload).unwrap().nonce, 42);

    // An outstanding ping is not followed by another.
    let actions = node.core.tick_with(&[43], node.ms);
    assert!(node.perform(actions).is_empty());

    let score = node.core.peers.get_peer(&node.conn.key).unwrap().score;
    node.deliver(&Message::new(MessageType::Pong, PingMessage { nonce: 41 }.encode()));
    assert_eq!(node.core.peers.get_peer(&node.conn.key).unwrap().score, score - 1);
    node.deliver(&Message::new(MessageType::Pong, PingMessage { nonce: 42 }.encode()));
    let peer = node.core.peers.get_peer(&node.conn.key).unwrap();
    assert_eq!(peer.last_ping_nonce, None);
}

#[test]
fn silent_peer_is_cut() {
    let mut node = with_raw_peer();
    let later = node.ms + 31_000;
    let actions = node.core.tick_with(&[1], later);
    assert!(actions.iter().any(|a| matches!(a, Action::Disconnect(to) if *to == addr(40_000))));
}

#[test]
fn message_flood_disconnects_the_peer() {
    let mut node = with_raw_peer();
    node.ms += 5_000;
    let ping = Message::new(MessageType::Ping, PingMessage { nonce: 1 }.encode());
    let mut answered = 0usize;
    while node.open {
        answered += node.deliver(&ping).len();
        assert!(answered <= MSG_RATE_LIMIT as usize);
    }
    assert!(node.failed);
    assert_eq!(answered, MSG_RATE_LIMIT as usize);
}

#[test]
fn unreadable_message_ends_the_connection() {
    let mut node = with_raw_peer();
    node.deliver(&Message::new(MessageType::Ping, vec![1, 2, 3]));
    assert!(node.failed);
}

#[test]
fn unreadable_block_counts_against_the_peer() {
    let mut node = with_raw_peer();
    let score = node.core.peers.get_peer(&node.conn.key).unwrap().score;
    node.deliver(&Message::new(MessageType::Block, vec![1, 2, 3]));
    assert!(node.open);
    assert_eq!(node.core.peers.get_peer(&node.conn.key).unwrap().score, score - 10);
    let said = last_error(&node);
    assert!(
        said.starts_with("block decode failed from 127.0.0.1:40000: serialization error: "),
        "{}",
        said
    );
}

#[test]
fn unasked_answers_are_ignored() {
    let mut node = with_raw_peer();
    for t in [
        MessageType::NotFound,
        MessageType::Reject,
        MessageType::ChainInfo,
        MessageType::Account,
        MessageType::TransactionAt,
        MessageType::History,
    ] {
        assert!(node.deliver(&Message::new(t, vec![0xFF; 3])).is_empty());
        assert!(node.open);
    }
}

#[test]
fn large_frame_does_not_drop_the_connection() {
    let payload = vec![0xAB; 300_000];
    let bytes = Message::new(MessageType::Block, payload.clone()).encode();
    let mut buffer = FrameBuffer::new();
    let mut seen = Vec::new();
    for chunk in bytes.chunks(16 * 1024) {
        buffer.feed(chunk).unwrap();
        while let Some(m) = buffer.next_message().unwrap() {
            seen.push(m);
        }
    }
    assert_eq!(seen.len(), 1);
    assert_eq!(seen[0].payload, payload);
}

#[test]
fn many_messages_share_one_connection() {
    let mut node = with_raw_peer();
    let mut bytes = Vec::new();
    for nonce in 0..50u64 {
        let ping = Message::new(MessageType::Ping, PingMessage { nonce }.encode());
        bytes.extend_from_slice(&ping.encode());
    }
    let mut buffer = FrameBuffer::new();
    let mut nonces = Vec::new();
    for chunk in bytes.chunks(7) {
        buffer.feed(chunk).unwrap();
        while let Some(m) = buffer.next_message().unwrap() {
            for reply in node.deliver(&m) {
                nonces.push(PingMessage::decode(&reply.payload).unwrap().nonce);
            }
        }
    }
    assert_eq!(nonces, (0..50u64).collect::<Vec<_>>());
}

#[test]
fn buffer_is_bounded() {
    let mut buffer = FrameBuffer::new();
    assert!(buffer.feed(&vec![0u8; MAX_BUFFERED]).is_ok());
    assert!(buffer.feed(&[0]).is_err());
}

#[test]
fn garbage_on_the_stream_is_an_error() {
    let mut buffer = FrameBuffer::new();
    buffer.feed(&[0xFF; 32]).unwrap();
    assert!(buffer.next_message().is_err());
}

// ---------------------------------------------------------------------------
// Transactions
// ---------------------------------------------------------------------------

#[test]
fn received_transaction_enters_mempool() {
    let mut node = with_raw_peer();
    let (_, sender) = account(0x31);
    node.mine(sender);
    let tx = transfer(0x31, 100, 0);
    node.deliver(&Message::new(MessageType::Tx, tx.encode()));
    assert!(node.core.pool.has_transaction(&tx.hash()));
    assert!(matches!(node.events.last(), Some(NodeEvent::TxReceived(h)) if *h == tx.hash()));

    // A second copy is not an error, and not worth announcing.
    let events = node.events.len();
    node.deliver(&Message::new(MessageType::Tx, tx.encode()));
    assert_eq!(node.core.pool.len(), 1);
    assert_eq!(node.events.len(), events);
}

#[test]
fn invalid_transaction_is_rejected() {
    let mut node = with_raw_peer();
    let (_, sender) = account(0x32);
    node.mine(sender);
    let mut tx = transfer(0x32, 100, 0);
    tx.signature.0[0] ^= 0xFF;
    let score = node.core.peers.get_peer(&node.conn.key).unwrap().score;
    let replies = node.deliver(&Message::new(MessageType::Tx, tx.encode()));
    assert_eq!(types(&replies), vec![MessageType::Reject]);
    let reject = RejectMessage::decode(&replies[0].payload).unwrap();
    assert_eq!(reject.message, "tx");
    assert_eq!(reject.code, 0x01);
    assert_eq!(reject.reason, "bad signature");
    assert!(node.core.pool.is_empty());
    assert_eq!(node.core.peers.get_peer(&node.conn.key).unwrap().score, score - 10);
}

#[test]
fn premature_transaction_is_not_held_against_the_peer() {
    let mut node = with_raw_peer();
    let (_, sender) = account(0x33);
    node.mine(sender);
    let score = node.core.peers.get_peer(&node.conn.key).unwrap().score;
    let replies = node.deliver(&Message::new(MessageType::Tx, transfer(0x33, 100, 5).encode()));
    assert!(replies.is_empty());
    assert_eq!(last_error(&node), "mempool rejected tx: nonce too high");
    assert_eq!(node.core.peers.get_peer(&node.conn.key).unwrap().score, score);
}

#[test]
fn transactions_past_the_limit_are_dropped() {
    let mut node = with_raw_peer();
    node.ms += 5_000;
    let tx = transfer(0x34, 100, 0);
    let mut answered = 0usize;
    for _ in 0..TX_RATE_LIMIT + 3 {
        answered += node.deliver(&Message::new(MessageType::Tx, tx.encode())).len();
    }
    assert_eq!(answered, TX_RATE_LIMIT as usize, "each within the limit is refused in words");
    assert!(node.open);
}

#[test]
fn transaction_reaches_a_peer_and_gets_mined() {
    let (mut a, mut b) = connected(fresh(1, 9_001), fresh(2, 9_002), 9_002);
    let (_, sender) = account(0x35);
    let news = a.mine(sender);
    converse(&mut a, &mut b, news);
    assert_eq!(b.core.chain.tip.hash, a.core.chain.tip.hash);

    // Submitted to the first node, announced, fetched and held by the second.
    let tx = transfer(0x35, 250, 0);
    let news = a.core.broadcast_transaction(tx.hash(), a.ms);
    a.core
        .pool
        .add_transaction(
            tx,
            chroma::p2p::address::AddressGroup::of(IpAddr::V4([127, 0, 0, 1])),
            &a.core.chain.state,
            now_secs(),
        )
        .unwrap();
    let news = a.perform(news);
    assert_eq!(types(&news), vec![MessageType::Inv]);
    converse(&mut a, &mut b, news);
    assert!(b.core.pool.has_transaction(&tx.hash()));

    // Mined by the second, and gone from both pools.
    let news = b.mine(random_address());
    converse(&mut b, &mut a, news);
    assert_eq!(a.core.chain.tip.hash, b.core.chain.tip.hash);
    assert!(a.core.pool.is_empty());
    assert!(b.core.pool.is_empty());
    let to = Address::from_hash160(Hash160([0x99; 20]));
    assert_eq!(a.core.chain.state.get_account(&to).balance, 250);
}

// ---------------------------------------------------------------------------
// Inventory, headers and blocks
// ---------------------------------------------------------------------------

#[test]
fn duplicate_announcement_is_not_re_requested() {
    let mut node = with_raw_peer();
    let genesis = build_genesis_block_with(&ChainParams::regtest()).hash();
    let known = InvMessage { inventory: inv(InvType::Block, genesis) };
    assert!(node.deliver(&Message::new(MessageType::Inv, known.encode())).is_empty());

    let unknown = InvMessage { inventory: inv(InvType::Block, hash::Hash::blake3(b"new")) };
    let replies = node.deliver(&Message::new(MessageType::Inv, unknown.encode()));
    assert_eq!(types(&replies), vec![MessageType::GetData]);
    let asked = GetDataMessage::decode(&replies[0].payload).unwrap();
    assert_eq!(asked.inventory, unknown.inventory);
}

#[test]
fn getdata_serves_blocks_and_reports_misses() {
    let mut node = with_raw_peer();
    let genesis = build_genesis_block_with(&ChainParams::regtest());
    let missing = hash::Hash::blake3(b"missing");
    let mut wanted = inv(InvType::Block, genesis.hash());
    wanted.extend(inv(InvType::Block, missing));
    wanted.extend(inv(InvType::Tx, missing));
    let req = GetDataMessage { inventory: wanted.clone() };
    let replies = node.deliver(&Message::new(MessageType::GetData, req.encode()));
    assert_eq!(types(&replies), vec![MessageType::Block, MessageType::NotFound]);
    assert_eq!(Block::decode_block(&replies[0].payload).unwrap().hash(), genesis.hash());
    let misses = InvMessage::decode(&replies[1].payload).unwrap();
    assert_eq!(misses.inventory, wanted[1..].to_vec());
}

#[test]
fn node_syncs_headers_from_a_longer_peer() {
    let mut long = Side::listener(fresh(2, 9_002));
    for _ in 0..4 {
        long.mine(random_address());
    }
    let mut short = Side::dialer(fresh(1, 9_001), 9_002);
    let hello = greeting(&short);
    converse(&mut short, &mut long, vec![hello]);
    assert_eq!(short.core.headers.height(), 4);
    assert!(short.events.iter().any(|e| matches!(e, NodeEvent::HeadersAccepted(4))));
    assert!(short.events.iter().any(|e| matches!(e, NodeEvent::SyncComplete)));
    assert!(!short.core.syncer.is_syncing());
}

#[test]
fn late_joining_node_downloads_history_in_order() {
    let mut long = Side::listener(fresh(2, 9_002));
    for _ in 0..6 {
        long.mine(random_address());
    }
    let mut short = Side::dialer(fresh(1, 9_001), 9_002);
    let hello = greeting(&short);
    converse(&mut short, &mut long, vec![hello]);
    assert_eq!(short.core.chain.tip.hash, long.core.chain.tip.hash);
    let heights: Vec<u32> = short
        .events
        .iter()
        .filter_map(|e| match e {
            NodeEvent::BlockReceived(_, height) => Some(*height),
            _ => None,
        })
        .collect();
    assert_eq!(heights, vec![1, 2, 3, 4, 5, 6], "parents come before children");
    assert_eq!(short.core.chain.state.total_supply(), 6_000_000);
}

#[test]
fn bad_headers_count_against_the_peer() {
    let mut node = with_raw_peer();
    let mut header = build_genesis_block_with(&ChainParams::regtest()).header;
    header.height.0 = 5;
    header.previous_hash = hash::Hash::blake3(b"nowhere");
    let score = node.core.peers.get_peer(&node.conn.key).unwrap().score;
    let replies = node.deliver(&Message::new(
        MessageType::Headers,
        HeadersMessage { headers: vec![header] }.encode(),
    ));
    assert!(replies.is_empty());
    assert_eq!(node.core.peers.get_peer(&node.conn.key).unwrap().score, score - 20);
    assert_eq!(node.core.headers.height(), 0);
}

#[test]
fn headers_are_served_after_a_known_one() {
    let mut node = with_raw_peer();
    for _ in 0..3 {
        node.mine(random_address());
    }
    let genesis = build_genesis_block_with(&ChainParams::regtest()).hash();
    let req = GetHeadersMessage { start_hash: genesis, stop_hash: hash::Hash::zero() };
    let replies = node.deliver(&Message::new(MessageType::GetHeaders, req.encode()));
    let headers = HeadersMessage::decode(&replies[0].payload).unwrap().headers;
    assert_eq!(headers.len(), 3);
    assert_eq!(headers[0].previous_hash, genesis);
    assert_eq!(headers[2].hash(), node.core.chain.tip.hash);
}

#[test]
fn mined_block_propagates_to_a_peer() {
    let (mut a, mut b) = connected(fresh(1, 9_001), fresh(2, 9_002), 9_002);
    let news = a.mine(random_address());
    assert_eq!(types(&news), vec![MessageType::Inv]);
    converse(&mut a, &mut b, news);
    assert_eq!(b.core.chain.tip.hash, a.core.chain.tip.hash);
    assert_eq!(b.core.chain.tip.height.0, 1);
    assert!(b.events.iter().any(|e| matches!(e, NodeEvent::BlockReceived(_, 1))));
}

#[test]
fn block_without_its_parent_is_parked_and_connected_later() {
    let mut source = Side::listener(fresh(2, 9_002));
    for _ in 0..3 {
        source.mine(random_address());
    }
    let blocks: Vec<Block> = (1..=3u32)
        .map(|h| source.blocks.get_block(&source.core.chain.headers[&h].hash()).unwrap())
        .collect();

    let mut node = with_raw_peer();
    for i in [2usize, 1] {
        let replies = node.deliver(&Message::new(MessageType::Block, blocks[i].encode_block()));
        assert_eq!(types(&replies), vec![MessageType::GetData], "the parent is asked for");
        let asked = GetDataMessage::decode(&replies[0].payload).unwrap();
        assert_eq!(asked.inventory, inv(InvType::Block, blocks[i - 1].hash()));
    }
    assert_eq!(node.core.orphans.len(), 2);
    // Offered again, a parked block does nothing.
    assert!(node.deliver(&Message::new(MessageType::Block, blocks[2].encode_block())).is_empty());

    node.deliver(&Message::new(MessageType::Block, blocks[0].encode_block()));
    assert_eq!(node.core.chain.tip.hash, blocks[2].hash());
    assert_eq!(node.core.orphans.len(), 0);
}

#[test]
fn refused_block_leaves_the_chain_alone() {
    let mut source = Side::listener(fresh(2, 9_002));
    source.mine(random_address());
    let tip = source.core.chain.tip.hash;
    let mut block = source.blocks.get_block(&tip).unwrap();
    block.header.state_root = hash::Hash::blake3(b"wrong");

    let mut node = with_raw_peer();
    node.deliver(&Message::new(MessageType::Block, block.encode_block()));
    assert_eq!(node.core.chain.tip.height.0, 0);
    let said = last_error(&node);
    assert!(said.starts_with("block validation failed: "), "{}", said);
}

#[test]
fn longer_branch_from_a_peer_wins() {
    let mut source = Side::listener(fresh(2, 9_002));
    for _ in 0..3 {
        source.mine(random_address());
    }
    let mut node = with_raw_peer();
    node.mine(random_address());
    for h in 1..=3u32 {
        let block =
            source.blocks.get_block(&source.core.chain.headers[&h].hash()).unwrap();
        node.deliver(&Message::new(MessageType::Block, block.encode_block()));
    }
    assert_eq!(node.core.chain.tip.hash, source.core.chain.tip.hash);
    assert!(node.events.iter().any(|e| matches!(e, NodeEvent::Reorganized { depth: 1, .. })));
    assert_eq!(node.core.headers.best_hash(), source.core.chain.tip.hash);
}

#[test]
fn stale_work_is_not_submitted() {
    let mut node = with_raw_peer();
    let secs = now_secs();
    let mut plan = node.core.plan_block(random_address(), secs).unwrap();
    plan.block.header.timestamp = secs + 10_000;
    mine_block_with_limit(&mut plan.block, NONCES_PER_ROUND).unwrap();
    let (actions, fate) =
        node.core.submit_block(&plan.block, plan.median_time_past, node.ms, secs);
    assert!(actions.is_empty());
    assert!(matches!(fate, Submission::Stale));

    let mut plan = node.core.plan_block(random_address(), secs).unwrap();
    plan.block.header.version = 9;
    let (actions, fate) =
        node.core.submit_block(&plan.block, plan.median_time_past, node.ms, secs);
    assert!(actions.is_empty());
    assert!(matches!(fate, Submission::Refused(_)));
    assert_eq!(node.core.chain.tip.height.0, 0);
}

// ---------------------------------------------------------------------------
// Gossip
// ---------------------------------------------------------------------------

fn identity(tag: u8, port: u16) -> PeerAddress {
    PeerAddress::new(NodeId::from_bytes([tag; 32]), NoiseKey::from_bytes([tag + 1; 32]), addr(port))
}

#[test]
fn getaddr_shares_only_verified_peers() {
    let mut node = with_raw_peer();
    // One we have only heard of, and the asker itself.
    node.core.peers.add_known_peer_at(identity(3, 40_001), node.ms);
    node.core.peers.add_known_peer_at(identity(5, 40_000), node.ms);
    let replies = node.deliver(&Message::new(MessageType::GetAddr, vec![]));
    assert_eq!(types(&replies), vec![MessageType::Addr]);
    assert!(AddrMessage::decode(&replies[0].payload).unwrap().addrs.is_empty());

    // One that a handshake was completed with.
    node.core.peers.get_peer_mut(&addr(40_001)).unwrap().handshaked = true;
    let replies = node.deliver(&Message::new(MessageType::GetAddr, vec![]));
    let told = AddrMessage::decode(&replies[0].payload).unwrap().addrs;
    assert_eq!(told, vec![identity(3, 40_001)]);
}

#[test]
fn peers_are_discovered_through_gossip() {
    let mut knows = fresh(2, 9_002);
    knows.peers.add_known_peer_at(identity(9, 9_009), 1_000_000);
    knows.peers.get_peer_mut(&addr(9_009)).unwrap().handshaked = true;
    let (a, _b) = connected(fresh(1, 9_001), knows, 9_002);
    assert!(a.core.peers.get_peer(&addr(9_009)).is_some());
    assert_eq!(a.dials, vec![addr(9_009)]);
}

// ---------------------------------------------------------------------------
// Questions
// ---------------------------------------------------------------------------

#[test]
fn chain_and_account_are_told() {
    let mut node = with_raw_peer();
    let (_, miner) = account(0x41);
    node.mine(miner);
    let replies = node.deliver(&Message::new(MessageType::GetChainInfo, vec![]));
    let info = ChainInfoMessage::decode(&replies[0].payload).unwrap();
    assert_eq!(info.height, 1);
    assert_eq!(info.tip, node.core.chain.tip.hash);
    assert_eq!(info.supply, 1_000_000);
    assert_eq!(info.bits, node.core.chain.tip.header.bits.0);

    let req = GetAccountMessage { address: miner };
    let replies = node.deliver(&Message::new(MessageType::GetAccount, req.encode()));
    let told = AccountMessage::decode(&replies[0].payload).unwrap();
    assert_eq!((told.exists, told.balance, told.nonce), (true, 1_000_000, 0));

    let req = GetAccountMessage { address: Address::from_hash160(Hash160([1; 20])) };
    let replies = node.deliver(&Message::new(MessageType::GetAccount, req.encode()));
    let told = AccountMessage::decode(&replies[0].payload).unwrap();
    assert_eq!((told.exists, told.balance, told.nonce), (false, 0, 0));
}

#[test]
fn transaction_is_told_with_its_place() {
    let mut node = with_raw_peer();
    node.mine(random_address());
    let tx = transfer(0x42, 5, 0);
    let req = GetTransactionMessage { tx_hash: tx.hash() };
    let replies = node.deliver(&Message::new(MessageType::GetTransaction, req.encode()));
    let told = TransactionAtMessage::decode(&replies[0].payload).unwrap();
    assert_eq!(told.status, LookupStatus::NotIndexed);

    for (height, active) in [(1u32, true), (0, false), (7, false)] {
        let found = TxLookup::Found {
            block_hash: node.core.chain.tip.hash,
            height,
            position: 1,
            transaction: tx,
        };
        let answer = node.core.answer_transaction(tx.hash(), &found);
        let told = TransactionAtMessage::decode(&node.perform(vec![answer])[0].payload).unwrap();
        assert_eq!(told.status, LookupStatus::Found);
        assert_eq!(told.on_active_chain, active);
        assert_eq!(told.transaction, Some(tx));
    }
    let answer = node.core.answer_transaction(tx.hash(), &TxLookup::NotFound);
    let told = TransactionAtMessage::decode(&node.perform(vec![answer])[0].payload).unwrap();
    assert_eq!(told.status, LookupStatus::NotFound);
}

#[test]
fn history_answers_are_clamped() {
    let mut node = with_raw_peer();
    let address = Address::from_hash160(Hash160([1; 20]));
    let req = GetHistoryMessage { address, limit: u32::MAX };
    let (_, flow) = node.core.handle_message(
        &mut node.conn,
        &Message::new(MessageType::GetHistory, req.encode()),
        &node.blocks,
        node.ms,
        now_secs(),
    );
    assert!(matches!(flow, Flow::FindHistory(a, n) if a == address && n == MAX_HISTORY_ENTRIES));

    let entries: Vec<HistoryEntry> = (0..5u32)
        .map(|i| HistoryEntry {
            tx_hash: hash::Hash::blake3(&i.to_le_bytes()),
            block_hash: hash::Hash::zero(),
            height: 9 - i,
            position: 0,
        })
        .collect();
    let answer =
        NodeCore::answer_history(2, HistoryLookup::Found { total: 5, entries: entries.clone() });
    let told = HistoryMessage::decode(&node.perform(vec![answer])[0].payload).unwrap();
    assert_eq!(told.total, 5);
    assert_eq!(told.entries, entries[..2].to_vec(), "the newest ones");
}

// ---------------------------------------------------------------------------
// Starting and stopping
// ---------------------------------------------------------------------------

#[test]
fn node_restart_restores_chain_and_balances() {
    let mut node = with_raw_peer();
    let (_, miner) = account(0x51);
    for _ in 0..5 {
        node.mine(miner);
    }
    let chain = &node.core.chain;
    let tip = PersistedTip::of(&chain.tip);
    let stored: Vec<_> = (1..=5u32).map(|h| chain.headers[&h]).collect();

    let back =
        ChainState::restore(ChainParams::regtest(), &tip, &stored, chain.state.clone()).unwrap();
    assert_eq!(back.tip.hash, chain.tip.hash);
    assert_eq!(back.tip.cumulative_work, chain.tip.cumulative_work);
    assert_eq!(back.tip.supply, 5_000_000);
    assert_eq!(back.headers, chain.headers);
    assert_eq!(back.state.get_account(&miner).balance, 5_000_000);
    assert!(back.index.contains_key(&stored[2].hash().0));

    // The chain goes on from there.
    let mut again = Side::listener(NodeCore::new(back, 3, 9_003));
    again.mine(miner);
    assert_eq!(again.core.chain.tip.height.0, 6);
}

#[test]
fn anything_that_does_not_line_up_is_not_restored() {
    let mut node = with_raw_peer();
    for _ in 0..3 {
        node.mine(random_address());
    }
    let chain = &node.core.chain;
    let params = ChainParams::regtest();
    let tip = PersistedTip::of(&chain.tip);
    let stored: Vec<_> = (1..=3u32).map(|h| chain.headers[&h]).collect();
    let restore = |tip: &PersistedTip, stored: &[chroma::block::BlockHeader]| {
        ChainState::restore(params, tip, stored, chain.state.clone()).is_some()
    };
    assert!(restore(&tip, &stored));
    assert!(!restore(&tip, &stored[..2]), "a header is missing");
    assert!(!restore(&PersistedTip { hash: hash::Hash::zero(), ..tip }, &stored), "another tip");
    let mut broken = stored.clone();
    broken[1].nonce ^= 1;
    assert!(!restore(&tip, &broken), "the headers do not link up");
    let state = chroma::state::State::new();
    assert!(
        ChainState::restore(params, &tip, &stored, state).is_none(),
        "the tip commits to another state"
    );
}

#[test]
fn replay_stops_at_the_first_bad_block() {
    let mut node = with_raw_peer();
    for _ in 0..4 {
        node.mine(random_address());
    }
    let mut blocks: Vec<Block> = (1..=4u32)
        .map(|h| node.blocks.get_block(&node.core.chain.headers[&h].hash()).unwrap())
        .collect();
    let mut whole = ChainState::with_params(ChainParams::regtest());
    whole.replay(&blocks, &node.blocks, now_secs());
    assert_eq!(whole.tip.hash, node.core.chain.tip.hash);

    blocks[2].header.state_root = hash::Hash::blake3(b"wrong");
    let mut part = ChainState::with_params(ChainParams::regtest());
    part.replay(&blocks, &node.blocks, now_secs());
    assert_eq!(part.tip.height.0, 2);
}

#[test]
fn test_node_config() {
    let genesis = hash::Hash::blake3(b"genesis");
    let config = NodeConfig::new(addr(8333), genesis);
    assert_eq!(config.listen_addr, addr(8333));
    assert_eq!(config.genesis_hash, genesis);
    assert!(config.connect_addrs.is_empty());
}

#[test]
fn config_is_built_up() {
    let params = ChainParams::regtest();
    let miner = Address::from_hash160(Hash160([4; 20]));
    let config = NodeConfig::new(addr(8333), hash::Hash::zero())
        .with_params(params)
        .with_data_dir("elsewhere".to_string())
        .with_connect_addrs(vec![addr(1), addr(2)])
        .with_mining(false)
        .with_miner_address(miner);
    assert_eq!(config.genesis_hash, build_genesis_block_with(&params).hash());
    assert_eq!(config.params, params);
    assert_eq!(config.data_dir, "elsewhere");
    assert_eq!(config.connect_addrs, vec![addr(1), addr(2)]);
    assert!(!config.mining_enabled);
    assert_eq!(config.miner_address, miner);
}

#[test]
fn start_is_refused_where_it_makes_no_sense() {
    assert_eq!(
        check_start(&ChainParams::mainnet(), false, true),
        Err(StartFault::NoProofOfWork)
    );
    assert_eq!(
        check_start(&ChainParams::regtest(), true, false),
        Err(StartFault::NoMinerAddress)
    );
    assert_eq!(check_start(&ChainParams::regtest(), true, true), Ok(()));
    assert_eq!(check_start(&ChainParams::regtest(), false, false), Ok(()));
}

#[test]
fn test_rand_u64() {
    let a = rand_u64();
    let b = rand_u64();
    assert_ne!(a, b);
}

#[test]
fn fresh_addresses_differ() {
    assert_ne!(random_address(), random_address());
}

#[test]
fn test_p2p_error_display() {
    let err = P2pError::Protocol("test".to_string());
    assert!(err.message().contains("test"));
    assert_eq!(err.message(), "protocol: test");
    assert_eq!(P2pError::Io("gone".to_string()).message(), "io: gone");
}

// ---------------------------------------------------------------------------
// Budgets
// ---------------------------------------------------------------------------

#[test]
fn requests_past_the_budget_wait_for_the_next_second() {
    let mut node = with_raw_peer();
    node.ms += 5_000;
    let genesis = node.core.chain.tip.hash;
    let most = GETDATA_RATE_LIMIT as usize;
    let entry = InvEntry { inv_type: InvType::Block, hash: genesis };
    let req = GetDataMessage { inventory: vec![entry; 2 * most + 20] };
    let start = node.ms;

    let (actions, flow) = node.core.on_get_data(&node.conn, &req, &node.blocks, start);
    assert_eq!(node.perform(actions).len(), most);
    let (rest, at) = match flow {
        Flow::Later(rest, at) => (rest, at),
        other => panic!("{:?}", other),
    };
    assert_eq!(rest.len(), most + 20);
    assert_eq!(at, start + 1_000);

    // Before that time nothing more is served.
    let again = GetDataMessage { inventory: rest };
    let (actions, flow) = node.core.on_get_data(&node.conn, &again, &node.blocks, start + 500);
    assert!(actions.is_empty());
    assert!(matches!(flow, Flow::Later(ref rest, at) if rest.len() == most + 20
        && at == start + 1_000));

    let (actions, flow) = node.core.on_get_data(&node.conn, &again, &node.blocks, at);
    assert_eq!(node.perform(actions).len(), most);
    let (rest, at) = match flow {
        Flow::Later(rest, at) => (rest, at),
        other => panic!("{:?}", other),
    };
    let last = GetDataMessage { inventory: rest };
    let (actions, flow) = node.core.on_get_data(&node.conn, &last, &node.blocks, at);
    assert_eq!(node.perform(actions).len(), 20);
    assert!(matches!(flow, Flow::Continue));
}

#[test]
fn large_request_is_served_in_full_over_time() {
    let mut node = with_raw_peer();
    node.ms += 5_000;
    let start = node.ms;
    let missing = InvEntry { inv_type: InvType::Tx, hash: hash::Hash::blake3(b"nothing") };
    let genesis = InvEntry { inv_type: InvType::Block, hash: node.core.chain.tip.hash };
    let mut inventory = vec![genesis; 100];
    inventory.push(missing);
    let replies =
        node.deliver(&Message::new(MessageType::GetData, GetDataMessage { inventory }.encode()));
    assert_eq!(replies.len(), 101);
    assert_eq!(replies[100].msg_type, MessageType::NotFound);
    assert_eq!(node.ms, start + 2_000);
}

#[test]
fn bytes_past_the_budget_are_paid_for_with_time() {
    let mut node = with_raw_peer();
    node.ms += 5_000;
    let start = node.ms;
    assert_eq!(node.core.read_after(&node.conn, start), start);
    let filler = Message::new(MessageType::NotFound, vec![0u8; BYTE_RATE_LIMIT - 13]);
    node.deliver(&filler);
    assert!(node.open);
    assert_eq!(node.core.read_after(&node.conn, start), start, "just within the budget");
    node.deliver(&filler);
    node.deliver(&filler);
    assert!(node.open, "it slows down, and is not cut off");
    assert_eq!(node.core.read_after(&node.conn, start), start + 3_000);
    assert_eq!(node.core.read_after(&node.conn, start + 1_000), start + 1_000, "a new second");
    // A peer that is not known yet is not limited.
    let young = Side::listener(fresh(1, 9_000));
    assert_eq!(young.core.read_after(&young.conn, 5), 5);
}

#[test]
fn bad_stream_counts_against_the_peer() {
    let mut node = with_raw_peer();
    let score = node.core.peers.get_peer(&node.conn.key).unwrap().score;
    node.core.on_bad_stream(&node.conn, node.ms);
    assert_eq!(node.core.peers.get_peer(&node.conn.key).unwrap().score, score - 20);
}

#[test]
fn bad_headers_are_reported_with_their_peer_and_reason() {
    let mut node = with_raw_peer();
    let mut header = build_genesis_block_with(&ChainParams::regtest()).header;
    header.previous_hash = header.hash();
    header.height = BlockHeight(1);
    header.timestamp += 10;
    // Half of all hashes meet the target: take one that does not.
    while header.hash().0[0] < 0x80 {
        header.nonce += 1;
    }
    let score = node.core.peers.get_peer(&node.conn.key).unwrap().score;
    node.deliver(&Message::new(
        MessageType::Headers,
        HeadersMessage { headers: vec![header] }.encode(),
    ));
    assert_eq!(
        last_error(&node),
        "bad headers from 127.0.0.1:40000: invalid proof of work: header does not meet its target"
    );
    assert_eq!(node.core.peers.get_peer(&node.conn.key).unwrap().score, score - 20);
}

#[test]
fn planned_block_carries_the_target_that_is_due() {
    let mut chain = ChainState::with_params(ChainParams::devnet());
    let genesis = chain.tip.header;
    for height in 1..=9u32 {
        let mut header = genesis;
        header.height = BlockHeight(height);
        header.timestamp += height as u64 * 5;
        chain.headers.insert(height, header);
        chain.tip.header = header;
        chain.tip.height = BlockHeight(height);
        chain.tip.hash = header.hash();
    }
    let node = NodeCore::new(chain, 1, 9_000);
    let plan = node.plan_block(random_address(), now_secs()).unwrap();
    // Blocks came twice as fast as they should: half the target, 0x7fff80.
    assert_eq!(plan.block.header.height.0, 10);
    assert_eq!(plan.block.header.bits.0, 0x1c7fff80);
}
