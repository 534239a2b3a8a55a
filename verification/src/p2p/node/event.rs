//! What a node tells the outside: errors, events, and what is to be done next.

use vstd::prelude::*;
use vstd::string::*;
use crate::block::{Block, BlockHeader, BlockView};
use crate::error::CoreError;
use crate::hash;
use crate::p2p::net::NetAddr;
use crate::p2p::wire::frame::MessageView;
use crate::p2p::wire::{InvEntry, Message};
use crate::types::Address;

verus! {

/// Why a connection ended badly.
#[derive(Debug)]
pub enum P2pError {
    Io(String),
    Protocol(String),
}

impl P2pError {
    /// The error in words.
    pub open spec fn words(&self) -> Seq<char> {
        match *self {
            P2pError::Io(t) => "io: "@ + t@,
            P2pError::Protocol(t) => "protocol: "@ + t@,
        }
    }

    /// The error in words.
    pub fn message(&self) -> (s: String)
        ensures
            s@ == self.words(),
    {
        match self {
            P2pError::Io(t) => {
                let mut s: String = "io: ".to_string();
                s.append(t.as_str());
                s
            },
            P2pError::Protocol(t) => {
                let mut s: String = "protocol: ".to_string();
                s.append(t.as_str());
                s
            },
        }
    }

    /// A protocol error that says what a core error says.
    pub fn from_core(e: &CoreError) -> (r: P2pError)
        ensures
            r.words() == "protocol: "@ + e.fault().words(),
    {
        P2pError::Protocol(e.message())
    }
}

/// Something that happened on a node.
#[derive(Debug)]
pub enum NodeEvent {
    PeerConnected(NetAddr),
    PeerDisconnected(NetAddr),
    BlockReceived(hash::Hash, u32),
    BlockMined(hash::Hash, u32),
    TxReceived(hash::Hash),
    /// Number of headers accepted from a peer in one batch.
    HeadersAccepted(usize),
    /// The active chain was replaced by one with more work.
    Reorganized { depth: u32, new_tip: hash::Hash },
    SyncComplete,
    Error(String),
}

/// An event, by what it says.
pub enum EventView {
    PeerConnected(NetAddr),
    PeerDisconnected(NetAddr),
    BlockReceived(hash::Hash, u32),
    BlockMined(hash::Hash, u32),
    TxReceived(hash::Hash),
    HeadersAccepted(usize),
    Reorganized { depth: u32, new_tip: hash::Hash },
    SyncComplete,
    Error(Seq<char>),
}

impl View for NodeEvent {
    type V = EventView;

    open spec fn view(&self) -> EventView {
        match *self {
            NodeEvent::PeerConnected(a) => EventView::PeerConnected(a),
            NodeEvent::PeerDisconnected(a) => EventView::PeerDisconnected(a),
            NodeEvent::BlockReceived(h, n) => EventView::BlockReceived(h, n),
            NodeEvent::BlockMined(h, n) => EventView::BlockMined(h, n),
            NodeEvent::TxReceived(h) => EventView::TxReceived(h),
            NodeEvent::HeadersAccepted(n) => EventView::HeadersAccepted(n),
            NodeEvent::Reorganized { depth, new_tip } => EventView::Reorganized { depth, new_tip },
            NodeEvent::SyncComplete => EventView::SyncComplete,
            NodeEvent::Error(t) => EventView::Error(t@),
        }
    }
}

/// What is to be done next, in this order.
#[derive(Debug)]
pub enum Action {
    /// Send a message on the connection at hand.
    Reply(Message),
    /// Send a message to a peer over its established connection.
    Send(NetAddr, Message),
    /// Open a connection.
    Dial(NetAddr),
    /// Close a connection.
    Disconnect(NetAddr),
    /// Put the connection's writer under an address.
    Plug(NetAddr),
    /// Store a header at its height.
    StoreHeader(BlockHeader),
    /// Store all headers of the active chain at their heights.
    StoreActiveChain,
    /// Store the tip and the account state, and flush.
    StoreTip,
    Emit(NodeEvent),
}

/// An action, by what it says.
pub enum Act {
    Reply(MessageView),
    Send(NetAddr, MessageView),
    Dial(NetAddr),
    Disconnect(NetAddr),
    Plug(NetAddr),
    StoreHeader(BlockHeader),
    StoreActiveChain,
    StoreTip,
    Emit(EventView),
}

impl View for Action {
    type V = Act;

    open spec fn view(&self) -> Act {
        match *self {
            Action::Reply(m) => Act::Reply(m@),
            Action::Send(a, m) => Act::Send(a, m@),
            Action::Dial(a) => Act::Dial(a),
            Action::Disconnect(a) => Act::Disconnect(a),
            Action::Plug(a) => Act::Plug(a),
            Action::StoreHeader(h) => Act::StoreHeader(h),
            Action::StoreActiveChain => Act::StoreActiveChain,
            Action::StoreTip => Act::StoreTip,
            Action::Emit(e) => Act::Emit(e@),
        }
    }
}

/// What some actions say.
pub open spec fn acts(s: Seq<Action>) -> Seq<Act> {
    Seq::new(s.len(), |i: int| s[i]@)
}

/// What some actions say with one more.
pub proof fn lemma_acts_push(s: Seq<Action>, a: Action)
    ensures
        acts(s.push(a)) == acts(s).push(a@),
{
    assert(acts(s.push(a)) =~= acts(s).push(a@));
}

/// Add an action.
pub fn add_action(out: &mut Vec<Action>, a: Action)
    ensures
        acts(final(out)@) == acts(old(out)@).push(a@),
{
    proof {
        lemma_acts_push(out@, a);
    }
    out.push(a);
}

/// Where a connection goes after a message.
#[derive(Debug)]
pub enum Flow {
    /// On to the next message.
    Continue,
    /// To its end, which is no error.
    Close,
    /// To its end, with an error.
    Fail(P2pError),
    /// On, but first with the rest of a request for blocks and transactions,
    /// not before this time.
    Later(Vec<InvEntry>, u64),
    /// On, after this block has been stored and connected.
    Connect(Block),
    /// On, after the index has been asked for a transaction.
    FindTransaction(hash::Hash),
    /// On, after the index has been asked for the newest transactions of an
    /// address.
    FindHistory(Address, u32),
}

/// Where a connection goes.
#[verifier::ext_equal]
pub enum FlowView {
    Continue,
    Close,
    /// With an error that says this.
    Fail(Seq<char>),
    Later(Seq<InvEntry>, u64),
    Connect(BlockView),
    FindTransaction(hash::Hash),
    FindHistory(Address, u32),
}

impl View for Flow {
    type V = FlowView;

    open spec fn view(&self) -> FlowView {
        match *self {
            Flow::Continue => FlowView::Continue,
            Flow::Close => FlowView::Close,
            Flow::Fail(e) => FlowView::Fail(e.words()),
            Flow::Later(rest, at) => FlowView::Later(rest@, at),
            Flow::Connect(b) => FlowView::Connect(b@),
            Flow::FindTransaction(h) => FlowView::FindTransaction(h),
            Flow::FindHistory(a, n) => FlowView::FindHistory(a, n),
        }
    }
}

} // verus!
