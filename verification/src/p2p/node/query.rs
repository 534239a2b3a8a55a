//! Answering a client's questions about the chain.

use vstd::prelude::*;
use crate::block;
use crate::consensus::headers;
use crate::hash;
use crate::keymap;
use crate::p2p::node::base;
use crate::p2p::node::base::{Connection, CoreView, NodeCore, Outcome};
use crate::p2p::node::event;
use crate::p2p::node::event::{Act, Action, Flow, FlowView};
use crate::p2p::peer;
use crate::p2p::wire::frame::MessageView;
use crate::p2p::wire::lookup;
use crate::p2p::wire::{
    AccountMessage, ChainInfoMessage, GetAccountMessage, GetHistoryMessage,
    GetTransactionMessage, HistoryEntry, HistoryMessage, LookupStatus, Message, MessageType,
    TransactionAtMessage, MAX_HISTORY_ENTRIES,
};
use crate::state;
use crate::tx::Transaction;

verus! {

/// What the transaction index says of a transaction.
#[derive(Clone, Copy, Debug)]
pub enum TxLookup {
    /// This node does not keep the index.
    NotIndexed,
    NotFound,
    Found { block_hash: hash::Hash, height: u32, position: u32, transaction: Transaction },
}

/// What the transaction index says of an address.
#[derive(Debug)]
pub enum HistoryLookup {
    /// This node does not keep the index.
    NotIndexed,
    /// How many transactions there are, and the newest of them.
    Found { total: u32, entries: Vec<HistoryEntry> },
}

/// Where the chain stands.
pub open spec fn chain_info(v: CoreView) -> ChainInfoMessage {
    ChainInfoMessage {
        height: v.chain.tip.height.0,
        tip: v.chain.tip.hash,
        bits: v.chain.tip.header.bits.0,
        supply: v.chain.tip.supply,
    }
}

/// What the chain says of an account.
pub open spec fn account_info(v: CoreView, m: GetAccountMessage) -> AccountMessage {
    let a = state::account_at(v.chain.state.accounts, m.address.0.0);
    AccountMessage {
        address: m.address,
        exists: keymap::holds(v.chain.state.accounts, m.address.0.0),
        balance: a.balance,
        nonce: a.nonce,
    }
}

/// Whether a block is on the active chain at a height.
pub open spec fn is_active(v: CoreView, height: u32, block_hash: hash::Hash) -> bool {
    v.chain.headers.contains_key(height) && block::header_hash(v.chain.headers[height])
        == block_hash
}

/// The answer to where a transaction was mined, given what the index says.
pub open spec fn transaction_info(
    v: CoreView,
    tx_hash: hash::Hash,
    found: TxLookup,
) -> TransactionAtMessage {
    match found {
        TxLookup::NotIndexed => lookup::no_transaction(LookupStatus::NotIndexed),
        TxLookup::NotFound => lookup::no_transaction(LookupStatus::NotFound),
        TxLookup::Found { block_hash, height, position, transaction } => TransactionAtMessage {
            status: LookupStatus::Found,
            tx_hash,
            block_hash,
            height,
            position,
            on_active_chain: is_active(v, height, block_hash),
            transaction: Some(transaction),
        },
    }
}

/// How many entries are given for a wish.
pub open spec fn granted(limit: u32) -> u32 {
    if limit < MAX_HISTORY_ENTRIES {
        limit
    } else {
        MAX_HISTORY_ENTRIES
    }
}

/// The answer to what touched an address, given what the index says.
pub open spec fn history_info(limit: u32, found: HistoryLookup) -> MessageView {
    base::say(
        MessageType::History,
        match found {
            HistoryLookup::NotIndexed => seq![2u8],
            HistoryLookup::Found { total, entries } => lookup::history_bytes(
                total,
                peer::upto(entries@, granted(limit) as int),
            ),
        },
    )
}

/// What a question about the chain does.
pub open spec fn after_get_chain_info(v: CoreView, c: Connection) -> Outcome {
    Outcome {
        acts: seq![Act::Reply(base::say(MessageType::ChainInfo, chain_info(v).spec_bytes()))],
        ..base::ignored(v, c)
    }
}

/// What a question about an account does.
pub open spec fn after_get_account(v: CoreView, c: Connection, m: GetAccountMessage) -> Outcome {
    Outcome {
        acts: seq![Act::Reply(base::say(MessageType::Account, account_info(v, m).spec_bytes()))],
        ..base::ignored(v, c)
    }
}

/// What a question about a transaction does: the index is asked.
pub open spec fn after_get_transaction(
    v: CoreView,
    c: Connection,
    m: GetTransactionMessage,
) -> Outcome {
    Outcome { flow: FlowView::FindTransaction(m.tx_hash), ..base::ignored(v, c) }
}

/// What a question about an address does: the index is asked, for no more than
/// one answer may carry.
pub open spec fn after_get_history(v: CoreView, c: Connection, m: GetHistoryMessage) -> Outcome {
    Outcome { flow: FlowView::FindHistory(m.address, granted(m.limit)), ..base::ignored(v, c) }
}

/// How many entries are given for a wish.
pub fn clamp_history(limit: u32) -> (r: u32)
    ensures
        r == granted(limit),
{
    if limit < MAX_HISTORY_ENTRIES {
        limit
    } else {
        MAX_HISTORY_ENTRIES
    }
}

impl NodeCore {
    /// Answer a question about the chain.
    pub fn on_get_chain_info(&self, conn: &Connection) -> (r: (Vec<Action>, Flow))
        requires
            self.wf(),
        ensures
            ({
                let o = after_get_chain_info(self@, *conn);
                &&& self@ == o.core
                &&& event::acts(r.0@) == o.acts
                &&& r.1@ == o.flow
            }),
    {
        let mut out: Vec<Action> = Vec::new();
        let m = ChainInfoMessage {
            height: self.chain.tip.height.0,
            tip: self.chain.tip.hash,
            bits: self.chain.tip.header.bits.0,
            supply: self.chain.tip.supply,
        };
        event::add_action(
            &mut out,
            Action::Reply(Message::new(MessageType::ChainInfo, m.encode())),
        );
        assert(event::acts(out@) =~= after_get_chain_info(self@, *conn).acts);
        (out, Flow::Continue)
    }

    /// Answer a question about an account.
    pub fn on_get_account(&self, conn: &Connection, req: &GetAccountMessage) -> (r: (
        Vec<Action>,
        Flow,
    ))
        requires
            self.wf(),
        ensures
            ({
                let o = after_get_account(self@, *conn, *req);
                &&& self@ == o.core
                &&& event::acts(r.0@) == o.acts
                &&& r.1@ == o.flow
            }),
    {
        let mut out: Vec<Action> = Vec::new();
        let a = self.chain.state.get_account(&req.address);
        let m = AccountMessage {
            address: req.address,
            exists: self.chain.state.has_account(&req.address),
            balance: a.balance,
            nonce: a.nonce,
        };
        event::add_action(
            &mut out,
            Action::Reply(Message::new(MessageType::Account, m.encode())),
        );
        assert(event::acts(out@) =~= after_get_account(self@, *conn, *req).acts);
        (out, Flow::Continue)
    }

    /// Answer a question about a transaction, given what the index says.
    pub fn answer_transaction(&self, tx_hash: hash::Hash, found: &TxLookup) -> (r: Action)
        requires
            self.wf(),
        ensures
            r@ == Act::Reply(
                base::say(
                    MessageType::TransactionAt,
                    transaction_info(self@, tx_hash, *found).spec_bytes(),
                ),
            ),
    {
        let m = match found {
            TxLookup::NotIndexed => TransactionAtMessage::missing(LookupStatus::NotIndexed),
            TxLookup::NotFound => TransactionAtMessage::missing(LookupStatus::NotFound),
            TxLookup::Found { block_hash, height, position, transaction } => {
                let on_active_chain = match headers::header_at(&self.chain.headers, *height) {
                    Some(header) => header.hash() == *block_hash,
                    None => false,
                };
                TransactionAtMessage {
                    status: LookupStatus::Found,
                    tx_hash,
                    block_hash: *block_hash,
                    height: *height,
                    position: *position,
                    on_active_chain,
                    transaction: Some(*transaction),
                }
            },
        };
        Action::Reply(Message::new(MessageType::TransactionAt, m.encode()))
    }

    /// Answer a question about an address, given what the index says.
    pub fn answer_history(limit: u32, found: HistoryLookup) -> (r: Action)
        ensures
            r@ == Act::Reply(history_info(limit, found)),
    {
        let m = match found {
            HistoryLookup::NotIndexed => HistoryMessage::not_indexed(),
            HistoryLookup::Found { total, entries } => {
                let most = clamp_history(limit) as usize;
                let mut kept = entries;
                if kept.len() > most {
                    kept.truncate(most);
                }
                HistoryMessage { status: LookupStatus::Found, total, entries: kept }
            },
        };
        Action::Reply(Message::new(MessageType::History, m.encode()))
    }
}

/// The balance that is told of an account nobody has touched is zero, and so is
/// its nonce: what tells it from an emptied account is only whether it exists.
pub proof fn unknown_account_is_told_apart(v: CoreView, m: GetAccountMessage)
    requires
        !keymap::holds(v.chain.state.accounts, m.address.0.0),
    ensures
        !account_info(v, m).exists,
        account_info(v, m).balance == 0,
        account_info(v, m).nonce == 0,
{
    keymap::lemma_value_of(v.chain.state.accounts, m.address.0.0);
}

/// An answer carries no more entries than the limit for one answer, whatever is
/// asked for.
pub proof fn history_answers_are_bounded(limit: u32, entries: Seq<HistoryEntry>)
    ensures
        peer::upto(entries, granted(limit) as int).len() <= MAX_HISTORY_ENTRIES,
        peer::upto(entries, granted(limit) as int).len() <= limit,
{
}

} // verus!
