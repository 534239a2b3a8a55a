//! A node's part in mining: what to mine on, and what to do with what was
//! mined.

use vstd::prelude::*;
use crate::block;
use crate::block::{Block, BlockView};
use crate::consensus::chain;
use crate::consensus::chain::{BlockOutcome, ChainView, NoBlockSource};
use crate::consensus::headers;
use crate::consensus::miner;
use crate::consensus::miner::BlockAssemblyContext;
use crate::consensus::retarget;
use crate::constants::{MAX_BLOCK_SIZE, MAX_SUPPLY_UNITS};
use crate::error::{CoreError, Fault, Result};
use crate::hash;
use crate::p2p::mempool;
use crate::p2p::node::base::{CoreView, NodeCore};
use crate::p2p::node::event;
use crate::p2p::node::event::{Act, Action, EventView, NodeEvent};
use crate::p2p::node::relay;
use crate::p2p::wire::InvType;
use crate::state;
use crate::types::{Address, BlockHeight, CompactTarget};
use crate::u256;

verus! {

/// How many nonces are tried in one round.
pub const NONCES_PER_ROUND: u64 = 10_000_000;

/// A block to mine, and the median time it has to be past.
#[derive(Debug)]
pub struct MiningPlan {
    pub block: Block,
    pub median_time_past: u64,
}

/// Where the next block stands at a time: on top of the tip, with the target
/// that is due there.
pub open spec fn next_context(
    v: CoreView,
    miner: Address,
    bits: CompactTarget,
    secs: u64,
) -> BlockAssemblyContext {
    let height = (v.chain.tip.height.0 + 1) as u32;
    BlockAssemblyContext {
        height: BlockHeight(height),
        previous_hash: v.chain.tip.hash,
        timestamp: miner::next_timestamp(secs, headers::median_before(v.chain.headers, height)),
        bits,
        coinbase_recipient: miner,
    }
}

/// The bits that the next block must declare.
pub open spec fn due_bits(v: CoreView) -> std::result::Result<CompactTarget, Fault> {
    retarget::bits_for((v.chain.tip.height.0 + 1) as u32, v.chain.headers, v.chain.params)
}

/// The median time that the next block has to be past.
pub open spec fn due_median(v: CoreView) -> u64 {
    headers::median_before(v.chain.headers, (v.chain.tip.height.0 + 1) as u32)
}

/// What became of a mined block.
#[derive(Debug)]
pub enum Submission {
    /// The chain has taken it. It is to be stored.
    Accepted,
    /// Its timestamp no longer holds. Mining starts over.
    Stale,
    /// The chain refused it.
    Refused(CoreError),
}

/// What becomes of a mined block.
pub enum Fate {
    Accepted,
    Stale,
    Refused(Fault),
}

impl View for Submission {
    type V = Fate;

    open spec fn view(&self) -> Fate {
        match *self {
            Submission::Accepted => Fate::Accepted,
            Submission::Stale => Fate::Stale,
            Submission::Refused(e) => Fate::Refused(e.fault()),
        }
    }
}

/// What becomes of a chain, and of a mined block that is offered to it.
#[verifier::opaque]
pub open spec fn put_to_chain(v: ChainView, b: BlockView, secs: u64) -> (
    ChainView,
    std::result::Result<BlockOutcome, Fault>,
) {
    chain::offered(v, b, &NoBlockSource, secs)
}

/// What a mined block does. One whose timestamp has gone stale meanwhile is not
/// submitted. One that the chain takes leaves nothing of it in the pool, and is
/// announced to everyone, or it would never leave this node.
pub open spec fn submitted(v: CoreView, b: BlockView, median: u64, ms: u64, secs: u64) -> (
    CoreView,
    Seq<Act>,
    Fate,
) {
    let h = block::header_hash(b.header);
    let (chain, result) = put_to_chain(v.chain, b, secs);
    if !miner::timestamp_fits(b.header.timestamp, secs, median) {
        (v, Seq::empty(), Fate::Stale)
    } else if result is Err {
        (v, Seq::empty(), Fate::Refused(result->Err_0))
    } else {
        let w = CoreView { chain, ..v };
        (
            CoreView { orphans: v.orphans, ..relay::after_chain(w, b) },
            seq![
                Act::StoreTip,
                Act::Emit(EventView::BlockMined(h, b.header.height.0)),
            ] + relay::announced(v.peers, InvType::Block, h, None, ms),
            Fate::Accepted,
        )
    }
}

impl NodeCore {
    /// Assemble the next block from the pool. Whatever will not apply is left
    /// out, so a stale transaction costs a skip, not a block.
    pub fn plan_block(&self, miner: Address, secs: u64) -> (r: Result<MiningPlan>)
        requires
            self.wf(),
            self@.chain.tip.height.0 < u32::MAX,
        ensures
            match due_bits(self@) {
                Ok(bits) => match state::after_subsidy(self@.chain.state, miner.0.0) {
                    Ok(_) => {
                        &&& r matches Ok(p)
                        &&& miner::assembled(
                            p.block@,
                            next_context(self@, miner, bits, secs),
                            self@.pool.map_values(mempool::tx_of_entry()),
                            self@.chain.state,
                        )
                        &&& p.median_time_past == due_median(self@)
                    },
                    Err(k) => r matches Err(e) && e.fault() == k,
                },
                Err(k) => r matches Err(e) && e.fault() == k,
            },
    {
        let height: u32 = self.chain.tip.height.0 + 1;
        let median_time_past = self.chain.compute_median_time_past(height);
        let bits = match retarget::calculate_target_for_height_with(
            height,
            &self.chain.headers,
            &self.chain.params,
        ) {
            Ok(bits) => bits,
            Err(e) => {
                return Err(e);
            },
        };
        let ctx = BlockAssemblyContext {
            height: BlockHeight(height),
            previous_hash: self.chain.tip.hash,
            timestamp: miner::next_block_timestamp(secs, median_time_past),
            bits,
            coinbase_recipient: miner,
        };
        let candidates = self.pool.transactions();
        match miner::assemble_block(&ctx, &candidates, &self.chain.state) {
            Ok(block) => Ok(MiningPlan { block, median_time_past }),
            Err(e) => Err(e),
        }
    }

    /// Submit a mined block.
    pub fn submit_block(&mut self, block: &Block, median_time_past: u64, ms: u64, secs: u64) -> (r: (
        Vec<Action>,
        Submission,
    ))
        requires
            old(self).wf(),
        ensures
            final(self).wf(),
            ({
                let o = submitted(old(self)@, block@, median_time_past, ms, secs);
                &&& final(self)@ == o.0
                &&& event::acts(r.0@) == o.1
                &&& r.1@ == o.2
            }),
    {
        let mut out: Vec<Action> = Vec::new();
        assert(event::acts(out@) =~= Seq::<Act>::empty());
        // Mining can take a while: a stamp gone stale would be refused by our
        // own validation.
        if !miner::timestamp_is_valid(block.header.timestamp, secs, median_time_past) {
            return (out, Submission::Stale);
        }
        match self.offer(block, secs) {
            None => {
                self.mined(&mut out, block, ms);
                (out, Submission::Accepted)
            },
            Some(e) => (out, Submission::Refused(e)),
        }
    }

    /// Offer a mined block to the chain. Gives why it is not taken, if it is
    /// not; then nothing has changed.
    fn offer(&mut self, block: &Block, secs: u64) -> (r: Option<CoreError>)
        requires
            old(self).wf(),
        ensures
            final(self).wf(),
            ({
                let (chain, result) = put_to_chain(old(self)@.chain, block@, secs);
                match result {
                    Ok(_) => r is None && final(self)@ == (CoreView { chain, ..old(self)@ }),
                    Err(k) => (r matches Some(e) && e.fault() == k) && final(self)@ == old(self)@,
                }
            }),
    {
        proof {
            reveal(put_to_chain);
        }
        match self.chain.apply_block_at(block, &NoBlockSource, secs) {
            Ok(_) => None,
            Err(e) => Some(e),
        }
    }

    /// Follow up on a mined block that the chain has taken.
    fn mined(&mut self, out: &mut Vec<Action>, block: &Block, ms: u64)
        requires
            old(self).wf(),
            old(out)@.len() == 0,
        ensures
            final(self).wf(),
            final(self)@ == (CoreView {
                orphans: old(self)@.orphans,
                ..relay::after_chain(old(self)@, block@)
            }),
            event::acts(final(out)@) == seq![
                Act::StoreTip,
                Act::Emit(
                    EventView::BlockMined(
                        block::header_hash(block@.header),
                        block@.header.height.0,
                    ),
                ),
            ] + relay::announced(
                old(self)@.peers,
                InvType::Block,
                block::header_hash(block@.header),
                None,
                ms,
            ),
    {
        let h = block.hash();
        event::add_action(out, Action::StoreTip);
        self.took_block(block);
        event::add_action(out, Action::Emit(NodeEvent::BlockMined(h, block.header.height.0)));
        assert(event::acts(out@) =~= seq![
            Act::StoreTip,
            Act::Emit(EventView::BlockMined(h, block.header.height.0)),
        ]);
        self.announce(out, InvType::Block, h, None, ms);
    }
}

/// A planned block for which a nonce has been found is taken, and becomes the
/// tip: its target is the one that is due, at a retarget too. It has to be small
/// enough, not to be known yet, and to be submitted while its timestamp holds;
/// and the chain's work has to fit its number.
pub proof fn planned_block_is_taken(
    v: CoreView,
    b: BlockView,
    nonce: u64,
    miner: Address,
    planned: u64,
    ms: u64,
    secs: u64,
)
    requires
        v.chain.wf(),
        v.chain.tip.height.0 < u32::MAX,
        v.chain.state.supply <= MAX_SUPPLY_UNITS,
        due_bits(v) is Ok,
        state::after_subsidy(v.chain.state, miner.0.0) is Ok,
        miner::assembled(
            b,
            next_context(v, miner, due_bits(v)->Ok_0, planned),
            v.pool.map_values(mempool::tx_of_entry()),
            v.chain.state,
        ),
        ({
            let mined = BlockView { header: miner::with_nonce(b.header, nonce), ..b };
            &&& block::proves_work(v.chain.params.pow, mined.header)
            &&& block::block_bytes(mined).len() <= MAX_BLOCK_SIZE
            &&& chain::entry_of(v.chain.index, block::header_hash(mined.header)) is None
            &&& v.chain.tip.cumulative_work@ + chain::bits_work(b.header.bits.0)
                < u256::u256_limit()
            &&& miner::timestamp_fits(b.header.timestamp, secs, due_median(v))
        }),
    ensures
        ({
            let mined = BlockView { header: miner::with_nonce(b.header, nonce), ..b };
            let o = submitted(v, mined, due_median(v), ms, secs);
            &&& o.2 is Accepted
            &&& o.0.chain.tip.hash == block::header_hash(mined.header)
        }),
{
    reveal(put_to_chain);
    let mined = BlockView { header: miner::with_nonce(b.header, nonce), ..b };
    let height = (v.chain.tip.height.0 + 1) as u32;
    let tip = v.chain.tip;
    chain::lemma_branch(v.chain.index, tip.hash);
    let ctx = chain::context_for(v.chain.params, tip.supply, height, v.chain.headers, secs);
    assert(v.chain.headers.contains_key(tip.height.0));
    assert(v.chain.headers[tip.height.0] == tip.header);
    assert(ctx is Ok);
    block::lemma_work_fault(
        v.chain.params.pow,
        mined.header,
        "block hash does not meet target"@,
    );
    assert(block::header_fault(mined, ctx->Ok_0) is None);
    miner::assembled_block_is_valid(
        b,
        nonce,
        next_context(v, miner, due_bits(v)->Ok_0, planned),
        v.pool.map_values(mempool::tx_of_entry()),
        v.chain.state,
        ctx->Ok_0,
    );
}

/// A mined block that is not taken leaves the node as it was, and is told to
/// nobody.
pub proof fn refused_work_changes_nothing(
    v: CoreView,
    b: BlockView,
    median: u64,
    ms: u64,
    secs: u64,
)
    requires
        !(submitted(v, b, median, ms, secs).2 is Accepted),
    ensures
        submitted(v, b, median, ms, secs).0 == v,
        submitted(v, b, median, ms, secs).1.len() == 0,
{
}

} // verus!
