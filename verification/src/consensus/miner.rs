//! Block assembly and the search for proof of work.

use vstd::prelude::*;
use crate::block;
use crate::block::{Block, BlockHeader, BlockValidationContext, BlockView};
use crate::bytes;
use crate::constants::{
    BLOCK_REWARD_UNITS, MAX_FUTURE_TIMESTAMP_OFFSET, MAX_SUPPLY_UNITS,
    MAX_TXS_PER_SENDER_PER_BLOCK,
};
use crate::crypto::randomx;
use crate::crypto::randomx::PowAlgorithm;
use crate::error::{CoreError, ErrorKind, Fault, Result};
use crate::hash;
use crate::keymap;
use crate::keymap::KeyMap;
use crate::serialize::CanonicalEncode;
use crate::state;
use crate::state::{Accounts, State, StateView};
use crate::tx;
use crate::tx::Transaction;
use crate::types;
use crate::types::{Address, Amount, BlockHeight, CompactTarget};

verus! {

/// Maximum number of transactions to put in a block.
pub const MAX_BLOCK_TXS: usize = 10_000;

/// The timestamp for the next block.
pub open spec fn next_timestamp(now: u64, median: u64) -> u64 {
    if now > median || now == u64::MAX {
        now
    } else if median == u64::MAX {
        median
    } else {
        (median + 1) as u64
    }
}

/// Whether validation takes a timestamp at a time.
pub open spec fn timestamp_fits(timestamp: u64, now: u64, median: u64) -> bool {
    median < timestamp <= now + MAX_FUTURE_TIMESTAMP_OFFSET
}

/// Choose a timestamp for the next block: the time it is, unless that is not
/// past the median.
pub fn next_block_timestamp(now: u64, median_time_past: u64) -> (r: u64)
    ensures
        r == next_timestamp(now, median_time_past),
{
    let floor: u64 = if median_time_past == u64::MAX {
        u64::MAX
    } else {
        median_time_past + 1
    };
    if now > floor {
        now
    } else {
        floor
    }
}

/// Whether `timestamp` is still acceptable to validation at time `now`.
pub fn timestamp_is_valid(timestamp: u64, now: u64, median_time_past: u64) -> (r: bool)
    ensures
        r == timestamp_fits(timestamp, now, median_time_past),
{
    timestamp > median_time_past && (timestamp <= now || timestamp - now
        <= MAX_FUTURE_TIMESTAMP_OFFSET as u64)
}

/// The timestamp chosen for the next block is one that validation takes,
/// unless the median is so far ahead that there is none.
pub proof fn chosen_timestamp_is_valid(now: u64, median: u64)
    requires
        exists|t: u64| timestamp_fits(t, now, median),
    ensures
        timestamp_fits(next_timestamp(now, median), now, median),
{
}

/// Block assembly context needed for mining.
#[derive(Clone, Copy, Debug)]
pub struct BlockAssemblyContext {
    pub height: BlockHeight,
    pub previous_hash: hash::Hash,
    /// Timestamp to stamp on the block. The caller picks one that validation
    /// will accept.
    pub timestamp: u64,
    pub bits: CompactTarget,
    pub coinbase_recipient: Address,
}

/// Whether a transfer can be next after some others are taken.
pub open spec fn takes(accounts: Accounts, taken: Seq<Transaction>, t: Transaction) -> bool {
    &&& !tx::is_coinbase_tx(t)
    &&& tx::signed(t)
    &&& block::sent_by(taken, tx::sender_of(t)) < MAX_TXS_PER_SENDER_PER_BLOCK
    &&& state::after_transfer(
        accounts,
        tx::sender_of(t),
        t.recipient.0.0,
        t.amount.0,
        t.nonce.0,
    ) is Ok
}

/// The transfers taken from a pool in its order, each if it can be next, and
/// the accounts after them.
pub open spec fn selected(accounts: Accounts, pool: Seq<Transaction>) -> (
    Accounts,
    Seq<Transaction>,
)
    decreases pool.len(),
{
    if pool.len() == 0 {
        (accounts, Seq::empty())
    } else {
        let (a, taken) = selected(accounts, pool.drop_last());
        let t = pool.last();
        if takes(a, taken, t) {
            (
                state::after_transfer(
                    a,
                    tx::sender_of(t),
                    t.recipient.0.0,
                    t.amount.0,
                    t.nonce.0,
                )->Ok_0,
                taken.push(t),
            )
        } else {
            (a, taken)
        }
    }
}

/// The part of a pool that assembly looks at.
pub open spec fn budgeted(pool: Seq<Transaction>) -> Seq<Transaction> {
    pool.subrange(
        0,
        if pool.len() < MAX_BLOCK_TXS {
            pool.len() as int
        } else {
            MAX_BLOCK_TXS - 1
        },
    )
}

/// Whether a block is the one assembled on top of a state.
pub open spec fn assembled(
    b: BlockView,
    ctx: BlockAssemblyContext,
    pool: Seq<Transaction>,
    s: StateView,
) -> bool {
    let paid = state::after_subsidy(s, ctx.coinbase_recipient.0.0)->Ok_0;
    let (accounts, taken) = selected(paid.accounts, budgeted(pool));
    &&& b.txs.len() == taken.len() + 1
    &&& tx::is_coinbase_tx(b.txs[0])
    &&& b.txs[0].recipient == ctx.coinbase_recipient
    &&& b.txs[0].amount.0 == BLOCK_REWARD_UNITS
    &&& b.txs[0].nonce.0 == 0
    &&& b.txs[0].signature.0@ == bytes::zeros(64)
    &&& b.txs.subrange(1, b.txs.len() as int) == taken
    &&& b.header == (BlockHeader {
        version: 1,
        previous_hash: ctx.previous_hash,
        state_root: state::state_root(accounts),
        tx_merkle_root: block::tx_root(b.txs),
        timestamp: ctx.timestamp,
        bits: ctx.bits,
        height: ctx.height,
        nonce: 0,
    })
}

/// Assemble a new block from pool transactions.
///
/// Creates the coinbase, takes the transactions that apply on top of
/// `parent_state`, and records the state root after them. Does not search for
/// a nonce.
pub fn assemble_block(
    ctx: &BlockAssemblyContext,
    mempool_txs: &[Transaction],
    parent_state: &State,
) -> (r: Result<Block>)
    ensures
        match state::after_subsidy(parent_state@, ctx.coinbase_recipient.0.0) {
            Ok(_) => r matches Ok(b) && assembled(b@, *ctx, mempool_txs@, parent_state@),
            Err(k) => r matches Err(e) && e.fault() == k,
        },
{
    let coinbase = Transaction::coinbase(ctx.coinbase_recipient, Amount(BLOCK_REWARD_UNITS));
    // Apply to a scratch copy in the same order validation will.
    let mut working = parent_state.clone();
    match working.apply_subsidy(&ctx.coinbase_recipient, ctx.height.0) {
        Ok(_) => {},
        Err(e) => {
            return Err(e);
        },
    }
    let ghost paid = working@;
    let mut transactions: Vec<Transaction> = Vec::new();
    transactions.push(coinbase);
    let mut counts: KeyMap<20, u32> = KeyMap::new();
    let limit: usize = if mempool_txs.len() < MAX_BLOCK_TXS {
        mempool_txs.len()
    } else {
        MAX_BLOCK_TXS - 1
    };
    let ghost pool = budgeted(mempool_txs@);
    let mut i: usize = 0;
    proof {
        assert(pool.subrange(0, 0) =~= Seq::<Transaction>::empty());
        assert(transactions@.subrange(1, 1) =~= Seq::<Transaction>::empty());
        block::lemma_no_counts();
    }
    while i < limit
        invariant
            i <= limit,
            limit <= mempool_txs@.len(),
            pool == mempool_txs@.subrange(0, limit as int),
            keymap::ascending(counts@),
            transactions@.len() >= 1,
            transactions@[0] == coinbase,
            block::counts_senders(
                counts@,
                transactions@.subrange(1, transactions@.len() as int),
            ),
            working@.supply == paid.supply,
            selected(paid.accounts, pool.subrange(0, i as int)) == (
                working@.accounts,
                transactions@.subrange(1, transactions@.len() as int),
            ),
        decreases limit - i,
    {
        let t = mempool_txs[i];
        let ghost prefix = pool.subrange(0, i + 1);
        let ghost taken = transactions@.subrange(1, transactions@.len() as int);
        let sender = t.sender_address();
        let n: u32 = match counts.get(&sender.0.0) {
            Some(c) => *c,
            None => 0,
        };
        proof {
            assert(prefix.drop_last() =~= pool.subrange(0, i as int));
            assert(prefix.last() == t);
            assert(block::count_in(counts@, sender.0.0) == block::sent_by(taken, sender.0.0));
        }
        if !t.is_coinbase() && t.verify_signature() && (n as usize) < MAX_TXS_PER_SENDER_PER_BLOCK {
            match working.apply_transaction(&sender, &t.recipient, t.amount.0, t.nonce.0) {
                Ok(_) => {
                    proof {
                        block::lemma_count_one_more(counts@, taken, t);
                    }
                    counts.insert(sender.0.0, n + 1);
                    transactions.push(t);
                    assert(transactions@.subrange(1, transactions@.len() as int) =~= taken.push(t));
                },
                Err(_) => {},
            }
        }
        i = i + 1;
    }
    assert(pool.subrange(0, i as int) =~= pool);
    let tx_merkle_root = Block::compute_tx_merkle_root(&transactions);
    let header = BlockHeader {
        version: 1,
        previous_hash: ctx.previous_hash,
        state_root: working.compute_state_root(),
        tx_merkle_root,
        timestamp: ctx.timestamp,
        bits: ctx.bits,
        height: ctx.height,
        nonce: 0,
    };
    Ok(Block { header, transactions })
}

/// What is taken from a pool applies in order and leaves no sender more than
/// its share.
proof fn lemma_selected_applies(accounts: Accounts, pool: Seq<Transaction>)
    ensures
        ({
            let (after, taken) = selected(accounts, pool);
            &&& block::apply_transfers(accounts, taken) == Ok::<Accounts, Fault>(after)
            &&& block::within_cap(taken)
        }),
    decreases pool.len(),
{
    if pool.len() > 0 {
        let (a, taken) = selected(accounts, pool.drop_last());
        let t = pool.last();
        lemma_selected_applies(accounts, pool.drop_last());
        if takes(a, taken, t) {
            let more = taken.push(t);
            assert(more.drop_last() =~= taken);
            assert forall|k: [u8; 20]| #[trigger]
                block::sent_by(more, k) <= MAX_TXS_PER_SENDER_PER_BLOCK by {
                assert(block::sent_by(taken, k) <= MAX_TXS_PER_SENDER_PER_BLOCK);
            }
        }
    }
}

/// An assembled block passes validation as soon as a nonce has been found for
/// which its size and header do: its coinbase, its transfers and its roots are
/// right by construction.
pub proof fn assembled_block_is_valid(
    b: BlockView,
    nonce: u64,
    ctx: BlockAssemblyContext,
    pool: Seq<Transaction>,
    s: StateView,
    against: BlockValidationContext,
)
    requires
        state::after_subsidy(s, ctx.coinbase_recipient.0.0) is Ok,
        s.supply <= MAX_SUPPLY_UNITS,
        assembled(b, ctx, pool, s),
        block::header_fault(
            (BlockView { header: with_nonce(b.header, nonce), ..b }),
            against,
        ) is None,
    ensures
        block::after_block(
            (BlockView { header: with_nonce(b.header, nonce), ..b }),
            against,
            s,
        ) is Ok,
{
    reveal(block::after_block);
    let paid = state::after_subsidy(s, ctx.coinbase_recipient.0.0)->Ok_0;
    lemma_selected_applies(paid.accounts, budgeted(pool));
}

/// A header with another nonce.
pub open spec fn with_nonce(h: BlockHeader, nonce: u64) -> BlockHeader {
    BlockHeader { nonce, ..h }
}

/// Whether a nonce makes a header's hash meet its target.
pub open spec fn solves(h: BlockHeader, nonce: u64) -> bool {
    randomx::meets(block::header_hash(with_nonce(h, nonce)), types::compact_value(h.bits.0))
}

/// Mine a block: put in the smallest nonce that makes its hash meet the
/// target. Fails where no nonce does.
pub fn mine_block(block: &mut Block) -> (r: Result<()>)
    ensures
        final(block)@.txs == old(block)@.txs,
        final(block)@.header == with_nonce(old(block)@.header, final(block)@.header.nonce),
        r is Ok <==> exists|n: u64| solves(old(block)@.header, n),
        r is Ok ==> solves(old(block)@.header, final(block)@.header.nonce) && forall|n: u64|
            solves(old(block)@.header, n) ==> final(block)@.header.nonce <= n,
        r is Ok ==> block::proves_work(PowAlgorithm::Blake3, final(block)@.header),
        r matches Err(e) ==> e.fault() == ErrorKind::InvalidProofOfWork.because(
            "exhausted nonce search space"@,
        ),
{
    match mine_block_with_limit(block, u64::MAX) {
        Ok(_) => Ok(()),
        Err(_) => {
            let target = block.header.bits.to_full_target();
            block.header.nonce = u64::MAX;
            assert(block@.header == with_nonce(old(block)@.header, u64::MAX));
            if randomx::hash_meets_target(&block.header.hash(), &target) {
                assert(solves(old(block)@.header, u64::MAX));
                return Ok(());
            }
            Err(CoreError::InvalidProofOfWork("exhausted nonce search space".to_string()))
        },
    }
}

/// Mine a block with nonces below a limit: put in the smallest that makes its
/// hash meet the target. Where none does, the last one tried stays in the
/// header.
pub fn mine_block_with_limit(block: &mut Block, max_nonces: u64) -> (r: Result<()>)
    ensures
        final(block)@.txs == old(block)@.txs,
        final(block)@.header == with_nonce(old(block)@.header, final(block)@.header.nonce),
        r is Ok <==> exists|n: u64| n < max_nonces && solves(old(block)@.header, n),
        r is Ok ==> final(block)@.header.nonce < max_nonces && solves(
            old(block)@.header,
            final(block)@.header.nonce,
        ) && forall|n: u64|
            solves(old(block)@.header, n) ==> final(block)@.header.nonce <= n,
        r is Ok ==> block::proves_work(PowAlgorithm::Blake3, final(block)@.header),
        r matches Err(e) ==> e.fault() == ErrorKind::InvalidProofOfWork.because(
            "nonce search limit reached without finding solution"@,
        ) && final(block)@.header.nonce == if max_nonces == 0 {
            old(block)@.header.nonce
        } else {
            (max_nonces - 1) as u64
        },
{
    let target = block.header.bits.to_full_target();
    let mut nonce: u64 = 0;
    let ghost start = block@;
    while nonce < max_nonces
        invariant
            nonce <= max_nonces,
            start == old(block)@,
            block@.txs == start.txs,
            block@.header == with_nonce(start.header, block@.header.nonce),
            block@.header.nonce == if nonce == 0 {
                start.header.nonce
            } else {
                (nonce - 1) as u64
            },
            bytes::be_value(target@) == types::compact_value(start.header.bits.0),
            forall|n: u64| n < nonce ==> !#[trigger] solves(start.header, n),
        decreases max_nonces - nonce,
    {
        block.header.nonce = nonce;
        let header_hash = block.header.hash();
        assert(block@.header == with_nonce(start.header, nonce));
        if randomx::hash_meets_target(&header_hash, &target) {
            assert(solves(start.header, nonce));
            return Ok(());
        }
        nonce = nonce + 1;
    }
    Err(
        CoreError::InvalidProofOfWork(
            "nonce search limit reached without finding solution".to_string(),
        ),
    )
}

// ---------------------------------------------------------------------------
// What is stamped, taken and searched for
// ---------------------------------------------------------------------------

/// A block is stamped with the time it is; the median only sets a floor, which
/// is the second after it. A stamp is never before the time, and is the earliest
/// that is neither before the time nor at or before the median.
pub proof fn stamp_is_the_time_it_is(now: u64, median: u64, other: u64)
    ensures
        now > median ==> next_timestamp(now, median) == now,
        next_timestamp(now, median) >= now,
        now <= median && median < u64::MAX ==> next_timestamp(now, median) == median + 1,
        other >= now && other > median ==> next_timestamp(now, median) <= other,
        timestamp_fits(other, now, median) <==> other > median && other <= now + 20,
{
}

/// The hash of a header with a nonce in it is good exactly when, read as a
/// big-endian number, the digest of its bytes is at most the target.
pub proof fn nonce_solves_by_its_digest(h: BlockHeader, nonce: u64)
    ensures
        solves(h, nonce) <==> bytes::be_value(
            hash::spec_blake3((BlockHeader { nonce, ..h }).spec_encode())@,
        ) <= types::compact_value(h.bits.0),
{
    block::header_layout(with_nonce(h, nonce));
}

/// A transfer of the pool is taken exactly when at its turn it is signed, has a
/// sender with fewer than two transfers in the block, and applies to the
/// accounts after those taken before; the others leave everything as it was.
pub proof fn assembly_takes_what_applies(
    accounts: Accounts,
    pool: Seq<Transaction>,
    t: Transaction,
)
    ensures
        selected(accounts, Seq::empty()) == (accounts, Seq::<Transaction>::empty()),
        ({
            let (a, taken) = selected(accounts, pool);
            let next = state::after_transfer(
                a,
                tx::sender_of(t),
                t.recipient.0.0,
                t.amount.0,
                t.nonce.0,
            );
            let fit = !tx::is_coinbase_tx(t) && tx::signed(t) && block::sent_by(
                taken,
                tx::sender_of(t),
            ) < 2 && next is Ok;
            &&& fit ==> selected(accounts, pool.push(t)) == (next->Ok_0, taken.push(t))
            &&& !fit ==> selected(accounts, pool.push(t)) == (a, taken)
        }),
{
    assert(pool.push(t).drop_last() =~= pool);
}

/// Assembly looks at the whole pool, up to one transaction fewer than a block
/// may hold.
pub proof fn assembly_looks_at_the_whole_pool(pool: Seq<Transaction>, i: int)
    requires
        0 <= i < pool.len(),
    ensures
        pool.len() < 10_000 ==> budgeted(pool) == pool,
        pool.len() >= 10_000 ==> budgeted(pool).len() == 9_999,
        i < 9_999 ==> i < budgeted(pool).len() && budgeted(pool)[i] == pool[i],
{
    if pool.len() < 10_000 {
        assert(budgeted(pool) =~= pool);
    }
}

/// An assembled block is the coinbase, paying the reward to the miner, followed
/// by the transfers taken; its header stands on the given parent and commits to
/// those transactions and to the accounts after them.
pub proof fn assembled_block_holds_what_was_taken(
    b: BlockView,
    ctx: BlockAssemblyContext,
    pool: Seq<Transaction>,
    s: StateView,
)
    requires
        assembled(b, ctx, pool, s),
        state::after_subsidy(s, ctx.coinbase_recipient.0.0) is Ok,
    ensures
        ({
            let paid = state::after_subsidy(s, ctx.coinbase_recipient.0.0)->Ok_0;
            let (accounts, taken) = selected(paid.accounts, budgeted(pool));
            &&& b.txs == seq![b.txs[0]] + taken
            &&& b.txs[0].sender_pubkey.0@ == bytes::zeros(32)
            &&& b.txs[0].recipient == ctx.coinbase_recipient
            &&& b.txs[0].amount.0 == 1_000_000
            &&& b.txs[0].nonce.0 == 0
            &&& b.txs[0].signature.0@ == bytes::zeros(64)
            &&& b.header.nonce == 0
            &&& b.header.version == 1
            &&& b.header.previous_hash == ctx.previous_hash
            &&& b.header.height == ctx.height
            &&& b.header.timestamp == ctx.timestamp
            &&& b.header.bits == ctx.bits
            &&& b.header.state_root == state::state_root(accounts)
            &&& exists|bs: Seq<u8>|
                #![trigger hash::spec_blake3(bs)]
                block::holds_every_transaction(bs, b.txs) && b.header.tx_merkle_root.0
                    == hash::spec_blake3(bs)
        }),
{
    let paid = state::after_subsidy(s, ctx.coinbase_recipient.0.0)->Ok_0;
    let (accounts, taken) = selected(paid.accounts, budgeted(pool));
    assert(b.txs =~= seq![b.txs[0]] + b.txs.subrange(1, b.txs.len() as int));
    block::root_commits_to_every_transaction(b.txs);
}

} // verus!
