//! The rules of a block, each on its own, and that validation is exactly these.

use vstd::prelude::*;
use crate::block;
use crate::block::{BlockValidationContext, BlockView};
use crate::bytes;
use crate::constants::{BLOCK_REWARD_UNITS, MAX_SUPPLY_UNITS};
use crate::crypto::randomx::PowAlgorithm;
use crate::error::{ErrorKind, Fault};
use crate::hash;
use crate::serialize::CanonicalEncode;
use crate::state;
use crate::state::{Accounts, StateView};
use crate::tx;
use crate::tx::Transaction;
use crate::types;

verus! {

/// Whether a header fits what it is validated against: a known version, the
/// right parent, height and target, a timestamp after the median and at most
/// twenty seconds ahead.
pub open spec fn header_fits(b: BlockView, ctx: BlockValidationContext) -> bool {
    &&& b.header.version == 1
    &&& b.header.previous_hash == ctx.previous_hash
    &&& b.header.height == ctx.expected_height
    &&& ctx.median_time_past < b.header.timestamp <= ctx.network_time + 20
    &&& b.header.bits == ctx.expected_bits
}

/// Whether a header's digest, as a big-endian number, is at most its target.
pub open spec fn work_is_done(b: BlockView, ctx: BlockValidationContext) -> bool {
    ctx.pow_algorithm == PowAlgorithm::Blake3 && bytes::be_value(
        hash::spec_blake3(b.header.spec_encode())@,
    ) <= types::compact_value(b.header.bits.0)
}

/// Whether a block is of lawful size: at most a mebibyte for header, count and
/// 132 bytes per transaction.
pub open spec fn size_fits(b: BlockView) -> bool {
    124 + crate::serialize::leb128(b.txs.len()).len() + 132 * b.txs.len() <= 1_048_576
}

/// Whether a block begins with a coinbase that claims the reward.
pub open spec fn coinbase_fits(b: BlockView) -> bool {
    b.txs.len() > 0 && b.txs[0].amount.0 == BLOCK_REWARD_UNITS && b.txs[0].nonce.0 == 0
}

/// Whether no address sends more than two of a block's transfers.
pub open spec fn senders_fit(b: BlockView) -> bool {
    forall|who: [u8; 20]|
        #![trigger sends(who)]
        b.txs.subrange(1, b.txs.len() as int).filter(sends(who)).len() <= 2
}

/// Whether a transaction is sent by an address, as a test.
pub open spec fn sends(who: [u8; 20]) -> spec_fn(Transaction) -> bool {
    |t: Transaction| tx::sender_of(t) == who
}

/// Whether accounts follow from each other: the first are those after the
/// subsidy has been paid, and each next ones those after the next transfer,
/// which its sender has signed.
pub open spec fn accounts_follow(b: BlockView, s: StateView, steps: Seq<Accounts>) -> bool {
    &&& steps.len() == b.txs.len()
    &&& state::after_subsidy(s, b.txs[0].recipient.0.0) matches Ok(paid) && paid.accounts
        == steps[0] && paid.supply <= MAX_SUPPLY_UNITS
    &&& forall|i: int|
        0 < i < b.txs.len() ==> tx::signed(#[trigger] b.txs[i]) && state::after_transfer(
            steps[i - 1],
            tx::sender_of(b.txs[i]),
            b.txs[i].recipient.0.0,
            b.txs[i].amount.0,
            b.txs[i].nonce.0,
        ) == Ok::<Accounts, Fault>(steps[i])
}

/// Whether the header commits to the accounts after the block and to all of its
/// transactions.
pub open spec fn commitments_fit(b: BlockView, after: Accounts) -> bool {
    &&& b.header.state_root == state::state_root(after)
    &&& exists|bs: Seq<u8>|
        #![trigger hash::spec_blake3(bs)]
        block::holds_every_transaction(bs, b.txs) && b.header.tx_merkle_root.0
            == hash::spec_blake3(bs)
}

/// Whether a block keeps every rule, with these accounts along the way.
pub open spec fn lawful(
    b: BlockView,
    ctx: BlockValidationContext,
    s: StateView,
    steps: Seq<Accounts>,
) -> bool {
    &&& size_fits(b)
    &&& header_fits(b, ctx)
    &&& work_is_done(b, ctx)
    &&& coinbase_fits(b)
    &&& senders_fit(b)
    &&& accounts_follow(b, s, steps)
    &&& commitments_fit(b, steps.last())
}

proof fn lemma_sent_is_filter(txs: Seq<Transaction>, who: [u8; 20])
    ensures
        block::sent_by(txs, who) == txs.filter(sends(who)).len(),
    decreases txs.len(),
{
    reveal(Seq::filter);
    if txs.len() > 0 {
        lemma_sent_is_filter(txs.drop_last(), who);
    }
}

proof fn lemma_size(b: BlockView)
    ensures
        block::block_bytes(b).len() == 124 + crate::serialize::leb128(b.txs.len()).len() + 132
            * b.txs.len(),
{
    block::lemma_header_len(b.header);
    block::lemma_txs_len(b.txs);
}

proof fn lemma_header_rules(b: BlockView, ctx: BlockValidationContext)
    ensures
        block::header_fault(b, ctx) is None <==> size_fits(b) && header_fits(b, ctx)
            && work_is_done(b, ctx),
{
    lemma_size(b);
    block::header_layout(b.header);
}

proof fn lemma_contents_rules(b: BlockView)
    ensures
        block::contents_fault(b) is None <==> coinbase_fits(b) && senders_fit(b),
{
    if b.txs.len() > 0 {
        let body = b.txs.subrange(1, b.txs.len() as int);
        assert forall|who: [u8; 20]|
            block::sent_by(body, who) == #[trigger] body.filter(sends(who)).len() by {
            lemma_sent_is_filter(body, who);
        }
        if senders_fit(b) {
            assert forall|who: [u8; 20]| #[trigger] block::sent_by(body, who) <= 2 by {
                assert(body.filter(sends(who)).len() <= 2);
            }
        }
        if block::within_cap(body) {
            assert forall|who: [u8; 20]|
                #![trigger sends(who)]
                body.filter(sends(who)).len() <= 2 by {
                assert(block::sent_by(body, who) <= 2);
            }
        }
    }
}

/// The accounts along the way of applying the first transfers of a block.
proof fn lemma_steps(b: BlockView, s: StateView, steps: Seq<Accounts>, n: int)
    requires
        accounts_follow(b, s, steps),
        1 <= n <= b.txs.len(),
    ensures
        block::apply_transfers(steps[0], b.txs.subrange(1, n)) == Ok::<Accounts, Fault>(
            steps[n - 1],
        ),
    decreases n,
{
    let part = b.txs.subrange(1, n);
    if n > 1 {
        lemma_steps(b, s, steps, n - 1);
        assert(part.drop_last() =~= b.txs.subrange(1, n - 1));
        assert(part.last() == b.txs[n - 1]);
    } else {
        assert(part =~= Seq::<Transaction>::empty());
    }
}

proof fn lemma_root_fits(b: BlockView)
    requires
        b.txs.len() > 0,
    ensures
        block::tx_root(b.txs) == b.header.tx_merkle_root <==> exists|bs: Seq<u8>|
            #![trigger hash::spec_blake3(bs)]
            block::holds_every_transaction(bs, b.txs) && b.header.tx_merkle_root.0
                == hash::spec_blake3(bs),
{
    block::root_commits_to_every_transaction(b.txs);
    let x = choose|bs: Seq<u8>|
        #![trigger hash::spec_blake3(bs)]
        block::holds_every_transaction(bs, b.txs) && block::tx_root(b.txs).0 == hash::spec_blake3(bs);
    assert forall|bs: Seq<u8>| block::holds_every_transaction(bs, b.txs) implies bs == x by {
        assert forall|j: int| 0 <= j < bs.len() implies bs[j] == x[j] by {
            let i = j / 132;
            let k = j % 132;
            assert(0 <= i < b.txs.len());
            assert(j == 132 * i + k);
            assert(bs[j] == bs.subrange(132 * i, 132 * i + 132)[k]);
            assert(x[j] == x.subrange(132 * i, 132 * i + 132)[k]);
            assert(bs.subrange(132 * i, 132 * i + 132) == b.txs[i].spec_encode());
            assert(x.subrange(132 * i, 132 * i + 132) == b.txs[i].spec_encode());
        }
        assert(bs =~= x);
    }
}

/// A block that keeps every rule is accepted, and leads to the accounts after
/// its last transfer and to the supply after its subsidy.
pub proof fn lawful_block_is_accepted(
    b: BlockView,
    ctx: BlockValidationContext,
    s: StateView,
    steps: Seq<Accounts>,
)
    requires
        lawful(b, ctx, s, steps),
    ensures
        block::after_block(b, ctx, s) == Ok::<StateView, Fault>(
            StateView {
                accounts: steps.last(),
                supply: (s.supply + state::subsidy_at(s.supply)) as u64,
            },
        ),
{
    reveal(block::after_block);
    lemma_header_rules(b, ctx);
    lemma_contents_rules(b);
    lemma_steps(b, s, steps, b.txs.len() as int);
    lemma_root_fits(b);
}

/// The accounts along the way of a block that was accepted.
pub open spec fn steps_of(b: BlockView, s: StateView) -> Seq<Accounts> {
    let paid = state::after_subsidy(s, b.txs[0].recipient.0.0)->Ok_0;
    Seq::new(
        b.txs.len(),
        |i: int| block::apply_transfers(paid.accounts, b.txs.subrange(1, i + 1))->Ok_0,
    )
}

proof fn lemma_prefixes_apply(accounts: Accounts, txs: Seq<Transaction>, n: int)
    requires
        0 <= n <= txs.len(),
        block::apply_transfers(accounts, txs) is Ok,
    ensures
        block::apply_transfers(accounts, txs.subrange(0, n)) is Ok,
    decreases txs.len(),
{
    if n == txs.len() {
        assert(txs.subrange(0, n) =~= txs);
    } else {
        assert(txs.drop_last().subrange(0, n) =~= txs.subrange(0, n));
        lemma_prefixes_apply(accounts, txs.drop_last(), n);
    }
}

/// A block that is accepted keeps every rule.
pub proof fn accepted_block_is_lawful(b: BlockView, ctx: BlockValidationContext, s: StateView)
    requires
        block::after_block(b, ctx, s) is Ok,
    ensures
        exists|steps: Seq<Accounts>| #[trigger] lawful(b, ctx, s, steps),
{
    reveal(block::after_block);
    lemma_header_rules(b, ctx);
    lemma_contents_rules(b);
    lemma_root_fits(b);
    let paid = state::after_subsidy(s, b.txs[0].recipient.0.0)->Ok_0;
    let body = b.txs.subrange(1, b.txs.len() as int);
    let steps = steps_of(b, s);
    assert(b.txs.subrange(1, 1) =~= Seq::<Transaction>::empty());
    assert forall|i: int| 0 < i < b.txs.len() implies tx::signed(#[trigger] b.txs[i])
        && state::after_transfer(
        steps[i - 1],
        tx::sender_of(b.txs[i]),
        b.txs[i].recipient.0.0,
        b.txs[i].amount.0,
        b.txs[i].nonce.0,
    ) == Ok::<Accounts, Fault>(steps[i]) by {
        let part = b.txs.subrange(1, i + 1);
        assert(part =~= body.subrange(0, i));
        lemma_prefixes_apply(paid.accounts, body, i);
        assert(part.drop_last() =~= b.txs.subrange(1, i));
        assert(part.last() == b.txs[i]);
    }
    assert(lawful(b, ctx, s, steps));
}

/// A block that is refused is refused for the first rule that it breaks.
pub proof fn refused_block_is_told_why(b: BlockView, ctx: BlockValidationContext, s: StateView)
    requires
        block::after_block(b, ctx, s) is Err,
        b.txs.len() <= u64::MAX,
    ensures
        ({
            let why = (block::after_block(b, ctx, s)->Err_0).kind;
            let h = b.header;
            &&& !size_fits(b) ==> why is BlockSizeExceeded
            &&& size_fits(b) && (h.version != 1 || h.previous_hash != ctx.previous_hash
                || h.height != ctx.expected_height) ==> why == ErrorKind::InvalidBlock
            &&& size_fits(b) && h.version == 1 && h.previous_hash == ctx.previous_hash && h.height
                == ctx.expected_height && !(ctx.median_time_past < h.timestamp <= ctx.network_time
                + 20) ==> why == ErrorKind::InvalidTimestamp
            &&& size_fits(b) && header_fits(b, ctx) && !work_is_done(b, ctx) ==> why
                == ErrorKind::InvalidProofOfWork
            &&& size_fits(b) && header_fits(b, ctx) && work_is_done(b, ctx) && !(coinbase_fits(b)
                && senders_fit(b)) ==> why == ErrorKind::InvalidBlock
        }),
{
    reveal(block::after_block);
    lemma_size(b);
    lemma_header_rules(b, ctx);
    lemma_contents_rules(b);
    block::header_layout(b.header);
}

} // verus!
