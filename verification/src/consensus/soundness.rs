//! What holds of every chain that is built block by block from its genesis.

use vstd::prelude::*;
use crate::block;
use crate::block::{BlockValidationContext, BlockView};
use crate::bytes;
use crate::consensus::chain;
use crate::consensus::chain::{Base, BlockIndexEntry, BlockSource, ChainView};
use crate::consensus::genesis;
use crate::consensus::headers::Headers;
use crate::consensus::params;
use crate::consensus::params::ChainParams;
use crate::consensus::retarget;
use crate::constants::{DIFFICULTY_ADJUSTMENT_WINDOW, MAX_SUPPLY_UNITS, REORG_JOURNAL_DEPTH};
use crate::crypto::randomx;
use crate::hash;
use crate::keymap;
use crate::state;
use crate::state::StateView;
use crate::types;
use crate::types::NetworkId;
use crate::u256;

verus! {

/// Whether the accounts of a state hold what was minted, and no more than may
/// ever be.
pub open spec fn sound_state(s: StateView) -> bool {
    &&& keymap::ascending(s.accounts)
    &&& state::total_balance(s.accounts) == s.supply
    &&& s.supply <= MAX_SUPPLY_UNITS
}

/// Whether every state that a chain holds is sound.
pub open spec fn sound_money(v: ChainView) -> bool {
    &&& sound_state(v.state)
    &&& forall|i: int| 0 <= i < v.journal.len() ==> sound_state(#[trigger] v.journal[i])
}

/// Whether a chain begins with the genesis block of its network, and its tip
/// commits to its state.
pub open spec fn anchored(v: ChainView) -> bool {
    let g = genesis::genesis_header(v.params);
    &&& forall|h: hash::Hash|
        (#[trigger] chain::entry_of(v.index, h)) matches Some(e) ==> (e.header.height.0 == 0 ==> e
            == (BlockIndexEntry {
            header: g,
            cumulative_work: u256::u256_of(chain::bits_work(g.bits.0)),
        }))
    &&& state::state_root(v.state.accounts) == v.tip.header.state_root
}

/// A chain that is its genesis block holds no money, and is anchored there.
pub proof fn genesis_is_anchored(params: ChainParams)
    ensures
        sound_money(chain::genesis_chain(params)),
        anchored(chain::genesis_chain(params)),
{
    let v = chain::genesis_chain(params);
    let e = BlockIndexEntry { header: v.tip.header, cumulative_work: v.tip.cumulative_work };
    let none = Seq::<([u8; 32], BlockIndexEntry)>::empty();
    assert forall|h: hash::Hash| (#[trigger] chain::entry_of(v.index, h)) is Some implies
        chain::entry_of(v.index, h) == Some(e) by {
        keymap::put_and_lookup(none, v.tip.hash.0, e, h.0);
        keymap::lemma_value_of(none, h.0);
    }
    assert(state::leaves_of(v.state.accounts) =~= Seq::<hash::Hash>::empty());
}

proof fn lemma_valid_block(b: BlockView, ctx: block::BlockValidationContext, s: StateView)
    requires
        sound_state(s),
        block::after_block(b, ctx, s) is Ok,
    ensures
        sound_state(block::after_block(b, ctx, s)->Ok_0),
{
    block::valid_block_mints_only_the_subsidy(b, ctx, s);
}

proof fn lemma_plan_base(v: ChainView, h: hash::Hash)
    requires
        v.wf(),
        sound_money(v),
        chain::replay_plan(v, h) is Some,
    ensures
        sound_state((chain::replay_plan(v, h)->0).0.state),
    decreases chain::height_of(v.index, h),
{
    let e = chain::entry_of(v.index, h)->0;
    if chain::base_at(v, h, e) is None {
        lemma_plan_base(v, e.header.previous_hash);
    } else {
        chain::lemma_branch(v.index, v.tip.hash);
        assert(sound_state(state::empty_state()));
    }
}

proof fn lemma_replay_sound<S: BlockSource>(
    v: ChainView,
    source: &S,
    now: u64,
    base: Base,
    todo: Seq<hash::Hash>,
)
    requires
        sound_state(base.state),
        chain::replay(v, source, now, base, todo) is Ok,
    ensures
        sound_state(chain::replay(v, source, now, base, todo)->Ok_0.state),
    decreases todo.len(),
{
    if todo.len() > 0 {
        lemma_replay_sound(v, source, now, base, todo.drop_last());
        let at = chain::replay(v, source, now, base, todo.drop_last())->Ok_0;
        let b = source.block_under(todo.last())->0;
        let ctx = chain::context_for(
            v.params,
            v.tip.supply,
            b.header.height.0,
            at.headers,
            now,
        )->Ok_0;
        lemma_valid_block(b, ctx, at.state);
    }
}

/// Whatever block is offered, the accounts of the chain hold what was minted,
/// and never more than the cap: no block, and no change of branch, makes or
/// loses money.
pub proof fn offering_keeps_money_sound<S: BlockSource>(
    v: ChainView,
    b: BlockView,
    source: &S,
    now: u64,
)
    requires
        v.wf(),
        sound_money(v),
    ensures
        sound_money(chain::offered(v, b, source, now).0),
{
    let after = chain::offered(v, b, source, now).0;
    let prev = b.header.previous_hash;
    let height = b.header.height.0;
    if after != v {
        if prev == v.tip.hash {
            let ctx = chain::context_for(v.params, v.tip.supply, height, v.headers, now)->Ok_0;
            lemma_valid_block(b, ctx, v.state);
            let j = v.journal.push(v.state);
            assert forall|i: int| 0 <= i < after.journal.len() implies sound_state(
                #[trigger] after.journal[i],
            ) by {
                if j.len() > REORG_JOURNAL_DEPTH {
                    assert(after.journal[i] == j[i + 1]);
                } else {
                    assert(after.journal[i] == j[i]);
                }
            }
        } else {
            let ctx = chain::context_for(
                v.params,
                v.tip.supply,
                height,
                chain::branch_window(v.index, prev),
                now,
            )->Ok_0;
            let (base, todo) = chain::replay_plan(v, prev)->0;
            lemma_plan_base(v, prev);
            lemma_replay_sound(v, source, now, base, todo);
            lemma_valid_block(b, ctx, chain::state_under(v, prev, source, now)->Ok_0);
        }
    }
}

/// Whatever block is offered, the chain still begins with the genesis block of
/// its network, and the state is the one that the tip commits to.
pub proof fn offering_keeps_the_anchor<S: BlockSource>(
    v: ChainView,
    b: BlockView,
    source: &S,
    now: u64,
)
    requires
        v.wf(),
        anchored(v),
    ensures
        anchored(chain::offered(v, b, source, now).0),
{
    let after = chain::offered(v, b, source, now).0;
    let key = block::header_hash(b.header);
    if after != v {
        let parent = chain::entry_of(v.index, b.header.previous_hash)->0;
        let work = parent.cumulative_work@ + chain::bits_work(b.header.bits.0);
        let e = BlockIndexEntry { header: b.header, cumulative_work: u256::u256_of(work) };
        assert forall|h: hash::Hash| (#[trigger] chain::entry_of(after.index, h)) is Some
            && chain::entry_of(after.index, h)->0.header.height.0 == 0 implies chain::entry_of(
            v.index,
            h,
        ) == chain::entry_of(after.index, h) by {
            keymap::put_and_lookup(v.index, key.0, e, h.0);
        }
        reveal(block::after_block);
    }
}

// ---------------------------------------------------------------------------
// Work
// ---------------------------------------------------------------------------

/// Whether every known block declares a target above one, so that it stands for
/// work.
pub open spec fn stands_for_work(v: ChainView) -> bool {
    forall|h: hash::Hash|
        (#[trigger] chain::entry_of(v.index, h)) matches Some(e) ==> types::compact_value(
            e.header.bits.0,
        ) > 1
}

/// A target above one stands for work.
proof fn lemma_target_is_work(bits: u32)
    requires
        types::compact_value(bits) > 1,
    ensures
        chain::bits_work(bits) > 0,
{
    bytes::lemma_pow256_values();
    let e = (bits / 0x100_0000) as nat;
    let m = (bits % 0x100_0000) as nat;
    if 3 < e <= 32 {
        let p = bytes::pow256((e - 3) as nat);
        bytes::lemma_pow256_pos((e - 3) as nat);
        bytes::lemma_pow256_monotone((e - 3) as nat, 29);
        bytes::lemma_pow256_add(3, 29);
        assert(m * p < 0x100_0000 * p && 0x100_0000 * p <= 0x100_0000 * bytes::pow256(29))
            by (nonlinear_arith)
            requires
                m < 0x100_0000,
                0 < p <= bytes::pow256(29),
        ;
    } else if e <= 3 {
        let p = bytes::pow256((3 - e) as nat);
        bytes::lemma_pow256_pos((3 - e) as nat);
        assert(m / p <= m) by (nonlinear_arith)
            requires
                p > 0,
                m >= 0,
        ;
    }
    let t = types::compact_value(bits);
    randomx::work_grows_as_the_target_shrinks(t, t);
}

/// On every network a chain that is its genesis block stands for work.
pub proof fn genesis_stands_for_work(p: ChainParams, network: NetworkId)
    requires
        params::params_for(p, network),
    ensures
        stands_for_work(chain::genesis_chain(p)),
{
    let v = chain::genesis_chain(p);
    let e = BlockIndexEntry { header: v.tip.header, cumulative_work: v.tip.cumulative_work };
    let none = Seq::<([u8; 32], BlockIndexEntry)>::empty();
    assert forall|h: hash::Hash| (#[trigger] chain::entry_of(v.index, h)) is Some implies
        chain::entry_of(v.index, h) == Some(e) by {
        keymap::put_and_lookup(none, v.tip.hash.0, e, h.0);
        keymap::lemma_value_of(none, h.0);
    }
    bytes::lemma_pow256_monotone(1, 26);
    bytes::lemma_pow256_monotone(1, 29);
    bytes::lemma_pow256_values();
    let bits = p.genesis_bits.0;
    if network == NetworkId::Regtest {
        assert(bits / 0x100_0000 == 0x20 && bits % 0x100_0000 == 0x7fffff);
        assert(types::compact_value(bits) == 0x7fffff * bytes::pow256(29));
    } else {
        assert(bits / 0x100_0000 == 0x1d && bits % 0x100_0000 == 0xffff);
        assert(types::compact_value(bits) == 0xffff * bytes::pow256(26));
    }
    assert(types::compact_value(bits) > 1);
}

/// The bits that are due on top of blocks that stand for work stand for work.
proof fn lemma_due_bits(height: u32, hs: Headers, p: ChainParams, network: NetworkId)
    requires
        params::params_for(p, network),
        height > 0,
        retarget::bits_for(height, hs, p) is Ok,
        forall|k: u32|
            #[trigger] hs.contains_key(k) ==> types::compact_value(hs[k].bits.0) > 1,
    ensures
        types::compact_value((retarget::bits_for(height, hs, p)->Ok_0).0) > 1,
{
    let prev = (height - 1) as u32;
    assert(hs.contains_key(prev));
    if !(p.no_retargeting || height % DIFFICULTY_ADJUSTMENT_WINDOW != 0) {
        let start = hs[(height - DIFFICULTY_ADJUSTMENT_WINDOW) as u32];
        retarget::retargeted_bits_stay_within_bounds(
            hs[prev].bits.0,
            retarget::elapsed(start.timestamp, hs[prev].timestamp),
            p,
            network,
        );
        retarget::lemma_default_bounds();
    }
}

/// The headers of a branch stand for work.
proof fn lemma_branch_work(v: ChainView, h: hash::Hash, k: u32)
    requires
        v.wf(),
        stands_for_work(v),
        chain::entry_of(v.index, h) is Some,
        chain::branch(v.index, h).contains_key(k),
    ensures
        types::compact_value(chain::branch(v.index, h)[k].bits.0) > 1,
{
    chain::lemma_branch(v.index, h);
    let x = chain::branch(v.index, h)[k];
    assert(chain::entry_of(v.index, block::header_hash(x)) is Some);
}

/// What the context of a block expects on top of blocks that stand for work
/// stands for work.
proof fn lemma_expected(v: ChainView, prev: hash::Hash, height: u32, now: u64, network: NetworkId)
    requires
        v.wf(),
        stands_for_work(v),
        params::params_for(v.params, network),
        chain::entry_of(v.index, prev) is Some,
        height > 0,
    ensures
        chain::context_for(
            v.params,
            v.tip.supply,
            height,
            chain::branch_window(v.index, prev),
            now,
        ) matches Ok(ctx) ==> types::compact_value(ctx.expected_bits.0) > 1,
        prev == v.tip.hash ==> (chain::context_for(v.params, v.tip.supply, height, v.headers, now)
            matches Ok(ctx) ==> types::compact_value(ctx.expected_bits.0) > 1),
{
    let all = chain::branch(v.index, prev);
    let window = chain::branch_window(v.index, prev);
    assert forall|k: u32| #[trigger] window.contains_key(k) implies types::compact_value(
        window[k].bits.0,
    ) > 1 by {
        assert(all.contains_key(k) && window[k] == all[k]);
        lemma_branch_work(v, prev, k);
    }
    if retarget::bits_for(height, window, v.params) is Ok {
        lemma_due_bits(height, window, v.params, network);
    }
    if prev == v.tip.hash {
        assert forall|k: u32| #[trigger] v.headers.contains_key(k) implies types::compact_value(
            v.headers[k].bits.0,
        ) > 1 by {
            lemma_branch_work(v, prev, k);
        }
        if retarget::bits_for(height, v.headers, v.params) is Ok {
            lemma_due_bits(height, v.headers, v.params, network);
        }
    }
}

/// A valid block has the bits that its context expects.
proof fn lemma_valid_bits(b: BlockView, ctx: BlockValidationContext, s: StateView)
    requires
        block::after_block(b, ctx, s) is Ok,
    ensures
        b.header.bits == ctx.expected_bits,
{
    reveal(block::after_block);
}

/// A block that the chain takes stands for work.
proof fn lemma_taken_works<S: BlockSource>(
    v: ChainView,
    b: BlockView,
    source: &S,
    now: u64,
    network: NetworkId,
)
    requires
        v.wf(),
        stands_for_work(v),
        params::params_for(v.params, network),
        chain::offered(v, b, source, now).0 != v,
    ensures
        types::compact_value(b.header.bits.0) > 1,
{
    let prev = b.header.previous_hash;
    let height = b.header.height.0;
    lemma_expected(v, prev, height, now, network);
    if prev == v.tip.hash {
        let ctx = chain::context_for(v.params, v.tip.supply, height, v.headers, now);
        lemma_valid_bits(b, ctx->Ok_0, v.state);
    } else {
        let window = chain::branch_window(v.index, prev);
        let ctx = chain::context_for(v.params, v.tip.supply, height, window, now);
        let before = chain::state_under(v, prev, source, now);
        lemma_valid_bits(b, ctx->Ok_0, before->Ok_0);
    }
}

/// Recording a block that stands for work leaves the index so.
proof fn lemma_recorded_works(v: ChainView, b: BlockView, work: nat)
    requires
        v.wf(),
        stands_for_work(v),
        types::compact_value(b.header.bits.0) > 1,
    ensures
        forall|h: hash::Hash|
            (#[trigger] chain::entry_of(chain::recorded(v.index, b, work), h)) matches Some(e)
                ==> types::compact_value(e.header.bits.0) > 1,
{
    let key = block::header_hash(b.header);
    let e = BlockIndexEntry { header: b.header, cumulative_work: u256::u256_of(work) };
    let index = chain::recorded(v.index, b, work);
    assert forall|h: hash::Hash| (#[trigger] chain::entry_of(index, h)) is Some implies
        types::compact_value(chain::entry_of(index, h)->0.header.bits.0) > 1 by {
        keymap::put_and_lookup(v.index, key.0, e, h.0);
        if h.0 != key.0 {
            assert(chain::entry_of(v.index, h) == chain::entry_of(index, h));
        }
    }
}

/// On every network the tip stays the best of all known blocks, whatever is
/// offered to the chain, and every known block keeps standing for work.
pub proof fn tip_stays_best_on_every_network<S: BlockSource>(
    v: ChainView,
    b: BlockView,
    source: &S,
    now: u64,
    network: NetworkId,
)
    requires
        v.wf(),
        v.tip_is_best(),
        stands_for_work(v),
        params::params_for(v.params, network),
    ensures
        ({
            let after = chain::offered(v, b, source, now).0;
            &&& after.wf()
            &&& after.tip_is_best()
            &&& stands_for_work(after)
            &&& params::params_for(after.params, network)
        }),
{
    chain::offering_keeps_the_chain_sound(v, b, source, now);
    if chain::offered(v, b, source, now).0 != v {
        lemma_taken_works(v, b, source, now, network);
        lemma_target_is_work(b.header.bits.0);
        chain::tip_stays_best(v, b, source, now);
        let parent = chain::entry_of(v.index, b.header.previous_hash)->0;
        lemma_recorded_works(
            v,
            b,
            parent.cumulative_work@ + chain::bits_work(b.header.bits.0),
        );
    }
}

} // verus!
