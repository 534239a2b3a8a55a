//! That fork choice is complete: a valid branch is taken however long it is, and
//! becomes the chain when it has the most work.

use vstd::prelude::*;
use vstd::string::*;
use crate::block;
use crate::block::BlockView;
use crate::bytes;
use crate::consensus::chain;
use crate::consensus::chain::{Base, BlockOutcome, BlockSource, ChainView, Index};
use crate::consensus::headers::Headers;
use crate::consensus::params::ChainParams;
use crate::error::Fault;
use crate::hash;
use crate::keymap;
use crate::state::StateView;
use crate::u256;

verus! {

/// The headers up to a height.
pub open spec fn upto(hs: Headers, k: int) -> Headers {
    hs.restrict(Set::new(|x: u32| x <= k))
}

/// The state that the blocks of a chain of headers lead to from nothing, as far
/// as a height, if a source gives each of them and their transactions apply.
pub open spec fn ledger<S: BlockSource>(hs: Headers, source: &S, k: nat) -> Option<StateView>
    decreases k,
{
    if k == 0 {
        Some(StateView { accounts: Seq::empty(), supply: 0 })
    } else {
        match ledger(hs, source, (k - 1) as nat) {
            Some(s) => match source.block_under(block::header_hash(hs[k as u32])) {
                Some(b) => match block::after_transactions(b.txs, s) {
                    Ok(t) => Some(t),
                    Err(_) => None,
                },
                None => None,
            },
            None => None,
        }
    }
}

/// Whether the block at a height is at hand and valid on top of the one before.
pub open spec fn valid_at<S: BlockSource>(
    v: ChainView,
    hs: Headers,
    source: &S,
    now: u64,
    k: int,
) -> bool {
    &&& source.block_under(block::header_hash(hs[k as u32])) matches Some(b) && b.header
        == hs[k as u32] && {
        &&& ledger(hs, source, (k - 1) as nat) matches Some(s) && {
            &&& chain::context_for(v.params, v.tip.supply, k as u32, upto(hs, k - 1), now) matches Ok(
                ctx,
            ) && block::after_block(b, ctx, s) is Ok
        }
    }
}

/// The state that a chain holds at a height of its active branch.
pub open spec fn held_at(v: ChainView, k: int) -> StateView {
    if k == v.tip.height.0 {
        v.state
    } else {
        v.journal[v.journal.len() - (v.tip.height.0 - k)]
    }
}

/// Whether every state that a chain holds is the one that its blocks lead to.
pub open spec fn truthful<S: BlockSource>(v: ChainView, source: &S) -> bool {
    forall|k: int|
        v.tip.height.0 - v.journal.len() <= k <= v.tip.height.0 ==> ledger(
            v.headers,
            source,
            k as nat,
        ) == Some(#[trigger] held_at(v, k))
}

proof fn lemma_ledger_agrees<S: BlockSource>(a: Headers, b: Headers, source: &S, k: nat)
    requires
        k <= u32::MAX,
        forall|x: u32| x <= k ==> #[trigger] a[x] == b[x],
    ensures
        ledger(a, source, k) == ledger(b, source, k),
    decreases k,
{
    if k > 0 {
        lemma_ledger_agrees(a, b, source, (k - 1) as nat);
        assert(a[k as u32] == b[k as u32]);
    }
}

/// The branch of a block of a branch is that branch up to it.
proof fn lemma_prefix(index: Index, t: hash::Hash, k: u32)
    requires
        chain::index_wf(index),
        chain::entry_of(index, t) is Some,
        k <= chain::entry_of(index, t)->0.header.height.0,
    ensures
        chain::branch(index, block::header_hash(chain::branch(index, t)[k])) == upto(
            chain::branch(index, t),
            k as int,
        ),
    decreases chain::height_of(index, t),
{
    let m = chain::branch(index, t);
    let e = chain::entry_of(index, t)->0;
    let top = e.header.height.0;
    chain::lemma_branch(index, t);
    chain::lemma_entry(index, t);
    if k == top {
        assert(upto(m, k as int) =~= m);
    } else {
        let prev = e.header.previous_hash;
        lemma_prefix(index, prev, k);
        let low = chain::branch(index, prev);
        assert(m == low.insert(top, e.header));
        assert(upto(m, k as int) =~= upto(low, k as int));
    }
}

/// From where, and with which blocks, the state of a branch is rebuilt.
spec fn planned<S: BlockSource>(
    v: ChainView,
    h: hash::Hash,
    source: &S,
    base: Base,
    todo: Seq<hash::Hash>,
) -> bool {
    let hs = chain::branch(v.index, h);
    let top = chain::height_of(v.index, h) as int;
    let j = top - todo.len();
    &&& 0 <= j
    &&& ledger(hs, source, j as nat) == Some(base.state)
    &&& base.headers == upto(hs, j)
    &&& forall|i: int|
        0 <= i < todo.len() ==> #[trigger] todo[i] == block::header_hash(hs[(j + 1 + i) as u32])
}

proof fn lemma_plan<S: BlockSource>(v: ChainView, h: hash::Hash, source: &S)
    requires
        v.wf(),
        truthful(v, source),
        chain::entry_of(v.index, h) is Some,
    ensures
        chain::replay_plan(v, h) matches Some((base, todo)) && planned(v, h, source, base, todo),
    decreases chain::height_of(v.index, h),
{
    let e = chain::entry_of(v.index, h)->0;
    let top = e.header.height.0;
    let hs = chain::branch(v.index, h);
    chain::lemma_entry(v.index, h);
    lemma_branch_top(v.index, h);
    match chain::base_at(v, h, e) {
        Some(base) => {
            let depth = v.tip.height.0 - top;
            if v.headers.contains_key(top) && block::header_hash(v.headers[top]) == h && depth
                <= v.journal.len() {
                lemma_branch_top(v.index, v.tip.hash);
                lemma_prefix(v.index, v.tip.hash, top);
                assert(base.headers =~= upto(v.headers, top as int));
                assert(hs == upto(v.headers, top as int));
                assert(upto(hs, top as int) =~= hs);
                assert(held_at(v, top as int) == base.state);
                lemma_restricted(v.headers, hs, top);
                lemma_ledger_agrees(v.headers, hs, source, top as nat);
            } else {
                assert(top == 0);
                assert(upto(hs, 0) =~= hs);
                assert(base.headers =~= hs);
            }
            assert(planned(v, h, source, base, Seq::empty()));
        },
        None => {
            let prev = e.header.previous_hash;
            lemma_plan(v, prev, source);
            let (base, low) = chain::replay_plan(v, prev)->0;
            let ps = chain::branch(v.index, prev);
            lemma_branch_top(v.index, prev);
            let todo = low.push(h);
            let j = top - todo.len();
            assert(hs == ps.insert(top, e.header));
            lemma_extended_agrees(ps, hs, source, top, e.header, j as nat);
            assert(upto(hs, j) =~= upto(ps, j));
            assert forall|i: int| 0 <= i < todo.len() implies #[trigger] todo[i]
                == block::header_hash(hs[(j + 1 + i) as u32]) by {
                if i < low.len() {
                    assert(todo[i] == low[i]);
                    assert(hs[(j + 1 + i) as u32] == ps[(j + 1 + i) as u32]);
                }
            }
            assert(planned(v, h, source, base, todo));
        },
    }
}

proof fn lemma_branch_top(index: Index, h: hash::Hash)
    requires
        chain::index_wf(index),
        chain::entry_of(index, h) is Some,
    ensures
        ({
            let m = chain::branch(index, h);
            let top = chain::entry_of(index, h)->0.header.height.0;
            &&& forall|k: u32| #[trigger] m.contains_key(k) <==> k <= top
            &&& m[top] == chain::entry_of(index, h)->0.header
            &&& block::header_hash(m[top]) == h
        }),
{
    chain::lemma_branch(index, h);
}

proof fn lemma_restricted(a: Headers, b: Headers, k: u32)
    requires
        b == upto(a, k as int),
        forall|x: u32| x <= k ==> #[trigger] a.contains_key(x),
    ensures
        forall|x: u32| x <= k ==> #[trigger] a[x] == b[x],
{
    assert forall|x: u32| x <= k implies #[trigger] a[x] == b[x] by {
        assert(a.contains_key(x));
    }
}

proof fn lemma_extended_agrees<S: BlockSource>(
    a: Headers,
    b: Headers,
    source: &S,
    top: u32,
    h: block::BlockHeader,
    k: nat,
)
    requires
        b == a.insert(top, h),
        k < top,
    ensures
        ledger(a, source, k) == ledger(b, source, k),
{
    assert forall|x: u32| x <= k implies #[trigger] a[x] == b[x] by {}
    lemma_ledger_agrees(a, b, source, k);
}

proof fn lemma_branch_at(index: Index, h: hash::Hash, k: u32)
    requires
        chain::index_wf(index),
        chain::entry_of(index, h) is Some,
        k <= chain::height_of(index, h),
    ensures
        ({
            let x = chain::branch(index, h)[k];
            &&& chain::branch(index, h).contains_key(k)
            &&& x.height.0 == k
            &&& chain::entry_of(index, block::header_hash(x)) matches Some(e) && e.header == x
        }),
{
    chain::lemma_branch(index, h);
}

/// What replaying the next block gives, if it is valid.
proof fn lemma_replay_step<S: BlockSource>(
    v: ChainView,
    h: hash::Hash,
    source: &S,
    now: u64,
    k: int,
    at: Base,
)
    requires
        v.wf(),
        chain::entry_of(v.index, h) is Some,
        0 < k <= chain::height_of(v.index, h),
        valid_at(v, chain::branch(v.index, h), source, now, k),
        ledger(chain::branch(v.index, h), source, (k - 1) as nat) == Some(at.state),
        at.headers == upto(chain::branch(v.index, h), k - 1),
    ensures
        ({
            let hs = chain::branch(v.index, h);
            chain::replay_one(v, source, now, at, block::header_hash(hs[k as u32])) matches Ok(next)
                && ledger(hs, source, k as nat) == Some(next.state) && next.headers == upto(hs, k)
        }),
{
    let hs = chain::branch(v.index, h);
    let key = block::header_hash(hs[k as u32]);
    lemma_branch_at(v.index, h, k as u32);
    let b = source.block_under(key)->0;
    let ctx = chain::context_for(v.params, v.tip.supply, k as u32, upto(hs, k - 1), now)->Ok_0;
    lemma_block_is_its_transactions(b, ctx, at.state);
    assert(upto(hs, k - 1).insert(k as u32, hs[k as u32]) =~= upto(hs, k));
}

proof fn lemma_block_is_its_transactions(
    b: BlockView,
    ctx: block::BlockValidationContext,
    s: StateView,
)
    requires
        block::after_block(b, ctx, s) is Ok,
    ensures
        block::after_transactions(b.txs, s) == block::after_block(b, ctx, s),
{
    reveal(block::after_block);
}

proof fn lemma_replay<S: BlockSource>(
    v: ChainView,
    h: hash::Hash,
    source: &S,
    now: u64,
    base: Base,
    todo: Seq<hash::Hash>,
    n: int,
)
    requires
        v.wf(),
        chain::entry_of(v.index, h) is Some,
        planned(v, h, source, base, todo),
        0 <= n <= todo.len(),
        forall|k: int|
            0 < k <= chain::height_of(v.index, h) ==> #[trigger] valid_at(
                v,
                chain::branch(v.index, h),
                source,
                now,
                k,
            ),
    ensures
        ({
            let hs = chain::branch(v.index, h);
            let k = chain::height_of(v.index, h) - todo.len() + n;
            chain::replay(v, source, now, base, todo.subrange(0, n)) matches Ok(at) && ledger(
                hs,
                source,
                k as nat,
            ) == Some(at.state) && at.headers == upto(hs, k)
        }),
    decreases n,
{
    let part = todo.subrange(0, n);
    if n > 0 {
        lemma_replay(v, h, source, now, base, todo, n - 1);
        assert(part.drop_last() =~= todo.subrange(0, n - 1));
        assert(part.last() == todo[n - 1]);
        let k = chain::height_of(v.index, h) - todo.len() + n;
        let at = chain::replay(v, source, now, base, part.drop_last())->Ok_0;
        assert(valid_at(v, chain::branch(v.index, h), source, now, k));
        lemma_replay_step(v, h, source, now, k, at);
    } else {
        assert(part =~= Seq::<hash::Hash>::empty());
    }
}

/// A branch is rebuilt however long it is: if every block of it is at hand and
/// valid on top of the one before, its state is had, and it is the one that its
/// blocks lead to from nothing.
pub proof fn branch_of_any_length_is_rebuilt<S: BlockSource>(
    v: ChainView,
    h: hash::Hash,
    source: &S,
    now: u64,
)
    requires
        v.wf(),
        truthful(v, source),
        chain::entry_of(v.index, h) is Some,
        forall|k: int|
            0 < k <= chain::height_of(v.index, h) ==> #[trigger] valid_at(
                v,
                chain::branch(v.index, h),
                source,
                now,
                k,
            ),
    ensures
        chain::state_under(v, h, source, now) matches Ok(s) && ledger(
            chain::branch(v.index, h),
            source,
            chain::height_of(v.index, h),
        ) == Some(s),
{
    lemma_plan(v, h, source);
    let (base, todo) = chain::replay_plan(v, h)->0;
    lemma_replay(v, h, source, now, base, todo, todo.len() as int);
    assert(todo.subrange(0, todo.len() as int) =~= todo);
    let at = chain::replay(v, source, now, base, todo)->Ok_0;
    lemma_rebuilt(v, h, source, now, base, todo, at);
}

/// What a replay of the whole plan leads to is the state.
proof fn lemma_rebuilt<S: BlockSource>(
    v: ChainView,
    h: hash::Hash,
    source: &S,
    now: u64,
    base: Base,
    todo: Seq<hash::Hash>,
    at: Base,
)
    requires
        chain::replay_plan(v, h) == Some((base, todo)),
        chain::replay(v, source, now, base, todo) == Ok::<Base, Fault>(at),
    ensures
        chain::state_under(v, h, source, now) == Ok::<StateView, Fault>(at.state),
{
}

/// Whether a block is new, has a known parent one below it, and adds to work
/// that can still be counted.
pub open spec fn follows_a_known_block(v: ChainView, b: BlockView) -> bool {
    &&& chain::entry_of(v.index, block::header_hash(b.header)) is None
    &&& b.header.height.0 > 0
    &&& chain::entry_of(v.index, b.header.previous_hash) matches Some(p) && p.header.height.0 + 1
        == b.header.height.0 && p.cumulative_work@ + chain::bits_work(b.header.bits.0)
        < bytes::pow256(32)
}

/// The work behind a block.
pub open spec fn work_behind(v: ChainView, b: BlockView) -> nat {
    chain::entry_of(v.index, b.header.previous_hash)->0.cumulative_work@ + chain::bits_work(
        b.header.bits.0,
    )
}

/// A valid block on top of the tip is taken, and is the tip.
pub proof fn valid_block_extends_the_chain<S: BlockSource>(
    v: ChainView,
    b: BlockView,
    source: &S,
    now: u64,
)
    requires
        v.wf(),
        follows_a_known_block(v, b),
        b.header.previous_hash == v.tip.hash,
        chain::context_for(
            v.params,
            v.tip.supply,
            b.header.height.0,
            chain::branch(v.index, v.tip.hash),
            now,
        ) matches Ok(ctx) && block::after_block(b, ctx, v.state) is Ok,
    ensures
        ({
            let (after, outcome) = chain::offered(v, b, source, now);
            let ctx = chain::context_for(
                v.params,
                v.tip.supply,
                b.header.height.0,
                chain::branch(v.index, v.tip.hash),
                now,
            )->Ok_0;
            &&& outcome == Ok::<BlockOutcome, Fault>(BlockOutcome::Extended)
            &&& after.tip.hash == block::header_hash(b.header)
            &&& after.tip.height == b.header.height
            &&& after.tip.header == b.header
            &&& after.tip.cumulative_work@ == work_behind(v, b)
            &&& block::after_block(b, ctx, v.state) == Ok::<StateView, Fault>(after.state)
            &&& after.headers == v.headers.insert(b.header.height.0, b.header)
            &&& after.params == v.params
        }),
{
    bytes::lemma_pow256_values();
    chain::lemma_of_number(work_behind(v, b));
}

/// A valid block on a known branch is never refused, however far the branch runs
/// beside the chain. It becomes the tip exactly when the work behind it is more
/// than that behind the tip, or as much and its hash is the smaller number;
/// otherwise the chain stays as it was, and the block is known.
pub proof fn valid_branch_block_is_taken<S: BlockSource>(
    v: ChainView,
    b: BlockView,
    source: &S,
    now: u64,
)
    requires
        v.wf(),
        truthful(v, source),
        follows_a_known_block(v, b),
        b.header.previous_hash != v.tip.hash,
        forall|k: int|
            0 < k < b.header.height.0 ==> #[trigger] valid_at(
                v,
                chain::branch(v.index, b.header.previous_hash),
                source,
                now,
                k,
            ),
        ledger(
            chain::branch(v.index, b.header.previous_hash),
            source,
            (b.header.height.0 - 1) as nat,
        ) matches Some(before) && (chain::context_for(
            v.params,
            v.tip.supply,
            b.header.height.0,
            chain::branch_window(v.index, b.header.previous_hash),
            now,
        ) matches Ok(ctx) && block::after_block(b, ctx, before) is Ok),
    ensures
        ({
            let (after, outcome) = chain::offered(v, b, source, now);
            let hash = block::header_hash(b.header);
            let wins = work_behind(v, b) > v.tip.cumulative_work@ || (work_behind(v, b)
                == v.tip.cumulative_work@ && bytes::be_value(hash.0@) < bytes::be_value(
                v.tip.hash.0@,
            ));
            &&& outcome is Ok
            &&& chain::entry_of(after.index, hash) matches Some(e) && e.header == b.header
                && e.cumulative_work@ == work_behind(v, b)
            &&& wins ==> {
                &&& outcome->Ok_0 is Reorganized
                &&& after.tip.hash == hash
                &&& after.tip.height == b.header.height
                &&& after.tip.cumulative_work@ == work_behind(v, b)
                &&& after.headers == chain::branch(after.index, hash)
            }
            &&& !wins ==> {
                &&& outcome->Ok_0 is SideBranch
                &&& after.tip == v.tip
                &&& after.state == v.state
                &&& after.headers == v.headers
            }
        }),
{
    bytes::lemma_pow256_values();
    let prev = b.header.previous_hash;
    branch_of_any_length_is_rebuilt(v, prev, source, now);
    chain::lemma_of_number(work_behind(v, b));
    let key = block::header_hash(b.header);
    keymap::put_and_lookup(
        v.index,
        key.0,
        chain::BlockIndexEntry {
            header: b.header,
            cumulative_work: u256::u256_of(work_behind(v, b)),
        },
        key.0,
    );
}

/// A block that is known is not taken again, one at height zero, one whose
/// parent is not known, and one that is not one above its parent is refused, and
/// none of them changes anything.
pub proof fn misplaced_block_changes_nothing<S: BlockSource>(
    v: ChainView,
    b: BlockView,
    source: &S,
    now: u64,
)
    ensures
        ({
            let (after, outcome) = chain::offered(v, b, source, now);
            let known = chain::entry_of(v.index, block::header_hash(b.header)) is Some;
            let parent = chain::entry_of(v.index, b.header.previous_hash);
            &&& known ==> outcome == Ok::<BlockOutcome, Fault>(BlockOutcome::Duplicate) && after
                == v
            &&& outcome == Ok::<BlockOutcome, Fault>(BlockOutcome::Duplicate) ==> known
            &&& !known && (b.header.height.0 == 0 || parent is None
                || parent->0.header.height.0 + 1 != b.header.height.0) ==> outcome is Err && after
                == v
            &&& outcome is Err ==> after == v
        }),
{
}

// ---------------------------------------------------------------------------
// The states that a chain holds
// ---------------------------------------------------------------------------

/// A chain that is its genesis block holds the state before any block.
pub proof fn genesis_holds_a_true_state<S: BlockSource>(params: ChainParams, source: &S)
    ensures
        truthful(chain::genesis_chain(params), source),
{
}

proof fn lemma_replay_is_true<S: BlockSource>(
    v: ChainView,
    h: hash::Hash,
    source: &S,
    now: u64,
    base: Base,
    todo: Seq<hash::Hash>,
    n: int,
)
    requires
        v.wf(),
        chain::entry_of(v.index, h) is Some,
        planned(v, h, source, base, todo),
        0 <= n <= todo.len(),
        chain::replay(v, source, now, base, todo.subrange(0, n)) is Ok,
    ensures
        ledger(
            chain::branch(v.index, h),
            source,
            (chain::height_of(v.index, h) - todo.len() + n) as nat,
        ) == Some(chain::replay(v, source, now, base, todo.subrange(0, n))->Ok_0.state),
    decreases n,
{
    let part = todo.subrange(0, n);
    if n > 0 {
        assert(part.drop_last() =~= todo.subrange(0, n - 1));
        assert(part.last() == todo[n - 1]);
        lemma_replay_is_true(v, h, source, now, base, todo, n - 1);
        let at = chain::replay(v, source, now, base, part.drop_last())->Ok_0;
        let b = source.block_under(part.last())->0;
        let ctx = chain::context_for(
            v.params,
            v.tip.supply,
            b.header.height.0,
            at.headers,
            now,
        )->Ok_0;
        lemma_block_is_its_transactions(b, ctx, at.state);
    } else {
        assert(part =~= Seq::<hash::Hash>::empty());
    }
}

proof fn lemma_extended_is_true<S: BlockSource>(
    v: ChainView,
    b: BlockView,
    work: nat,
    s: StateView,
    source: &S,
)
    requires
        v.wf(),
        truthful(v, source),
        v.tip.height.0 + 1 == b.header.height.0,
        source.block_under(block::header_hash(b.header)) == Some(b),
        block::after_transactions(b.txs, v.state) == Ok::<StateView, Fault>(s),
    ensures
        truthful(chain::extended(v, b, work, s), source),
{
    let w = chain::extended(v, b, work, s);
    let top = b.header.height.0;
    lemma_branch_top(v.index, v.tip.hash);
    assert forall|k: int|
        w.tip.height.0 - w.journal.len() <= k <= w.tip.height.0 implies ledger(
        w.headers,
        source,
        k as nat,
    ) == Some(#[trigger] held_at(w, k)) by {
        lemma_extended_agrees(v.headers, w.headers, source, top, b.header, (top - 1) as nat);
        if k < top {
            lemma_extended_agrees(v.headers, w.headers, source, top, b.header, k as nat);
            assert(held_at(v, k) == held_at(w, k));
        } else {
            assert(held_at(v, top - 1) == v.state);
        }
    }
}

/// Every state that a chain holds stays the one that its blocks lead to, if the
/// source gives each block that is offered and keeps giving the same ones.
pub proof fn offering_keeps_the_states_true<S: BlockSource>(
    v: ChainView,
    b: BlockView,
    source: &S,
    now: u64,
)
    requires
        v.wf(),
        truthful(v, source),
        source.block_under(block::header_hash(b.header)) == Some(b),
    ensures
        truthful(chain::offered(v, b, source, now).0, source),
{
    let (w, outcome) = chain::offered(v, b, source, now);
    let prev = b.header.previous_hash;
    let height = b.header.height.0;
    match outcome {
        Ok(BlockOutcome::Extended) => {
            let ctx = chain::context_for(v.params, v.tip.supply, height, v.headers, now)->Ok_0;
            let s = block::after_block(b, ctx, v.state)->Ok_0;
            lemma_block_is_its_transactions(b, ctx, v.state);
            lemma_extended_is_true(v, b, work_behind(v, b), s, source);
        },
        Ok(BlockOutcome::Reorganized { .. }) => {
            let ctx = chain::context_for(
                v.params,
                v.tip.supply,
                height,
                chain::branch_window(v.index, prev),
                now,
            )->Ok_0;
            let before = chain::state_under(v, prev, source, now)->Ok_0;
            lemma_block_is_its_transactions(b, ctx, before);
            lemma_plan(v, prev, source);
            let (base, todo) = chain::replay_plan(v, prev)->0;
            assert(todo.subrange(0, todo.len() as int) =~= todo);
            lemma_replay_is_true(v, prev, source, now, base, todo, todo.len() as int);
            lemma_reorganized_is_true(v, b, source, w, before);
        },
        _ => {
            assert forall|k: int|
                w.tip.height.0 - w.journal.len() <= k <= w.tip.height.0 implies ledger(
                w.headers,
                source,
                k as nat,
            ) == Some(#[trigger] held_at(w, k)) by {
                assert(held_at(w, k) == held_at(v, k));
            }
        },
    }
}

proof fn lemma_reorganized_is_true<S: BlockSource>(
    v: ChainView,
    b: BlockView,
    source: &S,
    w: ChainView,
    before: StateView,
)
    requires
        v.wf(),
        chain::entry_of(v.index, block::header_hash(b.header)) is None,
        b.header.height.0 > 0,
        chain::entry_of(v.index, b.header.previous_hash) matches Some(p) && p.header.height.0 + 1
            == b.header.height.0,
        work_behind(v, b) < u256::u256_limit(),
        ledger(
            chain::branch(v.index, b.header.previous_hash),
            source,
            (b.header.height.0 - 1) as nat,
        ) == Some(before),
        source.block_under(block::header_hash(b.header)) == Some(b),
        block::after_transactions(b.txs, before) == Ok::<StateView, Fault>(w.state),
        w == chain::reorganized(v, b, work_behind(v, b), w.state),
    ensures
        truthful(w, source),
{
    let prev = b.header.previous_hash;
    let key = block::header_hash(b.header);
    let top = b.header.height.0;
    let work = work_behind(v, b);
    let e = chain::BlockIndexEntry { header: b.header, cumulative_work: u256::u256_of(work) };
    chain::lemma_of_number(work);
    chain::lemma_record(v.index, e);
    chain::lemma_branch_stable(v.index, key, e, prev);
    keymap::put_and_lookup(v.index, key.0, e, key.0);
    keymap::put_and_lookup(v.index, key.0, e, prev.0);
    let low = chain::branch(v.index, prev);
    assert(prev != key);
    assert(prev.0 != key.0);
    assert(chain::entry_of(w.index, prev) == chain::entry_of(v.index, prev));
    assert(w.headers == low.insert(top, b.header));
    lemma_extended_agrees(low, w.headers, source, top, b.header, (top - 1) as nat);
    assert(held_at(w, top as int) == w.state);
}

/// The context of the next block on a branch reads the last headers of the
/// branch, and would be no other if it read them all: same parent, same height,
/// same median and same bits.
pub proof fn context_reads_the_branch(
    v: ChainView,
    prev: hash::Hash,
    now: u64,
)
    requires
        v.wf(),
        chain::entry_of(v.index, prev) is Some,
        chain::height_of(v.index, prev) < u32::MAX,
    ensures
        ({
            let height = (chain::height_of(v.index, prev) + 1) as u32;
            let hs = chain::branch(v.index, prev);
            let short = chain::context_for(
                v.params,
                v.tip.supply,
                height,
                chain::branch_window(v.index, prev),
                now,
            );
            let full = chain::context_for(v.params, v.tip.supply, height, hs, now);
            &&& short is Ok <==> full is Ok
            &&& short matches Ok(ctx) ==> {
                &&& ctx.previous_hash == prev
                &&& ctx.expected_height.0 == height
                &&& ctx.network_time == now
                &&& ctx.pow_algorithm == v.params.pow
                &&& ctx.median_time_past == (full->Ok_0).median_time_past
                &&& ctx.median_time_past == crate::consensus::headers::median_before(hs, height)
                &&& ctx.expected_bits == (full->Ok_0).expected_bits
                &&& crate::consensus::retarget::bits_for(height, hs, v.params) == Ok::<
                    crate::types::CompactTarget,
                    Fault,
                >(ctx.expected_bits)
            }
        }),
{
    let height = (chain::height_of(v.index, prev) + 1) as u32;
    let hs = chain::branch(v.index, prev);
    let window = chain::branch_window(v.index, prev);
    lemma_branch_top(v.index, prev);
    assert forall|k: u32| height <= k + 10 && k < height implies (#[trigger] hs.contains_key(k)
        <==> window.contains_key(k)) && hs[k] == window[k] by {
        assert(hs.contains_key(k));
    }
    crate::consensus::retarget::bits_depend_on_the_window_alone(height, hs, window, v.params);
    crate::consensus::headers::median_depends_on_the_window_alone(height, hs, window);
    assert(window.contains_key((height - 1) as u32));
}

proof fn lemma_fork_height(old: Headers, new: Headers, top: u32)
    ensures
        ({
            let f = chain::fork_height(old, new, top);
            &&& f <= top
            &&& f > 0 ==> old.contains_key(f) && new.contains_key(f) && block::header_hash(old[f])
                == block::header_hash(new[f])
            &&& forall|k: u32|
                f < k <= top && #[trigger] old.contains_key(k) && new.contains_key(k)
                    ==> block::header_hash(old[k]) != block::header_hash(new[k])
        }),
    decreases top,
{
    if top > 0 {
        lemma_fork_height(old, new, (top - 1) as u32);
    }
}

/// A reorganization tells how many blocks of the old chain are gone: those above
/// the highest block that both chains have, and none below.
pub proof fn rollback_depth_is_counted<S: BlockSource>(
    v: ChainView,
    b: BlockView,
    source: &S,
    now: u64,
)
    requires
        v.wf(),
    ensures
        ({
            let (after, outcome) = chain::offered(v, b, source, now);
            outcome matches Ok(BlockOutcome::Reorganized { depth }) ==> {
                let fork = v.tip.height.0 - depth;
                &&& 0 <= fork
                &&& fork > 0 ==> after.headers.contains_key(fork as u32) && block::header_hash(
                    v.headers[fork as u32],
                ) == block::header_hash(after.headers[fork as u32])
                &&& forall|k: u32|
                    fork < k <= v.tip.height.0 && #[trigger] after.headers.contains_key(k)
                        ==> block::header_hash(v.headers[k]) != block::header_hash(
                        after.headers[k],
                    )
            }
        }),
{
    let (after, outcome) = chain::offered(v, b, source, now);
    if outcome matches Ok(BlockOutcome::Reorganized { .. }) {
        let depth = outcome->Ok_0->depth;
        let old = v.headers;
        lemma_fork_height(old, after.headers, v.tip.height.0);
        let fork = (v.tip.height.0 - depth) as u32;
        assert(fork == chain::fork_height(old, after.headers, v.tip.height.0));
        assert forall|k: u32|
            fork < k <= v.tip.height.0 && #[trigger] after.headers.contains_key(
                k,
            ) implies block::header_hash(v.headers[k]) != block::header_hash(after.headers[k]) by {
            lemma_branch_top(v.index, v.tip.hash);
            assert(old.contains_key(k)) by {
                chain::lemma_branch(v.index, v.tip.hash);
            }
        }
    }
}

/// Offering a block adds at most that one to the blocks that are known, and to
/// the tips that the chain has had, and changes none of the others.
pub proof fn known_blocks_stay_known<S: BlockSource>(
    v: ChainView,
    b: BlockView,
    source: &S,
    now: u64,
    h: hash::Hash,
)
    requires
        v.wf(),
        keymap::ascending(v.tips),
        h != block::header_hash(b.header),
    ensures
        ({
            let after = chain::offered(v, b, source, now).0;
            &&& chain::entry_of(after.index, h) == chain::entry_of(v.index, h)
            &&& keymap::value_of(after.tips, h.0) == keymap::value_of(v.tips, h.0)
            &&& after.params == v.params
        }),
{
    let (after, outcome) = chain::offered(v, b, source, now);
    let hash = block::header_hash(b.header);
    if outcome is Ok && after != v {
        let work = work_behind(v, b);
        let e = chain::BlockIndexEntry {
            header: b.header,
            cumulative_work: u256::u256_of(work),
        };
        keymap::put_and_lookup(v.index, hash.0, e, h.0);
        keymap::put_and_lookup(v.tips, hash.0, after.tip, h.0);
        assert(h.0 != hash.0);
    }
}

/// A chain that is extended keeps the state it had as the last of its journal,
/// and those before it in their order, up to two thousand of them.
pub proof fn journal_keeps_the_states_behind<S: BlockSource>(
    v: ChainView,
    b: BlockView,
    source: &S,
    now: u64,
)
    requires
        v.wf(),
        chain::offered(v, b, source, now).1 == Ok::<BlockOutcome, Fault>(BlockOutcome::Extended),
    ensures
        ({
            let after = chain::offered(v, b, source, now).0;
            let n = after.journal.len();
            &&& n == if v.journal.len() < 2000 {
                v.journal.len() + 1
            } else {
                2000
            }
            &&& after.journal[n - 1] == v.state
            &&& forall|i: int|
                1 <= i < n ==> after.journal[n - 1 - i] == #[trigger] v.journal[v.journal.len() - i]
        }),
{
}

/// A block that is taken was valid: it followed a known block, and on the
/// accounts as of that one every rule for blocks was met by it. What it leaves of
/// the accounts is the chain's if it is the tip.
pub proof fn taken_block_was_valid<S: BlockSource>(
    v: ChainView,
    b: BlockView,
    source: &S,
    now: u64,
)
    requires
        v.wf(),
        chain::offered(v, b, source, now).1 matches Ok(x) && x != BlockOutcome::Duplicate,
    ensures
        ({
            let (after, outcome) = chain::offered(v, b, source, now);
            let prev = b.header.previous_hash;
            let below = if prev == v.tip.hash {
                Ok(v.state)
            } else {
                chain::state_under(v, prev, source, now)
            };
            let window = if prev == v.tip.hash {
                v.headers
            } else {
                chain::branch_window(v.index, prev)
            };
            let ctx = chain::context_for(v.params, v.tip.supply, b.header.height.0, window, now);
            &&& follows_a_known_block(v, b)
            &&& below is Ok
            &&& ctx is Ok
            &&& block::after_block(b, ctx->Ok_0, below->Ok_0) is Ok
            &&& after.tip.hash == block::header_hash(b.header) ==> block::after_block(
                b,
                ctx->Ok_0,
                below->Ok_0,
            ) == Ok::<StateView, Fault>(after.state)
            &&& outcome->Ok_0 == BlockOutcome::Extended <==> prev == v.tip.hash
            &&& outcome->Ok_0 == BlockOutcome::SideBranch <==> after.tip.hash == v.tip.hash
        }),
{
    bytes::lemma_pow256_values();
}

/// The work of the blocks of a branch between two heights.
pub open spec fn work_between(hs: Headers, low: int, high: int) -> nat
    decreases high - low,
{
    if high <= low {
        0
    } else {
        chain::bits_work(hs[high as u32].bits.0) + work_between(hs, low, high - 1)
    }
}

proof fn lemma_work_between(a: Headers, b: Headers, low: int, high: int)
    requires
        0 <= low,
        forall|k: u32| k <= high ==> #[trigger] a[k] == b[k],
        high <= u32::MAX,
    ensures
        work_between(a, low, high) == work_between(b, low, high),
    decreases high - low,
{
    if high > low {
        lemma_work_between(a, b, low, high - 1);
        assert(a[high as u32] == b[high as u32]);
    }
}

/// The work behind a block is that of its genesis block and of every block above
/// that one on its branch.
pub proof fn work_adds_up_along_a_branch(v: ChainView, h: hash::Hash)
    requires
        v.wf(),
        chain::entry_of(v.index, h) is Some,
    ensures
        ({
            let hs = chain::branch(v.index, h);
            let root = chain::entry_of(v.index, block::header_hash(hs[0]));
            &&& root is Some
            &&& chain::entry_of(v.index, h)->0.cumulative_work@ == root->0.cumulative_work@
                + work_between(hs, 0, chain::height_of(v.index, h) as int)
        }),
    decreases chain::height_of(v.index, h),
{
    let e = chain::entry_of(v.index, h)->0;
    chain::lemma_entry(v.index, h);
    let hs = chain::branch(v.index, h);
    if e.header.height.0 > 0 {
        let prev = e.header.previous_hash;
        let low = chain::branch(v.index, prev);
        work_adds_up_along_a_branch(v, prev);
        assert(hs == low.insert(e.header.height.0, e.header));
        assert forall|k: u32| k <= e.header.height.0 - 1 implies #[trigger] hs[k] == low[k] by {}
        lemma_work_between(hs, low, 0, e.header.height.0 - 1);
    }
}

/// What a block is held against names the block before it and comes from the
/// headers below: that one's hash, time and state root, and as a seed the hash of
/// the block that stands a hundred below the start of the block's epoch of a
/// thousand, or that of a fixed phrase where there is none.
pub proof fn context_names_parent_and_seed(
    params: ChainParams,
    supply: u64,
    height: u32,
    headers: Headers,
    now: u64,
)
    ensures
        ({
            let start = height - height as int % 1000;
            let r = chain::context_for(params, supply, height, headers, now);
            &&& r is Ok ==> height > 0 && headers.contains_key((height - 1) as u32)
            &&& r matches Ok(ctx) ==> {
                let parent = headers[(height - 1) as u32];
                &&& ctx.previous_hash == block::header_hash(parent)
                &&& ctx.expected_height.0 == height
                &&& ctx.previous_timestamp == parent.timestamp
                &&& ctx.previous_state_root == parent.state_root
                &&& ctx.current_supply == supply
                &&& ctx.network_time == now
                &&& ctx.pow_algorithm == params.pow
                &&& start >= 100 && headers.contains_key((start - 100) as u32) ==> ctx.pow_seed
                    == block::header_hash(headers[(start - 100) as u32])
                &&& !(start >= 100 && headers.contains_key((start - 100) as u32))
                    ==> ctx.pow_seed.0 == hash::spec_blake3("Chroma Genesis Seed".spec_bytes())
            }
        }),
{
    crate::crypto::randomx::seed_comes_from_before_the_epoch(height, 1000, 100);
}

} // verus!
