//! Bringing a chain back from what was stored of it.

use vstd::prelude::*;
use crate::block;
use crate::block::{Block, BlockHeader, BlockView};
use crate::bytes;
use crate::consensus::chain;
use crate::consensus::chain::{BlockIndexEntry, BlockSource, ChainState, ChainTip, ChainView};
use crate::consensus::genesis;
use crate::consensus::headers;
use crate::consensus::params::ChainParams;
use crate::consensus::soundness;
use crate::hash;
use crate::keymap;
use crate::state;
use crate::state::{State, StateView};
use crate::u256;

verus! {

/// What is stored of a tip.
#[derive(Clone, Copy, Debug)]
pub struct PersistedTip {
    pub height: u32,
    pub hash: hash::Hash,
    pub cumulative_work: [u8; 32],
    pub supply: u64,
}

impl PersistedTip {
    /// What is to be stored of a tip.
    pub fn of(tip: &ChainTip) -> (r: PersistedTip)
        ensures
            r.height == tip.height.0,
            r.hash == tip.hash,
            bytes::be_value(r.cumulative_work@) == tip.cumulative_work@,
            r.supply == tip.supply,
    {
        PersistedTip {
            height: tip.height.0,
            hash: tip.hash,
            cumulative_work: tip.cumulative_work.to_be_bytes(),
            supply: tip.supply,
        }
    }
}

/// A chain with one more header on top, and the state as it was. None if the
/// header does not follow the tip.
pub open spec fn linked(v: ChainView, h: BlockHeader) -> Option<ChainView> {
    let key = block::header_hash(h);
    let work = v.tip.cumulative_work@ + chain::bits_work(h.bits.0);
    if v.tip.height.0 + 1 != h.height.0 || h.previous_hash != v.tip.hash || chain::entry_of(
        v.index,
        key,
    ) is Some || work >= u256::u256_limit() {
        None
    } else {
        Some(
            ChainView {
                headers: v.headers.insert(h.height.0, h),
                index: keymap::put(
                    v.index,
                    key.0,
                    BlockIndexEntry { header: h, cumulative_work: u256::u256_of(work) },
                ),
                tip: ChainTip {
                    height: h.height,
                    hash: key,
                    header: h,
                    cumulative_work: u256::u256_of(work),
                    supply: v.tip.supply,
                },
                ..v
            },
        )
    }
}

/// The chain of some headers on top of the genesis block, without their
/// effects. None if they do not link up.
pub open spec fn retraced(params: ChainParams, s: Seq<BlockHeader>) -> Option<ChainView>
    decreases s.len(),
{
    if s.len() == 0 {
        Some(chain::genesis_chain(params))
    } else {
        match retraced(params, s.drop_last()) {
            Some(v) => linked(v, s.last()),
            None => None,
        }
    }
}

/// The chain that stored headers and a stored state make up. The state is
/// trusted only if its root is the one that the tip commits to. None if
/// anything does not line up.
pub open spec fn restored(
    params: ChainParams,
    tip: PersistedTip,
    s: Seq<BlockHeader>,
    kept: StateView,
) -> Option<ChainView> {
    match retraced(params, s) {
        Some(v) => {
            let top = ChainTip { supply: kept.supply, ..v.tip };
            if v.tip.height.0 == tip.height && v.tip.hash == tip.hash && state::state_root(
                kept.accounts,
            ) == v.tip.header.state_root {
                Some(
                    ChainView {
                        state: kept,
                        tip: top,
                        tips: keymap::put(v.tips, top.hash.0, top),
                        ..v
                    },
                )
            } else {
                None
            }
        },
        None => None,
    }
}

/// A header that follows the tip keeps a chain sound.
pub proof fn linking_keeps_the_chain_sound(v: ChainView, h: BlockHeader)
    requires
        v.wf(),
    ensures
        linked(v, h) matches Some(w) ==> w.wf(),
{
    if linked(v, h) is Some {
        let w = linked(v, h)->0;
        let key = block::header_hash(h);
        let work = v.tip.cumulative_work@ + chain::bits_work(h.bits.0);
        let e = BlockIndexEntry { header: h, cumulative_work: u256::u256_of(work) };
        chain::lemma_of_number(work);
        chain::lemma_record(v.index, e);
        keymap::put_and_lookup(v.index, key.0, e, key.0);
        keymap::put_and_lookup(v.index, key.0, e, v.tip.hash.0);
        assert(key.0 != v.tip.hash.0);
        chain::lemma_branch_stable(v.index, key, e, v.tip.hash);
        assert(chain::branch(w.index, key) == chain::branch(w.index, v.tip.hash).insert(
            h.height.0,
            h,
        ));
    }
}

/// A chain that is brought back is sound, and stands where the stored tip said
/// it would, with the stored state.
pub proof fn restored_chain_is_sound(
    params: ChainParams,
    tip: PersistedTip,
    s: Seq<BlockHeader>,
    kept: StateView,
)
    requires
        restored(params, tip, s, kept) is Some,
    ensures
        ({
            let v = restored(params, tip, s, kept)->0;
            &&& v.wf()
            &&& v.tip.height.0 == tip.height == s.len()
            &&& v.tip.hash == tip.hash
            &&& v.state == kept
            &&& v.journal.len() == 0
            &&& state::state_root(v.state.accounts) == v.tip.header.state_root
        }),
{
    lemma_retraced(params, s);
}

proof fn lemma_retraced(params: ChainParams, s: Seq<BlockHeader>)
    ensures
        retraced(params, s) matches Some(v) ==> v.wf() && v.tip.height.0 == s.len()
            && v.journal.len() == 0,
    decreases s.len(),
{
    if s.len() == 0 {
        chain::genesis_chain_is_sound(params);
    } else {
        lemma_retraced(params, s.drop_last());
        if retraced(params, s.drop_last()) is Some {
            linking_keeps_the_chain_sound(retraced(params, s.drop_last())->0, s.last());
        }
    }
}

/// The chain after some blocks in order, up to the first that it refuses.
pub open spec fn replayed<S: BlockSource>(
    v: ChainView,
    s: Seq<BlockView>,
    source: &S,
    now: u64,
) -> ChainView
    decreases s.len(),
{
    if s.len() == 0 {
        v
    } else {
        let (w, r) = chain::offered(v, s[0], source, now);
        if r is Ok {
            replayed(w, s.subrange(1, s.len() as int), source, now)
        } else {
            v
        }
    }
}

impl ChainState {
    /// Put one more header on top, leaving the state as it is. Gives whether it
    /// follows the tip; the chain is unchanged if not.
    fn link(&mut self, header: &BlockHeader) -> (r: bool)
        requires
            old(self)@.wf(),
        ensures
            match linked(old(self)@, *header) {
                Some(w) => r && final(self)@ == w && w.wf(),
                None => !r && final(self)@ == old(self)@,
            },
    {
        let h = header.hash();
        proof {
            linking_keeps_the_chain_sound(self@, *header);
            keymap::lemma_value_of(self@.index, h.0);
        }
        if self.tip.height.0 == u32::MAX || self.tip.height.0 + 1 != header.height.0
            || header.previous_hash != self.tip.hash || self.index.contains_key(&h.0) {
            return false;
        }
        let work = chain::header_work(header);
        match self.tip.cumulative_work.checked_add(&work) {
            Some(total) => {
                proof {
                    u256::lemma_u256_of(total);
                }
                let ghost before = self@;
                headers::put_header(&mut self.headers, header.height.0, *header);
                self.index.insert(
                    h.0,
                    BlockIndexEntry { header: *header, cumulative_work: total },
                );
                self.tip = ChainTip {
                    height: header.height,
                    hash: h,
                    header: *header,
                    cumulative_work: total,
                    supply: self.tip.supply,
                };
                assert(self@ =~= linked(before, *header)->0);
                true
            },
            None => {
                proof {
                    u256::lemma_u256_bound(work);
                }
                false
            },
        }
    }

    /// Bring a chain back from the stored headers above genesis, in ascending
    /// height, and the stored accounts.
    ///
    /// Revalidating every block would cost the whole chain's validation time,
    /// which grows without bound. `None` when anything does not line up: the
    /// caller is to replay instead.
    pub fn restore(
        params: ChainParams,
        tip: &PersistedTip,
        stored: &[BlockHeader],
        kept: State,
    ) -> (r: Option<ChainState>)
        ensures
            match r {
                Some(c) => restored(params, *tip, stored@, kept@) == Some(c@) && c@.wf(),
                None => restored(params, *tip, stored@, kept@) is None,
            },
    {
        let mut c = ChainState::with_params(params);
        let mut i: usize = 0;
        assert(stored@.subrange(0, 0) =~= Seq::<BlockHeader>::empty());
        while i < stored.len()
            invariant
                i <= stored@.len(),
                c@.wf(),
                retraced(params, stored@.subrange(0, i as int)) == Some(c@),
            decreases stored@.len() - i,
        {
            proof {
                let t = stored@.subrange(0, i + 1);
                assert(t.drop_last() =~= stored@.subrange(0, i as int));
                assert(t.last() == stored@[i as int]);
            }
            if !c.link(&stored[i]) {
                proof {
                    lemma_retraced_prefix(params, stored@, i + 1);
                }
                return None;
            }
            i = i + 1;
        }
        assert(stored@.subrange(0, i as int) =~= stored@);
        if c.tip.height.0 != tip.height || c.tip.hash != tip.hash || kept.compute_state_root()
            != c.tip.header.state_root {
            return None;
        }
        proof {
            restored_chain_is_sound(params, *tip, stored@, kept@);
        }
        let ghost v = c@;
        c.tip.supply = kept.total_supply();
        c.state = kept;
        let top = c.tip;
        c.tips.insert(top.hash.0, top);
        assert(c@ =~= restored(params, *tip, stored@, c.state@)->0);
        Some(c)
    }

    /// Bring a chain back by validating stored blocks again, in ascending
    /// height, up to the first that does not hold.
    pub fn replay<S: BlockSource>(&mut self, blocks: &[Block], source: &S, now: u64)
        requires
            old(self)@.wf(),
        ensures
            final(self)@.wf(),
            final(self)@ == replayed(old(self)@, block_views(blocks@), source, now),
    {
        let ghost all = block_views(blocks@);
        let ghost v = self@;
        let mut i: usize = 0;
        assert(all.subrange(0, all.len() as int) =~= all);
        while i < blocks.len()
            invariant
                i <= blocks@.len(),
                all == block_views(blocks@),
                self@.wf(),
                v == old(self)@,
                replayed(v, all, source, now) == replayed(
                    self@,
                    all.subrange(i as int, all.len() as int),
                    source,
                    now,
                ),
            decreases blocks@.len() - i,
        {
            proof {
                let rest = all.subrange(i as int, all.len() as int);
                assert(rest[0] == blocks@[i as int]@);
                assert(rest.subrange(1, rest.len() as int) =~= all.subrange(
                    i + 1,
                    all.len() as int,
                ));
            }
            let ghost before = self@;
            if self.apply_block_at(&blocks[i], source, now).is_err() {
                proof {
                    chain::offering_keeps_the_chain_sound(before, blocks@[i as int]@, source, now);
                }
                return;
            }
            i = i + 1;
        }
    }
}

/// The headers of the active chain above genesis, in ascending height.
pub open spec fn headers_above(v: ChainView) -> Seq<BlockHeader> {
    Seq::new(v.tip.height.0 as nat, |i: int| v.headers[(i + 1) as u32])
}

/// What has been retraced of a chain so far.
spec fn retraces(v: ChainView, w: ChainView, k: int) -> bool {
    &&& w.params == v.params
    &&& w.tip.height.0 == k
    &&& w.tip.header == v.headers[k as u32]
    &&& w.tip.hash == block::header_hash(v.headers[k as u32])
    &&& w.tip.cumulative_work == chain::entry_of(v.index, w.tip.hash)->0.cumulative_work
    &&& w.headers == v.headers.restrict(Set::new(|j: u32| j <= k))
    &&& keymap::ascending(w.index)
    &&& forall|h: hash::Hash|
        (#[trigger] chain::entry_of(w.index, h)) is Some ==> exists|j: u32|
            j <= k && h == block::header_hash(#[trigger] v.headers[j])
}

proof fn lemma_active(v: ChainView, k: u32)
    requires
        v.wf(),
        k <= v.tip.height.0,
    ensures
        v.headers[k].height.0 == k,
        chain::entry_of(v.index, block::header_hash(v.headers[k])) is Some,
        chain::entry_of(v.index, block::header_hash(v.headers[k]))->0.header == v.headers[k],
        k > 0 ==> v.headers[k].previous_hash == block::header_hash(v.headers[(k - 1) as u32]),
        k == v.tip.height.0 ==> v.headers[k] == v.tip.header && block::header_hash(v.headers[k])
            == v.tip.hash,
{
    chain::lemma_branch(v.index, v.tip.hash);
}

proof fn lemma_active_domain(v: ChainView)
    requires
        v.wf(),
    ensures
        forall|k: u32| #[trigger] v.headers.contains_key(k) <==> k <= v.tip.height.0,
{
    chain::lemma_branch(v.index, v.tip.hash);
}

proof fn lemma_retraces_genesis(v: ChainView)
    requires
        v.wf(),
        soundness::anchored(v),
    ensures
        retraces(v, chain::genesis_chain(v.params), 0),
{
    lemma_active(v, 0);
    lemma_active_domain(v);
    let g = chain::genesis_chain(v.params);
    let e = BlockIndexEntry { header: g.tip.header, cumulative_work: g.tip.cumulative_work };
    let none = Seq::<([u8; 32], BlockIndexEntry)>::empty();
    assert(chain::entry_of(v.index, block::header_hash(v.headers[0u32])) == Some(e));
    assert forall|h: hash::Hash| (#[trigger] chain::entry_of(g.index, h)) is Some implies exists|
        j: u32,
    | j <= 0 && h == block::header_hash(#[trigger] v.headers[j]) by {
        keymap::put_and_lookup(none, g.tip.hash.0, e, h.0);
        keymap::lemma_value_of(none, h.0);
        assert(h == block::header_hash(v.headers[0u32]));
    }
    assert(g.headers =~= v.headers.restrict(Set::new(|j: u32| j <= 0)));
    keymap::put_and_lookup(none, g.tip.hash.0, e, g.tip.hash.0);
}

proof fn lemma_retraces_step(v: ChainView, u: ChainView, k: int)
    requires
        v.wf(),
        0 < k <= v.tip.height.0,
        retraces(v, u, k - 1),
    ensures
        linked(u, v.headers[k as u32]) is Some,
        retraces(v, linked(u, v.headers[k as u32])->0, k),
{
    let top = k as u32;
    let h = v.headers[top];
    let key = block::header_hash(h);
    lemma_active(v, top);
    lemma_active(v, (top - 1) as u32);
    lemma_active_domain(v);
    if chain::entry_of(u.index, key) is Some {
        let j = choose|j: u32| j <= k - 1 && key == block::header_hash(#[trigger] v.headers[j]);
        lemma_active(v, j);
    }
    chain::lemma_entry(v.index, key);
    let e = chain::entry_of(v.index, key)->0;
    assert(e.cumulative_work@ == u.tip.cumulative_work@ + chain::bits_work(h.bits.0));
    u256::lemma_u256_bound(e.cumulative_work);
    u256::lemma_u256_of(e.cumulative_work);
    let w = linked(u, h)->0;
    assert(linked(u, h) is Some);
    assert(w.headers =~= v.headers.restrict(Set::new(|j: u32| j <= k)));
    let added = BlockIndexEntry { header: h, cumulative_work: e.cumulative_work };
    keymap::put_and_lookup(u.index, key.0, added, key.0);
    assert forall|x: hash::Hash| (#[trigger] chain::entry_of(w.index, x)) is Some implies exists|
        j: u32,
    | j <= k && x == block::header_hash(#[trigger] v.headers[j]) by {
        keymap::put_and_lookup(u.index, key.0, added, x.0);
        if x == key {
            assert(x == block::header_hash(v.headers[top]));
        } else {
            assert(chain::entry_of(u.index, x) is Some);
            let j = choose|j: u32| j <= k - 1 && x == block::header_hash(#[trigger] v.headers[j]);
            assert(j <= k && x == block::header_hash(v.headers[j]));
        }
    }
}

proof fn lemma_retraces(v: ChainView, k: int)
    requires
        v.wf(),
        soundness::anchored(v),
        0 <= k <= v.tip.height.0,
    ensures
        retraced(v.params, headers_above(v).subrange(0, k)) is Some,
        retraces(v, retraced(v.params, headers_above(v).subrange(0, k))->0, k),
    decreases k,
{
    let s = headers_above(v).subrange(0, k);
    if k == 0 {
        lemma_retraces_genesis(v);
    } else {
        lemma_retraces(v, k - 1);
        assert(s.drop_last() =~= headers_above(v).subrange(0, k - 1));
        assert(s.last() == v.headers[k as u32]);
        lemma_retraces_step(v, retraced(v.params, s.drop_last())->0, k);
    }
}

/// A chain that has been stored comes back as it was: the same tip, the same
/// active chain and the same accounts.
pub proof fn stored_chain_comes_back(v: ChainView, tip: PersistedTip)
    requires
        v.wf(),
        soundness::anchored(v),
        tip.height == v.tip.height.0,
        tip.hash == v.tip.hash,
    ensures
        ({
            let r = restored(v.params, tip, headers_above(v), v.state);
            &&& r is Some
            &&& r->0.params == v.params
            &&& r->0.tip == v.tip
            &&& r->0.headers == v.headers
            &&& r->0.state == v.state
        }),
{
    let s = headers_above(v);
    let k = v.tip.height.0 as int;
    lemma_retraces(v, k);
    assert(s.subrange(0, k) =~= s);
    lemma_active(v, v.tip.height.0);
    lemma_active_domain(v);
    assert(v.headers.restrict(Set::new(|j: u32| j <= k)) =~= v.headers);
}

/// What some blocks hold.
pub open spec fn block_views(s: Seq<Block>) -> Seq<BlockView> {
    Seq::new(s.len(), |i: int| s[i]@)
}

proof fn lemma_retraced_prefix(params: ChainParams, s: Seq<BlockHeader>, n: int)
    requires
        0 <= n <= s.len(),
        retraced(params, s.subrange(0, n)) is None,
    ensures
        retraced(params, s) is None,
    decreases s.len() - n,
{
    if n == s.len() {
        assert(s.subrange(0, n) =~= s);
    } else {
        let t = s.subrange(0, n + 1);
        assert(t.drop_last() =~= s.subrange(0, n));
        lemma_retraced_prefix(params, s, n + 1);
    }
}

// ---------------------------------------------------------------------------
// What is brought back
// ---------------------------------------------------------------------------

/// The header at a height of a chain that some headers make on top of a genesis
/// block.
pub open spec fn header_at(params: ChainParams, s: Seq<BlockHeader>, k: int) -> BlockHeader {
    if k == 0 {
        genesis::genesis_header(params)
    } else {
        s[k - 1]
    }
}

/// The work of the blocks up to a height of such a chain.
pub open spec fn work_upto(params: ChainParams, s: Seq<BlockHeader>, k: nat) -> nat
    decreases k,
{
    chain::bits_work(header_at(params, s, k as int).bits.0) + if k == 0 {
        0
    } else {
        work_upto(params, s, (k - 1) as nat)
    }
}

/// Whether headers make a chain: each is one above the one before it and names it
/// by its hash, no hash comes twice, and the work can be counted.
pub open spec fn make_a_chain(params: ChainParams, s: Seq<BlockHeader>) -> bool {
    &&& forall|i: int|
        0 <= i < s.len() ==> (#[trigger] s[i]).height.0 == i + 1 && s[i].previous_hash
            == block::header_hash(header_at(params, s, i))
    &&& forall|i: int, j: int|
        0 <= i < j <= s.len() ==> block::header_hash(#[trigger] header_at(params, s, i))
            != block::header_hash(#[trigger] header_at(params, s, j))
    &&& work_upto(params, s, s.len()) < u256::u256_limit()
}

proof fn lemma_work_upto(params: ChainParams, a: Seq<BlockHeader>, b: Seq<BlockHeader>, k: nat)
    requires
        k <= a.len(),
        k <= b.len(),
        forall|i: int| 0 <= i < k ==> #[trigger] a[i] == b[i],
    ensures
        work_upto(params, a, k) == work_upto(params, b, k),
    decreases k,
{
    if k > 0 {
        lemma_work_upto(params, a, b, (k - 1) as nat);
        assert(a[k - 1] == b[k - 1]);
    }
}

proof fn lemma_makes(params: ChainParams, s: Seq<BlockHeader>)
    requires
        s.len() > 0,
    ensures
        ({
            let t = s.drop_last();
            let n = s.len() as int;
            make_a_chain(params, s) <==> {
                &&& make_a_chain(params, t)
                &&& s.last().height.0 == n
                &&& s.last().previous_hash == block::header_hash(header_at(params, t, n - 1))
                &&& forall|i: int|
                    0 <= i < n ==> block::header_hash(#[trigger] header_at(params, t, i))
                        != block::header_hash(s.last())
                &&& work_upto(params, t, t.len()) + chain::bits_work(s.last().bits.0)
                    < u256::u256_limit()
            }
        }),
{
    let t = s.drop_last();
    let n = s.len() as int;
    lemma_work_upto(params, s, t, t.len());
    assert forall|i: int| 0 <= i < n implies #[trigger] header_at(params, t, i) == header_at(
        params,
        s,
        i,
    ) by {}
    assert(header_at(params, s, n) == s.last());
    assert(s[n - 1] == s.last());
    if make_a_chain(params, s) {
        assert forall|i: int| 0 <= i < t.len() implies (#[trigger] t[i]).height.0 == i + 1
            && t[i].previous_hash == block::header_hash(header_at(params, t, i)) by {
            assert(t[i] == s[i]);
        }
        assert forall|i: int, j: int| 0 <= i < j <= t.len() implies block::header_hash(
            #[trigger] header_at(params, t, i),
        ) != block::header_hash(#[trigger] header_at(params, t, j)) by {
            assert(header_at(params, s, i) == header_at(params, t, i));
            assert(header_at(params, s, j) == header_at(params, t, j));
        }
        assert forall|i: int| 0 <= i < n implies block::header_hash(
            #[trigger] header_at(params, t, i),
        ) != block::header_hash(s.last()) by {
            assert(block::header_hash(header_at(params, s, i)) != block::header_hash(
                header_at(params, s, n),
            ));
        }
    }
    let whole = make_a_chain(params, t) && s.last().height.0 == n && s.last().previous_hash
        == block::header_hash(header_at(params, t, n - 1)) && (forall|i: int|
        0 <= i < n ==> block::header_hash(#[trigger] header_at(params, t, i))
            != block::header_hash(s.last())) && work_upto(params, t, t.len()) + chain::bits_work(
        s.last().bits.0,
    ) < u256::u256_limit();
    if whole {
        assert forall|i: int| 0 <= i < s.len() implies (#[trigger] s[i]).height.0 == i + 1
            && s[i].previous_hash == block::header_hash(header_at(params, s, i)) by {
            if i < n - 1 {
                assert(t[i] == s[i]);
            }
            assert(header_at(params, t, i) == header_at(params, s, i));
        }
        assert forall|i: int, j: int| 0 <= i < j <= s.len() implies block::header_hash(
            #[trigger] header_at(params, s, i),
        ) != block::header_hash(#[trigger] header_at(params, s, j)) by {
            assert(header_at(params, t, i) == header_at(params, s, i));
            if j < n {
                assert(header_at(params, t, j) == header_at(params, s, j));
            }
        }
    }
}

proof fn lemma_retraced_exactly(params: ChainParams, s: Seq<BlockHeader>)
    requires
        s.len() < u32::MAX,
    ensures
        retraced(params, s) is Some <==> make_a_chain(params, s),
        retraced(params, s) matches Some(v) ==> {
            &&& v.wf()
            &&& v.tip.height.0 == s.len()
            &&& v.tip.header == header_at(params, s, s.len() as int)
            &&& v.tip.hash == block::header_hash(v.tip.header)
            &&& v.tip.cumulative_work@ == work_upto(params, s, s.len())
            &&& forall|h: hash::Hash| #[trigger]
                chain::entry_of(v.index, h) is Some <==> exists|i: int|
                    0 <= i <= s.len() && block::header_hash(#[trigger] header_at(params, s, i)) == h
            &&& forall|k: u32| #[trigger] v.headers.contains_key(k) <==> k <= s.len()
            &&& forall|k: u32|
                k <= s.len() ==> #[trigger] v.headers[k] == header_at(params, s, k as int)
        },
    decreases s.len(),
{
    if s.len() == 0 {
        let v = chain::genesis_chain(params);
        chain::genesis_chain_is_sound(params);
        let g = genesis::genesis_header(params);
        chain::lemma_genesis_work(params);
        assert(header_at(params, s, 0) == g);
        let e = BlockIndexEntry { header: g, cumulative_work: v.tip.cumulative_work };
        let none = Seq::<([u8; 32], BlockIndexEntry)>::empty();
        assert forall|h: hash::Hash| #[trigger] chain::entry_of(v.index, h) is Some <==> exists|
            i: int,
        |
            0 <= i <= s.len() && block::header_hash(#[trigger] header_at(params, s, i)) == h by {
            keymap::put_and_lookup(none, v.tip.hash.0, e, h.0);
            keymap::lemma_value_of(none, h.0);
            assert(h.0 == v.tip.hash.0 <==> h == v.tip.hash);
            if h == v.tip.hash {
                assert(block::header_hash(header_at(params, s, 0)) == h);
            }
        }
        assert(work_upto(params, s, 0) == chain::bits_work(g.bits.0));
    } else {
        let t = s.drop_last();
        let n = s.len() as int;
        lemma_retraced_exactly(params, t);
        lemma_makes(params, s);
        if retraced(params, t) is Some {
            let v = retraced(params, t)->0;
            let h = s.last();
            let key = block::header_hash(h);
            let work = v.tip.cumulative_work@ + chain::bits_work(h.bits.0);
            linking_keeps_the_chain_sound(v, h);
            assert(chain::entry_of(v.index, key) is None <==> forall|i: int|
                0 <= i < n ==> block::header_hash(#[trigger] header_at(params, t, i)) != key);
            lemma_work_upto(params, s, t, t.len());
            assert(header_at(params, s, n) == h);
            if linked(v, h) is Some {
                let w = linked(v, h)->0;
                chain::lemma_of_number(work);
                let e = BlockIndexEntry { header: h, cumulative_work: u256::u256_of(work) };
                assert forall|x: hash::Hash| #[trigger] chain::entry_of(w.index, x) is Some
                    <==> exists|i: int|
                    0 <= i <= s.len() && block::header_hash(#[trigger] header_at(params, s, i))
                        == x by {
                    keymap::put_and_lookup(v.index, key.0, e, x.0);
                    assert(x.0 == key.0 <==> x == key);
                    if x == key {
                        assert(block::header_hash(header_at(params, s, n)) == x);
                    } else if chain::entry_of(w.index, x) is Some {
                        assert(chain::entry_of(v.index, x) is Some);
                        let i = choose|i: int|
                            0 <= i <= t.len() && block::header_hash(
                                #[trigger] header_at(params, t, i),
                            ) == x;
                        assert(header_at(params, s, i) == header_at(params, t, i));
                    } else if exists|i: int|
                        0 <= i <= s.len() && block::header_hash(#[trigger] header_at(params, s, i))
                            == x {
                        let i = choose|i: int|
                            0 <= i <= s.len() && block::header_hash(
                                #[trigger] header_at(params, s, i),
                            ) == x;
                        assert(header_at(params, s, i) == header_at(params, t, i));
                        assert(chain::entry_of(v.index, x) is Some);
                    }
                }
                assert forall|k: u32| k <= s.len() implies #[trigger] w.headers[k] == header_at(
                    params,
                    s,
                    k as int,
                ) by {
                    if k < n {
                        assert(v.headers[k] == header_at(params, t, k as int));
                    }
                }
            }
        }
    }
}

/// A stored chain is brought back exactly when its headers make a chain on the
/// network's genesis block that ends in the stored tip, and the stored accounts
/// have the root that this tip commits to. It is then the chain of those headers.
pub proof fn restored_exactly_when_it_lines_up(
    params: ChainParams,
    tip: PersistedTip,
    s: Seq<BlockHeader>,
    kept: StateView,
)
    requires
        s.len() < u32::MAX,
    ensures
        ({
            let r = restored(params, tip, s, kept);
            let top = header_at(params, s, s.len() as int);
            &&& r is Some <==> {
                &&& make_a_chain(params, s)
                &&& tip.height == s.len()
                &&& tip.hash == block::header_hash(top)
                &&& state::state_root(kept.accounts) == top.state_root
            }
            &&& r matches Some(v) ==> {
                &&& v.params == params
                &&& v.state == kept
                &&& v.tip.header == top
                &&& v.tip.supply == kept.supply
                &&& v.tip.cumulative_work@ == work_upto(params, s, s.len())
                &&& forall|k: u32| #[trigger] v.headers.contains_key(k) <==> k <= s.len()
                &&& forall|k: u32|
                    k <= s.len() ==> #[trigger] v.headers[k] == header_at(params, s, k as int)
            }
        }),
{
    lemma_retraced_exactly(params, s);
    lemma_retraced_params(params, s);
}

proof fn lemma_retraced_params(params: ChainParams, s: Seq<BlockHeader>)
    ensures
        retraced(params, s) matches Some(v) ==> v.params == params,
    decreases s.len(),
{
    if s.len() > 0 {
        lemma_retraced_params(params, s.drop_last());
    }
}

/// Replaying one block is offering it. Replaying more of them is replaying the
/// rest after the first ones, as long as none of those is refused; after one that
/// is, nothing that follows counts.
pub proof fn replaying_stops_at_the_first_refusal<S: BlockSource>(
    v: ChainView,
    b: BlockView,
    rest: Seq<BlockView>,
    source: &S,
    now: u64,
)
    ensures
        replayed(v, Seq::<BlockView>::empty(), source, now) == v,
        chain::offered(v, b, source, now).1 is Ok ==> replayed(v, seq![b] + rest, source, now)
            == replayed(chain::offered(v, b, source, now).0, rest, source, now),
        chain::offered(v, b, source, now).1 is Err ==> replayed(v, seq![b] + rest, source, now)
            == v,
{
    let s = seq![b] + rest;
    assert(s[0] == b);
    assert(s.subrange(1, s.len() as int) =~= rest);
}

} // verus!
