//! Blocks whose parent we do not have yet.
//!
//! Blocks can arrive out of order. Such a block cannot be validated, but
//! discarding it means waiting for a re-announcement that may never come. It is
//! parked here instead, and reconsidered as soon as its parent lands.
//!
//! The pool is strictly bounded: anyone can send us a block claiming any
//! parent.

use vstd::prelude::*;
use crate::block;
use crate::block::{Block, BlockView};
use crate::hash;

verus! {

/// Maximum blocks held at once. Beyond this the oldest is dropped.
pub const MAX_ORPHANS: usize = 64;

/// Whether a block is among some.
pub open spec fn parked(s: Seq<BlockView>, h: hash::Hash) -> bool {
    exists|i: int| 0 <= i < s.len() && block::header_hash((#[trigger] s[i]).header) == h
}

/// Whether a block waits for a parent, as a test.
pub open spec fn waits_for(parent: hash::Hash) -> spec_fn(BlockView) -> bool {
    |b: BlockView| b.header.previous_hash == parent
}

/// Whether a block does not wait for a parent, as a test.
pub open spec fn waits_for_another(parent: hash::Hash) -> spec_fn(BlockView) -> bool {
    |b: BlockView| b.header.previous_hash != parent
}

/// Whether a block is another one than that under a hash, as a test.
pub open spec fn is_another(h: hash::Hash) -> spec_fn(BlockView) -> bool {
    |b: BlockView| block::header_hash(b.header) != h
}

/// The pool with one more block, the oldest dropped when there is no room.
pub open spec fn with_block(s: Seq<BlockView>, b: BlockView) -> Seq<BlockView> {
    if s.len() >= MAX_ORPHANS {
        s.subrange(1, s.len() as int).push(b)
    } else {
        s.push(b)
    }
}

/// A bounded set of blocks waiting for their parent, oldest first.
pub struct OrphanPool {
    blocks: Vec<Block>,
}

impl View for OrphanPool {
    type V = Seq<BlockView>;

    closed spec fn view(&self) -> Seq<BlockView> {
        views(self.blocks@)
    }
}

/// What some blocks hold.
pub open spec fn views(s: Seq<Block>) -> Seq<BlockView> {
    Seq::new(s.len(), |i: int| s[i]@)
}

/// Whether a pool keeps its bound and holds nothing twice.
pub open spec fn orphans_wf(s: Seq<BlockView>) -> bool {
    &&& s.len() <= MAX_ORPHANS
    &&& forall|i: int, j: int|
        0 <= i < j < s.len() ==> block::header_hash((#[trigger] s[i]).header)
            != block::header_hash((#[trigger] s[j]).header)
}

impl Default for OrphanPool {
    fn default() -> (r: OrphanPool)
        ensures
            r@ == Seq::<BlockView>::empty(),
    {
        OrphanPool::new()
    }
}

impl OrphanPool {
    pub fn new() -> (r: OrphanPool)
        ensures
            r@ == Seq::<BlockView>::empty(),
            orphans_wf(r@),
    {
        let r = OrphanPool { blocks: Vec::new() };
        assert(r@ =~= Seq::<BlockView>::empty());
        r
    }

    pub fn len(&self) -> (r: usize)
        ensures
            r == self@.len(),
    {
        self.blocks.len()
    }

    pub fn is_empty(&self) -> (r: bool)
        ensures
            r == (self@.len() == 0),
    {
        self.blocks.len() == 0
    }

    pub fn contains(&self, hash: &hash::Hash) -> (r: bool)
        ensures
            r == parked(self@, *hash),
    {
        let mut i: usize = 0;
        while i < self.blocks.len()
            invariant
                i <= self.blocks@.len(),
                forall|j: int|
                    0 <= j < i ==> block::header_hash((#[trigger] self@[j]).header) != *hash,
            decreases self.blocks@.len() - i,
        {
            if self.blocks[i].hash() == *hash {
                assert(block::header_hash(self@[i as int].header) == *hash);
                return true;
            }
            i = i + 1;
        }
        false
    }

    /// Park a block. Gives the parent hash to request, or nothing if we were
    /// already holding this block.
    pub fn insert(&mut self, block: Block) -> (r: Option<hash::Hash>)
        requires
            orphans_wf(old(self)@),
        ensures
            orphans_wf(final(self)@),
            parked(old(self)@, block::header_hash(block@.header)) ==> r is None && final(self)@
                == old(self)@,
            !parked(old(self)@, block::header_hash(block@.header)) ==> r == Some(
                block@.header.previous_hash,
            ) && final(self)@ == with_block(old(self)@, block@),
    {
        let hash = block.hash();
        if self.contains(&hash) {
            return None;
        }
        let ghost s = self@;
        if self.blocks.len() >= MAX_ORPHANS {
            let _ = self.blocks.remove(0);
            assert(self@ =~= s.subrange(1, s.len() as int));
        }
        let parent = block.header.previous_hash;
        let ghost mid = self@;
        let ghost b = block@;
        self.blocks.push(block);
        proof {
            assert(self@ =~= mid.push(b));
            assert forall|i: int, j: int| 0 <= i < j < self@.len() implies block::header_hash(
                (#[trigger] self@[i]).header,
            ) != block::header_hash((#[trigger] self@[j]).header) by {
                let d: int = if s.len() >= MAX_ORPHANS {
                    1
                } else {
                    0
                };
                assert(self@[i] == s[i + d]);
                if j < mid.len() {
                    assert(self@[j] == s[j + d]);
                }
            }
        }
        Some(parent)
    }

    /// Remove and give the blocks whose parent is `parent`, oldest first.
    ///
    /// Called after a block is accepted, to see what can now be connected.
    pub fn take_children_of(&mut self, parent: &hash::Hash) -> (r: Vec<Block>)
        requires
            orphans_wf(old(self)@),
        ensures
            orphans_wf(final(self)@),
            views(r@) == old(self)@.filter(waits_for(*parent)),
            final(self)@ == old(self)@.filter(waits_for_another(*parent)),
    {
        let ghost s = self@;
        let ghost yes = waits_for(*parent);
        let ghost no = waits_for_another(*parent);
        let mut taken: Vec<Block> = Vec::new();
        let mut i: usize = 0;
        let ghost mut k: int = 0;
        proof {
            reveal(Seq::filter);
            assert(s.subrange(0, 0) =~= Seq::<BlockView>::empty());
            assert(self@ =~= s.subrange(0, 0).filter(no) + s.subrange(0, s.len() as int));
            assert(views(taken@) =~= s.subrange(0, 0).filter(yes));
        }
        while i < self.blocks.len()
            invariant
                yes == waits_for(*parent),
                no == waits_for_another(*parent),
                0 <= k <= s.len(),
                i == s.subrange(0, k).filter(no).len(),
                self@ == s.subrange(0, k).filter(no) + s.subrange(k, s.len() as int),
                self@ == views(self.blocks@),
                views(taken@) == s.subrange(0, k).filter(yes),
            decreases s.len() - k,
        {
            let ghost done = s.subrange(0, k).filter(no);
            let ghost got = views(taken@);
            proof {
                reveal(Seq::filter);
                assert(s.subrange(0, k + 1).drop_last() =~= s.subrange(0, k));
                assert(self@[i as int] == s.subrange(k, s.len() as int)[0]);
                assert(self@[i as int] == s[k]);
            }
            if self.blocks[i].header.previous_hash == *parent {
                let ghost all = self@;
                let b = self.blocks.remove(i);
                let ghost v = b@;
                taken.push(b);
                assert(views(taken@) =~= got.push(v));
                assert(self@ =~= all.remove(i as int));
                assert(self@ =~= done + s.subrange(k + 1, s.len() as int));
            } else {
                i = i + 1;
                assert(self@ =~= done.push(s[k]) + s.subrange(k + 1, s.len() as int));
            }
            proof {
                k = k + 1;
            }
        }
        proof {
            assert(k == s.len());
            assert(s.subrange(0, k) =~= s);
            assert(self@ =~= s.filter(no));
            lemma_filter_wf(s, no);
        }
        taken
    }

    /// Drop a block we no longer want to hold (it turned out to be invalid).
    pub fn remove(&mut self, hash: &hash::Hash)
        requires
            orphans_wf(old(self)@),
        ensures
            orphans_wf(final(self)@),
            final(self)@ == old(self)@.filter(is_another(*hash)),
    {
        let ghost s = self@;
        let ghost no = is_another(*hash);
        let mut i: usize = 0;
        let ghost mut k: int = 0;
        proof {
            reveal(Seq::filter);
            assert(s.subrange(0, 0) =~= Seq::<BlockView>::empty());
            assert(self@ =~= s.subrange(0, 0).filter(no) + s.subrange(0, s.len() as int));
        }
        while i < self.blocks.len()
            invariant
                no == is_another(*hash),
                0 <= k <= s.len(),
                i == s.subrange(0, k).filter(no).len(),
                self@ == s.subrange(0, k).filter(no) + s.subrange(k, s.len() as int),
                self@ == views(self.blocks@),
            decreases s.len() - k,
        {
            let ghost done = s.subrange(0, k).filter(no);
            proof {
                reveal(Seq::filter);
                assert(s.subrange(0, k + 1).drop_last() =~= s.subrange(0, k));
                assert(self@[i as int] == s.subrange(k, s.len() as int)[0]);
                assert(self@[i as int] == s[k]);
            }
            if self.blocks[i].hash() == *hash {
                let ghost all = self@;
                let _ = self.blocks.remove(i);
                assert(self@ =~= all.remove(i as int));
                assert(self@ =~= done + s.subrange(k + 1, s.len() as int));
            } else {
                i = i + 1;
                assert(self@ =~= done.push(s[k]) + s.subrange(k + 1, s.len() as int));
            }
            proof {
                k = k + 1;
            }
        }
        proof {
            assert(k == s.len());
            assert(s.subrange(0, k) =~= s);
            assert(self@ =~= s.filter(no));
            lemma_filter_wf(s, no);
        }
    }
}

proof fn lemma_filter_wf(s: Seq<BlockView>, f: spec_fn(BlockView) -> bool)
    requires
        orphans_wf(s),
    ensures
        orphans_wf(s.filter(f)),
        s.filter(f).len() <= s.len(),
        forall|i: int| 0 <= i < s.filter(f).len() ==> s.contains(#[trigger] s.filter(f)[i]),
    decreases s.len(),
{
    reveal(Seq::filter);
    if s.len() > 0 {
        let t = s.drop_last();
        assert forall|i: int, j: int| 0 <= i < j < t.len() implies block::header_hash(
            (#[trigger] t[i]).header,
        ) != block::header_hash((#[trigger] t[j]).header) by {
            assert(t[i] == s[i] && t[j] == s[j]);
        }
        lemma_filter_wf(t, f);
        let u = s.filter(f);
        let v = t.filter(f);
        assert forall|i: int| 0 <= i < u.len() implies s.contains(#[trigger] u[i]) by {
            if i < v.len() {
                assert(t.contains(v[i]));
                let x = choose|x: int| 0 <= x < t.len() && t[x] == v[i];
                assert(s[x] == u[i]);
            } else {
                assert(s[s.len() - 1] == u[i]);
            }
        }
        assert forall|i: int, j: int| 0 <= i < j < u.len() implies block::header_hash(
            (#[trigger] u[i]).header,
        ) != block::header_hash((#[trigger] u[j]).header) by {
            assert(u[i] == v[i]);
            if j < v.len() {
                assert(u[j] == v[j]);
            } else {
                assert(t.contains(v[i]));
                let x = choose|x: int| 0 <= x < t.len() && t[x] == v[i];
                assert(s[x] == u[i]);
                assert(u[j] == s[s.len() - 1]);
            }
        }
    }
}

/// Taking the children of a block divides the pool: every block is either
/// handed out or stays, and none is left that waits for that block.
pub proof fn children_leave_the_pool(s: Seq<BlockView>, parent: hash::Hash)
    ensures
        s.filter(waits_for(parent)).len() + s.filter(waits_for_another(parent)).len() == s.len(),
        s.filter(waits_for_another(parent)).filter(waits_for(parent)).len() == 0,
    decreases s.len(),
{
    reveal(Seq::filter);
    if s.len() > 0 {
        children_leave_the_pool(s.drop_last(), parent);
        let rest = s.drop_last().filter(waits_for_another(parent));
        if waits_for_another(parent)(s.last()) {
            assert(rest.push(s.last()).drop_last() =~= rest);
        }
    }
}

/// A parked block is in the pool, the pool stays within its bound, and only the
/// oldest block makes room.
pub proof fn parking_is_bounded(s: Seq<BlockView>, b: BlockView, i: int)
    requires
        orphans_wf(s),
        !parked(s, block::header_hash(b.header)),
        1 <= i < s.len(),
    ensures
        with_block(s, b).len() <= MAX_ORPHANS,
        parked(with_block(s, b), block::header_hash(b.header)),
        parked(with_block(s, b), block::header_hash(s[i].header)),
        s.len() >= MAX_ORPHANS ==> !parked(with_block(s, b), block::header_hash(s[0].header)),
{
    let t = with_block(s, b);
    assert(t[t.len() - 1] == b);
    let d: int = if s.len() >= MAX_ORPHANS {
        1
    } else {
        0
    };
    assert(t[i - d] == s[i]);
    if s.len() >= MAX_ORPHANS && parked(t, block::header_hash(s[0].header)) {
        let x = choose|x: int|
            0 <= x < t.len() && block::header_hash((#[trigger] t[x]).header) == block::header_hash(
                s[0].header,
            );
        if x < t.len() - 1 {
            assert(t[x] == s[x + 1]);
        } else {
            assert(block::header_hash(s[0].header) == block::header_hash(b.header));
        }
    }
}

proof fn lemma_filter_contains(s: Seq<BlockView>, f: spec_fn(BlockView) -> bool, b: BlockView)
    ensures
        s.filter(f).contains(b) <==> s.contains(b) && f(b),
    decreases s.len(),
{
    reveal(Seq::filter);
    if s.len() > 0 {
        let t = s.drop_last();
        let u = t.filter(f);
        lemma_filter_contains(t, f, b);
        assert(s =~= t.push(s.last()));
        if t.contains(b) {
            let i = choose|i: int| 0 <= i < t.len() && t[i] == b;
            assert(s[i] == b);
        }
        if b == s.last() {
            assert(s[s.len() - 1] == b);
        }
        if f(s.last()) {
            assert(s.filter(f) == u.push(s.last()));
            assert(u.push(s.last())[u.len() as int] == s.last());
            if u.contains(b) {
                let i = choose|i: int| 0 <= i < u.len() && u[i] == b;
                assert(u.push(s.last())[i] == b);
            }
        }
    }
}

/// When a block lands, exactly the parked blocks that name it as their parent are
/// handed out and exactly the others stay. A block that is dropped leaves alone.
pub proof fn only_children_are_handed_out(s: Seq<BlockView>, h: hash::Hash, b: BlockView)
    ensures
        s.filter(waits_for(h)).contains(b) <==> s.contains(b) && b.header.previous_hash == h,
        s.filter(waits_for_another(h)).contains(b) <==> s.contains(b) && b.header.previous_hash
            != h,
        s.filter(is_another(h)).contains(b) <==> s.contains(b) && block::header_hash(b.header) != h,
{
    lemma_filter_contains(s, waits_for(h), b);
    lemma_filter_contains(s, waits_for_another(h), b);
    lemma_filter_contains(s, is_another(h), b);
}

/// A pool with room gains a parked block as its youngest and loses nothing. One of
/// sixty-four loses its oldest.
pub proof fn parking_drops_the_oldest_of_many(s: Seq<BlockView>, b: BlockView)
    ensures
        with_block(s, b).last() == b,
        s.len() < 64 ==> with_block(s, b) == s.push(b),
        s.len() >= 64 ==> with_block(s, b).drop_last() == s.drop_first(),
{
    assert(with_block(s, b).drop_last() =~= if s.len() < 64 {
        s
    } else {
        s.drop_first()
    });
}

} // verus!
