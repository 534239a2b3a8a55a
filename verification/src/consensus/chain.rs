//! Chain state: every known block, the active chain, and the choice between
//! branches.

use vstd::prelude::*;
use std::collections::BTreeMap;
use crate::block;
use crate::block::{Block, BlockHeader, BlockValidationContext, BlockView};
use crate::bytes;
use crate::consensus::genesis;
use crate::consensus::headers;
use crate::consensus::headers::Headers;
use crate::consensus::params::ChainParams;
use crate::consensus::retarget;
use crate::constants::{
    DIFFICULTY_ADJUSTMENT_WINDOW, MTP_WINDOW, RANDOMX_EPOCH_LENGTH, RANDOMX_SEED_LAG,
    REORG_JOURNAL_DEPTH,
};
use crate::crypto::randomx;
use crate::error::{joined4, CoreError, ErrorKind, Fault, Result};
use crate::hash;
use crate::keymap;
use crate::keymap::KeyMap;
use crate::state;
use crate::state::{State, StateView};
use crate::text;
use crate::types;
use crate::types::BlockHeight;
use crate::u256;
use crate::u256::U256;

verus! {

/// Summary of a chain tip.
#[derive(Clone, Copy, Debug)]
pub struct ChainTip {
    pub height: BlockHeight,
    pub hash: hash::Hash,
    pub header: BlockHeader,
    pub cumulative_work: U256,
    pub supply: u64,
}

/// One block in the index of everything we know about.
#[derive(Clone, Copy, Debug)]
pub struct BlockIndexEntry {
    pub header: BlockHeader,
    pub cumulative_work: U256,
}

/// What happened to a block offered to the chain.
#[derive(Clone, Copy, Debug, PartialEq, Eq, Structural)]
pub enum BlockOutcome {
    /// Extended the active chain.
    Extended,
    /// Valid, but on a branch with less work than the active chain.
    SideBranch,
    /// Replaced the active chain; `depth` blocks were rolled back.
    Reorganized { depth: u32 },
    /// Already known.
    Duplicate,
}

/// Somewhere blocks can be fetched from by hash.
///
/// A reorganization has to replay a branch that the chain state never held in
/// memory.
pub trait BlockSource {
    /// The block under a hash, if it is there. Nothing is, unless a source says
    /// otherwise.
    open spec fn block_under(&self, hash: hash::Hash) -> Option<BlockView> {
        None
    }

    fn get_block(&self, hash: &hash::Hash) -> (r: Option<Block>)
        ensures
            match r {
                Some(b) => self.block_under(*hash) == Some(b@),
                None => self.block_under(*hash) is None,
            },
    ;
}

/// A block source that holds nothing. Fine for a chain that only ever extends.
pub struct NoBlockSource;

impl BlockSource for NoBlockSource {
    open spec fn block_under(&self, hash: hash::Hash) -> Option<BlockView> {
        None
    }

    fn get_block(&self, _hash: &hash::Hash) -> (r: Option<Block>) {
        None
    }
}

/// Entries of the index, by hash.
pub type Index = Seq<([u8; 32], BlockIndexEntry)>;

/// The entry under a hash.
pub open spec fn entry_of(index: Index, h: hash::Hash) -> Option<BlockIndexEntry> {
    keymap::value_of(index, h.0)
}

/// The work that bits stand for.
pub open spec fn bits_work(bits: u32) -> nat {
    randomx::work_of(types::compact_value(bits))
}

/// Whether an entry fits the index: it stands under its own hash and, unless it
/// is a genesis block, follows a known block and adds its work to that one's.
#[verifier::opaque]
pub open spec fn entry_fits(index: Index, h: hash::Hash, e: BlockIndexEntry) -> bool {
    &&& block::header_hash(e.header) == h
    &&& e.header.height.0 > 0 ==> {
        &&& entry_of(index, e.header.previous_hash) is Some
        &&& entry_of(index, e.header.previous_hash)->0.header.height.0 + 1 == e.header.height.0
        &&& e.cumulative_work@ == entry_of(index, e.header.previous_hash)->0.cumulative_work@
            + bits_work(e.header.bits.0)
    }
}

/// Whether every entry of an index fits it.
pub open spec fn index_wf(index: Index) -> bool {
    &&& keymap::ascending(index)
    &&& forall|h: hash::Hash|
        (#[trigger] entry_of(index, h)) is Some ==> entry_fits(index, h, entry_of(index, h)->0)
}

/// An entry of a sound index fits it.
pub proof fn lemma_entry(index: Index, h: hash::Hash)
    requires
        index_wf(index),
        entry_of(index, h) is Some,
    ensures
        ({
            let e = entry_of(index, h)->0;
            &&& block::header_hash(e.header) == h
            &&& e.header.height.0 > 0 ==> {
                &&& entry_of(index, e.header.previous_hash) is Some
                &&& entry_of(index, e.header.previous_hash)->0.header.height.0 + 1
                    == e.header.height.0
                &&& e.cumulative_work@ == entry_of(
                    index,
                    e.header.previous_hash,
                )->0.cumulative_work@ + bits_work(e.header.bits.0)
            }
        }),
{
    reveal(entry_fits);
}

/// The height under a hash.
pub open spec fn height_of(index: Index, h: hash::Hash) -> nat {
    match entry_of(index, h) {
        Some(e) => e.header.height.0 as nat,
        None => 0,
    }
}

/// The headers from genesis to the block under a hash.
pub open spec fn branch(index: Index, h: hash::Hash) -> Headers
    decreases height_of(index, h),
{
    match entry_of(index, h) {
        Some(e) => {
            let prev = e.header.previous_hash;
            if e.header.height.0 > 0 && height_of(index, prev) < e.header.height.0 {
                branch(index, prev).insert(e.header.height.0, e.header)
            } else {
                Map::empty().insert(e.header.height.0, e.header)
            }
        },
        None => Map::empty(),
    }
}

/// How many headers a branch block is validated against.
pub open spec fn window_depth() -> int {
    19
}

/// The last headers of the branch that ends under a hash.
pub open spec fn branch_window(index: Index, h: hash::Hash) -> Headers {
    branch(index, h).restrict(
        Set::new(|k: u32| k + window_depth() > height_of(index, h)),
    )
}

/// A branch is linked block by block down to genesis.
pub proof fn lemma_branch(index: Index, h: hash::Hash)
    requires
        index_wf(index),
        entry_of(index, h) is Some,
    ensures
        ({
            let m = branch(index, h);
            let top = entry_of(index, h)->0.header.height.0;
            &&& forall|k: u32| #[trigger] m.contains_key(k) <==> k <= top
            &&& forall|k: u32|
                k <= top ==> {
                    &&& (#[trigger] m[k]).height.0 == k
                    &&& entry_of(index, block::header_hash(m[k])) is Some
                    &&& entry_of(index, block::header_hash(m[k]))->0.header == m[k]
                }
            &&& forall|k: u32|
                0 < k <= top ==> (#[trigger] m[k]).previous_hash == block::header_hash(
                    m[(k - 1) as u32],
                )
            &&& m[top] == entry_of(index, h)->0.header
            &&& block::header_hash(m[top]) == h
        }),
    decreases height_of(index, h),
{
    let e = entry_of(index, h)->0;
    lemma_entry(index, h);
    if e.header.height.0 > 0 {
        let prev = e.header.previous_hash;
        lemma_branch(index, prev);
        let m = branch(index, h);
        let low = branch(index, prev);
        let top = e.header.height.0;
        assert forall|k: u32| k <= top implies {
            &&& (#[trigger] m[k]).height.0 == k
            &&& entry_of(index, block::header_hash(m[k])) is Some
            &&& entry_of(index, block::header_hash(m[k]))->0.header == m[k]
        } by {
            if k < top {
                assert(m[k] == low[k]);
            }
        }
        assert forall|k: u32| 0 < k <= top implies (#[trigger] m[k]).previous_hash
            == block::header_hash(m[(k - 1) as u32]) by {
            assert(m[(k - 1) as u32] == low[(k - 1) as u32]);
            if k < top {
                assert(m[k] == low[k]);
            }
        }
    }
}

/// A block put under a fresh hash leaves the branches there were as they were.
pub proof fn lemma_branch_stable(index: Index, key: hash::Hash, e: BlockIndexEntry, h: hash::Hash)
    requires
        index_wf(index),
        entry_of(index, key) is None,
        entry_of(index, h) is Some,
    ensures
        branch(keymap::put(index, key.0, e), h) == branch(index, h),
    decreases height_of(index, h),
{
    keymap::put_and_lookup(index, key.0, e, h.0);
    lemma_hash_key(key, h);
    lemma_entry(index, h);
    let x = entry_of(index, h)->0;
    if x.header.height.0 > 0 {
        let prev = x.header.previous_hash;
        keymap::put_and_lookup(index, key.0, e, prev.0);
        lemma_hash_key(key, prev);
        lemma_branch_stable(index, key, e, prev);
    }
}

proof fn lemma_hash_key(a: hash::Hash, b: hash::Hash)
    ensures
        a.0 == b.0 <==> a == b,
{
}

/// Putting a block that follows a known one keeps the index sound.
pub proof fn lemma_record(index: Index, e: BlockIndexEntry)
    requires
        index_wf(index),
        entry_of(index, block::header_hash(e.header)) is None,
        e.header.height.0 > 0,
        entry_of(index, e.header.previous_hash) matches Some(p) && p.header.height.0 + 1
            == e.header.height.0 && e.cumulative_work@ == p.cumulative_work@ + bits_work(
            e.header.bits.0,
        ),
    ensures
        index_wf(keymap::put(index, block::header_hash(e.header).0, e)),
{
    let key = block::header_hash(e.header);
    let after = keymap::put(index, key.0, e);
    keymap::put_and_lookup(index, key.0, e, key.0);
    assert forall|h: hash::Hash| (#[trigger] entry_of(after, h)) is Some implies entry_fits(
        after,
        h,
        entry_of(after, h)->0,
    ) by {
        keymap::put_and_lookup(index, key.0, e, h.0);
        lemma_hash_key(key, h);
        let x = entry_of(after, h)->0;
        keymap::put_and_lookup(index, key.0, e, x.header.previous_hash.0);
        lemma_hash_key(key, x.header.previous_hash);
        if h != key {
            assert(entry_of(index, h) == Some(x));
            lemma_entry(index, h);
        }
        reveal(entry_fits);
    }
}

// ---------------------------------------------------------------------------
// The chain
// ---------------------------------------------------------------------------

/// Full chain state.
pub struct ChainState {
    /// Consensus parameters of the network.
    pub params: ChainParams,
    /// Headers of the active chain, by height.
    pub headers: BTreeMap<u32, BlockHeader>,
    /// Every block we have accepted, on any branch, by hash.
    pub index: KeyMap<32, BlockIndexEntry>,
    /// Best chain tip.
    pub tip: ChainTip,
    /// Account state at the tip.
    pub state: State,
    /// All tips the active chain has had, by hash.
    pub tips: KeyMap<32, ChainTip>,
    /// Account states before the last blocks of the active chain, oldest
    /// first: the way back for a reorganization.
    pub journal: Vec<State>,
}

/// What a chain holds.
#[verifier::ext_equal]
pub struct ChainView {
    pub params: ChainParams,
    pub headers: Headers,
    pub index: Index,
    pub tip: ChainTip,
    pub state: StateView,
    pub tips: Seq<([u8; 32], ChainTip)>,
    pub journal: Seq<StateView>,
}

impl View for ChainState {
    type V = ChainView;

    open spec fn view(&self) -> ChainView {
        ChainView {
            params: self.params,
            headers: self.headers@,
            index: self.index@,
            tip: self.tip,
            state: self.state@,
            tips: self.tips@,
            journal: Seq::new(self.journal@.len(), |i: int| self.journal@[i]@),
        }
    }
}

impl ChainView {
    /// Whether the parts fit together: the tip is in the index, the headers
    /// are its branch, its supply is the state's, and the journal reaches no
    /// further back than it may.
    pub open spec fn wf(self) -> bool {
        &&& index_wf(self.index)
        &&& entry_of(self.index, self.tip.hash) == Some(
            BlockIndexEntry {
                header: self.tip.header,
                cumulative_work: self.tip.cumulative_work,
            },
        )
        &&& self.tip.height == self.tip.header.height
        &&& self.headers == branch(self.index, self.tip.hash)
        &&& self.tip.supply == self.state.supply
        &&& self.journal.len() <= REORG_JOURNAL_DEPTH
        &&& self.journal.len() <= self.tip.height.0
    }

    /// Whether no known block has a better claim to be the tip.
    pub open spec fn tip_is_best(self) -> bool {
        forall|h: hash::Hash|
            (#[trigger] entry_of(self.index, h)) matches Some(e) ==> !outranks(
                e.cumulative_work@,
                h,
                self.tip.cumulative_work@,
                self.tip.hash,
            )
    }
}

/// Fork choice: more work wins; on a tie, the smaller hash.
pub open spec fn outranks(
    work: nat,
    hash: hash::Hash,
    other_work: nat,
    other_hash: hash::Hash,
) -> bool {
    work > other_work || (work == other_work && bytes::be_value(hash.0@) < bytes::be_value(
        other_hash.0@,
    ))
}

/// The number under a header map's height, as used for a seed.
pub open spec fn seed_for(height: u32, headers: Headers) -> hash::Hash {
    match randomx::seed_height(height, RANDOMX_EPOCH_LENGTH, RANDOMX_SEED_LAG) {
        Some(k) => if headers.contains_key(k) {
            block::header_hash(headers[k])
        } else {
            genesis::genesis_seed()
        },
        None => genesis::genesis_seed(),
    }
}

/// What the block at a height is validated against, given the headers below.
pub open spec fn context_for(
    params: ChainParams,
    supply: u64,
    height: u32,
    headers: Headers,
    now: u64,
) -> std::result::Result<BlockValidationContext, Fault> {
    let prev = (height - 1) as u32;
    if height == 0 {
        Err(ErrorKind::InvalidBlock.because("a genesis block has no parent"@))
    } else if !headers.contains_key(prev) {
        Err(
            ErrorKind::InvalidBlock.because(
                "missing parent header at height "@ + text::decimal(prev as nat),
            ),
        )
    } else {
        match retarget::bits_for(height, headers, params) {
            Ok(bits) => Ok(
                BlockValidationContext {
                    previous_hash: block::header_hash(headers[prev]),
                    expected_height: BlockHeight(height),
                    previous_timestamp: headers[prev].timestamp,
                    median_time_past: headers::median_before(headers, height),
                    expected_bits: bits,
                    current_supply: supply,
                    previous_state_root: headers[prev].state_root,
                    network_time: now,
                    pow_algorithm: params.pow,
                    pow_seed: seed_for(height, headers),
                },
            ),
            Err(k) => Err(k),
        }
    }
}

/// A point from which blocks can be replayed.
#[verifier::ext_equal]
pub struct Base {
    pub state: StateView,
    pub headers: Headers,
}

/// The point at a block, where one is at hand: on the active chain as far back
/// as the journal reaches, and at genesis.
pub open spec fn base_at(v: ChainView, h: hash::Hash, e: BlockIndexEntry) -> Option<Base> {
    let height = e.header.height.0;
    let depth = v.tip.height.0 - height;
    if v.headers.contains_key(height) && block::header_hash(v.headers[height]) == h && depth
        <= v.journal.len() {
        Some(
            Base {
                state: if depth == 0 {
                    v.state
                } else {
                    v.journal[v.journal.len() - depth]
                },
                headers: v.headers.restrict(Set::new(|k: u32| k <= height)),
            },
        )
    } else if height == 0 {
        Some(
            Base { state: state::empty_state(), headers: Map::empty().insert(0u32, e.header) },
        )
    } else {
        None
    }
}

/// From where, and with which blocks in turn, the state under a hash is
/// rebuilt.
pub open spec fn replay_plan(v: ChainView, h: hash::Hash) -> Option<(Base, Seq<hash::Hash>)>
    decreases height_of(v.index, h),
{
    match entry_of(v.index, h) {
        Some(e) => match base_at(v, h, e) {
            Some(b) => Some((b, Seq::empty())),
            None => if height_of(v.index, e.header.previous_hash) < e.header.height.0 {
                match replay_plan(v, e.header.previous_hash) {
                    Some((b, todo)) => Some((b, todo.push(h))),
                    None => None,
                }
            } else {
                None
            },
        },
        None => None,
    }
}

/// The point that replaying blocks leads to, or why it fails.
pub open spec fn replay<S: BlockSource>(
    v: ChainView,
    source: &S,
    now: u64,
    base: Base,
    todo: Seq<hash::Hash>,
) -> std::result::Result<Base, Fault>
    decreases todo.len(),
{
    if todo.len() == 0 {
        Ok(base)
    } else {
        match replay(v, source, now, base, todo.drop_last()) {
            Ok(at) => replay_one(v, source, now, at, todo.last()),
            Err(k) => Err(k),
        }
    }
}

/// One step of a replay.
pub open spec fn replay_one<S: BlockSource>(
    v: ChainView,
    source: &S,
    now: u64,
    at: Base,
    h: hash::Hash,
) -> std::result::Result<Base, Fault> {
    match source.block_under(h) {
        Some(b) => match context_for(
            v.params,
            v.tip.supply,
            b.header.height.0,
            at.headers,
            now,
        ) {
            Ok(ctx) => match block::after_block(b, ctx, at.state) {
                Ok(s) => {
                    let e = entry_of(v.index, h)->0;
                    Ok(
                        Base {
                            state: s,
                            headers: at.headers.insert(e.header.height.0, e.header),
                        },
                    )
                },
                Err(k) => Err(k),
            },
            Err(k) => Err(k),
        },
        None => Err(unavailable(h)),
    }
}

/// The complaint that a block of a branch cannot be had.
pub open spec fn unavailable(h: hash::Hash) -> Fault {
    ErrorKind::InvalidBlock.because(
        "cannot replay branch: block "@ + text::hex_text(h.0@) + " is not available"@,
    )
}

/// The complaint that a branch ends in a block that is not known.
pub open spec fn unknown_branch(h: hash::Hash) -> Fault {
    ErrorKind::InvalidBlock.because("branch block "@ + text::hex_text(h.0@) + " is unknown"@)
}

/// The complaint that a block's parent is not known.
pub open spec fn missing_parent(h: BlockHeader) -> Fault {
    ErrorKind::InvalidBlock.because(
        "missing parent "@ + text::hex_text(h.previous_hash.0@) + " for block at height "@
            + text::decimal(h.height.0 as nat),
    )
}

/// Whether a block is new and its parent is not known.
pub open spec fn parent_unknown(v: ChainView, h: BlockHeader) -> bool {
    &&& entry_of(v.index, block::header_hash(h)) is None
    &&& h.height.0 > 0
    &&& entry_of(v.index, h.previous_hash) is None
}

proof fn lemma_missing_parent(h: BlockHeader)
    ensures
        text::begins(missing_parent(h).detail, "missing parent "@),
{
    let head = "missing parent "@;
    assert(missing_parent(h).detail.subrange(0, head.len() as int) =~= head);
}

/// The complaint that a block's height is not its parent's and one more.
pub open spec fn wrong_height(height: u32, parent: u32) -> Fault {
    ErrorKind::InvalidBlock.because(
        text::two_numbers(
            "height "@,
            height as nat,
            " does not follow parent at "@,
            parent as nat,
        ),
    )
}

/// The account state as of the block under a hash, or why it cannot be had.
pub open spec fn state_under<S: BlockSource>(
    v: ChainView,
    h: hash::Hash,
    source: &S,
    now: u64,
) -> std::result::Result<StateView, Fault> {
    match replay_plan(v, h) {
        Some((base, todo)) => match replay(v, source, now, base, todo) {
            Ok(at) => Ok(at.state),
            Err(k) => Err(k),
        },
        None => Err(unknown_branch(h)),
    }
}

/// The highest height, from `top` down, at which two chains agree; zero if at
/// none.
pub open spec fn fork_height(old: Headers, new: Headers, top: u32) -> u32
    decreases top,
{
    if old.contains_key(top) && new.contains_key(top) && block::header_hash(old[top])
        == block::header_hash(new[top]) {
        top
    } else if top == 0 {
        0
    } else {
        fork_height(old, new, (top - 1) as u32)
    }
}

/// The tip that a block makes.
pub open spec fn tip_at(b: BlockView, work: nat, s: StateView) -> ChainTip {
    ChainTip {
        height: b.header.height,
        hash: block::header_hash(b.header),
        header: b.header,
        cumulative_work: u256::u256_of(work),
        supply: s.supply,
    }
}

/// The index with a block in it.
pub open spec fn recorded(index: Index, b: BlockView, work: nat) -> Index {
    keymap::put(
        index,
        block::header_hash(b.header).0,
        BlockIndexEntry { header: b.header, cumulative_work: u256::u256_of(work) },
    )
}

/// A journal with one more state, the oldest dropped when there are too many.
pub open spec fn journal_with(journal: Seq<StateView>, s: StateView) -> Seq<StateView> {
    let j = journal.push(s);
    if j.len() > REORG_JOURNAL_DEPTH {
        j.subrange(1, j.len() as int)
    } else {
        j
    }
}

/// The chain with a block on top of its tip.
pub open spec fn extended(v: ChainView, b: BlockView, work: nat, s: StateView) -> ChainView {
    let tip = tip_at(b, work, s);
    ChainView {
        params: v.params,
        headers: v.headers.insert(b.header.height.0, b.header),
        index: recorded(v.index, b, work),
        tip,
        state: s,
        tips: keymap::put(v.tips, tip.hash.0, tip),
        journal: journal_with(v.journal, v.state),
    }
}

/// The chain switched to the branch that a block ends.
pub open spec fn reorganized(v: ChainView, b: BlockView, work: nat, s: StateView) -> ChainView {
    let tip = tip_at(b, work, s);
    let index = recorded(v.index, b, work);
    ChainView {
        params: v.params,
        headers: branch(index, tip.hash),
        index,
        tip,
        state: s,
        tips: keymap::put(v.tips, tip.hash.0, tip),
        journal: Seq::empty(),
    }
}

/// What becomes of a chain, and of a block that is offered to it at a time.
pub open spec fn offered<S: BlockSource>(
    v: ChainView,
    b: BlockView,
    source: &S,
    now: u64,
) -> (ChainView, std::result::Result<BlockOutcome, Fault>) {
    let hash = block::header_hash(b.header);
    let prev = b.header.previous_hash;
    let height = b.header.height.0;
    if entry_of(v.index, hash) is Some {
        (v, Ok(BlockOutcome::Duplicate))
    } else if height == 0 {
        (
            v,
            Err(ErrorKind::InvalidBlock.because("genesis is fixed by the network parameters"@)),
        )
    } else if entry_of(v.index, prev) is None {
        (v, Err(missing_parent(b.header)))
    } else {
        let parent = entry_of(v.index, prev)->0;
        let work = parent.cumulative_work@ + bits_work(b.header.bits.0);
        if parent.header.height.0 + 1 != height {
            (v, Err(wrong_height(height, parent.header.height.0)))
        } else if work >= u256::u256_limit() {
            (v, Err(ErrorKind::Overflow.because("cumulative work overflow"@)))
        } else if prev == v.tip.hash {
            match context_for(v.params, v.tip.supply, height, v.headers, now) {
                Ok(ctx) => match block::after_block(b, ctx, v.state) {
                    Ok(s) => (extended(v, b, work, s), Ok(BlockOutcome::Extended)),
                    Err(k) => (v, Err(k)),
                },
                Err(k) => (v, Err(k)),
            }
        } else {
            match context_for(
                v.params,
                v.tip.supply,
                height,
                branch_window(v.index, prev),
                now,
            ) {
                Ok(ctx) => match state_under(v, prev, source, now) {
                    Ok(before) => match block::after_block(b, ctx, before) {
                        Ok(s) => if outranks(work, hash, v.tip.cumulative_work@, v.tip.hash) {
                            let after = reorganized(v, b, work, s);
                            let fork = fork_height(v.headers, after.headers, v.tip.height.0);
                            (
                                after,
                                Ok(
                                    BlockOutcome::Reorganized {
                                        depth: (v.tip.height.0 - fork) as u32,
                                    },
                                ),
                            )
                        } else {
                            (
                                ChainView { index: recorded(v.index, b, work), ..v },
                                Ok(BlockOutcome::SideBranch),
                            )
                        },
                        Err(k) => (v, Err(k)),
                    },
                    Err(k) => (v, Err(k)),
                },
                Err(k) => (v, Err(k)),
            }
        }
    }
}

// ---------------------------------------------------------------------------
// Operations
// ---------------------------------------------------------------------------

/// `std::time::SystemTime::now` since the Unix epoch, in whole seconds, and
/// zero for a clock set before it. Nothing is said of the value.
#[verifier::external_body]
pub fn now_secs() -> (r: u64) {
    std::time::SystemTime::now().duration_since(std::time::UNIX_EPOCH).unwrap_or_default().as_secs()
}

/// The work that a header's bits stand for.
pub fn header_work(header: &BlockHeader) -> (r: U256)
    ensures
        r@ == bits_work(header.bits.0),
{
    U256::from_be_bytes(&randomx::calculate_work(&header.bits.to_full_target()))
}

/// The tip of a chain that is its genesis block.
pub open spec fn genesis_tip(h: BlockHeader) -> ChainTip {
    ChainTip {
        height: BlockHeight(0),
        hash: block::header_hash(h),
        header: h,
        cumulative_work: u256::u256_of(bits_work(h.bits.0)),
        supply: 0,
    }
}

impl ChainTip {
    /// The tip of a chain that is its genesis block.
    pub fn new(genesis: &Block) -> (r: ChainTip)
        ensures
            r == genesis_tip(genesis.header),
            r.cumulative_work@ == bits_work(genesis.header.bits.0),
    {
        let work = header_work(&genesis.header);
        proof {
            u256::lemma_u256_of(work);
        }
        ChainTip {
            height: BlockHeight(0),
            hash: genesis.hash(),
            header: genesis.header,
            cumulative_work: work,
            supply: 0,
        }
    }
}

/// A chain that is the genesis block of a network.
pub open spec fn genesis_chain(params: ChainParams) -> ChainView {
    let header = genesis::genesis_header(params);
    let tip = genesis_tip(header);
    ChainView {
        params,
        headers: Map::empty().insert(0u32, header),
        index: keymap::put(
            Seq::empty(),
            tip.hash.0,
            BlockIndexEntry { header, cumulative_work: tip.cumulative_work },
        ),
        tip,
        state: state::empty_state(),
        tips: keymap::put(Seq::empty(), tip.hash.0, tip),
        journal: Seq::empty(),
    }
}

/// A chain that is its genesis block is sound, and its tip is its best.
pub proof fn genesis_chain_is_sound(params: ChainParams)
    ensures
        genesis_chain(params).wf(),
        genesis_chain(params).tip_is_best(),
{
    let v = genesis_chain(params);
    let e = BlockIndexEntry { header: v.tip.header, cumulative_work: v.tip.cumulative_work };
    let none = Seq::<([u8; 32], BlockIndexEntry)>::empty();
    assert forall|h: hash::Hash| (#[trigger] entry_of(v.index, h)) is Some implies h == v.tip.hash
        && entry_of(v.index, h) == Some(e) by {
        keymap::put_and_lookup(none, v.tip.hash.0, e, h.0);
        keymap::lemma_value_of(none, h.0);
        lemma_hash_key(h, v.tip.hash);
    }
    keymap::put_and_lookup(none, v.tip.hash.0, e, v.tip.hash.0);
    assert(entry_of(v.index, v.tip.hash) == Some(e));
    assert(entry_fits(v.index, v.tip.hash, e)) by {
        reveal(entry_fits);
    }
    assert(v.headers =~= branch(v.index, v.tip.hash));
}

/// The headers at heights up to `top`.
pub fn headers_upto(headers: &BTreeMap<u32, BlockHeader>, top: u32) -> (r: BTreeMap<u32, BlockHeader>)
    requires
        forall|k: u32| k <= top ==> #[trigger] headers@.contains_key(k),
    ensures
        r@ == headers@.restrict(Set::new(|k: u32| k <= top)),
{
    let mut r: BTreeMap<u32, BlockHeader> = BTreeMap::new();
    let mut k: u32 = 0;
    assert(r@ =~= headers@.restrict(Set::new(|j: u32| j < k)));
    loop
        invariant
            forall|j: u32| j <= top ==> #[trigger] headers@.contains_key(j),
            k <= top,
            r@ == headers@.restrict(Set::new(|j: u32| j < k)),
        decreases top - k,
    {
        match headers::header_at(headers, k) {
            Some(h) => {
                headers::put_header(&mut r, k, h);
                assert(r@ =~= headers@.restrict(Set::new(|j: u32| j <= k)));
            },
            None => {
                assert(headers@.contains_key(k));
            },
        }
        if k == top {
            return r;
        }
        k = k + 1;
        assert(r@ =~= headers@.restrict(Set::new(|j: u32| j < k)));
    }
}

proof fn lemma_no_more(s: Seq<char>)
    ensures
        s + ""@ == s,
{
    reveal_strlit("");
    assert(s + ""@ =~= s);
}

fn about_block(before: &str, h: &hash::Hash, after: &str, last: &str) -> (e: CoreError)
    ensures
        e.fault() == ErrorKind::InvalidBlock.because(
            before@ + text::hex_text(h.0@) + after@ + last@,
        ),
{
    CoreError::InvalidBlock(joined4(before, h.to_hex().as_str(), after, last))
}

impl ChainState {
    /// A chain that is the genesis block of the devnet.
    pub fn with_genesis() -> (r: ChainState)
        ensures
            r@.wf(),
            r@.tip_is_best(),
            exists|p: ChainParams|
                crate::consensus::params::params_for(p, crate::types::NetworkId::Devnet) && r@
                    == #[trigger] genesis_chain(p),
    {
        let p = ChainParams::devnet();
        let r = Self::with_params(p);
        assert(r@ == genesis_chain(p));
        r
    }

    /// A chain that is the genesis block of a network.
    pub fn with_params(params: ChainParams) -> (r: ChainState)
        ensures
            r@ == genesis_chain(params),
            r@.wf(),
            r@.tip_is_best(),
    {
        let genesis = genesis::build_genesis_block_with(&params);
        let tip = ChainTip::new(&genesis);
        let mut headers: BTreeMap<u32, BlockHeader> = BTreeMap::new();
        headers::put_header(&mut headers, 0, genesis.header);
        let mut tips: KeyMap<32, ChainTip> = KeyMap::new();
        tips.insert(tip.hash.0, tip);
        let mut index: KeyMap<32, BlockIndexEntry> = KeyMap::new();
        index.insert(
            tip.hash.0,
            BlockIndexEntry { header: genesis.header, cumulative_work: tip.cumulative_work },
        );
        let r = ChainState {
            params,
            headers,
            index,
            tip,
            state: State::new(),
            tips,
            journal: Vec::new(),
        };
        proof {
            assert(r@ =~= genesis_chain(params));
            genesis_chain_is_sound(params);
        }
        r
    }

    /// How many blocks of the active chain can be rolled back without a
    /// replay.
    pub fn journal_depth(&self) -> (r: usize)
        ensures
            r == self@.journal.len(),
    {
        self.journal.len()
    }

    /// Select the best chain tip.
    pub fn best_tip(&self) -> (r: &ChainTip)
        ensures
            *r == self@.tip,
    {
        &self.tip
    }

    /// Median time past of the active chain at a height.
    pub fn compute_median_time_past(&self, height: u32) -> (r: u64)
        ensures
            r == headers::median_before(self@.headers, height),
    {
        headers::median_time_past(&self.headers, height)
    }

    /// The epoch seed for a height, taken from the branch in `headers`. Before
    /// its block exists, and where the branch does not reach back that far,
    /// the genesis seed stands in.
    pub fn pow_seed_for(&self, height: u32, headers: &BTreeMap<u32, BlockHeader>) -> (r: hash::Hash)
        ensures
            r == seed_for(height, headers@),
    {
        match randomx::seed_height_for(height, RANDOMX_EPOCH_LENGTH, RANDOMX_SEED_LAG) {
            Some(k) => match headers::header_at(headers, k) {
                Some(h) => randomx::derive_seed(&h.hash()),
                None => genesis::genesis_randomx_seed(),
            },
            None => genesis::genesis_randomx_seed(),
        }
    }

    /// What the block at a height is validated against.
    fn validation_context(
        &self,
        height: u32,
        headers: &BTreeMap<u32, BlockHeader>,
        now: u64,
    ) -> (r: Result<BlockValidationContext>)
        ensures
            match context_for(self@.params, self@.tip.supply, height, headers@, now) {
                Ok(ctx) => r == Ok::<BlockValidationContext, CoreError>(ctx),
                Err(k) => r matches Err(e) && e.fault() == k,
            },
    {
        if height == 0 {
            return Err(CoreError::InvalidBlock("a genesis block has no parent".to_string()));
        }
        let parent = match headers::header_at(headers, height - 1) {
            Some(h) => h,
            None => {
                return Err(
                    CoreError::InvalidBlock(
                        text::phrase1("missing parent header at height ", (height - 1) as u64),
                    ),
                );
            },
        };
        let bits = match retarget::calculate_target_for_height_with(height, headers, &self.params) {
            Ok(b) => b,
            Err(e) => {
                return Err(e);
            },
        };
        Ok(
            BlockValidationContext {
                previous_hash: parent.hash(),
                expected_height: BlockHeight(height),
                previous_timestamp: parent.timestamp,
                median_time_past: headers::median_time_past(headers, height),
                expected_bits: bits,
                current_supply: self.tip.supply,
                previous_state_root: parent.state_root,
                network_time: now,
                pow_algorithm: self.params.pow,
                pow_seed: self.pow_seed_for(height, headers),
            },
        )
    }

    /// The last headers of the branch that ends under a hash: enough for the
    /// next block's target and median time past.
    fn branch_headers(&self, h: &hash::Hash) -> (r: BTreeMap<u32, BlockHeader>)
        requires
            index_wf(self@.index),
            entry_of(self@.index, *h) is Some,
        ensures
            r@ == branch_window(self@.index, *h),
    {
        let depth: u32 = DIFFICULTY_ADJUSTMENT_WINDOW + MTP_WINDOW as u32 + 2;
        let mut out: BTreeMap<u32, BlockHeader> = BTreeMap::new();
        let mut cursor = *h;
        let mut i: u32 = 0;
        let ghost m = branch(self@.index, *h);
        let ghost top = height_of(self@.index, *h);
        proof {
            lemma_branch(self@.index, *h);
            assert(out@ =~= m.restrict(Set::new(|k: u32| k + i > top)));
        }
        while i < depth
            invariant
                depth == 19,
                i <= depth,
                i <= top,
                index_wf(self@.index),
                entry_of(self@.index, *h) is Some,
                m == branch(self@.index, *h),
                top == height_of(self@.index, *h),
                entry_of(self@.index, cursor) is Some,
                entry_of(self@.index, cursor)->0.header == m[(top - i) as u32],
                out@ == m.restrict(Set::new(|k: u32| k + i > top)),
            decreases depth - i,
        {
            proof {
                lemma_branch(self@.index, *h);
            }
            match self.index.get(&cursor.0) {
                Some(e) => {
                    let height = e.header.height.0;
                    assert(m[(top - i) as u32].height.0 == (top - i) as u32);
                    headers::put_header(&mut out, height, e.header);
                    assert(out@ =~= m.restrict(Set::new(|k: u32| k + i + 1 > top)));
                    if height == 0 {
                        assert(out@ =~= branch_window(self@.index, *h));
                        return out;
                    }
                    proof {
                        let k = (top - i) as u32;
                        assert(m[k].previous_hash == block::header_hash(m[(k - 1) as u32]));
                        assert(m[(k - 1) as u32].height.0 == (k - 1) as u32);
                    }
                    cursor = e.header.previous_hash;
                },
                None => {
                    return out;
                },
            }
            i = i + 1;
            assert(out@ =~= m.restrict(Set::new(|k: u32| k + i > top)));
        }
        assert(out@ =~= branch_window(self@.index, *h));
        out
    }

    /// All headers of the branch that ends under a hash.
    fn branch_from_genesis(&self, h: &hash::Hash) -> (r: BTreeMap<u32, BlockHeader>)
        requires
            index_wf(self@.index),
            entry_of(self@.index, *h) is Some,
        ensures
            r@ == branch(self@.index, *h),
    {
        let mut out: BTreeMap<u32, BlockHeader> = BTreeMap::new();
        let mut cursor = *h;
        let ghost m = branch(self@.index, *h);
        let ghost top = height_of(self@.index, *h);
        let ghost mut at: int = top as int;
        proof {
            lemma_branch(self@.index, *h);
            assert(out@ =~= m.restrict(Set::new(|k: u32| k > at)));
        }
        loop
            invariant
                index_wf(self@.index),
                entry_of(self@.index, *h) is Some,
                m == branch(self@.index, *h),
                top == height_of(self@.index, *h),
                0 <= at <= top,
                entry_of(self@.index, cursor) is Some,
                entry_of(self@.index, cursor)->0.header == m[at as u32],
                out@ == m.restrict(Set::new(|k: u32| k > at)),
            decreases at,
        {
            proof {
                lemma_branch(self@.index, *h);
            }
            match self.index.get(&cursor.0) {
                Some(e) => {
                    let height = e.header.height.0;
                    assert(m[at as u32].height.0 == at as u32);
                    headers::put_header(&mut out, height, e.header);
                    assert(out@ =~= m.restrict(Set::new(|k: u32| k >= at)));
                    if height == 0 {
                        assert(out@ =~= m);
                        return out;
                    }
                    proof {
                        let k = at as u32;
                        assert(m[k].previous_hash == block::header_hash(m[(k - 1) as u32]));
                        assert(m[(k - 1) as u32].height.0 == (k - 1) as u32);
                        at = at - 1;
                    }
                    cursor = e.header.previous_hash;
                    assert(out@ =~= m.restrict(Set::new(|k: u32| k > at)));
                },
                None => {
                    return out;
                },
            }
        }
    }

    /// A point from which blocks can be replayed, if there is one at a block.
    fn base_for(&self, h: &hash::Hash, e: &BlockIndexEntry) -> (r: Option<
        (State, BTreeMap<u32, BlockHeader>),
    >)
        requires
            self@.wf(),
        ensures
            match base_at(self@, *h, *e) {
                Some(b) => r matches Some(p) && p.0@ == b.state && p.1@ == b.headers,
                None => r is None,
            },
    {
        let height = e.header.height.0;
        proof {
            lemma_branch(self@.index, self@.tip.hash);
        }
        match headers::header_at(&self.headers, height) {
            Some(active) => {
                let depth: u32 = self.tip.height.0 - height;
                if active.hash() == *h && depth as usize <= self.journal.len() {
                    let s = if depth == 0 {
                        self.state.clone()
                    } else {
                        self.journal[self.journal.len() - depth as usize].clone()
                    };
                    return Some((s, headers_upto(&self.headers, height)));
                }
            },
            None => {},
        }
        if height == 0 {
            let mut first: BTreeMap<u32, BlockHeader> = BTreeMap::new();
            headers::put_header(&mut first, 0, e.header);
            return Some((State::new(), first));
        }
        None
    }

    /// The account state as of the block under a hash, rebuilt from the
    /// nearest point at hand.
    fn state_at<S: BlockSource>(&self, h: &hash::Hash, source: &S, now: u64) -> (r: Result<State>)
        requires
            self@.wf(),
        ensures
            match state_under(self@, *h, source, now) {
                Ok(s) => r matches Ok(t) && t@ == s,
                Err(k) => r matches Err(e) && e.fault() == k,
            },
    {
        let mut pending: Vec<hash::Hash> = Vec::new();
        let mut cursor = *h;
        let ghost goal = replay_plan(self@, *h);
        assert(pending@.reverse() =~= Seq::<hash::Hash>::empty());
        proof {
            match goal {
                Some(p) => {
                    assert(p.1 + pending@.reverse() =~= p.1);
                },
                None => {},
            }
        }
        loop
            invariant
                self@.wf(),
                goal == replay_plan(self@, *h),
                pending@.len() == 0 ==> cursor == *h,
                pending@.len() > 0 ==> entry_of(self@.index, cursor) is Some,
                forall|i: int|
                    0 <= i < pending@.len() ==> entry_of(self@.index, #[trigger] pending@[i])
                        is Some,
                match replay_plan(self@, cursor) {
                    Some(p) => goal == Some((p.0, p.1 + pending@.reverse())),
                    None => goal is None,
                },
            decreases height_of(self@.index, cursor),
        {
            let e = match self.index.get(&cursor.0) {
                Some(e) => *e,
                None => {
                    let e = about_block("branch block ", &cursor, " is unknown", "");
                    assert(e.fault() == unknown_branch(*h)) by {
                        lemma_no_more("branch block "@ + text::hex_text(h.0@) + " is unknown"@);
                    }
                    return Err(e);
                },
            };
            match self.base_for(&cursor, &e) {
                Some((s, hs)) => {
                    assert((goal->0).1 =~= pending@.reverse());
                    return self.replay_pending(
                        &pending,
                        s,
                        hs,
                        source,
                        now,
                    );
                },
                None => {},
            }
            proof {
                lemma_entry(self@.index, cursor);
                let before = pending@.reverse();
                let after = pending@.push(cursor).reverse();
                assert(after =~= seq![cursor] + before);
                match replay_plan(self@, e.header.previous_hash) {
                    Some(p) => {
                        assert(p.1.push(cursor) + before =~= p.1 + after);
                    },
                    None => {},
                }
            }
            pending.push(cursor);
            cursor = e.header.previous_hash;
        }
    }

    /// Replay blocks, the last of `pending` first, on top of a point.
    fn replay_pending<S: BlockSource>(
        &self,
        pending: &Vec<hash::Hash>,
        start: State,
        start_headers: BTreeMap<u32, BlockHeader>,
        source: &S,
        now: u64,
    ) -> (r: Result<State>)
        requires
            forall|i: int|
                0 <= i < pending@.len() ==> entry_of(self@.index, #[trigger] pending@[i]) is Some,
        ensures
            match replay(
                self@,
                source,
                now,
                Base { state: start@, headers: start_headers@ },
                pending@.reverse(),
            ) {
                Ok(at) => r matches Ok(t) && t@ == at.state,
                Err(k) => r matches Err(e) && e.fault() == k,
            },
    {
        let mut working = start;
        let mut hs = start_headers;
        let ghost base = Base { state: start@, headers: start_headers@ };
        let ghost todo = pending@.reverse();
        let mut left: usize = pending.len();
        assert(todo.subrange(0, 0) =~= Seq::<hash::Hash>::empty());
        while left > 0
            invariant
                left <= pending@.len(),
                todo == pending@.reverse(),
                base == (Base { state: start@, headers: start_headers@ }),
                forall|i: int|
                    0 <= i < pending@.len() ==> entry_of(self@.index, #[trigger] pending@[i])
                        is Some,
                replay(self@, source, now, base, todo.subrange(0, pending@.len() - left)) == Ok::<
                    Base,
                    Fault,
                >(Base { state: working@, headers: hs@ }),
            decreases left,
        {
            let h = pending[left - 1];
            let ghost done = pending@.len() - left;
            let ghost prefix = todo.subrange(0, done + 1);
            proof {
                assert(prefix.drop_last() =~= todo.subrange(0, done));
                assert(prefix.last() == h);
                assert(replay(self@, source, now, base, prefix) == replay_one(
                    self@,
                    source,
                    now,
                    Base { state: working@, headers: hs@ },
                    h,
                ));
            }
            let b = match source.get_block(&h) {
                Some(b) => b,
                None => {
                    proof {
                        lemma_replay_fault(self@, source, now, base, todo, done + 1);
                    }
                    let e = about_block("cannot replay branch: block ", &h, " is not available", "");
                    assert(e.fault() == unavailable(h)) by {
                        lemma_no_more(unavailable(h).detail);
                    }
                    return Err(e);
                },
            };
            let ctx = match self.validation_context(b.header.height.0, &hs, now) {
                Ok(c) => c,
                Err(e) => {
                    proof {
                        lemma_replay_fault(self@, source, now, base, todo, done + 1);
                    }
                    return Err(e);
                },
            };
            match block::validate_block(&b, &ctx, &mut working) {
                Ok(_) => {},
                Err(e) => {
                    proof {
                        lemma_replay_fault(self@, source, now, base, todo, done + 1);
                    }
                    return Err(e);
                },
            }
            match self.index.get(&h.0) {
                Some(e) => {
                    headers::put_header(&mut hs, e.header.height.0, e.header);
                },
                None => {
                    assert(entry_of(self@.index, pending@[left - 1]) is Some);
                },
            }
            left = left - 1;
        }
        assert(todo.subrange(0, pending@.len() as int) =~= todo);
        Ok(working)
    }

    /// Whether one tip has a better claim than another.
    fn outranks(
        work: &U256,
        hash: &hash::Hash,
        other_work: &U256,
        other_hash: &hash::Hash,
    ) -> (r: bool)
        ensures
            r == outranks(work@, *hash, other_work@, *other_hash),
    {
        if *work > *other_work {
            true
        } else if *work < *other_work {
            false
        } else {
            bytes::bytes_less(&hash.0, &other_hash.0)
        }
    }

    /// Put a block in the index.
    fn record(&mut self, header: BlockHeader, work: U256)
        ensures
            final(self)@ == (ChainView {
                index: keymap::put(
                    old(self)@.index,
                    block::header_hash(header).0,
                    BlockIndexEntry { header, cumulative_work: work },
                ),
                ..old(self)@
            }),
    {
        let h = header.hash();
        self.index.insert(h.0, BlockIndexEntry { header, cumulative_work: work });
    }

    /// Make a block the tip.
    fn set_tip(&mut self, header: BlockHeader, work: U256)
        ensures
            ({
                let tip = ChainTip {
                    height: header.height,
                    hash: block::header_hash(header),
                    header,
                    cumulative_work: work,
                    supply: old(self)@.state.supply,
                };
                final(self)@ == (ChainView {
                    tip,
                    tips: keymap::put(old(self)@.tips, tip.hash.0, tip),
                    ..old(self)@
                })
            }),
    {
        let tip = ChainTip {
            height: header.height,
            hash: header.hash(),
            header,
            cumulative_work: work,
            supply: self.state.total_supply(),
        };
        self.tip = tip;
        self.tips.insert(tip.hash.0, tip);
    }

    /// Keep a state as the way back over the block just added.
    fn remember(&mut self, before: State)
        ensures
            final(self)@ == (ChainView {
                journal: journal_with(old(self)@.journal, before@),
                ..old(self)@
            }),
    {
        self.journal.push(before);
        assert(self@.journal =~= old(self)@.journal.push(before@));
        if self.journal.len() > REORG_JOURNAL_DEPTH as usize {
            let ghost full = self@.journal;
            let _ = self.journal.remove(0);
            assert(self@.journal =~= full.subrange(1, full.len() as int));
        }
    }

    /// Make the branch that a recorded block ends the active chain. Gives how
    /// many blocks of the old chain were rolled back.
    fn reorganize(&mut self, header: BlockHeader, work: U256, new_state: State) -> (depth: u32)
        requires
            index_wf(old(self)@.index),
            entry_of(old(self)@.index, block::header_hash(header)) is Some,
        ensures
            ({
                let tip = ChainTip {
                    height: header.height,
                    hash: block::header_hash(header),
                    header,
                    cumulative_work: work,
                    supply: new_state@.supply,
                };
                let after = branch(old(self)@.index, tip.hash);
                &&& final(self)@ == (ChainView {
                    headers: after,
                    state: new_state@,
                    tip,
                    tips: keymap::put(old(self)@.tips, tip.hash.0, tip),
                    journal: Seq::empty(),
                    ..old(self)@
                })
                &&& depth == old(self)@.tip.height.0 - fork_height(
                    old(self)@.headers,
                    after,
                    old(self)@.tip.height.0,
                )
            }),
    {
        let old_height = self.tip.height.0;
        let new_headers = self.branch_from_genesis(&header.hash());
        let mut top: u32 = old_height;
        loop
            invariant
                top <= old_height,
                self@ == old(self)@,
                fork_height(self@.headers, new_headers@, old_height) == fork_height(
                    self@.headers,
                    new_headers@,
                    top,
                ),
            ensures
                top <= old_height,
                self@ == old(self)@,
                top == fork_height(self@.headers, new_headers@, old_height),
            decreases top,
        {
            let same = match headers::header_at(&self.headers, top) {
                Some(a) => match headers::header_at(&new_headers, top) {
                    Some(b) => a.hash() == b.hash(),
                    None => false,
                },
                None => false,
            };
            if same || top == 0 {
                break;
            }
            top = top - 1;
        }
        self.headers = new_headers;
        self.state = new_state;
        self.journal = Vec::new();
        assert(self@.journal =~= Seq::<StateView>::empty());
        self.set_tip(header, work);
        old_height - top
    }

    /// Validate a block at a given time and apply the fork-choice rule.
    ///
    /// A block on a branch other than the active one is kept, but becomes the
    /// tip only when its branch has more work, or as much and a smaller hash.
    pub fn apply_block_at<S: BlockSource>(&mut self, block: &Block, source: &S, now: u64) -> (r:
        Result<BlockOutcome>)
        requires
            old(self)@.wf(),
        ensures
            ({
                let out = offered(old(self)@, block@, source, now);
                &&& final(self)@ == out.0
                &&& match out.1 {
                    Ok(o) => r == Ok::<BlockOutcome, CoreError>(o),
                    Err(k) => r matches Err(e) && e.fault() == k,
                }
            }),
            final(self)@.wf(),
            parent_unknown(old(self)@, block@.header) ==> final(self)@ == old(self)@ && (r matches
                Err(e) && e.fault() == missing_parent(block@.header) && text::begins(
                e.detail(),
                "missing parent "@,
            )),
    {
        proof {
            lemma_missing_parent(block@.header);
            offering_keeps_the_chain_sound(self@, block@, source, now);
        }
        let hash = block.hash();
        proof {
            keymap::lemma_value_of(self@.index, hash.0);
        }
        if self.index.contains_key(&hash.0) {
            return Ok(BlockOutcome::Duplicate);
        }
        let height = block.header.height.0;
        if height == 0 {
            return Err(
                CoreError::InvalidBlock("genesis is fixed by the network parameters".to_string()),
            );
        }
        let prev = block.header.previous_hash;
        let parent = match self.index.get(&prev.0) {
            Some(p) => *p,
            None => {
                return Err(
                    about_block(
                        "missing parent ",
                        &prev,
                        " for block at height ",
                        text::decimal_text(height as u64).as_str(),
                    ),
                );
            },
        };
        if parent.header.height.0 != height - 1 {
            return Err(
                CoreError::InvalidBlock(
                    text::phrase2(
                        "height ",
                        height as u64,
                        " does not follow parent at ",
                        parent.header.height.0 as u64,
                    ),
                ),
            );
        }
        let own_work = header_work(&block.header);
        let work = match parent.cumulative_work.checked_add(&own_work) {
            Some(w) => w,
            None => {
                return Err(CoreError::Overflow("cumulative work overflow".to_string()));
            },
        };
        proof {
            u256::lemma_u256_bound(work);
            u256::lemma_u256_of(work);
        }
        let wins = Self::outranks(&work, &hash, &self.tip.cumulative_work, &self.tip.hash);
        if prev == self.tip.hash {
            // The common case: validate against the state we already hold.
            let ctx = match self.validation_context(height, &self.headers, now) {
                Ok(c) => c,
                Err(e) => {
                    return Err(e);
                },
            };
            let mut after = self.state.clone();
            match block::validate_block(block, &ctx, &mut after) {
                Ok(_) => {},
                Err(e) => {
                    return Err(e);
                },
            }
            let before = self.state.clone();
            self.remember(before);
            self.state = after;
            self.record(block.header, work);
            headers::put_header(&mut self.headers, height, block.header);
            self.set_tip(block.header, work);
            return Ok(BlockOutcome::Extended);
        }
        // A branch block. It is validated against its own branch before
        // anything is decided, so an invalid block never enters the index.
        let window = self.branch_headers(&prev);
        let ctx = match self.validation_context(height, &window, now) {
            Ok(c) => c,
            Err(e) => {
                return Err(e);
            },
        };
        let mut scratch = match self.state_at(&prev, source, now) {
            Ok(s) => s,
            Err(e) => {
                return Err(e);
            },
        };
        match block::validate_block(block, &ctx, &mut scratch) {
            Ok(_) => {},
            Err(e) => {
                return Err(e);
            },
        }
        proof {
            lemma_record(
                self@.index,
                BlockIndexEntry { header: block.header, cumulative_work: work },
            );
            keymap::put_and_lookup(
                self@.index,
                hash.0,
                BlockIndexEntry { header: block.header, cumulative_work: work },
                hash.0,
            );
        }
        self.record(block.header, work);
        if !wins {
            return Ok(BlockOutcome::SideBranch);
        }
        let depth = self.reorganize(block.header, work, scratch);
        Ok(BlockOutcome::Reorganized { depth })
    }

    /// Validate a block now and apply the fork-choice rule.
    pub fn apply_block_with<S: BlockSource>(&mut self, block: &Block, source: &S) -> (r: Result<
        BlockOutcome,
    >)
        requires
            old(self)@.wf(),
        ensures
            final(self)@.wf(),
            exists|now: u64|
                ({
                    let out = #[trigger] offered(old(self)@, block@, source, now);
                    &&& final(self)@ == out.0
                    &&& match out.1 {
                        Ok(o) => r == Ok::<BlockOutcome, CoreError>(o),
                        Err(k) => r matches Err(e) && e.fault() == k,
                    }
                }),
            parent_unknown(old(self)@, block@.header) ==> final(self)@ == old(self)@ && (r matches
                Err(e) && e.fault() == missing_parent(block@.header) && text::begins(
                e.detail(),
                "missing parent "@,
            )),
    {
        let now = now_secs();
        self.apply_block_at(block, source, now)
    }

    /// Validate a block now and apply it. For a chain that only ever extends;
    /// a reorganization needs blocks that are not in memory.
    pub fn apply_block(&mut self, block: &Block) -> (r: Result<()>)
        requires
            old(self)@.wf(),
        ensures
            final(self)@.wf(),
            exists|now: u64|
                ({
                    let out = #[trigger] offered(old(self)@, block@, &NoBlockSource, now);
                    &&& final(self)@ == out.0
                    &&& match out.1 {
                        Ok(_) => r is Ok,
                        Err(k) => r matches Err(e) && e.fault() == k,
                    }
                }),
            parent_unknown(old(self)@, block@.header) ==> final(self)@ == old(self)@ && (r matches
                Err(e) && e.fault() == missing_parent(block@.header) && text::begins(
                e.detail(),
                "missing parent "@,
            )),
    {
        match self.apply_block_with(block, &NoBlockSource) {
            Ok(_) => Ok(()),
            Err(e) => Err(e),
        }
    }
}

/// A replay that fails at some block fails, whatever would follow.
proof fn lemma_replay_fault<S: BlockSource>(
    v: ChainView,
    source: &S,
    now: u64,
    base: Base,
    todo: Seq<hash::Hash>,
    n: int,
)
    requires
        0 <= n <= todo.len(),
        replay(v, source, now, base, todo.subrange(0, n)) is Err,
    ensures
        replay(v, source, now, base, todo) == replay(v, source, now, base, todo.subrange(0, n)),
    decreases todo.len(),
{
    if n == todo.len() {
        assert(todo.subrange(0, n) =~= todo);
    } else {
        assert(todo.drop_last().subrange(0, n) =~= todo.subrange(0, n));
        lemma_replay_fault(v, source, now, base, todo.drop_last(), n);
    }
}

// ---------------------------------------------------------------------------
// Laws
// ---------------------------------------------------------------------------

/// Whatever block is offered, the chain stays sound, and one that is refused
/// leaves it as it was.
pub proof fn offering_keeps_the_chain_sound<S: BlockSource>(
    v: ChainView,
    b: BlockView,
    source: &S,
    now: u64,
)
    requires
        v.wf(),
    ensures
        offered(v, b, source, now).0.wf(),
        offered(v, b, source, now).1 is Err ==> offered(v, b, source, now).0 == v,
{
    let after = offered(v, b, source, now).0;
    let hash = block::header_hash(b.header);
    let prev = b.header.previous_hash;
    if after != v {
        let parent = entry_of(v.index, prev)->0;
        let work = parent.cumulative_work@ + bits_work(b.header.bits.0);
        lemma_of_number(work);
        let e = BlockIndexEntry { header: b.header, cumulative_work: u256::u256_of(work) };
        lemma_record(v.index, e);
        keymap::put_and_lookup(v.index, hash.0, e, hash.0);
        keymap::put_and_lookup(v.index, hash.0, e, prev.0);
        keymap::put_and_lookup(v.index, hash.0, e, v.tip.hash.0);
        lemma_hash_key(hash, prev);
        lemma_hash_key(hash, v.tip.hash);
        lemma_branch_stable(v.index, hash, e, v.tip.hash);
        lemma_branch_stable(v.index, hash, e, prev);
        let index = recorded(v.index, b, work);
        assert(branch(index, hash) == branch(index, prev).insert(b.header.height.0, b.header));
        lemma_branch(v.index, v.tip.hash);
        assert(after.journal.len() <= REORG_JOURNAL_DEPTH);
    }
}

pub proof fn lemma_of_number(n: nat)
    requires
        n < u256::u256_limit(),
    ensures
        u256::u256_of(n)@ == n,
{
    let b = u256::limb_base();
    assert(n / u256::limb_base() % b + (n / u256::limb_base2()) * b == n / u256::limb_base());
    assert(n / u256::limb_base2() % b + (n / u256::limb_base3()) * b == n / u256::limb_base2());
    assert(n / u256::limb_base3() < b);
}

/// The tip stays the best of all known blocks when the block offered stands for
/// work.
pub proof fn tip_stays_best<S: BlockSource>(v: ChainView, b: BlockView, source: &S, now: u64)
    requires
        v.wf(),
        v.tip_is_best(),
        bits_work(b.header.bits.0) > 0,
    ensures
        offered(v, b, source, now).0.tip_is_best(),
{
    let after = offered(v, b, source, now).0;
    let hash = block::header_hash(b.header);
    let prev = b.header.previous_hash;
    if after != v {
        let parent = entry_of(v.index, prev)->0;
        let work = parent.cumulative_work@ + bits_work(b.header.bits.0);
        lemma_of_number(work);
        let e = BlockIndexEntry { header: b.header, cumulative_work: u256::u256_of(work) };
        assert forall|h: hash::Hash| (#[trigger] entry_of(after.index, h)) is Some implies !outranks(
            entry_of(after.index, h)->0.cumulative_work@,
            h,
            after.tip.cumulative_work@,
            after.tip.hash,
        ) by {
            keymap::put_and_lookup(v.index, hash.0, e, h.0);
            lemma_hash_key(hash, h);
            if h != hash {
                assert(entry_of(v.index, h) == entry_of(after.index, h));
            }
        }
    }
}

/// The order between tips is strict: of two different ones exactly one has the
/// better claim, and none has it over itself.
pub proof fn fork_choice_is_a_strict_order(
    w1: nat,
    h1: hash::Hash,
    w2: nat,
    h2: hash::Hash,
    w3: nat,
    h3: hash::Hash,
)
    ensures
        !outranks(w1, h1, w1, h1),
        !(outranks(w1, h1, w2, h2) && outranks(w2, h2, w1, h1)),
        h1 != h2 ==> outranks(w1, h1, w2, h2) || outranks(w2, h2, w1, h1),
        outranks(w1, h1, w2, h2) && outranks(w2, h2, w3, h3) ==> outranks(w1, h1, w3, h3),
{
    if h1 != h2 && bytes::be_value(h1.0@) == bytes::be_value(h2.0@) {
        bytes::lemma_be_value_injective(h1.0@, h2.0@);
        bytes::lemma_array_equal(h1.0, h2.0);
    }
}

/// After a reorganization the chain is that of the new tip alone: its headers
/// are the new branch, its supply is the new state's, and nothing of the old
/// journal is left.
pub proof fn reorganization_follows_the_new_branch<S: BlockSource>(
    v: ChainView,
    b: BlockView,
    source: &S,
    now: u64,
)
    requires
        v.wf(),
        offered(v, b, source, now).1 matches Ok(BlockOutcome::Reorganized { .. }),
    ensures
        ({
            let after = offered(v, b, source, now).0;
            &&& after.tip.hash == block::header_hash(b.header)
            &&& after.headers == branch(after.index, after.tip.hash)
            &&& after.tip.supply == after.state.supply
            &&& after.journal.len() == 0
            &&& state::state_root(after.state.accounts) == b.header.state_root
        }),
{
    offering_keeps_the_chain_sound(v, b, source, now);
    reveal(block::after_block);
}

/// Which block is the tip depends on the blocks that are known, and not on the
/// order in which they came.
pub proof fn known_blocks_decide_the_tip(v: ChainView, w: ChainView)
    requires
        v.wf(),
        w.wf(),
        v.tip_is_best(),
        w.tip_is_best(),
        forall|h: hash::Hash| entry_of(v.index, h) == entry_of(w.index, h),
    ensures
        v.tip.hash == w.tip.hash,
        v.tip.header == w.tip.header,
        v.tip.cumulative_work == w.tip.cumulative_work,
{
    let a = v.tip.cumulative_work@;
    let b = w.tip.cumulative_work@;
    assert(entry_of(v.index, w.tip.hash) == entry_of(w.index, w.tip.hash));
    assert(entry_of(w.index, v.tip.hash) == entry_of(v.index, v.tip.hash));
    assert(!outranks(b, w.tip.hash, a, v.tip.hash));
    assert(!outranks(a, v.tip.hash, b, w.tip.hash));
    fork_choice_is_a_strict_order(a, v.tip.hash, b, w.tip.hash, a, v.tip.hash);
}

/// Rebuilding a state never replays a block of the active chain that the
/// journal still reaches, so a shallow reorganization needs none of the blocks
/// that it abandons or keeps.
pub proof fn journal_spares_the_active_chain(v: ChainView, h: hash::Hash, i: int)
    requires
        v.wf(),
        replay_plan(v, h) is Some,
        0 <= i < (replay_plan(v, h)->0).1.len(),
    ensures
        ({
            let x = (replay_plan(v, h)->0).1[i];
            &&& entry_of(v.index, x) is Some
            &&& forall|k: u32|
                v.tip.height.0 - v.journal.len() <= k <= v.tip.height.0 ==> block::header_hash(
                    #[trigger] v.headers[k],
                ) != x
        }),
    decreases height_of(v.index, h),
{
    let e = entry_of(v.index, h)->0;
    let plan = replay_plan(v, h)->0;
    let low = replay_plan(v, e.header.previous_hash)->0;
    lemma_entry(v.index, h);
    assert(plan.1 == low.1.push(h));
    if i < low.1.len() {
        journal_spares_the_active_chain(v, e.header.previous_hash, i);
    } else {
        lemma_branch(v.index, v.tip.hash);
        assert forall|k: u32|
            v.tip.height.0 - v.journal.len() <= k <= v.tip.height.0 implies block::header_hash(
            #[trigger] v.headers[k],
        ) != h by {
            if block::header_hash(v.headers[k]) == h {
                assert(e.header == v.headers[k]);
                assert(e.header.height.0 == k);
            }
        }
    }
}

/// A network's chain starts with no accounts, nothing issued, and the work of its
/// genesis block alone.
pub proof fn genesis_starts_from_nothing(params: ChainParams)
    ensures
        ({
            let v = genesis_chain(params);
            let g = v.tip.header;
            &&& v.params == params
            &&& v.state.accounts.len() == 0
            &&& v.state.supply == 0
            &&& v.tip.supply == 0
            &&& v.tip.height.0 == 0
            &&& v.tip.hash == block::header_hash(g)
            &&& v.tip.cumulative_work@ == randomx::work_of(
                types::compact_value(params.genesis_bits.0),
            )
            &&& v.headers.contains_key(0) && v.headers[0] == g
            &&& g.height.0 == 0
            &&& g.bits == params.genesis_bits
            &&& g.timestamp == params.genesis_timestamp
            &&& g.version == 1
            &&& g.nonce == 0
            &&& forall|i: int|
                0 <= i < 32 ==> g.previous_hash.0[i] == 0 && g.state_root.0[i] == 0
                    && g.tx_merkle_root.0[i] == 0
        }),
{
    lemma_genesis_work(params);
}

pub proof fn lemma_genesis_work(params: ChainParams)
    ensures
        genesis_chain(params).tip.cumulative_work@ == bits_work(params.genesis_bits.0),
        bits_work(params.genesis_bits.0) < u256::u256_limit(),
{
    let t = types::compact_value(params.genesis_bits.0);
    assert(randomx::work_of(t) < u256::u256_limit());
    lemma_of_number(bits_work(params.genesis_bits.0));
}

} // verus!
