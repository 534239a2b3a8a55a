//! Catching up with a peer: the state of a synchronization, and the chain of
//! headers that it builds on.

use vstd::prelude::*;
use std::collections::BTreeMap;
use crate::block;
use crate::block::BlockHeader;
use crate::bytes;
use crate::consensus::chain;
use crate::consensus::chain::{ChainState, ChainView};
use crate::consensus::genesis;
use crate::consensus::headers;
use crate::consensus::headers::Headers;
use crate::consensus::params::ChainParams;
use crate::consensus::retarget;
use crate::crypto::randomx;
use crate::crypto::randomx::PowAlgorithm;
use crate::error::{CoreError, ErrorKind, Fault};
use crate::hash;
use crate::p2p::net::NetAddr;
use crate::p2p::wire::{GetDataMessage, GetHeadersMessage, InvEntry, InvType};
use crate::serialize::CanonicalEncode;
use crate::text;
use crate::types;
use crate::types::CompactTarget;

verus! {

pub const MAX_HEADERS_PER_RESPONSE: usize = 2000;

pub const MAX_BLOCKS_PER_RESPONSE: usize = 500;

#[derive(Clone, Copy, Debug, PartialEq, Eq, Structural)]
pub enum SyncState {
    Idle,
    SyncingHeaders,
    SyncingBlocks,
    CaughtUp,
}

/// How a synchronization stands.
#[derive(Clone, Copy, Debug)]
pub struct ChainSyncer {
    pub state: SyncState,
    pub best_height: u32,
    pub best_hash: hash::Hash,
    pub sync_peer: Option<NetAddr>,
}

impl ChainSyncer {
    /// Whether a synchronization is going on.
    pub open spec fn busy(self) -> bool {
        self.state is SyncingHeaders || self.state is SyncingBlocks
    }

    /// With a header taken note of. Only a higher one is better.
    pub open spec fn noted(self, h: hash::Hash, height: u32) -> ChainSyncer {
        if height > self.best_height {
            ChainSyncer { best_height: height, best_hash: h, ..self }
        } else {
            self
        }
    }

    pub fn new(genesis_hash: hash::Hash) -> (r: ChainSyncer)
        ensures
            r == (ChainSyncer {
                state: SyncState::Idle,
                best_height: 0,
                best_hash: genesis_hash,
                sync_peer: None,
            }),
    {
        ChainSyncer {
            state: SyncState::Idle,
            best_height: 0,
            best_hash: genesis_hash,
            sync_peer: None,
        }
    }

    /// Begin to ask a peer for the headers after one.
    pub fn start_header_sync(&mut self, peer: NetAddr, from_hash: hash::Hash) -> (r:
        GetHeadersMessage)
        ensures
            *final(self) == (ChainSyncer {
                state: SyncState::SyncingHeaders,
                sync_peer: Some(peer),
                ..*old(self)
            }),
            r.start_hash == from_hash,
            r.stop_hash == hash::zero_hash(),
    {
        self.state = SyncState::SyncingHeaders;
        self.sync_peer = Some(peer);
        GetHeadersMessage { start_hash: from_hash, stop_hash: hash::Hash::zero() }
    }

    /// Begin to ask a peer for the best block.
    pub fn start_block_sync(&mut self, peer: NetAddr) -> (r: GetDataMessage)
        ensures
            *final(self) == (ChainSyncer {
                state: SyncState::SyncingBlocks,
                sync_peer: Some(peer),
                ..*old(self)
            }),
            r.inventory@ == seq![
                InvEntry { inv_type: InvType::Block, hash: old(self).best_hash },
            ],
    {
        self.state = SyncState::SyncingBlocks;
        self.sync_peer = Some(peer);
        let mut inventory: Vec<InvEntry> = Vec::new();
        inventory.push(InvEntry { inv_type: InvType::Block, hash: self.best_hash });
        assert(inventory@ =~= seq![
            InvEntry { inv_type: InvType::Block, hash: old(self).best_hash },
        ]);
        GetDataMessage { inventory }
    }

    pub fn received_header(&mut self, hash: hash::Hash, height: u32)
        ensures
            *final(self) == old(self).noted(hash, height),
    {
        if height > self.best_height {
            self.best_height = height;
            self.best_hash = hash;
        }
    }

    pub fn sync_complete(&mut self)
        ensures
            *final(self) == (ChainSyncer {
                state: SyncState::CaughtUp,
                sync_peer: None,
                ..*old(self)
            }),
    {
        self.state = SyncState::CaughtUp;
        self.sync_peer = None;
    }

    pub fn sync_failed(&mut self)
        ensures
            *final(self) == (ChainSyncer { state: SyncState::Idle, sync_peer: None, ..*old(self) }),
    {
        self.state = SyncState::Idle;
        self.sync_peer = None;
    }

    pub fn is_syncing(&self) -> (r: bool)
        ensures
            r == self.busy(),
    {
        match self.state {
            SyncState::SyncingHeaders | SyncState::SyncingBlocks => true,
            _ => false,
        }
    }

    pub fn sync_peer(&self) -> (r: Option<NetAddr>)
        ensures
            r == self.sync_peer,
    {
        self.sync_peer
    }
}

/// The best header never gets lower, and of two headers the higher one is kept
/// whichever comes first.
pub proof fn best_header_never_regresses(
    s: ChainSyncer,
    h1: hash::Hash,
    n1: u32,
    h2: hash::Hash,
    n2: u32,
)
    ensures
        s.noted(h1, n1).best_height >= s.best_height,
        n1 != n2 ==> s.noted(h1, n1).noted(h2, n2) == s.noted(h2, n2).noted(h1, n1),
{
}

// ---------------------------------------------------------------------------
// The chain of headers
// ---------------------------------------------------------------------------

/// The best chain of headers, which may be ahead of the blocks.
pub struct HeaderChain {
    params: ChainParams,
    headers: BTreeMap<u32, BlockHeader>,
    top: u32,
}

/// What a chain of headers holds.
#[verifier::ext_equal]
pub struct HeaderView {
    pub params: ChainParams,
    pub headers: Headers,
    pub top: u32,
}

impl View for HeaderChain {
    type V = HeaderView;

    closed spec fn view(&self) -> HeaderView {
        HeaderView { params: self.params, headers: self.headers@, top: self.top }
    }
}

impl HeaderView {
    /// Whether the headers are linked from genesis to the top.
    pub open spec fn wf(self) -> bool {
        &&& forall|k: u32| #[trigger] self.headers.contains_key(k) <==> k <= self.top
        &&& forall|k: u32| k <= self.top ==> (#[trigger] self.headers[k]).height.0 == k
        &&& forall|k: u32|
            0 < k <= self.top ==> (#[trigger] self.headers[k]).previous_hash == block::header_hash(
                self.headers[(k - 1) as u32],
            )
    }

    /// The hash of the best header.
    pub open spec fn best(self) -> hash::Hash {
        block::header_hash(self.headers[self.top])
    }

    /// Whether a header is already part of the chain.
    pub open spec fn knows(self, h: BlockHeader) -> bool {
        h.height.0 <= self.top && self.headers[h.height.0] == h
    }

    /// What keeps a header from following the best one, if anything: that it
    /// does not link up, carries the wrong target, or does not meet it.
    pub open spec fn refusal(self, h: BlockHeader) -> Option<Fault> {
        if h.height.0 != self.top + 1 || h.previous_hash != self.best() {
            Some(
                ErrorKind::InvalidBlock.because(
                    "header does not link up at height "@ + text::decimal(h.height.0 as nat),
                ),
            )
        } else {
            match retarget::bits_for(h.height.0, self.headers, self.params) {
                Ok(bits) => if h.bits != bits {
                    Some(
                        ErrorKind::InvalidDifficulty.because(
                            text::two_numbers(
                                "header carries target "@,
                                h.bits.0 as nat,
                                ", expected "@,
                                bits.0 as nat,
                            ),
                        ),
                    )
                } else {
                    block::work_fault(self.params.pow, h, "header does not meet its target"@)
                },
                Err(k) => Some(k),
            }
        }
    }

    /// With one more header on top.
    pub open spec fn extended(self, h: BlockHeader) -> HeaderView {
        HeaderView {
            headers: self.headers.insert(h.height.0, h),
            top: h.height.0,
            ..self
        }
    }

    /// The height of the header under a hash, looking from a height down.
    pub open spec fn height_of(self, h: hash::Hash, from: u32) -> Option<u32>
        decreases from,
    {
        if block::header_hash(self.headers[from]) == h {
            Some(from)
        } else if from == 0 {
            None
        } else {
            self.height_of(h, (from - 1) as u32)
        }
    }

    /// A run of headers from a height on: up to the one under the stop hash,
    /// and no more than a number of them.
    pub open spec fn run(self, from: int, stop: hash::Hash, room: nat) -> Seq<BlockHeader>
        decreases room,
    {
        if from > self.top || room == 0 {
            Seq::empty()
        } else {
            let h = self.headers[from as u32];
            if block::header_hash(h) == stop {
                seq![h]
            } else {
                seq![h] + self.run(from + 1, stop, (room - 1) as nat)
            }
        }
    }

    /// The answer to a request for the headers after one: nothing after one
    /// that is not known.
    pub open spec fn after(self, start: hash::Hash, stop: hash::Hash) -> Seq<BlockHeader> {
        match self.height_of(start, self.top) {
            Some(k) => self.run(k + 1, stop, MAX_HEADERS_PER_RESPONSE as nat),
            None => Seq::empty(),
        }
    }

    /// The chain of headers after that of the blocks has changed: unchanged
    /// where the block chain's tip lies on it, and the block chain's otherwise.
    pub open spec fn followed(self, c: ChainView) -> HeaderView {
        if c.tip.height.0 <= self.top && block::header_hash(self.headers[c.tip.height.0])
            == c.tip.hash {
            self
        } else {
            HeaderView { params: self.params, headers: c.headers, top: c.tip.height.0 }
        }
    }
}

/// The chain after a run of headers, how many of them were taken, and why the
/// next one was not.
pub open spec fn absorbed(v: HeaderView, hs: Seq<BlockHeader>) -> (HeaderView, nat, Option<
    Fault,
>)
    decreases hs.len(),
{
    if hs.len() == 0 {
        (v, 0, None)
    } else {
        let (w, n, fault) = absorbed(v, hs.drop_last());
        if fault is Some {
            (w, n, fault)
        } else if w.knows(hs.last()) {
            (w, n + 1, None)
        } else {
            match w.refusal(hs.last()) {
                Some(k) => (w, n, Some(k)),
                None => (w.extended(hs.last()), n + 1, None),
            }
        }
    }
}

/// What became of a run of headers.
#[derive(Debug)]
pub struct HeaderBatch {
    pub accepted: usize,
    pub rejected: Option<CoreError>,
}

/// The chain that is the genesis header of a network.
pub open spec fn genesis_headers(params: ChainParams) -> HeaderView {
    HeaderView {
        params,
        headers: Map::empty().insert(0u32, genesis::genesis_header(params)),
        top: 0,
    }
}

impl HeaderChain {
    /// The chain that is the genesis header of a network.
    pub fn with_params(params: ChainParams) -> (r: HeaderChain)
        ensures
            r@.wf(),
            r@ == genesis_headers(params),
    {
        let genesis = genesis::build_genesis_block_with(&params);
        let mut headers: BTreeMap<u32, BlockHeader> = BTreeMap::new();
        headers::put_header(&mut headers, 0, genesis.header);
        HeaderChain { params, headers, top: 0 }
    }

    pub fn height(&self) -> (r: u32)
        ensures
            r == self@.top,
    {
        self.top
    }

    /// The hash of the best header.
    pub fn best_hash(&self) -> (r: hash::Hash)
        requires
            self@.wf(),
        ensures
            r == self@.best(),
    {
        match headers::header_at(&self.headers, self.top) {
            Some(h) => h.hash(),
            None => hash::Hash::zero(),
        }
    }

    /// Whether a header may follow the best one.
    fn check(&self, h: &BlockHeader) -> (r: Result<(), CoreError>)
        requires
            self@.wf(),
        ensures
            match self@.refusal(*h) {
                Some(k) => r matches Err(e) && e.fault() == k,
                None => r is Ok,
            },
    {
        if self.top == u32::MAX || h.height.0 != self.top + 1 || h.previous_hash
            != self.best_hash() {
            return Err(
                CoreError::InvalidBlock(
                    text::phrase1("header does not link up at height ", h.height.0 as u64),
                ),
            );
        }
        let bits = match retarget::calculate_target_for_height_with(
            h.height.0,
            &self.headers,
            &self.params,
        ) {
            Ok(b) => b,
            Err(e) => {
                return Err(e);
            },
        };
        if h.bits != bits {
            return Err(
                CoreError::InvalidDifficulty(
                    text::phrase2(
                        "header carries target ",
                        h.bits.0 as u64,
                        ", expected ",
                        bits.0 as u64,
                    ),
                ),
            );
        }
        let seed = genesis::genesis_randomx_seed();
        match block::pow_hash(self.params.pow, &seed, h) {
            Ok(d) => {
                if randomx::hash_meets_target(&d, &h.bits.to_full_target()) {
                    Ok(())
                } else {
                    Err(
                        CoreError::InvalidProofOfWork(
                            "header does not meet its target".to_string(),
                        ),
                    )
                }
            },
            Err(e) => Err(e),
        }
    }

    /// Take a run of headers, up to the first that cannot follow.
    pub fn absorb_headers(&mut self, hs: &[BlockHeader]) -> (r: HeaderBatch)
        requires
            old(self)@.wf(),
        ensures
            final(self)@.wf(),
            r.accepted <= hs@.len(),
            ({
                let (v, n, fault) = absorbed(old(self)@, hs@);
                &&& final(self)@ == v
                &&& r.accepted == n
                &&& match fault {
                    Some(k) => r.rejected matches Some(e) && e.fault() == k,
                    None => r.rejected is None && r.accepted == hs@.len(),
                }
            }),
    {
        let mut i: usize = 0;
        assert(hs@.subrange(0, 0) =~= Seq::<BlockHeader>::empty());
        while i < hs.len()
            invariant
                i <= hs@.len(),
                self@.wf(),
                absorbed(old(self)@, hs@.subrange(0, i as int)) == (
                    self@,
                    i as nat,
                    None::<Fault>,
                ),
            decreases hs@.len() - i,
        {
            let h = hs[i];
            let ghost t = hs@.subrange(0, i + 1);
            proof {
                assert(t.drop_last() =~= hs@.subrange(0, i as int));
                assert(t.last() == h);
            }
            let known = h.height.0 <= self.top && match headers::header_at(
                &self.headers,
                h.height.0,
            ) {
                Some(g) => g == h,
                None => false,
            };
            if !known {
                match self.check(&h) {
                    Ok(_) => {
                        proof {
                            lemma_extended(self@, h);
                        }
                        headers::put_header(&mut self.headers, h.height.0, h);
                        self.top = h.height.0;
                    },
                    Err(e) => {
                        proof {
                            lemma_fault_sticks(old(self)@, hs@, i + 1);
                        }
                        return HeaderBatch { accepted: i, rejected: Some(e) };
                    },
                }
            }
            i = i + 1;
        }
        assert(hs@.subrange(0, i as int) =~= hs@);
        HeaderBatch { accepted: i, rejected: None }
    }

    /// The headers after the one under a hash: up to the one under the stop
    /// hash, and no more than a response may carry. Nothing after one that is
    /// not known.
    pub fn headers_after(&self, start: &hash::Hash, stop: &hash::Hash) -> (r: Vec<BlockHeader>)
        requires
            self@.wf(),
        ensures
            r@ == self@.after(*start, *stop),
            r@.len() <= MAX_HEADERS_PER_RESPONSE,
    {
        let mut out: Vec<BlockHeader> = Vec::new();
        let mut k: u32 = self.top;
        loop
            invariant
                self@.wf(),
                k <= self@.top,
                self@.height_of(*start, self@.top) == self@.height_of(*start, k),
                out@.len() == 0,
            ensures
                self@.height_of(*start, self@.top) == Some(k),
                k <= self@.top,
            decreases k,
        {
            assert(self@.headers.contains_key(k));
            let found = match headers::header_at(&self.headers, k) {
                Some(h) => h.hash() == *start,
                None => false,
            };
            if found {
                break;
            }
            if k == 0 {
                return out;
            }
            k = k - 1;
        }
        let mut at: u64 = k as u64 + 1;
        let mut room: usize = MAX_HEADERS_PER_RESPONSE;
        let ghost goal = self@.run(k + 1, *stop, MAX_HEADERS_PER_RESPONSE as nat);
        assert(out@ + self@.run(at as int, *stop, room as nat) =~= goal);
        while room > 0 && at <= self.top as u64
            invariant
                self@.wf(),
                out@.len() + room == MAX_HEADERS_PER_RESPONSE,
                out@ + self@.run(at as int, *stop, room as nat) == goal,
                goal == self@.after(*start, *stop),
            decreases room,
        {
            assert(self@.headers.contains_key(at as u32));
            match headers::header_at(&self.headers, at as u32) {
                Some(h) => {
                    let ghost before = out@;
                    out.push(h);
                    if h.hash() == *stop {
                        assert(out@ =~= before + seq![h]);
                        return out;
                    }
                    assert(out@ + self@.run(at + 1, *stop, (room - 1) as nat) =~= before + (seq![h]
                        + self@.run(at + 1, *stop, (room - 1) as nat)));
                },
                None => {
                    return out;
                },
            }
            at = at + 1;
            room = room - 1;
        }
        assert(out@ =~= goal);
        out
    }

    /// Take note of the block chain's tip: where it does not lie on this chain
    /// of headers, the block chain's headers take its place.
    pub fn follow(&mut self, chain: &ChainState)
        requires
            old(self)@.wf(),
            chain@.wf(),
        ensures
            final(self)@.wf(),
            final(self)@ == old(self)@.followed(chain@),
    {
        let height = chain.tip.height.0;
        if height <= self.top {
            match headers::header_at(&self.headers, height) {
                Some(h) => {
                    if h.hash() == chain.tip.hash {
                        return;
                    }
                },
                None => {},
            }
        }
        proof {
            chain::lemma_branch(chain@.index, chain@.tip.hash);
        }
        self.headers = chain::headers_upto(&chain.headers, height);
        self.top = height;
        assert(self@.headers =~= chain@.headers);
    }
}

proof fn lemma_extended(v: HeaderView, h: BlockHeader)
    requires
        v.wf(),
        v.refusal(h) is None,
    ensures
        v.extended(h).wf(),
{
    let w = v.extended(h);
    assert forall|k: u32| k <= w.top implies (#[trigger] w.headers[k]).height.0 == k by {
        if k < w.top {
            assert(w.headers[k] == v.headers[k]);
        }
    }
    assert forall|k: u32| 0 < k <= w.top implies (#[trigger] w.headers[k]).previous_hash
        == block::header_hash(w.headers[(k - 1) as u32]) by {
        assert(w.headers[(k - 1) as u32] == v.headers[(k - 1) as u32]);
        if k < w.top {
            assert(w.headers[k] == v.headers[k]);
        }
    }
}

proof fn lemma_fault_sticks(v: HeaderView, hs: Seq<BlockHeader>, n: int)
    requires
        0 <= n <= hs.len(),
        absorbed(v, hs.subrange(0, n)).2 is Some,
    ensures
        absorbed(v, hs) == absorbed(v, hs.subrange(0, n)),
    decreases hs.len(),
{
    if n == hs.len() {
        assert(hs.subrange(0, n) =~= hs);
    } else {
        assert(hs.drop_last().subrange(0, n) =~= hs.subrange(0, n));
        lemma_fault_sticks(v, hs.drop_last(), n);
    }
}

/// Whatever a peer sends, every header that is taken links up, carries the
/// target the rules give it and meets it, so the chain stays linked and never
/// gets shorter.
pub proof fn absorbing_keeps_the_chain_linked(v: HeaderView, hs: Seq<BlockHeader>)
    requires
        v.wf(),
    ensures
        absorbed(v, hs).0.wf(),
        absorbed(v, hs).0.top >= v.top,
        absorbed(v, hs).1 <= hs.len(),
        forall|k: u32| k <= v.top ==> #[trigger] absorbed(v, hs).0.headers[k] == v.headers[k],
        forall|k: u32|
            v.top < k <= absorbed(v, hs).0.top ==> block::proves_work(
                v.params.pow,
                #[trigger] absorbed(v, hs).0.headers[k],
            ),
        absorbed(v, hs).0.params == v.params,
    decreases hs.len(),
{
    if hs.len() > 0 {
        absorbing_keeps_the_chain_linked(v, hs.drop_last());
        let (w, n, fault) = absorbed(v, hs.drop_last());
        if fault is None && !w.knows(hs.last()) && w.refusal(hs.last()) is None {
            lemma_extended(w, hs.last());
            let x = w.extended(hs.last());
            assert forall|k: u32| k <= v.top implies #[trigger] x.headers[k] == v.headers[k] by {
                assert(w.headers[k] == v.headers[k]);
            }
            assert forall|k: u32| v.top < k <= x.top implies block::proves_work(
                v.params.pow,
                #[trigger] x.headers[k],
            ) by {
                if k < x.top {
                    assert(x.headers[k] == w.headers[k]);
                }
            }
        }
    }
}

/// What one node answers, another that stands at the requested header takes in
/// full: a response never holds a header that the asker must refuse for not
/// linking up.
pub proof fn responses_link_up(v: HeaderView, start: hash::Hash, stop: hash::Hash, i: int)
    requires
        v.wf(),
        0 <= i < v.after(start, stop).len(),
    ensures
        ({
            let s = v.after(start, stop);
            &&& s[i].previous_hash == if i == 0 {
                start
            } else {
                block::header_hash(s[i - 1])
            }
            &&& i > 0 ==> s[i].height.0 == s[i - 1].height.0 + 1
        }),
{
    let k = v.height_of(start, v.top)->0;
    lemma_height_of(v, start, v.top);
    lemma_run(v, k + 1, stop, MAX_HEADERS_PER_RESPONSE as nat, i);
    if i > 0 {
        lemma_run(v, k + 1, stop, MAX_HEADERS_PER_RESPONSE as nat, i - 1);
    }
}

proof fn lemma_height_of(v: HeaderView, h: hash::Hash, from: u32)
    requires
        from <= v.top,
    ensures
        v.height_of(h, from) matches Some(k) ==> k <= from && block::header_hash(v.headers[k]) == h,
    decreases from,
{
    if block::header_hash(v.headers[from]) != h && from > 0 {
        lemma_height_of(v, h, (from - 1) as u32);
    }
}

proof fn lemma_run(v: HeaderView, from: int, stop: hash::Hash, room: nat, i: int)
    requires
        0 <= from,
        0 <= i < v.run(from, stop, room).len(),
    ensures
        from + i <= v.top,
        v.run(from, stop, room)[i] == v.headers[(from + i) as u32],
    decreases room,
{
    if i > 0 {
        let rest = v.run(from + 1, stop, (room - 1) as nat);
        assert(v.run(from, stop, room)[i] == rest[i - 1]);
        lemma_run(v, from + 1, stop, (room - 1) as nat, i - 1);
    }
}

/// A header follows the best one exactly when it is one above it, names it by
/// its hash, carries the target that the rules give for its height, and its own
/// digest, read as a number, is at most that target.
pub proof fn header_follows_exactly_when_it_may(v: HeaderView, h: BlockHeader)
    ensures
        v.refusal(h) is None <==> {
            &&& h.height.0 == v.top + 1
            &&& h.previous_hash == block::header_hash(v.headers[v.top])
            &&& retarget::bits_for(h.height.0, v.headers, v.params) == Ok::<CompactTarget, Fault>(
                h.bits,
            )
            &&& v.params.pow == PowAlgorithm::Blake3
            &&& bytes::be_value(hash::spec_blake3(h.spec_encode())@) <= types::compact_value(
                h.bits.0,
            )
        },
{
    reveal(block::header_hash);
}

/// One header that is known is passed over, one that follows is put on top, and
/// one that does not is refused and leaves the chain as it is.
pub proof fn one_header_is_taken_or_refused(v: HeaderView, h: BlockHeader)
    ensures
        ({
            let (w, n, fault) = absorbed(v, seq![h]);
            let known = h.height.0 <= v.top && v.headers[h.height.0] == h;
            &&& known ==> w == v && n == 1 && fault is None
            &&& !known && v.refusal(h) is None ==> {
                &&& n == 1
                &&& fault is None
                &&& w.top == h.height.0
                &&& w.params == v.params
                &&& w.headers == v.headers.insert(h.height.0, h)
            }
            &&& !known && v.refusal(h) is Some ==> w == v && n == 0 && fault == v.refusal(h)
        }),
{
    let s = seq![h];
    assert(s.drop_last() =~= Seq::<BlockHeader>::empty());
    assert(absorbed(v, s.drop_last()) == (v, 0nat, None::<Fault>));
}

/// A run of headers of any length is taken as its parts are, one after the other.
/// What follows a refused header does not count.
pub proof fn run_is_taken_part_by_part(v: HeaderView, a: Seq<BlockHeader>, b: Seq<BlockHeader>)
    ensures
        absorbed(v, a).2 is None ==> {
            let (w, n, fault) = absorbed(absorbed(v, a).0, b);
            &&& absorbed(v, a).1 == a.len()
            &&& absorbed(v, a + b) == (w, a.len() + n, fault)
        },
        absorbed(v, a).2 is Some ==> absorbed(v, a + b) == absorbed(v, a),
    decreases a.len() + b.len(),
{
    if b.len() == 0 {
        assert(a + b =~= a);
        if a.len() > 0 {
            run_is_taken_part_by_part(v, a.drop_last(), b);
            assert(a.drop_last() + b =~= a.drop_last());
        }
    } else {
        run_is_taken_part_by_part(v, a, b.drop_last());
        assert((a + b).drop_last() =~= a + b.drop_last());
        assert((a + b).last() == b.last());
    }
}

proof fn lemma_height_is_found(v: HeaderView, h: hash::Hash, from: u32, k: u32)
    requires
        k <= from,
        block::header_hash(v.headers[k]) == h,
        forall|j: u32| k < j <= from ==> block::header_hash(#[trigger] v.headers[j]) != h,
    ensures
        v.height_of(h, from) == Some(k),
    decreases from,
{
    if k < from {
        assert(block::header_hash(v.headers[from]) != h);
        lemma_height_is_found(v, h, (from - 1) as u32, k);
    }
}

proof fn lemma_run_ends(v: HeaderView, from: int, stop: hash::Hash, room: nat)
    requires
        0 <= from,
    ensures
        ({
            let s = v.run(from, stop, room);
            let n = s.len();
            &&& n <= room
            &&& from + n <= v.top + 1 || n == 0
            &&& n < room && from + n <= v.top ==> n > 0 && block::header_hash(s[n - 1]) == stop
            &&& forall|i: int| 0 <= i < n - 1 ==> block::header_hash(#[trigger] s[i]) != stop
        }),
    decreases room,
{
    if from <= v.top && room > 0 {
        let h = v.headers[from as u32];
        let s = v.run(from, stop, room);
        if block::header_hash(h) != stop {
            let rest = v.run(from + 1, stop, (room - 1) as nat);
            lemma_run_ends(v, from + 1, stop, (room - 1) as nat);
            assert forall|i: int| 0 <= i < s.len() - 1 implies block::header_hash(#[trigger] s[i])
                != stop by {
                if i > 0 {
                    assert(s[i] == rest[i - 1]);
                }
            }
            if rest.len() > 0 {
                assert(s[s.len() - 1] == rest[rest.len() - 1]);
            }
        }
    }
}

/// The answer to a request is the stretch of the chain right above the header
/// that was named: in order and without a gap, up to the top, the stop or two
/// thousand of them, whichever comes first.
pub proof fn answer_is_the_chain_above(v: HeaderView, start: hash::Hash, stop: hash::Hash, k: u32)
    requires
        k <= v.top,
        block::header_hash(v.headers[k]) == start,
        forall|j: u32| k < j <= v.top ==> block::header_hash(#[trigger] v.headers[j]) != start,
    ensures
        ({
            let s = v.after(start, stop);
            let n = s.len();
            &&& n <= 2000
            &&& k + n <= v.top
            &&& forall|i: int|
                0 <= i < n ==> #[trigger] s[i] == v.headers[(k + 1 + i) as u32]
            &&& n < 2000 && k + n < v.top ==> n > 0 && block::header_hash(s[n - 1]) == stop
            &&& forall|i: int| 0 <= i < n - 1 ==> block::header_hash(#[trigger] s[i]) != stop
        }),
{
    lemma_height_is_found(v, start, v.top, k);
    lemma_run_ends(v, k + 1, stop, 2000);
    let s = v.after(start, stop);
    assert forall|i: int| 0 <= i < s.len() implies #[trigger] s[i] == v.headers[(k + 1
        + i) as u32] by {
        lemma_run(v, k + 1, stop, 2000, i);
    }
}

/// There is no answer for a header that is not on the chain.
pub proof fn no_answer_above_an_unknown_header(v: HeaderView, start: hash::Hash, stop: hash::Hash)
    requires
        forall|j: u32| j <= v.top ==> block::header_hash(#[trigger] v.headers[j]) != start,
    ensures
        v.after(start, stop).len() == 0,
{
    lemma_height_of(v, start, v.top);
}

/// Once the block chain has been followed, its tip is on the chain of headers. A
/// chain of headers that had it already is left alone, though it may be ahead.
pub proof fn following_leads_past_the_tip(v: HeaderView, c: ChainView)
    requires
        c.wf(),
    ensures
        ({
            let w = v.followed(c);
            let had = c.tip.height.0 <= v.top && block::header_hash(v.headers[c.tip.height.0])
                == c.tip.hash;
            &&& w.top >= c.tip.height.0
            &&& block::header_hash(w.headers[c.tip.height.0]) == c.tip.hash
            &&& w.params == v.params
            &&& had ==> w == v
            &&& !had ==> w.headers == c.headers && w.top == c.tip.height.0
        }),
{
    chain::lemma_branch(c.index, c.tip.hash);
}

} // verus!
