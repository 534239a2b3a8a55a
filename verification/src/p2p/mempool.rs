//! The pending-transaction pool, and the resource limits that keep it from
//! being filled by whoever wants to.
//!
//! There are no fees, so there is no price to raise when the pool is in demand.
//! Instead every entry is charged to the address group that delivered it, and
//! one group may hold only a fraction of the pool.
//!
//! The account a transaction claims to come from is not what anything is
//! counted under: whoever a limit per account would bind simply holds more
//! accounts. Address groups have to be obtained.

use vstd::prelude::*;
use crate::hash;
use crate::keymap;
use crate::keymap::KeyMap;
use crate::p2p::peer::{AddressGroup, MAX_INBOUND_PEERS, MAX_OUTBOUND_PEERS};
use crate::serialize::CanonicalEncode;
use crate::state;
use crate::state::{Accounts, State};
use crate::tx;
use crate::tx::Transaction;
use crate::types::Address;

verus! {

pub const MAX_MEMPOOL_SIZE: usize = 50_000_000;

pub const MAX_MEMPOOL_TXS: usize = 100_000;

/// Entries one address group may hold at once: an even share of the pool per
/// connection the node will ever have.
pub const QUOTA_PER_SOURCE: usize = MAX_MEMPOOL_TXS / (MAX_INBOUND_PEERS + MAX_OUTBOUND_PEERS);

/// How long an entry may sit before it is dropped, in seconds.
pub const EXPIRY_SECS: u64 = 3600;

#[derive(Clone, Copy, Debug)]
pub struct MempoolEntry {
    pub tx: Transaction,
    pub tx_hash: hash::Hash,
    pub size: usize,
    /// Unix seconds, for expiry.
    pub added_at: u64,
    /// Whose quota this entry counts against.
    pub source: AddressGroup,
    /// The account that the transaction spends from.
    pub sender: Address,
}

/// What the pool already holds for one sender.
#[derive(Clone, Copy, Debug, PartialEq, Eq, Structural)]
pub struct Pending {
    pub count: u64,
    pub spent: u64,
}

/// Why a transaction was not taken.
///
/// A dedicated type rather than a string: the caller decides which of these
/// deserve a peer penalty, and that decision should not be made by matching
/// on error text.
#[derive(Clone, Copy, Debug, PartialEq, Eq, Structural)]
pub enum Rejection {
    /// A coinbase never belongs in the pool.
    Coinbase,
    /// The delivering group is already holding its share.
    SourceQuotaFull,
    /// The sender has no account, or an empty one.
    UnfundedSender,
    /// Already spent: below the sender's next nonce.
    NonceTooLow,
    /// Ahead of the sender's next nonce. Gaps are not queued.
    NonceTooHigh,
    /// More than the sender can still pay, counting what is already pending.
    InsufficientBalance,
    /// The signature does not verify.
    BadSignature,
    /// The pool is full and this transaction is not worth evicting for.
    Full,
}

impl Rejection {
    /// The reason in words.
    pub open spec fn words(self) -> Seq<char> {
        match self {
            Rejection::Coinbase => "coinbase"@,
            Rejection::SourceQuotaFull => "source quota full"@,
            Rejection::UnfundedSender => "unfunded sender"@,
            Rejection::NonceTooLow => "nonce too low"@,
            Rejection::NonceTooHigh => "nonce too high"@,
            Rejection::InsufficientBalance => "insufficient balance"@,
            Rejection::BadSignature => "bad signature"@,
            Rejection::Full => "mempool full"@,
        }
    }

    /// Whether the rejection speaks against whoever sent the transaction.
    pub open spec fn damning(self) -> bool {
        self is Coinbase || self is BadSignature || self is UnfundedSender
    }

    /// The reason in words.
    pub fn message(&self) -> (s: &'static str)
        ensures
            s@ == self.words(),
    {
        match self {
            Rejection::Coinbase => "coinbase",
            Rejection::SourceQuotaFull => "source quota full",
            Rejection::UnfundedSender => "unfunded sender",
            Rejection::NonceTooLow => "nonce too low",
            Rejection::NonceTooHigh => "nonce too high",
            Rejection::InsufficientBalance => "insufficient balance",
            Rejection::BadSignature => "bad signature",
            Rejection::Full => "mempool full",
        }
    }

    /// Whether a peer sending this deserves a mark against it.
    ///
    /// A transaction that lost a race is not misbehaviour: a peer relaying in
    /// good faith produces those constantly. A malformed or unsigned one, or
    /// one from an account with nothing in it, is not something an honest
    /// peer relays.
    pub fn is_misbehaviour(&self) -> (r: bool)
        ensures
            r == self.damning(),
    {
        match self {
            Rejection::Coinbase | Rejection::BadSignature | Rejection::UnfundedSender => true,
            _ => false,
        }
    }
}

/// What happened to a transaction the pool was offered.
#[derive(Clone, Copy, Debug, PartialEq, Eq, Structural)]
pub enum Admission {
    /// Newly held. Worth relaying.
    Accepted,
    /// Already held. Not an error, and not worth relaying again.
    Duplicate,
}

// ---------------------------------------------------------------------------
// What a pool holds
// ---------------------------------------------------------------------------

/// The entries of a pool, oldest first.
pub type Entries = Seq<MempoolEntry>;

/// The sum of the weights of some things.
pub open spec fn weigh<T>(s: Seq<T>, w: spec_fn(T) -> nat) -> nat
    decreases s.len(),
{
    if s.len() == 0 {
        0
    } else {
        weigh(s.drop_last(), w) + w(s.last())
    }
}

/// One for an entry from a source.
pub open spec fn from_source(g: AddressGroup) -> spec_fn(MempoolEntry) -> nat {
    |e: MempoolEntry|
        if e.source == g {
            1nat
        } else {
            0nat
        }
}

/// One for an entry of a sender.
pub open spec fn of_sender(k: [u8; 20]) -> spec_fn(MempoolEntry) -> nat {
    |e: MempoolEntry|
        if e.sender.0.0 == k {
            1nat
        } else {
            0nat
        }
}

/// The amount of an entry of a sender.
pub open spec fn amount_of(k: [u8; 20]) -> spec_fn(MempoolEntry) -> nat {
    |e: MempoolEntry|
        if e.sender.0.0 == k {
            e.tx.amount.0 as nat
        } else {
            0nat
        }
}

/// The size of an entry.
pub open spec fn size_of() -> spec_fn(MempoolEntry) -> nat {
    |e: MempoolEntry| e.size as nat
}

/// Entries charged to a source.
pub open spec fn held(s: Entries, g: AddressGroup) -> nat {
    weigh(s, from_source(g))
}

/// Entries of a sender.
pub open spec fn pending_count(s: Entries, k: [u8; 20]) -> nat {
    weigh(s, of_sender(k))
}

/// What the entries of a sender spend.
pub open spec fn pending_spent(s: Entries, k: [u8; 20]) -> nat {
    weigh(s, amount_of(k))
}

/// Where the entry under a hash stands.
pub open spec fn spot(s: Entries, h: hash::Hash) -> Option<int>
    decreases s.len(),
{
    if s.len() == 0 {
        None
    } else if s.last().tx_hash == h {
        Some(s.len() - 1)
    } else {
        spot(s.drop_last(), h)
    }
}

/// The nonce that a sender's next transaction must carry.
pub open spec fn next_nonce(s: Entries, accounts: Accounts, k: [u8; 20]) -> u64 {
    let n = state::account_at(accounts, k).nonce + pending_count(s, k);
    if n > u64::MAX {
        u64::MAX
    } else {
        n as u64
    }
}

/// What a sender can still spend.
pub open spec fn spendable(s: Entries, accounts: Accounts, k: [u8; 20]) -> u64 {
    let b = state::account_at(accounts, k).balance - pending_spent(s, k);
    if b < 0 {
        0
    } else {
        b as u64
    }
}

/// Whether an entry is what it claims to be.
pub open spec fn entry_ok(e: MempoolEntry) -> bool {
    &&& e.tx_hash == tx::tx_hash(e.tx)
    &&& e.size == 132
    &&& e.sender.0.0 == tx::sender_of(e.tx)
    &&& !tx::is_coinbase_tx(e.tx)
    &&& tx::signed(e.tx)
}

/// Whether the entries of a pool keep its limits: no transaction twice, no
/// source beyond its quota, no sender whose spending does not add up.
pub open spec fn pool_wf(s: Entries) -> bool {
    &&& s.len() <= MAX_MEMPOOL_TXS
    &&& forall|i: int| 0 <= i < s.len() ==> entry_ok(#[trigger] s[i])
    &&& forall|i: int, j: int|
        0 <= i < j < s.len() ==> (#[trigger] s[i]).tx_hash != (#[trigger] s[j]).tx_hash
    &&& forall|g: AddressGroup| #[trigger] held(s, g) <= QUOTA_PER_SOURCE
    &&& forall|k: [u8; 20]| #[trigger] pending_spent(s, k) <= u64::MAX
}

/// The most entries that any one source of the first `n` entries holds.
pub open spec fn top_upto(s: Entries, n: int) -> nat
    decreases n,
{
    if n <= 0 {
        0
    } else {
        let rest = top_upto(s, n - 1);
        let h = held(s, s[n - 1].source);
        if h > rest {
            h
        } else {
            rest
        }
    }
}

/// The most entries that any one source holds.
pub open spec fn top(s: Entries) -> nat {
    top_upto(s, s.len() as int)
}

/// The newest of the first `n` entries whose source holds so many.
pub open spec fn newest_with(s: Entries, n: int, most: nat) -> Option<int>
    decreases n,
{
    if n <= 0 {
        None
    } else if held(s, s[n - 1].source) == most {
        Some(n - 1)
    } else {
        newest_with(s, n - 1, most)
    }
}

/// The entry that gives way to an arrival: the newest one of a source that
/// holds the most, unless the arrival's own source holds as many.
pub open spec fn victim(s: Entries, incoming: AddressGroup) -> Option<int> {
    if top(s) <= held(s, incoming) {
        None
    } else {
        newest_with(s, s.len() as int, top(s))
    }
}

/// What the pool answers to a transaction. The checks come in this order, the
/// signature last but for the room, since it is the one that costs.
pub open spec fn verdict(
    s: Entries,
    t: Transaction,
    source: AddressGroup,
    accounts: Accounts,
) -> std::result::Result<Admission, Rejection> {
    let k = tx::sender_of(t);
    if tx::is_coinbase_tx(t) {
        Err(Rejection::Coinbase)
    } else if spot(s, tx::tx_hash(t)) is Some {
        Ok(Admission::Duplicate)
    } else if held(s, source) >= QUOTA_PER_SOURCE {
        Err(Rejection::SourceQuotaFull)
    } else if !keymap::holds(accounts, k) || state::account_at(accounts, k).balance == 0 {
        Err(Rejection::UnfundedSender)
    } else if t.nonce.0 < next_nonce(s, accounts, k) {
        Err(Rejection::NonceTooLow)
    } else if t.nonce.0 > next_nonce(s, accounts, k) {
        Err(Rejection::NonceTooHigh)
    } else if t.amount.0 > spendable(s, accounts, k) {
        Err(Rejection::InsufficientBalance)
    } else if !tx::signed(t) {
        Err(Rejection::BadSignature)
    } else if s.len() >= MAX_MEMPOOL_TXS && victim(s, source) is None {
        Err(Rejection::Full)
    } else {
        Ok(Admission::Accepted)
    }
}

/// The entry that a transaction makes.
pub open spec fn entry_for(t: Transaction, source: AddressGroup, now: u64) -> MempoolEntry {
    MempoolEntry {
        tx: t,
        tx_hash: tx::tx_hash(t),
        size: 132,
        added_at: now,
        source,
        sender: Address(hash::Hash160(tx::sender_of(t))),
    }
}

/// The pool after it was offered a transaction.
pub open spec fn after_offer(
    s: Entries,
    t: Transaction,
    source: AddressGroup,
    accounts: Accounts,
    now: u64,
) -> Entries {
    if verdict(s, t, source, accounts) != Ok::<Admission, Rejection>(Admission::Accepted) {
        s
    } else if s.len() >= MAX_MEMPOOL_TXS {
        s.remove(victim(s, source)->0).push(entry_for(t, source, now))
    } else {
        s.push(entry_for(t, source, now))
    }
}

/// The pool without the transaction under a hash.
pub open spec fn removed(s: Entries, h: hash::Hash) -> Entries {
    match spot(s, h) {
        Some(i) => s.remove(i),
        None => s,
    }
}

/// The pool without the transactions under some hashes.
pub open spec fn all_removed(s: Entries, hashes: Seq<hash::Hash>) -> Entries
    decreases hashes.len(),
{
    if hashes.len() == 0 {
        s
    } else {
        removed(all_removed(s, hashes.drop_last()), hashes.last())
    }
}

/// Whether an entry has not been in the pool for too long.
pub open spec fn fresh(now: u64) -> spec_fn(MempoolEntry) -> bool {
    |e: MempoolEntry| now - e.added_at <= EXPIRY_SECS
}

/// The hash of an entry, as a map.
pub open spec fn hash_of_entry() -> spec_fn(MempoolEntry) -> hash::Hash {
    |e: MempoolEntry| e.tx_hash
}

/// The transaction of an entry, as a map.
pub open spec fn tx_of_entry() -> spec_fn(MempoolEntry) -> Transaction {
    |e: MempoolEntry| e.tx
}

// ---------------------------------------------------------------------------
// Facts about weights and places
// ---------------------------------------------------------------------------

proof fn lemma_weigh_push<T>(s: Seq<T>, x: T, w: spec_fn(T) -> nat)
    ensures
        weigh(s.push(x), w) == weigh(s, w) + w(x),
{
    assert(s.push(x).drop_last() =~= s);
}

proof fn lemma_weigh_remove<T>(s: Seq<T>, i: int, w: spec_fn(T) -> nat)
    requires
        0 <= i < s.len(),
    ensures
        weigh(s.remove(i), w) + w(s[i]) == weigh(s, w),
    decreases s.len(),
{
    if i == s.len() - 1 {
        assert(s.remove(i) =~= s.drop_last());
    } else {
        lemma_weigh_remove(s.drop_last(), i, w);
        assert(s.remove(i).drop_last() =~= s.drop_last().remove(i));
        assert(s.remove(i).last() == s.last());
    }
}

proof fn lemma_weigh_update<T>(s: Seq<T>, i: int, x: T, w: spec_fn(T) -> nat)
    requires
        0 <= i < s.len(),
    ensures
        weigh(s.update(i, x), w) + w(s[i]) == weigh(s, w) + w(x),
    decreases s.len(),
{
    if i == s.len() - 1 {
        assert(s.update(i, x).drop_last() =~= s.drop_last());
    } else {
        lemma_weigh_update(s.drop_last(), i, x, w);
        assert(s.update(i, x).drop_last() =~= s.drop_last().update(i, x));
    }
}

proof fn lemma_weigh_at_least<T>(s: Seq<T>, i: int, w: spec_fn(T) -> nat)
    requires
        0 <= i < s.len(),
    ensures
        weigh(s, w) >= w(s[i]),
    decreases s.len(),
{
    if i < s.len() - 1 {
        lemma_weigh_at_least(s.drop_last(), i, w);
    }
}

proof fn lemma_weigh_positive<T>(s: Seq<T>, w: spec_fn(T) -> nat) -> (i: int)
    requires
        weigh(s, w) > 0,
    ensures
        0 <= i < s.len(),
        w(s[i]) > 0,
    decreases s.len(),
{
    if w(s.last()) > 0 {
        s.len() - 1
    } else {
        lemma_weigh_positive(s.drop_last(), w)
    }
}

/// Weights of at most one add up to no more than there are things.
proof fn lemma_weigh_bound<T>(s: Seq<T>, w: spec_fn(T) -> nat, most: nat)
    requires
        forall|i: int| 0 <= i < s.len() ==> w(#[trigger] s[i]) <= most,
    ensures
        weigh(s, w) <= most * s.len(),
    decreases s.len(),
{
    if s.len() > 0 {
        let t = s.drop_last();
        assert forall|i: int| 0 <= i < t.len() implies w(#[trigger] t[i]) <= most by {
            assert(t[i] == s[i]);
        }
        lemma_weigh_bound(t, w, most);
        assert(w(s[s.len() - 1]) <= most);
        assert(most * t.len() + most == most * s.len()) by (nonlinear_arith)
            requires
                t.len() + 1 == s.len(),
        ;
    }
}

proof fn lemma_count_bound(s: Entries, k: [u8; 20])
    ensures
        pending_count(s, k) <= s.len(),
{
    lemma_weigh_bound(s, of_sender(k), 1);
}

/// The weight of entries of one size.
proof fn lemma_sizes(s: Entries)
    requires
        forall|i: int| 0 <= i < s.len() ==> entry_ok(#[trigger] s[i]),
    ensures
        weigh(s, size_of()) == 132 * s.len(),
    decreases s.len(),
{
    if s.len() > 0 {
        let t = s.drop_last();
        assert forall|i: int| 0 <= i < t.len() implies entry_ok(#[trigger] t[i]) by {
            assert(t[i] == s[i]);
        }
        lemma_sizes(t);
        assert(entry_ok(s[s.len() - 1]));
    }
}

pub proof fn lemma_spot(s: Entries, h: hash::Hash)
    ensures
        match spot(s, h) {
            Some(i) => 0 <= i < s.len() && s[i].tx_hash == h,
            None => forall|j: int| 0 <= j < s.len() ==> (#[trigger] s[j]).tx_hash != h,
        },
    decreases s.len(),
{
    if s.len() > 0 && s.last().tx_hash != h {
        lemma_spot(s.drop_last(), h);
        assert forall|j: int| 0 <= j < s.len() - 1 implies s[j] == s.drop_last()[j] by {}
    }
}

/// Among distinct entries, the one under a hash is the only one.
proof fn lemma_spot_is(s: Entries, i: int)
    requires
        pool_wf(s),
        0 <= i < s.len(),
    ensures
        spot(s, s[i].tx_hash) == Some(i),
{
    lemma_spot(s, s[i].tx_hash);
}

proof fn lemma_wf_remove(s: Entries, k: int)
    requires
        pool_wf(s),
        0 <= k < s.len(),
    ensures
        pool_wf(s.remove(k)),
        forall|h: hash::Hash|
            h != s[k].tx_hash ==> ((#[trigger] spot(s.remove(k), h)) is Some <==> spot(s, h) is Some)
                && (spot(s, h) is Some ==> s.remove(k)[spot(s.remove(k), h)->0] == s[spot(
                s,
                h,
            )->0]),
        spot(s.remove(k), s[k].tx_hash) is None,
{
    let t = s.remove(k);
    let at = |i: int|
        if i < k {
            i
        } else {
            i + 1
        };
    assert forall|i: int| 0 <= i < t.len() implies entry_ok(#[trigger] t[i]) by {
        assert(t[i] == s[at(i)]);
    }
    assert forall|i: int, j: int| 0 <= i < j < t.len() implies (#[trigger] t[i]).tx_hash != (
    #[trigger] t[j]).tx_hash by {
        assert(t[i] == s[at(i)] && t[j] == s[at(j)]);
    }
    assert forall|g: AddressGroup| #[trigger] held(t, g) <= QUOTA_PER_SOURCE by {
        lemma_weigh_remove(s, k, from_source(g));
        assert(held(s, g) <= QUOTA_PER_SOURCE);
    }
    assert forall|x: [u8; 20]| #[trigger] pending_spent(t, x) <= u64::MAX by {
        lemma_weigh_remove(s, k, amount_of(x));
        assert(pending_spent(s, x) <= u64::MAX);
    }
    assert forall|h: hash::Hash| h != s[k].tx_hash implies ((#[trigger] spot(t, h)) is Some
        <==> spot(s, h) is Some) && (spot(s, h) is Some ==> t[spot(t, h)->0] == s[spot(s, h)->0])
        by {
        lemma_spot(s, h);
        lemma_spot(t, h);
        if spot(s, h) is Some {
            let i = spot(s, h)->0;
            let back = if i < k {
                i
            } else {
                i - 1
            };
            assert(t[back] == s[i]);
            lemma_spot_is(t, back);
        }
        if spot(t, h) is Some {
            let i = spot(t, h)->0;
            assert(t[i] == s[at(i)]);
        }
    }
    lemma_spot(t, s[k].tx_hash);
    if spot(t, s[k].tx_hash) is Some {
        let i = spot(t, s[k].tx_hash)->0;
        assert(t[i] == s[at(i)]);
    }
}

proof fn lemma_wf_push(s: Entries, e: MempoolEntry)
    requires
        pool_wf(s),
        s.len() < MAX_MEMPOOL_TXS,
        entry_ok(e),
        spot(s, e.tx_hash) is None,
        held(s, e.source) < QUOTA_PER_SOURCE,
        pending_spent(s, e.sender.0.0) + e.tx.amount.0 <= u64::MAX,
    ensures
        pool_wf(s.push(e)),
        forall|h: hash::Hash|
            h != e.tx_hash ==> (#[trigger] spot(s.push(e), h)) == spot(s, h),
        spot(s.push(e), e.tx_hash) == Some(s.len() as int),
{
    let t = s.push(e);
    lemma_spot(s, e.tx_hash);
    assert(t.drop_last() =~= s);
    assert forall|i: int| 0 <= i < t.len() implies entry_ok(#[trigger] t[i]) by {
        if i < s.len() {
            assert(t[i] == s[i]);
        }
    }
    assert forall|i: int, j: int| 0 <= i < j < t.len() implies (#[trigger] t[i]).tx_hash != (
    #[trigger] t[j]).tx_hash by {
        assert(t[i] == s[i]);
        if j < s.len() {
            assert(t[j] == s[j]);
        }
    }
    assert forall|g: AddressGroup| #[trigger] held(t, g) <= QUOTA_PER_SOURCE by {
        lemma_weigh_push(s, e, from_source(g));
        assert(held(s, g) <= QUOTA_PER_SOURCE);
    }
    assert forall|x: [u8; 20]| #[trigger] pending_spent(t, x) <= u64::MAX by {
        lemma_weigh_push(s, e, amount_of(x));
        assert(pending_spent(s, x) <= u64::MAX);
    }
}

proof fn lemma_top(s: Entries, n: int)
    requires
        0 <= n <= s.len(),
    ensures
        forall|i: int|
            0 <= i < n ==> held(s, (#[trigger] s[i]).source) <= top_upto(s, n),
        n > 0 ==> exists|i: int| 0 <= i < n && held(s, (#[trigger] s[i]).source) == top_upto(s, n),
    decreases n,
{
    if n > 0 {
        lemma_top(s, n - 1);
        if held(s, s[n - 1].source) > top_upto(s, n - 1) {
            assert(held(s, s[n - 1].source) == top_upto(s, n));
        } else if n > 1 {
            let i = choose|i: int|
                0 <= i < n - 1 && held(s, (#[trigger] s[i]).source) == top_upto(s, n - 1);
            assert(held(s, s[i].source) == top_upto(s, n));
        } else {
            lemma_weigh_at_least(s, 0, from_source(s[0].source));
            assert(held(s, s[0].source) > 0);
        }
    }
}

proof fn lemma_newest(s: Entries, n: int, most: nat)
    requires
        0 <= n <= s.len(),
    ensures
        match newest_with(s, n, most) {
            Some(i) => 0 <= i < n && held(s, s[i].source) == most && forall|j: int|
                i < j < n ==> held(s, (#[trigger] s[j]).source) != most,
            None => forall|j: int| 0 <= j < n ==> held(s, (#[trigger] s[j]).source) != most,
        },
    decreases n,
{
    if n > 0 && held(s, s[n - 1].source) != most {
        lemma_newest(s, n - 1, most);
    }
}

/// Where an entry gives way at all, there is one that does.
proof fn lemma_victim(s: Entries, incoming: AddressGroup)
    ensures
        match victim(s, incoming) {
            Some(i) => 0 <= i < s.len() && held(s, s[i].source) == top(s) && top(s) > held(
                s,
                incoming,
            ),
            None => top(s) <= held(s, incoming),
        },
{
    lemma_top(s, s.len() as int);
    lemma_newest(s, s.len() as int, top(s));
}

// ---------------------------------------------------------------------------
// The pool
// ---------------------------------------------------------------------------

/// Entries per source, as a list.
type Tally = Seq<(AddressGroup, usize)>;

/// The count for a source, as a weight.
spec fn counts_for(g: AddressGroup) -> spec_fn((AddressGroup, usize)) -> nat {
    |p: (AddressGroup, usize)|
        if p.0 == g {
            p.1 as nat
        } else {
            0nat
        }
}

/// The count for a source.
spec fn counted(t: Tally, g: AddressGroup) -> nat {
    weigh(t, counts_for(g))
}

/// Whether a list counts the sources of some entries, and none that is absent.
spec fn tallies(t: Tally, s: Entries) -> bool {
    &&& forall|g: AddressGroup| #[trigger] counted(t, g) == held(s, g)
    &&& forall|i: int| 0 <= i < t.len() ==> (#[trigger] t[i]).1 > 0
}

/// Whether a map counts the senders of some entries, and none that is absent.
spec fn sums(m: Seq<([u8; 20], Pending)>, s: Entries) -> bool {
    forall|k: [u8; 20]|
        match #[trigger] keymap::value_of(m, k) {
            Some(p) => p.count > 0 && p.count == pending_count(s, k) && p.spent == pending_spent(
                s,
                k,
            ),
            None => pending_count(s, k) == 0 && pending_spent(s, k) == 0,
        }
}

/// Whether a map finds the entries by their hashes.
spec fn finds(m: Seq<([u8; 32], MempoolEntry)>, s: Entries) -> bool {
    forall|h: hash::Hash|
        match #[trigger] spot(s, h) {
            Some(i) => keymap::value_of(m, h.0) == Some(s[i]),
            None => keymap::value_of(m, h.0) is None,
        }
}

pub struct Mempool {
    /// By hash.
    entries: KeyMap<32, MempoolEntry>,
    /// Oldest first.
    order: Vec<MempoolEntry>,
    total_size: usize,
    /// Entries held per delivering group. The quota is enforced against this.
    per_source: Vec<(AddressGroup, usize)>,
    /// Pending count and outstanding spend per sender.
    per_sender: KeyMap<20, Pending>,
}

impl View for Mempool {
    type V = Entries;

    closed spec fn view(&self) -> Entries {
        self.order@
    }
}

impl Default for Mempool {
    fn default() -> (r: Mempool)
        ensures
            r.wf(),
            r@ == Seq::<MempoolEntry>::empty(),
    {
        Mempool::new()
    }
}

impl Mempool {
    /// Whether the entries keep the limits of the pool, and the totals are
    /// theirs.
    pub closed spec fn wf(&self) -> bool {
        &&& pool_wf(self.order@)
        &&& finds(self.entries@, self.order@)
        &&& tallies(self.per_source@, self.order@)
        &&& sums(self.per_sender@, self.order@)
        &&& self.total_size == weigh(self.order@, size_of())
        &&& keymap::ascending(self.entries@)
        &&& keymap::ascending(self.per_sender@)
    }

    /// A sound pool keeps its limits.
    pub proof fn lemma_wf(&self)
        requires
            self.wf(),
        ensures
            pool_wf(self@),
    {
    }

    pub fn new() -> (r: Mempool)
        ensures
            r.wf(),
            r@ == Seq::<MempoolEntry>::empty(),
    {
        let r = Mempool {
            entries: KeyMap::new(),
            order: Vec::new(),
            total_size: 0,
            per_source: Vec::new(),
            per_sender: KeyMap::new(),
        };
        proof {
            assert forall|h: hash::Hash|
                spot(r.order@, h) is None && keymap::value_of(r.entries@, h.0) is None by {
                keymap::lemma_value_of(r.entries@, h.0);
            }
            assert forall|k: [u8; 20]| (#[trigger] keymap::value_of(r.per_sender@, k)) is None by {
                keymap::lemma_value_of(r.per_sender@, k);
            }
        }
        r
    }

    /// The nonce the sender's next transaction must carry, counting what the
    /// pool already holds for them.
    ///
    /// Judging against committed state alone would reject every sender's
    /// second pending transaction, since the first has not been mined yet.
    pub fn effective_nonce(&self, state: &State, sender: &Address) -> (r: u64)
        requires
            self.wf(),
        ensures
            r == next_nonce(self@, state@.accounts, sender.0.0),
    {
        let committed = state.get_account(sender).nonce;
        let pending: u64 = match self.per_sender.get(&sender.0.0) {
            Some(p) => p.count,
            None => 0,
        };
        committed.saturating_add(pending)
    }

    /// What the sender can still spend, after what the pool already holds.
    ///
    /// Committed balance alone would let a set of pending transactions add up
    /// to more than the sender has.
    pub fn effective_balance(&self, state: &State, sender: &Address) -> (r: u64)
        requires
            self.wf(),
        ensures
            r == spendable(self@, state@.accounts, sender.0.0),
    {
        let committed = state.get_account(sender).balance;
        let pending: u64 = match self.per_sender.get(&sender.0.0) {
            Some(p) => p.spent,
            None => 0,
        };
        committed.saturating_sub(pending)
    }

    /// Entries currently charged to `source`.
    pub fn held_by(&self, source: AddressGroup) -> (r: usize)
        requires
            self.wf(),
        ensures
            r == held(self@, source),
    {
        proof {
            assert(held(self@, source) <= QUOTA_PER_SOURCE);
            assert(counted(self.per_source@, source) == held(self@, source));
        }
        count_source(&self.per_source, source)
    }

    /// Offer a transaction to the pool.
    ///
    /// The checks run cheapest first, and the signature check runs last on
    /// purpose: a sender with no balance does not cost a verification.
    pub fn add_transaction(
        &mut self,
        tx: Transaction,
        source: AddressGroup,
        state: &State,
        now: u64,
    ) -> (r: Result<Admission, Rejection>)
        requires
            old(self).wf(),
        ensures
            final(self).wf(),
            r == verdict(old(self)@, tx, source, state@.accounts),
            final(self)@ == after_offer(old(self)@, tx, source, state@.accounts, now),
    {
        if tx.is_coinbase() {
            return Err(Rejection::Coinbase);
        }
        let tx_hash = tx.hash();
        proof {
            keymap::lemma_value_of(self.entries@, tx_hash.0);
            assert(spot(self@, tx_hash) is Some || spot(self@, tx_hash) is None);
        }
        if self.entries.contains_key(&tx_hash.0) {
            return Ok(Admission::Duplicate);
        }
        if self.held_by(source) >= QUOTA_PER_SOURCE {
            return Err(Rejection::SourceQuotaFull);
        }
        let sender = tx.sender_address();
        let account = state.get_account(&sender);
        if !state.has_account(&sender) || account.balance == 0 {
            return Err(Rejection::UnfundedSender);
        }
        let expected = self.effective_nonce(state, &sender);
        if tx.nonce.0 < expected {
            return Err(Rejection::NonceTooLow);
        }
        if tx.nonce.0 > expected {
            return Err(Rejection::NonceTooHigh);
        }
        if tx.amount.0 > self.effective_balance(state, &sender) {
            return Err(Rejection::InsufficientBalance);
        }
        if !tx.verify_signature() {
            return Err(Rejection::BadSignature);
        }
        let size: usize = tx.encode().len();
        proof {
            tx::lemma_tx_len(tx);
            lemma_sizes(self@);
        }
        let ghost before = self@;
        if self.order.len() >= MAX_MEMPOOL_TXS || self.total_size + size > MAX_MEMPOOL_SIZE {
            if !self.evict_for(source) {
                return Err(Rejection::Full);
            }
            proof {
                let i = victim(before, source)->0;
                lemma_victim(before, source);
                lemma_wf_remove(before, i);
                lemma_weigh_remove(before, i, from_source(source));
                lemma_weigh_remove(before, i, amount_of(sender.0.0));
                assert(before[i].tx_hash != tx_hash) by {
                    lemma_spot(before, tx_hash);
                }
                assert(spot(before.remove(i), tx_hash) is None);
            }
        }
        let entry = MempoolEntry { tx, tx_hash, size, added_at: now, source, sender };
        assert(entry.sender.0 == hash::Hash160(tx::sender_of(tx)));
        assert(entry == entry_for(tx, source, now));
        self.charge(entry);
        Ok(Admission::Accepted)
    }

    /// Add an entry and count it.
    fn charge(&mut self, e: MempoolEntry)
        requires
            old(self).wf(),
            old(self)@.len() < MAX_MEMPOOL_TXS,
            entry_ok(e),
            spot(old(self)@, e.tx_hash) is None,
            held(old(self)@, e.source) < QUOTA_PER_SOURCE,
            pending_spent(old(self)@, e.sender.0.0) + e.tx.amount.0 <= u64::MAX,
        ensures
            final(self).wf(),
            final(self)@ == old(self)@.push(e),
    {
        let ghost s = self@;
        let ghost t = s.push(e);
        let k = e.sender.0.0;
        proof {
            lemma_wf_push(s, e);
            lemma_sizes(s);
            lemma_sizes(t);
            lemma_count_bound(s, k);
            assert(keymap::value_of(self.per_sender@, k) is Some || keymap::value_of(
                self.per_sender@,
                k,
            ) is None);
            lemma_weigh_push(s, e, of_sender(k));
            lemma_weigh_push(s, e, amount_of(k));
        }
        let had: Pending = match self.per_sender.get(&k) {
            Some(p) => *p,
            None => Pending { count: 0, spent: 0 },
        };
        let more = Pending { count: had.count + 1, spent: had.spent + e.tx.amount.0 };
        let ghost senders = self.per_sender@;
        self.per_sender.insert(k, more);
        let ghost by_hash = self.entries@;
        self.entries.insert(e.tx_hash.0, e);
        let ghost sources = self.per_source@;
        proof {
            assert forall|g: AddressGroup| #[trigger] counted(sources, g) < usize::MAX by {
                assert(counted(sources, g) == held(s, g));
                assert(held(s, g) <= QUOTA_PER_SOURCE);
            }
        }
        add_source(&mut self.per_source, e.source);
        self.total_size = self.total_size + e.size;
        self.order.push(e);
        proof {
            assert forall|x: [u8; 20]|
                match #[trigger] keymap::value_of(self.per_sender@, x) {
                    Some(p) => p.count > 0 && p.count == pending_count(t, x) && p.spent
                        == pending_spent(t, x),
                    None => pending_count(t, x) == 0 && pending_spent(t, x) == 0,
                } by {
                keymap::put_and_lookup(senders, k, more, x);
                lemma_weigh_push(s, e, of_sender(x));
                lemma_weigh_push(s, e, amount_of(x));
                assert(keymap::value_of(senders, x) is Some || keymap::value_of(senders, x)
                    is None);
            }
            assert forall|h: hash::Hash|
                match #[trigger] spot(t, h) {
                    Some(i) => keymap::value_of(self.entries@, h.0) == Some(t[i]),
                    None => keymap::value_of(self.entries@, h.0) is None,
                } by {
                keymap::put_and_lookup(by_hash, e.tx_hash.0, e, h.0);
                lemma_spot(s, h);
                if h != e.tx_hash {
                    assert(h.0 != e.tx_hash.0);
                    assert(spot(t, h) == spot(s, h));
                }
            }
            assert forall|g: AddressGroup| #[trigger] counted(self.per_source@, g) == held(t, g) by {
                lemma_weigh_push(s, e, from_source(g));
                assert(counted(sources, g) == held(s, g));
            }
        }
    }

    /// Take out the entry at a place and discount it.
    fn discharge(&mut self, i: usize)
        requires
            old(self).wf(),
            i < old(self)@.len(),
        ensures
            final(self).wf(),
            final(self)@ == old(self)@.remove(i as int),
    {
        let ghost s = self@;
        let ghost t = s.remove(i as int);
        let e = self.order.remove(i);
        let k = e.sender.0.0;
        proof {
            lemma_wf_remove(s, i as int);
            lemma_sizes(s);
            lemma_sizes(t);
            lemma_weigh_remove(s, i as int, of_sender(k));
            lemma_weigh_remove(s, i as int, amount_of(k));
            lemma_weigh_remove(s, i as int, from_source(e.source));
            lemma_spot_is(s, i as int);
            assert(keymap::value_of(self.per_sender@, k) is Some || keymap::value_of(
                self.per_sender@,
                k,
            ) is None);
            assert(counted(self.per_source@, e.source) == held(s, e.source));
        }
        let ghost senders = self.per_sender@;
        match self.per_sender.get(&k) {
            Some(p) => {
                let less = Pending { count: p.count - 1, spent: p.spent - e.tx.amount.0 };
                if less.count == 0 {
                    let _ = self.per_sender.remove(&k);
                    proof {
                        lemma_none_spent(t, k);
                        assert forall|x: [u8; 20]|
                            match #[trigger] keymap::value_of(self.per_sender@, x) {
                                Some(q) => q.count > 0 && q.count == pending_count(t, x)
                                    && q.spent == pending_spent(t, x),
                                None => pending_count(t, x) == 0 && pending_spent(t, x) == 0,
                            } by {
                            keymap::without_and_lookup(senders, k, x);
                            lemma_weigh_remove(s, i as int, of_sender(x));
                            lemma_weigh_remove(s, i as int, amount_of(x));
                            assert(keymap::value_of(senders, x) is Some || keymap::value_of(
                                senders,
                                x,
                            ) is None);
                        }
                    }
                } else {
                    self.per_sender.insert(k, less);
                    proof {
                        assert forall|x: [u8; 20]|
                            match #[trigger] keymap::value_of(self.per_sender@, x) {
                                Some(q) => q.count > 0 && q.count == pending_count(t, x)
                                    && q.spent == pending_spent(t, x),
                                None => pending_count(t, x) == 0 && pending_spent(t, x) == 0,
                            } by {
                            keymap::put_and_lookup(senders, k, less, x);
                            lemma_weigh_remove(s, i as int, of_sender(x));
                            lemma_weigh_remove(s, i as int, amount_of(x));
                            assert(keymap::value_of(senders, x) is Some || keymap::value_of(
                                senders,
                                x,
                            ) is None);
                        }
                    }
                }
            },
            None => {
                assert(false);
            },
        }
        let ghost by_hash = self.entries@;
        let _ = self.entries.remove(&e.tx_hash.0);
        let ghost sources = self.per_source@;
        sub_source(&mut self.per_source, e.source);
        self.total_size = self.total_size - e.size;
        proof {
            assert forall|h: hash::Hash|
                match #[trigger] spot(t, h) {
                    Some(j) => keymap::value_of(self.entries@, h.0) == Some(t[j]),
                    None => keymap::value_of(self.entries@, h.0) is None,
                } by {
                keymap::without_and_lookup(by_hash, e.tx_hash.0, h.0);
                assert(spot(s, h) is Some || spot(s, h) is None);
                if h != e.tx_hash {
                    assert(h.0 != e.tx_hash.0);
                    assert(spot(t, h) is Some <==> spot(s, h) is Some);
                }
            }
            assert forall|g: AddressGroup| #[trigger] counted(self.per_source@, g) == held(t, g) by {
                lemma_weigh_remove(s, i as int, from_source(g));
                assert(counted(sources, g) == held(s, g));
            }
        }
    }

    /// Make room for an arrival from `incoming`, if there is anything that
    /// should give way to it.
    ///
    /// The entry dropped is the newest one held by whichever group holds the
    /// most. Newest because a sender's pending transactions are a nonce
    /// sequence and dropping from the middle strands the rest; by largest
    /// holder because that is the group whose share is furthest above even.
    ///
    /// Gives false when no group holds more than the arrival's own.
    fn evict_for(&mut self, incoming: AddressGroup) -> (r: bool)
        requires
            old(self).wf(),
        ensures
            final(self).wf(),
            match victim(old(self)@, incoming) {
                Some(i) => r && final(self)@ == old(self)@.remove(i),
                None => !r && final(self)@ == old(self)@,
            },
    {
        let most = self.largest();
        if most <= self.held_by(incoming) {
            return false;
        }
        proof {
            lemma_victim(self@, incoming);
        }
        let mut i: usize = self.order.len();
        while i > 0
            invariant
                i <= self@.len(),
                self@ == self.order@,
                self.wf(),
                self@ == old(self)@,
                most == top(self@),
                victim(self@, incoming) == newest_with(self@, i as int, most as nat),
                victim(self@, incoming) is Some,
            decreases i,
        {
            i = i - 1;
            let source = self.order[i].source;
            if self.held_by(source) == most {
                self.discharge(i);
                return true;
            }
        }
        false
    }

    /// The most entries that any one source holds.
    fn largest(&self) -> (r: usize)
        requires
            self.wf(),
        ensures
            r == top(self@),
    {
        let mut best: usize = 0;
        let mut i: usize = 0;
        while i < self.per_source.len()
            invariant
                i <= self.per_source@.len(),
                self.wf(),
                forall|j: int|
                    0 <= j < i ==> held(self@, (#[trigger] self.per_source@[j]).0) <= best,
                i > 0 ==> exists|j: int|
                    0 <= j < i && held(self@, (#[trigger] self.per_source@[j]).0) == best,
                i == 0 ==> best == 0,
            decreases self.per_source@.len() - i,
        {
            let n = self.held_by(self.per_source[i].0);
            if n > best || i == 0 {
                best = n;
                assert(held(self@, self.per_source@[i as int].0) == best);
            } else {
                let ghost j = choose|j: int|
                    0 <= j < i && held(self@, (#[trigger] self.per_source@[j]).0) == best;
                assert(held(self@, self.per_source@[j].0) == best);
            }
            i = i + 1;
        }
        proof {
            let s = self@;
            lemma_top(s, s.len() as int);
            // every entry's source is in the list
            assert forall|x: int| 0 <= x < s.len() implies held(s, (#[trigger] s[x]).source)
                <= best by {
                let g = s[x].source;
                lemma_weigh_at_least(s, x, from_source(g));
                assert(counted(self.per_source@, g) == held(s, g));
                let j = lemma_weigh_positive(self.per_source@, counts_for(g));
                assert(self.per_source@[j].0 == g);
            }
            // every source in the list has an entry
            if self.per_source@.len() > 0 {
                let j = choose|j: int|
                    0 <= j < i && held(s, (#[trigger] self.per_source@[j]).0) == best;
                let g = self.per_source@[j].0;
                lemma_weigh_at_least(self.per_source@, j, counts_for(g));
                assert(counted(self.per_source@, g) == held(s, g));
                let x = lemma_weigh_positive(s, from_source(g));
                assert(s[x].source == g);
            }
        }
        best
    }

    /// Drop everything older than `EXPIRY_SECS`. Gives how many entries that
    /// was.
    pub fn expire(&mut self, now: u64) -> (r: usize)
        requires
            old(self).wf(),
        ensures
            final(self).wf(),
            final(self)@ == old(self)@.filter(fresh(now)),
            r == old(self)@.len() - final(self)@.len(),
    {
        let ghost s = self@;
        let ghost keep = fresh(now);
        let mut dropped: usize = 0;
        let mut i: usize = 0;
        let ghost mut k: int = 0;
        proof {
            reveal(Seq::filter);
            assert(s.subrange(0, 0) =~= Seq::<MempoolEntry>::empty());
            assert(self@ =~= s.subrange(0, 0).filter(keep) + s.subrange(0, s.len() as int));
        }
        while i < self.order.len()
            invariant
                self.wf(),
                self@ == self.order@,
                keep == fresh(now),
                0 <= k <= s.len(),
                i == s.subrange(0, k).filter(keep).len(),
                self@ == s.subrange(0, k).filter(keep) + s.subrange(k, s.len() as int),
                dropped == s.len() - self@.len(),
                s.len() <= MAX_MEMPOOL_TXS,
            decreases s.len() - k,
        {
            let ghost done = s.subrange(0, k).filter(keep);
            proof {
                reveal(Seq::filter);
                assert(s.subrange(0, k + 1).drop_last() =~= s.subrange(0, k));
                assert(self@[i as int] == s.subrange(k, s.len() as int)[0]);
                assert(self@[i as int] == s[k]);
            }
            let added_at = self.order[i].added_at;
            if now > added_at && now - added_at > EXPIRY_SECS {
                self.discharge(i);
                dropped = dropped + 1;
                assert(self@ =~= done + s.subrange(k + 1, s.len() as int));
            } else {
                i = i + 1;
                assert(self@ =~= done.push(s[k]) + s.subrange(k + 1, s.len() as int));
            }
            proof {
                k = k + 1;
            }
        }
        proof {
            assert(k == s.len());
            assert(s.subrange(0, k) =~= s);
            assert(self@ =~= s.filter(keep));
        }
        dropped
    }

    pub fn remove_transaction(&mut self, hash: &hash::Hash) -> (r: bool)
        requires
            old(self).wf(),
        ensures
            final(self).wf(),
            r == (spot(old(self)@, *hash) is Some),
            final(self)@ == removed(old(self)@, *hash),
    {
        let mut i: usize = self.order.len();
        assert(self.order@.subrange(0, i as int) =~= self.order@);
        while i > 0
            invariant
                i <= self@.len(),
                self@ == self.order@,
                self.wf(),
                self@ == old(self)@,
                spot(self@, *hash) == spot(self@.subrange(0, i as int), *hash),
            decreases i,
        {
            proof {
                let t = self@.subrange(0, i as int);
                assert(t.drop_last() =~= self@.subrange(0, i - 1));
                assert(t.last() == self@[i - 1]);
            }
            i = i - 1;
            if self.order[i].tx_hash == *hash {
                self.discharge(i);
                return true;
            }
        }
        false
    }

    pub fn has_transaction(&self, hash: &hash::Hash) -> (r: bool)
        requires
            self.wf(),
        ensures
            r == (spot(self@, *hash) is Some),
    {
        proof {
            keymap::lemma_value_of(self.entries@, hash.0);
            assert(spot(self@, *hash) is Some || spot(self@, *hash) is None);
        }
        self.entries.contains_key(&hash.0)
    }

    pub fn get_transaction(&self, hash: &hash::Hash) -> (r: Option<&Transaction>)
        requires
            self.wf(),
        ensures
            match spot(self@, *hash) {
                Some(i) => r matches Some(t) && *t == self@[i].tx,
                None => r is None,
            },
    {
        match self.entries.get(&hash.0) {
            Some(e) => Some(&e.tx),
            None => None,
        }
    }

    pub fn len(&self) -> (r: usize)
        ensures
            r == self@.len(),
    {
        self.order.len()
    }

    pub fn is_empty(&self) -> (r: bool)
        ensures
            r == (self@.len() == 0),
    {
        self.order.len() == 0
    }

    /// Bytes that the transactions take.
    pub fn size(&self) -> (r: usize)
        requires
            self.wf(),
        ensures
            r == weigh(self@, size_of()),
    {
        self.total_size
    }

    /// The hashes, oldest first.
    pub fn transaction_hashes(&self) -> (r: Vec<hash::Hash>)
        ensures
            r@ == self@.map_values(hash_of_entry()),
    {
        let mut r: Vec<hash::Hash> = Vec::new();
        let mut i: usize = 0;
        while i < self.order.len()
            invariant
                i <= self.order@.len(),
                r@ == self.order@.subrange(0, i as int).map_values(hash_of_entry()),
            decreases self.order@.len() - i,
        {
            r.push(self.order[i].tx_hash);
            i = i + 1;
            assert(r@ =~= self.order@.subrange(0, i as int).map_values(hash_of_entry()));
        }
        assert(self.order@.subrange(0, i as int) =~= self.order@);
        r
    }

    /// The transactions, oldest first.
    pub fn transactions(&self) -> (r: Vec<Transaction>)
        ensures
            r@ == self@.map_values(tx_of_entry()),
    {
        let mut r: Vec<Transaction> = Vec::new();
        let mut i: usize = 0;
        while i < self.order.len()
            invariant
                i <= self.order@.len(),
                r@ == self.order@.subrange(0, i as int).map_values(tx_of_entry()),
            decreases self.order@.len() - i,
        {
            r.push(self.order[i].tx);
            i = i + 1;
            assert(r@ =~= self.order@.subrange(0, i as int).map_values(tx_of_entry()));
        }
        assert(self.order@.subrange(0, i as int) =~= self.order@);
        r
    }

    pub fn remove_transactions(&mut self, hashes: &[hash::Hash])
        requires
            old(self).wf(),
        ensures
            final(self).wf(),
            final(self)@ == all_removed(old(self)@, hashes@),
    {
        let mut i: usize = 0;
        assert(hashes@.subrange(0, 0) =~= Seq::<hash::Hash>::empty());
        while i < hashes.len()
            invariant
                i <= hashes@.len(),
                self.wf(),
                self@ == all_removed(old(self)@, hashes@.subrange(0, i as int)),
            decreases hashes@.len() - i,
        {
            proof {
                let t = hashes@.subrange(0, i + 1);
                assert(t.drop_last() =~= hashes@.subrange(0, i as int));
                assert(t.last() == hashes@[i as int]);
            }
            let _ = self.remove_transaction(&hashes[i]);
            i = i + 1;
        }
        assert(hashes@.subrange(0, i as int) =~= hashes@);
    }

    pub fn clear(&mut self)
        ensures
            final(self).wf(),
            final(self)@ == Seq::<MempoolEntry>::empty(),
    {
        *self = Mempool::new();
    }
}

/// A sender without entries spends nothing.
proof fn lemma_none_spent(s: Entries, k: [u8; 20])
    requires
        pending_count(s, k) == 0,
    ensures
        pending_spent(s, k) == 0,
    decreases s.len(),
{
    if s.len() > 0 {
        lemma_none_spent(s.drop_last(), k);
    }
}

/// The count for a source.
fn count_source(v: &Vec<(AddressGroup, usize)>, g: AddressGroup) -> (r: usize)
    requires
        counted(v@, g) <= usize::MAX,
    ensures
        r == counted(v@, g),
{
    let mut n: usize = 0;
    let mut i: usize = 0;
    assert(v@.subrange(0, 0) =~= Seq::<(AddressGroup, usize)>::empty());
    while i < v.len()
        invariant
            i <= v@.len(),
            n == counted(v@.subrange(0, i as int), g),
            counted(v@, g) <= usize::MAX,
        decreases v@.len() - i,
    {
        proof {
            let t = v@.subrange(0, i + 1);
            assert(t.drop_last() =~= v@.subrange(0, i as int));
            lemma_counted_prefix(v@, i + 1, g);
        }
        if v[i].0 == g {
            n = n + v[i].1;
        }
        i = i + 1;
    }
    assert(v@.subrange(0, i as int) =~= v@);
    n
}

proof fn lemma_counted_prefix(t: Tally, n: int, g: AddressGroup)
    requires
        0 <= n <= t.len(),
    ensures
        counted(t.subrange(0, n), g) <= counted(t, g),
    decreases t.len(),
{
    if n == t.len() {
        assert(t.subrange(0, n) =~= t);
    } else {
        lemma_counted_prefix(t.drop_last(), n, g);
        assert(t.drop_last().subrange(0, n) =~= t.subrange(0, n));
    }
}

/// Count one more for a source.
fn add_source(v: &mut Vec<(AddressGroup, usize)>, g: AddressGroup)
    requires
        forall|i: int| 0 <= i < old(v)@.len() ==> (#[trigger] old(v)@[i]).1 > 0,
        forall|x: AddressGroup| #[trigger] counted(old(v)@, x) < usize::MAX,
    ensures
        forall|i: int| 0 <= i < final(v)@.len() ==> (#[trigger] final(v)@[i]).1 > 0,
        forall|x: AddressGroup| #[trigger]
            counted(final(v)@, x) == counted(old(v)@, x) + if x == g {
                1nat
            } else {
                0nat
            },
{
    let mut i: usize = 0;
    while i < v.len()
        invariant
            i <= v@.len(),
            v@ == old(v)@,
            forall|j: int| 0 <= j < v@.len() ==> (#[trigger] v@[j]).1 > 0,
            forall|x: AddressGroup| #[trigger] counted(v@, x) < usize::MAX,
        decreases v@.len() - i,
    {
        if v[i].0 == g {
            proof {
                lemma_weigh_at_least(v@, i as int, counts_for(g));
                assert(counted(v@, g) < usize::MAX);
            }
            let n: usize = v[i].1 + 1;
            let ghost t = v@;
            v.set(i, (g, n));
            proof {
                assert forall|x: AddressGroup| #[trigger]
                    counted(v@, x) == counted(t, x) + if x == g {
                        1nat
                    } else {
                        0nat
                    } by {
                    lemma_weigh_update(t, i as int, (g, n), counts_for(x));
                }
            }
            return;
        }
        i = i + 1;
    }
    let ghost t = v@;
    v.push((g, 1));
    proof {
        assert forall|x: AddressGroup| #[trigger]
            counted(v@, x) == counted(t, x) + if x == g {
                1nat
            } else {
                0nat
            } by {
            lemma_weigh_push(t, (g, 1usize), counts_for(x));
        }
    }
}

/// Count one less for a source.
fn sub_source(v: &mut Vec<(AddressGroup, usize)>, g: AddressGroup)
    requires
        forall|i: int| 0 <= i < old(v)@.len() ==> (#[trigger] old(v)@[i]).1 > 0,
        counted(old(v)@, g) > 0,
    ensures
        forall|i: int| 0 <= i < final(v)@.len() ==> (#[trigger] final(v)@[i]).1 > 0,
        forall|x: AddressGroup| #[trigger]
            counted(final(v)@, x) + (if x == g {
                1nat
            } else {
                0nat
            }) == counted(old(v)@, x),
{
    let mut i: usize = 0;
    let ghost spot = lemma_weigh_positive(v@, counts_for(g));
    while i < v.len()
        invariant
            i <= v@.len(),
            v@ == old(v)@,
            forall|j: int| 0 <= j < v@.len() ==> (#[trigger] v@[j]).1 > 0,
            i <= spot < v@.len(),
            v@[spot].0 == g,
        decreases v@.len() - i,
    {
        if v[i].0 == g {
            let n: usize = v[i].1 - 1;
            let ghost t = v@;
            if n == 0 {
                let _ = v.remove(i);
                proof {
                    assert forall|x: AddressGroup| #[trigger]
                        counted(v@, x) + (if x == g {
                            1nat
                        } else {
                            0nat
                        }) == counted(t, x) by {
                        lemma_weigh_remove(t, i as int, counts_for(x));
                    }
                    assert forall|j: int| 0 <= j < v@.len() implies (#[trigger] v@[j]).1 > 0 by {
                        if j < i {
                            assert(v@[j] == t[j]);
                        } else {
                            assert(v@[j] == t[j + 1]);
                        }
                    }
                }
            } else {
                v.set(i, (g, n));
                proof {
                    assert forall|x: AddressGroup| #[trigger]
                        counted(v@, x) + (if x == g {
                            1nat
                        } else {
                            0nat
                        }) == counted(t, x) by {
                        lemma_weigh_update(t, i as int, (g, n), counts_for(x));
                    }
                }
            }
            return;
        }
        i = i + 1;
    }
}

// ---------------------------------------------------------------------------
// Laws
// ---------------------------------------------------------------------------

/// Every connection the node will ever have can be at its quota and the pool is
/// still not over its limit; a source below its quota always finds the pool
/// with a place for it or an entry that gives way, as long as another source
/// holds more.
pub proof fn quota_is_a_share_of_the_pool(s: Entries, g: AddressGroup)
    requires
        pool_wf(s),
    ensures
        QUOTA_PER_SOURCE * (MAX_INBOUND_PEERS + MAX_OUTBOUND_PEERS) <= MAX_MEMPOOL_TXS,
        held(s, g) <= QUOTA_PER_SOURCE,
        held(s, g) < top(s) ==> victim(s, g) is Some,
{
    assert(QUOTA_PER_SOURCE == 4166) by {
        assert(100_000int / 24 == 4166);
    }
    assert(held(s, g) <= QUOTA_PER_SOURCE);
    lemma_top(s, s.len() as int);
    lemma_newest(s, s.len() as int, top(s));
}

/// An entry gives way only to an arrival whose source holds fewer, and it is
/// the newest entry of its own source.
pub proof fn eviction_is_fair(s: Entries, incoming: AddressGroup)
    requires
        victim(s, incoming) is Some,
    ensures
        ({
            let i = victim(s, incoming)->0;
            &&& 0 <= i < s.len()
            &&& held(s, s[i].source) > held(s, incoming)
            &&& s[i].source != incoming
            &&& forall|g: AddressGroup| #[trigger] held(s, g) <= held(s, s[i].source)
            &&& forall|j: int| i < j < s.len() ==> (#[trigger] s[j]).source != s[i].source
        }),
{
    lemma_victim(s, incoming);
    lemma_newest(s, s.len() as int, top(s));
    lemma_top(s, s.len() as int);
    let i = victim(s, incoming)->0;
    assert forall|g: AddressGroup| #[trigger] held(s, g) <= held(s, s[i].source) by {
        if held(s, g) > 0 {
            let x = lemma_weigh_positive(s, from_source(g));
            assert(s[x].source == g);
        }
    }
}

/// An accepted transaction is counted: the sender's next nonce moves on by one
/// and what it can still spend goes down by the amount, which never takes the
/// sum of what is pending above the balance.
pub proof fn accepted_is_counted(
    s: Entries,
    t: Transaction,
    source: AddressGroup,
    accounts: Accounts,
    now: u64,
)
    requires
        pool_wf(s),
        s.len() < MAX_MEMPOOL_TXS,
        verdict(s, t, source, accounts) == Ok::<Admission, Rejection>(Admission::Accepted),
    ensures
        ({
            let after = after_offer(s, t, source, accounts, now);
            let k = tx::sender_of(t);
            &&& pool_wf(after)
            &&& held(after, source) == held(s, source) + 1
            &&& pending_count(after, k) == pending_count(s, k) + 1
            &&& pending_spent(after, k) == pending_spent(s, k) + t.amount.0
            &&& t.nonce.0 < u64::MAX ==> next_nonce(after, accounts, k) == t.nonce.0 + 1
            &&& spendable(after, accounts, k) == spendable(s, accounts, k) - t.amount.0
            &&& t.amount.0 > 0 ==> pending_spent(after, k) <= state::account_at(
                accounts,
                k,
            ).balance
        }),
{
    let k = tx::sender_of(t);
    let e = entry_for(t, source, now);
    assert(held(s, source) <= QUOTA_PER_SOURCE);
    assert(pending_spent(s, k) <= u64::MAX);
    lemma_weigh_push(s, e, from_source(source));
    lemma_weigh_push(s, e, of_sender(k));
    lemma_weigh_push(s, e, amount_of(k));
    lemma_wf_push(s, e);
}

/// Removing what was just taken gives everything back: the pool is what it was.
pub proof fn removal_undoes_admission(
    s: Entries,
    t: Transaction,
    source: AddressGroup,
    accounts: Accounts,
    now: u64,
)
    requires
        s.len() < MAX_MEMPOOL_TXS,
        verdict(s, t, source, accounts) == Ok::<Admission, Rejection>(Admission::Accepted),
    ensures
        removed(after_offer(s, t, source, accounts, now), tx::tx_hash(t)) == s,
{
    let after = after_offer(s, t, source, accounts, now);
    assert(after.last() == entry_for(t, source, now));
    assert(after.remove(after.len() - 1) =~= s);
}

/// A transaction that the pool holds is never taken again, and offering it
/// changes nothing.
pub proof fn resending_changes_nothing(
    s: Entries,
    i: int,
    source: AddressGroup,
    accounts: Accounts,
    now: u64,
)
    requires
        pool_wf(s),
        0 <= i < s.len(),
    ensures
        verdict(s, s[i].tx, source, accounts) == Ok::<Admission, Rejection>(Admission::Duplicate),
        after_offer(s, s[i].tx, source, accounts, now) == s,
{
    assert(entry_ok(s[i]));
    lemma_spot_is(s, i);
}

// ---------------------------------------------------------------------------
// The pool in plain counts
// ---------------------------------------------------------------------------

/// Entries that a group delivered, as a test.
pub open spec fn came_from(g: AddressGroup) -> spec_fn(MempoolEntry) -> bool {
    |e: MempoolEntry| e.source == g
}

/// Entries that an address sends, as a test.
pub open spec fn sent_from(k: [u8; 20]) -> spec_fn(MempoolEntry) -> bool {
    |e: MempoolEntry| e.sender.0.0 == k
}

/// Entries under another hash, as a test.
pub open spec fn not_under(h: hash::Hash) -> spec_fn(MempoolEntry) -> bool {
    |e: MempoolEntry| e.tx_hash != h
}

/// What the pool counts is what it holds: as many entries of a source and of a
/// sender as there are, the sum of what a sender's entries spend, and an entry
/// under a hash exactly where there is one.
pub proof fn pool_counts_what_it_holds(
    s: Entries,
    e: MempoolEntry,
    g: AddressGroup,
    k: [u8; 20],
    h: hash::Hash,
)
    ensures
        held(s, g) == s.filter(came_from(g)).len(),
        pending_count(s, k) == s.filter(sent_from(k)).len(),
        pending_spent(Seq::empty(), k) == 0,
        pending_spent(s.push(e), k) == pending_spent(s, k) + if e.sender.0.0 == k {
            e.tx.amount.0 as nat
        } else {
            0
        },
        spot(s, h) is Some <==> exists|i: int| 0 <= i < s.len() && (#[trigger] s[i]).tx_hash == h,
        spot(s, h) matches Some(i) ==> 0 <= i < s.len() && s[i].tx_hash == h,
    decreases s.len(),
{
    lemma_spot(s, h);
    lemma_weigh_push(s, e, amount_of(k));
    reveal(Seq::filter);
    if s.len() > 0 {
        pool_counts_what_it_holds(s.drop_last(), e, g, k, h);
    }
}

/// A transaction is admitted exactly when it is not a coinbase, not there yet,
/// comes from a group that holds fewer than its share, has a sender with an
/// account that holds something, carries the nonce after those of the sender's
/// account and pending transactions, spends no more than those leave, is signed,
/// and the pool has room or another group holds more than the one it comes from.
pub proof fn admitted_exactly_when_it_may_be(
    s: Entries,
    t: Transaction,
    source: AddressGroup,
    accounts: Accounts,
)
    requires
        s.len() <= 100_000,
    ensures
        ({
            let k = tx::sender_of(t);
            let a = state::account_at(accounts, k);
            let there = exists|i: int|
                0 <= i < s.len() && (#[trigger] s[i]).tx_hash.0 == hash::spec_blake3(
                    t.spec_encode(),
                );
            let next = a.nonce + s.filter(sent_from(k)).len();
            let may = !tx::is_coinbase_tx(t) && !there && s.filter(came_from(source)).len() < 4166
                && keymap::holds(accounts, k) && a.balance > 0 && (t.nonce.0 == next || (next
                > u64::MAX && t.nonce.0 == u64::MAX)) && t.amount.0 + pending_spent(s, k)
                <= a.balance && tx::signed(t) && (s.len() < 100_000 || exists|g: AddressGroup|
                #[trigger] held(s, g) > held(s, source));
            &&& t.amount.0 > 0 ==> (verdict(s, t, source, accounts) == Ok::<Admission, Rejection>(
                Admission::Accepted,
            ) <==> may)
            &&& verdict(s, t, source, accounts) == Ok::<Admission, Rejection>(
                Admission::Duplicate,
            ) <==> !tx::is_coinbase_tx(t) && there
        }),
{
    let k = tx::sender_of(t);
    let h = tx::tx_hash(t);
    tx::transaction_hash_names_the_transaction(t, t);
    lemma_spot(s, h);
    assert((exists|i: int|
        0 <= i < s.len() && (#[trigger] s[i]).tx_hash.0 == hash::spec_blake3(t.spec_encode()))
        <==> spot(s, h) is Some) by {
        if exists|i: int|
            0 <= i < s.len() && (#[trigger] s[i]).tx_hash.0 == hash::spec_blake3(t.spec_encode()) {
            let i = choose|i: int|
                0 <= i < s.len() && (#[trigger] s[i]).tx_hash.0 == hash::spec_blake3(
                    t.spec_encode(),
                );
            assert(s[i].tx_hash == h);
        }
    }
    assert(QUOTA_PER_SOURCE == 4166) by {
        assert(100_000int / 24 == 4166);
    }
    lemma_held_filter(s, source);
    lemma_count_filter(s, k);
    lemma_top(s, s.len() as int);
    if s.len() >= 100_000 {
        lemma_victim_exists(s, source);
    }
}

proof fn lemma_held_filter(s: Entries, g: AddressGroup)
    ensures
        held(s, g) == s.filter(came_from(g)).len(),
    decreases s.len(),
{
    reveal(Seq::filter);
    if s.len() > 0 {
        lemma_held_filter(s.drop_last(), g);
    }
}

proof fn lemma_count_filter(s: Entries, k: [u8; 20])
    ensures
        pending_count(s, k) == s.filter(sent_from(k)).len(),
    decreases s.len(),
{
    reveal(Seq::filter);
    if s.len() > 0 {
        lemma_count_filter(s.drop_last(), k);
    }
}

proof fn lemma_victim_exists(s: Entries, source: AddressGroup)
    ensures
        victim(s, source) is Some <==> exists|g: AddressGroup| #[trigger] held(s, g) > held(
            s,
            source,
        ),
{
    lemma_top(s, s.len() as int);
    lemma_newest(s, s.len() as int, top(s));
    if victim(s, source) is Some {
        eviction_is_fair(s, source);
        let i = victim(s, source)->0;
        assert(held(s, s[i].source) > held(s, source));
    }
    if exists|g: AddressGroup| #[trigger] held(s, g) > held(s, source) {
        let g = choose|g: AddressGroup| #[trigger] held(s, g) > held(s, source);
        lemma_top_bounds(s, g);
    }
}

proof fn lemma_top_bounds(s: Entries, g: AddressGroup)
    ensures
        held(s, g) <= top(s),
{
    if held(s, g) > 0 {
        let i = lemma_weigh_positive(s, from_source(g));
        lemma_top_at_least(s, s.len() as int, i);
    }
}

proof fn lemma_top_at_least(s: Entries, n: int, i: int)
    requires
        0 <= i < n <= s.len(),
    ensures
        held(s, s[i].source) <= top_upto(s, n),
    decreases n,
{
    if i < n - 1 {
        lemma_top_at_least(s, n - 1, i);
    }
}

/// A transaction is refused for the first of the rules that it breaks, and the
/// signature is looked at only when all the cheaper ones are kept.
pub proof fn refusal_names_the_first_rule_broken(
    s: Entries,
    t: Transaction,
    source: AddressGroup,
    accounts: Accounts,
)
    ensures
        ({
            let k = tx::sender_of(t);
            let a = state::account_at(accounts, k);
            let r = verdict(s, t, source, accounts);
            let fresh = !tx::is_coinbase_tx(t) && spot(s, tx::tx_hash(t)) is None;
            let welcome = fresh && s.filter(came_from(source)).len() < 4166;
            let funded = welcome && keymap::holds(accounts, k) && a.balance > 0;
            let next = a.nonce + s.filter(sent_from(k)).len();
            let due = funded && next <= u64::MAX && t.nonce.0 == next;
            let covered = due && t.amount.0 + pending_spent(s, k) <= a.balance;
            &&& tx::is_coinbase_tx(t) <==> r == Err::<Admission, Rejection>(Rejection::Coinbase)
            &&& fresh && !welcome <==> r == Err::<Admission, Rejection>(Rejection::SourceQuotaFull)
            &&& welcome && !funded <==> r == Err::<Admission, Rejection>(Rejection::UnfundedSender)
            &&& funded && next <= u64::MAX && t.nonce.0 < next ==> r == Err::<Admission, Rejection>(
                Rejection::NonceTooLow,
            )
            &&& funded && next <= u64::MAX && t.nonce.0 > next ==> r == Err::<Admission, Rejection>(
                Rejection::NonceTooHigh,
            )
            &&& due && !covered && t.amount.0 > 0 ==> r == Err::<Admission, Rejection>(
                Rejection::InsufficientBalance,
            )
            &&& covered && !tx::signed(t) ==> r == Err::<Admission, Rejection>(
                Rejection::BadSignature,
            )
            &&& r == Err::<Admission, Rejection>(Rejection::BadSignature) ==> !tx::signed(t)
                && funded
        }),
{
    assert(QUOTA_PER_SOURCE == 4166) by {
        assert(100_000int / 24 == 4166);
    }
    lemma_held_filter(s, source);
    lemma_count_filter(s, tx::sender_of(t));
}

/// A transaction that is not admitted leaves the pool as it was. One that is
/// comes last, charged to the group that delivered it and stamped with the time,
/// and everything that was there stays in its order, but for the one entry that
/// gives way in a full pool.
pub proof fn admission_adds_one_entry(
    s: Entries,
    t: Transaction,
    source: AddressGroup,
    accounts: Accounts,
    now: u64,
)
    ensures
        ({
            let after = after_offer(s, t, source, accounts, now);
            let taken = verdict(s, t, source, accounts) == Ok::<Admission, Rejection>(
                Admission::Accepted,
            );
            let e = after.last();
            &&& !taken ==> after == s
            &&& taken ==> after.len() > 0 && e.tx == t && e.source == source && e.added_at == now
                && e.sender.0.0 == tx::sender_of(t) && e.tx_hash.0 == hash::spec_blake3(
                t.spec_encode(),
            ) && e.size == 132
            &&& taken && s.len() < 100_000 ==> after == s.push(e)
            &&& taken && s.len() >= 100_000 ==> exists|i: int|
                0 <= i < s.len() && after == #[trigger] s.remove(i).push(e)
        }),
{
    tx::transaction_hash_names_the_transaction(t, t);
    if verdict(s, t, source, accounts) == Ok::<Admission, Rejection>(Admission::Accepted) && s.len()
        >= 100_000 {
        eviction_is_fair(s, source);
        let i = victim(s, source)->0;
        assert(after_offer(s, t, source, accounts, now) == s.remove(i).push(
            entry_for(t, source, now),
        ));
    }
}

proof fn lemma_removed_is_filter(s: Entries, h: hash::Hash)
    requires
        forall|i: int, j: int|
            0 <= i < j < s.len() ==> (#[trigger] s[i]).tx_hash != (#[trigger] s[j]).tx_hash,
    ensures
        removed(s, h) == s.filter(not_under(h)),
    decreases s.len(),
{
    reveal(Seq::filter);
    if s.len() > 0 {
        let t = s.drop_last();
        assert forall|i: int, j: int| 0 <= i < j < t.len() implies (#[trigger] t[i]).tx_hash != (
        #[trigger] t[j]).tx_hash by {
            assert(s[i].tx_hash != s[j].tx_hash);
        }
        lemma_removed_is_filter(t, h);
        lemma_spot(t, h);
        if s.last().tx_hash == h {
            assert(spot(t, h) is None) by {
                if spot(t, h) is Some {
                    let i = spot(t, h)->0;
                    assert(s[i].tx_hash != s[s.len() - 1].tx_hash);
                }
            }
            assert(removed(s, h) =~= t);
        } else if spot(t, h) is Some {
            let i = spot(t, h)->0;
            assert(s.remove(i) =~= t.remove(i).push(s.last()));
        } else {
            assert(s =~= t.push(s.last()));
        }
    } else {
        assert(s.filter(not_under(h)) =~= s);
    }
}

/// Removing a transaction takes the entry under its hash out of the pool and
/// leaves every other in its place; removing several does so for each of them.
pub proof fn removal_takes_out_just_those(s: Entries, hashes: Seq<hash::Hash>, h: hash::Hash)
    requires
        pool_wf(s),
    ensures
        removed(s, h) == s.filter(not_under(h)),
        forall|e: MempoolEntry| #[trigger]
            all_removed(s, hashes).contains(e) <==> s.contains(e) && !hashes.contains(e.tx_hash),
    decreases hashes.len(),
{
    lemma_removed_is_filter(s, h);
    if hashes.len() > 0 {
        let rest = hashes.drop_last();
        let x = hashes.last();
        let before = all_removed(s, rest);
        removal_takes_out_just_those(s, rest, h);
        lemma_all_removed_wf(s, rest);
        lemma_removed_is_filter(before, x);
        assert forall|e: MempoolEntry| #[trigger] all_removed(s, hashes).contains(e) <==> s.contains(
            e,
        ) && !hashes.contains(e.tx_hash) by {
            lemma_filter_contains(before, not_under(x), e);
            assert(hashes =~= rest.push(x));
            assert(hashes.contains(e.tx_hash) <==> rest.contains(e.tx_hash) || e.tx_hash == x) by {
                if rest.contains(e.tx_hash) {
                    let i = choose|i: int| 0 <= i < rest.len() && rest[i] == e.tx_hash;
                    assert(hashes[i] == e.tx_hash);
                }
                if e.tx_hash == x {
                    assert(hashes[hashes.len() - 1] == x);
                }
            }
            assert(before.contains(e) <==> s.contains(e) && !rest.contains(e.tx_hash));
        }
    }
}

proof fn lemma_filter_contains(s: Entries, f: spec_fn(MempoolEntry) -> bool, e: MempoolEntry)
    ensures
        s.filter(f).contains(e) <==> s.contains(e) && f(e),
    decreases s.len(),
{
    reveal(Seq::filter);
    if s.len() > 0 {
        let t = s.drop_last();
        lemma_filter_contains(t, f, e);
        assert(s =~= t.push(s.last()));
        assert(s.contains(e) <==> t.contains(e) || e == s.last()) by {
            if t.contains(e) {
                let i = choose|i: int| 0 <= i < t.len() && t[i] == e;
                assert(s[i] == e);
            }
            if e == s.last() {
                assert(s[s.len() - 1] == e);
            }
        }
        if f(s.last()) {
            let u = t.filter(f);
            assert(s.filter(f) == u.push(s.last()));
            assert(u.push(s.last()).contains(e) <==> u.contains(e) || e == s.last()) by {
                if u.contains(e) {
                    let i = choose|i: int| 0 <= i < u.len() && u[i] == e;
                    assert(u.push(s.last())[i] == e);
                }
                if e == s.last() {
                    assert(u.push(s.last())[u.len() as int] == e);
                }
            }
        }
    }
}

proof fn lemma_all_removed_wf(s: Entries, hashes: Seq<hash::Hash>)
    requires
        pool_wf(s),
    ensures
        pool_wf(all_removed(s, hashes)),
    decreases hashes.len(),
{
    if hashes.len() > 0 {
        lemma_all_removed_wf(s, hashes.drop_last());
        let before = all_removed(s, hashes.drop_last());
        lemma_spot(before, hashes.last());
        if spot(before, hashes.last()) is Some {
            lemma_wf_remove(before, spot(before, hashes.last())->0);
        }
    }
}

/// An entry has not been in the pool for too long exactly up to an hour after it
/// came.
pub proof fn entries_last_an_hour(e: MempoolEntry, now: u64)
    ensures
        fresh(now)(e) <==> now <= e.added_at + 3600,
{
}

/// The pool hands out what it holds, in the order in which it came: 132 bytes a
/// transaction, each with its own hash.
pub proof fn pool_hands_out_what_it_holds(s: Entries, i: int)
    requires
        pool_wf(s),
        0 <= i < s.len(),
    ensures
        weigh(s, size_of()) == 132 * s.len(),
        s.map_values(hash_of_entry()).len() == s.len(),
        s.map_values(tx_of_entry()).len() == s.len(),
        s.map_values(tx_of_entry())[i] == s[i].tx,
        s.map_values(hash_of_entry())[i].0 == hash::spec_blake3(s[i].tx.spec_encode()),
        s[i].sender.0.0 == tx::sender_of(s[i].tx),
{
    assert(entry_ok(s[i]));
    tx::transaction_hash_names_the_transaction(s[i].tx, s[i].tx);
    lemma_sizes(s);
}

/// What the sender of pending transactions can still do: its next nonce and its
/// balance are those of its account, moved on by what is pending.
pub proof fn pending_moves_the_account_on(s: Entries, accounts: Accounts, k: [u8; 20])
    ensures
        ({
            let a = state::account_at(accounts, k);
            let n = a.nonce + s.filter(sent_from(k)).len();
            let spent = pending_spent(s, k);
            &&& n <= u64::MAX ==> next_nonce(s, accounts, k) == n
            &&& n > u64::MAX ==> next_nonce(s, accounts, k) == u64::MAX
            &&& spent <= a.balance ==> spendable(s, accounts, k) == a.balance - spent
            &&& spent > a.balance ==> spendable(s, accounts, k) == 0
        }),
{
    lemma_count_filter(s, k);
}

/// A refusal is told in these words.
pub proof fn refusals_have_words()
    ensures
        Rejection::Coinbase.words() == "coinbase"@,
        Rejection::SourceQuotaFull.words() == "source quota full"@,
        Rejection::UnfundedSender.words() == "unfunded sender"@,
        Rejection::NonceTooLow.words() == "nonce too low"@,
        Rejection::NonceTooHigh.words() == "nonce too high"@,
        Rejection::InsufficientBalance.words() == "insufficient balance"@,
        Rejection::BadSignature.words() == "bad signature"@,
        Rejection::Full.words() == "mempool full"@,
{
}

} // verus!
