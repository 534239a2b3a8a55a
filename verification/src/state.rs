//! Account state.
//!
//! A mapping from address to account, the transitions on it, and the sorted
//! Merkle tree that commits to it.

use vstd::prelude::*;
use crate::bytes;
use crate::constants::{BLOCK_REWARD_UNITS, MAX_SUPPLY_UNITS};
use crate::crypto::schnorr;
use crate::error;
use crate::error::{CoreError, ErrorKind, Fault, Result};
use crate::hash;
use crate::keymap;
use crate::keymap::KeyMap;
use crate::text;
use crate::types::Address;

verus! {

/// Balance and transaction nonce of one account.
#[derive(Clone, Copy, PartialEq, Eq, Structural, Debug, Default)]
pub struct Account {
    /// Balance in units.
    pub balance: u64,
    /// Number of transactions sent. The next one must carry this nonce.
    pub nonce: u64,
}

/// Entries of the account map, in key order.
pub type Accounts = Seq<([u8; 20], Account)>;

/// What an account that has never been touched holds.
pub open spec fn empty_account() -> Account {
    Account { balance: 0, nonce: 0 }
}

/// The account at an address.
pub open spec fn account_at(accounts: Accounts, key: [u8; 20]) -> Account {
    match keymap::value_of(accounts, key) {
        Some(a) => a,
        None => empty_account(),
    }
}

/// All balances together.
pub open spec fn total_balance(accounts: Accounts) -> nat
    decreases accounts.len(),
{
    if accounts.len() == 0 {
        0
    } else {
        total_balance(accounts.drop_last()) + accounts.last().1.balance as nat
    }
}

/// An account as committed to: balance, then nonce.
pub open spec fn account_bytes(a: Account) -> Seq<u8> {
    bytes::le_bytes(a.balance as nat, 8) + bytes::le_bytes(a.nonce as nat, 8)
}

impl Account {
    pub fn new(balance: u64, nonce: u64) -> (r: Account)
        ensures
            r == (Account { balance, nonce }),
    {
        Account { balance, nonce }
    }

    /// An account that has never been touched.
    pub fn empty() -> (r: Account)
        ensures
            r == empty_account(),
    {
        Account { balance: 0, nonce: 0 }
    }

    /// Encode for the state commitment: 16 bytes.
    pub fn encode_value(&self) -> (r: Vec<u8>)
        ensures
            r@ == account_bytes(*self),
    {
        let mut buf: Vec<u8> = Vec::new();
        bytes::push_le(&mut buf, self.balance, 8);
        bytes::push_le(&mut buf, self.nonce, 8);
        assert(buf@ =~= account_bytes(*self));
        buf
    }

    /// Decode from 16 bytes.
    pub fn decode_value(data: &[u8]) -> (r: Result<Account>)
        ensures
            match r {
                Ok(a) => account_bytes(a) == data@,
                Err(e) => data@.len() != 16 && e.fault() == error::malformed(
                    "account: expected 16 bytes, got "@ + text::decimal(data@.len()),
                ),
            },
            r is Ok <==> data@.len() == 16,
    {
        if data.len() != 16 {
            return Err(
                CoreError::Serialization(
                    text::phrase1("account: expected 16 bytes, got ", data.len() as u64),
                ),
            );
        }
        let balance: u64 = bytes::read_le(data, 0, 8);
        let nonce: u64 = bytes::read_le(data, 8, 8);
        proof {
            bytes::lemma_le_bytes_of_value(data@.subrange(0, 8));
            bytes::lemma_le_bytes_of_value(data@.subrange(8, 16));
            bytes::lemma_join_ranges(data@, 0, 8, 16);
            assert(data@.subrange(0, 16) =~= data@);
        }
        Ok(Account { balance, nonce })
    }
}

/// Account bytes tell accounts apart, so an account reads back from its bytes.
pub proof fn account_bytes_injective(a: Account, b: Account)
    requires
        account_bytes(a) == account_bytes(b),
    ensures
        a == b,
        account_bytes(a).len() == 16,
{
    bytes::lemma_le_bytes_len(a.balance as nat, 8);
    bytes::lemma_le_bytes_len(b.balance as nat, 8);
    bytes::lemma_le_bytes_len(a.nonce as nat, 8);
    bytes::lemma_split_equal(
        bytes::le_bytes(a.balance as nat, 8),
        bytes::le_bytes(a.nonce as nat, 8),
        bytes::le_bytes(b.balance as nat, 8),
        bytes::le_bytes(b.nonce as nat, 8),
    );
    bytes::lemma_pow256_values();
    bytes::lemma_le_bytes_injective(a.balance as nat, b.balance as nat, 8);
    bytes::lemma_le_bytes_injective(a.nonce as nat, b.nonce as nat, 8);
}

// ---------------------------------------------------------------------------
// Commitment
// ---------------------------------------------------------------------------

/// Hash of one entry as a Merkle leaf.
pub open spec fn leaf(key: Seq<u8>, a: Account) -> hash::Hash {
    hash::hash_of(key + account_bytes(a))
}

/// Hash of an internal node.
pub open spec fn node(left: hash::Hash, right: hash::Hash) -> hash::Hash {
    hash::hash_of(left.0@ + right.0@)
}

/// The leaves of the state tree, in key order.
pub open spec fn leaves_of(accounts: Accounts) -> Seq<hash::Hash> {
    Seq::new(accounts.len(), |i: int| leaf(accounts[i].0@, accounts[i].1))
}

/// The level above: neighbours are joined, and a last one without a neighbour
/// is carried up unchanged.
pub open spec fn level_up(level: Seq<hash::Hash>) -> Seq<hash::Hash> {
    Seq::new(
        (level.len() + 1) / 2,
        |i: int|
            if 2 * i + 1 < level.len() {
                node(level[2 * i], level[2 * i + 1])
            } else {
                level[2 * i]
            },
    )
}

/// The root over a level. No leaves at all give the zero hash.
pub open spec fn tree_root(level: Seq<hash::Hash>) -> hash::Hash
    decreases level.len(),
{
    if level.len() == 0 {
        hash::zero_hash()
    } else if level.len() == 1 {
        level[0]
    } else {
        tree_root(level_up(level))
    }
}

/// The root that commits to all accounts.
pub open spec fn state_root(accounts: Accounts) -> hash::Hash {
    tree_root(leaves_of(accounts))
}

/// One sibling on a Merkle path.
#[derive(Clone, Copy, Debug, Eq)]
pub struct ProofStep {
    pub hash: hash::Hash,
    /// True when the sibling sits to the right of the node being proved.
    pub sibling_on_right: bool,
}

impl PartialEq for ProofStep {
    fn eq(&self, other: &Self) -> (r: bool) {
        self.hash == other.hash && self.sibling_on_right == other.sibling_on_right
    }
}

impl vstd::std_specs::cmp::PartialEqSpecImpl for ProofStep {
    open spec fn obeys_eq_spec() -> bool {
        true
    }

    open spec fn eq_spec(&self, other: &Self) -> bool {
        *self == *other
    }
}

/// The siblings on the way from a node up to the root.
pub open spec fn path(level: Seq<hash::Hash>, index: int) -> Seq<ProofStep>
    decreases level.len(),
{
    if level.len() <= 1 {
        Seq::empty()
    } else {
        let sibling = if index % 2 == 0 {
            index + 1
        } else {
            index - 1
        };
        let above = path(level_up(level), index / 2);
        if sibling < level.len() {
            seq![ProofStep { hash: level[sibling], sibling_on_right: index % 2 == 0 }] + above
        } else {
            above
        }
    }
}

/// The hash that a node and the siblings above it lead to.
pub open spec fn climb(start: hash::Hash, steps: Seq<ProofStep>) -> hash::Hash
    decreases steps.len(),
{
    if steps.len() == 0 {
        start
    } else {
        let s = steps[0];
        let next = if s.sibling_on_right {
            node(start, s.hash)
        } else {
            node(s.hash, start)
        };
        climb(next, steps.subrange(1, steps.len() as int))
    }
}

/// The path from a node leads to the root.
pub proof fn path_leads_to_root(level: Seq<hash::Hash>, index: int)
    requires
        0 <= index < level.len(),
    ensures
        climb(level[index], path(level, index)) == tree_root(level),
    decreases level.len(),
{
    if level.len() > 1 {
        let up = level_up(level);
        path_leads_to_root(up, index / 2);
        let steps = path(level, index);
        let above = path(up, index / 2);
        let sibling = if index % 2 == 0 { index + 1 } else { index - 1 };
        if sibling < level.len() {
            assert(steps.subrange(1, steps.len() as int) =~= above);
            if index % 2 == 0 {
                assert(2 * (index / 2) == index);
            } else {
                assert(2 * (index / 2) + 1 == index);
            }
        } else {
            assert(index % 2 == 0);
            assert(2 * (index / 2) == index);
        }
    }
}

/// A path has at most one step per halving of the number of leaves.
pub proof fn path_length(level: Seq<hash::Hash>, index: int, height: nat)
    requires
        0 <= index < level.len(),
        level.len() <= vstd::arithmetic::power2::pow2(height),
    ensures
        path(level, index).len() <= height,
    decreases height,
{
    vstd::arithmetic::power2::lemma2_to64();
    if level.len() > 1 {
        if height == 0 {
            assert(false);
        }
        vstd::arithmetic::power2::lemma_pow2_unfold(height);
        path_length(level_up(level), index / 2, (height - 1) as nat);
    }
}

/// A Merkle path from an account leaf to the state root.
#[derive(Clone, Debug, PartialEq, Eq)]
pub struct MerkleProof {
    pub account: Account,
    pub steps: Vec<ProofStep>,
}

/// The root that a proof implies for an address.
pub open spec fn proof_root(key: Seq<u8>, account: Account, steps: Seq<ProofStep>) -> hash::Hash {
    climb(leaf(key, account), steps)
}

impl MerkleProof {
    /// Recompute the root this proof implies for `address`.
    pub fn compute_root(&self, address: &Address) -> (r: hash::Hash)
        ensures
            r == proof_root(address.0.0@, self.account, self.steps@),
    {
        let mut current = State::leaf_hash(&address.0.0, &self.account);
        let mut i: usize = 0;
        let ghost start = current;
        assert(self.steps@.subrange(0, self.steps@.len() as int) =~= self.steps@);
        while i < self.steps.len()
            invariant
                i <= self.steps@.len(),
                climb(current, self.steps@.subrange(i as int, self.steps@.len() as int)) == climb(
                    start,
                    self.steps@,
                ),
            decreases self.steps@.len() - i,
        {
            let step = self.steps[i];
            let ghost rest = self.steps@.subrange(i as int, self.steps@.len() as int);
            assert(rest.subrange(1, rest.len() as int) =~= self.steps@.subrange(
                i + 1,
                self.steps@.len() as int,
            ));
            if step.sibling_on_right {
                current = State::node_hash(&current, &step.hash);
            } else {
                current = State::node_hash(&step.hash, &current);
            }
            i = i + 1;
        }
        current
    }

    /// Check the proof against a known state root.
    pub fn verify(&self, address: &Address, root: &hash::Hash) -> (r: bool)
        ensures
            r == (proof_root(address.0.0@, self.account, self.steps@) == *root),
    {
        self.compute_root(address) == *root
    }
}

/// A level of hashes one up.
fn raise(level: &Vec<hash::Hash>) -> (next: Vec<hash::Hash>)
    ensures
        next@ == level_up(level@),
{
    let mut next: Vec<hash::Hash> = Vec::new();
    let mut i: usize = 0;
    while i < level.len()
        invariant
            i <= level@.len(),
            i % 2 == 0 || i == level@.len(),
            next@.len() == (i + 1) / 2,
            forall|j: int| 0 <= j < next@.len() ==> #[trigger] next@[j] == level_up(level@)[j],
        decreases level@.len() - i,
    {
        if level.len() - i >= 2 {
            let h = State::node_hash(&level[i], &level[i + 1]);
            assert(2 * (i as int / 2) == i);
            assert(h == level_up(level@)[i as int / 2]);
            next.push(h);
            i = i + 2;
        } else {
            assert(2 * (i as int / 2) == i);
            next.push(level[i]);
            i = i + 1;
        }
    }
    assert(next@ =~= level_up(level@));
    next
}

// ---------------------------------------------------------------------------
// State
// ---------------------------------------------------------------------------

/// Global account state, ordered by address.
pub struct State {
    pub accounts: KeyMap<20, Account>,
    /// Total circulating supply in units.
    pub total_supply: u64,
}

/// What a state holds.
#[verifier::ext_equal]
pub struct StateView {
    pub accounts: Accounts,
    pub supply: u64,
}

impl View for State {
    type V = StateView;

    open spec fn view(&self) -> StateView {
        StateView { accounts: self.accounts@, supply: self.total_supply }
    }
}

impl Clone for State {
    fn clone(&self) -> (r: Self)
        ensures
            r@ == self@,
    {
        State { accounts: self.accounts.copy(), total_supply: self.total_supply }
    }
}

impl Default for State {
    fn default() -> (r: Self)
        ensures
            r@ == empty_state(),
    {
        State::new()
    }
}

/// The state before any block.
pub open spec fn empty_state() -> StateView {
    StateView { accounts: Seq::empty(), supply: 0 }
}

/// What the next block may mint.
pub open spec fn subsidy_at(supply: u64) -> u64 {
    if supply >= MAX_SUPPLY_UNITS {
        0
    } else if MAX_SUPPLY_UNITS - supply < BLOCK_REWARD_UNITS {
        (MAX_SUPPLY_UNITS - supply) as u64
    } else {
        BLOCK_REWARD_UNITS
    }
}

/// The state after the subsidy has been paid to an account.
pub open spec fn after_subsidy(s: StateView, to: [u8; 20]) -> std::result::Result<
    StateView,
    Fault,
> {
    let amount = subsidy_at(s.supply);
    let a = account_at(s.accounts, to);
    if amount == 0 {
        Ok(s)
    } else if a.balance + amount > u64::MAX {
        Err(
            ErrorKind::Overflow.because(
                text::two_numbers("coinbase overflow: "@, a.balance as nat, " + "@, amount as nat),
            ),
        )
    } else {
        Ok(
            StateView {
                accounts: keymap::put(
                    s.accounts,
                    to,
                    Account { balance: (a.balance + amount) as u64, nonce: a.nonce },
                ),
                supply: (s.supply + amount) as u64,
            },
        )
    }
}

/// The accounts after a transfer, or why it is refused.
pub open spec fn after_transfer(
    accounts: Accounts,
    from: [u8; 20],
    to: [u8; 20],
    amount: u64,
    nonce: u64,
) -> std::result::Result<Accounts, Fault> {
    let s = account_at(accounts, from);
    let r = account_at(accounts, to);
    if amount == 0 {
        Err(ErrorKind::InvalidTransaction.because("amount must be greater than zero"@))
    } else if from == to {
        Err(ErrorKind::InvalidTransaction.because("sender and recipient must differ"@))
    } else if nonce != s.nonce {
        Err(
            ErrorKind::InvalidNonce.because(
                text::two_numbers("expected nonce "@, s.nonce as nat, ", got "@, nonce as nat),
            ),
        )
    } else if s.balance < amount {
        Err(
            ErrorKind::InsufficientBalance.because(
                text::two_numbers(
                    "account has "@,
                    s.balance as nat,
                    " units, tried to send "@,
                    amount as nat,
                ),
            ),
        )
    } else if s.nonce == u64::MAX {
        Err(ErrorKind::Overflow.because("nonce overflow"@))
    } else if r.balance + amount > u64::MAX {
        Err(
            ErrorKind::Overflow.because(
                text::two_numbers(
                    "recipient balance overflow: "@,
                    r.balance as nat,
                    " + "@,
                    amount as nat,
                ),
            ),
        )
    } else {
        Ok(
            keymap::put(
                keymap::put(
                    accounts,
                    from,
                    Account { balance: (s.balance - amount) as u64, nonce: (s.nonce + 1) as u64 },
                ),
                to,
                Account { balance: (r.balance + amount) as u64, nonce: r.nonce },
            ),
        )
    }
}

impl State {
    /// Create empty state.
    pub fn new() -> (r: State)
        ensures
            r@ == empty_state(),
    {
        State { accounts: KeyMap::new(), total_supply: 0 }
    }

    /// The account at an address; an untouched one is empty.
    pub fn get_account(&self, address: &Address) -> (r: Account)
        ensures
            r == account_at(self@.accounts, address.0.0),
    {
        match self.accounts.get(&address.0.0) {
            Some(a) => *a,
            None => Account::empty(),
        }
    }

    /// Whether an account has ever been touched.
    pub fn has_account(&self, address: &Address) -> (r: bool)
        ensures
            r == keymap::holds(self@.accounts, address.0.0),
    {
        self.accounts.contains_key(&address.0.0)
    }

    /// Get total supply.
    pub fn total_supply(&self) -> (r: u64)
        ensures
            r == self@.supply,
    {
        self.total_supply
    }

    /// Set an account.
    pub fn set_account(&mut self, address: &Address, account: Account)
        ensures
            final(self)@ == (StateView {
                accounts: keymap::put(old(self)@.accounts, address.0.0, account),
                supply: old(self)@.supply,
            }),
    {
        self.accounts.insert(address.0.0, account);
    }

    /// Put back an account that was stored.
    pub fn restore_account(&mut self, address: &Address, account: Account)
        ensures
            final(self)@ == (StateView {
                accounts: keymap::put(old(self)@.accounts, address.0.0, account),
                supply: old(self)@.supply,
            }),
    {
        self.set_account(address, account);
    }

    /// Hash of one entry as a Merkle leaf.
    pub fn leaf_hash(address: &[u8; 20], account: &Account) -> (r: hash::Hash)
        ensures
            r == leaf(address@, *account),
    {
        let mut buf: Vec<u8> = Vec::new();
        bytes::push_bytes(&mut buf, address);
        bytes::push_bytes(&mut buf, &account.encode_value());
        assert(buf@ =~= address@ + account_bytes(*account));
        hash::blake3(&buf)
    }

    /// Hash of an internal node.
    pub fn node_hash(left: &hash::Hash, right: &hash::Hash) -> (r: hash::Hash)
        ensures
            r == node(*left, *right),
    {
        let mut buf: Vec<u8> = Vec::new();
        bytes::push_bytes(&mut buf, &left.0);
        bytes::push_bytes(&mut buf, &right.0);
        assert(buf@ =~= left.0@ + right.0@);
        hash::blake3(&buf)
    }

    /// The leaves of the state tree, in key order.
    pub fn leaves(&self) -> (r: Vec<hash::Hash>)
        ensures
            r@ == leaves_of(self@.accounts),
    {
        let mut out: Vec<hash::Hash> = Vec::new();
        let n = self.accounts.len();
        let mut i: usize = 0;
        while i < n
            invariant
                i <= n == self.accounts@.len(),
                out@.len() == i,
                forall|j: int|
                    0 <= j < i ==> #[trigger] out@[j] == leaves_of(self.accounts@)[j],
            decreases n - i,
        {
            out.push(Self::leaf_hash(self.accounts.key_at(i), self.accounts.value_at(i)));
            i = i + 1;
        }
        assert(out@ =~= leaves_of(self@.accounts));
        out
    }

    /// Compute the root over all accounts.
    pub fn compute_state_root(&self) -> (r: hash::Hash)
        ensures
            r == state_root(self@.accounts),
    {
        let mut level = self.leaves();
        if level.len() == 0 {
            return hash::Hash::zero();
        }
        while level.len() > 1
            invariant
                level@.len() >= 1,
                tree_root(level@) == state_root(self@.accounts),
            decreases level@.len(),
        {
            level = raise(&level);
        }
        level[0]
    }

    /// Merkle path proving an account against the state root, or nothing for
    /// an address without an account.
    pub fn merkle_proof(&self, address: &Address) -> (r: Option<MerkleProof>)
        ensures
            r is Some <==> keymap::holds(self@.accounts, address.0.0),
            r matches Some(p) ==> {
                &&& p.account == account_at(self@.accounts, address.0.0)
                &&& p.steps@ == path(
                    leaves_of(self@.accounts),
                    keymap::rank(self@.accounts, address.0.0) as int,
                )
                &&& proof_root(address.0.0@, p.account, p.steps@) == state_root(self@.accounts)
            },
    {
        let at = match self.accounts.position(&address.0.0) {
            Some(i) => i,
            None => {
                return None;
            },
        };
        let mut index: usize = at;
        let mut level = self.leaves();
        let mut steps: Vec<ProofStep> = Vec::new();
        let ghost full = path(leaves_of(self@.accounts), at as int);
        assert(steps@ + path(level@, index as int) =~= full);
        while level.len() > 1
            invariant
                index < level@.len(),
                steps@ + path(level@, index as int) == full,
            decreases level@.len(),
        {
            let even = index % 2 == 0;
            let ghost before = steps@;
            let ghost above = path(level_up(level@), index as int / 2);
            if even {
                if level.len() - index > 1 {
                    steps.push(ProofStep { hash: level[index + 1], sibling_on_right: true });
                }
            } else {
                steps.push(ProofStep { hash: level[index - 1], sibling_on_right: false });
            }
            assert(steps@ + above =~= before + path(level@, index as int));
            level = raise(&level);
            index = index / 2;
        }
        assert(steps@ =~= full);
        proof {
            proof_matches_root(self@.accounts, address.0.0);
        }
        Some(MerkleProof { account: self.get_account(address), steps })
    }

    /// Apply a transfer. A refused one changes nothing.
    pub fn apply_transaction(
        &mut self,
        sender: &Address,
        recipient: &Address,
        amount: u64,
        nonce: u64,
    ) -> (r: Result<()>)
        ensures
            match after_transfer(
                old(self)@.accounts,
                sender.0.0,
                recipient.0.0,
                amount,
                nonce,
            ) {
                Ok(accounts) => r is Ok && final(self)@ == (StateView {
                    accounts,
                    supply: old(self)@.supply,
                }),
                Err(k) => r matches Err(e) && e.fault() == k && final(self)@ == old(self)@,
            },
    {
        if amount == 0 {
            return Err(
                CoreError::InvalidTransaction("amount must be greater than zero".to_string()),
            );
        }
        if *sender == *recipient {
            return Err(
                CoreError::InvalidTransaction("sender and recipient must differ".to_string()),
            );
        }
        let from = self.get_account(sender);
        let to = self.get_account(recipient);
        if nonce != from.nonce {
            return Err(
                CoreError::InvalidNonce(
                    text::phrase2("expected nonce ", from.nonce, ", got ", nonce),
                ),
            );
        }
        if from.balance < amount {
            return Err(
                CoreError::InsufficientBalance(
                    text::phrase2("account has ", from.balance, " units, tried to send ", amount),
                ),
            );
        }
        if from.nonce == u64::MAX {
            return Err(CoreError::Overflow("nonce overflow".to_string()));
        }
        if to.balance > u64::MAX - amount {
            return Err(
                CoreError::Overflow(
                    text::phrase2("recipient balance overflow: ", to.balance, " + ", amount),
                ),
            );
        }
        self.set_account(
            sender,
            Account { balance: from.balance - amount, nonce: from.nonce + 1 },
        );
        self.set_account(
            recipient,
            Account { balance: to.balance + amount, nonce: to.nonce },
        );
        Ok(())
    }

    /// Pay the block subsidy and give its amount. A failed payment changes
    /// nothing.
    pub fn apply_subsidy(&mut self, recipient: &Address, height: u32) -> (r: Result<u64>)
        ensures
            match after_subsidy(old(self)@, recipient.0.0) {
                Ok(s) => r matches Ok(amount) && amount == subsidy_at(old(self)@.supply)
                    && final(self)@ == s,
                Err(k) => r matches Err(e) && e.fault() == k && final(self)@ == old(self)@,
            },
    {
        let subsidy = match self.block_subsidy(height) {
            Ok(s) => s,
            Err(e) => {
                return Err(e);
            },
        };
        if subsidy > 0 {
            let account = self.get_account(recipient);
            if account.balance > u64::MAX - subsidy {
                return Err(
                    CoreError::Overflow(
                        text::phrase2("coinbase overflow: ", account.balance, " + ", subsidy),
                    ),
                );
            }
            self.set_account(
                recipient,
                Account { balance: account.balance + subsidy, nonce: account.nonce },
            );
            self.total_supply = self.total_supply + subsidy;
        }
        Ok(subsidy)
    }

    /// The subsidy for a block: the reward, or what is left below the supply
    /// cap. It does not depend on the height.
    pub fn block_subsidy(&self, _height: u32) -> (r: Result<u64>)
        ensures
            r matches Ok(s) && s == subsidy_at(self@.supply),
    {
        let supply: u128 = self.total_supply as u128;
        if supply >= MAX_SUPPLY_UNITS {
            return Ok(0);
        }
        let left: u128 = MAX_SUPPLY_UNITS - supply;
        if left < BLOCK_REWARD_UNITS as u128 {
            Ok(left as u64)
        } else {
            Ok(BLOCK_REWARD_UNITS)
        }
    }
}

// ---------------------------------------------------------------------------
// Laws
// ---------------------------------------------------------------------------

proof fn lemma_total_update(s: Accounts, i: int, e: ([u8; 20], Account))
    requires
        0 <= i < s.len(),
    ensures
        total_balance(s.update(i, e)) == total_balance(s) - s[i].1.balance + e.1.balance,
    decreases s.len(),
{
    let t = s.update(i, e);
    if i < s.len() - 1 {
        assert(t.drop_last() =~= s.drop_last().update(i, e));
        lemma_total_update(s.drop_last(), i, e);
    } else {
        assert(t.drop_last() =~= s.drop_last());
    }
}

proof fn lemma_total_insert(s: Accounts, i: int, e: ([u8; 20], Account))
    requires
        0 <= i <= s.len(),
    ensures
        total_balance(s.insert(i, e)) == total_balance(s) + e.1.balance,
    decreases s.len(),
{
    let t = s.insert(i, e);
    if i < s.len() {
        assert(t.drop_last() =~= s.drop_last().insert(i, e));
        assert(t.last() == s.last());
        lemma_total_insert(s.drop_last(), i, e);
    } else {
        assert(t.drop_last() =~= s);
    }
}

/// Putting an account changes the total by the change of that account.
proof fn lemma_total_put(s: Accounts, k: [u8; 20], a: Account)
    requires
        keymap::ascending(s),
    ensures
        total_balance(keymap::put(s, k, a)) == total_balance(s) - account_at(s, k).balance
            + a.balance,
{
    reveal(keymap::put);
    reveal(keymap::value_of);
    keymap::lemma_rank(s, k);
    let r = keymap::rank(s, k) as int;
    if keymap::holds(s, k) {
        lemma_total_update(s, r, (k, a));
    } else {
        lemma_total_insert(s, r, (k, a));
    }
}

/// A transfer moves money and makes none: the balances add up to what they did
/// before, and no account but the two involved changes.
pub proof fn transfer_conserves_supply(
    accounts: Accounts,
    from: [u8; 20],
    to: [u8; 20],
    amount: u64,
    nonce: u64,
    other: [u8; 20],
)
    requires
        keymap::ascending(accounts),
        after_transfer(accounts, from, to, amount, nonce) is Ok,
    ensures
        ({
            let after = after_transfer(accounts, from, to, amount, nonce)->Ok_0;
            &&& keymap::ascending(after)
            &&& total_balance(after) == total_balance(accounts)
            &&& account_at(after, from).balance == account_at(accounts, from).balance - amount
            &&& account_at(after, from).nonce == account_at(accounts, from).nonce + 1
            &&& account_at(after, to).balance == account_at(accounts, to).balance + amount
            &&& account_at(after, to).nonce == account_at(accounts, to).nonce
            &&& other != from && other != to ==> account_at(after, other) == account_at(
                accounts,
                other,
            )
        }),
{
    let s = account_at(accounts, from);
    let r = account_at(accounts, to);
    let s1 = Account { balance: (s.balance - amount) as u64, nonce: (s.nonce + 1) as u64 };
    let r1 = Account { balance: (r.balance + amount) as u64, nonce: r.nonce };
    let mid = keymap::put(accounts, from, s1);
    lemma_total_put(accounts, from, s1);
    keymap::put_and_lookup(accounts, from, s1, to);
    keymap::put_and_lookup(accounts, from, s1, from);
    keymap::put_and_lookup(accounts, from, s1, other);
    lemma_total_put(mid, to, r1);
    keymap::put_and_lookup(mid, to, r1, to);
    keymap::put_and_lookup(mid, to, r1, from);
    keymap::put_and_lookup(mid, to, r1, other);
}

/// A transfer that went through cannot be replayed: whatever else happens to
/// the accounts without touching the sender's nonce downwards, the same nonce
/// is refused.
pub proof fn transfer_cannot_be_replayed(
    accounts: Accounts,
    from: [u8; 20],
    to: [u8; 20],
    amount: u64,
    nonce: u64,
    later: Accounts,
    amount2: u64,
    to2: [u8; 20],
)
    requires
        keymap::ascending(accounts),
        after_transfer(accounts, from, to, amount, nonce) is Ok,
        account_at(later, from).nonce >= account_at(
            after_transfer(accounts, from, to, amount, nonce)->Ok_0,
            from,
        ).nonce,
    ensures
        after_transfer(later, from, to2, amount2, nonce) is Err,
{
    transfer_conserves_supply(accounts, from, to, amount, nonce, from);
}

/// The subsidy adds to the balances exactly what it adds to the supply, and
/// never lifts the supply past its cap.
pub proof fn subsidy_respects_the_cap(s: StateView, to: [u8; 20])
    requires
        keymap::ascending(s.accounts),
        after_subsidy(s, to) is Ok,
    ensures
        ({
            let after = after_subsidy(s, to)->Ok_0;
            &&& keymap::ascending(after.accounts)
            &&& after.supply - s.supply == subsidy_at(s.supply)
            &&& total_balance(after.accounts) - total_balance(s.accounts) == subsidy_at(s.supply)
            &&& s.supply <= MAX_SUPPLY_UNITS ==> after.supply <= MAX_SUPPLY_UNITS
            &&& subsidy_at(s.supply) <= BLOCK_REWARD_UNITS
        }),
{
    let a = account_at(s.accounts, to);
    let amount = subsidy_at(s.supply);
    if amount > 0 {
        let b = Account { balance: (a.balance + amount) as u64, nonce: a.nonce };
        lemma_total_put(s.accounts, to, b);
        keymap::put_and_lookup(s.accounts, to, b, to);
    }
}

/// Where the balances add up to a supply within the cap, no payment of the
/// subsidy can fail.
pub proof fn subsidy_never_fails(s: StateView, to: [u8; 20])
    requires
        keymap::ascending(s.accounts),
        total_balance(s.accounts) == s.supply,
    ensures
        after_subsidy(s, to) is Ok,
{
    lemma_account_within_total(s.accounts, to);
}

proof fn lemma_account_within_total(s: Accounts, k: [u8; 20])
    requires
        keymap::ascending(s),
    ensures
        account_at(s, k).balance <= total_balance(s),
{
    reveal(keymap::value_of);
    keymap::lemma_rank(s, k);
    if keymap::holds(s, k) {
        lemma_entry_within_total(s, keymap::rank(s, k) as int);
    }
}

proof fn lemma_entry_within_total(s: Accounts, i: int)
    requires
        0 <= i < s.len(),
    ensures
        s[i].1.balance <= total_balance(s),
    decreases s.len(),
{
    if i < s.len() - 1 {
        lemma_entry_within_total(s.drop_last(), i);
    }
}

/// The root depends on what the accounts hold and not on the order in which
/// they came to hold it.
pub proof fn root_ignores_history(s: Accounts, t: Accounts)
    requires
        keymap::ascending(s),
        keymap::ascending(t),
        forall|k: [u8; 20]| keymap::value_of(s, k) == keymap::value_of(t, k),
    ensures
        state_root(s) == state_root(t),
{
    keymap::contents_decide_entries(s, t);
}

/// A proof for an account leads to the root that commits to it.
pub proof fn proof_matches_root(accounts: Accounts, key: [u8; 20])
    requires
        keymap::ascending(accounts),
        keymap::holds(accounts, key),
    ensures
        proof_root(
            key@,
            account_at(accounts, key),
            path(leaves_of(accounts), keymap::rank(accounts, key) as int),
        ) == state_root(accounts),
{
    reveal(keymap::value_of);
    keymap::lemma_rank(accounts, key);
    path_leads_to_root(leaves_of(accounts), keymap::rank(accounts, key) as int);
}

/// A transfer goes through exactly when it moves something to somebody else,
/// carries the sender's next nonce, and the sender has the amount; beyond that
/// only numbers that would not fit stop it. The first of these that fails is the
/// reason given.
pub proof fn transfer_goes_through_exactly_when_it_may(
    accounts: Accounts,
    from: [u8; 20],
    to: [u8; 20],
    amount: u64,
    nonce: u64,
)
    ensures
        ({
            let s = account_at(accounts, from);
            let r = account_at(accounts, to);
            let may = amount > 0 && from != to && nonce == s.nonce && amount <= s.balance;
            let fits = s.nonce < u64::MAX && r.balance + amount <= u64::MAX;
            let done = after_transfer(accounts, from, to, amount, nonce);
            &&& done is Ok <==> may && fits
            &&& done matches Err(why) ==> why.kind == if amount == 0 || from == to {
                ErrorKind::InvalidTransaction
            } else if nonce != s.nonce {
                ErrorKind::InvalidNonce
            } else if amount > s.balance {
                ErrorKind::InsufficientBalance
            } else {
                ErrorKind::Overflow
            }
        }),
{
}

/// A block mints the reward, or what is left below the cap: supply and subsidy
/// together never pass the cap, the subsidy is never more than the reward, and
/// it is less only where it reaches the cap or the supply is there already.
pub proof fn subsidy_is_the_reward_up_to_the_cap(supply: u64)
    ensures
        subsidy_at(supply) <= BLOCK_REWARD_UNITS,
        supply <= MAX_SUPPLY_UNITS ==> supply + subsidy_at(supply) <= MAX_SUPPLY_UNITS,
        supply >= MAX_SUPPLY_UNITS ==> subsidy_at(supply) == 0,
        subsidy_at(supply) < BLOCK_REWARD_UNITS ==> supply + subsidy_at(supply)
            >= MAX_SUPPLY_UNITS,
{
}

/// The subsidy goes to the account it is paid to and to no other, which keeps
/// its nonce; it fails only where the balance would not fit.
pub proof fn subsidy_is_paid_to_the_miner(s: StateView, to: [u8; 20], other: [u8; 20])
    requires
        keymap::ascending(s.accounts),
    ensures
        ({
            let amount = subsidy_at(s.supply);
            let a = account_at(s.accounts, to);
            &&& after_subsidy(s, to) is Ok <==> amount == 0 || a.balance + amount <= u64::MAX
            &&& after_subsidy(s, to) matches Ok(after) ==> {
                &&& keymap::ascending(after.accounts)
                &&& after.supply == s.supply + amount
                &&& account_at(after.accounts, to).balance == a.balance + amount
                &&& account_at(after.accounts, to).nonce == a.nonce
                &&& other != to ==> keymap::value_of(after.accounts, other) == keymap::value_of(
                    s.accounts,
                    other,
                )
            }
        }),
{
    let a = account_at(s.accounts, to);
    let amount = subsidy_at(s.supply);
    let b = Account { balance: (a.balance + amount) as u64, nonce: a.nonce };
    keymap::put_and_lookup(s.accounts, to, b, to);
    keymap::put_and_lookup(s.accounts, to, b, other);
}

/// A leaf is the digest of address, balance and nonce, and a node that of its
/// two children, left before right.
pub proof fn tree_is_made_of_digests(
    key: Seq<u8>,
    a: Account,
    left: hash::Hash,
    right: hash::Hash,
)
    ensures
        leaf(key, a).0 == hash::spec_blake3(
            key + bytes::le_bytes(a.balance as nat, 8) + bytes::le_bytes(a.nonce as nat, 8),
        ),
        node(left, right).0 == hash::spec_blake3(left.0@ + right.0@),
{
    assert(key + account_bytes(a) =~= key + bytes::le_bytes(a.balance as nat, 8)
        + bytes::le_bytes(a.nonce as nat, 8));
}

/// The root over no leaves is zero and over one leaf that leaf. Over more it is
/// the root over the level above, which holds the node of every pair of
/// neighbours in order, and a last leaf without a neighbour unchanged.
pub proof fn root_is_built_pair_by_pair(level: Seq<hash::Hash>, up: Seq<hash::Hash>)
    requires
        up.len() == (level.len() + 1) / 2,
        forall|i: int|
            0 <= i < up.len() ==> (#[trigger] up[i]) == if 2 * i + 1 < level.len() {
                hash::Hash(hash::spec_blake3(level[2 * i].0@ + level[2 * i + 1].0@))
            } else {
                level[2 * i]
            },
    ensures
        level.len() == 0 ==> tree_root(level).0@ == bytes::zeros(32),
        level.len() == 1 ==> tree_root(level) == level[0],
        level.len() > 1 ==> tree_root(level) == tree_root(up),
{
    hash::lemma_zero_hash();
    assert forall|i: int| 0 <= i < up.len() implies (#[trigger] up[i]) == level_up(level)[i] by {
        if 2 * i + 1 < level.len() {
            tree_is_made_of_digests(Seq::empty(), empty_account(), level[2 * i], level[2 * i + 1]);
            bytes::lemma_array_equal(up[i].0, level_up(level)[i].0);
        }
    }
    assert(up =~= level_up(level));
}

/// The state root is the root over one leaf per account, in key order.
pub proof fn state_root_covers_every_account(accounts: Accounts, leaves: Seq<hash::Hash>)
    requires
        leaves.len() == accounts.len(),
        forall|i: int|
            0 <= i < leaves.len() ==> (#[trigger] leaves[i]) == leaf(
                accounts[i].0@,
                accounts[i].1,
            ),
    ensures
        state_root(accounts) == tree_root(leaves),
{
    assert(leaves =~= leaves_of(accounts));
}

proof fn lemma_node_binds(a: hash::Hash, b: hash::Hash, c: hash::Hash, d: hash::Hash)
    requires
        node(a, b) == node(c, d),
    ensures
        (a == c && b == d) || schnorr::digests_collide(),
{
    let x = a.0@ + b.0@;
    let y = c.0@ + d.0@;
    if x == y {
        bytes::lemma_split_equal(a.0@, b.0@, c.0@, d.0@);
        bytes::lemma_array_equal(a.0, c.0);
        bytes::lemma_array_equal(b.0, d.0);
    } else {
        assert(x != y && hash::spec_blake3(x) == hash::spec_blake3(y));
    }
}

proof fn lemma_leaf_binds(k: [u8; 20], a: Account, l: [u8; 20], b: Account)
    requires
        leaf(k@, a) == leaf(l@, b),
    ensures
        (k == l && a == b) || schnorr::digests_collide(),
{
    let x = k@ + account_bytes(a);
    let y = l@ + account_bytes(b);
    if x == y {
        bytes::lemma_le_bytes_len(a.balance as nat, 8);
        bytes::lemma_le_bytes_len(b.balance as nat, 8);
        bytes::lemma_le_bytes_len(a.nonce as nat, 8);
        bytes::lemma_le_bytes_len(b.nonce as nat, 8);
        bytes::lemma_split_equal(k@, account_bytes(a), l@, account_bytes(b));
        bytes::lemma_array_equal(k, l);
        account_bytes_injective(a, b);
    } else {
        assert(x != y && hash::spec_blake3(x) == hash::spec_blake3(y));
    }
}

proof fn lemma_root_binds(x: Seq<hash::Hash>, y: Seq<hash::Hash>)
    requires
        x.len() == y.len(),
        tree_root(x) == tree_root(y),
        !schnorr::digests_collide(),
    ensures
        x == y,
    decreases x.len(),
{
    if x.len() > 1 {
        let p = level_up(x);
        let q = level_up(y);
        lemma_root_binds(p, q);
        assert forall|i: int| 0 <= i < x.len() implies x[i] == y[i] by {
            let j = i / 2;
            assert(p[j] == q[j]);
            if 2 * j + 1 < x.len() {
                lemma_node_binds(x[2 * j], x[2 * j + 1], y[2 * j], y[2 * j + 1]);
            }
            if i % 2 == 0 {
                assert(2 * j == i);
            } else {
                assert(2 * j + 1 == i);
            }
        }
    }
    assert(x =~= y);
}

/// The state root tells states apart: as many accounts under one root are the
/// same accounts, unless BLAKE3 gives two different inputs one digest.
pub proof fn changed_accounts_change_the_root(a: Accounts, b: Accounts)
    requires
        a.len() == b.len(),
        state_root(a) == state_root(b),
    ensures
        a == b || schnorr::digests_collide(),
{
    if !schnorr::digests_collide() {
        lemma_root_binds(leaves_of(a), leaves_of(b));
        assert forall|i: int| 0 <= i < a.len() implies a[i] == b[i] by {
            assert(leaves_of(a)[i] == leaves_of(b)[i]);
            lemma_leaf_binds(a[i].0, a[i].1, b[i].0, b[i].1);
        }
        assert(a =~= b);
    }
}

/// A proof joins its siblings one after the other, each on the side it names.
pub proof fn proof_climbs_step_by_step(start: hash::Hash, first: ProofStep, rest: Seq<ProofStep>)
    ensures
        climb(start, Seq::empty()) == start,
        climb(start, seq![first] + rest) == climb(
            hash::Hash(
                hash::spec_blake3(
                    if first.sibling_on_right {
                        start.0@ + first.hash.0@
                    } else {
                        first.hash.0@ + start.0@
                    },
                ),
            ),
            rest,
        ),
{
    let steps = seq![first] + rest;
    assert(steps.subrange(1, steps.len() as int) =~= rest);
}

proof fn lemma_climb_binds(a: hash::Hash, b: hash::Hash, steps: Seq<ProofStep>)
    requires
        climb(a, steps) == climb(b, steps),
        !schnorr::digests_collide(),
    ensures
        a == b,
    decreases steps.len(),
{
    if steps.len() > 0 {
        let s = steps[0];
        let rest = steps.subrange(1, steps.len() as int);
        if s.sibling_on_right {
            lemma_climb_binds(node(a, s.hash), node(b, s.hash), rest);
            lemma_node_binds(a, s.hash, b, s.hash);
        } else {
            lemma_climb_binds(node(s.hash, a), node(s.hash, b), rest);
            lemma_node_binds(s.hash, a, s.hash, b);
        }
    }
}

/// The siblings of one proof prove one account of one address only, unless
/// BLAKE3 gives two different inputs one digest.
pub proof fn proof_proves_one_account(
    k: [u8; 20],
    a: Account,
    l: [u8; 20],
    b: Account,
    steps: Seq<ProofStep>,
)
    requires
        proof_root(k@, a, steps) == proof_root(l@, b, steps),
    ensures
        (k == l && a == b) || schnorr::digests_collide(),
{
    if !schnorr::digests_collide() {
        lemma_climb_binds(leaf(k@, a), leaf(l@, b), steps);
        lemma_leaf_binds(k, a, l, b);
    }
}

} // verus!
