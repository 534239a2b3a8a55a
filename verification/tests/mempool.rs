//! The pool of pending transactions.

use chroma::constants::MAX_MEMPOOL_TXS;
use chroma::crypto::hash::hash160;
use chroma::crypto::schnorr::{PublicKey32, SecretKey32};
use chroma::hash;
use chroma::hash::Hash160;
use chroma::p2p::address::AddressGroup;
use chroma::p2p::mempool::{Admission, Mempool, Rejection, EXPIRY_SECS, QUOTA_PER_SOURCE};
use chroma::p2p::peer::{MAX_INBOUND_PEERS, MAX_OUTBOUND_PEERS};
use chroma::serialize::CanonicalEncode;
use chroma::state::{Account, State};
use chroma::tx::Transaction;
use chroma::types::{Address, Amount, Nonce};

fn account_of(seed: u8) -> (SecretKey32, Address) {
    let secret = SecretKey32::from_bytes([seed; 32]).unwrap();
    let pubkey = PublicKey32::from_secret(&secret).unwrap();
    (secret, Address::from_hash160(Hash160(hash160(&pubkey.0))))
}

fn funded(seed: u8, balance: u64) -> (SecretKey32, Address, State) {
    let (secret, address) = account_of(seed);
    let mut state = State::new();
    state.restore_account(&address, Account::new(balance, 0));
    (secret, address, state)
}

fn tx_from(secret: &SecretKey32, from: Address, amount: u64, nonce: u64) -> Transaction {
    let to = Address::from_hash160(Hash160([0x99; 20]));
    chroma::tx::create_transaction(secret, from, to, Amount(amount), Nonce(nonce)).unwrap()
}

fn group(n: u8) -> AddressGroup {
    AddressGroup::V4([203, 0, n])
}

#[test]
fn test_empty_mempool() {
    let pool = Mempool::new();
    assert!(pool.is_empty());
    assert_eq!(pool.len(), 0);
    assert_eq!(pool.size(), 0);
}

#[test]
fn test_has_nonexistent() {
    let pool = Mempool::new();
    assert!(!pool.has_transaction(&hash::Hash::blake3(b"nope")));
    assert!(pool.get_transaction(&hash::Hash::blake3(b"nope")).is_none());
}

#[test]
fn test_remove_nonexistent() {
    let mut pool = Mempool::new();
    assert!(!pool.remove_transaction(&hash::Hash::blake3(b"nope")));
}

#[test]
fn test_clear_empty() {
    let mut pool = Mempool::new();
    pool.clear();
    assert!(pool.is_empty());
}

#[test]
fn test_transaction_hashes_empty() {
    let pool = Mempool::new();
    assert!(pool.transaction_hashes().is_empty());
}

#[test]
fn test_transactions_empty() {
    let pool = Mempool::new();
    assert!(pool.transactions().is_empty());
}

#[test]
fn test_remove_transactions_empty() {
    let mut pool = Mempool::new();
    pool.remove_transactions(&[]);
    assert!(pool.is_empty());
}

#[test]
fn a_funded_sender_is_accepted() {
    let (secret, sender, state) = funded(0x11, 1_000);
    let mut pool = Mempool::new();
    let tx = tx_from(&secret, sender, 100, 0);
    assert_eq!(
        pool.add_transaction(tx, group(1), &state, 0),
        Ok(Admission::Accepted)
    );
    assert_eq!(pool.len(), 1);
    assert_eq!(pool.held_by(group(1)), 1);
}

#[test]
fn an_empty_account_is_refused_before_its_signature_is_checked() {
    // The whole point of the check order. This transaction carries a
    // signature that cannot verify; if the signature were checked first
    // the answer would be BadSignature, and every flood of garbage from
    // accounts with nothing in them would cost a verification each.
    let (secret, sender) = account_of(0x12);
    let state = State::new();
    let mut pool = Mempool::new();
    let mut tx = tx_from(&secret, sender, 100, 0);
    tx.signature.0[0] ^= 0xFF;

    assert_eq!(
        pool.add_transaction(tx, group(1), &state, 0),
        Err(Rejection::UnfundedSender)
    );
}

#[test]
fn a_bad_signature_from_a_funded_account_is_still_refused() {
    let (secret, sender, state) = funded(0x13, 1_000);
    let mut pool = Mempool::new();
    let mut tx = tx_from(&secret, sender, 100, 0);
    tx.signature.0[0] ^= 0xFF;

    assert_eq!(
        pool.add_transaction(tx, group(1), &state, 0),
        Err(Rejection::BadSignature)
    );
    assert!(pool.is_empty());
}

#[test]
fn a_second_transaction_from_one_sender_is_judged_against_the_first() {
    // Against committed state the second would look like a repeated nonce
    // and be refused, because the first has not been mined.
    let (secret, sender, state) = funded(0x14, 1_000);
    let mut pool = Mempool::new();

    pool.add_transaction(tx_from(&secret, sender, 100, 0), group(1), &state, 0)
        .unwrap();
    assert_eq!(pool.effective_nonce(&state, &sender), 1);
    assert_eq!(pool.effective_balance(&state, &sender), 900);

    assert_eq!(
        pool.add_transaction(tx_from(&secret, sender, 100, 1), group(1), &state, 0),
        Ok(Admission::Accepted)
    );
}

#[test]
fn pending_spending_cannot_exceed_the_balance() {
    let (secret, sender, state) = funded(0x15, 1_000);
    let mut pool = Mempool::new();

    pool.add_transaction(tx_from(&secret, sender, 900, 0), group(1), &state, 0)
        .unwrap();
    assert_eq!(
        pool.add_transaction(tx_from(&secret, sender, 200, 1), group(1), &state, 0),
        Err(Rejection::InsufficientBalance),
        "committed balance covers it; what is already pending does not"
    );
}

#[test]
fn a_nonce_gap_is_not_queued() {
    let (secret, sender, state) = funded(0x16, 1_000);
    let mut pool = Mempool::new();
    assert_eq!(
        pool.add_transaction(tx_from(&secret, sender, 100, 5), group(1), &state, 0),
        Err(Rejection::NonceTooHigh)
    );
}

#[test]
fn resending_is_not_an_error() {
    let (secret, sender, state) = funded(0x17, 1_000);
    let mut pool = Mempool::new();
    let tx = tx_from(&secret, sender, 100, 0);
    pool.add_transaction(tx.clone(), group(1), &state, 0).unwrap();
    assert_eq!(
        pool.add_transaction(tx, group(1), &state, 0),
        Ok(Admission::Duplicate)
    );
    assert_eq!(pool.len(), 1);
}

#[test]
fn a_coinbase_never_enters_the_pool() {
    let state = State::new();
    let mut pool = Mempool::new();
    let coinbase =
        Transaction::coinbase(Address::from_hash160(Hash160([1; 20])), Amount(1_000_000));
    assert_eq!(
        pool.add_transaction(coinbase, group(1), &state, 0),
        Err(Rejection::Coinbase)
    );
}

#[test]
fn removing_an_entry_gives_back_its_sender_and_source_totals() {
    let (secret, sender, state) = funded(0x18, 1_000);
    let mut pool = Mempool::new();
    let tx = tx_from(&secret, sender, 100, 0);
    let hash = hash::Hash::blake3(&tx.encode());
    pool.add_transaction(tx, group(1), &state, 0).unwrap();

    assert!(pool.remove_transaction(&hash));
    assert_eq!(pool.held_by(group(1)), 0);
    assert_eq!(pool.effective_nonce(&state, &sender), 0);
    assert_eq!(pool.effective_balance(&state, &sender), 1_000);
}

#[test]
fn one_source_cannot_take_more_than_its_quota() {
    // However many accounts it sends from. Two here, so the result cannot
    // be mistaken for a per-account limit.
    let (first_secret, first) = account_of(0x21);
    let (second_secret, second) = account_of(0x22);
    let mut state = State::new();
    state.restore_account(&first, Account::new(1_000_000_000, 0));
    state.restore_account(&second, Account::new(1_000_000_000, 0));

    let mut pool = Mempool::new();
    let mut accepted = 0usize;
    for n in 0..QUOTA_PER_SOURCE as u64 {
        let (secret, sender) = if n % 2 == 0 {
            (&first_secret, first)
        } else {
            (&second_secret, second)
        };
        let tx = tx_from(secret, sender, 1, n / 2);
        match pool.add_transaction(tx, group(1), &state, 0) {
            Ok(Admission::Accepted) => accepted += 1,
            other => panic!("rejected at {}: {:?}", n, other),
        }
    }
    assert_eq!(accepted, QUOTA_PER_SOURCE);

    let overflow = tx_from(&first_secret, first, 1, QUOTA_PER_SOURCE as u64 / 2);
    assert_eq!(
        pool.add_transaction(overflow, group(1), &state, 0),
        Err(Rejection::SourceQuotaFull)
    );
}

#[test]
fn a_different_source_still_has_room() {
    let (secret, sender, state) = funded(0x23, 1_000_000);
    let mut pool = Mempool::new();
    for n in 0..3u64 {
        pool.add_transaction(tx_from(&secret, sender, 1, n), group(1), &state, 0)
            .unwrap();
    }
    let (other_secret, other) = account_of(0x24);
    let mut state = state;
    state.restore_account(&other, Account::new(1_000, 0));

    assert_eq!(
        pool.add_transaction(tx_from(&other_secret, other, 1, 0), group(2), &state, 0),
        Ok(Admission::Accepted)
    );
    assert_eq!(pool.held_by(group(1)), 3);
    assert_eq!(pool.held_by(group(2)), 1);
}

#[test]
fn stale_entries_are_dropped() {
    let (secret, sender, state) = funded(0x25, 1_000);
    let mut pool = Mempool::new();
    pool.add_transaction(tx_from(&secret, sender, 100, 0), group(1), &state, 100)
        .unwrap();

    assert_eq!(pool.expire(100 + EXPIRY_SECS), 0, "not yet stale");
    assert_eq!(pool.expire(100 + EXPIRY_SECS + 1), 1);
    assert!(pool.is_empty());
    assert_eq!(pool.held_by(group(1)), 0);
}

#[test]
fn the_quota_is_a_share_of_the_pool() {
    let sources = MAX_INBOUND_PEERS + MAX_OUTBOUND_PEERS;
    assert!(
        QUOTA_PER_SOURCE * sources <= MAX_MEMPOOL_TXS,
        "every source at its quota must still fit in the pool"
    );
    assert!(
        QUOTA_PER_SOURCE * sources > MAX_MEMPOOL_TXS - sources,
        "and should not be wasteful about it"
    );

    // What an attacker holding every inbound slot can reach. The outbound
    // slots are ones we dialled, so they are not theirs to take.
    let reachable = QUOTA_PER_SOURCE * MAX_INBOUND_PEERS;
    assert!(
        reachable < MAX_MEMPOOL_TXS * 3 / 4,
        "taking every inbound slot should not come close to the whole pool"
    );
}
