//! Accounts, transfers, the subsidy and Merkle proofs.

use chroma::constants::{BLOCK_REWARD_UNITS, MAX_SUPPLY_UNITS};
use chroma::error::CoreError;
use chroma::hash;
use chroma::state::{Account, State};
use chroma::types::Address;

fn alice() -> Address {
    let mut h = [0u8; 20];
    h[0] = 0xAA;
    Address::from_hash160(chroma::hash::Hash160(h))
}

fn bob() -> Address {
    let mut h = [0u8; 20];
    h[0] = 0xBB;
    Address::from_hash160(chroma::hash::Hash160(h))
}

/// Distinct addresses for Merkle tree tests.
fn test_address(n: u8) -> Address {
    let mut h = [0u8; 20];
    h[0] = n;
    h[1] = n.wrapping_mul(31);
    Address::from_hash160(chroma::hash::Hash160(h))
}

fn fund_account(state: &mut State, addr: &Address, amount: u64) {
    let mut acc = state.get_account(addr);
    acc.balance = amount;
    state.set_account(addr, acc);
    state.total_supply = state.total_supply.saturating_add(amount);
}

#[test]
fn test_empty_state() {
    let state = State::new();
    let alice_addr = alice();
    assert_eq!(state.get_account(&alice_addr).balance, 0);
    assert_eq!(state.get_account(&alice_addr).nonce, 0);
    assert_eq!(state.total_supply(), 0);
}

#[test]
fn test_apply_transaction_basic() {
    let mut state = State::new();
    let alice_addr = alice();
    let bob_addr = bob();
    fund_account(&mut state, &alice_addr, 10_000_000);

    state
        .apply_transaction(&alice_addr, &bob_addr, 1_000_000, 0)
        .unwrap();

    assert_eq!(state.get_account(&alice_addr).balance, 9_000_000);
    assert_eq!(state.get_account(&alice_addr).nonce, 1);
    assert_eq!(state.get_account(&bob_addr).balance, 1_000_000);
}

#[test]
fn test_supply_conservation() {
    let mut state = State::new();
    let alice_addr = alice();
    let bob_addr = bob();
    fund_account(&mut state, &alice_addr, 10_000_000);
    let supply_before = state.total_supply();

    state
        .apply_transaction(&alice_addr, &bob_addr, 3_333_333, 0)
        .unwrap();

    assert_eq!(state.total_supply(), supply_before, "supply must be conserved");
}

#[test]
fn lib_test_zero_amount_rejected() {
    let mut state = State::new();
    let alice_addr = alice();
    let bob_addr = bob();
    fund_account(&mut state, &alice_addr, 10_000_000);

    let err = state
        .apply_transaction(&alice_addr, &bob_addr, 0, 0)
        .unwrap_err();
    assert!(matches!(err, CoreError::InvalidTransaction(_)));
}

#[test]
fn test_insufficient_balance() {
    let mut state = State::new();
    let alice_addr = alice();
    let bob_addr = bob();
    fund_account(&mut state, &alice_addr, 100);

    let err = state
        .apply_transaction(&alice_addr, &bob_addr, 101, 0)
        .unwrap_err();
    assert!(matches!(err, CoreError::InsufficientBalance(_)));
}

#[test]
fn test_nonce_mismatch() {
    let mut state = State::new();
    let alice_addr = alice();
    let bob_addr = bob();
    fund_account(&mut state, &alice_addr, 10_000_000);

    let err = state
        .apply_transaction(&alice_addr, &bob_addr, 1_000_000, 5)
        .unwrap_err();
    assert!(matches!(err, CoreError::InvalidNonce(_)));
}

#[test]
fn test_nonce_must_increment() {
    let mut state = State::new();
    let alice_addr = alice();
    let bob_addr = bob();
    fund_account(&mut state, &alice_addr, 10_000_000);

    state
        .apply_transaction(&alice_addr, &bob_addr, 1_000_000, 0)
        .unwrap();

    // Replay with nonce=0 must fail
    let err = state
        .apply_transaction(&alice_addr, &bob_addr, 1_000_000, 0)
        .unwrap_err();
    assert!(matches!(err, CoreError::InvalidNonce(_)));

    // Must use nonce=1 now
    state
        .apply_transaction(&alice_addr, &bob_addr, 1_000_000, 1)
        .unwrap();
    assert_eq!(state.get_account(&alice_addr).nonce, 2);
}

#[test]
fn lib_test_self_send_rejected() {
    let mut state = State::new();
    let alice_addr = alice();
    fund_account(&mut state, &alice_addr, 10_000_000);

    let err = state
        .apply_transaction(&alice_addr, &alice_addr, 1_000_000, 0)
        .unwrap_err();
    assert!(matches!(err, CoreError::InvalidTransaction(_)));
}

#[test]
fn test_block_subsidy_normal() {
    let state = State::new();
    let subsidy = state.block_subsidy(0).unwrap();
    assert_eq!(subsidy, BLOCK_REWARD_UNITS);
}

#[test]
fn test_block_subsidy_at_cap() {
    let mut state = State::new();
    state.total_supply = MAX_SUPPLY_UNITS as u64;
    let subsidy = state.block_subsidy(0).unwrap();
    assert_eq!(subsidy, 0);
}

#[test]
fn test_block_subsidy_near_cap() {
    let mut state = State::new();
    state.total_supply = (MAX_SUPPLY_UNITS - 500_000) as u64;
    let subsidy = state.block_subsidy(0).unwrap();
    assert_eq!(subsidy, 500_000);
}

#[test]
fn test_empty_state_root_is_zero() {
    // The empty root is 32 zero bytes. Genesis declares a zero
    // state root, so an empty state must agree with it.
    let state = State::new();
    assert_eq!(state.compute_state_root(), hash::Hash::zero());
}

#[test]
fn test_single_account_root_is_its_leaf() {
    let mut state = State::new();
    let addr = test_address(1);
    state.set_account(&addr, Account::new(500, 0));

    let expected = State::leaf_hash(addr.as_hash160().as_bytes(), &Account::new(500, 0));
    assert_eq!(state.compute_state_root(), expected);
}

#[test]
fn test_root_changes_with_any_field() {
    let mut state = State::new();
    state.set_account(&test_address(1), Account::new(100, 0));
    let base = state.compute_state_root();

    let mut balance_changed = state.clone();
    balance_changed.set_account(&test_address(1), Account::new(101, 0));
    assert_ne!(balance_changed.compute_state_root(), base);

    let mut nonce_changed = state.clone();
    nonce_changed.set_account(&test_address(1), Account::new(100, 1));
    assert_ne!(nonce_changed.compute_state_root(), base);

    let mut key_added = state.clone();
    key_added.set_account(&test_address(2), Account::new(0, 0));
    assert_ne!(key_added.compute_state_root(), base);
}

#[test]
fn test_root_is_independent_of_insertion_order() {
    let mut forwards = State::new();
    let mut backwards = State::new();
    for i in 0..7u8 {
        forwards.set_account(&test_address(i), Account::new(i as u64 * 10, i as u64));
    }
    for i in (0..7u8).rev() {
        backwards.set_account(&test_address(i), Account::new(i as u64 * 10, i as u64));
    }
    assert_eq!(forwards.compute_state_root(), backwards.compute_state_root());
}

#[test]
fn test_merkle_proof_verifies_for_every_account() {
    // Odd counts exercise the promoted-node path at several levels.
    for count in 1..=9u8 {
        let mut state = State::new();
        for i in 0..count {
            state.set_account(&test_address(i), Account::new(i as u64 * 7 + 1, i as u64));
        }
        let root = state.compute_state_root();

        for i in 0..count {
            let addr = test_address(i);
            let proof = state
                .merkle_proof(&addr)
                .unwrap_or_else(|| panic!("no proof for account {} of {}", i, count));
            assert!(
                proof.verify(&addr, &root),
                "proof failed for account {} in a tree of {}",
                i,
                count
            );
        }
    }
}

#[test]
fn test_merkle_proof_rejects_wrong_account_data() {
    let mut state = State::new();
    for i in 0..5u8 {
        state.set_account(&test_address(i), Account::new(i as u64 * 3, 0));
    }
    let root = state.compute_state_root();
    let addr = test_address(2);

    let mut tampered = state.merkle_proof(&addr).unwrap();
    tampered.account.balance += 1;
    assert!(
        !tampered.verify(&addr, &root),
        "a proof carrying the wrong balance must not verify"
    );

    // A proof for one account must not verify for another.
    let other = state.merkle_proof(&test_address(3)).unwrap();
    assert!(!other.verify(&addr, &root));
}

#[test]
fn test_merkle_proof_absent_account() {
    let mut state = State::new();
    state.set_account(&test_address(1), Account::new(10, 0));
    assert!(state.merkle_proof(&test_address(9)).is_none());
}

#[test]
fn test_proof_length_is_logarithmic() {
    let mut state = State::new();
    for i in 0..16u8 {
        state.set_account(&test_address(i), Account::new(i as u64, 0));
    }
    let proof = state.merkle_proof(&test_address(0)).unwrap();
    assert_eq!(proof.steps.len(), 4, "16 leaves should need log2(16) siblings");
}

#[test]
fn lib_test_state_root_deterministic() {
    let mut state = State::new();
    let alice_addr = alice();
    let bob_addr = bob();
    fund_account(&mut state, &alice_addr, 10_000_000);

    let root1 = state.compute_state_root();
    state
        .apply_transaction(&alice_addr, &bob_addr, 1_000_000, 0)
        .unwrap();
    let root2 = state.compute_state_root();

    assert_ne!(root1, root2, "state root must change after transaction");
}

#[test]
fn test_state_root_ordering() {
    // State root must be deterministic regardless of insertion order
    let mut state1 = State::new();
    let mut state2 = State::new();
    let alice_addr = alice();
    let bob_addr = bob();

    fund_account(&mut state1, &alice_addr, 10_000_000);
    fund_account(&mut state1, &bob_addr, 5_000_000);

    fund_account(&mut state2, &bob_addr, 5_000_000);
    fund_account(&mut state2, &alice_addr, 10_000_000);

    assert_eq!(
        state1.compute_state_root(),
        state2.compute_state_root(),
        "state root is order-independent (BTreeMap)"
    );
}

#[test]
fn test_apply_multiple_transactions_sequential_nonces() {
    let mut state = State::new();
    let alice_addr = alice();
    let bob_addr = bob();
    fund_account(&mut state, &alice_addr, 10_000_000);

    for i in 0..5u64 {
        state.apply_transaction(&alice_addr, &bob_addr, 100_000, i).unwrap();
    }

    assert_eq!(state.get_account(&alice_addr).balance, 10_000_000 - 500_000);
    assert_eq!(state.get_account(&bob_addr).balance, 500_000);
    assert_eq!(state.get_account(&alice_addr).nonce, 5);
}

#[test]
fn test_nonce_gap_rejected() {
    let mut state = State::new();
    let alice_addr = alice();
    let bob_addr = bob();
    fund_account(&mut state, &alice_addr, 10_000_000);

    // Skip nonce 0, try nonce 1
    let err = state.apply_transaction(&alice_addr, &bob_addr, 100_000, 1).unwrap_err();
    assert!(matches!(err, CoreError::InvalidNonce(_)));
}

#[test]
fn test_double_nonce_rejected() {
    let mut state = State::new();
    let alice_addr = alice();
    let bob_addr = bob();
    fund_account(&mut state, &alice_addr, 10_000_000);

    state.apply_transaction(&alice_addr, &bob_addr, 100_000, 0).unwrap();
    let err = state.apply_transaction(&alice_addr, &bob_addr, 100_000, 0).unwrap_err();
    assert!(matches!(err, CoreError::InvalidNonce(_)));
}

#[test]
fn test_exact_balance_transfer() {
    let mut state = State::new();
    let alice_addr = alice();
    let bob_addr = bob();
    fund_account(&mut state, &alice_addr, 1_000_000);

    state.apply_transaction(&alice_addr, &bob_addr, 1_000_000, 0).unwrap();

    assert_eq!(state.get_account(&alice_addr).balance, 0);
    assert_eq!(state.get_account(&bob_addr).balance, 1_000_000);
    assert_eq!(state.get_account(&alice_addr).nonce, 1);
}

#[test]
fn test_subsidy_at_various_heights() {
    let state = State::new();
    // Subsidy should be constant regardless of height (until cap)
    for h in [0, 1, 100, 999999, u32::MAX] {
        assert_eq!(state.block_subsidy(h).unwrap(), BLOCK_REWARD_UNITS, "height {}", h);
    }
}

#[test]
fn test_supply_cannot_exceed_max() {
    let mut state = State::new();
    state.total_supply = MAX_SUPPLY_UNITS as u64;
    let subsidy = state.block_subsidy(0).unwrap();
    assert_eq!(subsidy, 0, "no subsidy when at max supply");
}

#[test]
fn test_zero_account_is_default() {
    let state = State::new();
    let addr = alice();
    let acc = state.get_account(&addr);
    assert_eq!(acc.balance, 0);
    assert_eq!(acc.nonce, 0);
}

#[test]
fn test_fund_does_not_double_count_supply() {
    let mut state = State::new();
    let alice_addr = alice();
    fund_account(&mut state, &alice_addr, 500_000);
    assert_eq!(state.total_supply(), 500_000);
    fund_account(&mut state, &alice_addr, 500_000);
    assert_eq!(state.total_supply(), 1_000_000);
}

#[test]
fn test_many_accounts_state_root() {
    let mut state = State::new();
    for i in 0..100u8 {
        let mut h = [0u8; 20];
        h[0] = i;
        let addr = Address::from_hash160(chroma::hash::Hash160(h));
        fund_account(&mut state, &addr, 1_000_000);
    }
    let root = state.compute_state_root();
    assert_ne!(root, hash::Hash::zero());
    // Same state → same root
    assert_eq!(root, state.compute_state_root());
}

#[test]
fn test_apply_subsidy_increases_total_supply() {
    let mut state = State::new();
    let alice_addr = alice();
    state.apply_subsidy(&alice_addr, 0).unwrap();
    assert_eq!(state.total_supply(), BLOCK_REWARD_UNITS);
    state.apply_subsidy(&alice_addr, 1).unwrap();
    assert_eq!(state.total_supply(), BLOCK_REWARD_UNITS * 2);
}

#[test]
fn test_apply_subsidy_creates_account() {
    let mut state = State::new();
    let alice_addr = alice();
    state.apply_subsidy(&alice_addr, 0).unwrap();
    assert_eq!(state.get_account(&alice_addr).balance, BLOCK_REWARD_UNITS);
}
