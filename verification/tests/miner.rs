//! Assembling and mining blocks.

use chroma::consensus::genesis::build_genesis_block;
use chroma::consensus::miner::{
    assemble_block, mine_block_with_limit, next_block_timestamp, timestamp_is_valid,
    BlockAssemblyContext,
};
use chroma::constants::{BLOCK_REWARD_UNITS, MAX_FUTURE_TIMESTAMP_OFFSET};
use chroma::hash;
use chroma::hash::Hash160;
use chroma::state::State;
use chroma::types::{Address, Amount, BlockHeight, CompactTarget, Nonce};

fn test_address() -> Address {
    let mut h = [0u8; 20];
    h[0] = 0xAA;
    Address::from_hash160(Hash160(h))
}

fn easy_bits() -> CompactTarget {
    CompactTarget(0x1f00ffff)
}

#[test]
fn test_next_block_timestamp_stays_within_the_future_bound() {

    // Blocks arriving faster than the target must not push the stamp past
    // what validation accepts.
    let now = 1_800_000_000u64;
    for mtp in [0u64, now - 100, now - 1, now, now + 5] {
        let ts = next_block_timestamp(now, mtp);
        assert!(ts > mtp, "timestamp {} must be past MTP {}", ts, mtp);
        assert!(
            ts <= now + MAX_FUTURE_TIMESTAMP_OFFSET as u64,
            "timestamp {} is too far ahead of now {}",
            ts,
            now
        );
        assert!(timestamp_is_valid(ts, now, mtp));
    }
}

#[test]
fn test_timestamp_validity_matches_the_consensus_bounds() {
    let now = 1_800_000_000u64;
    let mtp = now - 50;
    assert!(timestamp_is_valid(now, now, mtp));
    assert!(timestamp_is_valid(mtp + 1, now, mtp));
    assert!(!timestamp_is_valid(mtp, now, mtp), "must be strictly after MTP");
    assert!(timestamp_is_valid(now + 20, now, mtp), "20s ahead is allowed");
    assert!(!timestamp_is_valid(now + 21, now, mtp), "21s ahead is not");
}

#[test]
fn test_assemble_block_empty_mempool() {
    let genesis = build_genesis_block();
    let genesis_hash = genesis.hash();

    let ctx = BlockAssemblyContext {
        height: BlockHeight(1),
        previous_hash: genesis_hash,
        timestamp: genesis.header.timestamp + 10,
        bits: CompactTarget(0x1d00ffff),
        coinbase_recipient: test_address(),
    };

    let block = assemble_block(&ctx, &[], &State::new()).unwrap();
    assert_eq!(block.header.height, BlockHeight(1));
    assert_eq!(block.header.previous_hash, genesis_hash);
    assert_eq!(block.transactions.len(), 1);
    assert_eq!(block.transactions[0].amount.0, BLOCK_REWARD_UNITS);
    assert_eq!(block.transactions[0].nonce.0, 0);
    assert_ne!(block.header.tx_merkle_root, hash::Hash::zero());
}

#[test]
fn test_assemble_block_with_transactions() {
    let genesis = build_genesis_block();
    let ctx = BlockAssemblyContext {
        height: BlockHeight(1),
        previous_hash: genesis.hash(),
        timestamp: genesis.header.timestamp + 10,
        bits: CompactTarget(0x1d00ffff),
        coinbase_recipient: test_address(),
    };

    let secret = chroma::crypto::schnorr::SecretKey32::from_bytes([0xBB; 32]).unwrap();
    let pubkey = chroma::crypto::schnorr::PublicKey32::from_secret(&secret).unwrap();
    let sender_addr = Address::from_hash160(Hash160(chroma::crypto::hash::hash160(&pubkey.0)));

    let tx = chroma::tx::create_transaction(
        &secret,
        sender_addr,
        test_address(),
        Amount(100_000),
        Nonce(0),
    )
    .unwrap();

    // The sender needs a balance, or the transaction cannot apply and is
    // correctly left out of the block.
    let mut funded = State::new();
    funded.apply_subsidy(&sender_addr, 0).unwrap();

    let block = assemble_block(&ctx, &[tx.clone()], &funded).unwrap();
    assert_eq!(block.transactions.len(), 2);
    assert_eq!(block.transactions[0].amount.0, BLOCK_REWARD_UNITS);
    assert_eq!(block.transactions[1], tx);
}

#[test]
fn test_assemble_block_skips_inapplicable_transactions() {
    // A transaction from an account with no balance would make the whole
    // block invalid, so assembly must drop it rather than include it.
    let genesis = build_genesis_block();
    let ctx = BlockAssemblyContext {
        height: BlockHeight(1),
        previous_hash: genesis.hash(),
        timestamp: genesis.header.timestamp + 10,
        bits: CompactTarget(0x1d00ffff),
        coinbase_recipient: test_address(),
    };

    let secret = chroma::crypto::schnorr::SecretKey32::from_bytes([0xCC; 32]).unwrap();
    let pubkey = chroma::crypto::schnorr::PublicKey32::from_secret(&secret).unwrap();
    let broke = Address::from_hash160(Hash160(chroma::crypto::hash::hash160(&pubkey.0)));
    let tx = chroma::tx::create_transaction(
        &secret,
        broke,
        test_address(),
        Amount(100_000),
        Nonce(0),
    )
    .unwrap();

    let block = assemble_block(&ctx, &[tx], &State::new()).unwrap();
    assert_eq!(block.transactions.len(), 1, "only the coinbase should remain");
}

#[test]
fn test_assembled_block_state_root_matches_validation() {
    // The header must carry the state root *after* the block applies.
    let genesis = build_genesis_block();
    let ctx = BlockAssemblyContext {
        height: BlockHeight(1),
        previous_hash: genesis.hash(),
        timestamp: genesis.header.timestamp + 10,
        bits: easy_bits(),
        coinbase_recipient: test_address(),
    };

    let parent = State::new();
    let block = assemble_block(&ctx, &[], &parent).unwrap();

    let mut applied = parent.clone();
    applied.apply_subsidy(&test_address(), 1).unwrap();
    assert_eq!(
        block.header.state_root,
        applied.compute_state_root(),
        "header must commit to the post-block state"
    );
    assert_ne!(
        block.header.state_root,
        parent.compute_state_root(),
        "the subsidy always changes the state, so the roots must differ"
    );
}

#[test]
fn test_mine_block_easy() {
    let genesis = build_genesis_block();
    let ctx = BlockAssemblyContext {
        height: BlockHeight(1),
        previous_hash: genesis.hash(),
        timestamp: genesis.header.timestamp + 10,
        bits: easy_bits(),
        coinbase_recipient: test_address(),
    };

    let mut block = assemble_block(&ctx, &[], &State::new()).unwrap();
    mine_block_with_limit(&mut block, 10_000_000).unwrap();

    let target = block.header.bits.to_full_target();
    let hash = block.header.hash();
    assert!(
        chroma::crypto::randomx::hash_meets_target(&hash, &target),
        "mined block should meet target"
    );
}

#[test]
fn test_mine_block_deterministic_per_nonce() {
    let genesis = build_genesis_block();
    let ctx = BlockAssemblyContext {
        height: BlockHeight(1),
        previous_hash: genesis.hash(),
        timestamp: genesis.header.timestamp + 10,
        bits: easy_bits(),
        coinbase_recipient: test_address(),
    };

    let mut block = assemble_block(&ctx, &[], &State::new()).unwrap();

    let target = block.header.bits.to_full_target();

    let mut found_nonce = None;
    for nonce in 0..10_000_000u64 {
        block.header.nonce = nonce;
        let hash = block.header.hash();
        if chroma::crypto::randomx::hash_meets_target(&hash, &target) {
            found_nonce = Some(nonce);
            break;
        }
    }

    let nonce = found_nonce.expect("should find a valid nonce");
    block.header.nonce = nonce;
    let hash = block.header.hash();
    assert!(chroma::crypto::randomx::hash_meets_target(&hash, &target));
}

#[test]
fn test_coinbase_has_zero_sender_pubkey() {
    let genesis = build_genesis_block();
    let ctx = BlockAssemblyContext {
        height: BlockHeight(1),
        previous_hash: genesis.hash(),
        timestamp: genesis.header.timestamp + 10,
        bits: easy_bits(),
        coinbase_recipient: test_address(),
    };

    let block = assemble_block(&ctx, &[], &State::new()).unwrap();
    let coinbase = &block.transactions[0];
    assert_eq!(coinbase.sender_pubkey.0, [0u8; 32]);
    assert_eq!(coinbase.signature.0, [0u8; 64]);
}

#[test]
fn test_mine_block_valid_pow() {
    let genesis = build_genesis_block();
    let ctx = BlockAssemblyContext {
        height: BlockHeight(1),
        previous_hash: genesis.hash(),
        timestamp: genesis.header.timestamp + 10,
        bits: easy_bits(),
        coinbase_recipient: test_address(),
    };

    let mut block = assemble_block(&ctx, &[], &State::new()).unwrap();
    mine_block_with_limit(&mut block, 10_000_000).unwrap();

    let target = block.header.bits.to_full_target();
    assert!(chroma::crypto::randomx::hash_meets_target(&block.header.hash(), &target));
}
