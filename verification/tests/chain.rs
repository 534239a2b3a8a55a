//! Genesis, retargeting and the start of a chain.

use std::collections::BTreeMap;

use chroma::block::BlockHeader;
use chroma::consensus::chain::ChainState;
use chroma::consensus::genesis::{build_genesis_block, genesis_randomx_seed};
use chroma::consensus::params::{default_max_target, default_min_target};
use chroma::consensus::retarget::{calculate_target_for_height, mul_div};
use chroma::constants::{
    GENESIS_TARGET_BITS, GENESIS_TIMESTAMP, MAX_DIFFICULTY_INCREASE_FACTOR, TARGET_BLOCK_TIME_SECS,
};
use chroma::hash;
use chroma::types::{BlockHeight, CompactTarget};
use chroma::u256::U256;

#[test]
fn test_genesis_deterministic() {
    let g1 = build_genesis_block();
    let g2 = build_genesis_block();
    assert_eq!(g1.hash(), g2.hash());
}

#[test]
fn test_genesis_hash() {
    let genesis = build_genesis_block();
    assert_eq!(genesis.header.version, 1);
    assert_eq!(genesis.header.height, BlockHeight::genesis());
    assert_eq!(genesis.header.timestamp, GENESIS_TIMESTAMP);
    assert_eq!(genesis.header.bits, CompactTarget(GENESIS_TARGET_BITS));
    assert_eq!(genesis.header.nonce, 0);
    assert_eq!(genesis.header.previous_hash, hash::Hash::zero());
    assert_eq!(genesis.header.tx_merkle_root, hash::Hash::zero());
    assert!(genesis.transactions.is_empty());
}

#[test]
fn test_genesis_randomx_seed() {
    let seed = genesis_randomx_seed();
    let seed2 = genesis_randomx_seed();
    assert_eq!(seed, seed2);
    assert_ne!(seed, hash::Hash::zero());
}

#[test]
fn test_chain_state_genesis() {
    let chain = ChainState::with_genesis();
    assert_eq!(chain.tip.height, BlockHeight::genesis());
    assert_eq!(chain.tip.supply, 0);
    assert!(chain.best_tip().cumulative_work > U256::zero());
}

#[test]
fn test_difficulty_carry_forward() {
    let mut headers = BTreeMap::new();
    let genesis = build_genesis_block();
    headers.insert(0, genesis.header.clone());

    let target = calculate_target_for_height(1, &headers).unwrap();
    assert_eq!(target, CompactTarget(GENESIS_TARGET_BITS));
}

#[test]
fn test_difficulty_on_target() {
    let mut headers = BTreeMap::new();
    let genesis = build_genesis_block();
    headers.insert(0, genesis.header.clone());

    // 10 blocks at exactly 10s intervals → on target
    for h in 1..=10u32 {
        let prev = headers.get(&(h - 1)).unwrap();
        let header = BlockHeader {
            version: 1,
            previous_hash: prev.hash(),
            state_root: hash::Hash::zero(),
            tx_merkle_root: hash::Hash::zero(),
            timestamp: GENESIS_TIMESTAMP + (h as u64) * TARGET_BLOCK_TIME_SECS,
            bits: CompactTarget(GENESIS_TARGET_BITS),
            height: BlockHeight(h),
            nonce: 0,
        };
        headers.insert(h, header);
    }

    let target = calculate_target_for_height(10, &headers).unwrap();
    assert_eq!(target, CompactTarget(GENESIS_TARGET_BITS));
}

#[test]
fn test_difficulty_blocks_too_fast() {
    let mut headers = BTreeMap::new();
    let genesis = build_genesis_block();
    headers.insert(0, genesis.header.clone());

    for h in 1..=10u32 {
        let prev = headers.get(&(h - 1)).unwrap();
        let header = BlockHeader {
            version: 1,
            previous_hash: prev.hash(),
            state_root: hash::Hash::zero(),
            tx_merkle_root: hash::Hash::zero(),
            timestamp: GENESIS_TIMESTAMP + (h as u64) * (TARGET_BLOCK_TIME_SECS / 2),
            bits: CompactTarget(GENESIS_TARGET_BITS),
            height: BlockHeight(h),
            nonce: 0,
        };
        headers.insert(h, header);
    }

    let target = calculate_target_for_height(10, &headers).unwrap();
    let d_before = chroma::types::Difficulty::from_bits(CompactTarget(GENESIS_TARGET_BITS));
    let d_after = chroma::types::Difficulty::from_bits(target);
    assert!(d_after > d_before, "blocks too fast → difficulty increases");
}

#[test]
fn test_difficulty_blocks_too_slow() {
    let mut headers = BTreeMap::new();
    let genesis = build_genesis_block();
    headers.insert(0, genesis.header.clone());

    for h in 1..=10u32 {
        let prev = headers.get(&(h - 1)).unwrap();
        let header = BlockHeader {
            version: 1,
            previous_hash: prev.hash(),
            state_root: hash::Hash::zero(),
            tx_merkle_root: hash::Hash::zero(),
            timestamp: GENESIS_TIMESTAMP + (h as u64) * (TARGET_BLOCK_TIME_SECS * 4),
            bits: CompactTarget(GENESIS_TARGET_BITS),
            height: BlockHeight(h),
            nonce: 0,
        };
        headers.insert(h, header);
    }

    let target = calculate_target_for_height(10, &headers).unwrap();
    let d_before = chroma::types::Difficulty::from_bits(CompactTarget(GENESIS_TARGET_BITS));
    let d_after = chroma::types::Difficulty::from_bits(target);
    assert!(d_after < d_before, "blocks too slow → difficulty decreases");
}

#[test]
fn test_difficulty_clamped() {
    let mut headers = BTreeMap::new();
    let genesis = build_genesis_block();
    headers.insert(0, genesis.header.clone());

    // 1 second per block → extremely fast
    for h in 1..=10u32 {
        let prev = headers.get(&(h - 1)).unwrap();
        let header = BlockHeader {
            version: 1,
            previous_hash: prev.hash(),
            state_root: hash::Hash::zero(),
            tx_merkle_root: hash::Hash::zero(),
            timestamp: GENESIS_TIMESTAMP + (h as u64),
            bits: CompactTarget(GENESIS_TARGET_BITS),
            height: BlockHeight(h),
            nonce: 0,
        };
        headers.insert(h, header);
    }

    let target = calculate_target_for_height(10, &headers).unwrap();
    let d_before = chroma::types::Difficulty::from_bits(CompactTarget(GENESIS_TARGET_BITS));
    let d_after = chroma::types::Difficulty::from_bits(target);

    assert!(d_after > d_before);
    assert!(
        d_after.0 <= d_before.0 * MAX_DIFFICULTY_INCREASE_FACTOR,
        "increase clamped to {}x",
        MAX_DIFFICULTY_INCREASE_FACTOR
    );
}

#[test]
fn test_minimum_target_enforced() {
    let mut headers = BTreeMap::new();
    let genesis = build_genesis_block();
    headers.insert(0, genesis.header.clone());

    for h in 1..=10u32 {
        let prev = headers.get(&(h - 1)).unwrap();
        let header = BlockHeader {
            version: 1,
            previous_hash: prev.hash(),
            state_root: hash::Hash::zero(),
            tx_merkle_root: hash::Hash::zero(),
            timestamp: GENESIS_TIMESTAMP + (h as u64),
            bits: CompactTarget(GENESIS_TARGET_BITS),
            height: BlockHeight(h),
            nonce: 0,
        };
        headers.insert(h, header);
    }

    let target = calculate_target_for_height(10, &headers).unwrap();
    let target_u256 = U256::from_be_bytes(&target.to_full_target());
    let min = U256::from_be_bytes(&default_min_target());
    assert!(target_u256 >= min, "target must not go below minimum");
}

#[test]
fn test_non_retarget_height() {
    let mut headers = BTreeMap::new();
    let genesis = build_genesis_block();
    headers.insert(0, genesis.header.clone());

    // Insert headers for heights 1-9 so carry-forward can look them up
    for h in 1..=9u32 {
        let prev = headers.get(&(h - 1)).unwrap();
        let header = BlockHeader {
            version: 1,
            previous_hash: prev.hash(),
            state_root: hash::Hash::zero(),
            tx_merkle_root: hash::Hash::zero(),
            timestamp: GENESIS_TIMESTAMP + (h as u64) * TARGET_BLOCK_TIME_SECS,
            bits: CompactTarget(GENESIS_TARGET_BITS),
            height: BlockHeight(h),
            nonce: 0,
        };
        headers.insert(h, header);
    }

    // Heights 1-9 should all carry forward genesis target
    for h in 1..=9u32 {
        let target = calculate_target_for_height(h, &headers).unwrap();
        assert_eq!(target, CompactTarget(GENESIS_TARGET_BITS), "height {}", h);
    }
}

#[test]
fn test_mul_div_exact() {
    let a = U256::from_u64(1000);
    assert_eq!(mul_div(&a, 3, 2).unwrap(), U256::from_u64(1500));
    assert_eq!(mul_div(&a, 1, 2).unwrap(), U256::from_u64(500));
    assert_eq!(mul_div(&a, 2, 2).unwrap(), U256::from_u64(1000));
}

#[test]
fn test_mul_div_zero_denominator() {
    let a = U256::from_u64(1000);
    assert_eq!(mul_div(&a, 3, 0).unwrap(), U256::zero());
}

#[test]
fn test_mul_div_zero_numerator() {
    let a = U256::from_u64(1000);
    assert_eq!(mul_div(&a, 0, 5).unwrap(), U256::zero());
}

#[test]
fn test_mul_div_large_values() {
    let a = U256::from_u64(u64::MAX);
    let result = mul_div(&a, 2, 3).unwrap();
    // u64::MAX * 2 / 3 ≈ 12297829382473034410
    let result_u64 = result.to_u64().unwrap();
    let expected = u64::MAX / 3 * 2;
    let diff = result_u64.abs_diff(expected);
    assert!(diff < 2, "mul_div large: result={} expected={}", result_u64, expected);
}

#[test]
fn test_mul_div_one_to_one() {
    let a = U256::from_u64(42);
    assert_eq!(mul_div(&a, 1, 1).unwrap(), a);
}

#[test]
fn test_difficulty_multiple_retargets() {
    let mut headers = BTreeMap::new();
    let genesis = build_genesis_block();
    headers.insert(0, genesis.header.clone());

    // Build 20 blocks at exactly target pace
    for h in 1..=20u32 {
        let prev = headers.get(&(h - 1)).unwrap();
        let header = BlockHeader {
            version: 1,
            previous_hash: prev.hash(),
            state_root: hash::Hash::zero(),
            tx_merkle_root: hash::Hash::zero(),
            timestamp: GENESIS_TIMESTAMP + (h as u64) * TARGET_BLOCK_TIME_SECS,
            bits: CompactTarget(GENESIS_TARGET_BITS),
            height: BlockHeight(h),
            nonce: 0,
        };
        headers.insert(h, header);
    }

    // Both retargets at 10 and 20 should stay at genesis target
    let t10 = calculate_target_for_height(10, &headers).unwrap();
    let t20 = calculate_target_for_height(20, &headers).unwrap();
    assert_eq!(t10, CompactTarget(GENESIS_TARGET_BITS));
    assert_eq!(t20, CompactTarget(GENESIS_TARGET_BITS));
}

#[test]
fn test_difficulty_accelerating_then_decelerating() {
    let mut headers = BTreeMap::new();
    let genesis = build_genesis_block();
    headers.insert(0, genesis.header.clone());

    // Blocks 1-5: fast (5s each)
    for h in 1..=5u32 {
        let prev = headers.get(&(h - 1)).unwrap();
        let header = BlockHeader {
            version: 1,
            previous_hash: prev.hash(),
            state_root: hash::Hash::zero(),
            tx_merkle_root: hash::Hash::zero(),
            timestamp: GENESIS_TIMESTAMP + (h as u64) * 5,
            bits: CompactTarget(GENESIS_TARGET_BITS),
            height: BlockHeight(h),
            nonce: 0,
        };
        headers.insert(h, header);
    }

    // Blocks 6-9: slow (20s each) — relative to block 5
    let block5_ts = GENESIS_TIMESTAMP + 5 * 5;
    for h in 6..=9u32 {
        let prev = headers.get(&(h - 1)).unwrap();
        let header = BlockHeader {
            version: 1,
            previous_hash: prev.hash(),
            state_root: hash::Hash::zero(),
            tx_merkle_root: hash::Hash::zero(),
            timestamp: block5_ts + ((h - 5) as u64) * 20,
            bits: CompactTarget(GENESIS_TARGET_BITS),
            height: BlockHeight(h),
            nonce: 0,
        };
        headers.insert(h, header);
    }

    // At height 10 retarget: window is heights 0-9
    // actual_time = block9.timestamp - genesis.timestamp
    let block9_ts = headers.get(&9).unwrap().timestamp;
    let actual_time = block9_ts - GENESIS_TIMESTAMP;
    // Expected: 5*5 + 4*20 = 25 + 80 = 105 seconds
    // target_time = 90 seconds
    // new_target = old * 105 / 90 = old * 1.166...
    assert!(actual_time > 90, "actual_time should be > target_time for slower blocks");

    let target = calculate_target_for_height(10, &headers).unwrap();
    let d_before = chroma::types::Difficulty::from_bits(CompactTarget(GENESIS_TARGET_BITS));
    let d_after = chroma::types::Difficulty::from_bits(target);
    assert!(d_after < d_before, "blocks slower than target → difficulty decreases");
}

#[test]
fn test_max_target_enforced() {
    let mut headers = BTreeMap::new();
    let genesis = build_genesis_block();
    headers.insert(0, genesis.header.clone());

    // Very slow blocks (100s each) → target tries to increase a lot
    for h in 1..=10u32 {
        let prev = headers.get(&(h - 1)).unwrap();
        let header = BlockHeader {
            version: 1,
            previous_hash: prev.hash(),
            state_root: hash::Hash::zero(),
            tx_merkle_root: hash::Hash::zero(),
            timestamp: GENESIS_TIMESTAMP + (h as u64) * 100,
            bits: CompactTarget(GENESIS_TARGET_BITS),
            height: BlockHeight(h),
            nonce: 0,
        };
        headers.insert(h, header);
    }

    let target = calculate_target_for_height(10, &headers).unwrap();
    let target_u256 = U256::from_be_bytes(&target.to_full_target());
    let max = U256::from_be_bytes(&default_max_target());
    assert!(target_u256 <= max, "target must not exceed maximum");
}

#[test]
fn test_genesis_hash_is_nonzero() {
    let genesis = build_genesis_block();
    let header_hash = genesis.hash();
    assert_ne!(header_hash, hash::Hash::zero(), "genesis hash must be non-zero");
}

#[test]
fn test_chain_tip_work_increases() {
    let chain = ChainState::with_genesis();
    let work_before = chain.best_tip().cumulative_work;
    assert!(work_before > U256::zero());
}

#[test]
fn test_minimum_target_constant() {
    let min = U256::from_be_bytes(&default_min_target());
    assert!(min > U256::zero(), "MINIMUM_TARGET must be non-zero");
    let max = U256::from_be_bytes(&default_max_target());
    assert!(max > min, "MAXIMUM_TARGET must be > MINIMUM_TARGET");
}

#[test]
fn test_difficulty_direction_invariants() {
    // At exactly 90s (target_time for window), difficulty stays same
    let mut headers = BTreeMap::new();
    let genesis = build_genesis_block();
    headers.insert(0, genesis.header.clone());

    for h in 1..=10u32 {
        let prev = headers.get(&(h - 1)).unwrap();
        let header = BlockHeader {
            version: 1,
            previous_hash: prev.hash(),
            state_root: hash::Hash::zero(),
            tx_merkle_root: hash::Hash::zero(),
            timestamp: GENESIS_TIMESTAMP + (h as u64) * TARGET_BLOCK_TIME_SECS,
            bits: CompactTarget(GENESIS_TARGET_BITS),
            height: BlockHeight(h),
            nonce: 0,
        };
        headers.insert(h, header);
    }

    let target_unchanged = calculate_target_for_height(10, &headers).unwrap();
    assert_eq!(target_unchanged, CompactTarget(GENESIS_TARGET_BITS), "at exactly target pace, difficulty unchanged");

    // Test: faster → higher difficulty (lower target)
    let mut headers_fast = headers.clone();
    for h in 1..=10u32 {
        let prev = headers_fast.get(&(h - 1)).unwrap();
        let header = BlockHeader {
            version: 1,
            previous_hash: prev.hash(),
            state_root: hash::Hash::zero(),
            tx_merkle_root: hash::Hash::zero(),
            timestamp: GENESIS_TIMESTAMP + (h as u64) * (TARGET_BLOCK_TIME_SECS / 2),
            bits: CompactTarget(GENESIS_TARGET_BITS),
            height: BlockHeight(h),
            nonce: 0,
        };
        headers_fast.insert(h, header);
    }
    let target_fast = calculate_target_for_height(10, &headers_fast).unwrap();
    let t_fast = U256::from_be_bytes(&target_fast.to_full_target());
    let t_genesis = U256::from_be_bytes(&CompactTarget(GENESIS_TARGET_BITS).to_full_target());
    assert!(t_fast < t_genesis, "faster blocks → lower target (higher difficulty)");

    // Test: slower → lower difficulty (higher target)
    let mut headers_slow = headers.clone();
    for h in 1..=10u32 {
        let prev = headers_slow.get(&(h - 1)).unwrap();
        let header = BlockHeader {
            version: 1,
            previous_hash: prev.hash(),
            state_root: hash::Hash::zero(),
            tx_merkle_root: hash::Hash::zero(),
            timestamp: GENESIS_TIMESTAMP + (h as u64) * (TARGET_BLOCK_TIME_SECS * 3),
            bits: CompactTarget(GENESIS_TARGET_BITS),
            height: BlockHeight(h),
            nonce: 0,
        };
        headers_slow.insert(h, header);
    }
    let target_slow = calculate_target_for_height(10, &headers_slow).unwrap();
    let t_slow = U256::from_be_bytes(&target_slow.to_full_target());
    assert!(t_slow > t_genesis, "slower blocks → higher target (lower difficulty)");
}

#[test]
fn test_calculate_target_missing_header() {
    let headers = BTreeMap::new();
    let result = calculate_target_for_height(5, &headers);
    assert!(result.is_err(), "should fail with missing header");
}

#[test]
fn test_genesis_target_bits_value() {
    assert_eq!(GENESIS_TARGET_BITS, 0x1d00ffff);
}

#[test]
fn test_chain_state_genesis_supply() {
    let chain = ChainState::with_genesis();
    assert_eq!(chain.state.total_supply(), 0);
}

#[test]
fn test_chain_state_genesis_headers() {
    let chain = ChainState::with_genesis();
    assert!(chain.headers.contains_key(&0));
    assert_eq!(chain.headers.len(), 1);
}

#[test]
fn test_chain_state_genesis_tips() {
    let chain = ChainState::with_genesis();
    assert_eq!(chain.tips.len(), 1);
    assert!(chain.tips.contains_key(&chain.tip.hash.0));
}
