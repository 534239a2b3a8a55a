//! Proof of work.

use chroma::crypto::randomx::{
    calculate_work, derive_seed, epoch_for_height, hash_meets_target, init_randomx_context,
    is_seed_update_height, pow_blake3,
};
use chroma::hash;
use chroma::u256::U256;

#[test]
fn test_pow_blake3() {
    let prev_hash = hash::Hash::from_bytes([0x42u8; 32]);
    let merkle_root = hash::Hash::from_bytes([0x24u8; 32]);
    let nonce = 12345u64;
    let extra = b"test";

    let result = pow_blake3(&prev_hash, &merkle_root, nonce, extra);
    assert_eq!(result.as_bytes().len(), 32);

    let result2 = pow_blake3(&prev_hash, &merkle_root, nonce, extra);
    assert_eq!(result, result2);

    let result3 = pow_blake3(&prev_hash, &merkle_root, nonce + 1, extra);
    assert_ne!(result, result3);
}

#[test]
fn test_hash_meets_target() {
    // Basic: hash below target
    let hash = hash::Hash::from_bytes([0x00, 0x01, 0x02, 0x03, 0x04, 0x05, 0x06, 0x07,
                                  0x08, 0x09, 0x0a, 0x0b, 0x0c, 0x0d, 0x0e, 0x0f,
                                  0x10, 0x11, 0x12, 0x13, 0x14, 0x15, 0x16, 0x17,
                                  0x18, 0x19, 0x1a, 0x1b, 0x1c, 0x1d, 0x1e, 0x1f]);

    let target = [0xFFu8; 32];
    assert!(hash_meets_target(&hash, &target));

    // All zeros target: only zero hash passes
    let target_low = [0x00u8; 32];
    assert!(!hash_meets_target(&hash, &target_low));

    // Zero hash meets any target
    let zero_hash = hash::Hash::from_bytes([0u8; 32]);
    assert!(hash_meets_target(&zero_hash, &target_low));
    assert!(hash_meets_target(&zero_hash, &target));

    // hash::Hash exactly equal to target
    let exact_target = [0x42u8; 32];
    let exact_hash = hash::Hash::from_bytes([0x42u8; 32]);
    assert!(hash_meets_target(&exact_hash, &exact_target));

    // hash::Hash one above target (should fail)
    let mut target_bytes = [0u8; 32];
    target_bytes[31] = 0x41; // target = ...0x41
    let mut hash_bytes = [0u8; 32];
    hash_bytes[31] = 0x42; // hash = ...0x42
    let hash_above = hash::Hash::from_bytes(hash_bytes);
    assert!(!hash_meets_target(&hash_above, &target_bytes));

    // hash::Hash one below target (should pass)
    let mut target_bytes2 = [0u8; 32];
    target_bytes2[31] = 0x42;
    let mut hash_bytes2 = [0u8; 32];
    hash_bytes2[31] = 0x41;
    let hash_below = hash::Hash::from_bytes(hash_bytes2);
    assert!(hash_meets_target(&hash_below, &target_bytes2));

    // Differing high-order bytes
    let mut target_ho = [0u8; 32];
    target_ho[0] = 0x02;
    let mut hash_ho = [0u8; 32];
    hash_ho[0] = 0x01;
    let hash_high_order = hash::Hash::from_bytes(hash_ho);
    assert!(hash_meets_target(&hash_high_order, &target_ho));

    // hash::Hash higher at high-order byte (should fail)
    let mut hash_ho2 = [0u8; 32];
    hash_ho2[0] = 0x03;
    let hash_high_order_fail = hash::Hash::from_bytes(hash_ho2);
    assert!(!hash_meets_target(&hash_high_order_fail, &target_ho));

    // Maximum hash vs maximum target
    let max_hash = hash::Hash::from_bytes([0xFFu8; 32]);
    let max_target = [0xFFu8; 32];
    assert!(hash_meets_target(&max_hash, &max_target));

    // The first byte that differs decides, whatever follows it.
    let mut lead_hash_bytes = [0u8; 32];
    lead_hash_bytes[0] = 0x01;
    lead_hash_bytes[1] = 0xFF;
    let lead_hash = hash::Hash::from_bytes(lead_hash_bytes);
    let mut lead_target = [0u8; 32];
    lead_target[0] = 0x02;
    lead_target[1] = 0x00;
    assert!(hash_meets_target(&lead_hash, &lead_target));
}

#[test]
fn test_epoch_calculation() {
    assert_eq!(epoch_for_height(0, 1000), 0);
    assert_eq!(epoch_for_height(999, 1000), 0);
    assert_eq!(epoch_for_height(1000, 1000), 1);
    assert_eq!(epoch_for_height(1999, 1000), 1);
    assert_eq!(epoch_for_height(2000, 1000), 2);
}

#[test]
fn test_seed_update_check() {
    assert!(is_seed_update_height(0, 1000));
    assert!(!is_seed_update_height(999, 1000));
    assert!(is_seed_update_height(1000, 1000));
    assert!(is_seed_update_height(2000, 1000));
}

#[test]
fn test_derive_seed() {
    let block_hash = hash::Hash::from_bytes([0xABu8; 32]);
    let seed = derive_seed(&block_hash);
    assert_eq!(seed, block_hash);
}

#[test]
fn test_calculate_work() {

    // Target = 0xFF...FF (max): work should be ~1
    let max_target = [0xFFu8; 32];
    let work = calculate_work(&max_target);
    let work_u256 = U256::from_be_bytes(&work);
    // (2^256 - 1) / (2^256 - 1) + 1 = 1 + 1 = 2
    assert_eq!(work_u256, U256::from_u64(2));

    // Target = 1: work should be 2^256 - 1 + 1 = 2^256... which wraps to 0
    let one_target = {
        let mut t = [0u8; 32];
        t[31] = 1;
        t
    };
    let work2 = calculate_work(&one_target);
    let work2_u256 = U256::from_be_bytes(&work2);
    // (2^256 - 1) / 1 + 1 = 2^256, which wraps to 0
    assert_eq!(work2_u256, U256::zero());

    // Target = 2: work = (2^256 - 1) / 2 + 1
    let two_target = {
        let mut t = [0u8; 32];
        t[31] = 2;
        t
    };
    let work3 = calculate_work(&two_target);
    let work3_u256 = U256::from_be_bytes(&work3);
    // (2^256 - 1) / 2 = 2^255 - 1 (all ones except MSB), +1 = 2^255
    let expected = U256::from_u64(0).with_bit_set(255);
    assert_eq!(work3_u256, expected, "target=2 should produce work = 2^255");

    // Same target should give same work (determinism)
    let work_again = calculate_work(&max_target);
    assert_eq!(work, work_again);

    // Larger target should produce smaller work
    let mut large_target = [0xFFu8; 32];
    large_target[0] = 0xFE; // slightly less than MAX
    let work_large = calculate_work(&large_target);
    let work_large_u256 = U256::from_be_bytes(&work_large);
    assert!(work_large_u256 < U256::from_u64(4), "larger target = smaller work");

    // Smaller target should produce larger work
    let mut small_target = [0u8; 32];
    small_target[0] = 0x01;
    let work_small = calculate_work(&small_target);
    let work_small_u256 = U256::from_be_bytes(&work_small);
    assert!(work_small_u256 > U256::from_u64(4), "smaller target = larger work");
}

#[test]
fn test_hash_meets_target_transitivity() {
    // If hash_a <= target and hash_b <= hash_a, then hash_b <= target
    let target = [0x80u8; 32];
    let hash_a_bytes = [0x40u8; 32];
    let hash_b_bytes = [0x20u8; 32];
    let hash_a = hash::Hash::from_bytes(hash_a_bytes);
    let hash_b = hash::Hash::from_bytes(hash_b_bytes);
    assert!(hash_meets_target(&hash_a, &target));
    assert!(hash_meets_target(&hash_b, &target));
    assert!(hash_meets_target(&hash_b, &hash_a.0));
}

#[test]
fn test_hash_meets_target_boundary_values() {
    // All boundary cases for single-byte comparison
    let cases: Vec<([u8; 32], [u8; 32], bool)> = vec![
        ([0x00u8; 32], [0x01u8; 32], true),   // hash < target
        ([0x01u8; 32], [0x00u8; 32], false),   // hash > target
        ([0x42u8; 32], [0x42u8; 32], true),     // hash == target
        ([0xFFu8; 32], [0xFFu8; 32], true),     // hash == target (max)
        ([0x00u8; 32], [0x00u8; 32], true),     // hash == target (zero)
    ];
    for (hash_bytes, target, expected) in cases {
        let hash = hash::Hash::from_bytes(hash_bytes);
        assert_eq!(hash_meets_target(&hash, &target), expected,
            "hash={:?} target={:?}", hash_bytes[0], target[0]);
    }
}

#[test]
fn test_calculate_work_target_1_is_max() {
    let target_1 = {
        let mut t = [0u8; 32];
        t[31] = 1;
        t
    };
    let work = calculate_work(&target_1);
    // When target=1, work wraps to 0 (2^256 wraps)
    let work_u256 = U256::from_be_bytes(&work);
    assert_eq!(work_u256, U256::zero(), "target=1 should produce work 0 (wrapped from 2^256)");
}

#[test]
fn test_pow_blake3_different_nonces() {
    let prev = hash::Hash::from_bytes([0x01u8; 32]);
    let merkle = hash::Hash::from_bytes([0x02u8; 32]);
    let mut results = std::collections::HashSet::new();
    for nonce in 0..100u64 {
        let h = pow_blake3(&prev, &merkle, nonce, b"");
        assert!(results.insert(h), "duplicate hash at nonce {}", nonce);
    }
}

#[test]
fn test_pow_blake3_empty_extra() {
    let prev = hash::Hash::from_bytes([0xAAu8; 32]);
    let merkle = hash::Hash::from_bytes([0xBBu8; 32]);
    let h1 = pow_blake3(&prev, &merkle, 0, b"");
    let h2 = pow_blake3(&prev, &merkle, 0, &[]);
    assert_eq!(h1, h2);
}

#[test]
fn test_epoch_boundaries() {
    // Epoch 0: heights 0-999
    for h in 0..1000u32 {
        assert_eq!(epoch_for_height(h, 1000), 0);
    }
    // Epoch 1: heights 1000-1999
    for h in 1000..2000u32 {
        assert_eq!(epoch_for_height(h, 1000), 1);
    }
}

#[test]
fn test_seed_update_at_exact_boundaries() {
    assert!(is_seed_update_height(0, 1000));
    assert!(!is_seed_update_height(1, 1000));
    assert!(is_seed_update_height(1000, 1000));
    assert!(!is_seed_update_height(1001, 1000));
    assert!(is_seed_update_height(2000, 1000));
}

#[test]
fn test_init_randomx_context_returns_error() {
    let seed = hash::Hash::from_bytes([0u8; 32]);
    assert!(init_randomx_context(&seed).is_err());
}
