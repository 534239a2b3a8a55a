//! Network parameters.

use chroma::consensus::params::ChainParams;
use chroma::constants::GENESIS_TARGET_BITS;
use chroma::hash;
use chroma::serialize::CanonicalEncode;
use chroma::types::{CompactTarget, NetworkId};
use chroma::u256::U256;

#[test]
fn test_parse_names() {
    assert_eq!(ChainParams::parse("regtest"), Some(ChainParams::regtest()));
    assert_eq!(ChainParams::parse("REGTEST"), Some(ChainParams::regtest()));
    assert_eq!(ChainParams::parse("devnet"), Some(ChainParams::devnet()));
    assert_eq!(ChainParams::parse("mainnet"), Some(ChainParams::mainnet()));
    assert!(ChainParams::parse("nonsense").is_none());
}

#[test]
fn test_regtest_target_is_trivially_reachable() {
    // The point of regtest is that a solution is always a handful of
    // nonces away, so block production costs nothing. The target admits
    // roughly half of all hashes, so 64 attempts failing would mean
    // something is badly wrong rather than being bad luck.
    let target = ChainParams::regtest().genesis_bits.to_full_target();
    let hits = (0..64u32)
        .filter(|n| {
            let hash = hash::Hash::blake3(&n.to_le_bytes());
            chroma::crypto::randomx::hash_meets_target(&hash, &target)
        })
        .count();
    assert!(
        hits > 16,
        "regtest target admitted only {}/64 hashes; mining would not be trivial",
        hits
    );
}

#[test]
fn test_regtest_target_is_far_easier_than_the_real_one() {
    let regtest = U256::from_be_bytes(&ChainParams::regtest().genesis_bits.to_full_target());
    let devnet = U256::from_be_bytes(&ChainParams::devnet().genesis_bits.to_full_target());
    assert!(regtest > devnet, "a larger target is an easier one");
}

#[test]
fn test_real_networks_keep_difficulty_one() {
    for params in [
        ChainParams::mainnet(),
        ChainParams::testnet(),
        ChainParams::devnet(),
    ] {
        assert_eq!(params.genesis_bits, CompactTarget(GENESIS_TARGET_BITS));
        assert!(!params.no_retargeting, "only regtest freezes difficulty");
    }
}

#[test]
fn test_networks_have_distinct_ids() {
    let encodings: Vec<Vec<u8>> = [
        NetworkId::Devnet,
        NetworkId::Testnet,
        NetworkId::Mainnet,
        NetworkId::Regtest,
    ]
    .iter()
    .map(|n| n.encode())
    .collect();
    let mut unique = encodings.clone();
    unique.sort();
    unique.dedup();
    assert_eq!(unique.len(), encodings.len(), "network ids must not collide");
}
