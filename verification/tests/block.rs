//! Headers, blocks and Merkle roots.

use chroma::block::{Block, BlockHeader};
use chroma::constants::MAX_BLOCK_SIZE;
use chroma::hash;
use chroma::hash::Hash160;
use chroma::serialize::{CanonicalDecode, CanonicalEncode};
use chroma::types::{Address, Amount, BlockHeight, CompactTarget, Nonce};

fn zero_hash() -> hash::Hash {
    hash::Hash::from_bytes([0u8; 32])
}

fn some_hash() -> hash::Hash {
    hash::Hash::blake3(b"test")
}

fn make_header(version: u32, prev: hash::Hash, height: u32, ts: u64, bits: u32) -> BlockHeader {
    BlockHeader {
        version,
        previous_hash: prev,
        state_root: zero_hash(),
        tx_merkle_root: zero_hash(),
        timestamp: ts,
        bits: CompactTarget(bits),
        height: BlockHeight(height),
        nonce: 0,
    }
}

#[test]
fn test_header_serialization_roundtrip() {
    let header = make_header(1, some_hash(), 1, 1_700_000_000, 0x1d00ffff);
    let encoded = header.encode();
    assert_eq!(encoded.len(), BlockHeader::SERIALIZED_SIZE);
    let decoded = BlockHeader::decode(&encoded).unwrap();
    assert_eq!(header, decoded);
}

#[test]
fn test_header_hash_deterministic() {
    let header = make_header(1, some_hash(), 1, 1_700_000_000, 0x1d00ffff);
    let h1 = header.hash();
    let h2 = header.hash();
    assert_eq!(h1, h2);
}

#[test]
fn test_merkle_root_empty() {
    assert_eq!(Block::compute_tx_merkle_root(&[]), hash::Hash::zero());
}

#[test]
fn test_merkle_root_deterministic() {
    // Create a minimal valid transaction for testing
    let secret = chroma::crypto::schnorr::SecretKey32::from_bytes([0xAA; 32]).unwrap();
    let pubkey = chroma::crypto::schnorr::PublicKey32::from_secret(&secret).unwrap();
    let sender_h = chroma::crypto::hash::hash160(&pubkey.0);
    let mut bob_h = [0u8; 20];
    bob_h[0] = 0xBB;

    let tx = chroma::tx::create_transaction(
        &secret,
        Address::from_hash160(Hash160(sender_h)),
        Address::from_hash160(Hash160(bob_h)),
        Amount(1_000_000),
        Nonce(0),
    )
    .unwrap();

    let root1 = Block::compute_tx_merkle_root(&[tx.clone()]);
    let root2 = Block::compute_tx_merkle_root(&[tx]);
    assert_eq!(root1, root2);
}

#[test]
fn test_block_encoding_roundtrip() {
    let header = make_header(1, some_hash(), 1, 1_700_000_000, 0x1d00ffff);
    let block = Block {
        header,
        transactions: vec![],
    };
    let encoded = block.encode_block();
    let decoded = Block::decode_block(&encoded).unwrap();
    assert_eq!(decoded.header, block.header);
    assert_eq!(decoded.transactions.len(), 0);
}

#[test]
fn test_block_size_exceeded() {
    let header = make_header(1, some_hash(), 1, 1_700_000_000, 0x1d00ffff);
    let block = Block {
        header,
        transactions: vec![],
    };
    // The block itself should be valid (no txs, small size).
    // But the ctx checks that there's at least 1 tx.
    // This test just verifies encoding doesn't panic.
    let encoded = block.encode_block();
    assert!(encoded.len() < MAX_BLOCK_SIZE);
}

#[test]
fn test_header_hash_changes_with_previous_hash() {
    let h1 = make_header(1, hash::Hash::blake3(b"a"), 1, 1_700_000_000, 0x1d00ffff);
    let h2 = make_header(1, hash::Hash::blake3(b"b"), 1, 1_700_000_000, 0x1d00ffff);
    assert_ne!(h1.hash(), h2.hash());
}

#[test]
fn test_header_hash_changes_with_timestamp() {
    let h1 = make_header(1, some_hash(), 1, 1_700_000_000, 0x1d00ffff);
    let h2 = make_header(1, some_hash(), 1, 1_700_000_001, 0x1d00ffff);
    assert_ne!(h1.hash(), h2.hash());
}

#[test]
fn test_header_hash_changes_with_nonce() {
    let mut h1 = make_header(1, some_hash(), 1, 1_700_000_000, 0x1d00ffff);
    h1.nonce = 0;
    let mut h2 = make_header(1, some_hash(), 1, 1_700_000_000, 0x1d00ffff);
    h2.nonce = 1;
    assert_ne!(h1.hash(), h2.hash());
}

#[test]
fn test_header_hash_changes_with_height() {
    let h1 = make_header(1, some_hash(), 1, 1_700_000_000, 0x1d00ffff);
    let h2 = make_header(1, some_hash(), 2, 1_700_000_000, 0x1d00ffff);
    assert_ne!(h1.hash(), h2.hash());
}

#[test]
fn test_header_hash_changes_with_bits() {
    let h1 = make_header(1, some_hash(), 1, 1_700_000_000, 0x1d00ffff);
    let h2 = make_header(1, some_hash(), 1, 1_700_000_000, 0x1d00fffe);
    assert_ne!(h1.hash(), h2.hash());
}

#[test]
fn test_merkle_root_different_txs() {
    let secret = chroma::crypto::schnorr::SecretKey32::from_bytes([0xAA; 32]).unwrap();
    let pubkey = chroma::crypto::schnorr::PublicKey32::from_secret(&secret).unwrap();
    let sender_h = chroma::crypto::hash::hash160(&pubkey.0);
    let mut bob_h = [0u8; 20];
    bob_h[0] = 0xBB;

    let tx1 = chroma::tx::create_transaction(
        &secret,
        Address::from_hash160(Hash160(sender_h)),
        Address::from_hash160(Hash160(bob_h)),
        Amount(1_000_000),
        Nonce(0),
    )
    .unwrap();

    let tx2 = chroma::tx::create_transaction(
        &secret,
        Address::from_hash160(Hash160(sender_h)),
        Address::from_hash160(Hash160(bob_h)),
        Amount(2_000_000),
        Nonce(1),
    )
    .unwrap();

    let root1 = Block::compute_tx_merkle_root(&[tx1.clone()]);
    let root2 = Block::compute_tx_merkle_root(&[tx2.clone()]);
    assert_ne!(root1, root2, "different txs should produce different merkle roots");

    let root12 = Block::compute_tx_merkle_root(&[tx1, tx2]);
    assert_ne!(root1, root12, "different tx count should produce different merkle root");
}

#[test]
fn test_block_decode_rejects_truncated_header() {
    let header = make_header(1, some_hash(), 1, 1_700_000_000, 0x1d00ffff);
    let encoded = header.encode();
    // Truncate to 50 bytes (less than SERIALIZED_SIZE)
    assert!(Block::decode_block(&encoded[..50]).is_err());
}

#[test]
fn test_block_decode_empty() {
    assert!(Block::decode_block(&[]).is_err());
}

#[test]
fn test_header_encoded_size() {
    let header = make_header(1, some_hash(), 1, 1_700_000_000, 0x1d00ffff);
    let encoded = header.encode();
    assert_eq!(encoded.len(), 124);
}

#[test]
fn lib_test_block_hash_deterministic() {
    let header = make_header(1, some_hash(), 1, 1_700_000_000, 0x1d00ffff);
    let block = Block { header, transactions: vec![] };
    let h1 = block.hash();
    let h2 = block.hash();
    assert_eq!(h1, h2);
}

#[test]
fn test_block_hash_independent_of_transactions() {
    let header = make_header(1, some_hash(), 1, 1_700_000_000, 0x1d00ffff);
    let b1 = Block { header: header.clone(), transactions: vec![] };
    let b2 = Block { header, transactions: vec![] };
    assert_eq!(b1.hash(), b2.hash(), "block hash = header hash, not dependent on txs");
}

#[test]
fn test_header_previous_hash_zero_for_genesis() {
    let header = make_header(1, hash::Hash::zero(), 0, 1_700_000_000, 0x1d00ffff);
    assert_eq!(header.previous_hash, hash::Hash::zero());
}
