//! Blocks that wait for their parents.

use chroma::block::{Block, BlockHeader};
use chroma::hash;
use chroma::p2p::orphan::{OrphanPool, MAX_ORPHANS};
use chroma::types::{BlockHeight, CompactTarget};

fn block_with_parent(parent: hash::Hash, nonce: u64) -> Block {
    Block {
        header: BlockHeader {
            version: 1,
            previous_hash: parent,
            state_root: hash::Hash::zero(),
            tx_merkle_root: hash::Hash::zero(),
            timestamp: 1_767_225_600,
            bits: CompactTarget::difficulty_1(),
            height: BlockHeight(1),
            nonce,
        },
        transactions: vec![],
    }
}

#[test]
fn test_insert_reports_the_parent_to_fetch() {
    let mut pool = OrphanPool::new();
    let parent = hash::Hash::blake3(b"parent");
    let block = block_with_parent(parent, 1);

    assert_eq!(pool.insert(block.clone()), Some(parent));
    assert_eq!(pool.len(), 1);
    assert!(pool.contains(&block.hash()));

    // Re-offering the same block is a no-op, not a second request.
    assert_eq!(pool.insert(block), None);
    assert_eq!(pool.len(), 1);
}

#[test]
fn test_children_are_released_when_the_parent_arrives() {
    let mut pool = OrphanPool::new();
    let parent = hash::Hash::blake3(b"parent");
    pool.insert(block_with_parent(parent, 1));
    pool.insert(block_with_parent(parent, 2));
    pool.insert(block_with_parent(hash::Hash::blake3(b"other"), 3));

    let released = pool.take_children_of(&parent);
    assert_eq!(released.len(), 2);
    assert_eq!(pool.len(), 1, "the unrelated orphan stays parked");

    // Taking twice yields nothing the second time.
    assert!(pool.take_children_of(&parent).is_empty());
}

#[test]
fn test_pool_is_bounded() {
    // A peer can claim any parent it likes, so the pool must not grow
    // without limit.
    let mut pool = OrphanPool::new();
    for i in 0..(MAX_ORPHANS as u64 * 2) {
        pool.insert(block_with_parent(hash::Hash::blake3(&i.to_le_bytes()), i));
    }
    assert_eq!(pool.len(), MAX_ORPHANS);
}

#[test]
fn test_eviction_drops_the_oldest_first() {
    let mut pool = OrphanPool::new();
    let first = block_with_parent(hash::Hash::blake3(b"p0"), 0);
    pool.insert(first.clone());
    for i in 1..MAX_ORPHANS as u64 {
        pool.insert(block_with_parent(hash::Hash::blake3(&i.to_le_bytes()), i));
    }
    assert!(pool.contains(&first.hash()));

    // One more pushes the first one out.
    pool.insert(block_with_parent(hash::Hash::blake3(b"newest"), 9999));
    assert!(!pool.contains(&first.hash()));
    assert_eq!(pool.len(), MAX_ORPHANS);
}

#[test]
fn test_remove_clears_the_parent_index() {
    let mut pool = OrphanPool::new();
    let parent = hash::Hash::blake3(b"parent");
    let block = block_with_parent(parent, 1);
    pool.insert(block.clone());

    pool.remove(&block.hash());
    assert!(pool.is_empty());
    assert!(
        pool.take_children_of(&parent).is_empty(),
        "a removed orphan must not linger in the parent index"
    );
}
