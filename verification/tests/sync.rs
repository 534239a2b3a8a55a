//! Following a longer chain.

use chroma::hash;
use chroma::p2p::net::{IpAddr, NetAddr};
use chroma::p2p::sync::{ChainSyncer, SyncState};

#[test]
fn test_new_syncer() {
    let genesis = hash::Hash::blake3(b"genesis");
    let syncer = ChainSyncer::new(genesis);
    assert_eq!(syncer.state, SyncState::Idle);
    assert_eq!(syncer.best_height, 0);
    assert_eq!(syncer.best_hash, genesis);
}

#[test]
fn test_start_header_sync() {
    let genesis = hash::Hash::blake3(b"genesis");
    let mut syncer = ChainSyncer::new(genesis);
    let peer = NetAddr::new(IpAddr::V4([127, 0, 0, 1]), 8333);
    let from = hash::Hash::blake3(b"start");
    let msg = syncer.start_header_sync(peer, from);
    assert_eq!(syncer.state, SyncState::SyncingHeaders);
    assert_eq!(msg.start_hash, from);
    assert_eq!(msg.stop_hash, hash::Hash::zero());
}

#[test]
fn test_received_header() {
    let genesis = hash::Hash::blake3(b"genesis");
    let mut syncer = ChainSyncer::new(genesis);
    let h1 = hash::Hash::blake3(b"block1");
    syncer.received_header(h1, 1);
    assert_eq!(syncer.best_height, 1);
    assert_eq!(syncer.best_hash, h1);
}

#[test]
fn test_received_header_no_regression() {
    let genesis = hash::Hash::blake3(b"genesis");
    let mut syncer = ChainSyncer::new(genesis);
    let h1 = hash::Hash::blake3(b"block1");
    let h0 = hash::Hash::blake3(b"block0");
    syncer.received_header(h1, 1);
    syncer.received_header(h0, 0);
    assert_eq!(syncer.best_height, 1);
    assert_eq!(syncer.best_hash, h1);
}

#[test]
fn test_sync_complete() {
    let genesis = hash::Hash::blake3(b"genesis");
    let mut syncer = ChainSyncer::new(genesis);
    syncer.state = SyncState::SyncingHeaders;
    syncer.sync_complete();
    assert_eq!(syncer.state, SyncState::CaughtUp);
    assert!(syncer.sync_peer().is_none());
}

#[test]
fn test_sync_failed() {
    let genesis = hash::Hash::blake3(b"genesis");
    let mut syncer = ChainSyncer::new(genesis);
    syncer.state = SyncState::SyncingBlocks;
    syncer.sync_failed();
    assert_eq!(syncer.state, SyncState::Idle);
}

#[test]
fn test_is_syncing() {
    let genesis = hash::Hash::blake3(b"genesis");
    let syncer = ChainSyncer::new(genesis);
    assert!(!syncer.is_syncing());
}
