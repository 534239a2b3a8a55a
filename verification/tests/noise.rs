//! Node identities.

use chroma::crypto::noise::{NodeId, NoiseState};

#[test]
fn test_node_id_generation() {
    let id1 = NodeId::generate().unwrap();
    let id2 = NodeId::generate().unwrap();
    assert_ne!(id1, id2);
}

#[test]
fn test_node_id_from_bytes() {
    let bytes = [0x42u8; 32];
    let id = NodeId::from_bytes(bytes);
    assert_eq!(id.0, bytes);
}

#[test]
fn test_noise_state() {
    let id = NodeId::generate().unwrap();
    let state = NoiseState::new(id);
    assert_eq!(state.local_node_id, id);
    assert!(state.peer_node_id.is_none());
}
