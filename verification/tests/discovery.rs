//! Finding the first peers.

use chroma::p2p::discovery::{register, Discovery, MAX_SEED_FAILURES};
use chroma::p2p::net::{IpAddr, NetAddr};
use chroma::p2p::peer::PeerManager;

fn addr(port: u16) -> NetAddr {
    NetAddr::new(IpAddr::V4([127, 0, 0, 1]), port)
}

#[test]
fn test_new_discovery() {
    let d = Discovery::new();
    assert_eq!(d.seed_failures(), 0);
}

#[test]
fn test_discover_peers_reports_what_it_registers() {
    let mut peers = PeerManager::new();
    let found = register(&mut peers, &[addr(8333), addr(8334), addr(8333)], 5);
    assert_eq!(found, vec![addr(8333), addr(8334)]);
    assert!(peers.get_peer(&addr(8333)).is_some());
    assert!(peers.get_peer(&addr(8334)).is_some());
    assert!(register(&mut peers, &[addr(8333), addr(8334)], 6).is_empty());
}

#[test]
fn test_unresolvable_seed_is_counted() {
    let mut peers = PeerManager::new();
    let mut d = Discovery::new();
    for n in 1..=MAX_SEED_FAILURES {
        assert!(d.may_look_up());
        assert!(d.looked_up(None, &mut peers, 5).is_empty());
        assert_eq!(d.seed_failures(), n);
    }
    assert!(!d.may_look_up());
}

#[test]
fn a_seed_that_answers_clears_the_failures() {
    let mut peers = PeerManager::new();
    let mut d = Discovery::new();
    d.looked_up(None, &mut peers, 5);
    let found = d.looked_up(Some(vec![addr(1), addr(2)]), &mut peers, 5);
    assert_eq!(found, vec![addr(1), addr(2)]);
    assert_eq!(d.seed_failures(), 0);
}
