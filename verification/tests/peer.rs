//! Peers: connections, scores, limits and admission.

use chroma::p2p::address::AddressGroup;
use chroma::p2p::net::{IpAddr, NetAddr};
use chroma::p2p::peer::{
    ConnectionSlot, InboundAdmission, PeerInfo, PeerManager, PeerState,
    MAX_CONNECTIONS_PER_GROUP, MAX_CONNECTIONS_PER_SITE, MAX_INBOUND_PEERS, MAX_OUTBOUND_PEERS,
    MSG_RATE_LIMIT, PEER_TIMEOUT_SECS, RESERVED_INBOUND_SLOTS, TX_RATE_LIMIT,
};

fn test_addr(n: u16) -> NetAddr {
    NetAddr::new(IpAddr::V4([127, 0, 0, 1]), n)
}

#[test]
fn test_add_and_get_peer() {
    let mut pm = PeerManager::new();
    let addr = test_addr(8333);
    pm.add_peer(addr);
    assert!(pm.get_peer(&addr).is_some());
}

#[test]
fn test_remove_peer() {
    let mut pm = PeerManager::new();
    let addr = test_addr(8333);
    pm.add_peer(addr);
    pm.remove_peer(&addr);
    assert!(pm.get_peer(&addr).is_none());
}

#[test]
fn test_connected_count() {
    let mut pm = PeerManager::new();
    let a1 = test_addr(8333);
    let a2 = test_addr(8334);
    pm.add_peer(a1);
    pm.add_peer(a2);
    assert_eq!(pm.connected_count(), 0);

    pm.get_peer_mut(&a1).unwrap().state = PeerState::Ready;
    assert_eq!(pm.connected_count(), 1);
}

#[test]
fn test_need_more_peers() {
    let mut pm = PeerManager::new();
    assert!(pm.need_more_peers());

    for i in 0..MAX_OUTBOUND_PEERS {
        let addr = test_addr((8333 + i) as u16);
        pm.add_peer(addr);
        pm.get_peer_mut(&addr).unwrap().state = PeerState::Ready;
    }
    assert!(!pm.need_more_peers());
}

#[test]
fn test_peer_scoring() {
    let mut pm = PeerManager::new();
    let addr = test_addr(8333);
    pm.add_peer(addr);

    for _ in 0..5 {
        pm.get_peer_mut(&addr).unwrap().score_tick();
    }
    assert_eq!(pm.get_peer(&addr).unwrap().score, 5);

    pm.get_peer_mut(&addr)
        .unwrap()
        .score_bad(210);
    assert!(pm.get_peer(&addr).unwrap().is_banned());
}

#[test]
fn test_ban_peer() {
    let mut pm = PeerManager::new();
    let addr = test_addr(8333);
    pm.add_peer(addr);
    pm.ban_peer(&addr);
    assert!(pm.get_peer(&addr).unwrap().is_banned());
    assert_eq!(pm.get_peer(&addr).unwrap().state, PeerState::Banned);
}

#[test]
fn test_peer_info_new() {
    let addr = test_addr(9000);
    let info = PeerInfo::new(addr);
    assert_eq!(info.addr, addr);
    assert_eq!(info.state, PeerState::Disconnected);
    assert_eq!(info.score, 0);
    assert!(!info.is_banned());
}

#[test]
fn test_prune_disconnected() {
    let mut pm = PeerManager::new();
    let a1 = test_addr(8333);
    let a2 = test_addr(8334);
    pm.add_peer(a1);
    pm.add_peer(a2);
    pm.get_peer_mut(&a1).unwrap().state = PeerState::Ready;
    pm.prune_disconnected();
    assert!(pm.get_peer(&a1).is_some());
    assert!(pm.get_peer(&a2).is_none());
}

#[test]
fn test_begin_connection_rejects_duplicate() {
    let mut pm = PeerManager::new();
    let addr = test_addr(8333);
    assert_eq!(pm.begin_connection(addr, false), ConnectionSlot::Accepted);
    // A second dial while the first is live must not open another socket.
    assert_eq!(pm.begin_connection(addr, false), ConnectionSlot::Duplicate);

    // ...but reconnecting after a clean disconnect is allowed.
    pm.mark_disconnected(&addr);
    assert_eq!(pm.begin_connection(addr, false), ConnectionSlot::Accepted);
}

#[test]
fn test_begin_connection_rejects_banned() {
    let mut pm = PeerManager::new();
    let addr = test_addr(8333);
    pm.add_peer(addr);
    pm.ban_peer(&addr);
    assert_eq!(pm.begin_connection(addr, false), ConnectionSlot::Banned);
}

#[test]
fn test_begin_connection_enforces_separate_limits() {
    let mut pm = PeerManager::new();
    for i in 0..MAX_OUTBOUND_PEERS {
        let addr = test_addr(9000 + i as u16);
        assert_eq!(pm.begin_connection(addr, false), ConnectionSlot::Accepted);
    }
    assert_eq!(
        pm.begin_connection(test_addr(9999), false),
        ConnectionSlot::Full
    );
    // The inbound budget is separate and still has room.
    assert_eq!(
        pm.begin_connection(test_addr(9998), true),
        ConnectionSlot::Accepted
    );

    for i in 1..MAX_INBOUND_PEERS {
        let addr = test_addr(10_000 + i as u16);
        assert_eq!(pm.begin_connection(addr, true), ConnectionSlot::Accepted);
    }
    assert_eq!(
        pm.begin_connection(test_addr(11_000), true),
        ConnectionSlot::Full
    );
}

#[test]
fn test_ban_survives_disconnect() {
    let mut pm = PeerManager::new();
    let addr = test_addr(8333);
    pm.add_peer(addr);
    pm.ban_peer(&addr);

    // Disconnect must not erase the ban (remove_peer would have).
    pm.mark_disconnected(&addr);
    assert!(pm.get_peer(&addr).unwrap().is_banned());
    pm.prune_disconnected();
    assert!(
        pm.get_peer(&addr).is_some_and(|p| p.is_banned()),
        "a banned peer must not be pruned away"
    );
    assert_eq!(pm.begin_connection(addr, true), ConnectionSlot::Banned);
}

#[test]
fn test_mark_disconnected_clears_channel() {
    let mut pm = PeerManager::new();
    let addr = test_addr(8333);
    let (tx, _rx) = tokio::sync::mpsc::channel::<Vec<u8>>(4);
    pm.begin_connection(addr, false);
    pm.set_channel(addr, tx);
    assert!(pm.get_channel(&addr).is_some());
    pm.mark_disconnected(&addr);
    assert!(pm.get_channel(&addr).is_none());
    assert_eq!(pm.get_peer(&addr).unwrap().state, PeerState::Disconnected);
}

#[test]
fn test_stale_peers() {
    let mut pm = PeerManager::new();
    let fresh = test_addr(8333);
    let quiet = test_addr(8334);
    pm.begin_connection(fresh, false);
    pm.begin_connection(quiet, false);
    pm.get_peer_mut(&fresh).unwrap().state = PeerState::Ready;
    let now = pm.clock().millis();
    pm.get_peer_mut(&fresh).unwrap().last_seen = Some(now);
    pm.get_peer_mut(&quiet).unwrap().state = PeerState::Ready;
    pm.get_peer_mut(&quiet).unwrap().last_seen =
        Some(now - (PEER_TIMEOUT_SECS + 5) * 1000);

    let stale = pm.stale_peers(PEER_TIMEOUT_SECS * 1000);
    assert_eq!(stale, vec![quiet]);
}

#[test]
fn test_message_rate_limit() {
    let mut peer = PeerInfo::new(test_addr(8333));
    let now = peer.clock.millis();

    for i in 0..MSG_RATE_LIMIT {
        assert!(
            peer.allow_message_at(now),
            "message {} should be within the allowance",
            i
        );
    }
    assert!(!peer.allow_message_at(now), "one past the limit must be refused");

    // The window rolls, and the peer is allowed again.
    let later = now + 1_100;
    assert!(peer.allow_message_at(later));
}

#[test]
fn test_transaction_rate_limit_is_separate_and_tighter() {
    let mut peer = PeerInfo::new(test_addr(8333));
    let now = peer.clock.millis();

    for _ in 0..TX_RATE_LIMIT {
        assert!(peer.allow_transaction_at(now));
    }
    assert!(!peer.allow_transaction_at(now));

    // Messages have their own, larger budget, untouched by the above.
    assert!(peer.allow_message_at(now));
}

#[test]
fn test_rate_window_rolls_forward() {
    let mut peer = PeerInfo::new(test_addr(8333));
    let mut now = peer.clock.millis();
    for _ in 0..5 {
        for _ in 0..TX_RATE_LIMIT {
            assert!(peer.allow_transaction_at(now));
        }
        assert!(!peer.allow_transaction_at(now));
        now += 1_000;
    }
}

#[test]
fn test_ready_peers() {
    let mut pm = PeerManager::new();
    let a1 = test_addr(8333);
    let a2 = test_addr(8334);
    let a3 = test_addr(8335);
    pm.add_peer(a1);
    pm.add_peer(a2);
    pm.add_peer(a3);
    pm.get_peer_mut(&a1).unwrap().state = PeerState::Ready;
    pm.get_peer_mut(&a2).unwrap().state = PeerState::Connected;
    pm.ban_peer(&a3);

    let ready = pm.ready_peers();
    assert_eq!(ready.len(), 1);
    assert_eq!(ready[0].addr, a1);
}

// -----------------------------------------------------------------------
// Address groups and inbound admission
// -----------------------------------------------------------------------

/// An IPv6 address in text form, with one run of zeros left out or none.
fn v6(s: &str) -> NetAddr {
    let (head, tail) = s.split_once("::").unwrap_or((s, ""));
    let words = |part: &str| -> Vec<u16> {
        part.split(':')
            .filter(|w| !w.is_empty())
            .map(|w| u16::from_str_radix(w, 16).unwrap())
            .collect()
    };
    let mut all = words(head);
    let tail = words(tail);
    all.resize(8 - tail.len(), 0);
    all.extend(tail);
    let mut octets = [0u8; 16];
    for (i, w) in all.iter().enumerate() {
        octets[2 * i..2 * i + 2].copy_from_slice(&w.to_be_bytes());
    }
    NetAddr::new(IpAddr::V6(octets), 8333)
}

fn v4(a: u8, b: u8, c: u8, d: u8) -> NetAddr {
    NetAddr::new(IpAddr::V4([a, b, c, d]), 8333)
}

#[test]
fn ipv4_is_grouped_by_prefix_not_by_address() {
    assert_eq!(
        AddressGroup::of(v4(203, 0, 113, 1).ip),
        AddressGroup::of(v4(203, 0, 113, 254).ip),
        "one /24 is one group"
    );
    assert_ne!(
        AddressGroup::of(v4(203, 0, 113, 1).ip),
        AddressGroup::of(v4(203, 0, 114, 1).ip)
    );
}

#[test]
fn ipv6_is_grouped_by_prefix_not_by_address() {
    // The one that matters. A subscriber line is handed a /64, so counting
    // IPv6 by address would give one household 2^64 separate accounts --
    // which is the same as having no limit.
    assert_eq!(
        AddressGroup::of(v6("2001:db8:1:2::1").ip),
        AddressGroup::of(v6("2001:db8:1:2:ffff:ffff:ffff:ffff").ip),
        "one /64 is one group"
    );
    assert_ne!(
        AddressGroup::of(v6("2001:db8:1:2::1").ip),
        AddressGroup::of(v6("2001:db8:1:3::1").ip),
        "a different /64 is a different group"
    );
    assert_eq!(
        AddressGroup::of(v6("2001:db8:1:2::1").ip).site(),
        AddressGroup::of(v6("2001:db8:1:3::1").ip).site(),
        "but both are the same /48 site"
    );
}

#[test]
fn local_addresses_are_exempt() {
    for addr in [
        v4(127, 0, 0, 1),
        v4(192, 168, 1, 5),
        v4(10, 0, 0, 7),
        v6("::1"),
        v6("fd00::1"),
    ] {
        assert!(
            AddressGroup::of(addr.ip).is_local(),
            "{:?} should be exempt",
            addr
        );
    }
}

#[test]
fn one_group_gets_only_its_share_of_inbound() {
    let mut pm = PeerManager::new();
    for i in 0..MAX_CONNECTIONS_PER_GROUP {
        assert_eq!(
            pm.admit_inbound(v4(203, 0, 113, i as u8)),
            InboundAdmission::Accepted
        );
    }
    assert_eq!(
        pm.admit_inbound(v4(203, 0, 113, 200)),
        InboundAdmission::GroupFull,
        "a different address in the same /24 is the same group"
    );
    assert_eq!(
        pm.admit_inbound(v4(203, 0, 114, 1)),
        InboundAdmission::Accepted
    );
}

#[test]
fn an_ipv6_site_cannot_spread_across_its_own_subnets() {
    let mut pm = PeerManager::new();
    // Four connections, each from a different /64 of one /48.
    for n in 0..MAX_CONNECTIONS_PER_SITE {
        let addr = v6(&format!("2001:db8:1:{}::1", n));
        assert_eq!(pm.admit_inbound(addr), InboundAdmission::Accepted);
    }
    assert_eq!(
        pm.admit_inbound(v6("2001:db8:1:99::1")),
        InboundAdmission::GroupFull,
        "a fresh /64 inside a site that has used its share"
    );
    assert_eq!(
        pm.admit_inbound(v6("2001:db8:2:1::1")),
        InboundAdmission::Accepted,
        "a different /48 is a different site"
    );
}

#[test]
fn the_last_slots_are_kept_for_groups_we_do_not_know() {
    let mut pm = PeerManager::new();
    let open = MAX_INBOUND_PEERS - RESERVED_INBOUND_SLOTS;
    for n in 0..open {
        let addr = v4(203, 0, n as u8, 1);
        assert_eq!(pm.admit_inbound(addr), InboundAdmission::Accepted);
    }
    // A group already at the table cannot have the reserved slots.
    assert_eq!(
        pm.admit_inbound(v4(203, 0, 0, 2)),
        InboundAdmission::Reserved
    );
    // One we have never heard from can.
    assert_eq!(
        pm.admit_inbound(v4(198, 51, 100, 1)),
        InboundAdmission::Accepted
    );
}

#[test]
fn a_socket_that_never_finishes_its_handshake_still_occupies_a_slot() {
    // inbound_count() only counts peers past the handshake, but a socket that
    // is merely open has to count against something too.
    let mut pm = PeerManager::new();
    assert_eq!(pm.inbound_in_flight(), 0);
    pm.admit_inbound(v4(203, 0, 113, 1));
    assert_eq!(pm.inbound_in_flight(), 1);
    assert_eq!(pm.inbound_count(), 0, "no handshake has completed");

    pm.release_inbound(v4(203, 0, 113, 1));
    assert_eq!(pm.inbound_in_flight(), 0);
}

#[test]
fn inbound_fills_up() {
    let mut pm = PeerManager::new();
    let mut accepted = 0;
    for n in 0..MAX_INBOUND_PEERS * 2 {
        // A fresh group each time, so only the total can be what stops it.
        let addr = v4(198, 51, n as u8, 1);
        if pm.admit_inbound(addr) == InboundAdmission::Accepted {
            accepted += 1;
        }
    }
    assert_eq!(accepted, MAX_INBOUND_PEERS);
    assert_eq!(pm.admit_inbound(v4(198, 51, 200, 1)), InboundAdmission::Full);
}
