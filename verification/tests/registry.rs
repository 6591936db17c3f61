use belka_chain::peer::{Endpoint, Peer};
use belka_chain::registry::PeerRegistry;

fn ep(port: u16) -> Endpoint {
    Endpoint { ip: 0x7f_00_00_01, port }
}

fn connected_peer(port: u16) -> Peer {
    let mut p = Peer::new(ep(port), vec![port as u8]);
    p.connect();
    p
}

#[test]
fn fresh_registry_is_empty() {
    let r: PeerRegistry<u32> = PeerRegistry::new();
    assert_eq!(r.peer_count(), 0);
    assert!(r.connected_addresses().is_empty());
    assert!(!r.contains(ep(1)));
    assert!(r.lookup_channel(ep(1)).is_none());
}

#[test]
fn insert_registers_record_and_channel_together() {
    let mut r: PeerRegistry<u32> = PeerRegistry::new();
    assert!(r.insert(ep(1), connected_peer(1), 11));
    assert!(r.contains(ep(1)));
    assert_eq!(r.lookup_channel(ep(1)), Some(&11));
    assert_eq!(r.peer_count(), 1);
    assert_eq!(r.connected_addresses(), vec![ep(1)]);
}

#[test]
fn duplicate_insert_keeps_the_existing_connection() {
    let mut r: PeerRegistry<u32> = PeerRegistry::new();
    assert!(r.insert(ep(1), connected_peer(1), 11));
    assert!(!r.insert(ep(1), connected_peer(1), 22));
    assert_eq!(r.lookup_channel(ep(1)), Some(&11));
    assert_eq!(r.peer_count(), 1);
}

#[test]
fn remove_removes_both_entries_and_is_idempotent() {
    let mut r: PeerRegistry<u32> = PeerRegistry::new();
    r.insert(ep(1), connected_peer(1), 11);
    r.insert(ep(2), connected_peer(2), 22);
    r.remove(ep(1));
    assert!(!r.contains(ep(1)));
    assert!(r.lookup_channel(ep(1)).is_none());
    assert_eq!(r.peer_count(), 1);
    r.remove(ep(1));
    assert_eq!(r.peer_count(), 1);
    assert_eq!(r.lookup_channel(ep(2)), Some(&22));
}

#[test]
fn record_presence_always_matches_channel_presence() {
    let mut r: PeerRegistry<&'static str> = PeerRegistry::new();
    r.insert(ep(1), connected_peer(1), "a");
    r.insert(ep(2), connected_peer(2), "b");
    r.insert(ep(3), connected_peer(3), "c");
    r.remove(ep(2));
    for port in 1..=4u16 {
        assert_eq!(r.contains(ep(port)), r.lookup_channel(ep(port)).is_some());
    }
}

#[test]
fn disconnected_records_are_not_counted() {
    let mut r: PeerRegistry<u32> = PeerRegistry::new();
    r.insert(ep(1), Peer::new(ep(1), vec![]), 11);
    r.insert(ep(2), connected_peer(2), 22);
    assert_eq!(r.peer_count(), 1);
    assert_eq!(r.connected_addresses(), vec![ep(2)]);
    // The disconnected peer still has its entries until teardown removes
    // them.
    assert!(r.contains(ep(1)));
    assert_eq!(r.lookup_channel(ep(1)), Some(&11));
}

#[test]
fn disconnection_cleanup_drops_the_count_by_one() {
    let mut r: PeerRegistry<u32> = PeerRegistry::new();
    r.insert(ep(1), connected_peer(1), 11);
    r.insert(ep(2), connected_peer(2), 22);
    assert_eq!(r.peer_count(), 2);
    r.remove(ep(2));
    assert_eq!(r.peer_count(), 1);
    assert!(!r.connected_addresses().contains(&ep(2)));
}

#[test]
fn snapshot_is_not_affected_by_later_changes() {
    let mut r: PeerRegistry<u32> = PeerRegistry::new();
    r.insert(ep(1), connected_peer(1), 11);
    let snapshot = r.connected_addresses();
    r.insert(ep(2), connected_peer(2), 22);
    r.remove(ep(1));
    assert_eq!(snapshot, vec![ep(1)]);
}

#[test]
fn peer_record_state_transitions() {
    let mut p = Peer::new(ep(9), b"node-9".to_vec());
    assert!(!p.is_connected);
    assert_eq!(p.address, ep(9));
    assert_eq!(p.node_id, b"node-9".to_vec());
    p.connect();
    assert!(p.is_connected);
    p.disconnect();
    assert!(!p.is_connected);
}
