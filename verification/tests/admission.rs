//! Who is let in, and where keys lead.

use std::time::Duration;

use dsh_proxy::admission::{BridgeDoor, PeerSlots};
use dsh_proxy::routing::{bridge_preamble, greeting, sniff, Greeting, Opening, Table};
use dsh_proxy::Limits;

#[test]
fn default_limits() {
    let limits = Limits::default();
    assert_eq!(limits.max_bridges, 1024);
    assert_eq!(limits.max_bridges_per_ip, 32);
    assert_eq!(limits.max_clients_per_ip, 64);
    assert_eq!(limits.max_streams_per_bridge, 2048);
    assert_eq!(limits.handshake_timeout, Duration::from_secs(10));
}

#[test]
fn too_many_bridges_from_one_ip_are_refused() {
    let limits = Limits { max_bridges_per_ip: 2, ..Default::default() };
    let mut door = BridgeDoor::new(limits.max_bridges, limits.max_bridges_per_ip);
    let ip = [127, 0, 0, 1];
    let first = door.enter(&ip).unwrap();
    let _second = door.enter(&ip).unwrap();
    assert!(door.enter(&ip).is_none());
    // Another address has a share of its own.
    assert!(door.enter(&[127, 0, 0, 2]).is_some());
    assert!(door.enter(&[0u8; 16]).is_some());
    door.leave(first);
    assert!(door.enter(&ip).is_some());
    assert!(door.enter(&ip).is_none());
}

#[test]
fn the_process_holds_no_more_bridges_than_its_budget() {
    let mut door = BridgeDoor::new(3, 2);
    let mut held = Vec::new();
    for last in 0..10u8 {
        if let Some(slot) = door.enter(&[10, 0, 0, last]) {
            held.push(slot);
        }
    }
    assert_eq!(held.len(), 3);
    door.leave(held.pop().unwrap());
    // Refused for want of budget, the peers were not counted.
    assert!(door.enter(&[10, 0, 0, 9]).is_some());
    assert!(door.enter(&[10, 0, 0, 8]).is_none());
    assert!(BridgeDoor::new(0, 5).enter(&[1]).is_none());
}

#[test]
fn shares_are_counted_per_peer() {
    let mut slots = PeerSlots::new();
    assert!(slots.claim(&[1], 2));
    assert!(slots.claim(&[1], 2));
    assert!(!slots.claim(&[1], 2));
    assert!(slots.claim(&[2], 1));
    assert!(!slots.claim(&[2], 1));
    slots.release(&[1]);
    assert!(slots.claim(&[1], 2));
    slots.release(&[3]);
    assert!(!slots.claim(&[3], 0));
    slots.release(&[3]);
    assert!(slots.claim(&[3], 1));
}

/// A key that is registered again leads to the later link, and the end of the
/// earlier one leaves it alone.
#[test]
fn a_duplicate_registration_takes_over() {
    let mut table = Table::new();
    let key = [4u8; 32];
    assert_eq!(table.register(&key, 1), None);
    assert_eq!(table.register(&[5u8; 32], 9), None);
    assert_eq!(table.register(&key, 2), Some(1));
    table.unregister(&key, 1);
    assert_eq!(table.lookup(&key), Some(2));
    table.unregister(&key, 2);
    assert_eq!(table.lookup(&key), None);
    assert_eq!(table.lookup(&[5u8; 32]), Some(9));
    table.unregister(&key, 2);
}

#[test]
fn the_first_byte_tells_tls() {
    assert_eq!(sniff(0x16), Opening::Tls);
    assert_eq!(sniff(b'D'), Opening::Preamble);
    assert_eq!(sniff(0), Opening::Preamble);
}

#[test]
fn a_bridge_says_that_it_is_one() {
    for key in [[0u8; 32], [9u8; 32]] {
        let head = bridge_preamble(&key);
        assert_eq!(head, [&b"DSHB"[..], &[1], &key].concat());
        assert!(matches!(greeting(&head.try_into().unwrap()), Greeting::Bridge));
    }
}
