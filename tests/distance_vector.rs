use network::addr::Addr;
use network::rip::{Entry, Packet, INFINITY};
use network::routing::{RoutingRow, RoutingTable};

const A: Addr = Addr(10, 0, 0, 1);
const B: Addr = Addr(10, 0, 0, 2);
const D: Addr = Addr(10, 0, 9, 9);
const E: Addr = Addr(10, 0, 8, 8);

fn two_neighbors() -> RoutingTable {
    RoutingTable::init(&vec![A, B], 0)
}

#[test]
fn init_seeds_neighbors_at_cost_one() {
    let t = two_neighbors();
    assert_eq!(t.len(), 2);
    assert_eq!(t.lookup(A), Some(RoutingRow { destination: A, cost: 1, next_hop: A, refreshed: 0 }));
    assert_eq!(t.lookup(B), Some(RoutingRow { destination: B, cost: 1, next_hop: B, refreshed: 0 }));
    assert_eq!(t.lookup(D), None);
    let dup = RoutingTable::init(&vec![A, A], 0);
    assert_eq!(dup.len(), 1);
}

#[test]
fn lower_cost_wins_and_worse_is_ignored() {
    let mut t = two_neighbors();
    t.process_entry(A, Entry { cost: 2, address: D }, 1);
    assert_eq!(t.lookup(D), Some(RoutingRow { destination: D, cost: 3, next_hop: A, refreshed: 1 }));
    t.process_entry(B, Entry { cost: 1, address: D }, 2);
    assert_eq!(t.lookup(D), Some(RoutingRow { destination: D, cost: 2, next_hop: B, refreshed: 2 }));
    t.process_entry(A, Entry { cost: 5, address: D }, 3);
    assert_eq!(t.lookup(D), Some(RoutingRow { destination: D, cost: 2, next_hop: B, refreshed: 2 }));
}

#[test]
fn refresh_from_same_neighbor() {
    let mut t = two_neighbors();
    t.process_entry(A, Entry { cost: 2, address: D }, 1);
    t.process_entry(A, Entry { cost: 2, address: D }, 7);
    assert_eq!(t.lookup(D), Some(RoutingRow { destination: D, cost: 3, next_hop: A, refreshed: 7 }));
    // an equal cost from another neighbor is no improvement
    t.process_entry(B, Entry { cost: 2, address: D }, 8);
    assert_eq!(t.lookup(D).unwrap().next_hop, A);
}

#[test]
fn withdrawal_from_next_hop_poisons() {
    let mut t = two_neighbors();
    t.process_entry(A, Entry { cost: 2, address: D }, 1);
    t.process_entry(A, Entry { cost: INFINITY, address: D }, 2);
    assert_eq!(t.lookup(D).unwrap().cost, INFINITY);
    // an unreachable destination that is not known is not installed
    t.process_entry(B, Entry { cost: INFINITY, address: E }, 2);
    assert_eq!(t.lookup(E), None);
    // cost 15 plus one hop is already unreachable
    t.process_entry(B, Entry { cost: 15, address: E }, 2);
    assert_eq!(t.lookup(E), None);
}

#[test]
fn advertisement_applies_entries_in_order() {
    let mut t = two_neighbors();
    t.process_advertisement(A, &vec![Entry { cost: 4, address: D }, Entry { cost: 1, address: D }, Entry { cost: 0, address: E }], 5);
    assert_eq!(t.lookup(D), Some(RoutingRow { destination: D, cost: 2, next_hop: A, refreshed: 5 }));
    assert_eq!(t.lookup(E), Some(RoutingRow { destination: E, cost: 1, next_hop: A, refreshed: 5 }));
}

#[test]
fn split_horizon_leaves_out_routes_learned_from_the_neighbor() {
    let mut t = two_neighbors();
    t.process_entry(A, Entry { cost: 2, address: D }, 1);
    let to_a = t.advertisement_for(A);
    let to_b = t.advertisement_for(B);
    assert_eq!(to_a, vec![Entry { cost: 1, address: B }]);
    assert_eq!(to_b, vec![Entry { cost: 1, address: A }, Entry { cost: 3, address: D }]);
}

#[test]
fn request_is_answered_with_split_horizon_dump() {
    let mut t = two_neighbors();
    t.process_entry(A, Entry { cost: 2, address: D }, 1);
    let reply = t.receive_advertisement(B, &Packet::Request, 2);
    assert_eq!(reply, Some(vec![Entry { cost: 1, address: A }, Entry { cost: 3, address: D }]));
    let none = t.receive_advertisement(B, &Packet::Response(vec![Entry { cost: 0, address: E }]), 3);
    assert_eq!(none, None);
    assert_eq!(t.lookup(E).unwrap().next_hop, B);
}

#[test]
fn stale_route_is_advertised_at_infinity_then_removed() {
    let mut t = two_neighbors();
    t.process_entry(A, Entry { cost: 2, address: D }, 1);
    // still fresh
    let ads = t.tick(13, &vec![A, B]);
    assert_eq!(ads[1], vec![Entry { cost: 1, address: A }, Entry { cost: 3, address: D }]);
    assert!(t.lookup(D).is_some());
    // now stale: poisoned, advertised once at infinity, then gone
    let ads = t.tick(14, &vec![A, B]);
    assert_eq!(ads[0], vec![Entry { cost: 1, address: B }]);
    assert_eq!(ads[1], vec![Entry { cost: 1, address: A }, Entry { cost: INFINITY, address: D }]);
    assert_eq!(t.lookup(D), None);
    // routes to neighbors do not expire
    assert!(t.lookup(A).is_some());
    assert!(t.lookup(B).is_some());
}

#[test]
fn withdrawn_route_is_advertised_once_then_removed() {
    let mut t = two_neighbors();
    t.process_entry(A, Entry { cost: 2, address: D }, 1);
    t.process_entry(A, Entry { cost: INFINITY, address: D }, 2);
    let ads = t.tick(3, &vec![B]);
    assert_eq!(ads[0], vec![Entry { cost: 1, address: A }, Entry { cost: INFINITY, address: D }]);
    assert_eq!(t.lookup(D), None);
    let ads = t.tick(4, &vec![B]);
    assert_eq!(ads[0], vec![Entry { cost: 1, address: A }]);
}

#[test]
fn install_or_update_replaces_by_destination() {
    let mut t = RoutingTable::new();
    let r1 = RoutingRow { destination: D, cost: 4, next_hop: A, refreshed: 0 };
    let r2 = RoutingRow { destination: D, cost: 2, next_hop: B, refreshed: 1 };
    t.install_or_update(r1);
    t.install_or_update(r2);
    assert_eq!(t.len(), 1);
    assert_eq!(t.lookup(D), Some(r2));
    assert_eq!(t.row_at(0), r2);
}

#[test]
fn costs_above_infinity_are_stored_as_infinity() {
    let mut t = RoutingTable::new();
    t.install_or_update(RoutingRow { destination: D, cost: 40, next_hop: A, refreshed: 0 });
    assert_eq!(t.lookup(D), Some(RoutingRow { destination: D, cost: INFINITY, next_hop: A, refreshed: 0 }));
}
