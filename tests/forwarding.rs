use network::addr::Addr;
use network::dispatch::ProtocolTable;
use network::interfaces::{InterfaceRow, Interfaces, Link};
use network::state::State;
use network::ipv4::{build_packet, receive, Action, DropReason};
use network::rip::Entry;
use network::routing::RoutingTable;

use std::cell::RefCell;
use std::rc::Rc;

struct FakeLink {
    enabled: bool,
}

impl Link for FakeLink {
    fn enabled(&self) -> bool {
        self.enabled
    }
    fn enable(&mut self) {
        self.enabled = true;
    }
    fn disable(&mut self) {
        self.enabled = false;
    }
}

const LOCAL0: Addr = Addr(10, 0, 0, 100);
const LOCAL1: Addr = Addr(10, 0, 1, 100);
const A: Addr = Addr(10, 0, 0, 1);
const B: Addr = Addr(10, 0, 1, 1);
const D: Addr = Addr(172, 16, 0, 5);

fn sum_ok(h: &[u8]) -> bool {
    let mut s: u32 = 0;
    for k in 0..h.len() / 2 {
        s += (h[2 * k] as u32) * 256 + h[2 * k + 1] as u32;
    }
    while s > 0xffff {
        s = (s >> 16) + (s & 0xffff);
    }
    s == 0xffff
}

fn header(ttl: u8, protocol: u8, dst: Addr, payload: &[u8]) -> Vec<u8> {
    let total = 20 + payload.len();
    let mut h = vec![
        0x45, 0, (total >> 8) as u8, total as u8, 0, 0, 0, 0, ttl, protocol, 0, 0, 10, 0, 0, 1,
        dst.0, dst.1, dst.2, dst.3,
    ];
    let mut s: u32 = 0;
    for k in 0..10 {
        s += (h[2 * k] as u32) * 256 + h[2 * k + 1] as u32;
    }
    while s > 0xffff {
        s = (s >> 16) + (s & 0xffff);
    }
    let c = 0xffff - s as u16;
    h[10] = (c >> 8) as u8;
    h[11] = c as u8;
    h.extend_from_slice(payload);
    h
}

fn setup() -> (RoutingTable, Interfaces<FakeLink>) {
    let mut ifaces = Interfaces::new();
    let i0 = ifaces.register(LOCAL0, FakeLink { enabled: true });
    let i1 = ifaces.register(LOCAL1, FakeLink { enabled: true });
    assert!(ifaces.add_neighbor(A, i0));
    assert!(ifaces.add_neighbor(B, i1));
    let mut t = RoutingTable::init(&vec![A, B], 0);
    t.process_entry(B, Entry { cost: 1, address: D }, 0);
    (t, ifaces)
}

#[test]
fn ttl_one_is_dropped_not_forwarded() {
    let (t, ifaces) = setup();
    let frame = header(1, 17, D, b"data");
    assert!(sum_ok(&frame[..20]));
    assert_eq!(receive(&t, &frame, &ifaces), Action::Drop(DropReason::TtlExpired));
}

#[test]
fn forwarding_lowers_ttl_and_fixes_checksum() {
    let (t, ifaces) = setup();
    let frame = header(64, 17, D, b"data");
    match receive(&t, &frame, &ifaces) {
        Action::Forward { interface, packet } => {
            assert_eq!(interface, 1);
            assert_eq!(packet[8], 63);
            assert!(sum_ok(&packet[..20]));
            assert_eq!(packet[..8], frame[..8]);
            assert_eq!(packet[12..], frame[12..]);
        }
        other => panic!("not forwarded: {:?}", other),
    }
}

#[test]
fn local_delivery_strips_header() {
    let (t, ifaces) = setup();
    let frame = header(1, 6, LOCAL1, b"hello");
    assert_eq!(receive(&t, &frame, &ifaces), Action::Deliver { protocol: 6, src: A, payload: b"hello".to_vec() });
}

#[test]
fn bad_frames_are_dropped() {
    let (t, ifaces) = setup();
    let mut frame = header(64, 17, D, b"data");
    frame[15] ^= 1;
    assert_eq!(receive(&t, &frame, &ifaces), Action::Drop(DropReason::ChecksumMismatch));
    assert_eq!(receive(&t, &[0x45, 0, 0], &ifaces), Action::Drop(DropReason::Malformed));
    let mut v6 = header(64, 17, D, b"");
    v6[0] = 0x65;
    assert_eq!(receive(&t, &v6, &ifaces), Action::Drop(DropReason::Malformed));
    let unknown = header(64, 17, Addr(8, 8, 8, 8), b"");
    assert_eq!(receive(&t, &unknown, &ifaces), Action::Drop(DropReason::NoRoute));
}

#[test]
fn interface_registry() {
    let (_, mut ifaces) = setup();
    assert_eq!(ifaces.neighbor_to_index(A), Some(0));
    assert_eq!(ifaces.neighbor_to_index(B), Some(1));
    assert_eq!(ifaces.neighbor_to_index(D), None);
    assert!(!ifaces.add_neighbor(A, 1));
    assert!(!ifaces.add_neighbor(D, 7));
    assert_eq!(ifaces.get_interface(1).unwrap().local_ip, LOCAL1);
    assert!(ifaces.get_interface(2).is_none());
    assert!(ifaces.is_local(LOCAL0));
    assert!(!ifaces.is_local(A));
    assert_eq!(ifaces.down(1), Some(()));
    assert!(!ifaces.get_interface(1).unwrap().interface.enabled);
    assert_eq!(ifaces.up(1), Some(()));
    assert!(ifaces.get_interface(1).unwrap().interface.enabled);
    assert_eq!(ifaces.up(5), None);
}

#[test]
fn dispatch_runs_handlers_in_registration_order() {
    let log: Rc<RefCell<Vec<(u32, Vec<u8>)>>> = Rc::new(RefCell::new(Vec::new()));
    let mut table: ProtocolTable<Box<dyn Fn(Vec<u8>)>> = ProtocolTable::new();
    let l1 = log.clone();
    table.register(6, Box::new(move |p: Vec<u8>| l1.borrow_mut().push((1, p))));
    let l2 = log.clone();
    table.register(6, Box::new(move |p: Vec<u8>| l2.borrow_mut().push((2, p))));
    table.dispatch(6, &b"seg".to_vec());
    assert_eq!(*log.borrow(), vec![(1, b"seg".to_vec()), (2, b"seg".to_vec())]);
    table.dispatch(17, &b"dgram".to_vec());
    assert_eq!(log.borrow().len(), 2);
    assert_eq!(table.handlers(6).len(), 2);
    assert_eq!(table.handlers(255).len(), 0);
}

#[test]
fn state_wires_interfaces_routes_and_handlers() {
    let rows = vec![
        InterfaceRow { local_ip: LOCAL0, interface: FakeLink { enabled: true } },
        InterfaceRow { local_ip: LOCAL1, interface: FakeLink { enabled: true } },
    ];
    let mut state: State<FakeLink, Box<dyn Fn(Vec<u8>)>> = State::new(rows, &vec![(A, 0), (B, 1)], 0);
    assert_eq!(state.routes.lookup(A).unwrap().cost, 1);
    assert_eq!(state.routes.lookup(B).unwrap().next_hop, B);
    assert_eq!(state.interfaces.neighbor_to_index(B), Some(1));
    assert_eq!(state.get_interface(0).unwrap().local_ip, LOCAL0);
    assert!(state.get_interface(2).is_none());
    assert_eq!(state.protocol_handlers.handlers(6).len(), 0);
    assert_eq!(state.down(0), Some(()));
    assert!(!state.get_interface(0).unwrap().interface.enabled);
    assert_eq!(state.up(0), Some(()));
    assert_eq!(state.down(3), None);
    let frame = header(5, 17, B, b"x");
    match state.receive(&frame) {
        Action::Forward { interface, packet } => {
            assert_eq!(interface, 1);
            assert_eq!(packet[8], 4);
        }
        other => panic!("not forwarded: {:?}", other),
    }
}

#[test]
fn built_packets_carry_a_valid_header() {
    let (t, ifaces) = setup();
    let frame = build_packet(B, LOCAL1, 200, 16, &b"rip".to_vec());
    assert_eq!(frame.len(), 23);
    assert_eq!(frame[..10], [0x45, 0, 0, 23, 0, 0, 0, 0, 16, 200]);
    assert_eq!(frame[12..20], [10, 0, 1, 1, 10, 0, 1, 100]);
    assert!(sum_ok(&frame[..20]));
    assert_eq!(receive(&t, &frame, &ifaces), Action::Deliver { protocol: 200, src: B, payload: b"rip".to_vec() });
}

#[test]
fn state_tick_advertises_toward_each_neighbor() {
    let rows = vec![
        InterfaceRow { local_ip: LOCAL0, interface: FakeLink { enabled: true } },
        InterfaceRow { local_ip: LOCAL1, interface: FakeLink { enabled: true } },
    ];
    let mut state: State<FakeLink, Box<dyn Fn(Vec<u8>)>> = State::new(rows, &vec![(A, 0), (B, 1)], 0);
    state.routes.process_entry(A, Entry { cost: 2, address: D }, 1);
    let ads = state.tick(2);
    assert_eq!(ads, vec![vec![Entry { cost: 1, address: B }], vec![Entry { cost: 1, address: A }, Entry { cost: 3, address: D }]]);
    let ads = state.tick(20);
    assert_eq!(ads[1], vec![Entry { cost: 1, address: A }, Entry { cost: 16, address: D }]);
    assert_eq!(state.routes.lookup(D), None);
}
