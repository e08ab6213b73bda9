use network::addr::Addr;
use network::tcp::TcpPacket;

fn segment() -> TcpPacket {
    let mut data = vec![0u8; 20];
    data[12] = 5 << 4;
    data.extend_from_slice(b"payload");
    TcpPacket::new(Addr(10, 0, 0, 1), Addr(10, 0, 0, 2), data).unwrap()
}

#[test]
fn segment_length_is_checked() {
    assert!(TcpPacket::new(Addr(1, 1, 1, 1), Addr(2, 2, 2, 2), vec![0; 19]).is_none());
    assert!(TcpPacket::new(Addr(1, 1, 1, 1), Addr(2, 2, 2, 2), vec![0; 20]).is_some());
    assert!(TcpPacket::new(Addr(1, 1, 1, 1), Addr(2, 2, 2, 2), vec![0; 65536]).is_none());
}

#[test]
fn ports_and_addresses() {
    let mut p = segment();
    assert_eq!(p.get_src_addr(), Addr(10, 0, 0, 1));
    assert_eq!(p.get_dst_addr(), Addr(10, 0, 0, 2));
    p.set_src_port(0x1234);
    p.set_dst_port(80);
    assert_eq!(p.get_src_port(), 0x1234);
    assert_eq!(p.get_dst_port(), 80);
    assert_eq!(p.segment()[..4], [0x12, 0x34, 0, 80]);
}

#[test]
fn flags() {
    let mut p = segment();
    assert!(!p.is_ack() && !p.is_syn() && !p.is_fin() && !p.is_rst());
    p.set_syn();
    assert!(p.is_syn() && !p.is_ack());
    p.set_ack();
    p.set_fin();
    p.set_rst();
    assert!(p.is_ack() && p.is_syn() && p.is_fin() && p.is_rst());
    assert_eq!(p.segment()[13], 0x17);
}

#[test]
fn sequence_and_ack_numbers() {
    let mut p = segment();
    p.set_seq_num(0xbeef);
    assert_eq!(p.get_seq_num(), 0xbeef);
    p.set_ack();
    p.set_ack_num(7);
    assert_eq!(p.get_ack_num(), 7);
    assert_eq!(p.get_hdr_size(), 20);
}

#[test]
fn checksum_covers_pseudo_header_and_segment() {
    let mut p = segment();
    p.set_src_port(1000);
    p.set_dst_port(2000);
    let c = p.compute_checksum();
    p.set_checksum(c);
    assert_eq!(p.get_checksum(), c);
    // recomputing ignores the stored checksum
    assert_eq!(p.compute_checksum(), c);
    // the stored checksum makes the one's complement sum all ones
    let seg = p.segment().clone();
    let mut s: u64 = 10 * 256 + 0 + 0 * 256 + 1 + 10 * 256 + 0 + 0 * 256 + 2 + 6 + seg.len() as u64;
    let mut i = 0;
    while i < seg.len() {
        let hi = seg[i] as u64;
        let lo = if i + 1 < seg.len() { seg[i + 1] as u64 } else { 0 };
        s += hi * 256 + lo;
        i += 2;
    }
    while s > 0xffff {
        s = (s >> 16) + (s & 0xffff);
    }
    assert_eq!(s, 0xffff);
    // any change to the payload changes the checksum
    let mut q = segment();
    q.set_src_port(1000);
    q.set_dst_port(2001);
    assert_ne!(q.compute_checksum(), c);
}
