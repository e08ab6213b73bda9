use network::addr::{parse_addr, parse_addr_unsafe, parse_text, write_addr, Addr, AddrError};

#[test]
fn text_parses_to_octets() {
    assert_eq!(parse_text("10.0.0.1"), Ok(Addr(10, 0, 0, 1)));
    assert_eq!(parse_text("255.255.255.255"), Ok(Addr(255, 255, 255, 255)));
    assert_eq!(parse_text("0.0.0.0"), Ok(Addr(0, 0, 0, 0)));
}

#[test]
fn bad_text_is_a_parse_error() {
    for s in ["1.2.3", "1.2.3.4.5", "256.0.0.1", "a.b.c.d", "1..2.3", "", "1.2.3.", " 1.2.3.4", "1.2.3.-4"] {
        assert_eq!(parse_text(s), Err(AddrError::ParseError), "{}", s);
    }
}

#[test]
fn format_gives_canonical_text() {
    let a = parse_text("010.001.000.200").unwrap();
    assert_eq!(a, Addr(10, 1, 0, 200));
    assert_eq!(a.format_bytes(), b"10.1.0.200".to_vec());
    assert_eq!(Addr(192, 168, 0, 9).format_bytes(), b"192.168.0.9".to_vec());
}

#[test]
fn text_round_trip() {
    for a in [Addr(0, 0, 0, 0), Addr(1, 22, 133, 255), Addr(99, 100, 9, 10)] {
        let text = String::from_utf8(a.format_bytes()).unwrap();
        assert_eq!(parse_text(&text), Ok(a));
    }
}

#[test]
fn byte_forms() {
    let b = [192, 168, 1, 2];
    let a = parse_addr(&b);
    assert_eq!(a, Addr(192, 168, 1, 2));
    assert_eq!(write_addr(a), b);
    assert_eq!(a.to_bytes(), b.to_vec());
    assert_eq!(parse_addr_unsafe(&b), Ok(a));
    assert_eq!(parse_addr_unsafe(&[1, 2, 3]), Err(AddrError::MalformedAddress));
    assert_eq!(parse_addr_unsafe(&[1, 2, 3, 4, 5]), Err(AddrError::MalformedAddress));
    assert_eq!(parse_addr_unsafe(&[]), Err(AddrError::MalformedAddress));
}

#[test]
fn addresses_are_ordered_by_octets() {
    assert!(Addr(1, 2, 3, 4) < Addr(1, 2, 4, 0));
    assert!(Addr(2, 0, 0, 0) > Addr(1, 255, 255, 255));
}

#[test]
fn display_text_and_from_str() {
    assert_eq!(Addr(10, 0, 0, 1).to_string(), "10.0.0.1");
    assert_eq!(Addr(255, 0, 100, 7).to_string(), "255.0.100.7");
    assert_eq!("172.16.5.4".parse::<Addr>(), Ok(Addr(172, 16, 5, 4)));
    assert_eq!("172.16.5".parse::<Addr>(), Err(AddrError::ParseError));
}

#[test]
fn ip_octet_helpers() {
    assert_eq!(network::rip::parse_ip(&[1, 2, 3, 4]), Addr(1, 2, 3, 4));
    assert_eq!(network::rip::write_ip(Addr(5, 4, 3, 2)), [5, 4, 3, 2]);
    assert_eq!(network::tcp::parse_ip(&[9, 8, 7, 6]), Addr(9, 8, 7, 6));
    assert_eq!(network::tcp::write_ip(Addr(6, 7, 8, 9)), [6, 7, 8, 9]);
}
