use network::addr::Addr;
use network::rip;
use network::rip::{parse, Entry, Packet, RipError};

#[test]
fn parse_invalid() {
    assert!(parse(&[0]).is_err());
    assert!(parse(&[1]).is_err());
    assert!(parse(&[2]).is_err());

    assert!(parse(&[0, 0]).is_err());
    assert!(parse(&[1, 0]).is_err());
    assert!(parse(&[2, 0]).is_err());

    assert!(parse(&[0, 0]).is_err());
    assert!(parse(&[1, 0, 0]).is_err());
    assert!(parse(&[2, 0, 0, 0]).is_err());

    assert!(parse(&[1, 1, 0]).is_err());
    assert!(parse(&[2, 1, 0, 0]).is_err());
}

#[test]
fn parse_request() {
    assert_eq!(parse(&[0, 1]), Ok(Packet::Request));
}

#[test]
fn parse_response() {
    let empty: Vec<Entry> = Vec::new();
    assert_eq!(parse(&[0, 2, 0, 0]), Ok(Packet::Response(empty)));
}

#[test]
fn write_request() {
    let msg: &[u8] = &[0, 1, 0, 0];
    let mut vec = Vec::new();
    rip::write(&Packet::Request, &mut vec);
    assert_eq!(vec.as_slice(), msg);
}

#[test]
fn write_response() {
    {
        let msg: &[u8] = &[0, 2, 0, 0];
        let mut vec = Vec::new();
        rip::write(&Packet::Response(Vec::new()), &mut vec);
        assert_eq!(vec.as_slice(), msg);
    }
    {
        let entries = vec![
            Entry { cost: 5, address: Addr(1, 2, 3, 4) },
            Entry { cost: 16, address: Addr(5, 4, 3, 2) },
        ];
        let msg: &[u8] = &[0, 2, 0, 2, 0, 0, 0, 5, 1, 2, 3, 4, 0, 0, 0, 16, 5, 4, 3, 2];
        let mut vec = Vec::new();
        rip::write(&Packet::Response(entries), &mut vec);
        assert_eq!(vec.as_slice(), msg);
    }
}

#[test]
fn round_trip_response() {
    let entries = vec![
        Entry { cost: 0, address: Addr(10, 0, 0, 1) },
        Entry { cost: 0x0102_0304, address: Addr(255, 255, 255, 255) },
        Entry { cost: 16, address: Addr(192, 168, 1, 7) },
    ];
    let p = Packet::Response(entries);
    let mut buf = Vec::new();
    rip::write(&p, &mut buf);
    assert_eq!(buf.len(), 4 + 8 * 3);
    assert_eq!(parse(&buf), Ok(p));
}

#[test]
fn round_trip_request() {
    let mut buf = Vec::new();
    rip::write(&Packet::Request, &mut buf);
    assert_eq!(parse(&buf), Ok(Packet::Request));
}

#[test]
fn write_appends_after_existing_bytes() {
    let mut buf = vec![9, 9];
    rip::write(&Packet::Request, &mut buf);
    assert_eq!(buf, vec![9, 9, 0, 1, 0, 0]);
}

#[test]
fn truncated_response_is_rejected() {
    // declares two entries, holds one and a half
    let buf = [0, 2, 0, 2, 0, 0, 0, 5, 1, 2, 3, 4, 0, 0, 0, 16];
    assert_eq!(parse(&buf), Err(RipError::TruncatedPacket));
    assert_eq!(parse(&[0]), Err(RipError::TruncatedPacket));
    assert_eq!(parse(&[0, 2, 0]), Err(RipError::TruncatedPacket));
}

#[test]
fn unknown_kinds_are_rejected() {
    assert_eq!(parse(&[0, 0, 0, 0]), Err(RipError::UnknownPacketKind));
    assert_eq!(parse(&[0, 3, 0, 0]), Err(RipError::UnknownPacketKind));
    assert_eq!(parse(&[1, 0]), Err(RipError::UnknownPacketKind));
    assert_eq!(parse(&[255, 255, 0, 0]), Err(RipError::UnknownPacketKind));
}

#[test]
fn trailing_bytes_are_ignored() {
    let buf = [0, 2, 0, 1, 0, 0, 0, 7, 10, 0, 0, 2, 0xaa, 0xbb];
    assert_eq!(
        parse(&buf),
        Ok(Packet::Response(vec![Entry { cost: 7, address: Addr(10, 0, 0, 2) }]))
    );
    assert_eq!(parse(&[0, 1, 0, 0, 5]), Ok(Packet::Request));
}
