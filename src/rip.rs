use vstd::prelude::*;

use crate::addr::Addr;

verus! {

/// Cost at and above which a destination counts as unreachable.
pub const INFINITY: u32 = 16;

/// One advertised route: the sender's cost to reach `address`.
#[derive(PartialEq, Eq, PartialOrd, Ord, Copy, Clone, Hash, Debug, Structural)]
pub struct Entry {
    pub cost: u32,
    pub address: Addr,
}

/// A routing advertisement: a request for the peer's table, or a response
/// carrying routes.
#[derive(PartialEq, Eq, PartialOrd, Ord, Clone, Debug)]
pub enum Packet<Arr> {
    Request,
    Response(Arr),
}

/// Why a buffer is not a routing advertisement.
#[derive(PartialEq, Eq, Copy, Clone, Debug, Structural)]
pub enum RipError {
    TruncatedPacket,
    UnknownPacketKind,
}

pub open spec fn be16(b: Seq<u8>, i: int) -> int {
    b[i] as int * 256 + b[i + 1] as int
}

pub open spec fn be32(b: Seq<u8>, i: int) -> u32 {
    ((b[i] as u32) << 24u32) | ((b[i + 1] as u32) << 16u32) | ((b[i + 2] as u32) << 8u32) | (
    b[i + 3] as u32)
}

pub open spec fn be32_bytes(x: u32) -> Seq<u8> {
    seq![(x >> 24u32) as u8, (x >> 16u32) as u8, (x >> 8u32) as u8, x as u8]
}

/// The entry whose eight bytes start at `4 + 8 * i`.
pub open spec fn entry_at(b: Seq<u8>, i: int) -> Entry {
    let o = 4 + 8 * i;
    Entry { cost: be32(b, o), address: Addr(b[o + 4], b[o + 5], b[o + 6], b[o + 7]) }
}

/// What a buffer decodes to. Bytes after the declared entries are ignored.
pub open spec fn decode_spec(b: Seq<u8>) -> Result<Packet<Seq<Entry>>, RipError> {
    if b.len() < 2 {
        Err(RipError::TruncatedPacket)
    } else if be16(b, 0) == 1 {
        Ok(Packet::Request)
    } else if be16(b, 0) == 2 {
        if b.len() < 4 || b.len() < 4 + 8 * be16(b, 2) {
            Err(RipError::TruncatedPacket)
        } else {
            Ok(Packet::Response(Seq::new(be16(b, 2) as nat, |i: int| entry_at(b, i))))
        }
    } else {
        Err(RipError::UnknownPacketKind)
    }
}

pub open spec fn encode_entry(e: Entry) -> Seq<u8> {
    be32_bytes(e.cost) + e.address.octets()
}

pub open spec fn encode_entries(s: Seq<Entry>) -> Seq<u8>
    decreases s.len(),
{
    if s.len() == 0 {
        Seq::empty()
    } else {
        encode_entries(s.drop_last()) + encode_entry(s.last())
    }
}

/// The bytes of an advertisement on the wire.
pub open spec fn encode_spec(p: Packet<Seq<Entry>>) -> Seq<u8> {
    match p {
        Packet::Request => seq![0u8, 1u8, 0u8, 0u8],
        Packet::Response(s) => seq![0u8, 2u8, (s.len() / 256) as u8, (s.len() % 256) as u8]
            + encode_entries(s),
    }
}

/// An advertisement fits the wire format when its entry count fits 16 bits.
pub open spec fn representable(p: Packet<Seq<Entry>>) -> bool {
    match p {
        Packet::Request => true,
        Packet::Response(s) => s.len() <= 0xffff,
    }
}

pub open spec fn packet_view(p: Packet<Vec<Entry>>) -> Packet<Seq<Entry>> {
    match p {
        Packet::Request => Packet::Request,
        Packet::Response(v) => Packet::Response(v@),
    }
}

pub open spec fn result_view(r: Result<Packet<Vec<Entry>>, RipError>) -> Result<
    Packet<Seq<Entry>>,
    RipError,
> {
    match r {
        Ok(p) => Ok(packet_view(p)),
        Err(e) => Err(e),
    }
}

proof fn lemma_be32_round_trip(x: u32)
    ensures
        be32(be32_bytes(x), 0) == x,
{
    let b = be32_bytes(x);
    let (b0, b1, b2, b3) = ((x >> 24u32) as u8, (x >> 16u32) as u8, (x >> 8u32) as u8, x as u8);
    assert(b[0] == b0 && b[1] == b1 && b[2] == b2 && b[3] == b3);
    assert(((b0 as u32) << 24u32) | ((b1 as u32) << 16u32) | ((b2 as u32) << 8u32) | (b3 as u32)
        == x) by (bit_vector)
        requires
            b0 == (x >> 24u32) as u8,
            b1 == (x >> 16u32) as u8,
            b2 == (x >> 8u32) as u8,
            b3 == x as u8,
    ;
}

proof fn lemma_encode_entries(s: Seq<Entry>)
    ensures
        encode_entries(s).len() == 8 * s.len(),
        forall|i: int, k: int|
            0 <= i < s.len() && 0 <= k < 8 ==> #[trigger] encode_entries(s)[8 * i + k]
                == encode_entry(s[i])[k],
    decreases s.len(),
{
    if s.len() > 0 {
        lemma_encode_entries(s.drop_last());
        let p = encode_entries(s.drop_last());
        assert forall|i: int, k: int| 0 <= i < s.len() && 0 <= k < 8 implies #[trigger] encode_entries(
            s,
        )[8 * i + k] == encode_entry(s[i])[k] by {
            if i < s.len() - 1 {
                assert(s.drop_last()[i] == s[i]);
                assert(p[8 * i + k] == encode_entries(s.drop_last())[8 * i + k]);
            }
        }
    }
}

/// Decoding the wire form of a representable advertisement gives it back.
pub proof fn lemma_round_trip(p: Packet<Seq<Entry>>)
    requires
        representable(p),
    ensures
        decode_spec(encode_spec(p)) == Ok::<Packet<Seq<Entry>>, RipError>(p),
{
    let b = encode_spec(p);
    match p {
        Packet::Request => {
            assert(be16(b, 0) == 1);
        },
        Packet::Response(s) => {
            lemma_encode_entries(s);
            let n = s.len();
            assert(be16(b, 0) == 2);
            assert(be16(b, 2) == n);
            let d = Seq::new(be16(b, 2) as nat, |i: int| entry_at(b, i));
            assert forall|i: int| 0 <= i < n implies d[i] == s[i] by {
                let e = s[i];
                let enc = encode_entry(e);
                let es = encode_entries(s);
                assert(es[8 * i + 0] == enc[0] && es[8 * i + 1] == enc[1] && es[8 * i + 2] == enc[2]
                    && es[8 * i + 3] == enc[3]);
                assert(es[8 * i + 4] == enc[4] && es[8 * i + 5] == enc[5] && es[8 * i + 6] == enc[6]
                    && es[8 * i + 7] == enc[7]);
                lemma_be32_round_trip(e.cost);
                assert(be32(b, 4 + 8 * i) == be32(enc, 0)) by {
                    assert(b[4 + 8 * i] == enc[0] && b[4 + 8 * i + 1] == enc[1]);
                    assert(b[4 + 8 * i + 2] == enc[2] && b[4 + 8 * i + 3] == enc[3]);
                }
                assert(be32(enc, 0) == be32(be32_bytes(e.cost), 0));
                assert(b[4 + 8 * i + 4] == e.address.0);
                assert(b[4 + 8 * i + 5] == e.address.1);
                assert(b[4 + 8 * i + 6] == e.address.2);
                assert(b[4 + 8 * i + 7] == e.address.3);
                assert(d[i] == entry_at(b, i));
            }
            assert(d =~= s);
        },
    }
}

/// A response that declares more entries than its bytes hold is truncated.
pub proof fn lemma_truncated(b: Seq<u8>)
    requires
        b.len() >= 4,
        be16(b, 0) == 2,
        b.len() < 4 + 8 * be16(b, 2),
    ensures
        decode_spec(b) == Err::<Packet<Seq<Entry>>, RipError>(RipError::TruncatedPacket),
{
}

/// A kind other than request (1) or response (2) is unknown.
pub proof fn lemma_unknown_kind(b: Seq<u8>)
    requires
        b.len() >= 2,
        be16(b, 0) == 0 || be16(b, 0) >= 3,
    ensures
        decode_spec(b) == Err::<Packet<Seq<Entry>>, RipError>(RipError::UnknownPacketKind),
{
}

fn read_be32(buf: &[u8], i: usize) -> (r: u32)
    requires
        i + 4 <= buf@.len(),
    ensures
        r == be32(buf@, i as int),
{
    ((buf[i] as u32) << 24u32) | ((buf[i + 1] as u32) << 16u32) | ((buf[i + 2] as u32) << 8u32)
        | (buf[i + 3] as u32)
}

/// Decodes a routing advertisement. A response declaring more entries than
/// the buffer holds is `TruncatedPacket`; a kind other than 1 or 2 is
/// `UnknownPacketKind`.
pub fn parse(buf: &[u8]) -> (r: Result<Packet<Vec<Entry>>, RipError>)
    ensures
        result_view(r) == decode_spec(buf@),
{
    if buf.len() < 2 {
        return Err(RipError::TruncatedPacket);
    }
    let kind: u16 = (buf[0] as u16) * 256 + buf[1] as u16;
    if kind == 1 {
        Ok(Packet::Request)
    } else if kind == 2 {
        if buf.len() < 4 {
            return Err(RipError::TruncatedPacket);
        }
        let count: usize = (buf[2] as usize) * 256 + buf[3] as usize;
        if buf.len() < 4 + 8 * count {
            return Err(RipError::TruncatedPacket);
        }
        let mut entries: Vec<Entry> = Vec::new();
        let mut i: usize = 0;
        while i < count
            invariant
                count == be16(buf@, 2),
                4 + 8 * count <= buf@.len(),
                i <= count,
                entries@.len() == i,
                forall|j: int| 0 <= j < i ==> entries@[j] == entry_at(buf@, j),
            decreases count - i,
        {
            let o: usize = 4 + 8 * i;
            let cost = read_be32(buf, o);
            let address = Addr(buf[o + 4], buf[o + 5], buf[o + 6], buf[o + 7]);
            entries.push(Entry { cost, address });
            i = i + 1;
        }
        assert(entries@ =~= Seq::new(be16(buf@, 2) as nat, |j: int| entry_at(buf@, j)));
        Ok(Packet::Response(entries))
    } else {
        Err(RipError::UnknownPacketKind)
    }
}

/// Appends the wire form of an advertisement to `buf`.
pub fn write(packet: &Packet<Vec<Entry>>, buf: &mut Vec<u8>)
    requires
        representable(packet_view(*packet)),
    ensures
        final(buf)@ == old(buf)@ + encode_spec(packet_view(*packet)),
{
    match packet {
        Packet::Request => {
            buf.push(0);
            buf.push(1);
            buf.push(0);
            buf.push(0);
            assert(final(buf)@ =~= old(buf)@ + encode_spec(packet_view(*packet)));
        },
        Packet::Response(entries) => {
            let n = entries.len();
            buf.push(0);
            buf.push(2);
            buf.push((n / 256) as u8);
            buf.push((n % 256) as u8);
            let ghost head = buf@;
            let mut i: usize = 0;
            while i < n
                invariant
                    n == entries@.len(),
                    i <= n,
                    buf@ == head + encode_entries(entries@.take(i as int)),
                decreases n - i,
            {
                let e = entries[i];
                let c = e.cost;
                buf.push((c >> 24u32) as u8);
                buf.push((c >> 16u32) as u8);
                buf.push((c >> 8u32) as u8);
                buf.push(c as u8);
                buf.push(e.address.0);
                buf.push(e.address.1);
                buf.push(e.address.2);
                buf.push(e.address.3);
                proof {
                    let t = entries@.take(i + 1);
                    assert(t.drop_last() =~= entries@.take(i as int));
                    assert(buf@ =~= head + encode_entries(t));
                }
                i = i + 1;
            }
            assert(entries@.take(n as int) =~= entries@);
            assert(final(buf)@ =~= old(buf)@ + encode_spec(packet_view(*packet)));
        },
    }
}

/// The address whose octets are `b`.
pub fn parse_ip(b: &[u8; 4]) -> (r: Addr)
    ensures
        r.octets() == b@,
{
    crate::addr::parse_addr(b)
}

/// The octets of `a`.
pub fn write_ip(a: Addr) -> (r: [u8; 4])
    ensures
        r@ == a.octets(),
{
    crate::addr::write_addr(a)
}

} // verus!
