use vstd::prelude::*;

use crate::addr::Addr;
use crate::ipv4::fold16;

verus! {

pub const FLAG_FIN: u8 = 0x01;
pub const FLAG_SYN: u8 = 0x02;
pub const FLAG_RST: u8 = 0x04;
pub const FLAG_ACK: u8 = 0x10;

/// The IP protocol number of TCP.
pub const PROTOCOL_TCP: u8 = 6;

pub open spec fn get16(b: Seq<u8>, i: int) -> u16 {
    (b[i] as int * 256 + b[i + 1] as int) as u16
}

pub open spec fn get32(b: Seq<u8>, i: int) -> u32 {
    (b[i] as int * 0x100_0000 + b[i + 1] as int * 0x1_0000 + b[i + 2] as int * 0x100 + b[i
        + 3] as int) as u32
}

pub open spec fn put16(b: Seq<u8>, i: int, v: u16) -> Seq<u8> {
    b.update(i, (v / 256) as u8).update(i + 1, (v % 256) as u8)
}

pub open spec fn put32(b: Seq<u8>, i: int, v: u32) -> Seq<u8> {
    b.update(i, (v / 0x100_0000) as u8).update(i + 1, (v / 0x1_0000 % 256) as u8).update(
        i + 2,
        (v / 256 % 256) as u8,
    ).update(i + 3, (v % 256) as u8)
}

/// The 16-bit word `k` of a segment for the checksum: the checksum field
/// counts as zero, and an odd last byte is padded with a zero byte.
pub open spec fn seg_word(b: Seq<u8>, k: int) -> nat {
    if k == 8 {
        0
    } else if 2 * k + 1 < b.len() {
        (b[2 * k] as nat) * 256 + b[2 * k + 1] as nat
    } else {
        (b[2 * k] as nat) * 256
    }
}

pub open spec fn seg_sum(b: Seq<u8>, n: int) -> nat
    decreases n,
{
    if n <= 0 {
        0
    } else {
        seg_sum(b, n - 1) + seg_word(b, n - 1)
    }
}

/// The sum of the pseudo-header words: both addresses, the protocol and the
/// segment length.
pub open spec fn pseudo_sum(src: Addr, dst: Addr, protocol: u8, len: u16) -> nat {
    (src.0 as nat) * 256 + src.1 as nat + (src.2 as nat) * 256 + src.3 as nat + (dst.0 as nat)
        * 256 + dst.1 as nat + (dst.2 as nat) * 256 + dst.3 as nat + protocol as nat + len as nat
}

/// A TCP segment with the addresses of the IP packet that carries it.
pub struct TcpPacket {
    pub src_addr: Addr,
    pub dst_addr: Addr,
    protocol: u8,
    tcp_len: u16,
    data: Vec<u8>,
}

impl TcpPacket {
    /// The segment: header, then payload.
    pub closed spec fn seg(&self) -> Seq<u8> {
        self.data@
    }

    pub closed spec fn wf(&self) -> bool {
        &&& 20 <= self.data@.len() <= 0xffff
        &&& self.tcp_len == self.data@.len()
        &&& self.protocol == PROTOCOL_TCP
    }

    pub closed spec fn src(&self) -> Addr {
        self.src_addr
    }

    pub closed spec fn dst(&self) -> Addr {
        self.dst_addr
    }

    pub closed spec fn protocol_spec(&self) -> u8 {
        self.protocol
    }

    pub closed spec fn len_spec(&self) -> u16 {
        self.tcp_len
    }

    /// The checksum that the segment should carry.
    pub closed spec fn checksum_spec(&self) -> u16 {
        (0xffff - fold16(
            pseudo_sum(self.src_addr, self.dst_addr, self.protocol_spec(), self.len_spec()) + seg_sum(
                self.seg(),
                (self.seg().len() + 1) as int / 2,
            ),
        )) as u16
    }

    /// Wraps a segment of 20 to 65535 bytes; `None` for any other length.
    pub fn new(src_addr: Addr, dst_addr: Addr, data: Vec<u8>) -> (r: Option<TcpPacket>)
        ensures
            r.is_some() == (20 <= data@.len() <= 0xffff),
            r.is_some() ==> r.unwrap().wf() && r.unwrap().seg() == data@ && r.unwrap().src()
                == src_addr && r.unwrap().dst() == dst_addr,
    {
        if data.len() < 20 || data.len() > 0xffff {
            return None;
        }
        let tcp_len = data.len() as u16;
        Some(TcpPacket { src_addr, dst_addr, protocol: PROTOCOL_TCP, tcp_len, data })
    }

    /// The segment bytes.
    pub fn segment(&self) -> (r: &Vec<u8>)
        ensures
            r@ == self.seg(),
    {
        &self.data
    }

    pub fn get_src_addr(&self) -> (r: Addr)
        ensures
            r == self.src(),
    {
        self.src_addr
    }

    pub fn get_dst_addr(&self) -> (r: Addr)
        ensures
            r == self.dst(),
    {
        self.dst_addr
    }

    fn read16(&self, i: usize) -> (r: u16)
        requires
            self.wf(),
            i + 1 < 20,
        ensures
            r == get16(self.seg(), i as int),
    {
        (self.data[i] as u16) * 256 + self.data[i + 1] as u16
    }

    fn read32(&self, i: usize) -> (r: u32)
        requires
            self.wf(),
            i + 3 < 20,
        ensures
            r == get32(self.seg(), i as int),
    {
        (self.data[i] as u32) * 0x100_0000 + (self.data[i + 1] as u32) * 0x1_0000 + (self.data[i
            + 2] as u32) * 0x100 + self.data[i + 3] as u32
    }

    fn write16(&mut self, i: usize, v: u16)
        requires
            old(self).wf(),
            i + 1 < 20,
        ensures
            final(self).wf(),
            final(self).seg() == put16(old(self).seg(), i as int, v),
            final(self).src() == old(self).src(),
            final(self).dst() == old(self).dst(),
            final(self).len_spec() == old(self).len_spec(),
    {
        self.data.set(i, (v / 256) as u8);
        self.data.set(i + 1, (v % 256) as u8);
    }

    fn write32(&mut self, i: usize, v: u32)
        requires
            old(self).wf(),
            i + 3 < 20,
        ensures
            final(self).wf(),
            final(self).seg() == put32(old(self).seg(), i as int, v),
            final(self).src() == old(self).src(),
            final(self).dst() == old(self).dst(),
    {
        self.data.set(i, (v / 0x100_0000) as u8);
        self.data.set(i + 1, (v / 0x1_0000 % 256) as u8);
        self.data.set(i + 2, (v / 256 % 256) as u8);
        self.data.set(i + 3, (v % 256) as u8);
    }

    fn has_flag(&self, f: u8) -> (r: bool)
        requires
            self.wf(),
        ensures
            r == (self.seg()[13] & f != 0),
    {
        self.data[13] & f != 0
    }

    fn add_flag(&mut self, f: u8)
        requires
            old(self).wf(),
        ensures
            final(self).wf(),
            final(self).seg() == old(self).seg().update(13, old(self).seg()[13] | f),
            final(self).src() == old(self).src(),
            final(self).dst() == old(self).dst(),
    {
        let b = self.data[13] | f;
        self.data.set(13, b);
    }

    pub fn get_src_port(&self) -> (r: u16)
        requires
            self.wf(),
        ensures
            r == get16(self.seg(), 0),
    {
        self.read16(0)
    }

    pub fn set_src_port(&mut self, port: u16)
        requires
            old(self).wf(),
        ensures
            final(self).wf(),
            final(self).seg() == put16(old(self).seg(), 0, port),
            final(self).src() == old(self).src(),
            final(self).dst() == old(self).dst(),
    {
        self.write16(0, port)
    }

    pub fn get_dst_port(&self) -> (r: u16)
        requires
            self.wf(),
        ensures
            r == get16(self.seg(), 2),
    {
        self.read16(2)
    }

    pub fn set_dst_port(&mut self, port: u16)
        requires
            old(self).wf(),
        ensures
            final(self).wf(),
            final(self).seg() == put16(old(self).seg(), 2, port),
            final(self).src() == old(self).src(),
            final(self).dst() == old(self).dst(),
    {
        self.write16(2, port)
    }

    pub fn is_ack(&self) -> (r: bool)
        requires
            self.wf(),
        ensures
            r == (self.seg()[13] & FLAG_ACK != 0),
    {
        self.has_flag(FLAG_ACK)
    }

    pub fn set_ack(&mut self)
        requires
            old(self).wf(),
        ensures
            final(self).wf(),
            final(self).seg() == old(self).seg().update(13, old(self).seg()[13] | FLAG_ACK),
            final(self).src() == old(self).src(),
            final(self).dst() == old(self).dst(),
    {
        self.add_flag(FLAG_ACK)
    }

    pub fn is_syn(&self) -> (r: bool)
        requires
            self.wf(),
        ensures
            r == (self.seg()[13] & FLAG_SYN != 0),
    {
        self.has_flag(FLAG_SYN)
    }

    pub fn set_syn(&mut self)
        requires
            old(self).wf(),
        ensures
            final(self).wf(),
            final(self).seg() == old(self).seg().update(13, old(self).seg()[13] | FLAG_SYN),
            final(self).src() == old(self).src(),
            final(self).dst() == old(self).dst(),
    {
        self.add_flag(FLAG_SYN)
    }

    pub fn is_fin(&self) -> (r: bool)
        requires
            self.wf(),
        ensures
            r == (self.seg()[13] & FLAG_FIN != 0),
    {
        self.has_flag(FLAG_FIN)
    }

    pub fn set_fin(&mut self)
        requires
            old(self).wf(),
        ensures
            final(self).wf(),
            final(self).seg() == old(self).seg().update(13, old(self).seg()[13] | FLAG_FIN),
            final(self).src() == old(self).src(),
            final(self).dst() == old(self).dst(),
    {
        self.add_flag(FLAG_FIN)
    }

    pub fn is_rst(&self) -> (r: bool)
        requires
            self.wf(),
        ensures
            r == (self.seg()[13] & FLAG_RST != 0),
    {
        self.has_flag(FLAG_RST)
    }

    pub fn set_rst(&mut self)
        requires
            old(self).wf(),
        ensures
            final(self).wf(),
            final(self).seg() == old(self).seg().update(13, old(self).seg()[13] | FLAG_RST),
            final(self).src() == old(self).src(),
            final(self).dst() == old(self).dst(),
    {
        self.add_flag(FLAG_RST)
    }

    /// The header length in bytes, from the data offset field.
    pub fn get_hdr_size(&self) -> (r: u8)
        requires
            self.wf(),
        ensures
            r == (self.seg()[12] / 16) * 4,
    {
        (self.data[12] / 16) * 4
    }

    pub fn get_seq_num(&self) -> (r: u32)
        requires
            self.wf(),
        ensures
            r == get32(self.seg(), 4),
    {
        self.read32(4)
    }

    pub fn set_seq_num(&mut self, seq_num: u16)
        requires
            old(self).wf(),
        ensures
            final(self).wf(),
            final(self).seg() == put32(old(self).seg(), 4, seq_num as u32),
            final(self).src() == old(self).src(),
            final(self).dst() == old(self).dst(),
    {
        self.write32(4, seq_num as u32)
    }

    /// The acknowledgement number; only meaningful with the ACK flag set.
    pub fn get_ack_num(&self) -> (r: u32)
        requires
            self.wf(),
            self.seg()[13] & FLAG_ACK != 0,
        ensures
            r == get32(self.seg(), 8),
    {
        self.read32(8)
    }

    pub fn set_ack_num(&mut self, ack_num: u16)
        requires
            old(self).wf(),
        ensures
            final(self).wf(),
            final(self).seg() == put32(old(self).seg(), 8, ack_num as u32),
            final(self).src() == old(self).src(),
            final(self).dst() == old(self).dst(),
    {
        self.write32(8, ack_num as u32)
    }

    pub fn get_checksum(&self) -> (r: u16)
        requires
            self.wf(),
        ensures
            r == get16(self.seg(), 16),
    {
        self.read16(16)
    }

    pub fn set_checksum(&mut self, checksum: u16)
        requires
            old(self).wf(),
        ensures
            final(self).wf(),
            final(self).seg() == put16(old(self).seg(), 16, checksum),
            final(self).src() == old(self).src(),
            final(self).dst() == old(self).dst(),
    {
        self.write16(16, checksum)
    }

    /// The one's complement checksum over the pseudo-header and the segment,
    /// with the checksum field counted as zero.
    pub fn compute_checksum(&self) -> (r: u16)
        requires
            self.wf(),
        ensures
            r == self.checksum_spec(),
    {
        let s = self.src_addr;
        let d = self.dst_addr;
        let mut sum: u64 = (s.0 as u64) * 256 + s.1 as u64 + (s.2 as u64) * 256 + s.3 as u64 + (
        d.0 as u64) * 256 + d.1 as u64 + (d.2 as u64) * 256 + d.3 as u64 + self.protocol as u64
            + self.tcp_len as u64;
        let n: usize = (self.data.len() + 1) / 2;
        let ghost base = sum as nat;
        let mut k: usize = 0;
        while k < n
            invariant
                self.wf(),
                n == (self.data@.len() + 1) / 2,
                k <= n,
                base <= 6 * 65535,
                sum == base + seg_sum(self.data@, k as int),
                sum <= base + k * 65535,
            decreases n - k,
        {
            let w: u64 = if k == 8 {
                0
            } else if 2 * k + 1 < self.data.len() {
                (self.data[2 * k] as u64) * 256 + self.data[2 * k + 1] as u64
            } else {
                (self.data[2 * k] as u64) * 256
            };
            sum = sum + w;
            k = k + 1;
        }
        let t = sum / 65536 + sum % 65536;
        let f = t / 65536 + t % 65536;
        (0xffff - f) as u16
    }
}

/// The address whose octets are `b`.
pub fn parse_ip(b: &[u8; 4]) -> (r: Addr)
    ensures
        r.octets() == b@,
{
    crate::addr::parse_addr(b)
}

/// The octets of `a`.
pub fn write_ip(a: Addr) -> (r: [u8; 4])
    ensures
        r@ == a.octets(),
{
    crate::addr::write_addr(a)
}

} // verus!
