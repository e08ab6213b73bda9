use vstd::prelude::*;

use crate::addr::Addr;
use crate::interfaces::{neighbor_index, Interfaces};
use crate::rip::INFINITY;
use crate::routing::RoutingStrategy;

verus! {

/// The big-endian 16-bit word at word index `k`.
pub open spec fn word(b: Seq<u8>, k: int) -> nat {
    (b[2 * k] as nat) * 256 + b[2 * k + 1] as nat
}

/// The sum of the first `n` words.
pub open spec fn words_sum(b: Seq<u8>, n: int) -> nat
    decreases n,
{
    if n <= 0 {
        0
    } else {
        words_sum(b, n - 1) + word(b, n - 1)
    }
}

/// Adds the carries above 16 bits back into the low 16 bits, twice: enough
/// for any sum below 2^32 to end within 16 bits.
pub open spec fn fold16(s: nat) -> nat {
    let t = s / 65536 + s % 65536;
    t / 65536 + t % 65536
}

/// The header length in bytes that the first byte declares.
pub open spec fn header_len(b: Seq<u8>) -> int {
    (b[0] % 16) as int * 4
}

/// A buffer that starts with a plausible IPv4 header.
pub open spec fn well_formed(b: Seq<u8>) -> bool {
    &&& b.len() >= 20
    &&& b[0] / 16 == 4
    &&& header_len(b) >= 20
    &&& header_len(b) <= b.len()
}

/// The header checksum holds: its words add up to all ones in one's
/// complement arithmetic.
pub open spec fn checksum_ok(b: Seq<u8>) -> bool {
    fold16(words_sum(b, header_len(b) / 2)) == 0xffff
}

pub open spec fn dst_of(b: Seq<u8>) -> Addr {
    Addr(b[16], b[17], b[18], b[19])
}

/// The checksum to store in a header whose checksum field holds zero.
pub open spec fn checksum_for(z: Seq<u8>) -> nat {
    (0xffff - fold16(words_sum(z, header_len(z) / 2))) as nat
}

/// A header whose checksum field holds zero, with its checksum filled in.
pub open spec fn with_checksum(z: Seq<u8>) -> Seq<u8> {
    let c = checksum_for(z);
    z.update(10, (c / 256) as u8).update(11, (c % 256) as u8)
}

/// The frame to send on: TTL one lower, checksum recomputed.
pub open spec fn forwarded(b: Seq<u8>) -> Seq<u8> {
    with_checksum(b.update(8, (b[8] - 1) as u8).update(10, 0u8).update(11, 0u8))
}

pub open spec fn src_of(b: Seq<u8>) -> Addr {
    Addr(b[12], b[13], b[14], b[15])
}

/// A 20-byte header without options, its checksum field zero.
pub open spec fn bare_header(src: Addr, dst: Addr, protocol: u8, ttl: u8, total: u16) -> Seq<u8> {
    seq![
        0x45u8, 0u8, (total / 256) as u8, (total % 256) as u8, 0u8, 0u8, 0u8, 0u8,
        ttl, protocol, 0u8, 0u8,
        src.0, src.1, src.2, src.3, dst.0, dst.1, dst.2, dst.3
    ]
}

/// The default TTL of packets that start here.
pub const DEFAULT_TTL: u8 = 16;

/// The IP protocol number that carries routing advertisements.
pub const PROTOCOL_RIP: u8 = 200;

/// Why an inbound frame goes no further.
#[derive(PartialEq, Eq, Copy, Clone, Debug, Structural)]
pub enum DropReason {
    Malformed,
    ChecksumMismatch,
    TtlExpired,
    NoRoute,
}

/// What to do with an inbound frame.
#[derive(PartialEq, Eq, Clone, Debug)]
pub enum Action {
    /// Hand the payload, sent by `src`, to the handlers of `protocol`.
    Deliver { protocol: u8, src: Addr, payload: Vec<u8> },
    /// Send `packet` out of interface `interface`.
    Forward { interface: usize, packet: Vec<u8> },
    Drop(DropReason),
}

fn sum_words(b: &[u8], n: usize) -> (r: u64)
    requires
        2 * n <= b@.len(),
        n <= 30,
    ensures
        r == words_sum(b@, n as int),
        r <= 30 * 65535,
{
    let mut s: u64 = 0;
    let mut k: usize = 0;
    while k < n
        invariant
            k <= n,
            n <= 30,
            2 * n <= b@.len(),
            s == words_sum(b@, k as int),
            s <= k * 65535,
        decreases n - k,
    {
        s = s + (b[2 * k] as u64) * 256 + b[2 * k + 1] as u64;
        k = k + 1;
    }
    s
}

fn fold(s: u64) -> (r: u64)
    requires
        s < 0x1_0000_0000,
    ensures
        r == fold16(s as nat),
        r <= 0xffff,
{
    let t = s / 65536 + s % 65536;
    t / 65536 + t % 65536
}

/// What becomes of frame `b` under routing table `t` and interfaces `ifaces`:
/// a frame that is not a valid IPv4 header, or whose checksum fails, is
/// dropped; a frame for one of our addresses is delivered; any other is
/// forwarded along its route with its TTL lowered, unless its TTL would reach
/// zero or there is no usable route.
pub open spec fn receive_result<R: RoutingStrategy, H>(
    t: &R,
    ifaces: &Interfaces<H>,
    b: Seq<u8>,
    r: Action,
) -> bool {
    let local = ifaces.locals().contains(dst_of(b));
    let route = t.table()[dst_of(b)];
    let usable = t.table().contains_key(dst_of(b)) && route.cost < INFINITY && neighbor_index(
        ifaces.neighbors(),
        route.next_hop,
    ).is_some();
    if !well_formed(b) {
        r == Action::Drop(DropReason::Malformed)
    } else if !checksum_ok(b) {
        r == Action::Drop(DropReason::ChecksumMismatch)
    } else if local {
        match r {
            Action::Deliver { protocol, src, payload } => protocol == b[9] && src == src_of(b) && payload@ == b.subrange(
                header_len(b),
                b.len() as int,
            ),
            _ => false,
        }
    } else if b[8] <= 1 {
        r == Action::Drop(DropReason::TtlExpired)
    } else if !usable {
        r == Action::Drop(DropReason::NoRoute)
    } else {
        match r {
            Action::Forward { interface, packet } => Some(interface) == neighbor_index(
                ifaces.neighbors(),
                route.next_hop,
            ) && packet@ == forwarded(b),
            _ => false,
        }
    }
}

/// A frame whose TTL is 1 or less is never forwarded: it is delivered when it
/// is addressed to us, and dropped otherwise.
pub proof fn lemma_expiring_not_forwarded<R: RoutingStrategy, H>(t: &R, ifaces: &Interfaces<H>, b: Seq<u8>, r: Action)
    requires
        receive_result(t, ifaces, b, r),
        well_formed(b),
        b[8] <= 1,
    ensures
        !(r is Forward),
        checksum_ok(b) && !ifaces.locals().contains(dst_of(b)) ==> r == Action::Drop(
            DropReason::TtlExpired,
        ),
{
}

proof fn lemma_fold(x: nat)
    requires
        x < 0x1_0000_0000,
    ensures
        fold16(x) <= 0xffff,
        x >= 1 ==> fold16(x) >= 1,
        fold16(x) % 65535 == x % 65535,
{
    let q = x / 65536;
    let r = x % 65536;
    let t = q + r;
    assert(x == 65536 * q + r);
    assert(x == 65535 * q + t);
    vstd::arithmetic::div_mod::lemma_mod_multiples_vanish(q as int, t as int, 65535);
    let q2 = t / 65536;
    let r2 = t % 65536;
    assert(t == 65536 * q2 + r2);
    assert(t == 65535 * q2 + (q2 + r2));
    vstd::arithmetic::div_mod::lemma_mod_multiples_vanish(q2 as int, (q2 + r2) as int, 65535);
    assert(q <= 65535);
    assert(t <= 131070);
    assert(q2 <= 1);
    if q2 == 1 {
        assert(r2 == t - 65536);
    }
}

proof fn lemma_words_with(z: Seq<u8>, c: nat, n: int)
    requires
        z.len() >= 12,
        z[10] == 0,
        z[11] == 0,
        c <= 0xffff,
        2 * n <= z.len(),
    ensures
        words_sum(z.update(10, (c / 256) as u8).update(11, (c % 256) as u8), n) == words_sum(z, n) + (
        if n >= 6 {
            c
        } else {
            0
        }),
    decreases n,
{
    let w = z.update(10, (c / 256) as u8).update(11, (c % 256) as u8);
    if n > 0 {
        lemma_words_with(z, c, n - 1);
        let k = n - 1;
        if k == 5 {
            assert(word(w, 5) == c);
            assert(word(z, 5) == 0);
        } else {
            assert(w[2 * k] == z[2 * k] && w[2 * k + 1] == z[2 * k + 1]);
        }
    }
}

/// Filling in the checksum of a header whose checksum field holds zero makes
/// the header check.
pub proof fn lemma_with_checksum(z: Seq<u8>)
    requires
        well_formed(z),
        z[10] == 0,
        z[11] == 0,
    ensures
        well_formed(with_checksum(z)),
        checksum_ok(with_checksum(z)),
{
    let n = header_len(z) / 2;
    let sz = words_sum(z, n);
    lemma_words_bound(z, n);
    lemma_fold(sz);
    let c = checksum_for(z);
    let w = with_checksum(z);
    assert(w[0] == z[0]);
    assert(header_len(w) == header_len(z));
    lemma_words_with(z, c, n);
    assert(words_sum(w, n) == sz + c);
    let x = sz + c;
    assert(x % 65535 == 0) by {
        assert(x == sz + 65535 - fold16(sz));
        vstd::arithmetic::div_mod::lemma_fundamental_div_mod(sz as int, 65535);
        vstd::arithmetic::div_mod::lemma_fundamental_div_mod(fold16(sz) as int, 65535);
        assert(x == 65535 * (sz / 65535 - fold16(sz) / 65535 + 1));
        vstd::arithmetic::div_mod::lemma_mod_multiples_basic(
            sz as int / 65535 - fold16(sz) as int / 65535 + 1,
            65535,
        );
    }
    lemma_fold(x);
}

proof fn lemma_words_bound(b: Seq<u8>, n: int)
    requires
        0 <= n,
        2 * n <= b.len(),
    ensures
        words_sum(b, n) <= n * 65535,
    decreases n,
{
    if n > 0 {
        lemma_words_bound(b, n - 1);
    }
}

/// The header of a forwarded frame checks.
pub proof fn lemma_forwarded_checksum(b: Seq<u8>)
    requires
        well_formed(b),
    ensures
        well_formed(forwarded(b)),
        checksum_ok(forwarded(b)),
{
    let z = b.update(8, (b[8] - 1) as u8).update(10, 0u8).update(11, 0u8);
    assert(z[0] == b[0]);
    lemma_with_checksum(z);
}

/// An IPv4 packet from `src` to `dst` carrying `payload`.
pub fn build_packet(src: Addr, dst: Addr, protocol: u8, ttl: u8, payload: &Vec<u8>) -> (r: Vec<u8>)
    requires
        payload@.len() + 20 <= 0xffff,
    ensures
        r@ == with_checksum(
            bare_header(src, dst, protocol, ttl, (payload@.len() + 20) as u16),
        ) + payload@,
        well_formed(r@),
        checksum_ok(r@),
{
    let total: u16 = (payload.len() + 20) as u16;
    let mut r: Vec<u8> = vec![
        0x45, 0, (total / 256) as u8, (total % 256) as u8, 0, 0, 0, 0,
        ttl, protocol, 0, 0,
        src.0, src.1, src.2, src.3, dst.0, dst.1, dst.2, dst.3
    ];
    let ghost z = bare_header(src, dst, protocol, ttl, total);
    assert(r@ =~= z);
    let c: u64 = 0xffff - fold(sum_words(r.as_slice(), 10));
    r.set(10, (c / 256) as u8);
    r.set(11, (c % 256) as u8);
    let ghost h = r@;
    let mut i: usize = 0;
    while i < payload.len()
        invariant
            i <= payload@.len(),
            r@ == h + payload@.take(i as int),
        decreases payload@.len() - i,
    {
        r.push(payload[i]);
        assert(payload@.take(i + 1) =~= payload@.take(i as int).push(payload@[i as int]));
        i = i + 1;
    }
    assert(payload@.take(payload@.len() as int) =~= payload@);
    proof {
        lemma_with_checksum(z);
        let w = with_checksum(z);
        assert forall|k: int| 0 <= k < 10 implies word(r@, k) == word(w, k) by {
            assert(r@[2 * k] == w[2 * k] && r@[2 * k + 1] == w[2 * k + 1]);
        }
        lemma_words_prefix(r@, w, 10);
        assert(r@[0] == w[0]);
    }
    r
}

proof fn lemma_words_prefix(a: Seq<u8>, b: Seq<u8>, n: int)
    requires
        0 <= n,
        forall|k: int| 0 <= k < n ==> word(a, k) == word(b, k),
    ensures
        words_sum(a, n) == words_sum(b, n),
    decreases n,
{
    if n > 0 {
        lemma_words_prefix(a, b, n - 1);
    }
}

/// Decides what happens to a frame received on any interface.
pub fn receive<R: RoutingStrategy, H>(routes: &R, frame: &[u8], ifaces: &Interfaces<H>) -> (r: Action)
    requires
        routes.inv(),
        ifaces.wf(),
    ensures
        receive_result(routes, ifaces, frame@, r),
{
    if frame.len() < 20 || frame[0] / 16 != 4 {
        return Action::Drop(DropReason::Malformed);
    }
    let hl: usize = ((frame[0] % 16) as usize) * 4;
    if hl < 20 || hl > frame.len() {
        return Action::Drop(DropReason::Malformed);
    }
    if fold(sum_words(frame, hl / 2)) != 0xffff {
        return Action::Drop(DropReason::ChecksumMismatch);
    }
    let dst = Addr(frame[16], frame[17], frame[18], frame[19]);
    if ifaces.is_local(dst) {
        let mut payload: Vec<u8> = Vec::new();
        let mut i: usize = hl;
        while i < frame.len()
            invariant
                hl <= i <= frame@.len(),
                payload@ == frame@.subrange(hl as int, i as int),
            decreases frame@.len() - i,
        {
            payload.push(frame[i]);
            i = i + 1;
        }
        let src = Addr(frame[12], frame[13], frame[14], frame[15]);
        return Action::Deliver { protocol: frame[9], src, payload };
    }
    if frame[8] <= 1 {
        return Action::Drop(DropReason::TtlExpired);
    }
    let route = match routes.lookup(dst) {
        Some(r) => r,
        None => return Action::Drop(DropReason::NoRoute),
    };
    if route.cost >= INFINITY {
        return Action::Drop(DropReason::NoRoute);
    }
    let interface = match ifaces.neighbor_to_index(route.next_hop) {
        Some(i) => i,
        None => return Action::Drop(DropReason::NoRoute),
    };
    let mut packet: Vec<u8> = Vec::new();
    let mut i: usize = 0;
    while i < frame.len()
        invariant
            i <= frame@.len(),
            packet@ == frame@.take(i as int),
        decreases frame@.len() - i,
    {
        packet.push(frame[i]);
        i = i + 1;
    }
    assert(frame@.take(frame@.len() as int) =~= frame@);
    packet.set(8, frame[8] - 1);
    packet.set(10, 0);
    packet.set(11, 0);
    let ghost z = packet@;
    assert(header_len(z) == header_len(frame@));
    let c: u64 = 0xffff - fold(sum_words(packet.as_slice(), hl / 2));
    packet.set(10, (c / 256) as u8);
    packet.set(11, (c % 256) as u8);
    Action::Forward { interface, packet }
}

} // verus!
