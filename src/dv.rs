use vstd::prelude::*;

use crate::addr::Addr;
use crate::rip::{Entry, Packet, INFINITY};
use crate::routing::{
    advert, has_dest, lemma_advert_members, live, poison_all, route_to, RoutingRow, RoutingTable,
};

verus! {

/// The cost of a route through the neighbor that advertised `cost`: one hop
/// more, capped at `INFINITY`.
pub open spec fn candidate(cost: u32) -> u32 {
    if cost >= INFINITY - 1 {
        INFINITY
    } else {
        (cost + 1) as u32
    }
}

/// Whether a route offered by `from` at cost `cand` replaces the current one:
/// a new reachable destination, a strictly cheaper route, or news from the
/// neighbor the current route goes through (a refresh at the same cost, or a
/// withdrawal).
pub open spec fn accepts(cur: Option<RoutingRow>, from: Addr, cand: u32) -> bool {
    match cur {
        None => cand < INFINITY,
        Some(r) => cand < r.cost || (r.next_hop == from && (cand == r.cost || cand >= INFINITY)),
    }
}

/// The table after one advertised entry from `from` at time `now`.
pub open spec fn step(m: Map<Addr, RoutingRow>, from: Addr, e: Entry, now: u64) -> Map<
    Addr,
    RoutingRow,
> {
    let cand = candidate(e.cost);
    if accepts(route_to(m, e.address), from, cand) {
        m.insert(
            e.address,
            RoutingRow { destination: e.address, cost: cand, next_hop: from, refreshed: now },
        )
    } else {
        m
    }
}

/// The table after the entries of one advertisement, taken in order.
pub open spec fn steps(m: Map<Addr, RoutingRow>, from: Addr, es: Seq<Entry>, now: u64) -> Map<
    Addr,
    RoutingRow,
>
    decreases es.len(),
{
    if es.len() == 0 {
        m
    } else {
        step(steps(m, from, es.drop_last(), now), from, es.last(), now)
    }
}

/// The route to a directly connected neighbor.
pub open spec fn direct(d: Addr, now: u64) -> RoutingRow {
    RoutingRow { destination: d, cost: 1, next_hop: d, refreshed: now }
}

impl RoutingTable {
    /// A table holding one route of cost 1 to each directly connected neighbor.
    pub fn init(neighbors: &Vec<Addr>, now: u64) -> (r: RoutingTable)
        ensures
            r.wf(),
            forall|d: Addr| #[trigger] r@.contains_key(d) == neighbors@.contains(d),
            forall|d: Addr| neighbors@.contains(d) ==> #[trigger] r@[d] == direct(d, now),
    {
        let mut t = RoutingTable::new();
        let mut i: usize = 0;
        while i < neighbors.len()
            invariant
                t.wf(),
                i <= neighbors@.len(),
                forall|d: Addr| #[trigger] t@.contains_key(d) == neighbors@.take(i as int).contains(d),
                forall|d: Addr| t@.contains_key(d) ==> #[trigger] t@[d] == direct(d, now),
            decreases neighbors@.len() - i,
        {
            let d = neighbors[i];
            t.store(RoutingRow { destination: d, cost: 1, next_hop: d, refreshed: now });
            proof {
                let a = neighbors@.take(i as int);
                let b = neighbors@.take(i + 1);
                assert(b == a.push(d));
                assert forall|x: Addr| #[trigger] b.contains(x) == (a.contains(x) || x == d) by {
                    if b.contains(x) {
                        let k = choose|k: int| 0 <= k < b.len() && b[k] == x;
                        if k < a.len() {
                            assert(a[k] == x);
                        }
                    }
                    if a.contains(x) {
                        let k = choose|k: int| 0 <= k < a.len() && a[k] == x;
                        assert(b[k] == x);
                    }
                    if x == d {
                        assert(b[i as int] == x);
                    }
                }
            }
            i = i + 1;
        }
        assert(neighbors@.take(neighbors@.len() as int) =~= neighbors@);
        t
    }

    /// Applies one advertised entry received from neighbor `from`.
    pub fn process_entry(&mut self, from: Addr, e: Entry, now: u64)
        requires
            old(self).wf(),
        ensures
            final(self).wf(),
            final(self)@ == step(old(self)@, from, e, now),
    {
        let cand: u32 = if e.cost >= INFINITY - 1 {
            INFINITY
        } else {
            e.cost + 1
        };
        let take = match self.lookup(e.address) {
            None => cand < INFINITY,
            Some(r) => cand < r.cost || (r.next_hop == from && (cand == r.cost || cand
                >= INFINITY)),
        };
        if take {
            self.store(
                RoutingRow { destination: e.address, cost: cand, next_hop: from, refreshed: now },
            );
        }
    }

    /// Applies every entry of a response received from neighbor `from`.
    pub fn process_advertisement(&mut self, from: Addr, entries: &Vec<Entry>, now: u64)
        requires
            old(self).wf(),
        ensures
            final(self).wf(),
            final(self)@ == steps(old(self)@, from, entries@, now),
    {
        let ghost m0 = self@;
        let mut i: usize = 0;
        while i < entries.len()
            invariant
                self.wf(),
                i <= entries@.len(),
                self@ == steps(m0, from, entries@.take(i as int), now),
            decreases entries@.len() - i,
        {
            self.process_entry(from, entries[i], now);
            proof {
                assert(entries@.take(i + 1).drop_last() =~= entries@.take(i as int));
            }
            i = i + 1;
        }
        assert(entries@.take(entries@.len() as int) =~= entries@);
    }

    /// Handles an advertisement from neighbor `from`: a request is answered
    /// with the advertisement toward `from`; a response updates the table.
    pub fn receive_advertisement(&mut self, from: Addr, packet: &Packet<Vec<Entry>>, now: u64) -> (r:
        Option<Vec<Entry>>)
        requires
            old(self).wf(),
        ensures
            final(self).wf(),
            match *packet {
                Packet::Request => *final(self) == *old(self) && r.is_some() && r.unwrap()@ == advert(
                    old(self).rows(),
                    from,
                ),
                Packet::Response(es) => r.is_none() && final(self)@ == steps(
                    old(self)@,
                    from,
                    es@,
                    now,
                ),
            },
    {
        match packet {
            Packet::Request => Some(self.advertisement_for(from)),
            Packet::Response(es) => {
                self.process_advertisement(from, es, now);
                None
            },
        }
    }

    /// One timer tick at time `now`: stale routes are poisoned, the
    /// advertisement toward each neighbor is built (poisoned routes included at
    /// `INFINITY`), then poisoned routes are dropped.
    pub fn tick(&mut self, now: u64, neighbors: &Vec<Addr>) -> (r: Vec<Vec<Entry>>)
        requires
            old(self).wf(),
        ensures
            final(self).wf(),
            final(self).rows() == live(poison_all(old(self).rows(), now)),
            r@.len() == neighbors@.len(),
            forall|k: int|
                0 <= k < r@.len() ==> #[trigger] r@[k]@ == advert(
                    poison_all(old(self).rows(), now),
                    neighbors@[k],
                ),
    {
        self.poison_stale(now);
        let mut out: Vec<Vec<Entry>> = Vec::new();
        let mut k: usize = 0;
        while k < neighbors.len()
            invariant
                k <= neighbors@.len(),
                out@.len() == k,
                forall|j: int| 0 <= j < k ==> #[trigger] out@[j]@ == advert(self.rows(), neighbors@[j]),
            decreases neighbors@.len() - k,
        {
            out.push(self.advertisement_for(neighbors[k]));
            k = k + 1;
        }
        self.remove_poisoned();
        out
    }
}

/// Split horizon: every entry advertised toward neighbor `n` describes a route
/// of the table, at its cost, whose next hop is not `n`.
pub proof fn lemma_split_horizon(t: RoutingTable, n: Addr, e: Entry)
    requires
        t.wf(),
        advert(t.rows(), n).contains(e),
    ensures
        t@.contains_key(e.address),
        t@[e.address].next_hop != n,
        t@[e.address].cost == e.cost,
{
    let s = t.rows();
    lemma_advert_members(s, n);
    let j = choose|j: int| 0 <= j < advert(s, n).len() && advert(s, n)[j] == e;
    let i = choose|i: int|
        0 <= i < s.len() && s[i].next_hop != n && #[trigger] advert(s, n)[j] == (Entry {
            cost: s[i].cost,
            address: s[i].destination,
        });
    crate::routing::lemma_row_for(s, i);
}

/// Timeout: a route that a tick removes had been poisoned, and that same tick
/// advertised it at `INFINITY` toward every neighbor except its next hop. No
/// route leaves the table while it is still reachable.
pub proof fn lemma_poisoned_before_removal(t: RoutingTable, now: u64, i: int, n: Addr)
    requires
        t.wf(),
        0 <= i < t.rows().len(),
        !has_dest(live(poison_all(t.rows(), now)), t.rows()[i].destination),
    ensures
        poison_all(t.rows(), now)[i].cost == INFINITY,
        t.rows()[i].next_hop != n ==> advert(poison_all(t.rows(), now), n).contains(
            Entry { cost: INFINITY, address: t.rows()[i].destination },
        ),
{
    let s = t.rows();
    let p = poison_all(s, now);
    crate::routing::lemma_live_members(p);
    if p[i].cost < INFINITY {
        let j = choose|j: int| 0 <= j < live(p).len() && #[trigger] live(p)[j] == #[trigger] p[i];
        assert(live(p)[j].destination == s[i].destination);
    }
    assert(s[i].cost <= INFINITY);
    lemma_advert_members(p, n);
    assert(p[i].next_hop == s[i].next_hop);
}

} // verus!
