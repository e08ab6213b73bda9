use vstd::prelude::*;

use crate::addr::Addr;
use crate::rip::{Entry, INFINITY};

verus! {

/// One route: how to reach `destination`, at what cost, through which
/// directly connected neighbor, and when it was last refreshed.
#[derive(PartialEq, Eq, Copy, Clone, Debug, Structural)]
pub struct RoutingRow {
    pub destination: Addr,
    pub cost: u32,
    pub next_hop: Addr,
    pub refreshed: u64,
}

pub open spec fn has_dest(s: Seq<RoutingRow>, d: Addr) -> bool {
    exists|i: int| 0 <= i < s.len() && #[trigger] s[i].destination == d
}

pub open spec fn distinct(s: Seq<RoutingRow>) -> bool {
    forall|i: int, j: int|
        0 <= i < s.len() && 0 <= j < s.len() && i != j ==> #[trigger] s[i].destination
            != #[trigger] s[j].destination
}

pub open spec fn row_for(s: Seq<RoutingRow>, d: Addr) -> RoutingRow {
    s[choose|i: int| 0 <= i < s.len() && #[trigger] s[i].destination == d]
}

/// The routes of a row sequence, keyed by destination.
pub open spec fn table_map(s: Seq<RoutingRow>) -> Map<Addr, RoutingRow> {
    Map::new(|d: Addr| has_dest(s, d), |d: Addr| row_for(s, d))
}

pub proof fn lemma_row_for(s: Seq<RoutingRow>, i: int)
    requires
        distinct(s),
        0 <= i < s.len(),
    ensures
        has_dest(s, s[i].destination),
        row_for(s, s[i].destination) == s[i],
        table_map(s).contains_key(s[i].destination),
        table_map(s)[s[i].destination] == s[i],
{
    let d = s[i].destination;
    assert(has_dest(s, d));
    let j = choose|j: int| 0 <= j < s.len() && #[trigger] s[j].destination == d;
    assert(j == i);
}

/// How long a learned route lives without a refresh.
pub const ROUTE_TIMEOUT: u64 = 12;

/// A learned route whose last refresh is older than the timeout. Routes to
/// directly connected neighbors never go stale.
pub open spec fn stale(r: RoutingRow, now: u64) -> bool {
    r.next_hop != r.destination && r.refreshed + ROUTE_TIMEOUT < now
}

pub open spec fn poisoned(r: RoutingRow, now: u64) -> RoutingRow {
    if stale(r, now) {
        RoutingRow { cost: INFINITY, ..r }
    } else {
        r
    }
}

pub open spec fn poison_all(s: Seq<RoutingRow>, now: u64) -> Seq<RoutingRow> {
    Seq::new(s.len(), |i: int| poisoned(s[i], now))
}

/// The rows that are still reachable, in order.
pub open spec fn live(s: Seq<RoutingRow>) -> Seq<RoutingRow>
    decreases s.len(),
{
    if s.len() == 0 {
        Seq::empty()
    } else if s.last().cost < INFINITY {
        live(s.drop_last()).push(s.last())
    } else {
        live(s.drop_last())
    }
}

/// The advertisement sent toward neighbor `n`: every route, in order, except
/// those whose next hop is `n`.
pub open spec fn advert(s: Seq<RoutingRow>, n: Addr) -> Seq<Entry>
    decreases s.len(),
{
    if s.len() == 0 {
        Seq::empty()
    } else if s.last().next_hop == n {
        advert(s.drop_last(), n)
    } else {
        advert(s.drop_last(), n).push(Entry { cost: s.last().cost, address: s.last().destination })
    }
}

pub proof fn lemma_live_members(s: Seq<RoutingRow>)
    ensures
        forall|j: int|
            #![trigger live(s)[j]]
            0 <= j < live(s).len() ==> exists|i: int|
                0 <= i < s.len() && live(s)[j] == #[trigger] s[i] && s[i].cost < INFINITY,
        forall|i: int|
            0 <= i < s.len() && s[i].cost < INFINITY ==> exists|j: int|
                0 <= j < live(s).len() && #[trigger] live(s)[j] == #[trigger] s[i],
    decreases s.len(),
{
    if s.len() > 0 {
        let p = s.drop_last();
        lemma_live_members(p);
        assert forall|j: int| #![trigger live(s)[j]] 0 <= j < live(s).len() implies exists|i: int|
            0 <= i < s.len() && live(s)[j] == #[trigger] s[i] && s[i].cost < INFINITY by {
            if j < live(p).len() {
                let i = choose|i: int| 0 <= i < p.len() && live(p)[j] == #[trigger] p[i] && p[i].cost < INFINITY;
                assert(live(s)[j] == live(p)[j]);
                assert(p[i] == s[i]);
                assert(live(s)[j] == s[i]);
            } else {
                assert(s.last().cost < INFINITY);
                assert(live(s)[j] == s[s.len() - 1]);
            }
        }
        assert forall|i: int| 0 <= i < s.len() && s[i].cost < INFINITY implies exists|j: int|
            0 <= j < live(s).len() && #[trigger] live(s)[j] == #[trigger] s[i] by {
            if i < p.len() {
                assert(p[i] == s[i]);
                let j = choose|j: int| 0 <= j < live(p).len() && #[trigger] live(p)[j] == #[trigger] p[i];
                assert(live(s)[j] == live(p)[j]);
            } else {
                assert(live(s)[live(p).len() as int] == s[i]);
            }
        }
    }
}

/// Every route not learned from `n` is advertised toward `n`, and every
/// advertised entry stands for such a route.
pub proof fn lemma_advert_members(s: Seq<RoutingRow>, n: Addr)
    ensures
        forall|j: int|
            0 <= j < advert(s, n).len() ==> exists|i: int|
                0 <= i < s.len() && s[i].next_hop != n && #[trigger] advert(s, n)[j] == (Entry {
                    cost: s[i].cost,
                    address: s[i].destination,
                }),
        forall|i: int|
            0 <= i < s.len() && #[trigger] s[i].next_hop != n ==> advert(s, n).contains(
                Entry { cost: s[i].cost, address: s[i].destination },
            ),
    decreases s.len(),
{
    if s.len() > 0 {
        let p = s.drop_last();
        lemma_advert_members(p, n);
        assert forall|j: int| 0 <= j < advert(s, n).len() implies exists|i: int|
            0 <= i < s.len() && s[i].next_hop != n && #[trigger] advert(s, n)[j] == (Entry {
                cost: s[i].cost,
                address: s[i].destination,
            }) by {
            if j < advert(p, n).len() {
                let i = choose|i: int|
                    0 <= i < p.len() && p[i].next_hop != n && #[trigger] advert(p, n)[j] == (Entry {
                        cost: p[i].cost,
                        address: p[i].destination,
                    });
                assert(s[i] == p[i]);
            } else {
                assert(advert(s, n)[j] == (Entry { cost: s.last().cost, address: s.last().destination }));
                assert(s[s.len() - 1] == s.last());
            }
        }
        assert forall|i: int| 0 <= i < s.len() && #[trigger] s[i].next_hop != n implies advert(s, n).contains(
            Entry { cost: s[i].cost, address: s[i].destination },
        ) by {
            let e = Entry { cost: s[i].cost, address: s[i].destination };
            if i < p.len() {
                assert(p[i] == s[i]);
                assert(advert(p, n).contains(e));
                let j = choose|j: int| 0 <= j < advert(p, n).len() && advert(p, n)[j] == e;
                assert(advert(s, n)[j] == e);
            } else {
                assert(advert(s, n)[advert(p, n).len() as int] == e);
            }
        }
    }
}

/// The destination-keyed routing table. Each destination has at most one row,
/// and no cost exceeds `INFINITY`.
pub struct RoutingTable {
    rows: Vec<RoutingRow>,
}

impl RoutingTable {
    /// The rows in table order.
    pub closed spec fn rows(&self) -> Seq<RoutingRow> {
        self.rows@
    }

    pub open spec fn wf(&self) -> bool {
        &&& distinct(self.rows())
        &&& forall|i: int| 0 <= i < self.rows().len() ==> #[trigger] self.rows()[i].cost <= INFINITY
    }

    pub open spec fn view(&self) -> Map<Addr, RoutingRow> {
        table_map(self.rows())
    }

    /// An empty table.
    pub fn new() -> (r: RoutingTable)
        ensures
            r.wf(),
            r@ == Map::<Addr, RoutingRow>::empty(),
            r.rows().len() == 0,
    {
        let r = RoutingTable { rows: Vec::new() };
        assert(r@ =~= Map::<Addr, RoutingRow>::empty());
        r
    }

    pub fn len(&self) -> (r: usize)
        ensures
            r == self.rows().len(),
    {
        self.rows.len()
    }

    /// The row at position `i` in table order.
    pub fn row_at(&self, i: usize) -> (r: RoutingRow)
        requires
            i < self.rows().len(),
        ensures
            r == self.rows()[i as int],
    {
        self.rows[i]
    }

    fn index_of(&self, d: Addr) -> (r: Option<usize>)
        requires
            self.wf(),
        ensures
            match r {
                Some(i) => i < self.rows().len() && self.rows()[i as int].destination == d,
                None => !has_dest(self.rows(), d),
            },
    {
        let mut i: usize = 0;
        while i < self.rows.len()
            invariant
                i <= self.rows@.len(),
                forall|j: int| 0 <= j < i ==> self.rows@[j].destination != d,
            decreases self.rows@.len() - i,
        {
            if self.rows[i].destination == d {
                return Some(i);
            }
            i = i + 1;
        }
        None
    }

    /// The route to `d`, if any.
    pub fn lookup(&self, d: Addr) -> (r: Option<RoutingRow>)
        requires
            self.wf(),
        ensures
            r == route_to(self@, d),
    {
        match self.index_of(d) {
            Some(i) => {
                proof {
                    lemma_row_for(self.rows(), i as int);
                }
                Some(self.rows[i])
            },
            None => None,
        }
    }

    /// Sets the cost of every stale route to `INFINITY`.
    pub fn poison_stale(&mut self, now: u64)
        requires
            old(self).wf(),
        ensures
            final(self).wf(),
            final(self).rows() == poison_all(old(self).rows(), now),
    {
        let ghost s0 = self.rows@;
        let mut i: usize = 0;
        while i < self.rows.len()
            invariant
                self.rows@.len() == s0.len(),
                i <= s0.len(),
                forall|j: int| 0 <= j < i ==> self.rows@[j] == poisoned(s0[j], now),
                forall|j: int| i <= j < s0.len() ==> self.rows@[j] == s0[j],
            decreases s0.len() - i,
        {
            let r = self.rows[i];
            if r.next_hop != r.destination && r.refreshed < now && now - r.refreshed > ROUTE_TIMEOUT {
                self.rows.set(i, RoutingRow { cost: INFINITY, ..r });
            }
            i = i + 1;
        }
        assert(self.rows@ =~= poison_all(s0, now));
        assert forall|a: int, b: int|
            0 <= a < self.rows@.len() && 0 <= b < self.rows@.len() && a != b implies #[trigger] self.rows@[a].destination
                != #[trigger] self.rows@[b].destination by {
            assert(s0[a].destination != s0[b].destination);
        }
        assert forall|a: int| 0 <= a < self.rows@.len() implies #[trigger] self.rows@[a].cost <= INFINITY by {
            assert(s0[a].cost <= INFINITY);
        }
    }

    /// Drops every route whose cost has reached `INFINITY`.
    pub fn remove_poisoned(&mut self)
        requires
            old(self).wf(),
        ensures
            final(self).wf(),
            final(self).rows() == live(old(self).rows()),
    {
        let ghost s0 = self.rows@;
        let mut kept: Vec<RoutingRow> = Vec::new();
        let mut i: usize = 0;
        while i < self.rows.len()
            invariant
                self.rows@ == s0,
                distinct(s0),
                i <= s0.len(),
                kept@ == live(s0.take(i as int)),
                forall|j: int| 0 <= j < kept@.len() ==> exists|k: int| 0 <= k < i && #[trigger] kept@[j] == s0[k],
                forall|j: int| 0 <= j < kept@.len() ==> #[trigger] kept@[j].cost < INFINITY,
                distinct(kept@),
            decreases s0.len() - i,
        {
            let r = self.rows[i];
            proof {
                assert(s0.take(i + 1).drop_last() =~= s0.take(i as int));
            }
            if r.cost < INFINITY {
                proof {
                    assert forall|j: int| 0 <= j < kept@.len() implies kept@[j].destination != r.destination by {
                        let k = choose|k: int| 0 <= k < i && #[trigger] kept@[j] == s0[k];
                        assert(s0[k].destination != s0[i as int].destination);
                    }
                }
                kept.push(r);
                proof {
                    assert forall|j: int| 0 <= j < kept@.len() implies exists|k: int| 0 <= k < i + 1 && #[trigger] kept@[j] == s0[k] by {
                        if j == kept@.len() - 1 {
                            assert(kept@[j] == s0[i as int]);
                        } else {
                            let k = choose|k: int| 0 <= k < i && #[trigger] kept@[j] == s0[k];
                        }
                    }
                }
            }
            i = i + 1;
        }
        assert(s0.take(s0.len() as int) =~= s0);
        self.rows = kept;
    }

    /// The advertisement to send toward neighbor `n`: split horizon leaves
    /// out the routes learned from `n`.
    pub fn advertisement_for(&self, n: Addr) -> (r: Vec<Entry>)
        ensures
            r@ == advert(self.rows(), n),
    {
        let mut out: Vec<Entry> = Vec::new();
        let mut i: usize = 0;
        while i < self.rows.len()
            invariant
                i <= self.rows@.len(),
                out@ == advert(self.rows@.take(i as int), n),
            decreases self.rows@.len() - i,
        {
            let r = self.rows[i];
            proof {
                assert(self.rows@.take(i + 1).drop_last() =~= self.rows@.take(i as int));
            }
            if r.next_hop != n {
                out.push(Entry { cost: r.cost, address: r.destination });
            }
            i = i + 1;
        }
        assert(self.rows@.take(self.rows@.len() as int) =~= self.rows@);
        out
    }

    /// Replaces the route to `row.destination`, or adds it when there is
    /// none. A cost above `INFINITY` is stored as `INFINITY`.
    pub fn install_or_update(&mut self, row: RoutingRow)
        requires
            old(self).wf(),
        ensures
            final(self).wf(),
            final(self)@ == old(self)@.insert(row.destination, capped(row)),
    {
        let cost = if row.cost > INFINITY {
            INFINITY
        } else {
            row.cost
        };
        self.store(RoutingRow { cost, ..row });
    }

    /// `install_or_update` for a row whose cost is already within `INFINITY`.
    pub(crate) fn store(&mut self, row: RoutingRow)
        requires
            old(self).wf(),
            row.cost <= INFINITY,
        ensures
            final(self).wf(),
            final(self)@ == old(self)@.insert(row.destination, row),
    {
        let ghost s0 = self.rows@;
        match self.index_of(row.destination) {
            Some(i) => {
                self.rows.set(i, row);
                proof {
                    let s1 = self.rows@;
                    assert(s1 == s0.update(i as int, row));
                    assert forall|d: Addr| #[trigger] has_dest(s1, d) == (has_dest(s0, d) || d
                        == row.destination) by {
                        if has_dest(s0, d) {
                            let k = choose|k: int| 0 <= k < s0.len() && #[trigger] s0[k].destination == d;
                            if k == i {
                                assert(s1[i as int].destination == d);
                            } else {
                                assert(s1[k].destination == d);
                            }
                        }
                        if has_dest(s1, d) {
                            let k = choose|k: int| 0 <= k < s1.len() && #[trigger] s1[k].destination == d;
                            if k != i {
                                assert(s0[k].destination == d);
                            }
                        }
                        if d == row.destination {
                            assert(s1[i as int].destination == d);
                        }
                    }
                    assert forall|d: Addr| #[trigger] has_dest(s1, d) implies table_map(s1)[d] == (
                    if d == row.destination {
                        row
                    } else {
                        table_map(s0)[d]
                    }) by {
                        let k = choose|k: int| 0 <= k < s1.len() && #[trigger] s1[k].destination == d;
                        lemma_row_for(s1, k);
                        if k != i {
                            lemma_row_for(s0, k);
                        }
                    }
                    assert(table_map(s1) =~= table_map(s0).insert(row.destination, row));
                }
            },
            None => {
                self.rows.push(row);
                proof {
                    let s1 = self.rows@;
                    let n = s0.len() as int;
                    assert(s1 == s0.push(row));
                    assert forall|d: Addr| #[trigger] has_dest(s1, d) == (has_dest(s0, d) || d
                        == row.destination) by {
                        if has_dest(s0, d) {
                            let k = choose|k: int| 0 <= k < s0.len() && #[trigger] s0[k].destination == d;
                            assert(s1[k].destination == d);
                        }
                        if has_dest(s1, d) {
                            let k = choose|k: int| 0 <= k < s1.len() && #[trigger] s1[k].destination == d;
                            if k != n {
                                assert(s0[k].destination == d);
                            }
                        }
                        if d == row.destination {
                            assert(s1[n].destination == d);
                        }
                    }
                    assert(distinct(s1));
                    assert forall|d: Addr| #[trigger] has_dest(s1, d) implies table_map(s1)[d] == (
                    if d == row.destination {
                        row
                    } else {
                        table_map(s0)[d]
                    }) by {
                        let k = choose|k: int| 0 <= k < s1.len() && #[trigger] s1[k].destination == d;
                        lemma_row_for(s1, k);
                        if k != n {
                            lemma_row_for(s0, k);
                        }
                    }
                    assert(table_map(s1) =~= table_map(s0).insert(row.destination, row));
                }
            },
        }
    }
}

/// A row as the table stores it: costs above `INFINITY` count as `INFINITY`.
pub open spec fn capped(row: RoutingRow) -> RoutingRow {
    if row.cost > INFINITY {
        RoutingRow { cost: INFINITY, ..row }
    } else {
        row
    }
}

/// The route to `d` in `m`, if any.
pub open spec fn route_to(m: Map<Addr, RoutingRow>, d: Addr) -> Option<RoutingRow> {
    if m.contains_key(d) {
        Some(m[d])
    } else {
        None
    }
}

/// What the forwarding path needs of a routing algorithm: a table keyed by
/// destination that it can read and replace entries of. The distance-vector
/// `RoutingTable` is one; a static or link-state table can stand in its place.
pub trait RoutingStrategy {
    spec fn inv(&self) -> bool;

    /// The routes, keyed by destination.
    spec fn table(&self) -> Map<Addr, RoutingRow>;

    fn lookup(&self, d: Addr) -> (r: Option<RoutingRow>)
        requires
            self.inv(),
        ensures
            r == route_to(self.table(), d),
    ;

    fn install_or_update(&mut self, row: RoutingRow)
        requires
            old(self).inv(),
        ensures
            final(self).inv(),
            final(self).table() == old(self).table().insert(row.destination, capped(row)),
    ;
}

impl RoutingStrategy for RoutingTable {
    open spec fn inv(&self) -> bool {
        self.wf()
    }

    open spec fn table(&self) -> Map<Addr, RoutingRow> {
        self@
    }

    fn lookup(&self, d: Addr) -> (r: Option<RoutingRow>) {
        RoutingTable::lookup(self, d)
    }

    fn install_or_update(&mut self, row: RoutingRow) {
        RoutingTable::install_or_update(self, row)
    }
}

} // verus!
