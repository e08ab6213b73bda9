use vstd::prelude::*;

use crate::addr::Addr;
use crate::dispatch::ProtocolTable;
use crate::dv::direct;
use crate::interfaces::{neighbor_known, next_hops, InterfaceRow, Interfaces, Link};
use crate::ipv4::{receive, receive_result, Action};
use crate::rip::Entry;
use crate::routing::{advert, live, poison_all, RoutingTable};

verus! {

/// A neighbor table fit to start from: each next hop listed once, each
/// interface index in range.
pub open spec fn valid_neighbors(n: Seq<(Addr, usize)>, count: nat) -> bool {
    &&& forall|i: int, j: int|
        0 <= i < n.len() && 0 <= j < n.len() && i != j ==> #[trigger] n[i].0 != #[trigger] n[j].0
    &&& forall|i: int| 0 <= i < n.len() ==> #[trigger] n[i].1 < count
}

/// The forwarding engine's state: the local interfaces and neighbor table,
/// the routing table, and the upper-layer handlers.
pub struct State<H, F> {
    pub interfaces: Interfaces<H>,
    pub routes: RoutingTable,
    pub protocol_handlers: ProtocolTable<F>,
}

impl<H, F> State<H, F> {
    pub open spec fn wf(&self) -> bool {
        &&& self.interfaces.wf()
        &&& self.routes.wf()
        &&& self.protocol_handlers.wf()
    }

    /// Starts from the configured interfaces and neighbor table: every
    /// neighbor is routed to at cost 1, and no handler is registered.
    pub fn new(interfaces: Vec<InterfaceRow<H>>, neighbors: &Vec<(Addr, usize)>, now: u64) -> (r:
        State<H, F>)
        requires
            valid_neighbors(neighbors@, interfaces@.len()),
        ensures
            r.wf(),
            r.interfaces.rows() == interfaces@,
            r.interfaces.neighbors() == neighbors@,
            forall|d: Addr| #[trigger] r.routes@.contains_key(d) == next_hops(neighbors@).contains(d),
            forall|d: Addr|
                next_hops(neighbors@).contains(d) ==> #[trigger] r.routes@[d] == direct(d, now),
            forall|p: int| 0 <= p < 256 ==> #[trigger] r.protocol_handlers@[p].len() == 0,
    {
        let ghost count = interfaces@.len();
        let ghost rows0 = interfaces@;
        let mut ifaces = Interfaces::from_rows(interfaces);
        let mut hops: Vec<Addr> = Vec::new();
        let mut i: usize = 0;
        while i < neighbors.len()
            invariant
                ifaces.wf(),
                ifaces.rows() == rows0,
                rows0.len() == count,
                valid_neighbors(neighbors@, count),
                i <= neighbors@.len(),
                ifaces.neighbors() == neighbors@.take(i as int),
                hops@ == next_hops(neighbors@).take(i as int),
            decreases neighbors@.len() - i,
        {
            let (hop, index) = neighbors[i];
            proof {
                if neighbor_known(ifaces.neighbors(), hop) {
                    let k = choose|k: int| 0 <= k < ifaces.neighbors().len() && #[trigger] ifaces.neighbors()[k].0 == hop;
                    assert(neighbors@[k].0 == neighbors@[i as int].0);
                }
            }
            ifaces.add_neighbor(hop, index);
            hops.push(hop);
            proof {
                assert(neighbors@.take(i + 1) =~= neighbors@.take(i as int).push(neighbors@[i as int]));
                assert(hops@ =~= next_hops(neighbors@).take(i + 1));
            }
            i = i + 1;
        }
        assert(neighbors@.take(neighbors@.len() as int) =~= neighbors@);
        assert(next_hops(neighbors@).take(neighbors@.len() as int) =~= next_hops(neighbors@));
        let routes = RoutingTable::init(&hops, now);
        State { interfaces: ifaces, routes, protocol_handlers: ProtocolTable::new() }
    }

    /// The interface at `index`, if there is one.
    pub fn get_interface(&self, index: usize) -> (r: Option<&InterfaceRow<H>>)
        ensures
            index < self.interfaces.rows().len() ==> r.is_some() && *r.unwrap()
                == self.interfaces.rows()[index as int],
            index >= self.interfaces.rows().len() ==> r.is_none(),
    {
        self.interfaces.get_interface(index)
    }

    /// One timer tick at time `now`: the advertisement toward each neighbor of
    /// the neighbor table, in its order, with split horizon and with stale
    /// routes poisoned; poisoned routes are then dropped.
    pub fn tick(&mut self, now: u64) -> (r: Vec<Vec<Entry>>)
        requires
            old(self).wf(),
        ensures
            final(self).wf(),
            final(self).interfaces == old(self).interfaces,
            final(self).protocol_handlers == old(self).protocol_handlers,
            final(self).routes.rows() == live(poison_all(old(self).routes.rows(), now)),
            r@.len() == old(self).interfaces.neighbors().len(),
            forall|k: int|
                0 <= k < r@.len() ==> #[trigger] r@[k]@ == advert(
                    poison_all(old(self).routes.rows(), now),
                    old(self).interfaces.neighbors()[k].0,
                ),
    {
        let hops = self.interfaces.next_hops();
        self.routes.tick(now, &hops)
    }

    /// What to do with a frame received on any interface.
    pub fn receive(&self, frame: &[u8]) -> (r: Action)
        requires
            self.wf(),
        ensures
            receive_result(&self.routes, &self.interfaces, frame@, r),
    {
        receive(&self.routes, frame, &self.interfaces)
    }
}

impl<H: Link, F> State<H, F> {
    /// Enables the link of interface `index` and touches no other; `None`,
    /// with nothing changed, when there is no such interface.
    pub fn up(&mut self, index: usize) -> (r: Option<()>)
        requires
            old(self).wf(),
        ensures
            final(self).wf(),
            final(self).interfaces.locals() == old(self).interfaces.locals(),
            final(self).interfaces.neighbors() == old(self).interfaces.neighbors(),
            final(self).routes == old(self).routes,
            r.is_some() == (index < old(self).interfaces.locals().len()),
            index < old(self).interfaces.locals().len() ==> final(self).interfaces.link_enabled(
                index as int,
            ),
            index >= old(self).interfaces.locals().len()
                ==> final(self).interfaces.rows() == old(self).interfaces.rows(),
            forall|j: int|
                0 <= j < old(self).interfaces.rows().len() && j != index
                    ==> #[trigger] final(self).interfaces.rows()[j] == old(self).interfaces.rows()[j],
    {
        self.interfaces.up(index)
    }

    /// Disables the link of interface `index` and touches no other; `None`,
    /// with nothing changed, when there is no such interface.
    pub fn down(&mut self, index: usize) -> (r: Option<()>)
        requires
            old(self).wf(),
        ensures
            final(self).wf(),
            final(self).interfaces.locals() == old(self).interfaces.locals(),
            final(self).interfaces.neighbors() == old(self).interfaces.neighbors(),
            final(self).routes == old(self).routes,
            r.is_some() == (index < old(self).interfaces.locals().len()),
            index < old(self).interfaces.locals().len() ==> !final(self).interfaces.link_enabled(
                index as int,
            ),
            index >= old(self).interfaces.locals().len()
                ==> final(self).interfaces.rows() == old(self).interfaces.rows(),
            forall|j: int|
                0 <= j < old(self).interfaces.rows().len() && j != index
                    ==> #[trigger] final(self).interfaces.rows()[j] == old(self).interfaces.rows()[j],
    {
        self.interfaces.down(index)
    }
}

} // verus!
