use vstd::prelude::*;

use crate::addr::Addr;

verus! {

/// A local interface: our address on it and the link-layer handle that sends
/// and receives its frames.
pub struct InterfaceRow<H> {
    pub local_ip: Addr,
    pub interface: H,
}

/// What the registry needs of a link-layer handle: it can be switched on
/// and off, and says which it is.
pub trait Link {
    /// Whether the handle sends and receives frames.
    spec fn enabled(&self) -> bool;

    fn enable(&mut self)
        ensures
            final(self).enabled(),
    ;

    fn disable(&mut self)
        ensures
            !final(self).enabled(),
    ;
}

pub open spec fn neighbor_known(s: Seq<(Addr, usize)>, a: Addr) -> bool {
    exists|k: int| 0 <= k < s.len() && #[trigger] s[k].0 == a
}

/// The interface index through which a directly connected neighbor is reached.
pub open spec fn neighbor_index(s: Seq<(Addr, usize)>, a: Addr) -> Option<usize> {
    if neighbor_known(s, a) {
        Some(s[choose|k: int| 0 <= k < s.len() && #[trigger] s[k].0 == a].1)
    } else {
        None
    }
}

/// The next hops of a neighbor table, in order.
pub open spec fn next_hops(n: Seq<(Addr, usize)>) -> Seq<Addr> {
    Seq::new(n.len(), |i: int| n[i].0)
}

/// The local interfaces, and which of them reaches each neighbor.
pub struct Interfaces<H> {
    rows: Vec<InterfaceRow<H>>,
    neighbors: Vec<(Addr, usize)>,
}

impl<H> Interfaces<H> {
    /// The interfaces, by index.
    pub closed spec fn rows(&self) -> Seq<InterfaceRow<H>> {
        self.rows@
    }

    /// Our addresses, one per interface, by index.
    pub open spec fn locals(&self) -> Seq<Addr> {
        Seq::new(self.rows().len(), |i: int| self.rows()[i].local_ip)
    }

    /// The neighbor table: next hop and interface index.
    pub closed spec fn neighbors(&self) -> Seq<(Addr, usize)> {
        self.neighbors@
    }

    pub open spec fn wf(&self) -> bool {
        &&& forall|i: int, j: int|
            0 <= i < self.neighbors().len() && 0 <= j < self.neighbors().len() && i != j
                ==> #[trigger] self.neighbors()[i].0 != #[trigger] self.neighbors()[j].0
        &&& forall|i: int|
            0 <= i < self.neighbors().len() ==> #[trigger] self.neighbors()[i].1 < self.locals().len()
    }

    pub fn new() -> (r: Interfaces<H>)
        ensures
            r.wf(),
            r.locals().len() == 0,
            r.neighbors().len() == 0,
    {
        Interfaces { rows: Vec::new(), neighbors: Vec::new() }
    }

    /// A registry of the given interfaces, by index, with no neighbors yet.
    pub fn from_rows(rows: Vec<InterfaceRow<H>>) -> (r: Interfaces<H>)
        ensures
            r.wf(),
            r.rows() == rows@,
            r.neighbors().len() == 0,
    {
        Interfaces { rows, neighbors: Vec::new() }
    }

    /// Adds an interface; its index is the number of interfaces before it.
    pub fn register(&mut self, local_ip: Addr, interface: H) -> (r: usize)
        requires
            old(self).wf(),
        ensures
            final(self).wf(),
            r == old(self).locals().len(),
            final(self).rows() == old(self).rows().push(InterfaceRow { local_ip, interface }),
            final(self).neighbors() == old(self).neighbors(),
    {
        let r = self.rows.len();
        self.rows.push(InterfaceRow { local_ip, interface });
        assert(self.locals() =~= old(self).locals().push(local_ip));
        assert(self.neighbors() == old(self).neighbors());
        assert(self.rows() == old(self).rows().push(InterfaceRow { local_ip, interface }));
        assert(forall|i: int| 0 <= i < self.neighbors().len() ==> #[trigger] self.neighbors()[i].1 < self.locals().len());
        r
    }

    /// Records that neighbor `next_hop` is reached through interface `index`.
    /// Returns false, and changes nothing, when the index is out of range or
    /// the neighbor is already known.
    pub fn add_neighbor(&mut self, next_hop: Addr, index: usize) -> (r: bool)
        requires
            old(self).wf(),
        ensures
            final(self).wf(),
            final(self).rows() == old(self).rows(),
            r == (index < old(self).locals().len() && !neighbor_known(old(self).neighbors(), next_hop)),
            r ==> final(self).neighbors() == old(self).neighbors().push((next_hop, index)),
            !r ==> final(self).neighbors() == old(self).neighbors(),
    {
        if index >= self.rows.len() {
            return false;
        }
        if self.neighbor_to_index(next_hop).is_some() {
            return false;
        }
        self.neighbors.push((next_hop, index));
        true
    }

    /// The interface at `index`, if there is one.
    pub fn get_interface(&self, index: usize) -> (r: Option<&InterfaceRow<H>>)
        ensures
            index < self.rows().len() ==> r.is_some() && *r.unwrap() == self.rows()[index as int],
            index >= self.rows().len() ==> r.is_none(),
    {
        if index < self.rows.len() {
            Some(&self.rows[index])
        } else {
            None
        }
    }

    /// The index of the interface that reaches neighbor `next_hop`.
    pub fn neighbor_to_index(&self, next_hop: Addr) -> (r: Option<usize>)
        requires
            self.wf(),
        ensures
            r == neighbor_index(self.neighbors(), next_hop),
    {
        let mut k: usize = 0;
        while k < self.neighbors.len()
            invariant
                self.wf(),
                k <= self.neighbors@.len(),
                forall|j: int| 0 <= j < k ==> self.neighbors@[j].0 != next_hop,
            decreases self.neighbors@.len() - k,
        {
            if self.neighbors[k].0 == next_hop {
                proof {
                    let s = self.neighbors@;
                    assert(neighbor_known(s, next_hop));
                    let c = choose|c: int| 0 <= c < s.len() && #[trigger] s[c].0 == next_hop;
                    assert(s[k as int].0 == next_hop);
                    if c != k {
                        assert(self.neighbors()[c].0 != self.neighbors()[k as int].0);
                    }
                }
                return Some(self.neighbors[k].1);
            }
            k = k + 1;
        }
        None
    }

    /// The neighbors' addresses, in the order of the neighbor table.
    pub fn next_hops(&self) -> (r: Vec<Addr>)
        ensures
            r@ == next_hops(self.neighbors()),
    {
        let mut r: Vec<Addr> = Vec::new();
        let mut k: usize = 0;
        while k < self.neighbors.len()
            invariant
                k <= self.neighbors@.len(),
                r@ == next_hops(self.neighbors@).take(k as int),
            decreases self.neighbors@.len() - k,
        {
            r.push(self.neighbors[k].0);
            assert(r@ =~= next_hops(self.neighbors@).take(k + 1));
            k = k + 1;
        }
        assert(r@ =~= next_hops(self.neighbors@));
        r
    }

    /// Whether `a` is one of our own addresses.
    pub fn is_local(&self, a: Addr) -> (r: bool)
        ensures
            r == self.locals().contains(a),
    {
        let mut i: usize = 0;
        while i < self.rows.len()
            invariant
                i <= self.rows@.len(),
                forall|j: int| 0 <= j < i ==> self.rows@[j].local_ip != a,
            decreases self.rows@.len() - i,
        {
            if self.rows[i].local_ip == a {
                assert(self.locals()[i as int] == a);
                return true;
            }
            i = i + 1;
        }
        proof {
            if self.locals().contains(a) {
                let j = choose|j: int| 0 <= j < self.locals().len() && self.locals()[j] == a;
                assert(self.rows@[j].local_ip == a);
            }
        }
        false
    }
}

impl<H: Link> Interfaces<H> {
    /// Whether the link of interface `i` is enabled.
    pub open spec fn link_enabled(&self, i: int) -> bool {
        self.rows()[i].interface.enabled()
    }

    /// Enables the link of interface `index` and touches no other; `None`, with
    /// nothing changed, when there is no such interface.
    pub fn up(&mut self, index: usize) -> (r: Option<()>)
        requires
            old(self).wf(),
        ensures
            final(self).wf(),
            final(self).locals() == old(self).locals(),
            final(self).neighbors() == old(self).neighbors(),
            r.is_some() == (index < old(self).locals().len()),
            index < old(self).locals().len() ==> final(self).link_enabled(index as int),
            index >= old(self).locals().len() ==> final(self).rows() == old(self).rows(),
            forall|j: int|
                0 <= j < old(self).rows().len() && j != index ==> #[trigger] final(self).rows()[j]
                    == old(self).rows()[j],
    {
        if index >= self.rows.len() {
            return None;
        }
        let mut row = self.rows.remove(index);
        row.interface.enable();
        self.rows.insert(index, row);
        assert(self.locals() =~= old(self).locals());
        assert(self.neighbors() == old(self).neighbors());
        assert(forall|i: int| 0 <= i < self.neighbors().len() ==> #[trigger] self.neighbors()[i].1 < self.locals().len());
        Some(())
    }

    /// Disables the link of interface `index` and touches no other; `None`, with
    /// nothing changed, when there is no such interface.
    pub fn down(&mut self, index: usize) -> (r: Option<()>)
        requires
            old(self).wf(),
        ensures
            final(self).wf(),
            final(self).locals() == old(self).locals(),
            final(self).neighbors() == old(self).neighbors(),
            r.is_some() == (index < old(self).locals().len()),
            index < old(self).locals().len() ==> !final(self).link_enabled(index as int),
            index >= old(self).locals().len() ==> final(self).rows() == old(self).rows(),
            forall|j: int|
                0 <= j < old(self).rows().len() && j != index ==> #[trigger] final(self).rows()[j]
                    == old(self).rows()[j],
    {
        if index >= self.rows.len() {
            return None;
        }
        let mut row = self.rows.remove(index);
        row.interface.disable();
        self.rows.insert(index, row);
        assert(self.locals() =~= old(self).locals());
        assert(self.neighbors() == old(self).neighbors());
        assert(forall|i: int| 0 <= i < self.neighbors().len() ==> #[trigger] self.neighbors()[i].1 < self.locals().len());
        Some(())
    }
}

} // verus!
