use vstd::prelude::*;

verus! {

/// Upper-layer handlers by IP protocol number: 256 slots, each holding its
/// handlers in the order they were registered.
pub struct ProtocolTable<H> {
    slots: Vec<Vec<H>>,
}

/// Handler `h` has run to completion on a copy of `payload`.
pub open spec fn handled<H: Fn(Vec<u8>)>(h: H, payload: Seq<u8>) -> bool {
    exists|v: Vec<u8>| v@ == payload && #[trigger] call_ensures(h, (v,), ())
}

fn copy_bytes(b: &Vec<u8>) -> (r: Vec<u8>)
    ensures
        r@ == b@,
{
    let mut r: Vec<u8> = Vec::new();
    let mut i: usize = 0;
    while i < b.len()
        invariant
            i <= b@.len(),
            r@ == b@.take(i as int),
        decreases b@.len() - i,
    {
        r.push(b[i]);
        assert(b@.take(i + 1) =~= b@.take(i as int).push(b@[i as int]));
        i = i + 1;
    }
    assert(b@.take(b@.len() as int) =~= b@);
    r
}

impl<H> ProtocolTable<H> {
    pub closed spec fn view(&self) -> Seq<Seq<H>> {
        Seq::new(self.slots@.len(), |i: int| self.slots@[i]@)
    }

    pub open spec fn wf(&self) -> bool {
        self@.len() == 256
    }

    /// A table with no handlers.
    pub fn new() -> (r: ProtocolTable<H>)
        ensures
            r.wf(),
            forall|p: int| 0 <= p < 256 ==> #[trigger] r@[p].len() == 0,
    {
        let mut slots: Vec<Vec<H>> = Vec::new();
        let mut i: usize = 0;
        while i < 256
            invariant
                i <= 256,
                slots@.len() == i,
                forall|p: int| 0 <= p < i ==> #[trigger] slots@[p]@.len() == 0,
            decreases 256 - i,
        {
            slots.push(Vec::new());
            i = i + 1;
        }
        ProtocolTable { slots }
    }

    /// Appends a handler to the slot of `protocol`.
    pub fn register(&mut self, protocol: u8, handler: H)
        requires
            old(self).wf(),
        ensures
            final(self).wf(),
            final(self)@ == old(self)@.update(protocol as int, old(self)@[protocol as int].push(handler)),
    {
        let p = protocol as usize;
        let mut slot = Vec::new();
        std::mem::swap(&mut slot, &mut self.slots[p]);
        slot.push(handler);
        self.slots.set(p, slot);
        assert(self@ =~= old(self)@.update(protocol as int, old(self)@[protocol as int].push(handler)));
    }

    /// The handlers of `protocol`, in registration order.
    pub fn handlers(&self, protocol: u8) -> (r: &Vec<H>)
        requires
            self.wf(),
        ensures
            r@ == self@[protocol as int],
    {
        &self.slots[protocol as usize]
    }

    /// Hands a copy of `payload` to every handler of `protocol`, in
    /// registration order. A protocol without handlers drops it.
    pub fn dispatch(&self, protocol: u8, payload: &Vec<u8>)
        where
            H: Fn(Vec<u8>),
        requires
            self.wf(),
            forall|i: int, v: Vec<u8>|
                0 <= i < self@[protocol as int].len() ==> #[trigger] call_requires(
                    self@[protocol as int][i],
                    (v,),
                ),
        ensures
            forall|i: int|
                0 <= i < self@[protocol as int].len() ==> handled(
                    #[trigger] self@[protocol as int][i],
                    payload@,
                ),
    {
        let hs = &self.slots[protocol as usize];
        let mut i: usize = 0;
        while i < hs.len()
            invariant
                self.wf(),
                hs@ == self@[protocol as int],
                i <= hs@.len(),
                forall|j: int, v: Vec<u8>|
                    0 <= j < self@[protocol as int].len() ==> #[trigger] call_requires(
                        self@[protocol as int][j],
                        (v,),
                    ),
                forall|j: int|
                    0 <= j < i ==> handled(#[trigger] self@[protocol as int][j], payload@),
            decreases hs@.len() - i,
        {
            let h = &hs[i];
            let v = copy_bytes(payload);
            let ghost copy = v;
            h(v);
            assert(handled(self@[protocol as int][i as int], payload@)) by {
                assert(copy@ == payload@ && call_ensures(self@[protocol as int][i as int], (copy,), ()));
            }
            i = i + 1;
        }
    }
}

} // verus!
