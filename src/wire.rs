use vstd::prelude::*;

verus! {

/// A signal carrier: the last committed value and the ids of the wires that
/// mirror it when it is designated as the source of an output or a port.
#[derive(Clone, Debug)]
pub struct Wire {
    pub id: usize,
    pub value: u64,
    pub destinations: Vec<usize>,
}

impl Wire {
    pub fn new(id: usize) -> (w: Wire)
        ensures
            w.id == id,
            w.value == 0,
            w.destinations@ == Seq::<usize>::empty(),
    {
        Wire { id, value: 0, destinations: Vec::new() }
    }

    pub fn id(&self) -> (r: usize)
        ensures
            r == self.id,
    {
        self.id
    }

    pub fn value(&self) -> (r: u64)
        ensures
            r == self.value,
    {
        self.value
    }

    /// Commits a new value; the wire's id and destinations are kept.
    pub fn set_value(&mut self, value: u64)
        ensures
            final(self).value == value,
            final(self).id == old(self).id,
            final(self).destinations@ == old(self).destinations@,
    {
        self.value = value;
    }

    pub fn add_destination(&mut self, destination: usize)
        ensures
            final(self).destinations@ == old(self).destinations@.push(destination),
            final(self).id == old(self).id,
            final(self).value == old(self).value,
    {
        self.destinations.push(destination);
    }

    pub fn destinations(&self) -> (r: &Vec<usize>)
        ensures
            r@ == self.destinations@,
    {
        &self.destinations
    }

    /// Commits `value` and, when it differs from the value held before,
    /// forwards it into every destination that lies in `wires`; an unchanged
    /// value leaves `wires` as it was.
    pub fn commit(&mut self, value: u64, wires: &mut Vec<Wire>)
        ensures
            final(self).value == value,
            final(self).id == old(self).id,
            final(self).destinations@ == old(self).destinations@,
            final(wires)@.len() == old(wires)@.len(),
            value == old(self).value ==> final(wires)@ == old(wires)@,
            forall|i: int|
                0 <= i < old(wires)@.len() ==> {
                    &&& (#[trigger] final(wires)@[i]).id == old(wires)@[i].id
                    &&& final(wires)@[i].destinations@ == old(wires)@[i].destinations@
                    &&& final(wires)@[i].value == if value != old(self).value && listed(
                        old(self).destinations@,
                        i,
                    ) {
                        value
                    } else {
                        old(wires)@[i].value
                    }
                },
    {
        let changed = self.value != value;
        self.value = value;
        if changed {
            self.propagate(wires);
        }
    }

    /// Copies this wire's value into every destination that lies in `wires`;
    /// every other wire, and every id and destination list, is left as it was.
    pub fn propagate(&self, wires: &mut Vec<Wire>)
        ensures
            final(wires)@.len() == old(wires)@.len(),
            forall|i: int|
                0 <= i < old(wires)@.len() ==> {
                    &&& (#[trigger] final(wires)@[i]).id == old(wires)@[i].id
                    &&& final(wires)@[i].destinations@ == old(wires)@[i].destinations@
                    &&& final(wires)@[i].value == if listed(self.destinations@, i) {
                        self.value
                    } else {
                        old(wires)@[i].value
                    }
                },
    {
        let n = self.destinations.len();
        let mut k: usize = 0;
        while k < n
            invariant
                n == self.destinations@.len(),
                k <= n,
                wires@.len() == old(wires)@.len(),
                forall|i: int|
                    0 <= i < old(wires)@.len() ==> {
                        &&& (#[trigger] wires@[i]).id == old(wires)@[i].id
                        &&& wires@[i].destinations@ == old(wires)@[i].destinations@
                        &&& wires@[i].value == if listed(self.destinations@.take(k as int), i) {
                            self.value
                        } else {
                            old(wires)@[i].value
                        }
                    },
            decreases n - k,
        {
            let d = self.destinations[k];
            let ghost prev = wires@;
            if d < wires.len() {
                wires[d].value = self.value;
            }
            proof {
                let t0 = self.destinations@.take(k as int);
                let t1 = self.destinations@.take(k + 1);
                assert forall|i: int| 0 <= i < old(wires)@.len() implies #[trigger] listed(t1, i)
                    == (listed(t0, i) || d as int == i) by {
                    if listed(t1, i) {
                        let j = choose|j: int| 0 <= j < t1.len() && t1[j] as int == i;
                        if j < k {
                            assert(t0[j] == t1[j]);
                        }
                    }
                    if listed(t0, i) {
                        let j = choose|j: int| 0 <= j < t0.len() && t0[j] as int == i;
                        assert(t1[j] == t0[j]);
                    }
                    if d as int == i {
                        assert(t1[k as int] == d);
                    }
                }
                assert forall|i: int| 0 <= i < old(wires)@.len() implies {
                    &&& (#[trigger] wires@[i]).id == old(wires)@[i].id
                    &&& wires@[i].destinations@ == old(wires)@[i].destinations@
                    &&& wires@[i].value == if listed(t1, i) {
                        self.value
                    } else {
                        old(wires)@[i].value
                    }
                } by {
                    assert(listed(t1, i) == (listed(t0, i) || d as int == i));
                    let p = prev[i];
                }
            }
            k = k + 1;
        }
        assert(self.destinations@.take(n as int) == self.destinations@);
    }
}

/// Wires are told apart by id alone.
impl PartialEq for Wire {
    fn eq(&self, other: &Wire) -> (r: bool) {
        self.id == other.id
    }
}

impl vstd::std_specs::cmp::PartialEqSpecImpl for Wire {
    open spec fn obeys_eq_spec() -> bool {
        true
    }

    open spec fn eq_spec(&self, other: &Wire) -> bool {
        self.id == other.id
    }
}

impl Eq for Wire {

}

/// Whether `i` is one of the ids in `ids`.
pub open spec fn listed(ids: Seq<usize>, i: int) -> bool {
    exists|j: int| 0 <= j < ids.len() && ids[j] as int == i
}

} // verus!
