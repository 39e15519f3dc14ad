use vstd::prelude::*;
use crate::error::FabricError;
use crate::wire::Wire;

verus! {

/// Whether the wire bound at `binding` reads as logic-high; an unbound input,
/// or one naming a wire that does not exist, reads as logic-low.
pub open spec fn reads_high(wires: Seq<Wire>, binding: Option<usize>) -> bool {
    match binding {
        Some(w) => w < wires.len() && wires[w as int].value != 0,
        None => false,
    }
}

pub open spec fn bit(b: bool) -> int {
    if b {
        1
    } else {
        0
    }
}

/// The 4-bit table address formed from the inputs: input `i` gives bit `i`.
pub open spec fn lut_address(inputs: Seq<Option<usize>>, wires: Seq<Wire>) -> int {
    bit(reads_high(wires, inputs[0])) + 2 * bit(reads_high(wires, inputs[1])) + 4 * bit(
        reads_high(wires, inputs[2]),
    ) + 8 * bit(reads_high(wires, inputs[3]))
}

/// The wires bound to the inputs, in input order, skipping unbound ones.
pub open spec fn bound_wires(s: Seq<Option<usize>>) -> Seq<usize>
    decreases s.len(),
{
    if s.len() == 0 {
        Seq::empty()
    } else {
        let rest = bound_wires(s.drop_last());
        match s.last() {
            Some(w) => rest.push(w),
            None => rest,
        }
    }
}

/// A 4-input lookup table: a stateless function of its input wires.
#[derive(Clone, Debug)]
pub struct LUT {
    pub id: usize,
    pub input_wires: [Option<usize>; 4],
    pub output_wire: Option<usize>,
    pub truth_table: [bool; 16],
}

impl LUT {
    /// The value the table gives for the current values of `wires`.
    pub open spec fn output_for(&self, wires: Seq<Wire>) -> u64 {
        if self.truth_table@[lut_address(self.input_wires@, wires)] {
            1
        } else {
            0
        }
    }

    pub fn new(id: usize, truth_table: [bool; 16]) -> (r: LUT)
        ensures
            r.id == id,
            r.truth_table@ == truth_table@,
            r.output_wire.is_none(),
            forall|i: int| 0 <= i < 4 ==> (#[trigger] r.input_wires@[i]).is_none(),
    {
        LUT { id, input_wires: [None, None, None, None], output_wire: None, truth_table }
    }

    pub fn id(&self) -> (r: usize)
        ensures
            r == self.id,
    {
        self.id
    }

    pub fn connect_input(&mut self, input_index: usize, wire_index: usize)
        requires
            input_index < 4,
        ensures
            final(self).input_wires@ == old(self).input_wires@.update(
                input_index as int,
                Some(wire_index),
            ),
            final(self).id == old(self).id,
            final(self).output_wire == old(self).output_wire,
            final(self).truth_table@ == old(self).truth_table@,
    {
        self.input_wires[input_index] = Some(wire_index);
    }

    pub fn connect_output(&mut self, wire_index: usize)
        ensures
            final(self).output_wire == Some(wire_index),
            final(self).id == old(self).id,
            final(self).input_wires@ == old(self).input_wires@,
            final(self).truth_table@ == old(self).truth_table@,
    {
        self.output_wire = Some(wire_index);
    }

    /// The output wire, or a missing-connection error while it is unbound.
    pub fn output_wire(&self) -> (r: Result<usize, FabricError>)
        ensures
            r == match self.output_wire {
                Some(w) => Ok::<usize, FabricError>(w),
                None => Err(FabricError::MissingConnection),
            },
    {
        match self.output_wire {
            Some(w) => Ok(w),
            None => Err(FabricError::MissingConnection),
        }
    }

    fn input_high(&self, i: usize, wires: &Vec<Wire>) -> (r: bool)
        requires
            i < 4,
        ensures
            r == reads_high(wires@, self.input_wires@[i as int]),
    {
        match self.input_wires[i] {
            Some(w) => w < wires.len() && wires[w].value != 0,
            None => false,
        }
    }

    /// Looks up the table at the address formed from the input wires; it
    /// changes nothing, the caller commits the result.
    pub fn evaluate(&self, wires: &Vec<Wire>) -> (r: u64)
        ensures
            r == self.output_for(wires@),
    {
        let mut address: usize = 0;
        if self.input_high(0, wires) {
            address = address + 1;
        }
        if self.input_high(1, wires) {
            address = address + 2;
        }
        if self.input_high(2, wires) {
            address = address + 4;
        }
        if self.input_high(3, wires) {
            address = address + 8;
        }
        if self.truth_table[address] {
            1
        } else {
            0
        }
    }

    pub fn get_truth_table(&self) -> (r: &[bool; 16])
        ensures
            r@ == self.truth_table@,
    {
        &self.truth_table
    }

    /// The wires bound to the inputs, in input order.
    pub fn inputs(&self) -> (r: Vec<usize>)
        ensures
            r@ == bound_wires(self.input_wires@),
    {
        let mut r: Vec<usize> = Vec::new();
        let mut i: usize = 0;
        while i < 4
            invariant
                i <= 4,
                r@ == bound_wires(self.input_wires@.take(i as int)),
            decreases 4 - i,
        {
            proof {
                assert(self.input_wires@.take(i + 1).drop_last() == self.input_wires@.take(
                    i as int,
                ));
            }
            if let Some(w) = self.input_wires[i] {
                r.push(w);
            }
            i = i + 1;
        }
        assert(self.input_wires@.take(4) == self.input_wires@);
        r
    }
}

/// Lookup purity: with every input low the table's first entry comes out,
/// with every input high its last.
pub proof fn lemma_lut_corners(lut: LUT, wires: Seq<Wire>)
    ensures
        (forall|i: int| 0 <= i < 4 ==> !reads_high(wires, #[trigger] lut.input_wires@[i]))
            ==> lut.output_for(wires) == bit(lut.truth_table@[0]),
        (forall|i: int| 0 <= i < 4 ==> reads_high(wires, #[trigger] lut.input_wires@[i]))
            ==> lut.output_for(wires) == bit(lut.truth_table@[15]),
{
    if forall|i: int| 0 <= i < 4 ==> !reads_high(wires, #[trigger] lut.input_wires@[i]) {
        assert(!reads_high(wires, lut.input_wires@[0]));
        assert(!reads_high(wires, lut.input_wires@[1]));
        assert(!reads_high(wires, lut.input_wires@[2]));
        assert(!reads_high(wires, lut.input_wires@[3]));
    }
    if forall|i: int| 0 <= i < 4 ==> reads_high(wires, #[trigger] lut.input_wires@[i]) {
        assert(reads_high(wires, lut.input_wires@[0]));
        assert(reads_high(wires, lut.input_wires@[1]));
        assert(reads_high(wires, lut.input_wires@[2]));
        assert(reads_high(wires, lut.input_wires@[3]));
    }
}

} // verus!
