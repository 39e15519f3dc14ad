use vstd::prelude::*;
use crate::error::FabricError;
use crate::wire::Wire;

verus! {

/// Whether wire `w` exists in `wires` and holds a non-zero value.
pub open spec fn wire_high(wires: Seq<Wire>, w: usize) -> bool {
    w < wires.len() && wires[w as int].value != 0
}

/// A sampled transition from low to high: the previous sample must exist.
pub open spec fn rising(last: Option<bool>, now: bool) -> bool {
    last == Some(false) && now
}

/// An edge-triggered flip-flop holding one bit.
#[derive(Clone, Debug)]
pub struct DFF {
    pub id: usize,
    pub input_wire: Option<usize>,
    pub clock_wire: Option<usize>,
    pub output_wire: Option<usize>,
    pub state: bool,
    /// The clock level seen at the previous evaluation, if there was one.
    pub last_clock_state: Option<bool>,
}

impl DFF {
    /// Whether both the data input and the clock are bound.
    pub open spec fn connected(&self) -> bool {
        self.input_wire.is_some() && self.clock_wire.is_some()
    }

    /// The latch after one evaluation against `wires`: it samples the clock,
    /// and takes the input's level only on a rising edge. An unconnected
    /// latch is inert.
    pub open spec fn next(self, wires: Seq<Wire>) -> DFF {
        if self.connected() {
            let clk = wire_high(wires, self.clock_wire.unwrap());
            DFF {
                state: if rising(self.last_clock_state, clk) {
                    wire_high(wires, self.input_wire.unwrap())
                } else {
                    self.state
                },
                last_clock_state: Some(clk),
                ..self
            }
        } else {
            self
        }
    }

    pub fn new(id: usize) -> (r: DFF)
        ensures
            r.id == id,
            r.input_wire.is_none(),
            r.clock_wire.is_none(),
            r.output_wire.is_none(),
            !r.state,
            r.last_clock_state.is_none(),
    {
        DFF {
            id,
            input_wire: None,
            clock_wire: None,
            output_wire: None,
            state: false,
            last_clock_state: None,
        }
    }

    pub fn id(&self) -> (r: usize)
        ensures
            r == self.id,
    {
        self.id
    }

    pub fn connect_input(&mut self, wire_index: usize)
        ensures
            *final(self) == (DFF { input_wire: Some(wire_index), ..*old(self) }),
    {
        self.input_wire = Some(wire_index);
    }

    pub fn connect_clock(&mut self, wire_index: usize)
        ensures
            *final(self) == (DFF { clock_wire: Some(wire_index), ..*old(self) }),
    {
        self.clock_wire = Some(wire_index);
    }

    pub fn connect_output(&mut self, wire_index: usize)
        ensures
            *final(self) == (DFF { output_wire: Some(wire_index), ..*old(self) }),
    {
        self.output_wire = Some(wire_index);
    }

    /// The output wire, or a missing-connection error while it is unbound.
    pub fn output_wire(&self) -> (r: Result<usize, FabricError>)
        ensures
            r == match self.output_wire {
                Some(w) => Ok::<usize, FabricError>(w),
                None => Err(FabricError::MissingConnection),
            },
    {
        match self.output_wire {
            Some(w) => Ok(w),
            None => Err(FabricError::MissingConnection),
        }
    }

    pub fn get_state(&self) -> (r: bool)
        ensures
            r == self.state,
    {
        self.state
    }

    pub fn input_wire(&self) -> (r: Option<usize>)
        ensures
            r == self.input_wire,
    {
        self.input_wire
    }

    pub fn clock_wire(&self) -> (r: Option<usize>)
        ensures
            r == self.clock_wire,
    {
        self.clock_wire
    }

    /// One evaluation without touching the wires: returns the output wire and
    /// the value it is to be driven with, when the latch is connected and its
    /// output is bound.
    pub fn step(&mut self, wires: &Vec<Wire>) -> (drive: Option<(usize, u64)>)
        ensures
            *final(self) == old(self).next(wires@),
            drive == if old(self).connected() && old(self).output_wire.is_some() {
                Some((old(self).output_wire.unwrap(), if final(self).state { 1u64 } else { 0u64 }))
            } else {
                None
            },
    {
        match (self.input_wire, self.clock_wire) {
            (Some(input_wire), Some(clock_wire)) => {
                let input_value = input_wire < wires.len() && wires[input_wire].value != 0;
                let clock_state = clock_wire < wires.len() && wires[clock_wire].value != 0;
                if clock_state && self.last_clock_state == Some(false) {
                    self.state = input_value;
                }
                self.last_clock_state = Some(clock_state);
                match self.output_wire {
                    Some(o) => Some((
                        o,
                        if self.state {
                            1
                        } else {
                            0
                        },
                    )),
                    None => None,
                }
            },
            _ => None,
        }
    }

    /// One evaluation: latches on a rising clock edge, then drives the output
    /// wire with the held bit.
    pub fn evaluate(&mut self, wires: &mut Vec<Wire>)
        ensures
            *final(self) == old(self).next(old(wires)@),
            final(wires)@.len() == old(wires)@.len(),
            forall|i: int|
                0 <= i < old(wires)@.len() ==> {
                    &&& (#[trigger] final(wires)@[i]).id == old(wires)@[i].id
                    &&& final(wires)@[i].destinations@ == old(wires)@[i].destinations@
                    &&& final(wires)@[i].value == if old(self).connected()
                        && old(self).output_wire == Some(i as usize) {
                        if final(self).state {
                            1
                        } else {
                            0
                        }
                    } else {
                        old(wires)@[i].value
                    }
                },
    {
        let drive = self.step(wires);
        if let Some((o, v)) = drive {
            if o < wires.len() {
                wires[o].value = v;
            }
        }
    }
}

/// Edge exclusivity: an evaluation changes the held bit only on a sampled
/// low-to-high clock transition, and evaluating again while the clock stays
/// at the same level leaves the held bit as it is, whatever the input does.
pub proof fn lemma_latch_edge_only(d: DFF, wires: Seq<Wire>, later: Seq<Wire>)
    ensures
        d.next(wires).state != d.state ==> d.connected() && rising(
            d.last_clock_state,
            wire_high(wires, d.clock_wire.unwrap()),
        ),
        d.connected() && wire_high(later, d.clock_wire.unwrap()) == wire_high(
            wires,
            d.clock_wire.unwrap(),
        ) ==> d.next(wires).next(later) == d.next(wires),
{
}

} // verus!
