use vstd::prelude::*;
use crate::error::FabricError;
use crate::text::same_text;
use crate::wire::Wire;
use crate::dff::{rising, wire_high};

verus! {

/// The five ports of a block memory.
#[derive(Clone, Copy, Debug, PartialEq, Eq, Structural)]
pub enum BramPort {
    Address,
    DataIn,
    DataOut,
    WriteEnable,
    Clock,
}

/// The port that a port name denotes, if any.
pub open spec fn bram_port_named(name: Seq<char>) -> Option<BramPort> {
    if name == "address"@ {
        Some(BramPort::Address)
    } else if name == "data_in"@ {
        Some(BramPort::DataIn)
    } else if name == "data_out"@ {
        Some(BramPort::DataOut)
    } else if name == "write_enable"@ {
        Some(BramPort::WriteEnable)
    } else if name == "clock"@ {
        Some(BramPort::Clock)
    } else {
        None
    }
}

pub fn parse_bram_port(name: &str) -> (r: Option<BramPort>)
    ensures
        r == bram_port_named(name@),
{
    if same_text(name, "address") {
        Some(BramPort::Address)
    } else if same_text(name, "data_in") {
        Some(BramPort::DataIn)
    } else if same_text(name, "data_out") {
        Some(BramPort::DataOut)
    } else if same_text(name, "write_enable") {
        Some(BramPort::WriteEnable)
    } else if same_text(name, "clock") {
        Some(BramPort::Clock)
    } else {
        None
    }
}

/// The low `width` bits set, for a width of 1 to 64.
pub open spec fn word_mask(width: usize) -> u64 {
    u64::MAX >> ((64 - width) as u64)
}

/// Masking with the low `64 - s` ones gives a word within the mask, and a
/// word within the mask is its own masked value.
pub proof fn lemma_masked_word(x: u64, s: u64)
    requires
        s < 64,
    ensures
        x & (u64::MAX >> s) <= u64::MAX >> s,
        x <= u64::MAX >> s <==> x & (u64::MAX >> s) == x,
{
    assert(x & (u64::MAX >> s) <= u64::MAX >> s) by (bit_vector);
    assert(x <= u64::MAX >> s <==> x & (u64::MAX >> s) == x) by (bit_vector)
        requires
            s < 64,
    ;
}

/// The value of the wire bound at `binding`, 0 when unbound or missing.
pub open spec fn bound_value(wires: Seq<Wire>, binding: Option<usize>) -> u64 {
    match binding {
        Some(w) => if w < wires.len() {
            wires[w as int].value
        } else {
            0
        },
        None => 0,
    }
}

/// A block memory of `size` words of `width` bits, read and written on the
/// rising edge of its clock.
#[derive(Clone, Debug)]
pub struct BlockRAM {
    pub id: usize,
    pub size: usize,
    pub width: usize,
    pub memory: Vec<u64>,
    pub address_wire: Option<usize>,
    pub data_in_wire: Option<usize>,
    pub data_out_wire: Option<usize>,
    pub write_enable_wire: Option<usize>,
    pub clock_wire: Option<usize>,
    /// The clock level seen at the previous evaluation, if there was one.
    pub last_clock_state: Option<bool>,
}

impl BlockRAM {
    pub open spec fn wf(&self) -> bool {
        &&& self.memory@.len() == self.size
        &&& 1 <= self.width <= 64
        &&& forall|i: int| 0 <= i < self.size ==> #[trigger] self.memory@[i] <= self.mask()
    }

    pub open spec fn mask(&self) -> u64 {
        word_mask(self.width)
    }

    /// Whether an evaluation against `wires` sees a rising clock edge.
    pub open spec fn edge(&self, wires: Seq<Wire>) -> bool {
        self.clock_wire.is_some() && rising(
            self.last_clock_state,
            wire_high(wires, self.clock_wire.unwrap()),
        )
    }

    /// The addressed word: the address wire's value modulo the capacity (0
    /// for an empty memory).
    pub open spec fn address(&self, wires: Seq<Wire>) -> int {
        if self.size == 0 {
            0
        } else {
            bound_value(wires, self.address_wire) as int % self.size as int
        }
    }

    /// The word driven on data-out by an edge against `wires`: the addressed
    /// word after the edge's write; an empty memory drives 0.
    pub open spec fn data_out_for(&self, wires: Seq<Wire>) -> u64 {
        if self.size == 0 {
            0
        } else {
            self.next_memory(wires)[self.address(wires)]
        }
    }

    pub open spec fn write_enabled(&self, wires: Seq<Wire>) -> bool {
        bound_value(wires, self.write_enable_wire) != 0
    }

    /// The words after an evaluation against `wires`: on an enabled edge the
    /// addressed word takes the masked data input.
    pub open spec fn next_memory(&self, wires: Seq<Wire>) -> Seq<u64> {
        if self.edge(wires) && self.write_enabled(wires) && self.size > 0 {
            self.memory@.update(
                self.address(wires),
                bound_value(wires, self.data_in_wire) & self.mask(),
            )
        } else {
            self.memory@
        }
    }

    /// The clock level remembered after an evaluation against `wires`.
    pub open spec fn next_clock_state(&self, wires: Seq<Wire>) -> Option<bool> {
        match self.clock_wire {
            Some(c) => Some(wire_high(wires, c)),
            None => self.last_clock_state,
        }
    }

    /// Everything but the words and the remembered clock level.
    pub open spec fn same_setup(&self, other: &BlockRAM) -> bool {
        &&& other.id == self.id
        &&& other.size == self.size
        &&& other.width == self.width
        &&& other.address_wire == self.address_wire
        &&& other.data_in_wire == self.data_in_wire
        &&& other.data_out_wire == self.data_out_wire
        &&& other.write_enable_wire == self.write_enable_wire
        &&& other.clock_wire == self.clock_wire
    }

    /// Builds a zeroed memory; the width must lie in 1 to 64 bits. A memory of
    /// capacity 0 stores nothing and drives 0 on every edge.
    pub fn new(id: usize, size: usize, width: usize) -> (r: Result<BlockRAM, FabricError>)
        ensures
            width == 0 || width > 64 ==> r == Err::<BlockRAM, FabricError>(
                FabricError::InvalidWidth(width),
            ),
            1 <= width <= 64 ==> r is Ok,
            r matches Ok(b) ==> {
                &&& b.wf()
                &&& b.id == id
                &&& b.size == size
                &&& b.width == width
                &&& forall|i: int| 0 <= i < size ==> #[trigger] b.memory@[i] == 0
                &&& b.address_wire.is_none()
                &&& b.data_in_wire.is_none()
                &&& b.data_out_wire.is_none()
                &&& b.write_enable_wire.is_none()
                &&& b.clock_wire.is_none()
                &&& b.last_clock_state.is_none()
            },
    {
        if width == 0 || width > 64 {
            return Err(FabricError::InvalidWidth(width));
        }
        let mut memory: Vec<u64> = Vec::new();
        let mut i: usize = 0;
        while i < size
            invariant
                i <= size,
                memory@.len() == i,
                forall|j: int| 0 <= j < i ==> #[trigger] memory@[j] == 0,
            decreases size - i,
        {
            memory.push(0);
            i = i + 1;
        }
        Ok(
            BlockRAM {
                id,
                size,
                width,
                memory,
                address_wire: None,
                data_in_wire: None,
                data_out_wire: None,
                write_enable_wire: None,
                clock_wire: None,
                last_clock_state: None,
            },
        )
    }

    /// Binds one port to a wire; an unknown port name is refused and
    /// changes nothing.
    pub fn connect_wire(&mut self, port: &str, wire_index: usize) -> (r: Result<(), FabricError>)
        ensures
            bram_port_named(port@) is None ==> r == Err::<(), FabricError>(
                FabricError::InvalidBramPort(old(self).id),
            ) && *final(self) == *old(self),
            bram_port_named(port@) matches Some(p) ==> r is Ok && *final(self) == old(
                self,
            ).bind(p, wire_index),
    {
        match parse_bram_port(port) {
            Some(p) => {
                self.bind_port(p, wire_index);
                Ok(())
            },
            None => Err(FabricError::InvalidBramPort(self.id)),
        }
    }

    /// The memory with `port` bound to wire `w`.
    pub open spec fn bind(self, port: BramPort, w: usize) -> BlockRAM {
        match port {
            BramPort::Address => BlockRAM { address_wire: Some(w), ..self },
            BramPort::DataIn => BlockRAM { data_in_wire: Some(w), ..self },
            BramPort::DataOut => BlockRAM { data_out_wire: Some(w), ..self },
            BramPort::WriteEnable => BlockRAM { write_enable_wire: Some(w), ..self },
            BramPort::Clock => BlockRAM { clock_wire: Some(w), ..self },
        }
    }

    pub fn bind_port(&mut self, port: BramPort, wire_index: usize)
        ensures
            *final(self) == old(self).bind(port, wire_index),
    {
        match port {
            BramPort::Address => self.address_wire = Some(wire_index),
            BramPort::DataIn => self.data_in_wire = Some(wire_index),
            BramPort::DataOut => self.data_out_wire = Some(wire_index),
            BramPort::WriteEnable => self.write_enable_wire = Some(wire_index),
            BramPort::Clock => self.clock_wire = Some(wire_index),
        }
    }

    fn value_at(binding: Option<usize>, wires: &Vec<Wire>) -> (r: u64)
        ensures
            r == bound_value(wires@, binding),
    {
        match binding {
            Some(w) => if w < wires.len() {
                wires[w].value
            } else {
                0
            },
            None => 0,
        }
    }

    /// One evaluation without touching the wires. On a rising clock edge it
    /// writes the masked data input when write-enable is set, then reads the
    /// addressed word back (a read during a write sees the new word) and
    /// returns the data-out wire with that word, when data-out is bound.
    pub fn step(&mut self, wires: &Vec<Wire>) -> (drive: Option<(usize, u64)>)
        requires
            old(self).wf(),
        ensures
            final(self).wf(),
            old(self).same_setup(&*final(self)),
            final(self).memory@ == old(self).next_memory(wires@),
            final(self).last_clock_state == old(self).next_clock_state(wires@),
            drive == if old(self).edge(wires@) && old(self).data_out_wire.is_some() {
                Some((old(self).data_out_wire.unwrap(), old(self).data_out_for(wires@)))
            } else {
                None
            },
    {
        match self.clock_wire {
            Some(clock_wire) => {
                let clock_state = clock_wire < wires.len() && wires[clock_wire].value != 0;
                let edge = clock_state && self.last_clock_state == Some(false);
                self.last_clock_state = Some(clock_state);
                if edge && self.size == 0 {
                    match self.data_out_wire {
                        Some(o) => Some((o, 0)),
                        None => None,
                    }
                } else if edge {
                    let address = (Self::value_at(self.address_wire, wires) % (
                    self.size as u64)) as usize;
                    let write_enable = Self::value_at(self.write_enable_wire, wires) != 0;
                    if write_enable {
                        let data_in = Self::value_at(self.data_in_wire, wires);
                        self.write(address, data_in);
                    }
                    let data_out = self.read(address);
                    match self.data_out_wire {
                        Some(o) => Some((o, data_out)),
                        None => None,
                    }
                } else {
                    None
                }
            },
            None => None,
        }
    }

    /// One evaluation, driving the data-out wire on a rising edge.
    pub fn evaluate(&mut self, wires: &mut Vec<Wire>)
        requires
            old(self).wf(),
        ensures
            final(self).wf(),
            old(self).same_setup(&*final(self)),
            final(self).memory@ == old(self).next_memory(old(wires)@),
            final(self).last_clock_state == old(self).next_clock_state(old(wires)@),
            final(wires)@.len() == old(wires)@.len(),
            forall|i: int|
                0 <= i < old(wires)@.len() ==> {
                    &&& (#[trigger] final(wires)@[i]).id == old(wires)@[i].id
                    &&& final(wires)@[i].destinations@ == old(wires)@[i].destinations@
                    &&& final(wires)@[i].value == if old(self).edge(old(wires)@)
                        && old(self).data_out_wire == Some(i as usize) {
                        old(self).data_out_for(old(wires)@)
                    } else {
                        old(wires)@[i].value
                    }
                },
    {
        let drive = self.step(wires);
        if let Some((o, v)) = drive {
            if o < wires.len() {
                wires[o].value = v;
            }
        }
    }

    /// The word at `address`, masked to the width.
    pub fn read(&self, address: usize) -> (r: u64)
        requires
            self.wf(),
            address < self.size,
        ensures
            r == self.memory@[address as int] & self.mask(),
            r == self.memory@[address as int],
    {
        let w = self.memory[address];
        let m = u64::MAX >> ((64 - self.width) as u64);
        proof {
            lemma_masked_word(w, (64 - self.width) as u64);
        }
        w & m
    }

    /// Stores `data` masked to the width at `address`.
    pub fn write(&mut self, address: usize, data: u64)
        requires
            old(self).wf(),
            address < old(self).size,
        ensures
            final(self).wf(),
            old(self).same_setup(&*final(self)),
            final(self).last_clock_state == old(self).last_clock_state,
            final(self).memory@ == old(self).memory@.update(address as int, data & old(self).mask()),
    {
        let m = u64::MAX >> ((64 - self.width) as u64);
        proof {
            lemma_masked_word(data, (64 - self.width) as u64);
        }
        self.memory[address] = data & m;
    }

    pub fn get_memory(&self) -> (r: &[u64])
        ensures
            r@ == self.memory@,
    {
        self.memory.as_slice()
    }
}

} // verus!
