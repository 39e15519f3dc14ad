use vstd::prelude::*;
use crate::bram::{bram_port_named, parse_bram_port, BlockRAM, BramPort};
use crate::config::{
    bram_ids, config_error, connections_error, dff_ids, has_name, lut_ids, port_error, unique_ids,
    unique_names, validate_config, BRAMConfig, ConnectionConfig, DFFConfig, ElementPort,
    FPGAConfig, FPGAElement, LUTConfig,
};
use crate::dff::DFF;
use crate::error::FabricError;
use crate::lut::LUT;
use crate::text::same_text;
use crate::wire::{listed, Wire};

verus! {

/// The wires that carry a memory's five ports.
#[derive(Clone, Copy, Debug, PartialEq, Eq, Structural)]
pub struct BramPortWires {
    pub address: usize,
    pub data_in: usize,
    pub data_out: usize,
    pub write_enable: usize,
    pub clock: usize,
}

impl BramPortWires {
    pub open spec fn wire_of(self, port: BramPort) -> usize {
        match port {
            BramPort::Address => self.address,
            BramPort::DataIn => self.data_in,
            BramPort::DataOut => self.data_out,
            BramPort::WriteEnable => self.write_enable,
            BramPort::Clock => self.clock,
        }
    }

    pub fn get(&self, port: BramPort) -> (r: usize)
        ensures
            r == self.wire_of(port),
    {
        match port {
            BramPort::Address => self.address,
            BramPort::DataIn => self.data_in,
            BramPort::DataOut => self.data_out,
            BramPort::WriteEnable => self.write_enable,
            BramPort::Clock => self.clock,
        }
    }
}

pub open spec fn binding_ok(b: Option<usize>, n: nat) -> bool {
    b matches Some(w) ==> w < n
}

/// The names of a name-to-wire table, in order.
pub open spec fn names_of(table: Seq<(String, usize)>) -> Seq<String> {
    table.map_values(|e: (String, usize)| e.0)
}

/// The fabric: it owns every wire and primitive, each kept in order of
/// creation; bindings refer to wires by position.
#[derive(Clone, Debug)]
pub struct FPGAFabric {
    pub inputs: Vec<(String, usize)>,
    pub outputs: Vec<(String, usize)>,
    pub wires: Vec<Wire>,
    pub luts: Vec<LUT>,
    pub dffs: Vec<DFF>,
    pub brams: Vec<BlockRAM>,
    /// The port wires of each memory, in the order of `brams`.
    pub bram_ports: Vec<BramPortWires>,
    /// The wire of the periodic clock, which drives every flip-flop and
    /// memory whose clock is not connected otherwise.
    pub clock_wire: usize,
}

impl FPGAFabric {
    pub open spec fn wf(&self) -> bool {
        let n = self.wires@.len();
        &&& forall|i: int|
            0 <= i < n ==> (#[trigger] self.wires@[i]).id == i && forall|j: int|
                0 <= j < self.wires@[i].destinations@.len()
                    ==> #[trigger] self.wires@[i].destinations@[j] < n
        &&& self.clock_wire < n
        &&& forall|k: int| 0 <= k < self.inputs@.len() ==> (#[trigger] self.inputs@[k]).1 < n
        &&& forall|k: int| 0 <= k < self.outputs@.len() ==> (#[trigger] self.outputs@[k]).1 < n
        &&& unique_names(names_of(self.inputs@))
        &&& unique_names(names_of(self.outputs@))
        &&& forall|k: int|
            0 <= k < self.luts@.len() ==> {
                &&& (#[trigger] self.luts@[k]).output_wire matches Some(o) && o < n
                &&& forall|p: int| 0 <= p < 4 ==> binding_ok(#[trigger] self.luts@[k].input_wires@[p], n)
            }
        &&& forall|k: int|
            0 <= k < self.dffs@.len() ==> {
                &&& (#[trigger] self.dffs@[k]).output_wire matches Some(o) && o < n
                &&& binding_ok(self.dffs@[k].input_wire, n)
                &&& binding_ok(self.dffs@[k].clock_wire, n)
            }
        &&& self.bram_ports@.len() == self.brams@.len()
        &&& forall|k: int|
            0 <= k < self.brams@.len() ==> {
                &&& (#[trigger] self.brams@[k]).wf()
                &&& binding_ok(self.brams@[k].address_wire, n)
                &&& binding_ok(self.brams@[k].data_in_wire, n)
                &&& binding_ok(self.brams@[k].data_out_wire, n)
                &&& binding_ok(self.brams@[k].write_enable_wire, n)
                &&& binding_ok(self.brams@[k].clock_wire, n)
                &&& self.bram_ports@[k].address < n
                &&& self.bram_ports@[k].data_in < n
                &&& self.bram_ports@[k].data_out < n
                &&& self.bram_ports@[k].write_enable < n
                &&& self.bram_ports@[k].clock < n
            }
        &&& unique_ids(self.luts@.map_values(|l: LUT| l.id))
        &&& unique_ids(self.dffs@.map_values(|d: DFF| d.id))
        &&& unique_ids(self.brams@.map_values(|b: BlockRAM| b.id))
    }

    /// The committed values of all wires, in id order.
    pub open spec fn values(&self) -> Seq<u64> {
        self.wires@.map_values(|w: Wire| w.value)
    }

    /// The wire bound to the first input named `name`.
    pub open spec fn input_wire_of(&self, name: Seq<char>) -> Option<usize> {
        wire_named(self.inputs@, name)
    }

    pub open spec fn output_wire_of(&self, name: Seq<char>) -> Option<usize> {
        wire_named(self.outputs@, name)
    }

    /// An empty fabric that holds only the periodic clock's wire.
    pub fn new() -> (r: FPGAFabric)
        ensures
            r.wf(),
            r.wires@.len() == 1,
            r.wires@[0].value == 0,
            r.clock_wire == 0,
            r.inputs@.len() == 0,
            r.outputs@.len() == 0,
            r.luts@.len() == 0,
            r.dffs@.len() == 0,
            r.brams@.len() == 0,
            r.unwired(),
    {
        let mut wires: Vec<Wire> = Vec::new();
        wires.push(Wire::new(0));
        let r = FPGAFabric {
            inputs: Vec::new(),
            outputs: Vec::new(),
            wires,
            luts: Vec::new(),
            dffs: Vec::new(),
            brams: Vec::new(),
            bram_ports: Vec::new(),
            clock_wire: 0,
        };
        assert(r.luts@.map_values(|l: LUT| l.id) =~= Seq::<usize>::empty());
        assert(r.dffs@.map_values(|d: DFF| d.id) =~= Seq::<usize>::empty());
        assert(r.brams@.map_values(|b: BlockRAM| b.id) =~= Seq::<usize>::empty());
        assert(names_of(r.inputs@) =~= Seq::<String>::empty());
        assert(names_of(r.outputs@) =~= Seq::<String>::empty());
        r
    }

    /// Adds a fresh wire at value 0 and returns its id.
    fn create_wire(&mut self) -> (r: usize)
        requires
            old(self).wf(),
            old(self).wires@.len() < usize::MAX,
        ensures
            final(self).wf(),
            r == old(self).wires@.len(),
            final(self).wires@ == old(self).wires@.push(final(self).wires@[r as int]),
            final(self).wires@[r as int].value == 0,
            final(self).wires@[r as int].destinations@.len() == 0,
            final(self).inputs == old(self).inputs,
            final(self).outputs == old(self).outputs,
            final(self).luts == old(self).luts,
            final(self).dffs == old(self).dffs,
            final(self).brams == old(self).brams,
            final(self).bram_ports == old(self).bram_ports,
            final(self).clock_wire == old(self).clock_wire,
    {
        let id = self.wires.len();
        self.wires.push(Wire::new(id));
        id
    }

    pub fn get_input_wire_index(&self, input_name: &str) -> (r: Option<usize>)
        ensures
            r == self.input_wire_of(input_name@),
    {
        find_wire(&self.inputs, input_name)
    }

    pub fn get_output_wire_index(&self, output_name: &str) -> (r: Option<usize>)
        ensures
            r == self.output_wire_of(output_name@),
    {
        find_wire(&self.outputs, output_name)
    }

    /// Commits `value` to the named input's wire at once; an unknown name is
    /// reported and changes nothing.
    pub fn set_input(&mut self, name: &str, value: u64) -> (r: Result<(), FabricError>)
        requires
            old(self).wf(),
        ensures
            final(self).wf(),
            old(self).input_wire_of(name@) is None ==> r == Err::<(), FabricError>(
                FabricError::UnknownInput,
            ) && *final(self) == *old(self),
            old(self).input_wire_of(name@) matches Some(w) ==> r is Ok && final(self).same_except_wires(
                old(self),
            ) && final(self).values() == old(self).values().update(w as int, value),
    {
        proof {
            lemma_wire_named_entry(self.inputs@, name@);
        }
        match self.get_input_wire_index(name) {
            Some(w) => {
                self.set_wire_value(w, value);
                Ok(())
            },
            None => Err(FabricError::UnknownInput),
        }
    }

    /// The named output's committed value; an unknown name is reported.
    pub fn get_output(&self, name: &str) -> (r: Result<u64, FabricError>)
        requires
            self.wf(),
        ensures
            self.output_wire_of(name@) is None ==> r == Err::<u64, FabricError>(
                FabricError::UnknownOutput,
            ),
            self.output_wire_of(name@) matches Some(w) ==> r == Ok::<u64, FabricError>(
                self.wires@[w as int].value,
            ),
    {
        proof {
            lemma_wire_named_entry(self.outputs@, name@);
        }
        match self.get_output_wire_index(name) {
            Some(w) => Ok(self.wires[w].value),
            None => Err(FabricError::UnknownOutput),
        }
    }

    /// The output names, in declaration order.
    pub fn get_output_names(&self) -> (r: Vec<String>)
        ensures
            r@ == names_of(self.outputs@),
    {
        names_in(&self.outputs)
    }

    /// The input names, in declaration order.
    pub fn get_all_inputs(&self) -> (r: Vec<String>)
        ensures
            r@ == names_of(self.inputs@),
    {
        names_in(&self.inputs)
    }

    /// Everything but the wires' values is as in `other`.
    pub open spec fn same_except_wires(&self, other: &FPGAFabric) -> bool {
        &&& self.inputs == other.inputs
        &&& self.outputs == other.outputs
        &&& self.luts == other.luts
        &&& self.dffs == other.dffs
        &&& self.brams == other.brams
        &&& self.bram_ports == other.bram_ports
        &&& self.clock_wire == other.clock_wire
        &&& self.wires@.len() == other.wires@.len()
        &&& forall|i: int|
            0 <= i < self.wires@.len() ==> (#[trigger] self.wires@[i]).id == other.wires@[i].id
                && self.wires@[i].destinations@ == other.wires@[i].destinations@
    }

    /// Commits `value` to a wire; an id outside the fabric changes nothing.
    pub fn set_wire_value(&mut self, wire_index: usize, value: u64)
        requires
            old(self).wf(),
        ensures
            final(self).wf(),
            final(self).same_except_wires(old(self)),
            final(self).values() == if wire_index < old(self).wires@.len() {
                old(self).values().update(wire_index as int, value)
            } else {
                old(self).values()
            },
    {
        if wire_index < self.wires.len() {
            self.wires[wire_index].value = value;
        }
        proof {
            assert(final(self).values() =~= if wire_index < old(self).wires@.len() {
                old(self).values().update(wire_index as int, value)
            } else {
                old(self).values()
            });
            let n = self.wires@.len();
            assert forall|i: int| 0 <= i < n implies (#[trigger] self.wires@[i]).id == i && forall|j: int|
                0 <= j < self.wires@[i].destinations@.len()
                    ==> #[trigger] self.wires@[i].destinations@[j] < n by {
                assert(old(self).wires@[i].id == i);
            }
        }
    }

    /// A wire's committed value, 0 for an id outside the fabric.
    pub fn get_wire_value(&self, wire_index: usize) -> (r: u64)
        ensures
            r == if wire_index < self.wires@.len() {
                self.wires@[wire_index as int].value
            } else {
                0
            },
    {
        if wire_index < self.wires.len() {
            self.wires[wire_index].value
        } else {
            0
        }
    }
}

/// The wire of the first entry of `table` named `name`.
pub open spec fn wire_named(table: Seq<(String, usize)>, name: Seq<char>) -> Option<usize>
    decreases table.len(),
{
    if table.len() == 0 {
        None
    } else {
        match wire_named(table.drop_last(), name) {
            Some(w) => Some(w),
            None => if table.last().0@ == name {
                Some(table.last().1)
            } else {
                None
            },
        }
    }
}

fn find_wire(table: &Vec<(String, usize)>, name: &str) -> (r: Option<usize>)
    ensures
        r == wire_named(table@, name@),
{
    let mut i: usize = 0;
    while i < table.len()
        invariant
            i <= table@.len(),
            wire_named(table@.take(i as int), name@) is None,
        decreases table@.len() - i,
    {
        proof {
            assert(table@.take(i + 1).drop_last() == table@.take(i as int));
        }
        if same_text(table[i].0.as_str(), name) {
            proof {
                lemma_wire_named_prefix(table@, name@, i + 1);
            }
            return Some(table[i].1);
        }
        i = i + 1;
    }
    assert(table@.take(i as int) == table@);
    None
}

/// A named wire comes from an entry of the table with that name.
pub proof fn lemma_wire_named_entry(table: Seq<(String, usize)>, name: Seq<char>)
    ensures
        wire_named(table, name) matches Some(w) ==> exists|k: int|
            0 <= k < table.len() && (#[trigger] table[k]).1 == w && table[k].0@ == name,
    decreases table.len(),
{
    if table.len() > 0 {
        lemma_wire_named_entry(table.drop_last(), name);
        if wire_named(table.drop_last(), name) is Some {
            let w = wire_named(table, name).unwrap();
            let k = choose|k: int|
                0 <= k < table.drop_last().len() && (#[trigger] table.drop_last()[k]).1 == w
                    && table.drop_last()[k].0@ == name;
            assert(table[k] == table.drop_last()[k]);
        } else if wire_named(table, name) is Some {
            assert(table[table.len() - 1] == table.last());
        }
    }
}

proof fn lemma_wire_named_prefix(table: Seq<(String, usize)>, name: Seq<char>, k: int)
    requires
        0 <= k <= table.len(),
        wire_named(table.take(k), name) is Some,
    ensures
        wire_named(table, name) == wire_named(table.take(k), name),
    decreases table.len() - k,
{
    if k < table.len() {
        assert(table.take(k + 1).drop_last() == table.take(k));
        lemma_wire_named_prefix(table, name, k + 1);
    } else {
        assert(table.take(k) == table);
    }
}

fn names_in(table: &Vec<(String, usize)>) -> (r: Vec<String>)
    ensures
        r@ == names_of(table@),
{
    let mut r: Vec<String> = Vec::new();
    let mut i: usize = 0;
    while i < table.len()
        invariant
            i <= table@.len(),
            r@ == names_of(table@.take(i as int)),
        decreases table@.len() - i,
    {
        r.push(table[i].0.clone());
        proof {
            assert(table@.take(i + 1) == table@.take(i as int).push(table@[i as int]));
            assert(names_of(table@.take(i + 1)) =~= names_of(table@.take(i as int)).push(
                table@[i as int].0,
            ));
        }
        i = i + 1;
    }
    assert(table@.take(i as int) == table@);
    r
}

/// The position of the first `id` in `ids`.
pub open spec fn first_index(ids: Seq<usize>, id: usize) -> Option<int>
    decreases ids.len(),
{
    if ids.len() == 0 {
        None
    } else {
        match first_index(ids.drop_last(), id) {
            Some(k) => Some(k),
            None => if ids.last() == id {
                Some(ids.len() - 1)
            } else {
                None
            },
        }
    }
}

pub proof fn lemma_first_index(ids: Seq<usize>, id: usize)
    ensures
        first_index(ids, id) matches Some(k) ==> 0 <= k < ids.len() && ids[k] == id,
        first_index(ids, id) is None <==> !ids.contains(id),
    decreases ids.len(),
{
    if ids.len() > 0 {
        lemma_first_index(ids.drop_last(), id);
        if ids.contains(id) && first_index(ids, id) is None {
            let j = choose|j: int| 0 <= j < ids.len() && ids[j] == id;
            if j < ids.len() - 1 {
                assert(ids.drop_last()[j] == id);
            }
        }
        if first_index(ids.drop_last(), id) is Some {
            let k = first_index(ids.drop_last(), id).unwrap();
            assert(ids[k] == ids.drop_last()[k]);
        }
    }
}

proof fn lemma_first_index_prefix(ids: Seq<usize>, id: usize, k: int)
    requires
        0 <= k <= ids.len(),
        first_index(ids.take(k), id) is Some,
    ensures
        first_index(ids, id) == first_index(ids.take(k), id),
    decreases ids.len() - k,
{
    if k < ids.len() {
        assert(ids.take(k + 1).drop_last() == ids.take(k));
        lemma_first_index_prefix(ids, id, k + 1);
    } else {
        assert(ids.take(k) == ids);
    }
}

/// Finds the position of `id` in `ids`, the first if it occurs twice.
pub fn find_id(ids: &Vec<usize>, id: usize) -> (r: Option<usize>)
    ensures
        r matches Some(k) ==> first_index(ids@, id) == Some(k as int),
        r is None ==> first_index(ids@, id) is None,
{
    let mut i: usize = 0;
    while i < ids.len()
        invariant
            i <= ids@.len(),
            first_index(ids@.take(i as int), id) is None,
        decreases ids@.len() - i,
    {
        proof {
            assert(ids@.take(i + 1).drop_last() == ids@.take(i as int));
        }
        if ids[i] == id {
            proof {
                lemma_first_index_prefix(ids@, id, i + 1);
            }
            return Some(i);
        }
        i = i + 1;
    }
    assert(ids@.take(i as int) == ids@);
    None
}

impl FPGAFabric {
    pub open spec fn lut_ids(&self) -> Seq<usize> {
        self.luts@.map_values(|l: LUT| l.id)
    }

    pub open spec fn dff_ids(&self) -> Seq<usize> {
        self.dffs@.map_values(|d: DFF| d.id)
    }

    pub open spec fn bram_ids(&self) -> Seq<usize> {
        self.brams@.map_values(|b: BlockRAM| b.id)
    }

    /// The position of the lookup table with id `id`.
    pub fn lut_index(&self, id: usize) -> (r: Option<usize>)
        ensures
            r matches Some(k) ==> first_index(self.lut_ids(), id) == Some(k as int),
            r is None ==> first_index(self.lut_ids(), id) is None,
    {
        let mut ids: Vec<usize> = Vec::new();
        let mut i: usize = 0;
        while i < self.luts.len()
            invariant
                i <= self.luts@.len(),
                ids@ == self.luts@.take(i as int).map_values(|l: LUT| l.id),
            decreases self.luts@.len() - i,
        {
            ids.push(self.luts[i].id);
            proof {
                assert(self.luts@.take(i + 1) == self.luts@.take(i as int).push(self.luts@[i as int]));
            }
            i = i + 1;
        }
        assert(self.luts@.take(i as int) == self.luts@);
        find_id(&ids, id)
    }

    pub fn dff_index(&self, id: usize) -> (r: Option<usize>)
        ensures
            r matches Some(k) ==> first_index(self.dff_ids(), id) == Some(k as int),
            r is None ==> first_index(self.dff_ids(), id) is None,
    {
        let mut ids: Vec<usize> = Vec::new();
        let mut i: usize = 0;
        while i < self.dffs.len()
            invariant
                i <= self.dffs@.len(),
                ids@ == self.dffs@.take(i as int).map_values(|d: DFF| d.id),
            decreases self.dffs@.len() - i,
        {
            ids.push(self.dffs[i].id);
            proof {
                assert(self.dffs@.take(i + 1) == self.dffs@.take(i as int).push(self.dffs@[i as int]));
            }
            i = i + 1;
        }
        assert(self.dffs@.take(i as int) == self.dffs@);
        find_id(&ids, id)
    }

    pub fn bram_index(&self, id: usize) -> (r: Option<usize>)
        ensures
            r matches Some(k) ==> first_index(self.bram_ids(), id) == Some(k as int),
            r is None ==> first_index(self.bram_ids(), id) is None,
    {
        let mut ids: Vec<usize> = Vec::new();
        let mut i: usize = 0;
        while i < self.brams.len()
            invariant
                i <= self.brams@.len(),
                ids@ == self.brams@.take(i as int).map_values(|b: BlockRAM| b.id),
            decreases self.brams@.len() - i,
        {
            ids.push(self.brams[i].id);
            proof {
                assert(self.brams@.take(i + 1) == self.brams@.take(i as int).push(
                    self.brams@[i as int],
                ));
            }
            i = i + 1;
        }
        assert(self.brams@.take(i as int) == self.brams@);
        find_id(&ids, id)
    }

    /// The wire that a connection starting at `port` carries: a named input
    /// or output, a table's output, a flip-flop's "Q", or a memory port.
    pub open spec fn source_of(&self, port: ElementPort) -> Result<usize, FabricError> {
        match port {
            ElementPort::Input { name } => match self.input_wire_of(name@) {
                Some(w) => Ok(w),
                None => Err(FabricError::UnknownInput),
            },
            ElementPort::Output { name } => match self.output_wire_of(name@) {
                Some(w) => Ok(w),
                None => Err(FabricError::UnknownOutput),
            },
            ElementPort::LUT { id, port: _ } => match first_index(self.lut_ids(), id) {
                Some(k) => Ok(self.luts@[k].output_wire.unwrap()),
                None => Err(FabricError::UnknownLut(id)),
            },
            ElementPort::DFF { id, port } => match first_index(self.dff_ids(), id) {
                Some(k) => if port@ == "Q"@ {
                    Ok(self.dffs@[k].output_wire.unwrap())
                } else {
                    Err(FabricError::InvalidDffPort(id))
                },
                None => Err(FabricError::UnknownDff(id)),
            },
            ElementPort::BRAM { id, port } => match first_index(self.bram_ids(), id) {
                Some(k) => match bram_port_named(port@) {
                    Some(p) => Ok(self.bram_ports@[k].wire_of(p)),
                    None => Err(FabricError::InvalidBramPort(id)),
                },
                None => Err(FabricError::UnknownBram(id)),
            },
        }
    }

    fn source_wire(&self, port: &ElementPort) -> (r: Result<usize, FabricError>)
        requires
            self.wf(),
        ensures
            r == self.source_of(*port),
            r matches Ok(w) ==> w < self.wires@.len(),
    {
        match port {
            ElementPort::Input { name } => match self.get_input_wire_index(name.as_str()) {
                Some(w) => {
                    proof {
                        lemma_wire_named_entry(self.inputs@, name@);
                    }
                    Ok(w)
                },
                None => Err(FabricError::UnknownInput),
            },
            ElementPort::Output { name } => match self.get_output_wire_index(name.as_str()) {
                Some(w) => {
                    proof {
                        lemma_wire_named_entry(self.outputs@, name@);
                    }
                    Ok(w)
                },
                None => Err(FabricError::UnknownOutput),
            },
            ElementPort::LUT { id, port: _ } => match self.lut_index(*id) {
                Some(k) => {
                    proof {
                        lemma_first_index(self.lut_ids(), *id);
                    }
                    Ok(self.luts[k].output_wire.unwrap())
                },
                None => Err(FabricError::UnknownLut(*id)),
            },
            ElementPort::DFF { id, port } => match self.dff_index(*id) {
                Some(k) => {
                    proof {
                        lemma_first_index(self.dff_ids(), *id);
                    }
                    if same_text(port.as_str(), "Q") {
                        Ok(self.dffs[k].output_wire.unwrap())
                    } else {
                        Err(FabricError::InvalidDffPort(*id))
                    }
                },
                None => Err(FabricError::UnknownDff(*id)),
            },
            ElementPort::BRAM { id, port } => match self.bram_index(*id) {
                Some(k) => {
                    proof {
                        lemma_first_index(self.bram_ids(), *id);
                    }
                    match parse_bram_port(port.as_str()) {
                        Some(p) => Ok(self.bram_ports[k].get(p)),
                        None => Err(FabricError::InvalidBramPort(*id)),
                    }
                },
                None => Err(FabricError::UnknownBram(*id)),
            },
        }
    }
}

impl FPGAFabric {
    /// What is wrong with `port` as the sink of a connection, if anything.
    pub open spec fn sink_error(&self, port: ElementPort) -> Option<FabricError> {
        match port {
            ElementPort::Input { name: _ } => Some(FabricError::DrivenInput),
            ElementPort::Output { name } => if self.output_wire_of(name@) is None {
                Some(FabricError::UnknownOutput)
            } else {
                None
            },
            ElementPort::LUT { id, port } => if first_index(self.lut_ids(), id) is None {
                Some(FabricError::UnknownLut(id))
            } else if port >= 4 {
                Some(FabricError::InvalidLutPort(id))
            } else {
                None
            },
            ElementPort::DFF { id, port } => if first_index(self.dff_ids(), id) is None {
                Some(FabricError::UnknownDff(id))
            } else if port@ == "D"@ || port@ == "CLK"@ {
                None
            } else {
                Some(FabricError::InvalidDffPort(id))
            },
            ElementPort::BRAM { id, port } => if first_index(self.bram_ids(), id) is None {
                Some(FabricError::UnknownBram(id))
            } else if bram_port_named(port@) is None || bram_port_named(port@) == Some(
                BramPort::DataOut,
            ) {
                Some(FabricError::InvalidBramPort(id))
            } else {
                None
            },
        }
    }

    /// `new` is `self` with wire `d` added to the destinations of wire `src`.
    pub open spec fn with_destination(&self, new: &FPGAFabric, src: usize, d: usize) -> bool {
        &&& new.wires@.len() == self.wires@.len()
        &&& new.wires@[src as int].id == self.wires@[src as int].id
        &&& new.wires@[src as int].value == self.wires@[src as int].value
        &&& new.wires@[src as int].destinations@ == self.wires@[src as int].destinations@.push(d)
        &&& forall|i: int| 0 <= i < self.wires@.len() && i != src ==> new.wires@[i] == self.wires@[i]
    }

    /// `new` is `self` with a connection from wire `src` into `to` made.
    pub open spec fn wired(&self, new: &FPGAFabric, src: usize, to: ElementPort) -> bool {
        &&& new.inputs == self.inputs
        &&& new.outputs == self.outputs
        &&& new.bram_ports == self.bram_ports
        &&& new.clock_wire == self.clock_wire
        &&& match to {
            ElementPort::LUT { id, port } => {
                let k = first_index(self.lut_ids(), id).unwrap();
                &&& new.wires == self.wires
                &&& new.dffs == self.dffs
                &&& new.brams == self.brams
                &&& new.luts@.len() == self.luts@.len()
                &&& forall|j: int| 0 <= j < self.luts@.len() && j != k ==> new.luts@[j] == self.luts@[j]
                &&& new.luts@[k].id == self.luts@[k].id
                &&& new.luts@[k].output_wire == self.luts@[k].output_wire
                &&& new.luts@[k].truth_table@ == self.luts@[k].truth_table@
                &&& new.luts@[k].input_wires@ == self.luts@[k].input_wires@.update(port as int, Some(src))
            },
            ElementPort::DFF { id, port } => {
                let k = first_index(self.dff_ids(), id).unwrap();
                &&& new.wires == self.wires
                &&& new.luts == self.luts
                &&& new.brams == self.brams
                &&& new.dffs@ == self.dffs@.update(
                    k,
                    if port@ == "D"@ {
                        DFF { input_wire: Some(src), ..self.dffs@[k] }
                    } else {
                        DFF { clock_wire: Some(src), ..self.dffs@[k] }
                    },
                )
            },
            ElementPort::BRAM { id, port } => {
                let k = first_index(self.bram_ids(), id).unwrap();
                let p = bram_port_named(port@).unwrap();
                &&& self.with_destination(new, src, self.bram_ports@[k].wire_of(p))
                &&& new.luts == self.luts
                &&& new.dffs == self.dffs
                &&& new.brams@ == if p == BramPort::Clock {
                    self.brams@.update(k, self.brams@[k].bind(p, self.bram_ports@[k].clock))
                } else {
                    self.brams@
                }
            },
            ElementPort::Output { name } => {
                &&& self.with_destination(new, src, self.output_wire_of(name@).unwrap())
                &&& new.luts == self.luts
                &&& new.dffs == self.dffs
                &&& new.brams == self.brams
            },
            ElementPort::Input { name: _ } => false,
        }
    }

    fn add_destination(&mut self, src: usize, d: usize)
        requires
            old(self).wf(),
            src < old(self).wires@.len(),
            d < old(self).wires@.len(),
        ensures
            final(self).wf(),
            old(self).with_destination(final(self), src, d),
            final(self).inputs == old(self).inputs,
            final(self).outputs == old(self).outputs,
            final(self).luts == old(self).luts,
            final(self).dffs == old(self).dffs,
            final(self).brams == old(self).brams,
            final(self).bram_ports == old(self).bram_ports,
            final(self).clock_wire == old(self).clock_wire,
    {
        self.wires[src].add_destination(d);
        proof {
            let n = self.wires@.len();
            assert forall|i: int| 0 <= i < n implies (#[trigger] self.wires@[i]).id == i && forall|j: int|
                0 <= j < self.wires@[i].destinations@.len()
                    ==> #[trigger] self.wires@[i].destinations@[j] < n by {
                assert(old(self).wires@[i].id == i);
                if i == src {
                    assert forall|j: int| 0 <= j < self.wires@[i].destinations@.len()
                        implies #[trigger] self.wires@[i].destinations@[j] < n by {
                        if j < old(self).wires@[i].destinations@.len() {
                            assert(old(self).wires@[i].destinations@[j] < n);
                        }
                    }
                }
            }
        }
    }

    /// Connects the wire that `from` carries into the sink `to`. A faulty
    /// connection is reported and leaves the fabric as it was.
    fn add_connection(&mut self, from: &ElementPort, to: &ElementPort) -> (r: Result<(), FabricError>)
        requires
            old(self).wf(),
        ensures
            final(self).wf(),
            r == match old(self).source_of(*from) {
                Err(e) => Err::<(), FabricError>(e),
                Ok(_) => match old(self).sink_error(*to) {
                    Some(e) => Err::<(), FabricError>(e),
                    None => Ok(()),
                },
            },
            r is Err ==> *final(self) == *old(self),
            r is Ok ==> old(self).wired(final(self), old(self).source_of(*from)->Ok_0, *to)
                && old(self).source_of(*from)->Ok_0 < old(self).wires@.len(),
    {
        let src = match self.source_wire(from) {
            Ok(w) => w,
            Err(e) => return Err(e),
        };
        match to {
            ElementPort::Input { name: _ } => Err(FabricError::DrivenInput),
            ElementPort::Output { name } => match self.get_output_wire_index(name.as_str()) {
                Some(o) => {
                    proof {
                        lemma_wire_named_entry(self.outputs@, name@);
                    }
                    self.add_destination(src, o);
                    Ok(())
                },
                None => Err(FabricError::UnknownOutput),
            },
            ElementPort::LUT { id, port } => match self.lut_index(*id) {
                Some(k) => {
                    if *port >= 4 {
                        return Err(FabricError::InvalidLutPort(*id));
                    }
                    proof {
                        lemma_first_index(self.lut_ids(), *id);
                    }
                    self.luts[k].connect_input(*port, src);
                    proof {
                        assert(self.lut_ids() =~= old(self).lut_ids());
                    }
                    Ok(())
                },
                None => Err(FabricError::UnknownLut(*id)),
            },
            ElementPort::DFF { id, port } => match self.dff_index(*id) {
                Some(k) => {
                    proof {
                        lemma_first_index(self.dff_ids(), *id);
                    }
                    if same_text(port.as_str(), "D") {
                        self.dffs[k].connect_input(src);
                    } else if same_text(port.as_str(), "CLK") {
                        self.dffs[k].connect_clock(src);
                    } else {
                        return Err(FabricError::InvalidDffPort(*id));
                    }
                    proof {
                        assert(self.dff_ids() =~= old(self).dff_ids());
                    }
                    Ok(())
                },
                None => Err(FabricError::UnknownDff(*id)),
            },
            ElementPort::BRAM { id, port } => match self.bram_index(*id) {
                Some(k) => {
                    proof {
                        lemma_first_index(self.bram_ids(), *id);
                    }
                    let p = match parse_bram_port(port.as_str()) {
                        Some(BramPort::DataOut) => return Err(FabricError::InvalidBramPort(*id)),
                        Some(p) => p,
                        None => return Err(FabricError::InvalidBramPort(*id)),
                    };
                    let d = self.bram_ports[k].get(p);
                    self.add_destination(src, d);
                    if p == BramPort::Clock {
                        self.brams[k].bind_port(p, d);
                    }
                    proof {
                        assert(self.bram_ids() =~= old(self).bram_ids());
                    }
                    Ok(())
                },
                None => Err(FabricError::UnknownBram(*id)),
            },
        }
    }
}

/// A memory's port wires are `base` to `base + 4`, in port order, and all but
/// the clock are bound to it.
pub open spec fn ports_from(ports: BramPortWires, b: BlockRAM, base: int) -> bool {
    &&& ports.address == base
    &&& ports.data_in == base + 1
    &&& ports.data_out == base + 2
    &&& ports.write_enable == base + 3
    &&& ports.clock == base + 4
    &&& b.address_wire == Some(ports.address)
    &&& b.data_in_wire == Some(ports.data_in)
    &&& b.data_out_wire == Some(ports.data_out)
    &&& b.write_enable_wire == Some(ports.write_enable)
}

/// The first memory of the netlist that cannot be built, and why.
pub open spec fn bram_config_error(brams: Seq<BRAMConfig>) -> Option<FabricError>
    decreases brams.len(),
{
    if brams.len() == 0 {
        None
    } else {
        match bram_config_error(brams.drop_last()) {
            Some(e) => Some(e),
            None => {
                let b = brams.last();
                if b.width == 0 || b.width > 64 {
                    Some(FabricError::InvalidWidth(b.width))
                } else {
                    None
                }
            },
        }
    }
}

/// A port used against its direction as a connection's sink.
pub open spec fn sink_direction_error(to: ElementPort) -> Option<FabricError> {
    match to {
        ElementPort::Input { name: _ } => Some(FabricError::DrivenInput),
        ElementPort::DFF { id, port } => if port@ == "Q"@ {
            Some(FabricError::InvalidDffPort(id))
        } else {
            None
        },
        ElementPort::BRAM { id, port } => if port@ == "data_out"@ {
            Some(FabricError::InvalidBramPort(id))
        } else {
            None
        },
        _ => None,
    }
}

/// A port used against its direction in a connection: a flip-flop's "D" or
/// "CLK" as a source, or a sink that only drives.
pub open spec fn direction_error(c: ConnectionConfig) -> Option<FabricError> {
    match c.from {
        ElementPort::DFF { id, port } => if port@ != "Q"@ {
            Some(FabricError::InvalidDffPort(id))
        } else {
            sink_direction_error(c.to)
        },
        _ => sink_direction_error(c.to),
    }
}

pub open spec fn wiring_error(conns: Seq<ConnectionConfig>) -> Option<FabricError>
    decreases conns.len(),
{
    if conns.len() == 0 {
        None
    } else {
        match wiring_error(conns.drop_last()) {
            Some(e) => Some(e),
            None => direction_error(conns.last()),
        }
    }
}

/// Why a fabric cannot be built from `cfg`: a fault of the netlist, then a
/// memory that cannot be built, then a connection used against its direction.
pub open spec fn build_error(cfg: FPGAConfig) -> Option<FabricError> {
    if config_error(cfg) is Some {
        config_error(cfg)
    } else if bram_config_error(cfg.brams@) is Some {
        bram_config_error(cfg.brams@)
    } else {
        wiring_error(cfg.connections@)
    }
}

pub proof fn lemma_wire_named_has_name(table: Seq<(String, usize)>, name: Seq<char>)
    ensures
        wire_named(table, name) is Some <==> has_name(names_of(table), name),
    decreases table.len(),
{
    if table.len() > 0 {
        lemma_wire_named_has_name(table.drop_last(), name);
        let ns = names_of(table);
        let ps = names_of(table.drop_last());
        assert(ps =~= ns.drop_last());
        if has_name(ns, name) {
            let i = choose|i: int| 0 <= i < ns.len() && ns[i]@ == name;
            if i < ns.len() - 1 {
                assert(ps[i] == ns[i]);
            }
        }
        if has_name(ps, name) {
            let i = choose|i: int| 0 <= i < ps.len() && ps[i]@ == name;
            assert(ps[i] == ns[i]);
        }
        assert(ns[ns.len() - 1] == table.last().0);
    }
}

/// The port names of the netlist format are pairwise distinct.
pub proof fn lemma_port_names_distinct()
    ensures
        "Q"@ != "D"@,
        "Q"@ != "CLK"@,
        "D"@ != "CLK"@,
        "data_out"@ != "address"@,
        "data_out"@ != "data_in"@,
        "data_out"@ != "write_enable"@,
        "data_out"@ != "clock"@,
{
    reveal_strlit("Q");
    reveal_strlit("D");
    reveal_strlit("CLK");
    reveal_strlit("data_out");
    reveal_strlit("address");
    reveal_strlit("data_in");
    reveal_strlit("write_enable");
    reveal_strlit("clock");
    assert("Q"@[0] != "D"@[0]);
    assert("Q"@.len() != "CLK"@.len());
    assert("D"@.len() != "CLK"@.len());
    assert("data_out"@.len() != "address"@.len());
    assert("data_out"@.len() != "data_in"@.len());
    assert("data_out"@.len() != "write_enable"@.len());
    assert("data_out"@.len() != "clock"@.len());
}

proof fn lemma_connections_valid(conns: Seq<ConnectionConfig>, cfg: FPGAConfig, i: int)
    requires
        connections_error(conns, cfg) is None,
        0 <= i < conns.len(),
    ensures
        port_error(conns[i].from, cfg) is None,
        port_error(conns[i].to, cfg) is None,
    decreases conns.len(),
{
    if i < conns.len() - 1 {
        assert(conns.drop_last()[i] == conns[i]);
        lemma_connections_valid(conns.drop_last(), cfg, i);
    }
}

proof fn lemma_wiring_error_prefix(conns: Seq<ConnectionConfig>, k: int)
    requires
        0 <= k <= conns.len(),
        wiring_error(conns.take(k)) is Some,
    ensures
        wiring_error(conns) == wiring_error(conns.take(k)),
    decreases conns.len() - k,
{
    if k < conns.len() {
        assert(conns.take(k + 1).drop_last() == conns.take(k));
        lemma_wiring_error_prefix(conns, k + 1);
    } else {
        assert(conns.take(k) == conns);
    }
}

proof fn lemma_bram_error_prefix(brams: Seq<BRAMConfig>, k: int)
    requires
        0 <= k <= brams.len(),
        bram_config_error(brams.take(k)) is Some,
    ensures
        bram_config_error(brams) == bram_config_error(brams.take(k)),
    decreases brams.len() - k,
{
    if k < brams.len() {
        assert(brams.take(k + 1).drop_last() == brams.take(k));
        lemma_bram_error_prefix(brams, k + 1);
    } else {
        assert(brams.take(k) == brams);
    }
}

/// `trace` starts at a fabric and makes each of `conns` in order, as
/// `wired` says, from the wire its source carries.
pub open spec fn wired_in_order(trace: Seq<FPGAFabric>, conns: Seq<ConnectionConfig>) -> bool {
    &&& trace.len() == conns.len() + 1
    &&& forall|j: int|
        0 <= j < conns.len() ==> (#[trigger] trace[j]).wired(
            &trace[j + 1],
            trace[j].source_of(conns[j].from)->Ok_0,
            conns[j].to,
        ) && trace[j].source_of(conns[j].from) is Ok
}

impl FPGAFabric {
    /// Wire `d` is a named output's wire or the wire of a memory port that
    /// the memory reads (any port but data-out).
    pub open spec fn is_sink_wire(&self, d: usize) -> bool {
        (exists|k: int| 0 <= k < self.outputs@.len() && (#[trigger] self.outputs@[k]).1 == d) || (
        exists|k: int|
            0 <= k < self.bram_ports@.len() && {
                let p = #[trigger] self.bram_ports@[k];
                p.address == d || p.data_in == d || p.write_enable == d || p.clock == d
            })
    }

    /// Wires forward only into named outputs and memory input ports.
    pub open spec fn feeds_only_sinks(&self) -> bool {
        forall|i: int, j: int|
            0 <= i < self.wires@.len() && 0 <= j < self.wires@[i].destinations@.len()
                ==> self.is_sink_wire(#[trigger] self.wires@[i].destinations@[j])
    }

    /// The named wires, element output wires and memory port wires are
    /// those of `other`.
    pub open spec fn same_element_wires(&self, other: &FPGAFabric) -> bool {
        &&& self.inputs == other.inputs
        &&& self.outputs == other.outputs
        &&& self.bram_ports == other.bram_ports
        &&& self.luts@.len() == other.luts@.len()
        &&& forall|k: int|
            0 <= k < self.luts@.len() ==> (#[trigger] self.luts@[k]).output_wire
                == other.luts@[k].output_wire
        &&& self.dffs@.len() == other.dffs@.len()
        &&& forall|k: int|
            0 <= k < self.dffs@.len() ==> (#[trigger] self.dffs@[k]).output_wire
                == other.dffs@[k].output_wire
        &&& self.brams@.len() == other.brams@.len()
        &&& forall|k: int|
            0 <= k < self.brams@.len() ==> {
                &&& (#[trigger] self.brams@[k]).address_wire == other.brams@[k].address_wire
                &&& self.brams@[k].data_in_wire == other.brams@[k].data_in_wire
                &&& self.brams@[k].data_out_wire == other.brams@[k].data_out_wire
                &&& self.brams@[k].write_enable_wire == other.brams@[k].write_enable_wire
            }
    }

    /// Where the wires of a fabric built from `cfg` stand: 0 is the periodic
    /// clock; then one per named input and per named output, one per table
    /// output and per flip-flop output, and five per memory, in that order.
    pub open spec fn laid_out(&self, cfg: FPGAConfig) -> bool {
        let ni = cfg.inputs@.len() as int;
        let no = cfg.outputs@.len() as int;
        let nl = cfg.luts@.len() as int;
        let nd = cfg.dffs@.len() as int;
        &&& self.clock_wire == 0
        &&& self.inputs@.len() == ni
        &&& forall|k: int| 0 <= k < ni ==> (#[trigger] self.inputs@[k]).1 == 1 + k
        &&& self.outputs@.len() == no
        &&& forall|k: int| 0 <= k < no ==> (#[trigger] self.outputs@[k]).1 == 1 + ni + k
        &&& self.luts@.len() == nl
        &&& forall|k: int|
            0 <= k < nl ==> (#[trigger] self.luts@[k]).output_wire == Some((1 + ni + no + k) as usize)
        &&& self.dffs@.len() == nd
        &&& forall|k: int|
            0 <= k < nd ==> (#[trigger] self.dffs@[k]).output_wire == Some(
                (1 + ni + no + nl + k) as usize,
            )
        &&& self.bram_ports@.len() == cfg.brams@.len()
        &&& forall|k: int|
            0 <= k < cfg.brams@.len() ==> ports_from(
                #[trigger] self.bram_ports@[k],
                self.brams@[k],
                1 + ni + no + nl + nd + 5 * k,
            )
    }

    /// The fabric's ids and names are those of `cfg`.
    pub open spec fn mirrors(&self, cfg: FPGAConfig) -> bool {
        &&& self.lut_ids() == lut_ids(cfg)
        &&& self.dff_ids() == dff_ids(cfg)
        &&& self.bram_ids() == bram_ids(cfg)
        &&& names_of(self.inputs@) == cfg.inputs@
        &&& names_of(self.outputs@) == cfg.outputs@
    }

    /// No connection has been made yet: no wire has destinations, no table
    /// input and no flip-flop input or clock is bound, no memory clock is bound.
    pub open spec fn unwired(&self) -> bool {
        &&& forall|i: int|
            0 <= i < self.wires@.len() ==> (#[trigger] self.wires@[i]).destinations@.len() == 0
        &&& forall|k: int, p: int|
            0 <= k < self.luts@.len() && 0 <= p < 4 ==> (#[trigger] self.luts@[k].input_wires@[p]).is_none()
        &&& forall|k: int|
            0 <= k < self.dffs@.len() ==> (#[trigger] self.dffs@[k]).input_wire.is_none()
                && self.dffs@[k].clock_wire.is_none()
        &&& forall|k: int| 0 <= k < self.brams@.len() ==> (#[trigger] self.brams@[k]).clock_wire.is_none()
    }

    /// Every wire holds 0.
    pub open spec fn zeroed(&self) -> bool {
        forall|i: int| 0 <= i < self.wires@.len() ==> (#[trigger] self.wires@[i]).value == 0
    }

    proof fn lemma_connection_outcome(&self, cfg: FPGAConfig, c: ConnectionConfig)
        requires
            self.wf(),
            self.mirrors(cfg),
            port_error(c.from, cfg) is None,
            port_error(c.to, cfg) is None,
        ensures
            (match self.source_of(c.from) {
                Err(e) => Some(e),
                Ok(_) => self.sink_error(c.to),
            }) == direction_error(c),
    {
        lemma_port_names_distinct();
        match c.from {
            ElementPort::Input { name } => lemma_wire_named_has_name(self.inputs@, name@),
            ElementPort::Output { name } => lemma_wire_named_has_name(self.outputs@, name@),
            ElementPort::LUT { id, port: _ } => lemma_first_index(self.lut_ids(), id),
            ElementPort::DFF { id, port: _ } => lemma_first_index(self.dff_ids(), id),
            ElementPort::BRAM { id, port: _ } => lemma_first_index(self.bram_ids(), id),
        }
        match c.to {
            ElementPort::Input { name: _ } => {},
            ElementPort::Output { name } => lemma_wire_named_has_name(self.outputs@, name@),
            ElementPort::LUT { id, port: _ } => lemma_first_index(self.lut_ids(), id),
            ElementPort::DFF { id, port: _ } => lemma_first_index(self.dff_ids(), id),
            ElementPort::BRAM { id, port } => {
                lemma_first_index(self.bram_ids(), id);
                if port@ == "data_out"@ {
                    assert(bram_port_named(port@) == Some(BramPort::DataOut));
                } else {
                    assert(bram_port_named(port@) != Some(BramPort::DataOut));
                }
            },
        }
    }
}

impl FPGAFabric {
    /// `self` and `other` hold the same primitives, bindings and clock.
    pub open spec fn same_primitives(&self, other: &FPGAFabric) -> bool {
        &&& self.luts == other.luts
        &&& self.dffs == other.dffs
        &&& self.brams == other.brams
        &&& self.bram_ports == other.bram_ports
        &&& self.clock_wire == other.clock_wire
    }

    /// Adds one fresh wire per name and returns the name-to-wire table.
    fn named_wires(&mut self, names: &Vec<String>) -> (r: Vec<(String, usize)>)
        requires
            old(self).wf(),
            old(self).zeroed(),
            old(self).wires@.len() + names@.len() < usize::MAX,
        ensures
            final(self).wf(),
            final(self).zeroed(),
            final(self).same_primitives(old(self)),
            final(self).inputs == old(self).inputs,
            final(self).outputs == old(self).outputs,
            final(self).wires@.len() == old(self).wires@.len() + names@.len(),
            old(self).unwired() ==> final(self).unwired(),
            names_of(r@) == names@,
            forall|k: int| 0 <= k < r@.len() ==> (#[trigger] r@[k]).1 < final(self).wires@.len(),
            forall|k: int| 0 <= k < r@.len() ==> (#[trigger] r@[k]).1 == old(self).wires@.len() + k,
    {
        let mut r: Vec<(String, usize)> = Vec::new();
        let mut i: usize = 0;
        while i < names.len()
            invariant
                self.wf(),
                self.zeroed(),
                self.same_primitives(old(self)),
                self.inputs == old(self).inputs,
                self.outputs == old(self).outputs,
                i <= names@.len(),
                self.wires@.len() == old(self).wires@.len() + i,
                old(self).wires@.len() + names@.len() < usize::MAX,
                old(self).unwired() ==> self.unwired(),
                names_of(r@) == names@.take(i as int),
                forall|k: int| 0 <= k < r@.len() ==> (#[trigger] r@[k]).1 < self.wires@.len(),
                forall|k: int| 0 <= k < r@.len() ==> (#[trigger] r@[k]).1 == old(self).wires@.len() + k,
            decreases names@.len() - i,
        {
            let w = self.create_wire();
            r.push((names[i].clone(), w));
            proof {
                assert(names@.take(i + 1) =~= names@.take(i as int).push(names@[i as int]));
                assert(names_of(r@) =~= names@.take(i + 1));
            }
            i = i + 1;
        }
        assert(names@.take(i as int) == names@);
        r
    }

    /// Adds the lookup tables, each with a fresh output wire.
    fn add_luts(&mut self, cfgs: &Vec<LUTConfig>)
        requires
            old(self).wf(),
            old(self).zeroed(),
            old(self).luts@.len() == 0,
            unique_ids(cfgs@.map_values(|l: LUTConfig| l.id)),
            old(self).wires@.len() + cfgs@.len() < usize::MAX,
        ensures
            final(self).wf(),
            final(self).zeroed(),
            final(self).inputs == old(self).inputs,
            final(self).outputs == old(self).outputs,
            final(self).dffs == old(self).dffs,
            final(self).brams == old(self).brams,
            final(self).bram_ports == old(self).bram_ports,
            final(self).clock_wire == old(self).clock_wire,
            final(self).wires@.len() == old(self).wires@.len() + cfgs@.len(),
            old(self).unwired() ==> final(self).unwired(),
            final(self).lut_ids() == cfgs@.map_values(|l: LUTConfig| l.id),
            final(self).luts@.len() == cfgs@.len(),
            forall|k: int|
                0 <= k < cfgs@.len() ==> (#[trigger] final(self).luts@[k]).truth_table@
                    == cfgs@[k].truth_table@,
            forall|k: int|
                0 <= k < cfgs@.len() ==> (#[trigger] final(self).luts@[k]).output_wire == Some(
                    (old(self).wires@.len() + k) as usize,
                ),
    {
        let mut i: usize = 0;
        while i < cfgs.len()
            invariant
                self.wf(),
                self.zeroed(),
                self.inputs == old(self).inputs,
                self.outputs == old(self).outputs,
                self.dffs == old(self).dffs,
                self.brams == old(self).brams,
                self.bram_ports == old(self).bram_ports,
                self.clock_wire == old(self).clock_wire,
                i <= cfgs@.len(),
                self.wires@.len() == old(self).wires@.len() + i,
                old(self).wires@.len() + cfgs@.len() < usize::MAX,
                unique_ids(cfgs@.map_values(|l: LUTConfig| l.id)),
                self.lut_ids() == cfgs@.take(i as int).map_values(|l: LUTConfig| l.id),
                old(self).unwired() ==> self.unwired(),
                self.luts@.len() == i,
                forall|k: int|
                    0 <= k < i ==> (#[trigger] self.luts@[k]).truth_table@ == cfgs@[k].truth_table@,
                forall|k: int|
                    0 <= k < i ==> (#[trigger] self.luts@[k]).output_wire == Some(
                        (old(self).wires@.len() + k) as usize,
                    ),
            decreases cfgs@.len() - i,
        {
            let mut lut = LUT::new(cfgs[i].id, cfgs[i].truth_table);
            let w = self.create_wire();
            lut.connect_output(w);
            let ghost prev = self.luts@;
            self.luts.push(lut);
            proof {
                let before = cfgs@.take(i as int).map_values(|l: LUTConfig| l.id);
                let after = cfgs@.take(i + 1).map_values(|l: LUTConfig| l.id);
                assert(prev.map_values(|l: LUT| l.id) == before);
                assert forall|j: int| 0 <= j < i + 1 implies self.lut_ids()[j] == after[j] by {
                    if j < i {
                        assert(self.luts@[j] == prev[j]);
                        assert(prev.map_values(|l: LUT| l.id)[j] == before[j]);
                    }
                }
                assert(self.lut_ids() =~= after);
                let ids = cfgs@.map_values(|l: LUTConfig| l.id);
                assert forall|a: int, b: int| 0 <= a < b < self.lut_ids().len() implies self.lut_ids()[a]
                    != self.lut_ids()[b] by {
                    assert(self.lut_ids()[a] == ids[a]);
                    assert(self.lut_ids()[b] == ids[b]);
                }
            }
            i = i + 1;
        }
        assert(cfgs@.take(i as int) == cfgs@);
    }

    /// Adds the flip-flops, each with a fresh output wire.
    fn add_dffs(&mut self, cfgs: &Vec<DFFConfig>)
        requires
            old(self).wf(),
            old(self).zeroed(),
            old(self).dffs@.len() == 0,
            unique_ids(cfgs@.map_values(|d: DFFConfig| d.id)),
            old(self).wires@.len() + cfgs@.len() < usize::MAX,
        ensures
            final(self).wf(),
            final(self).zeroed(),
            final(self).inputs == old(self).inputs,
            final(self).outputs == old(self).outputs,
            final(self).luts == old(self).luts,
            final(self).brams == old(self).brams,
            final(self).bram_ports == old(self).bram_ports,
            final(self).clock_wire == old(self).clock_wire,
            final(self).wires@.len() == old(self).wires@.len() + cfgs@.len(),
            old(self).unwired() ==> final(self).unwired(),
            final(self).dff_ids() == cfgs@.map_values(|d: DFFConfig| d.id),
            forall|k: int|
                0 <= k < final(self).dffs@.len() ==> !(#[trigger] final(self).dffs@[k]).state
                    && final(self).dffs@[k].last_clock_state is None,
            final(self).dffs@.len() == cfgs@.len(),
            forall|k: int|
                0 <= k < cfgs@.len() ==> (#[trigger] final(self).dffs@[k]).output_wire == Some(
                    (old(self).wires@.len() + k) as usize,
                ),
    {
        let mut i: usize = 0;
        while i < cfgs.len()
            invariant
                self.wf(),
                self.zeroed(),
                self.inputs == old(self).inputs,
                self.outputs == old(self).outputs,
                self.luts == old(self).luts,
                self.brams == old(self).brams,
                self.bram_ports == old(self).bram_ports,
                self.clock_wire == old(self).clock_wire,
                i <= cfgs@.len(),
                self.wires@.len() == old(self).wires@.len() + i,
                old(self).wires@.len() + cfgs@.len() < usize::MAX,
                unique_ids(cfgs@.map_values(|d: DFFConfig| d.id)),
                self.dff_ids() == cfgs@.take(i as int).map_values(|d: DFFConfig| d.id),
                old(self).unwired() ==> self.unwired(),
                forall|k: int| 0 <= k < self.dffs@.len() ==> !(#[trigger] self.dffs@[k]).state
                    && self.dffs@[k].last_clock_state is None,
                self.dffs@.len() == i,
                forall|k: int|
                    0 <= k < i ==> (#[trigger] self.dffs@[k]).output_wire == Some(
                        (old(self).wires@.len() + k) as usize,
                    ),
            decreases cfgs@.len() - i,
        {
            let mut dff = DFF::new(cfgs[i].id);
            let w = self.create_wire();
            dff.connect_output(w);
            let ghost prev = self.dffs@;
            self.dffs.push(dff);
            proof {
                let before = cfgs@.take(i as int).map_values(|d: DFFConfig| d.id);
                let after = cfgs@.take(i + 1).map_values(|d: DFFConfig| d.id);
                assert(prev.map_values(|d: DFF| d.id) == before);
                assert forall|j: int| 0 <= j < i + 1 implies self.dff_ids()[j] == after[j] by {
                    if j < i {
                        assert(self.dffs@[j] == prev[j]);
                        assert(prev.map_values(|d: DFF| d.id)[j] == before[j]);
                    }
                }
                assert(self.dff_ids() =~= after);
                let ids = cfgs@.map_values(|d: DFFConfig| d.id);
                assert forall|a: int, b: int| 0 <= a < b < self.dff_ids().len() implies self.dff_ids()[a]
                    != self.dff_ids()[b] by {
                    assert(self.dff_ids()[a] == ids[a]);
                    assert(self.dff_ids()[b] == ids[b]);
                }
            }
            i = i + 1;
        }
        assert(cfgs@.take(i as int) == cfgs@);
    }
}

impl FPGAFabric {
    /// Adds the memories, each with five fresh port wires; all ports but the
    /// clock are bound to their wires at once.
    fn add_brams(&mut self, cfgs: &Vec<BRAMConfig>) -> (r: Result<(), FabricError>)
        requires
            old(self).wf(),
            old(self).zeroed(),
            old(self).brams@.len() == 0,
            unique_ids(cfgs@.map_values(|b: BRAMConfig| b.id)),
            old(self).wires@.len() + 5 * cfgs@.len() < usize::MAX,
        ensures
            r == match bram_config_error(cfgs@) {
                Some(e) => Err::<(), FabricError>(e),
                None => Ok(()),
            },
            r is Ok ==> {
                &&& final(self).wf()
                &&& final(self).zeroed()
                &&& final(self).inputs == old(self).inputs
                &&& final(self).outputs == old(self).outputs
                &&& final(self).luts == old(self).luts
                &&& final(self).dffs == old(self).dffs
                &&& final(self).clock_wire == old(self).clock_wire
                &&& final(self).wires@.len() == old(self).wires@.len() + 5 * cfgs@.len()
                &&& old(self).unwired() ==> final(self).unwired()
                &&& final(self).bram_ids() == cfgs@.map_values(|b: BRAMConfig| b.id)
                &&& forall|k: int|
                    0 <= k < cfgs@.len() ==> ports_from(
                        #[trigger] final(self).bram_ports@[k],
                        final(self).brams@[k],
                        old(self).wires@.len() + 5 * k,
                    )
                &&& forall|k: int|
                    0 <= k < cfgs@.len() ==> {
                        &&& (#[trigger] final(self).brams@[k]).size == cfgs@[k].size
                        &&& final(self).brams@[k].width == cfgs@[k].width
                        &&& forall|j: int|
                            0 <= j < final(self).brams@[k].size
                                ==> #[trigger] final(self).brams@[k].memory@[j] == 0
                        &&& final(self).brams@[k].last_clock_state is None
                    }
            },
    {
        let mut i: usize = 0;
        while i < cfgs.len()
            invariant
                self.wf(),
                self.zeroed(),
                self.inputs == old(self).inputs,
                self.outputs == old(self).outputs,
                self.luts == old(self).luts,
                self.dffs == old(self).dffs,
                self.clock_wire == old(self).clock_wire,
                i <= cfgs@.len(),
                self.wires@.len() == old(self).wires@.len() + 5 * i,
                old(self).wires@.len() + 5 * cfgs@.len() < usize::MAX,
                unique_ids(cfgs@.map_values(|b: BRAMConfig| b.id)),
                bram_config_error(cfgs@.take(i as int)) is None,
                old(self).unwired() ==> self.unwired(),
                forall|k: int|
                    0 <= k < i ==> ports_from(
                        #[trigger] self.bram_ports@[k],
                        self.brams@[k],
                        old(self).wires@.len() + 5 * k,
                    ),
                self.bram_ids() == cfgs@.take(i as int).map_values(|b: BRAMConfig| b.id),
                self.brams@.len() == i,
                forall|k: int|
                    0 <= k < i ==> {
                        &&& (#[trigger] self.brams@[k]).size == cfgs@[k].size
                        &&& self.brams@[k].width == cfgs@[k].width
                        &&& forall|j: int|
                            0 <= j < self.brams@[k].size ==> #[trigger] self.brams@[k].memory@[j]
                                == 0
                        &&& self.brams@[k].last_clock_state is None
                    },
            decreases cfgs@.len() - i,
        {
            proof {
                assert(cfgs@.take(i + 1).drop_last() == cfgs@.take(i as int));
            }
            let cfg = &cfgs[i];
            let mut bram = match BlockRAM::new(cfg.id, cfg.size, cfg.width) {
                Ok(b) => b,
                Err(e) => {
                    proof {
                        assert(bram_config_error(cfgs@.take(i + 1)) == Some(e));
                        lemma_bram_error_prefix(cfgs@, i + 1);
                    }
                    return Err(e);
                },
            };
            let address = self.create_wire();
            let data_in = self.create_wire();
            let data_out = self.create_wire();
            let write_enable = self.create_wire();
            let clock = self.create_wire();
            bram.bind_port(BramPort::Address, address);
            bram.bind_port(BramPort::DataIn, data_in);
            bram.bind_port(BramPort::DataOut, data_out);
            bram.bind_port(BramPort::WriteEnable, write_enable);
            let ghost prev = self.brams@;
            self.brams.push(bram);
            self.bram_ports.push(BramPortWires { address, data_in, data_out, write_enable, clock });
            proof {
                let before = cfgs@.take(i as int).map_values(|b: BRAMConfig| b.id);
                let after = cfgs@.take(i + 1).map_values(|b: BRAMConfig| b.id);
                assert(prev.map_values(|b: BlockRAM| b.id) == before);
                assert forall|j: int| 0 <= j < i + 1 implies self.bram_ids()[j] == after[j] by {
                    if j < i {
                        assert(self.brams@[j] == prev[j]);
                        assert(prev.map_values(|b: BlockRAM| b.id)[j] == before[j]);
                    }
                }
                assert(self.bram_ids() =~= after);
                let ids = cfgs@.map_values(|b: BRAMConfig| b.id);
                assert forall|a: int, b: int| 0 <= a < b < self.bram_ids().len() implies self.bram_ids()[a]
                    != self.bram_ids()[b] by {
                    assert(self.bram_ids()[a] == ids[a]);
                    assert(self.bram_ids()[b] == ids[b]);
                }
                assert forall|k: int| 0 <= k < i + 1 implies ports_from(
                    #[trigger] self.bram_ports@[k],
                    self.brams@[k],
                    old(self).wires@.len() + 5 * k,
                ) by {
                    if k < i {
                        assert(self.brams@[k] == prev[k]);
                    }
                }
                assert forall|k: int| 0 <= k < i + 1 implies {
                    &&& (#[trigger] self.brams@[k]).size == cfgs@[k].size
                    &&& self.brams@[k].width == cfgs@[k].width
                    &&& forall|j: int|
                        0 <= j < self.brams@[k].size ==> #[trigger] self.brams@[k].memory@[j] == 0
                    &&& self.brams@[k].last_clock_state is None
                } by {
                    if k < i {
                        assert(self.brams@[k] == prev[k]);
                    }
                }
            }
            i = i + 1;
        }
        assert(cfgs@.take(i as int) == cfgs@);
        Ok(())
    }

    /// Makes the netlist's connections in order; the first faulty one is
    /// reported.
    fn add_connections(&mut self, cfg: &FPGAConfig) -> (r: Result<(), FabricError>)
        requires
            old(self).wf(),
            old(self).zeroed(),
            old(self).mirrors(*cfg),
            connections_error(cfg.connections@, *cfg) is None,
        ensures
            r == match wiring_error(cfg.connections@) {
                Some(e) => Err::<(), FabricError>(e),
                None => Ok(()),
            },
            final(self).wf(),
            final(self).zeroed(),
            final(self).mirrors(*cfg),
            final(self).clock_wire == old(self).clock_wire,
            final(self).wires@.len() == old(self).wires@.len(),
            r is Ok ==> exists|trace: Seq<FPGAFabric>|
                wired_in_order(trace, cfg.connections@) && trace[0] == *old(self) && trace.last()
                    == *final(self),
            final(self).same_element_wires(old(self)),
            old(self).feeds_only_sinks() ==> final(self).feeds_only_sinks(),
            final(self).luts@.len() == old(self).luts@.len(),
            forall|k: int|
                0 <= k < old(self).luts@.len() ==> (#[trigger] final(self).luts@[k]).truth_table@
                    == old(self).luts@[k].truth_table@,
            final(self).dffs@.len() == old(self).dffs@.len(),
            forall|k: int|
                0 <= k < old(self).dffs@.len() ==> (#[trigger] final(self).dffs@[k]).state
                    == old(self).dffs@[k].state && final(self).dffs@[k].last_clock_state
                    == old(self).dffs@[k].last_clock_state,
            final(self).brams@.len() == old(self).brams@.len(),
            forall|k: int|
                0 <= k < old(self).brams@.len() ==> {
                    &&& (#[trigger] final(self).brams@[k]).size == old(self).brams@[k].size
                    &&& final(self).brams@[k].width == old(self).brams@[k].width
                    &&& final(self).brams@[k].memory == old(self).brams@[k].memory
                    &&& final(self).brams@[k].last_clock_state == old(self).brams@[k].last_clock_state
                },
    {
        let conns = &cfg.connections;
        let ghost mut trace: Seq<FPGAFabric> = seq![*self];
        let mut i: usize = 0;
        while i < conns.len()
            invariant
                self.wf(),
                self.zeroed(),
                self.mirrors(*cfg),
                self.wires@.len() == old(self).wires@.len(),
                self.same_element_wires(old(self)),
                old(self).feeds_only_sinks() ==> self.feeds_only_sinks(),
                trace.len() == i + 1,
                trace[0] == *old(self),
                trace.last() == *self,
                forall|j: int|
                    0 <= j < i ==> (#[trigger] trace[j]).wired(
                        &trace[j + 1],
                        trace[j].source_of(conns@[j].from)->Ok_0,
                        conns@[j].to,
                    ) && trace[j].source_of(conns@[j].from) is Ok,
                conns == &cfg.connections,
                connections_error(cfg.connections@, *cfg) is None,
                wiring_error(conns@.take(i as int)) is None,
                i <= conns@.len(),
                self.clock_wire == old(self).clock_wire,
                self.luts@.len() == old(self).luts@.len(),
                forall|k: int|
                    0 <= k < old(self).luts@.len() ==> (#[trigger] self.luts@[k]).truth_table@
                        == old(self).luts@[k].truth_table@,
                self.dffs@.len() == old(self).dffs@.len(),
                forall|k: int|
                    0 <= k < old(self).dffs@.len() ==> (#[trigger] self.dffs@[k]).state
                        == old(self).dffs@[k].state && self.dffs@[k].last_clock_state
                        == old(self).dffs@[k].last_clock_state,
                self.brams@.len() == old(self).brams@.len(),
                forall|k: int|
                    0 <= k < old(self).brams@.len() ==> {
                        &&& (#[trigger] self.brams@[k]).size == old(self).brams@[k].size
                        &&& self.brams@[k].width == old(self).brams@[k].width
                        &&& self.brams@[k].memory == old(self).brams@[k].memory
                        &&& self.brams@[k].last_clock_state == old(self).brams@[k].last_clock_state
                    },
            decreases conns@.len() - i,
        {
            proof {
                assert(conns@.take(i + 1).drop_last() == conns@.take(i as int));
                lemma_connections_valid(cfg.connections@, *cfg, i as int);
                self.lemma_connection_outcome(*cfg, conns@[i as int]);
            }
            let ghost prev = *self;
            let c = &conns[i];
            match self.add_connection(&c.from, &c.to) {
                Ok(()) => {},
                Err(e) => {
                    proof {
                        assert(wiring_error(conns@.take(i + 1)) == Some(e));
                        lemma_wiring_error_prefix(conns@, i + 1);
                    }
                    return Err(e);
                },
            }
            proof {
                prev.lemma_wired_keeps(*self, prev.source_of(c.from)->Ok_0, c.to);
                trace = trace.push(*self);
                assert forall|j: int| 0 <= j < i + 1 implies (#[trigger] trace[j]).wired(
                    &trace[j + 1],
                    trace[j].source_of(conns@[j].from)->Ok_0,
                    conns@[j].to,
                ) && trace[j].source_of(conns@[j].from) is Ok by {
                    if j == i {
                        assert(trace[j] == prev);
                    }
                }
            }
            i = i + 1;
        }
        assert(conns@.take(i as int) == conns@);
        assert(wired_in_order(trace, cfg.connections@));
        Ok(())
    }

    /// A connection keeps every id, name, wire value, table, held bit and
    /// memory word.
    proof fn lemma_wired_keeps(&self, new: FPGAFabric, src: usize, to: ElementPort)
        requires
            self.wf(),
            src < self.wires@.len(),
            self.sink_error(to) is None,
            self.wired(&new, src, to),
        ensures
            new.lut_ids() == self.lut_ids(),
            new.dff_ids() == self.dff_ids(),
            new.bram_ids() == self.bram_ids(),
            new.wires@.len() == self.wires@.len(),
            self.zeroed() ==> new.zeroed(),
            new.same_element_wires(self),
            self.feeds_only_sinks() ==> new.feeds_only_sinks(),
            new.luts@.len() == self.luts@.len(),
            forall|k: int|
                0 <= k < self.luts@.len() ==> (#[trigger] new.luts@[k]).truth_table@
                    == self.luts@[k].truth_table@,
            new.dffs@.len() == self.dffs@.len(),
            forall|k: int|
                0 <= k < self.dffs@.len() ==> (#[trigger] new.dffs@[k]).state == self.dffs@[k].state
                    && new.dffs@[k].last_clock_state == self.dffs@[k].last_clock_state,
            new.brams@.len() == self.brams@.len(),
            forall|k: int|
                0 <= k < self.brams@.len() ==> {
                    &&& (#[trigger] new.brams@[k]).size == self.brams@[k].size
                    &&& new.brams@[k].width == self.brams@[k].width
                    &&& new.brams@[k].memory == self.brams@[k].memory
                    &&& new.brams@[k].last_clock_state == self.brams@[k].last_clock_state
                },
    {
        match to {
            ElementPort::LUT { id, port: _ } => {
                lemma_first_index(self.lut_ids(), id);
                assert(new.lut_ids() =~= self.lut_ids());
            },
            ElementPort::DFF { id, port: _ } => {
                lemma_first_index(self.dff_ids(), id);
                assert(new.dff_ids() =~= self.dff_ids());
            },
            ElementPort::BRAM { id, port } => {
                lemma_first_index(self.bram_ids(), id);
                assert(new.bram_ids() =~= self.bram_ids());
                assert(new.wires@[src as int].value == self.wires@[src as int].value);
                let k = first_index(self.bram_ids(), id).unwrap();
                let p = bram_port_named(port@).unwrap();
                let d = self.bram_ports@[k].wire_of(p);
                assert(self.bram_ports@[k] == self.bram_ports@[k]);
                assert(self.is_sink_wire(d));
                if self.feeds_only_sinks() {
                    self.lemma_destination_feeds(new, src, d);
                }
            },
            ElementPort::Output { name } => {
                assert(new.wires@[src as int].value == self.wires@[src as int].value);
                lemma_wire_named_entry(self.outputs@, name@);
                let d = self.output_wire_of(name@).unwrap();
                assert(self.is_sink_wire(d));
                if self.feeds_only_sinks() {
                    self.lemma_destination_feeds(new, src, d);
                }
            },
            ElementPort::Input { name: _ } => {},
        }
    }

    proof fn lemma_destination_feeds(&self, new: FPGAFabric, src: usize, d: usize)
        requires
            self.feeds_only_sinks(),
            src < self.wires@.len(),
            self.with_destination(&new, src, d),
            self.is_sink_wire(d),
            new.outputs == self.outputs,
            new.bram_ports == self.bram_ports,
        ensures
            new.feeds_only_sinks(),
    {
        assert forall|i: int, j: int|
            0 <= i < new.wires@.len() && 0 <= j < new.wires@[i].destinations@.len() implies new.is_sink_wire(
            #[trigger] new.wires@[i].destinations@[j],
        ) by {
            if i == src && j == self.wires@[i].destinations@.len() {
                assert(new.wires@[i].destinations@[j] == d);
            } else {
                assert(new.wires@[i].destinations@[j] == self.wires@[i].destinations@[j]);
                assert(self.is_sink_wire(self.wires@[i].destinations@[j]));
            }
        }
    }

    /// `new` is `self` with every unbound flip-flop or memory clock bound to
    /// the periodic clock's wire.
    pub open spec fn clocks_bound(&self, new: &FPGAFabric) -> bool {
        &&& new.wires == self.wires
        &&& new.inputs == self.inputs
        &&& new.outputs == self.outputs
        &&& new.luts == self.luts
        &&& new.bram_ports == self.bram_ports
        &&& new.clock_wire == self.clock_wire
        &&& new.dffs@.len() == self.dffs@.len()
        &&& forall|k: int|
            0 <= k < self.dffs@.len() ==> (#[trigger] new.dffs@[k]) == (DFF {
                clock_wire: Some(
                    match self.dffs@[k].clock_wire {
                        Some(c) => c,
                        None => self.clock_wire,
                    },
                ),
                ..self.dffs@[k]
            })
        &&& new.brams@.len() == self.brams@.len()
        &&& forall|k: int|
            0 <= k < self.brams@.len() ==> (#[trigger] new.brams@[k]) == self.brams@[k].bind(
                BramPort::Clock,
                match self.brams@[k].clock_wire {
                    Some(c) => c,
                    None => self.clock_wire,
                },
            )
    }

    /// Drives every flip-flop and memory whose clock is not connected from
    /// the periodic clock's wire.
    fn bind_free_clocks(&mut self)
        requires
            old(self).wf(),
        ensures
            final(self).wf(),
            final(self).wires == old(self).wires,
            final(self).inputs == old(self).inputs,
            final(self).outputs == old(self).outputs,
            final(self).luts == old(self).luts,
            final(self).bram_ports == old(self).bram_ports,
            final(self).clock_wire == old(self).clock_wire,
            final(self).dffs@.len() == old(self).dffs@.len(),
            forall|k: int|
                0 <= k < old(self).dffs@.len() ==> (#[trigger] final(self).dffs@[k]) == (DFF {
                    clock_wire: Some(
                        match old(self).dffs@[k].clock_wire {
                            Some(c) => c,
                            None => old(self).clock_wire,
                        },
                    ),
                    ..old(self).dffs@[k]
                }),
            final(self).brams@.len() == old(self).brams@.len(),
            forall|k: int|
                0 <= k < old(self).brams@.len() ==> (#[trigger] final(self).brams@[k]) == (
                old(self).brams@[k].bind(
                    BramPort::Clock,
                    match old(self).brams@[k].clock_wire {
                        Some(c) => c,
                        None => old(self).clock_wire,
                    },
                )),
    {
        let clock = self.clock_wire;
        let mut i: usize = 0;
        while i < self.dffs.len()
            invariant
                old(self).wf(),
                self.wires == old(self).wires,
                self.inputs == old(self).inputs,
                self.outputs == old(self).outputs,
                self.luts == old(self).luts,
                self.brams == old(self).brams,
                self.bram_ports == old(self).bram_ports,
                self.clock_wire == clock,
                clock == old(self).clock_wire,
                i <= self.dffs@.len(),
                self.dffs@.len() == old(self).dffs@.len(),
                forall|k: int|
                    0 <= k < i ==> (#[trigger] self.dffs@[k]) == (DFF {
                        clock_wire: Some(
                            match old(self).dffs@[k].clock_wire {
                                Some(c) => c,
                                None => clock,
                            },
                        ),
                        ..old(self).dffs@[k]
                    }),
                forall|k: int| i <= k < self.dffs@.len() ==> (#[trigger] self.dffs@[k]) == old(self).dffs@[k],
            decreases self.dffs@.len() - i,
        {
            if self.dffs[i].clock_wire.is_none() {
                self.dffs[i].connect_clock(clock);
            }
            i = i + 1;
        }
        let mut i: usize = 0;
        while i < self.brams.len()
            invariant
                old(self).wf(),
                self.wires == old(self).wires,
                self.inputs == old(self).inputs,
                self.outputs == old(self).outputs,
                self.luts == old(self).luts,
                self.bram_ports == old(self).bram_ports,
                self.clock_wire == clock,
                clock == old(self).clock_wire,
                self.dffs@.len() == old(self).dffs@.len(),
                forall|k: int|
                    0 <= k < old(self).dffs@.len() ==> (#[trigger] self.dffs@[k]) == (DFF {
                        clock_wire: Some(
                            match old(self).dffs@[k].clock_wire {
                                Some(c) => c,
                                None => clock,
                            },
                        ),
                        ..old(self).dffs@[k]
                    }),
                i <= self.brams@.len(),
                self.brams@.len() == old(self).brams@.len(),
                forall|k: int|
                    0 <= k < i ==> (#[trigger] self.brams@[k]) == old(self).brams@[k].bind(
                        BramPort::Clock,
                        match old(self).brams@[k].clock_wire {
                            Some(c) => c,
                            None => clock,
                        },
                    ),
                forall|k: int| i <= k < self.brams@.len() ==> (#[trigger] self.brams@[k]) == old(self).brams@[k],
            decreases self.brams@.len() - i,
        {
            if self.brams[i].clock_wire.is_none() {
                self.brams[i].bind_port(BramPort::Clock, clock);
            } else {
                proof {
                    assert(self.brams@[i as int] == self.brams@[i as int].bind(
                        BramPort::Clock,
                        self.brams@[i as int].clock_wire.unwrap(),
                    ));
                }
            }
            i = i + 1;
        }
        proof {
            assert(self.dff_ids() =~= old(self).dff_ids());
            assert(self.bram_ids() =~= old(self).bram_ids());
        }
    }
}

impl FPGAFabric {
    /// What a fabric built from `cfg` is: well formed, with the netlist's ids
    /// and names, its wires laid out and all at 0, its connections made in
    /// order, and every free clock on the periodic clock.
    pub open spec fn built_from(&self, config: FPGAConfig) -> bool {
        &&& self.wf()
        &&& self.mirrors(config)
        &&& self.zeroed()
        &&& self.wires@.len() == 1 + config.inputs@.len() + config.outputs@.len()
            + config.luts@.len() + config.dffs@.len() + 5 * config.brams@.len()
        &&& self.clock_wire == 0
        &&& self.laid_out(config)
        &&& self.feeds_only_sinks()
        &&& exists|trace: Seq<FPGAFabric>|
            {
                &&& wired_in_order(trace, config.connections@)
                &&& trace[0].wf()
                &&& trace[0].unwired()
                &&& trace[0].mirrors(config)
                &&& trace.last().clocks_bound(self)
            }
        &&& self.luts@.len() == config.luts@.len()
        &&& forall|k: int|
            0 <= k < config.luts@.len() ==> (#[trigger] self.luts@[k]).truth_table@
                == config.luts@[k].truth_table@
        &&& forall|k: int|
            0 <= k < self.dffs@.len() ==> !(#[trigger] self.dffs@[k]).state
                && self.dffs@[k].clock_wire is Some && self.dffs@[k].last_clock_state is None
        &&& forall|k: int|
            0 <= k < config.brams@.len() ==> {
                &&& (#[trigger] self.brams@[k]).size == config.brams@[k].size
                &&& self.brams@[k].width == config.brams@[k].width
                &&& self.brams@[k].clock_wire is Some
                &&& self.brams@[k].last_clock_state is None
                &&& forall|j: int|
                    0 <= j < self.brams@[k].size ==> #[trigger] self.brams@[k].memory@[j] == 0
            }
    }

    /// Builds a fully connected fabric from a netlist: one wire for the
    /// periodic clock, one per named input and output, one per table and
    /// flip-flop output, five per memory. A faulty netlist is reported and no
    /// fabric is produced.
    pub fn from_config(config: FPGAConfig) -> (r: Result<FPGAFabric, FabricError>)
        requires
            1 + config.inputs@.len() + config.outputs@.len() + config.luts@.len()
                + config.dffs@.len() + 5 * config.brams@.len() < usize::MAX,
        ensures
            build_error(config) matches Some(e) ==> r == Err::<FPGAFabric, FabricError>(e),
            build_error(config) is None ==> r is Ok,
            r matches Ok(f) ==> f.built_from(config),
    {
        if let Err(e) = validate_config(&config) {
            return Err(e);
        }
        let mut fabric = FPGAFabric::new();
        let inputs = fabric.named_wires(&config.inputs);
        fabric.inputs = inputs;
        let outputs = fabric.named_wires(&config.outputs);
        fabric.outputs = outputs;
        proof {
            assert(names_of(fabric.inputs@).len() == fabric.inputs@.len());
            assert(names_of(fabric.outputs@).len() == fabric.outputs@.len());
        }
        fabric.add_luts(&config.luts);
        fabric.add_dffs(&config.dffs);
        if let Err(e) = fabric.add_brams(&config.brams) {
            return Err(e);
        }
        let ghost allocated = fabric;
        proof {
            assert(allocated.laid_out(config));
            assert(allocated.feeds_only_sinks());
        }
        if let Err(e) = fabric.add_connections(&config) {
            return Err(e);
        }
        let ghost wired = fabric;
        fabric.bind_free_clocks();
        proof {
            assert(wired.clocks_bound(&fabric));
            assert(wired.laid_out(config));
            assert forall|k: int| 0 <= k < config.brams@.len() implies ports_from(
                #[trigger] fabric.bram_ports@[k],
                fabric.brams@[k],
                1 + config.inputs@.len() + config.outputs@.len() + config.luts@.len()
                    + config.dffs@.len() + 5 * k,
            ) by {
                assert(ports_from(
                    wired.bram_ports@[k],
                    wired.brams@[k],
                    1 + config.inputs@.len() + config.outputs@.len() + config.luts@.len()
                        + config.dffs@.len() + 5 * k,
                ));
            }
            assert(fabric.laid_out(config));
        }
        proof {
            assert(fabric.dff_ids() =~= wired.dff_ids());
            assert(fabric.bram_ids() =~= wired.bram_ids());
        }
        Ok(fabric)
    }
}

/// The values after committing each drive in order; a later drive of the
/// same wire wins, and one naming a missing wire is ignored.
pub open spec fn apply_drives(values: Seq<u64>, drives: Seq<Option<(usize, u64)>>) -> Seq<u64>
    decreases drives.len(),
{
    if drives.len() == 0 {
        values
    } else {
        let v = apply_drives(values, drives.drop_last());
        match drives.last() {
            Some((w, x)) => if w < v.len() {
                v.update(w as int, x)
            } else {
                v
            },
            None => v,
        }
    }
}

/// The values after each of the first `n` wires has copied its value in
/// `values` into its destinations; a later source wins.
pub open spec fn forward_from(values: Seq<u64>, wires: Seq<Wire>, n: int) -> Seq<u64>
    decreases n,
{
    if n <= 0 {
        values
    } else {
        let prev = forward_from(values, wires, n - 1);
        Seq::new(
            prev.len(),
            |t: int|
                if listed(wires[n - 1].destinations@, t) {
                    values[n - 1]
                } else {
                    prev[t]
                },
        )
    }
}

/// Forwarding reads only the destination lists of the wires.
pub proof fn lemma_forward_same_dests(values: Seq<u64>, w1: Seq<Wire>, w2: Seq<Wire>, n: int)
    requires
        n <= w1.len(),
        w1.len() == w2.len(),
        forall|i: int| 0 <= i < w1.len() ==> (#[trigger] w1[i]).destinations@ == w2[i].destinations@,
    ensures
        forward_from(values, w1, n) == forward_from(values, w2, n),
    decreases n,
{
    if n > 0 {
        lemma_forward_same_dests(values, w1, w2, n - 1);
        assert(w1[n - 1].destinations@ == w2[n - 1].destinations@);
        assert(forward_from(values, w1, n) =~= forward_from(values, w2, n));
    }
}

pub proof fn lemma_forward_len(values: Seq<u64>, wires: Seq<Wire>, n: int)
    ensures
        forward_from(values, wires, n).len() == values.len(),
    decreases n,
{
    if n > 0 {
        lemma_forward_len(values, wires, n - 1);
    }
}

pub proof fn lemma_apply_len(values: Seq<u64>, drives: Seq<Option<(usize, u64)>>)
    ensures
        apply_drives(values, drives).len() == values.len(),
    decreases drives.len(),
{
    if drives.len() > 0 {
        lemma_apply_len(values, drives.drop_last());
    }
}

/// What a memory drives on one evaluation against `wires`.
pub open spec fn bram_drive(b: BlockRAM, wires: Seq<Wire>) -> Option<(usize, u64)> {
    if b.edge(wires) && b.data_out_wire.is_some() {
        Some((b.data_out_wire.unwrap(), b.data_out_for(wires)))
    } else {
        None
    }
}

/// What a flip-flop drives on one evaluation against `wires`.
pub open spec fn dff_drive(d: DFF, wires: Seq<Wire>) -> Option<(usize, u64)> {
    if d.connected() && d.output_wire.is_some() {
        Some(
            (
                d.output_wire.unwrap(),
                if d.next(wires).state {
                    1u64
                } else {
                    0u64
                },
            ),
        )
    } else {
        None
    }
}

impl FPGAFabric {
    pub open spec fn lut_drives(&self) -> Seq<Option<(usize, u64)>> {
        Seq::new(
            self.luts@.len(),
            |k: int| Some((self.luts@[k].output_wire.unwrap(), self.luts@[k].output_for(self.wires@))),
        )
    }

    pub open spec fn bram_drives(&self) -> Seq<Option<(usize, u64)>> {
        Seq::new(self.brams@.len(), |k: int| bram_drive(self.brams@[k], self.wires@))
    }

    pub open spec fn dff_drives(&self) -> Seq<Option<(usize, u64)>> {
        Seq::new(self.dffs@.len(), |k: int| dff_drive(self.dffs@[k], self.wires@))
    }

    /// The memories after one evaluation against the current wires.
    pub open spec fn brams_stepped(&self, new: &FPGAFabric) -> bool {
        &&& new.brams@.len() == self.brams@.len()
        &&& forall|k: int|
            0 <= k < self.brams@.len() ==> {
                &&& (#[trigger] new.brams@[k]).wf()
                &&& self.brams@[k].same_setup(&new.brams@[k])
                &&& new.brams@[k].memory@ == self.brams@[k].next_memory(self.wires@)
                &&& new.brams@[k].last_clock_state == self.brams@[k].next_clock_state(self.wires@)
            }
    }

    /// The flip-flops after one evaluation against the current wires.
    pub open spec fn dffs_stepped(&self, new: &FPGAFabric) -> bool {
        &&& new.dffs@.len() == self.dffs@.len()
        &&& forall|k: int|
            0 <= k < self.dffs@.len() ==> (#[trigger] new.dffs@[k]) == self.dffs@[k].next(self.wires@)
    }

    /// Evaluates every table, memory and flip-flop against the committed
    /// values, without committing anything.
    fn compute_drives(&mut self) -> (r: Vec<Option<(usize, u64)>>)
        requires
            old(self).wf(),
        ensures
            final(self).wf(),
            r@ == old(self).lut_drives() + old(self).bram_drives() + old(self).dff_drives(),
            final(self).wires == old(self).wires,
            final(self).inputs == old(self).inputs,
            final(self).outputs == old(self).outputs,
            final(self).luts == old(self).luts,
            final(self).bram_ports == old(self).bram_ports,
            final(self).clock_wire == old(self).clock_wire,
            old(self).brams_stepped(final(self)),
            old(self).dffs_stepped(final(self)),
    {
        let mut r: Vec<Option<(usize, u64)>> = Vec::new();
        let mut k: usize = 0;
        while k < self.luts.len()
            invariant
                self.wf(),
                *self == *old(self),
                k <= self.luts@.len(),
                r@ == old(self).lut_drives().take(k as int),
            decreases self.luts@.len() - k,
        {
            let o = self.luts[k].output_wire.unwrap();
            let v = self.luts[k].evaluate(&self.wires);
            r.push(Some((o, v)));
            proof {
                assert(r@ =~= old(self).lut_drives().take(k + 1));
            }
            k = k + 1;
        }
        assert(old(self).lut_drives().take(k as int) == old(self).lut_drives());
        let mut k: usize = 0;
        while k < self.brams.len()
            invariant
                old(self).wf(),
                self.wires == old(self).wires,
                self.inputs == old(self).inputs,
                self.outputs == old(self).outputs,
                self.luts == old(self).luts,
                self.dffs == old(self).dffs,
                self.bram_ports == old(self).bram_ports,
                self.clock_wire == old(self).clock_wire,
                k <= self.brams@.len(),
                self.brams@.len() == old(self).brams@.len(),
                forall|j: int|
                    0 <= j < k ==> {
                        &&& (#[trigger] self.brams@[j]).wf()
                        &&& old(self).brams@[j].same_setup(&self.brams@[j])
                        &&& self.brams@[j].memory@ == old(self).brams@[j].next_memory(self.wires@)
                        &&& self.brams@[j].last_clock_state == old(self).brams@[j].next_clock_state(
                            self.wires@,
                        )
                    },
                forall|j: int| k <= j < self.brams@.len() ==> self.brams@[j] == old(self).brams@[j],
                r@ == old(self).lut_drives() + old(self).bram_drives().take(k as int),
            decreases self.brams@.len() - k,
        {
            let d = self.brams[k].step(&self.wires);
            r.push(d);
            proof {
                assert(old(self).bram_drives().take(k + 1) =~= old(self).bram_drives().take(
                    k as int,
                ).push(d));
                assert(r@ =~= old(self).lut_drives() + old(self).bram_drives().take(k + 1));
            }
            k = k + 1;
        }
        assert(old(self).bram_drives().take(k as int) == old(self).bram_drives());
        let mut k: usize = 0;
        while k < self.dffs.len()
            invariant
                old(self).wf(),
                self.wires == old(self).wires,
                self.inputs == old(self).inputs,
                self.outputs == old(self).outputs,
                self.luts == old(self).luts,
                self.bram_ports == old(self).bram_ports,
                self.clock_wire == old(self).clock_wire,
                old(self).brams_stepped(self),
                k <= self.dffs@.len(),
                self.dffs@.len() == old(self).dffs@.len(),
                forall|j: int| 0 <= j < k ==> (#[trigger] self.dffs@[j]) == old(self).dffs@[j].next(
                    self.wires@,
                ),
                forall|j: int| k <= j < self.dffs@.len() ==> self.dffs@[j] == old(self).dffs@[j],
                r@ == old(self).lut_drives() + old(self).bram_drives() + old(self).dff_drives().take(
                    k as int,
                ),
            decreases self.dffs@.len() - k,
        {
            let d = self.dffs[k].step(&self.wires);
            r.push(d);
            proof {
                assert(old(self).dff_drives().take(k + 1) =~= old(self).dff_drives().take(
                    k as int,
                ).push(d));
                assert(r@ =~= old(self).lut_drives() + old(self).bram_drives()
                    + old(self).dff_drives().take(k + 1));
            }
            k = k + 1;
        }
        assert(old(self).dff_drives().take(k as int) == old(self).dff_drives());
        proof {
            assert(self.dff_ids() =~= old(self).dff_ids());
            assert(self.bram_ids() =~= old(self).bram_ids());
        }
        r
    }
}

impl FPGAFabric {
    fn commit_drives(&mut self, drives: &Vec<Option<(usize, u64)>>)
        requires
            old(self).wf(),
        ensures
            final(self).wf(),
            final(self).same_except_wires(old(self)),
            final(self).values() == apply_drives(old(self).values(), drives@),
    {
        let mut j: usize = 0;
        while j < drives.len()
            invariant
                self.wf(),
                self.same_except_wires(old(self)),
                j <= drives@.len(),
                self.values() == apply_drives(old(self).values(), drives@.take(j as int)),
            decreases drives@.len() - j,
        {
            proof {
                assert(drives@.take(j + 1).drop_last() == drives@.take(j as int));
                lemma_apply_len(old(self).values(), drives@.take(j as int));
            }
            if let Some((w, x)) = drives[j] {
                self.set_wire_value(w, x);
            }
            proof {
                assert(self.values() =~= apply_drives(old(self).values(), drives@.take(j + 1)));
            }
            j = j + 1;
        }
        assert(drives@.take(j as int) == drives@);
    }

    fn forward_values(&mut self)
        requires
            old(self).wf(),
        ensures
            final(self).wf(),
            final(self).same_except_wires(old(self)),
            final(self).values() == forward_from(
                old(self).values(),
                old(self).wires@,
                old(self).wires@.len() as int,
            ),
    {
        let n = self.wires.len();
        let mut committed: Vec<u64> = Vec::new();
        let mut i: usize = 0;
        while i < n
            invariant
                *self == *old(self),
                n == self.wires@.len(),
                i <= n,
                committed@ == self.values().take(i as int),
            decreases n - i,
        {
            committed.push(self.wires[i].value);
            proof {
                assert(committed@ =~= self.values().take(i + 1));
            }
            i = i + 1;
        }
        assert(committed@ =~= old(self).values());
        let mut i: usize = 0;
        while i < n
            invariant
                self.wf(),
                self.same_except_wires(old(self)),
                n == old(self).wires@.len(),
                committed@ == old(self).values(),
                i <= n,
                self.values() == forward_from(old(self).values(), old(self).wires@, i as int),
            decreases n - i,
        {
            let m = self.wires[i].destinations.len();
            let ghost start = self.values();
            let mut j: usize = 0;
            while j < m
                invariant
                    self.wf(),
                    self.same_except_wires(old(self)),
                    n == old(self).wires@.len(),
                    committed@ == old(self).values(),
                    i < n,
                    m == old(self).wires@[i as int].destinations@.len(),
                    j <= m,
                    start.len() == n,
                    self.values() == Seq::new(
                        n as nat,
                        |t: int|
                            if listed(old(self).wires@[i as int].destinations@.take(j as int), t) {
                                committed@[i as int]
                            } else {
                                start[t]
                            },
                    ),
                decreases m - j,
            {
                let d = self.wires[i].destinations[j];
                let c = committed[i];
                let ghost before = self.values();
                self.set_wire_value(d, c);
                proof {
                    let dests = old(self).wires@[i as int].destinations@;
                    let t0 = dests.take(j as int);
                    let t1 = dests.take(j + 1);
                    assert(self.wires@[i as int].destinations@ == dests);
                    assert forall|t: int| 0 <= t < n implies #[trigger] listed(t1, t) == (listed(
                        t0,
                        t,
                    ) || d as int == t) by {
                        if listed(t1, t) {
                            let q = choose|q: int| 0 <= q < t1.len() && t1[q] as int == t;
                            if q < j {
                                assert(t0[q] == t1[q]);
                            }
                        }
                        if listed(t0, t) {
                            let q = choose|q: int| 0 <= q < t0.len() && t0[q] as int == t;
                            assert(t1[q] == t0[q]);
                        }
                        if d as int == t {
                            assert(t1[j as int] == d);
                        }
                    }
                    assert(self.values() =~= Seq::new(
                        n as nat,
                        |t: int|
                            if listed(t1, t) {
                                committed@[i as int]
                            } else {
                                start[t]
                            },
                    ));
                }
                j = j + 1;
            }
            proof {
                let dests = old(self).wires@[i as int].destinations@;
                assert(dests.take(m as int) == dests);
                lemma_forward_len(old(self).values(), old(self).wires@, i as int);
                assert(self.values() =~= forward_from(
                    old(self).values(),
                    old(self).wires@,
                    i + 1,
                ));
            }
            i = i + 1;
        }
    }

    /// One synchronous delta cycle: every table, memory and flip-flop is
    /// evaluated against the same committed values; then all their outputs
    /// are committed (tables first, then memories, then flip-flops); then
    /// each wire's committed value is copied into its destinations.
    pub fn evaluate(&mut self)
        requires
            old(self).wf(),
        ensures
            final(self).wf(),
            final(self).inputs == old(self).inputs,
            final(self).outputs == old(self).outputs,
            final(self).luts == old(self).luts,
            final(self).bram_ports == old(self).bram_ports,
            final(self).clock_wire == old(self).clock_wire,
            old(self).brams_stepped(final(self)),
            old(self).dffs_stepped(final(self)),
            final(self).wires@.len() == old(self).wires@.len(),
            forall|i: int|
                0 <= i < old(self).wires@.len() ==> (#[trigger] final(self).wires@[i]).id
                    == old(self).wires@[i].id && final(self).wires@[i].destinations@ == old(
                    self,
                ).wires@[i].destinations@,
            final(self).values() == forward_from(
                apply_drives(
                    old(self).values(),
                    old(self).lut_drives() + old(self).bram_drives() + old(self).dff_drives(),
                ),
                old(self).wires@,
                old(self).wires@.len() as int,
            ),
    {
        let drives = self.compute_drives();
        self.commit_drives(&drives);
        let ghost committed = *self;
        self.forward_values();
        proof {
            lemma_forward_same_dests(
                committed.values(),
                committed.wires@,
                old(self).wires@,
                old(self).wires@.len() as int,
            );
        }
    }
}

/// The tables among `luts` that read wire `w`, in order.
pub open spec fn luts_reading(luts: Seq<LUT>, w: usize) -> Seq<FPGAElement>
    decreases luts.len(),
{
    if luts.len() == 0 {
        Seq::empty()
    } else {
        let rest = luts_reading(luts.drop_last(), w);
        if lut_reads(luts.last(), w) {
            rest.push(FPGAElement::LUT(luts.last().id))
        } else {
            rest
        }
    }
}

pub open spec fn dffs_reading(dffs: Seq<DFF>, w: usize) -> Seq<FPGAElement>
    decreases dffs.len(),
{
    if dffs.len() == 0 {
        Seq::empty()
    } else {
        let rest = dffs_reading(dffs.drop_last(), w);
        if dff_reads(dffs.last(), w) {
            rest.push(FPGAElement::DFF(dffs.last().id))
        } else {
            rest
        }
    }
}

pub open spec fn brams_reading(brams: Seq<BlockRAM>, w: usize) -> Seq<FPGAElement>
    decreases brams.len(),
{
    if brams.len() == 0 {
        Seq::empty()
    } else {
        let rest = brams_reading(brams.drop_last(), w);
        if bram_reads(brams.last(), w) {
            rest.push(FPGAElement::BRAM(brams.last().id))
        } else {
            rest
        }
    }
}

pub open spec fn outputs_on(outputs: Seq<(String, usize)>, w: usize) -> Seq<FPGAElement>
    decreases outputs.len(),
{
    if outputs.len() == 0 {
        Seq::empty()
    } else {
        let rest = outputs_on(outputs.drop_last(), w);
        if outputs.last().1 == w {
            rest.push(FPGAElement::Output(outputs.last().0))
        } else {
            rest
        }
    }
}

pub open spec fn lut_reads(l: LUT, w: usize) -> bool {
    exists|p: int| 0 <= p < 4 && l.input_wires@[p] == Some(w)
}

pub open spec fn dff_reads(d: DFF, w: usize) -> bool {
    d.input_wire == Some(w) || d.clock_wire == Some(w)
}

/// A memory reads every port but its data output.
pub open spec fn bram_reads(b: BlockRAM, w: usize) -> bool {
    b.address_wire == Some(w) || b.data_in_wire == Some(w) || b.write_enable_wire == Some(w)
        || b.clock_wire == Some(w)
}

impl FPGAFabric {
    /// The tables, flip-flops and memories that read wire `w`, then the
    /// outputs bound to it, each group in order.
    pub open spec fn affected(&self, w: usize) -> Seq<FPGAElement> {
        luts_reading(self.luts@, w) + dffs_reading(self.dffs@, w) + brams_reading(self.brams@, w)
            + outputs_on(self.outputs@, w)
    }

    /// The elements downstream of a wire, for event-driven evaluation; none
    /// for no wire.
    pub fn get_affected_elements(&self, wire_index: Option<usize>) -> (r: Vec<FPGAElement>)
        ensures
            r@ == match wire_index {
                Some(w) => self.affected(w),
                None => Seq::empty(),
            },
    {
        let mut r: Vec<FPGAElement> = Vec::new();
        let w = match wire_index {
            Some(w) => w,
            None => return r,
        };
        let mut k: usize = 0;
        while k < self.luts.len()
            invariant
                k <= self.luts@.len(),
                r@ == luts_reading(self.luts@.take(k as int), w),
            decreases self.luts@.len() - k,
        {
            proof {
                assert(self.luts@.take(k + 1).drop_last() == self.luts@.take(k as int));
            }
            let lut = &self.luts[k];
            let reads = lut.input_wires[0] == Some(w) || lut.input_wires[1] == Some(w)
                || lut.input_wires[2] == Some(w) || lut.input_wires[3] == Some(w);
            proof {
                if lut_reads(*lut, w) {
                    let p = choose|p: int| 0 <= p < 4 && lut.input_wires@[p] == Some(w);
                    assert(reads);
                }
                if reads {
                    assert(lut_reads(*lut, w));
                }
            }
            if reads {
                r.push(FPGAElement::LUT(lut.id));
            }
            k = k + 1;
        }
        assert(self.luts@.take(k as int) == self.luts@);
        let ghost a = r@;
        let mut k: usize = 0;
        while k < self.dffs.len()
            invariant
                k <= self.dffs@.len(),
                r@ == a + dffs_reading(self.dffs@.take(k as int), w),
            decreases self.dffs@.len() - k,
        {
            proof {
                assert(self.dffs@.take(k + 1).drop_last() == self.dffs@.take(k as int));
            }
            let dff = &self.dffs[k];
            if dff.input_wire == Some(w) || dff.clock_wire == Some(w) {
                r.push(FPGAElement::DFF(dff.id));
            }
            proof {
                assert(r@ =~= a + dffs_reading(self.dffs@.take(k + 1), w));
            }
            k = k + 1;
        }
        assert(self.dffs@.take(k as int) == self.dffs@);
        let ghost b = r@;
        let mut k: usize = 0;
        while k < self.brams.len()
            invariant
                k <= self.brams@.len(),
                r@ == b + brams_reading(self.brams@.take(k as int), w),
            decreases self.brams@.len() - k,
        {
            proof {
                assert(self.brams@.take(k + 1).drop_last() == self.brams@.take(k as int));
            }
            let m = &self.brams[k];
            if m.address_wire == Some(w) || m.data_in_wire == Some(w) || m.write_enable_wire == Some(
                w,
            ) || m.clock_wire == Some(w) {
                r.push(FPGAElement::BRAM(m.id));
            }
            proof {
                assert(r@ =~= b + brams_reading(self.brams@.take(k + 1), w));
            }
            k = k + 1;
        }
        assert(self.brams@.take(k as int) == self.brams@);
        let ghost c = r@;
        let mut k: usize = 0;
        while k < self.outputs.len()
            invariant
                k <= self.outputs@.len(),
                r@ == c + outputs_on(self.outputs@.take(k as int), w),
            decreases self.outputs@.len() - k,
        {
            proof {
                assert(self.outputs@.take(k + 1).drop_last() == self.outputs@.take(k as int));
            }
            if self.outputs[k].1 == w {
                r.push(FPGAElement::Output(self.outputs[k].0.clone()));
            }
            proof {
                assert(r@ =~= c + outputs_on(self.outputs@.take(k + 1), w));
            }
            k = k + 1;
        }
        assert(self.outputs@.take(k as int) == self.outputs@);
        r
    }
}

impl FPGAFabric {
    /// The value the table with id `lut_id` gives for the committed wire
    /// values; none for an unknown id.
    pub fn evaluate_lut(&self, lut_id: usize) -> (r: Option<u64>)
        ensures
            r == match first_index(self.lut_ids(), lut_id) {
                Some(k) => Some(self.luts@[k].output_for(self.wires@)),
                None => None,
            },
    {
        match self.lut_index(lut_id) {
            Some(k) => {
                proof {
                    lemma_first_index(self.lut_ids(), lut_id);
                }
                Some(self.luts[k].evaluate(&self.wires))
            },
            None => None,
        }
    }

    /// The output wire of the table with id `lut_id`, 0 for an unknown id.
    pub fn get_lut_output_wire(&self, lut_id: usize) -> (r: usize)
        requires
            self.wf(),
        ensures
            r == match first_index(self.lut_ids(), lut_id) {
                Some(k) => self.luts@[k].output_wire.unwrap(),
                None => 0,
            },
    {
        match self.lut_index(lut_id) {
            Some(k) => {
                proof {
                    lemma_first_index(self.lut_ids(), lut_id);
                }
                self.luts[k].output_wire.unwrap()
            },
            None => 0,
        }
    }

    /// The address, data-in and data-out wires of the memory with id `bram_id`.
    pub fn get_bram_wires(&self, bram_id: usize) -> (r: Option<(usize, usize, usize)>)
        requires
            self.wf(),
        ensures
            r == match first_index(self.bram_ids(), bram_id) {
                Some(k) => Some(
                    (
                        self.bram_ports@[k].address,
                        self.bram_ports@[k].data_in,
                        self.bram_ports@[k].data_out,
                    ),
                ),
                None => None,
            },
    {
        match self.bram_index(bram_id) {
            Some(k) => {
                proof {
                    lemma_first_index(self.bram_ids(), bram_id);
                }
                let p = self.bram_ports[k];
                Some((p.address, p.data_in, p.data_out))
            },
            None => None,
        }
    }

    /// The data-out wire of the memory with id `bram_id`.
    pub fn get_bram_output_wire(&self, bram_id: usize) -> (r: Option<usize>)
        requires
            self.wf(),
        ensures
            r == match first_index(self.bram_ids(), bram_id) {
                Some(k) => Some(self.bram_ports@[k].data_out),
                None => None,
            },
    {
        match self.bram_index(bram_id) {
            Some(k) => {
                proof {
                    lemma_first_index(self.bram_ids(), bram_id);
                }
                Some(self.bram_ports[k].data_out)
            },
            None => None,
        }
    }

    /// Stores `data`, masked to the width, in the memory with id `bram_id`
    /// at `address` modulo its capacity; an unknown id or an empty memory
    /// changes nothing.
    pub fn write_bram(&mut self, bram_id: usize, address: usize, data: u64)
        requires
            old(self).wf(),
        ensures
            final(self).wf(),
            final(self).wires == old(self).wires,
            final(self).luts == old(self).luts,
            final(self).dffs == old(self).dffs,
            final(self).brams@.len() == old(self).brams@.len(),
            match first_index(old(self).bram_ids(), bram_id) {
                Some(k) => {
                    let b = old(self).brams@[k];
                    &&& b.same_setup(&final(self).brams@[k])
                    &&& final(self).brams@[k].last_clock_state == b.last_clock_state
                    &&& final(self).brams@[k].memory@ == if b.size == 0 {
                        b.memory@
                    } else {
                        b.memory@.update(address as int % b.size as int, data & b.mask())
                    }
                    &&& forall|j: int|
                        0 <= j < old(self).brams@.len() && j != k ==> final(self).brams@[j]
                            == old(self).brams@[j]
                },
                None => final(self).brams == old(self).brams,
            },
    {
        match self.bram_index(bram_id) {
            Some(k) => {
                proof {
                    lemma_first_index(self.bram_ids(), bram_id);
                }
                if self.brams[k].size > 0 {
                    let a = address % self.brams[k].size;
                    self.brams[k].write(a, data);
                }
                proof {
                    assert(self.bram_ids() =~= old(self).bram_ids());
                }
            },
            None => {},
        }
    }

    /// The word of the memory with id `bram_id` at `address` modulo its
    /// capacity (stored words are masked to the width); 0 for an unknown id
    /// or an empty memory.
    pub fn read_bram(&self, bram_id: usize, address: usize) -> (r: u64)
        requires
            self.wf(),
        ensures
            r == match first_index(self.bram_ids(), bram_id) {
                Some(k) => if self.brams@[k].size == 0 {
                    0
                } else {
                    self.brams@[k].memory@[address as int % self.brams@[k].size as int]
                },
                None => 0,
            },
    {
        match self.bram_index(bram_id) {
            Some(k) => {
                proof {
                    lemma_first_index(self.bram_ids(), bram_id);
                }
                if self.brams[k].size == 0 {
                    0
                } else {
                    self.brams[k].read(address % self.brams[k].size)
                }
            },
            None => 0,
        }
    }

    /// Evaluates every flip-flop against the committed values, then commits
    /// their outputs together.
    pub fn evaluate_dff(&mut self)
        requires
            old(self).wf(),
        ensures
            final(self).wf(),
            old(self).dffs_stepped(final(self)),
            final(self).brams == old(self).brams,
            final(self).luts == old(self).luts,
            final(self).inputs == old(self).inputs,
            final(self).outputs == old(self).outputs,
            final(self).values() == apply_drives(old(self).values(), old(self).dff_drives()),
    {
        let mut drives: Vec<Option<(usize, u64)>> = Vec::new();
        let mut k: usize = 0;
        while k < self.dffs.len()
            invariant
                old(self).wf(),
                self.wires == old(self).wires,
                self.inputs == old(self).inputs,
                self.outputs == old(self).outputs,
                self.luts == old(self).luts,
                self.brams == old(self).brams,
                self.bram_ports == old(self).bram_ports,
                self.clock_wire == old(self).clock_wire,
                k <= self.dffs@.len(),
                self.dffs@.len() == old(self).dffs@.len(),
                forall|j: int| 0 <= j < k ==> (#[trigger] self.dffs@[j]) == old(self).dffs@[j].next(
                    self.wires@,
                ),
                forall|j: int| k <= j < self.dffs@.len() ==> self.dffs@[j] == old(self).dffs@[j],
                drives@ == old(self).dff_drives().take(k as int),
            decreases self.dffs@.len() - k,
        {
            let d = self.dffs[k].step(&self.wires);
            drives.push(d);
            proof {
                assert(drives@ =~= old(self).dff_drives().take(k + 1));
            }
            k = k + 1;
        }
        assert(old(self).dff_drives().take(k as int) == old(self).dff_drives());
        proof {
            assert(self.dff_ids() =~= old(self).dff_ids());
        }
        self.commit_drives(&drives);
    }

    pub fn get_all_dffs(&self) -> (r: &[DFF])
        ensures
            r@ == self.dffs@,
    {
        self.dffs.as_slice()
    }

    /// The output wire of the flip-flop with id `dff_id`.
    pub fn get_dff_output_wire(&self, dff_id: usize) -> (r: Option<usize>)
        requires
            self.wf(),
        ensures
            r == match first_index(self.dff_ids(), dff_id) {
                Some(k) => self.dffs@[k].output_wire,
                None => None,
            },
    {
        match self.dff_index(dff_id) {
            Some(k) => {
                proof {
                    lemma_first_index(self.dff_ids(), dff_id);
                }
                Some(self.dffs[k].output_wire.unwrap())
            },
            None => None,
        }
    }

    /// The committed value of the output wire of the flip-flop with id `dff_id`.
    pub fn get_dff_output(&self, dff_id: usize) -> (r: Option<u64>)
        requires
            self.wf(),
        ensures
            r == match first_index(self.dff_ids(), dff_id) {
                Some(k) => Some(self.wires@[self.dffs@[k].output_wire.unwrap() as int].value),
                None => None,
            },
    {
        match self.dff_index(dff_id) {
            Some(k) => {
                proof {
                    lemma_first_index(self.dff_ids(), dff_id);
                }
                let o = self.dffs[k].output_wire.unwrap();
                Some(self.wires[o].value)
            },
            None => None,
        }
    }

    /// Evaluates the flip-flop at position `k` against the committed values
    /// and returns what it drives, without committing it.
    pub fn sample_dff(&mut self, k: usize) -> (drive: Option<(usize, u64)>)
        requires
            old(self).wf(),
            k < old(self).dffs@.len(),
        ensures
            final(self).wf(),
            final(self).wires == old(self).wires,
            final(self).inputs == old(self).inputs,
            final(self).outputs == old(self).outputs,
            final(self).luts == old(self).luts,
            final(self).brams == old(self).brams,
            final(self).bram_ports == old(self).bram_ports,
            final(self).clock_wire == old(self).clock_wire,
            final(self).dffs@ == old(self).dffs@.update(
                k as int,
                old(self).dffs@[k as int].next(old(self).wires@),
            ),
            drive == dff_drive(old(self).dffs@[k as int], old(self).wires@),
            drive matches Some((o, _)) ==> o < old(self).wires@.len(),
    {
        let d = self.dffs[k].step(&self.wires);
        proof {
            assert(self.dff_ids() =~= old(self).dff_ids());
        }
        d
    }

    /// Evaluates the memory at position `k` against the committed values and
    /// returns what it drives, without committing it.
    pub fn sample_bram(&mut self, k: usize) -> (drive: Option<(usize, u64)>)
        requires
            old(self).wf(),
            k < old(self).brams@.len(),
        ensures
            final(self).wf(),
            final(self).wires == old(self).wires,
            final(self).inputs == old(self).inputs,
            final(self).outputs == old(self).outputs,
            final(self).luts == old(self).luts,
            final(self).dffs == old(self).dffs,
            final(self).bram_ports == old(self).bram_ports,
            final(self).clock_wire == old(self).clock_wire,
            final(self).brams@.len() == old(self).brams@.len(),
            forall|j: int|
                0 <= j < old(self).brams@.len() && j != k ==> final(self).brams@[j] == old(
                    self,
                ).brams@[j],
            old(self).brams@[k as int].same_setup(&final(self).brams@[k as int]),
            final(self).brams@[k as int].memory@ == old(self).brams@[k as int].next_memory(
                old(self).wires@,
            ),
            final(self).brams@[k as int].last_clock_state == old(
                self,
            ).brams@[k as int].next_clock_state(old(self).wires@),
            drive == bram_drive(old(self).brams@[k as int], old(self).wires@),
            drive matches Some((o, _)) ==> o < old(self).wires@.len(),
    {
        let d = self.brams[k].step(&self.wires);
        proof {
            assert(self.bram_ids() =~= old(self).bram_ids());
        }
        d
    }
}

proof fn lemma_luts_reading_kinds(luts: Seq<LUT>, w: usize)
    ensures
        forall|j: int| 0 <= j < luts_reading(luts, w).len() ==> (#[trigger] luts_reading(luts, w)[j]) is LUT,
    decreases luts.len(),
{
    if luts.len() > 0 {
        lemma_luts_reading_kinds(luts.drop_last(), w);
    }
}

proof fn lemma_outputs_on_kinds(outputs: Seq<(String, usize)>, w: usize)
    ensures
        forall|j: int| 0 <= j < outputs_on(outputs, w).len() ==> (#[trigger] outputs_on(outputs, w)[j]) is Output,
    decreases outputs.len(),
{
    if outputs.len() > 0 {
        lemma_outputs_on_kinds(outputs.drop_last(), w);
    }
}

proof fn lemma_dffs_reading(dffs: Seq<DFF>, w: usize, id: usize)
    ensures
        forall|j: int| 0 <= j < dffs_reading(dffs, w).len() ==> (#[trigger] dffs_reading(dffs, w)[j]) is DFF,
        dffs_reading(dffs, w).contains(FPGAElement::DFF(id)) <==> exists|k: int|
            0 <= k < dffs.len() && (#[trigger] dffs[k]).id == id && dff_reads(dffs[k], w),
    decreases dffs.len(),
{
    if dffs.len() > 0 {
        let p = dffs.drop_last();
        lemma_dffs_reading(p, w, id);
        let r = dffs_reading(dffs, w);
        let rp = dffs_reading(p, w);
        if r.contains(FPGAElement::DFF(id)) {
            let j = choose|j: int| 0 <= j < r.len() && r[j] == FPGAElement::DFF(id);
            if j < rp.len() {
                assert(rp[j] == r[j]);
                let k = choose|k: int| 0 <= k < p.len() && (#[trigger] p[k]).id == id && dff_reads(p[k], w);
                assert(dffs[k] == p[k]);
            } else {
                assert(dffs[dffs.len() - 1] == dffs.last());
            }
        }
        if exists|k: int| 0 <= k < dffs.len() && (#[trigger] dffs[k]).id == id && dff_reads(dffs[k], w) {
            let k = choose|k: int| 0 <= k < dffs.len() && (#[trigger] dffs[k]).id == id && dff_reads(dffs[k], w);
            if k < dffs.len() - 1 {
                assert(p[k] == dffs[k]);
                let j = choose|j: int| 0 <= j < rp.len() && rp[j] == FPGAElement::DFF(id);
                assert(r[j] == rp[j]);
            } else {
                assert(r[r.len() - 1] == FPGAElement::DFF(id));
            }
        }
    }
}

proof fn lemma_brams_reading(brams: Seq<BlockRAM>, w: usize, id: usize)
    ensures
        forall|j: int| 0 <= j < brams_reading(brams, w).len() ==> (#[trigger] brams_reading(brams, w)[j]) is BRAM,
        brams_reading(brams, w).contains(FPGAElement::BRAM(id)) <==> exists|k: int|
            0 <= k < brams.len() && (#[trigger] brams[k]).id == id && bram_reads(brams[k], w),
    decreases brams.len(),
{
    if brams.len() > 0 {
        let p = brams.drop_last();
        lemma_brams_reading(p, w, id);
        let r = brams_reading(brams, w);
        let rp = brams_reading(p, w);
        if r.contains(FPGAElement::BRAM(id)) {
            let j = choose|j: int| 0 <= j < r.len() && r[j] == FPGAElement::BRAM(id);
            if j < rp.len() {
                assert(rp[j] == r[j]);
                let k = choose|k: int| 0 <= k < p.len() && (#[trigger] p[k]).id == id && bram_reads(p[k], w);
                assert(brams[k] == p[k]);
            } else {
                assert(brams[brams.len() - 1] == brams.last());
            }
        }
        if exists|k: int| 0 <= k < brams.len() && (#[trigger] brams[k]).id == id && bram_reads(brams[k], w) {
            let k = choose|k: int| 0 <= k < brams.len() && (#[trigger] brams[k]).id == id && bram_reads(brams[k], w);
            if k < brams.len() - 1 {
                assert(p[k] == brams[k]);
                let j = choose|j: int| 0 <= j < rp.len() && rp[j] == FPGAElement::BRAM(id);
                assert(r[j] == rp[j]);
            } else {
                assert(r[r.len() - 1] == FPGAElement::BRAM(id));
            }
        }
    }
}

impl FPGAFabric {
    /// A flip-flop is listed downstream of `w` exactly when one with that id
    /// reads `w`; likewise a memory.
    pub proof fn lemma_affected_members(&self, w: usize, id: usize)
        ensures
            self.affected(w).contains(FPGAElement::DFF(id)) <==> exists|k: int|
                0 <= k < self.dffs@.len() && (#[trigger] self.dffs@[k]).id == id && dff_reads(
                    self.dffs@[k],
                    w,
                ),
            self.affected(w).contains(FPGAElement::BRAM(id)) <==> exists|k: int|
                0 <= k < self.brams@.len() && (#[trigger] self.brams@[k]).id == id && bram_reads(
                    self.brams@[k],
                    w,
                ),
    {
        let a = luts_reading(self.luts@, w);
        let b = dffs_reading(self.dffs@, w);
        let c = brams_reading(self.brams@, w);
        let d = outputs_on(self.outputs@, w);
        lemma_luts_reading_kinds(self.luts@, w);
        lemma_outputs_on_kinds(self.outputs@, w);
        lemma_dffs_reading(self.dffs@, w, id);
        lemma_brams_reading(self.brams@, w, id);
        let all = self.affected(w);
        assert(all == a + b + c + d);
        if all.contains(FPGAElement::DFF(id)) {
            let j = choose|j: int| 0 <= j < all.len() && all[j] == FPGAElement::DFF(id);
            if j < a.len() {
                assert(all[j] == a[j]);
            } else if j < a.len() + b.len() {
                assert(all[j] == b[j - a.len()]);
            } else if j < a.len() + b.len() + c.len() {
                assert(all[j] == c[j - a.len() - b.len()]);
            } else {
                assert(all[j] == d[j - a.len() - b.len() - c.len()]);
            }
        }
        if b.contains(FPGAElement::DFF(id)) {
            let j = choose|j: int| 0 <= j < b.len() && b[j] == FPGAElement::DFF(id);
            assert(all[a.len() + j] == b[j]);
        }
        if all.contains(FPGAElement::BRAM(id)) {
            let j = choose|j: int| 0 <= j < all.len() && all[j] == FPGAElement::BRAM(id);
            if j < a.len() {
                assert(all[j] == a[j]);
            } else if j < a.len() + b.len() {
                assert(all[j] == b[j - a.len()]);
            } else if j < a.len() + b.len() + c.len() {
                assert(all[j] == c[j - a.len() - b.len()]);
            } else {
                assert(all[j] == d[j - a.len() - b.len() - c.len()]);
            }
        }
        if c.contains(FPGAElement::BRAM(id)) {
            let j = choose|j: int| 0 <= j < c.len() && c[j] == FPGAElement::BRAM(id);
            assert(all[a.len() + b.len() + j] == c[j]);
        }
    }
}

/// Whether drive `d` targets wire `t`.
pub open spec fn targets(d: Option<(usize, u64)>, t: int) -> bool {
    d matches Some(x) && x.0 == t
}

/// Whether some drive of `drives` targets wire `t`.
pub open spec fn drives_wire(drives: Seq<Option<(usize, u64)>>, t: int) -> bool {
    exists|j: int| 0 <= j < drives.len() && targets(#[trigger] drives[j], t)
}

proof fn lemma_apply_untouched(v: Seq<u64>, drives: Seq<Option<(usize, u64)>>, t: int)
    requires
        0 <= t < v.len(),
        !drives_wire(drives, t),
    ensures
        apply_drives(v, drives)[t] == v[t],
    decreases drives.len(),
{
    if drives.len() > 0 {
        let p = drives.drop_last();
        assert(!drives_wire(p, t)) by {
            if drives_wire(p, t) {
                let j = choose|j: int| 0 <= j < p.len() && targets(#[trigger] p[j], t);
                assert(drives[j] == p[j]);
            }
        }
        lemma_apply_untouched(v, p, t);
        lemma_apply_len(v, p);
        assert(drives[drives.len() - 1] == drives.last());
    }
}

proof fn lemma_apply_last(v: Seq<u64>, drives: Seq<Option<(usize, u64)>>, t: usize, j: int, x: u64)
    requires
        t < v.len(),
        0 <= j < drives.len(),
        drives[j] == Some((t, x)),
        !drives_wire(drives.subrange(j + 1, drives.len() as int), t as int),
    ensures
        apply_drives(v, drives)[t as int] == x,
    decreases drives.len(),
{
    let p = drives.drop_last();
    lemma_apply_len(v, p);
    let vv = apply_drives(v, p);
    if j == drives.len() - 1 {
        assert(drives.last() == drives[j]);
        assert(apply_drives(v, drives) == vv.update(t as int, x));
    } else {
        assert(!drives_wire(p.subrange(j + 1, p.len() as int), t as int)) by {
            let q = p.subrange(j + 1, p.len() as int);
            let r = drives.subrange(j + 1, drives.len() as int);
            if drives_wire(q, t as int) {
                let i = choose|i: int| 0 <= i < q.len() && targets(#[trigger] q[i], t as int);
                assert(r[i] == q[i]);
            }
        }
        assert(p[j] == drives[j]);
        lemma_apply_last(v, p, t, j, x);
        let r = drives.subrange(j + 1, drives.len() as int);
        assert(r[r.len() - 1] == drives.last());
        assert(!targets(drives.last(), t as int));
        match drives.last() {
            Some(d) => {
                if d.0 < vv.len() {
                    assert(apply_drives(v, drives) == vv.update(d.0 as int, d.1));
                } else {
                    assert(apply_drives(v, drives) == vv);
                }
            },
            None => {
                assert(apply_drives(v, drives) == vv);
            },
        }
    }
}

proof fn lemma_forward_untouched(v: Seq<u64>, wires: Seq<Wire>, n: int, t: int)
    requires
        0 <= t < v.len(),
        0 <= n <= wires.len(),
        forall|i: int| 0 <= i < n ==> !listed(#[trigger] wires[i].destinations@, t),
    ensures
        forward_from(v, wires, n)[t] == v[t],
    decreases n,
{
    if n > 0 {
        lemma_forward_untouched(v, wires, n - 1, t);
        lemma_forward_len(v, wires, n - 1);
    }
}

impl FPGAFabric {
    /// On a fabric laid out as built from `cfg`, one evaluation pass leaves
    /// every named input's wire as it was, and leaves each table's output
    /// wire holding the table's bit for the values before the pass.
    pub proof fn lemma_pass_keeps_inputs_and_table_bits(&self, cfg: FPGAConfig)
        requires
            self.wf(),
            self.laid_out(cfg),
            self.feeds_only_sinks(),
            self.wires@.len() == 1 + cfg.inputs@.len() + cfg.outputs@.len() + cfg.luts@.len()
                + cfg.dffs@.len() + 5 * cfg.brams@.len(),
            self.wires@.len() <= usize::MAX,
        ensures
            ({
                let after = forward_from(
                    apply_drives(
                        self.values(),
                        self.lut_drives() + self.bram_drives() + self.dff_drives(),
                    ),
                    self.wires@,
                    self.wires@.len() as int,
                );
                &&& forall|k: int|
                    0 <= k < self.inputs@.len() ==> after[(#[trigger] self.inputs@[k]).1 as int]
                        == self.values()[self.inputs@[k].1 as int]
                &&& forall|k: int|
                    0 <= k < self.luts@.len() ==> after[(#[trigger] self.luts@[k]).output_wire.unwrap() as int]
                        == self.luts@[k].output_for(self.wires@)
            }),
    {
        let ni = cfg.inputs@.len() as int;
        let no = cfg.outputs@.len() as int;
        let nl = cfg.luts@.len() as int;
        let nd = cfg.dffs@.len() as int;
        let base = 1 + ni + no + nl + nd;
        let drives = self.lut_drives() + self.bram_drives() + self.dff_drives();
        let v = self.values();
        let n = self.wires@.len() as int;
        let applied = apply_drives(v, drives);
        lemma_apply_len(v, drives);
        let a = self.lut_drives();
        let b = self.bram_drives();
        let c = self.dff_drives();
        // Every drive targets a table output, a flip-flop output or a memory's data-out.
        assert forall|j: int| 0 <= j < drives.len() && (#[trigger] drives[j]) is Some implies {
            let t = drives[j]->Some_0.0 as int;
            &&& j < a.len() ==> t == 1 + ni + no + j
            &&& j >= a.len() ==> t >= 1 + ni + no + nl
        } by {
            if j < a.len() {
                assert(drives[j] == a[j]);
                assert(self.luts@[j].output_wire == Some((1 + ni + no + j) as usize));
            } else if j < a.len() + b.len() {
                let k = j - a.len();
                assert(drives[j] == b[k]);
                assert(ports_from(self.bram_ports@[k], self.brams@[k], base + 5 * k));
                assert(self.brams@[k].data_out_wire == Some((base + 5 * k + 2) as usize));
            } else {
                let k = j - a.len() - b.len();
                assert(drives[j] == c[k]);
                assert(self.dffs@[k].output_wire == Some((1 + ni + no + nl + k) as usize));
            }
        }
        // No wire forwards into a named input or a table output.
        assert forall|t: int, i: int|
            #![trigger listed(self.wires@[i].destinations@, t)]
            1 <= t < 1 + ni + no + nl && !(1 + ni <= t < 1 + ni + no) && 0 <= i < n implies !listed(
            self.wires@[i].destinations@,
            t,
        ) by {
            if listed(self.wires@[i].destinations@, t) {
                let j = choose|j: int|
                    0 <= j < self.wires@[i].destinations@.len() && self.wires@[i].destinations@[j]
                        as int == t;
                assert(self.is_sink_wire(self.wires@[i].destinations@[j]));
                if exists|k: int| 0 <= k < self.outputs@.len() && (#[trigger] self.outputs@[k]).1 == t {
                    let k = choose|k: int| 0 <= k < self.outputs@.len() && (#[trigger] self.outputs@[k]).1 == t;
                    assert(self.outputs@[k].1 == 1 + ni + k);
                } else {
                    let k = choose|k: int|
                        0 <= k < self.bram_ports@.len() && {
                            let p = #[trigger] self.bram_ports@[k];
                            p.address == t || p.data_in == t || p.write_enable == t || p.clock == t
                        };
                    assert(ports_from(self.bram_ports@[k], self.brams@[k], base + 5 * k));
                }
            }
        }
        assert forall|k: int| 0 <= k < self.inputs@.len() implies applied[(#[trigger] self.inputs@[k]).1 as int]
            == v[self.inputs@[k].1 as int] by {
            let t = self.inputs@[k].1 as int;
            assert(t == 1 + k);
            assert(!drives_wire(drives, t)) by {
                if drives_wire(drives, t) {
                    let j = choose|j: int| 0 <= j < drives.len() && targets(#[trigger] drives[j], t);
                    assert(drives[j] is Some);
                }
            }
            lemma_apply_untouched(v, drives, t);
        }
        assert forall|k: int| 0 <= k < self.luts@.len() implies applied[(#[trigger] self.luts@[k]).output_wire.unwrap() as int]
            == self.luts@[k].output_for(self.wires@) by {
            let t = 1 + ni + no + k;
            assert(self.luts@[k].output_wire == Some(t as usize));
            assert(drives[k] == a[k]);
            let rest = drives.subrange(k + 1, drives.len() as int);
            assert(!drives_wire(rest, t)) by {
                if drives_wire(rest, t) {
                    let i = choose|i: int| 0 <= i < rest.len() && targets(#[trigger] rest[i], t);
                    assert(rest[i] == drives[k + 1 + i]);
                    assert(drives[k + 1 + i] is Some);
                }
            }
            lemma_apply_last(v, drives, t as usize, k, self.luts@[k].output_for(self.wires@));
        }
        assert forall|k: int| 0 <= k < self.inputs@.len() implies forward_from(applied, self.wires@, n)[(#[trigger] self.inputs@[k]).1 as int]
            == applied[self.inputs@[k].1 as int] by {
            let t = self.inputs@[k].1 as int;
            assert(t == 1 + k);
            assert forall|i: int| 0 <= i < n implies !listed(#[trigger] self.wires@[i].destinations@, t) by {}
            lemma_forward_untouched(applied, self.wires@, n, t);
        }
        assert forall|k: int| 0 <= k < self.luts@.len() implies forward_from(applied, self.wires@, n)[(#[trigger] self.luts@[k]).output_wire.unwrap() as int]
            == applied[self.luts@[k].output_wire.unwrap() as int] by {
            let t = 1 + ni + no + k;
            assert(self.luts@[k].output_wire == Some(t as usize));
            assert forall|i: int| 0 <= i < n implies !listed(#[trigger] self.wires@[i].destinations@, t) by {}
            lemma_forward_untouched(applied, self.wires@, n, t);
        }
    }
}

proof fn lemma_brams_reading_distinct(brams: Seq<BlockRAM>, w: usize)
    requires
        unique_ids(brams.map_values(|b: BlockRAM| b.id)),
    ensures
        forall|a: int, b: int|
            0 <= a < b < brams_reading(brams, w).len() ==> #[trigger] brams_reading(brams, w)[a]
                != #[trigger] brams_reading(brams, w)[b],
    decreases brams.len(),
{
    if brams.len() > 0 {
        let p = brams.drop_last();
        assert(unique_ids(p.map_values(|b: BlockRAM| b.id))) by {
            let ids = brams.map_values(|b: BlockRAM| b.id);
            let pids = p.map_values(|b: BlockRAM| b.id);
            assert forall|a: int, b: int| 0 <= a < b < pids.len() implies pids[a] != pids[b] by {
                assert(pids[a] == ids[a]);
                assert(pids[b] == ids[b]);
            }
        }
        lemma_brams_reading_distinct(p, w);
        let last = brams.last();
        lemma_brams_reading(p, w, last.id);
        let r = brams_reading(brams, w);
        let rp = brams_reading(p, w);
        if bram_reads(last, w) {
            assert(!rp.contains(FPGAElement::BRAM(last.id))) by {
                if rp.contains(FPGAElement::BRAM(last.id)) {
                    let k = choose|k: int| 0 <= k < p.len() && (#[trigger] p[k]).id == last.id && bram_reads(p[k], w);
                    let ids = brams.map_values(|b: BlockRAM| b.id);
                    assert(ids[k] == p[k].id);
                    assert(ids[brams.len() - 1] == last.id);
                }
            }
            assert forall|a: int, b: int| 0 <= a < b < r.len() implies #[trigger] r[a] != #[trigger] r[b] by {
                if b == r.len() - 1 {
                    assert(r[a] == rp[a]);
                    if r[a] == r[b] {
                        assert(rp.contains(FPGAElement::BRAM(last.id)));
                    }
                } else {
                    assert(r[a] == rp[a]);
                    assert(r[b] == rp[b]);
                }
            }
        }
    }
}

impl FPGAFabric {
    /// No memory is listed twice downstream of a wire.
    pub proof fn lemma_affected_bram_once(&self, w: usize, a: int, b: int)
        requires
            self.wf(),
            0 <= a < b < self.affected(w).len(),
            self.affected(w)[b] is BRAM,
        ensures
            self.affected(w)[a] != self.affected(w)[b],
    {
        let l = luts_reading(self.luts@, w);
        let d = dffs_reading(self.dffs@, w);
        let c = brams_reading(self.brams@, w);
        let o = outputs_on(self.outputs@, w);
        lemma_luts_reading_kinds(self.luts@, w);
        lemma_outputs_on_kinds(self.outputs@, w);
        lemma_dffs_reading(self.dffs@, w, 0);
        lemma_brams_reading(self.brams@, w, 0);
        lemma_brams_reading_distinct(self.brams@, w);
        let all = self.affected(w);
        assert(all == l + d + c + o);
        let x = all[b];
        if b < l.len() {
            assert(all[b] == l[b]);
        } else if b < l.len() + d.len() {
            assert(all[b] == d[b - l.len()]);
        } else if b >= l.len() + d.len() + c.len() {
            assert(all[b] == o[b - l.len() - d.len() - c.len()]);
        } else {
            assert(all[b] == c[b - l.len() - d.len()]);
            if a >= l.len() + d.len() {
                assert(all[a] == c[a - l.len() - d.len()]);
            } else if a >= l.len() {
                assert(all[a] == d[a - l.len()]);
            } else {
                assert(all[a] == l[a]);
            }
        }
    }
}

} // verus!
