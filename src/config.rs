use vstd::prelude::*;
use std::collections::HashMap;
use crate::bram::{bram_port_named, parse_bram_port};
use crate::error::FabricError;
use crate::text::same_text;

verus! {

/// A netlist: the primitives, the connections between their ports, and the
/// named inputs and outputs.
#[derive(Clone, Debug)]
pub struct FPGAConfig {
    pub luts: Vec<LUTConfig>,
    pub dffs: Vec<DFFConfig>,
    pub brams: Vec<BRAMConfig>,
    pub connections: Vec<ConnectionConfig>,
    pub inputs: Vec<String>,
    pub outputs: Vec<String>,
}

#[derive(Clone, Debug)]
pub struct LUTConfig {
    pub id: usize,
    pub truth_table: [bool; 16],
}

#[derive(Clone, Debug)]
pub struct DFFConfig {
    pub id: usize,
}

#[derive(Clone, Debug)]
pub struct BRAMConfig {
    pub id: usize,
    pub size: usize,
    pub width: usize,
    pub connections: HashMap<String, ElementPort>,
}

#[derive(Clone, Debug)]
pub struct ConnectionConfig {
    pub from: ElementPort,
    pub to: ElementPort,
}

/// One end of a connection.
#[derive(Clone, Debug, PartialEq, Eq, Hash)]
pub enum ElementPort {
    Input { name: String },
    Output { name: String },
    LUT { id: usize, port: usize },
    DFF { id: usize, port: String },
    BRAM { id: usize, port: String },
}

/// A primitive or output downstream of a wire, by id or name.
#[derive(Clone, Debug)]
pub enum FPGAElement {
    LUT(usize),
    DFF(usize),
    BRAM(usize),
    Output(String),
}

pub open spec fn unique_ids(ids: Seq<usize>) -> bool {
    forall|i: int, j: int| 0 <= i < j < ids.len() ==> ids[i] != ids[j]
}

pub open spec fn unique_names(names: Seq<String>) -> bool {
    forall|i: int, j: int| 0 <= i < j < names.len() ==> names[i]@ != names[j]@
}

pub open spec fn has_name(names: Seq<String>, name: Seq<char>) -> bool {
    exists|i: int| 0 <= i < names.len() && names[i]@ == name
}

pub open spec fn lut_ids(cfg: FPGAConfig) -> Seq<usize> {
    cfg.luts@.map_values(|l: LUTConfig| l.id)
}

pub open spec fn dff_ids(cfg: FPGAConfig) -> Seq<usize> {
    cfg.dffs@.map_values(|d: DFFConfig| d.id)
}

pub open spec fn bram_ids(cfg: FPGAConfig) -> Seq<usize> {
    cfg.brams@.map_values(|b: BRAMConfig| b.id)
}

pub open spec fn is_dff_port(name: Seq<char>) -> bool {
    name == "D"@ || name == "Q"@ || name == "CLK"@
}

/// What is wrong with a port reference, if anything.
pub open spec fn port_error(p: ElementPort, cfg: FPGAConfig) -> Option<FabricError> {
    match p {
        ElementPort::Input { name } => if has_name(cfg.inputs@, name@) {
            None
        } else {
            Some(FabricError::UnknownInput)
        },
        ElementPort::Output { name } => if has_name(cfg.outputs@, name@) {
            None
        } else {
            Some(FabricError::UnknownOutput)
        },
        ElementPort::LUT { id, port } => if !lut_ids(cfg).contains(id) {
            Some(FabricError::UnknownLut(id))
        } else if port >= 4 {
            Some(FabricError::InvalidLutPort(id))
        } else {
            None
        },
        ElementPort::DFF { id, port } => if !dff_ids(cfg).contains(id) {
            Some(FabricError::UnknownDff(id))
        } else if !is_dff_port(port@) {
            Some(FabricError::InvalidDffPort(id))
        } else {
            None
        },
        ElementPort::BRAM { id, port } => if !bram_ids(cfg).contains(id) {
            Some(FabricError::UnknownBram(id))
        } else if bram_port_named(port@) is None {
            Some(FabricError::InvalidBramPort(id))
        } else {
            None
        },
    }
}

/// The first fault among the connections, each checked source first.
pub open spec fn connections_error(conns: Seq<ConnectionConfig>, cfg: FPGAConfig) -> Option<
    FabricError,
>
    decreases conns.len(),
{
    if conns.len() == 0 {
        None
    } else {
        match connections_error(conns.drop_last(), cfg) {
            Some(e) => Some(e),
            None => match port_error(conns.last().from, cfg) {
                Some(e) => Some(e),
                None => port_error(conns.last().to, cfg),
            },
        }
    }
}

/// The first fault of a netlist: duplicate ids, then bad port references,
/// then duplicate input and output names.
pub open spec fn config_error(cfg: FPGAConfig) -> Option<FabricError> {
    if !unique_ids(lut_ids(cfg)) {
        Some(FabricError::DuplicateLutId)
    } else if !unique_ids(dff_ids(cfg)) {
        Some(FabricError::DuplicateDffId)
    } else if !unique_ids(bram_ids(cfg)) {
        Some(FabricError::DuplicateBramId)
    } else if connections_error(cfg.connections@, cfg) is Some {
        connections_error(cfg.connections@, cfg)
    } else if !unique_names(cfg.inputs@) {
        Some(FabricError::DuplicateInput)
    } else if !unique_names(cfg.outputs@) {
        Some(FabricError::DuplicateOutput)
    } else {
        None
    }
}

/// A fault among the first `k` connections is the first fault of all of them.
proof fn lemma_connections_error_prefix(conns: Seq<ConnectionConfig>, cfg: FPGAConfig, k: int)
    requires
        0 <= k <= conns.len(),
        connections_error(conns.take(k), cfg) is Some,
    ensures
        connections_error(conns, cfg) == connections_error(conns.take(k), cfg),
    decreases conns.len() - k,
{
    if k < conns.len() {
        assert(conns.take(k + 1).drop_last() == conns.take(k));
        lemma_connections_error_prefix(conns, cfg, k + 1);
    } else {
        assert(conns.take(k) == conns);
    }
}

fn all_distinct(ids: &Vec<usize>) -> (r: bool)
    ensures
        r == unique_ids(ids@),
{
    let n = ids.len();
    let mut i: usize = 0;
    while i < n
        invariant
            n == ids@.len(),
            i <= n,
            forall|a: int, b: int| 0 <= a < b < n && a < i ==> ids@[a] != ids@[b],
        decreases n - i,
    {
        let mut j: usize = i + 1;
        while j < n
            invariant
                n == ids@.len(),
                i < n,
                i < j <= n,
                forall|a: int, b: int| 0 <= a < b < n && a < i ==> ids@[a] != ids@[b],
                forall|b: int| i < b < j ==> ids@[i as int] != ids@[b],
            decreases n - j,
        {
            if ids[i] == ids[j] {
                return false;
            }
            j = j + 1;
        }
        i = i + 1;
    }
    true
}

fn all_distinct_names(names: &Vec<String>) -> (r: bool)
    ensures
        r == unique_names(names@),
{
    let n = names.len();
    let mut i: usize = 0;
    while i < n
        invariant
            n == names@.len(),
            i <= n,
            forall|a: int, b: int| 0 <= a < b < n && a < i ==> names@[a]@ != names@[b]@,
        decreases n - i,
    {
        let mut j: usize = i + 1;
        while j < n
            invariant
                n == names@.len(),
                i < n,
                i < j <= n,
                forall|a: int, b: int| 0 <= a < b < n && a < i ==> names@[a]@ != names@[b]@,
                forall|b: int| i < b < j ==> names@[i as int]@ != names@[b]@,
            decreases n - j,
        {
            if names[i] == names[j] {
                return false;
            }
            j = j + 1;
        }
        i = i + 1;
    }
    true
}

fn contains_name(names: &Vec<String>, name: &str) -> (r: bool)
    ensures
        r == has_name(names@, name@),
{
    let mut i: usize = 0;
    while i < names.len()
        invariant
            i <= names@.len(),
            forall|j: int| 0 <= j < i ==> names@[j]@ != name@,
        decreases names@.len() - i,
    {
        if same_text(names[i].as_str(), name) {
            return true;
        }
        i = i + 1;
    }
    false
}

fn lut_id_list(cfg: &FPGAConfig) -> (r: Vec<usize>)
    ensures
        r@ == lut_ids(*cfg),
{
    let mut r: Vec<usize> = Vec::new();
    let mut i: usize = 0;
    while i < cfg.luts.len()
        invariant
            i <= cfg.luts@.len(),
            r@ == cfg.luts@.take(i as int).map_values(|l: LUTConfig| l.id),
        decreases cfg.luts@.len() - i,
    {
        r.push(cfg.luts[i].id);
        proof {
            assert(cfg.luts@.take(i + 1) == cfg.luts@.take(i as int).push(cfg.luts@[i as int]));
        }
        i = i + 1;
    }
    assert(cfg.luts@.take(i as int) == cfg.luts@);
    r
}

fn dff_id_list(cfg: &FPGAConfig) -> (r: Vec<usize>)
    ensures
        r@ == dff_ids(*cfg),
{
    let mut r: Vec<usize> = Vec::new();
    let mut i: usize = 0;
    while i < cfg.dffs.len()
        invariant
            i <= cfg.dffs@.len(),
            r@ == cfg.dffs@.take(i as int).map_values(|d: DFFConfig| d.id),
        decreases cfg.dffs@.len() - i,
    {
        r.push(cfg.dffs[i].id);
        proof {
            assert(cfg.dffs@.take(i + 1) == cfg.dffs@.take(i as int).push(cfg.dffs@[i as int]));
        }
        i = i + 1;
    }
    assert(cfg.dffs@.take(i as int) == cfg.dffs@);
    r
}

fn bram_id_list(cfg: &FPGAConfig) -> (r: Vec<usize>)
    ensures
        r@ == bram_ids(*cfg),
{
    let mut r: Vec<usize> = Vec::new();
    let mut i: usize = 0;
    while i < cfg.brams.len()
        invariant
            i <= cfg.brams@.len(),
            r@ == cfg.brams@.take(i as int).map_values(|b: BRAMConfig| b.id),
        decreases cfg.brams@.len() - i,
    {
        r.push(cfg.brams[i].id);
        proof {
            assert(cfg.brams@.take(i + 1) == cfg.brams@.take(i as int).push(
                cfg.brams@[i as int],
            ));
        }
        i = i + 1;
    }
    assert(cfg.brams@.take(i as int) == cfg.brams@);
    r
}

fn contains_id(ids: &Vec<usize>, id: usize) -> (r: bool)
    ensures
        r == ids@.contains(id),
{
    let mut i: usize = 0;
    while i < ids.len()
        invariant
            i <= ids@.len(),
            forall|j: int| 0 <= j < i ==> ids@[j] != id,
        decreases ids@.len() - i,
    {
        if ids[i] == id {
            return true;
        }
        i = i + 1;
    }
    false
}

pub fn is_dff_port_name(name: &str) -> (r: bool)
    ensures
        r == is_dff_port(name@),
{
    same_text(name, "D") || same_text(name, "Q") || same_text(name, "CLK")
}

/// Checks that a port reference names an existing input, output or
/// primitive, and a port that the primitive has.
pub fn validate_port(port: &ElementPort, config: &FPGAConfig) -> (r: Result<(), FabricError>)
    ensures
        r == match port_error(*port, *config) {
            Some(e) => Err::<(), FabricError>(e),
            None => Ok(()),
        },
{
    match port {
        ElementPort::Input { name } => {
            if !contains_name(&config.inputs, name.as_str()) {
                return Err(FabricError::UnknownInput);
            }
        },
        ElementPort::Output { name } => {
            if !contains_name(&config.outputs, name.as_str()) {
                return Err(FabricError::UnknownOutput);
            }
        },
        ElementPort::LUT { id, port } => {
            if !contains_id(&lut_id_list(config), *id) {
                return Err(FabricError::UnknownLut(*id));
            }
            if *port >= 4 {
                return Err(FabricError::InvalidLutPort(*id));
            }
        },
        ElementPort::DFF { id, port } => {
            if !contains_id(&dff_id_list(config), *id) {
                return Err(FabricError::UnknownDff(*id));
            }
            if !is_dff_port_name(port.as_str()) {
                return Err(FabricError::InvalidDffPort(*id));
            }
        },
        ElementPort::BRAM { id, port } => {
            if !contains_id(&bram_id_list(config), *id) {
                return Err(FabricError::UnknownBram(*id));
            }
            if parse_bram_port(port.as_str()).is_none() {
                return Err(FabricError::InvalidBramPort(*id));
            }
        },
    }
    Ok(())
}

/// Checks a netlist before a fabric is built from it: unique ids per
/// primitive kind, connections that refer to existing ports, and unique
/// input and output names. The first fault found is returned.
pub fn validate_config(config: &FPGAConfig) -> (r: Result<(), FabricError>)
    ensures
        r == match config_error(*config) {
            Some(e) => Err::<(), FabricError>(e),
            None => Ok(()),
        },
{
    if !all_distinct(&lut_id_list(config)) {
        return Err(FabricError::DuplicateLutId);
    }
    if !all_distinct(&dff_id_list(config)) {
        return Err(FabricError::DuplicateDffId);
    }
    if !all_distinct(&bram_id_list(config)) {
        return Err(FabricError::DuplicateBramId);
    }
    let mut i: usize = 0;
    while i < config.connections.len()
        invariant
            i <= config.connections@.len(),
            connections_error(config.connections@.take(i as int), *config) is None,
            unique_ids(lut_ids(*config)),
            unique_ids(dff_ids(*config)),
            unique_ids(bram_ids(*config)),
        decreases config.connections@.len() - i,
    {
        proof {
            assert(config.connections@.take(i + 1).drop_last() == config.connections@.take(
                i as int,
            ));
        }
        let conn = &config.connections[i];
        let checked = match validate_port(&conn.from, config) {
            Ok(()) => validate_port(&conn.to, config),
            Err(e) => Err(e),
        };
        if let Err(e) = checked {
            proof {
                let t = config.connections@.take(i + 1);
                assert(t.last() == config.connections@[i as int]);
                assert(connections_error(t, *config) == Some(e));
                lemma_connections_error_prefix(config.connections@, *config, i + 1);
            }
            return Err(e);
        }
        i = i + 1;
    }
    assert(config.connections@.take(i as int) == config.connections@);
    if !all_distinct_names(&config.inputs) {
        return Err(FabricError::DuplicateInput);
    }
    if !all_distinct_names(&config.outputs) {
        return Err(FabricError::DuplicateOutput);
    }
    Ok(())
}

} // verus!
