use fpga_emulator::{
    BRAMConfig, ConnectionConfig, DFFConfig, ElementPort, FPGAConfig, FPGAElement, FPGAFabric,
    FabricError, LUTConfig,
};
use fpga_emulator::config::{validate_config, validate_port};
use std::collections::HashMap;

fn alternating() -> [bool; 16] {
    [
        false, true, false, true, false, true, false, true, false, true, false, true, false, true,
        false, true,
    ]
}

fn input(name: &str) -> ElementPort {
    ElementPort::Input { name: name.to_string() }
}

fn output(name: &str) -> ElementPort {
    ElementPort::Output { name: name.to_string() }
}

fn conn(from: ElementPort, to: ElementPort) -> ConnectionConfig {
    ConnectionConfig { from, to }
}

fn empty_config() -> FPGAConfig {
    FPGAConfig {
        luts: vec![],
        dffs: vec![],
        brams: vec![],
        connections: vec![],
        inputs: vec![],
        outputs: vec![],
    }
}

#[test]
fn test_fabric_creation_and_evaluation() {
    let config = FPGAConfig {
        luts: vec![LUTConfig { id: 0, truth_table: alternating() }],
        dffs: vec![],
        brams: vec![],
        connections: vec![
            conn(input("in1"), ElementPort::LUT { id: 0, port: 0 }),
            conn(input("in2"), ElementPort::LUT { id: 0, port: 1 }),
            conn(ElementPort::LUT { id: 0, port: 0 }, output("out1")),
        ],
        inputs: vec!["in1".to_string(), "in2".to_string()],
        outputs: vec!["out1".to_string()],
    };

    let mut fabric = FPGAFabric::from_config(config).unwrap();

    fabric.set_input("in1", 1).unwrap();
    fabric.set_input("in2", 0).unwrap();

    fabric.evaluate();

    let output = fabric.get_output("out1").unwrap();
    assert_eq!(output, 1);
}

#[test]
fn fabric_unknown_names_are_recoverable() {
    let mut config = empty_config();
    config.inputs = vec!["a".to_string()];
    config.outputs = vec!["y".to_string()];
    let mut fabric = FPGAFabric::from_config(config).unwrap();
    assert_eq!(fabric.set_input("b", 1), Err(FabricError::UnknownInput));
    assert_eq!(fabric.get_output("z"), Err(FabricError::UnknownOutput));
    assert_eq!(fabric.get_input_wire_index("b"), None);
    assert_eq!(fabric.get_output("y"), Ok(0));
    assert_eq!(fabric.get_output_names(), vec!["y".to_string()]);
    assert_eq!(fabric.get_all_inputs(), vec!["a".to_string()]);
}

#[test]
fn fabric_wire_layout_and_queries() {
    let config = FPGAConfig {
        luts: vec![LUTConfig { id: 4, truth_table: alternating() }],
        dffs: vec![DFFConfig { id: 8 }],
        brams: vec![BRAMConfig { id: 2, size: 16, width: 8, connections: HashMap::new() }],
        connections: vec![
            conn(input("a"), ElementPort::LUT { id: 4, port: 0 }),
            conn(ElementPort::LUT { id: 4, port: 0 }, ElementPort::DFF { id: 8, port: "D".to_string() }),
        ],
        inputs: vec!["a".to_string()],
        outputs: vec!["y".to_string()],
    };
    let mut fabric = FPGAFabric::from_config(config).unwrap();
    // Wire 0 is the periodic clock, then inputs, outputs, table and
    // flip-flop outputs, then five wires per memory.
    assert_eq!(fabric.get_input_wire_index("a"), Some(1));
    assert_eq!(fabric.get_lut_output_wire(4), 3);
    assert_eq!(fabric.get_lut_output_wire(99), 0);
    assert_eq!(fabric.get_dff_output_wire(8), Some(4));
    assert_eq!(fabric.get_bram_wires(2), Some((5, 6, 7)));
    assert_eq!(fabric.get_bram_output_wire(2), Some(7));
    assert_eq!(fabric.get_bram_wires(3), None);
    assert_eq!(fabric.get_all_dffs().len(), 1);

    let affected = fabric.get_affected_elements(Some(1));
    assert_eq!(affected.len(), 1);
    assert!(matches!(affected[0], FPGAElement::LUT(4)));
    let affected = fabric.get_affected_elements(Some(3));
    assert_eq!(affected.len(), 1);
    assert!(matches!(affected[0], FPGAElement::DFF(8)));
    // The free clock of the flip-flop and of the memory is the periodic one.
    let affected = fabric.get_affected_elements(Some(0));
    assert_eq!(affected.len(), 2);
    assert!(matches!(affected[0], FPGAElement::DFF(8)));
    assert!(matches!(affected[1], FPGAElement::BRAM(2)));
    let affected = fabric.get_affected_elements(Some(2));
    assert!(matches!(&affected[0], FPGAElement::Output(name) if name == "y"));
    assert!(fabric.get_affected_elements(None).is_empty());

    fabric.set_input("a", 1).unwrap();
    assert_eq!(fabric.evaluate_lut(4), Some(1));
    assert_eq!(fabric.evaluate_lut(5), None);

    fabric.write_bram(2, 16 + 3, 0x1FF);
    assert_eq!(fabric.read_bram(2, 3), 0xFF);
    assert_eq!(fabric.read_bram(2, 19), 0xFF);
    assert_eq!(fabric.read_bram(9, 3), 0);

    fabric.set_wire_value(4, 1);
    assert_eq!(fabric.get_wire_value(4), 1);
    assert_eq!(fabric.get_dff_output(8), Some(1));
    assert_eq!(fabric.get_wire_value(1000), 0);
}

#[test]
fn fabric_evaluate_dff_latches_on_periodic_clock() {
    let config = FPGAConfig {
        luts: vec![],
        dffs: vec![DFFConfig { id: 0 }],
        brams: vec![],
        connections: vec![
            conn(input("d"), ElementPort::DFF { id: 0, port: "D".to_string() }),
            conn(ElementPort::DFF { id: 0, port: "Q".to_string() }, output("q")),
        ],
        inputs: vec!["d".to_string()],
        outputs: vec!["q".to_string()],
    };
    let mut fabric = FPGAFabric::from_config(config).unwrap();
    fabric.set_input("d", 1).unwrap();
    fabric.evaluate_dff();
    assert_eq!(fabric.get_dff_output(0), Some(0));
    fabric.set_wire_value(0, 1);
    fabric.evaluate_dff();
    assert_eq!(fabric.get_dff_output(0), Some(1));
    fabric.evaluate();
    assert_eq!(fabric.get_output("q"), Ok(1));
}

#[test]
fn fabric_full_pass_reads_one_snapshot() {
    // Two flip-flops in a chain on the periodic clock: one edge moves the
    // input one stage only.
    let config = FPGAConfig {
        luts: vec![],
        dffs: vec![DFFConfig { id: 0 }, DFFConfig { id: 1 }],
        brams: vec![],
        connections: vec![
            conn(input("d"), ElementPort::DFF { id: 0, port: "D".to_string() }),
            conn(
                ElementPort::DFF { id: 0, port: "Q".to_string() },
                ElementPort::DFF { id: 1, port: "D".to_string() },
            ),
        ],
        inputs: vec!["d".to_string()],
        outputs: vec![],
    };
    let mut fabric = FPGAFabric::from_config(config).unwrap();
    fabric.set_input("d", 1).unwrap();
    fabric.evaluate();
    fabric.set_wire_value(0, 1);
    fabric.evaluate();
    assert_eq!(fabric.get_dff_output(0), Some(1));
    assert_eq!(fabric.get_dff_output(1), Some(0));
}

#[test]
fn fabric_memory_on_periodic_clock() {
    let config = FPGAConfig {
        luts: vec![],
        dffs: vec![],
        brams: vec![BRAMConfig { id: 0, size: 8, width: 4, connections: HashMap::new() }],
        connections: vec![
            conn(input("addr"), ElementPort::BRAM { id: 0, port: "address".to_string() }),
            conn(input("din"), ElementPort::BRAM { id: 0, port: "data_in".to_string() }),
            conn(input("we"), ElementPort::BRAM { id: 0, port: "write_enable".to_string() }),
            conn(ElementPort::BRAM { id: 0, port: "data_out".to_string() }, output("dout")),
        ],
        inputs: vec!["addr".to_string(), "din".to_string(), "we".to_string()],
        outputs: vec!["dout".to_string()],
    };
    let mut fabric = FPGAFabric::from_config(config).unwrap();
    fabric.set_input("addr", 3).unwrap();
    fabric.set_input("din", 0x3A).unwrap();
    fabric.set_input("we", 1).unwrap();
    // Inputs reach the port wires on a first pass.
    fabric.evaluate();
    fabric.set_wire_value(0, 1);
    fabric.evaluate();
    assert_eq!(fabric.read_bram(0, 3), 0xA);
    fabric.evaluate();
    assert_eq!(fabric.get_output("dout"), Ok(0xA));
}

#[test]
fn fabric_construction_errors() {
    let mut config = empty_config();
    config.luts = vec![LUTConfig { id: 1, truth_table: [false; 16] }, LUTConfig { id: 1, truth_table: [true; 16] }];
    assert_eq!(FPGAFabric::from_config(config).unwrap_err(), FabricError::DuplicateLutId);

    let mut config = empty_config();
    config.inputs = vec!["a".to_string(), "a".to_string()];
    assert_eq!(FPGAFabric::from_config(config).unwrap_err(), FabricError::DuplicateInput);

    let mut config = empty_config();
    config.connections = vec![conn(input("nope"), output("y"))];
    config.outputs = vec!["y".to_string()];
    assert_eq!(FPGAFabric::from_config(config).unwrap_err(), FabricError::UnknownInput);

    let mut config = empty_config();
    config.luts = vec![LUTConfig { id: 0, truth_table: [false; 16] }];
    config.inputs = vec!["a".to_string()];
    config.connections = vec![conn(input("a"), ElementPort::LUT { id: 0, port: 4 })];
    assert_eq!(FPGAFabric::from_config(config).unwrap_err(), FabricError::InvalidLutPort(0));

    let mut config = empty_config();
    config.dffs = vec![DFFConfig { id: 2 }];
    config.inputs = vec!["a".to_string()];
    config.connections = vec![conn(input("a"), ElementPort::DFF { id: 2, port: "Q".to_string() })];
    assert_eq!(FPGAFabric::from_config(config).unwrap_err(), FabricError::InvalidDffPort(2));

    let mut config = empty_config();
    config.dffs = vec![DFFConfig { id: 2 }];
    config.inputs = vec!["a".to_string()];
    config.connections = vec![conn(input("a"), ElementPort::DFF { id: 2, port: "X".to_string() })];
    assert_eq!(FPGAFabric::from_config(config).unwrap_err(), FabricError::InvalidDffPort(2));

    let mut config = empty_config();
    config.inputs = vec!["a".to_string()];
    config.connections = vec![conn(input("a"), input("a"))];
    assert_eq!(FPGAFabric::from_config(config).unwrap_err(), FabricError::DrivenInput);

    let mut config = empty_config();
    config.brams = vec![BRAMConfig { id: 0, size: 4, width: 65, connections: HashMap::new() }];
    assert_eq!(FPGAFabric::from_config(config).unwrap_err(), FabricError::InvalidWidth(65));

    let mut config = empty_config();
    config.brams = vec![BRAMConfig { id: 0, size: 4, width: 8, connections: HashMap::new() }];
    config.inputs = vec!["a".to_string()];
    config.connections = vec![conn(input("a"), ElementPort::BRAM { id: 0, port: "data_out".to_string() })];
    assert_eq!(FPGAFabric::from_config(config).unwrap_err(), FabricError::InvalidBramPort(0));

    let mut config = empty_config();
    config.inputs = vec!["a".to_string()];
    config.connections = vec![conn(input("a"), ElementPort::BRAM { id: 5, port: "clock".to_string() })];
    assert_eq!(FPGAFabric::from_config(config).unwrap_err(), FabricError::UnknownBram(5));
}

#[test]
fn validation_reports_the_first_fault() {
    let mut config = empty_config();
    config.luts = vec![LUTConfig { id: 0, truth_table: [false; 16] }];
    config.dffs = vec![DFFConfig { id: 1 }, DFFConfig { id: 1 }];
    config.inputs = vec!["a".to_string(), "a".to_string()];
    assert_eq!(validate_config(&config), Err(FabricError::DuplicateDffId));
    config.dffs = vec![DFFConfig { id: 1 }];
    config.connections = vec![conn(input("a"), ElementPort::BRAM { id: 0, port: "clock".to_string() })];
    assert_eq!(validate_config(&config), Err(FabricError::UnknownBram(0)));
    config.connections = vec![conn(input("a"), ElementPort::DFF { id: 1, port: "CLK".to_string() })];
    assert_eq!(validate_config(&config), Err(FabricError::DuplicateInput));
    config.inputs = vec!["a".to_string()];
    config.outputs = vec!["y".to_string(), "y".to_string()];
    assert_eq!(validate_config(&config), Err(FabricError::DuplicateOutput));
    config.outputs = vec!["y".to_string()];
    assert_eq!(validate_config(&config), Ok(()));
    assert_eq!(validate_port(&output("z"), &config), Err(FabricError::UnknownOutput));
    assert_eq!(validate_port(&ElementPort::LUT { id: 3, port: 0 }, &config), Err(FabricError::UnknownLut(3)));
    assert_eq!(validate_port(&ElementPort::DFF { id: 2, port: "D".to_string() }, &config), Err(FabricError::UnknownDff(2)));
    assert_eq!(validate_port(&ElementPort::LUT { id: 0, port: 3 }, &config), Ok(()));
}

#[test]
fn duplicate_memory_ids_are_refused() {
    let mut config = empty_config();
    config.brams = vec![
        BRAMConfig { id: 4, size: 4, width: 8, connections: HashMap::new() },
        BRAMConfig { id: 4, size: 8, width: 8, connections: HashMap::new() },
    ];
    assert_eq!(FPGAFabric::from_config(config).unwrap_err(), FabricError::DuplicateBramId);
}

#[test]
fn fabric_accepts_an_empty_memory() {
    let mut config = empty_config();
    config.brams = vec![BRAMConfig { id: 0, size: 0, width: 8, connections: HashMap::new() }];
    let mut fabric = FPGAFabric::from_config(config).unwrap();
    fabric.write_bram(0, 5, 1);
    assert_eq!(fabric.read_bram(0, 5), 0);
}
