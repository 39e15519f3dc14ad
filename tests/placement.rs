use fpga_emulator::{place_elements, BRAMConfig, DFFConfig, FPGAConfig, FabricError, LUTConfig};
use std::collections::HashMap;

#[test]
fn test_simple_placement() {
    let config = FPGAConfig {
        luts: vec![LUTConfig { id: 0, truth_table: [false; 16] }],
        dffs: vec![DFFConfig { id: 0 }],
        brams: vec![BRAMConfig { id: 0, size: 1024, width: 8, connections: HashMap::new() }],
        connections: vec![],
        inputs: vec![],
        outputs: vec![],
    };

    let placement = place_elements(&config, 2, 2).unwrap();

    assert_eq!(placement.lut_positions.len(), 1);
    assert_eq!(placement.dff_positions.len(), 1);
    assert_eq!(placement.bram_positions.len(), 1);

    assert!(placement.lut_positions.contains_key(&0));
    assert!(placement.dff_positions.contains_key(&0));
    assert!(placement.bram_positions.contains_key(&0));
}

#[test]
fn placement_is_first_fit_row_major() {
    let config = FPGAConfig {
        luts: vec![LUTConfig { id: 7, truth_table: [false; 16] }, LUTConfig { id: 3, truth_table: [false; 16] }],
        dffs: vec![DFFConfig { id: 1 }],
        brams: vec![BRAMConfig { id: 9, size: 4, width: 8, connections: HashMap::new() }],
        connections: vec![],
        inputs: vec![],
        outputs: vec![],
    };
    let placement = place_elements(&config, 3, 2).unwrap();
    assert_eq!(placement.lut_positions[&7], (0, 0));
    assert_eq!(placement.lut_positions[&3], (1, 0));
    assert_eq!(placement.dff_positions[&1], (2, 0));
    assert_eq!(placement.bram_positions[&9], (0, 1));
}

#[test]
fn placement_reports_a_full_grid() {
    let config = FPGAConfig {
        luts: vec![LUTConfig { id: 0, truth_table: [false; 16] }, LUTConfig { id: 1, truth_table: [false; 16] }],
        dffs: vec![],
        brams: vec![],
        connections: vec![],
        inputs: vec![],
        outputs: vec![],
    };
    assert_eq!(place_elements(&config, 1, 1).unwrap_err(), FabricError::GridFull);
    assert!(place_elements(&config, 2, 1).is_ok());
    assert_eq!(place_elements(&config, 0, 5).unwrap_err(), FabricError::GridFull);
}
