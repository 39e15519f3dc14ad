use fpga_emulator::{BlockRAM, FabricError, Wire};

fn setup_bram_and_wires() -> (BlockRAM, Vec<Wire>) {
    let mut bram = BlockRAM::new(0, 1024, 32).unwrap();
    let mut wires = Vec::new();
    for i in 0..5 {
        wires.push(Wire::new(i));
    }
    bram.connect_wire("address", 0).unwrap();
    bram.connect_wire("data_in", 1).unwrap();
    bram.connect_wire("data_out", 2).unwrap();
    bram.connect_wire("write_enable", 3).unwrap();
    bram.connect_wire("clock", 4).unwrap();
    (bram, wires)
}

#[test]
fn test_bram_write_and_read() {
    let (mut bram, mut wires) = setup_bram_and_wires();

    wires[0].value = 42;
    wires[1].value = 0xDEADBEEF;
    wires[3].value = 1;

    wires[4].value = 0;
    bram.evaluate(&mut wires);
    wires[4].value = 1;
    bram.evaluate(&mut wires);

    assert_eq!(bram.get_memory()[42], 0xDEADBEEF);

    wires[3].value = 0;

    wires[4].value = 0;
    bram.evaluate(&mut wires);
    wires[4].value = 1;
    bram.evaluate(&mut wires);

    assert_eq!(wires[2].value, 0xDEADBEEF);
}

#[test]
fn test_bram_width_limitation() {
    let (mut bram, mut wires) = setup_bram_and_wires();

    wires[0].value = 0;
    wires[1].value = 0xFFFFFFFFFFFFFFFF;
    wires[3].value = 1;

    wires[4].value = 0;
    bram.evaluate(&mut wires);
    wires[4].value = 1;
    bram.evaluate(&mut wires);

    assert_eq!(bram.get_memory()[0], 0xFFFFFFFF);
}

#[test]
fn bram_masks_on_write_and_read() {
    let (mut bram, mut wires) = setup_bram_and_wires();
    wires[0].value = 0;
    wires[1].value = 0xFFFFFFFFFFFFFFFF;
    wires[3].value = 1;
    bram.evaluate(&mut wires);
    wires[4].value = 1;
    bram.evaluate(&mut wires);
    // Read back on a later edge with write-enable cleared.
    wires[3].value = 0;
    wires[1].value = 0;
    wires[4].value = 0;
    bram.evaluate(&mut wires);
    wires[4].value = 1;
    bram.evaluate(&mut wires);
    assert_eq!(wires[2].value, 0xFFFFFFFF);
    assert_eq!(bram.read(0), 0xFFFFFFFF);
}

#[test]
fn bram_round_trip_at_address_42() {
    let (mut bram, mut wires) = setup_bram_and_wires();
    wires[0].value = 42;
    wires[1].value = 0xDEADBEEF;
    wires[3].value = 1;
    bram.evaluate(&mut wires);
    wires[4].value = 1;
    bram.evaluate(&mut wires);
    // Write-first: the same edge reads back what it wrote.
    assert_eq!(wires[2].value, 0xDEADBEEF);
    wires[3].value = 0;
    wires[1].value = 7;
    wires[2].value = 0;
    wires[4].value = 0;
    bram.evaluate(&mut wires);
    assert_eq!(wires[2].value, 0);
    wires[4].value = 1;
    bram.evaluate(&mut wires);
    assert_eq!(wires[2].value, 0xDEADBEEF);
    assert_eq!(bram.get_memory()[42], 0xDEADBEEF);
}

#[test]
fn bram_address_wraps_modulo_capacity() {
    let (mut bram, mut wires) = setup_bram_and_wires();
    wires[0].value = 1024 + 5;
    wires[1].value = 77;
    wires[3].value = 1;
    bram.evaluate(&mut wires);
    wires[4].value = 1;
    bram.evaluate(&mut wires);
    assert_eq!(bram.get_memory()[5], 77);
}

#[test]
fn bram_does_nothing_without_an_edge() {
    let (mut bram, mut wires) = setup_bram_and_wires();
    wires[1].value = 5;
    wires[3].value = 1;
    wires[4].value = 1;
    // The first evaluation only samples the clock.
    bram.evaluate(&mut wires);
    bram.evaluate(&mut wires);
    assert_eq!(bram.get_memory()[0], 0);
    assert_eq!(wires[2].value, 0);
}

#[test]
fn bram_width_64_keeps_every_bit() {
    let mut bram = BlockRAM::new(1, 4, 64).unwrap();
    bram.write(3, 0xFFFF_FFFF_FFFF_FFFF);
    assert_eq!(bram.read(3), 0xFFFF_FFFF_FFFF_FFFF);
    let mut narrow = BlockRAM::new(2, 4, 1).unwrap();
    narrow.write(0, 6);
    assert_eq!(narrow.read(0), 0);
    narrow.write(0, 7);
    assert_eq!(narrow.read(0), 1);
}

#[test]
fn bram_construction_errors() {
    assert_eq!(BlockRAM::new(0, 16, 65).unwrap_err(), FabricError::InvalidWidth(65));
    assert_eq!(BlockRAM::new(0, 16, 0).unwrap_err(), FabricError::InvalidWidth(0));
    let mut bram = BlockRAM::new(3, 16, 8).unwrap();
    assert_eq!(bram.connect_wire("enable", 0), Err(FabricError::InvalidBramPort(3)));
}

#[test]
fn empty_memory_stores_nothing_and_drives_zero() {
    let mut bram = BlockRAM::new(9, 0, 8).unwrap();
    let mut wires: Vec<Wire> = (0..5).map(Wire::new).collect();
    bram.connect_wire("address", 0).unwrap();
    bram.connect_wire("data_in", 1).unwrap();
    bram.connect_wire("data_out", 2).unwrap();
    bram.connect_wire("write_enable", 3).unwrap();
    bram.connect_wire("clock", 4).unwrap();
    wires[0].value = 3;
    wires[1].value = 0xAB;
    wires[2].value = 7;
    wires[3].value = 1;
    bram.evaluate(&mut wires);
    wires[4].value = 1;
    bram.evaluate(&mut wires);
    assert!(bram.get_memory().is_empty());
    assert_eq!(wires[2].value, 0);
}
