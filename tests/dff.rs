use fpga_emulator::{Wire, DFF};

fn setup_dff_and_wires() -> (DFF, Vec<Wire>) {
    let mut dff = DFF::new(0);
    let mut wires = Vec::new();
    for i in 0..3 {
        wires.push(Wire::new(i));
    }
    dff.connect_input(0);
    dff.connect_clock(1);
    dff.connect_output(2);
    (dff, wires)
}

#[test]
fn test_dff_rising_edge_trigger() {
    let (mut dff, mut wires) = setup_dff_and_wires();

    wires[0].set_value(1);
    wires[1].set_value(0);
    dff.evaluate(&mut wires);
    assert_eq!(dff.get_state(), false);

    wires[1].set_value(1);
    dff.evaluate(&mut wires);
    assert_eq!(dff.get_state(), true);

    wires[0].set_value(0);
    dff.evaluate(&mut wires);
    assert_eq!(dff.get_state(), true);

    wires[1].set_value(0);
    dff.evaluate(&mut wires);
    wires[1].set_value(1);
    dff.evaluate(&mut wires);
    assert_eq!(dff.get_state(), false);

    assert_eq!(wires[2].value(), 0);
}

#[test]
fn test_dff_no_change_on_falling_edge() {
    let (mut dff, mut wires) = setup_dff_and_wires();

    wires[0].set_value(1);
    wires[1].set_value(1);
    dff.evaluate(&mut wires);

    wires[1].set_value(0);
    dff.evaluate(&mut wires);
    assert_eq!(dff.get_state(), false);

    wires[0].set_value(1);
    wires[1].set_value(1);
    dff.evaluate(&mut wires);
    assert_eq!(dff.get_state(), true);
}

#[test]
fn dff_holds_while_clock_stays_level() {
    let (mut dff, mut wires) = setup_dff_and_wires();
    wires[0].set_value(1);
    dff.evaluate(&mut wires);
    wires[1].set_value(1);
    dff.evaluate(&mut wires);
    assert!(dff.get_state());
    assert_eq!(wires[2].value(), 1);
    // The clock stays high: no input change is taken, however often.
    for v in [0, 1, 0, 0] {
        wires[0].set_value(v);
        dff.evaluate(&mut wires);
        assert!(dff.get_state());
        assert_eq!(wires[2].value(), 1);
    }
    // The clock stays low: the same.
    wires[1].set_value(0);
    for v in [0, 1, 0] {
        wires[0].set_value(v);
        dff.evaluate(&mut wires);
        assert!(dff.get_state());
    }
}

#[test]
fn unconnected_dff_is_inert() {
    let mut dff = DFF::new(5);
    dff.connect_input(0);
    dff.connect_output(1);
    let mut wires = vec![Wire::new(0), Wire::new(1)];
    wires[0].set_value(1);
    wires[1].set_value(9);
    dff.evaluate(&mut wires);
    assert!(!dff.get_state());
    assert_eq!(wires[1].value(), 9);
    assert_eq!(dff.clock_wire(), None);
    assert_eq!(dff.input_wire(), Some(0));
    assert_eq!(dff.output_wire(), Ok(1));
    assert_eq!(DFF::new(6).output_wire(), Err(fpga_emulator::FabricError::MissingConnection));
    assert_eq!(dff.id(), 5);
}
