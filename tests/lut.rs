use fpga_emulator::{Wire, LUT};

fn setup_lut_and_wires() -> (LUT, Vec<Wire>) {
    // A 4-input AND gate.
    let truth_table = [
        false, false, false, false, false, false, false, false, false, false, false, false,
        false, false, false, true,
    ];
    let mut lut = LUT::new(0, truth_table);
    let mut wires = Vec::new();
    for i in 0..5 {
        wires.push(Wire::new(i));
    }
    for i in 0..4 {
        lut.connect_input(i, i);
    }
    lut.connect_output(4);
    (lut, wires)
}

/// Evaluates the table and commits its result to its output wire.
fn evaluate_and_commit(lut: &LUT, wires: &mut Vec<Wire>) {
    let out = lut.evaluate(wires);
    let o = lut.output_wire().unwrap();
    wires[o].set_value(out);
}

#[test]
fn test_lut_and_gate() {
    let (lut, mut wires) = setup_lut_and_wires();

    for i in 0..4 {
        wires[i].set_value(0);
    }
    evaluate_and_commit(&lut, &mut wires);
    assert_eq!(wires[4].value(), 0);

    wires[0].set_value(1);
    wires[1].set_value(1);
    evaluate_and_commit(&lut, &mut wires);
    assert_eq!(wires[4].value(), 0);

    for i in 0..4 {
        wires[i].set_value(1);
    }
    evaluate_and_commit(&lut, &mut wires);
    assert_eq!(wires[4].value(), 1);
}

#[test]
fn test_lut_or_gate() {
    let truth_table = [
        false, true, true, true, true, true, true, true, true, true, true, true, true, true,
        true, true,
    ];
    let mut lut = LUT::new(1, truth_table);
    let mut wires = Vec::new();
    for i in 0..5 {
        wires.push(Wire::new(i));
    }
    for i in 0..4 {
        lut.connect_input(i, i);
    }
    lut.connect_output(4);

    for i in 0..4 {
        wires[i].set_value(0);
    }
    evaluate_and_commit(&lut, &mut wires);
    assert_eq!(wires[4].value(), 0);

    wires[2].set_value(1);
    evaluate_and_commit(&lut, &mut wires);
    assert_eq!(wires[4].value(), 1);

    for i in 0..4 {
        wires[i].set_value(1);
    }
    evaluate_and_commit(&lut, &mut wires);
    assert_eq!(wires[4].value(), 1);
}

#[test]
fn test_lut_xor_gate() {
    let truth_table = [
        false, true, true, false, false, true, true, false, false, true, true, false, false,
        true, true, false,
    ];
    let mut lut = LUT::new(2, truth_table);
    let mut wires = Vec::new();
    for i in 0..3 {
        wires.push(Wire::new(i));
    }
    lut.connect_input(0, 0);
    lut.connect_input(1, 1);
    lut.connect_output(2);

    wires[0].set_value(0);
    wires[1].set_value(0);
    evaluate_and_commit(&lut, &mut wires);
    assert_eq!(wires[2].value(), 0);

    wires[0].set_value(1);
    evaluate_and_commit(&lut, &mut wires);
    assert_eq!(wires[2].value(), 1);

    wires[0].set_value(0);
    wires[1].set_value(1);
    evaluate_and_commit(&lut, &mut wires);
    assert_eq!(wires[2].value(), 1);

    wires[0].set_value(1);
    wires[1].set_value(1);
    evaluate_and_commit(&lut, &mut wires);
    assert_eq!(wires[2].value(), 0);
}

#[test]
fn lut_corners_give_first_and_last_entries() {
    // Every entry differs from its neighbours, so a wrong address shows.
    let mut table = [false; 16];
    table[0] = true;
    table[15] = false;
    table[14] = true;
    let mut lut = LUT::new(7, table);
    let mut wires = Vec::new();
    for i in 0..4 {
        wires.push(Wire::new(i));
        lut.connect_input(i, i);
    }
    assert_eq!(lut.evaluate(&wires), 1);
    for i in 0..4 {
        wires[i].set_value(1);
    }
    assert_eq!(lut.evaluate(&wires), 0);
    // Any non-zero value reads as high.
    wires[0].set_value(0);
    wires[3].set_value(42);
    assert_eq!(lut.evaluate(&wires), 1);
}

#[test]
fn lut_unbound_inputs_read_low() {
    let mut table = [false; 16];
    table[0] = true;
    let lut = LUT::new(3, table);
    let wires = vec![Wire::new(0)];
    assert_eq!(lut.evaluate(&wires), 1);
    assert!(lut.inputs().is_empty());
}

#[test]
fn lut_inputs_lists_bound_wires_in_order() {
    let mut lut = LUT::new(4, [false; 16]);
    lut.connect_input(3, 9);
    lut.connect_input(1, 5);
    assert_eq!(lut.inputs(), vec![5, 9]);
    assert_eq!(lut.id(), 4);
    assert_eq!(lut.get_truth_table(), &[false; 16]);
}

#[test]
fn wire_propagate_copies_into_destinations() {
    let mut wires: Vec<Wire> = (0..4).map(Wire::new).collect();
    let mut source = Wire::new(9);
    source.set_value(7);
    source.add_destination(1);
    source.add_destination(3);
    source.add_destination(12);
    source.propagate(&mut wires);
    assert_eq!(wires[0].value(), 0);
    assert_eq!(wires[1].value(), 7);
    assert_eq!(wires[2].value(), 0);
    assert_eq!(wires[3].value(), 7);
    assert_eq!(source.destinations(), &vec![1, 3, 12]);
    assert_eq!(source.id(), 9);
}

#[test]
fn wires_compare_by_id() {
    let mut a = Wire::new(3);
    let b = Wire::new(3);
    a.set_value(9);
    assert!(a == b);
    assert!(Wire::new(4) != b);
}

#[test]
fn wire_commit_forwards_only_changes() {
    let mut wires: Vec<Wire> = (0..3).map(Wire::new).collect();
    let mut source = Wire::new(7);
    source.add_destination(2);
    source.commit(5, &mut wires);
    assert_eq!(source.value(), 5);
    assert_eq!(wires[2].value(), 5);
    wires[2].set_value(1);
    source.commit(5, &mut wires);
    assert_eq!(wires[2].value(), 1);
    source.commit(6, &mut wires);
    assert_eq!(wires[2].value(), 6);
    assert_eq!(wires[1].value(), 0);
}
