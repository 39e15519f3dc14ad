use fpga_emulator::TimingModel;

#[test]
fn test_default_timing_model() {
    let model = TimingModel::default();
    assert_eq!(model.clock_period, 10);
    assert_eq!(model.lut_delay, 1);
    assert_eq!(model.dff_setup_time, 1);
    assert_eq!(model.dff_clock_to_q, 1);
    assert_eq!(model.bram_read_delay, 2);
    assert_eq!(model.bram_write_delay, 2);
    assert_eq!(model.wire_delay, 1);
}

#[test]
fn test_custom_timing_model() {
    let model = TimingModel::new(20, 2, 2, 2, 3, 3, 2);
    assert_eq!(model.clock_period, 20);
    assert_eq!(model.lut_delay, 2);
    assert_eq!(model.dff_setup_time, 2);
    assert_eq!(model.dff_clock_to_q, 2);
    assert_eq!(model.bram_read_delay, 3);
    assert_eq!(model.bram_write_delay, 3);
    assert_eq!(model.wire_delay, 2);
}

#[test]
fn test_setup_time_check() {
    let model = TimingModel::default();
    assert!(model.check_setup_time(8, 10));
    assert!(!model.check_setup_time(10, 10));
}

#[test]
fn test_path_delay_calculation() {
    let model = TimingModel::default();
    assert_eq!(model.calculate_path_delay(3, 4), 7);
}

#[test]
fn setup_check_edges() {
    let model = TimingModel::default();
    assert!(model.check_setup_time(9, 10));
    assert!(!model.check_setup_time(u64::MAX, u64::MAX));
    let custom = TimingModel::new(20, 3, 2, 2, 3, 3, 5);
    assert_eq!(custom.calculate_path_delay(2, 1), 11);
    assert!(!custom.check_setup_time(9, 10));
}
