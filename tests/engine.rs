use fpga_emulator::{
    ConnectionConfig, DFFConfig, ElementPort, FPGAConfig, LUTConfig, SimulationEngine,
    TimingModel,
};

fn alternating() -> [bool; 16] {
    [
        false, true, false, true, false, true, false, true, false, true, false, true, false, true,
        false, true,
    ]
}

fn chain_config() -> FPGAConfig {
    FPGAConfig {
        luts: vec![LUTConfig { id: 0, truth_table: alternating() }],
        dffs: vec![DFFConfig { id: 0 }],
        brams: vec![],
        connections: vec![
            ConnectionConfig {
                from: ElementPort::Input { name: "in1".to_string() },
                to: ElementPort::LUT { id: 0, port: 0 },
            },
            ConnectionConfig {
                from: ElementPort::LUT { id: 0, port: 0 },
                to: ElementPort::DFF { id: 0, port: "D".to_string() },
            },
            ConnectionConfig {
                from: ElementPort::DFF { id: 0, port: "Q".to_string() },
                to: ElementPort::Output { name: "out1".to_string() },
            },
        ],
        inputs: vec!["in1".to_string()],
        outputs: vec!["out1".to_string()],
    }
}

#[test]
fn test_simple_simulation() {
    let config = chain_config();
    let timing_model = TimingModel::default();
    let mut engine = SimulationEngine::new(config, timing_model).unwrap();

    engine.set_input("in1", 1);
    let result = engine.run(10);

    assert_eq!(result.cycles, 10);
    assert_eq!(result.outputs.len(), 1);
    assert_eq!(result.outputs[0].0, "out1");
    assert_eq!(result.outputs[0].1, vec![0, 1, 1, 1, 1, 1, 1, 1, 1, 1]);
}

#[test]
fn simulation_without_input_stays_low() {
    let mut engine = SimulationEngine::new(chain_config(), TimingModel::default()).unwrap();
    let result = engine.run(4);
    assert_eq!(result.outputs[0].1, vec![0, 0, 0, 0]);
    assert_eq!(engine.current_time, 40);
}

#[test]
fn simulation_unknown_input_is_ignored() {
    let mut engine = SimulationEngine::new(chain_config(), TimingModel::default()).unwrap();
    engine.set_input("nope", 1);
    assert!(engine.event_queue.is_empty());
    let result = engine.run(3);
    assert_eq!(result.outputs[0].1, vec![0, 0, 0]);
}

#[test]
fn simulation_input_falls_again() {
    let mut engine = SimulationEngine::new(chain_config(), TimingModel::default()).unwrap();
    engine.set_input("in1", 1);
    let first = engine.run(3);
    assert_eq!(first.outputs[0].1, vec![0, 1, 1]);
    engine.set_input("in1", 0);
    let second = engine.run(3);
    assert_eq!(second.outputs[0].1, vec![1, 0, 0]);
    assert_eq!(engine.current_time, 60);
}

#[test]
fn same_time_events_keep_submission_order() {
    let mut engine = SimulationEngine::new(chain_config(), TimingModel::default()).unwrap();
    engine.set_input("in1", 1);
    engine.set_input("in1", 0);
    assert_eq!(engine.event_queue.len(), 2);
    assert_eq!(engine.event_queue[0].new_value, 1);
    assert_eq!(engine.event_queue[1].new_value, 0);
    // The later submission wins: the input ends low and nothing is latched.
    let result = engine.run(2);
    assert_eq!(result.outputs[0].1, vec![0, 0]);
}

#[test]
fn zero_cycles_run_nothing() {
    let mut engine = SimulationEngine::new(chain_config(), TimingModel::default()).unwrap();
    engine.set_input("in1", 1);
    let result = engine.run(0);
    assert_eq!(result.cycles, 0);
    assert_eq!(result.outputs[0].1, Vec::<u64>::new());
    assert_eq!(engine.event_queue.len(), 1);
}

#[test]
fn slower_clock_to_output_still_lands_next_cycle() {
    let timing = TimingModel::new(20, 2, 1, 5, 3, 3, 2);
    let mut engine = SimulationEngine::new(chain_config(), timing).unwrap();
    engine.set_input("in1", 1);
    let result = engine.run(3);
    assert_eq!(result.outputs[0].1, vec![0, 1, 1]);
    assert_eq!(engine.current_time, 60);
}

#[test]
fn flip_flop_on_an_input_clock_latches_on_its_edge() {
    let config = FPGAConfig {
        luts: vec![],
        dffs: vec![DFFConfig { id: 0 }],
        brams: vec![],
        connections: vec![
            ConnectionConfig {
                from: ElementPort::Input { name: "d".to_string() },
                to: ElementPort::DFF { id: 0, port: "D".to_string() },
            },
            ConnectionConfig {
                from: ElementPort::Input { name: "clk".to_string() },
                to: ElementPort::DFF { id: 0, port: "CLK".to_string() },
            },
            ConnectionConfig {
                from: ElementPort::DFF { id: 0, port: "Q".to_string() },
                to: ElementPort::Output { name: "q".to_string() },
            },
        ],
        inputs: vec!["d".to_string(), "clk".to_string()],
        outputs: vec!["q".to_string()],
    };
    let mut engine = SimulationEngine::new(config, TimingModel::default()).unwrap();
    engine.set_input("d", 1);
    // The periodic clock does not drive this flip-flop.
    assert_eq!(engine.run(2).outputs[0].1, vec![0, 0]);
    engine.set_input("clk", 1);
    assert_eq!(engine.run(2).outputs[0].1, vec![1, 1]);
}

#[test]
fn scheduled_events_keep_time_then_submission_order() {
    let mut engine = SimulationEngine::new(chain_config(), TimingModel::default()).unwrap();
    engine.schedule_event(5, Some(1), 1);
    engine.schedule_event(3, Some(1), 2);
    engine.schedule_event(5, Some(1), 3);
    engine.schedule_event(4, None, 9);
    let values: Vec<u64> = engine.event_queue.iter().map(|e| e.new_value).collect();
    assert_eq!(values, vec![2, 1, 3]);
}
