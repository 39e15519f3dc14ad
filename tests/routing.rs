use fpga_emulator::{
    place_and_route, route_connections, ConnectionConfig, ElementPort, FPGAConfig, FabricError,
    LUTConfig, PlacementResult,
};
use std::collections::HashMap;

fn two_luts(from: ElementPort, to: ElementPort) -> FPGAConfig {
    FPGAConfig {
        luts: vec![
            LUTConfig { id: 0, truth_table: [false; 16] },
            LUTConfig { id: 1, truth_table: [false; 16] },
        ],
        dffs: vec![],
        brams: vec![],
        connections: vec![ConnectionConfig { from, to }],
        inputs: vec![],
        outputs: vec![],
    }
}

fn adjacent(a: (usize, usize), b: (usize, usize)) -> bool {
    (a.0 == b.0 && (a.1 + 1 == b.1 || b.1 + 1 == a.1))
        || (a.1 == b.1 && (a.0 + 1 == b.0 || b.0 + 1 == a.0))
}

#[test]
fn test_simple_routing() {
    let config = two_luts(ElementPort::LUT { id: 0, port: 0 }, ElementPort::LUT { id: 1, port: 0 });

    let placement = PlacementResult {
        lut_positions: vec![(0, (0, 0)), (1, (2, 2))].into_iter().collect(),
        dff_positions: HashMap::new(),
        bram_positions: HashMap::new(),
    };

    let routing = route_connections(&config, &placement, 3, 3).unwrap();

    assert_eq!(routing.routes.len(), 1);
    assert!(routing.routes.contains_key(&(
        ElementPort::LUT { id: 0, port: 0 },
        ElementPort::LUT { id: 1, port: 0 }
    )));
}

#[test]
fn routes_are_shortest_side_sharing_paths() {
    let config = two_luts(ElementPort::LUT { id: 0, port: 0 }, ElementPort::LUT { id: 1, port: 2 });
    let placement = PlacementResult {
        lut_positions: vec![(0, (0, 0)), (1, (2, 2))].into_iter().collect(),
        dff_positions: HashMap::new(),
        bram_positions: HashMap::new(),
    };
    let routing = route_connections(&config, &placement, 3, 3).unwrap();
    let path = routing
        .routes
        .get(&(ElementPort::LUT { id: 0, port: 0 }, ElementPort::LUT { id: 1, port: 2 }))
        .unwrap();
    assert_eq!(path.len(), 5);
    assert_eq!(path[0], (0, 0));
    assert_eq!(path[4], (2, 2));
    for w in path.windows(2) {
        assert!(adjacent(w[0], w[1]));
    }
    assert!(!routing.routes.contains_key(&(
        ElementPort::LUT { id: 1, port: 2 },
        ElementPort::LUT { id: 0, port: 0 }
    )));
}

#[test]
fn routing_same_cell_is_one_step() {
    let config = two_luts(ElementPort::LUT { id: 0, port: 0 }, ElementPort::LUT { id: 0, port: 1 });
    let placement = PlacementResult {
        lut_positions: vec![(0, (1, 1))].into_iter().collect(),
        dff_positions: HashMap::new(),
        bram_positions: HashMap::new(),
    };
    let routing = route_connections(&config, &placement, 2, 2).unwrap();
    let path = routing
        .routes
        .get(&(ElementPort::LUT { id: 0, port: 0 }, ElementPort::LUT { id: 0, port: 1 }))
        .unwrap();
    assert_eq!(path, &vec![(1, 1)]);
}

#[test]
fn routing_reports_unplaced_or_off_grid_ends() {
    let config = two_luts(ElementPort::Input { name: "a".to_string() }, ElementPort::LUT { id: 1, port: 0 });
    let placement = PlacementResult {
        lut_positions: vec![(0, (0, 0)), (1, (1, 1))].into_iter().collect(),
        dff_positions: HashMap::new(),
        bram_positions: HashMap::new(),
    };
    assert_eq!(route_connections(&config, &placement, 2, 2).unwrap_err(), FabricError::Unroutable);

    let config = two_luts(ElementPort::LUT { id: 0, port: 0 }, ElementPort::LUT { id: 1, port: 0 });
    assert_eq!(route_connections(&config, &placement, 1, 1).unwrap_err(), FabricError::Unroutable);
}

#[test]
fn routing_repeated_connection_keeps_one_entry() {
    let mut config = two_luts(ElementPort::LUT { id: 0, port: 0 }, ElementPort::LUT { id: 1, port: 0 });
    config.connections.push(ConnectionConfig {
        from: ElementPort::LUT { id: 0, port: 0 },
        to: ElementPort::LUT { id: 1, port: 0 },
    });
    let placement = PlacementResult {
        lut_positions: vec![(0, (0, 0)), (1, (0, 1))].into_iter().collect(),
        dff_positions: HashMap::new(),
        bram_positions: HashMap::new(),
    };
    let routing = route_connections(&config, &placement, 2, 2).unwrap();
    assert_eq!(routing.routes.len(), 1);
}

#[test]
fn place_and_route_end_to_end() {
    let config = two_luts(ElementPort::LUT { id: 0, port: 0 }, ElementPort::LUT { id: 1, port: 3 });
    let result = place_and_route(&config, 2, 2).unwrap();
    assert_eq!(result.placement.lut_positions[&0], (0, 0));
    assert_eq!(result.placement.lut_positions[&1], (1, 0));
    let path = result
        .routing
        .routes
        .get(&(ElementPort::LUT { id: 0, port: 0 }, ElementPort::LUT { id: 1, port: 3 }))
        .unwrap();
    assert_eq!(path, &vec![(0, 0), (1, 0)]);
    assert_eq!(place_and_route(&config, 1, 1).unwrap_err(), FabricError::GridFull);
}
