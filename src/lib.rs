//! Discrete-event emulation of a small programmable logic fabric: lookup
//! tables, edge-triggered flip-flops and block memories joined by wires.
use vstd::prelude::*;

pub mod wire;
pub mod lut;
pub mod dff;
pub mod bram;
pub mod config;
pub mod fabric;
pub mod timing;
pub mod engine;
pub mod placer;
pub mod router;
pub mod place_and_route;
pub mod error;
pub mod text;

pub use wire::Wire;
pub use lut::LUT;
pub use dff::DFF;
pub use bram::BlockRAM;
pub use error::FabricError;
pub use fabric::FPGAFabric;
pub use timing::TimingModel;
pub use engine::{SimulationEngine, SimulationResult};
pub use placer::{place_elements, PlacementResult};
pub use router::{route_connections, RouteTable, RoutingResult};
pub use place_and_route::{place_and_route, PlaceAndRouteResult};
pub use config::{
    BRAMConfig, ConnectionConfig, DFFConfig, ElementPort, FPGAConfig, FPGAElement, LUTConfig,
};

verus! {

} // verus!
