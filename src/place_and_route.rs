use vstd::prelude::*;
use crate::config::{bram_ids, dff_ids, lut_ids, FPGAConfig};
use crate::error::FabricError;
use crate::placer::{element_count, place_elements, positions, PlacementResult};
use crate::router::{ends_placed, keyed_by_connection, route_connections, routed, RoutingResult};

verus! {

/// A layout for a netlist: where each element stands, and how each
/// connection runs.
#[derive(Debug, Clone)]
pub struct PlaceAndRouteResult {
    pub placement: PlacementResult,
    pub routing: RoutingResult,
}

/// Places the netlist's elements first-fit on a `grid_width` by
/// `grid_height` grid, then routes its connections over it. A grid with too
/// few cells, or a connection with an end that has no place (a named input
/// or output), is reported.
pub fn place_and_route(config: &FPGAConfig, grid_width: usize, grid_height: usize) -> (r: Result<
    PlaceAndRouteResult,
    FabricError,
>)
    requires
        grid_width * grid_height <= usize::MAX,
    ensures
        element_count(*config) > grid_width * grid_height ==> r == Err::<
            PlaceAndRouteResult,
            FabricError,
        >(FabricError::GridFull),
        element_count(*config) <= grid_width * grid_height ==> (r is Ok <==> forall|i: int|
            0 <= i < config.connections@.len() ==> ends_placed(
                #[trigger] config.connections@[i],
                positions(lut_ids(*config), 0, grid_width as int),
                positions(dff_ids(*config), config.luts@.len() as int, grid_width as int),
                positions(
                    bram_ids(*config),
                    (config.luts@.len() + config.dffs@.len()) as int,
                    grid_width as int,
                ),
                grid_width,
                grid_height,
            )),
        element_count(*config) <= grid_width * grid_height && r is Err ==> r == Err::<
            PlaceAndRouteResult,
            FabricError,
        >(FabricError::Unroutable),
        r matches Ok(res) ==> {
            &&& res.placement.lut_positions@ == positions(lut_ids(*config), 0, grid_width as int)
            &&& res.placement.dff_positions@ == positions(
                dff_ids(*config),
                config.luts@.len() as int,
                grid_width as int,
            )
            &&& res.placement.bram_positions@ == positions(
                bram_ids(*config),
                (config.luts@.len() + config.dffs@.len()) as int,
                grid_width as int,
            )
            &&& res.routing.routes.wf()
            &&& forall|j: int|
                0 <= j < res.routing.routes.entries@.len() ==> keyed_by_connection(
                    #[trigger] res.routing.routes.entries@[j].0,
                    config.connections@,
                    config.connections@.len() as int,
                )
            &&& forall|i: int|
                0 <= i < config.connections@.len() ==> (#[trigger] res.routing.routes.index_of(
                    (config.connections@[i].from, config.connections@[i].to),
                )) is Some
            &&& forall|j: int|
                0 <= j < res.routing.routes.entries@.len() ==> routed(
                    #[trigger] res.routing.routes.entries@[j].0,
                    res.routing.routes.entries@[j].1@,
                    res.placement,
                    grid_width,
                    grid_height,
                )
        },
{
    let placement = match place_elements(config, grid_width, grid_height) {
        Ok(p) => p,
        Err(e) => return Err(e),
    };
    let routing = match route_connections(config, &placement, grid_width, grid_height) {
        Ok(t) => t,
        Err(e) => return Err(e),
    };
    Ok(PlaceAndRouteResult { placement, routing })
}

} // verus!
