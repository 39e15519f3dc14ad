use vstd::prelude::*;
use std::collections::HashMap;
use crate::config::{bram_ids, dff_ids, lut_ids, FPGAConfig};
use crate::error::FabricError;

verus! {

broadcast use vstd::std_specs::hash::group_hash_axioms;

/// Where each placed element stands on the grid, as (column, row), by id.
#[derive(Debug, Clone)]
pub struct PlacementResult {
    pub lut_positions: HashMap<usize, (usize, usize)>,
    pub dff_positions: HashMap<usize, (usize, usize)>,
    pub bram_positions: HashMap<usize, (usize, usize)>,
}

/// The cell of row-major index `i` on a grid `width` cells wide.
pub open spec fn cell_of(i: int, width: int) -> (usize, usize) {
    ((i % width) as usize, (i / width) as usize)
}

/// The positions of elements with ids `ids` placed from row-major index
/// `base` on; a repeated id keeps its last position.
pub open spec fn positions(ids: Seq<usize>, base: int, width: int) -> Map<usize, (usize, usize)>
    decreases ids.len(),
{
    if ids.len() == 0 {
        Map::empty()
    } else {
        positions(ids.drop_last(), base, width).insert(
            ids.last(),
            cell_of(base + ids.len() - 1, width),
        )
    }
}

/// The number of elements a netlist places.
pub open spec fn element_count(cfg: FPGAConfig) -> int {
    (cfg.luts@.len() + cfg.dffs@.len() + cfg.brams@.len()) as int
}

/// A grid of cells in row-major order, each empty or taken.
struct FPGAGrid {
    width: usize,
    height: usize,
    taken: Vec<bool>,
}

impl FPGAGrid {
    /// The first `used` cells are taken and the rest are empty.
    spec fn filled_to(&self, used: int) -> bool {
        &&& self.taken@.len() == self.width * self.height
        &&& 0 <= used <= self.taken@.len()
        &&& forall|i: int| 0 <= i < self.taken@.len() ==> (#[trigger] self.taken@[i]) == (i < used)
    }

    fn new(width: usize, height: usize) -> (r: FPGAGrid)
        requires
            width * height <= usize::MAX,
        ensures
            r.width == width,
            r.height == height,
            r.filled_to(0),
    {
        let n = width * height;
        let mut taken: Vec<bool> = Vec::new();
        let mut i: usize = 0;
        while i < n
            invariant
                i <= n,
                n == width * height,
                taken@.len() == i,
                forall|j: int| 0 <= j < i ==> !(#[trigger] taken@[j]),
            decreases n - i,
        {
            taken.push(false);
            i = i + 1;
        }
        FPGAGrid { width, height, taken }
    }

    /// Takes the first empty cell in row-major order and returns it as
    /// (column, row); none when the grid is full.
    fn place_element(&mut self, Ghost(u): Ghost<int>) -> (r: Option<(usize, usize)>)
        requires
            old(self).filled_to(u),
        ensures
            final(self).width == old(self).width,
            final(self).height == old(self).height,
            if u < old(self).taken@.len() {
                r == Some(cell_of(u, old(self).width as int)) && final(self).filled_to(u + 1)
            } else {
                r is None && final(self).filled_to(u)
            },
    {
        let mut i: usize = 0;
        while i < self.taken.len()
            invariant
                self.filled_to(u),
                *self == *old(self),
                i <= self.taken@.len(),
                i <= u,
            decreases self.taken@.len() - i,
        {
            if !self.taken[i] {
                self.taken.set(i, true);
                proof {
                    assert(i == u);
                    assert(self.width > 0) by (nonlinear_arith)
                        requires
                            self.taken@.len() == self.width * self.height,
                            i < self.taken@.len(),
                    ;
                }
                return Some((i % self.width, i / self.width));
            }
            i = i + 1;
        }
        None
    }
}

/// Places the tables, then the flip-flops, then the memories, each on the
/// first empty cell in row-major order. A grid with too few cells is
/// reported.
pub fn place_elements(config: &FPGAConfig, grid_width: usize, grid_height: usize) -> (r: Result<
    PlacementResult,
    FabricError,
>)
    requires
        grid_width * grid_height <= usize::MAX,
    ensures
        element_count(*config) <= grid_width * grid_height <==> r is Ok,
        r is Err ==> r == Err::<PlacementResult, FabricError>(FabricError::GridFull),
        r matches Ok(p) ==> {
            &&& p.lut_positions@ == positions(lut_ids(*config), 0, grid_width as int)
            &&& p.dff_positions@ == positions(
                dff_ids(*config),
                config.luts@.len() as int,
                grid_width as int,
            )
            &&& p.bram_positions@ == positions(
                bram_ids(*config),
                (config.luts@.len() + config.dffs@.len()) as int,
                grid_width as int,
            )
        },
{
    let mut grid = FPGAGrid::new(grid_width, grid_height);
    let ghost cap = grid_width * grid_height;
    let mut lut_positions: HashMap<usize, (usize, usize)> = HashMap::new();
    let mut i: usize = 0;
    while i < config.luts.len()
        invariant
            grid.width == grid_width,
            grid.height == grid_height,
            cap == grid_width * grid_height,
            i <= config.luts@.len(),
            i <= cap,
            grid.filled_to(i as int),
            lut_positions@ == positions(lut_ids(*config).take(i as int), 0, grid_width as int),
        decreases config.luts@.len() - i,
    {
        let id = config.luts[i].id;
        match grid.place_element(Ghost(i as int)) {
            Some(pos) => {
                lut_positions.insert(id, pos);
                proof {
                    let ids = lut_ids(*config);
                    assert(ids.take(i + 1).drop_last() == ids.take(i as int));
                    assert(ids.take(i + 1).last() == id);
                }
            },
            None => {
                return Err(FabricError::GridFull);
            },
        }
        i = i + 1;
    }
    assert(lut_ids(*config).take(i as int) == lut_ids(*config));
    let mut dff_positions: HashMap<usize, (usize, usize)> = HashMap::new();
    let nl = config.luts.len();
    let mut i: usize = 0;
    while i < config.dffs.len()
        invariant
            grid.width == grid_width,
            grid.height == grid_height,
            cap == grid_width * grid_height,
            nl == config.luts@.len(),
            i <= config.dffs@.len(),
            nl + i <= cap,
            grid.filled_to(nl + i),
            dff_positions@ == positions(dff_ids(*config).take(i as int), nl as int, grid_width as int),
        decreases config.dffs@.len() - i,
    {
        let id = config.dffs[i].id;
        match grid.place_element(Ghost(nl + i)) {
            Some(pos) => {
                dff_positions.insert(id, pos);
                proof {
                    let ids = dff_ids(*config);
                    assert(ids.take(i + 1).drop_last() == ids.take(i as int));
                    assert(ids.take(i + 1).last() == id);
                }
            },
            None => {
                return Err(FabricError::GridFull);
            },
        }
        i = i + 1;
    }
    assert(dff_ids(*config).take(i as int) == dff_ids(*config));
    let mut bram_positions: HashMap<usize, (usize, usize)> = HashMap::new();
    let nd = config.dffs.len();
    let mut i: usize = 0;
    while i < config.brams.len()
        invariant
            grid.width == grid_width,
            grid.height == grid_height,
            cap == grid_width * grid_height,
            nl == config.luts@.len(),
            nd == config.dffs@.len(),
            i <= config.brams@.len(),
            nl + nd + i <= cap,
            grid.filled_to(nl + nd + i),
            bram_positions@ == positions(
                bram_ids(*config).take(i as int),
                nl + nd,
                grid_width as int,
            ),
        decreases config.brams@.len() - i,
    {
        let id = config.brams[i].id;
        match grid.place_element(Ghost(nl + nd + i)) {
            Some(pos) => {
                bram_positions.insert(id, pos);
                proof {
                    let ids = bram_ids(*config);
                    assert(ids.take(i + 1).drop_last() == ids.take(i as int));
                    assert(ids.take(i + 1).last() == id);
                }
            },
            None => {
                return Err(FabricError::GridFull);
            },
        }
        i = i + 1;
    }
    assert(bram_ids(*config).take(i as int) == bram_ids(*config));
    Ok(PlacementResult { lut_positions, dff_positions, bram_positions })
}

} // verus!
