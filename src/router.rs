use vstd::prelude::*;
use crate::config::{ConnectionConfig, ElementPort, FPGAConfig};
use crate::error::FabricError;
use crate::placer::PlacementResult;
use crate::text::same_text;

verus! {

broadcast use vstd::std_specs::hash::group_hash_axioms;

/// Whether two port references name the same port.
pub open spec fn same_port(a: ElementPort, b: ElementPort) -> bool {
    match (a, b) {
        (ElementPort::Input { name: x }, ElementPort::Input { name: y }) => x@ == y@,
        (ElementPort::Output { name: x }, ElementPort::Output { name: y }) => x@ == y@,
        (ElementPort::LUT { id: i, port: p }, ElementPort::LUT { id: j, port: q }) => i == j && p
            == q,
        (ElementPort::DFF { id: i, port: p }, ElementPort::DFF { id: j, port: q }) => i == j && p@
            == q@,
        (ElementPort::BRAM { id: i, port: p }, ElementPort::BRAM { id: j, port: q }) => i == j
            && p@ == q@,
        _ => false,
    }
}

pub open spec fn same_key(a: (ElementPort, ElementPort), b: (ElementPort, ElementPort)) -> bool {
    same_port(a.0, b.0) && same_port(a.1, b.1)
}

pub proof fn lemma_same_key_refl(k: (ElementPort, ElementPort))
    ensures
        same_key(k, k),
{
}

pub fn ports_equal(a: &ElementPort, b: &ElementPort) -> (r: bool)
    ensures
        r == same_port(*a, *b),
{
    match (a, b) {
        (ElementPort::Input { name: x }, ElementPort::Input { name: y }) => same_text(
            x.as_str(),
            y.as_str(),
        ),
        (ElementPort::Output { name: x }, ElementPort::Output { name: y }) => same_text(
            x.as_str(),
            y.as_str(),
        ),
        (ElementPort::LUT { id: i, port: p }, ElementPort::LUT { id: j, port: q }) => *i == *j && *p
            == *q,
        (ElementPort::DFF { id: i, port: p }, ElementPort::DFF { id: j, port: q }) => *i == *j
            && same_text(p.as_str(), q.as_str()),
        (ElementPort::BRAM { id: i, port: p }, ElementPort::BRAM { id: j, port: q }) => *i == *j
            && same_text(p.as_str(), q.as_str()),
        _ => false,
    }
}

/// The routes found, keyed by (source port, sink port); a key occurs once.
#[derive(Debug, Clone)]
pub struct RouteTable {
    pub entries: Vec<((ElementPort, ElementPort), Vec<(usize, usize)>)>,
}

impl RouteTable {
    /// The position of the entry for `key`, if any.
    pub open spec fn index_of(&self, key: (ElementPort, ElementPort)) -> Option<int> {
        if exists|i: int| 0 <= i < self.entries@.len() && same_key(self.entries@[i].0, key) {
            Some(
                choose|i: int| 0 <= i < self.entries@.len() && same_key(self.entries@[i].0, key),
            )
        } else {
            None
        }
    }

    /// No two entries share a key.
    pub open spec fn wf(&self) -> bool {
        forall|i: int, j: int|
            0 <= i < j < self.entries@.len() ==> !same_key(
                #[trigger] self.entries@[i].0,
                #[trigger] self.entries@[j].0,
            )
    }

    pub fn new() -> (r: RouteTable)
        ensures
            r.entries@.len() == 0,
            r.wf(),
    {
        RouteTable { entries: Vec::new() }
    }

    pub fn len(&self) -> (r: usize)
        ensures
            r == self.entries@.len(),
    {
        self.entries.len()
    }

    fn find(&self, key: &(ElementPort, ElementPort)) -> (r: Option<usize>)
        ensures
            r matches Some(i) ==> i < self.entries@.len() && same_key(self.entries@[i as int].0, *key),
            r is None ==> forall|i: int|
                0 <= i < self.entries@.len() ==> !same_key(#[trigger] self.entries@[i].0, *key),
    {
        let mut i: usize = 0;
        while i < self.entries.len()
            invariant
                i <= self.entries@.len(),
                forall|j: int| 0 <= j < i ==> !same_key(#[trigger] self.entries@[j].0, *key),
            decreases self.entries@.len() - i,
        {
            let e = &self.entries[i];
            if ports_equal(&e.0.0, &key.0) && ports_equal(&e.0.1, &key.1) {
                return Some(i);
            }
            i = i + 1;
        }
        None
    }

    /// Whether a route is recorded for `key`.
    pub fn contains_key(&self, key: &(ElementPort, ElementPort)) -> (r: bool)
        ensures
            r == self.index_of(*key) is Some,
    {
        self.find(key).is_some()
    }

    /// The route recorded for `key`.
    pub fn get(&self, key: &(ElementPort, ElementPort)) -> (r: Option<&Vec<(usize, usize)>>)
        ensures
            r is Some == self.index_of(*key) is Some,
            r matches Some(p) ==> exists|i: int|
                0 <= i < self.entries@.len() && same_key(self.entries@[i].0, *key)
                    && self.entries@[i].1@ == p@,
    {
        match self.find(key) {
            Some(i) => Some(&self.entries[i].1),
            None => None,
        }
    }

    /// Records `path` for `key`, in place of any route recorded for it.
    fn insert(&mut self, key: (ElementPort, ElementPort), path: Vec<(usize, usize)>)
        requires
            old(self).wf(),
        ensures
            final(self).wf(),
            exists|i: int|
                0 <= i < final(self).entries@.len() && same_key(final(self).entries@[i].0, key)
                    && final(self).entries@[i].1@ == path@,
            forall|i: int|
                0 <= i < final(self).entries@.len() ==> (exists|j: int|
                    0 <= j < old(self).entries@.len() && #[trigger] final(self).entries@[i]
                        == old(self).entries@[j]) || (same_key(final(self).entries@[i].0, key)
                    && final(self).entries@[i].1@ == path@),
            forall|j: int|
                #![trigger old(self).entries@[j]]
                0 <= j < old(self).entries@.len() ==> exists|i: int|
                    0 <= i < final(self).entries@.len() && same_key(
                        #[trigger] final(self).entries@[i].0,
                        old(self).entries@[j].0,
                    ),
    {
        let ghost p = path@;
        let ghost k = key;
        match self.find(&key) {
            Some(i) => {
                self.entries[i].1 = path;
                proof {
                    assert(self.entries@[i as int].1@ == p);
                    assert forall|m: int| 0 <= m < self.entries@.len() implies #[trigger] self.entries@[m].0
                        == old(self).entries@[m].0 by {}
                    assert forall|a: int, b: int| 0 <= a < b < self.entries@.len() implies !same_key(
                        #[trigger] self.entries@[a].0,
                        #[trigger] self.entries@[b].0,
                    ) by {
                        assert(self.entries@[a].0 == old(self).entries@[a].0);
                        assert(self.entries@[b].0 == old(self).entries@[b].0);
                        assert(!same_key(old(self).entries@[a].0, old(self).entries@[b].0));
                    }
                    assert forall|j: int| #![trigger old(self).entries@[j]] 0 <= j < old(self).entries@.len() implies exists|m: int|
                        0 <= m < self.entries@.len() && same_key(
                            #[trigger] self.entries@[m].0,
                            old(self).entries@[j].0,
                        ) by {
                        lemma_same_key_refl(old(self).entries@[j].0);
                        assert(self.entries@[j].0 == old(self).entries@[j].0);
                    }
                }
            },
            None => {
                self.entries.push((key, path));
                proof {
                    assert(self.entries@[self.entries@.len() - 1].1@ == p);
                    assert forall|a: int, b: int| 0 <= a < b < self.entries@.len() implies !same_key(
                        #[trigger] self.entries@[a].0,
                        #[trigger] self.entries@[b].0,
                    ) by {
                        assert(self.entries@[a] == old(self).entries@[a]);
                        if b < old(self).entries@.len() {
                            assert(self.entries@[b] == old(self).entries@[b]);
                            assert(!same_key(old(self).entries@[a].0, old(self).entries@[b].0));
                        } else {
                            assert(self.entries@[b].0 == k);
                            assert(!same_key(old(self).entries@[a].0, k));
                        }
                    }
                    lemma_same_key_refl(k);
                    assert forall|j: int| #![trigger old(self).entries@[j]] 0 <= j < old(self).entries@.len() implies exists|m: int|
                        0 <= m < self.entries@.len() && same_key(
                            #[trigger] self.entries@[m].0,
                            old(self).entries@[j].0,
                        ) by {
                        lemma_same_key_refl(old(self).entries@[j].0);
                        assert(self.entries@[j] == old(self).entries@[j]);
                    }
                }
            },
        }
    }
}

pub open spec fn in_grid(p: (usize, usize), w: usize, h: usize) -> bool {
    p.0 < w && p.1 < h
}

/// Two cells that share a side.
pub open spec fn adjacent(a: (usize, usize), b: (usize, usize)) -> bool {
    (a.0 == b.0 && (a.1 + 1 == b.1 || b.1 + 1 == a.1)) || (a.1 == b.1 && (a.0 + 1 == b.0 || b.0
        + 1 == a.0))
}

/// A sequence of side-sharing grid cells from `start` to `end`.
pub open spec fn is_route(p: Seq<(usize, usize)>, start: (usize, usize), end: (usize, usize), w: usize, h: usize) -> bool {
    &&& p.len() > 0
    &&& p[0] == start
    &&& p.last() == end
    &&& forall|i: int| 0 <= i < p.len() ==> in_grid(#[trigger] p[i], w, h)
    &&& forall|i: int| 0 <= i < p.len() - 1 ==> adjacent(#[trigger] p[i], p[i + 1])
}

/// The in-grid cells that share a side with `p`: left, right, up, down.
pub open spec fn neighbors(p: (usize, usize), w: usize, h: usize) -> Seq<(usize, usize)> {
    let left = if p.0 > 0 {
        seq![((p.0 - 1) as usize, p.1)]
    } else {
        Seq::empty()
    };
    let right = if p.0 + 1 < w {
        seq![((p.0 + 1) as usize, p.1)]
    } else {
        Seq::empty()
    };
    let up = if p.1 > 0 {
        seq![(p.0, (p.1 - 1) as usize)]
    } else {
        Seq::empty()
    };
    let down = if p.1 + 1 < h {
        seq![(p.0, (p.1 + 1) as usize)]
    } else {
        Seq::empty()
    };
    left + right + up + down
}

pub proof fn lemma_neighbors(p: (usize, usize), w: usize, h: usize)
    requires
        in_grid(p, w, h),
    ensures
        forall|k: int|
            0 <= k < neighbors(p, w, h).len() ==> in_grid(#[trigger] neighbors(p, w, h)[k], w, h)
                && adjacent(p, neighbors(p, w, h)[k]),
        forall|q: (usize, usize)|
            in_grid(q, w, h) && adjacent(p, q) ==> #[trigger] neighbors(p, w, h).contains(q),
{
    let n = neighbors(p, w, h);
    assert forall|q: (usize, usize)| in_grid(q, w, h) && adjacent(p, q) implies #[trigger] n.contains(
        q,
    ) by {
        let left = if p.0 > 0 {
            seq![((p.0 - 1) as usize, p.1)]
        } else {
            Seq::empty()
        };
        let right = if p.0 + 1 < w {
            seq![((p.0 + 1) as usize, p.1)]
        } else {
            Seq::empty()
        };
        let up = if p.1 > 0 {
            seq![(p.0, (p.1 - 1) as usize)]
        } else {
            Seq::empty()
        };
        let down = if p.1 + 1 < h {
            seq![(p.0, (p.1 + 1) as usize)]
        } else {
            Seq::empty()
        };
        let a = left.len();
        let b = right.len();
        let c = up.len();
        if q.1 == p.1 && q.0 + 1 == p.0 {
            assert(n[0] == q);
        } else if q.1 == p.1 && p.0 + 1 == q.0 {
            assert(n[a as int] == q);
        } else if q.0 == p.0 && q.1 + 1 == p.1 {
            assert(n[(a + b) as int] == q);
        } else {
            assert(n[(a + b + c) as int] == q);
        }
    }
}

/// Cells marked as taken by earlier routes.
struct RoutingGrid {
    width: usize,
    height: usize,
    cells: Vec<Vec<bool>>,
}

/// A `h` by `w` table of flags, row by row.
pub open spec fn shaped<T>(t: Seq<Vec<T>>, w: usize, h: usize) -> bool {
    t.len() == h && forall|y: int| 0 <= y < h ==> (#[trigger] t[y])@.len() == w
}

impl RoutingGrid {
    spec fn wf(&self) -> bool {
        shaped(self.cells@, self.width, self.height)
    }

    spec fn free(&self) -> bool {
        forall|y: int, x: int|
            0 <= y < self.height && 0 <= x < self.width ==> !(#[trigger] self.cells@[y]@[x])
    }

    fn new(width: usize, height: usize) -> (r: RoutingGrid)
        ensures
            r.width == width,
            r.height == height,
            r.wf(),
            r.free(),
    {
        let mut cells: Vec<Vec<bool>> = Vec::new();
        let mut y: usize = 0;
        while y < height
            invariant
                y <= height,
                cells@.len() == y,
                forall|j: int| 0 <= j < y ==> (#[trigger] cells@[j])@.len() == width,
                forall|j: int, x: int| 0 <= j < y && 0 <= x < width ==> !(#[trigger] cells@[j]@[x]),
            decreases height - y,
        {
            let mut row: Vec<bool> = Vec::new();
            let mut x: usize = 0;
            while x < width
                invariant
                    x <= width,
                    row@.len() == x,
                    forall|i: int| 0 <= i < x ==> !(#[trigger] row@[i]),
                decreases width - x,
            {
                row.push(false);
                x = x + 1;
            }
            cells.push(row);
            y = y + 1;
        }
        RoutingGrid { width, height, cells }
    }

    fn is_occupied(&self, x: usize, y: usize) -> (r: bool)
        requires
            self.wf(),
            x < self.width,
            y < self.height,
        ensures
            r == self.cells@[y as int]@[x as int],
    {
        self.cells[y][x]
    }
}

fn get_neighbors(pos: (usize, usize), width: usize, height: usize) -> (r: Vec<(usize, usize)>)
    requires
        in_grid(pos, width, height),
    ensures
        r@ == neighbors(pos, width, height),
{
    let (x, y) = pos;
    let mut r: Vec<(usize, usize)> = Vec::new();
    if x > 0 {
        r.push((x - 1, y));
    }
    if x < width - 1 {
        r.push((x + 1, y));
    }
    if y > 0 {
        r.push((x, y - 1));
    }
    if y < height - 1 {
        r.push((x, y + 1));
    }
    assert(r@ =~= neighbors(pos, width, height));
    r
}

spec fn row_count(r: Seq<bool>) -> nat
    decreases r.len(),
{
    if r.len() == 0 {
        0
    } else {
        row_count(r.drop_last()) + if r.last() {
            1nat
        } else {
            0nat
        }
    }
}

spec fn grid_count(g: Seq<Vec<bool>>) -> nat
    decreases g.len(),
{
    if g.len() == 0 {
        0
    } else {
        grid_count(g.drop_last()) + row_count(g.last()@)
    }
}

proof fn lemma_row_count_bound(r: Seq<bool>)
    ensures
        row_count(r) <= r.len(),
    decreases r.len(),
{
    if r.len() > 0 {
        lemma_row_count_bound(r.drop_last());
    }
}

proof fn lemma_grid_count_bound(g: Seq<Vec<bool>>, w: usize)
    requires
        forall|y: int| 0 <= y < g.len() ==> (#[trigger] g[y])@.len() == w,
    ensures
        grid_count(g) <= g.len() * w,
    decreases g.len(),
{
    if g.len() > 0 {
        lemma_grid_count_bound(g.drop_last(), w);
        lemma_row_count_bound(g.last()@);
        assert(g.len() * w == (g.len() - 1) * w + w) by (nonlinear_arith);
    }
}

proof fn lemma_row_count_set(r: Seq<bool>, x: int)
    requires
        0 <= x < r.len(),
        !r[x],
    ensures
        row_count(r.update(x, true)) == row_count(r) + 1,
    decreases r.len(),
{
    let u = r.update(x, true);
    if x < r.len() - 1 {
        assert(u.drop_last() == r.drop_last().update(x, true));
        lemma_row_count_set(r.drop_last(), x);
    } else {
        assert(u.drop_last() == r.drop_last());
    }
}

proof fn lemma_grid_count_set(g: Seq<Vec<bool>>, new_row: Vec<bool>, y: int, x: int)
    requires
        0 <= y < g.len(),
        0 <= x < g[y]@.len(),
        !g[y]@[x],
        new_row@ == g[y]@.update(x, true),
    ensures
        grid_count(g.update(y, new_row)) == grid_count(g) + 1,
    decreases g.len(),
{
    let u = g.update(y, new_row);
    lemma_row_count_set(g[y]@, x);
    if y < g.len() - 1 {
        assert(u.drop_last() == g.drop_last().update(y, new_row));
        lemma_grid_count_set(g.drop_last(), new_row, y, x);
    } else {
        assert(u.drop_last() == g.drop_last());
    }
}

pub open spec fn at<T>(t: Seq<Vec<T>>, p: (usize, usize)) -> T {
    t[p.1 as int]@[p.0 as int]
}

/// A set of cells closed under stepping to a side-sharing cell holds every
/// cell of the grid once it holds one.
proof fn lemma_closed_reaches_all(
    vis: Seq<Vec<bool>>,
    w: usize,
    h: usize,
    start: (usize, usize),
    target: (usize, usize),
)
    requires
        shaped(vis, w, h),
        in_grid(start, w, h),
        in_grid(target, w, h),
        at(vis, start),
        forall|c: (usize, usize), q: (usize, usize)|
            in_grid(c, w, h) && at(vis, c) && in_grid(q, w, h) && adjacent(c, q) ==> #[trigger] at(
                vis,
                q,
            ) || !#[trigger] adjacent(c, q),
    ensures
        at(vis, target),
    decreases (if target.0 >= start.0 {
        target.0 - start.0
    } else {
        start.0 - target.0
    }) + (if target.1 >= start.1 {
        target.1 - start.1
    } else {
        start.1 - target.1
    }),
{
    if target != start {
        let c: (usize, usize) = if target.0 > start.0 {
            ((target.0 - 1) as usize, target.1)
        } else if target.0 < start.0 {
            ((target.0 + 1) as usize, target.1)
        } else if target.1 > start.1 {
            (target.0, (target.1 - 1) as usize)
        } else {
            (target.0, (target.1 + 1) as usize)
        };
        lemma_closed_reaches_all(vis, w, h, start, c);
        assert(adjacent(c, target));
    }
}

/// `new` is `old` with the entry at cell `p` set to `v`.
spec fn updated<T>(new: Seq<Vec<T>>, old: Seq<Vec<T>>, p: (usize, usize), v: T) -> bool {
    &&& new.len() == old.len()
    &&& forall|y: int| 0 <= y < old.len() && y != p.1 ==> #[trigger] new[y] == old[y]
    &&& new[p.1 as int]@ == old[p.1 as int]@.update(p.0 as int, v)
}

proof fn lemma_updated_at<T>(new: Seq<Vec<T>>, old: Seq<Vec<T>>, p: (usize, usize), v: T, w: usize, h: usize)
    requires
        shaped(old, w, h),
        in_grid(p, w, h),
        updated(new, old, p, v),
    ensures
        shaped(new, w, h),
        forall|q: (usize, usize)| in_grid(q, w, h) ==> #[trigger] at(new, q) == if q == p {
            v
        } else {
            at(old, q)
        },
{
    assert forall|q: (usize, usize)| in_grid(q, w, h) implies #[trigger] at(new, q) == if q == p {
        v
    } else {
        at(old, q)
    } by {
        if q.1 != p.1 {
            assert(new[q.1 as int] == old[q.1 as int]);
        }
    }
    assert forall|y: int| 0 <= y < h implies (#[trigger] new[y])@.len() == w by {
        if y != p.1 {
            assert(new[y] == old[y]);
        }
    }
}

/// What the breadth-first search keeps true of its queue and tables.
spec fn search_core(
    grid: &RoutingGrid,
    start: (usize, usize),
    queue: Seq<(usize, usize)>,
    visited: Seq<Vec<bool>>,
    parent: Seq<Vec<(usize, usize)>>,
    dist: Seq<Vec<usize>>,
) -> bool {
    let w = grid.width;
    let h = grid.height;
    &&& grid.wf()
    &&& shaped(visited, w, h)
    &&& shaped(parent, w, h)
    &&& shaped(dist, w, h)
    &&& 1 <= queue.len()
    &&& queue[0] == start
    &&& at(dist, start) == 0
    &&& queue.len() == grid_count(visited)
    &&& forall|i: int|
        0 <= i < queue.len() ==> in_grid(#[trigger] queue[i], w, h) && at(visited, queue[i]) && at(
            dist,
            queue[i],
        ) <= i
    &&& forall|c: (usize, usize)|
        in_grid(c, w, h) && #[trigger] at(visited, c) ==> exists|i: int|
            0 <= i < queue.len() && queue[i] == c
    &&& forall|c: (usize, usize)|
        in_grid(c, w, h) && #[trigger] at(visited, c) && c != start ==> {
            let p = at(parent, c);
            &&& in_grid(p, w, h)
            &&& at(visited, p)
            &&& adjacent(p, c)
            &&& at(dist, p) + 1 == at(dist, c)
        }
}

/// The first `k` neighbours of the `i`-th queued cell are visited or taken.
spec fn handled(grid: &RoutingGrid, queue: Seq<(usize, usize)>, visited: Seq<Vec<bool>>, i: int, k: int) -> bool {
    forall|j: int|
        0 <= j < k ==> {
            let q = #[trigger] neighbors(queue[i], grid.width, grid.height)[j];
            at(visited, q) || at(grid.cells@, q)
        }
}

/// Every cell dequeued so far is not `end` and has all its neighbours handled.
spec fn dequeued(
    grid: &RoutingGrid,
    end: (usize, usize),
    queue: Seq<(usize, usize)>,
    head: int,
    visited: Seq<Vec<bool>>,
) -> bool {
    &&& 0 <= head <= queue.len()
    &&& forall|i: int| 0 <= i < head ==> #[trigger] queue[i] != end
    &&& forall|i: int|
        0 <= i < head ==> #[trigger] handled(
            grid,
            queue,
            visited,
            i,
            neighbors(queue[i], grid.width, grid.height).len() as int,
        )
}

#[verifier::rlimit(60)]
#[verifier::spinoff_prover]
proof fn lemma_visit(
    grid: &RoutingGrid,
    start: (usize, usize),
    end: (usize, usize),
    queue: Seq<(usize, usize)>,
    head: int,
    visited: Seq<Vec<bool>>,
    parent: Seq<Vec<(usize, usize)>>,
    dist: Seq<Vec<usize>>,
    visited2: Seq<Vec<bool>>,
    parent2: Seq<Vec<(usize, usize)>>,
    dist2: Seq<Vec<usize>>,
    k: int,
)
    requires
        search_core(grid, start, queue, visited, parent, dist),
        dequeued(grid, end, queue, head - 1, visited),
        1 <= head <= queue.len(),
        handled(grid, queue, visited, head - 1, k),
        0 <= k < neighbors(queue[head - 1], grid.width, grid.height).len(),
        !at(visited, neighbors(queue[head - 1], grid.width, grid.height)[k]),
        updated(visited2, visited, neighbors(queue[head - 1], grid.width, grid.height)[k], true),
        updated(parent2, parent, neighbors(queue[head - 1], grid.width, grid.height)[k], queue[head - 1]),
        updated(
            dist2,
            dist,
            neighbors(queue[head - 1], grid.width, grid.height)[k],
            (at(dist, queue[head - 1]) + 1) as usize,
        ),
        grid_count(visited2) == grid_count(visited) + 1,
        at(dist, queue[head - 1]) + 1 <= usize::MAX,
    ensures
        ({
            let nb = neighbors(queue[head - 1], grid.width, grid.height)[k];
            let q2 = queue.push(nb);
            &&& search_core(grid, start, q2, visited2, parent2, dist2)
            &&& dequeued(grid, end, q2, head - 1, visited2)
            &&& handled(grid, q2, visited2, head - 1, k + 1)
        }),
{
    let w = grid.width;
    let h = grid.height;
    let cur = queue[head - 1];
    let nb = neighbors(cur, w, h)[k];
    let q2 = queue.push(nb);
    lemma_neighbors(cur, w, h);
    lemma_updated_at(visited2, visited, nb, true, w, h);
    lemma_updated_at(parent2, parent, nb, cur, w, h);
    lemma_updated_at(dist2, dist, nb, (at(dist, cur) + 1) as usize, w, h);
    assert(at(visited, start));
    assert forall|i: int| 0 <= i < q2.len() implies in_grid(#[trigger] q2[i], w, h) && at(visited2, q2[i])
        && at(dist2, q2[i]) <= i by {
        if i < queue.len() {
            assert(q2[i] == queue[i]);
            assert(at(visited, queue[i]));
        }
    }
    assert forall|c: (usize, usize)| in_grid(c, w, h) && #[trigger] at(visited2, c) implies exists|i: int|
        0 <= i < q2.len() && q2[i] == c by {
        if c == nb {
            assert(q2[queue.len() as int] == c);
        } else {
            let i = choose|i: int| 0 <= i < queue.len() && queue[i] == c;
            assert(q2[i] == c);
        }
    }
    assert forall|c: (usize, usize)| in_grid(c, w, h) && #[trigger] at(visited2, c) && c != start implies {
        let p = at(parent2, c);
        &&& in_grid(p, w, h)
        &&& at(visited2, p)
        &&& adjacent(p, c)
        &&& at(dist2, p) + 1 == at(dist2, c)
    } by {
        if c == nb {
            assert(at(visited, cur));
            assert(at(parent2, c) == cur);
            assert(cur != nb);
            assert(at(dist2, cur) == at(dist, cur));
            assert(at(visited2, cur));
            assert(adjacent(cur, nb));
        } else {
            assert(at(visited, c));
            let p = at(parent, c);
            assert(at(parent2, c) == p);
            assert(at(visited, p));
            assert(p != nb);
            assert(at(dist2, p) == at(dist, p));
            assert(at(dist2, c) == at(dist, c));
        }
    }
    assert forall|i: int| 0 <= i < head - 1 implies #[trigger] handled(
        grid,
        q2,
        visited2,
        i,
        neighbors(q2[i], w, h).len() as int,
    ) by {
        assert(q2[i] == queue[i]);
        assert(handled(grid, queue, visited, i, neighbors(queue[i], w, h).len() as int));
        assert forall|j: int| 0 <= j < neighbors(q2[i], w, h).len() implies {
            let q = #[trigger] neighbors(q2[i], w, h)[j];
            at(visited2, q) || at(grid.cells@, q)
        } by {
            lemma_neighbors(queue[i], w, h);
            let q = neighbors(queue[i], w, h)[j];
            assert(in_grid(q, w, h));
        }
    }
    assert forall|i: int| 0 <= i < head - 1 implies #[trigger] q2[i] != end by {
        assert(q2[i] == queue[i]);
    }
    assert forall|j: int| 0 <= j < k + 1 implies {
        let q = #[trigger] neighbors(q2[head - 1], w, h)[j];
        at(visited2, q) || at(grid.cells@, q)
    } by {
        assert(q2[head - 1] == cur);
        let q = neighbors(cur, w, h)[j];
        assert(in_grid(q, w, h));
    }
}

fn table<T: Copy>(width: usize, height: usize, v: T) -> (r: Vec<Vec<T>>)
    ensures
        shaped(r@, width, height),
        forall|y: int, x: int| 0 <= y < height && 0 <= x < width ==> #[trigger] r@[y]@[x] == v,
{
    let mut r: Vec<Vec<T>> = Vec::new();
    let mut y: usize = 0;
    while y < height
        invariant
            y <= height,
            r@.len() == y,
            forall|j: int| 0 <= j < y ==> (#[trigger] r@[j])@.len() == width,
            forall|j: int, x: int| 0 <= j < y && 0 <= x < width ==> #[trigger] r@[j]@[x] == v,
        decreases height - y,
    {
        let mut row: Vec<T> = Vec::new();
        let mut x: usize = 0;
        while x < width
            invariant
                x <= width,
                row@.len() == x,
                forall|i: int| 0 <= i < x ==> #[trigger] row@[i] == v,
            decreases width - x,
        {
            row.push(v);
            x = x + 1;
        }
        r.push(row);
        y = y + 1;
    }
    r
}

/// Follows the recorded predecessors back from `end` to `start` and returns
/// the cells in order from `start`.
#[verifier::rlimit(40)]
fn reconstruct_path(
    start: (usize, usize),
    end: (usize, usize),
    parent: &Vec<Vec<(usize, usize)>>,
    Ghost(visited): Ghost<Seq<Vec<bool>>>,
    Ghost(dist): Ghost<Seq<Vec<usize>>>,
    Ghost(w): Ghost<usize>,
    Ghost(h): Ghost<usize>,
) -> (r: Vec<(usize, usize)>)
    requires
        shaped(visited, w, h),
        shaped(parent@, w, h),
        shaped(dist, w, h),
        in_grid(end, w, h),
        at(visited, end),
        at(dist, start) == 0,
        forall|c: (usize, usize)|
            in_grid(c, w, h) && #[trigger] at(visited, c) && c != start ==> {
                let p = at(parent@, c);
                &&& in_grid(p, w, h)
                &&& at(visited, p)
                &&& adjacent(p, c)
                &&& at(dist, p) + 1 == at(dist, c)
            },
    ensures
        is_route(r@, start, end, w, h),
        r@.len() == at(dist, end) + 1,
{
    let mut rev: Vec<(usize, usize)> = Vec::new();
    rev.push(end);
    let mut cur = end;
    while cur.0 != start.0 || cur.1 != start.1
        invariant
            shaped(visited, w, h),
            shaped(parent@, w, h),
            shaped(dist, w, h),
            at(dist, start) == 0,
            forall|c: (usize, usize)|
                in_grid(c, w, h) && #[trigger] at(visited, c) && c != start ==> {
                    let p = at(parent@, c);
                    &&& in_grid(p, w, h)
                    &&& at(visited, p)
                    &&& adjacent(p, c)
                    &&& at(dist, p) + 1 == at(dist, c)
                },
            in_grid(cur, w, h),
            at(visited, cur),
            rev@.len() > 0,
            rev@[0] == end,
            rev@.last() == cur,
            forall|i: int| 0 <= i < rev@.len() ==> in_grid(#[trigger] rev@[i], w, h),
            forall|i: int| 0 <= i < rev@.len() - 1 ==> adjacent(rev@[i + 1], #[trigger] rev@[i]),
            rev@.len() == at(dist, end) - at(dist, cur) + 1,
        decreases at(dist, cur),
    {
        let next = parent[cur.1][cur.0];
        rev.push(next);
        cur = next;
    }
    let n = rev.len();
    let mut path: Vec<(usize, usize)> = Vec::new();
    let mut i: usize = n;
    while i > 0
        invariant
            n == rev@.len(),
            i <= n,
            path@.len() == n - i,
            forall|j: int| 0 <= j < n - i ==> #[trigger] path@[j] == rev@[n - 1 - j],
        decreases i,
    {
        path.push(rev[i - 1]);
        i = i - 1;
    }
    proof {
        assert forall|j: int| 0 <= j < path@.len() - 1 implies adjacent(
            #[trigger] path@[j],
            path@[j + 1],
        ) by {
            assert(path@[j] == rev@[n - 1 - j]);
            assert(path@[j + 1] == rev@[n - 2 - j]);
            assert(adjacent(rev@[(n - 2 - j) + 1], rev@[n - 2 - j]));
        }
        assert forall|j: int| 0 <= j < path@.len() implies in_grid(#[trigger] path@[j], w, h) by {
            assert(path@[j] == rev@[n - 1 - j]);
        }
    }
    path
}

proof fn lemma_count_zero(g: Seq<Vec<bool>>)
    requires
        forall|y: int, x: int| 0 <= y < g.len() && 0 <= x < g[y]@.len() ==> !#[trigger] g[y]@[x],
    ensures
        grid_count(g) == 0,
    decreases g.len(),
{
    if g.len() > 0 {
        lemma_count_zero(g.drop_last());
        lemma_row_zero(g.last()@);
    }
}

proof fn lemma_row_zero(r: Seq<bool>)
    requires
        forall|x: int| 0 <= x < r.len() ==> !#[trigger] r[x],
    ensures
        row_count(r) == 0,
    decreases r.len(),
{
    if r.len() > 0 {
        lemma_row_zero(r.drop_last());
    }
}

/// A search that dequeued every cell it visited without meeting `end`
/// cannot have run on a grid with no taken cell.
proof fn lemma_exhausted(
    grid: &RoutingGrid,
    start: (usize, usize),
    end: (usize, usize),
    queue: Seq<(usize, usize)>,
    visited: Seq<Vec<bool>>,
    parent: Seq<Vec<(usize, usize)>>,
    dist: Seq<Vec<usize>>,
)
    requires
        search_core(grid, start, queue, visited, parent, dist),
        dequeued(grid, end, queue, queue.len() as int, visited),
        in_grid(start, grid.width, grid.height),
        in_grid(end, grid.width, grid.height),
    ensures
        !grid.free(),
{
    let w = grid.width;
    let h = grid.height;
    if !grid.free() {
        return;
    }
    assert forall|c: (usize, usize), q: (usize, usize)|
        in_grid(c, w, h) && at(visited, c) && in_grid(q, w, h) && adjacent(c, q) implies #[trigger] at(
        visited,
        q,
    ) || !#[trigger] adjacent(c, q) by {
        let i = choose|i: int| 0 <= i < queue.len() && queue[i] == c;
        lemma_neighbors(c, w, h);
        let ns = neighbors(c, w, h);
        assert(ns.contains(q));
        let j = choose|j: int| 0 <= j < ns.len() && ns[j] == q;
        assert(handled(grid, queue, visited, i, ns.len() as int));
        assert(at(visited, ns[j]) || at(grid.cells@, ns[j]));
    }
    assert(at(visited, queue[0]));
    lemma_closed_reaches_all(visited, w, h, start, end);
    let i = choose|i: int| 0 <= i < queue.len() && queue[i] == end;
    assert(queue[i] != end);
}

/// Breadth-first search from `start` to `end` over the cells not taken.
/// A found route joins the two through side-sharing grid cells; on a grid
/// with no taken cells, a route is always found between two grid cells.
#[verifier::rlimit(60)]
#[verifier::spinoff_prover]
fn find_path(start: (usize, usize), end: (usize, usize), grid: &RoutingGrid) -> (r: Option<
    Vec<(usize, usize)>,
>)
    requires
        grid.wf(),
        grid.width * grid.height <= usize::MAX,
    ensures
        r matches Some(p) ==> is_route(p@, start, end, grid.width, grid.height),
        grid.free() && in_grid(start, grid.width, grid.height) && in_grid(
            end,
            grid.width,
            grid.height,
        ) ==> r is Some,
        grid.free() ==> (r matches Some(p) ==> p@.len() == manhattan(start, end) + 1),
{
    let w = grid.width;
    let h = grid.height;
    if !(start.0 < w && start.1 < h && end.0 < w && end.1 < h) {
        return None;
    }
    let mut visited = table(w, h, false);
    let mut parent = table(w, h, (0usize, 0usize));
    let mut dist = table(w, h, 0usize);
    proof {
        lemma_count_zero(visited@);
    }
    let ghost before = visited@;
    visited[start.1][start.0] = true;
    let mut queue: Vec<(usize, usize)> = Vec::new();
    queue.push(start);
    proof {
        assert(visited@ =~= before.update(start.1 as int, visited@[start.1 as int]));
        lemma_grid_count_set(before, visited@[start.1 as int], start.1 as int, start.0 as int);
        lemma_updated_at(visited@, before, start, true, w, h);
        assert forall|c: (usize, usize)| in_grid(c, w, h) && #[trigger] at(visited@, c) implies exists|i: int|
            0 <= i < queue@.len() && queue@[i] == c by {
            assert(queue@[0] == c);
        }
    }
    let mut head: usize = 0;
    while head < queue.len()
        invariant
            search_core(grid, start, queue@, visited@, parent@, dist@),
            dequeued(grid, end, queue@, head as int, visited@),
            grid.free() ==> layered(grid, start, queue@, head as int, visited@, dist@),
            w == grid.width,
            h == grid.height,
            w * h <= usize::MAX,
            in_grid(start, w, h),
            in_grid(end, w, h),
        decreases w * h - head,
    {
        proof {
            lemma_grid_count_bound(visited@, w);
            assert(h * w == w * h) by (nonlinear_arith);
        }
        let cur = queue[head];
        head = head + 1;
        proof {
            if grid.free() {
                assert(at(visited@, queue@[head - 1]));
            }
        }
        if cur.0 == end.0 && cur.1 == end.1 {
            return Some(
                reconstruct_path(
                    start,
                    end,
                    &parent,
                    Ghost(visited@),
                    Ghost(dist@),
                    Ghost(w),
                    Ghost(h),
                ),
            );
        }
        let nbs = get_neighbors(cur, w, h);
        proof {
            lemma_neighbors(cur, w, h);
        }
        let mut k: usize = 0;
        while k < nbs.len()
            invariant
                search_core(grid, start, queue@, visited@, parent@, dist@),
                dequeued(grid, end, queue@, head - 1, visited@),
                grid.free() ==> layered(grid, start, queue@, head - 1, visited@, dist@),
                handled(grid, queue@, visited@, head - 1, k as int),
                cur != end,
                1 <= head <= queue@.len(),
                queue@[head - 1] == cur,
                nbs@ == neighbors(cur, w, h),
                k <= nbs@.len(),
                w == grid.width,
                h == grid.height,
                w * h <= usize::MAX,
                in_grid(start, w, h),
                in_grid(end, w, h),
            decreases nbs@.len() - k,
        {
            let nb = nbs[k];
            if !visited[nb.1][nb.0] && !grid.is_occupied(nb.0, nb.1) {
                let d = dist[cur.1][cur.0];
                proof {
                    lemma_grid_count_bound(visited@, w);
                    assert(h * w == w * h) by (nonlinear_arith);
                    assert(at(dist@, queue@[head - 1]) <= head - 1);
                }
                let ghost v0 = visited@;
                let ghost p0 = parent@;
                let ghost d0 = dist@;
                let ghost q0 = queue@;
                visited[nb.1][nb.0] = true;
                parent[nb.1][nb.0] = cur;
                dist[nb.1][nb.0] = d + 1;
                proof {
                    assert(visited@ =~= v0.update(nb.1 as int, visited@[nb.1 as int]));
                    lemma_grid_count_set(v0, visited@[nb.1 as int], nb.1 as int, nb.0 as int);
                    lemma_visit(grid, start, end, q0, head as int, v0, p0, d0, visited@, parent@, dist@, k as int);
                    if grid.free() {
                        lemma_visit_layered(grid, start, end, q0, head as int, v0, p0, d0, visited@, dist@, k as int);
                    }
                }
                queue.push(nb);
            } else {
                proof {
                    assert forall|j: int| 0 <= j < k + 1 implies {
                        let q = #[trigger] neighbors(queue@[head - 1], w, h)[j];
                        at(visited@, q) || at(grid.cells@, q)
                    } by {
                        if j < k {
                            assert(handled(grid, queue@, visited@, head - 1, k as int));
                        }
                    }
                }
            }
            k = k + 1;
        }
        proof {
            assert forall|i: int| 0 <= i < head implies #[trigger] queue@[i] != end by {
                if i < head - 1 {
                    assert(dequeued(grid, end, queue@, head - 1, visited@));
                }
            }
            if grid.free() && head < queue@.len() {
                assert(layered(grid, start, queue@, head - 1, visited@, dist@));
                assert(at(dist@, queue@[head - 1]) <= at(dist@, queue@[head as int]));
                assert forall|i: int| 0 <= i < queue@.len() implies at(dist@, #[trigger] queue@[i]) <= at(dist@, queue@[head as int]) + 1 by {
                    assert(at(dist@, queue@[i]) <= at(dist@, queue@[head - 1]) + 1);
                }
            }
            assert forall|i: int| 0 <= i < head implies #[trigger] handled(
                grid,
                queue@,
                visited@,
                i,
                neighbors(queue@[i], w, h).len() as int,
            ) by {
                if i < head - 1 {
                    assert(dequeued(grid, end, queue@, head - 1, visited@));
                }
            }
        }
    }
    proof {
        lemma_exhausted(grid, start, end, queue@, visited@, parent@, dist@);
    }
    None
}

/// The routes of a netlist's connections, keyed by (source, sink).
#[derive(Debug, Clone)]
pub struct RoutingResult {
    pub routes: RouteTable,
}

/// Where a port's element stands: tables, flip-flops and memories by id;
/// named inputs and outputs have no position.
pub open spec fn position_of(
    port: ElementPort,
    luts: Map<usize, (usize, usize)>,
    dffs: Map<usize, (usize, usize)>,
    brams: Map<usize, (usize, usize)>,
) -> Option<(usize, usize)> {
    match port {
        ElementPort::LUT { id, port: _ } => if luts.contains_key(id) {
            Some(luts[id])
        } else {
            None
        },
        ElementPort::DFF { id, port: _ } => if dffs.contains_key(id) {
            Some(dffs[id])
        } else {
            None
        },
        ElementPort::BRAM { id, port: _ } => if brams.contains_key(id) {
            Some(brams[id])
        } else {
            None
        },
        _ => None,
    }
}

pub open spec fn placed_at(port: ElementPort, placement: PlacementResult) -> Option<(usize, usize)> {
    position_of(
        port,
        placement.lut_positions@,
        placement.dff_positions@,
        placement.bram_positions@,
    )
}

/// Both ends of `c` have a position on the grid, given the positions of
/// tables, flip-flops and memories by id.
pub open spec fn ends_placed(
    c: ConnectionConfig,
    luts: Map<usize, (usize, usize)>,
    dffs: Map<usize, (usize, usize)>,
    brams: Map<usize, (usize, usize)>,
    w: usize,
    h: usize,
) -> bool {
    &&& position_of(c.from, luts, dffs, brams) matches Some(a) && in_grid(a, w, h)
    &&& position_of(c.to, luts, dffs, brams) matches Some(b) && in_grid(b, w, h)
}

/// Both ends of `c` have a position on the grid.
pub open spec fn routable(c: ConnectionConfig, placement: PlacementResult, w: usize, h: usize) -> bool {
    ends_placed(
        c,
        placement.lut_positions@,
        placement.dff_positions@,
        placement.bram_positions@,
        w,
        h,
    )
}

/// A route recorded for (`from`, `to`) joins their positions by a shortest
/// path of side-sharing cells.
pub open spec fn routed(
    key: (ElementPort, ElementPort),
    path: Seq<(usize, usize)>,
    placement: PlacementResult,
    w: usize,
    h: usize,
) -> bool {
    &&& placed_at(key.0, placement) is Some
    &&& placed_at(key.1, placement) is Some
    &&& is_route(
        path,
        placed_at(key.0, placement).unwrap(),
        placed_at(key.1, placement).unwrap(),
        w,
        h,
    )
    &&& path.len() == manhattan(placed_at(key.0, placement).unwrap(), placed_at(key.1, placement).unwrap()) + 1
}

proof fn lemma_same_port_position(a: ElementPort, b: ElementPort, placement: PlacementResult)
    requires
        same_port(a, b),
    ensures
        placed_at(a, placement) == placed_at(b, placement),
{
}

fn get_element_position(port: &ElementPort, placement: &PlacementResult) -> (r: Option<(usize, usize)>)
    ensures
        r == placed_at(*port, *placement),
{
    let found = match port {
        ElementPort::LUT { id, port: _ } => placement.lut_positions.get(id),
        ElementPort::DFF { id, port: _ } => placement.dff_positions.get(id),
        ElementPort::BRAM { id, port: _ } => placement.bram_positions.get(id),
        _ => None,
    };
    match found {
        Some(p) => Some(*p),
        None => None,
    }
}

/// Finds a breadth-first route for each connection, in order, on one grid.
/// Routes are not reserved, so they may share cells. A connection with an
/// end that has no position on the grid is reported.
pub fn route_connections(
    config: &FPGAConfig,
    placement: &PlacementResult,
    grid_width: usize,
    grid_height: usize,
) -> (r: Result<RoutingResult, FabricError>)
    requires
        grid_width * grid_height <= usize::MAX,
    ensures
        r is Ok <==> forall|i: int|
            0 <= i < config.connections@.len() ==> routable(
                #[trigger] config.connections@[i],
                *placement,
                grid_width,
                grid_height,
            ),
        r is Err ==> r == Err::<RoutingResult, FabricError>(FabricError::Unroutable),
        r matches Ok(t) ==> {
            &&& t.routes.wf()
            &&& forall|i: int|
                0 <= i < config.connections@.len() ==> (#[trigger] t.routes.index_of(
                    (config.connections@[i].from, config.connections@[i].to),
                )) is Some
            &&& forall|j: int|
                0 <= j < t.routes.entries@.len() ==> keyed_by_connection(
                    #[trigger] t.routes.entries@[j].0,
                    config.connections@,
                    config.connections@.len() as int,
                )
            &&& forall|j: int|
                0 <= j < t.routes.entries@.len() ==> routed(
                    #[trigger] t.routes.entries@[j].0,
                    t.routes.entries@[j].1@,
                    *placement,
                    grid_width,
                    grid_height,
                )
        },
{
    let grid = RoutingGrid::new(grid_width, grid_height);
    let mut routes = RouteTable::new();
    let conns = &config.connections;
    let mut i: usize = 0;
    while i < conns.len()
        invariant
            grid.wf(),
            grid.free(),
            grid.width == grid_width,
            grid.height == grid_height,
            grid_width * grid_height <= usize::MAX,
            conns == &config.connections,
            i <= conns@.len(),
            forall|j: int| 0 <= j < i ==> routable(#[trigger] conns@[j], *placement, grid_width, grid_height),
            forall|j: int|
                0 <= j < i ==> (#[trigger] routes.index_of((conns@[j].from, conns@[j].to))) is Some,
            routes.wf(),
            forall|j: int|
                0 <= j < routes.entries@.len() ==> keyed_by_connection(
                    #[trigger] routes.entries@[j].0,
                    conns@,
                    i as int,
                ),
            forall|j: int|
                0 <= j < routes.entries@.len() ==> routed(
                    #[trigger] routes.entries@[j].0,
                    routes.entries@[j].1@,
                    *placement,
                    grid_width,
                    grid_height,
                ),
        decreases conns@.len() - i,
    {
        let c = &conns[i];
        let start = get_element_position(&c.from, placement);
        let end = get_element_position(&c.to, placement);
        let (a, b) = match (start, end) {
            (Some(a), Some(b)) => (a, b),
            _ => return Err(FabricError::Unroutable),
        };
        if !(a.0 < grid_width && a.1 < grid_height && b.0 < grid_width && b.1 < grid_height) {
            return Err(FabricError::Unroutable);
        }
        let path = match find_path(a, b, &grid) {
            Some(p) => p,
            None => return Err(FabricError::Unroutable),
        };
        let ghost old_routes = routes;
        let key = (copy_port(&c.from), copy_port(&c.to));
        let ghost p = path@;
        routes.insert(key, path);
        proof {
            assert forall|j: int| 0 <= j < routes.entries@.len() implies routed(
                #[trigger] routes.entries@[j].0,
                routes.entries@[j].1@,
                *placement,
                grid_width,
                grid_height,
            ) by {
                if exists|m: int| 0 <= m < old_routes.entries@.len() && routes.entries@[j] == old_routes.entries@[m] {
                    let m = choose|m: int| 0 <= m < old_routes.entries@.len() && routes.entries@[j] == old_routes.entries@[m];
                    assert(routed(old_routes.entries@[m].0, old_routes.entries@[m].1@, *placement, grid_width, grid_height));
                } else {
                    let e = routes.entries@[j].0;
                    lemma_same_port_position(e.0, c.from, *placement);
                    lemma_same_port_position(e.1, c.to, *placement);
                }
            }
            assert forall|j: int| 0 <= j < routes.entries@.len() implies keyed_by_connection(
                #[trigger] routes.entries@[j].0,
                conns@,
                i + 1,
            ) by {
                if exists|m: int| 0 <= m < old_routes.entries@.len() && routes.entries@[j] == old_routes.entries@[m] {
                    let m = choose|m: int| 0 <= m < old_routes.entries@.len() && routes.entries@[j] == old_routes.entries@[m];
                    assert(keyed_by_connection(old_routes.entries@[m].0, conns@, i as int));
                    let n = choose|n: int| 0 <= n < i && same_key(old_routes.entries@[m].0, (conns@[n].from, conns@[n].to));
                    assert(same_key(routes.entries@[j].0, (conns@[n].from, conns@[n].to)));
                } else {
                    lemma_same_key_trans(routes.entries@[j].0, key, (conns@[i as int].from, conns@[i as int].to));
                }
            }
            assert forall|j: int| 0 <= j < i + 1 implies (#[trigger] routes.index_of(
                (conns@[j].from, conns@[j].to),
            )) is Some by {
                if j < i {
                    let m = old_routes.index_of((conns@[j].from, conns@[j].to)).unwrap();
                    let n = choose|n: int| 0 <= n < routes.entries@.len() && same_key(
                        #[trigger] routes.entries@[n].0,
                        old_routes.entries@[m].0,
                    );
                    lemma_same_key_trans(routes.entries@[n].0, old_routes.entries@[m].0, (conns@[j].from, conns@[j].to));
                } else {
                    let n = choose|n: int| 0 <= n < routes.entries@.len() && same_key(routes.entries@[n].0, key)
                        && routes.entries@[n].1@ == p;
                    lemma_same_key_trans(routes.entries@[n].0, key, (conns@[j].from, conns@[j].to));
                }
            }
        }
        i = i + 1;
    }
    Ok(RoutingResult { routes })
}

/// Key `k` names one of the first `n` connections.
pub open spec fn keyed_by_connection(k: (ElementPort, ElementPort), conns: Seq<ConnectionConfig>, n: int) -> bool {
    exists|i: int| 0 <= i < n && same_key(k, (conns[i].from, conns[i].to))
}

/// A copy of a port reference that names the same port.
fn copy_port(p: &ElementPort) -> (r: ElementPort)
    ensures
        same_port(r, *p),
        same_port(*p, r),
{
    match p {
        ElementPort::Input { name } => ElementPort::Input { name: name.clone() },
        ElementPort::Output { name } => ElementPort::Output { name: name.clone() },
        ElementPort::LUT { id, port } => ElementPort::LUT { id: *id, port: *port },
        ElementPort::DFF { id, port } => ElementPort::DFF { id: *id, port: port.clone() },
        ElementPort::BRAM { id, port } => ElementPort::BRAM { id: *id, port: port.clone() },
    }
}

proof fn lemma_same_key_trans(
    a: (ElementPort, ElementPort),
    b: (ElementPort, ElementPort),
    c: (ElementPort, ElementPort),
)
    requires
        same_key(a, b),
        same_key(c, b) || same_key(b, c),
    ensures
        same_key(a, c),
{
}

/// The number of side steps between two cells.
pub open spec fn manhattan(a: (usize, usize), b: (usize, usize)) -> int {
    (if a.0 >= b.0 {
        a.0 - b.0
    } else {
        b.0 - a.0
    }) + (if a.1 >= b.1 {
        a.1 - b.1
    } else {
        b.1 - a.1
    })
}

/// On a grid with no taken cell, the search visits cells in order of their
/// distance from `start`, and records for each its side-step distance.
spec fn layered(
    grid: &RoutingGrid,
    start: (usize, usize),
    queue: Seq<(usize, usize)>,
    h: int,
    visited: Seq<Vec<bool>>,
    dist: Seq<Vec<usize>>,
) -> bool {
    &&& forall|i: int, j: int| 0 <= i < j < queue.len() ==> at(dist, #[trigger] queue[i]) <= at(dist, #[trigger] queue[j])
    &&& 0 <= h < queue.len() ==> forall|i: int| 0 <= i < queue.len() ==> at(dist, #[trigger] queue[i]) <= at(dist, queue[h]) + 1
    &&& forall|c: (usize, usize)| in_grid(c, grid.width, grid.height) && #[trigger] at(visited, c) ==> at(dist, c) == manhattan(start, c)
}

/// Every cell nearer to `start` than the cell being expanded has been
/// visited.
#[verifier::rlimit(80)]
#[verifier::spinoff_prover]
proof fn lemma_nearer_visited(
    grid: &RoutingGrid,
    start: (usize, usize),
    end: (usize, usize),
    queue: Seq<(usize, usize)>,
    head: int,
    visited: Seq<Vec<bool>>,
    parent: Seq<Vec<(usize, usize)>>,
    dist: Seq<Vec<usize>>,
    c: (usize, usize),
)
    requires
        grid.free(),
        search_core(grid, start, queue, visited, parent, dist),
        dequeued(grid, end, queue, head - 1, visited),
        layered(grid, start, queue, head - 1, visited, dist),
        1 <= head <= queue.len(),
        in_grid(c, grid.width, grid.height),
        manhattan(start, c) < at(dist, queue[head - 1]),
    ensures
        at(visited, c),
    decreases manhattan(start, c),
{
    let w = grid.width;
    let h = grid.height;
    if c != start {
        let c2: (usize, usize) = if c.0 > start.0 {
            ((c.0 - 1) as usize, c.1)
        } else if c.0 < start.0 {
            ((c.0 + 1) as usize, c.1)
        } else if c.1 > start.1 {
            (c.0, (c.1 - 1) as usize)
        } else {
            (c.0, (c.1 + 1) as usize)
        };
        assert(in_grid(start, w, h)) by {
            assert(in_grid(queue[0], w, h));
        }
        lemma_nearer_visited(grid, start, end, queue, head, visited, parent, dist, c2);
        let i = choose|i: int| 0 <= i < queue.len() && queue[i] == c2;
        assert(at(dist, c2) == manhattan(start, c2));
        assert(manhattan(start, c2) == manhattan(start, c) - 1);
        assert(at(dist, queue[i]) < at(dist, queue[head - 1]));
        if i >= head - 1 {
            if i > head - 1 {
                assert(at(dist, queue[head - 1]) <= at(dist, queue[i]));
            }
        }
        assert(i < head - 1);
        assert(handled(grid, queue, visited, i, neighbors(queue[i], w, h).len() as int));
        lemma_neighbors(c2, w, h);
        assert(adjacent(c2, c));
        let ns = neighbors(c2, w, h);
        assert(ns.contains(c));
        let j = choose|j: int| 0 <= j < ns.len() && ns[j] == c;
        assert(at(visited, ns[j]) || at(grid.cells@, ns[j]));
    }
}

proof fn lemma_adjacent_manhattan(s: (usize, usize), a: (usize, usize), b: (usize, usize))
    requires
        adjacent(a, b),
    ensures
        manhattan(s, b) == manhattan(s, a) + 1 || manhattan(s, b) == manhattan(s, a) - 1,
{
}

#[verifier::rlimit(80)]
#[verifier::spinoff_prover]
proof fn lemma_visit_layered(
    grid: &RoutingGrid,
    start: (usize, usize),
    end: (usize, usize),
    queue: Seq<(usize, usize)>,
    head: int,
    visited: Seq<Vec<bool>>,
    parent: Seq<Vec<(usize, usize)>>,
    dist: Seq<Vec<usize>>,
    visited2: Seq<Vec<bool>>,
    dist2: Seq<Vec<usize>>,
    k: int,
)
    requires
        grid.free(),
        search_core(grid, start, queue, visited, parent, dist),
        dequeued(grid, end, queue, head - 1, visited),
        layered(grid, start, queue, head - 1, visited, dist),
        1 <= head <= queue.len(),
        0 <= k < neighbors(queue[head - 1], grid.width, grid.height).len(),
        !at(visited, neighbors(queue[head - 1], grid.width, grid.height)[k]),
        updated(visited2, visited, neighbors(queue[head - 1], grid.width, grid.height)[k], true),
        updated(
            dist2,
            dist,
            neighbors(queue[head - 1], grid.width, grid.height)[k],
            (at(dist, queue[head - 1]) + 1) as usize,
        ),
        at(dist, queue[head - 1]) + 1 <= usize::MAX,
    ensures
        layered(
            grid,
            start,
            queue.push(neighbors(queue[head - 1], grid.width, grid.height)[k]),
            head - 1,
            visited2,
            dist2,
        ),
{
    let w = grid.width;
    let h = grid.height;
    let cur = queue[head - 1];
    let nb = neighbors(cur, w, h)[k];
    let q2 = queue.push(nb);
    lemma_neighbors(cur, w, h);
    lemma_updated_at(visited2, visited, nb, true, w, h);
    lemma_updated_at(dist2, dist, nb, (at(dist, cur) + 1) as usize, w, h);
    assert(at(visited, cur));
    assert(cur != nb);
    lemma_adjacent_manhattan(start, cur, nb);
    if manhattan(start, nb) < at(dist, cur) {
        lemma_nearer_visited(grid, start, end, queue, head, visited, parent, dist, nb);
    }
    assert(at(dist2, nb) == manhattan(start, nb));
    assert forall|i: int| 0 <= i < q2.len() implies at(dist2, #[trigger] q2[i]) as int == if i < queue.len() {
        at(dist, queue[i]) as int
    } else {
        at(dist, cur) + 1
    } by {
        if i < queue.len() {
            assert(q2[i] == queue[i]);
            assert(at(visited, queue[i]));
        }
    }
    assert forall|i: int, j: int| 0 <= i < j < q2.len() implies at(dist2, #[trigger] q2[i]) <= at(
        dist2,
        #[trigger] q2[j],
    ) by {
        assert(at(dist2, q2[i]) as int == if i < queue.len() { at(dist, queue[i]) as int } else { at(dist, cur) + 1 });
        assert(at(dist2, q2[j]) as int == if j < queue.len() { at(dist, queue[j]) as int } else { at(dist, cur) + 1 });
        if j < queue.len() {
            assert(at(dist, queue[i]) <= at(dist, queue[j]));
        } else {
            assert(at(dist, queue[i]) <= at(dist, cur) + 1);
        }
    }
    assert forall|i: int| 0 <= i < q2.len() implies at(dist2, #[trigger] q2[i]) <= at(dist2, q2[head - 1]) + 1 by {
        assert(at(dist2, q2[i]) as int == if i < queue.len() { at(dist, queue[i]) as int } else { at(dist, cur) + 1 });
        assert(q2[head - 1] == cur);
    }
    assert forall|c: (usize, usize)| in_grid(c, w, h) && #[trigger] at(visited2, c) implies at(dist2, c)
        == manhattan(start, c) by {
        if c != nb {
            assert(at(visited, c));
        }
    }
}

} // verus!
