use vstd::prelude::*;

use crate::error::SimulationError;

verus! {

/// A lattice coordinate of one voxel.
#[derive(Clone, Copy, Debug, PartialEq, Eq, Structural)]
pub struct Voxel {
    pub x: usize,
    pub y: usize,
}

/// Strict lexicographic order of voxel coordinates.
pub open spec fn voxel_lt(a: Voxel, b: Voxel) -> bool {
    a.x < b.x || (a.x == b.x && a.y < b.y)
}

/// A regular two-dimensional grid of `nx` by `ny` voxels.
#[derive(Clone, Copy, Debug, PartialEq, Eq, Structural)]
pub struct VoxelGrid {
    pub nx: usize,
    pub ny: usize,
}

impl VoxelGrid {
    /// At least one voxel per dimension, and every voxel has a `usize` index.
    pub open spec fn wf(self) -> bool {
        self.nx >= 1 && self.ny >= 1 && self.nx * self.ny <= usize::MAX
    }

    pub open spec fn count(self) -> int {
        self.nx * self.ny
    }

    pub open spec fn contains(self, x: int, y: int) -> bool {
        0 <= x < self.nx && 0 <= y < self.ny
    }

    pub open spec fn has(self, v: Voxel) -> bool {
        self.contains(v.x as int, v.y as int)
    }

    /// The dense index of a voxel, row by row along `x`.
    pub open spec fn index_of(self, v: Voxel) -> int {
        v.x * self.ny + v.y
    }

    /// The voxel whose dense index is `i`.
    pub open spec fn coord(self, i: int) -> Voxel {
        Voxel { x: (i / (self.ny as int)) as usize, y: (i % (self.ny as int)) as usize }
    }

    /// `w` is a voxel of the grid other than `v`, at most one step away in each dimension.
    pub open spec fn adjacent(self, v: Voxel, w: Voxel) -> bool {
        &&& self.has(w)
        &&& w != v
        &&& -1 <= w.x - v.x <= 1
        &&& -1 <= w.y - v.y <= 1
    }

    /// Builds a grid, refusing an empty dimension or more voxels than can be indexed.
    pub fn new(nx: usize, ny: usize) -> (r: Result<VoxelGrid, SimulationError>)
        ensures
            r is Ok <==> (nx >= 1 && ny >= 1 && nx * ny <= usize::MAX),
            r matches Ok(g) ==> g.nx == nx && g.ny == ny && g.wf(),
            r matches Err(e) ==> e == SimulationError::InvalidDomain,
    {
        if nx < 1 || ny < 1 {
            return Err(SimulationError::InvalidDomain);
        }
        match nx.checked_mul(ny) {
            Some(_) => Ok(VoxelGrid { nx, ny }),
            None => Err(SimulationError::InvalidDomain),
        }
    }

    /// The number of voxels.
    pub fn n_voxels(&self) -> (r: usize)
        requires
            self.wf(),
        ensures
            r == self.count(),
    {
        self.nx * self.ny
    }

    /// The voxel at integer cell `(cx, cy)`, or `None` where the cell lies outside the grid.
    pub fn voxel_of_cell(&self, cx: i64, cy: i64) -> (r: Option<Voxel>)
        ensures
            r is Some <==> self.contains(cx as int, cy as int),
            r matches Some(v) ==> v.x == cx && v.y == cy,
    {
        if 0 <= cx && 0 <= cy && (cx as u64) < (self.nx as u64) && (cy as u64) < (self.ny as u64) {
            Some(Voxel { x: cx as usize, y: cy as usize })
        } else {
            None
        }
    }

    /// The dense index of a voxel of the grid.
    pub fn index(&self, v: Voxel) -> (r: usize)
        requires
            self.wf(),
            self.has(v),
        ensures
            r == self.index_of(v),
            r < self.count(),
    {
        proof {
            lemma_index_bound(self.nx as int, self.ny as int, v.x as int, v.y as int);
        }
        v.x * self.ny + v.y
    }

    /// The voxel whose dense index is `i`.
    pub fn voxel_at(&self, i: usize) -> (r: Voxel)
        requires
            self.wf(),
            i < self.count(),
        ensures
            self.has(r),
            self.index_of(r) == i,
            r == self.coord(i as int),
    {
        let x = i / self.ny;
        let y = i % self.ny;
        proof {
            lemma_div_bound(self.nx as int, self.ny as int, i as int);
        }
        Voxel { x, y }
    }

    /// The adjacent voxels of `v`, in increasing lexicographic order.
    pub fn neighbors_of(&self, v: Voxel) -> (r: Vec<Voxel>)
        requires
            self.has(v),
        ensures
            forall|w: Voxel| r@.contains(w) <==> self.adjacent(v, w),
            forall|i: int, j: int| 0 <= i < j < r.len() ==> voxel_lt(#[trigger] r[i], #[trigger] r[j]),
            r.len() <= 9,
    {
        let xlo: usize = if v.x > 0 { v.x - 1 } else { 0 };
        let xhi: usize = if v.x + 1 < self.nx { v.x + 1 } else { v.x };
        let ylo: usize = if v.y > 0 { v.y - 1 } else { 0 };
        let yhi: usize = if v.y + 1 < self.ny { v.y + 1 } else { v.y };
        let mut r: Vec<Voxel> = Vec::new();
        let mut xi: usize = xlo;
        while xi <= xhi
            invariant
                self.has(v),
                xlo <= xi <= xhi + 1,
                xlo == (if v.x > 0 { v.x - 1 } else { 0 }),
                xhi == (if v.x + 1 < self.nx { v.x + 1 } else { v.x as int }),
                ylo == (if v.y > 0 { v.y - 1 } else { 0 }),
                yhi == (if v.y + 1 < self.ny { v.y + 1 } else { v.y as int }),
                forall|w: Voxel| r@.contains(w) <==> (self.adjacent(v, w) && w.x < xi),
                forall|i: int| 0 <= i < r.len() ==> (#[trigger] r[i]).x < xi,
                r.len() <= 3 * (xi - xlo),
                forall|i: int, j: int| 0 <= i < j < r.len() ==> voxel_lt(#[trigger] r[i], #[trigger] r[j]),
            decreases xhi + 1 - xi,
        {
            let mut yi: usize = ylo;
            while yi <= yhi
                invariant
                    self.has(v),
                    xlo <= xi <= xhi,
                    ylo <= yi <= yhi + 1,
                    r.len() <= 3 * (xi - xlo) + (yi - ylo),
                    xlo == (if v.x > 0 { v.x - 1 } else { 0 }),
                    xhi == (if v.x + 1 < self.nx { v.x + 1 } else { v.x as int }),
                    ylo == (if v.y > 0 { v.y - 1 } else { 0 }),
                    yhi == (if v.y + 1 < self.ny { v.y + 1 } else { v.y as int }),
                    forall|w: Voxel| r@.contains(w) <==> (self.adjacent(v, w) && (w.x < xi || (w.x == xi && w.y < yi))),
                    forall|i: int| 0 <= i < r.len() ==> voxel_lt(#[trigger] r[i], Voxel { x: xi, y: yi }),
                    forall|i: int, j: int| 0 <= i < j < r.len() ==> voxel_lt(#[trigger] r[i], #[trigger] r[j]),
                decreases yhi + 1 - yi,
            {
                let w = Voxel { x: xi, y: yi };
                if xi != v.x || yi != v.y {
                    let ghost prev = r@;
                    r.push(w);
                    assert forall|u: Voxel| r@.contains(u) <==> (self.adjacent(v, u) && (u.x < xi || (u.x == xi && u.y <= yi))) by {
                        if r@.contains(u) && u != w {
                            let k = choose|k: int| 0 <= k < r.len() && r[k] == u;
                            assert(prev[k] == u);
                            assert(prev.contains(u));
                        }
                        if u != w && prev.contains(u) {
                            let k = choose|k: int| 0 <= k < prev.len() && prev[k] == u;
                            assert(r[k] == u);
                        }
                        if u == w {
                            assert(r[r.len() - 1] == u);
                        }
                    }
                }
                yi = yi + 1;
            }
            xi = xi + 1;
        }
        r
    }
}

/// Dense indices and coordinates are inverse to each other.
pub proof fn lemma_coord_index(grid: VoxelGrid, v: Voxel)
    requires
        grid.wf(),
        grid.has(v),
    ensures
        0 <= grid.index_of(v) < grid.count(),
        grid.coord(grid.index_of(v)) == v,
{
    lemma_index_bound(grid.nx as int, grid.ny as int, v.x as int, v.y as int);
    vstd::arithmetic::div_mod::lemma_fundamental_div_mod_converse(
        grid.index_of(v),
        grid.ny as int,
        v.x as int,
        v.y as int,
    );
}

/// The coordinate of a dense index lies in the grid.
pub proof fn lemma_coord_has(grid: VoxelGrid, i: int)
    requires
        grid.wf(),
        0 <= i < grid.count(),
    ensures
        grid.has(grid.coord(i)),
        grid.index_of(grid.coord(i)) == i,
{
    lemma_div_bound(grid.nx as int, grid.ny as int, i);
}

proof fn lemma_index_bound(nx: int, ny: int, x: int, y: int)
    requires
        0 <= x < nx,
        0 <= y < ny,
    ensures
        0 <= x * ny + y < nx * ny,
{
    assert(x * ny + y < nx * ny) by (nonlinear_arith)
        requires 0 <= x < nx, 0 <= y < ny;
    assert(0 <= x * ny) by (nonlinear_arith)
        requires 0 <= x, 0 <= ny;
}

proof fn lemma_div_bound(nx: int, ny: int, i: int)
    requires
        nx >= 1,
        ny >= 1,
        0 <= i < nx * ny,
    ensures
        0 <= i / ny < nx,
        0 <= i % ny < ny,
        (i / ny) * ny + i % ny == i,
{
    assert(i / ny < nx) by (nonlinear_arith)
        requires ny >= 1, 0 <= i < nx * ny;
    assert((i / ny) * ny + i % ny == i) by (nonlinear_arith)
        requires ny >= 1;
    assert(0 <= i / ny) by (nonlinear_arith)
        requires ny >= 1, 0 <= i;
}

} // verus!
