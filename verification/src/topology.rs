use vstd::prelude::*;

verus! {

/// One corner of a Voronoi cell: the neighbouring cell across the edge that
/// leaves the corner, and that edge's id.
#[derive(Clone, Copy, Debug, PartialEq, Eq)]
pub struct Corner {
    pub neighbor: usize,
    pub edge: usize,
}

/// The cell adjacency of a sphere mesh as plain values: each cell's corners in
/// the mesh's own corner order, and the two cells either side of each edge.
///
/// This is everything the combinatorial stages read of a mesh; positions,
/// areas, and point location stay with the geometry.
#[derive(Clone, Debug)]
pub struct MeshTopology {
    pub cell_corners: Vec<Vec<Corner>>,
    pub edge_cells: Vec<[usize; 2]>,
}

impl MeshTopology {
    pub open spec fn cells(&self) -> nat {
        self.cell_corners@.len()
    }

    pub open spec fn edges(&self) -> nat {
        self.edge_cells@.len()
    }

    /// The `k`th corner of `cell`.
    pub open spec fn corner(&self, cell: int, k: int) -> Corner {
        self.cell_corners@[cell]@[k]
    }

    pub open spec fn degree(&self, cell: int) -> nat {
        self.cell_corners@[cell]@.len()
    }

    /// Whether `other` is one of `cell`'s corner neighbours.
    pub open spec fn adjacent(&self, cell: int, other: int) -> bool {
        exists|k: int| 0 <= k < self.degree(cell) && self.corner(cell, k).neighbor == other
    }

    /// Every corner names a cell and an edge of this mesh, and every edge
    /// names two cells of it.
    pub open spec fn wf(&self) -> bool {
        &&& forall|c: int, k: int|
            0 <= c < self.cells() && 0 <= k < self.degree(c) ==> {
                &&& #[trigger] self.corner(c, k).neighbor < self.cells()
                &&& self.corner(c, k).edge < self.edges()
            }
        &&& forall|e: int|
            0 <= e < self.edges() ==> (#[trigger] self.edge_cells@[e])[0] < self.cells()
                && self.edge_cells@[e][1] < self.cells()
    }

    pub fn cell_count(&self) -> (count: usize)
        ensures
            count == self.cells(),
    {
        self.cell_corners.len()
    }

    pub fn edge_count(&self) -> (count: usize)
        ensures
            count == self.edges(),
    {
        self.edge_cells.len()
    }

    /// Whether two cells share an edge, read off the first cell's corners.
    pub fn are_adjacent(&self, cell: usize, other: usize) -> (adjacent: bool)
        requires
            cell < self.cells(),
        ensures
            adjacent == self.adjacent(cell as int, other as int),
    {
        let corners = &self.cell_corners[cell];
        let mut k: usize = 0;
        while k < corners.len()
            invariant
                cell < self.cells(),
                corners@ == self.cell_corners@[cell as int]@,
                k <= corners.len(),
                forall|j: int| 0 <= j < k ==> self.corner(cell as int, j).neighbor != other,
            decreases corners.len() - k,
        {
            if corners[k].neighbor == other {
                assert(self.corner(cell as int, k as int).neighbor == other);
                return true;
            }
            k += 1;
        }
        false
    }
}

} // verus!
