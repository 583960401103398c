//! Plate partitioning: the ownership a partition hands every later stage, and
//! the shortest-arrival growth that fills it.
//!
//! Growth runs one multi-source search over per-edge integer costs that never
//! crosses a step its bounds forbid. The partition confines each plate to the
//! crack face its seed sits in; continental nuclei grow over the whole sphere
//! with the same engine and read only which cells it reached.

use crate::stage::StageInputError;
use crate::topology::MeshTopology;
use vstd::prelude::*;
use vstd::set_lib::*;

verus! {

/// Marks a cell growth has not reached.
pub const UNASSIGNED_PLATE: usize = usize::MAX;
/// The baseline traversal cost of one edge.
pub const BASE_GROWTH_COST: u64 = 100;
/// Largest percentage an edge's cost may vary above or below the baseline.
pub const MAX_GROWTH_ROUGHNESS: u32 = 99;
/// The cost scale that leaves an edge's cost as it is.
pub const COST_SCALE_ONE: u64 = 1024;
/// Largest region or cell cost scale growth accepts.
pub const MAX_COST_SCALE: u64 = 4096;
/// Largest cost a seed may start growing from.
pub const MAX_SEED_COST: u64 = 0xffff_ffff;
/// Largest cost one edge can carry: the roughest baseline under the largest
/// region and cell scales.
pub const MAX_EDGE_COST: u64 = 3184;

/// Ownership of every cell by a plate.
#[derive(Clone, Debug, PartialEq, Eq)]
pub struct PlatePartition {
    pub cell_plates: Vec<usize>,
    /// Number of stable plate identities addressable by `cell_plates`.
    pub plate_count: usize,
}

impl PlatePartition {
    /// Whether some cell is owned by `plate`.
    pub open spec fn owns(&self, plate: int) -> bool {
        exists|cell: int| 0 <= cell < self.cell_plates@.len() && self.cell_plates@[cell] == plate
    }

    /// Whether every cell names a plate below the plate count.
    pub open spec fn ids_in_range(&self) -> bool {
        forall|cell: int|
            0 <= cell < self.cell_plates@.len() ==> #[trigger] self.cell_plates@[cell]
                < self.plate_count
    }

    /// Whether every plate id below the plate count owns a cell.
    pub open spec fn no_empty_plate(&self) -> bool {
        forall|plate: int| 0 <= plate < self.plate_count ==> #[trigger] self.owns(plate)
    }

    /// Checks the partition against a mesh of `cell_count` cells: one owner
    /// per cell, every owner a plate id, and every plate id owning a cell.
    pub fn validate(&self, cell_count: usize) -> (result: Result<(), StageInputError>)
        ensures
            (result matches Err(StageInputError::Cells)) <==> self.cell_plates@.len() != cell_count,
            (result matches Err(StageInputError::PlateOwnership)) <==> (self.cell_plates@.len()
                == cell_count && !self.ids_in_range()),
            (result matches Err(StageInputError::EmptyPlate)) <==> (self.cell_plates@.len()
                == cell_count && self.ids_in_range() && !self.no_empty_plate()),
            result is Ok <==> (self.cell_plates@.len() == cell_count && self.ids_in_range()
                && self.no_empty_plate()),
    {
        if self.cell_plates.len() != cell_count {
            return Err(StageInputError::Cells);
        }
        let mut cell: usize = 0;
        while cell < self.cell_plates.len()
            invariant
                cell <= self.cell_plates.len(),
                self.cell_plates@.len() == cell_count,
                forall|c: int| 0 <= c < cell ==> #[trigger] self.cell_plates@[c] < self.plate_count,
            decreases self.cell_plates.len() - cell,
        {
            if self.cell_plates[cell] >= self.plate_count {
                assert(!(self.cell_plates@[cell as int] < self.plate_count));
                return Err(StageInputError::PlateOwnership);
            }
            cell += 1;
        }
        let mut owned: Vec<bool> = vec![false; self.plate_count];
        let mut cell: usize = 0;
        while cell < self.cell_plates.len()
            invariant
                cell <= self.cell_plates.len(),
                self.cell_plates@.len() == cell_count,
                self.ids_in_range(),
                owned@.len() == self.plate_count,
                forall|plate: int|
                    0 <= plate < self.plate_count ==> (#[trigger] owned@[plate] <==> exists|c: int|
                        0 <= c < cell && self.cell_plates@[c] == plate),
            decreases self.cell_plates.len() - cell,
        {
            let plate = self.cell_plates[cell];
            owned.set(plate, true);
            proof {
                assert forall|p: int| 0 <= p < self.plate_count implies (#[trigger] owned@[p]
                    <==> exists|c: int| 0 <= c < cell + 1 && self.cell_plates@[c] == p) by {
                    if p == plate {
                        assert(self.cell_plates@[cell as int] == p);
                    } else if owned@[p] {
                        let c = choose|c: int| 0 <= c < cell && self.cell_plates@[c] == p;
                        assert(0 <= c < cell + 1 && self.cell_plates@[c] == p);
                    }
                }
            }
            cell += 1;
        }
        let mut plate: usize = 0;
        while plate < self.plate_count
            invariant
                plate <= self.plate_count,
                self.cell_plates@.len() == cell_count,
                owned@.len() == self.plate_count,
                self.ids_in_range(),
                forall|p: int|
                    0 <= p < self.plate_count ==> (#[trigger] owned@[p] <==> self.owns(p)),
                forall|p: int| 0 <= p < plate ==> #[trigger] self.owns(p),
            decreases self.plate_count - plate,
        {
            if !owned[plate] {
                assert(!self.owns(plate as int));
                return Err(StageInputError::EmptyPlate);
            }
            plate += 1;
        }
        Ok(())
    }
}

/// Why a partition configuration was refused.
#[derive(Clone, Copy, Debug, PartialEq, Eq)]
pub enum PlatePartitionError {
    NoArcs,
    InvalidCurvature,
    InvalidSubdividedFraction,
    InvalidPieceFraction,
    InvalidGrowthRoughness,
}

impl PlatePartitionError {
    pub open spec fn spec_message(self) -> Seq<char> {
        match self {
            PlatePartitionError::NoArcs => "at least one crack arc is required"@,
            PlatePartitionError::InvalidCurvature => "crack curvature must be finite and nonnegative"@,
            PlatePartitionError::InvalidSubdividedFraction => "subdivided fraction must lie in [0, 1]"@,
            PlatePartitionError::InvalidPieceFraction => "piece fraction must lie in (0, 1]"@,
            PlatePartitionError::InvalidGrowthRoughness => "plate growth roughness cannot exceed 99%"@,
        }
    }

    /// The sentence a viewer shows for this error.
    pub fn message(&self) -> (text: String)
        ensures
            text@ == self.spec_message(),
    {
        match self {
            PlatePartitionError::NoArcs => String::from_str("at least one crack arc is required"),
            PlatePartitionError::InvalidCurvature => String::from_str(
                "crack curvature must be finite and nonnegative",
            ),
            PlatePartitionError::InvalidSubdividedFraction => String::from_str(
                "subdivided fraction must lie in [0, 1]",
            ),
            PlatePartitionError::InvalidPieceFraction => String::from_str(
                "piece fraction must lie in (0, 1]",
            ),
            PlatePartitionError::InvalidGrowthRoughness => String::from_str(
                "plate growth roughness cannot exceed 99%",
            ),
        }
    }
}

/// The first rule a partition configuration breaks, in the order the
/// partition checks them: an arc to walk, a usable curvature, a subdivided
/// fraction in `[0, 1]`, a piece fraction in `(0, 1]`, and a roughness no
/// greater than [`MAX_GROWTH_ROUGHNESS`]. The three real-valued rules arrive
/// already decided.
pub fn check_partition_config(
    arc_count: usize,
    curvature_valid: bool,
    subdivided_fraction_valid: bool,
    piece_fraction_valid: bool,
    growth_roughness: u32,
) -> (result: Result<(), PlatePartitionError>)
    ensures
        result == (if arc_count == 0 {
            Err(PlatePartitionError::NoArcs)
        } else if !curvature_valid {
            Err(PlatePartitionError::InvalidCurvature)
        } else if !subdivided_fraction_valid {
            Err(PlatePartitionError::InvalidSubdividedFraction)
        } else if !piece_fraction_valid {
            Err(PlatePartitionError::InvalidPieceFraction)
        } else if growth_roughness > MAX_GROWTH_ROUGHNESS {
            Err(PlatePartitionError::InvalidGrowthRoughness)
        } else {
            Ok(())
        }),
{
    if arc_count == 0 {
        return Err(PlatePartitionError::NoArcs);
    }
    if !curvature_valid {
        return Err(PlatePartitionError::InvalidCurvature);
    }
    if !subdivided_fraction_valid {
        return Err(PlatePartitionError::InvalidSubdividedFraction);
    }
    if !piece_fraction_valid {
        return Err(PlatePartitionError::InvalidPieceFraction);
    }
    if growth_roughness > MAX_GROWTH_ROUGHNESS {
        return Err(PlatePartitionError::InvalidGrowthRoughness);
    }
    Ok(())
}

/// The cells named in `seeds`.
pub open spec fn seed_set(seeds: Seq<usize>) -> Set<int> {
    Set::new(|c: int| exists|i: int| 0 <= i < seeds.len() && seeds[i] == c)
}

/// Grows one plate from each seed, in seed order, over per-edge costs that
/// never cross from one crack face into another. Plate `i` is the region
/// grown from `seeds[i]`.
///
/// Every cell a seed's face reaches joins a plate; a cell of a face that
/// holds no seed stays [`UNASSIGNED_PLATE`]. Each cell joins the plate
/// whose seed reaches it most cheaply: it costs a step from a cell of its
/// own plate, and no step from any plate's cell would cost less.
pub fn grow_partition(
    mesh: &MeshTopology,
    cell_faces: Vec<usize>,
    seeds: &Vec<usize>,
    costs: GrowthCosts,
) -> (partition: PlatePartition)
    requires
        mesh.wf(),
        mesh.cells() <= growth_cell_limit(),
        cell_faces@.len() == mesh.cells(),
        costs.wf(mesh.edges(), mesh.cells()),
        costs.scales is None,
        forall|i: int| 0 <= i < seeds@.len() ==> #[trigger] seeds@[i] < mesh.cells(),
        forall|i: int, j: int|
            0 <= i < seeds@.len() && 0 <= j < seeds@.len() && i != j ==> seeds@[i] != seeds@[j],
    ensures
        partition.plate_count == seeds@.len(),
        partition.cell_plates@.len() == mesh.cells(),
        forall|i: int| 0 <= i < seeds@.len() ==> partition.cell_plates@[#[trigger] seeds@[i] as int] == i,
        forall|c: int|
            0 <= c < mesh.cells() ==> #[trigger] partition.cell_plates@[c] == UNASSIGNED_PLATE
                || partition.cell_plates@[c] < seeds@.len(),
        // A plate never leaves the face its seed sits in.
        forall|a: int, b: int|
            0 <= a < mesh.cells() && 0 <= b < mesh.cells() && partition.cell_plates@[a]
                != UNASSIGNED_PLATE && #[trigger] partition.cell_plates@[a]
                == #[trigger] partition.cell_plates@[b] ==> cell_faces@[a] == cell_faces@[b],
        // Growth stops only at a face boundary or where every cell is taken.
        forall|c: int, k: int|
            0 <= c < mesh.cells() && 0 <= k < mesh.degree(c) && partition.cell_plates@[c]
                != UNASSIGNED_PLATE && cell_faces@[c] == cell_faces@[mesh.corner(c, k).neighbor as int]
                ==> #[trigger] partition.cell_plates@[mesh.corner(c, k).neighbor as int]
                != UNASSIGNED_PLATE,
        // Every plate is connected: each of its cells is joined to its seed
        // by a walk through the plate.
        forall|c: int|
            0 <= c < mesh.cells() && #[trigger] partition.cell_plates@[c] != UNASSIGNED_PLATE
                ==> exists|path: Seq<int>|
                {
                    &&& #[trigger] region_path(*mesh, partition.cell_plates@, path)
                    &&& path[0] == seeds@[partition.cell_plates@[c] as int]
                    &&& path[path.len() - 1] == c
                },
        // Each cell's plate is the one whose seed reaches it most cheaply,
        // with every seed starting at no cost.
        exists|paid: Seq<int>|
            {
                &&& paid.len() == mesh.cells()
                &&& forall|i: int| 0 <= i < seeds@.len() ==> paid[#[trigger] seeds@[i] as int] == 0
                &&& shortest_arrivals(
                    *mesh,
                    GrowthBounds::WithinFaces(cell_faces),
                    costs,
                    partition.cell_plates@,
                    seed_set(seeds@),
                    paid,
                )
            },
{
    let bounds = GrowthBounds::WithinFaces(cell_faces);
    let mut growth = PlateGrowth::new(mesh, bounds, costs);
    let mut plate: usize = 0;
    while plate < seeds.len()
        invariant
            growth.wf(),
            growth.topology() == *mesh,
            growth.bounds() == GrowthBounds::WithinFaces(cell_faces),
            growth.costs().scales is None,
            growth.plates().len() == mesh.cells(),
            plate <= seeds@.len(),
            forall|i: int| 0 <= i < seeds@.len() ==> #[trigger] seeds@[i] < mesh.cells(),
            forall|i: int, j: int|
                0 <= i < seeds@.len() && 0 <= j < seeds@.len() && i != j ==> seeds@[i] != seeds@[j],
            forall|i: int| 0 <= i < plate ==> growth.plates()[#[trigger] seeds@[i] as int] == i,
            forall|c: int|
                0 <= c < mesh.cells() ==> #[trigger] growth.plates()[c] == UNASSIGNED_PLATE
                    || growth.plates()[c] < plate,
            forall|c: int|
                0 <= c < mesh.cells() && growth.plates()[c] != UNASSIGNED_PLATE ==> exists|i: int|
                    0 <= i < plate && #[trigger] seeds@[i] == c,
            forall|c: int|
                #[trigger] growth.seed_cells().contains(c) ==> exists|i: int|
                    0 <= i < plate && #[trigger] seeds@[i] == c,
            growth.costs() == costs,
            growth.seeds_came_first(),
            !growth.growing(),
            forall|i: int| 0 <= i < plate ==> growth.seed_cells().contains(#[trigger] seeds@[i] as int),
            forall|i: int| 0 <= i < plate ==> growth.settled_costs()[#[trigger] seeds@[i] as int] == 0,
        decreases seeds@.len() - plate,
    {
        let cell = seeds[plate];
        assert forall|i: int| plate <= i < seeds@.len() implies !growth.settled(
            #[trigger] seeds@[i] as int,
        ) by {
            if growth.settled(seeds@[i] as int) {
                let j = choose|j: int| 0 <= j < plate && #[trigger] seeds@[j] == seeds@[i];
                assert(j != i);
            }
        }
        let ghost before = growth;
        growth.seed(cell, plate, 0);
        proof {
            assert forall|c: int|
                0 <= c < mesh.cells() && growth.plates()[c] != UNASSIGNED_PLATE implies exists|i: int|
                0 <= i < plate + 1 && #[trigger] seeds@[i] == c by {
                if c != cell {
                    assert(before.plates()[c] != UNASSIGNED_PLATE);
                    let i = choose|i: int| 0 <= i < plate && #[trigger] seeds@[i] == c;
                } else {
                    assert(seeds@[plate as int] == c);
                }
            }
            assert forall|c: int| #[trigger] growth.seed_cells().contains(c) implies exists|i: int|
                0 <= i < plate + 1 && #[trigger] seeds@[i] == c by {
                if c != cell {
                    assert(before.seed_cells().contains(c));
                    let i = choose|i: int| 0 <= i < plate && #[trigger] seeds@[i] == c;
                } else {
                    assert(seeds@[plate as int] == c);
                }
            }
            assert forall|i: int| 0 <= i < plate + 1 implies growth.settled_costs()[#[trigger] seeds@[i] as int]
                == 0 by {
                if i < plate {
                    assert(seeds@[i] != cell);
                }
            }
        }
        plate += 1;
    }
    let ghost seeded = growth;
    growth.grow();
    proof {
        growth.lemma_laws();
        seeded.lemma_laws();
        lemma_grown_shortest(growth, seeded, seeds@);
        assert forall|c: int|
            0 <= c < mesh.cells() implies #[trigger] growth.plates()[c] == UNASSIGNED_PLATE
                || growth.plates()[c] < seeds@.len() by {
            if growth.plates()[c] != UNASSIGNED_PLATE {
                assert(growth.settled(c));
                let s = choose|s: int|
                    #[trigger] growth.seed_cells().contains(s) && growth.plates()[s]
                        == growth.plates()[c];
                assert(seeded.seed_cells().contains(s));
                assert(seeded.settled(s));
                let i = choose|i: int| 0 <= i < seeds@.len() && #[trigger] seeds@[i] == s;
                assert(seeded.plates()[s] == i);
                assert(growth.plates()[s] == seeded.plates()[s]);
            }
        }
        assert forall|c: int, k: int|
            0 <= c < mesh.cells() && 0 <= k < mesh.degree(c) && growth.plates()[c]
                != UNASSIGNED_PLATE && cell_faces@[c] == cell_faces@[mesh.corner(c, k).neighbor as int]
                implies #[trigger] growth.plates()[mesh.corner(c, k).neighbor as int]
                != UNASSIGNED_PLATE by {
            assert(growth.bounds().allows(c, mesh.corner(c, k).neighbor as int));
        }
        assert forall|i: int| 0 <= i < seeds@.len() implies growth.plates()[#[trigger] seeds@[i] as int]
            == i by {
            assert(seeded.settled(seeds@[i] as int));
        }
        lemma_grown_connected(growth, seeds@);
    }
    PlatePartition { cell_plates: growth.into_cell_plates(), plate_count: seeds.len() }
}

/// Growth from `seeds`, all planted at no cost before it began, settles
/// every cell at its shortest arrival from them.
proof fn lemma_grown_shortest<'a>(growth: PlateGrowth<'a>, seeded: PlateGrowth<'a>, seeds: Seq<usize>)
    requires
        growth.wf(),
        seeded.wf(),
        growth.seeds_came_first(),
        growth.seed_cells() == seeded.seed_cells(),
        forall|i: int| 0 <= i < seeds.len() ==> seeded.seed_cells().contains(#[trigger] seeds[i] as int),
        forall|c: int|
            #[trigger] seeded.seed_cells().contains(c) ==> exists|i: int|
                0 <= i < seeds.len() && #[trigger] seeds[i] == c,
        forall|i: int| 0 <= i < seeds.len() ==> seeded.settled_costs()[#[trigger] seeds[i] as int] == 0,
        forall|c: int|
            0 <= c < seeded.plates().len() && seeded.settled(c) ==> growth.settled_costs()[c]
                == seeded.settled_costs()[c],
    ensures
        exists|paid: Seq<int>|
            {
                &&& paid.len() == growth.topology().cells()
                &&& forall|i: int| 0 <= i < seeds.len() ==> paid[#[trigger] seeds[i] as int] == 0
                &&& shortest_arrivals(
                    growth.topology(),
                    growth.bounds(),
                    growth.costs(),
                    growth.plates(),
                    seed_set(seeds),
                    paid,
                )
            },
{
    growth.lemma_laws();
    seeded.lemma_laws();
    growth.lemma_shortest();
    assert(growth.seed_cells() =~= seed_set(seeds)) by {
        assert forall|c: int| growth.seed_cells().contains(c) == seed_set(seeds).contains(c) by {
            if seed_set(seeds).contains(c) {
                let i = choose|i: int| 0 <= i < seeds.len() && seeds[i] == c;
                assert(seeded.seed_cells().contains(seeds[i] as int));
            }
        }
    }
    assert forall|i: int| 0 <= i < seeds.len() implies growth.settled_costs()[#[trigger] seeds[i] as int]
        == 0 by {
        assert(seeded.seed_cells().contains(seeds[i] as int));
        assert(seeded.settled(seeds[i] as int));
    }
    let paid = growth.settled_costs();
    assert(paid.len() == growth.topology().cells());
}

/// Growth from `seeds`, seed `i` planting region `i`, joins every settled
/// cell to the seed of its region by a walk through the region.
proof fn lemma_grown_connected<'a>(growth: PlateGrowth<'a>, seeds: Seq<usize>)
    requires
        growth.wf(),
        forall|c: int|
            #[trigger] growth.seed_cells().contains(c) ==> exists|i: int|
                0 <= i < seeds.len() && #[trigger] seeds[i] == c,
        forall|i: int| 0 <= i < seeds.len() ==> growth.plates()[#[trigger] seeds[i] as int] == i,
    ensures
        forall|c: int|
            0 <= c < growth.topology().cells() && #[trigger] growth.plates()[c] != UNASSIGNED_PLATE
                ==> exists|path: Seq<int>|
                {
                    &&& #[trigger] region_path(growth.topology(), growth.plates(), path)
                    &&& path[0] == seeds[growth.plates()[c] as int]
                    &&& path[path.len() - 1] == c
                },
{
    assert forall|c: int|
        0 <= c < growth.topology().cells() && #[trigger] growth.plates()[c] != UNASSIGNED_PLATE
            implies exists|path: Seq<int>|
            {
                &&& #[trigger] region_path(growth.topology(), growth.plates(), path)
                &&& path[0] == seeds[growth.plates()[c] as int]
                &&& path[path.len() - 1] == c
            } by {
        growth.lemma_connected(c);
        let path = choose|path: Seq<int>|
            {
                &&& region_path(growth.topology(), growth.plates(), path)
                &&& #[trigger] growth.seed_cells().contains(path[0])
                &&& path[path.len() - 1] == c
            };
        let i = choose|i: int| 0 <= i < seeds.len() && #[trigger] seeds[i] == path[0];
        assert(growth.plates()[path[path.len() - 1]] == growth.plates()[path[0]]);
        assert(growth.plates()[seeds[i] as int] == i);
    }
}

/// Which steps growth may take.
///
/// The partition confines every plate to the crack face its seed sits in;
/// continental nuclei grow over the whole sphere, because a continent's edge
/// has nothing to do with a plate boundary.
#[derive(Clone, Debug)]
pub enum GrowthBounds {
    WithinFaces(Vec<usize>),
    WholeSphere,
}

impl GrowthBounds {
    /// Whether growth may step from `cell` to `neighbor`.
    pub open spec fn allows(&self, cell: int, neighbor: int) -> bool {
        match self {
            GrowthBounds::WithinFaces(faces) => faces@[cell] == faces@[neighbor],
            GrowthBounds::WholeSphere => true,
        }
    }

    /// Whether the bounds describe every one of `cell_count` cells.
    pub open spec fn covers(&self, cell_count: nat) -> bool {
        match self {
            GrowthBounds::WithinFaces(faces) => faces@.len() == cell_count,
            GrowthBounds::WholeSphere => true,
        }
    }

    /// Whether growth may step from `cell` to `neighbor`: within one face,
    /// or anywhere on the whole sphere.
    pub fn passable(&self, cell: usize, neighbor: usize) -> (passable: bool)
        requires
            self is WithinFaces ==> cell < self->WithinFaces_0@.len() && neighbor
                < self->WithinFaces_0@.len(),
        ensures
            passable == self.allows(cell as int, neighbor as int),
    {
        match self {
            GrowthBounds::WithinFaces(cell_faces) => cell_faces[cell] == cell_faces[neighbor],
            GrowthBounds::WholeSphere => true,
        }
    }
}

/// Per-region and per-cell multipliers on edge costs, in units of
/// [`COST_SCALE_ONE`]: a slow region or a slow stretch of sphere crosses each
/// edge at a higher cost.
#[derive(Clone, Debug)]
pub struct GrowthScales {
    pub region: Vec<u64>,
    pub cell: Vec<u64>,
}

/// The per-edge cost field growth crosses: how far a cost may vary from the
/// baseline, the hashed sample per edge that variation is drawn from, and the
/// optional scales.
#[derive(Clone, Debug)]
pub struct GrowthCosts {
    pub roughness: u32,
    pub edge_samples: Vec<u64>,
    pub scales: Option<GrowthScales>,
}

/// The edge cost before any scale: the baseline moved by the edge's sample
/// into `[BASE - roughness, BASE + roughness]`.
pub open spec fn rough_cost(roughness: int, sample: int) -> int {
    BASE_GROWTH_COST - roughness + sample % (roughness * 2 + 1)
}

impl GrowthCosts {
    pub open spec fn wf(&self, edge_count: nat, cell_count: nat) -> bool {
        &&& self.roughness <= MAX_GROWTH_ROUGHNESS
        &&& self.edge_samples@.len() == edge_count
        &&& match self.scales {
            Some(scales) => {
                &&& scales.cell@.len() == cell_count
                &&& forall|c: int|
                    0 <= c < cell_count ==> #[trigger] scales.cell@[c] <= MAX_COST_SCALE
                &&& forall|r: int|
                    0 <= r < scales.region@.len() ==> #[trigger] scales.region@[r]
                        <= MAX_COST_SCALE
            },
            None => true,
        }
    }

    /// Whether `region` may grow under these costs: scaled costs need a
    /// scale for it.
    pub open spec fn knows_region(&self, region: int) -> bool {
        match self.scales {
            Some(scales) => 0 <= region < scales.region@.len(),
            None => true,
        }
    }

    /// What entering `cell` across `edge` costs `region`.
    pub open spec fn spec_edge_cost(&self, edge: int, region: int, cell: int) -> int {
        let base = rough_cost(self.roughness as int, self.edge_samples@[edge] as int);
        match self.scales {
            Some(scales) => (base * scales.region@[region] * scales.cell@[cell]) / (
            COST_SCALE_ONE * COST_SCALE_ONE),
            None => base,
        }
    }

    /// What entering `cell` across `edge` costs `region`.
    pub fn edge_cost(&self, edge: usize, region: usize, cell: usize) -> (cost: u64)
        requires
            self.wf(self.edge_samples@.len(), match self.scales {
                Some(scales) => scales.cell@.len(),
                None => 0,
            }),
            edge < self.edge_samples@.len(),
            self.knows_region(region as int),
            self.scales is Some ==> cell < self.scales->Some_0.cell@.len(),
        ensures
            cost == self.spec_edge_cost(edge as int, region as int, cell as int),
            cost <= MAX_EDGE_COST,
    {
        let roughness = self.roughness as u64;
        let offset = self.edge_samples[edge] % (roughness * 2 + 1);
        let base = BASE_GROWTH_COST - roughness + offset;
        assert(base <= 199);
        match &self.scales {
            Some(scales) => {
                let region_scale = scales.region[region];
                let cell_scale = scales.cell[cell];
                proof {
                    lemma_scaled_cost_bound(base as int, region_scale as int, cell_scale as int);
                }
                base * region_scale * cell_scale / (COST_SCALE_ONE * COST_SCALE_ONE)
            },
            None => base,
        }
    }
}

proof fn lemma_scaled_cost_bound(base: int, region: int, cell: int)
    requires
        0 <= base <= 199,
        0 <= region <= MAX_COST_SCALE,
        0 <= cell <= MAX_COST_SCALE,
    ensures
        base * region <= 199 * MAX_COST_SCALE,
        base * region * cell <= 199 * MAX_COST_SCALE * MAX_COST_SCALE,
        (base * region * cell) / (COST_SCALE_ONE * COST_SCALE_ONE) <= MAX_EDGE_COST,
{
    assert(base * region <= 199 * MAX_COST_SCALE) by (nonlinear_arith)
        requires
            0 <= base <= 199,
            0 <= region <= MAX_COST_SCALE,
    ;
    assert(base * region * cell <= 199 * MAX_COST_SCALE * MAX_COST_SCALE) by (nonlinear_arith)
        requires
            0 <= base * region <= 199 * MAX_COST_SCALE,
            0 <= cell <= MAX_COST_SCALE,
    ;
    assert((base * region * cell) / (COST_SCALE_ONE * COST_SCALE_ONE) <= MAX_EDGE_COST) by (
    nonlinear_arith)
        requires
            0 <= base * region * cell <= 199 * MAX_COST_SCALE * MAX_COST_SCALE,
    ;
}

/// One pending arrival: the cost at which `plate` reaches `cell`, and the
/// order it was proposed in, which breaks cost ties.
#[derive(Clone, Copy, Debug, PartialEq, Eq)]
pub struct Arrival {
    pub cost: u64,
    pub sequence: u64,
    pub cell: usize,
    pub plate: usize,
}

/// Whether `left` is settled before `right`: cheaper first, then proposed
/// earlier, then by cell and region.
pub open spec fn arrival_precedes(left: Arrival, right: Arrival) -> bool {
    ||| left.cost < right.cost
    ||| left.cost == right.cost && left.sequence < right.sequence
    ||| left.cost == right.cost && left.sequence == right.sequence && left.cell < right.cell
    ||| left.cost == right.cost && left.sequence == right.sequence && left.cell == right.cell
        && left.plate < right.plate
}

/// Highest cost an arrival can carry once `settled` cells have settled.
pub open spec fn cost_ceiling(settled: int) -> int {
    MAX_SEED_COST + settled * MAX_EDGE_COST
}

/// Largest mesh growth runs over, which keeps every arrival cost clear of
/// overflow.
pub open spec fn growth_cell_limit() -> int {
    0x100_0000_0000
}

/// Multi-source shortest-arrival search over per-edge integer costs, bounded
/// by [`GrowthBounds`].
///
/// The numbered regions it grows are the partition's plates; continental
/// nuclei grow with the same engine and read only which cells it reached.
pub struct PlateGrowth<'mesh> {
    mesh: &'mesh MeshTopology,
    bounds: GrowthBounds,
    cell_plates: Vec<usize>,
    best_arrivals: Vec<u64>,
    arrivals: Vec<Arrival>,
    next_sequence: u64,
    costs: GrowthCosts,
    /// Settled cells in the order they settled.
    order: Ghost<Seq<int>>,
    /// Each settled cell's position in `order`.
    rank: Ghost<Map<int, int>>,
    /// Cells planted as seeds.
    seeds: Ghost<Set<int>>,
    /// The cost at which each settled cell settled.
    paid: Ghost<Seq<int>>,
    /// The cost of the latest cell growth settled, once growth has begun.
    floor: Ghost<Option<int>>,
    /// Whether a seed was planted after growth began.
    late_seed: Ghost<bool>,
}

/// A walk through one region: cells of the mesh, each a corner neighbour of
/// the one before, all owned by the region the walk starts in.
pub open spec fn region_path(mesh: MeshTopology, plates: Seq<usize>, path: Seq<int>) -> bool {
    &&& path.len() >= 1
    &&& forall|i: int|
        0 <= i < path.len() ==> 0 <= #[trigger] path[i] < mesh.cells() && plates[path[i]] == plates[path[0]]
    &&& forall|i: int, j: int|
        0 <= i && j == i + 1 && j < path.len() ==> mesh.adjacent(#[trigger] path[i], #[trigger] path[j])
}

/// What a step from `from` across its corner `k` costs the region that owns
/// `from`.
pub open spec fn step_cost(mesh: MeshTopology, costs: GrowthCosts, plates: Seq<usize>, from: int, k: int) -> int {
    costs.spec_edge_cost(
        mesh.corner(from, k).edge as int,
        plates[from] as int,
        mesh.corner(from, k).neighbor as int,
    )
}

/// Whether `from` has settled and may step across its corner `k`.
pub open spec fn settled_step(
    mesh: MeshTopology,
    bounds: GrowthBounds,
    plates: Seq<usize>,
    from: int,
    k: int,
) -> bool {
    &&& 0 <= from < mesh.cells()
    &&& 0 <= k < mesh.degree(from)
    &&& plates[from] != UNASSIGNED_PLATE
    &&& bounds.allows(from, mesh.corner(from, k).neighbor as int)
}

/// Shortest arrivals: every settled cell but a seed was reached by a step
/// from a settled cell of its own region and paid that cell's cost plus the
/// step's, and no step from any settled cell would have reached it for less.
/// `paid` is the cost each cell settled at; a seed pays its start.
pub open spec fn shortest_arrivals(
    mesh: MeshTopology,
    bounds: GrowthBounds,
    costs: GrowthCosts,
    plates: Seq<usize>,
    seeds: Set<int>,
    paid: Seq<int>,
) -> bool {
    forall|c: int|
        #![trigger paid[c]]
        0 <= c < mesh.cells() && plates[c] != UNASSIGNED_PLATE && !seeds.contains(c) ==> {
            &&& exists|p: int, k: int|
                #[trigger] settled_step(mesh, bounds, plates, p, k) && mesh.corner(p, k).neighbor == c
                    && plates[p] == plates[c] && paid[c] == paid[p] + step_cost(mesh, costs, plates, p, k)
            &&& forall|q: int, k: int|
                #[trigger] settled_step(mesh, bounds, plates, q, k) && mesh.corner(q, k).neighbor == c
                    ==> paid[c] <= paid[q] + step_cost(mesh, costs, plates, q, k)
        }
}

impl<'mesh> PlateGrowth<'mesh> {
    /// The region each cell settled into, [`UNASSIGNED_PLATE`] where growth has
    /// not reached.
    pub closed spec fn plates(&self) -> Seq<usize> {
        self.cell_plates@
    }

    pub closed spec fn topology(&self) -> MeshTopology {
        *self.mesh
    }

    pub closed spec fn bounds(&self) -> GrowthBounds {
        self.bounds
    }

    pub closed spec fn costs(&self) -> GrowthCosts {
        self.costs
    }

    /// The cells planted as seeds.
    pub closed spec fn seed_cells(&self) -> Set<int> {
        self.seeds@
    }

    /// How many cells have settled.
    pub closed spec fn settled_count(&self) -> nat {
        self.order@.len()
    }

    /// Whether settled cell `first` settled before settled cell `second`.
    pub closed spec fn settled_before(&self, first: int, second: int) -> bool {
        self.rank@[first] < self.rank@[second]
    }

    /// Whether no arrival is outstanding.
    pub closed spec fn exhausted(&self) -> bool {
        self.arrivals@.len() == 0
    }

    pub open spec fn settled(&self, cell: int) -> bool {
        self.plates()[cell] != UNASSIGNED_PLATE
    }

    /// Every cell a settled cell may step to has settled too.
    pub open spec fn closed_under_steps(&self) -> bool {
        forall|c: int, k: int|
            0 <= c < self.topology().cells() && 0 <= k < self.topology().degree(c) && self.settled(c)
                && self.bounds().allows(c, self.topology().corner(c, k).neighbor as int)
                ==> self.settled(#[trigger] self.topology().corner(c, k).neighbor as int)
    }

    /// Every settled cell that is not a seed has a neighbour of its own
    /// region that settled before it and may step to it, so each region is
    /// connected through the steps its bounds allow.
    pub open spec fn grown_from_seeds(&self) -> bool {
        forall|c: int|
            0 <= c < self.topology().cells() && self.settled(c) && !self.seed_cells().contains(c)
                ==> exists|p: int|
                0 <= p < self.topology().cells() && self.settled(p) && #[trigger] self.plates()[p]
                    == self.plates()[c] && self.settled_before(p, c) && self.topology().adjacent(
                    p,
                    c,
                ) && self.bounds().allows(p, c)
    }

    /// Two settled cells of one region always lie where the bounds let
    /// growth pass between them: within faces, one region is one face.
    pub open spec fn regions_within_bounds(&self) -> bool {
        forall|a: int, b: int|
            0 <= a < self.topology().cells() && 0 <= b < self.topology().cells() && self.settled(a)
                && self.settled(b) && #[trigger] self.plates()[a] == #[trigger] self.plates()[b]
                ==> self.bounds().allows(a, b)
    }

    /// Every settled cell's region is the region of some seed.
    pub open spec fn regions_from_seeds(&self) -> bool {
        forall|c: int|
            0 <= c < self.topology().cells() && self.settled(c) ==> exists|s: int|
                #[trigger] self.seed_cells().contains(s) && self.plates()[s] == self.plates()[c]
    }

    /// The cost at which each cell settled, meaningful where it has.
    pub closed spec fn settled_costs(&self) -> Seq<int> {
        self.paid@
    }

    /// The arrivals proposed and not yet taken off the queue.
    pub closed spec fn outstanding(&self) -> Seq<Arrival> {
        self.arrivals@
    }

    /// Whether growth has settled a cell beyond the seeds.
    pub closed spec fn growing(&self) -> bool {
        self.floor@ is Some
    }

    /// Whether every seed was planted before growth began.
    pub closed spec fn seeds_came_first(&self) -> bool {
        !self.late_seed@
    }

    closed spec fn can_step(&self, from: int, k: int) -> bool {
        settled_step(*self.mesh, self.bounds, self.cell_plates@, from, k)
    }

    closed spec fn step_of(&self, from: int, k: int) -> int {
        step_cost(*self.mesh, self.costs, self.cell_plates@, from, k)
    }

    /// Arrival `a` costs a step from a settled cell of its region on top of
    /// what that cell paid.
    closed spec fn priced(&self, a: Arrival) -> bool {
        exists|p: int, k: int|
            #[trigger] self.can_step(p, k) && self.mesh.corner(p, k).neighbor == a.cell
                && self.cell_plates@[p] == a.plate && a.cost == self.paid@[p] + self.step_of(p, k)
    }

    /// The cost bookkeeping: arrivals are priced and no cheaper than their
    /// cell's best; every settled cell but a seed paid a step from a settled
    /// cell; while the seeds came first no step undercuts a settled cell and
    /// growth settles in cost order; and before growth only seeds settle.
    closed spec fn pricing(&self) -> bool {
        let n = self.mesh.cells();
        &&& self.paid@.len() == n
        &&& forall|i: int| 0 <= i < self.arrivals@.len() ==> self.priced(#[trigger] self.arrivals@[i])
        &&& forall|i: int|
            0 <= i < self.arrivals@.len() && self.cell_plates@[self.arrivals@[i].cell as int]
                == UNASSIGNED_PLATE ==> (#[trigger] self.arrivals@[i]).cost >= self.best_arrivals@[self.arrivals@[i].cell as int]
        &&& forall|c: int|
            0 <= c < n && self.cell_plates@[c] != UNASSIGNED_PLATE && !self.seeds@.contains(c)
                ==> exists|p: int, k: int|
                #[trigger] self.can_step(p, k) && self.mesh.corner(p, k).neighbor == c
                    && self.cell_plates@[p] == self.cell_plates@[c] && self.paid@[c] == self.paid@[p]
                    + self.step_of(p, k)
        &&& !self.late_seed@ ==> forall|c: int, q: int, k: int|
            0 <= c < n && self.cell_plates@[c] != UNASSIGNED_PLATE && !self.seeds@.contains(c)
                && #[trigger] self.can_step(q, k) && self.mesh.corner(q, k).neighbor == c
                ==> #[trigger] self.paid@[c] <= self.paid@[q] + self.step_of(q, k)
        &&& !self.late_seed@ && self.floor@ is Some ==> {
            &&& forall|i: int|
                0 <= i < self.arrivals@.len() ==> (#[trigger] self.arrivals@[i]).cost >= self.floor@->Some_0
            &&& forall|c: int|
                0 <= c < n && self.cell_plates@[c] != UNASSIGNED_PLATE && !self.seeds@.contains(c)
                    ==> #[trigger] self.paid@[c] <= self.floor@->Some_0
        }
        &&& self.floor@ is None ==> forall|c: int|
            0 <= c < n && #[trigger] self.cell_plates@[c] != UNASSIGNED_PLATE ==> self.seeds@.contains(c)
    }

    /// Every unsettled cell but `cell` that has a best arrival still has an
    /// arrival at that cost outstanding.
    closed spec fn attained_except(&self, cell: int) -> bool {
        forall|c: int|
            0 <= c < self.mesh.cells() && c != cell && self.cell_plates@[c] == UNASSIGNED_PLATE
                && #[trigger] self.best_arrivals@[c] != u64::MAX ==> exists|i: int|
                0 <= i < self.arrivals@.len() && (#[trigger] self.arrivals@[i]).cell == c
                    && self.arrivals@[i].cost == self.best_arrivals@[c]
    }

    /// The best arrival of every unsettled cell that a corner of `c` before
    /// `upto` steps to is no dearer than that step from `c`.
    closed spec fn bounded_upto(&self, c: int, upto: int) -> bool {
        forall|k: int|
            0 <= k < upto && #[trigger] self.can_step(c, k)
                && self.cell_plates@[self.mesh.corner(c, k).neighbor as int] == UNASSIGNED_PLATE
                ==> self.best_arrivals@[self.mesh.corner(c, k).neighbor as int] <= self.paid@[c]
                + self.step_of(c, k)
    }

    closed spec fn bounded_except(&self, cell: int) -> bool {
        forall|c: int|
            0 <= c < self.mesh.cells() && c != cell && #[trigger] self.cell_plates@[c]
                != UNASSIGNED_PLATE ==> self.bounded_upto(c, self.mesh.degree(c) as int)
    }

    /// The laws growth keeps, in the terms its callers read.
    pub proof fn lemma_laws(&self)
        requires
            self.wf(),
        ensures
            self.plates().len() == self.topology().cells(),
            self.grown_from_seeds(),
            self.regions_within_bounds(),
            self.regions_from_seeds(),
            forall|c: int| #[trigger] self.seed_cells().contains(c) ==> 0 <= c < self.topology().cells()
                && self.settled(c),
            self.settled_costs().len() == self.topology().cells(),
    {
    }

    /// Every settled cell is joined to a seed of its region by a walk
    /// through that region: regions grow connected.
    pub proof fn lemma_connected(&self, c: int)
        requires
            self.wf(),
            0 <= c < self.topology().cells(),
            self.settled(c),
        ensures
            exists|path: Seq<int>|
                {
                    &&& region_path(self.topology(), self.plates(), path)
                    &&& #[trigger] self.seed_cells().contains(path[0])
                    &&& path[path.len() - 1] == c
                },
    {
        self.lemma_connected_by_rank(c);
    }

    proof fn lemma_connected_by_rank(&self, c: int)
        requires
            self.wf(),
            0 <= c < self.topology().cells(),
            self.settled(c),
        ensures
            exists|path: Seq<int>|
                {
                    &&& region_path(self.topology(), self.plates(), path)
                    &&& #[trigger] self.seed_cells().contains(path[0])
                    &&& path[path.len() - 1] == c
                },
        decreases self.rank@[c],
    {
        if self.seeds@.contains(c) {
            let path = seq![c];
            assert(region_path(self.topology(), self.plates(), path));
            assert(self.seed_cells().contains(path[0]));
        } else {
            let p = choose|p: int|
                0 <= p < self.topology().cells() && self.settled(p) && #[trigger] self.plates()[p]
                    == self.plates()[c] && self.settled_before(p, c) && self.topology().adjacent(p, c)
                    && self.bounds().allows(p, c);
            assert(0 <= self.rank@[p] < self.rank@[c]);
            self.lemma_connected_by_rank(p);
            let before = choose|path: Seq<int>|
                {
                    &&& region_path(self.topology(), self.plates(), path)
                    &&& #[trigger] self.seed_cells().contains(path[0])
                    &&& path[path.len() - 1] == p
                };
            let path = before.push(c);
            assert(path[0] == before[0]);
            assert forall|i: int|
                0 <= i < path.len() implies 0 <= #[trigger] path[i] < self.mesh.cells()
                && self.cell_plates@[path[i]] == self.cell_plates@[path[0]] by {
                if i < before.len() {
                    assert(path[i] == before[i]);
                }
            }
            assert forall|i: int, j: int|
                0 <= i && j == i + 1 && j < path.len() implies self.mesh.adjacent(
                #[trigger] path[i],
                #[trigger] path[j],
            ) by {
                if j < before.len() {
                    assert(path[i] == before[i]);
                    assert(path[j] == before[j]);
                } else {
                    assert(path[i] == p);
                }
            }
            assert(region_path(self.topology(), self.plates(), path));
            assert(self.seed_cells().contains(path[0]));
        }
    }

    /// Growth whose seeds were all planted before it began settles every
    /// cell at its shortest arrival.
    pub proof fn lemma_shortest(&self)
        requires
            self.wf(),
            self.seeds_came_first(),
        ensures
            shortest_arrivals(
                self.topology(),
                self.bounds(),
                self.costs(),
                self.plates(),
                self.seed_cells(),
                self.settled_costs(),
            ),
    {
        {
            let n = self.mesh.cells();
            assert forall|c: int|
                #![trigger self.paid@[c]]
                0 <= c < n && self.cell_plates@[c] != UNASSIGNED_PLATE && !self.seeds@.contains(c)
                implies {
                &&& exists|p: int, k: int|
                    #[trigger] settled_step(*self.mesh, self.bounds, self.cell_plates@, p, k)
                        && self.mesh.corner(p, k).neighbor == c && self.cell_plates@[p]
                        == self.cell_plates@[c] && self.paid@[c] == self.paid@[p] + step_cost(
                        *self.mesh,
                        self.costs,
                        self.cell_plates@,
                        p,
                        k,
                    )
                &&& forall|q: int, k: int|
                    #[trigger] settled_step(*self.mesh, self.bounds, self.cell_plates@, q, k)
                        && self.mesh.corner(q, k).neighbor == c ==> self.paid@[c] <= self.paid@[q]
                        + step_cost(*self.mesh, self.costs, self.cell_plates@, q, k)
            } by {
                let (p, k) = choose|p: int, k: int|
                    #[trigger] self.can_step(p, k) && self.mesh.corner(p, k).neighbor == c
                        && self.cell_plates@[p] == self.cell_plates@[c] && self.paid@[c]
                        == self.paid@[p] + self.step_of(p, k);
                assert(settled_step(*self.mesh, self.bounds, self.cell_plates@, p, k));
                assert forall|q: int, k: int|
                    #[trigger] settled_step(*self.mesh, self.bounds, self.cell_plates@, q, k)
                        && self.mesh.corner(q, k).neighbor == c implies self.paid@[c] <= self.paid@[q]
                    + step_cost(*self.mesh, self.costs, self.cell_plates@, q, k) by {
                    assert(self.can_step(q, k));
                }
            }
        }
    }

    closed spec fn shape_ok(&self) -> bool {
        let n = self.mesh.cells();
        &&& self.mesh.wf()
        &&& n <= growth_cell_limit()
        &&& self.bounds.covers(n)
        &&& self.costs.wf(self.mesh.edges(), n)
        &&& self.cell_plates@.len() == n
        &&& self.best_arrivals@.len() == n
    }

    closed spec fn ranks_ok(&self) -> bool {
        let n = self.mesh.cells();
        &&& self.order@.len() <= n
        &&& forall|i: int|
            0 <= i < self.order@.len() ==> {
                &&& 0 <= #[trigger] self.order@[i] < n
                &&& self.cell_plates@[self.order@[i]] != UNASSIGNED_PLATE
                &&& self.rank@.dom().contains(self.order@[i])
                &&& self.rank@[self.order@[i]] == i
            }
        &&& forall|c: int|
            0 <= c < n && #[trigger] self.cell_plates@[c] != UNASSIGNED_PLATE ==> {
                &&& self.rank@.dom().contains(c)
                &&& 0 <= self.rank@[c] < self.order@.len()
                &&& self.order@[self.rank@[c]] == c
                &&& self.costs.knows_region(self.cell_plates@[c] as int)
            }
    }

    /// Arrival `a` was proposed by a settled cell of its region that may
    /// step to it.
    closed spec fn has_parent(&self, a: Arrival) -> bool {
        exists|p: int|
            0 <= p < self.mesh.cells() && self.cell_plates@[p] != UNASSIGNED_PLATE
                && #[trigger] self.cell_plates@[p] == a.plate && self.mesh.adjacent(p, a.cell as int)
                && self.bounds.allows(p, a.cell as int)
    }

    closed spec fn queue_ok(&self) -> bool {
        forall|i: int|
            0 <= i < self.arrivals@.len() ==> {
                let a = #[trigger] self.arrivals@[i];
                &&& a.cell < self.mesh.cells()
                &&& a.plate != UNASSIGNED_PLATE
                &&& self.costs.knows_region(a.plate as int)
                &&& a.cost <= cost_ceiling(self.order@.len() as int)
                &&& self.has_parent(a)
            }
    }

    closed spec fn pending_ok(&self) -> bool {
        self.pending_except(-1)
    }

    /// Every unsettled cell but `cell` that has been proposed still has an
    /// arrival outstanding.
    closed spec fn pending_except(&self, cell: int) -> bool {
        forall|c: int|
            0 <= c < self.mesh.cells() && c != cell && self.cell_plates@[c] == UNASSIGNED_PLATE
                && #[trigger] self.best_arrivals@[c] != u64::MAX ==> exists|i: int|
                0 <= i < self.arrivals@.len() && (#[trigger] self.arrivals@[i]).cell == c
    }

    /// Every corner of `c` before `upto` that growth may step across leads to
    /// a settled cell or to one with an arrival pending.
    closed spec fn proposed_upto(&self, c: int, upto: int) -> bool {
        forall|k: int|
            0 <= k < upto && self.bounds.allows(c, self.mesh.corner(c, k).neighbor as int)
                && self.cell_plates@[#[trigger] self.mesh.corner(c, k).neighbor as int]
                == UNASSIGNED_PLATE ==> self.best_arrivals@[self.mesh.corner(c, k).neighbor as int]
                != u64::MAX
    }

    closed spec fn proposed_except(&self, cell: int) -> bool {
        forall|c: int|
            0 <= c < self.mesh.cells() && c != cell && #[trigger] self.cell_plates@[c]
                != UNASSIGNED_PLATE ==> self.proposed_upto(c, self.mesh.degree(c) as int)
    }

    closed spec fn seeds_ok(&self) -> bool {
        forall|c: int| #[trigger]
            self.seeds@.contains(c) ==> 0 <= c < self.mesh.cells() && self.cell_plates@[c]
                != UNASSIGNED_PLATE
    }

    /// Everything but the proposals of `cell`, which settle is making.
    closed spec fn base_settling(&self, cell: int) -> bool {
        &&& self.shape_ok()
        &&& self.ranks_ok()
        &&& self.queue_ok()
        &&& self.pending_ok()
        &&& self.proposed_except(cell)
        &&& self.seeds_ok()
        &&& self.grown_from_seeds()
        &&& self.regions_within_bounds()
        &&& self.regions_from_seeds()
    }

    /// The settling invariant with the cost bookkeeping.
    closed spec fn wf_settling(&self, cell: int) -> bool {
        &&& self.base_settling(cell)
        &&& self.pricing()
        &&& self.attained_except(-1)
        &&& self.bounded_except(cell)
    }

    /// The invariant with the arrivals of `cell` allowed to be missing, which
    /// is the state in which `cell` is about to settle.
    closed spec fn base_before_settling(&self, cell: int) -> bool {
        &&& self.shape_ok()
        &&& self.ranks_ok()
        &&& self.queue_ok()
        &&& self.pending_except(cell)
        &&& self.proposed_except(-1)
        &&& self.seeds_ok()
        &&& self.grown_from_seeds()
        &&& self.regions_within_bounds()
        &&& self.regions_from_seeds()
    }

    /// The state just before `cell` settles, with the cost bookkeeping.
    closed spec fn wf_before_settling(&self, cell: int) -> bool {
        &&& self.base_before_settling(cell)
        &&& self.pricing()
        &&& self.attained_except(cell)
        &&& self.bounded_except(-1)
    }

    /// The invariant every operation keeps.
    pub closed spec fn wf(&self) -> bool {
        &&& self.wf_settling(-1)
    }

    /// A growth over `mesh` that has settled nothing yet.
    pub fn new(mesh: &'mesh MeshTopology, bounds: GrowthBounds, costs: GrowthCosts) -> (growth: Self)
        requires
            mesh.wf(),
            mesh.cells() <= growth_cell_limit(),
            bounds.covers(mesh.cells()),
            costs.wf(mesh.edges(), mesh.cells()),
        ensures
            growth.wf(),
            growth.topology() == *mesh,
            growth.bounds() == bounds,
            growth.costs() == costs,
            growth.seed_cells() == Set::<int>::empty(),
            growth.settled_count() == 0,
            growth.seeds_came_first(),
            !growth.growing(),
            growth.plates().len() == mesh.cells(),
            forall|c: int| 0 <= c < mesh.cells() ==> !#[trigger] growth.settled(c),
    {
        let cell_count = mesh.cell_count();
        PlateGrowth {
            mesh,
            bounds,
            cell_plates: vec![UNASSIGNED_PLATE; cell_count],
            best_arrivals: vec![u64::MAX; cell_count],
            arrivals: Vec::new(),
            next_sequence: 0,
            costs,
            order: Ghost(Seq::empty()),
            rank: Ghost(Map::empty()),
            seeds: Ghost(Set::empty()),
            paid: Ghost(Seq::new(cell_count as nat, |c: int| 0int)),
            floor: Ghost(None),
            late_seed: Ghost(false),
        }
    }

    /// Whether growth has reached `cell`.
    pub fn reached(&self, cell: usize) -> (reached: bool)
        requires
            self.wf(),
            cell < self.plates().len(),
        ensures
            reached == self.settled(cell as int),
    {
        self.cell_plates[cell] != UNASSIGNED_PLATE
    }

    /// The region of every cell, handing the growth's ownership over.
    pub fn into_cell_plates(self) -> (plates: Vec<usize>)
        ensures
            plates@ == self.plates(),
    {
        self.cell_plates
    }

    /// The region of every cell, [`UNASSIGNED_PLATE`] where growth has not
    /// reached.
    pub fn cell_plates(&self) -> (plates: &Vec<usize>)
        ensures
            plates@ == self.plates(),
    {
        &self.cell_plates
    }

    /// Every settled cell lies inside the mesh, so while some cell is still
    /// unsettled fewer cells have settled than the mesh holds.
    proof fn lemma_settled_count_below(&self, free: int)
        requires
            self.wf(),
            0 <= free < self.mesh.cells(),
            self.cell_plates@[free] == UNASSIGNED_PLATE,
        ensures
            self.order@.len() < self.mesh.cells(),
    {
        let n = self.mesh.cells() as int;
        let order = self.order@;
        assert(order.no_duplicates()) by {
            assert forall|i: int, j: int|
                0 <= i < order.len() && 0 <= j < order.len() && i != j implies order[i]
                != order[j] by {
                assert(self.rank@[order[i]] == i);
                assert(self.rank@[order[j]] == j);
            }
        }
        broadcast use vstd::set::group_set_axioms;

        order.unique_seq_to_set();
        lemma_int_range(0, n);
        let room = set_int_range(0, n).remove(free);
        assert(order.to_set().subset_of(room)) by {
            assert forall|x: int| order.to_set().contains(x) implies room.contains(x) by {
                let i = choose|i: int| 0 <= i < order.len() && order[i] == x;
                assert(0 <= order[i] < n);
                assert(self.cell_plates@[order[i]] != UNASSIGNED_PLATE);
            }
        }
        lemma_len_subset(order.to_set(), room);
    }

    /// Plants a region's first cell, which settles at cost `start`.
    ///
    /// A seed's region is one no settled cell holds yet, so every region
    /// grows from exactly one seed.
    pub fn seed(&mut self, cell: usize, region: usize, start: u64)
        requires
            old(self).wf(),
            cell < old(self).plates().len(),
            !old(self).settled(cell as int),
            region != UNASSIGNED_PLATE,
            old(self).costs().knows_region(region as int),
            start <= MAX_SEED_COST,
            forall|c: int| 0 <= c < old(self).plates().len() ==> old(self).plates()[c] != region,
        ensures
            final(self).wf(),
            final(self).plates() == old(self).plates().update(cell as int, region),
            final(self).topology() == old(self).topology(),
            final(self).bounds() == old(self).bounds(),
            final(self).costs() == old(self).costs(),
            final(self).seed_cells() == old(self).seed_cells().insert(cell as int),
            final(self).settled_count() == old(self).settled_count() + 1,
            final(self).settled_costs() == old(self).settled_costs().update(cell as int, start as int),
            final(self).growing() == old(self).growing(),
            final(self).seeds_came_first() == (old(self).seeds_came_first() && !old(self).growing()),
    {
        proof {
            self.lemma_settled_count_below(cell as int);
            assert(self.wf_before_settling(cell as int));
        }
        self.settle(cell, region, start, true);
    }

    /// Settles every cell the seeds can reach.
    pub fn grow(&mut self)
        requires
            old(self).wf(),
        ensures
            final(self).wf(),
            final(self).exhausted(),
            final(self).closed_under_steps(),
            final(self).topology() == old(self).topology(),
            final(self).bounds() == old(self).bounds(),
            final(self).costs() == old(self).costs(),
            final(self).seed_cells() == old(self).seed_cells(),
            forall|c: int|
                0 <= c < old(self).plates().len() && old(self).settled(c) ==> final(self).plates()[c]
                    == old(self).plates()[c],
            forall|c: int|
                0 <= c < old(self).plates().len() && old(self).settled(c) ==> final(self).settled_costs()[c]
                    == old(self).settled_costs()[c],
            final(self).seeds_came_first() == old(self).seeds_came_first(),
    {
        loop
            invariant
                self.wf(),
                self.topology() == old(self).topology(),
                self.bounds() == old(self).bounds(),
                self.costs() == old(self).costs(),
                self.seed_cells() == old(self).seed_cells(),
                self.plates().len() == old(self).plates().len(),
                self.settled_count() <= self.topology().cells(),
                forall|c: int|
                    0 <= c < old(self).plates().len() && old(self).settled(c) ==> self.plates()[c]
                        == old(self).plates()[c],
                forall|c: int|
                    0 <= c < old(self).plates().len() && old(self).settled(c) ==> self.settled_costs()[c]
                        == old(self).settled_costs()[c],
                self.seeds_came_first() == old(self).seeds_came_first(),
            decreases self.topology().cells() - self.settled_count(),
        {
            let ghost prev = *self;
            let next = self.settle_next();
            assert forall|c: int|
                0 <= c < old(self).plates().len() && old(self).settled(c) implies self.plates()[c]
                    == old(self).plates()[c] && self.settled_costs()[c] == old(self).settled_costs()[c] by {
                assert(prev.plates()[c] == old(self).plates()[c]);
                assert(prev.settled(c));
                assert(self.plates()[c] == prev.plates()[c]);
            }
            if next.is_none() {
                return;
            }
        }
    }

    /// The position of the arrival settled first, of a queue that holds one.
    fn cheapest_arrival(&self) -> (index: usize)
        requires
            self.arrivals@.len() > 0,
        ensures
            index < self.arrivals@.len(),
            forall|i: int|
                0 <= i < self.arrivals@.len() && i != index ==> !arrival_precedes(
                    #[trigger] self.arrivals@[i],
                    self.arrivals@[index as int],
                ),
    {
        let mut best: usize = 0;
        let mut i: usize = 1;
        while i < self.arrivals.len()
            invariant
                best < i <= self.arrivals@.len(),
                forall|j: int|
                    0 <= j < i && j != best ==> !arrival_precedes(
                        #[trigger] self.arrivals@[j],
                        self.arrivals@[best as int],
                    ),
            decreases self.arrivals@.len() - i,
        {
            let candidate = self.arrivals[i];
            let current = self.arrivals[best];
            if candidate.cost < current.cost || (candidate.cost == current.cost && (
            candidate.sequence < current.sequence || (candidate.sequence == current.sequence && (
            candidate.cell < current.cell || (candidate.cell == current.cell && candidate.plate
                < current.plate))))) {
                best = i;
            }
            i += 1;
        }
        best
    }

    /// Settles the cheapest arrival still outstanding and returns its cell, or
    /// `None` once the frontier holds nothing new.
    pub fn settle_next(&mut self) -> (settled: Option<usize>)
        requires
            old(self).wf(),
        ensures
            final(self).wf(),
            final(self).topology() == old(self).topology(),
            final(self).bounds() == old(self).bounds(),
            final(self).costs() == old(self).costs(),
            final(self).seed_cells() == old(self).seed_cells(),
            final(self).plates().len() == old(self).plates().len(),
            final(self).settled_count() <= final(self).topology().cells(),
            forall|c: int|
                0 <= c < old(self).plates().len() && old(self).settled(c) ==> final(self).plates()[c]
                    == old(self).plates()[c],
            final(self).settled_costs().len() == old(self).settled_costs().len(),
            forall|c: int|
                0 <= c < old(self).plates().len() && old(self).settled(c) ==> final(self).settled_costs()[c]
                    == old(self).settled_costs()[c],
            final(self).seeds_came_first() == old(self).seeds_came_first(),
            settled is Some ==> final(self).growing(),
            settled is None ==> final(self).growing() == old(self).growing(),
            match settled {
                Some(cell) => {
                    &&& cell < old(self).plates().len()
                    &&& !old(self).settled(cell as int)
                    &&& final(self).settled(cell as int)
                    &&& final(self).settled_count() == old(self).settled_count() + 1
                    &&& forall|c: int|
                        0 <= c < old(self).plates().len() && c != cell ==> final(self).plates()[c]
                            == old(self).plates()[c]
                    // The cell settles by the first outstanding arrival, in
                    // settling order, of any cell still unsettled: its region
                    // and its cost.
                    &&& exists|i: int|
                        0 <= i < old(self).outstanding().len() && (#[trigger] old(self).outstanding()[i]).cell
                            == cell && final(self).plates()[cell as int] == old(self).outstanding()[i].plate
                            && final(self).settled_costs()[cell as int] == old(self).outstanding()[i].cost
                            && forall|j: int|
                            0 <= j < old(self).outstanding().len() && !old(self).settled(
                                old(self).outstanding()[j].cell as int,
                            ) ==> !arrival_precedes(
                                #[trigger] old(self).outstanding()[j],
                                old(self).outstanding()[i],
                            )
                },
                None => {
                    &&& final(self).plates() == old(self).plates()
                    &&& final(self).exhausted()
                    &&& final(self).closed_under_steps()
                    &&& final(self).settled_count() == old(self).settled_count()
                    // Every arrival that was outstanding named a settled cell.
                    &&& forall|j: int|
                        0 <= j < old(self).outstanding().len() ==> old(self).settled(
                            (#[trigger] old(self).outstanding()[j]).cell as int,
                        )
                },
            },
    {
        while self.arrivals.len() > 0
            invariant
                self.wf(),
                self.mesh == old(self).mesh,
                self.bounds == old(self).bounds,
                self.costs == old(self).costs,
                self.seeds == old(self).seeds,
                self.cell_plates@ == old(self).cell_plates@,
                self.order@ == old(self).order@,
                self.paid@ == old(self).paid@,
                self.floor@ == old(self).floor@,
                self.late_seed@ == old(self).late_seed@,
                forall|j: int|
                    0 <= j < old(self).arrivals@.len() && old(self).cell_plates@[old(
                        self,
                    ).arrivals@[j].cell as int] == UNASSIGNED_PLATE ==> self.arrivals@.contains(
                        #[trigger] old(self).arrivals@[j],
                    ),
                forall|k: int|
                    0 <= k < self.arrivals@.len() ==> old(self).arrivals@.contains(
                        #[trigger] self.arrivals@[k],
                    ),
            decreases self.arrivals@.len(),
        {
            let index = self.cheapest_arrival();
            let ghost pre = *self;
            let arrival = self.arrivals.remove(index);
            proof {
                self.lemma_removal_keeps_invariant(pre, index as int);
                self.lemma_removal_keeps_pricing(pre, index as int);
            }
            proof {
                assert forall|k: int| 0 <= k < self.arrivals@.len() implies old(self).arrivals@.contains(
                    #[trigger] self.arrivals@[k],
                ) by {
                    let m = if k < index as int {
                        k
                    } else {
                        k + 1
                    };
                    assert(self.arrivals@[k] == pre.arrivals@[m]);
                    assert(old(self).arrivals@.contains(pre.arrivals@[m]));
                }
            }
            if self.cell_plates[arrival.cell] != UNASSIGNED_PLATE {
                proof {
                    assert forall|j: int|
                        0 <= j < old(self).arrivals@.len() && old(self).cell_plates@[old(
                            self,
                        ).arrivals@[j].cell as int] == UNASSIGNED_PLATE implies self.arrivals@.contains(
                        #[trigger] old(self).arrivals@[j],
                    ) by {
                        let b = old(self).arrivals@[j];
                        let k = choose|k: int| 0 <= k < pre.arrivals@.len() && pre.arrivals@[k] == b;
                        assert(k != index);
                        if k < index {
                            assert(self.arrivals@[k] == b);
                        } else {
                            assert(self.arrivals@[k - 1] == b);
                        }
                    }
                }
                continue;
            }
            let ghost wit: int = choose|i: int|
                0 <= i < old(self).arrivals@.len() && old(self).arrivals@[i] == pre.arrivals@[index as int];
            proof {
                let a = pre.arrivals@[index as int];
                let i = wit;
                assert forall|j: int|
                    0 <= j < old(self).arrivals@.len() && old(self).cell_plates@[old(self).arrivals@[j].cell as int]
                        == UNASSIGNED_PLATE implies !arrival_precedes(#[trigger] old(self).arrivals@[j], a) by {
                    let b = old(self).arrivals@[j];
                    let k = choose|k: int| 0 <= k < pre.arrivals@.len() && pre.arrivals@[k] == b;
                    if k != index {
                        assert(!arrival_precedes(pre.arrivals@[k], a));
                    }
                }
                assert(old(self).arrivals@[i].cell == a.cell);
            }
            proof {
                pre.lemma_settled_count_below(arrival.cell as int);
                assert(pre.has_parent(pre.arrivals@[index as int]));
                self.lemma_pop_ready(pre, index as int);
            }
            self.settle(arrival.cell, arrival.plate, arrival.cost, false);
            proof {
                assert(self.cell_plates@[arrival.cell as int] == arrival.plate);
                assert(self.paid@[arrival.cell as int] == arrival.cost);
                assert(old(self).outstanding()[wit] == arrival);
            }
            return Some(arrival.cell);
        }
        proof {
            assert forall|c: int, k: int|
                0 <= c < self.topology().cells() && 0 <= k < self.topology().degree(c)
                    && self.settled(c) && self.bounds().allows(
                    c,
                    self.topology().corner(c, k).neighbor as int,
                ) implies self.settled(#[trigger] self.topology().corner(c, k).neighbor as int) by {
                let nb = self.mesh.corner(c, k).neighbor as int;
                assert(self.proposed_upto(c, self.mesh.degree(c) as int));
                if !self.settled(nb) {
                    assert(self.cell_plates@[nb] == UNASSIGNED_PLATE);
                    assert(self.best_arrivals@[nb] != u64::MAX);
                }
            }
        }
        None
    }

    /// The two growth laws read only ownership, ranks, seeds, mesh, and
    /// bounds, so a state that agrees with `pre` on those keeps them.
    proof fn lemma_laws_transfer(&self, pre: Self)
        requires
            pre.grown_from_seeds(),
            pre.regions_within_bounds(),
            self.cell_plates@ == pre.cell_plates@,
            self.rank@ == pre.rank@,
            self.seeds@ == pre.seeds@,
            *self.mesh == *pre.mesh,
            self.bounds == pre.bounds,
        ensures
            self.grown_from_seeds(),
            self.regions_within_bounds(),
            pre.regions_from_seeds() ==> self.regions_from_seeds(),
    {
        if pre.regions_from_seeds() {
            assert forall|c: int| 0 <= c < self.topology().cells() && self.settled(c) implies exists|
                s: int,
            | #[trigger] self.seed_cells().contains(s) && self.plates()[s] == self.plates()[c] by {
                assert(pre.settled(c));
                let s = choose|s: int|
                    #[trigger] pre.seed_cells().contains(s) && pre.plates()[s] == pre.plates()[c];
                assert(self.seed_cells().contains(s));
            }
        }
        assert forall|c: int|
            0 <= c < self.topology().cells() && self.settled(c) && !self.seed_cells().contains(
                c,
            ) implies exists|p: int|
            0 <= p < self.topology().cells() && self.settled(p) && #[trigger] self.plates()[p]
                == self.plates()[c] && self.settled_before(p, c) && self.topology().adjacent(p, c)
                && self.bounds().allows(p, c) by {
            assert(pre.settled(c) && !pre.seed_cells().contains(c));
            let p = choose|p: int|
                0 <= p < pre.topology().cells() && pre.settled(p) && #[trigger] pre.plates()[p]
                    == pre.plates()[c] && pre.settled_before(p, c) && pre.topology().adjacent(p, c)
                    && pre.bounds().allows(p, c);
            assert(self.plates()[p] == self.plates()[c]);
        }
        assert forall|a: int, b: int|
            0 <= a < self.topology().cells() && 0 <= b < self.topology().cells() && self.settled(a)
                && self.settled(b) && #[trigger] self.plates()[a]
                == #[trigger] self.plates()[b] implies self.bounds().allows(a, b) by {
            assert(pre.plates()[a] == pre.plates()[b]);
        }
    }

    /// Removing one arrival from the queue keeps every other arrival, and
    /// with it the pending arrival of every unsettled cell but the one it
    /// named.
    proof fn lemma_removal_keeps_invariant(&self, pre: Self, index: int)
        requires
            pre.wf(),
            0 <= index < pre.arrivals@.len(),
            self.arrivals@ == pre.arrivals@.remove(index),
            self.mesh == pre.mesh,
            self.bounds == pre.bounds,
            self.costs == pre.costs,
            self.cell_plates == pre.cell_plates,
            self.best_arrivals == pre.best_arrivals,
            self.order == pre.order,
            self.rank == pre.rank,
            self.seeds == pre.seeds,
        ensures
            self.base_before_settling(pre.arrivals@[index].cell as int),
    {
        let old_queue = pre.arrivals@;
        let removed = old_queue[index];
        assert forall|i: int| 0 <= i < self.arrivals@.len() implies #[trigger] self.arrivals@[i]
            == old_queue[if i < index {
            i
        } else {
            i + 1
        }] by {}
        assert(self.queue_ok()) by {
            assert forall|i: int| 0 <= i < self.arrivals@.len() implies self.has_parent(
                #[trigger] self.arrivals@[i],
            ) by {
                let j = if i < index {
                    i
                } else {
                    i + 1
                };
                assert(self.arrivals@[i] == old_queue[j]);
                assert(pre.has_parent(old_queue[j]));
            }
        }
        assert(self.pending_except(removed.cell as int)) by {
            assert forall|c: int|
                0 <= c < self.mesh.cells() && c != removed.cell as int && self.cell_plates@[c]
                    == UNASSIGNED_PLATE && #[trigger] self.best_arrivals@[c]
                    != u64::MAX implies exists|i: int|
                0 <= i < self.arrivals@.len() && (#[trigger] self.arrivals@[i]).cell == c by {
                let i = choose|i: int| 0 <= i < old_queue.len() && (#[trigger] old_queue[i]).cell == c;
                assert(i != index);
                if i < index {
                    assert(self.arrivals@[i] == old_queue[i]);
                } else {
                    assert(self.arrivals@[i - 1] == old_queue[i]);
                }
            }
        }
        assert(self.plates() == pre.plates());
        assert(self.seed_cells() == pre.seed_cells());
        assert(self.topology() == pre.topology());
        assert(self.bounds() == pre.bounds());
        self.lemma_laws_transfer(pre);
        assert(self.regions_from_seeds());
        assert(self.proposed_except(-1)) by {
            assert forall|c: int|
                0 <= c < self.mesh.cells() && c != -1 && #[trigger] self.cell_plates@[c]
                    != UNASSIGNED_PLATE implies self.proposed_upto(c, self.mesh.degree(c) as int) by {
                assert(pre.proposed_upto(c, pre.mesh.degree(c) as int));
            }
        }
        assert(self.grown_from_seeds());
        assert(self.regions_within_bounds());
    }

    /// Settles `cell` into `plate` at `cost` and proposes every neighbour it
    /// may step to at the cost of the edge between them.
    fn settle(&mut self, cell: usize, plate: usize, cost: u64, as_seed: bool)
        requires
            old(self).wf_before_settling(cell as int),
            old(self).order@.len() < old(self).mesh.cells(),
            cell < old(self).mesh.cells(),
            old(self).cell_plates@[cell as int] == UNASSIGNED_PLATE,
            plate != UNASSIGNED_PLATE,
            old(self).costs.knows_region(plate as int),
            cost <= cost_ceiling(old(self).order@.len() as int),
            as_seed ==> forall|c: int|
                0 <= c < old(self).mesh.cells() ==> old(self).cell_plates@[c] != plate,
            !as_seed ==> exists|p: int|
                0 <= p < old(self).mesh.cells() && old(self).cell_plates@[p] != UNASSIGNED_PLATE
                    && #[trigger] old(self).cell_plates@[p] == plate && old(self).mesh.adjacent(
                    p,
                    cell as int,
                ) && old(self).bounds.allows(p, cell as int),
            !as_seed ==> cost == old(self).best_arrivals@[cell as int],
            !as_seed ==> exists|p: int, k: int|
                #[trigger] old(self).can_step(p, k) && old(self).mesh.corner(p, k).neighbor == cell
                    && old(self).cell_plates@[p] == plate && cost == old(self).paid@[p] + old(
                    self,
                ).step_of(p, k),
            !as_seed ==> forall|i: int|
                0 <= i < old(self).arrivals@.len() ==> (#[trigger] old(self).arrivals@[i]).cost >= cost,
            !as_seed && !old(self).late_seed@ && old(self).floor@ is Some ==> cost >= old(
                self,
            ).floor@->Some_0,
        ensures
            final(self).wf(),
            final(self).paid@ == old(self).paid@.update(cell as int, cost as int),
            final(self).floor@ == (if as_seed {
                old(self).floor@
            } else {
                Some(cost as int)
            }),
            final(self).late_seed@ == (old(self).late_seed@ || (as_seed && old(self).floor@ is Some)),
            final(self).mesh == old(self).mesh,
            final(self).bounds == old(self).bounds,
            final(self).costs == old(self).costs,
            final(self).seeds@ == (if as_seed {
                old(self).seeds@.insert(cell as int)
            } else {
                old(self).seeds@
            }),
            final(self).cell_plates@ == old(self).cell_plates@.update(cell as int, plate),
            final(self).order@ == old(self).order@.push(cell as int),
    {
        let ghost k0 = self.order@.len() as int;
        let ghost pre = *self;
        self.cell_plates.set(cell, plate);
        proof {
            self.order@ = self.order@.push(cell as int);
            self.rank@ = self.rank@.insert(cell as int, k0);
            if as_seed {
                self.seeds@ = self.seeds@.insert(cell as int);
                if self.floor@ is Some {
                    self.late_seed@ = true;
                }
            } else {
                self.floor@ = Some(cost as int);
            }
            self.paid@ = self.paid@.update(cell as int, cost as int);
            self.lemma_settled_cell_keeps_invariant(pre, cell as int, plate, as_seed);
            self.lemma_settled_cell_keeps_pricing(pre, cell as int, plate, cost as int, as_seed);
        }
        let ghost paid0 = self.paid@;
        let ghost floor0 = self.floor@;
        let ghost late0 = self.late_seed@;
        let mesh = self.mesh;
        let corners = &mesh.cell_corners[cell];
        let mut k: usize = 0;
        while k < corners.len()
            invariant
                self.wf_settling(cell as int),
                self.proposed_upto(cell as int, k as int),
                self.mesh == mesh,
                corners@ == mesh.cell_corners@[cell as int]@,
                cell < mesh.cells(),
                k <= corners@.len(),
                self.cell_plates@[cell as int] == plate,
                self.order@.len() == k0 + 1,
                k0 + 1 <= mesh.cells(),
                cost <= cost_ceiling(k0),
                plate != UNASSIGNED_PLATE,
                pre.costs.knows_region(plate as int),
                self.bounds == pre.bounds,
                self.costs == pre.costs,
                self.seeds@ == (if as_seed {
                    pre.seeds@.insert(cell as int)
                } else {
                    pre.seeds@
                }),
                self.cell_plates@ == pre.cell_plates@.update(cell as int, plate),
                self.order@ == pre.order@.push(cell as int),
                self.bounded_upto(cell as int, k as int),
                self.paid@ == paid0,
                self.floor@ == floor0,
                self.late_seed@ == late0,
                paid0 == pre.paid@.update(cell as int, cost as int),
                floor0 == (if as_seed {
                    pre.floor@
                } else {
                    Some(cost as int)
                }),
                late0 == (pre.late_seed@ || (as_seed && pre.floor@ is Some)),
                self.paid@[cell as int] == cost as int,
                !late0 && floor0 is Some ==> floor0->Some_0 == cost as int,
            decreases corners@.len() - k,
        {
            let corner = corners[k];
            assert(corner == mesh.corner(cell as int, k as int));
            let neighbor = corner.neighbor;
            if self.bounds.passable(cell, neighbor) && self.cell_plates[neighbor] == UNASSIGNED_PLATE {
                let step = self.costs.edge_cost(corner.edge, plate, neighbor);
                proof {
                    lemma_ceiling_headroom(k0);
                }
                let candidate = cost.saturating_add(step);
                assert(candidate == cost + step);
                proof {
                    assert(step == self.step_of(cell as int, k as int));
                }
                if candidate < self.best_arrivals[neighbor] {
                    let ghost before = *self;
                    self.best_arrivals.set(neighbor, candidate);
                    self.next_sequence = self.next_sequence.wrapping_add(1);
                    let arrival = Arrival {
                        cost: candidate,
                        sequence: self.next_sequence,
                        cell: neighbor,
                        plate,
                    };
                    self.arrivals.push(arrival);
                    proof {
                        assert(mesh.adjacent(cell as int, neighbor as int));
                        assert(self.cell_plates@[cell as int] == plate);
                        self.lemma_push_keeps_invariant(before, cell as int, k as int, arrival);
                        self.lemma_push_keeps_pricing(before, cell as int, k as int, arrival);
                    }
                } else {
                    proof {
                        self.lemma_bounded_extends(cell as int, k as int);
                    }
                }
            } else {
                proof {
                    self.lemma_bounded_extends(cell as int, k as int);
                }
            }
            k += 1;
        }
    }

    /// Settling a cell keeps every part of the invariant but the new cell's own
    /// proposals, which it has not made yet.
    proof fn lemma_settled_cell_keeps_invariant(
        &self,
        pre: Self,
        cell: int,
        plate: usize,
        as_seed: bool,
    )
        requires
            pre.wf_before_settling(cell),
            pre.order@.len() < pre.mesh.cells(),
            0 <= cell < pre.mesh.cells(),
            pre.cell_plates@[cell] == UNASSIGNED_PLATE,
            plate != UNASSIGNED_PLATE,
            pre.costs.knows_region(plate as int),
            as_seed ==> forall|c: int|
                0 <= c < pre.mesh.cells() ==> pre.cell_plates@[c] != plate,
            !as_seed ==> exists|p: int|
                0 <= p < pre.mesh.cells() && pre.cell_plates@[p] != UNASSIGNED_PLATE
                    && #[trigger] pre.cell_plates@[p] == plate && pre.mesh.adjacent(p, cell)
                    && pre.bounds.allows(p, cell),
            self.mesh == pre.mesh,
            self.bounds == pre.bounds,
            self.costs == pre.costs,
            self.best_arrivals == pre.best_arrivals,
            self.arrivals == pre.arrivals,
            self.cell_plates@ == pre.cell_plates@.update(cell, plate),
            self.order@ == pre.order@.push(cell),
            self.rank@ == pre.rank@.insert(cell, pre.order@.len() as int),
            self.seeds@ == (if as_seed {
                pre.seeds@.insert(cell)
            } else {
                pre.seeds@
            }),
        ensures
            self.base_settling(cell),
            self.proposed_upto(cell, 0),
    {
        let n = self.mesh.cells() as int;
        let k0 = pre.order@.len() as int;
        assert(self.shape_ok());
        assert(self.ranks_ok()) by {
            assert forall|i: int| 0 <= i < self.order@.len() implies {
                &&& 0 <= #[trigger] self.order@[i] < n
                &&& self.cell_plates@[self.order@[i]] != UNASSIGNED_PLATE
                &&& self.rank@.dom().contains(self.order@[i])
                &&& self.rank@[self.order@[i]] == i
            } by {
                if i < k0 {
                    assert(self.order@[i] == pre.order@[i]);
                    assert(pre.rank@[pre.order@[i]] == i);
                    assert(pre.order@[i] != cell);
                }
            }
        }
        assert(self.queue_ok()) by {
            assert forall|i: int| 0 <= i < self.arrivals@.len() implies self.has_parent(
                #[trigger] self.arrivals@[i],
            ) by {
                let a = self.arrivals@[i];
                assert(pre.has_parent(pre.arrivals@[i]));
                let p = choose|p: int|
                    0 <= p < pre.mesh.cells() && pre.cell_plates@[p] != UNASSIGNED_PLATE
                        && #[trigger] pre.cell_plates@[p] == a.plate && pre.mesh.adjacent(
                        p,
                        a.cell as int,
                    ) && pre.bounds.allows(p, a.cell as int);
                assert(p != cell);
                assert(self.cell_plates@[p] == a.plate);
            }
        }
        assert(self.pending_ok());
        assert(self.proposed_except(cell)) by {
            assert forall|c: int|
                0 <= c < n && c != cell && #[trigger] self.cell_plates@[c]
                    != UNASSIGNED_PLATE implies self.proposed_upto(c, self.mesh.degree(c) as int) by {
                assert(pre.cell_plates@[c] != UNASSIGNED_PLATE);
                assert(pre.proposed_upto(c, pre.mesh.degree(c) as int));
                assert forall|k: int|
                    0 <= k < self.mesh.degree(c) && self.bounds.allows(
                        c,
                        self.mesh.corner(c, k).neighbor as int,
                    ) && self.cell_plates@[#[trigger] self.mesh.corner(c, k).neighbor as int]
                        == UNASSIGNED_PLATE implies self.best_arrivals@[self.mesh.corner(
                    c,
                    k,
                ).neighbor as int] != u64::MAX by {
                    let nb = self.mesh.corner(c, k).neighbor as int;
                    assert(nb != cell);
                    assert(pre.cell_plates@[nb] == UNASSIGNED_PLATE);
                }
            }
        }
        assert(self.seeds_ok());
        assert(self.grown_from_seeds()) by {
            assert forall|c: int|
                0 <= c < self.topology().cells() && self.settled(c) && !self.seed_cells().contains(
                    c,
                ) implies exists|p: int|
                0 <= p < self.topology().cells() && self.settled(p) && #[trigger] self.plates()[p]
                    == self.plates()[c] && self.settled_before(p, c) && self.topology().adjacent(
                    p,
                    c,
                ) && self.bounds().allows(p, c) by {
                if c == cell {
                    let p = choose|p: int|
                        0 <= p < pre.mesh.cells() && pre.cell_plates@[p] != UNASSIGNED_PLATE
                            && #[trigger] pre.cell_plates@[p] == plate && pre.mesh.adjacent(p, cell)
                            && pre.bounds.allows(p, cell);
                    assert(p != cell);
                    assert(self.plates()[p] == self.plates()[c]);
                    assert(self.settled_before(p, c));
                } else {
                    assert(pre.settled(c) && !pre.seed_cells().contains(c));
                    let p = choose|p: int|
                        0 <= p < pre.topology().cells() && pre.settled(p) && #[trigger] pre.plates()[p]
                            == pre.plates()[c] && pre.settled_before(p, c)
                            && pre.topology().adjacent(p, c) && pre.bounds().allows(p, c);
                    assert(p != cell);
                    assert(self.plates()[p] == self.plates()[c]);
                    assert(self.settled_before(p, c));
                }
            }
        }
        assert(self.regions_from_seeds()) by {
            assert forall|c: int| 0 <= c < self.topology().cells() && self.settled(c) implies exists|
                s: int,
            | #[trigger] self.seed_cells().contains(s) && self.plates()[s] == self.plates()[c] by {
                if c == cell {
                    if as_seed {
                        assert(self.seed_cells().contains(cell));
                    } else {
                        let p = choose|p: int|
                            0 <= p < pre.mesh.cells() && pre.cell_plates@[p] != UNASSIGNED_PLATE
                                && #[trigger] pre.cell_plates@[p] == plate && pre.mesh.adjacent(
                                p,
                                cell,
                            ) && pre.bounds.allows(p, cell);
                        assert(pre.settled(p));
                        let s = choose|s: int|
                            #[trigger] pre.seed_cells().contains(s) && pre.plates()[s]
                                == pre.plates()[p];
                        assert(s != cell);
                        assert(self.seed_cells().contains(s));
                    }
                } else {
                    assert(pre.settled(c));
                    let s = choose|s: int|
                        #[trigger] pre.seed_cells().contains(s) && pre.plates()[s] == pre.plates()[c];
                    assert(s != cell);
                    assert(self.seed_cells().contains(s));
                }
            }
        }
        assert(self.regions_within_bounds()) by {
            assert forall|a: int, b: int|
                0 <= a < self.topology().cells() && 0 <= b < self.topology().cells() && self.settled(
                    a,
                ) && self.settled(b) && #[trigger] self.plates()[a]
                    == #[trigger] self.plates()[b] implies self.bounds().allows(a, b) by {
                if a != cell && b != cell {
                    assert(pre.plates()[a] == pre.plates()[b]);
                    assert(pre.settled(a) && pre.settled(b));
                } else if a == cell && b == cell {
                } else {
                    let other = if a == cell { b } else { a };
                    assert(pre.settled(other) && pre.plates()[other] == plate);
                    assert(!as_seed);
                    let p = choose|p: int|
                        0 <= p < pre.mesh.cells() && pre.cell_plates@[p] != UNASSIGNED_PLATE
                            && #[trigger] pre.cell_plates@[p] == plate && pre.mesh.adjacent(p, cell)
                            && pre.bounds.allows(p, cell);
                    assert(pre.plates()[other] == pre.plates()[p]);
                    assert(pre.bounds().allows(other, p));
                }
            }
        }
    }

    /// Proposing one arrival for a neighbour keeps the invariant and adds the
    /// proposal of corner `k` to those `cell` has made.
    proof fn lemma_push_keeps_invariant(&self, before: Self, cell: int, k: int, arrival: Arrival)
        requires
            before.wf_settling(cell),
            before.proposed_upto(cell, k),
            0 <= cell < before.mesh.cells(),
            0 <= k < before.mesh.degree(cell),
            before.cell_plates@[cell] == arrival.plate,
            arrival.plate != UNASSIGNED_PLATE,
            before.costs.knows_region(arrival.plate as int),
            arrival.cell == before.mesh.corner(cell, k).neighbor,
            before.mesh.adjacent(cell, arrival.cell as int),
            before.bounds.allows(cell, arrival.cell as int),
            before.cell_plates@[arrival.cell as int] == UNASSIGNED_PLATE,
            arrival.cost <= cost_ceiling(before.order@.len() as int),
            arrival.cost < u64::MAX,
            self.mesh == before.mesh,
            self.bounds == before.bounds,
            self.costs == before.costs,
            self.cell_plates == before.cell_plates,
            self.order == before.order,
            self.rank == before.rank,
            self.seeds == before.seeds,
            self.best_arrivals@ == before.best_arrivals@.update(arrival.cell as int, arrival.cost),
            self.arrivals@ == before.arrivals@.push(arrival),
        ensures
            self.base_settling(cell),
            self.proposed_upto(cell, k + 1),
    {
        let n = self.mesh.cells() as int;
        let last = before.arrivals@.len() as int;
        assert(self.arrivals@[last] == arrival);
        assert(self.has_parent(arrival)) by {
            assert(self.cell_plates@[cell] == arrival.plate);
        }
        assert(self.queue_ok()) by {
            assert forall|i: int| 0 <= i < self.arrivals@.len() implies self.has_parent(
                #[trigger] self.arrivals@[i],
            ) by {
                if i < last {
                    assert(self.arrivals@[i] == before.arrivals@[i]);
                    assert(before.has_parent(before.arrivals@[i]));
                }
            }
        }
        assert(self.pending_ok()) by {
            assert forall|c: int|
                0 <= c < n && self.cell_plates@[c] == UNASSIGNED_PLATE
                    && #[trigger] self.best_arrivals@[c] != u64::MAX implies exists|i: int|
                0 <= i < self.arrivals@.len() && (#[trigger] self.arrivals@[i]).cell == c by {
                if c == arrival.cell {
                    assert(self.arrivals@[last].cell == c);
                } else {
                    assert(before.best_arrivals@[c] != u64::MAX);
                    let i = choose|i: int|
                        0 <= i < before.arrivals@.len() && (#[trigger] before.arrivals@[i]).cell
                            == c;
                    assert(self.arrivals@[i] == before.arrivals@[i]);
                }
            }
        }
        assert(self.proposed_except(cell)) by {
            assert forall|c: int|
                0 <= c < n && c != cell && #[trigger] self.cell_plates@[c]
                    != UNASSIGNED_PLATE implies self.proposed_upto(c, self.mesh.degree(c) as int) by {
                assert(before.proposed_upto(c, before.mesh.degree(c) as int));
            }
        }
        assert(self.proposed_upto(cell, k + 1));
        assert(self.plates() == before.plates());
        assert(self.seed_cells() == before.seed_cells());
        assert(self.topology() == before.topology());
        assert(self.bounds() == before.bounds());
        self.lemma_laws_transfer(before);
        assert(self.regions_from_seeds());
        assert(self.shape_ok());
        assert(self.ranks_ok());
        assert(self.seeds_ok());
        assert(self.grown_from_seeds());
        assert(self.regions_within_bounds());
    }

    /// A step costs nothing below zero.
    proof fn lemma_step_nonnegative(&self, from: int, k: int)
        requires
            self.costs.roughness <= MAX_GROWTH_ROUGHNESS,
        ensures
            self.step_of(from, k) >= 0,
    {
        let edge = self.mesh.corner(from, k).edge as int;
        let roughness = self.costs.roughness as int;
        let sample = self.costs.edge_samples@[edge] as int;
        let base = rough_cost(roughness, sample);
        assert(base >= 1) by {
            assert(sample % (roughness * 2 + 1) >= 0);
        }
        match self.costs.scales {
            Some(scales) => {
                let region = scales.region@[self.cell_plates@[from] as int] as int;
                let cell = scales.cell@[self.mesh.corner(from, k).neighbor as int] as int;
                assert((base * region * cell) / (COST_SCALE_ONE * COST_SCALE_ONE) >= 0) by (nonlinear_arith)
                    requires
                        base >= 1,
                        region >= 0,
                        cell >= 0,
                ;
            },
            None => {},
        }
    }

    /// Extending the bound of `c`'s proposals by one corner that keeps it.
    proof fn lemma_bounded_extends(&self, c: int, k: int)
        requires
            0 <= k,
            self.bounded_upto(c, k),
            self.can_step(c, k) && self.cell_plates@[self.mesh.corner(c, k).neighbor as int]
                == UNASSIGNED_PLATE ==> self.best_arrivals@[self.mesh.corner(c, k).neighbor as int]
                <= self.paid@[c] + self.step_of(c, k),
        ensures
            self.bounded_upto(c, k + 1),
    {
        assert forall|j: int|
            0 <= j < k + 1 && #[trigger] self.can_step(c, j) && self.cell_plates@[self.mesh.corner(
                c,
                j,
            ).neighbor as int] == UNASSIGNED_PLATE implies self.best_arrivals@[self.mesh.corner(
            c,
            j,
        ).neighbor as int] <= self.paid@[c] + self.step_of(c, j) by {
            if j < k {
            }
        }
    }

    /// Removing one arrival keeps the cost bookkeeping, with the best arrival
    /// of every cell but the one it named still outstanding.
    proof fn lemma_removal_keeps_pricing(&self, pre: Self, index: int)
        requires
            pre.wf(),
            0 <= index < pre.arrivals@.len(),
            self.arrivals@ == pre.arrivals@.remove(index),
            self.mesh == pre.mesh,
            self.bounds == pre.bounds,
            self.costs == pre.costs,
            self.cell_plates == pre.cell_plates,
            self.best_arrivals == pre.best_arrivals,
            self.seeds == pre.seeds,
            self.paid == pre.paid,
            self.floor == pre.floor,
            self.late_seed == pre.late_seed,
        ensures
            self.pricing(),
            self.attained_except(pre.arrivals@[index].cell as int),
            self.bounded_except(-1),
    {
        let old_queue = pre.arrivals@;
        let removed = old_queue[index];
        assert forall|i: int| 0 <= i < self.arrivals@.len() implies #[trigger] self.arrivals@[i]
            == old_queue[if i < index {
            i
        } else {
            i + 1
        }] by {}
        assert forall|p: int, k: int| #[trigger] self.can_step(p, k) == pre.can_step(p, k) by {}
        assert forall|p: int, k: int| #[trigger] self.step_of(p, k) == pre.step_of(p, k) by {}
        assert forall|i: int| 0 <= i < self.arrivals@.len() implies self.priced(
            #[trigger] self.arrivals@[i],
        ) by {
            let j = if i < index {
                i
            } else {
                i + 1
            };
            assert(pre.priced(old_queue[j]));
            let (p, k) = choose|p: int, k: int|
                #[trigger] pre.can_step(p, k) && pre.mesh.corner(p, k).neighbor == old_queue[j].cell
                    && pre.cell_plates@[p] == old_queue[j].plate && old_queue[j].cost == pre.paid@[p]
                    + pre.step_of(p, k);
            assert(self.can_step(p, k));
        }
        assert forall|i: int|
            0 <= i < self.arrivals@.len() && self.cell_plates@[self.arrivals@[i].cell as int]
                == UNASSIGNED_PLATE implies (#[trigger] self.arrivals@[i]).cost
            >= self.best_arrivals@[self.arrivals@[i].cell as int] by {
            let j = if i < index {
                i
            } else {
                i + 1
            };
            assert(self.arrivals@[i] == old_queue[j]);
        }
        let n = self.mesh.cells();
        assert forall|c: int|
            0 <= c < n && self.cell_plates@[c] != UNASSIGNED_PLATE && !self.seeds@.contains(c)
            implies exists|p: int, k: int|
            #[trigger] self.can_step(p, k) && self.mesh.corner(p, k).neighbor == c
                && self.cell_plates@[p] == self.cell_plates@[c] && self.paid@[c] == self.paid@[p]
                + self.step_of(p, k) by {
            let (p, k) = choose|p: int, k: int|
                #[trigger] pre.can_step(p, k) && pre.mesh.corner(p, k).neighbor == c
                    && pre.cell_plates@[p] == pre.cell_plates@[c] && pre.paid@[c] == pre.paid@[p]
                    + pre.step_of(p, k);
            assert(self.can_step(p, k));
        }
        if !self.late_seed@ {
            assert forall|c: int, q: int, k: int|
                0 <= c < n && self.cell_plates@[c] != UNASSIGNED_PLATE && !self.seeds@.contains(c)
                    && #[trigger] self.can_step(q, k) && self.mesh.corner(q, k).neighbor == c
                    implies #[trigger] self.paid@[c] <= self.paid@[q] + self.step_of(q, k) by {
                assert(pre.can_step(q, k));
            }
        }
        if !self.late_seed@ && self.floor@ is Some {
            assert forall|i: int| 0 <= i < self.arrivals@.len() implies (
            #[trigger] self.arrivals@[i]).cost >= self.floor@->Some_0 by {
                let j = if i < index {
                    i
                } else {
                    i + 1
                };
                assert(self.arrivals@[i] == old_queue[j]);
            }
        }
        assert(self.pricing());
        assert forall|c: int|
            0 <= c < n && c != removed.cell as int && self.cell_plates@[c] == UNASSIGNED_PLATE
                && #[trigger] self.best_arrivals@[c] != u64::MAX implies exists|i: int|
            0 <= i < self.arrivals@.len() && (#[trigger] self.arrivals@[i]).cell == c
                && self.arrivals@[i].cost == self.best_arrivals@[c] by {
            let i = choose|i: int|
                0 <= i < old_queue.len() && (#[trigger] old_queue[i]).cell == c && old_queue[i].cost
                    == pre.best_arrivals@[c];
            assert(i != index);
            if i < index {
                assert(self.arrivals@[i] == old_queue[i]);
            } else {
                assert(self.arrivals@[i - 1] == old_queue[i]);
            }
        }
        assert forall|c: int|
            0 <= c < n && c != -1 && #[trigger] self.cell_plates@[c] != UNASSIGNED_PLATE implies self.bounded_upto(
            c,
            self.mesh.degree(c) as int,
        ) by {
            assert(pre.bounded_upto(c, pre.mesh.degree(c) as int));
            assert forall|k: int|
                0 <= k < self.mesh.degree(c) && #[trigger] self.can_step(c, k) && self.cell_plates@[self.mesh.corner(
                    c,
                    k,
                ).neighbor as int] == UNASSIGNED_PLATE implies self.best_arrivals@[self.mesh.corner(
                c,
                k,
            ).neighbor as int] <= self.paid@[c] + self.step_of(c, k) by {
                assert(pre.can_step(c, k));
            }
        }
    }

    /// The arrival the queue settles next is the best of its cell, priced,
    /// and no dearer than anything still queued or than the latest cell
    /// growth settled.
    proof fn lemma_pop_ready(&self, pre: Self, index: int)
        requires
            pre.wf(),
            0 <= index < pre.arrivals@.len(),
            forall|i: int|
                0 <= i < pre.arrivals@.len() && i != index ==> !arrival_precedes(
                    #[trigger] pre.arrivals@[i],
                    pre.arrivals@[index],
                ),
            pre.cell_plates@[pre.arrivals@[index].cell as int] == UNASSIGNED_PLATE,
            self.arrivals@ == pre.arrivals@.remove(index),
            self.mesh == pre.mesh,
            self.bounds == pre.bounds,
            self.costs == pre.costs,
            self.cell_plates == pre.cell_plates,
            self.best_arrivals == pre.best_arrivals,
            self.paid == pre.paid,
            self.floor == pre.floor,
            self.late_seed == pre.late_seed,
        ensures
            ({
                let a = pre.arrivals@[index];
                &&& a.cost == self.best_arrivals@[a.cell as int]
                &&& exists|p: int, k: int|
                    #[trigger] self.can_step(p, k) && self.mesh.corner(p, k).neighbor == a.cell
                        && self.cell_plates@[p] == a.plate && a.cost == self.paid@[p] + self.step_of(
                        p,
                        k,
                    )
                &&& forall|i: int|
                    0 <= i < self.arrivals@.len() ==> (#[trigger] self.arrivals@[i]).cost >= a.cost
                &&& !self.late_seed@ && self.floor@ is Some ==> a.cost >= self.floor@->Some_0
            }),
    {
        let queue = pre.arrivals@;
        let a = queue[index];
        assert(pre.best_arrivals@[a.cell as int] != u64::MAX) by {
            assert(a.cost >= pre.best_arrivals@[a.cell as int]);
            assert(a.cost <= cost_ceiling(pre.order@.len() as int));
        }
        let j = choose|j: int|
            0 <= j < queue.len() && (#[trigger] queue[j]).cell == a.cell && queue[j].cost
                == pre.best_arrivals@[a.cell as int];
        if j != index {
            assert(!arrival_precedes(queue[j], a));
        }
        assert(a.cost == self.best_arrivals@[a.cell as int]);
        assert(pre.priced(a));
        let (p, k) = choose|p: int, k: int|
            #[trigger] pre.can_step(p, k) && pre.mesh.corner(p, k).neighbor == a.cell
                && pre.cell_plates@[p] == a.plate && a.cost == pre.paid@[p] + pre.step_of(p, k);
        assert(self.can_step(p, k));
        assert(self.step_of(p, k) == pre.step_of(p, k));
        assert forall|i: int| 0 <= i < self.arrivals@.len() implies (
        #[trigger] self.arrivals@[i]).cost >= a.cost by {
            let m = if i < index {
                i
            } else {
                i + 1
            };
            assert(self.arrivals@[i] == queue[m]);
            assert(!arrival_precedes(queue[m], a));
        }
    }

    /// Settling `cell` at `cost` keeps the cost bookkeeping and leaves only
    /// the new cell's own proposals to bound.
    proof fn lemma_settled_cell_keeps_pricing(
        &self,
        pre: Self,
        cell: int,
        plate: usize,
        cost: int,
        as_seed: bool,
    )
        requires
            pre.wf_before_settling(cell),
            0 <= cell < pre.mesh.cells(),
            pre.cell_plates@[cell] == UNASSIGNED_PLATE,
            plate != UNASSIGNED_PLATE,
            self.mesh == pre.mesh,
            self.bounds == pre.bounds,
            self.costs == pre.costs,
            self.best_arrivals == pre.best_arrivals,
            self.arrivals == pre.arrivals,
            self.cell_plates@ == pre.cell_plates@.update(cell, plate),
            self.seeds@ == (if as_seed {
                pre.seeds@.insert(cell)
            } else {
                pre.seeds@
            }),
            self.paid@ == pre.paid@.update(cell, cost),
            self.floor@ == (if as_seed {
                pre.floor@
            } else {
                Some(cost)
            }),
            self.late_seed@ == (pre.late_seed@ || (as_seed && pre.floor@ is Some)),
            !as_seed ==> cost == pre.best_arrivals@[cell],
            !as_seed ==> exists|p: int, k: int|
                #[trigger] pre.can_step(p, k) && pre.mesh.corner(p, k).neighbor == cell
                    && pre.cell_plates@[p] == plate && cost == pre.paid@[p] + pre.step_of(p, k),
            !as_seed ==> forall|i: int|
                0 <= i < pre.arrivals@.len() ==> (#[trigger] pre.arrivals@[i]).cost >= cost,
            !as_seed && !pre.late_seed@ && pre.floor@ is Some ==> cost >= pre.floor@->Some_0,
        ensures
            self.pricing(),
            self.attained_except(-1),
            self.bounded_except(cell),
            self.bounded_upto(cell, 0),
    {
        let n = self.mesh.cells();
        assert(self.paid@.len() == n);
        assert forall|p: int, k: int| #[trigger] pre.can_step(p, k) implies self.can_step(p, k)
            && self.step_of(p, k) == pre.step_of(p, k) && self.paid@[p] == pre.paid@[p] && p != cell by {}
        assert forall|i: int| 0 <= i < self.arrivals@.len() implies self.priced(
            #[trigger] self.arrivals@[i],
        ) by {
            assert(pre.priced(pre.arrivals@[i]));
            let (p, k) = choose|p: int, k: int|
                #[trigger] pre.can_step(p, k) && pre.mesh.corner(p, k).neighbor == pre.arrivals@[i].cell
                    && pre.cell_plates@[p] == pre.arrivals@[i].plate && pre.arrivals@[i].cost
                    == pre.paid@[p] + pre.step_of(p, k);
            assert(self.can_step(p, k));
        }
        assert forall|c: int|
            0 <= c < n && self.cell_plates@[c] != UNASSIGNED_PLATE && !self.seeds@.contains(c)
            implies exists|p: int, k: int|
            #[trigger] self.can_step(p, k) && self.mesh.corner(p, k).neighbor == c
                && self.cell_plates@[p] == self.cell_plates@[c] && self.paid@[c] == self.paid@[p]
                + self.step_of(p, k) by {
            if c == cell {
                let (p, k) = choose|p: int, k: int|
                    #[trigger] pre.can_step(p, k) && pre.mesh.corner(p, k).neighbor == cell
                        && pre.cell_plates@[p] == plate && cost == pre.paid@[p] + pre.step_of(p, k);
                assert(self.can_step(p, k));
            } else {
                let (p, k) = choose|p: int, k: int|
                    #[trigger] pre.can_step(p, k) && pre.mesh.corner(p, k).neighbor == c
                        && pre.cell_plates@[p] == pre.cell_plates@[c] && pre.paid@[c] == pre.paid@[p]
                        + pre.step_of(p, k);
                assert(self.can_step(p, k));
            }
        }
        if !self.late_seed@ {
            assert forall|c: int, q: int, k: int|
                0 <= c < n && self.cell_plates@[c] != UNASSIGNED_PLATE && !self.seeds@.contains(c)
                    && #[trigger] self.can_step(q, k) && self.mesh.corner(q, k).neighbor == c
                    implies #[trigger] self.paid@[c] <= self.paid@[q] + self.step_of(q, k) by {
                self.lemma_step_nonnegative(q, k);
                if q == cell {
                    if c != cell {
                        assert(pre.cell_plates@[c] != UNASSIGNED_PLATE && !pre.seeds@.contains(c));
                    }
                } else {
                    assert(pre.can_step(q, k));
                    if c == cell {
                        assert(pre.bounded_upto(q, pre.mesh.degree(q) as int));
                    }
                }
            }
        }
        if !self.late_seed@ && self.floor@ is Some {
            assert forall|c: int|
                0 <= c < n && self.cell_plates@[c] != UNASSIGNED_PLATE && !self.seeds@.contains(c)
                    implies #[trigger] self.paid@[c] <= self.floor@->Some_0 by {
                if c != cell {
                    assert(pre.cell_plates@[c] != UNASSIGNED_PLATE && !pre.seeds@.contains(c));
                }
            }
        }
        assert(self.pricing());
        assert forall|c: int|
            0 <= c < n && c != cell && #[trigger] self.cell_plates@[c]
                != UNASSIGNED_PLATE implies self.bounded_upto(c, self.mesh.degree(c) as int) by {
            assert(pre.bounded_upto(c, pre.mesh.degree(c) as int));
            assert forall|k: int|
                0 <= k < self.mesh.degree(c) && #[trigger] self.can_step(c, k) && self.cell_plates@[self.mesh.corner(
                    c,
                    k,
                ).neighbor as int] == UNASSIGNED_PLATE implies self.best_arrivals@[self.mesh.corner(
                c,
                k,
            ).neighbor as int] <= self.paid@[c] + self.step_of(c, k) by {
                assert(pre.can_step(c, k));
            }
        }
    }

    /// Proposing one arrival at a step's cost keeps the cost bookkeeping and
    /// bounds one more of `cell`'s proposals.
    proof fn lemma_push_keeps_pricing(&self, before: Self, cell: int, k: int, arrival: Arrival)
        requires
            before.wf_settling(cell),
            before.bounded_upto(cell, k),
            0 <= cell < before.mesh.cells(),
            0 <= k < before.mesh.degree(cell),
            before.cell_plates@[cell] == arrival.plate,
            arrival.plate != UNASSIGNED_PLATE,
            arrival.cell == before.mesh.corner(cell, k).neighbor,
            before.bounds.allows(cell, arrival.cell as int),
            before.cell_plates@[arrival.cell as int] == UNASSIGNED_PLATE,
            arrival.cost == before.paid@[cell] + before.step_of(cell, k),
            arrival.cost < before.best_arrivals@[arrival.cell as int],
            !before.late_seed@ && before.floor@ is Some ==> before.floor@->Some_0 == before.paid@[cell],
            self.mesh == before.mesh,
            self.bounds == before.bounds,
            self.costs == before.costs,
            self.cell_plates == before.cell_plates,
            self.seeds == before.seeds,
            self.paid == before.paid,
            self.floor == before.floor,
            self.late_seed == before.late_seed,
            self.best_arrivals@ == before.best_arrivals@.update(arrival.cell as int, arrival.cost),
            self.arrivals@ == before.arrivals@.push(arrival),
        ensures
            self.pricing(),
            self.attained_except(-1),
            self.bounded_except(cell),
            self.bounded_upto(cell, k + 1),
    {
        let n = self.mesh.cells();
        let last = before.arrivals@.len() as int;
        assert(self.arrivals@[last] == arrival);
        assert forall|p: int, j: int| #[trigger] self.can_step(p, j) == before.can_step(p, j) by {}
        assert forall|p: int, j: int| #[trigger] self.step_of(p, j) == before.step_of(p, j) by {}
        assert(before.shape_ok());
        before.lemma_step_nonnegative(cell, k);
        assert forall|i: int| 0 <= i < self.arrivals@.len() implies self.priced(
            #[trigger] self.arrivals@[i],
        ) by {
            if i < last {
                assert(self.arrivals@[i] == before.arrivals@[i]);
                assert(before.priced(before.arrivals@[i]));
                let (p, j) = choose|p: int, j: int|
                    #[trigger] before.can_step(p, j) && before.mesh.corner(p, j).neighbor
                        == before.arrivals@[i].cell && before.cell_plates@[p] == before.arrivals@[i].plate
                        && before.arrivals@[i].cost == before.paid@[p] + before.step_of(p, j);
                assert(self.can_step(p, j));
            } else {
                assert(self.can_step(cell, k));
            }
        }
        assert forall|i: int|
            0 <= i < self.arrivals@.len() && self.cell_plates@[self.arrivals@[i].cell as int]
                == UNASSIGNED_PLATE implies (#[trigger] self.arrivals@[i]).cost
            >= self.best_arrivals@[self.arrivals@[i].cell as int] by {
            if i < last {
                assert(self.arrivals@[i] == before.arrivals@[i]);
            }
        }
        assert forall|c: int|
            0 <= c < n && self.cell_plates@[c] != UNASSIGNED_PLATE && !self.seeds@.contains(c)
            implies exists|p: int, j: int|
            #[trigger] self.can_step(p, j) && self.mesh.corner(p, j).neighbor == c
                && self.cell_plates@[p] == self.cell_plates@[c] && self.paid@[c] == self.paid@[p]
                + self.step_of(p, j) by {
            let (p, j) = choose|p: int, j: int|
                #[trigger] before.can_step(p, j) && before.mesh.corner(p, j).neighbor == c
                    && before.cell_plates@[p] == before.cell_plates@[c] && before.paid@[c]
                    == before.paid@[p] + before.step_of(p, j);
            assert(self.can_step(p, j));
        }
        if !self.late_seed@ {
            assert forall|c: int, q: int, j: int|
                0 <= c < n && self.cell_plates@[c] != UNASSIGNED_PLATE && !self.seeds@.contains(c)
                    && #[trigger] self.can_step(q, j) && self.mesh.corner(q, j).neighbor == c
                    implies #[trigger] self.paid@[c] <= self.paid@[q] + self.step_of(q, j) by {
                assert(before.can_step(q, j));
            }
        }
        if !self.late_seed@ && self.floor@ is Some {
            assert forall|i: int| 0 <= i < self.arrivals@.len() implies (
            #[trigger] self.arrivals@[i]).cost >= self.floor@->Some_0 by {
                if i < last {
                    assert(self.arrivals@[i] == before.arrivals@[i]);
                }
            }
        }
        assert(self.pricing());
        assert forall|c: int|
            0 <= c < n && c != -1 && self.cell_plates@[c] == UNASSIGNED_PLATE
                && #[trigger] self.best_arrivals@[c] != u64::MAX implies exists|i: int|
            0 <= i < self.arrivals@.len() && (#[trigger] self.arrivals@[i]).cell == c
                && self.arrivals@[i].cost == self.best_arrivals@[c] by {
            if c == arrival.cell {
                assert(self.arrivals@[last].cell == c);
            } else {
                assert(before.best_arrivals@[c] != u64::MAX);
                let i = choose|i: int|
                    0 <= i < before.arrivals@.len() && (#[trigger] before.arrivals@[i]).cell == c
                        && before.arrivals@[i].cost == before.best_arrivals@[c];
                assert(self.arrivals@[i] == before.arrivals@[i]);
            }
        }
        assert forall|c: int|
            0 <= c < n && c != cell && #[trigger] self.cell_plates@[c]
                != UNASSIGNED_PLATE implies self.bounded_upto(c, self.mesh.degree(c) as int) by {
            assert(before.bounded_upto(c, before.mesh.degree(c) as int));
            assert forall|j: int|
                0 <= j < self.mesh.degree(c) && #[trigger] self.can_step(c, j) && self.cell_plates@[self.mesh.corner(
                    c,
                    j,
                ).neighbor as int] == UNASSIGNED_PLATE implies self.best_arrivals@[self.mesh.corner(
                c,
                j,
            ).neighbor as int] <= self.paid@[c] + self.step_of(c, j) by {
                assert(before.can_step(c, j));
            }
        }
        assert forall|j: int|
            0 <= j < k + 1 && #[trigger] self.can_step(cell, j) && self.cell_plates@[self.mesh.corner(
                cell,
                j,
            ).neighbor as int] == UNASSIGNED_PLATE implies self.best_arrivals@[self.mesh.corner(
            cell,
            j,
        ).neighbor as int] <= self.paid@[cell] + self.step_of(cell, j) by {
            if j < k {
                assert(before.can_step(cell, j));
            }
        }
    }
}

/// Room above the cost ceiling for one more edge, however many cells have
/// settled.
proof fn lemma_ceiling_headroom(settled: int)
    requires
        0 <= settled < growth_cell_limit(),
    ensures
        cost_ceiling(settled) + MAX_EDGE_COST == cost_ceiling(settled + 1),
        cost_ceiling(settled + 1) < u64::MAX,
{
}

/// Each face's cells, ascending: what the partition seeds a face from.
pub fn cells_by_face(cell_faces: &Vec<usize>, face_count: usize) -> (face_cells: Vec<Vec<usize>>)
    requires
        forall|c: int| 0 <= c < cell_faces@.len() ==> #[trigger] cell_faces@[c] < face_count,
    ensures
        face_cells@.len() == face_count,
        forall|f: int|
            0 <= f < face_count ==> (#[trigger] face_cells@[f])@ == crate::rifting::owned_upto(
                cell_faces@,
                f as usize,
                cell_faces@.len() as int,
            ),
{
    let mut face_cells: Vec<Vec<usize>> = Vec::new();
    let mut f: usize = 0;
    while f < face_count
        invariant
            f <= face_count,
            face_cells@.len() == f,
            forall|g: int| 0 <= g < f ==> (#[trigger] face_cells@[g])@ == Seq::<usize>::empty(),
        decreases face_count - f,
    {
        face_cells.push(Vec::new());
        f += 1;
    }
    let mut cell: usize = 0;
    while cell < cell_faces.len()
        invariant
            cell <= cell_faces@.len(),
            face_cells@.len() == face_count,
            forall|c: int| 0 <= c < cell_faces@.len() ==> #[trigger] cell_faces@[c] < face_count,
            forall|g: int|
                0 <= g < face_count ==> (#[trigger] face_cells@[g])@ == crate::rifting::owned_upto(
                    cell_faces@,
                    g as usize,
                    cell as int,
                ),
        decreases cell_faces@.len() - cell,
    {
        let face = cell_faces[cell];
        let mut block = Vec::new();
        std::mem::swap(&mut block, &mut face_cells[face]);
        block.push(cell);
        std::mem::swap(&mut block, &mut face_cells[face]);
        proof {
            assert forall|g: int| 0 <= g < face_count implies (#[trigger] face_cells@[g])@
                == crate::rifting::owned_upto(cell_faces@, g as usize, cell + 1) by {}
        }
        cell += 1;
    }
    face_cells
}

/// The cell `key` picks among `cells`: the first seed of a face.
pub fn pick_cell(cells: &Vec<usize>, key: u64) -> (picked: usize)
    requires
        cells@.len() > 0,
    ensures
        picked == cells@[(key % (cells@.len() as u64)) as int],
{
    let count = cells.len() as u64;
    cells[(key % count) as usize]
}

} // verus!
