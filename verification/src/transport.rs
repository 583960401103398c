//! Conservative material transport: the parcels a plate's crust lives in, and
//! what a cell does with the parcels that land in it.
//!
//! The material is points rather than cells. Each parcel rotates rigidly with
//! its plate, and the cells sample whatever lands in them, so conservation is
//! structural: the only place a parcel is created is a cell no parcel
//! reached, and the only place one is destroyed is a trench. Continental
//! material is never created and never destroyed at all: a continent that
//! arrives under another at a trench merges into it, and the column that
//! results holds both. What a run conserves is the sum of what the
//! continental columns hold, which is an integer and exact.
//!
//! Where a parcel lies, when it was born, and the relief raised on it are
//! geometry and stay beside the parcel; what decides ownership, subduction,
//! and accretion is here.

use crate::boundaries::BoundaryClass;
use crate::topology::MeshTopology;
use crate::material::{set_count_upto, lemma_set_count_update, lemma_set_count_none};
use vstd::prelude::*;

verus! {

/// How many hops out from a cell transport looks: the rings an empty cell
/// searches, and how far a trench may lie from where a losing parcel landed.
pub const TRANSPORT_REACH_HOPS: usize = 2;

/// One parcel of crust, as ownership reads it.
#[derive(Clone, Copy, Debug, PartialEq, Eq)]
pub struct Parcel {
    /// The plate whose rotation carries it.
    pub plate: usize,
    /// The cell it lies in.
    pub cell: usize,
    /// Continental crust from before the run; anything a run made is ocean floor.
    pub continental: bool,
    /// Starting parcels this one holds. Every parcel starts at one and gains
    /// the whole of a parcel it accretes.
    pub thickness: u32,
}

impl Parcel {
    /// Crust class follows birth here exactly as it does on a cell: starting
    /// crust is continental and anything a run made is ocean floor.
    pub fn is_continental(self) -> (continental: bool)
        ensures
            continental == self.continental,
    {
        self.continental
    }
}

/// What a cell standing on `parcel` reads as its crustal thickness: the
/// parcels the column holds, or zero where the column is ocean floor.
pub open spec fn spec_cell_thickness(parcel: Parcel) -> u32 {
    if parcel.continental {
        parcel.thickness
    } else {
        0
    }
}

/// What a cell standing on `parcel` reads as its crustal thickness.
pub fn cell_thickness(parcel: Parcel) -> (thickness: u32)
    ensures
        thickness == spec_cell_thickness(parcel),
{
    if parcel.is_continental() {
        parcel.thickness
    } else {
        0
    }
}

/// The parcels among the first `upto` that lie in `cell`, by ascending index.
pub open spec fn occupants_upto(parcels: Seq<Parcel>, cell: int, upto: int) -> Seq<usize>
    decreases upto,
{
    if upto <= 0 {
        Seq::empty()
    } else if parcels[upto - 1].cell == cell {
        occupants_upto(parcels, cell, upto - 1).push((upto - 1) as usize)
    } else {
        occupants_upto(parcels, cell, upto - 1)
    }
}

/// The parcels that lie in `cell`, by ascending index.
pub open spec fn occupants(parcels: Seq<Parcel>, cell: int) -> Seq<usize> {
    occupants_upto(parcels, cell, parcels.len() as int)
}

pub proof fn lemma_occupants_upto_facts(parcels: Seq<Parcel>, cell: int, upto: int)
    requires
        0 <= upto <= parcels.len(),
        parcels.len() <= usize::MAX,
    ensures
        forall|i: int|
            0 <= i < occupants_upto(parcels, cell, upto).len() ==> {
                let p = #[trigger] occupants_upto(parcels, cell, upto)[i];
                &&& p < upto
                &&& parcels[p as int].cell == cell
            },
        forall|p: int|
            0 <= p < upto && parcels[p].cell == cell ==> #[trigger] occupants_upto(
                parcels,
                cell,
                upto,
            ).contains(p as usize),
        forall|i: int, j: int|
            0 <= i < j < occupants_upto(parcels, cell, upto).len() ==> #[trigger] occupants_upto(
                parcels,
                cell,
                upto,
            )[i] < #[trigger] occupants_upto(parcels, cell, upto)[j],
    decreases upto,
{
    if upto > 0 {
        lemma_occupants_upto_facts(parcels, cell, upto - 1);
        let prev = occupants_upto(parcels, cell, upto - 1);
        let now = occupants_upto(parcels, cell, upto);
        assert forall|i: int| 0 <= i < now.len() implies {
            let p = #[trigger] now[i];
            &&& p < upto
            &&& parcels[p as int].cell == cell
        } by {
            if i < prev.len() {
                assert(now[i] == prev[i]);
            }
        }
        assert forall|i: int, j: int| 0 <= i < j < now.len() implies #[trigger] now[i] < #[trigger] now[j] by {
            if j < prev.len() {
                assert(now[i] == prev[i] && now[j] == prev[j]);
            } else {
                assert(now[i] == prev[i]);
            }
        }
        assert forall|p: int|
            0 <= p < upto && parcels[p].cell == cell implies #[trigger] now.contains(p as usize) by {
            if p < upto - 1 {
                assert(prev.contains(p as usize));
                let i = choose|i: int| 0 <= i < prev.len() && prev[i] == p as usize;
                assert(now[i] == p as usize);
            } else {
                assert(now[now.len() - 1] == p as usize);
            }
        }
    }
}

/// The parcels in every cell, each list by ascending parcel index. Built once
/// per transport and read by every cell resolution.
pub struct Occupancy {
    cells: Vec<Vec<usize>>,
    parcels: Ghost<Seq<Parcel>>,
}

impl Occupancy {
    /// The parcels the occupancy was taken of.
    pub closed spec fn parcels(&self) -> Seq<Parcel> {
        self.parcels@
    }

    pub closed spec fn cell_count(&self) -> nat {
        self.cells@.len()
    }

    pub closed spec fn wf(&self) -> bool {
        forall|c: int|
            0 <= c < self.cells@.len() ==> #[trigger] self.cells@[c]@ == occupants(self.parcels@, c)
    }

    /// Which parcels lie in each of `cell_count` cells.
    pub fn new(cell_count: usize, parcels: &Vec<Parcel>) -> (occupancy: Self)
        requires
            forall|i: int| 0 <= i < parcels@.len() ==> #[trigger] parcels@[i].cell < cell_count,
        ensures
            occupancy.wf(),
            occupancy.parcels() == parcels@,
            occupancy.cell_count() == cell_count,
    {
        let mut cells: Vec<Vec<usize>> = Vec::new();
        let mut c: usize = 0;
        while c < cell_count
            invariant
                c <= cell_count,
                cells@.len() == c,
                forall|d: int| 0 <= d < c ==> (#[trigger] cells@[d])@ == Seq::<usize>::empty(),
            decreases cell_count - c,
        {
            cells.push(Vec::new());
            c += 1;
        }
        let mut index: usize = 0;
        while index < parcels.len()
            invariant
                index <= parcels@.len(),
                cells@.len() == cell_count,
                forall|i: int| 0 <= i < parcels@.len() ==> #[trigger] parcels@[i].cell < cell_count,
                forall|d: int|
                    0 <= d < cell_count ==> (#[trigger] cells@[d])@ == occupants_upto(
                        parcels@,
                        d,
                        index as int,
                    ),
            decreases parcels@.len() - index,
        {
            let cell = parcels[index].cell;
            let mut block = Vec::new();
            std::mem::swap(&mut block, &mut cells[cell]);
            block.push(index);
            std::mem::swap(&mut block, &mut cells[cell]);
            proof {
                assert forall|d: int| 0 <= d < cell_count implies (#[trigger] cells@[d])@
                    == occupants_upto(parcels@, d, index + 1) by {}
            }
            index += 1;
        }
        Occupancy { cells, parcels: Ghost(parcels@) }
    }

    /// The parcels in `cell`, in ascending parcel index.
    pub fn at(&self, cell: usize) -> (found: &[usize])
        requires
            self.wf(),
            cell < self.cell_count(),
        ensures
            found@ == occupants(self.parcels(), cell as int),
    {
        self.cells[cell].as_slice()
    }
}

/// Whether `near` has an edge that is convergent and across which `plate`
/// owns the neighbouring cell.
pub open spec fn plate_converges_at(
    mesh: MeshTopology,
    edge_classes: Seq<BoundaryClass>,
    owners: Seq<usize>,
    near: int,
    plate: usize,
) -> bool {
    exists|k: int|
        0 <= k < mesh.degree(near) && edge_classes[mesh.corner(near, k).edge as int]
            == BoundaryClass::Convergent && owners[mesh.corner(near, k).neighbor as int] == plate
}

/// Whether a plate converging on `plate` holds an edge at `cell` or at one of
/// the cells of `ring`: the one test both the trench rule and the accretion
/// rule make.
pub open spec fn spec_converges_on(
    mesh: MeshTopology,
    edge_classes: Seq<BoundaryClass>,
    owners: Seq<usize>,
    cell: int,
    ring: Seq<usize>,
    plate: usize,
) -> bool {
    ||| plate_converges_at(mesh, edge_classes, owners, cell, plate)
    ||| exists|i: int|
        0 <= i < ring.len() && plate_converges_at(
            mesh,
            edge_classes,
            owners,
            #[trigger] ring[i] as int,
            plate,
        )
}

/// Whether `near` has a convergent edge across which `plate` owns the cell.
fn converges_at(
    mesh: &MeshTopology,
    edge_classes: &Vec<BoundaryClass>,
    owners: &Vec<usize>,
    near: usize,
    plate: usize,
) -> (converges: bool)
    requires
        mesh.wf(),
        near < mesh.cells(),
        edge_classes@.len() == mesh.edges(),
        owners@.len() == mesh.cells(),
    ensures
        converges == plate_converges_at(*mesh, edge_classes@, owners@, near as int, plate),
{
    let corners = &mesh.cell_corners[near];
    let mut k: usize = 0;
    while k < corners.len()
        invariant
            mesh.wf(),
            near < mesh.cells(),
            edge_classes@.len() == mesh.edges(),
            owners@.len() == mesh.cells(),
            corners@ == mesh.cell_corners@[near as int]@,
            k <= corners@.len(),
            forall|j: int|
                0 <= j < k ==> !(edge_classes@[#[trigger] mesh.corner(near as int, j).edge as int]
                    == BoundaryClass::Convergent && owners@[mesh.corner(near as int, j).neighbor as int]
                    == plate),
        decreases corners@.len() - k,
    {
        let corner = corners[k];
        assert(corner == mesh.corner(near as int, k as int));
        assert(mesh.corner(near as int, k as int).neighbor < mesh.cells());
        if edge_classes[corner.edge] == BoundaryClass::Convergent && owners[corner.neighbor] == plate {
            return true;
        }
        k += 1;
    }
    false
}

/// Whether a plate converging on `plate` holds an edge within reach of
/// `cell`: at the cell itself or at any cell of `ring`.
pub fn converges_on(
    mesh: &MeshTopology,
    edge_classes: &Vec<BoundaryClass>,
    owners: &Vec<usize>,
    cell: usize,
    ring: &Vec<usize>,
    plate: usize,
) -> (converges: bool)
    requires
        mesh.wf(),
        cell < mesh.cells(),
        forall|i: int| 0 <= i < ring@.len() ==> #[trigger] ring@[i] < mesh.cells(),
        edge_classes@.len() == mesh.edges(),
        owners@.len() == mesh.cells(),
    ensures
        converges == spec_converges_on(*mesh, edge_classes@, owners@, cell as int, ring@, plate),
{
    if converges_at(mesh, edge_classes, owners, cell, plate) {
        return true;
    }
    let mut i: usize = 0;
    while i < ring.len()
        invariant
            mesh.wf(),
            forall|j: int| 0 <= j < ring@.len() ==> #[trigger] ring@[j] < mesh.cells(),
            edge_classes@.len() == mesh.edges(),
            owners@.len() == mesh.cells(),
            i <= ring@.len(),
            forall|j: int|
                0 <= j < i ==> !plate_converges_at(
                    *mesh,
                    edge_classes@,
                    owners@,
                    #[trigger] ring@[j] as int,
                    plate,
                ),
        decreases ring@.len() - i,
    {
        if converges_at(mesh, edge_classes, owners, ring[i], plate) {
            return true;
        }
        i += 1;
    }
    false
}

/// Whether `ring` lists the cells within two hops of `cell` the way a
/// transport searches them: its corner neighbours in corner order, then every
/// further cell one of them touches, each once and never `cell` itself.
pub open spec fn is_reach_ring(mesh: MeshTopology, cell: int, ring: Seq<usize>) -> bool {
    let deg = mesh.degree(cell) as int;
    &&& ring.len() >= deg
    &&& forall|k: int| 0 <= k < deg ==> #[trigger] ring[k] == mesh.corner(cell, k).neighbor
    &&& forall|i: int| 0 <= i < ring.len() ==> #[trigger] ring[i] < mesh.cells()
    &&& forall|i: int|
        deg <= i < ring.len() ==> #[trigger] ring[i] != cell && !ring.subrange(0, i).contains(ring[i])
            && exists|j: int, k: int|
            0 <= j < deg && 0 <= k < mesh.degree(ring[j] as int) && mesh.corner(ring[j] as int, k).neighbor
                == ring[i]
    &&& forall|j: int, k: int|
        0 <= j < deg && 0 <= k < mesh.degree(ring[j] as int) && #[trigger] mesh.corner(
            ring[j] as int,
            k,
        ).neighbor != cell ==> ring.contains(mesh.corner(ring[j] as int, k).neighbor)
}

/// The cells within two hops of `cell` that a transport searches: its corner
/// neighbours in corner order, then every further cell one of them touches,
/// in the order they are first reached, each once and never `cell` itself.
pub fn reach_ring(mesh: &MeshTopology, cell: usize) -> (ring: Vec<usize>)
    requires
        mesh.wf(),
        cell < mesh.cells(),
    ensures
        is_reach_ring(*mesh, cell as int, ring@),
{
    let ghost deg = mesh.degree(cell as int) as int;
    let corners = &mesh.cell_corners[cell];
    let mut ring: Vec<usize> = Vec::new();
    let mut k: usize = 0;
    while k < corners.len()
        invariant
            mesh.wf(),
            cell < mesh.cells(),
            corners@ == mesh.cell_corners@[cell as int]@,
            k <= corners@.len(),
            ring@.len() == k,
            forall|j: int| 0 <= j < k ==> #[trigger] ring@[j] == mesh.corner(cell as int, j).neighbor,
        decreases corners@.len() - k,
    {
        assert(corners@[k as int] == mesh.corner(cell as int, k as int));
        ring.push(corners[k].neighbor);
        k += 1;
    }
    let first_ring = corners.len();
    let mut index: usize = 0;
    while index < first_ring
        invariant
            mesh.wf(),
            cell < mesh.cells(),
            first_ring == deg,
            index <= first_ring,
            ring@.len() >= deg,
            forall|j: int| 0 <= j < deg ==> #[trigger] ring@[j] == mesh.corner(cell as int, j).neighbor,
            forall|i: int| 0 <= i < ring@.len() ==> #[trigger] ring@[i] < mesh.cells(),
            forall|i: int|
                deg <= i < ring@.len() ==> #[trigger] ring@[i] != cell && !ring@.subrange(0, i).contains(
                    ring@[i],
                ) && exists|j: int, k: int|
                    0 <= j < deg && 0 <= k < mesh.degree(ring@[j] as int) && mesh.corner(
                        ring@[j] as int,
                        k,
                    ).neighbor == ring@[i],
            forall|j: int, k: int|
                0 <= j < index && 0 <= k < mesh.degree(ring@[j] as int) && #[trigger] mesh.corner(
                    ring@[j] as int,
                    k,
                ).neighbor != cell ==> ring@.contains(mesh.corner(ring@[j] as int, k).neighbor),
        decreases first_ring - index,
    {
        let near = ring[index];
        let near_corners = &mesh.cell_corners[near];
        let mut k: usize = 0;
        while k < near_corners.len()
            invariant
                mesh.wf(),
                cell < mesh.cells(),
                first_ring == deg,
                index < first_ring,
                near == ring@[index as int],
                near < mesh.cells(),
                near_corners@ == mesh.cell_corners@[near as int]@,
                k <= near_corners@.len(),
                ring@.len() >= deg,
                forall|j: int| 0 <= j < deg ==> #[trigger] ring@[j] == mesh.corner(cell as int, j).neighbor,
                forall|i: int| 0 <= i < ring@.len() ==> #[trigger] ring@[i] < mesh.cells(),
                forall|i: int|
                    deg <= i < ring@.len() ==> #[trigger] ring@[i] != cell && !ring@.subrange(0, i).contains(
                        ring@[i],
                    ) && exists|j: int, k: int|
                        0 <= j < deg && 0 <= k < mesh.degree(ring@[j] as int) && mesh.corner(
                            ring@[j] as int,
                            k,
                        ).neighbor == ring@[i],
                forall|j: int, kk: int|
                    0 <= j < index && 0 <= kk < mesh.degree(ring@[j] as int) && #[trigger] mesh.corner(
                        ring@[j] as int,
                        kk,
                    ).neighbor != cell ==> ring@.contains(mesh.corner(ring@[j] as int, kk).neighbor),
                forall|kk: int|
                    0 <= kk < k && #[trigger] mesh.corner(near as int, kk).neighbor != cell
                        ==> ring@.contains(mesh.corner(near as int, kk).neighbor),
            decreases near_corners@.len() - k,
        {
            let neighbor = near_corners[k].neighbor;
            assert(near_corners@[k as int] == mesh.corner(near as int, k as int));
            if neighbor != cell && !contains(&ring, neighbor) {
                let ghost before = ring@;
                ring.push(neighbor);
                proof {
                    assert(ring@.subrange(0, before.len() as int) == before);
                    assert forall|i: int| deg <= i < ring@.len() implies #[trigger] ring@[i] != cell
                        && !ring@.subrange(0, i).contains(ring@[i]) && exists|j: int, k: int|
                        0 <= j < deg && 0 <= k < mesh.degree(ring@[j] as int) && mesh.corner(
                            ring@[j] as int,
                            k,
                        ).neighbor == ring@[i] by {
                        if i < before.len() {
                            assert(ring@.subrange(0, i) == before.subrange(0, i));
                        } else {
                            assert(mesh.corner(ring@[index as int] as int, k as int).neighbor == ring@[i]);
                        }
                    }
                    assert forall|j: int, kk: int|
                        0 <= j < index && 0 <= kk < mesh.degree(ring@[j] as int) && #[trigger] mesh.corner(
                            ring@[j] as int,
                            kk,
                        ).neighbor != cell implies ring@.contains(mesh.corner(ring@[j] as int, kk).neighbor) by {
                        assert(before.contains(mesh.corner(ring@[j] as int, kk).neighbor));
                    }
                    assert forall|kk: int|
                        0 <= kk < k + 1 && #[trigger] mesh.corner(near as int, kk).neighbor != cell
                            implies ring@.contains(mesh.corner(near as int, kk).neighbor) by {
                        if kk < k {
                            assert(before.contains(mesh.corner(near as int, kk).neighbor));
                        } else {
                            assert(ring@[before.len() as int] == neighbor);
                        }
                    }
                }
            }
            k += 1;
        }
        index += 1;
    }
    ring
}

/// Whether `cell` is among `cells`.
fn contains(cells: &Vec<usize>, cell: usize) -> (found: bool)
    ensures
        found == cells@.contains(cell),
{
    let mut i: usize = 0;
    while i < cells.len()
        invariant
            i <= cells@.len(),
            forall|j: int| 0 <= j < i ==> cells@[j] != cell,
        decreases cells@.len() - i,
    {
        if cells[i] == cell {
            assert(cells@[i as int] == cell);
            return true;
        }
        i += 1;
    }
    false
}

/// What one transport did. Every count is an event count, so a run sums them.
///
/// `thickness_transfer_count` is always zero: a transport merges columns by
/// accretion and never moves a parcel from a column to a thinner neighbour.
#[derive(Clone, Copy, Debug, PartialEq, Eq)]
pub struct TransportCounts {
    pub owner_change_count: usize,
    pub subducted_particle_count: usize,
    pub born_particle_count: usize,
    pub accreted_particle_count: usize,
    pub collided_cell_count: usize,
    pub maximum_collision_stack: usize,
    pub sampled_cell_count: usize,
    pub thickness_transfer_count: usize,
}

impl Default for TransportCounts {
    fn default() -> (counts: Self)
        ensures
            counts == (TransportCounts {
                owner_change_count: 0,
                subducted_particle_count: 0,
                born_particle_count: 0,
                accreted_particle_count: 0,
                collided_cell_count: 0,
                maximum_collision_stack: 0,
                sampled_cell_count: 0,
                thickness_transfer_count: 0,
            }),
    {
        TransportCounts {
            owner_change_count: 0,
            subducted_particle_count: 0,
            born_particle_count: 0,
            accreted_particle_count: 0,
            collided_cell_count: 0,
            maximum_collision_stack: 0,
            sampled_cell_count: 0,
            thickness_transfer_count: 0,
        }
    }
}

/// What parcel `parcel` adds to the continental total while `gone` says
/// whether it has been removed.
pub open spec fn contribution(parcel: Parcel, gone: bool) -> int {
    if parcel.continental && !gone {
        parcel.thickness as int
    } else {
        0
    }
}

/// Thickness held by the continental parcels among the first `upto` that
/// `removed` has not taken out.
pub open spec fn kept_total_upto(parcels: Seq<Parcel>, removed: Seq<bool>, upto: int) -> int
    decreases upto,
{
    if upto <= 0 {
        0
    } else {
        kept_total_upto(parcels, removed, upto - 1) + contribution(parcels[upto - 1], removed[upto - 1])
    }
}

/// Thickness held by the continental parcels `removed` has not taken out.
pub open spec fn kept_total(parcels: Seq<Parcel>, removed: Seq<bool>) -> int {
    kept_total_upto(parcels, removed, parcels.len() as int)
}

/// Every starting parcel of continent a list holds, wherever it lies and
/// whatever it has merged into.
pub open spec fn continental_total(parcels: Seq<Parcel>) -> int {
    kept_total(parcels, Seq::new(parcels.len(), |i: int| false))
}

proof fn lemma_kept_total_nonnegative(parcels: Seq<Parcel>, removed: Seq<bool>, upto: int)
    ensures
        kept_total_upto(parcels, removed, upto) >= 0,
    decreases upto,
{
    if upto > 0 {
        lemma_kept_total_nonnegative(parcels, removed, upto - 1);
    }
}

/// Changing one parcel's entry changes the kept total by the difference of
/// its contributions and nothing else.
proof fn lemma_kept_total_update(
    parcels: Seq<Parcel>,
    removed: Seq<bool>,
    index: int,
    parcel: Parcel,
    gone: bool,
    upto: int,
)
    requires
        0 <= index < parcels.len(),
        parcels.len() == removed.len(),
        0 <= upto <= parcels.len(),
    ensures
        kept_total_upto(parcels.update(index, parcel), removed.update(index, gone), upto)
            == kept_total_upto(parcels, removed, upto) + if index < upto {
            contribution(parcel, gone) - contribution(parcels[index], removed[index])
        } else {
            0
        },
    decreases upto,
{
    if upto > 0 {
        lemma_kept_total_update(parcels, removed, index, parcel, gone, upto - 1);
    }
}

/// Two distinct kept parcels hold no more than the kept total between them.
proof fn lemma_two_contributions_bounded(parcels: Seq<Parcel>, removed: Seq<bool>, a: int, b: int)
    requires
        parcels.len() == removed.len(),
        0 <= a < parcels.len(),
        0 <= b < parcels.len(),
        a != b,
    ensures
        contribution(parcels[a], removed[a]) + contribution(parcels[b], removed[b]) <= kept_total(
            parcels,
            removed,
        ),
{
    let n = parcels.len() as int;
    let r1 = removed.update(a, true);
    lemma_kept_total_update(parcels, removed, a, parcels[a], true, n);
    assert(parcels.update(a, parcels[a]) =~= parcels);
    let r2 = r1.update(b, true);
    lemma_kept_total_update(parcels, r1, b, parcels[b], true, n);
    assert(parcels.update(b, parcels[b]) =~= parcels);
    lemma_kept_total_nonnegative(parcels, r2, n);
}

/// Whether `near` lies within two hops of `cell`, `cell` itself included:
/// what a transport's reach covers.
pub open spec fn within_reach(mesh: MeshTopology, cell: int, near: int) -> bool {
    ||| near == cell
    ||| mesh.adjacent(cell, near)
    ||| exists|k: int|
        0 <= k < mesh.degree(cell) && mesh.adjacent(#[trigger] mesh.corner(cell, k).neighbor as int, near)
}

/// Whether a plate converging on `plate` holds an edge within reach of
/// `cell`: the trench a losing parcel of `plate` meets there.
pub open spec fn trench_within_reach(
    mesh: MeshTopology,
    edge_classes: Seq<BoundaryClass>,
    owners: Seq<usize>,
    cell: int,
    plate: usize,
) -> bool {
    exists|near: int|
        0 <= near < mesh.cells() && within_reach(mesh, cell, near) && #[trigger] plate_converges_at(
            mesh,
            edge_classes,
            owners,
            near,
            plate,
        )
}

/// The ring a transport searches covers exactly what reach covers.
proof fn lemma_ring_is_reach(
    mesh: MeshTopology,
    edge_classes: Seq<BoundaryClass>,
    owners: Seq<usize>,
    cell: int,
    ring: Seq<usize>,
    plate: usize,
)
    requires
        mesh.wf(),
        0 <= cell < mesh.cells(),
        is_reach_ring(mesh, cell, ring),
    ensures
        spec_converges_on(mesh, edge_classes, owners, cell, ring, plate) == trench_within_reach(
            mesh,
            edge_classes,
            owners,
            cell,
            plate,
        ),
{
    let deg = mesh.degree(cell) as int;
    if spec_converges_on(mesh, edge_classes, owners, cell, ring, plate) {
        if plate_converges_at(mesh, edge_classes, owners, cell, plate) {
            assert(within_reach(mesh, cell, cell));
        } else {
            let i = choose|i: int|
                0 <= i < ring.len() && plate_converges_at(
                    mesh,
                    edge_classes,
                    owners,
                    #[trigger] ring[i] as int,
                    plate,
                );
            let near = ring[i] as int;
            if i < deg {
                assert(mesh.corner(cell, i).neighbor == near);
                assert(mesh.adjacent(cell, near));
            } else {
                let (j, k) = choose|j: int, k: int|
                    0 <= j < deg && 0 <= k < mesh.degree(ring[j] as int) && mesh.corner(
                        ring[j] as int,
                        k,
                    ).neighbor == ring[i];
                assert(ring[j] == mesh.corner(cell, j).neighbor);
                assert(mesh.adjacent(mesh.corner(cell, j).neighbor as int, near));
            }
            assert(within_reach(mesh, cell, near));
        }
    }
    if trench_within_reach(mesh, edge_classes, owners, cell, plate) {
        let near = choose|near: int|
            0 <= near < mesh.cells() && within_reach(mesh, cell, near) && #[trigger] plate_converges_at(
                mesh,
                edge_classes,
                owners,
                near,
                plate,
            );
        if near == cell {
        } else if mesh.adjacent(cell, near) {
            let k = choose|k: int| 0 <= k < mesh.degree(cell) && mesh.corner(cell, k).neighbor == near;
            assert(ring[k] == near);
        } else {
            let k = choose|k: int|
                0 <= k < mesh.degree(cell) && mesh.adjacent(
                    #[trigger] mesh.corner(cell, k).neighbor as int,
                    near,
                );
            let m = mesh.corner(cell, k).neighbor as int;
            let kk = choose|kk: int| 0 <= kk < mesh.degree(m) && mesh.corner(m, kk).neighbor == near;
            assert(ring[k] == m);
            assert(ring.contains(mesh.corner(ring[k] as int, kk).neighbor));
            let i = choose|i: int| 0 <= i < ring.len() && ring[i] == near as usize;
            assert(plate_converges_at(mesh, edge_classes, owners, ring[i] as int, plate));
        }
    }
}

/// Whether parcel `loser`, lying in a cell won by `winner`, leaves the run
/// there: a parcel of another plate, landing within reach of a trench where
/// its own plate is converging. Ocean floor goes under and is gone;
/// continent is thrust under and merges into the winner's column.
pub open spec fn taken_at(
    mesh: MeshTopology,
    edge_classes: Seq<BoundaryClass>,
    owners: Seq<usize>,
    parcels: Seq<Parcel>,
    loser: int,
    winner: int,
) -> bool {
    &&& loser != winner
    &&& parcels[loser].plate != parcels[winner].plate
    &&& trench_within_reach(
        mesh,
        edge_classes,
        owners,
        parcels[loser].cell as int,
        parcels[loser].plate,
    )
}

/// Whether `winners` names, for every cell, one of the parcels in it when it
/// holds any, and a continental one whenever it holds continent.
pub open spec fn winners_fit(occupancy: Seq<Parcel>, cell_count: nat, winners: Seq<Option<usize>>) -> bool {
    &&& winners.len() == cell_count
    &&& forall|c: int|
        0 <= c < cell_count ==> match #[trigger] winners[c] {
            Some(w) => {
                &&& occupants(occupancy, c).contains(w)
                &&& (exists|i: int|
                    0 <= i < occupants(occupancy, c).len() && occupancy[occupants(
                        occupancy,
                        c,
                    )[i] as int].continental) ==> occupancy[w as int].continental
            },
            None => occupants(occupancy, c).len() == 0,
        }
}

/// Among the first `upto` parcels of `occ`, those other than `winner` that
/// leave the run and are, or are not, continental: the subducted floor and
/// the accreted continent of one cell.
pub open spec fn taken_upto(
    mesh: MeshTopology,
    edge_classes: Seq<BoundaryClass>,
    owners: Seq<usize>,
    parcels: Seq<Parcel>,
    occ: Seq<usize>,
    winner: int,
    continental: bool,
    upto: int,
) -> nat
    decreases upto,
{
    if upto <= 0 {
        0
    } else {
        let j = occ[upto - 1] as int;
        taken_upto(mesh, edge_classes, owners, parcels, occ, winner, continental, upto - 1) + if taken_at(
            mesh,
            edge_classes,
            owners,
            parcels,
            j,
            winner,
        ) && parcels[j].continental == continental {
            1nat
        } else {
            0nat
        }
    }
}

/// Thickness the continental parcels taken among the first `upto` of `occ`
/// hand to `winner`.
pub open spec fn accreted_thickness_upto(
    mesh: MeshTopology,
    edge_classes: Seq<BoundaryClass>,
    owners: Seq<usize>,
    parcels: Seq<Parcel>,
    occ: Seq<usize>,
    winner: int,
    upto: int,
) -> int
    decreases upto,
{
    if upto <= 0 {
        0
    } else {
        let j = occ[upto - 1] as int;
        accreted_thickness_upto(mesh, edge_classes, owners, parcels, occ, winner, upto - 1) + if taken_at(
            mesh,
            edge_classes,
            owners,
            parcels,
            j,
            winner,
        ) && parcels[j].continental {
            parcels[j].thickness as int
        } else {
            0
        }
    }
}

/// Among the first `upto` of `occ`, the parcels of another plate than the
/// winner's that stay stacked under it: a collision a trench did not take.
pub open spec fn foreign_upto(
    mesh: MeshTopology,
    edge_classes: Seq<BoundaryClass>,
    owners: Seq<usize>,
    parcels: Seq<Parcel>,
    occ: Seq<usize>,
    winner: int,
    upto: int,
) -> nat
    decreases upto,
{
    if upto <= 0 {
        0
    } else {
        let j = occ[upto - 1] as int;
        foreign_upto(mesh, edge_classes, owners, parcels, occ, winner, upto - 1) + if j != winner
            && !taken_at(mesh, edge_classes, owners, parcels, j, winner) && parcels[j].plate
            != parcels[winner].plate {
            1nat
        } else {
            0nat
        }
    }
}

/// What one occupied cell's resolution adds to the transport's counts.
pub struct CellVerdict {
    pub subducted: nat,
    pub accreted: nat,
    pub foreign: nat,
}

/// The verdict on cell `c` of the parcels `occupancy` lists, won by
/// `winners[c]`.
pub open spec fn cell_verdict(
    mesh: MeshTopology,
    edge_classes: Seq<BoundaryClass>,
    owners: Seq<usize>,
    parcels: Seq<Parcel>,
    winners: Seq<Option<usize>>,
    c: int,
) -> CellVerdict {
    match winners[c] {
        Some(w) => {
            let occ = occupants(parcels, c);
            CellVerdict {
                subducted: taken_upto(mesh, edge_classes, owners, parcels, occ, w as int, false, occ.len() as int),
                accreted: taken_upto(mesh, edge_classes, owners, parcels, occ, w as int, true, occ.len() as int),
                foreign: foreign_upto(mesh, edge_classes, owners, parcels, occ, w as int, occ.len() as int),
            }
        },
        None => CellVerdict { subducted: 0, accreted: 0, foreign: 0 },
    }
}

/// The counts resolving the first `upto` cells adds up to: subducted floor,
/// accreted continent, cells with a collision left stacked, and the deepest
/// such stack, the winner included.
pub open spec fn verdict_counts_upto(
    mesh: MeshTopology,
    edge_classes: Seq<BoundaryClass>,
    owners: Seq<usize>,
    parcels: Seq<Parcel>,
    winners: Seq<Option<usize>>,
    upto: int,
) -> (nat, nat, nat, nat)
    decreases upto,
{
    if upto <= 0 {
        (0, 0, 0, 0)
    } else {
        let (subducted, accreted, collided, stack) = verdict_counts_upto(
            mesh,
            edge_classes,
            owners,
            parcels,
            winners,
            upto - 1,
        );
        let verdict = cell_verdict(mesh, edge_classes, owners, parcels, winners, upto - 1);
        (
            subducted + verdict.subducted,
            accreted + verdict.accreted,
            collided + if verdict.foreign > 0 {
                1nat
            } else {
                0nat
            },
            if verdict.foreign > 0 && verdict.foreign + 1 > stack {
                verdict.foreign + 1
            } else {
                stack
            },
        )
    }
}

/// Parcels listed in the first `upto_cell` cells of an occupancy.
pub open spec fn occupied_total(parcels: Seq<Parcel>, upto_cell: int) -> nat
    decreases upto_cell,
{
    if upto_cell <= 0 {
        0
    } else {
        occupied_total(parcels, upto_cell - 1) + occupants(parcels, upto_cell - 1).len()
    }
}

proof fn lemma_occupied_total_step(parcels: Seq<Parcel>, upto_cell: int, k: int)
    requires
        0 <= k < parcels.len(),
    ensures
        occupied_total_at(parcels, upto_cell, k + 1) == occupied_total_at(parcels, upto_cell, k) + if 0
            <= parcels[k].cell < upto_cell {
            1nat
        } else {
            0nat
        },
    decreases upto_cell,
{
    if upto_cell > 0 {
        lemma_occupied_total_step(parcels, upto_cell - 1, k);
    }
}

/// Parcels among the first `k` listed in the first `upto_cell` cells.
pub open spec fn occupied_total_at(parcels: Seq<Parcel>, upto_cell: int, k: int) -> nat
    decreases upto_cell,
{
    if upto_cell <= 0 {
        0
    } else {
        occupied_total_at(parcels, upto_cell - 1, k) + occupants_upto(parcels, upto_cell - 1, k).len()
    }
}

/// Cells list each parcel once, so no stretch of cells lists more parcels
/// than there are.
proof fn lemma_occupied_total_bounded(parcels: Seq<Parcel>, upto_cell: int, k: int)
    requires
        0 <= k <= parcels.len(),
    ensures
        occupied_total_at(parcels, upto_cell, k) <= k,
    decreases k,
{
    if k > 0 {
        lemma_occupied_total_bounded(parcels, upto_cell, k - 1);
        lemma_occupied_total_step(parcels, upto_cell, k - 1);
    } else {
        lemma_occupied_total_empty(parcels, upto_cell);
    }
}

proof fn lemma_occupied_total_empty(parcels: Seq<Parcel>, upto_cell: int)
    ensures
        occupied_total_at(parcels, upto_cell, 0) == 0,
    decreases upto_cell,
{
    if upto_cell > 0 {
        lemma_occupied_total_empty(parcels, upto_cell - 1);
    }
}

proof fn lemma_occupied_total_is_at(parcels: Seq<Parcel>, upto_cell: int)
    ensures
        occupied_total(parcels, upto_cell) == occupied_total_at(parcels, upto_cell, parcels.len() as int),
    decreases upto_cell,
{
    if upto_cell > 0 {
        lemma_occupied_total_is_at(parcels, upto_cell - 1);
    }
}

/// Whether two parcel lists agree on everything but thickness.
pub open spec fn same_but_thickness(a: Seq<Parcel>, b: Seq<Parcel>) -> bool {
    &&& a.len() == b.len()
    &&& forall|i: int|
        0 <= i < a.len() ==> (#[trigger] a[i]).plate == b[i].plate && a[i].cell == b[i].cell
            && a[i].continental == b[i].continental
}

/// Judges every loser in one occupied cell: a parcel of another plate that
/// landed within reach of a trench its plate converges on leaves the run,
/// ocean floor by subduction and continent by merging into the winner's
/// column; any other parcel of another plate stays stacked and counts as
/// foreign. Returns the subducted, accreted, and foreign counts.
fn judge_cell(
    mesh: &MeshTopology,
    edge_classes: &Vec<BoundaryClass>,
    owners: &Vec<usize>,
    cell: usize,
    ring: &Vec<usize>,
    occ: &[usize],
    winner: usize,
    parcels: &mut Vec<Parcel>,
    removed: &mut Vec<bool>,
    Ghost(start): Ghost<Seq<Parcel>>,
) -> (verdict: (usize, usize, usize))
    requires
        mesh.wf(),
        cell < mesh.cells(),
        edge_classes@.len() == mesh.edges(),
        owners@.len() == mesh.cells(),
        is_reach_ring(*mesh, cell as int, ring@),
        start.len() <= usize::MAX,
        occ@ == occupants(start, cell as int),
        occ@.contains(winner),
        same_but_thickness(old(parcels)@, start),
        old(removed)@.len() == start.len(),
        forall|i: int| 0 <= i < occ@.len() ==> !old(removed)@[#[trigger] occ@[i] as int],
        forall|i: int|
            0 <= i < occ@.len() ==> old(parcels)@[#[trigger] occ@[i] as int] == start[occ@[i] as int],
        (exists|i: int| 0 <= i < occ@.len() && start[occ@[i] as int].continental)
            ==> start[winner as int].continental,
        kept_total(old(parcels)@, old(removed)@) <= u32::MAX,
    ensures
        same_but_thickness(final(parcels)@, start),
        final(removed)@.len() == start.len(),
        kept_total(final(parcels)@, final(removed)@) == kept_total(old(parcels)@, old(removed)@),
        forall|j: int|
            0 <= j < start.len() && start[j].cell != cell ==> final(parcels)@[j] == old(parcels)@[j]
                && final(removed)@[j] == old(removed)@[j],
        forall|i: int|
            0 <= i < occ@.len() && occ@[i] != winner ==> final(parcels)@[#[trigger] occ@[i] as int]
                == old(parcels)@[occ@[i] as int] && final(removed)@[occ@[i] as int] == taken_at(
                *mesh,
                edge_classes@,
                owners@,
                start,
                occ@[i] as int,
                winner as int,
            ),
        !final(removed)@[winner as int],
        final(parcels)@[winner as int].thickness == old(parcels)@[winner as int].thickness
            + accreted_thickness_upto(*mesh, edge_classes@, owners@, start, occ@, winner as int, occ@.len() as int),
        verdict.0 == taken_upto(*mesh, edge_classes@, owners@, start, occ@, winner as int, false, occ@.len() as int),
        verdict.1 == taken_upto(*mesh, edge_classes@, owners@, start, occ@, winner as int, true, occ@.len() as int),
        verdict.2 == foreign_upto(*mesh, edge_classes@, owners@, start, occ@, winner as int, occ@.len() as int),
        verdict.0 + verdict.1 + verdict.2 < occ@.len(),
        set_count_upto(final(removed)@, start.len() as int) == set_count_upto(old(removed)@, start.len() as int)
            + verdict.0 + verdict.1,
{
    proof {
        lemma_occupants_upto_facts(start, cell as int, start.len() as int);
    }
    let ghost m0 = *mesh;
    assert forall|plate: usize| #[trigger] spec_converges_on(*mesh, edge_classes@, owners@, cell as int, ring@, plate)
        == trench_within_reach(*mesh, edge_classes@, owners@, cell as int, plate) by {
        lemma_ring_is_reach(*mesh, edge_classes@, owners@, cell as int, ring@, plate);
    }
    let ghost parcels0 = parcels@;
    let ghost removed0 = removed@;
    let mut subducted: usize = 0;
    let mut accreted: usize = 0;
    let mut foreign: usize = 0;
    let mut m: usize = 0;
    while m < occ.len()
        invariant
            m0 == *mesh,
            mesh.wf(),
            cell < mesh.cells(),
            edge_classes@.len() == mesh.edges(),
            owners@.len() == mesh.cells(),
            forall|i: int| 0 <= i < ring@.len() ==> #[trigger] ring@[i] < mesh.cells(),
            spec_converges_on(*mesh, edge_classes@, owners@, cell as int, ring@, 0) == spec_converges_on(*mesh, edge_classes@, owners@, cell as int, ring@, 0),
            forall|plate: usize| #[trigger] spec_converges_on(*mesh, edge_classes@, owners@, cell as int, ring@, plate)
                == trench_within_reach(*mesh, edge_classes@, owners@, cell as int, plate),
            start.len() <= usize::MAX,
            occ@ == occupants(start, cell as int),
            occ@.contains(winner),
            winner < start.len(),
            start[winner as int].cell == cell,
            m <= occ@.len(),
            same_but_thickness(parcels@, start),
            removed@.len() == start.len(),
            forall|i: int| 0 <= i < occ@.len() ==> {
                let p = #[trigger] occ@[i];
                &&& p < start.len()
                &&& start[p as int].cell == cell
            },
            forall|i: int, j: int| 0 <= i < j < occ@.len() ==> #[trigger] occ@[i] < #[trigger] occ@[j],
            forall|i: int| m <= i < occ@.len() ==> !removed@[#[trigger] occ@[i] as int],
            forall|i: int| m <= i < occ@.len() && occ@[i] != winner ==> parcels@[#[trigger] occ@[i] as int]
                == parcels0[occ@[i] as int],
            forall|i: int| 0 <= i < occ@.len() ==> parcels0[#[trigger] occ@[i] as int] == start[occ@[i] as int],
            (exists|i: int| 0 <= i < occ@.len() && start[occ@[i] as int].continental)
                ==> start[winner as int].continental,
            kept_total(parcels@, removed@) == kept_total(parcels0, removed0),
            kept_total(parcels0, removed0) <= u32::MAX,
            forall|j: int|
                0 <= j < start.len() && start[j].cell != cell ==> parcels@[j] == parcels0[j]
                    && removed@[j] == removed0[j],
            forall|i: int|
                0 <= i < m && occ@[i] != winner ==> parcels@[#[trigger] occ@[i] as int]
                    == parcels0[occ@[i] as int] && removed@[occ@[i] as int] == taken_at(
                    *mesh,
                    edge_classes@,
                    owners@,
                    start,
                    occ@[i] as int,
                    winner as int,
                ),
            !removed@[winner as int],
            parcels@[winner as int].plate == start[winner as int].plate,
            parcels@[winner as int].thickness == parcels0[winner as int].thickness
                + accreted_thickness_upto(*mesh, edge_classes@, owners@, start, occ@, winner as int, m as int),
            subducted == taken_upto(*mesh, edge_classes@, owners@, start, occ@, winner as int, false, m as int),
            accreted == taken_upto(*mesh, edge_classes@, owners@, start, occ@, winner as int, true, m as int),
            foreign == foreign_upto(*mesh, edge_classes@, owners@, start, occ@, winner as int, m as int),
            subducted + accreted + foreign <= m,
            (exists|i: int| 0 <= i < m && occ@[i] == winner) ==> subducted + accreted + foreign < m,
            set_count_upto(removed@, start.len() as int) == set_count_upto(removed0, start.len() as int)
                + subducted + accreted,
        decreases occ@.len() - m,
    {
        let loser = occ[m];
        if loser != winner {
            let lost = parcels[loser];
            let plate = parcels[winner].plate;
            if lost.plate != plate && converges_on(mesh, edge_classes, owners, cell, ring, lost.plate) {
                let ghost before_parcels = parcels@;
                let ghost before_removed = removed@;
                proof {
                    assert(taken_at(*mesh, edge_classes@, owners@, start, loser as int, winner as int));
                }
                proof {
                    assert(occ@[m as int] == loser);
                    lemma_set_count_update(before_removed, loser as int, start.len() as int);
                }
                removed.set(loser, true);
                proof {
                    lemma_kept_total_update(before_parcels, before_removed, loser as int, lost, true, start.len() as int);
                    assert(before_parcels.update(loser as int, lost) =~= before_parcels);
                    assert(removed@ == before_removed.update(loser as int, true));
                    assert(kept_total(parcels@, removed@) == kept_total(before_parcels, before_removed)
                        - contribution(lost, false));
                }
                if lost.is_continental() {
                    let ghost mid_removed = removed@;
                    proof {
                        assert(start[loser as int].continental);
                        assert(occ@[m as int] == loser);
                        assert(start[winner as int].continental);
                        lemma_two_contributions_bounded(before_parcels, before_removed, loser as int, winner as int);
                        assert(parcels@[winner as int].continental);
                    }
                    let mut column = parcels[winner];
                    column.thickness = column.thickness + lost.thickness;
                    parcels.set(winner, column);
                    proof {
                        lemma_kept_total_update(before_parcels, mid_removed, winner as int, column, false, start.len() as int);
                        assert(mid_removed.update(winner as int, false) =~= mid_removed);
                        assert(parcels@ == before_parcels.update(winner as int, column));
                    }
                    accreted += 1;
                } else {
                    subducted += 1;
                }
            } else if lost.plate != plate {
                proof {
                    assert(!taken_at(*mesh, edge_classes@, owners@, start, loser as int, winner as int));
                }
                foreign += 1;
            } else {
                proof {
                    assert(!taken_at(*mesh, edge_classes@, owners@, start, loser as int, winner as int));
                }
            }
        }
        proof {
            assert(occ@[m as int] == loser);
        }
        m += 1;
    }
    proof {
        let i = choose|i: int| 0 <= i < occ@.len() && occ@[i] == winner;
    }
    (subducted, accreted, foreign)
}

/// The winner named for the cell parcel `j` lies in.
pub open spec fn winner_of(parcels: Seq<Parcel>, winners: Seq<Option<usize>>, j: int) -> Option<usize> {
    winners[parcels[j].cell as int]
}

/// The thickness parcel `j` has once its cell is judged: a winner gains what
/// it accreted, every other parcel keeps its own.
pub open spec fn judged_thickness(
    mesh: MeshTopology,
    edge_classes: Seq<BoundaryClass>,
    owners: Seq<usize>,
    start: Seq<Parcel>,
    winners: Seq<Option<usize>>,
    j: int,
) -> int {
    start[j].thickness + if winner_of(start, winners, j) == Some(j as usize) {
        accreted_thickness_upto(
            mesh,
            edge_classes,
            owners,
            start,
            occupants(start, start[j].cell as int),
            j,
            occupants(start, start[j].cell as int).len() as int,
        )
    } else {
        0
    }
}

/// Whether parcel `j` leaves when its cell is judged.
pub open spec fn judged_removed(
    mesh: MeshTopology,
    edge_classes: Seq<BoundaryClass>,
    owners: Seq<usize>,
    start: Seq<Parcel>,
    winners: Seq<Option<usize>>,
    j: int,
) -> bool {
    winner_of(start, winners, j) != Some(j as usize) && taken_at(
        mesh,
        edge_classes,
        owners,
        start,
        j,
        winner_of(start, winners, j)->Some_0 as int,
    )
}

/// Gives every occupied cell the parcel `winners` names for it and judges
/// every other parcel there: a parcel of another plate, within reach of a
/// trench its plate converges on, leaves the run. Ocean floor subducts;
/// continent merges into the winner's column, which gains its thickness.
///
/// `winners` is the material order's verdict on each cell; it names a
/// continental parcel wherever continent lies. Returns the transport's
/// subduction, accretion, and collision counts; `removed` marks the parcels
/// that left.
pub fn resolve_occupied_cells(
    mesh: &MeshTopology,
    edge_classes: &Vec<BoundaryClass>,
    previous_owners: &Vec<usize>,
    occupancy: &Occupancy,
    winners: &Vec<Option<usize>>,
    parcels: &mut Vec<Parcel>,
) -> (resolution: (Vec<bool>, TransportCounts))
    requires
        mesh.wf(),
        edge_classes@.len() == mesh.edges(),
        previous_owners@.len() == mesh.cells(),
        occupancy.wf(),
        occupancy.parcels() == old(parcels)@,
        occupancy.cell_count() == mesh.cells(),
        forall|i: int| 0 <= i < old(parcels)@.len() ==> #[trigger] old(parcels)@[i].cell < mesh.cells(),
        winners_fit(old(parcels)@, mesh.cells(), winners@),
        continental_total(old(parcels)@) <= u32::MAX,
    ensures
        ({
            let start = old(parcels)@;
            let (removed, counts) = resolution;
            let (subducted, accreted, collided, stack) = verdict_counts_upto(
                *mesh,
                edge_classes@,
                previous_owners@,
                start,
                winners@,
                mesh.cells() as int,
            );
            &&& same_but_thickness(final(parcels)@, start)
            &&& removed@.len() == start.len()
            // Continental material is neither created nor destroyed.
            &&& kept_total(final(parcels)@, removed@) == continental_total(start)
            &&& forall|j: int|
                0 <= j < start.len() ==> #[trigger] removed@[j] == judged_removed(
                    *mesh,
                    edge_classes@,
                    previous_owners@,
                    start,
                    winners@,
                    j,
                )
            &&& forall|j: int|
                0 <= j < start.len() ==> (#[trigger] final(parcels)@[j]).thickness == judged_thickness(
                    *mesh,
                    edge_classes@,
                    previous_owners@,
                    start,
                    winners@,
                    j,
                )
            &&& counts.subducted_particle_count == subducted
            &&& counts.accreted_particle_count == accreted
            &&& counts.collided_cell_count == collided
            &&& counts.maximum_collision_stack == stack
            &&& counts.owner_change_count == 0
            &&& counts.born_particle_count == 0
            &&& counts.sampled_cell_count == 0
            &&& counts.thickness_transfer_count == 0
            // Every parcel that left was subducted or accreted.
            &&& set_count_upto(removed@, start.len() as int) == subducted + accreted
        }),
{
    let ghost start = parcels@;
    let ghost m0 = *mesh;
    let n = mesh.cell_count();
    let mut removed: Vec<bool> = vec![false; parcels.len()];
    let mut counts = TransportCounts::default();
    proof {
        assert(removed@ =~= Seq::new(start.len(), |i: int| false));
        lemma_set_count_none(start.len() as int);
        lemma_occupied_total_is_at(start, n as int);
        lemma_occupied_total_bounded(start, n as int, start.len() as int);
    }
    let mut cell: usize = 0;
    while cell < n
        invariant
            m0 == *mesh,
            mesh.wf(),
            n == mesh.cells(),
            cell <= n,
            edge_classes@.len() == mesh.edges(),
            previous_owners@.len() == mesh.cells(),
            occupancy.wf(),
            occupancy.parcels() == start,
            occupancy.cell_count() == n,
            forall|i: int| 0 <= i < start.len() ==> #[trigger] start[i].cell < n,
            winners_fit(start, n as nat, winners@),
            continental_total(start) <= u32::MAX,
            start.len() <= usize::MAX,
            occupied_total(start, n as int) <= start.len(),
            same_but_thickness(parcels@, start),
            removed@.len() == start.len(),
            kept_total(parcels@, removed@) == continental_total(start),
            forall|j: int|
                0 <= j < start.len() && start[j].cell >= cell ==> parcels@[j] == start[j]
                    && !removed@[j],
            forall|j: int|
                0 <= j < start.len() && start[j].cell < cell ==> #[trigger] removed@[j]
                    == judged_removed(*mesh, edge_classes@, previous_owners@, start, winners@, j),
            forall|j: int|
                0 <= j < start.len() && start[j].cell < cell ==> (#[trigger] parcels@[j]).thickness
                    == judged_thickness(*mesh, edge_classes@, previous_owners@, start, winners@, j),
            ({
                let (subducted, accreted, collided, stack) = verdict_counts_upto(
                    *mesh,
                    edge_classes@,
                    previous_owners@,
                    start,
                    winners@,
                    cell as int,
                );
                &&& counts.subducted_particle_count == subducted
                &&& counts.accreted_particle_count == accreted
                &&& counts.collided_cell_count == collided
                &&& counts.maximum_collision_stack == stack
            }),
            counts.subducted_particle_count + counts.accreted_particle_count <= occupied_total(start, cell as int),
            counts.collided_cell_count <= cell,
            counts.maximum_collision_stack <= start.len(),
            counts.owner_change_count == 0,
            counts.born_particle_count == 0,
            counts.sampled_cell_count == 0,
            counts.thickness_transfer_count == 0,
            set_count_upto(removed@, start.len() as int) == counts.subducted_particle_count
                + counts.accreted_particle_count,
        decreases n - cell,
    {
        proof {
            lemma_occupied_total_monotone(start, cell as int + 1, n as int);
            lemma_occupants_upto_facts(start, cell as int, start.len() as int);
        }
        let ghost before_parcels = parcels@;
        let ghost before_removed = removed@;
        match winners[cell] {
            None => {
                proof {
                    assert forall|j: int| 0 <= j < start.len() implies start[j].cell != cell by {
                        if start[j].cell == cell {
                            assert(occupants(start, cell as int).contains(j as usize));
                        }
                    }
                }
            },
            Some(winner) => {
                let occ = occupancy.at(cell);
                if occ.len() > 1 {
                    let ring = reach_ring(mesh, cell);
                    proof {
                        assert forall|i: int| 0 <= i < occ@.len() implies !removed@[#[trigger] occ@[i] as int] && parcels@[occ@[i] as int] == start[occ@[i] as int] by {
                            assert(start[occ@[i] as int].cell == cell);
                        }
                        assert(kept_total(parcels@, removed@) <= u32::MAX);
                        let wi = choose|i: int| 0 <= i < occ@.len() && occ@[i] == winner;
                        assert(start[occ@[wi] as int].cell == cell);
                    }
                    let verdict = judge_cell(
                        mesh,
                        edge_classes,
                        previous_owners,
                        cell,
                        &ring,
                        occ,
                        winner,
                        parcels,
                        &mut removed,
                        Ghost(start),
                    );
                    counts.subducted_particle_count = counts.subducted_particle_count + verdict.0;
                    counts.accreted_particle_count = counts.accreted_particle_count + verdict.1;
                    if verdict.2 > 0 {
                        counts.collided_cell_count = counts.collided_cell_count + 1;
                        if verdict.2 + 1 > counts.maximum_collision_stack {
                            counts.maximum_collision_stack = verdict.2 + 1;
                        }
                    }
                    proof {
                        assert forall|j: int| #![trigger removed@[j]] #![trigger parcels@[j]] 0 <= j < start.len() && start[j].cell == cell implies
                            removed@[j] == judged_removed(*mesh, edge_classes@, previous_owners@, start, winners@, j)
                            && parcels@[j].thickness == judged_thickness(*mesh, edge_classes@, previous_owners@, start, winners@, j) by {
                            assert(occ@.contains(j as usize));
                            let i = choose|i: int| 0 <= i < occ@.len() && occ@[i] == j as usize;
                            assert(occ@[i] == j as usize);
                        }
                        assert(occupied_total(start, cell as int + 1) == occupied_total(start, cell as int) + occ@.len());
                        assert forall|j: int| 0 <= j < start.len() && start[j].cell < cell implies
                            parcels@[j] == before_parcels[j] && removed@[j] == before_removed[j] by {}
                    }
                } else {
                    proof {
                        lemma_single_occupant(*mesh, edge_classes@, previous_owners@, start, occ@, winner as int);
                        assert(occupied_total(start, cell as int + 1) == occupied_total(start, cell as int) + occ@.len());
                        assert forall|j: int| 0 <= j < start.len() && start[j].cell == cell implies j == winner by {
                            assert(occupants(start, cell as int).contains(j as usize));
                        }
                        assert forall|j: int| 0 <= j < start.len() && start[j].cell == cell implies
                            #[trigger] parcels@[j].thickness == judged_thickness(*mesh, edge_classes@, previous_owners@, start, winners@, j) by {
                            assert(j == winner);
                            assert(occupants(start, start[j].cell as int) == occ@);
                        }
                    }
                }
            },
        }
        proof {
            assert forall|j: int| 0 <= j < start.len() && start[j].cell < cell + 1 implies
                #[trigger] parcels@[j].thickness == judged_thickness(*mesh, edge_classes@, previous_owners@, start, winners@, j) by {
                if start[j].cell < cell {
                    assert(before_parcels[j].thickness == judged_thickness(*mesh, edge_classes@, previous_owners@, start, winners@, j));
                    assert(parcels@[j] == before_parcels[j]);
                } else {
                    assert(start[j].cell == cell);
                    assert(parcels@[j].thickness == judged_thickness(*mesh, edge_classes@, previous_owners@, start, winners@, j));
                }
            }
        }
        cell += 1;
    }
    (removed, counts)
}

proof fn lemma_occupied_total_monotone(parcels: Seq<Parcel>, a: int, b: int)
    requires
        0 <= a <= b,
    ensures
        occupied_total(parcels, a) <= occupied_total(parcels, b),
    decreases b - a,
{
    if a < b {
        lemma_occupied_total_monotone(parcels, a, b - 1);
    }
}

/// A cell whose one parcel is its winner takes nothing and stacks nothing.
proof fn lemma_single_occupant(
    mesh: MeshTopology,
    edge_classes: Seq<BoundaryClass>,
    owners: Seq<usize>,
    parcels: Seq<Parcel>,
    occ: Seq<usize>,
    winner: int,
)
    requires
        occ.len() <= 1,
        occ.contains(winner as usize),
        0 <= winner <= usize::MAX,
    ensures
        taken_upto(mesh, edge_classes, owners, parcels, occ, winner, false, occ.len() as int) == 0,
        taken_upto(mesh, edge_classes, owners, parcels, occ, winner, true, occ.len() as int) == 0,
        foreign_upto(mesh, edge_classes, owners, parcels, occ, winner, occ.len() as int) == 0,
        accreted_thickness_upto(mesh, edge_classes, owners, parcels, occ, winner, occ.len() as int) == 0,
        occ.len() == 1,
{
    let i = choose|i: int| 0 <= i < occ.len() && occ[i] == winner as usize;
    assert(occ[0] == winner);
    assert(!taken_at(mesh, edge_classes, owners, parcels, occ[0] as int, winner));
    assert(taken_upto(mesh, edge_classes, owners, parcels, occ, winner, false, 0) == 0);
    assert(taken_upto(mesh, edge_classes, owners, parcels, occ, winner, true, 0) == 0);
    assert(foreign_upto(mesh, edge_classes, owners, parcels, occ, winner, 0) == 0);
    assert(accreted_thickness_upto(mesh, edge_classes, owners, parcels, occ, winner, 0) == 0);
    assert(occ.len() == 1);
    assert(foreign_upto(mesh, edge_classes, owners, parcels, occ, winner, 1) == 0);
    assert(accreted_thickness_upto(mesh, edge_classes, owners, parcels, occ, winner, 1) == 0);
}

/// No trench lies anywhere the edges hold no convergent boundary.
proof fn lemma_no_convergence_no_trench(
    mesh: MeshTopology,
    edge_classes: Seq<BoundaryClass>,
    owners: Seq<usize>,
    cell: int,
    plate: usize,
)
    requires
        mesh.wf(),
        edge_classes.len() == mesh.edges(),
        forall|e: int| 0 <= e < edge_classes.len() ==> edge_classes[e] != BoundaryClass::Convergent,
    ensures
        !trench_within_reach(mesh, edge_classes, owners, cell, plate),
{
    if trench_within_reach(mesh, edge_classes, owners, cell, plate) {
        let near = choose|near: int|
            0 <= near < mesh.cells() && within_reach(mesh, cell, near) && #[trigger] plate_converges_at(
                mesh,
                edge_classes,
                owners,
                near,
                plate,
            );
        let k = choose|k: int|
            0 <= k < mesh.degree(near) && edge_classes[mesh.corner(near, k).edge as int]
                == BoundaryClass::Convergent && owners[mesh.corner(near, k).neighbor as int] == plate;
        assert(mesh.corner(near, k).edge < mesh.edges());
    }
}

proof fn lemma_no_convergence_accretes_nothing(
    mesh: MeshTopology,
    edge_classes: Seq<BoundaryClass>,
    owners: Seq<usize>,
    parcels: Seq<Parcel>,
    occ: Seq<usize>,
    winner: int,
    upto: int,
)
    requires
        mesh.wf(),
        edge_classes.len() == mesh.edges(),
        forall|e: int| 0 <= e < edge_classes.len() ==> edge_classes[e] != BoundaryClass::Convergent,
    ensures
        accreted_thickness_upto(mesh, edge_classes, owners, parcels, occ, winner, upto) == 0,
    decreases upto,
{
    if upto > 0 {
        lemma_no_convergence_accretes_nothing(mesh, edge_classes, owners, parcels, occ, winner, upto - 1);
        let j = occ[upto - 1] as int;
        lemma_no_convergence_no_trench(mesh, edge_classes, owners, parcels[j].cell as int, parcels[j].plate);
    }
}

/// Where no boundary is convergent there is no trench: judging the occupied
/// cells takes no parcel and thickens no column, so such a transport
/// destroys nothing and merges nothing.
pub proof fn lemma_no_trench_takes_nothing(
    mesh: MeshTopology,
    edge_classes: Seq<BoundaryClass>,
    owners: Seq<usize>,
    parcels: Seq<Parcel>,
    winners: Seq<Option<usize>>,
)
    requires
        mesh.wf(),
        edge_classes.len() == mesh.edges(),
        forall|e: int| 0 <= e < edge_classes.len() ==> edge_classes[e] != BoundaryClass::Convergent,
    ensures
        forall|j: int|
            0 <= j < parcels.len() ==> !#[trigger] judged_removed(mesh, edge_classes, owners, parcels, winners, j)
                && judged_thickness(mesh, edge_classes, owners, parcels, winners, j) == parcels[j].thickness,
{
    assert forall|j: int| 0 <= j < parcels.len() implies !#[trigger] judged_removed(
        mesh,
        edge_classes,
        owners,
        parcels,
        winners,
        j,
    ) && judged_thickness(mesh, edge_classes, owners, parcels, winners, j) == parcels[j].thickness by {
        lemma_no_convergence_no_trench(mesh, edge_classes, owners, parcels[j].cell as int, parcels[j].plate);
        let occ = occupants(parcels, parcels[j].cell as int);
        lemma_no_convergence_accretes_nothing(mesh, edge_classes, owners, parcels, occ, j, occ.len() as int);
    }
}

} // verus!
