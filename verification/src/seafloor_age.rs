//! What the crust birth prior refuses: a motion it could not fit, or an
//! earlier stage output it was handed wrong.

use crate::boundaries::BoundaryClass;
use crate::motion::PlateKinematicsError;
use crate::topology::MeshTopology;
use crate::stage::StageInputError;
use vstd::prelude::*;

verus! {

/// Why the crust birth prior could not be derived.
#[derive(Clone, Copy, Debug, PartialEq, Eq)]
pub enum CrustBirthPriorError {
    Motion(PlateKinematicsError),
    Input(StageInputError),
}

impl CrustBirthPriorError {
    /// The sentence a viewer shows for this error.
    pub open spec fn spec_message(self) -> Seq<char> {
        match self {
            CrustBirthPriorError::Motion(error) => error.spec_message(),
            CrustBirthPriorError::Input(error) => error.spec_message(),
        }
    }

    /// The sentence a viewer shows for this error.
    pub fn message(&self) -> (text: String)
        ensures
            text@ == self.spec_message(),
    {
        match self {
            CrustBirthPriorError::Motion(error) => error.message(),
            CrustBirthPriorError::Input(error) => error.message(),
        }
    }
}

impl From<PlateKinematicsError> for CrustBirthPriorError {
    fn from(error: PlateKinematicsError) -> (wrapped: Self) {
        CrustBirthPriorError::Motion(error)
    }
}

impl vstd::std_specs::convert::FromSpecImpl<PlateKinematicsError> for CrustBirthPriorError {
    open spec fn obeys_from_spec() -> bool {
        true
    }

    open spec fn from_spec(error: PlateKinematicsError) -> Self {
        CrustBirthPriorError::Motion(error)
    }
}

impl From<StageInputError> for CrustBirthPriorError {
    fn from(error: StageInputError) -> (wrapped: Self) {
        CrustBirthPriorError::Input(error)
    }
}

impl vstd::std_specs::convert::FromSpecImpl<StageInputError> for CrustBirthPriorError {
    open spec fn obeys_from_spec() -> bool {
        true
    }

    open spec fn from_spec(error: StageInputError) -> Self {
        CrustBirthPriorError::Input(error)
    }
}

/// The oceanic cells beside the divergent edges among the first `upto`, in
/// edge order and each edge's own cell order: where the prior's walk starts,
/// at age zero. A cell beside two ridges appears twice.
pub open spec fn ridge_cells_upto(
    mesh: MeshTopology,
    edge_classes: Seq<BoundaryClass>,
    oceanic: Seq<bool>,
    upto: int,
) -> Seq<usize>
    decreases upto,
{
    if upto <= 0 {
        Seq::empty()
    } else {
        let before = ridge_cells_upto(mesh, edge_classes, oceanic, upto - 1);
        let cells = mesh.edge_cells@[upto - 1];
        if edge_classes[upto - 1] == BoundaryClass::Divergent {
            let first = if oceanic[cells[0] as int] {
                before.push(cells[0])
            } else {
                before
            };
            if oceanic[cells[1] as int] {
                first.push(cells[1])
            } else {
                first
            }
        } else {
            before
        }
    }
}

/// Whether `cell` is one of the two cells of a divergent edge among the
/// first `upto`.
pub open spec fn beside_divergent_edge(
    mesh: MeshTopology,
    edge_classes: Seq<BoundaryClass>,
    upto: int,
    cell: usize,
) -> bool {
    exists|e: int|
        0 <= e < upto && edge_classes[e] == BoundaryClass::Divergent && ((
        #[trigger] mesh.edge_cells@[e])[0] == cell || mesh.edge_cells@[e][1] == cell)
}

/// Every ridge cell is an oceanic cell beside a divergent edge: only where
/// two plates pull apart is ocean dated from age zero.
pub proof fn lemma_ridge_cells_lie_beside_divergent_edges(
    mesh: MeshTopology,
    edge_classes: Seq<BoundaryClass>,
    oceanic: Seq<bool>,
    upto: int,
)
    requires
        0 <= upto <= mesh.edges(),
    ensures
        forall|i: int|
            0 <= i < ridge_cells_upto(mesh, edge_classes, oceanic, upto).len() ==> oceanic[ridge_cells_upto(
                mesh,
                edge_classes,
                oceanic,
                upto,
            )[i] as int] && beside_divergent_edge(
                mesh,
                edge_classes,
                upto,
                #[trigger] ridge_cells_upto(mesh, edge_classes, oceanic, upto)[i],
            ),
    decreases upto,
{
    if upto > 0 {
        lemma_ridge_cells_lie_beside_divergent_edges(mesh, edge_classes, oceanic, upto - 1);
        let before = ridge_cells_upto(mesh, edge_classes, oceanic, upto - 1);
        let now = ridge_cells_upto(mesh, edge_classes, oceanic, upto);
        let last = upto - 1;
        assert forall|i: int| 0 <= i < now.len() implies oceanic[now[i] as int] && beside_divergent_edge(
            mesh,
            edge_classes,
            upto,
            #[trigger] now[i],
        ) by {
            if i < before.len() {
                assert(now[i] == before[i]);
                assert(beside_divergent_edge(mesh, edge_classes, upto - 1, before[i]));
                let e = choose|e: int|
                    0 <= e < upto - 1 && edge_classes[e] == BoundaryClass::Divergent && ((
                    #[trigger] mesh.edge_cells@[e])[0] == before[i] || mesh.edge_cells@[e][1] == before[i]);
                assert(mesh.edge_cells@[e][0] == now[i] || mesh.edge_cells@[e][1] == now[i]);
            } else {
                assert(edge_classes[last] == BoundaryClass::Divergent);
                assert(mesh.edge_cells@[last][0] == now[i] || mesh.edge_cells@[last][1] == now[i]);
            }
        }
    }
}

/// Every oceanic cell beside a divergent edge is a ridge cell.
pub proof fn lemma_divergent_edges_date_their_oceanic_cells(
    mesh: MeshTopology,
    edge_classes: Seq<BoundaryClass>,
    oceanic: Seq<bool>,
    upto: int,
)
    requires
        0 <= upto <= mesh.edges(),
    ensures
        forall|e: int, side: int|
            0 <= e < upto && 0 <= side < 2 && edge_classes[e] == BoundaryClass::Divergent
                && oceanic[mesh.edge_cells@[e][side] as int] ==> ridge_cells_upto(
                mesh,
                edge_classes,
                oceanic,
                upto,
            ).contains(#[trigger] mesh.edge_cells@[e][side]),
    decreases upto,
{
    if upto > 0 {
        lemma_divergent_edges_date_their_oceanic_cells(mesh, edge_classes, oceanic, upto - 1);
        let before = ridge_cells_upto(mesh, edge_classes, oceanic, upto - 1);
        let now = ridge_cells_upto(mesh, edge_classes, oceanic, upto);
        let last = upto - 1;
        let cells = mesh.edge_cells@[last];
        let first = if oceanic[cells[0] as int] {
            before.push(cells[0])
        } else {
            before
        };
        assert(forall|i: int| 0 <= i < before.len() ==> first[i] == #[trigger] before[i]);
        assert(forall|i: int| 0 <= i < first.len() ==> now[i] == #[trigger] first[i]
            || edge_classes[last] != BoundaryClass::Divergent);
        assert forall|e: int, side: int|
            0 <= e < upto && 0 <= side < 2 && edge_classes[e] == BoundaryClass::Divergent
                && oceanic[mesh.edge_cells@[e][side] as int] implies now.contains(
            #[trigger] mesh.edge_cells@[e][side],
        ) by {
            let cell = mesh.edge_cells@[e][side];
            if e < last {
                assert(before.contains(cell));
                let i = choose|i: int| 0 <= i < before.len() && before[i] == cell;
                assert(now[i] == cell);
            } else if side == 0 {
                assert(first[before.len() as int] == cell);
                assert(now[before.len() as int] == cell);
            } else {
                assert(now[now.len() - 1] == cell);
            }
        }
    }
}

/// One more edge keeps the ridge cells found so far, in order, and appends
/// the edge's oceanic cells, first cell first, if it is divergent; any other
/// edge appends nothing.
pub proof fn lemma_ridge_cells_one_more_edge(
    mesh: MeshTopology,
    edge_classes: Seq<BoundaryClass>,
    oceanic: Seq<bool>,
    e: int,
)
    requires
        0 <= e,
    ensures
        ({
            let before = ridge_cells_upto(mesh, edge_classes, oceanic, e);
            let after = ridge_cells_upto(mesh, edge_classes, oceanic, e + 1);
            let first = mesh.edge_cells@[e][0];
            let second = mesh.edge_cells@[e][1];
            &&& after.subrange(0, before.len() as int) == before
            &&& edge_classes[e] != BoundaryClass::Divergent ==> after == before
            &&& edge_classes[e] == BoundaryClass::Divergent ==> after.len() == before.len() + (if oceanic[first as int] {
                1int
            } else {
                0int
            }) + (if oceanic[second as int] {
                1int
            } else {
                0int
            })
            &&& edge_classes[e] == BoundaryClass::Divergent && oceanic[first as int] ==> after[before.len() as int]
                == first
            &&& edge_classes[e] == BoundaryClass::Divergent && oceanic[second as int] ==> after.last() == second
        }),
{
    let before = ridge_cells_upto(mesh, edge_classes, oceanic, e);
    let after = ridge_cells_upto(mesh, edge_classes, oceanic, e + 1);
    assert(after.subrange(0, before.len() as int) =~= before);
}

/// The ridge cells read an edge's class only for whether it is divergent:
/// convergent, transform and interior edges alike date no ocean.
pub proof fn lemma_ridge_cells_read_only_divergence(
    mesh: MeshTopology,
    edge_classes: Seq<BoundaryClass>,
    other_classes: Seq<BoundaryClass>,
    oceanic: Seq<bool>,
    upto: int,
)
    requires
        forall|e: int|
            0 <= e < upto ==> (#[trigger] edge_classes[e] == BoundaryClass::Divergent) == (
            other_classes[e] == BoundaryClass::Divergent),
    ensures
        ridge_cells_upto(mesh, edge_classes, oceanic, upto) == ridge_cells_upto(
            mesh,
            other_classes,
            oceanic,
            upto,
        ),
    decreases upto,
{
    if upto > 0 {
        lemma_ridge_cells_read_only_divergence(mesh, edge_classes, other_classes, oceanic, upto - 1);
        assert((edge_classes[upto - 1] == BoundaryClass::Divergent) == (other_classes[upto - 1]
            == BoundaryClass::Divergent));
    }
}

/// Where the crust birth prior's walk starts: the ridge cells, and which
/// plates hold one.
pub struct RidgeSources {
    pub ridge_cells: Vec<usize>,
    pub ridge_plates: Vec<bool>,
}

/// The oceanic cells beside divergent edges, in edge order, and the plates
/// that own one: a plate with a ridge of its own dates its ocean from it.
pub fn ridge_sources(
    mesh: &MeshTopology,
    edge_classes: &Vec<BoundaryClass>,
    cell_plates: &Vec<usize>,
    oceanic: &Vec<bool>,
    plate_count: usize,
) -> (sources: RidgeSources)
    requires
        mesh.wf(),
        edge_classes@.len() == mesh.edges(),
        cell_plates@.len() == mesh.cells(),
        oceanic@.len() == mesh.cells(),
        forall|c: int| 0 <= c < mesh.cells() ==> #[trigger] cell_plates@[c] < plate_count,
    ensures
        sources.ridge_cells@ == ridge_cells_upto(*mesh, edge_classes@, oceanic@, mesh.edges() as int),
        sources.ridge_plates@.len() == plate_count,
        forall|p: int|
            0 <= p < plate_count ==> #[trigger] sources.ridge_plates@[p] == exists|i: int|
                0 <= i < sources.ridge_cells@.len() && cell_plates@[sources.ridge_cells@[i] as int] == p,
        forall|i: int|
            0 <= i < sources.ridge_cells@.len() ==> #[trigger] sources.ridge_cells@[i] < mesh.cells()
                && oceanic@[sources.ridge_cells@[i] as int],
        // A ridge cell lies beside a divergent edge ...
        forall|i: int|
            0 <= i < sources.ridge_cells@.len() ==> beside_divergent_edge(
                *mesh,
                edge_classes@,
                mesh.edges() as int,
                #[trigger] sources.ridge_cells@[i],
            ),
        // ... and every oceanic cell beside one is a ridge cell.
        forall|e: int, side: int|
            0 <= e < mesh.edges() && 0 <= side < 2 && edge_classes@[e] == BoundaryClass::Divergent
                && oceanic@[mesh.edge_cells@[e][side] as int] ==> sources.ridge_cells@.contains(
                #[trigger] mesh.edge_cells@[e][side],
            ),
{
    let mut ridge_cells: Vec<usize> = Vec::new();
    let mut ridge_plates: Vec<bool> = vec![false; plate_count];
    let mut edge: usize = 0;
    while edge < mesh.edge_count()
        invariant
            mesh.wf(),
            edge_classes@.len() == mesh.edges(),
            cell_plates@.len() == mesh.cells(),
            oceanic@.len() == mesh.cells(),
            forall|c: int| 0 <= c < mesh.cells() ==> #[trigger] cell_plates@[c] < plate_count,
            edge <= mesh.edges(),
            ridge_cells@ == ridge_cells_upto(*mesh, edge_classes@, oceanic@, edge as int),
            ridge_plates@.len() == plate_count,
            forall|i: int|
                0 <= i < ridge_cells@.len() ==> #[trigger] ridge_cells@[i] < mesh.cells()
                    && oceanic@[ridge_cells@[i] as int],
            forall|p: int|
                0 <= p < plate_count ==> #[trigger] ridge_plates@[p] == exists|i: int|
                    0 <= i < ridge_cells@.len() && cell_plates@[ridge_cells@[i] as int] == p,
        decreases mesh.edges() - edge,
    {
        if edge_classes[edge] == BoundaryClass::Divergent {
            let cells = mesh.edge_cells[edge];
            let mut side: usize = 0;
            while side < 2
                invariant
                    mesh.wf(),
                    cell_plates@.len() == mesh.cells(),
                    oceanic@.len() == mesh.cells(),
                    forall|c: int| 0 <= c < mesh.cells() ==> #[trigger] cell_plates@[c] < plate_count,
                    edge < mesh.edges(),
                    cells == mesh.edge_cells@[edge as int],
                    side <= 2,
                    ridge_cells@ == if side == 0 {
                        ridge_cells_upto(*mesh, edge_classes@, oceanic@, edge as int)
                    } else if side == 1 {
                        if oceanic@[cells[0] as int] {
                            ridge_cells_upto(*mesh, edge_classes@, oceanic@, edge as int).push(cells[0])
                        } else {
                            ridge_cells_upto(*mesh, edge_classes@, oceanic@, edge as int)
                        }
                    } else {
                        let first = if oceanic@[cells[0] as int] {
                            ridge_cells_upto(*mesh, edge_classes@, oceanic@, edge as int).push(cells[0])
                        } else {
                            ridge_cells_upto(*mesh, edge_classes@, oceanic@, edge as int)
                        };
                        if oceanic@[cells[1] as int] {
                            first.push(cells[1])
                        } else {
                            first
                        }
                    },
                    ridge_plates@.len() == plate_count,
                    forall|i: int|
                        0 <= i < ridge_cells@.len() ==> #[trigger] ridge_cells@[i] < mesh.cells()
                            && oceanic@[ridge_cells@[i] as int],
                    forall|p: int|
                        0 <= p < plate_count ==> #[trigger] ridge_plates@[p] == exists|i: int|
                            0 <= i < ridge_cells@.len() && cell_plates@[ridge_cells@[i] as int] == p,
                decreases 2 - side,
            {
                let cell = cells[side];
                if oceanic[cell] {
                    let ghost before = ridge_cells@;
                    ridge_cells.push(cell);
                    let plate = cell_plates[cell];
                    ridge_plates.set(plate, true);
                    proof {
                        assert forall|p: int| 0 <= p < plate_count implies #[trigger] ridge_plates@[p] == exists|i: int|
                            0 <= i < ridge_cells@.len() && cell_plates@[ridge_cells@[i] as int] == p by {
                            if p == plate {
                                assert(ridge_cells@[ridge_cells@.len() - 1] == cell);
                            } else {
                                if exists|i: int| 0 <= i < before.len() && cell_plates@[before[i] as int] == p {
                                    let i = choose|i: int| 0 <= i < before.len() && cell_plates@[before[i] as int] == p;
                                    assert(ridge_cells@[i] == before[i]);
                                }
                                if exists|i: int| 0 <= i < ridge_cells@.len() && cell_plates@[ridge_cells@[i] as int] == p {
                                    let i = choose|i: int| 0 <= i < ridge_cells@.len() && cell_plates@[ridge_cells@[i] as int] == p;
                                    assert(i < before.len());
                                    assert(ridge_cells@[i] == before[i]);
                                }
                            }
                        }
                    }
                }
                side += 1;
            }
        }
        edge += 1;
    }
    proof {
        lemma_ridge_cells_lie_beside_divergent_edges(*mesh, edge_classes@, oceanic@, mesh.edges() as int);
        lemma_divergent_edges_date_their_oceanic_cells(*mesh, edge_classes@, oceanic@, mesh.edges() as int);
    }
    RidgeSources { ridge_cells, ridge_plates }
}

/// The prior's counts: oceanic cells, ridge cells, plates with a ridge of
/// their own, oceanic plates without one, and the cells dated by the
/// fallback age because no ridge reaches them.
#[derive(Clone, Copy, Debug, PartialEq, Eq)]
pub struct PriorCounts {
    pub oceanic_cell_count: usize,
    pub ridge_cell_count: usize,
    pub ridge_plate_count: usize,
    pub ridge_less_plate_count: usize,
    pub fallback_cell_count: usize,
}

/// How many of the first `upto` cells satisfy `keep`.
pub open spec fn count_upto(keep: spec_fn(int) -> bool, upto: int) -> nat
    decreases upto,
{
    if upto <= 0 {
        0
    } else {
        count_upto(keep, upto - 1) + if keep(upto - 1) {
            1nat
        } else {
            0nat
        }
    }
}

proof fn lemma_count_bounded(keep: spec_fn(int) -> bool, upto: int)
    requires
        0 <= upto,
    ensures
        count_upto(keep, upto) <= upto,
    decreases upto,
{
    if upto > 0 {
        lemma_count_bounded(keep, upto - 1);
    }
}

proof fn lemma_count_subset(small: spec_fn(int) -> bool, large: spec_fn(int) -> bool, upto: int)
    requires
        0 <= upto,
        forall|i: int| 0 <= i < upto && #[trigger] small(i) ==> large(i),
    ensures
        count_upto(small, upto) <= count_upto(large, upto),
    decreases upto,
{
    if upto > 0 {
        lemma_count_subset(small, large, upto - 1);
    }
}

/// Whether some oceanic cell belongs to `plate`.
pub open spec fn plate_has_ocean(cell_plates: Seq<usize>, oceanic: Seq<bool>, plate: int) -> bool {
    exists|c: int| 0 <= c < cell_plates.len() && oceanic[c] && cell_plates[c] == plate
}

/// Counts what the prior's walk reached. `cell_hops` is each cell's walk
/// distance from the nearest ridge cell, through oceanic cells of its own
/// plate; a ridge plate is one `ridge_sources` found.
pub fn prior_counts(
    cell_hops: &Vec<Option<usize>>,
    oceanic: &Vec<bool>,
    cell_plates: &Vec<usize>,
    ridge_plates: &Vec<bool>,
) -> (counts: PriorCounts)
    requires
        cell_hops@.len() == oceanic@.len(),
        cell_plates@.len() == oceanic@.len(),
        forall|c: int| 0 <= c < cell_plates@.len() ==> #[trigger] cell_plates@[c] < ridge_plates@.len(),
        forall|p: int|
            0 <= p < ridge_plates@.len() && #[trigger] ridge_plates@[p] ==> plate_has_ocean(cell_plates@, oceanic@, p),
    ensures
        counts.oceanic_cell_count == count_upto(|c: int| oceanic@[c], oceanic@.len() as int),
        counts.ridge_cell_count == count_upto(|c: int| cell_hops@[c] == Some(0usize), oceanic@.len() as int),
        counts.ridge_plate_count == count_upto(|p: int| ridge_plates@[p], ridge_plates@.len() as int),
        counts.ridge_less_plate_count == count_upto(
            |p: int| plate_has_ocean(cell_plates@, oceanic@, p),
            ridge_plates@.len() as int,
        ) - count_upto(|p: int| ridge_plates@[p], ridge_plates@.len() as int),
        counts.fallback_cell_count == count_upto(
            |c: int| oceanic@[c] && cell_hops@[c] is None,
            oceanic@.len() as int,
        ),
{
    let n = oceanic.len();
    let plate_count = ridge_plates.len();
    let mut oceanic_cells: usize = 0;
    let mut ridge_cells: usize = 0;
    let mut fallback: usize = 0;
    let mut oceanic_plates: Vec<bool> = vec![false; plate_count];
    let mut cell: usize = 0;
    while cell < n
        invariant
            n == oceanic@.len(),
            cell_hops@.len() == n,
            cell_plates@.len() == n,
            plate_count == ridge_plates@.len(),
            forall|c: int| 0 <= c < n ==> #[trigger] cell_plates@[c] < plate_count,
            cell <= n,
            oceanic_cells == count_upto(|c: int| oceanic@[c], cell as int),
            ridge_cells == count_upto(|c: int| cell_hops@[c] == Some(0usize), cell as int),
            fallback == count_upto(|c: int| oceanic@[c] && cell_hops@[c] is None, cell as int),
            oceanic_plates@.len() == plate_count,
            forall|p: int|
                0 <= p < plate_count ==> #[trigger] oceanic_plates@[p] == exists|c: int|
                    0 <= c < cell && oceanic@[c] && cell_plates@[c] == p,
        decreases n - cell,
    {
        proof {
            lemma_count_bounded(|c: int| oceanic@[c], cell as int);
            lemma_count_bounded(|c: int| cell_hops@[c] == Some(0usize), cell as int);
            lemma_count_bounded(|c: int| oceanic@[c] && cell_hops@[c] is None, cell as int);
        }
        if cell_hops[cell] == Some(0usize) {
            ridge_cells = ridge_cells + 1;
        }
        if oceanic[cell] {
            oceanic_cells = oceanic_cells + 1;
            let plate = cell_plates[cell];
            oceanic_plates.set(plate, true);
            if cell_hops[cell].is_none() {
                fallback = fallback + 1;
            }
        }
        proof {
            assert forall|p: int| 0 <= p < plate_count implies #[trigger] oceanic_plates@[p] == exists|c: int|
                0 <= c < cell + 1 && oceanic@[c] && cell_plates@[c] == p by {
                if oceanic@[cell as int] && cell_plates@[cell as int] == p {
                    assert(oceanic@[cell as int] && cell_plates@[cell as int] == p);
                }
            }
        }
        cell += 1;
    }
    let mut ridge_plate_count: usize = 0;
    let mut ocean_plate_count: usize = 0;
    let mut plate: usize = 0;
    while plate < plate_count
        invariant
            plate_count == ridge_plates@.len(),
            oceanic_plates@.len() == plate_count,
            n == oceanic@.len(),
            cell_plates@.len() == n,
            forall|p: int|
                0 <= p < plate_count ==> #[trigger] oceanic_plates@[p] == plate_has_ocean(cell_plates@, oceanic@, p),
            plate <= plate_count,
            ridge_plate_count == count_upto(|p: int| ridge_plates@[p], plate as int),
            ocean_plate_count == count_upto(|p: int| plate_has_ocean(cell_plates@, oceanic@, p), plate as int),
        decreases plate_count - plate,
    {
        proof {
            lemma_count_bounded(|p: int| ridge_plates@[p], plate as int);
            lemma_count_bounded(|p: int| plate_has_ocean(cell_plates@, oceanic@, p), plate as int);
        }
        if ridge_plates[plate] {
            ridge_plate_count = ridge_plate_count + 1;
        }
        if oceanic_plates[plate] {
            ocean_plate_count = ocean_plate_count + 1;
        }
        plate += 1;
    }
    proof {
        lemma_count_subset(
            |p: int| ridge_plates@[p],
            |p: int| plate_has_ocean(cell_plates@, oceanic@, p),
            plate_count as int,
        );
    }
    PriorCounts {
        oceanic_cell_count: oceanic_cells,
        ridge_cell_count: ridge_cells,
        ridge_plate_count,
        ridge_less_plate_count: ocean_plate_count - ridge_plate_count,
        fallback_cell_count: fallback,
    }
}

} // verus!
