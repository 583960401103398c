//! Plate boundary classes and what is counted over them.
//!
//! Classifying a boundary reads the relative motion of the two plates either
//! side of an edge, which is geometry; the classes it produces, and the
//! counts every later stage takes over them, are here.

use vstd::prelude::*;

verus! {

/// Dense per-edge classification. `Interior` is the sentinel for
/// non-boundary edges so the array remains directly indexable by mesh edge
/// id.
#[derive(Clone, Copy, Debug, PartialEq, Eq, Structural)]
pub enum BoundaryClass {
    Interior,
    Convergent,
    Divergent,
    Transform,
}

impl BoundaryClass {
    pub const ALL: [BoundaryClass; 4] = [
        BoundaryClass::Interior,
        BoundaryClass::Convergent,
        BoundaryClass::Divergent,
        BoundaryClass::Transform,
    ];
}

/// How many of the first `upto` edges carry `class`.
pub open spec fn class_count_upto(classes: Seq<BoundaryClass>, class: BoundaryClass, upto: int) -> nat
    decreases upto,
{
    if upto <= 0 {
        0
    } else {
        class_count_upto(classes, class, upto - 1) + if classes[upto - 1] == class {
            1nat
        } else {
            0nat
        }
    }
}

/// How many edges of `edge_classes` carry `class`.
pub fn count_class(edge_classes: &Vec<BoundaryClass>, class: BoundaryClass) -> (count: usize)
    ensures
        count == class_count_upto(edge_classes@, class, edge_classes@.len() as int),
{
    let mut count: usize = 0;
    let mut edge: usize = 0;
    while edge < edge_classes.len()
        invariant
            edge <= edge_classes@.len(),
            count == class_count_upto(edge_classes@, class, edge as int),
            count <= edge,
        decreases edge_classes@.len() - edge,
    {
        if edge_classes[edge] == class {
            count += 1;
        }
        edge += 1;
    }
    count
}

/// Why boundary classification refused its inputs.
#[derive(Clone, Copy, Debug, PartialEq, Eq)]
pub enum BoundaryClassificationError {
    CellCountMismatch,
    PlateCountMismatch,
}

impl BoundaryClassificationError {
    pub open spec fn spec_message(self) -> Seq<char> {
        match self {
            BoundaryClassificationError::CellCountMismatch => "plate assignments must match the mesh cell count"@,
            BoundaryClassificationError::PlateCountMismatch => "plate count must match the available angular velocities"@,
        }
    }

    /// The sentence a viewer shows for this error.
    pub fn message(&self) -> (text: String)
        ensures
            text@ == self.spec_message(),
    {
        match self {
            BoundaryClassificationError::CellCountMismatch => String::from_str(
                "plate assignments must match the mesh cell count",
            ),
            BoundaryClassificationError::PlateCountMismatch => String::from_str(
                "plate count must match the available angular velocities",
            ),
        }
    }
}

/// Which side of a convergent edge carries the slab: the cell whose crust
/// ranks lower in the material order goes under, and two crusts of equal rank
/// pull neither plate.
#[derive(Clone, Copy, Debug, PartialEq, Eq, Structural)]
pub enum SlabSide {
    First,
    Second,
    Neither,
}

/// The plates either side of edge `e`.
pub open spec fn edge_plates(edge_cells: Seq<[usize; 2]>, cell_plates: Seq<usize>, e: int) -> (usize, usize) {
    (cell_plates[edge_cells[e][0] as int], cell_plates[edge_cells[e][1] as int])
}

/// Whether edge `e` separates two plates, one of them `plate`.
pub open spec fn bounds_plate(edge_cells: Seq<[usize; 2]>, cell_plates: Seq<usize>, e: int, plate: int) -> bool {
    let (a, b) = edge_plates(edge_cells, cell_plates, e);
    a != b && (a == plate || b == plate)
}

/// Whether edge `e` is a convergent boundary on which `plate` is the side
/// `sides` marks as going under.
pub open spec fn slab_of_plate(
    edge_cells: Seq<[usize; 2]>,
    cell_plates: Seq<usize>,
    classes: Seq<BoundaryClass>,
    sides: Seq<SlabSide>,
    e: int,
    plate: int,
) -> bool {
    let (a, b) = edge_plates(edge_cells, cell_plates, e);
    &&& a != b
    &&& classes[e] == BoundaryClass::Convergent
    &&& (sides[e] == SlabSide::First && a == plate || sides[e] == SlabSide::Second && b == plate)
}

/// How many of the first `upto` edges bound `plate`.
pub open spec fn boundary_edges_upto(edge_cells: Seq<[usize; 2]>, cell_plates: Seq<usize>, plate: int, upto: int) -> nat
    decreases upto,
{
    if upto <= 0 {
        0
    } else {
        boundary_edges_upto(edge_cells, cell_plates, plate, upto - 1) + if bounds_plate(
            edge_cells,
            cell_plates,
            upto - 1,
            plate,
        ) {
            1nat
        } else {
            0nat
        }
    }
}

/// How many of the first `upto` edges are slab of `plate`.
pub open spec fn slab_edges_upto(
    edge_cells: Seq<[usize; 2]>,
    cell_plates: Seq<usize>,
    classes: Seq<BoundaryClass>,
    sides: Seq<SlabSide>,
    plate: int,
    upto: int,
) -> nat
    decreases upto,
{
    if upto <= 0 {
        0
    } else {
        slab_edges_upto(edge_cells, cell_plates, classes, sides, plate, upto - 1) + if slab_of_plate(
            edge_cells,
            cell_plates,
            classes,
            sides,
            upto - 1,
            plate,
        ) {
            1nat
        } else {
            0nat
        }
    }
}

/// Only a convergent edge is ever slab: a ridge or a transform pulls no plate
/// down, whichever side ranks lower.
pub proof fn lemma_slab_edges_are_convergent_boundary_edges(
    edge_cells: Seq<[usize; 2]>,
    cell_plates: Seq<usize>,
    classes: Seq<BoundaryClass>,
    sides: Seq<SlabSide>,
    e: int,
    plate: int,
)
    ensures
        slab_of_plate(edge_cells, cell_plates, classes, sides, e, plate) ==> {
            &&& classes[e] == BoundaryClass::Convergent
            &&& cell_plates[edge_cells[e][0] as int] != cell_plates[edge_cells[e][1] as int]
            &&& bounds_plate(edge_cells, cell_plates, e, plate)
        },
{
}

/// With no convergent edge among the first `upto`, no plate has any slab.
pub proof fn lemma_no_convergence_no_slab(
    edge_cells: Seq<[usize; 2]>,
    cell_plates: Seq<usize>,
    classes: Seq<BoundaryClass>,
    sides: Seq<SlabSide>,
    plate: int,
    upto: int,
)
    requires
        forall|e: int| 0 <= e < upto ==> #[trigger] classes[e] != BoundaryClass::Convergent,
    ensures
        slab_edges_upto(edge_cells, cell_plates, classes, sides, plate, upto) == 0,
    decreases upto,
{
    if upto > 0 {
        assert(classes[upto - 1] != BoundaryClass::Convergent);
        lemma_no_convergence_no_slab(edge_cells, cell_plates, classes, sides, plate, upto - 1);
    }
}

/// The slab counts read an edge's class only for whether it is convergent:
/// relabelling a ridge as a transform, or either as interior, changes no
/// plate's slab.
pub proof fn lemma_slab_reads_only_convergence(
    edge_cells: Seq<[usize; 2]>,
    cell_plates: Seq<usize>,
    classes: Seq<BoundaryClass>,
    other_classes: Seq<BoundaryClass>,
    sides: Seq<SlabSide>,
    plate: int,
    upto: int,
)
    requires
        forall|e: int|
            0 <= e < upto ==> (#[trigger] classes[e] == BoundaryClass::Convergent) == (other_classes[e]
                == BoundaryClass::Convergent),
    ensures
        slab_edges_upto(edge_cells, cell_plates, classes, sides, plate, upto) == slab_edges_upto(
            edge_cells,
            cell_plates,
            other_classes,
            sides,
            plate,
            upto,
        ),
    decreases upto,
{
    if upto > 0 {
        assert((classes[upto - 1] == BoundaryClass::Convergent) == (other_classes[upto - 1]
            == BoundaryClass::Convergent));
        lemma_slab_reads_only_convergence(edge_cells, cell_plates, classes, other_classes, sides, plate, upto - 1);
    }
}

/// A plate's slab is part of its boundary: it never has more slab edges than
/// boundary edges.
pub proof fn lemma_slab_within_boundary(
    edge_cells: Seq<[usize; 2]>,
    cell_plates: Seq<usize>,
    classes: Seq<BoundaryClass>,
    sides: Seq<SlabSide>,
    plate: int,
    upto: int,
)
    ensures
        slab_edges_upto(edge_cells, cell_plates, classes, sides, plate, upto) <= boundary_edges_upto(
            edge_cells,
            cell_plates,
            plate,
            upto,
        ),
    decreases upto,
{
    if upto > 0 {
        lemma_slab_within_boundary(edge_cells, cell_plates, classes, sides, plate, upto - 1);
    }
}

/// What one more edge adds. A boundary edge adds one boundary edge to each of
/// its two plates and an interior edge adds none; a convergent boundary edge
/// adds one slab edge to the plate of the side that goes under — the first
/// cell's for `First`, the second cell's for `Second` — and `Neither` adds
/// none.
pub proof fn lemma_one_more_edge(
    edge_cells: Seq<[usize; 2]>,
    cell_plates: Seq<usize>,
    classes: Seq<BoundaryClass>,
    sides: Seq<SlabSide>,
    plate: int,
    e: int,
)
    requires
        0 <= e,
    ensures
        ({
            let a = cell_plates[edge_cells[e][0] as int];
            let b = cell_plates[edge_cells[e][1] as int];
            let boundary_added = boundary_edges_upto(edge_cells, cell_plates, plate, e + 1)
                - boundary_edges_upto(edge_cells, cell_plates, plate, e);
            let slab_added = slab_edges_upto(edge_cells, cell_plates, classes, sides, plate, e + 1)
                - slab_edges_upto(edge_cells, cell_plates, classes, sides, plate, e);
            &&& boundary_added == (if a != b && (a == plate || b == plate) { 1int } else { 0int })
            &&& a != b && classes[e] == BoundaryClass::Convergent && sides[e] == SlabSide::First
                ==> slab_added == (if a == plate { 1int } else { 0int })
            &&& a != b && classes[e] == BoundaryClass::Convergent && sides[e] == SlabSide::Second
                ==> slab_added == (if b == plate { 1int } else { 0int })
            &&& classes[e] != BoundaryClass::Convergent || sides[e] == SlabSide::Neither || a == b
                ==> slab_added == 0
        }),
{
}

/// For every plate, how many boundary edges it has and on how many
/// convergent ones it is the side that goes under; the ratio of the two is
/// the share of a plate's boundary that pulls it.
pub fn boundary_and_slab_counts(
    edge_cells: &Vec<[usize; 2]>,
    cell_plates: &Vec<usize>,
    edge_classes: &Vec<BoundaryClass>,
    slab_sides: &Vec<SlabSide>,
    plate_count: usize,
) -> (counts: (Vec<usize>, Vec<usize>))
    requires
        edge_classes@.len() == edge_cells@.len(),
        slab_sides@.len() == edge_cells@.len(),
        forall|e: int|
            0 <= e < edge_cells@.len() ==> (#[trigger] edge_cells@[e])[0] < cell_plates@.len()
                && edge_cells@[e][1] < cell_plates@.len(),
        forall|c: int| 0 <= c < cell_plates@.len() ==> #[trigger] cell_plates@[c] < plate_count,
    ensures
        counts.0@.len() == plate_count,
        counts.1@.len() == plate_count,
        forall|p: int|
            0 <= p < plate_count ==> #[trigger] counts.0@[p] == boundary_edges_upto(
                edge_cells@,
                cell_plates@,
                p,
                edge_cells@.len() as int,
            ),
        forall|p: int|
            0 <= p < plate_count ==> #[trigger] counts.1@[p] == slab_edges_upto(
                edge_cells@,
                cell_plates@,
                edge_classes@,
                slab_sides@,
                p,
                edge_cells@.len() as int,
            ),
        // A plate's slab is part of its boundary ...
        forall|p: int| 0 <= p < plate_count ==> #[trigger] counts.1@[p] <= counts.0@[p],
        // ... and with no convergent edge there is no slab at all.
        (forall|e: int| 0 <= e < edge_classes@.len() ==> #[trigger] edge_classes@[e] != BoundaryClass::Convergent)
            ==> forall|p: int| 0 <= p < plate_count ==> #[trigger] counts.1@[p] == 0,
{
    let mut boundary: Vec<usize> = vec![0; plate_count];
    let mut slab: Vec<usize> = vec![0; plate_count];
    let mut e: usize = 0;
    while e < edge_cells.len()
        invariant
            edge_classes@.len() == edge_cells@.len(),
            slab_sides@.len() == edge_cells@.len(),
            forall|i: int|
                0 <= i < edge_cells@.len() ==> (#[trigger] edge_cells@[i])[0] < cell_plates@.len()
                    && edge_cells@[i][1] < cell_plates@.len(),
            forall|c: int| 0 <= c < cell_plates@.len() ==> #[trigger] cell_plates@[c] < plate_count,
            e <= edge_cells@.len(),
            boundary@.len() == plate_count,
            slab@.len() == plate_count,
            forall|p: int|
                0 <= p < plate_count ==> #[trigger] boundary@[p] == boundary_edges_upto(
                    edge_cells@,
                    cell_plates@,
                    p,
                    e as int,
                ) && boundary@[p] <= e,
            forall|p: int|
                0 <= p < plate_count ==> #[trigger] slab@[p] == slab_edges_upto(
                    edge_cells@,
                    cell_plates@,
                    edge_classes@,
                    slab_sides@,
                    p,
                    e as int,
                ) && slab@[p] <= e,
        decreases edge_cells@.len() - e,
    {
        let cells = edge_cells[e];
        let a = cell_plates[cells[0]];
        let b = cell_plates[cells[1]];
        let ghost old_boundary = boundary@;
        let ghost old_slab = slab@;
        if a != b {
            let count_a = boundary[a];
            boundary.set(a, count_a + 1);
            let count_b = boundary[b];
            boundary.set(b, count_b + 1);
            if edge_classes[e] == BoundaryClass::Convergent {
                match slab_sides[e] {
                    SlabSide::First => {
                        let count = slab[a];
                        slab.set(a, count + 1);
                    },
                    SlabSide::Second => {
                        let count = slab[b];
                        slab.set(b, count + 1);
                    },
                    SlabSide::Neither => {},
                }
            }
        }
        proof {
            assert forall|p: int| 0 <= p < plate_count implies #[trigger] boundary@[p] == boundary_edges_upto(
                edge_cells@,
                cell_plates@,
                p,
                e + 1,
            ) && boundary@[p] <= e + 1 by {
                assert(old_boundary[p] == boundary_edges_upto(edge_cells@, cell_plates@, p, e as int));
            }
            assert forall|p: int| 0 <= p < plate_count implies #[trigger] slab@[p] == slab_edges_upto(
                edge_cells@,
                cell_plates@,
                edge_classes@,
                slab_sides@,
                p,
                e + 1,
            ) && slab@[p] <= e + 1 by {
                assert(old_slab[p] == slab_edges_upto(
                    edge_cells@,
                    cell_plates@,
                    edge_classes@,
                    slab_sides@,
                    p,
                    e as int,
                ));
            }
        }
        e += 1;
    }
    proof {
        assert forall|p: int| 0 <= p < plate_count implies #[trigger] slab@[p] <= boundary@[p] by {
            lemma_slab_within_boundary(edge_cells@, cell_plates@, edge_classes@, slab_sides@, p, e as int);
        }
        if forall|i: int| 0 <= i < edge_classes@.len() ==> #[trigger] edge_classes@[i] != BoundaryClass::Convergent {
            assert forall|p: int| 0 <= p < plate_count implies #[trigger] slab@[p] == 0 by {
                lemma_no_convergence_no_slab(edge_cells@, cell_plates@, edge_classes@, slab_sides@, p, e as int);
            }
        }
    }
    (boundary, slab)
}

/// The first count classification finds wrong: one owner per mesh cell, then
/// one rotation per plate.
pub fn check_classification_inputs(
    owner_count: usize,
    cell_count: usize,
    plate_count: usize,
    rotation_count: usize,
) -> (result: Result<(), BoundaryClassificationError>)
    ensures
        result == (if owner_count != cell_count {
            Err(BoundaryClassificationError::CellCountMismatch)
        } else if plate_count != rotation_count {
            Err(BoundaryClassificationError::PlateCountMismatch)
        } else {
            Ok(())
        }),
{
    if owner_count != cell_count {
        return Err(BoundaryClassificationError::CellCountMismatch);
    }
    if plate_count != rotation_count {
        return Err(BoundaryClassificationError::PlateCountMismatch);
    }
    Ok(())
}

} // verus!
