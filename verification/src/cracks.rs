//! The combinatorial half of the crack pattern that gives the partition its
//! primary boundaries.
//!
//! Arcs walk the mesh and every cell they pass through becomes a wall; the
//! walk itself is geometry, but what a step claims, how a wall cell joins the
//! face beside it, how a face too small or too thin merges into a neighbour,
//! and how the surviving faces are numbered are decided here on cell ids.

use crate::topology::MeshTopology;
use core::ops::ControlFlow;
use vstd::prelude::*;

verus! {

/// A per-cell face assignment covering every mesh cell.
#[derive(Clone, Debug, PartialEq, Eq)]
pub struct CrackFaces {
    pub cell_faces: Vec<usize>,
    pub face_count: usize,
}

/// One arc's wall as it is built: the cells entered in walk order, which
/// cells the walk has entered, and which it may enter at all.
pub struct Wall {
    pub cells: Vec<usize>,
    pub entered: Vec<bool>,
    pub allowed: Vec<bool>,
}

impl Wall {
    /// `entered` marks exactly the cells of `cells`, each once.
    pub open spec fn wf(&self) -> bool {
        &&& self.entered@.len() == self.allowed@.len()
        &&& forall|i: int| 0 <= i < self.cells@.len() ==> #[trigger] self.cells@[i] < self.entered@.len()
        &&& forall|i: int|
            0 <= i < self.cells@.len() ==> self.entered@[#[trigger] self.cells@[i] as int]
        &&& forall|c: int|
            0 <= c < self.entered@.len() && #[trigger] self.entered@[c] ==> self.cells@.contains(
                c as usize,
            )
        &&& forall|i: int, j: int|
            0 <= i < self.cells@.len() && 0 <= j < self.cells@.len() && i != j ==> self.cells@[i]
                != self.cells@[j]
    }

    /// A wall holding only the cell an arc starts from, which the walk may
    /// enter cells of `allowed` from.
    pub fn starting_at(start: usize, allowed: Vec<bool>) -> (wall: Self)
        requires
            start < allowed@.len(),
        ensures
            wall.wf(),
            wall.cells@ == seq![start],
            wall.allowed == allowed,
    {
        let mut entered = vec![false; allowed.len()];
        entered.set(start, true);
        let wall = Wall { cells: vec![start], entered, allowed };
        assert(wall.cells@[0] == start);
        wall
    }

    /// Adds `cell` to the wall. A cell already on the wall is passed over, so
    /// an arc that curves back over itself carries on; a cell the walk may
    /// not enter breaks the direction off.
    pub fn claim(&mut self, cell: usize) -> (flow: ControlFlow<()>)
        requires
            old(self).wf(),
            cell < old(self).entered@.len(),
        ensures
            final(self).wf(),
            final(self).allowed == old(self).allowed,
            old(self).entered@[cell as int] ==> flow == ControlFlow::<()>::Continue(())
                && final(self).cells@ == old(self).cells@,
            !old(self).entered@[cell as int] && !old(self).allowed@[cell as int] ==> flow
                == ControlFlow::<()>::Break(()) && final(self).cells@ == old(self).cells@,
            !old(self).entered@[cell as int] && old(self).allowed@[cell as int] ==> flow
                == ControlFlow::<()>::Continue(()) && final(self).cells@ == old(self).cells@.push(
                cell,
            ),
            final(self).entered@ == (if !old(self).entered@[cell as int]
                && old(self).allowed@[cell as int] {
                old(self).entered@.update(cell as int, true)
            } else {
                old(self).entered@
            }),
    {
        if self.entered[cell] {
            return ControlFlow::Continue(());
        }
        if !self.allowed[cell] {
            return ControlFlow::Break(());
        }
        let ghost before = self.cells@;
        self.entered.set(cell, true);
        self.cells.push(cell);
        proof {
            assert(self.cells@[before.len() as int] == cell);
            assert forall|c: int|
                0 <= c < self.entered@.len() && #[trigger] self.entered@[c] implies self.cells@.contains(
                c as usize,
            ) by {
                if c != cell {
                    let i = choose|i: int| 0 <= i < before.len() && before[i] == c as usize;
                    assert(self.cells@[i] == c as usize);
                }
            }
            assert forall|i: int, j: int|
                0 <= i < self.cells@.len() && 0 <= j < self.cells@.len() && i != j implies self.cells@[i]
                != self.cells@[j] by {
                if i < before.len() && j == before.len() {
                    assert(self.entered@[before[i] as int]);
                } else if j < before.len() && i == before.len() {
                    assert(self.entered@[before[j] as int]);
                }
            }
        }
        ControlFlow::Continue(())
    }
}

/// What claiming `cell` leaves of a wall's cells and entered marks, and
/// whether the walk goes on: a cell already on the wall is passed over, a
/// cell the walk may not enter stops it, and any other joins the wall.
pub open spec fn after_claim(cells: Seq<usize>, entered: Seq<bool>, allowed: Seq<bool>, cell: int) -> (
    Seq<usize>,
    Seq<bool>,
    bool,
) {
    if entered[cell] {
        (cells, entered, true)
    } else if !allowed[cell] {
        (cells, entered, false)
    } else {
        (cells.push(cell as usize), entered.update(cell, true), true)
    }
}

/// Among the first `upto` corner neighbours of `previous`, the first that is
/// a corner neighbour of `cell`.
pub open spec fn first_bridge(mesh: MeshTopology, previous: int, cell: int, upto: int) -> Option<usize>
    decreases upto,
{
    if upto <= 0 {
        None
    } else {
        match first_bridge(mesh, previous, cell, upto - 1) {
            Some(b) => Some(b),
            None => if mesh.adjacent(mesh.corner(previous, upto - 1).neighbor as int, cell) {
                Some(mesh.corner(previous, upto - 1).neighbor)
            } else {
                None
            },
        }
    }
}

/// What one walk step from `previous` to `cell` leaves of a wall, and
/// whether the walk goes on: a neighbouring cell is claimed directly; a cell
/// further off is reached through the first neighbour of `previous` that
/// borders it, which is claimed first, and a step nothing bridges ends the
/// direction.
pub open spec fn after_step(
    mesh: MeshTopology,
    previous: int,
    cell: int,
    cells: Seq<usize>,
    entered: Seq<bool>,
    allowed: Seq<bool>,
) -> (Seq<usize>, Seq<bool>, bool) {
    if mesh.adjacent(previous, cell) {
        after_claim(cells, entered, allowed, cell)
    } else {
        match first_bridge(mesh, previous, cell, mesh.degree(previous) as int) {
            None => (cells, entered, false),
            Some(b) => {
                let (bridged, marked, go) = after_claim(cells, entered, allowed, b as int);
                if go {
                    after_claim(bridged, marked, allowed, cell)
                } else {
                    (bridged, marked, false)
                }
            },
        }
    }
}

/// The first corner neighbour of `previous`, in corner order, that shares an
/// edge with `cell`.
fn bridging_neighbor(mesh: &MeshTopology, previous: usize, cell: usize) -> (between: Option<usize>)
    requires
        mesh.wf(),
        previous < mesh.cells(),
        cell < mesh.cells(),
    ensures
        between == first_bridge(*mesh, previous as int, cell as int, mesh.degree(previous as int) as int),
        match between {
            Some(b) => b < mesh.cells() && exists|k: int|
                0 <= k < mesh.degree(previous as int) && mesh.corner(previous as int, k).neighbor
                    == b && mesh.adjacent(b as int, cell as int),
            None => forall|k: int|
                0 <= k < mesh.degree(previous as int) ==> !mesh.adjacent(
                    #[trigger] mesh.corner(previous as int, k).neighbor as int,
                    cell as int,
                ),
        },
{
    let corners = &mesh.cell_corners[previous];
    let mut k: usize = 0;
    while k < corners.len()
        invariant
            mesh.wf(),
            previous < mesh.cells(),
            cell < mesh.cells(),
            corners@ == mesh.cell_corners@[previous as int]@,
            k <= corners@.len(),
            forall|j: int|
                0 <= j < k ==> !mesh.adjacent(
                    #[trigger] mesh.corner(previous as int, j).neighbor as int,
                    cell as int,
                ),
            first_bridge(*mesh, previous as int, cell as int, k as int) is None,
        decreases corners@.len() - k,
    {
        let neighbor = corners[k].neighbor;
        assert(neighbor == mesh.corner(previous as int, k as int).neighbor);
        if mesh.are_adjacent(neighbor, cell) {
            proof {
                lemma_first_bridge_settles(*mesh, previous as int, cell as int, k as int + 1, mesh.degree(previous as int) as int);
            }
            return Some(neighbor);
        }
        k += 1;
    }
    None
}

/// Once some neighbour bridges, looking at more corners finds the same one.
proof fn lemma_first_bridge_settles(mesh: MeshTopology, previous: int, cell: int, found: int, upto: int)
    requires
        0 <= found <= upto,
        first_bridge(mesh, previous, cell, found) is Some,
    ensures
        first_bridge(mesh, previous, cell, upto) == first_bridge(mesh, previous, cell, found),
    decreases upto - found,
{
    if upto > found {
        lemma_first_bridge_settles(mesh, previous, cell, found, upto - 1);
    }
}

/// Claims every cell one walk step entered: `cell`, and first the neighbour
/// of `previous` that bridges to it when the step skipped a cell, so the wall
/// stays connected. Breaks when the step cannot be bridged or reached a cell
/// the walk may not enter, either of which ends the direction.
pub fn claim_step(mesh: &MeshTopology, previous: usize, cell: usize, wall: &mut Wall) -> (flow:
    ControlFlow<()>)
    requires
        mesh.wf(),
        previous < mesh.cells(),
        cell < mesh.cells(),
        old(wall).wf(),
        old(wall).entered@.len() == mesh.cells(),
    ensures
        final(wall).wf(),
        final(wall).allowed == old(wall).allowed,
        // What the step claimed extends the wall, and every claimed cell is
        // one the walk may enter.
        old(wall).cells@.len() <= final(wall).cells@.len() <= old(wall).cells@.len() + 2,
        final(wall).cells@.subrange(0, old(wall).cells@.len() as int) == old(wall).cells@,
        forall|i: int|
            old(wall).cells@.len() <= i < final(wall).cells@.len() ==> old(wall).allowed@[
            #[trigger] final(wall).cells@[i] as int],
        // A direct step claims the cell itself.
        mesh.adjacent(previous as int, cell as int) ==> (flow == ControlFlow::<()>::Continue(())
            <==> (old(wall).entered@[cell as int] || old(wall).allowed@[cell as int])),
        // A step no neighbour of `previous` bridges ends the direction.
        !mesh.adjacent(previous as int, cell as int) && (forall|k: int|
            0 <= k < mesh.degree(previous as int) ==> !mesh.adjacent(
                #[trigger] mesh.corner(previous as int, k).neighbor as int,
                cell as int,
            )) ==> flow == ControlFlow::<()>::Break(()) && final(wall).cells@ == old(wall).cells@,
        flow == ControlFlow::<()>::Continue(()) ==> final(wall).entered@[cell as int],
        // Exactly: the step's outcome.
        (final(wall).cells@, final(wall).entered@, flow == ControlFlow::<()>::Continue(()))
            == after_step(
            *mesh,
            previous as int,
            cell as int,
            old(wall).cells@,
            old(wall).entered@,
            old(wall).allowed@,
        ),
{
    if !mesh.are_adjacent(previous, cell) {
        match bridging_neighbor(mesh, previous, cell) {
            Some(between) => {
                match wall.claim(between) {
                    ControlFlow::Break(()) => {
                        return ControlFlow::Break(());
                    },
                    ControlFlow::Continue(()) => {},
                }
            },
            None => {
                return ControlFlow::Break(());
            },
        }
    }
    let ghost middle = wall.cells@;
    let flow = wall.claim(cell);
    proof {
        assert(wall.cells@.subrange(0, middle.len() as int) == middle);
    }
    flow
}


/// How many of the first `upto` corners of `cell` lead to a cell of `face`.
pub open spec fn shared_upto(
    mesh: MeshTopology,
    faces: Seq<Option<usize>>,
    cell: int,
    face: usize,
    upto: int,
) -> nat
    decreases upto,
{
    if upto <= 0 {
        0
    } else {
        shared_upto(mesh, faces, cell, face, upto - 1) + if faces[mesh.corner(
            cell,
            upto - 1,
        ).neighbor as int] == Some(face) {
            1nat
        } else {
            0nat
        }
    }
}

/// How many edges `cell` shares with cells of `face`.
pub open spec fn shared_edges(
    mesh: MeshTopology,
    faces: Seq<Option<usize>>,
    cell: int,
    face: usize,
) -> nat {
    shared_upto(mesh, faces, cell, face, mesh.degree(cell) as int)
}

/// Whether `face` is the one `cell` joins: some neighbour holds it, and no
/// neighbouring face shares more edges with the cell, or as many with a
/// lower id.
pub open spec fn is_adopting_face(
    mesh: MeshTopology,
    faces: Seq<Option<usize>>,
    cell: int,
    face: usize,
) -> bool {
    &&& shared_edges(mesh, faces, cell, face) > 0
    &&& forall|other: usize|
        other != face && #[trigger] shared_edges(mesh, faces, cell, other) > 0 ==> shared_edges(
            mesh,
            faces,
            cell,
            other,
        ) < shared_edges(mesh, faces, cell, face) || (shared_edges(mesh, faces, cell, other)
            == shared_edges(mesh, faces, cell, face) && face < other)
}

/// Whether some neighbour of `cell` belongs to a face.
pub open spec fn touches_a_face(mesh: MeshTopology, faces: Seq<Option<usize>>, cell: int) -> bool {
    exists|k: int| 0 <= k < mesh.degree(cell) && (#[trigger] faces[mesh.corner(cell, k).neighbor as int]) is Some
}

/// One adoption round: every eligible unassigned cell that touches a face
/// joins the face it shares the most edges with, ties to the lower id, all
/// read from the assignment the round starts from.
pub open spec fn adoption_round(
    mesh: MeshTopology,
    eligible: Seq<bool>,
    faces: Seq<Option<usize>>,
) -> Seq<Option<usize>> {
    Seq::new(
        faces.len(),
        |c: int|
            if faces[c] is None && eligible[c] && touches_a_face(mesh, faces, c) {
                Some(choose|face: usize| is_adopting_face(mesh, faces, c, face))
            } else {
                faces[c]
            },
    )
}

/// The assignment after `rounds` adoption rounds.
pub open spec fn adoption_rounds(
    mesh: MeshTopology,
    eligible: Seq<bool>,
    faces: Seq<Option<usize>>,
    rounds: nat,
) -> Seq<Option<usize>>
    decreases rounds,
{
    if rounds == 0 {
        faces
    } else {
        adoption_round(mesh, eligible, adoption_rounds(mesh, eligible, faces, (rounds - 1) as nat))
    }
}

/// Cells among the first `upto` that hold no face.
pub open spec fn unassigned_upto(faces: Seq<Option<usize>>, upto: int) -> nat
    decreases upto,
{
    if upto <= 0 {
        0
    } else {
        unassigned_upto(faces, upto - 1) + if faces[upto - 1] is None {
            1nat
        } else {
            0nat
        }
    }
}

pub proof fn lemma_shared_positive_has_corner(
    mesh: MeshTopology,
    faces: Seq<Option<usize>>,
    cell: int,
    face: usize,
    upto: int,
)
    requires
        shared_upto(mesh, faces, cell, face, upto) > 0,
    ensures
        exists|k: int| 0 <= k < upto && faces[mesh.corner(cell, k).neighbor as int] == Some(face),
    decreases upto,
{
    if upto > 0 {
        if faces[mesh.corner(cell, upto - 1).neighbor as int] != Some(face) {
            lemma_shared_positive_has_corner(mesh, faces, cell, face, upto - 1);
        }
    }
}

pub proof fn lemma_corner_makes_shared_positive(
    mesh: MeshTopology,
    faces: Seq<Option<usize>>,
    cell: int,
    face: usize,
    k: int,
    upto: int,
)
    requires
        0 <= k < upto,
        faces[mesh.corner(cell, k).neighbor as int] == Some(face),
    ensures
        shared_upto(mesh, faces, cell, face, upto) > 0,
    decreases upto,
{
    if k < upto - 1 {
        lemma_corner_makes_shared_positive(mesh, faces, cell, face, k, upto - 1);
    }
}

/// A round only ever assigns, so it never adds an unassigned cell, and it
/// removes one for every cell it assigns.
proof fn lemma_round_shrinks_unassigned(before: Seq<Option<usize>>, after: Seq<Option<usize>>, upto: int)
    requires
        before.len() == after.len(),
        0 <= upto <= before.len(),
        forall|c: int| 0 <= c < before.len() && (#[trigger] after[c]) is None ==> before[c] is None,
    ensures
        unassigned_upto(after, upto) <= unassigned_upto(before, upto),
        (exists|c: int| 0 <= c < upto && before[c] is None && (#[trigger] after[c]) is Some)
            ==> unassigned_upto(after, upto) < unassigned_upto(before, upto),
    decreases upto,
{
    if upto > 0 {
        lemma_round_shrinks_unassigned(before, after, upto - 1);
        if exists|c: int| 0 <= c < upto && before[c] is None && (#[trigger] after[c]) is Some {
            let c = choose|c: int| 0 <= c < upto && before[c] is None && (#[trigger] after[c]) is Some;
            if c < upto - 1 {
            }
        }
    }
}

/// How many edges `cell` shares with cells of `face`.
fn count_shared(mesh: &MeshTopology, faces: &Vec<Option<usize>>, cell: usize, face: usize) -> (count:
    usize)
    requires
        mesh.wf(),
        cell < mesh.cells(),
        faces@.len() == mesh.cells(),
    ensures
        count == shared_edges(*mesh, faces@, cell as int, face),
{
    let corners = &mesh.cell_corners[cell];
    let mut count: usize = 0;
    let mut k: usize = 0;
    while k < corners.len()
        invariant
            mesh.wf(),
            cell < mesh.cells(),
            faces@.len() == mesh.cells(),
            corners@ == mesh.cell_corners@[cell as int]@,
            k <= corners@.len(),
            count == shared_upto(*mesh, faces@, cell as int, face, k as int),
            count <= k,
        decreases corners@.len() - k,
    {
        assert(corners@[k as int] == mesh.corner(cell as int, k as int));
        if faces[corners[k].neighbor] == Some(face) {
            count += 1;
        }
        k += 1;
    }
    count
}

/// The face `cell` joins, if any neighbour holds one.
fn adopting_face(mesh: &MeshTopology, faces: &Vec<Option<usize>>, cell: usize) -> (adopted: Option<
    usize,
>)
    requires
        mesh.wf(),
        cell < mesh.cells(),
        faces@.len() == mesh.cells(),
    ensures
        match adopted {
            Some(face) => touches_a_face(*mesh, faces@, cell as int) && is_adopting_face(
                *mesh,
                faces@,
                cell as int,
                face,
            ),
            None => !touches_a_face(*mesh, faces@, cell as int),
        },
{
    let ghost m = *mesh;
    let corners = &mesh.cell_corners[cell];
    let mut best: Option<(usize, usize)> = None;
    let mut k: usize = 0;
    while k < corners.len()
        invariant
            mesh.wf(),
            m == *mesh,
            cell < mesh.cells(),
            faces@.len() == mesh.cells(),
            corners@ == mesh.cell_corners@[cell as int]@,
            k <= corners@.len(),
            match best {
                Some((face, count)) => {
                    &&& count == shared_edges(m, faces@, cell as int, face)
                    &&& count > 0
                    &&& exists|j: int|
                        0 <= j < k && faces@[m.corner(cell as int, j).neighbor as int] == Some(face)
                    &&& forall|j: int|
                        0 <= j < k && (#[trigger] faces@[m.corner(cell as int, j).neighbor as int]) is Some
                            ==> {
                            let other = faces@[m.corner(cell as int, j).neighbor as int]->Some_0;
                            other == face || shared_edges(m, faces@, cell as int, other) < count || (
                            shared_edges(m, faces@, cell as int, other) == count && face < other)
                        }
                },
                None => forall|j: int|
                    0 <= j < k ==> (#[trigger] faces@[m.corner(cell as int, j).neighbor as int]) is None,
            },
        decreases corners@.len() - k,
    {
        assert(corners@[k as int] == m.corner(cell as int, k as int));
        let neighbor = corners[k].neighbor;
        match faces[neighbor] {
            Some(face) => {
                let count = count_shared(mesh, faces, cell, face);
                proof {
                    lemma_corner_makes_shared_positive(
                        m,
                        faces@,
                        cell as int,
                        face,
                        k as int,
                        m.degree(cell as int) as int,
                    );
                }
                let better = match best {
                    None => true,
                    Some((best_face, best_count)) => count > best_count || (count == best_count
                        && face < best_face),
                };
                if better {
                    best = Some((face, count));
                }
            },
            None => {},
        }
        k += 1;
    }
    match best {
        Some((face, count)) => {
            proof {
                let j = choose|j: int|
                    0 <= j < corners@.len() && faces@[m.corner(cell as int, j).neighbor as int]
                        == Some(face);
                assert((faces@[m.corner(cell as int, j).neighbor as int]) is Some);
                assert forall|other: usize|
                    other != face && #[trigger] shared_edges(m, faces@, cell as int, other)
                        > 0 implies shared_edges(m, faces@, cell as int, other) < shared_edges(
                    m,
                    faces@,
                    cell as int,
                    face,
                ) || (shared_edges(m, faces@, cell as int, other) == shared_edges(
                    m,
                    faces@,
                    cell as int,
                    face,
                ) && face < other) by {
                    lemma_shared_positive_has_corner(
                        m,
                        faces@,
                        cell as int,
                        other,
                        m.degree(cell as int) as int,
                    );
                    let i = choose|i: int|
                        0 <= i < m.degree(cell as int) && faces@[m.corner(cell as int, i).neighbor as int]
                            == Some(other);
                    assert((faces@[m.corner(cell as int, i).neighbor as int]) is Some);
                }
            }
            Some(face)
        },
        None => None,
    }
}

/// Unassigned cells join the neighbouring face they share the most edges
/// with, round after round, until a round assigns nothing. Ties go to the
/// lower face id. Cells `eligible` rejects are left alone, which is how a rift
/// confines the adoption to the plate it is splitting; a cell no face ever
/// reaches keeps `None`.
pub fn adopt_unassigned_cells(
    mesh: &MeshTopology,
    cell_faces: &mut Vec<Option<usize>>,
    eligible: &Vec<bool>,
)
    requires
        mesh.wf(),
        old(cell_faces)@.len() == mesh.cells(),
        eligible@.len() == mesh.cells(),
    ensures
        exists|rounds: nat|
            final(cell_faces)@ == adoption_rounds(*mesh, eligible@, old(cell_faces)@, rounds),
        adoption_round(*mesh, eligible@, final(cell_faces)@) == final(cell_faces)@,
{
    let ghost start = cell_faces@;
    let ghost mut rounds: nat = 0;
    loop
        invariant
            mesh.wf(),
            cell_faces@.len() == mesh.cells(),
            eligible@.len() == mesh.cells(),
            cell_faces@ == adoption_rounds(*mesh, eligible@, start, rounds),
            start == old(cell_faces)@,
        decreases unassigned_upto(cell_faces@, cell_faces@.len() as int),
    {
        let ghost before = cell_faces@;
        let ghost round = adoption_round(*mesh, eligible@, before);
        let mut next = cell_faces.clone();
        let mut changed = false;
        let mut cell: usize = 0;
        while cell < mesh.cell_count()
            invariant
                mesh.wf(),
                cell_faces@ == before,
                before.len() == mesh.cells(),
                eligible@.len() == mesh.cells(),
                round == adoption_round(*mesh, eligible@, before),
                next@.len() == mesh.cells(),
                cell <= mesh.cells(),
                forall|c: int| 0 <= c < cell ==> #[trigger] next@[c] == round[c],
                forall|c: int| cell <= c < mesh.cells() ==> #[trigger] next@[c] == before[c],
                changed <==> exists|c: int| 0 <= c < cell && #[trigger] round[c] != before[c],
            decreases mesh.cells() - cell,
        {
            if cell_faces[cell].is_none() && eligible[cell] {
                match adopting_face(mesh, cell_faces, cell) {
                    Some(face) => {
                        next.set(cell, Some(face));
                        changed = true;
                        proof {
                            assert(round[cell as int] == Some(
                                choose|f: usize| is_adopting_face(*mesh, before, cell as int, f),
                            ));
                            lemma_adopting_face_unique(*mesh, before, cell as int, face);
                            assert(round[cell as int] != before[cell as int]);
                        }
                    },
                    None => {},
                }
            }
            cell += 1;
        }
        proof {
            assert(next@ =~= round);
            lemma_round_shrinks_unassigned(before, round, before.len() as int);
            rounds = rounds + 1;
        }
        *cell_faces = next;
        assert(cell_faces@ == adoption_rounds(*mesh, eligible@, start, rounds));
        if !changed {
            assert(round =~= before);
            assert(start == old(cell_faces)@);
            return;
        }
    }
}

/// The face a cell adopts is the only one that qualifies.
proof fn lemma_adopting_face_unique(mesh: MeshTopology, faces: Seq<Option<usize>>, cell: int, face: usize)
    requires
        is_adopting_face(mesh, faces, cell, face),
    ensures
        (choose|f: usize| is_adopting_face(mesh, faces, cell, f)) == face,
{
    let chosen = choose|f: usize| is_adopting_face(mesh, faces, cell, f);
    assert(is_adopting_face(mesh, faces, cell, chosen));
    if chosen != face {
        assert(shared_edges(mesh, faces, cell, chosen) > 0);
        assert(shared_edges(mesh, faces, cell, face) > 0);
    }
}

/// How many of the first `upto` edges run between a cell of face `small` and
/// a cell of face `other`, a different face.
pub open spec fn edges_between_upto(
    mesh: MeshTopology,
    faces: Seq<usize>,
    small: usize,
    other: usize,
    upto: int,
) -> nat
    decreases upto,
{
    if upto <= 0 {
        0
    } else {
        let cells = mesh.edge_cells@[upto - 1];
        let left = faces[cells[0] as int];
        let right = faces[cells[1] as int];
        edges_between_upto(mesh, faces, small, other, upto - 1) + if other != small && ((left
            == small && right == other) || (left == other && right == small)) {
            1nat
        } else {
            0nat
        }
    }
}

/// How many edges face `small` shares with face `other`.
pub open spec fn edges_between(
    mesh: MeshTopology,
    faces: Seq<usize>,
    small: usize,
    other: usize,
) -> nat {
    edges_between_upto(mesh, faces, small, other, mesh.edges() as int)
}

/// Whether `target` is the face `small` merges into: the neighbouring face it
/// shares the most edges with, ties to the lower id.
pub open spec fn is_merge_target(
    mesh: MeshTopology,
    faces: Seq<usize>,
    small: usize,
    target: usize,
    face_count: int,
) -> bool {
    &&& target < face_count
    &&& edges_between(mesh, faces, small, target) > 0
    &&& forall|other: usize|
        other < face_count && other != target && #[trigger] edges_between(mesh, faces, small, other)
            > 0 ==> edges_between(mesh, faces, small, other) < edges_between(
            mesh,
            faces,
            small,
            target,
        ) || (edges_between(mesh, faces, small, other) == edges_between(mesh, faces, small, target)
            && target < other)
}

/// Whether every cell names a face below `face_count`.
pub open spec fn faces_in_range(faces: Seq<usize>, face_count: int) -> bool {
    forall|c: int| 0 <= c < faces.len() ==> #[trigger] faces[c] < face_count
}

/// The face that face `small` merges into: the neighbour it shares the most
/// edges with, ties to the lower id. `None` means `small` has no neighbour,
/// so it is the only face left and stays.
pub fn merge_target(mesh: &MeshTopology, cell_faces: &Vec<usize>, small: usize, face_count: usize) -> (target:
    Option<usize>)
    requires
        mesh.wf(),
        cell_faces@.len() == mesh.cells(),
        faces_in_range(cell_faces@, face_count as int),
    ensures
        match target {
            Some(t) => is_merge_target(*mesh, cell_faces@, small, t, face_count as int),
            None => forall|other: usize|
                other < face_count ==> #[trigger] edges_between(*mesh, cell_faces@, small, other)
                    == 0,
        },
{
    let ghost m = *mesh;
    let mut shared: Vec<usize> = vec![0; face_count];
    let mut edge: usize = 0;
    while edge < mesh.edge_count()
        invariant
            mesh.wf(),
            m == *mesh,
            cell_faces@.len() == mesh.cells(),
            faces_in_range(cell_faces@, face_count as int),
            shared@.len() == face_count,
            edge <= mesh.edges(),
            forall|f: int|
                0 <= f < face_count ==> #[trigger] shared@[f] == edges_between_upto(
                    m,
                    cell_faces@,
                    small,
                    f as usize,
                    edge as int,
                ),
            forall|f: int| 0 <= f < face_count ==> #[trigger] shared@[f] <= edge,
        decreases mesh.edges() - edge,
    {
        let cells = mesh.edge_cells[edge];
        let left = cell_faces[cells[0]];
        let right = cell_faces[cells[1]];
        let neighbor: Option<usize> = if left == small && right != small {
            Some(right)
        } else if left != small && right == small {
            Some(left)
        } else {
            None
        };
        if let Some(neighbor) = neighbor {
            shared.set(neighbor, shared[neighbor] + 1);
        }
        edge += 1;
    }
    let mut best: Option<usize> = None;
    let mut face: usize = 0;
    while face < face_count
        invariant
            shared@.len() == face_count,
            face <= face_count,
            forall|f: int|
                0 <= f < face_count ==> #[trigger] shared@[f] == edges_between(
                    m,
                    cell_faces@,
                    small,
                    f as usize,
                ),
            match best {
                Some(t) => {
                    &&& t < face
                    &&& shared@[t as int] > 0
                    &&& forall|f: int|
                        0 <= f < face && f != t && #[trigger] shared@[f] > 0 ==> shared@[f]
                            < shared@[t as int] || (shared@[f] == shared@[t as int] && t < f)
                },
                None => forall|f: int| 0 <= f < face ==> #[trigger] shared@[f] == 0,
            },
        decreases face_count - face,
    {
        if shared[face] > 0 {
            match best {
                None => {
                    best = Some(face);
                },
                Some(t) => {
                    if shared[face] > shared[t] {
                        best = Some(face);
                    }
                },
            }
        }
        face += 1;
    }
    proof {
        match best {
            Some(t) => {
                assert forall|other: usize|
                    other < face_count && other != t && #[trigger] edges_between(
                        m,
                        cell_faces@,
                        small,
                        other,
                    ) > 0 implies edges_between(m, cell_faces@, small, other) < edges_between(
                    m,
                    cell_faces@,
                    small,
                    t,
                ) || (edges_between(m, cell_faces@, small, other) == edges_between(
                    m,
                    cell_faces@,
                    small,
                    t,
                ) && t < other) by {
                    assert(shared@[other as int] > 0);
                }
            },
            None => {
                assert forall|other: usize| other < face_count implies #[trigger] edges_between(
                    m,
                    cell_faces@,
                    small,
                    other,
                ) == 0 by {
                    assert(shared@[other as int] == 0);
                }
            },
        }
    }
    best
}

/// Moves every cell of face `from` to face `to`.
pub fn relabel_face(cell_faces: &mut Vec<usize>, from: usize, to: usize)
    ensures
        final(cell_faces)@.len() == old(cell_faces)@.len(),
        forall|c: int|
            0 <= c < old(cell_faces)@.len() ==> #[trigger] final(cell_faces)@[c] == if old(
                cell_faces,
            )@[c] == from {
                to
            } else {
                old(cell_faces)@[c]
            },
{
    let mut cell: usize = 0;
    while cell < cell_faces.len()
        invariant
            cell_faces@.len() == old(cell_faces)@.len(),
            cell <= cell_faces@.len(),
            forall|c: int|
                0 <= c < cell ==> #[trigger] cell_faces@[c] == if old(cell_faces)@[c] == from {
                    to
                } else {
                    old(cell_faces)@[c]
                },
            forall|c: int| cell <= c < cell_faces@.len() ==> #[trigger] cell_faces@[c] == old(
                cell_faces,
            )@[c],
        decreases cell_faces@.len() - cell,
    {
        if cell_faces[cell] == from {
            cell_faces.set(cell, to);
        }
        cell += 1;
    }
}

/// Renumbers the faces `0..count` in the order each first appears over the
/// cells, and returns `count`. Two cells share a face after exactly when
/// they did before.
pub fn compact_ids(cell_faces: &mut Vec<usize>, face_count: usize) -> (count: usize)
    requires
        faces_in_range(old(cell_faces)@, face_count as int),
    ensures
        final(cell_faces)@.len() == old(cell_faces)@.len(),
        count <= face_count,
        faces_in_range(final(cell_faces)@, count as int),
        forall|a: int, b: int|
            0 <= a < old(cell_faces)@.len() && 0 <= b < old(cell_faces)@.len() ==> (
            #[trigger] final(cell_faces)@[a] == #[trigger] final(cell_faces)@[b] <==> old(
                cell_faces,
            )@[a] == old(cell_faces)@[b]),
        forall|id: int| 0 <= id < count ==> #[trigger] appears(final(cell_faces)@, id),
        // A face's first cell takes an id above every id before it, so ids
        // count up in order of first appearance.
        forall|c: int|
            0 <= c < final(cell_faces)@.len() ==> (exists|d: int|
                0 <= d < c && final(cell_faces)@[d] == #[trigger] final(cell_faces)@[c]) || (forall|
                d: int,
            |
                0 <= d < c ==> #[trigger] final(cell_faces)@[d] < final(cell_faces)@[c]),
{
    let ghost initial = cell_faces@;
    let ghost mut firsts: Seq<usize> = Seq::empty();
    let mut compacted: Vec<Option<usize>> = vec![None; face_count];
    let mut next: usize = 0;
    let mut cell: usize = 0;
    proof {
        assert(compaction_invariant(initial, cell_faces@, compacted@, firsts, 0, 0, face_count as int));
    }
    while cell < cell_faces.len()
        invariant
            cell_faces@.len() == initial.len(),
            faces_in_range(initial, face_count as int),
            compacted@.len() == face_count,
            cell <= initial.len(),
            next <= face_count,
            compaction_invariant(
                initial,
                cell_faces@,
                compacted@,
                firsts,
                next as int,
                cell as int,
                face_count as int,
            ),
        decreases initial.len() - cell,
    {
        let face = cell_faces[cell];
        let ghost compacted_before = compacted@;
        let ghost firsts_before = firsts;
        let ghost next_before = next as int;
        let id = match compacted[face] {
            Some(id) => id,
            None => {
                proof {
                    lemma_ids_fit(firsts, face_count as int, face);
                }
                let id = next;
                compacted.set(face, Some(id));
                next += 1;
                proof {
                    firsts = firsts.push(face);
                }
                id
            },
        };
        let ghost before = cell_faces@;
        cell_faces.set(cell, id);
        proof {
            lemma_compaction_step(
                initial,
                before,
                cell_faces@,
                compacted_before,
                compacted@,
                firsts_before,
                firsts,
                next_before,
                next as int,
                cell as int,
                face_count as int,
            );
        }
        cell += 1;
    }
    proof {
        assert forall|a: int, b: int|
            0 <= a < initial.len() && 0 <= b < initial.len() implies (
            #[trigger] cell_faces@[a] == #[trigger] cell_faces@[b] <==> initial[a] == initial[b]) by {
            assert((compacted@[initial[a] as int]) is Some);
            assert((compacted@[initial[b] as int]) is Some);
        }
        assert forall|id: int| 0 <= id < next implies #[trigger] appears(cell_faces@, id) by {
            assert(appears_upto(cell_faces@, id, cell as int));
        }
        assert forall|c: int| 0 <= c < cell_faces@.len() implies #[trigger] cell_faces@[c] < next by {
            assert((compacted@[initial[c] as int]) is Some);
        }
    }
    next
}

/// The state of [`compact_ids`] after its first `cell` cells: `firsts` lists
/// the faces seen so far in order of first appearance, and `compacted` sends
/// each of them to its position there.
pub open spec fn compaction_invariant(
    initial: Seq<usize>,
    current: Seq<usize>,
    compacted: Seq<Option<usize>>,
    firsts: Seq<usize>,
    next: int,
    cell: int,
    face_count: int,
) -> bool {
    &&& firsts.len() == next
    &&& compacted.len() == face_count
    &&& current.len() == initial.len()
    &&& forall|i: int|
        0 <= i < next ==> #[trigger] firsts[i] < face_count && compacted[firsts[i] as int] == Some(
            i as usize,
        )
    &&& forall|f: int|
        0 <= f < face_count && (#[trigger] compacted[f]) is Some ==> compacted[f]->Some_0 < next
            && firsts[compacted[f]->Some_0 as int] == f
    &&& forall|c: int| 0 <= c < cell ==> (#[trigger] compacted[initial[c] as int]) is Some
    &&& forall|c: int| cell <= c < initial.len() ==> #[trigger] current[c] == initial[c]
    &&& forall|c: int| 0 <= c < cell ==> #[trigger] current[c] == compacted[initial[c] as int]->Some_0
    &&& forall|i: int| 0 <= i < next ==> #[trigger] appears_upto(current, i, cell)
    &&& forall|c: int|
        0 <= c < cell ==> (exists|d: int| 0 <= d < c && current[d] == #[trigger] current[c]) || (
        forall|d: int| 0 <= d < c ==> #[trigger] current[d] < current[c])
}

#[verifier::rlimit(60)]
proof fn lemma_compaction_step(
    initial: Seq<usize>,
    before: Seq<usize>,
    after: Seq<usize>,
    compacted_before: Seq<Option<usize>>,
    compacted_after: Seq<Option<usize>>,
    firsts_before: Seq<usize>,
    firsts_after: Seq<usize>,
    next_before: int,
    next_after: int,
    cell: int,
    face_count: int,
)
    requires
        0 <= cell < initial.len(),
        face_count <= usize::MAX,
        faces_in_range(initial, face_count),
        compaction_invariant(
            initial,
            before,
            compacted_before,
            firsts_before,
            next_before,
            cell,
            face_count,
        ),
        ({
            let face = initial[cell];
            match compacted_before[face as int] {
                Some(id) => compacted_after == compacted_before && firsts_after == firsts_before
                    && next_after == next_before && after == before.update(cell, id),
                None => next_before < face_count && compacted_after == compacted_before.update(
                    face as int,
                    Some(next_before as usize),
                ) && firsts_after == firsts_before.push(face) && next_after == next_before + 1
                    && after == before.update(cell, next_before as usize),
            }
        }),
    ensures
        compaction_invariant(
            initial,
            after,
            compacted_after,
            firsts_after,
            next_after,
            cell + 1,
            face_count,
        ),
{
    let face = initial[cell];
    assert(before[cell] == face);
    let id = after[cell];
    assert forall|c: int| 0 <= c < cell implies #[trigger] after[c] == before[c] by {}
    assert forall|i: int| 0 <= i < next_after implies #[trigger] appears_upto(after, i, cell + 1) by {
        if i == id {
            assert(after[cell] == i);
        } else {
            match compacted_before[face as int] {
                Some(_) => {},
                None => {
                    assert(i < next_before);
                },
            }
            assert(appears_upto(before, i, cell));
            let c = choose|c: int| 0 <= c < cell && before[c] == i;
            assert(after[c] == i);
        }
    }
    assert forall|c: int| 0 <= c < cell + 1 implies (exists|d: int|
        0 <= d < c && after[d] == #[trigger] after[c]) || (forall|d: int|
        0 <= d < c ==> #[trigger] after[d] < after[c]) by {
        if c == cell {
            match compacted_before[face as int] {
                Some(old_id) => {
                    assert(old_id < next_before);
                    assert(appears_upto(before, old_id as int, cell));
                    let d = choose|d: int| 0 <= d < cell && before[d] == old_id;
                    assert(after[d] == after[c]);
                },
                None => {
                    assert forall|d: int| 0 <= d < c implies #[trigger] after[d] < after[c] by {
                        assert((compacted_before[initial[d] as int]) is Some);
                        assert(after[d] == before[d]);
                        assert(before[d] == compacted_before[initial[d] as int]->Some_0);
                        assert(compacted_before[initial[d] as int]->Some_0 < next_before);
                        assert(after[c] == next_before);
                    }
                },
            }
        } else {
            if exists|d: int| 0 <= d < c && before[d] == #[trigger] before[c] {
                let d = choose|d: int| 0 <= d < c && before[d] == #[trigger] before[c];
                assert(after[d] == after[c]);
            } else {
                assert forall|d: int| 0 <= d < c implies #[trigger] after[d] < after[c] by {
                    assert(before[d] < before[c]);
                }
            }
        }
    }
}

/// Whether one of the first `upto` cells holds face `id`.
pub open spec fn appears_upto(faces: Seq<usize>, id: int, upto: int) -> bool {
    exists|c: int| 0 <= c < upto && faces[c] == id
}

/// Whether some cell holds face `id`.
pub open spec fn appears(faces: Seq<usize>, id: int) -> bool {
    exists|c: int| 0 <= c < faces.len() && faces[c] == id
}

/// Whether some face holds new id `id`.
pub open spec fn id_taken(compacted: Seq<Option<usize>>, id: int) -> bool {
    exists|f: int| 0 <= f < compacted.len() && compacted[f] == Some(id as usize)
}

/// Faces listed once each, all below `face_count` and none of them `free`,
/// number fewer than `face_count`.
proof fn lemma_ids_fit(firsts: Seq<usize>, face_count: int, free: usize)
    requires
        0 <= free < face_count,
        forall|i: int, j: int|
            0 <= i < firsts.len() && 0 <= j < firsts.len() && i != j ==> firsts[i] != firsts[j],
        forall|i: int| 0 <= i < firsts.len() ==> #[trigger] firsts[i] < face_count && firsts[i] != free,
    ensures
        firsts.len() < face_count,
{
    broadcast use vstd::set::group_set_axioms;

    let listed = firsts.map_values(|f: usize| f as int);
    assert(listed.no_duplicates());
    listed.unique_seq_to_set();
    vstd::set_lib::lemma_int_range(0, face_count);
    let room = vstd::set_lib::set_int_range(0, face_count).remove(free as int);
    assert(listed.to_set().subset_of(room)) by {
        assert forall|x: int| listed.to_set().contains(x) implies room.contains(x) by {
            let i = choose|i: int| 0 <= i < listed.len() && listed[i] == x;
            assert(firsts[i] < face_count);
        }
    }
    vstd::set_lib::lemma_len_subset(listed.to_set(), room);
}

} // verus!
