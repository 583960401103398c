//! Breaking one continental plate into two.
//!
//! A plate that rifts walks one crack arc from a cell of its own, and the
//! walk stops as soon as it leaves the plate, so the arc runs from boundary
//! to boundary and the cells it crossed are the rift's wall. The non-wall
//! cells split into connected pieces, and the two largest of those the arc
//! runs alongside are the halves; everything else, the wall included, joins
//! the half it shares the most edges with, the same adoption rule the crack
//! pattern uses. Fewer than two pieces beside the arc means the rift
//! separated nothing, and the plate is left alone.

use crate::cracks::{
    adopt_unassigned_cells, adoption_round, adoption_rounds, is_adopting_face, shared_edges,
    touches_a_face,
};
use crate::topology::MeshTopology;
use vstd::prelude::*;

verus! {

/// The cells among the first `upto` that `plate` owns, ascending.
pub open spec fn owned_upto(cell_plates: Seq<usize>, plate: usize, upto: int) -> Seq<usize>
    decreases upto,
{
    if upto <= 0 {
        Seq::empty()
    } else if cell_plates[upto - 1] == plate {
        owned_upto(cell_plates, plate, upto - 1).push((upto - 1) as usize)
    } else {
        owned_upto(cell_plates, plate, upto - 1)
    }
}

proof fn lemma_owned_facts(cell_plates: Seq<usize>, plate: usize, upto: int)
    requires
        0 <= upto <= cell_plates.len(),
        cell_plates.len() <= usize::MAX,
    ensures
        owned_upto(cell_plates, plate, upto).len() <= upto,
        forall|i: int|
            0 <= i < owned_upto(cell_plates, plate, upto).len() ==> {
                let c = #[trigger] owned_upto(cell_plates, plate, upto)[i];
                &&& c < upto
                &&& cell_plates[c as int] == plate
            },
        forall|c: int|
            0 <= c < upto && cell_plates[c] == plate ==> #[trigger] owned_upto(cell_plates, plate, upto).contains(
                c as usize,
            ),
    decreases upto,
{
    if upto > 0 {
        lemma_owned_facts(cell_plates, plate, upto - 1);
        let prev = owned_upto(cell_plates, plate, upto - 1);
        let now = owned_upto(cell_plates, plate, upto);
        assert forall|i: int| 0 <= i < now.len() implies {
            let c = #[trigger] now[i];
            &&& c < upto
            &&& cell_plates[c as int] == plate
        } by {
            if i < prev.len() {
                assert(now[i] == prev[i]);
            }
        }
        assert forall|c: int| 0 <= c < upto && cell_plates[c] == plate implies #[trigger] now.contains(c as usize) by {
            if c < upto - 1 {
                assert(prev.contains(c as usize));
                let i = choose|i: int| 0 <= i < prev.len() && prev[i] == c as usize;
                assert(now[i] == c as usize);
            } else {
                assert(now[now.len() - 1] == c as usize);
            }
        }
    }
}

/// The cells `plate` owns, ascending.
pub fn owned_cells(cell_plates: &Vec<usize>, plate: usize) -> (owned: Vec<usize>)
    ensures
        owned@ == owned_upto(cell_plates@, plate, cell_plates@.len() as int),
{
    let mut owned: Vec<usize> = Vec::new();
    let mut cell: usize = 0;
    while cell < cell_plates.len()
        invariant
            cell <= cell_plates@.len(),
            owned@ == owned_upto(cell_plates@, plate, cell as int),
        decreases cell_plates@.len() - cell,
    {
        if cell_plates[cell] == plate {
            owned.push(cell);
        }
        cell += 1;
    }
    owned
}

/// The cell a rift arc starts from: the one `start_key` picks among the
/// cells the plate owns, in ascending order.
pub fn rift_start(cell_plates: &Vec<usize>, plate: usize, start_key: u64) -> (start: usize)
    requires
        exists|c: int| 0 <= c < cell_plates@.len() && cell_plates@[c] == plate,
    ensures
        ({
            let owned = owned_upto(cell_plates@, plate, cell_plates@.len() as int);
            &&& owned.len() > 0
            &&& start == owned[(start_key % (owned.len() as u64)) as int]
            &&& start < cell_plates@.len()
            &&& cell_plates@[start as int] == plate
        }),
{
    let owned = owned_cells(cell_plates, plate);
    let cell_count = cell_plates.len();
    proof {
        lemma_owned_facts(cell_plates@, plate, cell_plates@.len() as int);
        let c = choose|c: int| 0 <= c < cell_plates@.len() && cell_plates@[c] == plate;
        assert(owned@.contains(c as usize));
    }
    let count = owned.len() as u64;
    let index = (start_key % count) as usize;
    owned[index]
}

/// Which cells lie on `wall`.
pub fn wall_flags(cell_count: usize, wall: &Vec<usize>) -> (on_wall: Vec<bool>)
    requires
        forall|i: int| 0 <= i < wall@.len() ==> #[trigger] wall@[i] < cell_count,
    ensures
        on_wall@.len() == cell_count,
        forall|c: int| 0 <= c < cell_count ==> #[trigger] on_wall@[c] == wall@.contains(c as usize),
{
    let mut on_wall: Vec<bool> = vec![false; cell_count];
    let mut i: usize = 0;
    while i < wall.len()
        invariant
            on_wall@.len() == cell_count,
            i <= wall@.len(),
            forall|j: int| 0 <= j < wall@.len() ==> #[trigger] wall@[j] < cell_count,
            forall|c: int|
                0 <= c < cell_count ==> #[trigger] on_wall@[c] == exists|j: int| 0 <= j < i && wall@[j] == c,
        decreases wall@.len() - i,
    {
        let cell = wall[i];
        on_wall.set(cell, true);
        proof {
            assert forall|c: int| 0 <= c < cell_count implies #[trigger] on_wall@[c] == exists|j: int|
                0 <= j < i + 1 && wall@[j] == c by {
                if c == cell {
                    assert(wall@[i as int] == c);
                }
            }
        }
        i += 1;
    }
    on_wall
}

/// Whether some corner of `cell` looks across at a wall cell.
pub open spec fn beside_wall(mesh: MeshTopology, on_wall: Seq<bool>, cell: int) -> bool {
    exists|k: int| 0 <= k < mesh.degree(cell) && on_wall[mesh.corner(cell, k).neighbor as int]
}

/// Whether the arc runs alongside `component`: some cell of it touches the
/// wall.
pub open spec fn runs_alongside(mesh: MeshTopology, on_wall: Seq<bool>, component: Seq<usize>) -> bool {
    exists|i: int| 0 <= i < component.len() && #[trigger] beside_wall(mesh, on_wall, component[i] as int)
}

/// The components among the first `upto` the arc runs alongside, ascending.
pub open spec fn sides_upto(
    mesh: MeshTopology,
    on_wall: Seq<bool>,
    components: Seq<Seq<usize>>,
    upto: int,
) -> Seq<usize>
    decreases upto,
{
    if upto <= 0 {
        Seq::empty()
    } else if runs_alongside(mesh, on_wall, components[upto - 1]) {
        sides_upto(mesh, on_wall, components, upto - 1).push((upto - 1) as usize)
    } else {
        sides_upto(mesh, on_wall, components, upto - 1)
    }
}

fn touches_wall(mesh: &MeshTopology, on_wall: &Vec<bool>, cell: usize) -> (touches: bool)
    requires
        mesh.wf(),
        cell < mesh.cells(),
        on_wall@.len() == mesh.cells(),
    ensures
        touches == beside_wall(*mesh, on_wall@, cell as int),
{
    let corners = &mesh.cell_corners[cell];
    let mut k: usize = 0;
    while k < corners.len()
        invariant
            mesh.wf(),
            cell < mesh.cells(),
            on_wall@.len() == mesh.cells(),
            corners@ == mesh.cell_corners@[cell as int]@,
            k <= corners@.len(),
            forall|j: int| 0 <= j < k ==> !on_wall@[mesh.corner(cell as int, j).neighbor as int],
        decreases corners@.len() - k,
    {
        assert(corners@[k as int] == mesh.corner(cell as int, k as int));
        if on_wall[corners[k].neighbor] {
            return true;
        }
        k += 1;
    }
    false
}

/// The components the arc runs alongside, by ascending component index:
/// only such a component can be a half.
pub fn rift_sides(mesh: &MeshTopology, components: &Vec<Vec<usize>>, on_wall: &Vec<bool>) -> (sides: Vec<usize>)
    requires
        mesh.wf(),
        on_wall@.len() == mesh.cells(),
        forall|i: int, j: int|
            0 <= i < components@.len() && 0 <= j < components@[i]@.len() ==> #[trigger] components@[i]@[j]
                < mesh.cells(),
    ensures
        sides@ == sides_upto(
            *mesh,
            on_wall@,
            components@.map_values(|component: Vec<usize>| component@),
            components@.len() as int,
        ),
{
    let ghost views = components@.map_values(|component: Vec<usize>| component@);
    let mut sides: Vec<usize> = Vec::new();
    let mut index: usize = 0;
    while index < components.len()
        invariant
            mesh.wf(),
            on_wall@.len() == mesh.cells(),
            views == components@.map_values(|component: Vec<usize>| component@),
            forall|i: int, j: int|
                0 <= i < components@.len() && 0 <= j < components@[i]@.len() ==> #[trigger] components@[i]@[j]
                    < mesh.cells(),
            index <= components@.len(),
            sides@ == sides_upto(*mesh, on_wall@, views, index as int),
        decreases components@.len() - index,
    {
        let component = &components[index];
        assert(views[index as int] == component@);
        let mut alongside = false;
        let mut i: usize = 0;
        while i < component.len()
            invariant
                mesh.wf(),
                on_wall@.len() == mesh.cells(),
                component@ == components@[index as int]@,
                index < components@.len(),
                forall|i: int, j: int|
                    0 <= i < components@.len() && 0 <= j < components@[i]@.len() ==> #[trigger] components@[i]@[j]
                        < mesh.cells(),
                i <= component@.len(),
                alongside == exists|j: int| 0 <= j < i && #[trigger] beside_wall(*mesh, on_wall@, component@[j] as int),
            decreases component@.len() - i,
        {
            assert(components@[index as int]@[i as int] < mesh.cells());
            if touches_wall(mesh, on_wall, component[i]) {
                alongside = true;
            }
            i += 1;
        }
        if alongside {
            sides.push(index);
        }
        index += 1;
    }
    sides
}

/// The halves before any adoption: the cells of the first chosen component
/// are half zero and those of the second half one, the second winning where
/// the two share a cell.
pub open spec fn seeded_halves(cell_count: nat, first: Seq<usize>, second: Seq<usize>) -> Seq<Option<usize>> {
    Seq::new(
        cell_count,
        |c: int|
            if second.contains(c as usize) {
                Some(1usize)
            } else if first.contains(c as usize) {
                Some(0usize)
            } else {
                None
            },
    )
}

/// What each cell of the plate belongs to once adoption settled: its half,
/// or half zero for a cell neither half ever reached.
pub open spec fn settled_halves(cell_plates: Seq<usize>, plate: usize, adopted: Seq<Option<usize>>) -> Seq<
    Option<usize>,
> {
    Seq::new(
        adopted.len(),
        |c: int|
            if cell_plates[c] == plate && adopted[c] is None {
                Some(0usize)
            } else {
                adopted[c]
            },
    )
}

/// Whether `best` holds one of the first `upto` corners of `cell` and beats
/// every face held there: more shared edges, or as many and a lower id.
pub open spec fn beats_corners(
    mesh: MeshTopology,
    faces: Seq<Option<usize>>,
    cell: int,
    upto: int,
    best: usize,
) -> bool {
    &&& exists|k: int| 0 <= k < upto && faces[mesh.corner(cell, k).neighbor as int] == Some(best)
    &&& forall|j: int|
        0 <= j < upto && (#[trigger] faces[mesh.corner(cell, j).neighbor as int]) is Some ==> {
            let other = faces[mesh.corner(cell, j).neighbor as int]->Some_0;
            other == best || shared_edges(mesh, faces, cell, other) < shared_edges(mesh, faces, cell, best)
                || (shared_edges(mesh, faces, cell, other) == shared_edges(mesh, faces, cell, best) && best
                < other)
        }
}

/// Among the first `upto` corners of `cell`, where some holds a face, one
/// face beats the rest.
proof fn lemma_best_corner_face(mesh: MeshTopology, faces: Seq<Option<usize>>, cell: int, upto: int)
    requires
        0 <= upto <= mesh.degree(cell),
        exists|k: int| 0 <= k < upto && (#[trigger] faces[mesh.corner(cell, k).neighbor as int]) is Some,
    ensures
        exists|best: usize| #[trigger] beats_corners(mesh, faces, cell, upto, best),
    decreases upto,
{
    let last = faces[mesh.corner(cell, upto - 1).neighbor as int];
    if exists|k: int| 0 <= k < upto - 1 && (#[trigger] faces[mesh.corner(cell, k).neighbor as int]) is Some {
        lemma_best_corner_face(mesh, faces, cell, upto - 1);
        let best = choose|best: usize| #[trigger] beats_corners(mesh, faces, cell, upto - 1, best);
        let kb = choose|k: int| 0 <= k < upto - 1 && faces[mesh.corner(cell, k).neighbor as int] == Some(best);
        match last {
            Some(g) => {
                let sg = shared_edges(mesh, faces, cell, g);
                let sb = shared_edges(mesh, faces, cell, best);
                if sg > sb || (sg == sb && g < best) {
                    assert(faces[mesh.corner(cell, upto - 1).neighbor as int] == Some(g));
                    assert(beats_corners(mesh, faces, cell, upto, g));
                } else {
                    assert(faces[mesh.corner(cell, kb).neighbor as int] == Some(best));
                    assert(beats_corners(mesh, faces, cell, upto, best));
                }
            },
            None => {
                assert(faces[mesh.corner(cell, kb).neighbor as int] == Some(best));
                assert(beats_corners(mesh, faces, cell, upto, best));
            },
        }
    } else {
        let g = last->Some_0;
        assert(faces[mesh.corner(cell, upto - 1).neighbor as int] == Some(g));
        assert(beats_corners(mesh, faces, cell, upto, g));
    }
}

/// A cell that touches a face has a face to adopt.
pub proof fn lemma_adopting_face_exists(mesh: MeshTopology, faces: Seq<Option<usize>>, cell: int)
    requires
        touches_a_face(mesh, faces, cell),
    ensures
        exists|face: usize| is_adopting_face(mesh, faces, cell, face),
{
    let d = mesh.degree(cell) as int;
    lemma_best_corner_face(mesh, faces, cell, d);
    let best = choose|best: usize| #[trigger] beats_corners(mesh, faces, cell, d, best);
    let kb = choose|k: int| 0 <= k < d && faces[mesh.corner(cell, k).neighbor as int] == Some(best);
    crate::cracks::lemma_corner_makes_shared_positive(mesh, faces, cell, best, kb, d);
    assert forall|other: usize|
        other != best && #[trigger] shared_edges(mesh, faces, cell, other) > 0 implies shared_edges(
            mesh,
            faces,
            cell,
            other,
        ) < shared_edges(mesh, faces, cell, best) || (shared_edges(mesh, faces, cell, other)
            == shared_edges(mesh, faces, cell, best) && best < other) by {
        crate::cracks::lemma_shared_positive_has_corner(mesh, faces, cell, other, d);
        let j = choose|j: int| 0 <= j < d && faces[mesh.corner(cell, j).neighbor as int] == Some(other);
        assert((faces[mesh.corner(cell, j).neighbor as int]) is Some);
    }
    assert(is_adopting_face(mesh, faces, cell, best));
}

/// An adoption leaves a cell it may not touch as it was, keeps every
/// assignment it found, and hands out only faces that were already there.
proof fn lemma_adoption_bounds(
    mesh: MeshTopology,
    eligible: Seq<bool>,
    faces: Seq<Option<usize>>,
    rounds: nat,
    limit: usize,
)
    requires
        mesh.wf(),
        faces.len() == mesh.cells(),
        eligible.len() == mesh.cells(),
        forall|c: int| 0 <= c < faces.len() ==> (#[trigger] faces[c] matches Some(f) ==> f < limit),
    ensures
        ({
            let after = adoption_rounds(mesh, eligible, faces, rounds);
            &&& after.len() == faces.len()
            &&& forall|c: int| 0 <= c < faces.len() && !eligible[c] ==> #[trigger] after[c] == faces[c]
            &&& forall|c: int| 0 <= c < faces.len() && faces[c] is Some ==> #[trigger] after[c] == faces[c]
            &&& forall|c: int| 0 <= c < faces.len() ==> (#[trigger] after[c] matches Some(f) ==> f < limit)
        }),
    decreases rounds,
{
    if rounds > 0 {
        lemma_adoption_bounds(mesh, eligible, faces, (rounds - 1) as nat, limit);
        let before = adoption_rounds(mesh, eligible, faces, (rounds - 1) as nat);
        let after = adoption_rounds(mesh, eligible, faces, rounds);
        assert forall|c: int| 0 <= c < faces.len() implies (#[trigger] after[c] matches Some(f) ==> f < limit) by {
            if before[c] is None && eligible[c] && touches_a_face(mesh, before, c) {
                let face = choose|face: usize| is_adopting_face(mesh, before, c, face);
                lemma_adopting_face_exists(mesh, before, c);
                assert(is_adopting_face(mesh, before, c, face));
                crate::cracks::lemma_shared_positive_has_corner(mesh, before, c, face, mesh.degree(c) as int);
                let k = choose|k: int|
                    0 <= k < mesh.degree(c) && before[mesh.corner(c, k).neighbor as int] == Some(face);
                assert(mesh.corner(c, k).neighbor < mesh.cells());
            }
        }
    }
}

/// Splits the cells of `plate` into two halves: the cells of component
/// `first` are half zero and those of `second` half one, every other cell of
/// the plate, the wall included, joins the half it shares the most edges
/// with, round after round, and a cell neither half ever reaches is half
/// zero. Cells of other plates belong to neither half.
pub fn rift_halves(
    mesh: &MeshTopology,
    cell_plates: &Vec<usize>,
    plate: usize,
    components: &Vec<Vec<usize>>,
    first: usize,
    second: usize,
) -> (halves: Vec<Option<usize>>)
    requires
        mesh.wf(),
        cell_plates@.len() == mesh.cells(),
        first < components@.len(),
        second < components@.len(),
        forall|j: int|
            0 <= j < components@[first as int]@.len() ==> #[trigger] components@[first as int]@[j] < mesh.cells()
                && cell_plates@[components@[first as int]@[j] as int] == plate,
        forall|j: int|
            0 <= j < components@[second as int]@.len() ==> #[trigger] components@[second as int]@[j] < mesh.cells()
                && cell_plates@[components@[second as int]@[j] as int] == plate,
    ensures
        ({
            let eligible = Seq::new(mesh.cells(), |c: int| cell_plates@[c] == plate);
            let seeded = seeded_halves(
                mesh.cells(),
                components@[first as int]@,
                components@[second as int]@,
            );
            exists|rounds: nat|
                {
                    let adopted = #[trigger] adoption_rounds(*mesh, eligible, seeded, rounds);
                    &&& adoption_round(*mesh, eligible, adopted) == adopted
                    &&& halves@ == settled_halves(cell_plates@, plate, adopted)
                }
        }),
        // The halves are a partition of the plate.
        halves@.len() == mesh.cells(),
        forall|c: int|
            0 <= c < mesh.cells() ==> (#[trigger] halves@[c] is Some <==> cell_plates@[c] == plate),
        forall|c: int| 0 <= c < mesh.cells() ==> (#[trigger] halves@[c] matches Some(h) ==> h < 2),
{
    let n = mesh.cell_count();
    let ghost first_cells = components@[first as int]@;
    let ghost second_cells = components@[second as int]@;
    let mut halves: Vec<Option<usize>> = vec![None; n];
    let first_component = &components[first];
    let mut i: usize = 0;
    while i < first_component.len()
        invariant
            n == mesh.cells(),
            halves@.len() == n,
            first_component@ == first_cells,
            i <= first_cells.len(),
            forall|j: int| 0 <= j < first_cells.len() ==> #[trigger] first_cells[j] < n,
            forall|c: int|
                0 <= c < n ==> #[trigger] halves@[c] == if exists|j: int| 0 <= j < i && first_cells[j] == c {
                    Some(0usize)
                } else {
                    None
                },
        decreases first_cells.len() - i,
    {
        let cell = first_component[i];
        halves.set(cell, Some(0));
        proof {
            assert forall|c: int| 0 <= c < n implies #[trigger] halves@[c] == if exists|j: int| 0 <= j < i + 1 && first_cells[j] == c {
                Some(0usize)
            } else {
                None
            } by {
                if c == cell {
                    assert(first_cells[i as int] == c);
                }
            }
        }
        i += 1;
    }
    let second_component = &components[second];
    let mut i: usize = 0;
    while i < second_component.len()
        invariant
            n == mesh.cells(),
            halves@.len() == n,
            second_component@ == second_cells,
            i <= second_cells.len(),
            forall|j: int| 0 <= j < second_cells.len() ==> #[trigger] second_cells[j] < n,
            forall|c: int|
                0 <= c < n ==> #[trigger] halves@[c] == if exists|j: int| 0 <= j < i && second_cells[j] == c {
                    Some(1usize)
                } else if first_cells.contains(c as usize) {
                    Some(0usize)
                } else {
                    None
                },
        decreases second_cells.len() - i,
    {
        let cell = second_component[i];
        halves.set(cell, Some(1));
        proof {
            assert forall|c: int| 0 <= c < n implies #[trigger] halves@[c] == if exists|j: int| 0 <= j < i + 1 && second_cells[j] == c {
                Some(1usize)
            } else if first_cells.contains(c as usize) {
                Some(0usize)
            } else {
                None
            } by {
                if c == cell {
                    assert(second_cells[i as int] == c);
                }
            }
        }
        i += 1;
    }
    let ghost seeded = seeded_halves(n as nat, first_cells, second_cells);
    assert(halves@ =~= seeded);

    let mut eligible: Vec<bool> = Vec::new();
    let mut cell: usize = 0;
    while cell < n
        invariant
            n == mesh.cells(),
            cell_plates@.len() == n,
            cell <= n,
            eligible@.len() == cell,
            forall|c: int| 0 <= c < cell ==> #[trigger] eligible@[c] == (cell_plates@[c] == plate),
        decreases n - cell,
    {
        eligible.push(cell_plates[cell] == plate);
        cell += 1;
    }
    assert(eligible@ =~= Seq::new(mesh.cells(), |c: int| cell_plates@[c] == plate));
    proof {
        assert forall|c: int| 0 <= c < seeded.len() implies (#[trigger] seeded[c] matches Some(f) ==> f < 2) by {}
    }
    adopt_unassigned_cells(mesh, &mut halves, &eligible);
    let ghost adopted = halves@;
    proof {
        let rounds = choose|rounds: nat| adopted == adoption_rounds(*mesh, eligible@, seeded, rounds);
        lemma_adoption_bounds(*mesh, eligible@, seeded, rounds, 2);
        assert forall|c: int| 0 <= c < n && (#[trigger] adopted[c]) is Some implies cell_plates@[c] == plate by {
            if cell_plates@[c] != plate {
                assert(!eligible@[c]);
                assert(adopted[c] == seeded[c]);
                if second_cells.contains(c as usize) {
                    let j = choose|j: int| 0 <= j < second_cells.len() && second_cells[j] == c as usize;
                    assert(cell_plates@[second_cells[j] as int] == plate);
                } else if first_cells.contains(c as usize) {
                    let j = choose|j: int| 0 <= j < first_cells.len() && first_cells[j] == c as usize;
                    assert(cell_plates@[first_cells[j] as int] == plate);
                }
            }
        }
    }
    let mut cell: usize = 0;
    while cell < n
        invariant
            n == mesh.cells(),
            cell_plates@.len() == n,
            halves@.len() == n,
            adopted.len() == n,
            cell <= n,
            forall|c: int| 0 <= c < cell ==> #[trigger] halves@[c] == settled_halves(cell_plates@, plate, adopted)[c],
            forall|c: int| cell <= c < n ==> #[trigger] halves@[c] == adopted[c],
        decreases n - cell,
    {
        if cell_plates[cell] == plate && halves[cell].is_none() {
            halves.set(cell, Some(0));
        }
        cell += 1;
    }
    proof {
        assert(halves@ =~= settled_halves(cell_plates@, plate, adopted));
        let rounds = choose|rounds: nat| adopted == adoption_rounds(*mesh, eligible@, seeded, rounds);
        assert(adoption_rounds(*mesh, eligible@, seeded, rounds) == adopted);
    }
    halves
}

/// The cells of each half, ascending.
pub fn half_cells(halves: &Vec<Option<usize>>) -> (cells: (Vec<usize>, Vec<usize>))
    ensures
        forall|i: int| 0 <= i < cells.0@.len() ==> #[trigger] cells.0@[i] < halves@.len() && halves@[cells.0@[i] as int] == Some(0usize),
        forall|i: int| 0 <= i < cells.1@.len() ==> #[trigger] cells.1@[i] < halves@.len() && halves@[cells.1@[i] as int] == Some(1usize),
        forall|c: int| 0 <= c < halves@.len() && halves@[c] == Some(0usize) ==> #[trigger] cells.0@.contains(c as usize),
        forall|c: int| 0 <= c < halves@.len() && halves@[c] == Some(1usize) ==> #[trigger] cells.1@.contains(c as usize),
        forall|i: int, j: int| 0 <= i < j < cells.0@.len() ==> #[trigger] cells.0@[i] < #[trigger] cells.0@[j],
        forall|i: int, j: int| 0 <= i < j < cells.1@.len() ==> #[trigger] cells.1@[i] < #[trigger] cells.1@[j],
{
    let mut zero: Vec<usize> = Vec::new();
    let mut one: Vec<usize> = Vec::new();
    let mut cell: usize = 0;
    while cell < halves.len()
        invariant
            cell <= halves@.len(),
            forall|i: int| 0 <= i < zero@.len() ==> #[trigger] zero@[i] < cell && halves@[zero@[i] as int] == Some(0usize),
            forall|i: int| 0 <= i < one@.len() ==> #[trigger] one@[i] < cell && halves@[one@[i] as int] == Some(1usize),
            forall|c: int| 0 <= c < cell && halves@[c] == Some(0usize) ==> #[trigger] zero@.contains(c as usize),
            forall|c: int| 0 <= c < cell && halves@[c] == Some(1usize) ==> #[trigger] one@.contains(c as usize),
            forall|i: int, j: int| 0 <= i < j < zero@.len() ==> #[trigger] zero@[i] < #[trigger] zero@[j],
            forall|i: int, j: int| 0 <= i < j < one@.len() ==> #[trigger] one@[i] < #[trigger] one@[j],
        decreases halves@.len() - cell,
    {
        let ghost zero_before = zero@;
        let ghost one_before = one@;
        match halves[cell] {
            Some(0) => {
                zero.push(cell);
                proof {
                    assert forall|c: int| 0 <= c < cell + 1 && halves@[c] == Some(0usize) implies #[trigger] zero@.contains(c as usize) by {
                        if c < cell {
                            assert(zero_before.contains(c as usize));
                            let i = choose|i: int| 0 <= i < zero_before.len() && zero_before[i] == c as usize;
                            assert(zero@[i] == c as usize);
                        } else {
                            assert(zero@[zero@.len() - 1] == c as usize);
                        }
                    }
                }
            },
            Some(1) => {
                one.push(cell);
                proof {
                    assert forall|c: int| 0 <= c < cell + 1 && halves@[c] == Some(1usize) implies #[trigger] one@.contains(c as usize) by {
                        if c < cell {
                            assert(one_before.contains(c as usize));
                            let i = choose|i: int| 0 <= i < one_before.len() && one_before[i] == c as usize;
                            assert(one@[i] == c as usize);
                        } else {
                            assert(one@[one@.len() - 1] == c as usize);
                        }
                    }
                }
            },
            _ => {},
        }
        cell += 1;
    }
    (zero, one)
}

/// Gives every cell of `cells` to `new_plate`: the half a rift hands to the
/// plate it makes.
pub fn split_off(cell_plates: &mut Vec<usize>, cells: &Vec<usize>, new_plate: usize)
    requires
        forall|i: int| 0 <= i < cells@.len() ==> #[trigger] cells@[i] < old(cell_plates)@.len(),
    ensures
        final(cell_plates)@.len() == old(cell_plates)@.len(),
        forall|c: int|
            0 <= c < old(cell_plates)@.len() ==> #[trigger] final(cell_plates)@[c] == if cells@.contains(c as usize) {
                new_plate
            } else {
                old(cell_plates)@[c]
            },
{
    let ghost start = cell_plates@;
    let cell_count = cell_plates.len();
    let mut i: usize = 0;
    while i < cells.len()
        invariant
            cell_plates@.len() == start.len(),
            i <= cells@.len(),
            forall|j: int| 0 <= j < cells@.len() ==> #[trigger] cells@[j] < start.len(),
            forall|c: int|
                0 <= c < start.len() ==> #[trigger] cell_plates@[c] == if exists|j: int| 0 <= j < i && cells@[j] == c {
                    new_plate
                } else {
                    start[c]
                },
        decreases cells@.len() - i,
    {
        let cell = cells[i];
        cell_plates.set(cell, new_plate);
        proof {
            assert forall|c: int| 0 <= c < start.len() implies #[trigger] cell_plates@[c] == if exists|j: int| 0 <= j < i + 1 && cells@[j] == c {
                new_plate
            } else {
                start[c]
            } by {
                if c == cell {
                    assert(cells@[i as int] == c);
                }
            }
        }
        i += 1;
    }
    proof {
        assert forall|c: int| 0 <= c < start.len() implies #[trigger] cell_plates@[c] == if cells@.contains(c as usize) {
            new_plate
        } else {
            start[c]
        } by {
            assert(c < cell_count);
            if cells@.contains(c as usize) {
                let j = choose|j: int| 0 <= j < cells@.len() && cells@[j] == c as usize;
                assert(cells@[j] == c);
            }
        }
    }
}

} // verus!
