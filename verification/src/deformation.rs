//! How far a boundary's deformation reaches into its own plate.
//!
//! Each boundary source spreads its profile breadth-first, one hop of depth
//! per hop, through the cells of the plate it stands on and no further than
//! the profile's depth. The offsets the profile sets at each depth are
//! geometry; which cells a source reaches, and at what depth, are here.

use crate::topology::MeshTopology;
use vstd::prelude::*;

verus! {

/// The cells a walk from `source` discovers by the time it has taken `pops`
/// entries off its queue, each with its depth: `source` at depth zero, then
/// each taken cell's corner neighbours of the source's plate, in corner
/// order, that it has not discovered yet, one deeper. A cell at depth
/// `limit` is taken but not expanded.
pub open spec fn reach_discovered(
    mesh: MeshTopology,
    cell_plates: Seq<usize>,
    source: usize,
    limit: usize,
    pops: nat,
) -> Seq<(usize, usize)>
    decreases pops,
{
    if pops == 0 {
        seq![(source, 0usize)]
    } else {
        let before = reach_discovered(mesh, cell_plates, source, limit, (pops - 1) as nat);
        if pops - 1 < before.len() && before[pops - 1].1 < limit {
            let (cell, depth) = before[pops - 1];
            enqueue_plate_corners(
                mesh,
                cell_plates,
                cell_plates[source as int],
                cell,
                (depth + 1) as usize,
                before,
                mesh.degree(cell as int) as int,
            )
        } else {
            before
        }
    }
}

/// Whether `found` already holds `cell`, at any depth.
pub open spec fn holds_cell(found: Seq<(usize, usize)>, cell: usize) -> bool {
    exists|i: int| 0 <= i < found.len() && found[i].0 == cell
}

/// `found` with each of the first `upto` corner neighbours of `cell` that
/// belong to `plate` and that it does not hold appended at `depth`.
pub open spec fn enqueue_plate_corners(
    mesh: MeshTopology,
    cell_plates: Seq<usize>,
    plate: usize,
    cell: usize,
    depth: usize,
    found: Seq<(usize, usize)>,
    upto: int,
) -> Seq<(usize, usize)>
    decreases upto,
{
    if upto <= 0 {
        found
    } else {
        let before = enqueue_plate_corners(mesh, cell_plates, plate, cell, depth, found, upto - 1);
        let neighbor = mesh.corner(cell as int, upto - 1).neighbor;
        if holds_cell(before, neighbor) || cell_plates[neighbor as int] != plate {
            before
        } else {
            before.push((neighbor, depth))
        }
    }
}

proof fn lemma_enqueue_plate_facts(
    mesh: MeshTopology,
    cell_plates: Seq<usize>,
    plate: usize,
    cell: usize,
    depth: usize,
    found: Seq<(usize, usize)>,
    upto: int,
)
    requires
        mesh.wf(),
        (cell as int) < mesh.cells(),
        cell_plates.len() == mesh.cells(),
        0 <= upto <= mesh.degree(cell as int),
        forall|i: int| 0 <= i < found.len() ==> #[trigger] found[i].0 < mesh.cells(),
    ensures
        ({
            let after = enqueue_plate_corners(mesh, cell_plates, plate, cell, depth, found, upto);
            &&& found.len() <= after.len()
            &&& forall|i: int| 0 <= i < found.len() ==> after[i] == found[i]
            &&& forall|i: int| 0 <= i < after.len() ==> #[trigger] after[i].0 < mesh.cells()
        }),
    decreases upto,
{
    if upto > 0 {
        lemma_enqueue_plate_facts(mesh, cell_plates, plate, cell, depth, found, upto - 1);
        assert(mesh.corner(cell as int, upto - 1).neighbor < mesh.cells());
    }
}

proof fn lemma_reach_facts(
    mesh: MeshTopology,
    cell_plates: Seq<usize>,
    source: usize,
    limit: usize,
    pops: nat,
)
    requires
        mesh.wf(),
        (source as int) < mesh.cells(),
        cell_plates.len() == mesh.cells(),
    ensures
        reach_discovered(mesh, cell_plates, source, limit, pops).len() >= 1,
        forall|i: int|
            0 <= i < reach_discovered(mesh, cell_plates, source, limit, pops).len() ==> #[trigger] reach_discovered(
                mesh,
                cell_plates,
                source,
                limit,
                pops,
            )[i].0 < mesh.cells(),
    decreases pops,
{
    if pops > 0 {
        lemma_reach_facts(mesh, cell_plates, source, limit, (pops - 1) as nat);
        let before = reach_discovered(mesh, cell_plates, source, limit, (pops - 1) as nat);
        if pops - 1 < before.len() && before[pops - 1].1 < limit {
            let (cell, depth) = before[pops - 1];
            lemma_enqueue_plate_facts(
                mesh,
                cell_plates,
                cell_plates[source as int],
                cell,
                (depth + 1) as usize,
                before,
                mesh.degree(cell as int) as int,
            );
        }
    }
}

proof fn lemma_flag_count_bounded(flags: Seq<bool>, upto: int)
    requires
        0 <= upto,
    ensures
        crate::material::set_count_upto(flags, upto) <= upto,
    decreases upto,
{
    if upto > 0 {
        lemma_flag_count_bounded(flags, upto - 1);
    }
}

/// The cells one boundary source reaches, each with its depth, in the order
/// a breadth-first walk through the source's own plate takes them: the
/// source itself at depth zero, and no cell deeper than `limit`.
pub fn plate_reach(
    mesh: &MeshTopology,
    cell_plates: &Vec<usize>,
    source: usize,
    limit: usize,
) -> (reached: Vec<(usize, usize)>)
    requires
        mesh.wf(),
        source < mesh.cells(),
        cell_plates@.len() == mesh.cells(),
    ensures
        reached@ == reach_discovered(*mesh, cell_plates@, source, limit, reached@.len()),
        forall|i: int|
            0 <= i < reached@.len() ==> #[trigger] reached@[i].0 < mesh.cells() && reached@[i].1
                <= limit && cell_plates@[reached@[i].0 as int] == cell_plates@[source as int],
{
    let n = mesh.cell_count();
    let plate = cell_plates[source];
    let mut seen: Vec<bool> = vec![false; n];
    let mut queue: Vec<(usize, usize)> = Vec::new();
    queue.push((source, 0));
    proof {
        crate::material::lemma_set_count_none(n as int);
        assert(seen@ =~= Seq::new(n as nat, |c: int| false));
        crate::material::lemma_set_count_update(seen@, source as int, n as int);
    }
    seen.set(source, true);
    assert(queue@ =~= reach_discovered(*mesh, cell_plates@, source, limit, 0));
    proof {
        assert forall|c: int| 0 <= c < n implies #[trigger] seen@[c] == holds_cell(queue@, c as usize) by {
            if c == source {
                assert(queue@[0].0 == source);
            }
        }
    }
    let mut head: usize = 0;
    while head < queue.len()
        invariant
            mesh.wf(),
            n == mesh.cells(),
            source < n,
            cell_plates@.len() == n,
            plate == cell_plates@[source as int],
            seen@.len() == n,
            head <= queue@.len(),
            queue@ == reach_discovered(*mesh, cell_plates@, source, limit, head as nat),
            forall|i: int| 0 <= i < queue@.len() ==> #[trigger] queue@[i].0 < n,
            forall|i: int|
                0 <= i < queue@.len() ==> #[trigger] queue@[i].1 <= limit && cell_plates@[queue@[i].0 as int] == plate,
            forall|c: int| 0 <= c < n ==> #[trigger] seen@[c] == holds_cell(queue@, c as usize),
            queue@.len() == crate::material::set_count_upto(seen@, n as int),
        decreases n - head,
    {
        proof {
            lemma_flag_count_bounded(seen@, n as int);
        }
        let (cell, depth) = queue[head];
        let ghost before = queue@;
        if depth < limit {
            let corners = &mesh.cell_corners[cell];
            let mut k: usize = 0;
            while k < corners.len()
                invariant
                    mesh.wf(),
                    n == mesh.cells(),
                    cell < n,
                    depth < limit,
                    cell_plates@.len() == n,
                    corners@ == mesh.cell_corners@[cell as int]@,
                    k <= corners@.len(),
                    seen@.len() == n,
                    queue@ == enqueue_plate_corners(*mesh, cell_plates@, plate, cell, (depth + 1) as usize, before, k as int),
                    forall|i: int| 0 <= i < queue@.len() ==> #[trigger] queue@[i].0 < n,
                    forall|i: int|
                        0 <= i < queue@.len() ==> #[trigger] queue@[i].1 <= limit && cell_plates@[queue@[i].0 as int] == plate,
                    forall|c: int| 0 <= c < n ==> #[trigger] seen@[c] == holds_cell(queue@, c as usize),
                    queue@.len() == crate::material::set_count_upto(seen@, n as int),
                decreases corners@.len() - k,
            {
                assert(corners@[k as int] == mesh.corner(cell as int, k as int));
                let neighbor = corners[k].neighbor;
                assert(neighbor < n);
                if !seen[neighbor] && cell_plates[neighbor] == plate {
                    proof {
                        crate::material::lemma_set_count_update(seen@, neighbor as int, n as int);
                    }
                    let ghost q0 = queue@;
                    let ghost s0 = seen@;
                    seen.set(neighbor, true);
                    queue.push((neighbor, depth + 1));
                    proof {
                        assert(queue@ == q0.push((neighbor, (depth + 1) as usize)));
                        assert forall|c: int| 0 <= c < n implies #[trigger] seen@[c] == holds_cell(queue@, c as usize) by {
                            if c == neighbor {
                                assert(queue@[queue@.len() - 1].0 == neighbor);
                            } else {
                                assert(seen@[c] == s0[c]);
                                if holds_cell(q0, c as usize) {
                                    let i = choose|i: int| 0 <= i < q0.len() && q0[i].0 == c as usize;
                                    assert(queue@[i].0 == c as usize);
                                }
                                if holds_cell(queue@, c as usize) {
                                    let i = choose|i: int| 0 <= i < queue@.len() && queue@[i].0 == c as usize;
                                    assert(i < q0.len());
                                    assert(q0[i].0 == c as usize);
                                }
                            }
                        }
                    }
                } else {
                    proof {
                        if !(cell_plates@[neighbor as int] != plate) {
                            assert(seen@[neighbor as int]);
                            assert(holds_cell(queue@, neighbor));
                        }
                    }
                }
                k += 1;
            }
            proof {
                assert(before[head as int] == (cell, depth));
                assert(queue@ == reach_discovered(*mesh, cell_plates@, source, limit, (head + 1) as nat));
                lemma_enqueue_plate_facts(
                    *mesh,
                    cell_plates@,
                    plate,
                    cell,
                    (depth + 1) as usize,
                    before,
                    corners@.len() as int,
                );
            }
        } else {
            proof {
                assert(before[head as int] == (cell, depth));
                assert(queue@ == reach_discovered(*mesh, cell_plates@, source, limit, (head + 1) as nat));
            }
        }
        head += 1;
    }
    proof {
        assert forall|i: int| 0 <= i < queue@.len() implies #[trigger] queue@[i].0 < mesh.cells()
            && queue@[i].1 <= limit && cell_plates@[queue@[i].0 as int] == cell_plates@[source as int] by {
            assert(queue@[i].1 <= limit && cell_plates@[queue@[i].0 as int] == plate);
        }
    }
    queue
}

} // verus!
