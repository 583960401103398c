use procgen_tectonics::cracks::{
    adopt_unassigned_cells, claim_step, compact_ids, merge_target, relabel_face, Wall,
};
use procgen_tectonics::topology::{Corner, MeshTopology};
use std::ops::ControlFlow;

fn mesh_from_edges(cell_count: usize, edges: &[(usize, usize)]) -> MeshTopology {
    let mut cell_corners = vec![Vec::new(); cell_count];
    let mut edge_cells = Vec::new();
    for (edge, &(a, b)) in edges.iter().enumerate() {
        cell_corners[a].push(Corner { neighbor: b, edge });
        cell_corners[b].push(Corner { neighbor: a, edge });
        edge_cells.push([a, b]);
    }
    MeshTopology {
        cell_corners,
        edge_cells,
    }
}

/// Cells in a row, each joined to the next.
fn strip(cell_count: usize) -> MeshTopology {
    let edges: Vec<(usize, usize)> = (1..cell_count).map(|cell| (cell - 1, cell)).collect();
    mesh_from_edges(cell_count, &edges)
}

#[test]
fn a_wall_claims_allowed_cells_once_and_stops_at_a_forbidden_one() {
    let mut wall = Wall::starting_at(1, vec![true, true, true, false]);
    assert_eq!(wall.claim(2), ControlFlow::Continue(()));
    // Curving back over its own wall carries on without a second entry.
    assert_eq!(wall.claim(1), ControlFlow::Continue(()));
    assert_eq!(wall.claim(3), ControlFlow::Break(()));
    assert_eq!(wall.cells, vec![1, 2]);
    assert_eq!(wall.entered, vec![false, true, true, false]);
}

#[test]
fn a_step_that_skipped_a_cell_claims_the_cell_between() {
    let mesh = strip(5);
    let mut wall = Wall::starting_at(0, vec![true; 5]);
    assert_eq!(claim_step(&mesh, 0, 2, &mut wall), ControlFlow::Continue(()));
    assert_eq!(wall.cells, vec![0, 1, 2]);
    assert_eq!(claim_step(&mesh, 2, 4, &mut wall), ControlFlow::Continue(()));
    assert_eq!(wall.cells, vec![0, 1, 2, 3, 4]);
    // Four cells apart, nothing beside the start reaches the end.
    let mut far = Wall::starting_at(0, vec![true; 5]);
    assert_eq!(claim_step(&mesh, 0, 4, &mut far), ControlFlow::Break(()));
    assert_eq!(far.cells, vec![0]);
}

#[test]
fn a_step_into_a_forbidden_cell_breaks() {
    let mesh = strip(3);
    let mut wall = Wall::starting_at(0, vec![true, false, true]);
    assert_eq!(claim_step(&mesh, 0, 1, &mut wall), ControlFlow::Break(()));
    assert_eq!(wall.cells, vec![0]);
}

#[test]
fn unassigned_cells_join_the_face_they_share_most_edges_with() {
    // Cell 2 touches face 0 twice and face 1 once; cell 4 touches nothing
    // assigned until cell 3 is.
    let mesh = mesh_from_edges(
        6,
        &[(0, 2), (1, 2), (5, 2), (2, 3), (3, 4)],
    );
    let mut faces = vec![Some(0), Some(0), None, None, None, Some(1)];
    // Cells 0 and 1 are face 0, so cell 2 shares two edges with it.
    adopt_unassigned_cells(&mesh, &mut faces, &vec![true; 6]);
    assert_eq!(faces, vec![Some(0), Some(0), Some(0), Some(0), Some(0), Some(1)]);
}

#[test]
fn adoption_ties_go_to_the_lower_face_and_respect_eligibility() {
    let mesh = mesh_from_edges(4, &[(0, 1), (2, 1), (1, 3)]);
    let mut faces = vec![Some(3), None, Some(2), None];
    let eligible = vec![true, true, true, false];
    adopt_unassigned_cells(&mesh, &mut faces, &eligible);
    assert_eq!(faces, vec![Some(3), Some(2), Some(2), None]);
}

#[test]
fn a_small_face_merges_into_the_neighbour_it_shares_most_edges_with() {
    // Face 1 is cell 2, touching face 0 once and face 2 twice.
    let mesh = mesh_from_edges(5, &[(0, 2), (2, 3), (2, 4), (0, 3), (3, 4)]);
    let cell_faces = vec![0, 0, 1, 2, 2];
    assert_eq!(merge_target(&mesh, &cell_faces, 1, 3), Some(2));
    let lonely = mesh_from_edges(2, &[(0, 1)]);
    assert_eq!(merge_target(&lonely, &vec![0, 0], 0, 1), None);
}

#[test]
fn merge_ties_go_to_the_lower_face() {
    let mesh = mesh_from_edges(3, &[(0, 1), (1, 2)]);
    assert_eq!(merge_target(&mesh, &vec![2, 1, 0], 1, 3), Some(0));
}

#[test]
fn relabelling_moves_one_face_into_another() {
    let mut cell_faces = vec![0, 1, 2, 1];
    relabel_face(&mut cell_faces, 1, 2);
    assert_eq!(cell_faces, vec![0, 2, 2, 2]);
}

#[test]
fn compaction_numbers_faces_by_first_appearance() {
    let mut cell_faces = vec![4, 2, 4, 0, 2];
    let count = compact_ids(&mut cell_faces, 5);
    assert_eq!(count, 3);
    assert_eq!(cell_faces, vec![0, 1, 0, 2, 1]);
}

#[test]
fn a_skipped_step_bridges_through_the_first_neighbour_in_corner_order() {
    // Cells 1 and 2 both lie between cell 0 and cell 3; cell 1 comes first
    // among cell 0's corners.
    let mesh = mesh_from_edges(4, &[(0, 1), (0, 2), (1, 3), (2, 3)]);
    let mut wall = Wall::starting_at(0, vec![true; 4]);
    assert_eq!(claim_step(&mesh, 0, 3, &mut wall), ControlFlow::Continue(()));
    assert_eq!(wall.cells, vec![0, 1, 3]);
    // When that first bridge is forbidden, the step ends there and the
    // second bridge is never tried.
    let mut blocked = Wall::starting_at(0, vec![true, false, true, true]);
    assert_eq!(claim_step(&mesh, 0, 3, &mut blocked), ControlFlow::Break(()));
    assert_eq!(blocked.cells, vec![0]);
}
