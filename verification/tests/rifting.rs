use procgen_tectonics::rifting::{
    half_cells, owned_cells, rift_halves, rift_sides, rift_start, split_off, wall_flags,
};
use procgen_tectonics::topology::{Corner, MeshTopology};

fn mesh_from_edges(cell_count: usize, edges: &[(usize, usize)]) -> MeshTopology {
    let mut cell_corners = vec![Vec::new(); cell_count];
    let mut edge_cells = Vec::new();
    for (edge, &(a, b)) in edges.iter().enumerate() {
        cell_corners[a].push(Corner { neighbor: b, edge });
        cell_corners[b].push(Corner { neighbor: a, edge });
        edge_cells.push([a, b]);
    }
    MeshTopology {
        cell_corners,
        edge_cells,
    }
}

fn strip(cell_count: usize) -> MeshTopology {
    let edges: Vec<(usize, usize)> = (1..cell_count).map(|cell| (cell - 1, cell)).collect();
    mesh_from_edges(cell_count, &edges)
}

#[test]
fn a_rift_starts_from_the_cell_its_key_picks_among_the_plates_own() {
    let cell_plates = vec![2, 0, 2, 2, 1];
    assert_eq!(owned_cells(&cell_plates, 2), vec![0, 2, 3]);
    assert_eq!(rift_start(&cell_plates, 2, 4), 2);
    assert_eq!(rift_start(&cell_plates, 2, 3), 0);
    assert_eq!(rift_start(&cell_plates, 1, 7), 4);
}

#[test]
fn the_wall_is_marked_cell_by_cell() {
    assert_eq!(wall_flags(5, &vec![3, 1, 3]), vec![false, true, false, true, false]);
}

#[test]
fn only_a_piece_beside_the_wall_can_be_a_half() {
    // A plate along a strip, cut by a wall at cell 3; cell 0 is a piece the
    // wall never reaches.
    let mesh = strip(7);
    let on_wall = wall_flags(7, &vec![3]);
    let components = vec![vec![0], vec![1, 2], vec![4, 5, 6]];
    assert_eq!(rift_sides(&mesh, &components, &on_wall), vec![1, 2]);
    let one_side = vec![vec![0], vec![4, 5, 6]];
    assert_eq!(rift_sides(&mesh, &one_side, &on_wall), vec![1]);
}

#[test]
fn a_rift_splits_the_plate_into_two_halves_and_nothing_else() {
    // Plate 0 owns cells 0 to 6 of a strip of eight; the wall is cell 3.
    let mesh = strip(8);
    let cell_plates = vec![0, 0, 0, 0, 0, 0, 0, 1];
    let components = vec![vec![1, 2], vec![4, 5, 6]];
    let halves = rift_halves(&mesh, &cell_plates, 0, &components, 1, 0);
    // The wall joins the half it shares most edges with; it touches each
    // once, so the tie goes to half zero, and cell 0 follows cell 1.
    assert_eq!(
        halves,
        vec![Some(1), Some(1), Some(1), Some(0), Some(0), Some(0), Some(0), None]
    );
    let (zero, one) = half_cells(&halves);
    assert_eq!(zero, vec![3, 4, 5, 6]);
    assert_eq!(one, vec![0, 1, 2]);
}

#[test]
fn a_cell_no_half_reaches_is_half_zero() {
    // Cell 5 of the plate is cut off from both halves by plate 1.
    let mesh = strip(6);
    let cell_plates = vec![0, 0, 0, 1, 1, 0];
    let components = vec![vec![0], vec![2]];
    let halves = rift_halves(&mesh, &cell_plates, 0, &components, 0, 1);
    assert_eq!(halves, vec![Some(0), Some(0), Some(1), None, None, Some(0)]);
}

#[test]
fn the_new_half_takes_the_new_plate() {
    let mut cell_plates = vec![0, 0, 0, 0];
    split_off(&mut cell_plates, &vec![2, 3], 5);
    assert_eq!(cell_plates, vec![0, 0, 5, 5]);
}
