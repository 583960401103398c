use procgen_tectonics::boundaries::BoundaryClass;
use procgen_tectonics::lifecycle::{
    absorb_plate, colliding_pairs, compact, compacted_ids, continental_fronts, live_plates,
    select_live, SharedFront,
};
use procgen_tectonics::material::{continental_thickness, relabel_parcels, MaterialScope};
use procgen_tectonics::orphans::{accrete_orphans, remap_parcel_plates};
use procgen_tectonics::topology::{Corner, MeshTopology};
use procgen_tectonics::transport::Parcel;

fn mesh_from_edges(cell_count: usize, edges: &[(usize, usize)]) -> MeshTopology {
    let mut cell_corners = vec![Vec::new(); cell_count];
    let mut edge_cells = Vec::new();
    for (edge, &(a, b)) in edges.iter().enumerate() {
        cell_corners[a].push(Corner { neighbor: b, edge });
        cell_corners[b].push(Corner { neighbor: a, edge });
        edge_cells.push([a, b]);
    }
    MeshTopology {
        cell_corners,
        edge_cells,
    }
}

/// A centre cell, an inner ring of six and an outer ring of twelve.
fn hex_patch() -> MeshTopology {
    let mut edges = Vec::new();
    for inner in 1..=6 {
        edges.push((inner, 0));
    }
    for inner in 1..=6 {
        edges.push((inner, inner % 6 + 1));
    }
    let outer = |k: usize| 7 + k % 12;
    for inner in 1..=6 {
        let k = 2 * (inner - 1);
        edges.push((inner, outer(k)));
        edges.push((inner, outer(k + 1)));
        edges.push((inner, outer(k + 2)));
    }
    for k in 0..12 {
        edges.push((outer(k), outer(k + 1)));
    }
    mesh_from_edges(19, &edges)
}

/// The centre is plate one, the inner ring plate zero, the outer ring plate
/// two; the first half of the outer ring is ocean.
fn three_plates() -> (MeshTopology, Vec<usize>, Vec<bool>, Vec<BoundaryClass>) {
    let mesh = hex_patch();
    let cell_plates: Vec<usize> = (0..19)
        .map(|cell| match cell {
            0 => 1,
            1..=6 => 0,
            _ => 2,
        })
        .collect();
    let continental: Vec<bool> = (0..19).map(|cell| !(7..=12).contains(&cell)).collect();
    let edge_classes = vec![BoundaryClass::Convergent; mesh.edge_cells.len()];
    (mesh, cell_plates, continental, edge_classes)
}

#[test]
fn fronts_count_convergent_continental_edges_per_pair_in_pair_order() {
    let (mesh, cell_plates, continental, edge_classes) = three_plates();
    let fronts = continental_fronts(&mesh, &edge_classes, &cell_plates, &continental);
    assert_eq!(
        fronts,
        vec![
            SharedFront { low: 0, high: 1, edges: 6 },
            SharedFront { low: 0, high: 2, edges: 9 },
        ]
    );
}

#[test]
fn an_ocean_or_a_quiet_edge_is_no_front() {
    let (mesh, cell_plates, continental, mut edge_classes) = three_plates();
    for edge in 0..6 {
        edge_classes[edge] = BoundaryClass::Transform;
    }
    let fronts = continental_fronts(&mesh, &edge_classes, &cell_plates, &continental);
    assert_eq!(fronts, vec![SharedFront { low: 0, high: 2, edges: 9 }]);
    let oceans = vec![false; 19];
    assert!(continental_fronts(&mesh, &edge_classes, &cell_plates, &oceans).is_empty());
}

#[test]
fn a_pair_collides_only_with_a_long_enough_front() {
    let (mesh, cell_plates, continental, edge_classes) = three_plates();
    assert_eq!(
        colliding_pairs(&mesh, &edge_classes, &cell_plates, &continental, 0),
        vec![(0, 1), (0, 2)]
    );
    assert_eq!(
        colliding_pairs(&mesh, &edge_classes, &cell_plates, &continental, 7),
        vec![(0, 2)]
    );
    assert!(colliding_pairs(&mesh, &edge_classes, &cell_plates, &continental, 10).is_empty());
}

#[test]
fn absorbing_a_plate_leaves_its_id_owning_nothing() {
    let mut cell_plates = vec![0, 1, 2, 1, 0];
    absorb_plate(&mut cell_plates, 1, 2);
    assert_eq!(cell_plates, vec![0, 2, 2, 2, 0]);
}

#[test]
fn a_suture_takes_the_whole_of_the_plate_it_absorbs() {
    let cell_plates = vec![0, 0, 0];
    let mut parcels = vec![
        Parcel { plate: 1, cell: 0, continental: true, thickness: 2 },
        Parcel { plate: 1, cell: 2, continental: false, thickness: 1 },
        Parcel { plate: 2, cell: 1, continental: true, thickness: 1 },
    ];
    relabel_parcels(&mut parcels, &cell_plates, 1, 0, MaterialScope::WholePlate);
    assert_eq!(parcels.iter().map(|p| p.plate).collect::<Vec<_>>(), vec![0, 0, 2]);
}

#[test]
fn a_rift_hands_only_the_new_halfs_own_cells() {
    let cell_plates = vec![0, 3, 3];
    let mut parcels = vec![
        Parcel { plate: 0, cell: 0, continental: true, thickness: 1 },
        Parcel { plate: 0, cell: 1, continental: true, thickness: 1 },
        Parcel { plate: 2, cell: 2, continental: true, thickness: 1 },
    ];
    let total = continental_thickness(&parcels);
    relabel_parcels(&mut parcels, &cell_plates, 0, 3, MaterialScope::OwnCells);
    assert_eq!(parcels.iter().map(|p| p.plate).collect::<Vec<_>>(), vec![0, 3, 2]);
    assert_eq!(continental_thickness(&parcels), total);
}

#[test]
fn live_plates_are_the_ids_owning_a_cell_ascending() {
    assert_eq!(live_plates(&vec![3, 0, 3, 1], 5), vec![0, 1, 3]);
    assert_eq!(compacted_ids(&vec![3, 0, 3, 1], &vec![0, 1, 3], 5), vec![0, 1, usize::MAX, 2, usize::MAX]);
}

#[test]
fn select_live_keeps_each_live_plates_value_in_order() {
    assert_eq!(select_live(&vec![10, 11, 12, 13], &vec![0, 2]), vec![10, 12]);
    assert_eq!(select_live(&vec![0.5_f32, 0.25], &vec![1]), vec![0.25]);
}

fn own_parcels(cell_plates: &[usize]) -> Vec<Parcel> {
    cell_plates
        .iter()
        .enumerate()
        .map(|(cell, &plate)| Parcel { plate, cell, continental: true, thickness: 1 })
        .collect()
}

#[test]
fn compaction_removes_the_ids_that_own_nothing_and_keeps_the_rest_in_order() {
    let mut cell_plates = vec![0, 2, 2, 0, 4];
    let mut parcels = own_parcels(&cell_plates);
    let mut cell_winner = vec![0, 1, 2, 3, 4];
    let outcome = compact(&mut cell_plates, 5, &mut parcels, &mut cell_winner).unwrap();
    assert_eq!(outcome.live, vec![0, 2, 4]);
    assert_eq!(outcome.accreted, 0);
    assert!(outcome.cell_thickness.is_none());
    assert_eq!(cell_plates, vec![0, 1, 1, 0, 2]);
    assert_eq!(parcels.iter().map(|p| p.plate).collect::<Vec<_>>(), vec![0, 1, 1, 0, 2]);
    assert_eq!(cell_winner, vec![0, 1, 2, 3, 4]);
}

#[test]
fn a_world_with_no_hole_compacts_to_itself() {
    let mut cell_plates = vec![1, 0, 1];
    let mut parcels = own_parcels(&cell_plates);
    let before = parcels.clone();
    let mut cell_winner = vec![0, 1, 2];
    assert!(compact(&mut cell_plates, 2, &mut parcels, &mut cell_winner).is_none());
    assert_eq!(cell_plates, vec![1, 0, 1]);
    assert_eq!(parcels, before);
}

#[test]
fn an_emptied_plates_continent_merges_into_the_column_above_it() {
    // Plate 1 owns no cell; its continent lies under cell 1 and its floor
    // under cell 2.
    let mut cell_plates = vec![0, 2, 2];
    let mut parcels = own_parcels(&cell_plates);
    parcels.push(Parcel { plate: 1, cell: 1, continental: true, thickness: 3 });
    parcels.push(Parcel { plate: 1, cell: 2, continental: false, thickness: 1 });
    let mut cell_winner = vec![0, 1, 2];
    let before = continental_thickness(&parcels);
    let outcome = compact(&mut cell_plates, 3, &mut parcels, &mut cell_winner).unwrap();
    assert_eq!(outcome.accreted, 1);
    assert_eq!(outcome.cell_thickness, Some(vec![1, 4, 1]));
    // The merged continent and the emptied plate's floor are the parcels
    // dropped.
    assert_eq!(outcome.dropped, vec![false, false, false, true, true]);
    assert_eq!(parcels.len(), 3);
    assert_eq!(parcels[1], Parcel { plate: 1, cell: 1, continental: true, thickness: 4 });
    assert_eq!(continental_thickness(&parcels), before);
    assert_eq!(cell_plates, vec![0, 1, 1]);
}

#[test]
fn a_column_of_an_emptied_plate_passes_to_the_plate_owning_its_cell() {
    // Cell 1 reads a parcel of plate 1, which owns no cell.
    let cell_plates = vec![0, 2, 2];
    let mut parcels = vec![
        Parcel { plate: 0, cell: 0, continental: true, thickness: 1 },
        Parcel { plate: 1, cell: 1, continental: true, thickness: 2 },
        Parcel { plate: 2, cell: 2, continental: true, thickness: 1 },
    ];
    let cell_winner = vec![0, 1, 2];
    let compacted = vec![0, usize::MAX, 1];
    let (accreted, thickness) = accrete_orphans(&mut parcels, &cell_winner, &cell_plates, &compacted);
    // The column relabels rather than merging into itself.
    assert_eq!(accreted, 0);
    assert_eq!(parcels[1].plate, 2);
    assert_eq!(thickness, Some(vec![1, 2, 1]));
}

#[test]
fn remap_renumbers_and_points_cells_at_their_parcels() {
    let cell_plates = vec![0, 2];
    let mut parcels = vec![
        Parcel { plate: 1, cell: 0, continental: false, thickness: 1 },
        Parcel { plate: 0, cell: 0, continental: true, thickness: 1 },
        Parcel { plate: 2, cell: 1, continental: true, thickness: 1 },
    ];
    let mut cell_winner = vec![1, 2];
    let compacted = vec![0, usize::MAX, 1];
    let (accreted, thickness, dropped) =
        remap_parcel_plates(&mut parcels, &mut cell_winner, &cell_plates, &compacted);
    assert_eq!(accreted, 0);
    assert!(thickness.is_none());
    assert_eq!(dropped, vec![true, false, false]);
    assert_eq!(
        parcels,
        vec![
            Parcel { plate: 0, cell: 0, continental: true, thickness: 1 },
            Parcel { plate: 1, cell: 1, continental: true, thickness: 1 },
        ]
    );
    assert_eq!(cell_winner, vec![0, 1]);
}
