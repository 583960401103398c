use procgen_tectonics::base_elevation::margin_cells;
use procgen_tectonics::boundaries::{
    boundary_and_slab_counts, check_classification_inputs, count_class, SlabSide,
};
use procgen_tectonics::material::{
    covered_continental_parcel_count, drop_flagged, foreign_continental_parcel_count,
    initial_parcels, maximum_thickness, survivor_positions, thickened_cell_count,
};
use procgen_tectonics::migration::{apply_cell_changes, check_migration_inputs, contested_cell_count};
use procgen_tectonics::seafloor_age::{prior_counts, ridge_sources, PriorCounts};
use procgen_tectonics::topology::{Corner, MeshTopology};
use procgen_tectonics::transport::Parcel;
use procgen_tectonics::{BoundaryClass, BoundaryClassificationError, PlateMigrationError};

fn mesh_from_edges(cell_count: usize, edges: &[(usize, usize)]) -> MeshTopology {
    let mut cell_corners = vec![Vec::new(); cell_count];
    let mut edge_cells = Vec::new();
    for (edge, &(a, b)) in edges.iter().enumerate() {
        cell_corners[a].push(Corner { neighbor: b, edge });
        cell_corners[b].push(Corner { neighbor: a, edge });
        edge_cells.push([a, b]);
    }
    MeshTopology {
        cell_corners,
        edge_cells,
    }
}

#[test]
fn ridges_start_from_the_oceanic_cells_beside_divergent_edges() {
    let mesh = mesh_from_edges(5, &[(0, 1), (1, 2), (2, 3), (3, 4)]);
    let edge_classes = vec![
        BoundaryClass::Divergent,
        BoundaryClass::Interior,
        BoundaryClass::Divergent,
        BoundaryClass::Convergent,
    ];
    let cell_plates = vec![0, 1, 1, 2, 2];
    let oceanic = vec![true, true, false, true, true];
    let sources = ridge_sources(&mesh, &edge_classes, &cell_plates, &oceanic, 3);
    assert_eq!(sources.ridge_cells, vec![0, 1, 3]);
    assert_eq!(sources.ridge_plates, vec![true, true, true]);
}

#[test]
fn prior_counts_separate_dated_and_fallback_ocean() {
    let cell_plates = vec![0, 0, 1, 1, 2];
    let oceanic = vec![true, true, true, true, false];
    let cell_hops = vec![Some(0), Some(1), None, None, None];
    let ridge_plates = vec![true, false, false];
    let counts = prior_counts(&cell_hops, &oceanic, &cell_plates, &ridge_plates);
    assert_eq!(
        counts,
        PriorCounts {
            oceanic_cell_count: 4,
            ridge_cell_count: 1,
            ridge_plate_count: 1,
            ridge_less_plate_count: 1,
            fallback_cell_count: 2,
        }
    );
}

#[test]
fn the_margin_is_one_to_width_hops_inland() {
    let hops = vec![Some(0), Some(1), Some(2), Some(3), None];
    assert_eq!(margin_cells(&hops, 2), vec![1, 2]);
    assert!(margin_cells(&hops, 0).is_empty());
}

#[test]
fn a_migration_moves_only_the_cells_it_names() {
    assert_eq!(apply_cell_changes(&vec![0, 1, 2], &vec![None, Some(0), None]), vec![0, 0, 2]);
    assert_eq!(contested_cell_count(&vec![2, 0, 2, 1, 2, 1], 4), 2);
    assert_eq!(contested_cell_count(&vec![], 4), 0);
}

#[test]
fn migration_inputs_are_checked_in_order() {
    assert_eq!(
        check_migration_inputs(false, 3, 4, 1, 2, [9, 8, 7], 6),
        Err(PlateMigrationError::InvalidMinimumConvergence)
    );
    assert_eq!(
        check_migration_inputs(true, 3, 4, 1, 2, [9, 8, 7], 6),
        Err(PlateMigrationError::CellCountMismatch)
    );
    assert_eq!(
        check_migration_inputs(true, 4, 4, 1, 2, [9, 8, 7], 6),
        Err(PlateMigrationError::PlateCountMismatch)
    );
    assert_eq!(
        check_migration_inputs(true, 4, 4, 2, 2, [6, 6, 7], 6),
        Err(PlateMigrationError::BoundaryCountMismatch)
    );
    assert_eq!(
        check_migration_inputs(true, 4, 4, 2, 2, [6, 5, 6], 6),
        Err(PlateMigrationError::BoundaryCountMismatch)
    );
    assert_eq!(check_migration_inputs(true, 4, 4, 2, 2, [6, 6, 6], 6), Ok(()));
}

#[test]
fn only_convergent_boundary_edges_are_slab_and_every_boundary_edge_counts() {
    // Cells 0 and 1 are plate 0, cells 2 and 3 plate 1; plate 2 owns nothing.
    let edge_cells = vec![[0, 1], [0, 2], [1, 3], [1, 2], [3, 0], [2, 3], [2, 0]];
    let classes = vec![
        BoundaryClass::Interior,
        BoundaryClass::Convergent,
        BoundaryClass::Convergent,
        BoundaryClass::Transform,
        BoundaryClass::Convergent,
        BoundaryClass::Convergent,
        BoundaryClass::Convergent,
    ];
    let sides = vec![
        SlabSide::First,
        SlabSide::First,
        SlabSide::Second,
        SlabSide::First,
        SlabSide::Second,
        SlabSide::First,
        SlabSide::Neither,
    ];
    let (boundary, slab) = boundary_and_slab_counts(&edge_cells, &vec![0, 0, 1, 1], &classes, &sides, 3);
    assert_eq!(boundary, vec![5, 5, 0]);
    assert_eq!(slab, vec![2, 1, 0]);
}

#[test]
fn classification_inputs_are_checked_cells_first() {
    assert_eq!(
        check_classification_inputs(3, 4, 2, 1),
        Err(BoundaryClassificationError::CellCountMismatch)
    );
    assert_eq!(
        check_classification_inputs(4, 4, 2, 1),
        Err(BoundaryClassificationError::PlateCountMismatch)
    );
    assert_eq!(check_classification_inputs(4, 4, 2, 2), Ok(()));
    assert_eq!(
        count_class(
            &vec![BoundaryClass::Convergent, BoundaryClass::Interior, BoundaryClass::Convergent],
            BoundaryClass::Convergent
        ),
        2
    );
}

#[test]
fn every_cell_starts_with_one_parcel_of_its_own() {
    let parcels = initial_parcels(&vec![1, 0], &vec![true, false]);
    assert_eq!(
        parcels,
        vec![
            Parcel { plate: 1, cell: 0, continental: true, thickness: 1 },
            Parcel { plate: 0, cell: 1, continental: false, thickness: 1 },
        ]
    );
}

#[test]
fn column_statistics_read_only_continent() {
    let parcels = vec![
        Parcel { plate: 0, cell: 0, continental: true, thickness: 3 },
        Parcel { plate: 1, cell: 0, continental: true, thickness: 1 },
        Parcel { plate: 1, cell: 1, continental: false, thickness: 9 },
        Parcel { plate: 0, cell: 2, continental: true, thickness: 1 },
    ];
    assert_eq!(maximum_thickness(&parcels), 3);
    assert_eq!(maximum_thickness(&vec![]), 0);
    assert_eq!(thickened_cell_count(&vec![3, 0, 1, 2]), 2);
    // Three continental parcels stand in two cells, so one is covered.
    assert_eq!(covered_continental_parcel_count(&parcels, 3), 1);
    // Cell 0 is plate 0's, so the plate 1 parcel under it is foreign.
    assert_eq!(foreign_continental_parcel_count(&parcels, &vec![0, 1, 0]), 1);
}

#[test]
fn dropping_keeps_the_survivors_in_order() {
    let removed = vec![false, true, false, true];
    assert_eq!(drop_flagged(&vec!['a', 'b', 'c', 'd'], &removed), vec!['a', 'c']);
    assert_eq!(survivor_positions(&removed), vec![0, usize::MAX, 1, usize::MAX]);
}

#[test]
fn a_boundary_source_reaches_its_own_plate_breadth_first_to_its_depth() {
    let mesh = mesh_from_edges(7, &[(0, 1), (1, 2), (2, 3), (3, 4), (4, 5), (5, 6)]);
    let cell_plates = vec![0, 0, 0, 1, 0, 0, 0];
    assert_eq!(
        procgen_tectonics::deformation::plate_reach(&mesh, &cell_plates, 1, 2),
        vec![(1, 0), (0, 1), (2, 1)]
    );
    assert_eq!(
        procgen_tectonics::deformation::plate_reach(&mesh, &cell_plates, 4, 1),
        vec![(4, 0), (5, 1)]
    );
    assert_eq!(procgen_tectonics::deformation::plate_reach(&mesh, &cell_plates, 4, 0), vec![(4, 0)]);
}
