use procgen_tectonics::crust::{cell_counts, check_crust_config, class_of, nearest_free_cell};
use procgen_tectonics::topology::{Corner, MeshTopology};
use procgen_tectonics::{CrustClass, CrustClassificationError};

fn mesh_from_edges(cell_count: usize, edges: &[(usize, usize)]) -> MeshTopology {
    let mut cell_corners = vec![Vec::new(); cell_count];
    let mut edge_cells = Vec::new();
    for (edge, &(a, b)) in edges.iter().enumerate() {
        cell_corners[a].push(Corner { neighbor: b, edge });
        cell_corners[b].push(Corner { neighbor: a, edge });
        edge_cells.push([a, b]);
    }
    MeshTopology {
        cell_corners,
        edge_cells,
    }
}

#[test]
fn crust_config_checks_run_in_order() {
    assert_eq!(
        check_crust_config(false, 0, 0, 0, false, 200),
        Err(CrustClassificationError::InvalidContinentalFraction)
    );
    assert_eq!(
        check_crust_config(true, 0, 24, 512, true, 0),
        Err(CrustClassificationError::InvalidCoreCount)
    );
    assert_eq!(
        check_crust_config(true, 25, 24, 512, true, 0),
        Err(CrustClassificationError::InvalidCoreCount)
    );
    assert_eq!(
        check_crust_config(true, 5, 600, 512, true, 0),
        Err(CrustClassificationError::InvalidNucleusCount)
    );
    assert_eq!(
        check_crust_config(true, 5, 24, 512, false, 0),
        Err(CrustClassificationError::InvalidClusterSpread)
    );
    assert_eq!(
        check_crust_config(true, 5, 24, 512, true, 100),
        Err(CrustClassificationError::InvalidGrowthRoughness)
    );
    assert_eq!(check_crust_config(true, 5, 24, 512, true, 99), Ok(()));
}

#[test]
fn crust_class_follows_whether_the_crust_was_ever_re_made() {
    assert_eq!(class_of(true), CrustClass::Continental);
    assert_eq!(class_of(false), CrustClass::Oceanic);
    assert_eq!(CrustClass::ALL, [CrustClass::Oceanic, CrustClass::Continental]);
}

#[test]
fn cell_counts_are_oceanic_then_continental() {
    assert_eq!(cell_counts(&vec![true, false, false, true, false]), [3, 2]);
    assert_eq!(cell_counts(&vec![]), [0, 0]);
}

#[test]
fn the_nearest_free_cell_is_the_first_a_breadth_first_walk_finds() {
    // A star: cell 0 joined to 1, 2, 3, and cell 1 joined on to 4.
    let mesh = mesh_from_edges(5, &[(0, 1), (0, 2), (0, 3), (1, 4)]);
    assert_eq!(nearest_free_cell(&mesh, &vec![false; 5], 0), 0);
    assert_eq!(nearest_free_cell(&mesh, &vec![true, false, false, false, false], 0), 1);
    assert_eq!(nearest_free_cell(&mesh, &vec![true, true, false, false, false], 0), 2);
    // From cell 4 the walk reaches 1, then 0, then 2.
    assert_eq!(nearest_free_cell(&mesh, &vec![true, true, false, true, true], 4), 2);
}

#[test]
fn crust_errors_read_as_sentences() {
    assert_eq!(
        CrustClassificationError::InvalidGrowthRoughness.message(),
        "crust growth roughness cannot exceed 99%"
    );
    assert_eq!(
        CrustClassificationError::InvalidCoreCount.message(),
        "core count must be at least one and at most the nucleus count"
    );
}
