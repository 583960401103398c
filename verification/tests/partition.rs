use procgen_tectonics::partition::{
    cells_by_face, check_partition_config, grow_partition, pick_cell, GrowthBounds, GrowthCosts,
    GrowthScales, PlateGrowth, BASE_GROWTH_COST, MAX_GROWTH_ROUGHNESS, UNASSIGNED_PLATE,
};
use procgen_tectonics::topology::{Corner, MeshTopology};
use procgen_tectonics::{PlatePartition, PlatePartitionError, StageInputError};

fn mesh_from_edges(cell_count: usize, edges: &[(usize, usize)]) -> MeshTopology {
    let mut cell_corners = vec![Vec::new(); cell_count];
    let mut edge_cells = Vec::new();
    for (edge, &(a, b)) in edges.iter().enumerate() {
        cell_corners[a].push(Corner { neighbor: b, edge });
        cell_corners[b].push(Corner { neighbor: a, edge });
        edge_cells.push([a, b]);
    }
    MeshTopology {
        cell_corners,
        edge_cells,
    }
}

fn strip(cell_count: usize) -> MeshTopology {
    let edges: Vec<(usize, usize)> = (1..cell_count).map(|cell| (cell - 1, cell)).collect();
    mesh_from_edges(cell_count, &edges)
}

fn flat_costs(edge_count: usize) -> GrowthCosts {
    GrowthCosts {
        roughness: 0,
        edge_samples: vec![0; edge_count],
        scales: None,
    }
}

#[test]
fn validation_reports_the_first_broken_rule() {
    let ok = PlatePartition { cell_plates: vec![0, 1, 1], plate_count: 2 };
    assert_eq!(ok.validate(3), Ok(()));
    assert_eq!(ok.validate(4), Err(StageInputError::Cells));
    let stray = PlatePartition { cell_plates: vec![0, 2, 1], plate_count: 2 };
    assert_eq!(stray.validate(3), Err(StageInputError::PlateOwnership));
    let hole = PlatePartition { cell_plates: vec![0, 2, 2], plate_count: 3 };
    assert_eq!(hole.validate(3), Err(StageInputError::EmptyPlate));
}

#[test]
fn partition_config_checks_run_in_order() {
    assert_eq!(check_partition_config(0, false, false, false, 200), Err(PlatePartitionError::NoArcs));
    assert_eq!(
        check_partition_config(16, false, false, false, 200),
        Err(PlatePartitionError::InvalidCurvature)
    );
    assert_eq!(
        check_partition_config(16, true, false, false, 200),
        Err(PlatePartitionError::InvalidSubdividedFraction)
    );
    assert_eq!(
        check_partition_config(16, true, true, false, 200),
        Err(PlatePartitionError::InvalidPieceFraction)
    );
    assert_eq!(
        check_partition_config(16, true, true, true, MAX_GROWTH_ROUGHNESS + 1),
        Err(PlatePartitionError::InvalidGrowthRoughness)
    );
    assert_eq!(check_partition_config(16, true, true, true, MAX_GROWTH_ROUGHNESS), Ok(()));
}

#[test]
fn partition_errors_read_as_sentences() {
    assert_eq!(PlatePartitionError::NoArcs.message(), "at least one crack arc is required");
    assert_eq!(
        PlatePartitionError::InvalidGrowthRoughness.message(),
        "plate growth roughness cannot exceed 99%"
    );
}

#[test]
fn growth_stays_within_a_face() {
    let bounds = GrowthBounds::WithinFaces(vec![0, 0, 1]);
    assert!(bounds.passable(0, 1));
    assert!(!bounds.passable(1, 2));
    assert!(GrowthBounds::WholeSphere.passable(1, 2));
}

#[test]
fn an_edge_cost_varies_around_the_baseline_and_scales() {
    let costs = GrowthCosts { roughness: 10, edge_samples: vec![25, 20], scales: None };
    // 25 modulo 21 is 4, so the cost is 100 - 10 + 4.
    assert_eq!(costs.edge_cost(0, 0, 0), 94);
    assert_eq!(costs.edge_cost(1, 0, 0), BASE_GROWTH_COST + 10);
    let scaled = GrowthCosts {
        roughness: 10,
        edge_samples: vec![25],
        scales: Some(GrowthScales { region: vec![2048], cell: vec![1024, 512] }),
    };
    assert_eq!(scaled.edge_cost(0, 0, 0), 188);
    assert_eq!(scaled.edge_cost(0, 0, 1), 94);
}

#[test]
fn growth_settles_the_cheapest_arrival_first() {
    let mesh = strip(5);
    let mut growth = PlateGrowth::new(&mesh, GrowthBounds::WholeSphere, flat_costs(4));
    growth.seed(0, 0, 0);
    growth.seed(4, 1, 0);
    assert!(growth.reached(0));
    assert!(!growth.reached(2));
    growth.grow();
    // The middle cell is as far from both seeds, and the first seed's
    // arrival was proposed first.
    assert_eq!(growth.into_cell_plates(), vec![0, 0, 0, 1, 1]);
}

#[test]
fn a_head_start_lets_one_region_reach_further() {
    let mesh = strip(5);
    let mut growth = PlateGrowth::new(&mesh, GrowthBounds::WholeSphere, flat_costs(4));
    growth.seed(0, 0, 0);
    growth.seed(4, 1, 250);
    let mut settled = Vec::new();
    while let Some(cell) = growth.settle_next() {
        settled.push(cell);
    }
    assert_eq!(settled, vec![1, 2, 3]);
    assert_eq!(growth.cell_plates(), &vec![0, 0, 0, 0, 1]);
}

#[test]
fn a_partition_grows_one_plate_per_seed_inside_its_face() {
    let mesh = strip(4);
    let partition = grow_partition(&mesh, vec![0, 0, 1, 1], &vec![0, 3], flat_costs(3));
    assert_eq!(partition, PlatePartition { cell_plates: vec![0, 0, 1, 1], plate_count: 2 });
    // A face without a seed stays unassigned.
    let unseeded = grow_partition(&mesh, vec![0, 0, 1, 1], &vec![1], flat_costs(3));
    assert_eq!(
        unseeded.cell_plates,
        vec![0, 0, UNASSIGNED_PLATE, UNASSIGNED_PLATE]
    );
}

#[test]
fn cells_are_grouped_by_face_ascending() {
    let groups = cells_by_face(&vec![1, 0, 1, 2], 4);
    assert_eq!(groups, vec![vec![1], vec![0, 2], vec![3], vec![]]);
    assert_eq!(pick_cell(&vec![4, 7, 9], 5), 9);
    assert_eq!(pick_cell(&vec![4, 7, 9], 3), 4);
}

#[test]
fn a_cell_joins_the_plate_whose_seed_reaches_it_most_cheaply() {
    // Seeds at both ends of a strip of five. The two left edges cost 199
    // and the two right ones cost 1, so cell 2 is two steps from either
    // seed but far cheaper to reach from the right, while cell 1 is still
    // cheaper from the left.
    let mesh = strip(5);
    let costs = GrowthCosts {
        roughness: MAX_GROWTH_ROUGHNESS,
        edge_samples: vec![198, 198, 0, 0],
        scales: None,
    };
    assert_eq!(costs.edge_cost(0, 0, 1), 199);
    assert_eq!(costs.edge_cost(3, 0, 3), 1);
    let partition = grow_partition(&mesh, vec![0; 5], &vec![0, 4], costs);
    assert_eq!(partition.cell_plates, vec![0, 0, 1, 1, 1]);
}
