use procgen_tectonics::boundaries::BoundaryClass;
use procgen_tectonics::material::{
    continental_thickness, fill_empty_cells, project_to_cells, sample_cells,
    transport_material,
};
use procgen_tectonics::topology::{Corner, MeshTopology};
use procgen_tectonics::transport::{
    cell_thickness, converges_on, reach_ring, Occupancy, Parcel,
    TransportCounts, TRANSPORT_REACH_HOPS,
};

/// A mesh from its edges, in edge order: each edge adds a corner to both of
/// its cells, so a cell's corners come in the order its edges were listed.
fn mesh_from_edges(cell_count: usize, edges: &[(usize, usize)]) -> MeshTopology {
    let mut cell_corners = vec![Vec::new(); cell_count];
    let mut edge_cells = Vec::new();
    for (edge, &(a, b)) in edges.iter().enumerate() {
        cell_corners[a].push(Corner { neighbor: b, edge });
        cell_corners[b].push(Corner { neighbor: a, edge });
        edge_cells.push([a, b]);
    }
    MeshTopology {
        cell_corners,
        edge_cells,
    }
}

/// A patch of a triangulated sphere: cell 0 at the centre, an inner ring
/// of six cells around it, and an outer ring of twelve. Edge 0 joins inner
/// cell 1 to the centre, so its two cells are `[1, 0]`.
fn hex_patch() -> MeshTopology {
    let mut edges = Vec::new();
    for inner in 1..=6 {
        edges.push((inner, 0));
    }
    for inner in 1..=6 {
        edges.push((inner, inner % 6 + 1));
    }
    let outer = |k: usize| 7 + k % 12;
    for inner in 1..=6 {
        let k = 2 * (inner - 1);
        edges.push((inner, outer(k)));
        edges.push((inner, outer(k + 1)));
        edges.push((inner, outer(k + 2)));
    }
    for k in 0..12 {
        edges.push((outer(k), outer(k + 1)));
    }
    mesh_from_edges(19, &edges)
}

/// The parcel each occupied cell reads: continent over ocean floor, then the
/// cell's own plate's continent, then the lower index, which is how parcels
/// standing at one position order.
fn pick_winners(parcels: &[Parcel], occupancy: &Occupancy, owners: &[usize]) -> Vec<Option<usize>> {
    (0..owners.len())
        .map(|cell| {
            occupancy.at(cell).iter().copied().min_by_key(|&index| {
                let parcel = parcels[index];
                let held = parcel.continental && parcel.plate == owners[cell];
                (!parcel.continental, !held, index)
            })
        })
        .collect()
}

/// What one transport left: the counts, and the thickness each cell reads.
struct Outcome {
    counts: TransportCounts,
    cell_thickness: Vec<u32>,
    parcels: Vec<Parcel>,
    cell_plates: Vec<usize>,
}

/// One transport of the material as it stands: judge the occupied cells,
/// make floor where nothing arrived, read the columns, drop what left.
fn transport(
    mesh: &MeshTopology,
    edge_classes: &Vec<BoundaryClass>,
    owners: &Vec<usize>,
    mut parcels: Vec<Parcel>,
) -> Outcome {
    let occupancy = Occupancy::new(owners.len(), &parcels);
    let winners = pick_winners(&parcels, &occupancy, owners);
    let candidates = vec![Vec::new(); owners.len()];
    let outcome = transport_material(mesh, edge_classes, owners, winners, &candidates, &mut parcels);
    Outcome {
        counts: outcome.counts,
        cell_thickness: outcome.cell_thickness,
        parcels,
        cell_plates: outcome.cell_plates,
    }
}

/// The two-plate world: a one-cell oceanic plate, the centre, inside a
/// continental one.
fn two_plate_world(mesh: &MeshTopology) -> (Vec<usize>, Vec<Parcel>) {
    let owners: Vec<usize> = (0..mesh.cell_corners.len())
        .map(|cell| usize::from(cell == 0))
        .collect();
    let parcels = (0..owners.len())
        .map(|cell| Parcel {
            plate: owners[cell],
            cell,
            continental: owners[cell] == 0,
            thickness: 1,
        })
        .collect();
    (owners, parcels)
}

/// What one crossing left behind: where it landed, what the transport
/// counted, and how thick the column in the landing cell then was.
struct Arrival {
    landing: usize,
    counts: TransportCounts,
    landing_thickness: u32,
}

/// One transport over the two-plate world with an extra parcel of the small
/// plate placed `hops` cells inside the large plate, and the whole of the
/// boundary between the two plates classified as `class`. `continental`
/// says what the parcel that crossed is made of.
fn one_arrival(class: BoundaryClass, hops: usize, continental: bool) -> Arrival {
    let mesh = hex_patch();
    let (owners, mut parcels) = two_plate_world(&mesh);
    let arriving = mesh.edge_cells[0][1];
    let touches_arriving = |cell: usize| {
        cell == arriving
            || mesh.cell_corners[arriving]
                .iter()
                .any(|corner| corner.neighbor == cell)
    };
    let mut landing = mesh.edge_cells[0][0];
    for _ in 1..hops {
        landing = mesh.cell_corners[landing]
            .iter()
            .map(|corner| corner.neighbor)
            .find(|&neighbor| !touches_arriving(neighbor))
            .expect("the large plate reaches further than one cell from the small one");
    }
    parcels.push(Parcel {
        plate: owners[arriving],
        cell: landing,
        continental,
        thickness: 1,
    });
    let mut edge_classes = vec![BoundaryClass::Interior; mesh.edge_cells.len()];
    for corner in &mesh.cell_corners[arriving] {
        edge_classes[corner.edge] = class;
    }
    let outcome = transport(&mesh, &edge_classes, &owners, parcels);
    Arrival {
        landing,
        counts: outcome.counts,
        landing_thickness: outcome.cell_thickness[landing],
    }
}

#[test]
fn thickness_a_continent_that_arrives_under_a_continent_thickens_it() {
    for hops in 1..=TRANSPORT_REACH_HOPS {
        let arrival = one_arrival(BoundaryClass::Convergent, hops, true);

        assert_eq!(arrival.counts.accreted_particle_count, 1, "{hops} hops in");
        assert_eq!(arrival.counts.subducted_particle_count, 0, "{hops} hops in");
        assert_eq!(
            arrival.landing_thickness, 2,
            "cell {} stands on both parcels",
            arrival.landing
        );
        assert_eq!(
            arrival.counts.collided_cell_count, 0,
            "a merge is not a stack for the collision count to record"
        );
    }
}

#[test]
fn thickness_a_continent_that_crossed_a_transform_does_not_thicken_anything() {
    for class in [BoundaryClass::Transform, BoundaryClass::Divergent] {
        for hops in 1..=TRANSPORT_REACH_HOPS {
            let arrival = one_arrival(class, hops, true);

            assert_eq!(
                arrival.counts.accreted_particle_count, 0,
                "{class:?}, {hops} hops"
            );
            assert_eq!(
                arrival.landing_thickness, 1,
                "{class:?}, {hops} hops: cell {} stands on one parcel",
                arrival.landing
            );
            assert_eq!(
                arrival.counts.collided_cell_count, 1,
                "{class:?}, {hops} hops: the arrival must stack instead"
            );
        }
    }
}

#[test]
fn a_trench_takes_the_floor_that_arrives_under_it() {
    for hops in 1..=TRANSPORT_REACH_HOPS {
        let arrival = one_arrival(BoundaryClass::Convergent, hops, false);

        assert_eq!(arrival.counts.subducted_particle_count, 1, "{hops} hops in");
        assert_eq!(arrival.counts.accreted_particle_count, 0, "{hops} hops in");
        assert_eq!(
            arrival.counts.collided_cell_count, 0,
            "cell {} kept only the material that won it",
            arrival.landing
        );
    }
}

#[test]
fn material_that_crossed_a_transform_is_not_being_subducted() {
    for class in [BoundaryClass::Transform, BoundaryClass::Divergent] {
        for hops in 1..=TRANSPORT_REACH_HOPS {
            let arrival = one_arrival(class, hops, false);
            assert_eq!(arrival.counts.subducted_particle_count, 0, "{class:?}, {hops} hops");
            assert_eq!(arrival.counts.collided_cell_count, 1, "{class:?}, {hops} hops");
        }
    }
}

#[test]
fn an_arrival_beyond_the_reach_is_not_taken() {
    // The one convergent edge runs from inner cell 1 to the centre, and
    // outer cell 13 is three hops from cell 1: past the two rings a trench is
    // looked for over.
    let mesh = hex_patch();
    let (owners, mut parcels) = two_plate_world(&mesh);
    parcels.push(Parcel { plate: 1, cell: 13, continental: false, thickness: 1 });
    let mut edge_classes = vec![BoundaryClass::Interior; mesh.edge_cells.len()];
    for corner in &mesh.cell_corners[0] {
        if corner.neighbor == 1 {
            edge_classes[corner.edge] = BoundaryClass::Convergent;
        }
    }
    let outcome = transport(&mesh, &edge_classes, &owners, parcels);
    assert_eq!(outcome.counts.subducted_particle_count, 0);
    assert_eq!(outcome.counts.collided_cell_count, 1);
}

#[test]
fn a_still_world_with_no_boundaries_moves_no_thickness() {
    let mesh = hex_patch();
    let (owners, mut parcels) = two_plate_world(&mesh);
    parcels[3].thickness = 5;
    let edge_classes = vec![BoundaryClass::Interior; mesh.edge_cells.len()];
    let outcome = transport(&mesh, &edge_classes, &owners, parcels.clone());
    assert_eq!(outcome.counts.accreted_particle_count, 0);
    assert_eq!(outcome.counts.owner_change_count, 0);
    assert_eq!(outcome.counts.born_particle_count, 0);
    assert_eq!(outcome.parcels, parcels);
    assert_eq!(outcome.cell_thickness[3], 5);
    assert_eq!(outcome.cell_thickness[0], 0);
}

#[test]
fn an_empty_cell_makes_floor_for_its_own_plate() {
    let mesh = hex_patch();
    let (owners, mut parcels) = two_plate_world(&mesh);
    parcels.remove(5);
    let edge_classes = vec![BoundaryClass::Interior; mesh.edge_cells.len()];
    let outcome = transport(&mesh, &edge_classes, &owners, parcels);
    assert_eq!(outcome.counts.born_particle_count, 1);
    let born = outcome.parcels.last().copied().unwrap();
    assert_eq!(
        born,
        Parcel { plate: owners[5], cell: 5, continental: false, thickness: 1 }
    );
    assert_eq!(outcome.cell_thickness[5], 0);
    assert_eq!(outcome.cell_plates[5], owners[5]);
}

#[test]
fn an_empty_cell_reads_the_parcel_it_samples() {
    let owners = vec![0, 0, 1];
    let mut parcels = vec![
        Parcel { plate: 0, cell: 0, continental: true, thickness: 3 },
        Parcel { plate: 1, cell: 2, continental: false, thickness: 1 },
    ];
    let mut winners = vec![Some(0), None, Some(1)];
    let samples = vec![None, Some(0), None];
    let mut removed = vec![false, false];
    let mut counts = TransportCounts::default();
    fill_empty_cells(&owners, &samples, &mut winners, &mut parcels, &mut removed, &mut counts);
    assert_eq!(counts.sampled_cell_count, 1);
    assert_eq!(counts.born_particle_count, 0);
    assert_eq!(winners, vec![Some(0), Some(0), Some(1)]);
    let projection = project_to_cells(&owners, &winners, &parcels);
    assert_eq!(projection.cell_thickness, vec![3, 3, 0]);
    assert_eq!(projection.cell_plates, vec![0, 0, 1]);
    assert_eq!(projection.owner_change_count, 0);
}

#[test]
fn a_cell_taken_by_another_plate_counts_as_an_owner_change() {
    let owners = vec![0, 1];
    let parcels = vec![
        Parcel { plate: 0, cell: 0, continental: true, thickness: 1 },
        Parcel { plate: 0, cell: 1, continental: true, thickness: 2 },
    ];
    let projection = project_to_cells(&owners, &vec![Some(0), Some(1)], &parcels);
    assert_eq!(projection.owner_change_count, 1);
    assert_eq!(projection.cell_plates, vec![0, 0]);
    assert_eq!(projection.cell_winner, vec![0, 1]);
    assert_eq!(projection.cell_thickness, vec![1, 2]);
}

#[test]
fn a_run_with_trenches_keeps_its_continent() {
    // A one-cell continental plate at the centre, converging on everything
    // around it, with an oceanic arrival in each inner cell.
    let mesh = hex_patch();
    let owners: Vec<usize> = (0..19).map(|cell| usize::from(cell == 0)).collect();
    let mut parcels: Vec<Parcel> = (0..19)
        .map(|cell| Parcel { plate: owners[cell], cell, continental: cell < 7, thickness: 1 })
        .collect();
    for cell in 1..7 {
        parcels.push(Parcel { plate: 1, cell, continental: false, thickness: 1 });
    }
    let mut edge_classes = vec![BoundaryClass::Interior; mesh.edge_cells.len()];
    for corner in &mesh.cell_corners[0] {
        edge_classes[corner.edge] = BoundaryClass::Convergent;
    }
    let before: u32 = parcels.iter().filter(|p| p.continental).map(|p| p.thickness).sum();
    let outcome = transport(&mesh, &edge_classes, &owners, parcels);
    let after: u32 = outcome.parcels.iter().filter(|p| p.continental).map(|p| p.thickness).sum();
    assert_eq!(outcome.counts.subducted_particle_count, 6);
    assert_eq!(before, after);
}

#[test]
fn occupancy_lists_each_cells_parcels_in_index_order() {
    let parcels = vec![
        Parcel { plate: 0, cell: 2, continental: true, thickness: 1 },
        Parcel { plate: 0, cell: 0, continental: true, thickness: 1 },
        Parcel { plate: 1, cell: 2, continental: false, thickness: 1 },
    ];
    let occupancy = Occupancy::new(3, &parcels);
    assert_eq!(occupancy.at(0), &[1]);
    assert!(occupancy.at(1).is_empty());
    assert_eq!(occupancy.at(2), &[0, 2]);
}

#[test]
fn the_reach_ring_is_two_hops_in_hop_then_corner_order() {
    let mesh = hex_patch();
    let ring = reach_ring(&mesh, 0);
    assert_eq!(&ring[..6], &[1, 2, 3, 4, 5, 6]);
    assert_eq!(ring.len(), 18);
    let mut sorted = ring.clone();
    sorted.sort_unstable();
    sorted.dedup();
    assert_eq!(sorted.len(), 18);
    assert!(!ring.contains(&0));
}

#[test]
fn convergence_is_found_within_the_ring_and_nowhere_else() {
    let mesh = hex_patch();
    let owners: Vec<usize> = (0..19).map(|cell| usize::from(cell == 0)).collect();
    let mut edge_classes = vec![BoundaryClass::Interior; mesh.edge_cells.len()];
    edge_classes[0] = BoundaryClass::Convergent;
    let ring = reach_ring(&mesh, 7);
    // Cell 7 is one hop from inner cell 1, which holds the convergent edge
    // to the plate at the centre.
    assert!(converges_on(&mesh, &edge_classes, &owners, 7, &ring, 1));
    // The centre, also within reach, holds the same edge from the other
    // side, where plate zero owns the cell across.
    assert!(converges_on(&mesh, &edge_classes, &owners, 7, &ring, 0));
    assert!(!converges_on(&mesh, &edge_classes, &owners, 7, &ring, 2));
    // Cell 13 is three hops from cell 1, so plate one's side is out of reach.
    let far = reach_ring(&mesh, 13);
    assert!(!converges_on(&mesh, &edge_classes, &owners, 13, &far, 1));
    assert!(converges_on(&mesh, &edge_classes, &owners, 13, &far, 0));
}

#[test]
fn a_floor_cell_reads_no_thickness() {
    assert_eq!(cell_thickness(Parcel { plate: 0, cell: 0, continental: false, thickness: 4 }), 0);
    assert_eq!(cell_thickness(Parcel { plate: 0, cell: 0, continental: true, thickness: 4 }), 4);
    assert!(Parcel { plate: 0, cell: 0, continental: true, thickness: 1 }.is_continental());
}

#[test]
fn default_counts_are_zero() {
    let counts = TransportCounts::default();
    assert_eq!(counts.owner_change_count + counts.subducted_particle_count, 0);
    assert_eq!(counts.maximum_collision_stack, 0);
    assert_eq!(counts.thickness_transfer_count, 0);
}

#[test]
fn a_step_keeps_its_continent_and_counts_every_parcel_it_makes_or_takes() {
    let mesh = hex_patch();
    let (owners, mut parcels) = two_plate_world(&mesh);
    // The oceanic plate's floor and a slab of its continent land in cell 1,
    // beside the trench between cell 1 and the centre; cell 18's own parcel
    // has moved into cell 17, leaving cell 18 empty.
    parcels.push(Parcel { plate: 1, cell: 1, continental: false, thickness: 1 });
    parcels.push(Parcel { plate: 1, cell: 1, continental: true, thickness: 2 });
    parcels[18].cell = 17;
    let mut edge_classes = vec![BoundaryClass::Interior; mesh.edge_cells.len()];
    edge_classes[0] = BoundaryClass::Convergent;
    let before = continental_thickness(&parcels);
    let carried = parcels.len();

    let occupancy = Occupancy::new(owners.len(), &parcels);
    let winners = pick_winners(&parcels, &occupancy, &owners);
    let candidates = vec![Vec::new(); owners.len()];
    let outcome = transport_material(&mesh, &edge_classes, &owners, winners, &candidates, &mut parcels);

    let counts = outcome.counts;
    assert_eq!(counts.subducted_particle_count, 1);
    assert_eq!(counts.accreted_particle_count, 1);
    assert_eq!(counts.born_particle_count, 1);
    assert_eq!(continental_thickness(&parcels), before);
    assert_eq!(parcels.len(), carried - 1 - 1 + 1);
    assert_eq!(
        *parcels.last().unwrap(),
        Parcel { plate: 0, cell: 18, continental: false, thickness: 1 }
    );
    // Cell 1 reads its own column, thickened by the slab.
    assert_eq!(outcome.cell_thickness[1], 3);
    assert_eq!(outcome.removed.len(), carried + 1);
}

#[test]
fn an_empty_cell_samples_the_first_candidate_still_standing() {
    let winners = vec![Some(0), None, None];
    let candidates = vec![vec![2], vec![3, 1], vec![3]];
    let removed = vec![false, false, false, true];
    assert_eq!(sample_cells(&winners, &candidates, &removed), vec![None, Some(1), None]);
}
