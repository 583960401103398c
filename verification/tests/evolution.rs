use procgen_tectonics::boundaries::BoundaryClass;
use procgen_tectonics::evolution_diagnostics::PlateEvolutionDiagnostics;
use procgen_tectonics::lifecycle::LifecycleEvents;
use procgen_tectonics::material::{
    continental_thickness, drop_removed, fill_empty_cells, project_to_cells,
};
use procgen_tectonics::topology::{Corner, MeshTopology};
use procgen_tectonics::transport::{resolve_occupied_cells, Occupancy, Parcel, TransportCounts};

fn mesh_from_edges(cell_count: usize, edges: &[(usize, usize)]) -> MeshTopology {
    let mut cell_corners = vec![Vec::new(); cell_count];
    let mut edge_cells = Vec::new();
    for (edge, &(a, b)) in edges.iter().enumerate() {
        cell_corners[a].push(Corner { neighbor: b, edge });
        cell_corners[b].push(Corner { neighbor: a, edge });
        edge_cells.push([a, b]);
    }
    MeshTopology {
        cell_corners,
        edge_cells,
    }
}

/// A strip of ten cells, each joined to the next.
fn strip() -> MeshTopology {
    let edges: Vec<(usize, usize)> = (0..9).map(|cell| (cell, cell + 1)).collect();
    mesh_from_edges(10, &edges)
}

fn pick_winners(parcels: &[Parcel], occupancy: &Occupancy, owners: &[usize]) -> Vec<Option<usize>> {
    (0..owners.len())
        .map(|cell| {
            occupancy.at(cell).iter().copied().min_by_key(|&index| {
                let parcel = parcels[index];
                let held = parcel.continental && parcel.plate == owners[cell];
                (!parcel.continental, !held, index)
            })
        })
        .collect()
}

/// One transport of the material as it stands, returning its counts and
/// the new ownership.
fn transport(
    mesh: &MeshTopology,
    edge_classes: &Vec<BoundaryClass>,
    owners: &Vec<usize>,
    parcels: &mut Vec<Parcel>,
) -> (TransportCounts, Vec<usize>) {
    let occupancy = Occupancy::new(owners.len(), parcels);
    let mut winners = pick_winners(parcels, &occupancy, owners);
    let (mut removed, mut counts) =
        resolve_occupied_cells(mesh, edge_classes, owners, &occupancy, &winners, parcels);
    let samples = vec![None; owners.len()];
    fill_empty_cells(owners, &samples, &mut winners, parcels, &mut removed, &mut counts);
    let projection = project_to_cells(owners, &winners, parcels);
    counts.owner_change_count = projection.owner_change_count;
    let mut cell_winner = projection.cell_winner.clone();
    drop_removed(parcels, &mut cell_winner, &removed);
    (counts, projection.cell_plates)
}

/// The convergent edges of a strip: the ones with a different plate either
/// side.
fn classify(mesh: &MeshTopology, owners: &[usize]) -> Vec<BoundaryClass> {
    mesh.edge_cells
        .iter()
        .map(|cells| {
            if owners[cells[0]] != owners[cells[1]] {
                BoundaryClass::Convergent
            } else {
                BoundaryClass::Interior
            }
        })
        .collect()
}

#[test]
fn a_run_with_real_trenches_subducts_ocean_floor_and_nothing_else() {
    // An oceanic plate on cells 0 to 4 drives into a continental plate on
    // cells 5 to 9; every step carries its material one cell along.
    let mesh = strip();
    let mut owners: Vec<usize> = (0..10).map(|cell| usize::from(cell >= 5)).collect();
    let mut parcels: Vec<Parcel> = (0..10)
        .map(|cell| Parcel { plate: owners[cell], cell, continental: cell >= 5, thickness: 1 })
        .collect();
    let mut diagnostics = PlateEvolutionDiagnostics {
        starting_continental_thickness: continental_thickness(&parcels),
        ..PlateEvolutionDiagnostics::default()
    };
    for _ in 0..4 {
        let edge_classes = classify(&mesh, &owners);
        for parcel in parcels.iter_mut() {
            if parcel.plate == 0 && parcel.cell < 9 {
                parcel.cell += 1;
            }
        }
        let (counts, cell_plates) = transport(&mesh, &edge_classes, &owners, &mut parcels);
        let active = diagnostics.record_transport(counts);
        diagnostics.active_step_count += usize::from(active);
        owners = cell_plates;
    }
    diagnostics.final_continental_thickness = continental_thickness(&parcels);

    assert!(diagnostics.subducted_particle_count > 0);
    assert_eq!(
        diagnostics.final_continental_thickness, diagnostics.starting_continental_thickness,
        "subduction takes ocean floor and nothing else"
    );
    assert_eq!(diagnostics.subducted_particle_count, 4);
    assert_eq!(diagnostics.born_particle_count, 4);
    assert_eq!(diagnostics.active_step_count, 4);
    assert_eq!(owners, vec![0, 0, 0, 0, 0, 1, 1, 1, 1, 1]);
}

#[test]
fn record_transport_sums_counts_and_keeps_the_deepest_stack() {
    let mut diagnostics = PlateEvolutionDiagnostics::default();
    let counts = TransportCounts {
        owner_change_count: 2,
        subducted_particle_count: 3,
        born_particle_count: 0,
        accreted_particle_count: 1,
        collided_cell_count: 4,
        maximum_collision_stack: 5,
        sampled_cell_count: 6,
        thickness_transfer_count: 7,
    };
    assert!(diagnostics.record_transport(counts));
    let quieter = TransportCounts { maximum_collision_stack: 2, ..counts };
    assert!(diagnostics.record_transport(quieter));
    assert_eq!(diagnostics.owner_change_count, 4);
    assert_eq!(diagnostics.subducted_particle_count, 6);
    assert_eq!(diagnostics.accreted_particle_count, 2);
    assert_eq!(diagnostics.collided_cell_count, 8);
    assert_eq!(diagnostics.maximum_collision_stack, 5);
    assert_eq!(diagnostics.sampled_cell_count, 12);
    assert_eq!(diagnostics.thickness_transfer_count, 14);
    assert_eq!(diagnostics.active_step_count, 0);
}

#[test]
fn a_step_that_moved_nothing_is_not_active() {
    let mut diagnostics = PlateEvolutionDiagnostics::default();
    let quiet = TransportCounts { subducted_particle_count: 1, ..TransportCounts::default() };
    assert!(!diagnostics.record_transport(quiet));
    let born = TransportCounts { born_particle_count: 1, ..TransportCounts::default() };
    assert!(diagnostics.record_transport(born));
    assert_eq!(diagnostics.born_particle_count, 1);
}

#[test]
fn record_lifecycle_sums_events() {
    let mut diagnostics = PlateEvolutionDiagnostics::default();
    diagnostics.record_lifecycle(LifecycleEvents { rift_count: 1, failed_rift_count: 2, suture_count: 3 });
    diagnostics.record_lifecycle(LifecycleEvents { rift_count: 1, ..LifecycleEvents::default() });
    assert_eq!(diagnostics.rift_count, 2);
    assert_eq!(diagnostics.failed_rift_count, 2);
    assert_eq!(diagnostics.suture_count, 3);
    assert_eq!(diagnostics.owner_change_count, 0);
}
