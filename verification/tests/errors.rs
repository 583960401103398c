use procgen_tectonics::{
    BaseElevationError, BoundaryClassificationError, BoundaryDeformationError,
    CoarseElevationError, CrustBirthPriorError, PlateEvolutionError, PlateKinematicsError,
    PlateMigrationError, StageInputError,
};

#[test]
fn stage_input_errors_read_as_sentences() {
    assert_eq!(StageInputError::Cells.message(), "plate assignments must match the mesh cell count");
    assert_eq!(StageInputError::EmptyPlate.message(), "every plate must own at least one cell");
    assert_eq!(
        StageInputError::CrustBirthAfterRun.message(),
        "no crust can be born after the run's elapsed time"
    );
    assert_eq!(
        StageInputError::SeafloorAge.message(),
        "seafloor-age values must match the mesh cell count"
    );
}

#[test]
fn kinematics_errors_wrap_their_inputs() {
    let wrapped = PlateKinematicsError::from(StageInputError::Plates);
    assert_eq!(wrapped, PlateKinematicsError::Input(StageInputError::Plates));
    assert_eq!(wrapped.message(), "plate data must match the partition plate count");
    assert_eq!(
        PlateKinematicsError::InvalidTrenchlessSpeedFactor.message(),
        "trenchless speed factor must lie in (0, 1]"
    );
}

#[test]
fn birth_prior_errors_wrap_motion_and_inputs() {
    let motion = CrustBirthPriorError::from(PlateKinematicsError::InvalidCoherence);
    assert_eq!(motion, CrustBirthPriorError::Motion(PlateKinematicsError::InvalidCoherence));
    assert_eq!(motion.message(), "coherence must be finite and between 0 and 1");
    let input = CrustBirthPriorError::from(StageInputError::Boundaries);
    assert_eq!(input, CrustBirthPriorError::Input(StageInputError::Boundaries));
    assert_eq!(input.message(), "boundary arrays must match the mesh edge count");
}

#[test]
fn base_elevation_errors_wrap_inputs() {
    let input = BaseElevationError::from(StageInputError::BaseElevation);
    assert_eq!(input, BaseElevationError::Input(StageInputError::BaseElevation));
    assert_eq!(input.message(), "base-elevation values must match the mesh cell count");
    assert_eq!(
        BaseElevationError::InvalidBasementFrequency.message(),
        "basement frequency must be finite, positive, and leave its octaves finite"
    );
}

#[test]
fn migration_and_elevation_errors_read_as_sentences() {
    assert_eq!(
        PlateMigrationError::PlateCountMismatch.message(),
        "plate classes must match the partition plate count"
    );
    assert_eq!(
        CoarseElevationError::InvalidSeaLevel.message(),
        "sea level must be finite and strictly between 0 and 1"
    );
    assert_eq!(
        BoundaryClassificationError::PlateCountMismatch.message(),
        "plate count must match the available angular velocities"
    );
}

#[test]
fn a_rift_profile_error_states_the_shortest_decay() {
    assert_eq!(
        BoundaryDeformationError::InvalidRiftProfile.message("0.25"),
        "rift profile must satisfy center < 0 and center < flank, and decay depth >= 0.25"
    );
    assert_eq!(
        BoundaryDeformationError::InvalidErosionTime.message("0.25"),
        "erosion time must be positive; infinity disables relief decay"
    );
}

#[test]
fn evolution_errors_wrap_every_upstream_error() {
    assert_eq!(
        PlateEvolutionError::from(PlateKinematicsError::InvalidFlowFrequency),
        PlateEvolutionError::Kinematics(PlateKinematicsError::InvalidFlowFrequency)
    );
    assert_eq!(
        PlateEvolutionError::from(BoundaryDeformationError::InvalidConfig),
        PlateEvolutionError::Deformation(BoundaryDeformationError::InvalidConfig)
    );
    assert_eq!(
        PlateEvolutionError::from(StageInputError::Cells),
        PlateEvolutionError::Input(StageInputError::Cells)
    );
    assert_eq!(
        PlateEvolutionError::from(BoundaryClassificationError::CellCountMismatch),
        PlateEvolutionError::Boundary(BoundaryClassificationError::CellCountMismatch)
    );
    assert_eq!(
        PlateEvolutionError::StepOutrunsReach.message("0.1"),
        "step duration must not carry a plate further than the 2 cells transport looks"
    );
    assert_eq!(
        PlateEvolutionError::InvalidGapRadius.message("0.1"),
        "gap radius must lie in [0, 2]"
    );
    assert_eq!(
        PlateEvolutionError::Deformation(BoundaryDeformationError::InvalidRiftProfile).message("0.1"),
        "rift profile must satisfy center < 0 and center < flank, and decay depth >= 0.1"
    );
    assert_eq!(
        PlateEvolutionError::Input(StageInputError::Deformation).message("0.1"),
        "deformation values must match the mesh cell count"
    );
}
