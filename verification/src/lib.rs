//! Deterministic tectonic state derived from spherical mesh topology: the
//! integer and combinatorial core of plate partitioning, crack patterns,
//! material transport, and the plate lifecycle, with the error kinds every
//! stage reports.

mod stage;
pub mod topology;
pub mod partition;
pub mod cracks;
pub mod boundaries;
pub mod transport;
pub mod material;
pub mod orphans;
pub mod lifecycle;
pub mod evolution_diagnostics;
pub mod crust;
pub mod motion;
pub mod migration;
pub mod seafloor_age;
pub mod elevation;
pub mod base_elevation;
pub mod boundary_profiles;
pub mod evolution_error;
pub mod rifting;
pub mod deformation;

pub use stage::StageInputError;
pub use boundaries::{BoundaryClass, BoundaryClassificationError};
pub use crust::{CrustClass, CrustClassificationError};
pub use motion::PlateKinematicsError;
pub use migration::PlateMigrationError;
pub use seafloor_age::CrustBirthPriorError;
pub use elevation::CoarseElevationError;
pub use base_elevation::BaseElevationError;
pub use boundary_profiles::BoundaryDeformationError;
pub use evolution_error::PlateEvolutionError;
pub use evolution_diagnostics::PlateEvolutionDiagnostics;
pub use partition::{PlatePartition, PlatePartitionError};
pub use transport::TRANSPORT_REACH_HOPS;
