//! What can stop an evolution run, stated once.
//!
//! A run reads several configs beside its own and three stage outputs, and
//! it holds the kinematics config to the rules of the stage that owns it.
//! Every one of them can be wrong, so the variants sit here, and the
//! upstream errors arrive through `From` rather than as copied strings.

use crate::boundaries::BoundaryClassificationError;
use crate::boundary_profiles::BoundaryDeformationError;
use crate::motion::PlateKinematicsError;
use crate::stage::StageInputError;
use vstd::prelude::*;

verus! {

/// Why an evolution run refused its configuration or inputs.
#[derive(Clone, Copy, Debug, PartialEq, Eq)]
pub enum PlateEvolutionError {
    InvalidStepDuration,
    StepOutrunsReach,
    StepOutrunsErosion,
    InvalidGapRadius,
    InvalidPoleDriftRate,
    InvalidSpeedDriftLimit,
    InvalidReversionTime,
    StepOutrunsReversion,
    InvalidRiftRate,
    InvalidRiftAreaFraction,
    InvalidRiftCurvature,
    InvalidRiftOpeningSpeed,
    InvalidSutureTime,
    Kinematics(PlateKinematicsError),
    Deformation(BoundaryDeformationError),
    Input(StageInputError),
    Boundary(BoundaryClassificationError),
}

impl PlateEvolutionError {
    /// The sentence a viewer shows for this error, where
    /// `minimum_decay_depth` is the shortest rift decay the mesh resolves,
    /// already written out.
    pub open spec fn spec_message(self, minimum_decay_depth: Seq<char>) -> Seq<char> {
        match self {
            PlateEvolutionError::InvalidStepDuration => "run duration and step duration must be finite and non-negative"@,
            PlateEvolutionError::StepOutrunsReach => "step duration must not carry a plate further than the 2 cells transport looks"@,
            PlateEvolutionError::StepOutrunsErosion => "step duration must be shorter than the erosion time, so that a step keeps some fraction of the relief it carries"@,
            PlateEvolutionError::InvalidGapRadius => "gap radius must lie in [0, 2]"@,
            PlateEvolutionError::InvalidPoleDriftRate => "pole drift rates must be finite and non-negative"@,
            PlateEvolutionError::InvalidSpeedDriftLimit => "speed drift limit must be finite and between 0 and 1"@,
            PlateEvolutionError::InvalidReversionTime => "pole drift reversion time must be positive; infinity disables the reversion"@,
            PlateEvolutionError::StepOutrunsReversion => "step duration must be shorter than the pole drift reversion time, so that a step approaches the motion the run started from rather than crossing it"@,
            PlateEvolutionError::InvalidRiftRate => "rift rate must be finite and non-negative"@,
            PlateEvolutionError::InvalidRiftAreaFraction => "minimum rift area fraction must lie in [0, 1]"@,
            PlateEvolutionError::InvalidRiftCurvature => "rift curvature must be finite and non-negative"@,
            PlateEvolutionError::InvalidRiftOpeningSpeed => "rift opening speed must be finite and non-negative"@,
            PlateEvolutionError::InvalidSutureTime => "suture time must be non-negative; infinity disables suturing"@,
            PlateEvolutionError::Kinematics(error) => error.spec_message(),
            PlateEvolutionError::Deformation(error) => error.spec_message(minimum_decay_depth),
            PlateEvolutionError::Input(error) => error.spec_message(),
            PlateEvolutionError::Boundary(error) => error.spec_message(),
        }
    }

    /// The sentence a viewer shows for this error. The shortest rift decay
    /// is a length on the mesh, which the caller writes out.
    pub fn message(&self, minimum_decay_depth: &str) -> (text: String)
        ensures
            text@ == self.spec_message(minimum_decay_depth@),
    {
        match self {
            PlateEvolutionError::InvalidStepDuration => String::from_str("run duration and step duration must be finite and non-negative"),
            PlateEvolutionError::StepOutrunsReach => String::from_str("step duration must not carry a plate further than the 2 cells transport looks"),
            PlateEvolutionError::StepOutrunsErosion => String::from_str("step duration must be shorter than the erosion time, so that a step keeps some fraction of the relief it carries"),
            PlateEvolutionError::InvalidGapRadius => String::from_str("gap radius must lie in [0, 2]"),
            PlateEvolutionError::InvalidPoleDriftRate => String::from_str("pole drift rates must be finite and non-negative"),
            PlateEvolutionError::InvalidSpeedDriftLimit => String::from_str("speed drift limit must be finite and between 0 and 1"),
            PlateEvolutionError::InvalidReversionTime => String::from_str("pole drift reversion time must be positive; infinity disables the reversion"),
            PlateEvolutionError::StepOutrunsReversion => String::from_str("step duration must be shorter than the pole drift reversion time, so that a step approaches the motion the run started from rather than crossing it"),
            PlateEvolutionError::InvalidRiftRate => String::from_str("rift rate must be finite and non-negative"),
            PlateEvolutionError::InvalidRiftAreaFraction => String::from_str("minimum rift area fraction must lie in [0, 1]"),
            PlateEvolutionError::InvalidRiftCurvature => String::from_str("rift curvature must be finite and non-negative"),
            PlateEvolutionError::InvalidRiftOpeningSpeed => String::from_str("rift opening speed must be finite and non-negative"),
            PlateEvolutionError::InvalidSutureTime => String::from_str("suture time must be non-negative; infinity disables suturing"),
            PlateEvolutionError::Kinematics(error) => error.message(),
            PlateEvolutionError::Deformation(error) => error.message(minimum_decay_depth),
            PlateEvolutionError::Input(error) => error.message(),
            PlateEvolutionError::Boundary(error) => error.message(),
        }
    }
}

impl From<PlateKinematicsError> for PlateEvolutionError {
    fn from(error: PlateKinematicsError) -> (wrapped: Self) {
        PlateEvolutionError::Kinematics(error)
    }
}

impl vstd::std_specs::convert::FromSpecImpl<PlateKinematicsError> for PlateEvolutionError {
    open spec fn obeys_from_spec() -> bool {
        true
    }

    open spec fn from_spec(error: PlateKinematicsError) -> Self {
        PlateEvolutionError::Kinematics(error)
    }
}

impl From<BoundaryDeformationError> for PlateEvolutionError {
    fn from(error: BoundaryDeformationError) -> (wrapped: Self) {
        PlateEvolutionError::Deformation(error)
    }
}

impl vstd::std_specs::convert::FromSpecImpl<BoundaryDeformationError> for PlateEvolutionError {
    open spec fn obeys_from_spec() -> bool {
        true
    }

    open spec fn from_spec(error: BoundaryDeformationError) -> Self {
        PlateEvolutionError::Deformation(error)
    }
}

impl From<StageInputError> for PlateEvolutionError {
    fn from(error: StageInputError) -> (wrapped: Self) {
        PlateEvolutionError::Input(error)
    }
}

impl vstd::std_specs::convert::FromSpecImpl<StageInputError> for PlateEvolutionError {
    open spec fn obeys_from_spec() -> bool {
        true
    }

    open spec fn from_spec(error: StageInputError) -> Self {
        PlateEvolutionError::Input(error)
    }
}

impl From<BoundaryClassificationError> for PlateEvolutionError {
    fn from(error: BoundaryClassificationError) -> (wrapped: Self) {
        PlateEvolutionError::Boundary(error)
    }
}

impl vstd::std_specs::convert::FromSpecImpl<BoundaryClassificationError> for PlateEvolutionError {
    open spec fn obeys_from_spec() -> bool {
        true
    }

    open spec fn from_spec(error: BoundaryClassificationError) -> Self {
        PlateEvolutionError::Boundary(error)
    }
}

} // verus!
