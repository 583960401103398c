//! What plate kinematics refuses: the rules its configuration breaks, and
//! the earlier stage outputs it was handed wrong.

use crate::stage::StageInputError;
use vstd::prelude::*;

verus! {

/// Why plate kinematics refused its configuration or inputs.
#[derive(Clone, Copy, Debug, PartialEq, Eq)]
pub enum PlateKinematicsError {
    InvalidAngularSpeedRange,
    InvalidFlowFrequency,
    InvalidCoherence,
    InvalidCrustSpeedFactor,
    InvalidTrenchlessSpeedFactor,
    InvalidSlabSaturationFraction,
    Input(StageInputError),
}

impl PlateKinematicsError {
    /// The sentence a viewer shows for this error.
    pub open spec fn spec_message(self) -> Seq<char> {
        match self {
            PlateKinematicsError::InvalidAngularSpeedRange => "angular speeds must be finite and ordered minimum to maximum, with a non-negative minimum and a positive maximum"@,
            PlateKinematicsError::InvalidFlowFrequency => "flow frequency must be finite and positive"@,
            PlateKinematicsError::InvalidCoherence => "coherence must be finite and between 0 and 1"@,
            PlateKinematicsError::InvalidCrustSpeedFactor => "oceanic and continental speed factors must be finite and positive"@,
            PlateKinematicsError::InvalidTrenchlessSpeedFactor => "trenchless speed factor must lie in (0, 1]"@,
            PlateKinematicsError::InvalidSlabSaturationFraction => "slab saturation fraction must lie in (0, 1]"@,
            PlateKinematicsError::Input(error) => error.spec_message(),
        }
    }

    /// The sentence a viewer shows for this error.
    pub fn message(&self) -> (text: String)
        ensures
            text@ == self.spec_message(),
    {
        match self {
            PlateKinematicsError::InvalidAngularSpeedRange => String::from_str("angular speeds must be finite and ordered minimum to maximum, with a non-negative minimum and a positive maximum"),
            PlateKinematicsError::InvalidFlowFrequency => String::from_str("flow frequency must be finite and positive"),
            PlateKinematicsError::InvalidCoherence => String::from_str("coherence must be finite and between 0 and 1"),
            PlateKinematicsError::InvalidCrustSpeedFactor => String::from_str("oceanic and continental speed factors must be finite and positive"),
            PlateKinematicsError::InvalidTrenchlessSpeedFactor => String::from_str("trenchless speed factor must lie in (0, 1]"),
            PlateKinematicsError::InvalidSlabSaturationFraction => String::from_str("slab saturation fraction must lie in (0, 1]"),
            PlateKinematicsError::Input(error) => error.message(),
        }
    }
}

impl From<StageInputError> for PlateKinematicsError {
    fn from(error: StageInputError) -> (wrapped: Self) {
        PlateKinematicsError::Input(error)
    }
}

impl vstd::std_specs::convert::FromSpecImpl<StageInputError> for PlateKinematicsError {
    open spec fn obeys_from_spec() -> bool {
        true
    }

    open spec fn from_spec(error: StageInputError) -> Self {
        PlateKinematicsError::Input(error)
    }
}

} // verus!
