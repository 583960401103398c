//! What coarse elevation refuses.

use vstd::prelude::*;

verus! {

/// Why coarse elevation refused its configuration or inputs.
#[derive(Clone, Copy, Debug, PartialEq, Eq)]
pub enum CoarseElevationError {
    InvalidConfig,
    InvalidSeaLevel,
    FieldCountMismatch,
}

impl CoarseElevationError {
    /// The sentence a viewer shows for this error.
    pub open spec fn spec_message(self) -> Seq<char> {
        match self {
            CoarseElevationError::InvalidConfig => "smoothing weight must be finite and between 0 and 1"@,
            CoarseElevationError::InvalidSeaLevel => "sea level must be finite and strictly between 0 and 1"@,
            CoarseElevationError::FieldCountMismatch => "base elevation and deformation values must match the mesh cell count"@,
        }
    }

    /// The sentence a viewer shows for this error.
    pub fn message(&self) -> (text: String)
        ensures
            text@ == self.spec_message(),
    {
        match self {
            CoarseElevationError::InvalidConfig => String::from_str("smoothing weight must be finite and between 0 and 1"),
            CoarseElevationError::InvalidSeaLevel => String::from_str("sea level must be finite and strictly between 0 and 1"),
            CoarseElevationError::FieldCountMismatch => String::from_str("base elevation and deformation values must match the mesh cell count"),
        }
    }
}

} // verus!
