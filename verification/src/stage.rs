use vstd::prelude::*;

verus! {

/// Why a stage refused the outputs of an earlier stage it was handed.
#[derive(Clone, Copy, Debug, PartialEq, Eq)]
pub enum StageInputError {
    Cells,
    Plates,
    PlateOwnership,
    EmptyPlate,
    Boundaries,
    CrustClasses,
    CrustBirth,
    CrustBirthAfterRun,
    Elevation,
    BaseElevation,
    Deformation,
    SeafloorAge,
}

impl StageInputError {
    /// The sentence a viewer shows for this error.
    pub open spec fn spec_message(self) -> Seq<char> {
        match self {
            StageInputError::Cells => "plate assignments must match the mesh cell count"@,
            StageInputError::Plates => "plate data must match the partition plate count"@,
            StageInputError::PlateOwnership => "every cell must reference a valid plate"@,
            StageInputError::EmptyPlate => "every plate must own at least one cell"@,
            StageInputError::Boundaries => "boundary arrays must match the mesh edge count"@,
            StageInputError::CrustClasses => "crust classes must match the mesh cell count"@,
            StageInputError::CrustBirth => "crust birth times must match the mesh cell count"@,
            StageInputError::CrustBirthAfterRun => "no crust can be born after the run's elapsed time"@,
            StageInputError::Elevation => "elevation values must match the mesh cell count"@,
            StageInputError::BaseElevation => "base-elevation values must match the mesh cell count"@,
            StageInputError::Deformation => "deformation values must match the mesh cell count"@,
            StageInputError::SeafloorAge => "seafloor-age values must match the mesh cell count"@,
        }
    }

    /// The sentence a viewer shows for this error.
    pub fn message(&self) -> (text: String)
        ensures
            text@ == self.spec_message(),
    {
        match self {
            StageInputError::Cells => String::from_str("plate assignments must match the mesh cell count"),
            StageInputError::Plates => String::from_str("plate data must match the partition plate count"),
            StageInputError::PlateOwnership => String::from_str("every cell must reference a valid plate"),
            StageInputError::EmptyPlate => String::from_str("every plate must own at least one cell"),
            StageInputError::Boundaries => String::from_str("boundary arrays must match the mesh edge count"),
            StageInputError::CrustClasses => String::from_str("crust classes must match the mesh cell count"),
            StageInputError::CrustBirth => String::from_str("crust birth times must match the mesh cell count"),
            StageInputError::CrustBirthAfterRun => String::from_str("no crust can be born after the run's elapsed time"),
            StageInputError::Elevation => String::from_str("elevation values must match the mesh cell count"),
            StageInputError::BaseElevation => String::from_str("base-elevation values must match the mesh cell count"),
            StageInputError::Deformation => String::from_str("deformation values must match the mesh cell count"),
            StageInputError::SeafloorAge => String::from_str("seafloor-age values must match the mesh cell count"),
        }
    }
}

} // verus!
