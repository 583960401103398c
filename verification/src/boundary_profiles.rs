//! What boundary deformation refuses.

use vstd::prelude::*;

verus! {

/// Why boundary deformation refused its configuration.
#[derive(Clone, Copy, Debug, PartialEq, Eq)]
pub enum BoundaryDeformationError {
    InvalidConfig,
    InvalidRiftProfile,
    InvalidErosionTime,
}

impl BoundaryDeformationError {
    /// The sentence a viewer shows for this error, where
    /// `minimum_decay_depth` is the shortest rift decay the mesh resolves,
    /// already written out.
    pub open spec fn spec_message(self, minimum_decay_depth: Seq<char>) -> Seq<char> {
        match self {
            BoundaryDeformationError::InvalidConfig => "deformation offsets must be finite, depths must be finite and non-negative, and saturation speed, full deformation time, and maximum magnitude must be finite and positive"@,
            BoundaryDeformationError::InvalidRiftProfile => "rift profile must satisfy center < 0 and center < flank, and decay depth >= "@
                + minimum_decay_depth,
            BoundaryDeformationError::InvalidErosionTime => "erosion time must be positive; infinity disables relief decay"@,
        }
    }

    /// The sentence a viewer shows for this error. The shortest rift decay
    /// is a length on the mesh, which the caller writes out.
    pub fn message(&self, minimum_decay_depth: &str) -> (text: String)
        ensures
            text@ == self.spec_message(minimum_decay_depth@),
    {
        match self {
            BoundaryDeformationError::InvalidConfig => String::from_str("deformation offsets must be finite, depths must be finite and non-negative, and saturation speed, full deformation time, and maximum magnitude must be finite and positive"),
            BoundaryDeformationError::InvalidRiftProfile => {
                let mut text = String::from_str("rift profile must satisfy center < 0 and center < flank, and decay depth >= ");
                text.append(minimum_decay_depth);
                text
            },
            BoundaryDeformationError::InvalidErosionTime => String::from_str("erosion time must be positive; infinity disables relief decay"),
        }
    }
}

} // verus!
