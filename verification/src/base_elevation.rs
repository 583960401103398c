//! What base elevation refuses.

use crate::stage::StageInputError;
use vstd::prelude::*;

verus! {

/// Why base elevation refused its configuration or inputs.
#[derive(Clone, Copy, Debug, PartialEq, Eq)]
pub enum BaseElevationError {
    InvalidConfig,
    InvalidMarginEdge,
    InvalidInteriorAmplitude,
    InvalidBasementFrequency,
    Input(StageInputError),
}

impl BaseElevationError {
    /// The sentence a viewer shows for this error.
    pub open spec fn spec_message(self) -> Seq<char> {
        match self {
            BaseElevationError::InvalidConfig => "base elevations must be finite and between 0 and 1, ridge elevation must not be below deep-ocean elevation, and cooling age must be positive"@,
            BaseElevationError::InvalidMarginEdge => "margin edge elevation must be finite, between 0 and 1, and not above the continental base"@,
            BaseElevationError::InvalidInteriorAmplitude => "dynamic topography and basement amplitudes must be finite and non-negative"@,
            BaseElevationError::InvalidBasementFrequency => "basement frequency must be finite, positive, and leave its octaves finite"@,
            BaseElevationError::Input(error) => error.spec_message(),
        }
    }

    /// The sentence a viewer shows for this error.
    pub fn message(&self) -> (text: String)
        ensures
            text@ == self.spec_message(),
    {
        match self {
            BaseElevationError::InvalidConfig => String::from_str("base elevations must be finite and between 0 and 1, ridge elevation must not be below deep-ocean elevation, and cooling age must be positive"),
            BaseElevationError::InvalidMarginEdge => String::from_str("margin edge elevation must be finite, between 0 and 1, and not above the continental base"),
            BaseElevationError::InvalidInteriorAmplitude => String::from_str("dynamic topography and basement amplitudes must be finite and non-negative"),
            BaseElevationError::InvalidBasementFrequency => String::from_str("basement frequency must be finite, positive, and leave its octaves finite"),
            BaseElevationError::Input(error) => error.message(),
        }
    }
}

impl From<StageInputError> for BaseElevationError {
    fn from(error: StageInputError) -> (wrapped: Self) {
        BaseElevationError::Input(error)
    }
}

impl vstd::std_specs::convert::FromSpecImpl<StageInputError> for BaseElevationError {
    open spec fn obeys_from_spec() -> bool {
        true
    }

    open spec fn from_spec(error: StageInputError) -> Self {
        BaseElevationError::Input(error)
    }
}

/// Whether a cell `hops` from the nearest ocean lies on the shelf of a
/// margin `width` hops wide: one to `width` hops inland. Hop zero is the
/// ocean itself, and `None` is a world with no ocean and so no coast.
pub open spec fn on_margin(hops: Option<usize>, width: usize) -> bool {
    match hops {
        Some(h) => 1 <= h <= width,
        None => false,
    }
}

/// The cells among the first `upto` that stand on a margin, ascending.
pub open spec fn margin_upto(cell_hops: Seq<Option<usize>>, width: usize, upto: int) -> Seq<usize>
    decreases upto,
{
    if upto <= 0 {
        Seq::empty()
    } else if on_margin(cell_hops[upto - 1], width) {
        margin_upto(cell_hops, width, upto - 1).push((upto - 1) as usize)
    } else {
        margin_upto(cell_hops, width, upto - 1)
    }
}

/// The continental cells a margin taper lowers, ascending: those one to
/// `width` hops from the ocean. A zero width disables the taper.
pub fn margin_cells(cell_hops: &Vec<Option<usize>>, width: usize) -> (cells: Vec<usize>)
    ensures
        cells@ == margin_upto(cell_hops@, width, cell_hops@.len() as int),
{
    let mut cells: Vec<usize> = Vec::new();
    let mut cell: usize = 0;
    while cell < cell_hops.len()
        invariant
            cell <= cell_hops@.len(),
            cells@ == margin_upto(cell_hops@, width, cell as int),
        decreases cell_hops@.len() - cell,
    {
        let inside = match cell_hops[cell] {
            Some(hops) => 1 <= hops && hops <= width,
            None => false,
        };
        if inside {
            cells.push(cell);
        }
        cell += 1;
    }
    cells
}

} // verus!
