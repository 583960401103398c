//! What boundary migration refuses.

use vstd::prelude::*;

verus! {

/// Why boundary migration refused its configuration or inputs.
#[derive(Clone, Copy, Debug, PartialEq, Eq)]
pub enum PlateMigrationError {
    InvalidMinimumConvergence,
    CellCountMismatch,
    PlateCountMismatch,
    BoundaryCountMismatch,
}

impl PlateMigrationError {
    /// The sentence a viewer shows for this error.
    pub open spec fn spec_message(self) -> Seq<char> {
        match self {
            PlateMigrationError::InvalidMinimumConvergence => "minimum convergence must be finite and non-negative"@,
            PlateMigrationError::CellCountMismatch => "plate assignments must match the mesh cell count"@,
            PlateMigrationError::PlateCountMismatch => "plate classes must match the partition plate count"@,
            PlateMigrationError::BoundaryCountMismatch => "boundary arrays must match the mesh edge count"@,
        }
    }

    /// The sentence a viewer shows for this error.
    pub fn message(&self) -> (text: String)
        ensures
            text@ == self.spec_message(),
    {
        match self {
            PlateMigrationError::InvalidMinimumConvergence => String::from_str("minimum convergence must be finite and non-negative"),
            PlateMigrationError::CellCountMismatch => String::from_str("plate assignments must match the mesh cell count"),
            PlateMigrationError::PlateCountMismatch => String::from_str("plate classes must match the partition plate count"),
            PlateMigrationError::BoundaryCountMismatch => String::from_str("boundary arrays must match the mesh edge count"),
        }
    }
}

/// The first thing a migration finds wrong with its inputs, in the order it
/// checks them: the minimum convergence (whether it is finite and
/// non-negative is a property of a real number, decided by the caller), one
/// owner per mesh cell, one crust class per plate, and one entry per mesh edge
/// in each of the boundary arrays.
pub fn check_migration_inputs(
    minimum_convergence_valid: bool,
    owner_count: usize,
    cell_count: usize,
    class_count: usize,
    plate_count: usize,
    boundary_lengths: [usize; 3],
    edge_count: usize,
) -> (result: Result<(), PlateMigrationError>)
    ensures
        result == (if !minimum_convergence_valid {
            Err(PlateMigrationError::InvalidMinimumConvergence)
        } else if owner_count != cell_count {
            Err(PlateMigrationError::CellCountMismatch)
        } else if class_count != plate_count {
            Err(PlateMigrationError::PlateCountMismatch)
        } else if boundary_lengths[0] != edge_count || boundary_lengths[1] != edge_count
            || boundary_lengths[2] != edge_count {
            Err(PlateMigrationError::BoundaryCountMismatch)
        } else {
            Ok(())
        }),
{
    if !minimum_convergence_valid {
        return Err(PlateMigrationError::InvalidMinimumConvergence);
    }
    if owner_count != cell_count {
        return Err(PlateMigrationError::CellCountMismatch);
    }
    if class_count != plate_count {
        return Err(PlateMigrationError::PlateCountMismatch);
    }
    if boundary_lengths[0] != edge_count || boundary_lengths[1] != edge_count
        || boundary_lengths[2] != edge_count {
        return Err(PlateMigrationError::BoundaryCountMismatch);
    }
    Ok(())
}

/// Moves every cell a migration names to the plate it names; the rest keep
/// their owner.
pub fn apply_cell_changes(cell_plates: &Vec<usize>, changes: &Vec<Option<usize>>) -> (migrated: Vec<usize>)
    requires
        changes@.len() == cell_plates@.len(),
    ensures
        migrated@.len() == cell_plates@.len(),
        forall|c: int|
            0 <= c < cell_plates@.len() ==> #[trigger] migrated@[c] == match changes@[c] {
                Some(to_plate) => to_plate,
                None => cell_plates@[c],
            },
{
    let mut migrated: Vec<usize> = Vec::new();
    let mut cell: usize = 0;
    while cell < cell_plates.len()
        invariant
            changes@.len() == cell_plates@.len(),
            cell <= cell_plates@.len(),
            migrated@.len() == cell,
            forall|c: int|
                0 <= c < cell ==> #[trigger] migrated@[c] == match changes@[c] {
                    Some(to_plate) => to_plate,
                    None => cell_plates@[c],
                },
        decreases cell_plates@.len() - cell,
    {
        let plate = match changes[cell] {
            Some(to_plate) => to_plate,
            None => cell_plates[cell],
        };
        migrated.push(plate);
        cell += 1;
    }
    migrated
}

/// How many of the first `upto` entries of `targets` name `cell`.
pub open spec fn proposals_for_upto(targets: Seq<usize>, cell: int, upto: int) -> nat
    decreases upto,
{
    if upto <= 0 {
        0
    } else {
        proposals_for_upto(targets, cell, upto - 1) + if targets[upto - 1] == cell {
            1nat
        } else {
            0nat
        }
    }
}

/// How many of the first `upto` cells more than one proposal targets.
pub open spec fn contested_upto(targets: Seq<usize>, upto: int) -> nat
    decreases upto,
{
    if upto <= 0 {
        0
    } else {
        contested_upto(targets, upto - 1) + if proposals_for_upto(targets, upto - 1, targets.len() as int) > 1 {
            1nat
        } else {
            0nat
        }
    }
}

/// Cells that more than one proposal targeted, given the cell each proposal
/// would take, in proposal order.
pub fn contested_cell_count(targets: &Vec<usize>, cell_count: usize) -> (contested: usize)
    requires
        forall|i: int| 0 <= i < targets@.len() ==> #[trigger] targets@[i] < cell_count,
    ensures
        contested == contested_upto(targets@, cell_count as int),
{
    let mut counts: Vec<usize> = vec![0; cell_count];
    let mut i: usize = 0;
    while i < targets.len()
        invariant
            counts@.len() == cell_count,
            i <= targets@.len(),
            forall|j: int| 0 <= j < targets@.len() ==> #[trigger] targets@[j] < cell_count,
            forall|c: int| 0 <= c < cell_count ==> #[trigger] counts@[c] == proposals_for_upto(targets@, c, i as int),
            forall|c: int| 0 <= c < cell_count ==> #[trigger] counts@[c] <= i,
        decreases targets@.len() - i,
    {
        let cell = targets[i];
        counts.set(cell, counts[cell] + 1);
        i += 1;
    }
    let mut contested: usize = 0;
    let mut cell: usize = 0;
    while cell < cell_count
        invariant
            counts@.len() == cell_count,
            forall|c: int| 0 <= c < cell_count ==> #[trigger] counts@[c] == proposals_for_upto(targets@, c, targets@.len() as int),
            cell <= cell_count,
            contested == contested_upto(targets@, cell as int),
            contested <= cell,
        decreases cell_count - cell,
    {
        if counts[cell] > 1 {
            contested = contested + 1;
        }
        cell += 1;
    }
    contested
}

} // verus!
