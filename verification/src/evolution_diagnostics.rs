//! What a run counts while it runs, and nothing else.
//!
//! These are totals rather than history: a run sums an event count per step
//! and keeps no record of which step it came from.

use crate::lifecycle::LifecycleEvents;
use crate::transport::TransportCounts;
use vstd::prelude::*;

verus! {

/// Totals accumulated without retaining per-step history.
#[derive(Clone, Copy, Debug, PartialEq, Eq)]
pub struct PlateEvolutionDiagnostics {
    /// Steps that changed ownership or made ocean floor.
    pub active_step_count: usize,
    /// Cells whose owner changed, summed over steps. A cell can change more
    /// than once.
    pub owner_change_count: usize,
    /// Parcels a trench destroyed across all steps.
    pub subducted_particle_count: usize,
    /// Parcels made in cells no material reached across all steps. This is
    /// the only place a run creates material.
    pub born_particle_count: usize,
    /// Cells holding material of more than one plate after subduction,
    /// summed over steps.
    pub collided_cell_count: usize,
    /// Deepest such column over all steps, the foreign material plus the
    /// parcel that won the cell. Zero for a run in which nothing collided.
    pub maximum_collision_stack: usize,
    /// Cells that held no parcel and read one nearby, summed over steps.
    pub sampled_cell_count: usize,
    /// Parcels a collision merged into the continent already there, summed
    /// over steps, plus the orphans compaction merged.
    pub accreted_particle_count: usize,
    /// Parcels moved from a column to a thinner neighbour, summed over steps.
    /// No step of this library spreads a column into its neighbours: a
    /// column changes thickness only by accretion and by compaction, so
    /// every transport reports zero here and the sum stays zero.
    pub thickness_transfer_count: usize,
    /// Starting parcels of continent before step zero and after the last
    /// step, summed over every column that holds any. The two are equal for
    /// every run: continental material is neither created nor destroyed.
    pub starting_continental_thickness: u32,
    pub final_continental_thickness: u32,
    /// The deepest continental column the run ends with, in parcels.
    pub maximum_thickness: u32,
    /// Cells standing on more than one parcel.
    pub thickened_cell_count: usize,
    /// Continental parcels the run ends with that no cell reads.
    pub covered_continental_particle_count: usize,
    /// The subset of those under a cell their own plate does not own.
    pub foreign_continental_particle_count: usize,
    /// Continental plates that split in two across all steps.
    pub rift_count: usize,
    /// Rift arcs that failed to separate a plate into two pieces.
    pub failed_rift_count: usize,
    /// Continental pairs that merged across all steps.
    pub suture_count: usize,
}

impl Default for PlateEvolutionDiagnostics {
    fn default() -> (diagnostics: Self)
        ensures
            diagnostics == (PlateEvolutionDiagnostics {
                active_step_count: 0,
                owner_change_count: 0,
                subducted_particle_count: 0,
                born_particle_count: 0,
                collided_cell_count: 0,
                maximum_collision_stack: 0,
                sampled_cell_count: 0,
                accreted_particle_count: 0,
                thickness_transfer_count: 0,
                starting_continental_thickness: 0,
                final_continental_thickness: 0,
                maximum_thickness: 0,
                thickened_cell_count: 0,
                covered_continental_particle_count: 0,
                foreign_continental_particle_count: 0,
                rift_count: 0,
                failed_rift_count: 0,
                suture_count: 0,
            }),
    {
        PlateEvolutionDiagnostics {
            active_step_count: 0,
            owner_change_count: 0,
            subducted_particle_count: 0,
            born_particle_count: 0,
            collided_cell_count: 0,
            maximum_collision_stack: 0,
            sampled_cell_count: 0,
            accreted_particle_count: 0,
            thickness_transfer_count: 0,
            starting_continental_thickness: 0,
            final_continental_thickness: 0,
            maximum_thickness: 0,
            thickened_cell_count: 0,
            covered_continental_particle_count: 0,
            foreign_continental_particle_count: 0,
            rift_count: 0,
            failed_rift_count: 0,
            suture_count: 0,
        }
    }
}

/// The totals once one step's transport counts are added in: every count
/// summed, the deepest stack kept.
pub open spec fn with_transport(
    totals: PlateEvolutionDiagnostics,
    counts: TransportCounts,
) -> PlateEvolutionDiagnostics {
    PlateEvolutionDiagnostics {
        owner_change_count: (totals.owner_change_count + counts.owner_change_count) as usize,
        subducted_particle_count: (totals.subducted_particle_count
            + counts.subducted_particle_count) as usize,
        born_particle_count: (totals.born_particle_count + counts.born_particle_count) as usize,
        accreted_particle_count: (totals.accreted_particle_count
            + counts.accreted_particle_count) as usize,
        thickness_transfer_count: (totals.thickness_transfer_count
            + counts.thickness_transfer_count) as usize,
        collided_cell_count: (totals.collided_cell_count + counts.collided_cell_count) as usize,
        maximum_collision_stack: if counts.maximum_collision_stack > totals.maximum_collision_stack {
            counts.maximum_collision_stack
        } else {
            totals.maximum_collision_stack
        },
        sampled_cell_count: (totals.sampled_cell_count + counts.sampled_cell_count) as usize,
        ..totals
    }
}

/// Whether the sums `counts` adds to `totals` fit.
pub open spec fn transport_fits(totals: PlateEvolutionDiagnostics, counts: TransportCounts) -> bool {
    &&& totals.owner_change_count + counts.owner_change_count <= usize::MAX
    &&& totals.subducted_particle_count + counts.subducted_particle_count <= usize::MAX
    &&& totals.born_particle_count + counts.born_particle_count <= usize::MAX
    &&& totals.accreted_particle_count + counts.accreted_particle_count <= usize::MAX
    &&& totals.thickness_transfer_count + counts.thickness_transfer_count <= usize::MAX
    &&& totals.collided_cell_count + counts.collided_cell_count <= usize::MAX
    &&& totals.sampled_cell_count + counts.sampled_cell_count <= usize::MAX
}

impl PlateEvolutionDiagnostics {
    /// Records one step's transport and returns whether it changed anything:
    /// an owner, or ocean floor made.
    pub fn record_transport(&mut self, counts: TransportCounts) -> (active: bool)
        requires
            transport_fits(*old(self), counts),
        ensures
            *final(self) == with_transport(*old(self), counts),
            active == (counts.owner_change_count > 0 || counts.born_particle_count > 0),
    {
        self.owner_change_count = self.owner_change_count + counts.owner_change_count;
        self.subducted_particle_count = self.subducted_particle_count + counts.subducted_particle_count;
        self.born_particle_count = self.born_particle_count + counts.born_particle_count;
        self.accreted_particle_count = self.accreted_particle_count + counts.accreted_particle_count;
        self.thickness_transfer_count = self.thickness_transfer_count + counts.thickness_transfer_count;
        self.collided_cell_count = self.collided_cell_count + counts.collided_cell_count;
        if counts.maximum_collision_stack > self.maximum_collision_stack {
            self.maximum_collision_stack = counts.maximum_collision_stack;
        }
        self.sampled_cell_count = self.sampled_cell_count + counts.sampled_cell_count;
        counts.owner_change_count > 0 || counts.born_particle_count > 0
    }

    /// Records what one step's lifecycle did to the plate set.
    pub fn record_lifecycle(&mut self, events: LifecycleEvents)
        requires
            old(self).rift_count + events.rift_count <= usize::MAX,
            old(self).failed_rift_count + events.failed_rift_count <= usize::MAX,
            old(self).suture_count + events.suture_count <= usize::MAX,
        ensures
            *final(self) == (PlateEvolutionDiagnostics {
                rift_count: (old(self).rift_count + events.rift_count) as usize,
                failed_rift_count: (old(self).failed_rift_count + events.failed_rift_count) as usize,
                suture_count: (old(self).suture_count + events.suture_count) as usize,
                ..*old(self)
            }),
    {
        self.rift_count = self.rift_count + events.rift_count;
        self.failed_rift_count = self.failed_rift_count + events.failed_rift_count;
        self.suture_count = self.suture_count + events.suture_count;
    }
}

} // verus!
