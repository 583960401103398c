//! What becomes of the material once every occupied cell has been judged:
//! ocean floor made where nothing arrived, the columns the cells read, the
//! parcels a trench took dropped, and a lifecycle's relabelling of crust.

use crate::boundaries::BoundaryClass;
use crate::topology::MeshTopology;
use crate::transport::{
    Parcel, TransportCounts, spec_cell_thickness, contribution, kept_total, kept_total_upto,
    continental_total, Occupancy, resolve_occupied_cells, judged_removed, judged_thickness,
    winners_fit, occupants, lemma_occupants_upto_facts, verdict_counts_upto,
};
use vstd::prelude::*;

verus! {

/// The ocean floor the first `upto` cells make: one parcel of the cell's own
/// plate in each cell that no parcel reached and no sample filled.
pub open spec fn born_upto(
    owners: Seq<usize>,
    winners: Seq<Option<usize>>,
    samples: Seq<Option<usize>>,
    upto: int,
) -> Seq<Parcel>
    decreases upto,
{
    if upto <= 0 {
        Seq::empty()
    } else if winners[upto - 1] is None && samples[upto - 1] is None {
        born_upto(owners, winners, samples, upto - 1).push(
            Parcel { plate: owners[upto - 1], cell: (upto - 1) as usize, continental: false, thickness: 1 },
        )
    } else {
        born_upto(owners, winners, samples, upto - 1)
    }
}

/// How many of the first `upto` cells no parcel reached but a sample filled.
pub open spec fn sampled_upto(winners: Seq<Option<usize>>, samples: Seq<Option<usize>>, upto: int) -> nat
    decreases upto,
{
    if upto <= 0 {
        0
    } else {
        sampled_upto(winners, samples, upto - 1) + if winners[upto - 1] is None
            && samples[upto - 1] is Some {
            1nat
        } else {
            0nat
        }
    }
}

/// The parcel cell `c` reads once the empty cells are filled: its own winner,
/// else what it sampled, else the floor it made, which follows every parcel
/// the run held and the floor the cells before it made.
pub open spec fn filled_winner(
    owners: Seq<usize>,
    winners: Seq<Option<usize>>,
    samples: Seq<Option<usize>>,
    held: nat,
    c: int,
) -> usize {
    match winners[c] {
        Some(w) => w,
        None => match samples[c] {
            Some(s) => s,
            None => (held + born_upto(owners, winners, samples, c).len()) as usize,
        },
    }
}

proof fn lemma_born_len_bounded(
    owners: Seq<usize>,
    winners: Seq<Option<usize>>,
    samples: Seq<Option<usize>>,
    upto: int,
)
    requires
        0 <= upto,
    ensures
        born_upto(owners, winners, samples, upto).len() <= upto,
        sampled_upto(winners, samples, upto) <= upto,
    decreases upto,
{
    if upto > 0 {
        lemma_born_len_bounded(owners, winners, samples, upto - 1);
    }
}

/// Gives every cell no parcel reached the parcel `samples` names for it, and
/// makes ocean floor of the cell's own plate in the cells that have none.
///
/// `samples` is the nearest surviving parcel within the gap radius of each
/// empty cell, preferring the cell's own plate. A parcel made here is pushed
/// at once, so its index is a real one, and `removed` grows beside it.
pub fn fill_empty_cells(
    previous_owners: &Vec<usize>,
    samples: &Vec<Option<usize>>,
    winners: &mut Vec<Option<usize>>,
    parcels: &mut Vec<Parcel>,
    removed: &mut Vec<bool>,
    counts: &mut TransportCounts,
)
    requires
        old(winners)@.len() == previous_owners@.len(),
        samples@.len() == previous_owners@.len(),
        old(removed)@.len() == old(parcels)@.len(),
        old(parcels)@.len() + previous_owners@.len() <= usize::MAX,
        old(counts).sampled_cell_count + previous_owners@.len() <= usize::MAX,
        old(counts).born_particle_count + previous_owners@.len() <= usize::MAX,
    ensures
        ({
            let owners = previous_owners@;
            let born = born_upto(owners, old(winners)@, samples@, owners.len() as int);
            &&& final(parcels)@ == old(parcels)@ + born
            &&& final(removed)@ == old(removed)@ + Seq::new(born.len(), |i: int| false)
            &&& final(winners)@.len() == owners.len()
            &&& forall|c: int|
                0 <= c < owners.len() ==> #[trigger] final(winners)@[c] == Some(
                    filled_winner(owners, old(winners)@, samples@, old(parcels)@.len(), c),
                )
            &&& *final(counts) == (TransportCounts {
                sampled_cell_count: (old(counts).sampled_cell_count + sampled_upto(
                    old(winners)@,
                    samples@,
                    owners.len() as int,
                )) as usize,
                born_particle_count: (old(counts).born_particle_count + born.len()) as usize,
                ..*old(counts)
            })
        }),
{
    let ghost owners = previous_owners@;
    let ghost start_winners = winners@;
    let ghost start_parcels = parcels@;
    let ghost start_removed = removed@;
    let ghost start_counts = *counts;
    let n = previous_owners.len();
    let mut cell: usize = 0;
    while cell < n
        invariant
            n == owners.len(),
            owners == previous_owners@,
            cell <= n,
            samples@.len() == n,
            start_winners.len() == n,
            winners@.len() == n,
            start_parcels.len() + n <= usize::MAX,
            start_counts.sampled_cell_count + n <= usize::MAX,
            start_counts.born_particle_count + n <= usize::MAX,
            parcels@ == start_parcels + born_upto(owners, start_winners, samples@, cell as int),
            removed@ == start_removed + Seq::new(
                born_upto(owners, start_winners, samples@, cell as int).len(),
                |i: int| false,
            ),
            start_removed.len() == start_parcels.len(),
            forall|c: int|
                0 <= c < cell ==> #[trigger] winners@[c] == Some(
                    filled_winner(owners, start_winners, samples@, start_parcels.len(), c),
                ),
            forall|c: int| cell <= c < n ==> #[trigger] winners@[c] == start_winners[c],
            *counts == (TransportCounts {
                sampled_cell_count: (start_counts.sampled_cell_count + sampled_upto(
                    start_winners,
                    samples@,
                    cell as int,
                )) as usize,
                born_particle_count: (start_counts.born_particle_count + born_upto(
                    owners,
                    start_winners,
                    samples@,
                    cell as int,
                ).len()) as usize,
                ..start_counts
            }),
        decreases n - cell,
    {
        proof {
            lemma_born_len_bounded(owners, start_winners, samples@, cell as int);
        }
        if winners[cell].is_none() {
            match samples[cell] {
                Some(sampled) => {
                    counts.sampled_cell_count = counts.sampled_cell_count + 1;
                    winners.set(cell, Some(sampled));
                },
                None => {
                    parcels.push(
                        Parcel {
                            plate: previous_owners[cell],
                            cell,
                            continental: false,
                            thickness: 1,
                        },
                    );
                    removed.push(false);
                    counts.born_particle_count = counts.born_particle_count + 1;
                    let index = parcels.len() - 1;
                    winners.set(cell, Some(index));
                    proof {
                        assert(removed@ =~= start_removed + Seq::new(
                            born_upto(owners, start_winners, samples@, cell + 1).len(),
                            |i: int| false,
                        ));
                    }
                },
            }
        }
        proof {
            assert(parcels@ =~= start_parcels + born_upto(owners, start_winners, samples@, cell + 1));
        }
        cell += 1;
    }
}

/// What the cells read once every cell has its parcel: the owner, the crustal
/// thickness, and which parcel each cell reads.
pub struct CellProjection {
    pub cell_plates: Vec<usize>,
    pub cell_thickness: Vec<u32>,
    pub cell_winner: Vec<usize>,
    /// Cells whose owner differs from the one the step began with.
    pub owner_change_count: usize,
}

/// How many of the first `upto` cells read a parcel of a plate other than
/// the one that owned them.
pub open spec fn owner_changes_upto(
    owners: Seq<usize>,
    winners: Seq<Option<usize>>,
    parcels: Seq<Parcel>,
    upto: int,
) -> nat
    decreases upto,
{
    if upto <= 0 {
        0
    } else {
        owner_changes_upto(owners, winners, parcels, upto - 1) + if parcels[winners[upto
            - 1]->Some_0 as int].plate != owners[upto - 1] {
            1nat
        } else {
            0nat
        }
    }
}

proof fn lemma_owner_changes_bounded(
    owners: Seq<usize>,
    winners: Seq<Option<usize>>,
    parcels: Seq<Parcel>,
    upto: int,
)
    requires
        0 <= upto,
    ensures
        owner_changes_upto(owners, winners, parcels, upto) <= upto,
    decreases upto,
{
    if upto > 0 {
        lemma_owner_changes_bounded(owners, winners, parcels, upto - 1);
    }
}

/// Writes the columns a run returns from the parcel each cell took: its
/// owner, its thickness, and which parcel it reads, and counts the cells
/// whose owner changed.
///
/// Thickness is zero on a cell whose winner is ocean floor, so the field
/// reads as the extra crust a continent stands on.
pub fn project_to_cells(
    previous_owners: &Vec<usize>,
    winners: &Vec<Option<usize>>,
    parcels: &Vec<Parcel>,
) -> (projection: CellProjection)
    requires
        winners@.len() == previous_owners@.len(),
        forall|c: int|
            0 <= c < winners@.len() ==> match #[trigger] winners@[c] {
                Some(w) => w < parcels@.len(),
                None => false,
            },
    ensures
        projection.cell_plates@.len() == previous_owners@.len(),
        projection.cell_thickness@.len() == previous_owners@.len(),
        projection.cell_winner@.len() == previous_owners@.len(),
        forall|c: int|
            0 <= c < previous_owners@.len() ==> {
                let w = winners@[c]->Some_0;
                &&& #[trigger] projection.cell_winner@[c] == w
                &&& projection.cell_plates@[c] == parcels@[w as int].plate
                &&& projection.cell_thickness@[c] == spec_cell_thickness(parcels@[w as int])
            },
        projection.owner_change_count == owner_changes_upto(
            previous_owners@,
            winners@,
            parcels@,
            previous_owners@.len() as int,
        ),
{
    let n = previous_owners.len();
    let mut cell_plates: Vec<usize> = Vec::new();
    let mut cell_thickness: Vec<u32> = Vec::new();
    let mut cell_winner: Vec<usize> = Vec::new();
    let mut changes: usize = 0;
    let mut cell: usize = 0;
    while cell < n
        invariant
            n == previous_owners@.len(),
            winners@.len() == n,
            forall|c: int|
                0 <= c < winners@.len() ==> match #[trigger] winners@[c] {
                    Some(w) => w < parcels@.len(),
                    None => false,
                },
            cell <= n,
            cell_plates@.len() == cell,
            cell_thickness@.len() == cell,
            cell_winner@.len() == cell,
            forall|c: int| 0 <= c < cell ==> #[trigger] cell_winner@[c] == winners@[c]->Some_0,
            forall|c: int|
                0 <= c < cell ==> #[trigger] cell_plates@[c] == parcels@[winners@[c]->Some_0 as int].plate,
            forall|c: int|
                0 <= c < cell ==> #[trigger] cell_thickness@[c] == spec_cell_thickness(
                    parcels@[winners@[c]->Some_0 as int],
                ),
            changes == owner_changes_upto(previous_owners@, winners@, parcels@, cell as int),
        decreases n - cell,
    {
        proof {
            lemma_owner_changes_bounded(previous_owners@, winners@, parcels@, cell as int);
        }
        let winner = match winners[cell] {
            Some(w) => w,
            None => {
                assert(false);
                0
            },
        };
        let parcel = parcels[winner];
        if parcel.plate != previous_owners[cell] {
            changes = changes + 1;
        }
        let thickness = crate::transport::cell_thickness(parcel);
        cell_plates.push(parcel.plate);
        cell_thickness.push(thickness);
        cell_winner.push(winner);
        proof {
            assert(winners@[cell as int]->Some_0 == winner);
        }
        cell += 1;
    }
    CellProjection { cell_plates, cell_thickness, cell_winner, owner_change_count: changes }
}

/// How many of the first `upto` entries `removed` leaves in place.
pub open spec fn survivors_upto(removed: Seq<bool>, upto: int) -> nat
    decreases upto,
{
    if upto <= 0 {
        0
    } else {
        survivors_upto(removed, upto - 1) + if removed[upto - 1] {
            0nat
        } else {
            1nat
        }
    }
}

/// The first `upto` items that `removed` leaves in place, in their order.
pub open spec fn kept_items<T>(items: Seq<T>, removed: Seq<bool>, upto: int) -> Seq<T>
    decreases upto,
{
    if upto <= 0 {
        Seq::empty()
    } else if removed[upto - 1] {
        kept_items(items, removed, upto - 1)
    } else {
        kept_items(items, removed, upto - 1).push(items[upto - 1])
    }
}

/// A surviving item lands at the count of survivors before it.
pub proof fn lemma_kept_items_position<T>(items: Seq<T>, removed: Seq<bool>, upto: int, i: int)
    requires
        0 <= i < upto,
        !removed[i],
    ensures
        kept_items(items, removed, upto).len() == survivors_upto(removed, upto),
        survivors_upto(removed, i) < survivors_upto(removed, upto),
        kept_items(items, removed, upto)[survivors_upto(removed, i) as int] == items[i],
    decreases upto,
{
    lemma_kept_items_len(items, removed, upto);
    if i < upto - 1 {
        lemma_kept_items_position(items, removed, upto - 1, i);
    } else {
        lemma_kept_items_len(items, removed, i);
    }
}

/// Every survivor of a drop is one of the items it was taken from.
pub proof fn lemma_kept_items_members<T>(items: Seq<T>, removed: Seq<bool>, upto: int)
    requires
        0 <= upto <= items.len(),
    ensures
        forall|j: int|
            0 <= j < kept_items(items, removed, upto).len() ==> exists|i: int|
                0 <= i < upto && #[trigger] kept_items(items, removed, upto)[j] == items[i],
    decreases upto,
{
    if upto > 0 {
        lemma_kept_items_members(items, removed, upto - 1);
        let prev = kept_items(items, removed, upto - 1);
        let now = kept_items(items, removed, upto);
        assert forall|j: int| 0 <= j < now.len() implies exists|i: int|
            0 <= i < upto && #[trigger] now[j] == items[i] by {
            if j < prev.len() {
                assert(now[j] == prev[j]);
                let i = choose|i: int| 0 <= i < upto - 1 && prev[j] == items[i];
                assert(now[j] == items[i]);
            } else {
                assert(now[j] == items[upto - 1]);
            }
        }
    }
}

pub proof fn lemma_kept_items_len<T>(items: Seq<T>, removed: Seq<bool>, upto: int)
    ensures
        kept_items(items, removed, upto).len() == survivors_upto(removed, upto),
    decreases upto,
{
    if upto > 0 {
        lemma_kept_items_len(items, removed, upto - 1);
    }
}

proof fn lemma_survivors_bounded(removed: Seq<bool>, upto: int)
    requires
        0 <= upto,
    ensures
        survivors_upto(removed, upto) <= upto,
    decreases upto,
{
    if upto > 0 {
        lemma_survivors_bounded(removed, upto - 1);
    }
}

/// The items `removed` leaves in place, in their order: what a transport
/// keeps of every list it holds beside its parcels.
pub fn drop_flagged<T: Copy>(items: &Vec<T>, removed: &Vec<bool>) -> (kept: Vec<T>)
    requires
        removed@.len() == items@.len(),
    ensures
        kept@ == kept_items(items@, removed@, items@.len() as int),
{
    let mut kept: Vec<T> = Vec::new();
    let mut index: usize = 0;
    while index < items.len()
        invariant
            removed@.len() == items@.len(),
            index <= items@.len(),
            kept@ == kept_items(items@, removed@, index as int),
        decreases items@.len() - index,
    {
        if !removed[index] {
            kept.push(items[index]);
        }
        index += 1;
    }
    kept
}

/// Where each surviving entry lands in the shortened list; a removed entry
/// has nowhere to land and reads `usize::MAX`.
pub fn survivor_positions(removed: &Vec<bool>) -> (moved_to: Vec<usize>)
    ensures
        moved_to@.len() == removed@.len(),
        forall|i: int|
            0 <= i < removed@.len() ==> #[trigger] moved_to@[i] == if removed@[i] {
                usize::MAX as int
            } else {
                survivors_upto(removed@, i) as int
            },
{
    let mut moved_to: Vec<usize> = Vec::new();
    let mut survivors: usize = 0;
    let mut index: usize = 0;
    while index < removed.len()
        invariant
            index <= removed@.len(),
            moved_to@.len() == index,
            survivors == survivors_upto(removed@, index as int),
            forall|i: int|
                0 <= i < index ==> #[trigger] moved_to@[i] == if removed@[i] {
                    usize::MAX as int
                } else {
                    survivors_upto(removed@, i) as int
                },
        decreases removed@.len() - index,
    {
        proof {
            lemma_survivors_bounded(removed@, index as int);
        }
        if removed[index] {
            moved_to.push(usize::MAX);
        } else {
            moved_to.push(survivors);
            survivors = survivors + 1;
        }
        index += 1;
    }
    moved_to
}

/// Drops the parcels `removed` marks and points every cell at where the
/// parcel it reads now stands, so each cell reads the same parcel as before.
pub fn drop_removed(parcels: &mut Vec<Parcel>, cell_winner: &mut Vec<usize>, removed: &Vec<bool>)
    requires
        removed@.len() == old(parcels)@.len(),
        forall|c: int|
            0 <= c < old(cell_winner)@.len() ==> #[trigger] old(cell_winner)@[c] < old(parcels)@.len()
                && !removed@[old(cell_winner)@[c] as int],
    ensures
        final(parcels)@ == kept_items(old(parcels)@, removed@, old(parcels)@.len() as int),
        final(cell_winner)@.len() == old(cell_winner)@.len(),
        forall|c: int|
            0 <= c < old(cell_winner)@.len() ==> {
                &&& #[trigger] final(cell_winner)@[c] == survivors_upto(removed@, old(cell_winner)@[c] as int)
                &&& final(cell_winner)@[c] < final(parcels)@.len()
                &&& final(parcels)@[final(cell_winner)@[c] as int] == old(parcels)@[old(cell_winner)@[c] as int]
            },
{
    let ghost start = parcels@;
    let ghost start_winner = cell_winner@;
    let moved_to = survivor_positions(removed);
    let kept = drop_flagged(parcels, removed);
    *parcels = kept;
    let mut cell: usize = 0;
    while cell < cell_winner.len()
        invariant
            removed@.len() == start.len(),
            moved_to@.len() == removed@.len(),
            forall|i: int|
                0 <= i < removed@.len() ==> #[trigger] moved_to@[i] == if removed@[i] {
                    usize::MAX as int
                } else {
                    survivors_upto(removed@, i) as int
                },
            parcels@ == kept_items(start, removed@, start.len() as int),
            cell_winner@.len() == start_winner.len(),
            cell <= cell_winner@.len(),
            forall|c: int|
                0 <= c < start_winner.len() ==> #[trigger] start_winner[c] < start.len()
                    && !removed@[start_winner[c] as int],
            forall|c: int|
                cell <= c < start_winner.len() ==> #[trigger] cell_winner@[c] == start_winner[c],
            forall|c: int|
                0 <= c < cell ==> {
                    &&& #[trigger] cell_winner@[c] == survivors_upto(removed@, start_winner[c] as int)
                    &&& cell_winner@[c] < parcels@.len()
                    &&& parcels@[cell_winner@[c] as int] == start[start_winner[c] as int]
                },
        decreases start_winner.len() - cell,
    {
        let old_index = cell_winner[cell];
        proof {
            assert(start_winner[cell as int] == old_index);
            lemma_kept_items_position(start, removed@, start.len() as int, old_index as int);
        }
        cell_winner.set(cell, moved_to[old_index]);
        cell += 1;
    }
}

/// Two lists whose first `upto` entries contribute alike hold the same total
/// there.
pub proof fn lemma_kept_total_prefix(
    p1: Seq<Parcel>,
    r1: Seq<bool>,
    p2: Seq<Parcel>,
    r2: Seq<bool>,
    upto: int,
)
    requires
        forall|i: int| 0 <= i < upto ==> contribution(p1[i], r1[i]) == contribution(p2[i], r2[i]),
    ensures
        kept_total_upto(p1, r1, upto) == kept_total_upto(p2, r2, upto),
    decreases upto,
{
    if upto > 0 {
        lemma_kept_total_prefix(p1, r1, p2, r2, upto - 1);
    }
}

/// What the survivors of a drop hold is what the list held outside the
/// removed entries.
pub proof fn lemma_kept_items_total(parcels: Seq<Parcel>, removed: Seq<bool>, upto: int)
    requires
        0 <= upto,
    ensures
        continental_total(kept_items(parcels, removed, upto)) == kept_total_upto(parcels, removed, upto),
    decreases upto,
{
    if upto > 0 {
        lemma_kept_items_total(parcels, removed, upto - 1);
        let prev = kept_items(parcels, removed, upto - 1);
        if !removed[upto - 1] {
            let now = prev.push(parcels[upto - 1]);
            let falses_now = Seq::new(now.len(), |i: int| false);
            let falses_prev = Seq::new(prev.len(), |i: int| false);
            lemma_kept_total_prefix(now, falses_now, prev, falses_prev, prev.len() as int);
        }
    }
}

/// The floor the empty cells make is ocean floor.
proof fn lemma_born_oceanic(
    owners: Seq<usize>,
    winners: Seq<Option<usize>>,
    samples: Seq<Option<usize>>,
    upto: int,
)
    ensures
        forall|i: int|
            0 <= i < born_upto(owners, winners, samples, upto).len() ==> !(#[trigger] born_upto(
                owners,
                winners,
                samples,
                upto,
            )[i]).continental,
    decreases upto,
{
    if upto > 0 {
        lemma_born_oceanic(owners, winners, samples, upto - 1);
        let prev = born_upto(owners, winners, samples, upto - 1);
        let now = born_upto(owners, winners, samples, upto);
        assert forall|i: int| 0 <= i < now.len() implies !(#[trigger] now[i]).continental by {
            if i < prev.len() {
                assert(now[i] == prev[i]);
            }
        }
    }
}

/// Appending ocean floor that stays adds nothing to what a list holds.
proof fn lemma_oceanic_tail_adds_nothing(parcels: Seq<Parcel>, removed: Seq<bool>, tail: Seq<Parcel>, upto: int)
    requires
        parcels.len() == removed.len(),
        0 <= upto <= tail.len(),
        forall|i: int| 0 <= i < tail.len() ==> !(#[trigger] tail[i]).continental,
    ensures
        kept_total_upto(
            parcels + tail,
            removed + Seq::new(tail.len(), |i: int| false),
            parcels.len() + upto,
        ) == kept_total(parcels, removed),
    decreases upto,
{
    let all = parcels + tail;
    let flags = removed + Seq::new(tail.len(), |i: int| false);
    if upto > 0 {
        lemma_oceanic_tail_adds_nothing(parcels, removed, tail, upto - 1);
        assert(all[parcels.len() + upto - 1] == tail[upto - 1]);
    } else {
        lemma_kept_total_prefix(all, flags, parcels, removed, parcels.len() as int);
    }
}

/// A transport neither creates nor destroys continent: the parcels a cell
/// judgement kept, together with the floor the empty cells made, hold after
/// the removed parcels are dropped exactly what the run held before.
///
/// `judged` and `removed` are what judging the occupied cells left of
/// `start`, which kept the whole continental total outside the removed
/// parcels; the floor is what filling the empty cells appended.
pub proof fn lemma_transport_conserves_continent(
    start: Seq<Parcel>,
    judged: Seq<Parcel>,
    removed: Seq<bool>,
    owners: Seq<usize>,
    winners: Seq<Option<usize>>,
    samples: Seq<Option<usize>>,
)
    requires
        judged.len() == removed.len(),
        kept_total(judged, removed) == continental_total(start),
    ensures
        ({
            let born = born_upto(owners, winners, samples, owners.len() as int);
            let filled = judged + born;
            let flags = removed + Seq::new(born.len(), |i: int| false);
            continental_total(kept_items(filled, flags, filled.len() as int)) == continental_total(start)
        }),
{
    let born = born_upto(owners, winners, samples, owners.len() as int);
    lemma_born_oceanic(owners, winners, samples, owners.len() as int);
    lemma_oceanic_tail_adds_nothing(judged, removed, born, born.len() as int);
    let filled = judged + born;
    let flags = removed + Seq::new(born.len(), |i: int| false);
    lemma_kept_items_total(filled, flags, filled.len() as int);
}

/// How much of a plate's material a lifecycle event takes with it.
#[derive(Clone, Copy, Debug, PartialEq, Eq, Structural)]
pub enum MaterialScope {
    /// Every parcel the plate holds, wherever it lies. A suture absorbs the
    /// whole of the plate it merges.
    WholePlate,
    /// Only what lies in a cell the receiving plate now owns. A rift gives the
    /// new half the material standing on it; a parcel of a third plate
    /// stacked there is not the parent's to give away and keeps its own plate.
    OwnCells,
}

/// `parcel` once the material of plate `from` in `scope` passes to `to`.
pub open spec fn relabeled(
    parcel: Parcel,
    cell_plates: Seq<usize>,
    from: usize,
    to: usize,
    scope: MaterialScope,
) -> Parcel {
    if parcel.plate == from && (scope == MaterialScope::WholePlate || cell_plates[parcel.cell as int]
        == to) {
        Parcel { plate: to, ..parcel }
    } else {
        parcel
    }
}

/// What a relabelling may do to one parcel. It changes nothing but the
/// plate; a parcel changes plate only if it was `from`'s and then becomes
/// `to`'s; under `OwnCells` only a parcel lying in a cell `to` owns moves, so
/// a parcel of `from` stacked under a third plate's cell stays with `from`;
/// and every parcel of `from` that may move does, all of them under
/// `WholePlate`.
pub proof fn lemma_relabel_moves_only_what_scope_gives(
    parcel: Parcel,
    cell_plates: Seq<usize>,
    from: usize,
    to: usize,
    scope: MaterialScope,
)
    ensures
        ({
            let after = relabeled(parcel, cell_plates, from, to, scope);
            &&& after.cell == parcel.cell
            &&& after.continental == parcel.continental
            &&& after.thickness == parcel.thickness
            &&& after.plate != parcel.plate ==> parcel.plate == from && after.plate == to
            &&& after.plate != parcel.plate && scope == MaterialScope::OwnCells ==> cell_plates[parcel.cell as int] == to
            &&& parcel.plate != from ==> after == parcel
            &&& parcel.plate == from && scope == MaterialScope::WholePlate ==> after.plate == to
            &&& parcel.plate == from && cell_plates[parcel.cell as int] == to ==> after.plate == to
            &&& scope == MaterialScope::OwnCells && cell_plates[parcel.cell as int] != to ==> after == parcel
        }),
{
}

/// Hands the material of plate `from` to plate `to`, which is what makes a
/// lifecycle event move crust rather than only ownership. Only plates
/// change, so what the parcels hold stays exactly as it was.
pub fn relabel_parcels(
    parcels: &mut Vec<Parcel>,
    cell_plates: &Vec<usize>,
    from: usize,
    to: usize,
    scope: MaterialScope,
)
    requires
        forall|i: int| 0 <= i < old(parcels)@.len() ==> #[trigger] old(parcels)@[i].cell < cell_plates@.len(),
    ensures
        final(parcels)@.len() == old(parcels)@.len(),
        forall|i: int|
            0 <= i < old(parcels)@.len() ==> #[trigger] final(parcels)@[i] == relabeled(
                old(parcels)@[i],
                cell_plates@,
                from,
                to,
                scope,
            ),
        continental_total(final(parcels)@) == continental_total(old(parcels)@),
        // Only plates change, and only from `from` to `to` ...
        forall|i: int|
            0 <= i < old(parcels)@.len() ==> {
                let before = old(parcels)@[i];
                let after = #[trigger] final(parcels)@[i];
                &&& after.cell == before.cell && after.continental == before.continental
                    && after.thickness == before.thickness
                &&& after.plate != before.plate ==> before.plate == from && after.plate == to
                // ... and a rift hands over only what stands on the new half's cells.
                &&& after.plate != before.plate && scope == MaterialScope::OwnCells ==> cell_plates@[before.cell as int]
                    == to
                &&& before.plate == from && (scope == MaterialScope::WholePlate || cell_plates@[before.cell as int]
                    == to) ==> after.plate == to
            },
{
    let ghost start = parcels@;
    let mut index: usize = 0;
    while index < parcels.len()
        invariant
            parcels@.len() == start.len(),
            index <= start.len(),
            forall|i: int| 0 <= i < start.len() ==> #[trigger] start[i].cell < cell_plates@.len(),
            forall|i: int|
                0 <= i < index ==> #[trigger] parcels@[i] == relabeled(start[i], cell_plates@, from, to, scope),
            forall|i: int| index <= i < start.len() ==> #[trigger] parcels@[i] == start[i],
        decreases start.len() - index,
    {
        let parcel = parcels[index];
        let passes = parcel.plate == from && match scope {
            MaterialScope::WholePlate => true,
            MaterialScope::OwnCells => cell_plates[parcel.cell] == to,
        };
        if passes {
            parcels.set(index, Parcel { plate: to, ..parcel });
        }
        index += 1;
    }
    proof {
        let falses_now = Seq::new(parcels@.len(), |i: int| false);
        let falses_start = Seq::new(start.len(), |i: int| false);
        lemma_kept_total_prefix(parcels@, falses_now, start, falses_start, start.len() as int);
        assert forall|i: int| 0 <= i < start.len() implies {
            let before = start[i];
            let after = #[trigger] parcels@[i];
            &&& after.cell == before.cell && after.continental == before.continental
                && after.thickness == before.thickness
            &&& after.plate != before.plate ==> before.plate == from && after.plate == to
            &&& after.plate != before.plate && scope == MaterialScope::OwnCells ==> cell_plates@[before.cell as int]
                == to
            &&& before.plate == from && (scope == MaterialScope::WholePlate || cell_plates@[before.cell as int]
                == to) ==> after.plate == to
        } by {
            lemma_relabel_moves_only_what_scope_gives(start[i], cell_plates@, from, to, scope);
        }
    }
}

/// The parcel every cell starts with: the cell's own material, one parcel
/// thick, continental where `continental` says the cell is.
pub fn initial_parcels(cell_plates: &Vec<usize>, continental: &Vec<bool>) -> (parcels: Vec<Parcel>)
    requires
        continental@.len() == cell_plates@.len(),
    ensures
        parcels@.len() == cell_plates@.len(),
        forall|c: int|
            0 <= c < cell_plates@.len() ==> #[trigger] parcels@[c] == (Parcel {
                plate: cell_plates@[c],
                cell: c as usize,
                continental: continental@[c],
                thickness: 1,
            }),
{
    let mut parcels: Vec<Parcel> = Vec::new();
    let mut cell: usize = 0;
    while cell < cell_plates.len()
        invariant
            continental@.len() == cell_plates@.len(),
            cell <= cell_plates@.len(),
            parcels@.len() == cell,
            forall|c: int|
                0 <= c < cell ==> #[trigger] parcels@[c] == (Parcel {
                    plate: cell_plates@[c],
                    cell: c as usize,
                    continental: continental@[c],
                    thickness: 1,
                }),
        decreases cell_plates@.len() - cell,
    {
        parcels.push(Parcel { plate: cell_plates[cell], cell, continental: continental[cell], thickness: 1 });
        cell += 1;
    }
    parcels
}

/// Every starting parcel of continent the run still holds, wherever it lies
/// and whatever it has merged into: what a run conserves.
pub fn continental_thickness(parcels: &Vec<Parcel>) -> (total: u32)
    requires
        continental_total(parcels@) <= u32::MAX,
    ensures
        total == continental_total(parcels@),
{
    let ghost falses = Seq::new(parcels@.len(), |i: int| false);
    let mut total: u32 = 0;
    let mut index: usize = 0;
    while index < parcels.len()
        invariant
            index <= parcels@.len(),
            falses == Seq::new(parcels@.len(), |i: int| false),
            continental_total(parcels@) <= u32::MAX,
            total == kept_total_upto(parcels@, falses, index as int),
        decreases parcels@.len() - index,
    {
        proof {
            lemma_kept_total_monotone(parcels@, falses, index + 1, parcels@.len() as int);
        }
        let parcel = parcels[index];
        if parcel.continental {
            total = total + parcel.thickness;
        }
        index += 1;
    }
    total
}

/// The deepest continental column among the first `upto` parcels, or zero.
pub open spec fn deepest_upto(parcels: Seq<Parcel>, upto: int) -> u32
    decreases upto,
{
    if upto <= 0 {
        0
    } else {
        let prev = deepest_upto(parcels, upto - 1);
        if parcels[upto - 1].continental && parcels[upto - 1].thickness > prev {
            parcels[upto - 1].thickness
        } else {
            prev
        }
    }
}

/// The deepest continental column the run holds, in starting parcels.
pub fn maximum_thickness(parcels: &Vec<Parcel>) -> (deepest: u32)
    ensures
        deepest == deepest_upto(parcels@, parcels@.len() as int),
{
    let mut deepest: u32 = 0;
    let mut index: usize = 0;
    while index < parcels.len()
        invariant
            index <= parcels@.len(),
            deepest == deepest_upto(parcels@, index as int),
        decreases parcels@.len() - index,
    {
        let parcel = parcels[index];
        if parcel.continental && parcel.thickness > deepest {
            deepest = parcel.thickness;
        }
        index += 1;
    }
    deepest
}

/// How many of the first `upto` cells stand on more than one parcel.
pub open spec fn thickened_upto(cell_thickness: Seq<u32>, upto: int) -> nat
    decreases upto,
{
    if upto <= 0 {
        0
    } else {
        thickened_upto(cell_thickness, upto - 1) + if cell_thickness[upto - 1] > 1 {
            1nat
        } else {
            0nat
        }
    }
}

/// Cells whose crust is more than one parcel thick: the extent of the
/// collision plateaus a run built.
pub fn thickened_cell_count(cell_thickness: &Vec<u32>) -> (count: usize)
    ensures
        count == thickened_upto(cell_thickness@, cell_thickness@.len() as int),
{
    let mut count: usize = 0;
    let mut cell: usize = 0;
    while cell < cell_thickness.len()
        invariant
            cell <= cell_thickness@.len(),
            count == thickened_upto(cell_thickness@, cell as int),
            count <= cell,
        decreases cell_thickness@.len() - cell,
    {
        if cell_thickness[cell] > 1 {
            count = count + 1;
        }
        cell += 1;
    }
    count
}

/// How many of the first `upto` parcels are continental.
pub open spec fn continental_count_upto(parcels: Seq<Parcel>, upto: int) -> nat
    decreases upto,
{
    if upto <= 0 {
        0
    } else {
        continental_count_upto(parcels, upto - 1) + if parcels[upto - 1].continental {
            1nat
        } else {
            0nat
        }
    }
}

/// Whether some parcel of continent lies in `cell`.
pub open spec fn holds_continent(parcels: Seq<Parcel>, cell: int) -> bool {
    exists|i: int| 0 <= i < parcels.len() && parcels[i].continental && #[trigger] parcels[i].cell == cell
}

/// How many of the first `upto` cells hold some continent.
pub open spec fn continental_cells_upto(parcels: Seq<Parcel>, upto: int) -> nat
    decreases upto,
{
    if upto <= 0 {
        0
    } else {
        continental_cells_upto(parcels, upto - 1) + if holds_continent(parcels, upto - 1) {
            1nat
        } else {
            0nat
        }
    }
}

/// How many entries among the first `upto` are set.
pub open spec fn set_count_upto(flags: Seq<bool>, upto: int) -> nat
    decreases upto,
{
    if upto <= 0 {
        0
    } else {
        set_count_upto(flags, upto - 1) + if flags[upto - 1] {
            1nat
        } else {
            0nat
        }
    }
}

pub proof fn lemma_set_count_update(flags: Seq<bool>, i: int, upto: int)
    requires
        0 <= i < flags.len(),
        0 <= upto <= flags.len(),
        !flags[i],
    ensures
        set_count_upto(flags.update(i, true), upto) == set_count_upto(flags, upto) + if i < upto {
            1nat
        } else {
            0nat
        },
    decreases upto,
{
    if upto > 0 {
        lemma_set_count_update(flags, i, upto - 1);
    }
}

proof fn lemma_set_count_same(a: Seq<bool>, b: Seq<bool>, upto: int)
    requires
        forall|c: int| 0 <= c < upto ==> a[c] == b[c],
    ensures
        set_count_upto(a, upto) == set_count_upto(b, upto),
    decreases upto,
{
    if upto > 0 {
        lemma_set_count_same(a, b, upto - 1);
    }
}

proof fn lemma_continental_cells_as_flags(parcels: Seq<Parcel>, flags: Seq<bool>, upto: int)
    requires
        forall|c: int| 0 <= c < upto ==> flags[c] == holds_continent(parcels, c),
    ensures
        continental_cells_upto(parcels, upto) == set_count_upto(flags, upto),
    decreases upto,
{
    if upto > 0 {
        lemma_continental_cells_as_flags(parcels, flags, upto - 1);
    }
}

/// Continental parcels no cell reads, because another parcel of continent
/// shares the cell with them: the gap between the material a run conserves
/// and the raster it can show.
pub fn covered_continental_parcel_count(parcels: &Vec<Parcel>, cell_count: usize) -> (covered: usize)
    requires
        forall|i: int| 0 <= i < parcels@.len() ==> #[trigger] parcels@[i].cell < cell_count,
    ensures
        covered == continental_count_upto(parcels@, parcels@.len() as int) - continental_cells_upto(
            parcels@,
            cell_count as int,
        ),
{
    let mut occupied: Vec<bool> = vec![false; cell_count];
    let mut continental: usize = 0;
    let mut held: usize = 0;
    let mut index: usize = 0;
    proof {
        lemma_set_count_same(occupied@, Seq::new(cell_count as nat, |c: int| false), cell_count as int);
        assert(set_count_upto(Seq::new(cell_count as nat, |c: int| false), cell_count as int) == 0) by {
            lemma_set_count_none(cell_count as int);
        }
    }
    while index < parcels.len()
        invariant
            index <= parcels@.len(),
            occupied@.len() == cell_count,
            forall|i: int| 0 <= i < parcels@.len() ==> #[trigger] parcels@[i].cell < cell_count,
            forall|c: int|
                0 <= c < cell_count ==> #[trigger] occupied@[c] == exists|i: int|
                    0 <= i < index && parcels@[i].continental && parcels@[i].cell == c,
            continental == continental_count_upto(parcels@, index as int),
            held == set_count_upto(occupied@, cell_count as int),
            held <= continental,
            continental <= index,
        decreases parcels@.len() - index,
    {
        let parcel = parcels[index];
        if parcel.continental {
            continental = continental + 1;
            if !occupied[parcel.cell] {
                proof {
                    lemma_set_count_update(occupied@, parcel.cell as int, cell_count as int);
                }
                occupied.set(parcel.cell, true);
                held = held + 1;
            }
        }
        proof {
            assert forall|c: int| 0 <= c < cell_count implies #[trigger] occupied@[c] == exists|i: int|
                0 <= i < index + 1 && parcels@[i].continental && parcels@[i].cell == c by {
                if parcel.continental && parcel.cell == c {
                    assert(parcels@[index as int].continental && parcels@[index as int].cell == c);
                }
            }
        }
        index += 1;
    }
    proof {
        assert forall|c: int| 0 <= c < cell_count implies occupied@[c] == holds_continent(parcels@, c) by {
            if holds_continent(parcels@, c) {
                let i = choose|i: int| 0 <= i < parcels@.len() && parcels@[i].continental && #[trigger] parcels@[i].cell == c;
                assert(parcels@[i].continental && parcels@[i].cell == c);
            }
        }
        lemma_continental_cells_as_flags(parcels@, occupied@, cell_count as int);
    }
    continental - held
}

pub proof fn lemma_set_count_none(upto: int)
    requires
        0 <= upto,
    ensures
        set_count_upto(Seq::new(upto as nat, |c: int| false), upto) == 0,
{
    let none = Seq::new(upto as nat, |c: int| false);
    lemma_set_count_none_prefix(none, upto);
}

proof fn lemma_set_count_none_prefix(flags: Seq<bool>, upto: int)
    requires
        forall|c: int| 0 <= c < upto ==> !flags[c],
    ensures
        set_count_upto(flags, upto) == 0,
    decreases upto,
{
    if upto > 0 {
        lemma_set_count_none_prefix(flags, upto - 1);
    }
}

/// How many of the first `upto` parcels are continent lying in a cell their
/// own plate does not own.
pub open spec fn foreign_continent_upto(parcels: Seq<Parcel>, cell_plates: Seq<usize>, upto: int) -> nat
    decreases upto,
{
    if upto <= 0 {
        0
    } else {
        foreign_continent_upto(parcels, cell_plates, upto - 1) + if parcels[upto - 1].continental
            && cell_plates[parcels[upto - 1].cell as int] != parcels[upto - 1].plate {
            1nat
        } else {
            0nat
        }
    }
}

/// Continental parcels lying in a cell their own plate does not own: the
/// part of the covered continent that a collision stacked.
pub fn foreign_continental_parcel_count(parcels: &Vec<Parcel>, cell_plates: &Vec<usize>) -> (count: usize)
    requires
        forall|i: int| 0 <= i < parcels@.len() ==> #[trigger] parcels@[i].cell < cell_plates@.len(),
    ensures
        count == foreign_continent_upto(parcels@, cell_plates@, parcels@.len() as int),
{
    let mut count: usize = 0;
    let mut index: usize = 0;
    while index < parcels.len()
        invariant
            index <= parcels@.len(),
            forall|i: int| 0 <= i < parcels@.len() ==> #[trigger] parcels@[i].cell < cell_plates@.len(),
            count == foreign_continent_upto(parcels@, cell_plates@, index as int),
            count <= index,
        decreases parcels@.len() - index,
    {
        let parcel = parcels[index];
        if parcel.continental && cell_plates[parcel.cell] != parcel.plate {
            count = count + 1;
        }
        index += 1;
    }
    count
}

proof fn lemma_kept_total_monotone(parcels: Seq<Parcel>, removed: Seq<bool>, a: int, b: int)
    requires
        0 <= a <= b,
    ensures
        kept_total_upto(parcels, removed, a) <= kept_total_upto(parcels, removed, b),
    decreases b - a,
{
    if a < b {
        lemma_kept_total_monotone(parcels, removed, a, b - 1);
    }
}


/// The parcels as judging the occupied cells leaves them: each in its place,
/// and a winner thicker by what it accreted.
pub open spec fn judged_parcels(
    mesh: MeshTopology,
    edge_classes: Seq<BoundaryClass>,
    owners: Seq<usize>,
    start: Seq<Parcel>,
    winners: Seq<Option<usize>>,
) -> Seq<Parcel> {
    Seq::new(
        start.len(),
        |j: int|
            Parcel {
                thickness: judged_thickness(mesh, edge_classes, owners, start, winners, j) as u32,
                ..start[j]
            },
    )
}

/// Whether each parcel leaves when the occupied cells are judged.
pub open spec fn judged_flags(
    mesh: MeshTopology,
    edge_classes: Seq<BoundaryClass>,
    owners: Seq<usize>,
    start: Seq<Parcel>,
    winners: Seq<Option<usize>>,
) -> Seq<bool> {
    Seq::new(start.len(), |j: int| judged_removed(mesh, edge_classes, owners, start, winners, j))
}

/// The first of `candidates`, from position `i` on, that `removed` does not
/// mark.
pub open spec fn first_kept_from(candidates: Seq<usize>, removed: Seq<bool>, i: int) -> Option<usize>
    decreases candidates.len() - i,
{
    if i < 0 || i >= candidates.len() {
        None
    } else if !removed[candidates[i] as int] {
        Some(candidates[i])
    } else {
        first_kept_from(candidates, removed, i + 1)
    }
}

/// What each empty cell samples: the first of its candidates still standing.
/// A cell a parcel reached samples nothing.
pub open spec fn samples_for(
    winners: Seq<Option<usize>>,
    candidates: Seq<Vec<usize>>,
    removed: Seq<bool>,
) -> Seq<Option<usize>> {
    Seq::new(
        winners.len(),
        |c: int|
            if winners[c] is Some {
                None
            } else {
                first_kept_from(candidates[c]@, removed, 0)
            },
    )
}

proof fn lemma_first_kept_facts(candidates: Seq<usize>, removed: Seq<bool>, i: int)
    ensures
        first_kept_from(candidates, removed, i) matches Some(s) ==> exists|k: int|
            0 <= i <= k < candidates.len() && candidates[k] == s && !removed[s as int],
    decreases candidates.len() - i,
{
    if 0 <= i < candidates.len() && removed[candidates[i] as int] {
        lemma_first_kept_facts(candidates, removed, i + 1);
        if first_kept_from(candidates, removed, i + 1) is Some {
            let k = choose|k: int|
                0 <= i + 1 <= k < candidates.len() && candidates[k] == first_kept_from(
                    candidates,
                    removed,
                    i + 1,
                )->Some_0 && !removed[candidates[k] as int];
        }
    }
}

/// The first of `candidates` that `removed` does not mark.
fn first_kept(candidates: &Vec<usize>, removed: &Vec<bool>) -> (found: Option<usize>)
    requires
        forall|k: int| 0 <= k < candidates@.len() ==> #[trigger] candidates@[k] < removed@.len(),
    ensures
        found == first_kept_from(candidates@, removed@, 0),
{
    let mut i: usize = 0;
    while i < candidates.len()
        invariant
            i <= candidates@.len(),
            forall|k: int| 0 <= k < candidates@.len() ==> #[trigger] candidates@[k] < removed@.len(),
            first_kept_from(candidates@, removed@, 0) == first_kept_from(candidates@, removed@, i as int),
        decreases candidates@.len() - i,
    {
        if !removed[candidates[i]] {
            return Some(candidates[i]);
        }
        i += 1;
    }
    None
}

/// What every empty cell samples: the first of its candidates that
/// `removed` does not mark.
pub fn sample_cells(
    winners: &Vec<Option<usize>>,
    candidates: &Vec<Vec<usize>>,
    removed: &Vec<bool>,
) -> (samples: Vec<Option<usize>>)
    requires
        candidates@.len() == winners@.len(),
        forall|c: int, k: int|
            0 <= c < candidates@.len() && 0 <= k < candidates@[c]@.len() ==> #[trigger] candidates@[c]@[k]
                < removed@.len(),
    ensures
        samples@ == samples_for(winners@, candidates@, removed@),
{
    let mut samples: Vec<Option<usize>> = Vec::new();
    let mut c: usize = 0;
    while c < winners.len()
        invariant
            candidates@.len() == winners@.len(),
            forall|c: int, k: int|
                0 <= c < candidates@.len() && 0 <= k < candidates@[c]@.len() ==> #[trigger] candidates@[c]@[k]
                    < removed@.len(),
            c <= winners@.len(),
            samples@.len() == c,
            forall|d: int| 0 <= d < c ==> #[trigger] samples@[d] == samples_for(winners@, candidates@, removed@)[d],
        decreases winners@.len() - c,
    {
        let pick = match winners[c] {
            Some(_) => None,
            None => {
                let own = &candidates[c];
                assert forall|k: int| 0 <= k < own@.len() implies #[trigger] own@[k] < removed@.len() by {
                    assert(own@[k] == candidates@[c as int]@[k]);
                }
                first_kept(own, removed)
            },
        };
        samples.push(pick);
        c += 1;
    }
    assert(samples@ =~= samples_for(winners@, candidates@, removed@));
    samples
}

proof fn lemma_born_grows(owners: Seq<usize>, winners: Seq<Option<usize>>, samples: Seq<Option<usize>>, a: int, b: int)
    requires
        0 <= a <= b,
    ensures
        born_upto(owners, winners, samples, a).len() <= born_upto(owners, winners, samples, b).len(),
        a < b && winners[a] is None && samples[a] is None ==> born_upto(owners, winners, samples, a).len()
            < born_upto(owners, winners, samples, b).len(),
    decreases b - a,
{
    if a < b {
        lemma_born_grows(owners, winners, samples, a, b - 1);
        if a == b - 1 {
        } else {
            lemma_born_grows(owners, winners, samples, a + 1, b);
        }
    }
}

proof fn lemma_born_facts(owners: Seq<usize>, winners: Seq<Option<usize>>, samples: Seq<Option<usize>>, upto: int)
    requires
        upto <= usize::MAX,
    ensures
        forall|i: int|
            0 <= i < born_upto(owners, winners, samples, upto).len() ==> {
                let p = #[trigger] born_upto(owners, winners, samples, upto)[i];
                &&& !p.continental
                &&& p.thickness == 1
                &&& p.cell < upto
                &&& p.plate == owners[p.cell as int]
            },
    decreases upto,
{
    if upto > 0 {
        lemma_born_facts(owners, winners, samples, upto - 1);
        let prev = born_upto(owners, winners, samples, upto - 1);
        let now = born_upto(owners, winners, samples, upto);
        assert forall|i: int| 0 <= i < now.len() implies {
            let p = #[trigger] now[i];
            &&& !p.continental
            &&& p.thickness == 1
            &&& p.cell < upto
            &&& p.plate == owners[p.cell as int]
        } by {
            if winners[upto - 1] is None && samples[upto - 1] is None {
                assert(now == prev.push(
                    Parcel { plate: owners[upto - 1], cell: (upto - 1) as usize, continental: false, thickness: 1 },
                ));
                if i < prev.len() {
                    assert(now[i] == prev[i]);
                }
            } else {
                assert(now == prev);
            }
        }
    }
}

proof fn lemma_kept_prefix<T>(x: Seq<T>, f: Seq<bool>, y: Seq<T>, g: Seq<bool>, upto: int)
    requires
        forall|i: int| 0 <= i < upto ==> #[trigger] x[i] == y[i],
        forall|i: int| 0 <= i < upto ==> #[trigger] f[i] == g[i],
    ensures
        kept_items(x, f, upto) == kept_items(y, g, upto),
    decreases upto,
{
    if upto > 0 {
        lemma_kept_prefix(x, f, y, g, upto - 1);
        assert(x[upto - 1] == y[upto - 1] && f[upto - 1] == g[upto - 1]);
    }
}

/// Dropping from a list with a tail that stays keeps the tail whole, after
/// what survives of the rest.
proof fn lemma_kept_with_tail<T>(a: Seq<T>, r: Seq<bool>, b: Seq<T>, upto: int)
    requires
        r.len() == a.len(),
        0 <= upto <= b.len(),
    ensures
        kept_items(a + b, r + Seq::new(b.len(), |i: int| false), a.len() + upto) == kept_items(
            a,
            r,
            a.len() as int,
        ) + b.subrange(0, upto),
    decreases upto,
{
    let all = a + b;
    let flags = r + Seq::new(b.len(), |i: int| false);
    if upto == 0 {
        lemma_kept_prefix(all, flags, a, r, a.len() as int);
        assert(b.subrange(0, 0) =~= Seq::<T>::empty());
        assert(kept_items(a, r, a.len() as int) + Seq::<T>::empty() =~= kept_items(a, r, a.len() as int));
    } else {
        lemma_kept_with_tail(a, r, b, upto - 1);
        assert(!flags[a.len() + upto - 1]);
        assert(all[a.len() + upto - 1] == b[upto - 1]);
        assert(kept_items(a, r, a.len() as int) + b.subrange(0, upto) =~= (kept_items(
            a,
            r,
            a.len() as int,
        ) + b.subrange(0, upto - 1)).push(b[upto - 1]));
    }
}

proof fn lemma_survivors_and_removed(r: Seq<bool>, upto: int)
    requires
        0 <= upto,
    ensures
        survivors_upto(r, upto) + set_count_upto(r, upto) == upto,
    decreases upto,
{
    if upto > 0 {
        lemma_survivors_and_removed(r, upto - 1);
    }
}

/// What one transport step settled: its counts, which parcels left it, and
/// what every cell reads.
pub struct TransportOutcome {
    pub counts: TransportCounts,
    /// Whether each parcel of the step left it: the parcels carried in, then
    /// the floor made, which stays.
    pub removed: Vec<bool>,
    pub cell_plates: Vec<usize>,
    pub cell_thickness: Vec<u32>,
    /// The parcel each cell reads, by its place after the step.
    pub cell_winner: Vec<usize>,
}

/// One transport step over the moved parcels: every occupied cell is judged
/// (trenches take what lands within their reach, continent merges into the
/// column it is thrust under), every empty cell reads the first of its
/// candidates still standing or makes ocean floor of its own plate, every
/// cell reads its parcel, and the parcels that left are dropped.
///
/// `winners` is the material order's verdict on each occupied cell, and
/// `candidates` each cell's sample candidates in order of preference; both
/// are decided on positions. Continental material is neither made nor
/// destroyed, the parcels change in number by what was made less what was
/// taken, and every parcel made is one of ocean floor, of the plate that
/// held its cell.
pub fn transport_material(
    mesh: &MeshTopology,
    edge_classes: &Vec<BoundaryClass>,
    previous_owners: &Vec<usize>,
    winners: Vec<Option<usize>>,
    candidates: &Vec<Vec<usize>>,
    parcels: &mut Vec<Parcel>,
) -> (outcome: TransportOutcome)
    requires
        mesh.wf(),
        edge_classes@.len() == mesh.edges(),
        previous_owners@.len() == mesh.cells(),
        forall|i: int| 0 <= i < old(parcels)@.len() ==> #[trigger] old(parcels)@[i].cell < mesh.cells(),
        winners_fit(old(parcels)@, mesh.cells(), winners@),
        continental_total(old(parcels)@) <= u32::MAX,
        candidates@.len() == mesh.cells(),
        forall|c: int, k: int|
            0 <= c < candidates@.len() && 0 <= k < candidates@[c]@.len() ==> #[trigger] candidates@[c]@[k]
                < old(parcels)@.len(),
        old(parcels)@.len() + mesh.cells() <= usize::MAX,
    ensures
        ({
            let start = old(parcels)@;
            let n = mesh.cells() as int;
            let judged = judged_parcels(*mesh, edge_classes@, previous_owners@, start, winners@);
            let gone = judged_flags(*mesh, edge_classes@, previous_owners@, start, winners@);
            let samples = samples_for(winners@, candidates@, gone);
            let born = born_upto(previous_owners@, winners@, samples, n);
            let held = judged + born;
            let counts = outcome.counts;
            let (subducted, accreted, collided, stack) = verdict_counts_upto(
                *mesh,
                edge_classes@,
                previous_owners@,
                start,
                winners@,
                n,
            );
            &&& final(parcels)@ == kept_items(judged, gone, start.len() as int) + born
            &&& outcome.removed@ == gone + Seq::new(born.len(), |i: int| false)
            // Continental material is neither made nor destroyed ...
            &&& continental_total(final(parcels)@) == continental_total(start)
            // ... the parcels change by what was made less what was taken ...
            &&& final(parcels)@.len() == start.len() - counts.subducted_particle_count
                - counts.accreted_particle_count + counts.born_particle_count
            // ... and every parcel made is ocean floor of its cell's plate.
            &&& forall|i: int|
                0 <= i < born.len() ==> {
                    let p = #[trigger] final(parcels)@[final(parcels)@.len() - born.len() + i];
                    &&& p == born[i]
                    &&& !p.continental
                    &&& p.thickness == 1
                    &&& p.cell < n
                    &&& p.plate == previous_owners@[p.cell as int]
                }
            &&& counts.subducted_particle_count == subducted
            &&& counts.accreted_particle_count == accreted
            &&& counts.collided_cell_count == collided
            &&& counts.maximum_collision_stack == stack
            &&& counts.born_particle_count == born.len()
            &&& counts.sampled_cell_count == sampled_upto(winners@, samples, n)
            &&& counts.thickness_transfer_count == 0
            &&& counts.owner_change_count == owner_changes_upto(
                previous_owners@,
                Seq::new(n as nat, |c: int| Some(filled_winner(previous_owners@, winners@, samples, start.len(), c))),
                held,
                n,
            )
            &&& outcome.cell_plates@.len() == n
            &&& outcome.cell_thickness@.len() == n
            &&& outcome.cell_winner@.len() == n
            &&& forall|c: int|
                0 <= c < n ==> {
                    let w = filled_winner(previous_owners@, winners@, samples, start.len(), c);
                    &&& w < held.len()
                    &&& #[trigger] outcome.cell_winner@[c] < final(parcels)@.len()
                    &&& final(parcels)@[outcome.cell_winner@[c] as int] == held[w as int]
                    &&& outcome.cell_plates@[c] == held[w as int].plate
                    &&& outcome.cell_thickness@[c] == spec_cell_thickness(held[w as int])
                }
        }),
{
    let ghost start = parcels@;
    let ghost n = mesh.cells() as int;
    let ghost winners0 = winners@;
    let occupancy = Occupancy::new(mesh.cell_count(), parcels);
    let (mut removed, mut counts) = resolve_occupied_cells(
        mesh,
        edge_classes,
        previous_owners,
        &occupancy,
        &winners,
        parcels,
    );
    let ghost judged = parcels@;
    let ghost gone = removed@;
    proof {
        assert(judged =~= judged_parcels(*mesh, edge_classes@, previous_owners@, start, winners0));
        assert(gone =~= judged_flags(*mesh, edge_classes@, previous_owners@, start, winners0));
    }
    let samples = sample_cells(&winners, candidates, &removed);
    let ghost born = born_upto(previous_owners@, winners0, samples@, n);
    let mut filled = winners;
    fill_empty_cells(previous_owners, &samples, &mut filled, parcels, &mut removed, &mut counts);
    let ghost held = parcels@;
    proof {
        assert(held == judged + born);
        assert forall|c: int| #![trigger filled@[c]] 0 <= c < n implies {
            let w = filled_winner(previous_owners@, winners0, samples@, start.len(), c);
            &&& w < held.len()
            &&& !removed@[w as int]
        } by {
            let w = filled_winner(previous_owners@, winners0, samples@, start.len(), c);
            match winners0[c] {
                Some(v) => {
                    lemma_occupants_upto_facts(start, c, start.len() as int);
                    assert(occupants(start, c).contains(v));
                    let i = choose|i: int| 0 <= i < occupants(start, c).len() && occupants(start, c)[i] == v;
                    assert(v < start.len() && start[v as int].cell == c);
                    assert(!judged_removed(*mesh, edge_classes@, previous_owners@, start, winners0, v as int));
                    assert(removed@[v as int] == gone[v as int]);
                },
                None => match samples@[c] {
                    Some(sv) => {
                        lemma_first_kept_facts(candidates@[c]@, gone, 0);
                        let k = choose|k: int|
                            0 <= k < candidates@[c]@.len() && candidates@[c]@[k] == sv && !gone[sv as int];
                        assert(sv < start.len());
                        assert(removed@[sv as int] == gone[sv as int]);
                    },
                    None => {
                        lemma_born_grows(previous_owners@, winners0, samples@, c, n);
                        lemma_born_len_bounded(previous_owners@, winners0, samples@, c);
                        assert(w as int >= start.len());
                        assert(removed@ == gone + Seq::new(born.len(), |i: int| false));
                        assert(removed@[w as int] == Seq::new(born.len(), |i: int| false)[w - start.len()]);
                    },
                },
            }
        }
        assert(filled@ =~= Seq::new(
            n as nat,
            |c: int| Some(filled_winner(previous_owners@, winners0, samples@, start.len(), c)),
        ));
    }
    let projection = project_to_cells(previous_owners, &filled, parcels);
    counts.owner_change_count = projection.owner_change_count;
    let mut cell_winner = projection.cell_winner;
    drop_removed(parcels, &mut cell_winner, &removed);
    proof {
        lemma_kept_with_tail(judged, gone, born, born.len() as int);
        assert(born.subrange(0, born.len() as int) =~= born);
        assert(parcels@ == kept_items(judged, gone, start.len() as int) + born);
        lemma_transport_conserves_continent(start, judged, gone, previous_owners@, winners0, samples@);
        lemma_kept_items_len(judged, gone, start.len() as int);
        lemma_survivors_and_removed(gone, start.len() as int);
        lemma_born_facts(previous_owners@, winners0, samples@, n);
        lemma_born_len_bounded(previous_owners@, winners0, samples@, n);
        let kept = kept_items(judged, gone, start.len() as int);
        assert forall|i: int| 0 <= i < born.len() implies #[trigger] parcels@[parcels@.len() - born.len() + i]
            == born[i] by {
            assert(parcels@[kept.len() + i] == born[i]);
        }
        assert(continental_total(parcels@) == continental_total(start));
        assert(parcels@.len() == start.len() - counts.subducted_particle_count
                - counts.accreted_particle_count + counts.born_particle_count);
        assert(counts.born_particle_count == born.len());
        assert(counts.sampled_cell_count == sampled_upto(winners0, samples@, n));
        assert(removed@ == gone + Seq::new(born.len(), |i: int| false));
        assert(samples@ == samples_for(winners0, candidates@, gone));
        assert forall|c: int| 0 <= c < n implies filled_winner(previous_owners@, winners0, samples@, start.len(), c)
            < held.len() by {
            assert(filled@[c] == Some(filled_winner(previous_owners@, winners0, samples@, start.len(), c)));
        }
    }
    TransportOutcome {
        counts,
        removed,
        cell_plates: projection.cell_plates,
        cell_thickness: projection.cell_thickness,
        cell_winner,
    }
}

} // verus!
