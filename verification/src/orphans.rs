//! The material of plates that own no cell once a run compacts its plate
//! ids: continent merges into the column that covers it, floor is dropped.
//!
//! A plate that owns no cell holds parcels stacked under other plates'
//! cells, and nothing moves them again. Its ocean floor is dropped; its
//! continent is material, so it merges into the column that covers it
//! exactly as a collision would, and the thickness a run conserves stays
//! conserved through its own output.

use crate::material::{
    drop_removed, kept_items, survivors_upto, lemma_kept_items_total, lemma_kept_total_prefix,
};
use crate::transport::{Parcel, spec_cell_thickness, contribution, kept_total, kept_total_upto, continental_total};
use vstd::prelude::*;

verus! {

/// Whether `parcel`'s plate has no id once `compacted` renumbers the plates.
pub open spec fn dying(compacted: Seq<usize>, parcel: Parcel) -> bool {
    compacted[parcel.plate as int] == usize::MAX
}

/// Continent of a plate that has no id: material that must merge rather
/// than be dropped.
pub open spec fn is_orphan(compacted: Seq<usize>, parcel: Parcel) -> bool {
    parcel.continental && dying(compacted, parcel)
}

/// The parcels once each of the first `upto` cells, reading a column of a
/// plate with no id, hands that column to the plate that owns the cell.
pub open spec fn columns_relabeled_upto(
    parcels: Seq<Parcel>,
    cell_winner: Seq<usize>,
    cell_plates: Seq<usize>,
    compacted: Seq<usize>,
    upto: int,
) -> Seq<Parcel>
    decreases upto,
{
    if upto <= 0 {
        parcels
    } else {
        let prev = columns_relabeled_upto(parcels, cell_winner, cell_plates, compacted, upto - 1);
        let w = cell_winner[upto - 1] as int;
        if dying(compacted, prev[w]) {
            prev.update(w, Parcel { plate: cell_plates[upto - 1], ..prev[w] })
        } else {
            prev
        }
    }
}

/// The parcels once each orphan among the first `upto` that is still dying
/// merges its thickness into the column its cell reads.
pub open spec fn orphans_merged_upto(
    parcels: Seq<Parcel>,
    orphan: Seq<bool>,
    cell_winner: Seq<usize>,
    compacted: Seq<usize>,
    upto: int,
) -> Seq<Parcel>
    decreases upto,
{
    if upto <= 0 {
        parcels
    } else {
        let prev = orphans_merged_upto(parcels, orphan, cell_winner, compacted, upto - 1);
        let k = upto - 1;
        if orphan[k] && dying(compacted, prev[k]) {
            let t = cell_winner[prev[k].cell as int] as int;
            prev.update(t, Parcel { thickness: (prev[t].thickness + prev[k].thickness) as u32, ..prev[t] })
        } else {
            prev
        }
    }
}

/// How many orphans among the first `upto` merged.
pub open spec fn merged_count_upto(
    parcels: Seq<Parcel>,
    orphan: Seq<bool>,
    cell_winner: Seq<usize>,
    compacted: Seq<usize>,
    upto: int,
) -> nat
    decreases upto,
{
    if upto <= 0 {
        0
    } else {
        let prev = orphans_merged_upto(parcels, orphan, cell_winner, compacted, upto - 1);
        merged_count_upto(parcels, orphan, cell_winner, compacted, upto - 1) + if orphan[upto - 1]
            && dying(compacted, prev[upto - 1]) {
            1nat
        } else {
            0nat
        }
    }
}

/// Whether any parcel is continent of a plate with no id.
pub open spec fn has_orphans(parcels: Seq<Parcel>, compacted: Seq<usize>) -> bool {
    exists|i: int| 0 <= i < parcels.len() && #[trigger] is_orphan(compacted, parcels[i])
}

/// The parcels once every orphan has merged into the column its cell reads,
/// the columns of dying plates having passed to the plates owning their
/// cells first; with no orphan, the parcels as they were.
pub open spec fn accreted_parcels(
    parcels: Seq<Parcel>,
    cell_winner: Seq<usize>,
    cell_plates: Seq<usize>,
    compacted: Seq<usize>,
) -> Seq<Parcel> {
    if has_orphans(parcels, compacted) {
        orphans_merged_upto(
            columns_relabeled_upto(parcels, cell_winner, cell_plates, compacted, cell_winner.len() as int),
            Seq::new(parcels.len(), |i: int| is_orphan(compacted, parcels[i])),
            cell_winner,
            compacted,
            parcels.len() as int,
        )
    } else {
        parcels
    }
}

/// Which parcels belong to a plate with no id.
pub open spec fn dying_flags(parcels: Seq<Parcel>, compacted: Seq<usize>) -> Seq<bool> {
    Seq::new(parcels.len(), |q: int| dying(compacted, parcels[q]))
}

/// `parcels` with every plate renumbered through `compacted`.
pub open spec fn renumbered(parcels: Seq<Parcel>, compacted: Seq<usize>) -> Seq<Parcel> {
    Seq::new(parcels.len(), |q: int| Parcel { plate: compacted[parcels[q].plate as int], ..parcels[q] })
}

/// Whether `thickness` is what each cell reads off the parcel `cell_winner`
/// names for it.
pub open spec fn reads_thickness(thickness: Seq<u32>, parcels: Seq<Parcel>, cell_winner: Seq<usize>) -> bool {
    &&& thickness.len() == cell_winner.len()
    &&& forall|c: int|
        0 <= c < cell_winner.len() ==> #[trigger] thickness[c] == spec_cell_thickness(
            parcels[cell_winner[c] as int],
        )
}

/// The sum of the first `upto` entries.
pub open spec fn sum_upto(values: Seq<int>, upto: int) -> int
    decreases upto,
{
    if upto <= 0 {
        0
    } else {
        sum_upto(values, upto - 1) + values[upto - 1]
    }
}

/// Every parcel's thickness, summed.
pub open spec fn thickness_total(parcels: Seq<Parcel>) -> int {
    sum_upto(Seq::new(parcels.len(), |q: int| parcels[q].thickness as int), parcels.len() as int)
}

/// What each parcel still stands to hold while the orphans from `next` on
/// are yet to merge: a live column holds its thickness, an orphan yet to
/// merge holds its own, and anything else holds nothing.
pub open spec fn merge_weights(
    parcels: Seq<Parcel>,
    orphan: Seq<bool>,
    compacted: Seq<usize>,
    next: int,
) -> Seq<int> {
    Seq::new(
        parcels.len(),
        |q: int|
            if !dying(compacted, parcels[q]) || (orphan[q] && q >= next) {
                parcels[q].thickness as int
            } else {
                0
            },
    )
}

proof fn lemma_sum_pointwise_le(a: Seq<int>, b: Seq<int>, upto: int)
    requires
        forall|q: int| 0 <= q < upto ==> a[q] <= b[q],
    ensures
        sum_upto(a, upto) <= sum_upto(b, upto),
    decreases upto,
{
    if upto > 0 {
        lemma_sum_pointwise_le(a, b, upto - 1);
    }
}

proof fn lemma_sum_update(values: Seq<int>, i: int, v: int, upto: int)
    requires
        0 <= i < values.len(),
        0 <= upto <= values.len(),
    ensures
        sum_upto(values.update(i, v), upto) == sum_upto(values, upto) + if i < upto {
            v - values[i]
        } else {
            0
        },
    decreases upto,
{
    if upto > 0 {
        lemma_sum_update(values, i, v, upto - 1);
    }
}

proof fn lemma_sum_two_terms(values: Seq<int>, a: int, b: int, upto: int)
    requires
        0 <= a < upto,
        0 <= b < upto,
        a != b,
        forall|q: int| 0 <= q < upto ==> values[q] >= 0,
    ensures
        values[a] + values[b] <= sum_upto(values, upto),
    decreases upto,
{
    lemma_sum_nonneg(values, upto - 1);
    if a < upto - 1 && b < upto - 1 {
        lemma_sum_two_terms(values, a, b, upto - 1);
    } else if a == upto - 1 {
        lemma_sum_one_term(values, b, upto - 1);
    } else {
        lemma_sum_one_term(values, a, upto - 1);
    }
}

proof fn lemma_sum_one_term(values: Seq<int>, a: int, upto: int)
    requires
        0 <= a < upto,
        forall|q: int| 0 <= q < upto ==> values[q] >= 0,
    ensures
        values[a] <= sum_upto(values, upto),
    decreases upto,
{
    lemma_sum_nonneg(values, upto - 1);
    if a < upto - 1 {
        lemma_sum_one_term(values, a, upto - 1);
    }
}

proof fn lemma_sum_nonneg(values: Seq<int>, upto: int)
    requires
        forall|q: int| 0 <= q < upto ==> values[q] >= 0,
    ensures
        sum_upto(values, upto) >= 0,
    decreases upto,
{
    if upto > 0 {
        lemma_sum_nonneg(values, upto - 1);
    }
}

/// Merges every continental parcel of a plate `compacted` has no id for into
/// the column its cell reads, and returns how many merged together with the
/// thickness every cell reads afterwards; with no such parcel nothing
/// changes and no thickness is returned.
///
/// The column a cell reads can itself belong to a dying plate, so those
/// columns first pass to the plate that owns their cell, which leaves every
/// cell reading a parcel that lives.
pub fn accrete_orphans(
    parcels: &mut Vec<Parcel>,
    cell_winner: &Vec<usize>,
    cell_plates: &Vec<usize>,
    compacted: &Vec<usize>,
) -> (result: (usize, Option<Vec<u32>>))
    requires
        cell_winner@.len() == cell_plates@.len(),
        forall|c: int|
            0 <= c < cell_winner@.len() ==> {
                &&& #[trigger] cell_winner@[c] < old(parcels)@.len()
                &&& cell_plates@[c] < compacted@.len()
                &&& compacted@[cell_plates@[c] as int] != usize::MAX
            },
        forall|i: int|
            0 <= i < old(parcels)@.len() ==> {
                &&& #[trigger] old(parcels)@[i].plate < compacted@.len()
                &&& old(parcels)@[i].cell < cell_winner@.len()
            },
        thickness_total(old(parcels)@) <= u32::MAX,
    ensures
        ({
            let start = old(parcels)@;
            let orphan = Seq::new(start.len(), |i: int| is_orphan(compacted@, start[i]));
            let relabeled = columns_relabeled_upto(
                start,
                cell_winner@,
                cell_plates@,
                compacted@,
                cell_winner@.len() as int,
            );
            let (accreted, thickness) = result;
            &&& final(parcels)@ == accreted_parcels(start, cell_winner@, cell_plates@, compacted@)
            &&& final(parcels)@.len() == start.len()
            &&& forall|q: int|
                0 <= q < start.len() ==> {
                    &&& (#[trigger] final(parcels)@[q]).plate < compacted@.len()
                    &&& final(parcels)@[q].cell == start[q].cell
                    &&& final(parcels)@[q].continental == start[q].continental
                }
            &&& if has_orphans(start, compacted@) {
                &&& final(parcels)@ == orphans_merged_upto(
                    relabeled,
                    orphan,
                    cell_winner@,
                    compacted@,
                    start.len() as int,
                )
                &&& accreted == merged_count_upto(
                    relabeled,
                    orphan,
                    cell_winner@,
                    compacted@,
                    start.len() as int,
                )
                &&& thickness matches Some(t) && reads_thickness(t@, final(parcels)@, cell_winner@)
                &&& forall|c: int|
                    0 <= c < cell_winner@.len() ==> !dying(
                        compacted@,
                        #[trigger] final(parcels)@[cell_winner@[c] as int],
                    )
            } else {
                &&& accreted == 0
                &&& thickness is None
            }
        }),
{
    let ghost start = parcels@;
    let n = parcels.len();
    let cells = cell_winner.len();
    let mut orphan: Vec<bool> = Vec::new();
    let mut any = false;
    let mut index: usize = 0;
    while index < n
        invariant
            n == start.len(),
            parcels@ == start,
            index <= n,
            orphan@.len() == index,
            forall|i: int| 0 <= i < index ==> #[trigger] orphan@[i] == is_orphan(compacted@, start[i]),
            forall|i: int|
                0 <= i < start.len() ==> #[trigger] start[i].plate < compacted@.len(),
            any == exists|i: int| 0 <= i < index && #[trigger] is_orphan(compacted@, start[i]),
        decreases n - index,
    {
        let parcel = parcels[index];
        let flagged = parcel.continental && compacted[parcel.plate] == usize::MAX;
        orphan.push(flagged);
        if flagged {
            any = true;
            assert(is_orphan(compacted@, start[index as int]));
        }
        proof {
            if !any {
                assert forall|i: int| 0 <= i < index + 1 implies !#[trigger] is_orphan(compacted@, start[i]) by {
                    if i == index {
                        assert(!flagged);
                    }
                }
            }
        }
        index += 1;
    }
    if !any {
        return (0, None);
    }
    let ghost orphan_flags = orphan@;
    assert(orphan_flags =~= Seq::new(start.len(), |i: int| is_orphan(compacted@, start[i])));

    let mut cell: usize = 0;
    while cell < cells
        invariant
            n == start.len(),
            cells == cell_winner@.len(),
            cell_winner@.len() == cell_plates@.len(),
            cell <= cells,
            forall|c: int|
                0 <= c < cell_winner@.len() ==> {
                    &&& #[trigger] cell_winner@[c] < start.len()
                    &&& cell_plates@[c] < compacted@.len()
                    &&& compacted@[cell_plates@[c] as int] != usize::MAX
                },
            parcels@ == columns_relabeled_upto(start, cell_winner@, cell_plates@, compacted@, cell as int),
            parcels@.len() == start.len(),
            forall|i: int|
                0 <= i < start.len() ==> {
                    &&& #[trigger] start[i].plate < compacted@.len()
                    &&& start[i].cell < cell_winner@.len()
                },
            forall|q: int|
                0 <= q < start.len() ==> {
                    &&& (#[trigger] parcels@[q]).cell == start[q].cell
                    &&& parcels@[q].continental == start[q].continental
                    &&& parcels@[q].thickness == start[q].thickness
                    &&& parcels@[q].plate < compacted@.len()
                },
            forall|c: int| 0 <= c < cell ==> !dying(compacted@, #[trigger] parcels@[cell_winner@[c] as int]),
        decreases cells - cell,
    {
        let w = cell_winner[cell];
        let parcel = parcels[w];
        if compacted[parcel.plate] == usize::MAX {
            parcels.set(w, Parcel { plate: cell_plates[cell], ..parcel });
        }
        proof {
            assert forall|c: int| 0 <= c < cell + 1 implies !dying(
                compacted@,
                #[trigger] parcels@[cell_winner@[c] as int],
            ) by {
                if c < cell && cell_winner@[c] == w {
                    assert(!dying(compacted@, parcel));
                }
            }
        }
        cell += 1;
    }
    let ghost relabeled = parcels@;
    proof {
        assert forall|q: int| 0 <= q < n implies (#[trigger] parcels@[q]).cell < cells by {
            assert(start[q].plate < compacted@.len());
        }
        let weights = merge_weights(relabeled, orphan_flags, compacted@, 0);
        let thick = Seq::new(start.len(), |q: int| start[q].thickness as int);
        lemma_sum_pointwise_le(weights, thick, n as int);
    }

    let mut accreted: usize = 0;
    let mut k: usize = 0;
    while k < n
        invariant
            n == start.len(),
            cells == cell_winner@.len(),
            orphan@ == orphan_flags,
            orphan_flags.len() == n,
            k <= n,
            accreted <= k,
            forall|c: int| 0 <= c < cells ==> #[trigger] cell_winner@[c] < start.len(),
            parcels@ == orphans_merged_upto(relabeled, orphan_flags, cell_winner@, compacted@, k as int),
            accreted == merged_count_upto(relabeled, orphan_flags, cell_winner@, compacted@, k as int),
            parcels@.len() == n,
            forall|q: int|
                0 <= q < n ==> {
                    &&& (#[trigger] parcels@[q]).cell == start[q].cell
                    &&& parcels@[q].cell < cells
                    &&& parcels@[q].continental == start[q].continental
                    &&& parcels@[q].plate == relabeled[q].plate
                    &&& parcels@[q].plate < compacted@.len()
                },
            forall|c: int| 0 <= c < cells ==> !dying(compacted@, #[trigger] parcels@[cell_winner@[c] as int]),
            sum_upto(merge_weights(parcels@, orphan_flags, compacted@, k as int), n as int) <= u32::MAX,
        decreases n - k,
    {
        let ghost before = parcels@;
        let ghost w_before = merge_weights(before, orphan_flags, compacted@, k as int);
        let parcel = parcels[k];
        if orphan[k] && compacted[parcel.plate] == usize::MAX {
            let t = cell_winner[parcel.cell];
            proof {
                assert(!dying(compacted@, parcels@[t as int]));
                assert(t != k);
                assert forall|q: int| 0 <= q < n implies w_before[q] >= 0 by {}
                lemma_sum_two_terms(w_before, t as int, k as int, n as int);
            }
            let target = parcels[t];
            let merged = target.thickness + parcel.thickness;
            parcels.set(t, Parcel { thickness: merged, ..target });
            accreted = accreted + 1;
            proof {
                let w_after = merge_weights(parcels@, orphan_flags, compacted@, k + 1);
                let stepped = w_before.update(k as int, 0).update(t as int, merged as int);
                assert(w_after =~= stepped);
                lemma_sum_update(w_before, k as int, 0, n as int);
                lemma_sum_update(w_before.update(k as int, 0), t as int, merged as int, n as int);
            }
        } else {
            proof {
                let w_after = merge_weights(parcels@, orphan_flags, compacted@, k + 1);
                lemma_sum_pointwise_le(w_after, w_before, n as int);
            }
        }
        k += 1;
    }

    let mut thickness: Vec<u32> = Vec::new();
    let mut c: usize = 0;
    while c < cells
        invariant
            cells == cell_winner@.len(),
            parcels@.len() == n,
            forall|d: int| 0 <= d < cells ==> #[trigger] cell_winner@[d] < n,
            c <= cells,
            thickness@.len() == c,
            forall|d: int|
                0 <= d < c ==> #[trigger] thickness@[d] == spec_cell_thickness(
                    parcels@[cell_winner@[d] as int],
                ),
        decreases cells - c,
    {
        thickness.push(crate::transport::cell_thickness(parcels[cell_winner[c]]));
        c += 1;
    }
    (accreted, Some(thickness))
}

/// Renumbers every parcel's plate through `compacted`, accreting the
/// continent of a plate the map has no id for and dropping its floor, and
/// points every cell at where the parcel it reads now stands. Returns how
/// many parcels accreted, and the thickness every cell reads where any did.
///
/// Every plate owning a cell has an id; where no parcel is an orphan, every
/// column a cell reads is already of a plate that has one.
pub fn remap_parcel_plates(
    parcels: &mut Vec<Parcel>,
    cell_winner: &mut Vec<usize>,
    cell_plates: &Vec<usize>,
    compacted: &Vec<usize>,
) -> (result: (usize, Option<Vec<u32>>, Vec<bool>))
    requires
        old(cell_winner)@.len() == cell_plates@.len(),
        forall|c: int|
            0 <= c < old(cell_winner)@.len() ==> {
                &&& #[trigger] old(cell_winner)@[c] < old(parcels)@.len()
                &&& cell_plates@[c] < compacted@.len()
                &&& compacted@[cell_plates@[c] as int] != usize::MAX
            },
        forall|i: int|
            0 <= i < old(parcels)@.len() ==> {
                &&& #[trigger] old(parcels)@[i].plate < compacted@.len()
                &&& old(parcels)@[i].cell < old(cell_winner)@.len()
            },
        thickness_total(old(parcels)@) <= u32::MAX,
        has_orphans(old(parcels)@, compacted@) || forall|c: int|
            0 <= c < old(cell_winner)@.len() ==> !dying(
                compacted@,
                #[trigger] old(parcels)@[old(cell_winner)@[c] as int],
            ),
    ensures
        ({
            let merged = accreted_parcels(old(parcels)@, old(cell_winner)@, cell_plates@, compacted@);
            let gone = dying_flags(merged, compacted@);
            let kept = kept_items(merged, gone, merged.len() as int);
            &&& final(parcels)@ == renumbered(kept, compacted@)
            &&& final(cell_winner)@.len() == old(cell_winner)@.len()
            &&& forall|c: int|
                0 <= c < old(cell_winner)@.len() ==> {
                    &&& #[trigger] final(cell_winner)@[c] == survivors_upto(gone, old(cell_winner)@[c] as int)
                    &&& final(cell_winner)@[c] < final(parcels)@.len()
                    &&& kept[final(cell_winner)@[c] as int] == merged[old(cell_winner)@[c] as int]
                }
            &&& result.0 == if has_orphans(old(parcels)@, compacted@) {
                merged_count_upto(
                    columns_relabeled_upto(
                        old(parcels)@,
                        old(cell_winner)@,
                        cell_plates@,
                        compacted@,
                        old(cell_winner)@.len() as int,
                    ),
                    Seq::new(old(parcels)@.len(), |i: int| is_orphan(compacted@, old(parcels)@[i])),
                    old(cell_winner)@,
                    compacted@,
                    old(parcels)@.len() as int,
                )
            } else {
                0
            }
            &&& (result.1 is Some <==> has_orphans(old(parcels)@, compacted@))
            &&& result.1 matches Some(t) ==> reads_thickness(t@, merged, old(cell_winner)@)
            // Which parcels the compaction dropped, by their place before it.
            &&& result.2@ == gone
        }),
{
    let ghost start = parcels@;
    let ghost start_winner = cell_winner@;
    let outcome = accrete_orphans(parcels, cell_winner, cell_plates, compacted);
    let ghost merged = parcels@;
    proof {
        if !has_orphans(start, compacted@) {
            assert(merged == start);
        }
    }
    let mut removed: Vec<bool> = Vec::new();
    let mut index: usize = 0;
    while index < parcels.len()
        invariant
            parcels@ == merged,
            index <= merged.len(),
            removed@.len() == index,
            forall|q: int| 0 <= q < merged.len() ==> #[trigger] merged[q].plate < compacted@.len(),
            forall|q: int| 0 <= q < index ==> #[trigger] removed@[q] == dying(compacted@, merged[q]),
        decreases merged.len() - index,
    {
        removed.push(compacted[parcels[index].plate] == usize::MAX);
        index += 1;
    }
    proof {
        assert(removed@ =~= dying_flags(merged, compacted@));
    }
    drop_removed(parcels, cell_winner, &removed);
    let ghost kept = parcels@;
    proof {
        crate::material::lemma_kept_items_members(merged, removed@, merged.len() as int);
        assert forall|i: int| 0 <= i < kept.len() implies #[trigger] kept[i].plate < compacted@.len() by {
            let j = choose|j: int| 0 <= j < merged.len() && kept[i] == merged[j];
            assert(merged[j].plate < compacted@.len());
        }
    }
    let mut q: usize = 0;
    while q < parcels.len()
        invariant
            kept == kept_items(merged, removed@, merged.len() as int),
            parcels@.len() == kept.len(),
            q <= kept.len(),
            forall|i: int| 0 <= i < kept.len() ==> #[trigger] kept[i].plate < compacted@.len(),
            forall|i: int|
                0 <= i < q ==> #[trigger] parcels@[i] == (Parcel {
                    plate: compacted@[kept[i].plate as int],
                    ..kept[i]
                }),
            forall|i: int| q <= i < kept.len() ==> #[trigger] parcels@[i] == kept[i],
        decreases kept.len() - q,
    {
        let parcel = parcels[q];
        parcels.set(q, Parcel { plate: compacted[parcel.plate], ..parcel });
        q += 1;
    }
    proof {
        assert(parcels@ =~= renumbered(kept, compacted@));
    }
    (outcome.0, outcome.1, removed)
}

/// What each parcel holds of continent while the orphans from `next` on are
/// yet to merge: a live continental column its thickness, an orphan yet to
/// merge its own, anything else nothing.
pub open spec fn continent_weights(
    parcels: Seq<Parcel>,
    orphan: Seq<bool>,
    compacted: Seq<usize>,
    next: int,
) -> Seq<int> {
    Seq::new(
        parcels.len(),
        |q: int|
            if parcels[q].continental && (!dying(compacted, parcels[q]) || (orphan[q] && q >= next)) {
                parcels[q].thickness as int
            } else {
                0
            },
    )
}

/// The structural conditions every remap input meets: cells read parcels
/// that exist, plates owning cells have ids, and every parcel's plate and
/// cell are in range.
pub open spec fn remap_inputs_fit(
    parcels: Seq<Parcel>,
    cell_winner: Seq<usize>,
    cell_plates: Seq<usize>,
    compacted: Seq<usize>,
) -> bool {
    &&& cell_winner.len() == cell_plates.len()
    &&& forall|c: int|
        0 <= c < cell_winner.len() ==> {
            &&& #[trigger] cell_winner[c] < parcels.len()
            &&& cell_plates[c] < compacted.len()
            &&& compacted[cell_plates[c] as int] != usize::MAX
        }
    &&& forall|i: int|
        0 <= i < parcels.len() ==> {
            &&& #[trigger] parcels[i].plate < compacted.len()
            &&& parcels[i].cell < cell_winner.len()
        }
}

proof fn lemma_relabel_facts(
    start: Seq<Parcel>,
    cell_winner: Seq<usize>,
    cell_plates: Seq<usize>,
    compacted: Seq<usize>,
    upto: int,
)
    requires
        remap_inputs_fit(start, cell_winner, cell_plates, compacted),
        0 <= upto <= cell_winner.len(),
    ensures
        ({
            let rel = columns_relabeled_upto(start, cell_winner, cell_plates, compacted, upto);
            &&& rel.len() == start.len()
            &&& forall|q: int|
                0 <= q < start.len() ==> {
                    &&& (#[trigger] rel[q]).cell == start[q].cell
                    &&& rel[q].continental == start[q].continental
                    &&& rel[q].thickness == start[q].thickness
                    &&& rel[q].plate < compacted.len()
                    &&& (dying(compacted, rel[q]) ==> dying(compacted, start[q]))
                }
            &&& forall|c: int| 0 <= c < upto ==> !dying(compacted, #[trigger] rel[cell_winner[c] as int])
        }),
    decreases upto,
{
    if upto > 0 {
        lemma_relabel_facts(start, cell_winner, cell_plates, compacted, upto - 1);
        let prev = columns_relabeled_upto(start, cell_winner, cell_plates, compacted, upto - 1);
        let rel = columns_relabeled_upto(start, cell_winner, cell_plates, compacted, upto);
        let w = cell_winner[upto - 1] as int;
        assert forall|c: int| 0 <= c < upto implies !dying(compacted, #[trigger] rel[cell_winner[c] as int]) by {
            if c < upto - 1 && cell_winner[c] as int == w {
                assert(!dying(compacted, prev[w]));
            }
        }
    }
}

proof fn lemma_merge_conserves(
    start: Seq<Parcel>,
    rel: Seq<Parcel>,
    orphan: Seq<bool>,
    cell_winner: Seq<usize>,
    compacted: Seq<usize>,
    k: int,
)
    requires
        0 <= k <= rel.len(),
        rel.len() == start.len(),
        orphan.len() == rel.len(),
        forall|c: int| 0 <= c < cell_winner.len() ==> #[trigger] cell_winner[c] < rel.len(),
        forall|c: int| 0 <= c < cell_winner.len() ==> !dying(compacted, #[trigger] rel[cell_winner[c] as int]),
        forall|q: int|
            0 <= q < rel.len() ==> {
                &&& (#[trigger] rel[q]).cell < cell_winner.len()
                &&& rel[q].plate < compacted.len()
                &&& rel[q].cell == start[q].cell
                &&& rel[q].continental == start[q].continental
                &&& (rel[q].continental && dying(compacted, rel[q]) ==> orphan[q])
                &&& (orphan[q] ==> rel[q].continental)
                &&& (orphan[q] ==> rel[cell_winner[rel[q].cell as int] as int].continental)
            },
        sum_upto(continent_weights(rel, orphan, compacted, 0), rel.len() as int) <= u32::MAX,
    ensures
        ({
            let merged = orphans_merged_upto(rel, orphan, cell_winner, compacted, k);
            &&& merged.len() == rel.len()
            &&& forall|q: int|
                0 <= q < rel.len() ==> {
                    &&& (#[trigger] merged[q]).cell == rel[q].cell
                    &&& merged[q].continental == rel[q].continental
                    &&& merged[q].plate == rel[q].plate
                }
            &&& sum_upto(continent_weights(merged, orphan, compacted, k), rel.len() as int) == sum_upto(
                continent_weights(rel, orphan, compacted, 0),
                rel.len() as int,
            )
        }),
    decreases k,
{
    let n = rel.len() as int;
    if k > 0 {
        lemma_merge_conserves(start, rel, orphan, cell_winner, compacted, k - 1);
        let prev = orphans_merged_upto(rel, orphan, cell_winner, compacted, k - 1);
        let merged = orphans_merged_upto(rel, orphan, cell_winner, compacted, k);
        let before = continent_weights(prev, orphan, compacted, k - 1);
        let after = continent_weights(merged, orphan, compacted, k);
        let j = k - 1;
        if orphan[j] && dying(compacted, prev[j]) {
            let t = cell_winner[prev[j].cell as int] as int;
            assert(!dying(compacted, rel[t]));
            assert(t != j);
            assert(prev[t].continental);
            assert forall|q: int| 0 <= q < n implies before[q] >= 0 by {}
            lemma_sum_two_terms(before, t, j, n);
            let stepped = before.update(j, 0).update(t, before[t] + before[j]);
            assert(after =~= stepped);
            lemma_sum_update(before, j, 0, n);
            lemma_sum_update(before.update(j, 0), t, before[t] + before[j], n);
        } else {
            assert(after =~= before);
        }
    } else {
        assert(continent_weights(rel, orphan, compacted, 0) =~= continent_weights(
            orphans_merged_upto(rel, orphan, cell_winner, compacted, 0),
            orphan,
            compacted,
            0,
        ));
    }
}

proof fn lemma_sum_contributions(parcels: Seq<Parcel>, flags: Seq<bool>, upto: int)
    requires
        0 <= upto <= parcels.len(),
    ensures
        sum_upto(Seq::new(parcels.len(), |q: int| contribution(parcels[q], flags[q])), upto)
            == kept_total_upto(parcels, flags, upto),
    decreases upto,
{
    if upto > 0 {
        lemma_sum_contributions(parcels, flags, upto - 1);
    }
}

/// Compaction keeps the continent: where every orphan lies in a cell whose
/// column is continental, the parcels a remap keeps hold exactly the
/// continental total the run held before it.
pub proof fn lemma_remap_conserves_continent(
    parcels: Seq<Parcel>,
    cell_winner: Seq<usize>,
    cell_plates: Seq<usize>,
    compacted: Seq<usize>,
)
    requires
        remap_inputs_fit(parcels, cell_winner, cell_plates, compacted),
        continental_total(parcels) <= u32::MAX,
        forall|i: int|
            0 <= i < parcels.len() && #[trigger] is_orphan(compacted, parcels[i])
                ==> parcels[cell_winner[parcels[i].cell as int] as int].continental,
    ensures
        ({
            let merged = accreted_parcels(parcels, cell_winner, cell_plates, compacted);
            let gone = dying_flags(merged, compacted);
            continental_total(renumbered(kept_items(merged, gone, merged.len() as int), compacted))
                == continental_total(parcels)
        }),
{
    let n = parcels.len() as int;
    let falses = Seq::new(parcels.len(), |i: int| false);
    let merged = accreted_parcels(parcels, cell_winner, cell_plates, compacted);
    if has_orphans(parcels, compacted) {
        let rel = columns_relabeled_upto(parcels, cell_winner, cell_plates, compacted, cell_winner.len() as int);
        let orphan = Seq::new(parcels.len(), |i: int| is_orphan(compacted, parcels[i]));
        lemma_relabel_facts(parcels, cell_winner, cell_plates, compacted, cell_winner.len() as int);
        assert forall|q: int| 0 <= q < n implies {
            &&& (#[trigger] rel[q]).cell < cell_winner.len()
            &&& rel[q].plate < compacted.len()
            &&& rel[q].cell == parcels[q].cell
            &&& rel[q].continental == parcels[q].continental
            &&& (rel[q].continental && dying(compacted, rel[q]) ==> orphan[q])
            &&& (orphan[q] ==> rel[q].continental)
            &&& (orphan[q] ==> rel[cell_winner[rel[q].cell as int] as int].continental)
        } by {
            assert(parcels[q].plate < compacted.len());
            if orphan[q] {
                assert(is_orphan(compacted, parcels[q]));
                let t = cell_winner[parcels[q].cell as int] as int;
                assert(rel[t].continental == parcels[t].continental);
            }
        }
        let initial = continent_weights(rel, orphan, compacted, 0);
        assert(initial =~= Seq::new(parcels.len(), |q: int| contribution(parcels[q], falses[q])));
        lemma_sum_contributions(parcels, falses, n);
        lemma_merge_conserves(parcels, rel, orphan, cell_winner, compacted, n);
        let gone = dying_flags(merged, compacted);
        assert(continent_weights(merged, orphan, compacted, n) =~= Seq::new(
            merged.len(),
            |q: int| contribution(merged[q], gone[q]),
        ));
        lemma_sum_contributions(merged, gone, n);
    } else {
        let gone = dying_flags(merged, compacted);
        assert forall|q: int| 0 <= q < n implies contribution(merged[q], gone[q]) == contribution(parcels[q], falses[q]) by {
            assert(!is_orphan(compacted, parcels[q]));
        }
        lemma_kept_total_prefix(merged, gone, parcels, falses, n);
    }
    let gone = dying_flags(merged, compacted);
    let kept = kept_items(merged, gone, merged.len() as int);
    lemma_kept_items_total(merged, gone, merged.len() as int);
    let renum = renumbered(kept, compacted);
    lemma_kept_total_prefix(
        renum,
        Seq::new(renum.len(), |i: int| false),
        kept,
        Seq::new(kept.len(), |i: int| false),
        kept.len() as int,
    );
}

} // verus!
