//! Crust classes and what crust classification refuses.

use crate::partition::MAX_GROWTH_ROUGHNESS;
use crate::topology::MeshTopology;
use vstd::prelude::*;

verus! {

/// What a cell's crust is made of.
#[derive(Clone, Copy, Debug, PartialEq, Eq, Hash, Structural)]
pub enum CrustClass {
    Oceanic,
    Continental,
}

impl CrustClass {
    pub const ALL: [CrustClass; 2] = [CrustClass::Oceanic, CrustClass::Continental];
}

/// Why crust classification refused its configuration.
#[derive(Clone, Copy, Debug, PartialEq, Eq)]
pub enum CrustClassificationError {
    InvalidContinentalFraction,
    InvalidNucleusCount,
    InvalidCoreCount,
    InvalidClusterSpread,
    InvalidGrowthRoughness,
}

impl CrustClassificationError {
    /// The sentence a viewer shows for this error.
    pub open spec fn spec_message(self) -> Seq<char> {
        match self {
            CrustClassificationError::InvalidContinentalFraction => "continental fraction must be finite and between 0 and 1"@,
            CrustClassificationError::InvalidNucleusCount => "nucleus count must be at least the core count and at most the mesh cell count"@,
            CrustClassificationError::InvalidCoreCount => "core count must be at least one and at most the nucleus count"@,
            CrustClassificationError::InvalidClusterSpread => "cluster spread must be finite and not negative"@,
            CrustClassificationError::InvalidGrowthRoughness => "crust growth roughness cannot exceed 99%"@,
        }
    }

    /// The sentence a viewer shows for this error.
    pub fn message(&self) -> (text: String)
        ensures
            text@ == self.spec_message(),
    {
        match self {
            CrustClassificationError::InvalidContinentalFraction => String::from_str("continental fraction must be finite and between 0 and 1"),
            CrustClassificationError::InvalidNucleusCount => String::from_str("nucleus count must be at least the core count and at most the mesh cell count"),
            CrustClassificationError::InvalidCoreCount => String::from_str("core count must be at least one and at most the nucleus count"),
            CrustClassificationError::InvalidClusterSpread => String::from_str("cluster spread must be finite and not negative"),
            CrustClassificationError::InvalidGrowthRoughness => String::from_str("crust growth roughness cannot exceed 99%"),
        }
    }
}

/// The first rule a crust classification configuration breaks, in the order
/// the classification checks them: a continental fraction in `[0, 1]`, at
/// least one core and no more cores than nuclei, no more nuclei than cells, a
/// usable cluster spread, and a roughness no greater than
/// [`MAX_GROWTH_ROUGHNESS`]. The two real-valued rules arrive already
/// decided.
pub fn check_crust_config(
    continental_fraction_valid: bool,
    core_count: usize,
    nucleus_count: usize,
    cell_count: usize,
    cluster_spread_valid: bool,
    growth_roughness: u32,
) -> (result: Result<(), CrustClassificationError>)
    ensures
        result == (if !continental_fraction_valid {
            Err(CrustClassificationError::InvalidContinentalFraction)
        } else if core_count == 0 || core_count > nucleus_count {
            Err(CrustClassificationError::InvalidCoreCount)
        } else if nucleus_count > cell_count {
            Err(CrustClassificationError::InvalidNucleusCount)
        } else if !cluster_spread_valid {
            Err(CrustClassificationError::InvalidClusterSpread)
        } else if growth_roughness > MAX_GROWTH_ROUGHNESS {
            Err(CrustClassificationError::InvalidGrowthRoughness)
        } else {
            Ok(())
        }),
{
    if !continental_fraction_valid {
        return Err(CrustClassificationError::InvalidContinentalFraction);
    }
    if core_count == 0 || core_count > nucleus_count {
        return Err(CrustClassificationError::InvalidCoreCount);
    }
    if nucleus_count > cell_count {
        return Err(CrustClassificationError::InvalidNucleusCount);
    }
    if !cluster_spread_valid {
        return Err(CrustClassificationError::InvalidClusterSpread);
    }
    if growth_roughness > MAX_GROWTH_ROUGHNESS {
        return Err(CrustClassificationError::InvalidGrowthRoughness);
    }
    Ok(())
}

/// The class a cell's crust reads: continental where it was never re-made.
pub fn class_of(continental: bool) -> (class: CrustClass)
    ensures
        class == (if continental {
            CrustClass::Continental
        } else {
            CrustClass::Oceanic
        }),
{
    if continental {
        CrustClass::Continental
    } else {
        CrustClass::Oceanic
    }
}

/// How many of the first `upto` cells are oceanic.
pub open spec fn oceanic_upto(continental: Seq<bool>, upto: int) -> nat
    decreases upto,
{
    if upto <= 0 {
        0
    } else {
        oceanic_upto(continental, upto - 1) + if continental[upto - 1] {
            0nat
        } else {
            1nat
        }
    }
}

/// Cells of each crust class, in [`CrustClass::ALL`] order: oceanic, then
/// continental.
pub fn cell_counts(continental: &Vec<bool>) -> (counts: [usize; 2])
    ensures
        counts[0] == oceanic_upto(continental@, continental@.len() as int),
        counts[0] + counts[1] == continental@.len(),
{
    let mut oceanic: usize = 0;
    let mut cell: usize = 0;
    while cell < continental.len()
        invariant
            cell <= continental@.len(),
            oceanic == oceanic_upto(continental@, cell as int),
            oceanic <= cell,
        decreases continental@.len() - cell,
    {
        if !continental[cell] {
            oceanic = oceanic + 1;
        }
        cell += 1;
    }
    [oceanic, continental.len() - oceanic]
}

/// The cells a breadth-first walk from `start` discovers by the time it has
/// taken `pops` cells off its queue: `start` first, then each taken cell's
/// undiscovered corner neighbours in corner order.
pub open spec fn discovered(mesh: MeshTopology, start: usize, pops: nat) -> Seq<usize>
    decreases pops,
{
    if pops == 0 {
        seq![start]
    } else {
        let before = discovered(mesh, start, (pops - 1) as nat);
        if pops - 1 < before.len() {
            enqueue_corners(mesh, before[pops - 1], before, mesh.degree(before[pops - 1] as int) as int)
        } else {
            before
        }
    }
}

/// `found` with each of the first `upto` corner neighbours of `cell` appended
/// that it does not already hold.
pub open spec fn enqueue_corners(mesh: MeshTopology, cell: usize, found: Seq<usize>, upto: int) -> Seq<usize>
    decreases upto,
{
    if upto <= 0 {
        found
    } else {
        let before = enqueue_corners(mesh, cell, found, upto - 1);
        let neighbor = mesh.corner(cell as int, upto - 1).neighbor;
        if before.contains(neighbor) {
            before
        } else {
            before.push(neighbor)
        }
    }
}

proof fn lemma_enqueue_prefix(mesh: MeshTopology, cell: usize, found: Seq<usize>, upto: int)
    requires
        mesh.wf(),
        (cell as int) < mesh.cells(),
        0 <= upto <= mesh.degree(cell as int),
        forall|i: int| 0 <= i < found.len() ==> #[trigger] found[i] < mesh.cells(),
    ensures
        ({
            let after = enqueue_corners(mesh, cell, found, upto);
            &&& found.len() <= after.len()
            &&& forall|i: int| 0 <= i < found.len() ==> after[i] == found[i]
            &&& forall|i: int| 0 <= i < after.len() ==> #[trigger] after[i] < mesh.cells()
        }),
    decreases upto,
{
    if upto > 0 {
        lemma_enqueue_prefix(mesh, cell, found, upto - 1);
        assert(mesh.corner(cell as int, upto - 1).neighbor < mesh.cells());
    }
}

proof fn lemma_discovered_grows(mesh: MeshTopology, start: usize, pops: nat)
    requires
        mesh.wf(),
        (start as int) < mesh.cells(),
    ensures
        discovered(mesh, start, pops).len() >= 1,
        discovered(mesh, start, pops)[0] == start,
        forall|i: int|
            0 <= i < discovered(mesh, start, pops).len() ==> #[trigger] discovered(mesh, start, pops)[i]
                < mesh.cells(),
    decreases pops,
{
    if pops > 0 {
        lemma_discovered_grows(mesh, start, (pops - 1) as nat);
        let before = discovered(mesh, start, (pops - 1) as nat);
        if pops - 1 < before.len() {
            lemma_enqueue_prefix(mesh, before[pops - 1], before, mesh.degree(before[pops - 1] as int) as int);
        }
    }
}

/// The nearest cell to `start` in hops that no nucleus holds, `start` itself
/// included: the first cell a breadth-first walk in corner order takes off
/// its queue that is not taken. Some cell the walk reaches is free.
pub fn nearest_free_cell(mesh: &MeshTopology, taken: &Vec<bool>, start: usize) -> (free: usize)
    requires
        mesh.wf(),
        start < mesh.cells(),
        taken@.len() == mesh.cells(),
        exists|pops: nat, i: int|
            0 <= i < discovered(*mesh, start, pops).len() && !taken@[#[trigger] discovered(*mesh, start, pops)[i] as int],
    ensures
        exists|pops: nat|
            {
                let order = #[trigger] discovered(*mesh, start, pops);
                &&& pops < order.len()
                &&& order[pops as int] == free
                &&& !taken@[free as int]
                &&& forall|j: int| 0 <= j < pops ==> taken@[order[j] as int]
            },
{
    let n = mesh.cell_count();
    let mut visited: Vec<bool> = vec![false; n];
    let mut queue: Vec<usize> = Vec::new();
    queue.push(start);
    proof {
        crate::material::lemma_set_count_none(n as int);
        assert(visited@ =~= Seq::new(n as nat, |c: int| false));
        crate::material::lemma_set_count_update(visited@, start as int, n as int);
    }
    visited.set(start, true);
    assert(queue@ =~= discovered(*mesh, start, 0));
    proof {
        assert forall|c: int| 0 <= c < n implies #[trigger] visited@[c] == queue@.contains(c as usize) by {
            if c == start {
                assert(queue@[0] == start);
            }
        }
    }
    let mut head: usize = 0;
    while head < queue.len()
        invariant
            mesh.wf(),
            n == mesh.cells(),
            start < n,
            taken@.len() == n,
            visited@.len() == n,
            head <= queue@.len(),
            queue@ == discovered(*mesh, start, head as nat),
            forall|i: int| 0 <= i < queue@.len() ==> #[trigger] queue@[i] < n,
            forall|c: int| 0 <= c < n ==> #[trigger] visited@[c] == queue@.contains(c as usize),
            queue@.len() == crate::material::set_count_upto(visited@, n as int),
            forall|j: int| 0 <= j < head ==> taken@[#[trigger] queue@[j] as int],
            exists|pops: nat, i: int|
                0 <= i < discovered(*mesh, start, pops).len() && !taken@[#[trigger] discovered(*mesh, start, pops)[i] as int],
        decreases n - head,
    {
        proof {
            lemma_set_count_bounded(visited@, n as int);
        }
        let cell = queue[head];
        if !taken[cell] {
            proof {
                let order = discovered(*mesh, start, head as nat);
                assert(order == queue@);
                assert(order[head as int] == cell);
                assert forall|j: int| 0 <= j < head implies taken@[order[j] as int] by {
                    assert(taken@[queue@[j] as int]);
                }
            }
            return cell;
        }
        let ghost before = queue@;
        let corners = &mesh.cell_corners[cell];
        let mut k: usize = 0;
        while k < corners.len()
            invariant
                mesh.wf(),
                n == mesh.cells(),
                cell < n,
                corners@ == mesh.cell_corners@[cell as int]@,
                k <= corners@.len(),
                visited@.len() == n,
                queue@ == enqueue_corners(*mesh, cell, before, k as int),
                forall|i: int| 0 <= i < before.len() ==> #[trigger] before[i] < n,
                forall|i: int| 0 <= i < queue@.len() ==> #[trigger] queue@[i] < n,
                forall|c: int| 0 <= c < n ==> #[trigger] visited@[c] == queue@.contains(c as usize),
                queue@.len() == crate::material::set_count_upto(visited@, n as int),
            decreases corners@.len() - k,
        {
            assert(corners@[k as int] == mesh.corner(cell as int, k as int));
            let neighbor = corners[k].neighbor;
            assert(neighbor < n);
            if !visited[neighbor] {
                proof {
                    crate::material::lemma_set_count_update(visited@, neighbor as int, n as int);
                }
                let ghost q0 = queue@;
                let ghost v0 = visited@;
                visited.set(neighbor, true);
                queue.push(neighbor);
                proof {
                    assert(queue@ == q0.push(neighbor));
                    assert forall|c: int| 0 <= c < n implies #[trigger] visited@[c] == queue@.contains(c as usize) by {
                        if c == neighbor {
                            assert(queue@[queue@.len() - 1] == neighbor);
                        } else {
                            assert(visited@[c] == v0[c]);
                            if q0.contains(c as usize) {
                                let i = choose|i: int| 0 <= i < q0.len() && q0[i] == c as usize;
                                assert(queue@[i] == c as usize);
                            }
                            if queue@.contains(c as usize) {
                                let i = choose|i: int| 0 <= i < queue@.len() && queue@[i] == c as usize;
                                assert(i < q0.len());
                                assert(q0[i] == c as usize);
                            }
                        }
                    }
                }
            } else {
                assert(queue@.contains(neighbor));
            }
            k += 1;
        }
        proof {
            assert(before[head as int] == cell);
            assert(queue@ == discovered(*mesh, start, (head + 1) as nat));
            lemma_enqueue_prefix(*mesh, cell, before, corners@.len() as int);
            assert forall|j: int| 0 <= j < head + 1 implies taken@[#[trigger] queue@[j] as int] by {
                assert(queue@[j] == before[j]);
            }
        }
        head += 1;
    }
    proof {
        let (pops, i) = choose|pops: nat, i: int|
            0 <= i < discovered(*mesh, start, pops).len() && !taken@[#[trigger] discovered(*mesh, start, pops)[i] as int];
        lemma_discovered_settles(*mesh, start, head as nat, pops);
        assert(taken@[queue@[i] as int]);
    }
    start
}

proof fn lemma_set_count_bounded(flags: Seq<bool>, upto: int)
    requires
        0 <= upto,
    ensures
        crate::material::set_count_upto(flags, upto) <= upto,
    decreases upto,
{
    if upto > 0 {
        lemma_set_count_bounded(flags, upto - 1);
    }
}

/// A walk whose queue has run dry discovers nothing more, and every earlier
/// stage of it is a prefix of where it stopped.
proof fn lemma_discovered_settles(mesh: MeshTopology, start: usize, stop: nat, pops: nat)
    requires
        mesh.wf(),
        (start as int) < mesh.cells(),
        discovered(mesh, start, stop).len() == stop,
    ensures
        discovered(mesh, start, pops).len() <= stop,
        forall|i: int|
            0 <= i < discovered(mesh, start, pops).len() ==> #[trigger] discovered(mesh, start, pops)[i]
                == discovered(mesh, start, stop)[i],
    decreases pops,
{
    if pops > stop {
        lemma_discovered_settles(mesh, start, stop, (pops - 1) as nat);
        lemma_discovered_prefix(mesh, start, (pops - 1) as nat, stop);
    } else {
        lemma_discovered_prefix(mesh, start, pops, stop);
    }
}

/// An earlier stage of a walk is a prefix of a later one.
proof fn lemma_discovered_prefix(mesh: MeshTopology, start: usize, a: nat, b: nat)
    requires
        mesh.wf(),
        (start as int) < mesh.cells(),
    ensures
        a <= b ==> discovered(mesh, start, a).len() <= discovered(mesh, start, b).len(),
        a <= b ==> forall|i: int|
            0 <= i < discovered(mesh, start, a).len() ==> #[trigger] discovered(mesh, start, a)[i]
                == discovered(mesh, start, b)[i],
        b <= a && discovered(mesh, start, b).len() == b ==> discovered(mesh, start, a) == discovered(mesh, start, b),
    decreases a + b,
{
    if a < b {
        lemma_discovered_prefix(mesh, start, a, (b - 1) as nat);
        lemma_discovered_grows(mesh, start, (b - 1) as nat);
        let before = discovered(mesh, start, (b - 1) as nat);
        if b - 1 < before.len() {
            lemma_enqueue_prefix(mesh, before[b - 1], before, mesh.degree(before[b - 1] as int) as int);
        }
    } else if b < a {
        lemma_discovered_prefix(mesh, start, (a - 1) as nat, b);
    }
}

} // verus!
