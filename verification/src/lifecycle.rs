//! The events that change the plate set during a run, and the compaction
//! that tidies up after them.
//!
//! **Suturing.** Each step counts, for every adjacent pair of plates, the
//! shared edges that are convergent with continental crust on both sides. A
//! pair whose shared front is long enough keeps colliding; the plate with
//! more area absorbs the other once the collision has lasted, and the
//! absorbed id is left owning nothing.
//!
//! **Compaction.** The run ends by removing every plate id that owns no cell
//! and renumbering the rest to `0..live_count` in id order, so every plate
//! identity a consumer sees owns cells.

use crate::boundaries::BoundaryClass;
use crate::orphans::{
    remap_parcel_plates, accreted_parcels, dying_flags, renumbered, has_orphans, thickness_total,
    dying,
};
use crate::material::{kept_items, survivors_upto};
use crate::topology::MeshTopology;
use crate::transport::Parcel;
use vstd::prelude::*;

verus! {

/// What one step's lifecycle did to the plate set.
#[derive(Clone, Copy, Debug, PartialEq, Eq)]
pub struct LifecycleEvents {
    pub rift_count: usize,
    pub failed_rift_count: usize,
    pub suture_count: usize,
}

impl Default for LifecycleEvents {
    fn default() -> (events: Self)
        ensures
            events == (LifecycleEvents { rift_count: 0, failed_rift_count: 0, suture_count: 0 }),
    {
        LifecycleEvents { rift_count: 0, failed_rift_count: 0, suture_count: 0 }
    }
}

/// The pair of plates, lower id first, whose continental collision front
/// edge `e` belongs to: a convergent edge between two plates with continent
/// on both sides.
pub open spec fn front_pair(
    mesh: MeshTopology,
    edge_classes: Seq<BoundaryClass>,
    cell_plates: Seq<usize>,
    continental: Seq<bool>,
    e: int,
) -> Option<(usize, usize)> {
    let a = mesh.edge_cells@[e][0] as int;
    let b = mesh.edge_cells@[e][1] as int;
    let pa = cell_plates[a];
    let pb = cell_plates[b];
    if edge_classes[e] == BoundaryClass::Convergent && pa != pb && continental[a] && continental[b] {
        Some(
            if pa < pb {
                (pa, pb)
            } else {
                (pb, pa)
            },
        )
    } else {
        None
    }
}

/// How many of the first `upto` edges lie on the collision front of `pair`.
pub open spec fn front_upto(
    mesh: MeshTopology,
    edge_classes: Seq<BoundaryClass>,
    cell_plates: Seq<usize>,
    continental: Seq<bool>,
    pair: (usize, usize),
    upto: int,
) -> nat
    decreases upto,
{
    if upto <= 0 {
        0
    } else {
        front_upto(mesh, edge_classes, cell_plates, continental, pair, upto - 1) + if front_pair(
            mesh,
            edge_classes,
            cell_plates,
            continental,
            upto - 1,
        ) == Some(pair) {
            1nat
        } else {
            0nat
        }
    }
}

/// Pairs in the order a map keyed by them walks: lower id first, then
/// higher.
pub open spec fn pair_precedes(a: (usize, usize), b: (usize, usize)) -> bool {
    a.0 < b.0 || (a.0 == b.0 && a.1 < b.1)
}

/// The shared continental collision front of one pair of plates, in edges.
#[derive(Clone, Copy, Debug, PartialEq, Eq)]
pub struct SharedFront {
    pub low: usize,
    pub high: usize,
    pub edges: usize,
}

impl SharedFront {
    pub open spec fn pair(self) -> (usize, usize) {
        (self.low, self.high)
    }
}

/// Whether `fronts` is every pair with some front among the first `upto`
/// edges, in pair order, each with its edge count.
pub open spec fn fronts_tally(
    mesh: MeshTopology,
    edge_classes: Seq<BoundaryClass>,
    cell_plates: Seq<usize>,
    continental: Seq<bool>,
    fronts: Seq<SharedFront>,
    upto: int,
) -> bool {
    &&& forall|i: int, j: int|
        0 <= i < j < fronts.len() ==> pair_precedes(#[trigger] fronts[i].pair(), #[trigger] fronts[j].pair())
    &&& forall|i: int|
        0 <= i < fronts.len() ==> #[trigger] fronts[i].edges == front_upto(
            mesh,
            edge_classes,
            cell_plates,
            continental,
            fronts[i].pair(),
            upto,
        ) && fronts[i].edges > 0
    &&& forall|pair: (usize, usize)|
        #[trigger] front_upto(mesh, edge_classes, cell_plates, continental, pair, upto) > 0 ==> exists|
            i: int,
        |
            0 <= i < fronts.len() && #[trigger] fronts[i].pair() == pair
}

proof fn lemma_front_upto_bounded(
    mesh: MeshTopology,
    edge_classes: Seq<BoundaryClass>,
    cell_plates: Seq<usize>,
    continental: Seq<bool>,
    pair: (usize, usize),
    upto: int,
)
    requires
        0 <= upto,
    ensures
        front_upto(mesh, edge_classes, cell_plates, continental, pair, upto) <= upto,
    decreases upto,
{
    if upto > 0 {
        lemma_front_upto_bounded(mesh, edge_classes, cell_plates, continental, pair, upto - 1);
    }
}

/// Whether some edge among the first `upto` is convergent, has continent on
/// both sides, and separates the two plates of `pair`, lower id first.
pub open spec fn continents_converge_across(
    mesh: MeshTopology,
    edge_classes: Seq<BoundaryClass>,
    cell_plates: Seq<usize>,
    continental: Seq<bool>,
    upto: int,
    pair: (usize, usize),
) -> bool {
    &&& pair.0 < pair.1
    &&& exists|e: int|
        0 <= e < upto && edge_classes[e] == BoundaryClass::Convergent && continental[(
        #[trigger] mesh.edge_cells@[e])[0] as int] && continental[mesh.edge_cells@[e][1] as int] && ((
        cell_plates[mesh.edge_cells@[e][0] as int] == pair.0 && cell_plates[mesh.edge_cells@[e][1] as int]
            == pair.1) || (cell_plates[mesh.edge_cells@[e][0] as int] == pair.1
            && cell_plates[mesh.edge_cells@[e][1] as int] == pair.0))
}

/// An edge lies on a collision front only if it is convergent with continent
/// on both sides and plates that differ; its pair is those two plates, lower
/// id first.
pub proof fn lemma_front_edges_are_convergent_continental_edges(
    mesh: MeshTopology,
    edge_classes: Seq<BoundaryClass>,
    cell_plates: Seq<usize>,
    continental: Seq<bool>,
    e: int,
)
    ensures
        front_pair(mesh, edge_classes, cell_plates, continental, e) is Some ==> {
            let a = mesh.edge_cells@[e][0] as int;
            let b = mesh.edge_cells@[e][1] as int;
            let pair = front_pair(mesh, edge_classes, cell_plates, continental, e)->0;
            &&& edge_classes[e] == BoundaryClass::Convergent
            &&& continental[a] && continental[b]
            &&& pair.0 < pair.1
            &&& (cell_plates[a] == pair.0 && cell_plates[b] == pair.1) || (cell_plates[a] == pair.1
                && cell_plates[b] == pair.0)
        },
{
}

/// A pair has a front only where the continents of its two plates converge
/// across an edge between them.
pub proof fn lemma_front_needs_converging_continents(
    mesh: MeshTopology,
    edge_classes: Seq<BoundaryClass>,
    cell_plates: Seq<usize>,
    continental: Seq<bool>,
    pair: (usize, usize),
    upto: int,
)
    ensures
        front_upto(mesh, edge_classes, cell_plates, continental, pair, upto) > 0 ==> continents_converge_across(
            mesh,
            edge_classes,
            cell_plates,
            continental,
            upto,
            pair,
        ),
    decreases upto,
{
    if upto > 0 {
        lemma_front_needs_converging_continents(mesh, edge_classes, cell_plates, continental, pair, upto - 1);
        let last = upto - 1;
        if front_pair(mesh, edge_classes, cell_plates, continental, last) == Some(pair) {
            assert(mesh.edge_cells@[last][0] == mesh.edge_cells@[last][0]);
        } else if front_upto(mesh, edge_classes, cell_plates, continental, pair, upto) > 0 {
            let e = choose|e: int|
                0 <= e < upto - 1 && edge_classes[e] == BoundaryClass::Convergent && continental[(
                #[trigger] mesh.edge_cells@[e])[0] as int] && continental[mesh.edge_cells@[e][1] as int] && ((
                cell_plates[mesh.edge_cells@[e][0] as int] == pair.0 && cell_plates[mesh.edge_cells@[e][1] as int]
                    == pair.1) || (cell_plates[mesh.edge_cells@[e][0] as int] == pair.1
                    && cell_plates[mesh.edge_cells@[e][1] as int] == pair.0));
            assert(0 <= e < upto);
        }
    }
}

/// What one more edge adds to a pair's front: one edge if it is convergent,
/// has continent on both sides and separates exactly the pair's two plates,
/// and nothing otherwise.
pub proof fn lemma_front_one_more_edge(
    mesh: MeshTopology,
    edge_classes: Seq<BoundaryClass>,
    cell_plates: Seq<usize>,
    continental: Seq<bool>,
    pair: (usize, usize),
    e: int,
)
    requires
        0 <= e,
    ensures
        ({
            let a = mesh.edge_cells@[e][0] as int;
            let b = mesh.edge_cells@[e][1] as int;
            let added = front_upto(mesh, edge_classes, cell_plates, continental, pair, e + 1) - front_upto(
                mesh,
                edge_classes,
                cell_plates,
                continental,
                pair,
                e,
            );
            added == if edge_classes[e] == BoundaryClass::Convergent && continental[a] && continental[b]
                && pair.0 < pair.1 && ((cell_plates[a] == pair.0 && cell_plates[b] == pair.1) || (cell_plates[a]
                == pair.1 && cell_plates[b] == pair.0)) {
                1int
            } else {
                0int
            }
        }),
{
}

/// The fronts read an edge's class only for whether it is convergent: two
/// continents rifting apart, or sliding past, collide no more than two that
/// share an interior edge.
pub proof fn lemma_fronts_read_only_convergence(
    mesh: MeshTopology,
    edge_classes: Seq<BoundaryClass>,
    other_classes: Seq<BoundaryClass>,
    cell_plates: Seq<usize>,
    continental: Seq<bool>,
    pair: (usize, usize),
    upto: int,
)
    requires
        forall|e: int|
            0 <= e < upto ==> (#[trigger] edge_classes[e] == BoundaryClass::Convergent) == (other_classes[e]
                == BoundaryClass::Convergent),
    ensures
        front_upto(mesh, edge_classes, cell_plates, continental, pair, upto) == front_upto(
            mesh,
            other_classes,
            cell_plates,
            continental,
            pair,
            upto,
        ),
    decreases upto,
{
    if upto > 0 {
        assert((edge_classes[upto - 1] == BoundaryClass::Convergent) == (other_classes[upto - 1]
            == BoundaryClass::Convergent));
        lemma_fronts_read_only_convergence(mesh, edge_classes, other_classes, cell_plates, continental, pair, upto - 1);
    }
}

/// For every adjacent pair of plates, the shared edges that are convergent
/// with continental crust on both sides, in pair order.
pub fn continental_fronts(
    mesh: &MeshTopology,
    edge_classes: &Vec<BoundaryClass>,
    cell_plates: &Vec<usize>,
    continental: &Vec<bool>,
) -> (fronts: Vec<SharedFront>)
    requires
        mesh.wf(),
        edge_classes@.len() == mesh.edges(),
        cell_plates@.len() == mesh.cells(),
        continental@.len() == mesh.cells(),
    ensures
        fronts_tally(
            *mesh,
            edge_classes@,
            cell_plates@,
            continental@,
            fronts@,
            mesh.edges() as int,
        ),
        forall|i: int|
            0 <= i < fronts@.len() ==> continents_converge_across(
                *mesh,
                edge_classes@,
                cell_plates@,
                continental@,
                mesh.edges() as int,
                #[trigger] fronts@[i].pair(),
            ),
{
    let mut fronts: Vec<SharedFront> = Vec::new();
    let mut edge: usize = 0;
    while edge < mesh.edge_count()
        invariant
            mesh.wf(),
            edge_classes@.len() == mesh.edges(),
            cell_plates@.len() == mesh.cells(),
            continental@.len() == mesh.cells(),
            edge <= mesh.edges(),
            fronts_tally(*mesh, edge_classes@, cell_plates@, continental@, fronts@, edge as int),
        decreases mesh.edges() - edge,
    {
        let ghost before = fronts@;
        let cells = mesh.edge_cells[edge];
        let a = cells[0];
        let b = cells[1];
        let pa = cell_plates[a];
        let pb = cell_plates[b];
        let is_front = edge_classes[edge] == BoundaryClass::Convergent && pa != pb
            && continental[a] && continental[b];
        if is_front {
            let (low, high) = if pa < pb {
                (pa, pb)
            } else {
                (pb, pa)
            };
            let ghost pair = (low, high);
            assert(front_pair(*mesh, edge_classes@, cell_plates@, continental@, edge as int) == Some(pair));
            let mut i: usize = 0;
            while i < fronts.len() && (fronts[i].low < low || (fronts[i].low == low && fronts[i].high < high))
                invariant
                    fronts@ == before,
                    pair == (low, high),
                    i <= fronts@.len(),
                    forall|j: int| 0 <= j < i ==> pair_precedes(#[trigger] fronts@[j].pair(), pair),
                decreases fronts@.len() - i,
            {
                i += 1;
            }
            proof {
                lemma_front_upto_bounded(*mesh, edge_classes@, cell_plates@, continental@, pair, edge as int);
            }
            if i < fronts.len() && fronts[i].low == low && fronts[i].high == high {
                let found = fronts[i];
                fronts.set(i, SharedFront { edges: found.edges + 1, ..found });
                proof {
                    assert forall|j: int, k: int| 0 <= j < k < fronts@.len() implies pair_precedes(
                        #[trigger] fronts@[j].pair(),
                        #[trigger] fronts@[k].pair(),
                    ) by {
                        assert(fronts@[j].pair() == before[j].pair());
                        assert(fronts@[k].pair() == before[k].pair());
                    }
                    assert forall|k: int| 0 <= k < fronts@.len() implies #[trigger] fronts@[k].edges
                        == front_upto(
                        *mesh,
                        edge_classes@,
                        cell_plates@,
                        continental@,
                        fronts@[k].pair(),
                        edge + 1,
                    ) && fronts@[k].edges > 0 by {
                        if k != i {
                            assert(before[k].pair() != pair);
                        }
                    }
                    assert forall|p: (usize, usize)|
                        #[trigger] front_upto(*mesh, edge_classes@, cell_plates@, continental@, p, edge + 1)
                            > 0 implies exists|k: int| 0 <= k < fronts@.len() && #[trigger] fronts@[k].pair() == p by {
                        if p == pair {
                            assert(fronts@[i as int].pair() == p);
                        } else {
                            assert(front_upto(*mesh, edge_classes@, cell_plates@, continental@, p, edge as int) > 0);
                            let k = choose|k: int| 0 <= k < before.len() && #[trigger] before[k].pair() == p;
                            assert(fronts@[k].pair() == p);
                        }
                    }
                }
            } else {
                proof {
                    if front_upto(*mesh, edge_classes@, cell_plates@, continental@, pair, edge as int) > 0 {
                        let k = choose|k: int| 0 <= k < before.len() && #[trigger] before[k].pair() == pair;
                        if k < i {
                            assert(pair_precedes(before[k].pair(), pair));
                        } else if k > i {
                            assert(pair_precedes(before[i as int].pair(), before[k].pair()));
                        }
                    }
                }
                proof {
                    if i < before.len() {
                        assert(pair_precedes(pair, before[i as int].pair()));
                        assert forall|k: int| i < k < before.len() implies pair_precedes(
                            pair,
                            #[trigger] before[k].pair(),
                        ) by {
                            assert(pair_precedes(before[i as int].pair(), before[k].pair()));
                        }
                    }
                }
                fronts.insert(i, SharedFront { low, high, edges: 1 });
                proof {
                    assert forall|j: int, k: int| 0 <= j < k < fronts@.len() implies pair_precedes(
                        #[trigger] fronts@[j].pair(),
                        #[trigger] fronts@[k].pair(),
                    ) by {
                        if k < i {
                        } else if k == i {
                        } else if j < i {
                            assert(fronts@[k] == before[k - 1]);
                            if i < before.len() {
                                assert(pair_precedes(pair, before[i as int].pair()));
                                if k - 1 > i {
                                    assert(pair_precedes(before[i as int].pair(), before[k - 1].pair()));
                                }
                            }
                        } else if j == i {
                            assert(fronts@[k] == before[k - 1]);
                            assert(pair_precedes(pair, before[i as int].pair()));
                            if k - 1 > i {
                                assert(pair_precedes(before[i as int].pair(), before[k - 1].pair()));
                            }
                        } else {
                            assert(fronts@[j] == before[j - 1]);
                            assert(fronts@[k] == before[k - 1]);
                        }
                    }
                    assert forall|k: int| 0 <= k < fronts@.len() implies #[trigger] fronts@[k].edges
                        == front_upto(
                        *mesh,
                        edge_classes@,
                        cell_plates@,
                        continental@,
                        fronts@[k].pair(),
                        edge + 1,
                    ) && fronts@[k].edges > 0 by {
                        if k < i {
                            assert(fronts@[k] == before[k]);
                            assert(before[k].pair() != pair);
                        } else if k > i {
                            assert(fronts@[k] == before[k - 1]);
                            assert(before[k - 1].pair() != pair);
                        }
                    }
                    assert forall|p: (usize, usize)|
                        #[trigger] front_upto(*mesh, edge_classes@, cell_plates@, continental@, p, edge + 1)
                            > 0 implies exists|k: int| 0 <= k < fronts@.len() && #[trigger] fronts@[k].pair() == p by {
                        if p == pair {
                            assert(fronts@[i as int].pair() == p);
                        } else {
                            assert(front_upto(*mesh, edge_classes@, cell_plates@, continental@, p, edge as int) > 0);
                            let k = choose|k: int| 0 <= k < before.len() && #[trigger] before[k].pair() == p;
                            if k < i {
                                assert(fronts@[k].pair() == p);
                            } else {
                                assert(fronts@[k + 1].pair() == p);
                            }
                        }
                    }
                }
            }
        } else {
            proof {
                assert(front_pair(*mesh, edge_classes@, cell_plates@, continental@, edge as int) is None);
                assert forall|p: (usize, usize)|
                    #[trigger] front_upto(*mesh, edge_classes@, cell_plates@, continental@, p, edge + 1) == front_upto(
                        *mesh,
                        edge_classes@,
                        cell_plates@,
                        continental@,
                        p,
                        edge as int,
                    ) by {}
                assert forall|k: int| 0 <= k < fronts@.len() implies #[trigger] fronts@[k].edges
                    == front_upto(
                    *mesh,
                    edge_classes@,
                    cell_plates@,
                    continental@,
                    fronts@[k].pair(),
                    edge + 1,
                ) && fronts@[k].edges > 0 by {}
                assert forall|p: (usize, usize)|
                    #[trigger] front_upto(*mesh, edge_classes@, cell_plates@, continental@, p, edge + 1)
                        > 0 implies exists|k: int| 0 <= k < fronts@.len() && #[trigger] fronts@[k].pair() == p by {
                    assert(front_upto(*mesh, edge_classes@, cell_plates@, continental@, p, edge as int) > 0);
                }
            }
        }
        edge += 1;
    }
    proof {
        assert forall|i: int| 0 <= i < fronts@.len() implies continents_converge_across(
            *mesh,
            edge_classes@,
            cell_plates@,
            continental@,
            mesh.edges() as int,
            #[trigger] fronts@[i].pair(),
        ) by {
            assert(fronts@[i].edges > 0);
            lemma_front_needs_converging_continents(
                *mesh,
                edge_classes@,
                cell_plates@,
                continental@,
                fronts@[i].pair(),
                mesh.edges() as int,
            );
        }
    }
    fronts
}

/// The pairs of plates whose shared continental collision front is at least
/// `minimum_shared_edges` long, in pair order: the collisions that keep
/// running this step.
pub fn colliding_pairs(
    mesh: &MeshTopology,
    edge_classes: &Vec<BoundaryClass>,
    cell_plates: &Vec<usize>,
    continental: &Vec<bool>,
    minimum_shared_edges: usize,
) -> (pairs: Vec<(usize, usize)>)
    requires
        mesh.wf(),
        edge_classes@.len() == mesh.edges(),
        cell_plates@.len() == mesh.cells(),
        continental@.len() == mesh.cells(),
    ensures
        forall|i: int, j: int| 0 <= i < j < pairs@.len() ==> pair_precedes(#[trigger] pairs@[i], #[trigger] pairs@[j]),
        forall|i: int|
            0 <= i < pairs@.len() ==> {
                let front = #[trigger] front_upto(
                    *mesh,
                    edge_classes@,
                    cell_plates@,
                    continental@,
                    pairs@[i],
                    mesh.edges() as int,
                );
                front > 0 && front >= minimum_shared_edges
            },
        forall|pair: (usize, usize)|
            #[trigger] front_upto(*mesh, edge_classes@, cell_plates@, continental@, pair, mesh.edges() as int) > 0
                && front_upto(*mesh, edge_classes@, cell_plates@, continental@, pair, mesh.edges() as int)
                >= minimum_shared_edges ==> pairs@.contains(pair),
        // Only plates whose continents converge across a shared edge collide.
        forall|i: int|
            0 <= i < pairs@.len() ==> continents_converge_across(
                *mesh,
                edge_classes@,
                cell_plates@,
                continental@,
                mesh.edges() as int,
                #[trigger] pairs@[i],
            ),
{
    let ghost e = mesh.edges() as int;
    let fronts = continental_fronts(mesh, edge_classes, cell_plates, continental);
    let mut pairs: Vec<(usize, usize)> = Vec::new();
    let mut i: usize = 0;
    while i < fronts.len()
        invariant
            e == mesh.edges(),
            fronts_tally(*mesh, edge_classes@, cell_plates@, continental@, fronts@, e),
            i <= fronts@.len(),
            forall|a: int, b: int| 0 <= a < b < pairs@.len() ==> pair_precedes(#[trigger] pairs@[a], #[trigger] pairs@[b]),
            forall|a: int|
                0 <= a < pairs@.len() ==> exists|k: int| 0 <= k < fronts@.len() && #[trigger] fronts@[k].pair() == #[trigger] pairs@[a] && fronts@[k].edges >= minimum_shared_edges,
            forall|k: int|
                0 <= k < i && fronts@[k].edges >= minimum_shared_edges ==> pairs@.contains(#[trigger] fronts@[k].pair()),
            forall|a: int| 0 <= a < pairs@.len() && i < fronts@.len() ==> pair_precedes(#[trigger] pairs@[a], fronts@[i as int].pair()),
        decreases fronts@.len() - i,
    {
        let front = fronts[i];
        let ghost before = pairs@;
        if front.edges >= minimum_shared_edges {
            pairs.push((front.low, front.high));
            proof {
                assert(pairs@[before.len() as int] == fronts@[i as int].pair());
                assert forall|k: int|
                    0 <= k < i + 1 && fronts@[k].edges >= minimum_shared_edges implies pairs@.contains(#[trigger] fronts@[k].pair()) by {
                    if k < i {
                        assert(before.contains(fronts@[k].pair()));
                        let a = choose|a: int| 0 <= a < before.len() && before[a] == fronts@[k].pair();
                        assert(pairs@[a] == fronts@[k].pair());
                    } else {
                        assert(pairs@[before.len() as int] == fronts@[k].pair());
                    }
                }
                assert forall|a: int| 0 <= a < pairs@.len() implies exists|k: int| 0 <= k < fronts@.len() && #[trigger] fronts@[k].pair() == #[trigger] pairs@[a] && fronts@[k].edges >= minimum_shared_edges by {
                    if a < before.len() {
                        assert(pairs@[a] == before[a]);
                    } else {
                        assert(fronts@[i as int].pair() == pairs@[a]);
                    }
                }
            }
        }
        proof {
            if i + 1 < fronts@.len() {
                assert(pair_precedes(fronts@[i as int].pair(), fronts@[i + 1].pair()));
            }
        }
        i += 1;
    }
    proof {
        assert forall|a: int| 0 <= a < pairs@.len() implies {
            let front = #[trigger] front_upto(*mesh, edge_classes@, cell_plates@, continental@, pairs@[a], e);
            front > 0 && front >= minimum_shared_edges
        } by {
            let k = choose|k: int| 0 <= k < fronts@.len() && #[trigger] fronts@[k].pair() == pairs@[a] && fronts@[k].edges >= minimum_shared_edges;
            assert(fronts@[k].edges == front_upto(*mesh, edge_classes@, cell_plates@, continental@, fronts@[k].pair(), e));
        }
        assert forall|pair: (usize, usize)|
            #[trigger] front_upto(*mesh, edge_classes@, cell_plates@, continental@, pair, e) > 0
                && front_upto(*mesh, edge_classes@, cell_plates@, continental@, pair, e)
                >= minimum_shared_edges implies pairs@.contains(pair) by {
            let k = choose|k: int| 0 <= k < fronts@.len() && #[trigger] fronts@[k].pair() == pair;
            assert(fronts@[k].edges == front_upto(*mesh, edge_classes@, cell_plates@, continental@, fronts@[k].pair(), e));
        }
        assert forall|a: int| 0 <= a < pairs@.len() implies continents_converge_across(
            *mesh,
            edge_classes@,
            cell_plates@,
            continental@,
            e,
            #[trigger] pairs@[a],
        ) by {
            let k = choose|k: int| 0 <= k < fronts@.len() && #[trigger] fronts@[k].pair() == pairs@[a] && fronts@[k].edges >= minimum_shared_edges;
            assert(continents_converge_across(*mesh, edge_classes@, cell_plates@, continental@, e, fronts@[k].pair()));
        }
    }
    pairs
}

/// Every cell of plate `absorbed` passes to `absorber`; the absorbed id is
/// left owning nothing.
pub fn absorb_plate(cell_plates: &mut Vec<usize>, absorbed: usize, absorber: usize)
    ensures
        final(cell_plates)@.len() == old(cell_plates)@.len(),
        forall|c: int|
            0 <= c < old(cell_plates)@.len() ==> #[trigger] final(cell_plates)@[c] == if old(cell_plates)@[c]
                == absorbed {
                absorber
            } else {
                old(cell_plates)@[c]
            },
{
    let ghost start = cell_plates@;
    let mut cell: usize = 0;
    while cell < cell_plates.len()
        invariant
            cell_plates@.len() == start.len(),
            cell <= start.len(),
            forall|c: int|
                0 <= c < cell ==> #[trigger] cell_plates@[c] == if start[c] == absorbed {
                    absorber
                } else {
                    start[c]
                },
            forall|c: int| cell <= c < start.len() ==> #[trigger] cell_plates@[c] == start[c],
        decreases start.len() - cell,
    {
        if cell_plates[cell] == absorbed {
            cell_plates.set(cell, absorber);
        }
        cell += 1;
    }
}

/// Whether some cell belongs to `plate`.
pub open spec fn owns_cell(cell_plates: Seq<usize>, plate: int) -> bool {
    exists|c: int| 0 <= c < cell_plates.len() && cell_plates[c] == plate
}

/// The ids below `upto` that own a cell, ascending.
pub open spec fn live_upto(cell_plates: Seq<usize>, upto: int) -> Seq<usize>
    decreases upto,
{
    if upto <= 0 {
        Seq::empty()
    } else if owns_cell(cell_plates, upto - 1) {
        live_upto(cell_plates, upto - 1).push((upto - 1) as usize)
    } else {
        live_upto(cell_plates, upto - 1)
    }
}

/// The id each of `plate_count` plates takes once the ids owning nothing
/// are removed: its rank among the live ids, or `usize::MAX` for a plate that
/// owns nothing.
pub open spec fn compaction_map(cell_plates: Seq<usize>, plate_count: nat) -> Seq<usize> {
    Seq::new(
        plate_count,
        |p: int|
            if owns_cell(cell_plates, p) {
                live_upto(cell_plates, p).len() as usize
            } else {
                usize::MAX
            },
    )
}

pub proof fn lemma_live_facts(cell_plates: Seq<usize>, upto: int)
    requires
        0 <= upto <= usize::MAX,
    ensures
        ({
            let live = live_upto(cell_plates, upto);
            &&& live.len() <= upto
            &&& forall|i: int, j: int| 0 <= i < j < live.len() ==> #[trigger] live[i] < #[trigger] live[j]
            &&& forall|i: int|
                0 <= i < live.len() ==> #[trigger] live[i] < upto && owns_cell(cell_plates, live[i] as int)
                    && live_upto(cell_plates, live[i] as int).len() == i
            &&& forall|p: int|
                0 <= p < upto && #[trigger] owns_cell(cell_plates, p) ==> live_upto(cell_plates, p).len()
                    < live.len() && live[live_upto(cell_plates, p).len() as int] == p
        }),
    decreases upto,
{
    if upto > 0 {
        lemma_live_facts(cell_plates, upto - 1);
        lemma_live_monotone(cell_plates, 0, upto - 1);
        let prev = live_upto(cell_plates, upto - 1);
        let live = live_upto(cell_plates, upto);
        assert forall|i: int| 0 <= i < live.len() implies #[trigger] live[i] < upto && owns_cell(
            cell_plates,
            live[i] as int,
        ) && live_upto(cell_plates, live[i] as int).len() == i by {
            if i < prev.len() {
                assert(live[i] == prev[i]);
            }
        }
        assert forall|i: int, j: int| 0 <= i < j < live.len() implies #[trigger] live[i] < #[trigger] live[j] by {
            if j < prev.len() {
                assert(live[i] == prev[i] && live[j] == prev[j]);
            } else {
                assert(live[i] == prev[i]);
            }
        }
        assert forall|p: int|
            0 <= p < upto && #[trigger] owns_cell(cell_plates, p) implies live_upto(cell_plates, p).len()
                < live.len() && live[live_upto(cell_plates, p).len() as int] == p by {
            if p < upto - 1 {
                assert(live[live_upto(cell_plates, p).len() as int] == prev[live_upto(cell_plates, p).len() as int]);
            }
        }
    }
}

pub proof fn lemma_live_monotone(cell_plates: Seq<usize>, a: int, b: int)
    requires
        0 <= a <= b,
    ensures
        live_upto(cell_plates, a).len() <= live_upto(cell_plates, b).len(),
        owns_cell(cell_plates, a) && a < b ==> live_upto(cell_plates, a).len() < live_upto(cell_plates, b).len(),
    decreases b - a,
{
    if a < b {
        lemma_live_monotone(cell_plates, a, b - 1);
        lemma_live_monotone(cell_plates, a + 1, b);
    }
}

/// The ids below `plate_count` that own a cell, ascending.
pub fn live_plates(cell_plates: &Vec<usize>, plate_count: usize) -> (live: Vec<usize>)
    requires
        forall|c: int| 0 <= c < cell_plates@.len() ==> #[trigger] cell_plates@[c] < plate_count,
    ensures
        live@ == live_upto(cell_plates@, plate_count as int),
{
    let mut owned: Vec<bool> = vec![false; plate_count];
    let mut cell: usize = 0;
    while cell < cell_plates.len()
        invariant
            owned@.len() == plate_count,
            cell <= cell_plates@.len(),
            forall|c: int| 0 <= c < cell_plates@.len() ==> #[trigger] cell_plates@[c] < plate_count,
            forall|p: int|
                0 <= p < plate_count ==> #[trigger] owned@[p] == exists|c: int|
                    0 <= c < cell && cell_plates@[c] == p,
        decreases cell_plates@.len() - cell,
    {
        let plate = cell_plates[cell];
        owned.set(plate, true);
        proof {
            assert forall|p: int| 0 <= p < plate_count implies #[trigger] owned@[p] == exists|c: int|
                0 <= c < cell + 1 && cell_plates@[c] == p by {
                if p == plate {
                    assert(cell_plates@[cell as int] == p);
                }
            }
        }
        cell += 1;
    }
    let mut live: Vec<usize> = Vec::new();
    let mut plate: usize = 0;
    while plate < plate_count
        invariant
            owned@.len() == plate_count,
            plate <= plate_count,
            forall|p: int| 0 <= p < plate_count ==> #[trigger] owned@[p] == owns_cell(cell_plates@, p),
            live@ == live_upto(cell_plates@, plate as int),
        decreases plate_count - plate,
    {
        if owned[plate] {
            live.push(plate);
        }
        plate += 1;
    }
    live
}

/// The ids `values` holds for the live plates, in live order: what each
/// per-plate list keeps through a compaction.
pub fn select_live<T: Copy>(values: &Vec<T>, live: &Vec<usize>) -> (kept: Vec<T>)
    requires
        forall|i: int| 0 <= i < live@.len() ==> #[trigger] live@[i] < values@.len(),
    ensures
        kept@.len() == live@.len(),
        forall|i: int| 0 <= i < live@.len() ==> #[trigger] kept@[i] == values@[live@[i] as int],
{
    let mut kept: Vec<T> = Vec::new();
    let mut i: usize = 0;
    while i < live.len()
        invariant
            forall|j: int| 0 <= j < live@.len() ==> #[trigger] live@[j] < values@.len(),
            i <= live@.len(),
            kept@.len() == i,
            forall|j: int| 0 <= j < i ==> #[trigger] kept@[j] == values@[live@[j] as int],
        decreases live@.len() - i,
    {
        kept.push(values[live[i]]);
        i += 1;
    }
    kept
}

/// The id each plate takes once the ids owning nothing are removed, given
/// the live ids ascending; `usize::MAX` for a plate that owns nothing.
pub fn compacted_ids(cell_plates: &Vec<usize>, live: &Vec<usize>, plate_count: usize) -> (compacted: Vec<usize>)
    requires
        live@ == live_upto(cell_plates@, plate_count as int),
    ensures
        compacted@ == compaction_map(cell_plates@, plate_count as nat),
{
    proof {
        lemma_live_facts(cell_plates@, plate_count as int);
    }
    let mut compacted: Vec<usize> = vec![usize::MAX; plate_count];
    let mut id: usize = 0;
    while id < live.len()
        invariant
            live@ == live_upto(cell_plates@, plate_count as int),
            live@.len() <= plate_count,
            forall|i: int, j: int| 0 <= i < j < live@.len() ==> #[trigger] live@[i] < #[trigger] live@[j],
            forall|i: int|
                0 <= i < live@.len() ==> #[trigger] live@[i] < plate_count && owns_cell(cell_plates@, live@[i] as int)
                    && live_upto(cell_plates@, live@[i] as int).len() == i,
            id <= live@.len(),
            compacted@.len() == plate_count,
            forall|p: int|
                0 <= p < plate_count ==> #[trigger] compacted@[p] == if exists|i: int| 0 <= i < id && live@[i] == p {
                    live_upto(cell_plates@, p).len() as usize
                } else {
                    usize::MAX
                },
        decreases live@.len() - id,
    {
        let plate = live[id];
        compacted.set(plate, id);
        proof {
            assert forall|p: int| 0 <= p < plate_count implies #[trigger] compacted@[p] == if exists|i: int| 0 <= i < id + 1 && live@[i] == p {
                live_upto(cell_plates@, p).len() as usize
            } else {
                usize::MAX
            } by {
                if p == plate {
                    assert(live@[id as int] == p);
                } else if exists|i: int| 0 <= i < id + 1 && live@[i] == p {
                    let i = choose|i: int| 0 <= i < id + 1 && live@[i] == p;
                    assert(i < id);
                }
            }
        }
        id += 1;
    }
    proof {
        assert forall|p: int| 0 <= p < plate_count implies #[trigger] compacted@[p] == compaction_map(cell_plates@, plate_count as nat)[p] by {
            if owns_cell(cell_plates@, p) {
                assert(live@[live_upto(cell_plates@, p).len() as int] == p);
            } else if exists|i: int| 0 <= i < live@.len() && live@[i] == p {
                let i = choose|i: int| 0 <= i < live@.len() && live@[i] == p;
                assert(owns_cell(cell_plates@, live@[i] as int));
            }
        }
        assert(compacted@ =~= compaction_map(cell_plates@, plate_count as nat));
    }
    compacted
}

/// What a compaction did: the ids that owned a cell, how many continental
/// parcels of emptied plates merged into the column above them, the
/// thickness every cell reads where any did, and which parcels it dropped.
pub struct Compaction {
    /// Id `i` of the compacted run is the old id `live[i]`.
    pub live: Vec<usize>,
    pub accreted: usize,
    pub cell_thickness: Option<Vec<u32>>,
    /// Whether each parcel, by its place before the compaction, was dropped.
    pub dropped: Vec<bool>,
}

/// Removes every plate id that owns no cell, renumbering ownership and the
/// parcels' plates to `0..live_count` in id order. The continent of an
/// emptied plate merges into the column its cell reads and its floor is
/// dropped, with the columns of emptied plates first passing to the plates
/// owning their cells. A run that emptied no plate has no hole to close and
/// returns `None`.
///
/// Every id a consumer sees afterwards owns a cell, and the renumbering keeps
/// the plates in the order they had.
pub fn compact(
    cell_plates: &mut Vec<usize>,
    plate_count: usize,
    parcels: &mut Vec<Parcel>,
    cell_winner: &mut Vec<usize>,
) -> (result: Option<Compaction>)
    requires
        old(cell_winner)@.len() == old(cell_plates)@.len(),
        forall|c: int|
            0 <= c < old(cell_plates)@.len() ==> #[trigger] old(cell_plates)@[c] < plate_count
                && old(cell_winner)@[c] < old(parcels)@.len(),
        forall|i: int|
            0 <= i < old(parcels)@.len() ==> #[trigger] old(parcels)@[i].plate < plate_count
                && old(parcels)@[i].cell < old(cell_plates)@.len(),
        thickness_total(old(parcels)@) <= u32::MAX,
        has_orphans(old(parcels)@, compaction_map(old(cell_plates)@, plate_count as nat)) || forall|c: int|
            0 <= c < old(cell_winner)@.len() ==> owns_cell(
                old(cell_plates)@,
                (#[trigger] old(parcels)@[old(cell_winner)@[c] as int]).plate as int,
            ),
    ensures
        ({
            let map = compaction_map(old(cell_plates)@, plate_count as nat);
            let live = live_upto(old(cell_plates)@, plate_count as int);
            let merged = accreted_parcels(old(parcels)@, old(cell_winner)@, old(cell_plates)@, map);
            let gone = dying_flags(merged, map);
            let kept = kept_items(merged, gone, merged.len() as int);
            &&& final(cell_plates)@.len() == old(cell_plates)@.len()
            &&& match result {
                None => {
                    &&& live.len() == plate_count
                    &&& final(cell_plates)@ == old(cell_plates)@
                    &&& final(parcels)@ == old(parcels)@
                    &&& final(cell_winner)@ == old(cell_winner)@
                },
                Some(outcome) => {
                    &&& live.len() < plate_count
                    &&& outcome.live@ == live
                    &&& forall|c: int|
                        0 <= c < old(cell_plates)@.len() ==> #[trigger] final(cell_plates)@[c]
                            == map[old(cell_plates)@[c] as int]
                    &&& final(parcels)@ == renumbered(kept, map)
                    &&& final(cell_winner)@.len() == old(cell_winner)@.len()
                    &&& forall|c: int|
                        0 <= c < old(cell_winner)@.len() ==> {
                            &&& #[trigger] final(cell_winner)@[c] == survivors_upto(gone, old(cell_winner)@[c] as int)
                            &&& final(cell_winner)@[c] < final(parcels)@.len()
                            &&& kept[final(cell_winner)@[c] as int] == merged[old(cell_winner)@[c] as int]
                        }
                    &&& (outcome.cell_thickness is Some <==> has_orphans(old(parcels)@, map))
                    &&& outcome.dropped@ == gone
                },
            }
            // Every id a consumer sees owns a cell ...
            &&& forall|c: int| 0 <= c < old(cell_plates)@.len() ==> #[trigger] final(cell_plates)@[c] < live.len()
            &&& forall|p: int| 0 <= p < live.len() ==> #[trigger] owns_cell(final(cell_plates)@, p)
            // ... and the plates keep the order they had.
            &&& forall|a: int, b: int|
                0 <= a < old(cell_plates)@.len() && 0 <= b < old(cell_plates)@.len() ==> (old(cell_plates)@[a]
                    < old(cell_plates)@[b] ==> #[trigger] final(cell_plates)@[a] < #[trigger] final(cell_plates)@[b])
                    && (old(cell_plates)@[a] == old(cell_plates)@[b] ==> final(cell_plates)@[a]
                    == final(cell_plates)@[b])
        }),
{
    let ghost start_plates = cell_plates@;
    let ghost live_spec = live_upto(start_plates, plate_count as int);
    proof {
        lemma_live_facts(start_plates, plate_count as int);
    }
    let live = live_plates(cell_plates, plate_count);
    if live.len() == plate_count {
        proof {
            assert forall|c: int| 0 <= c < start_plates.len() implies #[trigger] start_plates[c] < live_spec.len() by {}
            assert forall|p: int| 0 <= p < live_spec.len() implies #[trigger] owns_cell(start_plates, p) by {
                if !owns_cell(start_plates, p) {
                    lemma_live_missing(start_plates, p, plate_count as int);
                }
            }
        }
        return None;
    }
    let compacted = compacted_ids(cell_plates, &live, plate_count);
    let ghost map = compacted@;
    proof {
        assert(compacted@.len() == plate_count);
        assert forall|i: int| 0 <= i < parcels@.len() implies {
            &&& #[trigger] parcels@[i].plate < compacted@.len()
            &&& parcels@[i].cell < cell_winner@.len()
        } by {}
        assert forall|c: int| 0 <= c < cell_winner@.len() implies {
            &&& #[trigger] cell_winner@[c] < parcels@.len()
            &&& cell_plates@[c] < compacted@.len()
            &&& compacted@[cell_plates@[c] as int] != usize::MAX
        } by {
            assert(owns_cell(start_plates, start_plates[c] as int));
        }
        if !has_orphans(parcels@, map) {
            assert forall|c: int| 0 <= c < cell_winner@.len() implies !dying(
                map,
                #[trigger] parcels@[cell_winner@[c] as int],
            ) by {
                assert(owns_cell(start_plates, parcels@[cell_winner@[c] as int].plate as int));
            }
        }
    }
    let (accreted, thickness, dropped) = remap_parcel_plates(parcels, cell_winner, cell_plates, &compacted);
    let mut cell: usize = 0;
    while cell < cell_plates.len()
        invariant
            cell_plates@.len() == start_plates.len(),
            compacted@ == map,
            map == compaction_map(start_plates, plate_count as nat),
            forall|c: int| 0 <= c < start_plates.len() ==> #[trigger] start_plates[c] < plate_count,
            cell <= start_plates.len(),
            forall|c: int| 0 <= c < cell ==> #[trigger] cell_plates@[c] == map[start_plates[c] as int],
            forall|c: int| cell <= c < start_plates.len() ==> #[trigger] cell_plates@[c] == start_plates[c],
        decreases start_plates.len() - cell,
    {
        let plate = cell_plates[cell];
        cell_plates.set(cell, compacted[plate]);
        cell += 1;
    }
    proof {
        assert forall|c: int| 0 <= c < start_plates.len() implies #[trigger] cell_plates@[c] < live_spec.len() by {
            assert(owns_cell(start_plates, start_plates[c] as int));
        }
        assert forall|p: int| 0 <= p < live_spec.len() implies #[trigger] owns_cell(cell_plates@, p) by {
            let q = live_spec[p];
            assert(owns_cell(start_plates, q as int));
            let c = choose|c: int| 0 <= c < start_plates.len() && start_plates[c] == q;
            assert(cell_plates@[c] == map[q as int]);
        }
        assert forall|a: int, b: int|
            0 <= a < start_plates.len() && 0 <= b < start_plates.len() implies (start_plates[a]
                < start_plates[b] ==> #[trigger] cell_plates@[a] < #[trigger] cell_plates@[b])
                && (start_plates[a] == start_plates[b] ==> cell_plates@[a] == cell_plates@[b]) by {
            assert(owns_cell(start_plates, start_plates[a] as int));
            assert(owns_cell(start_plates, start_plates[b] as int));
            if start_plates[a] < start_plates[b] {
                lemma_live_monotone(start_plates, start_plates[a] as int, start_plates[b] as int);
            }
        }
    }
    Some(Compaction { live, accreted, cell_thickness: thickness, dropped })
}

/// A plate below `upto` that owns nothing leaves fewer than `upto` live ids.
proof fn lemma_live_missing(cell_plates: Seq<usize>, p: int, upto: int)
    requires
        0 <= p < upto,
        !owns_cell(cell_plates, p),
    ensures
        live_upto(cell_plates, upto).len() < upto,
    decreases upto,
{
    lemma_live_facts_len(cell_plates, upto - 1);
    if p < upto - 1 {
        lemma_live_missing(cell_plates, p, upto - 1);
    }
}

proof fn lemma_live_facts_len(cell_plates: Seq<usize>, upto: int)
    requires
        0 <= upto,
    ensures
        live_upto(cell_plates, upto).len() <= upto,
    decreases upto,
{
    if upto > 0 {
        lemma_live_facts_len(cell_plates, upto - 1);
    }
}

} // verus!
