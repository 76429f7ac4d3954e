//! Properties of graph intersection, proved from its contract.
use crate::graph::{EdgeType, Graph};
use crate::intersection::{
    claims, is_intersection, kept_edges, kept_ends, key_count, shared_nodes, survives,
    surviving_indices,
};
use vstd::prelude::*;

verus! {

/// A node index that `right` lacks is not a node of the intersection, and no
/// edge of the intersection touches it.
pub proof fn unmatched_nodes_vanish<N: Clone, E: Clone, Ty: EdgeType>(
    left: &Graph<N, E, Ty>,
    right: &Graph<N, E, Ty>,
    r: &Graph<N, E, Ty>,
    a: usize,
)
    requires
        is_intersection(left, right, r),
        a >= right.node_weights().len(),
    ensures
        a >= r.node_weights().len(),
        forall|j: int|
            0 <= j < r.edge_ends().len() ==> #[trigger] r.edge_ends()[j].0 != a && r.edge_ends()[j].1
                != a,
{
    assert forall|j: int| 0 <= j < r.edge_ends().len() implies #[trigger] r.edge_ends()[j].0 != a
        && r.edge_ends()[j].1 != a by {
        assert(r.edge_ends()[j].0 < r.node_weights().len());
    }
}

/// When one of the graphs has no nodes, the intersection has neither nodes
/// nor edges, whatever edges the other has.
pub proof fn no_shared_nodes_gives_empty<N: Clone, E: Clone, Ty: EdgeType>(
    left: &Graph<N, E, Ty>,
    right: &Graph<N, E, Ty>,
    r: &Graph<N, E, Ty>,
)
    requires
        is_intersection(left, right, r),
        left.node_weights().len() == 0 || right.node_weights().len() == 0,
    ensures
        r.node_weights().len() == 0,
        r.edge_ends().len() == 0,
{
    if r.edge_ends().len() > 0 {
        assert(r.edge_ends()[0].0 < r.node_weights().len());
    }
}

proof fn lemma_kept_count(
    directed: bool,
    n: nat,
    left: Seq<(usize, usize)>,
    right: Seq<(usize, usize)>,
    k: (usize, usize),
    j: int,
)
    requires
        0 <= j <= left.len(),
    ensures
        ({
            let c = key_count(directed, right, k);
            let kept = surviving_indices(directed, n, left, right, j).map_values(
                |i: int| left[i],
            );
            let u = claims(directed, n, left.subrange(j, left.len() as int), k);
            let t = claims(directed, n, left, k);
            key_count(directed, kept, k) + (if u < c {
                u
            } else {
                c
            }) == if t < c {
                t
            } else {
                c
            }
        }),
    decreases j,
{
    let m = left.len() as int;
    if j == 0 {
        assert(left.subrange(0, m) =~= left);
        assert(surviving_indices(directed, n, left, right, 0).map_values(|i: int| left[i])
            =~= Seq::<(usize, usize)>::empty());
    } else {
        lemma_kept_count(directed, n, left, right, k, j - 1);
        let p = surviving_indices(directed, n, left, right, j - 1);
        let pm = p.map_values(|i: int| left[i]);
        let from = left.subrange(j - 1, m);
        let after = left.subrange(j, m);
        assert(from.drop_first() =~= after);
        assert(from[0] == left[j - 1]);
        if survives(directed, n, left, right, j - 1) {
            assert(p.push(j - 1).map_values(|i: int| left[i]) =~= pm.push(left[j - 1]));
            assert(pm.push(left[j - 1]).drop_last() =~= pm);
        }
    }
}

/// For every endpoint pair, the intersection has exactly as many edges with
/// that pair as the smaller of two counts: the edges of `left` with that
/// pair between shared nodes, and the edges of `right` with that pair. So it
/// never has more than either.
pub proof fn kept_multiplicity<N: Clone, E: Clone, Ty: EdgeType>(
    left: &Graph<N, E, Ty>,
    right: &Graph<N, E, Ty>,
    r: &Graph<N, E, Ty>,
    k: (usize, usize),
)
    requires
        is_intersection(left, right, r),
    ensures
        ({
            let d = Ty::spec_is_directed();
            let t = claims(d, shared_nodes(left, right), left.edge_ends(), k);
            let c = key_count(d, right.edge_ends(), k);
            &&& key_count(d, r.edge_ends(), k) == if t < c {
                t
            } else {
                c
            }
            &&& key_count(d, r.edge_ends(), k) <= t
            &&& key_count(d, r.edge_ends(), k) <= c
        }),
{
    let d = Ty::spec_is_directed();
    let n = shared_nodes(left, right);
    let ends = left.edge_ends();
    let m = ends.len() as int;
    lemma_kept_count(d, n, ends, right.edge_ends(), k, m);
    assert(ends.subrange(m, m) =~= Seq::<(usize, usize)>::empty());
    assert(kept_ends(left, right) =~= kept_edges(left, right).map_values(|i: int| ends[i]));
}

/// Two results of intersecting the same graphs have the same number of
/// nodes and the same edges, in the same order.
pub proof fn intersection_is_deterministic<N: Clone, E: Clone, Ty: EdgeType>(
    left: &Graph<N, E, Ty>,
    right: &Graph<N, E, Ty>,
    r1: &Graph<N, E, Ty>,
    r2: &Graph<N, E, Ty>,
)
    requires
        is_intersection(left, right, r1),
        is_intersection(left, right, r2),
    ensures
        r1.node_weights().len() == r2.node_weights().len(),
        r1.edge_ends() == r2.edge_ends(),
        r1.edge_weights().len() == r2.edge_weights().len(),
{
}

} // verus!
