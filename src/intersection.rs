//! Intersection of two graphs of the same edge kind.
//!
//! Nodes are matched by index. Edges are matched by their endpoint pair
//! (unordered for undirected graphs), one edge of the right-hand graph for
//! each edge kept from the left-hand graph, with the left-hand edges
//! claiming in decreasing index order.
use crate::graph::{EdgeType, Graph};
use std::collections::HashMap;
use vstd::prelude::*;

verus! {

broadcast use vstd::std_specs::hash::group_hash_axioms;

/// The key under which an edge `e` is matched: the pair itself for directed
/// graphs, the pair with the smaller index first for undirected ones.
pub open spec fn pair_key(directed: bool, e: (usize, usize)) -> (usize, usize) {
    if directed || e.0 < e.1 {
        e
    } else {
        (e.1, e.0)
    }
}

/// Both ends of `e` are nodes below `n`.
pub open spec fn within(n: nat, e: (usize, usize)) -> bool {
    e.0 < n && e.1 < n
}

/// How many pairs of `ends` have key `k`.
pub open spec fn key_count(directed: bool, ends: Seq<(usize, usize)>, k: (usize, usize)) -> nat
    decreases ends.len(),
{
    if ends.len() == 0 {
        0
    } else {
        key_count(directed, ends.drop_last(), k) + if pair_key(directed, ends.last()) == k {
            1nat
        } else {
            0nat
        }
    }
}

/// How many pairs of `ends` lie below `n` and have key `k`.
pub open spec fn claims(directed: bool, n: nat, ends: Seq<(usize, usize)>, k: (usize, usize)) -> nat
    decreases ends.len(),
{
    if ends.len() == 0 {
        0
    } else {
        (if within(n, ends[0]) && pair_key(directed, ends[0]) == k {
            1nat
        } else {
            0nat
        }) + claims(directed, n, ends.drop_first(), k)
    }
}

/// Edge `j` of `left` is kept: it lies below `n`, and fewer later edges of
/// `left` with its key lie below `n` than `right` has edges with that key.
pub open spec fn survives(
    directed: bool,
    n: nat,
    left: Seq<(usize, usize)>,
    right: Seq<(usize, usize)>,
    j: int,
) -> bool {
    let k = pair_key(directed, left[j]);
    &&& within(n, left[j])
    &&& claims(directed, n, left.subrange(j + 1, left.len() as int), k) < key_count(
        directed,
        right,
        k,
    )
}

/// The indices below `len` of the kept edges of `left`, in increasing order.
pub open spec fn surviving_indices(
    directed: bool,
    n: nat,
    left: Seq<(usize, usize)>,
    right: Seq<(usize, usize)>,
    len: int,
) -> Seq<int>
    decreases len,
{
    if len <= 0 {
        Seq::empty()
    } else {
        let p = surviving_indices(directed, n, left, right, len - 1);
        if survives(directed, n, left, right, len - 1) {
            p.push(len - 1)
        } else {
            p
        }
    }
}

/// The number of nodes that two graphs share.
pub open spec fn shared_nodes<N, E, Ty: EdgeType>(left: &Graph<N, E, Ty>, right: &Graph<N, E, Ty>) -> nat {
    let a = left.node_weights().len();
    let b = right.node_weights().len();
    if a < b {
        a
    } else {
        b
    }
}

/// The indices of the edges of `left` that its intersection with `right` keeps.
pub open spec fn kept_edges<N, E, Ty: EdgeType>(left: &Graph<N, E, Ty>, right: &Graph<N, E, Ty>) -> Seq<int> {
    surviving_indices(
        Ty::spec_is_directed(),
        shared_nodes(left, right),
        left.edge_ends(),
        right.edge_ends(),
        left.edge_ends().len() as int,
    )
}

/// The endpoint pairs of the edges that the intersection keeps, in order.
pub open spec fn kept_ends<N, E, Ty: EdgeType>(left: &Graph<N, E, Ty>, right: &Graph<N, E, Ty>) -> Seq<(usize, usize)> {
    kept_edges(left, right).map_values(|i: int| left.edge_ends()[i])
}

/// `r` is the intersection of `left` with `right`: the shared nodes and the
/// kept edges of `left`, in order, with their payloads cloned from `left`.
pub open spec fn is_intersection<N: Clone, E: Clone, Ty: EdgeType>(
    left: &Graph<N, E, Ty>,
    right: &Graph<N, E, Ty>,
    r: &Graph<N, E, Ty>,
) -> bool {
    let idx = kept_edges(left, right);
    &&& r.wf()
    &&& r.node_weights().len() == shared_nodes(left, right)
    &&& forall|i: int|
        0 <= i < r.node_weights().len() ==> cloned(
            #[trigger] left.node_weights()[i],
            r.node_weights()[i],
        )
    &&& r.edge_ends() == kept_ends(left, right)
    &&& r.edge_weights().len() == idx.len()
    &&& forall|i: int|
        0 <= i < idx.len() ==> cloned(left.edge_weights()[idx[i]], #[trigger] r.edge_weights()[i])
}

/// A one-to-one numbering of endpoint pairs.
pub open spec fn pair_code(k: (usize, usize)) -> u128 {
    (k.0 as int * 0x1_0000_0000_0000_0000 + k.1 as int) as u128
}

proof fn lemma_pair_code_fits(k: (usize, usize))
    ensures
        k.0 as int * 0x1_0000_0000_0000_0000 + k.1 as int <= u128::MAX,
        pair_code(k) as int == k.0 as int * 0x1_0000_0000_0000_0000 + k.1 as int,
{
    let a = k.0 as int;
    assert(a <= 0xffff_ffff_ffff_ffff);
    assert(a * 0x1_0000_0000_0000_0000 <= 0xffff_ffff_ffff_ffff * 0x1_0000_0000_0000_0000)
        by (nonlinear_arith)
        requires
            0 <= a <= 0xffff_ffff_ffff_ffff,
    ;
}

proof fn lemma_pair_code_injective(k1: (usize, usize), k2: (usize, usize))
    requires
        pair_code(k1) == pair_code(k2),
    ensures
        k1 == k2,
{
    lemma_pair_code_fits(k1);
    lemma_pair_code_fits(k2);
    let b: int = 0x1_0000_0000_0000_0000;
    vstd::arithmetic::div_mod::lemma_fundamental_div_mod_converse(
        pair_code(k1) as int,
        b,
        k1.0 as int,
        k1.1 as int,
    );
    vstd::arithmetic::div_mod::lemma_fundamental_div_mod_converse(
        pair_code(k2) as int,
        b,
        k2.0 as int,
        k2.1 as int,
    );
}

fn code_of_key(directed: bool, e: (usize, usize)) -> (r: u128)
    ensures
        r == pair_code(pair_key(directed, e)),
{
    let k = if directed || e.0 < e.1 {
        e
    } else {
        (e.1, e.0)
    };
    proof {
        lemma_pair_code_fits(k);
    }
    (k.0 as u128) * 0x1_0000_0000_0000_0000u128 + (k.1 as u128)
}

proof fn lemma_key_count_bound(directed: bool, ends: Seq<(usize, usize)>, k: (usize, usize))
    ensures
        key_count(directed, ends, k) <= ends.len(),
    decreases ends.len(),
{
    if ends.len() > 0 {
        lemma_key_count_bound(directed, ends.drop_last(), k);
    }
}

/// Counts the edges of `graph` by key: the map holds the code of each key
/// that occurs, with the number of edges that have it.
fn supply_counts<N, E, Ty: EdgeType>(graph: &Graph<N, E, Ty>) -> (m: HashMap<u128, usize>)
    ensures
        forall|k: (usize, usize)|
            #![trigger pair_code(k)]
            key_count(Ty::spec_is_directed(), graph.edge_ends(), k) > 0 ==> m@.contains_key(
                pair_code(k),
            ),
        forall|k: (usize, usize)|
            #![trigger pair_code(k)]
            m@.contains_key(pair_code(k)) ==> m@[pair_code(k)] == key_count(
                Ty::spec_is_directed(),
                graph.edge_ends(),
                k,
            ),
{
    let directed = graph.is_directed();
    let ghost ends = graph.edge_ends();
    let mut m: HashMap<u128, usize> = HashMap::new();
    let count = graph.edge_count();
    let mut i: usize = 0;
    while i < count
        invariant
            i <= count,
            count == ends.len(),
            ends == graph.edge_ends(),
            directed == Ty::spec_is_directed(),
            forall|k: (usize, usize)|
                #![trigger pair_code(k)]
                key_count(directed, ends.subrange(0, i as int), k) > 0 ==> m@.contains_key(
                    pair_code(k),
                ),
            forall|k: (usize, usize)|
                #![trigger pair_code(k)]
                m@.contains_key(pair_code(k)) ==> m@[pair_code(k)] == key_count(
                    directed,
                    ends.subrange(0, i as int),
                    k,
                ),
        decreases count - i,
    {
        let e = graph.edge_endpoints(i).unwrap();
        let code = code_of_key(directed, e);
        let ghost kk = pair_key(directed, e);
        let ghost prev = ends.subrange(0, i as int);
        let ghost next = ends.subrange(0, i + 1);
        proof {
            assert(next.drop_last() =~= prev);
            assert(next.last() == e);
            lemma_key_count_bound(directed, prev, kk);
        }
        let c: usize = match m.get(&code) {
            Some(c) => *c,
            None => 0,
        };
        m.insert(code, c + 1);
        proof {
            assert forall|k: (usize, usize)|
                #![trigger pair_code(k)]
                key_count(directed, next, k) > 0 ==> m@.contains_key(pair_code(k)) by {
                if k != kk {
                    if pair_code(k) == code {
                        lemma_pair_code_injective(k, kk);
                    }
                }
            }
            assert forall|k: (usize, usize)|
                #![trigger pair_code(k)]
                m@.contains_key(pair_code(k)) implies m@[pair_code(k)] == key_count(
                    directed,
                    next,
                    k,
                ) by {
                if k != kk {
                    if pair_code(k) == code {
                        lemma_pair_code_injective(k, kk);
                    }
                }
            }
        }
        i = i + 1;
    }
    proof {
        assert(ends.subrange(0, count as int) =~= ends);
    }
    m
}

/// Decides for each edge of `left` whether the intersection with `right`
/// keeps it. Edges are visited in decreasing index order; each kept edge
/// uses up one edge of `right` with the same key.
fn keep_flags<N, E, Ty: EdgeType>(left: &Graph<N, E, Ty>, right: &Graph<N, E, Ty>, n: usize) -> (keep: Vec<bool>)
    ensures
        keep@.len() == left.edge_ends().len(),
        forall|j: int|
            0 <= j < keep@.len() ==> keep@[j] == survives(
                Ty::spec_is_directed(),
                n as nat,
                left.edge_ends(),
                right.edge_ends(),
                j,
            ),
{
    let directed = left.is_directed();
    let ghost ends = left.edge_ends();
    let ghost rends = right.edge_ends();
    let mut counts = supply_counts(right);
    let count = left.edge_count();
    let mut keep: Vec<bool> = Vec::new();
    let mut i: usize = 0;
    while i < count
        invariant
            i <= count,
            keep@.len() == i,
        decreases count - i,
    {
        keep.push(false);
        i = i + 1;
    }
    let mut j: usize = count;
    while j > 0
        invariant
            j <= count,
            count == ends.len(),
            ends == left.edge_ends(),
            rends == right.edge_ends(),
            directed == Ty::spec_is_directed(),
            keep@.len() == count,
            forall|i: int|
                j <= i < count ==> keep@[i] == survives(directed, n as nat, ends, rends, i),
            forall|k: (usize, usize)|
                #![trigger pair_code(k)]
                key_count(directed, rends, k) > 0 ==> counts@.contains_key(pair_code(k)),
            forall|k: (usize, usize)|
                #![trigger pair_code(k)]
                counts@.contains_key(pair_code(k)) ==> {
                    let c = key_count(directed, rends, k);
                    let u = claims(directed, n as nat, ends.subrange(j as int, count as int), k);
                    counts@[pair_code(k)] == if u < c {
                        c - u
                    } else {
                        0
                    }
                },
        decreases j,
    {
        let idx = j - 1;
        let e = left.edge_endpoints(idx).unwrap();
        let ghost kk = pair_key(directed, e);
        let ghost after = ends.subrange(j as int, count as int);
        let ghost from = ends.subrange(idx as int, count as int);
        proof {
            assert(from.drop_first() =~= after);
            assert(from[0] == e);
        }
        let mut flag = false;
        if e.0 < n && e.1 < n {
            let code = code_of_key(directed, e);
            let c: usize = match counts.get(&code) {
                Some(c) => *c,
                None => 0,
            };
            if c > 0 {
                counts.insert(code, c - 1);
                flag = true;
            }
            proof {
                assert forall|k: (usize, usize)|
                    #![trigger pair_code(k)]
                    key_count(directed, rends, k) > 0 implies counts@.contains_key(pair_code(k)) by {
                    if k != kk && pair_code(k) == code {
                        lemma_pair_code_injective(k, kk);
                    }
                }
                assert forall|k: (usize, usize)|
                    #![trigger pair_code(k)]
                    counts@.contains_key(pair_code(k)) implies {
                        let c = key_count(directed, rends, k);
                        let u = claims(directed, n as nat, from, k);
                        counts@[pair_code(k)] == if u < c {
                            c - u
                        } else {
                            0
                        }
                    } by {
                    if k != kk && pair_code(k) == code {
                        lemma_pair_code_injective(k, kk);
                    }
                }
            }
        }
        keep.set(idx, flag);
        j = idx;
    }
    keep
}

/// Graphs that can be intersected with another graph of the same type.
pub trait Intersection: Sized {
    /// The intersection of `self` with `graph`.
    fn intersection(&self, graph: &Self) -> Self;
}

impl<N: Clone, E: Clone, Ty: EdgeType> Intersection for Graph<N, E, Ty> {
    /// Keeps the nodes of `self` whose index `graph` also has, and the edges
    /// of `self` between them that `graph` can match one for one.
    fn intersection(&self, graph: &Self) -> (r: Self)
        ensures
            is_intersection(self, graph, &r),
    {
        let nl = self.node_count();
        let nr = graph.node_count();
        let n = if nl < nr {
            nl
        } else {
            nr
        };
        let keep = keep_flags(self, graph, n);
        let ghost directed = Ty::spec_is_directed();
        let ghost ends = self.edge_ends();
        let ghost rends = graph.edge_ends();
        let mut r: Self = Graph::empty();
        let mut i: usize = 0;
        while i < n
            invariant
                i <= n,
                n <= nl,
                nl == self.node_weights().len(),
                r.wf(),
                r.edge_ends().len() == 0,
                r.edge_weights().len() == 0,
                r.node_weights().len() == i,
                forall|t: int|
                    0 <= t < i ==> cloned(#[trigger] self.node_weights()[t], r.node_weights()[t]),
            decreases n - i,
        {
            let w = self.node_weight(i).unwrap().clone();
            r.add_node(w);
            i = i + 1;
        }
        let count = self.edge_count();
        let mut j: usize = 0;
        while j < count
            invariant
                j <= count,
                count == ends.len(),
                ends == self.edge_ends(),
                count == self.edge_weights().len(),
                keep@.len() == count,
                forall|t: int|
                    0 <= t < count ==> keep@[t] == survives(directed, n as nat, ends, rends, t),
                n <= nl,
                nl == self.node_weights().len(),
                r.wf(),
                r.node_weights().len() == n,
                forall|t: int|
                    0 <= t < n ==> cloned(#[trigger] self.node_weights()[t], r.node_weights()[t]),
                ({
                    let idx = surviving_indices(directed, n as nat, ends, rends, j as int);
                    &&& r.edge_ends().len() == idx.len()
                    &&& r.edge_weights().len() == idx.len()
                    &&& forall|t: int|
                        0 <= t < idx.len() ==> #[trigger] r.edge_ends()[t] == ends[idx[t]]
                    &&& forall|t: int|
                        0 <= t < idx.len() ==> cloned(
                            self.edge_weights()[idx[t]],
                            #[trigger] r.edge_weights()[t],
                        )
                    &&& forall|t: int| 0 <= t < idx.len() ==> 0 <= #[trigger] idx[t] < j
                }),
            decreases count - j,
        {
            let ghost prev = surviving_indices(directed, n as nat, ends, rends, j as int);
            proof {
                assert(surviving_indices(directed, n as nat, ends, rends, j + 1) == if survives(
                    directed,
                    n as nat,
                    ends,
                    rends,
                    j as int,
                ) {
                    prev.push(j as int)
                } else {
                    prev
                });
            }
            if keep[j] {
                let e = self.edge_endpoints(j).unwrap();
                let w = self.edge_weight(j).unwrap().clone();
                r.add_edge(e.0, e.1, w);
            }
            j = j + 1;
        }
        proof {
            let idx = surviving_indices(directed, n as nat, ends, rends, count as int);
            assert(kept_edges(self, graph) == idx);
            assert(r.edge_ends() =~= kept_ends(self, graph));
        }
        r
    }
}

} // verus!
