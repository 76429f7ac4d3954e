//! An index-addressed graph that allows parallel edges and self-loops.
use std::marker::PhantomData;
use vstd::prelude::*;

verus! {

/// The edge kind of a graph, fixed by its type.
pub trait EdgeType {
    /// Whether edges are ordered pairs.
    spec fn spec_is_directed() -> bool;

    fn is_directed() -> (r: bool)
        ensures
            r == Self::spec_is_directed(),
    ;
}

/// Marker for graphs whose edges are ordered pairs.
pub struct Directed;

/// Marker for graphs whose edges are unordered pairs.
pub struct Undirected;

impl EdgeType for Directed {
    open spec fn spec_is_directed() -> bool {
        true
    }

    fn is_directed() -> (r: bool) {
        true
    }
}

impl EdgeType for Undirected {
    open spec fn spec_is_directed() -> bool {
        false
    }

    fn is_directed() -> (r: bool) {
        false
    }
}

struct Edge<E> {
    source: usize,
    target: usize,
    weight: E,
}

/// A graph with node payloads `N`, edge payloads `E` and edge kind `Ty`.
///
/// Node `i` is the `i`-th node added; edge `j` is the `j`-th edge added.
pub struct Graph<N, E, Ty> {
    nodes: Vec<N>,
    edges: Vec<Edge<E>>,
    kind: PhantomData<Ty>,
}

impl<N, E, Ty: EdgeType> Graph<N, E, Ty> {
    /// The node payloads, by node index.
    pub closed spec fn node_weights(&self) -> Seq<N> {
        self.nodes@
    }

    /// The `(source, target)` pair of each edge, by edge index.
    pub closed spec fn edge_ends(&self) -> Seq<(usize, usize)> {
        self.edges@.map_values(|e: Edge<E>| (e.source, e.target))
    }

    /// The edge payloads, by edge index.
    pub closed spec fn edge_weights(&self) -> Seq<E> {
        self.edges@.map_values(|e: Edge<E>| e.weight)
    }

    /// Every edge joins two nodes of the graph.
    pub open spec fn wf(&self) -> bool {
        forall|j: int|
            0 <= j < self.edge_ends().len() ==> #[trigger] self.edge_ends()[j].0
                < self.node_weights().len() && self.edge_ends()[j].1 < self.node_weights().len()
    }

    /// An empty graph of this kind.
    pub fn empty() -> (g: Self)
        ensures
            g.node_weights() =~= Seq::<N>::empty(),
            g.edge_ends() =~= Seq::<(usize, usize)>::empty(),
            g.edge_weights() =~= Seq::<E>::empty(),
            g.wf(),
    {
        Graph { nodes: Vec::new(), edges: Vec::new(), kind: PhantomData }
    }

    /// Whether this graph's edges are ordered pairs.
    pub fn is_directed(&self) -> (r: bool)
        ensures
            r == Ty::spec_is_directed(),
    {
        Ty::is_directed()
    }

    pub fn node_count(&self) -> (r: usize)
        ensures
            r == self.node_weights().len(),
    {
        self.nodes.len()
    }

    pub fn edge_count(&self) -> (r: usize)
        ensures
            r == self.edge_ends().len(),
            r == self.edge_weights().len(),
    {
        self.edges.len()
    }

    /// Adds a node with payload `weight` and returns its index.
    pub fn add_node(&mut self, weight: N) -> (r: usize)
        ensures
            r == old(self).node_weights().len(),
            final(self).node_weights() == old(self).node_weights().push(weight),
            final(self).edge_ends() == old(self).edge_ends(),
            final(self).edge_weights() == old(self).edge_weights(),
            old(self).wf() ==> final(self).wf(),
    {
        let r = self.nodes.len();
        self.nodes.push(weight);
        proof {
            assert(self.edge_ends() =~= old(self).edge_ends());
            assert(self.edge_weights() =~= old(self).edge_weights());
        }
        r
    }

    /// Adds an edge from `a` to `b` with payload `weight` and returns its index.
    pub fn add_edge(&mut self, a: usize, b: usize, weight: E) -> (r: usize)
        requires
            a < old(self).node_weights().len(),
            b < old(self).node_weights().len(),
        ensures
            r == old(self).edge_ends().len(),
            final(self).node_weights() == old(self).node_weights(),
            final(self).edge_ends() == old(self).edge_ends().push((a, b)),
            final(self).edge_weights() == old(self).edge_weights().push(weight),
            old(self).wf() ==> final(self).wf(),
    {
        let r = self.edges.len();
        self.edges.push(Edge { source: a, target: b, weight });
        proof {
            assert(self.edge_ends() =~= old(self).edge_ends().push((a, b)));
            assert(self.edge_weights() =~= old(self).edge_weights().push(weight));
        }
        r
    }

    /// The payload of node `a`, if there is such a node.
    pub fn node_weight(&self, a: usize) -> (r: Option<&N>)
        ensures
            a < self.node_weights().len() ==> r == Some(&self.node_weights()[a as int]),
            a >= self.node_weights().len() ==> r.is_none(),
    {
        if a < self.nodes.len() {
            Some(&self.nodes[a])
        } else {
            None
        }
    }

    /// The payload of edge `e`, if there is such an edge.
    pub fn edge_weight(&self, e: usize) -> (r: Option<&E>)
        ensures
            e < self.edge_weights().len() ==> r == Some(&self.edge_weights()[e as int]),
            e >= self.edge_weights().len() ==> r.is_none(),
    {
        if e < self.edges.len() {
            Some(&self.edges[e].weight)
        } else {
            None
        }
    }

    /// The `(source, target)` pair of edge `e`, if there is such an edge.
    pub fn edge_endpoints(&self, e: usize) -> (r: Option<(usize, usize)>)
        ensures
            e < self.edge_ends().len() ==> r == Some(self.edge_ends()[e as int]),
            e >= self.edge_ends().len() ==> r.is_none(),
    {
        if e < self.edges.len() {
            Some((self.edges[e].source, self.edges[e].target))
        } else {
            None
        }
    }
}

impl<N, E> Graph<N, E, Directed> {
    /// An empty directed graph.
    pub fn new() -> (g: Self)
        ensures
            g.node_weights().len() == 0,
            g.edge_ends().len() == 0,
            g.wf(),
    {
        Self::empty()
    }
}

impl<N, E> Graph<N, E, Undirected> {
    /// An empty undirected graph.
    pub fn new_undirected() -> (g: Self)
        ensures
            g.node_weights().len() == 0,
            g.edge_ends().len() == 0,
            g.wf(),
    {
        Self::empty()
    }
}

/// The number of nodes needed for every pair of `edges` to join two of them:
/// one more than the largest index named, or zero when there are no pairs.
pub open spec fn node_span(edges: Seq<(usize, usize)>) -> nat
    decreases edges.len(),
{
    if edges.len() == 0 {
        0
    } else {
        let p = node_span(edges.drop_last());
        let e = edges.last();
        let h = (if e.0 < e.1 {
            e.1
        } else {
            e.0
        }) as nat + 1;
        if p < h {
            h
        } else {
            p
        }
    }
}

impl<N: Default, E: Default, Ty: EdgeType> Graph<N, E, Ty> {
    /// A graph with one edge for each pair of `edges`, in order, and just
    /// enough nodes for all of them. Payloads are the default values.
    pub fn from_edges(edges: &[(usize, usize)]) -> (g: Self)
        requires
            forall|i: int|
                0 <= i < edges@.len() ==> #[trigger] edges@[i].0 < usize::MAX && edges@[i].1
                    < usize::MAX,
        ensures
            g.node_weights().len() == node_span(edges@),
            g.edge_ends() == edges@,
            g.edge_weights().len() == edges@.len(),
            g.wf(),
    {
        let mut g = Self::empty();
        let mut i: usize = 0;
        while i < edges.len()
            invariant
                i <= edges@.len(),
                forall|t: int|
                    0 <= t < edges@.len() ==> #[trigger] edges@[t].0 < usize::MAX && edges@[t].1
                        < usize::MAX,
                g.wf(),
                g.node_weights().len() == node_span(edges@.subrange(0, i as int)),
                g.edge_ends() == edges@.subrange(0, i as int),
                g.edge_weights().len() == i,
            decreases edges@.len() - i,
        {
            let (a, b) = edges[i];
            let h = if a < b {
                b
            } else {
                a
            };
            let ghost start = g.node_weights().len();
            while g.node_count() <= h
                invariant
                    g.wf(),
                    h < usize::MAX,
                    g.edge_ends() == edges@.subrange(0, i as int),
                    g.edge_weights().len() == i,
                    start <= g.node_weights().len(),
                    g.node_weights().len() > start ==> g.node_weights().len() <= h + 1,
                decreases h + 1 - g.node_weights().len(),
            {
                g.add_node(N::default());
            }
            g.add_edge(a, b, E::default());
            proof {
                let next = edges@.subrange(0, i + 1);
                assert(next.drop_last() =~= edges@.subrange(0, i as int));
                assert(g.edge_ends() =~= next);
            }
            i = i + 1;
        }
        proof {
            assert(edges@.subrange(0, edges@.len() as int) =~= edges@);
        }
        g
    }
}

} // verus!
