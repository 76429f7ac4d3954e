use retworkx_core::{Directed, Graph, Intersection, Undirected};

fn ends<N, E, Ty: retworkx_core::EdgeType>(g: &Graph<N, E, Ty>) -> Vec<(usize, usize)> {
    let mut v = Vec::new();
    for e in 0..g.edge_count() {
        v.push(g.edge_endpoints(e).unwrap());
    }
    v
}

#[test]
fn test_empty_graph() {
    let g: Graph<(), (), Undirected> = Graph::new_undirected();
    let h: Graph<(), (), Undirected> = Graph::new_undirected();
    let r = g.intersection(&h);

    assert_eq!(r.node_count(), 0);
    assert_eq!(r.edge_count(), 0);
}

#[test]
fn test_empty_digraph() {
    let g: Graph<(), (), Directed> = Graph::new();
    let h: Graph<(), (), Directed> = Graph::new();
    let r = g.intersection(&h);

    assert_eq!(r.node_count(), 0);
    assert_eq!(r.edge_count(), 0);
}

#[test]
fn test_simple_graph() {
    let mut g: Graph<(), (), Undirected> = Graph::new_undirected();
    let gn1 = g.add_node(());
    let gn2 = g.add_node(());
    let gn3 = g.add_node(());
    let gn4 = g.add_node(());
    g.add_edge(gn1, gn2, ());
    g.add_edge(gn2, gn3, ());
    g.add_edge(gn3, gn4, ());

    let mut h: Graph<(), (), Undirected> = Graph::new_undirected();
    let hn1 = h.add_node(());
    let hn2 = h.add_node(());
    let hn3 = h.add_node(());
    h.add_edge(hn1, hn3, ());
    h.add_edge(hn3, hn2, ());
    h.add_edge(hn2, hn1, ());

    let r = g.intersection(&h);

    assert_eq!(r.node_count(), 3);
    assert_eq!(r.edge_count(), 2);
}

#[test]
fn test_simple_digraph() {
    let g = Graph::<(), (), Directed>::from_edges(&[(0, 1), (1, 2), (2, 3)]);
    let h = Graph::<(), (), Directed>::from_edges(&[(0, 1), (1, 2), (2, 0)]);
    let r = g.intersection(&h);

    assert_eq!(r.node_count(), 3);
    assert_eq!(r.edge_count(), 2);
}

#[test]
fn test_multi_graph() {
    let mut g: Graph<(), (), Undirected> = Graph::new_undirected();
    let gn1 = g.add_node(());
    let gn2 = g.add_node(());
    let gn3 = g.add_node(());
    let gn4 = g.add_node(());
    g.add_edge(gn1, gn2, ());
    g.add_edge(gn2, gn3, ());
    g.add_edge(gn3, gn4, ());

    let mut h: Graph<(), (), Undirected> = Graph::new_undirected();
    let hn1 = h.add_node(());
    let hn2 = h.add_node(());
    let hn3 = h.add_node(());

    h.add_edge(hn1, hn3, ());
    h.add_edge(hn3, hn2, ());
    h.add_edge(hn2, hn1, ());

    let r = g.intersection(&h);

    assert_eq!(r.node_count(), 3);
    assert_eq!(r.edge_count(), 2);
}

#[test]
fn test_multi_digraph() {
    let g = Graph::<(), (), Directed>::from_edges(&[(0, 1), (0, 1), (0, 1), (1, 1), (1, 1)]);
    let h = Graph::<(), (), Directed>::from_edges(&[(0, 1), (0, 1), (1, 1)]);
    let r = g.intersection(&h);
    for n in 0..r.node_count() {
        println!("{:?} {:?}", n, r.node_weight(n).unwrap())
    }
    for e in 0..r.edge_count() {
        let (n, m) = r.edge_endpoints(e).unwrap();
        println!("{:?} {:?} {:?}", e, n, m);
    }
    assert_eq!(r.node_count(), 2);
    assert_eq!(r.edge_count(), 3);
}

#[test]
fn simple_graph_keeps_shared_edges() {
    let mut g: Graph<u32, u32, Undirected> = Graph::new_undirected();
    for w in 0..5u32 {
        g.add_node(w);
    }
    g.add_edge(1, 2, 12);
    g.add_edge(2, 3, 23);
    g.add_edge(3, 4, 34);
    let mut h: Graph<u32, u32, Undirected> = Graph::new_undirected();
    for w in 0..4u32 {
        h.add_node(w + 100);
    }
    h.add_edge(1, 3, 0);
    h.add_edge(3, 2, 0);
    h.add_edge(2, 1, 0);
    let r = g.intersection(&h);
    assert_eq!(r.node_count(), 4);
    assert_eq!(ends(&r), vec![(1, 2), (2, 3)]);
    assert_eq!(r.edge_weight(0), Some(&12));
    assert_eq!(r.edge_weight(1), Some(&23));
}

#[test]
fn directed_path_against_cycle() {
    let g = Graph::<(), (), Directed>::from_edges(&[(0, 1), (1, 2), (2, 3)]);
    let h = Graph::<(), (), Directed>::from_edges(&[(0, 1), (1, 2), (2, 0)]);
    let r = g.intersection(&h);
    assert_eq!(r.node_count(), 3);
    assert_eq!(ends(&r), vec![(0, 1), (1, 2)]);
}

#[test]
fn directed_edges_keep_their_direction() {
    let g = Graph::<(), (), Directed>::from_edges(&[(0, 1), (1, 0)]);
    let h = Graph::<(), (), Directed>::from_edges(&[(1, 0)]);
    let r = g.intersection(&h);
    assert_eq!(ends(&r), vec![(1, 0)]);
}

#[test]
fn undirected_edges_match_either_way_round() {
    let g = Graph::<(), (), Undirected>::from_edges(&[(0, 1), (2, 1)]);
    let h = Graph::<(), (), Undirected>::from_edges(&[(1, 0), (1, 2)]);
    let r = g.intersection(&h);
    assert_eq!(ends(&r), vec![(0, 1), (2, 1)]);
}

#[test]
fn multigraph_keeps_the_smaller_multiplicity() {
    let g = Graph::<(), (), Directed>::from_edges(&[(0, 1), (0, 1), (0, 1), (1, 1), (1, 1)]);
    let h = Graph::<(), (), Directed>::from_edges(&[(0, 1), (0, 1), (1, 1)]);
    let r = g.intersection(&h);
    assert_eq!(r.node_count(), 2);
    assert_eq!(ends(&r), vec![(0, 1), (0, 1), (1, 1)]);
}

#[test]
fn later_parallel_edges_claim_first() {
    let mut g: Graph<(), char, Directed> = Graph::new();
    g.add_node(());
    g.add_node(());
    g.add_edge(0, 1, 'a');
    g.add_edge(0, 1, 'b');
    g.add_edge(0, 1, 'c');
    let h = Graph::<(), char, Directed>::from_edges(&[(0, 1), (0, 1)]);
    let r = g.intersection(&h);
    assert_eq!(r.edge_count(), 2);
    assert_eq!(r.edge_weight(0), Some(&'b'));
    assert_eq!(r.edge_weight(1), Some(&'c'));
}

#[test]
fn unmatched_nodes_and_their_edges_vanish() {
    let g = Graph::<(), (), Undirected>::from_edges(&[(0, 1), (1, 4), (3, 4), (0, 0)]);
    let h = Graph::<(), (), Undirected>::from_edges(&[(0, 0), (1, 2), (1, 0)]);
    let r = g.intersection(&h);
    assert_eq!(r.node_count(), 3);
    assert_eq!(r.node_weight(3), None);
    assert_eq!(ends(&r), vec![(0, 1), (0, 0)]);
}

#[test]
fn no_shared_nodes_gives_empty_result() {
    let g = Graph::<(), (), Directed>::from_edges(&[(0, 1), (1, 2), (2, 0), (0, 0)]);
    let h: Graph<(), (), Directed> = Graph::new();
    let r = g.intersection(&h);
    assert_eq!(r.node_count(), 0);
    assert_eq!(r.edge_count(), 0);
    let r = h.intersection(&g);
    assert_eq!(r.node_count(), 0);
    assert_eq!(r.edge_count(), 0);
}

#[test]
fn kept_count_is_bounded_by_both_sides() {
    let g = Graph::<(), (), Undirected>::from_edges(&[(0, 1), (1, 0), (0, 1), (2, 2), (2, 2)]);
    let h = Graph::<(), (), Undirected>::from_edges(&[(1, 0), (0, 1), (1, 0), (1, 0), (2, 2)]);
    let r = g.intersection(&h);
    let e = ends(&r);
    assert_eq!(e.iter().filter(|p| **p == (0, 1) || **p == (1, 0)).count(), 3);
    assert_eq!(e.iter().filter(|p| **p == (2, 2)).count(), 1);
    assert_eq!(e, vec![(0, 1), (1, 0), (0, 1), (2, 2)]);
}

#[test]
fn repeated_intersection_is_identical() {
    let g = Graph::<(), (), Directed>::from_edges(&[(0, 1), (0, 1), (1, 2), (2, 2), (1, 2)]);
    let h = Graph::<(), (), Directed>::from_edges(&[(1, 2), (0, 1), (2, 2)]);
    let r1 = g.intersection(&h);
    let r2 = g.intersection(&h);
    assert_eq!(r1.node_count(), r2.node_count());
    assert_eq!(ends(&r1), ends(&r2));
    assert_eq!(ends(&r1), vec![(0, 1), (2, 2), (1, 2)]);
}

#[test]
fn payloads_come_from_the_left_graph() {
    let mut g: Graph<String, String, Directed> = Graph::new();
    g.add_node("a".to_string());
    g.add_node("b".to_string());
    g.add_node("c".to_string());
    g.add_edge(0, 1, "ab".to_string());
    g.add_edge(1, 1, "bb".to_string());
    let mut h: Graph<String, String, Directed> = Graph::new();
    h.add_node("x".to_string());
    h.add_node("y".to_string());
    h.add_edge(0, 1, "xy".to_string());
    h.add_edge(1, 1, "yy".to_string());
    let r = g.intersection(&h);
    assert_eq!(r.node_weight(0), Some(&"a".to_string()));
    assert_eq!(r.node_weight(1), Some(&"b".to_string()));
    assert_eq!(r.node_weight(2), None);
    assert_eq!(r.edge_weight(0), Some(&"ab".to_string()));
    assert_eq!(r.edge_weight(1), Some(&"bb".to_string()));
    assert_eq!(g.node_count(), 3);
    assert_eq!(g.edge_count(), 2);
}

#[test]
fn from_edges_adds_enough_nodes() {
    let g = Graph::<u8, u8, Directed>::from_edges(&[(3, 1), (0, 2)]);
    assert_eq!(g.node_count(), 4);
    assert_eq!(ends(&g), vec![(3, 1), (0, 2)]);
    assert_eq!(g.node_weight(3), Some(&0));
    assert!(g.is_directed());
    let u = Graph::<u8, u8, Undirected>::from_edges(&[]);
    assert_eq!(u.node_count(), 0);
    assert!(!u.is_directed());
    assert_eq!(u.edge_endpoints(0), None);
}
