use multigraph::representations::{AdjacencyList, EdgeList};
use multigraph::{Graph, Search};

#[test]
fn property_simple() {
    let mut graph = EdgeList::new();

    assert_eq!(graph.is_bipartite(), true);
    assert_eq!(graph.has_cycle(), false);

    graph.add_edge(0, 1);

    assert_eq!(graph.is_bipartite(), true);
    assert_eq!(graph.has_cycle(), false);

    graph.add_edge(1, 2);

    assert_eq!(graph.is_bipartite(), true);
    assert_eq!(graph.has_cycle(), false);

    graph.add_edge(2, 0);

    assert_eq!(graph.is_bipartite(), false);
    assert_eq!(graph.has_cycle(), true);
}

#[test]
fn even_cycle() {
    let mut graph = EdgeList::new();

    graph.add_edge(0, 1);
    graph.add_edge(0, 2);
    graph.add_edge(1, 3);
    graph.add_edge(2, 3);

    assert_eq!(graph.is_bipartite(), true);
    assert_eq!(graph.has_cycle(), true);
}

#[test]
fn large_bipartite() {
    let mut graph = AdjacencyList::new();

    for u in 0..50 {
        for v in 50..100 {
            graph.add_edge(u, v);
        }
    }

    assert_eq!(graph.is_bipartite(), true);
    assert_eq!(graph.has_cycle(), false);
}

#[test]
fn large_notbipartite() {
    let mut graph = AdjacencyList::new();

    for u in 0..50 {
        for v in 50..100 {
            graph.add_edge(u, v);
        }
    }

    graph.add_edge(70, 89);
    graph.add_edge(70, 12);

    assert_eq!(graph.is_bipartite(), false);
    assert_eq!(graph.has_cycle(), true);
}
