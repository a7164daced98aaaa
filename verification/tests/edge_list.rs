use multigraph::representations::{EdgeList, EdgeListNeighborIterator};
use multigraph::{Graph, Node, StaticGraph};

fn collect(graph: &EdgeList, node: Node) -> Vec<Node> {
    let mut it = EdgeListNeighborIterator::new(graph, node);
    let mut out = Vec::new();
    while let Some(v) = it.next() {
        out.push(v);
    }
    out
}

#[test]
fn creation() {
    let mut graph = EdgeList::new();
    graph.add_edge(0, 1);
    assert!(graph.has_edge(0, 1));
}

#[test]
fn duplicate_edge() {
    let mut graph = EdgeList::new();
    graph.add_edge(0, 1);
    graph.add_edge(0, 1);
    graph.add_edge(0, 1);
    graph.add_edge(0, 1);
    assert!(graph.has_edge(0, 1));
}

#[test]
fn reverse_edge() {
    let mut graph = EdgeList::new();
    graph.add_edge(0, 1);
    graph.add_edge(1, 2);
    assert!(graph.has_edge(0, 1));
    assert!(graph.has_edge(1, 2));
    assert!(!graph.has_edge(1, 0));
    assert!(!graph.has_edge(2, 1));
}

#[test]
fn neighbors() {
    let mut graph = EdgeList::new();
    graph.add_edge(0, 1);
    graph.add_edge(0, 2);
    graph.add_edge(0, 3);
    graph.add_edge(1, 2);

    assert_eq!(collect(&graph, 0), vec![1, 2, 3]);
}

#[test]
fn multi_neighbors() {
    let mut graph = EdgeList::new();
    graph.add_edge(0, 1);
    graph.add_edge(0, 2);
    graph.add_edge(0, 2);
    graph.add_edge(0, 3);
    graph.add_edge(0, 3);
    graph.add_edge(0, 3);
    graph.add_edge(1, 2);

    assert_eq!(collect(&graph, 0), vec![1, 2, 2, 3, 3, 3]);
}

#[test]
fn neighbor_iterator_stays_at_the_end() {
    let mut graph = EdgeList::new();
    graph.add_edge(0, 1);
    graph.add_edge(2, 0);

    let mut it = EdgeListNeighborIterator::new(&graph, 0);
    assert_eq!(it.next(), Some(1));
    assert_eq!(it.next(), None);
    assert_eq!(it.next(), None);

    let mut none = EdgeListNeighborIterator::new(&graph, 1);
    assert_eq!(none.next(), None);
}

#[test]
fn with_capacity_is_empty() {
    let graph = EdgeList::with_capacity(16);
    assert_eq!(graph.num_edges(), 0);
    assert_eq!(graph.num_nodes(), 0);
    assert!(!graph.has_edge(0, 0));
    assert_eq!(graph.neighbors(0), Vec::<Node>::new());
}
