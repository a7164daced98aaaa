use multigraph::algorithms::breadth_first_search;
use multigraph::generators::CompleteGraph;
use multigraph::representations::{AdjacencyList, Csr, EdgeList};
use multigraph::{Edge, Generator, StaticGraph};

#[test]
fn util_creation_edgelist() {
    let gen = CompleteGraph::new(1000);
    let graph = EdgeList::from_generator(&gen);

    assert!(graph.num_edges() == 1_000_000);
}

#[test]
fn util_creation_adjlist() {
    let gen = CompleteGraph::new(1000);
    let graph = AdjacencyList::from_generator(&gen);

    assert!(graph.num_edges() == 1_000_000);
}

#[test]
fn util_bfs_edgelist() {
    let gen = CompleteGraph::new(100);
    let graph = EdgeList::from_generator(&gen);

    let pred = breadth_first_search(&graph, 0);

    assert!(graph.num_edges() == 10_000);
    assert!(pred[0].is_some());
    assert_eq!(pred[0].unwrap(), 0);
}

#[test]
fn util_bfs_adjacencylist() {
    let gen = CompleteGraph::new(100);
    let graph = AdjacencyList::from_generator(&gen);

    let pred = breadth_first_search(&graph, 0);

    assert!(graph.num_edges() == 10_000);
    assert!(pred[0].is_some());
    assert_eq!(pred[0].unwrap(), 0);
}

#[test]
fn complete_graph_lists_pairs_row_by_row() {
    let gen = CompleteGraph::new(3);
    let expected = vec![
        Edge::new(0, 0),
        Edge::new(0, 1),
        Edge::new(0, 2),
        Edge::new(1, 0),
        Edge::new(1, 1),
        Edge::new(1, 2),
        Edge::new(2, 0),
        Edge::new(2, 1),
        Edge::new(2, 2),
    ];
    assert_eq!(gen.edges(), expected);
    assert_eq!(gen.edges(), expected);
}

#[test]
fn complete_graph_without_nodes() {
    let gen = CompleteGraph::new(0);
    assert_eq!(gen.edges(), Vec::<Edge>::new());

    let graph = Csr::from_generator(&gen);
    assert_eq!(graph.num_nodes(), 0);
    assert_eq!(graph.num_edges(), 0);
}

#[test]
fn complete_graph_of_one_node_is_a_loop() {
    let gen = CompleteGraph::new(1);
    assert_eq!(gen.edges(), vec![Edge::new(0, 0)]);
}

#[test]
fn edges_at_hand_generate_themselves() {
    let edges = vec![Edge::new(2, 0), Edge::new(0, 1), Edge::new(2, 2), Edge::new(0, 1)];
    assert_eq!(edges.edges(), edges);

    let el = EdgeList::from_generator(&edges);
    assert_eq!(el.edges(), edges);
    assert_eq!(el.num_nodes(), 3);

    let grouped = vec![Edge::new(0, 1), Edge::new(0, 1), Edge::new(2, 0), Edge::new(2, 2)];
    assert_eq!(AdjacencyList::from_generator(&edges).edges(), grouped);
    assert_eq!(Csr::from_generator(&edges).edges(), grouped);

    let none: Vec<Edge> = Vec::new();
    assert_eq!(Csr::from_generator(&none).num_nodes(), 0);
    assert_eq!(AdjacencyList::from_generator(&none).num_edges(), 0);
}
