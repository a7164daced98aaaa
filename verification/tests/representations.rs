use multigraph::representations::{AdjacencyList, EdgeList};
use multigraph::{Edge, Generator, Graph, Node, StaticGraph};

#[test]
fn tests_creation_edgelist() {
    let mut graph = EdgeList::new();

    graph.add_edge(0, 1);

    assert!(graph.has_edge(0, 1));
    assert!(!graph.has_edge(1, 0));
    assert_eq!(graph.num_edges(), 1);
    assert_eq!(graph.num_nodes(), 2);
}

#[test]
fn creation_adjacencylist() {
    let mut graph = AdjacencyList::new();

    graph.add_edge(0, 1);

    assert!(graph.has_edge(0, 1));
    assert!(!graph.has_edge(1, 0));
    assert_eq!(graph.num_edges(), 1);
    assert_eq!(graph.num_nodes(), 2);
}

#[test]
fn add_edges_edgelist() {
    let mut graph = EdgeList::new();

    graph.add_edge(0, 1);
    graph.add_edge(1, 0);
    graph.add_edge(2, 5);
    graph.add_edge(0, 3);

    assert!(graph.has_edge(2, 5));
    assert!(!graph.has_edge(5, 2));
    assert!(!graph.has_edge(3, 2));
    assert_eq!(graph.num_edges(), 4);
    assert_eq!(graph.num_nodes(), 6);
}

#[test]
fn add_edges_adjacencylist() {
    let mut graph = AdjacencyList::new();

    graph.add_edge(0, 1);
    graph.add_edge(1, 0);
    graph.add_edge(2, 5);
    graph.add_edge(0, 3);

    assert!(graph.has_edge(2, 5));
    assert!(!graph.has_edge(5, 2));
    assert!(!graph.has_edge(3, 2));
    assert_eq!(graph.num_edges(), 4);
    assert_eq!(graph.num_nodes(), 6);
}

#[test]
fn add_many_edges_edgelist() {
    let mut graph = EdgeList::new();

    for u in 0..1000 {
        for v in 0..12 {
            graph.add_edge(u, v);
        }
    }

    assert!(graph.has_edge(994, 7));
    assert!(!graph.has_edge(994, 13));
    assert_eq!(graph.num_edges(), 12000);
    assert_eq!(graph.num_nodes(), 1000);
}

#[test]
fn add_many_edges_adjacencylist() {
    let mut graph = AdjacencyList::new();

    for u in 0..1000 {
        for v in 0..12 {
            graph.add_edge(u, v);
        }
    }

    assert!(graph.has_edge(994, 7));
    assert!(!graph.has_edge(994, 13));
    assert_eq!(graph.num_edges(), 12000);
    assert_eq!(graph.num_nodes(), 1000);
}

#[test]
fn clear_graph_edgelist() {
    let mut graph = EdgeList::new();

    for u in 0..1000 {
        for v in 0..12 {
            graph.add_edge(u, v);
        }
    }

    assert!(graph.has_edge(994, 7));
    assert!(!graph.has_edge(994, 13));
    assert_eq!(graph.num_edges(), 12000);
    assert_eq!(graph.num_nodes(), 1000);

    graph.clear();

    assert!(!graph.has_edge(994, 7));
    assert_eq!(graph.num_edges(), 0);
    assert_eq!(graph.num_nodes(), 0);
}

#[test]
fn clear_graph_adjacencylist() {
    let mut graph = AdjacencyList::new();

    for u in 0..1000 {
        for v in 0..12 {
            graph.add_edge(u, v);
        }
    }

    assert!(graph.has_edge(994, 7));
    assert!(!graph.has_edge(994, 13));
    assert_eq!(graph.num_edges(), 12000);
    assert_eq!(graph.num_nodes(), 1000);

    graph.clear();

    assert!(!graph.has_edge(994, 7));
    assert_eq!(graph.num_edges(), 0);
    assert_eq!(graph.num_nodes(), 0);
}

#[test]
fn duplicate_edge_edgelist() {
    let mut graph = EdgeList::new();

    graph.add_edge(0, 1);
    graph.add_edge(0, 1);
    graph.add_edge(0, 1);
    graph.add_edge(0, 1);

    assert!(graph.has_edge(0, 1));
    assert!(!graph.has_edge(1, 0));
    assert_eq!(graph.num_edges(), 4);
    assert_eq!(graph.num_nodes(), 2);
}

#[test]
fn duplicate_edge_adjacencylist() {
    let mut graph = AdjacencyList::new();

    graph.add_edge(0, 1);
    graph.add_edge(0, 1);
    graph.add_edge(0, 1);
    graph.add_edge(0, 1);

    assert!(graph.has_edge(0, 1));
    assert!(!graph.has_edge(1, 0));
    assert_eq!(graph.num_edges(), 4);
    assert_eq!(graph.num_nodes(), 2);
}

#[test]
fn reverse_edge_edgelist() {
    let mut graph = EdgeList::new();

    graph.add_edge(0, 1);
    graph.add_edge(1, 0);

    assert!(graph.has_edge(0, 1));
    assert!(graph.has_edge(1, 0));
    assert!(!graph.has_edge(0, 0));
    assert!(!graph.has_edge(1, 1));
    assert_eq!(graph.num_edges(), 2);
}

#[test]
fn reverse_edge_adjacencylist() {
    let mut graph = AdjacencyList::new();

    graph.add_edge(0, 1);
    graph.add_edge(1, 0);

    assert!(graph.has_edge(0, 1));
    assert!(graph.has_edge(1, 0));
    assert!(!graph.has_edge(0, 0));
    assert!(!graph.has_edge(1, 1));
    assert_eq!(graph.num_edges(), 2);
}

#[test]
fn neighbors_edgelist() {
    let mut graph = EdgeList::new();

    graph.add_edge(0, 1);
    graph.add_edge(0, 2);
    graph.add_edge(0, 3);
    graph.add_edge(1, 2);

    assert_eq!(graph.neighbors(0), vec![1, 2, 3]);
}

#[test]
fn neighbors_adjacencylist() {
    let mut graph = AdjacencyList::new();

    graph.add_edge(0, 1);
    graph.add_edge(0, 2);
    graph.add_edge(0, 3);
    graph.add_edge(1, 2);

    assert_eq!(graph.neighbors(0), vec![1, 2, 3]);
}

#[test]
fn multi_neighbors_edgelist() {
    let mut graph = EdgeList::new();

    graph.add_edge(0, 1);
    graph.add_edge(0, 2);
    graph.add_edge(0, 2);
    graph.add_edge(0, 3);
    graph.add_edge(0, 3);
    graph.add_edge(0, 3);
    graph.add_edge(1, 2);

    assert_eq!(graph.neighbors(0), vec![1, 2, 2, 3, 3, 3]);
    assert_eq!(graph.neighbors(1), vec![2]);
    assert_eq!(graph.neighbors(2), Vec::<Node>::new());
}

#[test]
fn multi_neighbors_adjacencylist() {
    let mut graph = AdjacencyList::new();

    graph.add_edge(0, 1);
    graph.add_edge(0, 2);
    graph.add_edge(0, 2);
    graph.add_edge(0, 3);
    graph.add_edge(0, 3);
    graph.add_edge(0, 3);
    graph.add_edge(1, 2);

    assert_eq!(graph.neighbors(0), vec![1, 2, 2, 3, 3, 3]);
    assert_eq!(graph.neighbors(1), vec![2]);
    assert_eq!(graph.neighbors(2), Vec::<Node>::new());
}

#[test]
fn edges_edgelist() {
    let mut graph = EdgeList::new();

    graph.add_edge(0, 1);
    graph.add_edge(0, 2);
    graph.add_edge(0, 2);
    graph.add_edge(0, 3);
    graph.add_edge(0, 3);
    graph.add_edge(0, 3);
    graph.add_edge(1, 2);

    assert_eq!(graph.edges()[6], Edge::new(1, 2));
    assert_eq!(graph.edges().len(), 7);
}

#[test]
fn edges_adjacencylist() {
    let mut graph = AdjacencyList::new();

    graph.add_edge(0, 1);
    graph.add_edge(0, 2);
    graph.add_edge(0, 2);
    graph.add_edge(0, 3);
    graph.add_edge(0, 3);
    graph.add_edge(0, 3);
    graph.add_edge(1, 2);

    assert_eq!(graph.edges()[6], Edge::new(1, 2));
    assert_eq!(graph.edges().len(), 7);
}

#[test]
fn to_edgelist_from_adjacecnylist() {
    let mut graph = AdjacencyList::new();

    for u in 0..100 {
        for v in 0..100 {
            graph.add_edge(u, v);
        }
    }

    let edges = graph.edges();
    let edgelist = EdgeList::from_generator(&graph);
    let edges_edgelist = edgelist.edges();

    assert_eq!(edges, edges_edgelist);
}

#[test]
fn to_adjacencylist_from_edgelist() {
    let mut graph = EdgeList::new();

    for u in 0..100 {
        for v in 0..100 {
            graph.add_edge(u, v);
        }
    }

    let edges = graph.edges();
    let adjacencylist = AdjacencyList::from_generator(&graph);
    let edges_adjacencylist = adjacencylist.edges();

    assert_eq!(edges, edges_adjacencylist);
}
