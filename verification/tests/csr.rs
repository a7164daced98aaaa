use multigraph::representations::{AdjacencyList, Csr, EdgeList};
use multigraph::{Edge, Generator, Graph, Node, Search, StaticGraph};

fn csr_of(edges: &[(Node, Node)]) -> Csr {
    let mut graph = EdgeList::new();
    for &(u, v) in edges {
        graph.add_edge(u, v);
    }
    Csr::from_generator(&graph)
}

#[test]
fn creation_csr() {
    let graph = csr_of(&[(0, 1)]);

    assert!(graph.has_edge(0, 1));
    assert!(!graph.has_edge(1, 0));
    assert_eq!(graph.num_edges(), 1);
    assert_eq!(graph.num_nodes(), 2);
}

#[test]
fn add_edges_csr() {
    let graph = csr_of(&[(0, 1), (1, 0), (2, 5), (0, 3)]);

    assert!(graph.has_edge(2, 5));
    assert!(!graph.has_edge(5, 2));
    assert!(!graph.has_edge(3, 2));
    assert_eq!(graph.num_edges(), 4);
    assert_eq!(graph.num_nodes(), 6);
}

#[test]
fn add_many_edges_csr() {
    let mut graph = EdgeList::new();

    for u in 0..1000 {
        for v in 0..12 {
            graph.add_edge(u, v);
        }
    }

    let graph = Csr::from_generator(&graph);

    assert!(graph.has_edge(994, 7));
    assert!(!graph.has_edge(994, 12));
    assert_eq!(graph.num_edges(), 12000);
    assert_eq!(graph.num_nodes(), 1000);
}

#[test]
fn clear_graph_csr() {
    let mut graph = EdgeList::new();

    for u in 0..1000 {
        for v in 0..12 {
            graph.add_edge(u, v);
        }
    }

    let mut graph = Csr::from_generator(&graph);

    assert!(graph.has_edge(994, 7));
    assert!(!graph.has_edge(994, 12));
    assert_eq!(graph.num_edges(), 12000);
    assert_eq!(graph.num_nodes(), 1000);

    graph.clear();

    assert!(!graph.has_edge(994, 7));
    assert_eq!(graph.num_edges(), 0);
    assert_eq!(graph.num_nodes(), 0);
    assert_eq!(graph.neighbors(994), Vec::<Node>::new());
    assert_eq!(graph.edges(), Vec::<Edge>::new());
}

#[test]
fn duplicate_edge_csr() {
    let graph = csr_of(&[(0, 1), (0, 1), (0, 1), (0, 1)]);

    assert!(graph.has_edge(0, 1));
    assert!(!graph.has_edge(1, 0));
    assert_eq!(graph.num_edges(), 4);
    assert_eq!(graph.num_nodes(), 2);
    assert_eq!(graph.neighbors(0), vec![1, 1, 1, 1]);
}

#[test]
fn reverse_edge_csr() {
    let graph = csr_of(&[(0, 1), (1, 0)]);

    assert!(graph.has_edge(0, 1));
    assert!(graph.has_edge(1, 0));
    assert!(!graph.has_edge(0, 0));
    assert!(!graph.has_edge(1, 1));
    assert_eq!(graph.num_edges(), 2);
}

#[test]
fn neighbors_csr() {
    let graph = csr_of(&[(0, 1), (0, 2), (0, 3), (1, 2)]);

    assert_eq!(graph.neighbors(0), vec![1, 2, 3]);
}

#[test]
fn multi_neighbors_csr() {
    let graph = csr_of(&[(0, 1), (0, 2), (0, 2), (0, 3), (0, 3), (0, 3), (1, 2)]);

    assert_eq!(graph.neighbors(0), vec![1, 2, 2, 3, 3, 3]);
    assert_eq!(graph.neighbors(1), vec![2]);
    assert_eq!(graph.neighbors(2), Vec::<Node>::new());
}

#[test]
fn edges_csr() {
    let graph = csr_of(&[(0, 1), (0, 2), (0, 2), (0, 3), (0, 3), (0, 3), (1, 2)]);

    assert_eq!(graph.edges()[6], Edge::new(1, 2));
    assert_eq!(graph.edges().len(), 7);
}

#[test]
fn to_edgelist_from_csr() {
    let mut graph = EdgeList::new();

    for u in 0..100 {
        for v in 0..100 {
            graph.add_edge(u, v);
        }
    }

    let graph = Csr::from_generator(&graph);

    let edges = graph.edges();
    let edgelist = EdgeList::from_generator(&graph);
    let edges_edgelist = edgelist.edges();

    assert_eq!(edges, edges_edgelist);
}

#[test]
fn to_adjacencylist_csr() {
    let mut graph = EdgeList::new();

    for u in 0..100 {
        for v in 0..100 {
            graph.add_edge(u, v);
        }
    }

    let graph = Csr::from_generator(&graph);

    let edges = graph.edges();
    let adjacencylist = AdjacencyList::from_generator(&graph);
    let edges_adjacencylist = adjacencylist.edges();

    assert_eq!(edges, edges_adjacencylist);
}

#[test]
fn csr_groups_edges_by_source_and_keeps_their_order() {
    let graph = csr_of(&[(2, 0), (0, 3), (2, 1), (0, 1), (3, 3), (0, 3)]);

    let expected = vec![
        Edge::new(0, 3),
        Edge::new(0, 1),
        Edge::new(0, 3),
        Edge::new(2, 0),
        Edge::new(2, 1),
        Edge::new(3, 3),
    ];
    assert_eq!(graph.edges(), expected);
    assert_eq!(graph.neighbors(0), vec![3, 1, 3]);
    assert_eq!(graph.neighbors(1), Vec::<Node>::new());
    assert_eq!(graph.neighbors(2), vec![0, 1]);
    assert_eq!(graph.neighbors(3), vec![3]);
}

#[test]
fn csr_edges_skip_nodes_without_edges() {
    let graph = csr_of(&[(3, 0), (1, 4)]);

    assert_eq!(graph.num_nodes(), 5);
    assert_eq!(graph.edges(), vec![Edge::new(1, 4), Edge::new(3, 0)]);
}

#[test]
fn csr_queries_beyond_the_last_node() {
    let graph = csr_of(&[(0, 1), (1, 2)]);

    assert_eq!(graph.num_nodes(), 3);
    assert!(!graph.has_edge(2, 0));
    assert!(!graph.has_edge(3, 0));
    assert!(!graph.has_edge(1000, 1));
    assert_eq!(graph.neighbors(2), Vec::<Node>::new());
    assert_eq!(graph.neighbors(3), Vec::<Node>::new());
    assert_eq!(graph.neighbors(1000), Vec::<Node>::new());
}

#[test]
fn csr_of_no_edges() {
    let graph = csr_of(&[]);

    assert_eq!(graph.num_nodes(), 0);
    assert_eq!(graph.num_edges(), 0);
    assert!(!graph.has_edge(0, 0));
    assert_eq!(graph.neighbors(0), Vec::<Node>::new());
    assert_eq!(graph.edges(), Vec::<Edge>::new());
    assert_eq!(graph.is_bipartite(), true);
    assert_eq!(graph.has_cycle(), false);
}

#[test]
fn csr_search_matches_the_edge_list() {
    let mut list = EdgeList::new();
    for u in 0..60 {
        list.add_edge(u, (u * 7 + 3) % 60);
        list.add_edge(u, (u * 11 + 5) % 60);
    }
    let csr = Csr::from_generator(&list);

    assert_eq!(csr.breadth_first_search(0), list.breadth_first_search(0));
    assert_eq!(csr.breadth_first_search(17), list.breadth_first_search(17));
    assert_eq!(csr.is_bipartite(), list.is_bipartite());
    assert_eq!(csr.has_cycle(), list.has_cycle());
}
