use multigraph::algorithms::{breadth_first_search, has_cycle, is_bipartite};
use multigraph::representations::{AdjacencyList, Csr, EdgeList};
use multigraph::{Edge, Generator, Graph, Node, Search, StaticGraph};

const SAMPLE: [(Node, Node); 12] = [
    (4, 1),
    (0, 2),
    (4, 1),
    (2, 2),
    (0, 7),
    (6, 0),
    (0, 2),
    (2, 4),
    (4, 0),
    (0, 2),
    (6, 6),
    (1, 4),
];

fn edge_list(edges: &[(Node, Node)]) -> EdgeList {
    let mut graph = EdgeList::new();
    for &(u, v) in edges {
        graph.add_edge(u, v);
    }
    graph
}

fn adjacency_list(edges: &[(Node, Node)]) -> AdjacencyList {
    let mut graph = AdjacencyList::new();
    for &(u, v) in edges {
        graph.add_edge(u, v);
    }
    graph
}

fn sorted(mut edges: Vec<Edge>) -> Vec<Edge> {
    edges.sort();
    edges
}

fn sample_sorted() -> Vec<Edge> {
    sorted(SAMPLE.iter().map(|&(u, v)| Edge::new(u, v)).collect())
}

#[test]
fn every_conversion_keeps_the_edges_with_their_multiplicity() {
    let el = edge_list(&SAMPLE);
    let al = adjacency_list(&SAMPLE);
    let csr = Csr::from_generator(&el);
    let expected = sample_sorted();

    assert_eq!(sorted(el.edges().to_vec()), expected);
    assert_eq!(sorted(al.edges()), expected);
    assert_eq!(sorted(csr.edges()), expected);

    assert_eq!(sorted(EdgeList::from_generator(&el).edges().to_vec()), expected);
    assert_eq!(sorted(EdgeList::from_generator(&al).edges().to_vec()), expected);
    assert_eq!(sorted(EdgeList::from_generator(&csr).edges().to_vec()), expected);
    assert_eq!(sorted(AdjacencyList::from_generator(&el).edges()), expected);
    assert_eq!(sorted(AdjacencyList::from_generator(&al).edges()), expected);
    assert_eq!(sorted(AdjacencyList::from_generator(&csr).edges()), expected);
    assert_eq!(sorted(Csr::from_generator(&el).edges()), expected);
    assert_eq!(sorted(Csr::from_generator(&al).edges()), expected);
    assert_eq!(sorted(Csr::from_generator(&csr).edges()), expected);
}

#[test]
fn edge_list_keeps_the_order_of_its_generator() {
    let al = adjacency_list(&SAMPLE);
    assert_eq!(EdgeList::from_generator(&al).edges(), al.edges());

    let el = edge_list(&SAMPLE);
    let expected: Vec<Edge> = SAMPLE.iter().map(|&(u, v)| Edge::new(u, v)).collect();
    assert_eq!(el.edges(), expected);
    assert_eq!(EdgeList::from_generator(&el).edges(), expected);
}

#[test]
fn grouping_representations_order_edges_by_source() {
    let expected = vec![
        Edge::new(0, 2),
        Edge::new(0, 7),
        Edge::new(0, 2),
        Edge::new(0, 2),
        Edge::new(1, 4),
        Edge::new(2, 2),
        Edge::new(2, 4),
        Edge::new(4, 1),
        Edge::new(4, 1),
        Edge::new(4, 0),
        Edge::new(6, 0),
        Edge::new(6, 6),
    ];
    let el = edge_list(&SAMPLE);
    assert_eq!(adjacency_list(&SAMPLE).edges(), expected);
    assert_eq!(AdjacencyList::from_generator(&el).edges(), expected);
    assert_eq!(Csr::from_generator(&el).edges(), expected);
}

#[test]
fn every_representation_gives_the_same_neighbors() {
    let el = edge_list(&SAMPLE);
    let al = adjacency_list(&SAMPLE);
    let csr = Csr::from_generator(&al);

    assert_eq!(Generator::edges(&el), el.edges());
    for v in 0..10 {
        let expected = StaticGraph::neighbors(&el, v);
        assert_eq!(StaticGraph::neighbors(&al, v), expected);
        assert_eq!(StaticGraph::neighbors(&csr, v), expected);
        assert_eq!(al.neighbors(v), expected);
        assert_eq!(csr.neighbors(v), expected);
    }
    assert_eq!(el.neighbors(0), vec![2, 7, 2, 2]);
    assert_eq!(el.neighbors(4), vec![1, 1, 0]);
    assert_eq!(el.neighbors(7), Vec::<Node>::new());
}

#[test]
fn every_representation_finds_the_same_edges() {
    let el = edge_list(&SAMPLE);
    let al = adjacency_list(&SAMPLE);
    let csr = Csr::from_generator(&el);

    for u in 0..10 {
        for v in 0..10 {
            let expected = SAMPLE.contains(&(u, v));
            assert_eq!(el.has_edge(u, v), expected);
            assert_eq!(al.has_edge(u, v), expected);
            assert_eq!(csr.has_edge(u, v), expected);
        }
    }
}

#[test]
fn the_number_of_edges_is_the_number_of_calls() {
    let mut el = EdgeList::new();
    let mut al = AdjacencyList::new();
    assert_eq!(el.num_edges(), 0);
    assert_eq!(al.num_edges(), 0);
    for k in 0..40 {
        el.add_edge(k % 3, 1);
        al.add_edge(k % 3, 1);
        assert_eq!(el.num_edges(), k + 1);
        assert_eq!(al.num_edges(), k + 1);
    }
    assert_eq!(Csr::from_generator(&el).num_edges(), 40);
}

#[test]
fn the_number_of_nodes_is_one_more_than_the_greatest_id() {
    let cases: [(&[(Node, Node)], usize); 6] = [
        (&[], 0),
        (&[(0, 0)], 1),
        (&[(0, 9)], 10),
        (&[(9, 0)], 10),
        (&[(3, 3), (1, 2)], 4),
        (&[(5, 1), (2, 8), (8, 2), (0, 0)], 9),
    ];
    for (edges, expected) in cases {
        let el = edge_list(edges);
        let al = adjacency_list(edges);
        assert_eq!(el.num_nodes(), expected);
        assert_eq!(al.num_nodes(), expected);
        assert_eq!(Csr::from_generator(&el).num_nodes(), expected);
        assert_eq!(Csr::from_generator(&al).num_nodes(), expected);
        assert_eq!(EdgeList::from_generator(&al).num_nodes(), expected);
        assert_eq!(AdjacencyList::from_generator(&el).num_nodes(), expected);
    }
}

#[test]
fn a_target_beyond_the_buckets_still_counts_as_a_node() {
    let mut graph = AdjacencyList::new();
    graph.add_edge(1, 40);

    assert_eq!(graph.num_nodes(), 41);
    assert_eq!(graph.neighbors(40), Vec::<Node>::new());
    assert_eq!(graph.neighbors(0), Vec::<Node>::new());
    assert_eq!(graph.neighbors(1), vec![40]);
    assert!(!graph.has_edge(40, 1));
    assert!(!graph.has_edge(41, 1));

    graph.add_edge(0, 2);
    assert_eq!(graph.num_nodes(), 41);
    assert_eq!(graph.num_edges(), 2);
}

#[test]
fn a_cleared_graph_answers_like_a_new_one() {
    let mut el = edge_list(&SAMPLE);
    let mut al = adjacency_list(&SAMPLE);
    let mut csr = Csr::from_generator(&el);
    el.clear();
    al.clear();
    csr.clear();
    let new_el = EdgeList::new();
    let new_al = AdjacencyList::new();
    let new_csr = Csr::from_generator(&new_el);

    assert_eq!(el.num_nodes(), new_el.num_nodes());
    assert_eq!(al.num_nodes(), new_al.num_nodes());
    assert_eq!(csr.num_nodes(), new_csr.num_nodes());
    assert_eq!(el.num_edges(), new_el.num_edges());
    assert_eq!(al.num_edges(), new_al.num_edges());
    assert_eq!(csr.num_edges(), new_csr.num_edges());
    assert_eq!(el.edges(), new_el.edges());
    assert_eq!(al.edges(), new_al.edges());
    assert_eq!(csr.edges(), new_csr.edges());
    for v in 0..10 {
        assert_eq!(StaticGraph::neighbors(&el, v), StaticGraph::neighbors(&new_el, v));
        assert_eq!(al.neighbors(v), new_al.neighbors(v));
        assert_eq!(csr.neighbors(v), new_csr.neighbors(v));
        assert_eq!(el.has_edge(v, 2), new_el.has_edge(v, 2));
        assert_eq!(al.has_edge(v, 2), new_al.has_edge(v, 2));
        assert_eq!(csr.has_edge(v, 2), new_csr.has_edge(v, 2));
    }
    assert_eq!(el.is_bipartite(), new_el.is_bipartite());
    assert_eq!(al.has_cycle(), new_al.has_cycle());

    el.add_edge(3, 1);
    al.add_edge(3, 1);
    assert_eq!(el.edges(), vec![Edge::new(3, 1)]);
    assert_eq!(al.edges(), vec![Edge::new(3, 1)]);
    assert_eq!(al.num_nodes(), 4);
}

#[test]
fn complete_bipartite_graph_keeps_2500_edges() {
    let mut al = AdjacencyList::new();
    for u in 0..50 {
        for v in 50..100 {
            al.add_edge(u, v);
        }
    }
    assert_eq!(al.num_edges(), 2500);

    let csr = Csr::from_generator(&al);
    assert_eq!(csr.num_edges(), 2500);

    let el = EdgeList::from_generator(&csr);
    assert_eq!(el.num_edges(), 2500);

    assert_eq!(al.num_nodes(), 100);
    assert_eq!(csr.num_nodes(), 100);
    assert_eq!(el.num_nodes(), 100);
    assert_eq!(al.edges(), csr.edges());
    assert_eq!(csr.edges(), el.edges());
    assert_eq!(csr.is_bipartite(), true);
    assert_eq!(el.is_bipartite(), true);
}

#[test]
fn out_degrees_add_up_in_compressed_rows() {
    let el = edge_list(&SAMPLE);
    let csr = Csr::from_generator(&el);

    let degrees: Vec<usize> = (0..csr.num_nodes()).map(|v| csr.neighbors(v).len()).collect();
    assert_eq!(degrees, vec![4, 1, 2, 0, 3, 0, 2, 0]);
    assert_eq!(degrees.iter().sum::<usize>(), csr.num_edges());
}

fn follow(pred: &[Option<Node>], mut v: Node, start: Node) -> Option<usize> {
    let mut steps = 0;
    while v != start {
        v = pred[v]?;
        steps += 1;
        if steps > pred.len() {
            return None;
        }
    }
    Some(steps)
}

#[test]
fn search_reaches_what_can_be_reached_and_nothing_else() {
    let el = edge_list(&SAMPLE);
    let pred = breadth_first_search(&el, 0);

    assert_eq!(pred, vec![Some(0), Some(4), Some(0), None, Some(2), None, None, Some(0)]);
    assert_eq!(pred[0], Some(0));
    assert_eq!(follow(&pred, 0, 0), Some(0));
    assert_eq!(follow(&pred, 2, 0), Some(1));
    assert_eq!(follow(&pred, 7, 0), Some(1));
    assert_eq!(follow(&pred, 4, 0), Some(2));
    assert_eq!(follow(&pred, 1, 0), Some(3));
    for v in [3, 5, 6] {
        assert_eq!(pred[v], None);
    }
    for v in 0..pred.len() {
        if let Some(u) = pred[v] {
            assert!(v == 0 || el.has_edge(u, v));
        }
    }
}

#[test]
fn search_from_another_start() {
    let el = edge_list(&SAMPLE);

    assert_eq!(
        breadth_first_search(&el, 6),
        vec![Some(6), Some(4), Some(0), None, Some(2), None, Some(6), Some(0)]
    );
    assert_eq!(
        breadth_first_search(&el, 7),
        vec![None, None, None, None, None, None, None, Some(7)]
    );
    assert_eq!(
        breadth_first_search(&el, 3),
        vec![None, None, None, Some(3), None, None, None, None]
    );
}

#[test]
fn search_takes_the_node_that_was_seen_first() {
    let first = edge_list(&[(0, 1), (0, 2), (1, 3), (2, 3)]);
    assert_eq!(breadth_first_search(&first, 0), vec![Some(0), Some(0), Some(0), Some(1)]);

    let second = edge_list(&[(0, 2), (0, 1), (1, 3), (2, 3)]);
    assert_eq!(breadth_first_search(&second, 0), vec![Some(0), Some(0), Some(0), Some(2)]);

    // The shorter way wins over the one that is listed first.
    let third = edge_list(&[(0, 1), (1, 2), (2, 3), (0, 3)]);
    assert_eq!(breadth_first_search(&third, 0), vec![Some(0), Some(0), Some(1), Some(0)]);
}

#[test]
fn algorithms_agree_on_every_representation() {
    let el = edge_list(&SAMPLE);
    let al = AdjacencyList::from_generator(&el);
    let csr = Csr::from_generator(&el);

    for start in 0..el.num_nodes() {
        let expected = breadth_first_search(&el, start);
        assert_eq!(breadth_first_search(&al, start), expected);
        assert_eq!(breadth_first_search(&csr, start), expected);
    }
    assert_eq!(is_bipartite(&al), is_bipartite(&el));
    assert_eq!(is_bipartite(&csr), is_bipartite(&el));
    assert_eq!(has_cycle(&al), has_cycle(&el));
    assert_eq!(has_cycle(&csr), has_cycle(&el));
}

// As things stand, `has_cycle` reports any node that is met twice. A graph
// without a directed cycle can have one; that may not be what a caller means.
#[test]
fn converging_edges_count_as_a_cycle() {
    let graph = edge_list(&[(0, 1), (0, 2), (1, 2)]);
    assert_eq!(graph.has_cycle(), true);
    assert_eq!(graph.is_bipartite(), false);
}

#[test]
fn a_doubled_edge_counts_as_a_cycle() {
    let graph = edge_list(&[(0, 1), (0, 1)]);
    assert_eq!(graph.has_cycle(), true);
    assert_eq!(graph.is_bipartite(), true);
}

#[test]
fn a_loop_at_the_start() {
    let alone = edge_list(&[(0, 0)]);
    assert_eq!(alone.num_nodes(), 1);
    assert_eq!(alone.has_cycle(), true);
    assert_eq!(alone.is_bipartite(), true);

    let with_more = edge_list(&[(0, 0), (0, 1)]);
    assert_eq!(with_more.has_cycle(), true);
    assert_eq!(with_more.is_bipartite(), false);
}

// As things stand, both properties are judged by what node 0 reaches alone;
// that may not be what a caller means.
#[test]
fn only_what_node_0_reaches_is_looked_at() {
    // A triangle that node 0 does not reach.
    let graph = edge_list(&[(0, 1), (2, 3), (3, 4), (4, 2)]);
    assert_eq!(graph.is_bipartite(), true);
    assert_eq!(graph.has_cycle(), false);

    // An edge into node 0 from a node that node 0 does not reach.
    let graph = edge_list(&[(1, 0), (1, 2), (2, 1)]);
    assert_eq!(graph.is_bipartite(), true);
    assert_eq!(graph.has_cycle(), false);
}

#[test]
fn a_tree_has_no_cycle() {
    let graph = adjacency_list(&[(0, 1), (0, 2), (1, 3), (1, 4), (2, 5), (5, 6)]);
    assert_eq!(graph.has_cycle(), false);
    assert_eq!(graph.is_bipartite(), true);
}

#[test]
fn an_odd_cycle_is_not_bipartite() {
    let graph = Csr::from_generator(&edge_list(&[(0, 1), (1, 2), (2, 3), (3, 4), (4, 0)]));
    assert_eq!(graph.is_bipartite(), false);
    assert_eq!(graph.has_cycle(), true);

    let graph = Csr::from_generator(&edge_list(&[(0, 1), (1, 2), (2, 3), (3, 0)]));
    assert_eq!(graph.is_bipartite(), true);
    assert_eq!(graph.has_cycle(), true);
}

#[test]
fn edge_parts() {
    let e = Edge::new(3, 8);
    assert_eq!(e.source(), 3);
    assert_eq!(e.target(), 8);
    assert_eq!(e, Edge(3, 8));
    assert_ne!(e, Edge::new(8, 3));
    assert!(Edge::new(1, 9) < Edge::new(2, 0));
    assert!(Edge::new(1, 2) < Edge::new(1, 3));
}
