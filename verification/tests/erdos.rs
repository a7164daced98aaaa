use multigraph::algorithms::breadth_first_search;
use multigraph::representations::{AdjacencyList, EdgeList};
use multigraph::{Edge, Generator, Search, StaticGraph};
use rand::Rng;

struct Erdos {
    n: usize,
    p: f64,
}

impl Erdos {
    fn new(n: usize, p: f64) -> Erdos {
        Erdos { n, p }
    }
}

impl Generator for Erdos {
    fn edges(&self) -> Vec<Edge> {
        let mut rng = rand::thread_rng();
        let mut es = Vec::new();
        for u in 0..self.n {
            for v in 0..self.n {
                if rng.gen::<f64>() < self.p {
                    es.push(Edge::new(u, v));
                }
            }
        }
        es
    }
}

#[test]
fn erdos_creation_edgelist() {
    let erdos = Erdos::new(1000, 0.5);
    let graph = EdgeList::from_generator(&erdos);

    // Very unlikely to be wrong without implementation bug
    assert!(graph.num_edges() > 450_000);
    assert!(graph.num_edges() < 550_000);
}

#[test]
fn erdos_creation_adjlist() {
    let erdos = Erdos::new(1000, 0.5);
    let graph = AdjacencyList::from_generator(&erdos);

    // Very unlikely to be wrong without implementation bug
    assert!(graph.num_edges() > 450_000);
    assert!(graph.num_edges() < 550_000);
}

#[test]
fn erdos_bfs_edgelist() {
    let erdos = Erdos::new(1000, 0.01);
    let graph = EdgeList::from_generator(&erdos);

    let pred = breadth_first_search(&graph, 0);

    assert!(graph.num_edges() > 9_000);
    assert!(graph.num_edges() < 11_000);
    assert!(pred[0].is_some());
    assert_eq!(pred[0].unwrap(), 0);
}

#[test]
fn erdos_bfs_adjacencylist() {
    let erdos = Erdos::new(1000, 0.01);
    let graph = AdjacencyList::from_generator(&erdos);

    let pred = breadth_first_search(&graph, 0);

    assert!(graph.num_edges() > 9_000);
    assert!(graph.num_edges() < 11_000);
    assert!(pred[0].is_some());
    assert_eq!(pred[0].unwrap(), 0);
}

#[test]
fn conversion_bfs() {
    let erdos = Erdos::new(1000, 0.01);
    let al = AdjacencyList::from_generator(&erdos);

    let pred_al = al.breadth_first_search(123);
    let el = EdgeList::from_generator(&al);
    let pred_el = el.breadth_first_search(123);

    assert_eq!(pred_al, pred_el);
}
