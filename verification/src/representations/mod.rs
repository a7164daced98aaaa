//! The storage layouts. Each one answers the same queries about the same
//! edges; they differ in cost and in the order in which edges come out.

pub mod adjacency_list;
pub mod csr;
pub mod edge_list;

pub use self::adjacency_list::AdjacencyList;
pub use self::csr::Csr;
pub use self::edge_list::EdgeList;
pub use self::edge_list::EdgeListNeighborIterator;
