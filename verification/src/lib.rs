//! An in-memory directed multigraph toolkit: three interchangeable
//! representations behind one set of capability traits, and breadth-first
//! algorithms that work on any of them.

pub mod algorithms;
pub mod generators;
pub mod laws;
pub mod model;
pub mod representations;
pub mod traits;

pub use algorithms::Search;
pub use traits::Edge;
pub use traits::Generator;
pub use traits::Graph;
pub use traits::Node;
pub use traits::StaticGraph;
