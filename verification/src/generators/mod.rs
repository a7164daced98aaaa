//! Producers of edges that are not graphs themselves.

pub mod edges;
pub mod util;

pub use self::util::CompleteGraph;
