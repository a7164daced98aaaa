//! Algorithms that work on any representation through the query interface.

pub mod bfs;
pub mod discovery;
pub mod layers;
pub mod paths;
pub mod property;
pub mod search;

pub use self::bfs::breadth_first_search;
pub use self::property::has_cycle;
pub use self::property::is_bipartite;
pub use self::search::Search;
