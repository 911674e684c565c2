//! Dependency management: the graph of packages, its resolution, and the
//! fetching of each package.

pub mod fetch;
pub mod graph;
pub mod resolver;
