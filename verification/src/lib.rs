//! Analysis of a monorepo of independently versioned packages: a directed
//! dependency graph is built over the package manifests, checked to be
//! acyclic, and used to answer which packages are impacted by a set of
//! changed packages (reverse transitive reachability), and to export the
//! graph as text for visualization.
//!
//! File, directory and version-control access stay outside this crate: the
//! library takes plain manifest records and changed-path strings and hands
//! back plain values.

pub mod diff;
pub mod graph;
pub mod laws;
pub mod model;
pub mod monorepo;
pub mod options;
pub mod pg;
