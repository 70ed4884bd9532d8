//! Aggregation of a cyclic asset-dependency graph into a hierarchy of
//! coarser summary nodes, together with a small environment-map helper.

pub mod env;
pub mod graph;
pub mod handles;
