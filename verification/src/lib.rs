//! Topology validation, aggregation and layout for dataflow profiling reports.
//!
//! The crate turns a declarative operator topology (in either of two schema
//! shapes) and one or two address-indexed metric logs into a validated graph,
//! per-node aggregates and a deterministic layered layout.

pub mod addr;
pub mod dag;
pub mod errors;
pub mod graph;
pub mod groups;
pub mod layout;
pub mod logs;
pub mod norm;
pub mod ops;
pub mod parse;
pub mod report;
pub mod strs;
pub mod view;
pub mod viewport;
