//! Detection of circular dependencies among the packages of a workspace.
//!
//! A workspace is given by the records of its packages: for each its name
//! and the names it depends on. [`graph::build_nodes`] turns the records into
//! a graph, [`detect::detect_cycles_all`] walks the graph from every node and
//! reports each cycle once, and [`emit::clusters`] lays the cycles out for a
//! drawing.
//!
//! What the walks report is defined in [`walk`]; [`routes`] says the same
//! without walking, [`members`] says when two cycles are the same, and
//! [`cycles`] says what the cycles of a graph are.

pub mod cycles;
pub mod detect;
pub mod emit;
pub mod graph;
pub mod links;
pub mod members;
pub mod model;
pub mod routes;
pub mod walk;
