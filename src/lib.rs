//! Dependency-graph analysis for reporting where unsafe code lives in a
//! package and its transitive dependencies.
//!
//! The library builds a package graph from a resolved dependency relation,
//! computes the strongest dependency kind through which each package is
//! reached, walks the graph into display lines, and aggregates per-file
//! unsafe-usage counters into per-package figures.

pub mod kind;
pub mod sums;
pub mod graph;
pub mod dep_info;
pub mod dependency_kind;
pub mod format;
pub mod pattern;
pub mod scan;
pub mod tree;
