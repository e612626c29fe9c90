//! Call-graph analysis toolkit: language frontends that turn source code
//! into flat facts, a code property graph built from those facts, and
//! queries and analyses over the graph.

pub mod common;
pub mod facts;
pub mod heuristic;
pub mod text;
pub mod lang;
pub mod cpp_tree_sitter;
pub mod graph;
pub mod builder;
pub mod query;
pub mod analysis;
pub mod visualizer;
pub mod manager;
pub mod rustc;
pub mod diff;
pub mod report;
pub mod clang;
