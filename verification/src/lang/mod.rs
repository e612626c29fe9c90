//! Language frontends built on tree-sitter syntax trees.

pub mod common;
pub mod go;
pub mod python;
pub mod python_vars;
pub mod ruby;
pub mod rust;
pub mod grammar;
