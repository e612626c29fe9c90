//! The universal heuristic parser: a language-agnostic extractor of
//! declarations and call sites that works on a flat token stream.

pub mod tokens;
pub mod parser;
