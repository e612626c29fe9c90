//! The flat fact representation that every frontend produces.

use vstd::prelude::*;
use crate::common::{Language, NodeKind};

verus! {

/// A syntactic fact: a function, class, call site, variable, ... together
/// with its location and the indices (into the same fact list) of the facts
/// nested directly inside it.
#[derive(Debug, Clone)]
pub struct RawNode {
    pub language: Language,
    pub kind: NodeKind,
    pub name: Option<String>,
    pub usr: Option<String>,
    pub start_line: usize,
    pub start_col: usize,
    pub end_line: usize,
    pub end_col: usize,
    pub children: Vec<usize>,
    pub source_file: Option<String>,
}

/// The mathematical value of a [`RawNode`].
pub struct RawNodeView {
    pub language: Language,
    pub kind: NodeKind,
    pub name: Option<Seq<char>>,
    pub usr: Option<Seq<char>>,
    pub start_line: nat,
    pub start_col: nat,
    pub end_line: nat,
    pub end_col: nat,
    pub children: Seq<usize>,
    pub source_file: Option<Seq<char>>,
}

impl View for RawNode {
    type V = RawNodeView;

    open spec fn view(&self) -> RawNodeView {
        RawNodeView {
            language: self.language,
            kind: self.kind,
            name: self.name.deep_view(),
            usr: self.usr.deep_view(),
            start_line: self.start_line as nat,
            start_col: self.start_col as nat,
            end_line: self.end_line as nat,
            end_col: self.end_col as nat,
            children: self.children@,
            source_file: self.source_file.deep_view(),
        }
    }
}

/// The views of a list of facts.
pub open spec fn facts_view(s: Seq<RawNode>) -> Seq<RawNodeView> {
    s.map_values(|r: RawNode| r@)
}

} // verus!
