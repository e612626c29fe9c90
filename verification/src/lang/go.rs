//! Go frontend.
//!
//! Reports function and method declarations, struct and interface type
//! declarations (as classes) and call expressions.  A declaration is named
//! by its `identifier` child, or else by the identifier kind that the
//! grammar uses there: `field_identifier` for a method, `type_identifier`
//! for a type.

use vstd::prelude::*;
use vstd::string::StringSliceAdditionalSpecFns;
use crate::common::IcbError;
use crate::facts::{RawNode, facts_view};
use crate::lang::common::{Frontend, syntax_wf};
use crate::lang::grammar::{parse_with, frontend_result};
use crate::common::NodeKind;
use crate::lang::common::{SyntaxNode, Classification, classification_view, kind_child, kind_text, text_at, opt_int, child_of_kind, child_text_of_kind, copy_text_at};
use crate::text::str_is;

verus! {

/// How the Go frontend classifies a node.
pub open spec fn go_class(node: SyntaxNode) -> Option<(NodeKind, Option<Seq<char>>, bool)> {
    let k = node.kind@;
    if k == "function_declaration"@ || k == "method_declaration"@ {
        let c = match kind_child(node, "identifier"@) {
            Some(i) => Some(i),
            None => kind_child(node, "field_identifier"@),
        };
        Some((NodeKind::Function, text_at(node, c), true))
    } else if k == "type_declaration"@ {
        match kind_child(node, "type_spec"@) {
            Some(i) => {
                let spec = node.children@[i];
                if kind_child(spec, "struct_type"@) is Some || kind_child(spec, "interface_type"@) is Some {
                    let c = match kind_child(spec, "identifier"@) {
                        Some(j) => Some(j),
                        None => kind_child(spec, "type_identifier"@),
                    };
                    Some((NodeKind::Class, text_at(spec, c), true))
                } else {
                    None
                }
            },
            None => None,
        }
    } else if k == "call_expression"@ {
        let c = match kind_child(node, "identifier"@) {
            Some(i) => Some(i),
            None => kind_child(node, "selector_expression"@),
        };
        Some((NodeKind::CallSite, text_at(node, c), false))
    } else {
        None
    }
}

/// Classify a Go syntax node.
pub fn classify_go(node: &SyntaxNode) -> (r: Classification)
    ensures
        classification_view(r) == go_class(*node),
{
    let k = node.kind.as_str();
    if str_is(k, "function_declaration") || str_is(k, "method_declaration") {
        let c = match child_of_kind(node, "identifier") {
            Some(i) => Some(i),
            None => child_of_kind(node, "field_identifier"),
        };
        Some((NodeKind::Function, copy_text_at(node, c), true))
    } else if str_is(k, "type_declaration") {
        match child_of_kind(node, "type_spec") {
            Some(i) => {
                let spec = &node.children[i];
                if child_of_kind(spec, "struct_type").is_some() || child_of_kind(spec, "interface_type").is_some() {
                    let c = match child_of_kind(spec, "identifier") {
                        Some(j) => Some(j),
                        None => child_of_kind(spec, "type_identifier"),
                    };
                    Some((NodeKind::Class, copy_text_at(spec, c), true))
                } else {
                    None
                }
            },
            None => None,
        }
    } else if str_is(k, "call_expression") {
        let c = match child_of_kind(node, "identifier") {
            Some(i) => Some(i),
            None => child_of_kind(node, "selector_expression"),
        };
        Some((NodeKind::CallSite, copy_text_at(node, c), false))
    } else {
        None
    }
}

/// Parse Go source code.
///
/// The facts are those that the frontend reports for tree-sitter's syntax
/// tree of the text (see [`frontend_result`]).
pub fn parse_go(source: &str) -> (r: Result<Vec<RawNode>, IcbError>)
    ensures
        frontend_result(Frontend::Go, source.spec_bytes(), false, r),
{
    parse_with(Frontend::Go, source, false)
}

} // verus!
