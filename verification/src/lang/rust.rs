//! Rust frontend.
//!
//! Reports function items and signatures, impl/trait/struct/enum/union
//! items (as classes) and call expressions and macro invocations.

use vstd::prelude::*;
use vstd::string::StringSliceAdditionalSpecFns;
use crate::common::IcbError;
use crate::facts::{RawNode, facts_view};
use crate::lang::common::{Frontend, syntax_wf};
use crate::lang::grammar::{parse_with, frontend_result};
use crate::common::NodeKind;
use crate::lang::common::{SyntaxNode, Classification, classification_view, kind_child, text_at, opt_int, child_of_kind, copy_text_at};
use crate::text::str_is;

verus! {

/// How the Rust frontend classifies a node.
pub open spec fn rust_class(node: SyntaxNode) -> Option<(NodeKind, Option<Seq<char>>, bool)> {
    let k = node.kind@;
    if k == "function_item"@ || k == "function_signature_item"@ {
        let c = match kind_child(node, "identifier"@) {
            Some(i) => Some(i),
            None => kind_child(node, "name"@),
        };
        Some((NodeKind::Function, text_at(node, c), true))
    } else if k == "impl_item"@ || k == "trait_item"@ || k == "struct_item"@ || k == "enum_item"@ || k
        == "union_item"@ {
        let c = match kind_child(node, "type_identifier"@) {
            Some(i) => Some(i),
            None => kind_child(node, "identifier"@),
        };
        Some((NodeKind::Class, text_at(node, c), true))
    } else if k == "call_expression"@ || k == "macro_invocation"@ {
        let c = match kind_child(node, "identifier"@) {
            Some(i) => Some(i),
            None => match kind_child(node, "field_expression"@) {
                Some(i) => Some(i),
                None => kind_child(node, "scoped_identifier"@),
            },
        };
        Some((NodeKind::CallSite, text_at(node, c), false))
    } else {
        None
    }
}

/// Classify a Rust syntax node.
pub fn classify_rust(node: &SyntaxNode) -> (r: Classification)
    ensures
        classification_view(r) == rust_class(*node),
{
    let k = node.kind.as_str();
    if str_is(k, "function_item") || str_is(k, "function_signature_item") {
        let c = match child_of_kind(node, "identifier") {
            Some(i) => Some(i),
            None => child_of_kind(node, "name"),
        };
        Some((NodeKind::Function, copy_text_at(node, c), true))
    } else if str_is(k, "impl_item") || str_is(k, "trait_item") || str_is(k, "struct_item") || str_is(
        k,
        "enum_item",
    ) || str_is(k, "union_item") {
        let c = match child_of_kind(node, "type_identifier") {
            Some(i) => Some(i),
            None => child_of_kind(node, "identifier"),
        };
        Some((NodeKind::Class, copy_text_at(node, c), true))
    } else if str_is(k, "call_expression") || str_is(k, "macro_invocation") {
        let c = match child_of_kind(node, "identifier") {
            Some(i) => Some(i),
            None => match child_of_kind(node, "field_expression") {
                Some(i) => Some(i),
                None => child_of_kind(node, "scoped_identifier"),
            },
        };
        Some((NodeKind::CallSite, copy_text_at(node, c), false))
    } else {
        None
    }
}

/// Parse Rust source code.
///
/// The facts are those that the frontend reports for tree-sitter's syntax
/// tree of the text (see [`frontend_result`]).
pub fn parse_rust(source: &str) -> (r: Result<Vec<RawNode>, IcbError>)
    ensures
        frontend_result(Frontend::Rust, source.spec_bytes(), false, r),
{
    parse_with(Frontend::Rust, source, false)
}

} // verus!
