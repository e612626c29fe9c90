//! Ruby frontend.
//!
//! Reports method and singleton-method definitions, classes and modules,
//! calls, lambdas (as functions named `lambda`) and blocks (as functions
//! named `block`).

use vstd::prelude::*;
use vstd::string::StringSliceAdditionalSpecFns;
use crate::common::IcbError;
use crate::facts::{RawNode, facts_view};
use crate::lang::common::{Frontend, syntax_wf};
use crate::lang::grammar::{parse_with, frontend_result};
use crate::common::NodeKind;
use crate::lang::common::{SyntaxNode, Classification, classification_view, kind_child, kind_text, text_at, opt_int, child_of_kind, child_text_of_kind, copy_text_at};
use crate::text::{str_is, owned};

verus! {

/// How the Ruby frontend classifies a node.
pub open spec fn ruby_class(node: SyntaxNode) -> Option<(NodeKind, Option<Seq<char>>, bool)> {
    let k = node.kind@;
    if k == "method"@ || k == "singleton_method"@ {
        Some((NodeKind::Function, kind_text(node, "identifier"@), true))
    } else if k == "class"@ || k == "module"@ {
        Some((NodeKind::Class, kind_text(node, "constant"@), true))
    } else if k == "call"@ {
        let c = match kind_child(node, "identifier"@) {
            Some(i) => Some(i),
            None => match kind_child(node, "constant"@) {
                Some(i) => Some(i),
                None => kind_child(node, "method_identifier"@),
            },
        };
        Some((NodeKind::CallSite, text_at(node, c), false))
    } else if k == "lambda"@ {
        Some((NodeKind::Function, Some("lambda"@), true))
    } else if k == "do_block"@ || k == "brace_block"@ {
        Some((NodeKind::Function, Some("block"@), true))
    } else {
        None
    }
}

/// Classify a Ruby syntax node.
pub fn classify_ruby(node: &SyntaxNode) -> (r: Classification)
    ensures
        classification_view(r) == ruby_class(*node),
{
    let k = node.kind.as_str();
    if str_is(k, "method") || str_is(k, "singleton_method") {
        Some((NodeKind::Function, child_text_of_kind(node, "identifier"), true))
    } else if str_is(k, "class") || str_is(k, "module") {
        Some((NodeKind::Class, child_text_of_kind(node, "constant"), true))
    } else if str_is(k, "call") {
        let c = match child_of_kind(node, "identifier") {
            Some(i) => Some(i),
            None => match child_of_kind(node, "constant") {
                Some(i) => Some(i),
                None => child_of_kind(node, "method_identifier"),
            },
        };
        Some((NodeKind::CallSite, copy_text_at(node, c), false))
    } else if str_is(k, "lambda") {
        Some((NodeKind::Function, Some(owned("lambda")), true))
    } else if str_is(k, "do_block") || str_is(k, "brace_block") {
        Some((NodeKind::Function, Some(owned("block")), true))
    } else {
        None
    }
}

/// Parse Ruby source code.
///
/// The facts are those that the frontend reports for tree-sitter's syntax
/// tree of the text (see [`frontend_result`]).
pub fn parse_ruby(source: &str) -> (r: Result<Vec<RawNode>, IcbError>)
    ensures
        frontend_result(Frontend::Ruby, source.spec_bytes(), false, r),
{
    parse_with(Frontend::Ruby, source, false)
}

} // verus!
