//! Lightweight C/C++ frontend on tree-sitter-cpp.
//!
//! Reports function definitions and declarations, class and struct
//! specifiers, call expressions, and declarations (as parameters inside a
//! parameter list, as variables elsewhere).  A function or a declaration is
//! named by its innermost declarator (for `void foo() {}`, the `foo` inside
//! the function declarator `foo()`).  Names are never missing: a node
//! without the expected field gets the empty name.

use vstd::prelude::*;
use vstd::string::StringSliceAdditionalSpecFns;
use crate::common::IcbError;
use crate::facts::{RawNode, facts_view};
use crate::lang::common::{Frontend, syntax_wf};
use crate::lang::grammar::{parse_with, frontend_result};
use crate::common::NodeKind;
use crate::lang::common::{
    SyntaxNode, Classification, classification_view, field_text, field_child, child_text_by_field, child_by_field,
    copy_text,
};
use crate::text::{str_is, owned};

verus! {

/// The text, or the empty text.
pub open spec fn or_empty(t: Option<Seq<char>>) -> Seq<char> {
    match t {
        Some(s) => s,
        None => seq![],
    }
}

/// The innermost declarator of a node: the node itself when it has no
/// `declarator` field, else the innermost declarator of that field's child.
pub open spec fn innermost_declarator(node: SyntaxNode) -> SyntaxNode
    decreases node,
{
    match field_child(node, "declarator"@) {
        Some(k) => if 0 <= k < node.children@.len() {
            proof {
                assert(decreases_to!(node => node.children));
            }
            innermost_declarator(node.children@[k])
        } else {
            node
        },
        None => node,
    }
}

/// The text of the innermost declarator under the `declarator` field.
pub open spec fn declarator_name(node: SyntaxNode) -> Option<Seq<char>> {
    match field_child(node, "declarator"@) {
        Some(k) => if 0 <= k < node.children@.len() {
            innermost_declarator(node.children@[k]).text.deep_view()
        } else {
            None
        },
        None => None,
    }
}

/// How the C/C++ frontend classifies a node whose tree parent has kind `pk`.
pub open spec fn cpp_class(node: SyntaxNode, pk: Option<Seq<char>>) -> Option<(NodeKind, Option<Seq<char>>, bool)> {
    let k = node.kind@;
    if k == "function_definition"@ || k == "function_declaration"@ {
        let name = match declarator_name(node) {
            Some(t) => t,
            None => or_empty(field_text(node, "name"@)),
        };
        Some((NodeKind::Function, Some(name), true))
    } else if k == "class_specifier"@ || k == "struct_specifier"@ {
        Some((NodeKind::Class, Some(or_empty(field_text(node, "name"@))), true))
    } else if k == "call_expression"@ {
        Some((NodeKind::CallSite, Some(or_empty(field_text(node, "function"@))), false))
    } else if k == "declaration"@ {
        let name = or_empty(declarator_name(node));
        if pk == Some("parameter_list"@) {
            Some((NodeKind::Parameter, Some(name), false))
        } else {
            Some((NodeKind::Variable, Some(name), false))
        }
    } else {
        None
    }
}

/// The text of the innermost declarator of a node.
fn innermost_text(node: &SyntaxNode) -> (r: Option<String>)
    ensures
        r.deep_view() == innermost_declarator(*node).text.deep_view(),
    decreases *node,
{
    match child_by_field(node, "declarator") {
        Some(k) => {
            proof {
                assert(decreases_to!(*node => node.children));
            }
            innermost_text(&node.children[k])
        },
        None => copy_text(&node.text),
    }
}

/// The text of the innermost declarator under the `declarator` field.
fn declarator_text(node: &SyntaxNode) -> (r: Option<String>)
    ensures
        r.deep_view() == declarator_name(*node),
{
    match child_by_field(node, "declarator") {
        Some(k) => innermost_text(&node.children[k]),
        None => None,
    }
}

fn text_or_empty(t: Option<String>) -> (r: String)
    ensures
        r@ == or_empty(t.deep_view()),
{
    match t {
        Some(s) => s,
        None => {
            proof {
                reveal_strlit("");
            }
            owned("")
        },
    }
}

/// Classify a C/C++ syntax node whose tree parent has kind `parent_kind`.
pub fn classify_cpp(node: &SyntaxNode, parent_kind: Option<&str>) -> (r: Classification)
    ensures
        classification_view(r) == cpp_class(
            *node,
            match parent_kind {
                Some(p) => Some(p@),
                None => None,
            },
        ),
{
    let k = node.kind.as_str();
    if str_is(k, "function_definition") || str_is(k, "function_declaration") {
        let name = match declarator_text(node) {
            Some(t) => t,
            None => text_or_empty(child_text_by_field(node, "name")),
        };
        Some((NodeKind::Function, Some(name), true))
    } else if str_is(k, "class_specifier") || str_is(k, "struct_specifier") {
        Some((NodeKind::Class, Some(text_or_empty(child_text_by_field(node, "name"))), true))
    } else if str_is(k, "call_expression") {
        Some((NodeKind::CallSite, Some(text_or_empty(child_text_by_field(node, "function"))), false))
    } else if str_is(k, "declaration") {
        let name = text_or_empty(declarator_text(node));
        let in_params = match parent_kind {
            Some(p) => str_is(p, "parameter_list"),
            None => false,
        };
        if in_params {
            Some((NodeKind::Parameter, Some(name), false))
        } else {
            Some((NodeKind::Variable, Some(name), false))
        }
    } else {
        None
    }
}

/// Parse C/C++ source code.
///
/// The facts are those that the frontend reports for tree-sitter's syntax
/// tree of the text (see [`frontend_result`]).  A text whose tree holds an error
/// node or a missing node has syntax errors and gives a parse error.
pub fn parse_cpp_file(source: &str) -> (r: Result<Vec<RawNode>, IcbError>)
    ensures
        frontend_result(Frontend::Cpp, source.spec_bytes(), true, r),
{
    parse_with(Frontend::Cpp, source, true)
}

} // verus!
