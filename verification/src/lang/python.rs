//! Python frontend.
//!
//! Reports function definitions (including `async def`), class definitions,
//! calls, lambdas (as functions named `lambda`) and, on request,
//! identifiers as variables.

use vstd::prelude::*;
use vstd::string::StringSliceAdditionalSpecFns;
use crate::common::{IcbError, Language};
use crate::facts::{RawNode, facts_view};
use crate::lang::common::{Frontend, syntax_wf};
use crate::lang::grammar::{parse_with, frontend_result, lemma_frontend_facts_shape};
use crate::common::NodeKind;
use crate::lang::common::{SyntaxNode, Classification, classification_view, field_text, child_text_by_field, node_text};
use crate::text::{str_is, owned};

verus! {

/// How the Python frontend classifies a node.
pub open spec fn python_class(node: SyntaxNode, include_variables: bool) -> Option<
    (NodeKind, Option<Seq<char>>, bool),
> {
    let k = node.kind@;
    if k == "function_definition"@ || k == "async_function_definition"@ {
        Some((NodeKind::Function, field_text(node, "name"@), true))
    } else if k == "class_definition"@ {
        Some((NodeKind::Class, field_text(node, "name"@), true))
    } else if k == "call"@ {
        Some((NodeKind::CallSite, field_text(node, "function"@), false))
    } else if k == "lambda"@ {
        Some((NodeKind::Function, Some("lambda"@), true))
    } else if k == "identifier"@ && include_variables {
        Some((NodeKind::Variable, node.text.deep_view(), false))
    } else {
        None
    }
}

/// Classify a Python syntax node.
pub fn classify_python(node: &SyntaxNode, include_variables: bool) -> (r: Classification)
    ensures
        classification_view(r) == python_class(*node, include_variables),
{
    let k = node.kind.as_str();
    if str_is(k, "function_definition") || str_is(k, "async_function_definition") {
        Some((NodeKind::Function, child_text_by_field(node, "name"), true))
    } else if str_is(k, "class_definition") {
        Some((NodeKind::Class, child_text_by_field(node, "name"), true))
    } else if str_is(k, "call") {
        Some((NodeKind::CallSite, child_text_by_field(node, "function"), false))
    } else if str_is(k, "lambda") {
        Some((NodeKind::Function, Some(owned("lambda")), true))
    } else if str_is(k, "identifier") && include_variables {
        Some((NodeKind::Variable, node_text(node), false))
    } else {
        None
    }
}

/// Parse Python source code; identifiers are not reported as variables.
///
/// The facts are those that the frontend reports for tree-sitter's syntax
/// tree of the text (see [`frontend_result`]).
pub fn parse_python(source: &str) -> (r: Result<Vec<RawNode>, IcbError>)
    ensures
        frontend_result(Frontend::Python { include_variables: false }, source.spec_bytes(), false, r),
{
    parse_with(Frontend::Python { include_variables: false }, source, false)
}

/// Parse Python source code, reporting identifiers as variables too.
///
/// The facts are those that the frontend reports for tree-sitter's syntax
/// tree of the text (see [`frontend_result`]).
pub fn parse_python_detailed(source: &str) -> (r: Result<Vec<RawNode>, IcbError>)
    ensures
        frontend_result(Frontend::Python { include_variables: true }, source.spec_bytes(), false, r),
{
    parse_with(Frontend::Python { include_variables: true }, source, false)
}

/// The plain Python frontend reports functions, classes and call sites
/// only (no variables), all in the Python language and without a USR.
pub proof fn lemma_python_facts(src: Seq<u8>, r: Result<Vec<RawNode>, IcbError>)
    requires
        frontend_result(Frontend::Python { include_variables: false }, src, false, r),
    ensures
        r matches Ok(f) ==> forall|i: int|
            0 <= i < f@.len() ==> {
                let x = #[trigger] f@[i]@;
                &&& x.kind == NodeKind::Function || x.kind == NodeKind::Class || x.kind == NodeKind::CallSite
                &&& x.kind != NodeKind::Variable
                &&& x.language == Language::Python
                &&& x.usr is None
            },
{
    lemma_frontend_facts_shape(Frontend::Python { include_variables: false }, src, false, r);
    if r is Ok {
        let f = r->Ok_0;
        assert forall|i: int| 0 <= i < f@.len() implies {
            let x = #[trigger] f@[i]@;
            &&& x.kind == NodeKind::Function || x.kind == NodeKind::Class || x.kind == NodeKind::CallSite
            &&& x.kind != NodeKind::Variable
            &&& x.language == Language::Python
            &&& x.usr is None
        } by {
            assert(facts_view(f@)[i] == f@[i]@);
        }
    }
}

/// The detailed Python frontend adds variables, and only as leaves: a
/// variable fact has no children.
pub proof fn lemma_python_detailed_facts(src: Seq<u8>, r: Result<Vec<RawNode>, IcbError>)
    requires
        frontend_result(Frontend::Python { include_variables: true }, src, false, r),
    ensures
        r matches Ok(f) ==> forall|i: int|
            0 <= i < f@.len() ==> {
                let x = #[trigger] f@[i]@;
                &&& x.kind == NodeKind::Function || x.kind == NodeKind::Class || x.kind == NodeKind::CallSite
                    || x.kind == NodeKind::Variable
                &&& x.kind == NodeKind::Variable ==> x.children.len() == 0
                &&& x.language == Language::Python
                &&& x.usr is None
            },
{
    lemma_frontend_facts_shape(Frontend::Python { include_variables: true }, src, false, r);
    if r is Ok {
        let f = r->Ok_0;
        assert forall|i: int| 0 <= i < f@.len() implies {
            let x = #[trigger] f@[i]@;
            &&& x.kind == NodeKind::Function || x.kind == NodeKind::Class || x.kind == NodeKind::CallSite
                || x.kind == NodeKind::Variable
            &&& x.kind == NodeKind::Variable ==> x.children.len() == 0
            &&& x.language == Language::Python
            &&& x.usr is None
        } by {
            assert(facts_view(f@)[i] == f@[i]@);
        }
    }
}

} // verus!
