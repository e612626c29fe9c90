//! The syntax tree that the tree-sitter frontends work on, and the traversal
//! that turns it into facts.
//!
//! A [`SyntaxNode`] holds, as plain values, what the frontends read of a
//! concrete syntax tree: the node kind, the field under which the node hangs
//! from its parent, its source text and its position.  The traversal visits
//! the tree in pre-order and asks a language-specific classifier about every
//! node:
//! * a classified node becomes a fact, child of the current parent fact;
//!   if it is a container its children are visited with it as parent, and
//!   the next sibling gets it as parent too;
//! * a non-container leaves the parent unchanged;
//! * an unclassified node is transparent: its children are visited with the
//!   current parent, which they may change for the following siblings.

use vstd::prelude::*;
use crate::common::{Language, NodeKind};
use crate::facts::{RawNode, RawNodeView, facts_view};
use crate::text::str_is;
use crate::lang::{python, go, ruby, rust};
use crate::cpp_tree_sitter;

verus! {

/// A node of a concrete syntax tree.
pub struct SyntaxNode {
    /// The grammar's name for the node (`"function_definition"`, ...).
    pub kind: String,
    /// The field under which this node hangs from its parent, if any.
    pub field: Option<String>,
    /// The node's source text, when it is valid UTF-8.
    pub text: Option<String>,
    /// Zero-based row and column (in bytes) of the start and of the end.
    pub start_row: usize,
    pub start_col: usize,
    pub end_row: usize,
    pub end_col: usize,
    pub children: Vec<SyntaxNode>,
}

/// The largest row mentioned anywhere in a tree.
pub open spec fn max_row(node: SyntaxNode) -> nat
    decreases node, node.children@.len() + 1,
{
    let own: nat = if node.start_row >= node.end_row { node.start_row as nat } else { node.end_row as nat };
    let below = max_row_from(node, 0);
    if own >= below { own } else { below }
}

/// The largest row mentioned in the children of `node` from the `k`-th on.
pub open spec fn max_row_from(node: SyntaxNode, k: int) -> nat
    decreases node, node.children@.len() - k,
{
    if k < 0 || k >= node.children@.len() {
        0
    } else {
        proof {
            assert(decreases_to!(node => node.children));
        }
        let here = max_row(node.children@[k]);
        let rest = max_row_from(node, k + 1);
        if here >= rest { here } else { rest }
    }
}

/// Rows small enough that the 1-based line numbers stay representable.
pub open spec fn syntax_wf(node: SyntaxNode) -> bool {
    max_row(node) < usize::MAX
}

proof fn lemma_max_row_child(node: SyntaxNode, k: int, j: int)
    requires
        0 <= k <= j < node.children@.len(),
    ensures
        max_row(node.children@[j]) <= max_row_from(node, k),
    decreases j - k,
{
    if k < j {
        lemma_max_row_child(node, k + 1, j);
    }
}

/// The language frontends that share the traversal.
#[derive(Debug, Clone, Copy, PartialEq, Eq, Structural)]
pub enum Frontend {
    Python { include_variables: bool },
    Go,
    Ruby,
    Rust,
    Cpp,
}

/// The language recorded in the facts of a frontend.
pub open spec fn frontend_language(fe: Frontend) -> Language {
    match fe {
        Frontend::Python { .. } => Language::Python,
        Frontend::Go => Language::Go,
        Frontend::Ruby => Language::Ruby,
        Frontend::Rust => Language::Rust,
        Frontend::Cpp => Language::CppTreeSitter,
    }
}

fn language_of(fe: Frontend) -> (r: Language)
    ensures
        r == frontend_language(fe),
{
    match fe {
        Frontend::Python { .. } => Language::Python,
        Frontend::Go => Language::Go,
        Frontend::Ruby => Language::Ruby,
        Frontend::Rust => Language::Rust,
        Frontend::Cpp => Language::CppTreeSitter,
    }
}

/// What a classifier reports of a node: the fact's kind, its name, and
/// whether the node is a container.
pub type Classification = Option<(NodeKind, Option<String>, bool)>;

/// The mathematical value of a [`Classification`].
pub open spec fn classification_view(c: Classification) -> Option<(NodeKind, Option<Seq<char>>, bool)> {
    match c {
        Some((k, n, b)) => Some((k, n.deep_view(), b)),
        None => None,
    }
}

/// The classification of a node by a frontend; `parent_kind` is the kind of
/// the node's parent in the syntax tree.
pub open spec fn classify_spec(fe: Frontend, node: SyntaxNode, parent_kind: Option<Seq<char>>) -> Option<
    (NodeKind, Option<Seq<char>>, bool),
> {
    match fe {
        Frontend::Python { include_variables } => python::python_class(node, include_variables),
        Frontend::Go => go::go_class(node),
        Frontend::Ruby => ruby::ruby_class(node),
        Frontend::Rust => rust::rust_class(node),
        Frontend::Cpp => cpp_tree_sitter::cpp_class(node, parent_kind),
    }
}

/// Classify a node.
pub fn classify(fe: Frontend, node: &SyntaxNode, parent_kind: Option<&str>) -> (r: Classification)
    ensures
        classification_view(r) == classify_spec(
            fe,
            *node,
            match parent_kind {
                Some(p) => Some(p@),
                None => None,
            },
        ),
{
    match fe {
        Frontend::Python { include_variables } => python::classify_python(node, include_variables),
        Frontend::Go => go::classify_go(node),
        Frontend::Ruby => ruby::classify_ruby(node),
        Frontend::Rust => rust::classify_rust(node),
        Frontend::Cpp => cpp_tree_sitter::classify_cpp(node, parent_kind),
    }
}

// ---------------------------------------------------------------------------
// Child lookup
// ---------------------------------------------------------------------------

/// Index of the first child at or after `k` that hangs under field `field`.
pub open spec fn field_child_from(node: SyntaxNode, field: Seq<char>, k: int) -> Option<int>
    decreases node.children@.len() - k,
{
    if k < 0 || k >= node.children@.len() {
        None
    } else if node.children@[k].field.deep_view() == Some(field) {
        Some(k)
    } else {
        field_child_from(node, field, k + 1)
    }
}

/// Index of the first child at or after `k` whose kind is `kind`.
pub open spec fn kind_child_from(node: SyntaxNode, kind: Seq<char>, k: int) -> Option<int>
    decreases node.children@.len() - k,
{
    if k < 0 || k >= node.children@.len() {
        None
    } else if node.children@[k].kind@ == kind {
        Some(k)
    } else {
        kind_child_from(node, kind, k + 1)
    }
}

/// Index of the first child that hangs under field `field`.
pub open spec fn field_child(node: SyntaxNode, field: Seq<char>) -> Option<int> {
    field_child_from(node, field, 0)
}

/// Index of the first child whose kind is `kind`.
pub open spec fn kind_child(node: SyntaxNode, kind: Seq<char>) -> Option<int> {
    kind_child_from(node, kind, 0)
}

/// The text of the child at an optional index.
pub open spec fn text_at(node: SyntaxNode, k: Option<int>) -> Option<Seq<char>> {
    match k {
        Some(i) => node.children@[i].text.deep_view(),
        None => None,
    }
}

/// The text of the first child under field `field`, if it has one.
pub open spec fn field_text(node: SyntaxNode, field: Seq<char>) -> Option<Seq<char>> {
    text_at(node, field_child(node, field))
}

/// The text of the first child of kind `kind`, if it has one.
pub open spec fn kind_text(node: SyntaxNode, kind: Seq<char>) -> Option<Seq<char>> {
    text_at(node, kind_child(node, kind))
}

fn field_matches(f: &Option<String>, field: &str) -> (r: bool)
    ensures
        r == (f.deep_view() == Some(field@)),
{
    match f {
        Some(s) => str_is(s.as_str(), field),
        None => false,
    }
}

/// The first child hanging under the field `field`.
pub fn child_by_field(node: &SyntaxNode, field: &str) -> (r: Option<usize>)
    ensures
        r matches Some(k) ==> k < node.children@.len(),
        match r {
            Some(k) => field_child(*node, field@) == Some(k as int),
            None => field_child(*node, field@) is None,
        },
{
    let mut k: usize = 0;
    while k < node.children.len()
        invariant
            k <= node.children.len(),
            field_child(*node, field@) == field_child_from(*node, field@, k as int),
        decreases node.children.len() - k,
    {
        if field_matches(&node.children[k].field, field) {
            proof {
                lemma_field_child_range(*node, field@, 0);
            }
            return Some(k);
        }
        k = k + 1;
    }
    None
}

/// The first child whose kind is `kind`.
pub fn child_of_kind(node: &SyntaxNode, kind: &str) -> (r: Option<usize>)
    ensures
        r matches Some(k) ==> k < node.children@.len(),
        match r {
            Some(k) => kind_child(*node, kind@) == Some(k as int),
            None => kind_child(*node, kind@) is None,
        },
{
    let mut k: usize = 0;
    while k < node.children.len()
        invariant
            k <= node.children.len(),
            kind_child(*node, kind@) == kind_child_from(*node, kind@, k as int),
        decreases node.children.len() - k,
    {
        if str_is(node.children[k].kind.as_str(), kind) {
            proof {
                lemma_kind_child_range(*node, kind@, 0);
            }
            return Some(k);
        }
        k = k + 1;
    }
    None
}

proof fn lemma_field_child_range(node: SyntaxNode, field: Seq<char>, k: int)
    requires
        0 <= k,
    ensures
        field_child_from(node, field, k) matches Some(i) ==> k <= i < node.children@.len(),
    decreases node.children@.len() - k,
{
    if k < node.children@.len() && node.children@[k].field.deep_view() != Some(field) {
        lemma_field_child_range(node, field, k + 1);
    }
}

proof fn lemma_kind_child_range(node: SyntaxNode, kind: Seq<char>, k: int)
    requires
        0 <= k,
    ensures
        kind_child_from(node, kind, k) matches Some(i) ==> k <= i < node.children@.len(),
    decreases node.children@.len() - k,
{
    if k < node.children@.len() && node.children@[k].kind@ != kind {
        lemma_kind_child_range(node, kind, k + 1);
    }
}

pub fn copy_text(t: &Option<String>) -> (r: Option<String>)
    ensures
        r.deep_view() == t.deep_view(),
{
    match t {
        Some(s) => Some(s.clone()),
        None => None,
    }
}

/// An optional index as an integer.
pub open spec fn opt_int(c: Option<usize>) -> Option<int> {
    match c {
        Some(i) => Some(i as int),
        None => None,
    }
}

/// The text of the child at an optional index.
pub fn copy_text_at(node: &SyntaxNode, c: Option<usize>) -> (r: Option<String>)
    requires
        c matches Some(i) ==> i < node.children@.len(),
    ensures
        r.deep_view() == text_at(*node, opt_int(c)),
{
    match c {
        Some(i) => copy_text(&node.children[i].text),
        None => None,
    }
}

/// The text of the first child under field `field`.
pub fn child_text_by_field(node: &SyntaxNode, field: &str) -> (r: Option<String>)
    ensures
        r.deep_view() == field_text(*node, field@),
{
    match child_by_field(node, field) {
        Some(k) => copy_text(&node.children[k].text),
        None => None,
    }
}

/// The text of the first child whose kind is `kind`.
pub fn child_text_of_kind(node: &SyntaxNode, kind: &str) -> (r: Option<String>)
    ensures
        r.deep_view() == kind_text(*node, kind@),
{
    match child_of_kind(node, kind) {
        Some(k) => copy_text(&node.children[k].text),
        None => None,
    }
}

/// The node's own text.
pub fn node_text(node: &SyntaxNode) -> (r: Option<String>)
    ensures
        r.deep_view() == node.text.deep_view(),
{
    copy_text(&node.text)
}

// ---------------------------------------------------------------------------
// Traversal
// ---------------------------------------------------------------------------

/// The fact recorded for a classified node.
pub open spec fn node_fact(fe: Frontend, kind: NodeKind, name: Option<Seq<char>>, node: SyntaxNode) -> RawNodeView {
    let start_line = node.start_row + 1;
    let end_line = node.end_row + 1;
    RawNodeView {
        language: frontend_language(fe),
        kind,
        name,
        usr: None,
        start_line: start_line as nat,
        start_col: node.start_col as nat,
        end_line: if fe != Frontend::Cpp && end_line < start_line {
            start_line as nat
        } else {
            end_line as nat
        },
        end_col: node.end_col as nat,
        children: seq![],
        source_file: None,
    }
}

/// Record `idx` as the last child of the fact at `parent`.
pub open spec fn add_child(facts: Seq<RawNodeView>, parent: Option<nat>, idx: nat) -> Seq<RawNodeView> {
    match parent {
        Some(p) => if p < facts.len() {
            facts.update(p as int, RawNodeView { children: facts[p as int].children.push(idx as usize), ..facts[p as int] })
        } else {
            facts
        },
        None => facts,
    }
}

/// Facts after visiting `node` (whose tree parent has kind `pk`) with
/// current parent fact `parent`, and the parent fact for the next sibling.
pub open spec fn traverse_spec(
    fe: Frontend,
    node: SyntaxNode,
    pk: Option<Seq<char>>,
    facts: Seq<RawNodeView>,
    parent: Option<nat>,
) -> (Seq<RawNodeView>, Option<nat>)
    decreases node, node.children@.len() + 2,
{
    match classify_spec(fe, node, pk) {
        Some((kind, name, container)) => {
            let idx = facts.len();
            let f1 = add_child(facts.push(node_fact(fe, kind, name, node)), parent, idx);
            if container {
                (traverse_children_spec(fe, node, 0, f1, Some(idx)).0, Some(idx))
            } else {
                (f1, parent)
            }
        },
        None => traverse_children_spec(fe, node, 0, facts, parent),
    }
}

/// Facts after visiting the children of `node` from the `k`-th on.
pub open spec fn traverse_children_spec(
    fe: Frontend,
    node: SyntaxNode,
    k: int,
    facts: Seq<RawNodeView>,
    cur: Option<nat>,
) -> (Seq<RawNodeView>, Option<nat>)
    decreases node, node.children@.len() - k + 1,
{
    if k < 0 || k >= node.children@.len() {
        (facts, cur)
    } else {
        proof {
            assert(decreases_to!(node => node.children));
        }
        let r = traverse_spec(fe, node.children@[k], Some(node.kind@), facts, cur);
        traverse_children_spec(fe, node, k + 1, r.0, r.1)
    }
}

// ---------------------------------------------------------------------------
// Laws of the traversal
// ---------------------------------------------------------------------------

/// The fact kinds that a frontend reports.
pub open spec fn frontend_kind(fe: Frontend, k: NodeKind) -> bool {
    match fe {
        Frontend::Python { include_variables } => k == NodeKind::Function || k == NodeKind::Class || k
            == NodeKind::CallSite || (include_variables && k == NodeKind::Variable),
        Frontend::Cpp => k == NodeKind::Function || k == NodeKind::Class || k == NodeKind::CallSite || k
            == NodeKind::Parameter || k == NodeKind::Variable,
        _ => k == NodeKind::Function || k == NodeKind::Class || k == NodeKind::CallSite,
    }
}

/// Function and class facts are containers: the facts of what lies inside
/// them become their children.
pub open spec fn container_kind(k: NodeKind) -> bool {
    k == NodeKind::Function || k == NodeKind::Class
}

/// A frontend classifies nodes into its own kinds, and a node is a
/// container exactly when its kind is one.
pub proof fn lemma_classify_kinds(fe: Frontend, node: SyntaxNode, pk: Option<Seq<char>>)
    ensures
        classify_spec(fe, node, pk) matches Some((k, n, c)) ==> frontend_kind(fe, k) && c == container_kind(k),
{
}

/// `new` extends `old`: it keeps every fact of `old`, but for new children
/// at the end of a children list, each a fact that `old` does not have.
pub open spec fn extends(old: Seq<RawNodeView>, new: Seq<RawNodeView>) -> bool {
    &&& old.len() <= new.len()
    &&& forall|i: int|
        0 <= i < old.len() ==> {
            let a = #[trigger] old[i];
            let b = new[i];
            &&& b == RawNodeView { children: b.children, ..a }
            &&& a.children.len() <= b.children.len()
            &&& b.children.subrange(0, a.children.len() as int) == a.children
            &&& forall|j: int| a.children.len() <= j < b.children.len() ==> b.children[j] >= old.len()
        }
}

/// What every fact from position `from` on is, as a frontend makes it: the
/// frontend's language, no USR and no source file, one of the frontend's
/// kinds, lines counted from 1 (the end not before the start, but for C++),
/// no children unless a container, and children that are later facts.
pub open spec fn added_ok(fe: Frontend, s: Seq<RawNodeView>, from: int) -> bool {
    forall|i: int|
        from <= i < s.len() ==> {
            let f = #[trigger] s[i];
            &&& f.language == frontend_language(fe)
            &&& f.usr is None
            &&& f.source_file is None
            &&& frontend_kind(fe, f.kind)
            &&& f.start_line >= 1
            &&& (fe != Frontend::Cpp ==> f.end_line >= f.start_line)
            &&& (!container_kind(f.kind) ==> f.children.len() == 0)
            &&& forall|j: int| 0 <= j < f.children.len() ==> i < #[trigger] f.children[j] < s.len()
        }
}

/// The current parent, when it is a fact from position `from` on, is a
/// container.
pub open spec fn parent_container(s: Seq<RawNodeView>, parent: Option<nat>, from: int) -> bool {
    match parent {
        Some(p) => p >= from ==> container_kind(s[p as int].kind),
        None => true,
    }
}

pub(crate) proof fn lemma_extends_trans(a: Seq<RawNodeView>, b: Seq<RawNodeView>, c: Seq<RawNodeView>)
    requires
        extends(a, b),
        extends(b, c),
    ensures
        extends(a, c),
{
    assert forall|i: int| 0 <= i < a.len() implies {
        let x = #[trigger] a[i];
        let z = c[i];
        &&& z == RawNodeView { children: z.children, ..x }
        &&& x.children.len() <= z.children.len()
        &&& z.children.subrange(0, x.children.len() as int) == x.children
        &&& forall|j: int| x.children.len() <= j < z.children.len() ==> z.children[j] >= a.len()
    } by {
        let x = a[i];
        let y = b[i];
        let z = c[i];
        assert(z.children.subrange(0, x.children.len() as int) =~= z.children.subrange(
            0,
            y.children.len() as int,
        ).subrange(0, x.children.len() as int));
        assert forall|j: int| x.children.len() <= j < z.children.len() implies z.children[j] >= a.len() by {
            if j < y.children.len() {
                assert(z.children[j] == z.children.subrange(0, y.children.len() as int)[j]);
            }
        }
    }
}

pub(crate) proof fn lemma_extends_refl(a: Seq<RawNodeView>)
    ensures
        extends(a, a),
{
    assert forall|i: int| 0 <= i < a.len() implies #[trigger] a[i].children.subrange(0, a[i].children.len() as int)
        == a[i].children by {
        assert(a[i].children.subrange(0, a[i].children.len() as int) =~= a[i].children);
    }
}

proof fn lemma_add_fact(
    fe: Frontend,
    facts: Seq<RawNodeView>,
    parent: Option<nat>,
    from: int,
    kind: NodeKind,
    name: Option<Seq<char>>,
    node: SyntaxNode,
)
    requires
        0 <= from <= facts.len(),
        facts.len() < usize::MAX,
        added_ok(fe, facts, from),
        parent_ok(parent, facts.len()),
        parent_container(facts, parent, from),
        frontend_kind(fe, kind),
    ensures
        ({
            let f1 = add_child(facts.push(node_fact(fe, kind, name, node)), parent, facts.len());
            &&& extends(facts, f1)
            &&& added_ok(fe, f1, from)
            &&& f1.len() == facts.len() + 1
            &&& f1[facts.len() as int] == node_fact(fe, kind, name, node)
            &&& forall|i: int| 0 <= i < f1.len() ==> (#[trigger] f1[i]).kind == facts.push(node_fact(fe, kind, name, node))[i].kind
        }),
{
    let nf = node_fact(fe, kind, name, node);
    let f0 = facts.push(nf);
    let f1 = add_child(f0, parent, facts.len());
    assert forall|i: int| 0 <= i < facts.len() implies #[trigger] f1[i].children.subrange(0, facts[i].children.len() as int)
        == facts[i].children by {
        assert(f1[i].children.subrange(0, facts[i].children.len() as int) =~= facts[i].children);
    }
    assert forall|i: int| 0 <= i < facts.len() implies {
        let a = #[trigger] facts[i];
        let b = f1[i];
        &&& b == RawNodeView { children: b.children, ..a }
        &&& a.children.len() <= b.children.len()
        &&& b.children.subrange(0, a.children.len() as int) == a.children
        &&& forall|j: int| a.children.len() <= j < b.children.len() ==> b.children[j] >= facts.len()
    } by {
        assert(f0[i] == facts[i]);
        match parent {
            Some(p) => {
                if i == p {
                    assert(f1[i].children =~= facts[i].children.push(facts.len() as usize));
                } else {
                    assert(f1[i] == facts[i]);
                }
            },
            None => {
                assert(f1[i] == facts[i]);
            },
        }
    }
    assert(extends(facts, f1));
    assert forall|i: int| from <= i < f1.len() implies {
        let f = #[trigger] f1[i];
        &&& f.language == frontend_language(fe)
        &&& f.usr is None
        &&& f.source_file is None
        &&& frontend_kind(fe, f.kind)
        &&& f.start_line >= 1
        &&& (fe != Frontend::Cpp ==> f.end_line >= f.start_line)
        &&& (!container_kind(f.kind) ==> f.children.len() == 0)
        &&& forall|j: int| 0 <= j < f.children.len() ==> i < #[trigger] f.children[j] < f1.len()
    } by {
        if i < facts.len() {
            let g = facts[i];
            assert forall|j: int| 0 <= j < f1[i].children.len() implies i < #[trigger] f1[i].children[j] < f1.len() by {
                if j < g.children.len() {
                    assert(f1[i].children[j] == g.children[j]);
                }
            }
        }
    }
}

pub(crate) proof fn lemma_traverse_len(fe: Frontend, node: SyntaxNode, pk: Option<Seq<char>>, facts: Seq<RawNodeView>, parent: Option<nat>)
    ensures
        facts.len() <= traverse_spec(fe, node, pk, facts, parent).0.len(),
    decreases node, node.children@.len() + 2,
{
    match classify_spec(fe, node, pk) {
        Some((kind, name, container)) => {
            let f1 = add_child(facts.push(node_fact(fe, kind, name, node)), parent, facts.len());
            if container {
                lemma_traverse_children_len(fe, node, 0, f1, Some(facts.len()));
            }
        },
        None => {
            lemma_traverse_children_len(fe, node, 0, facts, parent);
        },
    }
}

pub(crate) proof fn lemma_traverse_children_len(fe: Frontend, node: SyntaxNode, k: int, facts: Seq<RawNodeView>, cur: Option<nat>)
    ensures
        facts.len() <= traverse_children_spec(fe, node, k, facts, cur).0.len(),
    decreases node, node.children@.len() - k + 1,
{
    if 0 <= k < node.children@.len() {
        assert(decreases_to!(node => node.children));
        let r = traverse_spec(fe, node.children@[k], Some(node.kind@), facts, cur);
        lemma_traverse_len(fe, node.children@[k], Some(node.kind@), facts, cur);
        lemma_traverse_children_len(fe, node, k + 1, r.0, r.1);
    }
}

proof fn lemma_traverse_laws(
    fe: Frontend,
    node: SyntaxNode,
    pk: Option<Seq<char>>,
    facts: Seq<RawNodeView>,
    parent: Option<nat>,
    from: int,
)
    requires
        0 <= from <= facts.len(),
        added_ok(fe, facts, from),
        parent_ok(parent, facts.len()),
        parent_container(facts, parent, from),
    ensures
        facts.len() <= traverse_spec(fe, node, pk, facts, parent).0.len(),
        ({
            let r = traverse_spec(fe, node, pk, facts, parent);
            r.0.len() <= usize::MAX ==> {
                &&& extends(facts, r.0)
                &&& added_ok(fe, r.0, from)
                &&& parent_ok(r.1, r.0.len())
                &&& parent_container(r.0, r.1, from)
            }
        }),
    decreases node, node.children@.len() + 2,
{
    lemma_classify_kinds(fe, node, pk);
    match classify_spec(fe, node, pk) {
        Some((kind, name, container)) => {
            let idx = facts.len();
            let f1 = add_child(facts.push(node_fact(fe, kind, name, node)), parent, idx);
            assert(f1.len() == facts.len() + 1);
            lemma_traverse_len(fe, node, pk, facts, parent);
            if container {
                lemma_traverse_children_len(fe, node, 0, f1, Some(idx));
                let r = traverse_children_spec(fe, node, 0, f1, Some(idx)).0;
                if r.len() <= usize::MAX {
                    lemma_add_fact(fe, facts, parent, from, kind, name, node);
                    lemma_traverse_children_laws(fe, node, 0, f1, Some(idx), from);
                    lemma_extends_trans(facts, f1, r);
                    assert(r[idx as int].kind == f1[idx as int].kind);
                }
            } else if f1.len() <= usize::MAX {
                lemma_add_fact(fe, facts, parent, from, kind, name, node);
                match parent {
                    Some(p) => {
                        assert(f1[p as int].kind == facts[p as int].kind);
                    },
                    None => {},
                }
            }
        },
        None => {
            lemma_traverse_children_len(fe, node, 0, facts, parent);
            lemma_traverse_children_laws(fe, node, 0, facts, parent, from);
        },
    }
}

proof fn lemma_traverse_children_laws(
    fe: Frontend,
    node: SyntaxNode,
    k: int,
    facts: Seq<RawNodeView>,
    cur: Option<nat>,
    from: int,
)
    requires
        0 <= from <= facts.len(),
        added_ok(fe, facts, from),
        parent_ok(cur, facts.len()),
        parent_container(facts, cur, from),
    ensures
        facts.len() <= traverse_children_spec(fe, node, k, facts, cur).0.len(),
        ({
            let r = traverse_children_spec(fe, node, k, facts, cur);
            r.0.len() <= usize::MAX ==> {
                &&& extends(facts, r.0)
                &&& added_ok(fe, r.0, from)
                &&& parent_ok(r.1, r.0.len())
                &&& parent_container(r.0, r.1, from)
            }
        }),
    decreases node, node.children@.len() - k + 1,
{
    if k < 0 || k >= node.children@.len() {
        lemma_extends_refl(facts);
    } else {
        assert(decreases_to!(node => node.children));
        let r = traverse_spec(fe, node.children@[k], Some(node.kind@), facts, cur);
        lemma_traverse_len(fe, node.children@[k], Some(node.kind@), facts, cur);
        lemma_traverse_children_len(fe, node, k + 1, r.0, r.1);
        if r.0.len() <= usize::MAX {
            lemma_traverse_laws(fe, node.children@[k], Some(node.kind@), facts, cur, from);
            lemma_traverse_children_laws(fe, node, k + 1, r.0, r.1, from);
            if traverse_children_spec(fe, node, k + 1, r.0, r.1).0.len() <= usize::MAX {
                lemma_extends_trans(facts, r.0, traverse_children_spec(fe, node, k + 1, r.0, r.1).0);
            }
        } else {
            lemma_traverse_children_len(fe, node, k + 1, r.0, r.1);
        }
    }
}

/// Visiting a syntax tree only appends facts: the facts that were there stay
/// as they were, but for new children (later facts) at the end of the
/// parent's children list; every appended fact has the frontend's language,
/// no USR, one of the frontend's kinds, lines counted from 1, children only
/// as a container, and children that follow it; and the returned parent is
/// a fact.
pub proof fn lemma_traverse_appends(
    fe: Frontend,
    node: SyntaxNode,
    pk: Option<Seq<char>>,
    facts: Seq<RawNodeView>,
    parent: Option<nat>,
)
    requires
        parent_ok(parent, facts.len()),
        traverse_spec(fe, node, pk, facts, parent).0.len() <= usize::MAX,
    ensures
        ({
            let r = traverse_spec(fe, node, pk, facts, parent);
            &&& extends(facts, r.0)
            &&& added_ok(fe, r.0, facts.len() as int)
            &&& parent_ok(r.1, r.0.len())
        }),
{
    lemma_traverse_laws(fe, node, pk, facts, parent, facts.len() as int);
}

/// A parent reference that points at an existing fact.
pub open spec fn parent_ok(parent: Option<nat>, len: nat) -> bool {
    match parent {
        Some(p) => p < len,
        None => true,
    }
}

/// The optional index as a natural number.
pub open spec fn idx_view(p: Option<usize>) -> Option<nat> {
    match p {
        Some(i) => Some(i as nat),
        None => None,
    }
}

/// Append a fact for `node` and register it as the last child of `parent`.
///
/// Returns the index of the new fact.
pub fn push_node(
    facts: &mut Vec<RawNode>,
    fe: Frontend,
    kind: NodeKind,
    name: Option<String>,
    node: &SyntaxNode,
    parent_idx: Option<usize>,
) -> (idx: usize)
    requires
        node.start_row < usize::MAX,
        node.end_row < usize::MAX,
        parent_ok(idx_view(parent_idx), old(facts)@.len()),
    ensures
        idx == old(facts)@.len(),
        final(facts)@.len() == old(facts)@.len() + 1,
        facts_view(final(facts)@) == add_child(
            facts_view(old(facts)@).push(node_fact(fe, kind, name.deep_view(), *node)),
            idx_view(parent_idx),
            idx as nat,
        ),
{
    let start_line = node.start_row + 1;
    let end_line = if fe != Frontend::Cpp && node.end_row + 1 < start_line {
        start_line
    } else {
        node.end_row + 1
    };
    let idx = facts.len();
    let fact = RawNode {
        language: language_of(fe),
        kind,
        name,
        usr: None,
        start_line,
        start_col: node.start_col,
        end_line,
        end_col: node.end_col,
        children: Vec::new(),
        source_file: None,
    };
    let ghost before = facts_view(facts@);
    proof {
        assert(fact.children@ =~= Seq::<usize>::empty());
        assert(fact@ == node_fact(fe, kind, name.deep_view(), *node));
    }
    facts.push(fact);
    proof {
        assert(facts_view(facts@) =~= before.push(fact@));
    }
    match parent_idx {
        Some(p) => {
            let mut updated = facts[p].duplicate();
            updated.children.push(idx);
            let ghost mid = facts_view(facts@);
            facts.set(p, updated);
            proof {
                assert(facts_view(facts@) =~= mid.update(
                    p as int,
                    RawNodeView { children: mid[p as int].children.push(idx), ..mid[p as int] },
                ));
            }
        },
        None => {},
    }
    idx
}

/// Visit a syntax (sub)tree and append its facts.
///
/// Returns the parent fact for the node's next sibling.  The effect is
/// exactly [`traverse_spec`].
pub fn traverse_node(
    node: &SyntaxNode,
    facts: &mut Vec<RawNode>,
    parent_idx: Option<usize>,
    fe: Frontend,
    parent_kind: Option<&str>,
) -> (r: Option<usize>)
    requires
        syntax_wf(*node),
        parent_ok(idx_view(parent_idx), old(facts)@.len()),
    ensures
        (facts_view(final(facts)@), idx_view(r)) == traverse_spec(
            fe,
            *node,
            match parent_kind {
                Some(p) => Some(p@),
                None => None,
            },
            facts_view(old(facts)@),
            idx_view(parent_idx),
        ),
        final(facts)@.len() >= old(facts)@.len(),
        parent_ok(idx_view(r), final(facts)@.len()),
    decreases *node, node.children@.len() + 2,
{
    let ghost pk = match parent_kind {
        Some(p) => Some(p@),
        None => None,
    };
    match classify(fe, node, parent_kind) {
        Some((kind, name, is_container)) => {
            let ghost name_v = name.deep_view();
            let idx = push_node(facts, fe, kind, name, node, parent_idx);
            if is_container {
                let _ = traverse_children(node, facts, Some(idx), fe);
                Some(idx)
            } else {
                parent_idx
            }
        },
        None => traverse_children(node, facts, parent_idx, fe),
    }
}

/// Visit the children of `node` in order, threading the current parent.
fn traverse_children(node: &SyntaxNode, facts: &mut Vec<RawNode>, parent_idx: Option<usize>, fe: Frontend) -> (r:
    Option<usize>)
    requires
        syntax_wf(*node),
        parent_ok(idx_view(parent_idx), old(facts)@.len()),
    ensures
        (facts_view(final(facts)@), idx_view(r)) == traverse_children_spec(
            fe,
            *node,
            0,
            facts_view(old(facts)@),
            idx_view(parent_idx),
        ),
        final(facts)@.len() >= old(facts)@.len(),
        parent_ok(idx_view(r), final(facts)@.len()),
    decreases *node, node.children@.len() + 1,
{
    let mut current = parent_idx;
    let mut k: usize = 0;
    let ghost start = facts_view(facts@);
    let ghost start_len = facts@.len();
    proof {
        assert forall|j: int| 0 <= j < node.children@.len() implies #[trigger] syntax_wf(node.children@[j]) by {
            lemma_max_row_child(*node, 0, j);
        }
    }
    while k < node.children.len()
        invariant
            syntax_wf(*node),
            forall|j: int| 0 <= j < node.children@.len() ==> #[trigger] syntax_wf(node.children@[j]),
            k <= node.children.len(),
            parent_ok(idx_view(current), facts@.len()),
            facts@.len() >= start_len,
            traverse_children_spec(fe, *node, k as int, facts_view(facts@), idx_view(current))
                == traverse_children_spec(fe, *node, 0, start, idx_view(parent_idx)),
        decreases node.children.len() - k,
    {
        current = traverse_node(&node.children[k], facts, current, fe, Some(node.kind.as_str()));
        k = k + 1;
    }
    current
}

} // verus!
