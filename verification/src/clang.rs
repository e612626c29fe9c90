//! The Clang C/C++ frontend's fact extraction.
//!
//! The translation unit's cursors are read into a [`ClangCursor`] tree of
//! plain values (by the caller, through libclang); this module walks that
//! tree and keeps what matters for the call graph: functions and methods,
//! classes and structs, call expressions, variable and parameter
//! declarations.  Every other cursor is transparent.  A cursor in a system
//! header is dropped with its subtree when system headers are not allowed,
//! and also below another system-header cursor.

use vstd::prelude::*;
use crate::common::{Language, NodeKind};
use crate::facts::{RawNode, RawNodeView, facts_view};
use crate::lang::common::{add_child, parent_ok, idx_view, extends, container_kind, parent_container, lemma_extends_trans, lemma_extends_refl};

verus! {

/// The cursor kinds that the frontend tells apart.
#[derive(Debug, Clone, Copy, PartialEq, Eq, Structural)]
pub enum CursorKind {
    FunctionDecl,
    CXXMethod,
    ClassDecl,
    StructDecl,
    CallExpr,
    VarDecl,
    ParmDecl,
    Other,
}

/// A Clang cursor and its children, as plain values.
pub struct ClangCursor {
    pub kind: CursorKind,
    /// The cursor's spelling.
    pub spelling: String,
    /// The cursor's unified symbol resolution string.
    pub usr: String,
    /// The spelling of the entity that the cursor references; `None` when
    /// Clang reports no referenced entity (an invalid-file cursor).
    pub referenced_spelling: Option<String>,
    /// Whether the cursor lies in a system header.
    pub in_system_header: bool,
    /// One-based presumed start and end positions.
    pub start_line: usize,
    pub start_col: usize,
    pub end_line: usize,
    pub end_col: usize,
    /// The file of the cursor's location.
    pub file: Option<String>,
    pub children: Vec<ClangCursor>,
}

/// How a cursor is reported: its fact kind, name, USR, and whether it is a
/// container (whose children hang under it); `None` for a transparent
/// cursor.
pub open spec fn clang_class(c: ClangCursor) -> Option<(NodeKind, Seq<char>, Option<Seq<char>>, bool)> {
    match c.kind {
        CursorKind::FunctionDecl | CursorKind::CXXMethod => Some((NodeKind::Function, c.spelling@, Some(c.usr@), true)),
        CursorKind::ClassDecl | CursorKind::StructDecl => Some((NodeKind::Class, c.spelling@, Some(c.usr@), true)),
        CursorKind::CallExpr => Some(
            (
                NodeKind::CallSite,
                match c.referenced_spelling {
                    Some(s) => s@,
                    None => c.spelling@,
                },
                None,
                false,
            ),
        ),
        CursorKind::VarDecl => Some((NodeKind::Variable, c.spelling@, None, false)),
        CursorKind::ParmDecl => Some((NodeKind::Parameter, c.spelling@, None, false)),
        CursorKind::Other => None,
    }
}

/// The fact of a reported cursor.
pub open spec fn clang_fact(c: ClangCursor, kind: NodeKind, name: Seq<char>, usr: Option<Seq<char>>) -> RawNodeView {
    RawNodeView {
        language: Language::Cpp,
        kind,
        name: Some(name),
        usr,
        start_line: c.start_line as nat,
        start_col: c.start_col as nat,
        end_line: c.end_line as nat,
        end_col: c.end_col as nat,
        children: seq![],
        source_file: c.file.deep_view(),
    }
}

/// Facts after visiting cursor `c` with current parent fact `parent`, and
/// the parent fact for the cursor's next sibling: for a dropped cursor and
/// for a non-container, the parent stays; a container (and a transparent
/// cursor) hands on whatever parent its last child left.
pub open spec fn clang_visit(
    c: ClangCursor,
    facts: Seq<RawNodeView>,
    parent: Option<nat>,
    in_system: bool,
    allow_system: bool,
) -> (Seq<RawNodeView>, Option<nat>)
    decreases c, c.children@.len() + 2,
{
    let is_sys = c.in_system_header;
    if (!allow_system && is_sys) || (in_system && is_sys) {
        (facts, parent)
    } else {
        match clang_class(c) {
            Some((kind, name, usr, container)) => {
                let idx = facts.len();
                let f1 = add_child(facts.push(clang_fact(c, kind, name, usr)), parent, idx);
                if container {
                    clang_visit_children(c, 0, f1, Some(idx), in_system || is_sys, allow_system)
                } else {
                    (f1, parent)
                }
            },
            None => clang_visit_children(c, 0, facts, parent, in_system, allow_system),
        }
    }
}

/// Facts after visiting the children of `c` from the `k`-th on.
pub open spec fn clang_visit_children(
    c: ClangCursor,
    k: int,
    facts: Seq<RawNodeView>,
    cur: Option<nat>,
    in_system: bool,
    allow_system: bool,
) -> (Seq<RawNodeView>, Option<nat>)
    decreases c, c.children@.len() - k + 1,
{
    if k < 0 || k >= c.children@.len() {
        (facts, cur)
    } else {
        proof {
            assert(decreases_to!(c => c.children));
        }
        let r = clang_visit(c.children@[k], facts, cur, in_system, allow_system);
        clang_visit_children(c, k + 1, r.0, r.1, in_system, allow_system)
    }
}

/// What every fact from position `from` on is, as the cursor walk makes
/// it: the C++ language; a function or a class with a USR and children that
/// are later facts, or a call site, variable or parameter without a USR and
/// without children.
pub open spec fn clang_added_ok(s: Seq<RawNodeView>, from: int) -> bool {
    forall|i: int|
        from <= i < s.len() ==> {
            let f = #[trigger] s[i];
            &&& f.language == Language::Cpp
            &&& (f.kind == NodeKind::Function || f.kind == NodeKind::Class || f.kind == NodeKind::CallSite || f.kind
                == NodeKind::Variable || f.kind == NodeKind::Parameter)
            &&& (f.usr is Some <==> container_kind(f.kind))
            &&& (!container_kind(f.kind) ==> f.children.len() == 0)
            &&& forall|j: int| 0 <= j < f.children.len() ==> i < #[trigger] f.children[j] < s.len()
        }
}

proof fn lemma_clang_len(c: ClangCursor, facts: Seq<RawNodeView>, parent: Option<nat>, in_system: bool, allow_system: bool)
    ensures
        facts.len() <= clang_visit(c, facts, parent, in_system, allow_system).0.len(),
    decreases c, c.children@.len() + 2,
{
    let is_sys = c.in_system_header;
    if !((!allow_system && is_sys) || (in_system && is_sys)) {
        match clang_class(c) {
            Some((kind, name, usr, container)) => {
                let f1 = add_child(facts.push(clang_fact(c, kind, name, usr)), parent, facts.len());
                if container {
                    lemma_clang_children_len(c, 0, f1, Some(facts.len()), in_system || is_sys, allow_system);
                }
            },
            None => {
                lemma_clang_children_len(c, 0, facts, parent, in_system, allow_system);
            },
        }
    }
}

proof fn lemma_clang_children_len(
    c: ClangCursor,
    k: int,
    facts: Seq<RawNodeView>,
    cur: Option<nat>,
    in_system: bool,
    allow_system: bool,
)
    ensures
        facts.len() <= clang_visit_children(c, k, facts, cur, in_system, allow_system).0.len(),
    decreases c, c.children@.len() - k + 1,
{
    if 0 <= k < c.children@.len() {
        assert(decreases_to!(c => c.children));
        let r = clang_visit(c.children@[k], facts, cur, in_system, allow_system);
        lemma_clang_len(c.children@[k], facts, cur, in_system, allow_system);
        lemma_clang_children_len(c, k + 1, r.0, r.1, in_system, allow_system);
    }
}

proof fn lemma_clang_add(
    facts: Seq<RawNodeView>,
    parent: Option<nat>,
    from: int,
    c: ClangCursor,
    kind: NodeKind,
    name: Seq<char>,
    usr: Option<Seq<char>>,
)
    requires
        0 <= from <= facts.len(),
        facts.len() < usize::MAX,
        clang_added_ok(facts, from),
        parent_ok(parent, facts.len()),
        parent_container(facts, parent, from),
        clang_class(c) == Some((kind, name, usr, container_kind(kind))),
    ensures
        ({
            let f1 = add_child(facts.push(clang_fact(c, kind, name, usr)), parent, facts.len());
            &&& extends(facts, f1)
            &&& clang_added_ok(f1, from)
            &&& f1.len() == facts.len() + 1
            &&& forall|i: int| 0 <= i < f1.len() ==> (#[trigger] f1[i]).kind == facts.push(clang_fact(c, kind, name, usr))[i].kind
        }),
{
    let nf = clang_fact(c, kind, name, usr);
    let f0 = facts.push(nf);
    let f1 = add_child(f0, parent, facts.len());
    assert forall|i: int| 0 <= i < facts.len() implies {
        let a = #[trigger] facts[i];
        let b = f1[i];
        &&& b == RawNodeView { children: b.children, ..a }
        &&& a.children.len() <= b.children.len()
        &&& b.children.subrange(0, a.children.len() as int) == a.children
        &&& forall|j: int| a.children.len() <= j < b.children.len() ==> b.children[j] >= facts.len()
    } by {
        assert(f0[i] == facts[i]);
        match parent {
            Some(p) => {
                if i == p {
                    assert(f1[i].children =~= facts[i].children.push(facts.len() as usize));
                } else {
                    assert(f1[i] == facts[i]);
                }
            },
            None => {
                assert(f1[i] == facts[i]);
            },
        }
        assert(f1[i].children.subrange(0, facts[i].children.len() as int) =~= facts[i].children);
    }
    assert(extends(facts, f1));
    assert forall|i: int| from <= i < f1.len() implies {
        let f = #[trigger] f1[i];
        &&& f.language == Language::Cpp
        &&& (f.kind == NodeKind::Function || f.kind == NodeKind::Class || f.kind == NodeKind::CallSite || f.kind
            == NodeKind::Variable || f.kind == NodeKind::Parameter)
        &&& (f.usr is Some <==> container_kind(f.kind))
        &&& (!container_kind(f.kind) ==> f.children.len() == 0)
        &&& forall|j: int| 0 <= j < f.children.len() ==> i < #[trigger] f.children[j] < f1.len()
    } by {
        if i < facts.len() {
            let g = facts[i];
            assert forall|j: int| 0 <= j < f1[i].children.len() implies i < #[trigger] f1[i].children[j] < f1.len() by {
                if j < g.children.len() {
                    assert(f1[i].children[j] == g.children[j]);
                }
            }
        }
    }
}

proof fn lemma_clang_laws(
    c: ClangCursor,
    facts: Seq<RawNodeView>,
    parent: Option<nat>,
    in_system: bool,
    allow_system: bool,
    from: int,
)
    requires
        0 <= from <= facts.len(),
        clang_added_ok(facts, from),
        parent_ok(parent, facts.len()),
        parent_container(facts, parent, from),
        clang_visit(c, facts, parent, in_system, allow_system).0.len() <= usize::MAX,
    ensures
        ({
            let r = clang_visit(c, facts, parent, in_system, allow_system);
            &&& extends(facts, r.0)
            &&& clang_added_ok(r.0, from)
            &&& parent_ok(r.1, r.0.len())
            &&& parent_container(r.0, r.1, from)
        }),
    decreases c, c.children@.len() + 2,
{
    let is_sys = c.in_system_header;
    if (!allow_system && is_sys) || (in_system && is_sys) {
        lemma_extends_refl(facts);
    } else {
        match clang_class(c) {
            Some((kind, name, usr, container)) => {
                let idx = facts.len();
                let f1 = add_child(facts.push(clang_fact(c, kind, name, usr)), parent, idx);
                assert(f1.len() == facts.len() + 1);
                if container {
                    lemma_clang_children_len(c, 0, f1, Some(idx), in_system || is_sys, allow_system);
                    lemma_clang_add(facts, parent, from, c, kind, name, usr);
                    lemma_clang_children_laws(c, 0, f1, Some(idx), in_system || is_sys, allow_system, from);
                    let r = clang_visit_children(c, 0, f1, Some(idx), in_system || is_sys, allow_system).0;
                    lemma_extends_trans(facts, f1, r);
                } else {
                    lemma_clang_add(facts, parent, from, c, kind, name, usr);
                    match parent {
                        Some(p) => {
                            assert(f1[p as int].kind == facts[p as int].kind);
                        },
                        None => {},
                    }
                }
            },
            None => {
                lemma_clang_children_laws(c, 0, facts, parent, in_system, allow_system, from);
            },
        }
    }
}

proof fn lemma_clang_children_laws(
    c: ClangCursor,
    k: int,
    facts: Seq<RawNodeView>,
    cur: Option<nat>,
    in_system: bool,
    allow_system: bool,
    from: int,
)
    requires
        0 <= from <= facts.len(),
        clang_added_ok(facts, from),
        parent_ok(cur, facts.len()),
        parent_container(facts, cur, from),
        clang_visit_children(c, k, facts, cur, in_system, allow_system).0.len() <= usize::MAX,
    ensures
        ({
            let r = clang_visit_children(c, k, facts, cur, in_system, allow_system);
            &&& extends(facts, r.0)
            &&& clang_added_ok(r.0, from)
            &&& parent_ok(r.1, r.0.len())
            &&& parent_container(r.0, r.1, from)
        }),
    decreases c, c.children@.len() - k + 1,
{
    if k < 0 || k >= c.children@.len() {
        lemma_extends_refl(facts);
    } else {
        assert(decreases_to!(c => c.children));
        let r = clang_visit(c.children@[k], facts, cur, in_system, allow_system);
        lemma_clang_children_len(c, k + 1, r.0, r.1, in_system, allow_system);
        lemma_clang_laws(c.children@[k], facts, cur, in_system, allow_system, from);
        lemma_clang_children_laws(c, k + 1, r.0, r.1, in_system, allow_system, from);
        lemma_extends_trans(facts, r.0, clang_visit_children(c, k + 1, r.0, r.1, in_system, allow_system).0);
    }
}

/// The cursor walk only appends facts: the facts that were there stay as
/// they were, but for new children (later facts) at the end of a children
/// list; every appended fact is C++, a function or a class with a USR, or a
/// call site, variable or parameter without a USR and without children; its
/// children are later facts; and the returned parent is a fact.  A cursor
/// in a system header that is not allowed adds nothing.
pub proof fn lemma_clang_appends(
    c: ClangCursor,
    facts: Seq<RawNodeView>,
    parent: Option<nat>,
    in_system: bool,
    allow_system: bool,
)
    requires
        parent_ok(parent, facts.len()),
        clang_visit(c, facts, parent, in_system, allow_system).0.len() <= usize::MAX,
    ensures
        ({
            let r = clang_visit(c, facts, parent, in_system, allow_system);
            &&& extends(facts, r.0)
            &&& clang_added_ok(r.0, facts.len() as int)
            &&& parent_ok(r.1, r.0.len())
        }),
        c.in_system_header && !allow_system ==> clang_visit(c, facts, parent, in_system, allow_system) == (facts, parent),
{
    lemma_clang_laws(c, facts, parent, in_system, allow_system, facts.len() as int);
}

/// The facts of a translation unit's cursor tree.
pub open spec fn clang_facts_spec(root: ClangCursor, allow_system: bool) -> Seq<RawNodeView> {
    clang_visit(root, seq![], None, false, allow_system).0
}

fn copy_string(s: &String) -> (r: String)
    ensures
        r@ == s@,
{
    s.clone()
}

/// Append the fact of a reported cursor and register it as the last child
/// of `parent`; returns the new fact's index.
fn push_cursor(
    facts: &mut Vec<RawNode>,
    c: &ClangCursor,
    kind: NodeKind,
    name: String,
    usr: Option<String>,
    parent: Option<usize>,
) -> (idx: usize)
    requires
        parent_ok(idx_view(parent), old(facts)@.len()),
    ensures
        idx == old(facts)@.len(),
        final(facts)@.len() == old(facts)@.len() + 1,
        facts_view(final(facts)@) == add_child(
            facts_view(old(facts)@).push(clang_fact(*c, kind, name@, usr.deep_view())),
            idx_view(parent),
            idx as nat,
        ),
{
    let idx = facts.len();
    let file = match &c.file {
        Some(f) => Some(copy_string(f)),
        None => None,
    };
    let fact = RawNode {
        language: Language::Cpp,
        kind,
        name: Some(name),
        usr,
        start_line: c.start_line,
        start_col: c.start_col,
        end_line: c.end_line,
        end_col: c.end_col,
        children: Vec::new(),
        source_file: file,
    };
    let ghost before = facts_view(facts@);
    proof {
        assert(fact.children@ =~= Seq::<usize>::empty());
    }
    facts.push(fact);
    proof {
        assert(facts_view(facts@) =~= before.push(fact@));
    }
    match parent {
        Some(p) => {
            let mut updated = facts[p].duplicate();
            updated.children.push(idx);
            let ghost mid = facts_view(facts@);
            facts.set(p, updated);
            proof {
                assert(facts_view(facts@) =~= mid.update(
                    p as int,
                    RawNodeView { children: mid[p as int].children.push(idx), ..mid[p as int] },
                ));
            }
        },
        None => {},
    }
    idx
}

/// Visit a cursor (sub)tree and append its facts; returns the parent fact
/// for the cursor's next sibling.  The effect is exactly [`clang_visit`].
pub fn visit_cursor(
    c: &ClangCursor,
    facts: &mut Vec<RawNode>,
    parent: Option<usize>,
    in_system: bool,
    allow_system: bool,
) -> (r: Option<usize>)
    requires
        parent_ok(idx_view(parent), old(facts)@.len()),
    ensures
        (facts_view(final(facts)@), idx_view(r)) == clang_visit(
            *c,
            facts_view(old(facts)@),
            idx_view(parent),
            in_system,
            allow_system,
        ),
        final(facts)@.len() >= old(facts)@.len(),
        parent_ok(idx_view(r), final(facts)@.len()),
    decreases *c, c.children@.len() + 2,
{
    let is_sys = c.in_system_header;
    if (!allow_system && is_sys) || (in_system && is_sys) {
        return parent;
    }
    let class: Option<(NodeKind, String, Option<String>, bool)> = match c.kind {
        CursorKind::FunctionDecl | CursorKind::CXXMethod => Some(
            (NodeKind::Function, copy_string(&c.spelling), Some(copy_string(&c.usr)), true),
        ),
        CursorKind::ClassDecl | CursorKind::StructDecl => Some(
            (NodeKind::Class, copy_string(&c.spelling), Some(copy_string(&c.usr)), true),
        ),
        CursorKind::CallExpr => {
            let name = match &c.referenced_spelling {
                Some(s) => copy_string(s),
                None => copy_string(&c.spelling),
            };
            Some((NodeKind::CallSite, name, None, false))
        },
        CursorKind::VarDecl => Some((NodeKind::Variable, copy_string(&c.spelling), None, false)),
        CursorKind::ParmDecl => Some((NodeKind::Parameter, copy_string(&c.spelling), None, false)),
        CursorKind::Other => None,
    };
    match class {
        Some((kind, name, usr, container)) => {
            let idx = push_cursor(facts, c, kind, name, usr, parent);
            if container {
                visit_cursor_children(c, facts, Some(idx), in_system || is_sys, allow_system)
            } else {
                parent
            }
        },
        None => visit_cursor_children(c, facts, parent, in_system, allow_system),
    }
}

/// Visit the children of `c` in order, threading the current parent.
fn visit_cursor_children(
    c: &ClangCursor,
    facts: &mut Vec<RawNode>,
    parent: Option<usize>,
    in_system: bool,
    allow_system: bool,
) -> (r: Option<usize>)
    requires
        parent_ok(idx_view(parent), old(facts)@.len()),
    ensures
        (facts_view(final(facts)@), idx_view(r)) == clang_visit_children(
            *c,
            0,
            facts_view(old(facts)@),
            idx_view(parent),
            in_system,
            allow_system,
        ),
        final(facts)@.len() >= old(facts)@.len(),
        parent_ok(idx_view(r), final(facts)@.len()),
    decreases *c, c.children@.len() + 1,
{
    let mut current = parent;
    let mut k: usize = 0;
    let ghost start = facts_view(facts@);
    let ghost start_len = facts@.len();
    while k < c.children.len()
        invariant
            k <= c.children.len(),
            parent_ok(idx_view(current), facts@.len()),
            facts@.len() >= start_len,
            clang_visit_children(*c, k as int, facts_view(facts@), idx_view(current), in_system, allow_system)
                == clang_visit_children(*c, 0, start, idx_view(parent), in_system, allow_system),
        decreases c.children.len() - k,
    {
        current = visit_cursor(&c.children[k], facts, current, in_system, allow_system);
        k = k + 1;
    }
    current
}

/// The facts of a translation unit, given its root cursor tree: a pre-order
/// walk that starts outside any system header (see [`clang_visit`]).
pub fn clang_facts(root: &ClangCursor, allow_system: bool) -> (facts: Vec<RawNode>)
    ensures
        facts_view(facts@) == clang_facts_spec(*root, allow_system),
{
    let mut facts: Vec<RawNode> = Vec::new();
    proof {
        assert(facts_view(facts@) =~= Seq::<RawNodeView>::empty());
    }
    let _ = visit_cursor(root, &mut facts, None, false, allow_system);
    facts
}

/// The words of a text: its maximal runs of non-whitespace characters, as
/// `str::split_whitespace` defines them.
pub uninterp spec fn whitespace_words(s: Seq<char>) -> Seq<Seq<char>>;

/// A text without leading and trailing whitespace, as `str::trim` defines it.
pub uninterp spec fn trimmed(s: Seq<char>) -> Seq<char>;

/// Whether a path is absolute, as `std::path::Path::is_absolute` defines it.
pub uninterp spec fn path_is_absolute(p: Seq<char>) -> bool;

/// A path joined onto a base, as `std::path::Path::join` defines it.
pub uninterp spec fn path_joined(base: Seq<char>, p: Seq<char>) -> Seq<char>;

/// `str::split_whitespace`, each word copied into a `String`.
#[verifier::external_body]
fn split_words(s: &str) -> (r: Vec<String>)
    ensures
        r@.map_values(|w: String| w@) == whitespace_words(s@),
{
    s.split_whitespace().map(|w| w.to_string()).collect()
}

/// `str::trim`.
#[verifier::external_body]
fn trim_text(s: &str) -> (r: &str)
    ensures
        r@ == trimmed(s@),
{
    s.trim()
}

/// `std::path::Path::is_absolute` of a path given as a string.
#[verifier::external_body]
fn is_absolute(p: &str) -> (r: bool)
    ensures
        r == path_is_absolute(p@),
{
    std::path::Path::new(p).is_absolute()
}

/// `std::path::Path::join` of paths given as strings.
#[verifier::external_body]
fn join_path(base: &str, p: &str) -> (r: String)
    ensures
        r@ == path_joined(base@, p@),
{
    std::path::Path::new(base).join(p).to_string_lossy().to_string()
}

/// A single entry of a Clang compilation database.
pub struct CompileCommandEntry {
    /// The main source file of this compilation step.
    pub file: String,
    /// The compiler command line as one string.
    pub command: Option<String>,
    /// The compiler command line as a list of arguments.
    pub arguments: Option<Vec<String>>,
}

/// The compiler arguments of an entry: its argument list if it has one,
/// else the words of its command, else none.
pub open spec fn entry_args(e: CompileCommandEntry) -> Seq<Seq<char>> {
    match e.arguments {
        Some(a) => a@.map_values(|w: String| w@),
        None => match e.command {
            Some(c) => whitespace_words(c@),
            None => seq![],
        },
    }
}

/// The compiler arguments of a compilation database entry (see
/// [`entry_args`]).
pub fn extract_args(entry: &CompileCommandEntry) -> (r: Vec<String>)
    ensures
        r@.map_values(|w: String| w@) == entry_args(*entry),
{
    match &entry.arguments {
        Some(arguments) => {
            let mut out: Vec<String> = Vec::new();
            let mut i: usize = 0;
            while i < arguments.len()
                invariant
                    i <= arguments@.len(),
                    out@.map_values(|w: String| w@) == arguments@.map_values(|w: String| w@).take(i as int),
                decreases arguments@.len() - i,
            {
                let ghost before = out@;
                out.push(arguments[i].clone());
                i = i + 1;
                proof {
                    assert(out@.map_values(|w: String| w@) =~= before.map_values(|w: String| w@).push(arguments@[i - 1]@));
                    assert(out@.map_values(|w: String| w@) =~= arguments@.map_values(|w: String| w@).take(i as int));
                }
            }
            proof {
                assert(arguments@.map_values(|w: String| w@).take(arguments@.len() as int) =~= arguments@.map_values(
                    |w: String| w@,
                ));
            }
            out
        },
        None => match &entry.command {
            Some(command) => split_words(command.as_str()),
            None => {
                let out: Vec<String> = Vec::new();
                assert(out@.map_values(|w: String| w@) =~= Seq::<Seq<char>>::empty());
                out
            },
        },
    }
}

/// The path of an entry's file: the trimmed file name if it is absolute,
/// else joined onto `base`.
pub fn resolve_file_path(file: &str, base: &str) -> (r: String)
    ensures
        r@ == if path_is_absolute(trimmed(file@)) {
            trimmed(file@)
        } else {
            path_joined(base@, trimmed(file@))
        },
{
    let path = trim_text(file);
    if is_absolute(path) {
        path.to_owned()
    } else {
        join_path(base, path)
    }
}

/// The extensions of the C/C++ sources that a directory walk collects.
pub open spec fn cpp_source_extensions() -> Seq<Seq<char>> {
    seq!["c"@, "cpp"@, "cc"@, "cxx"@, "h"@, "hpp"@]
}

/// Whether a path names a C/C++ source: its extension, in lowercase, is one
/// of [`cpp_source_extensions`].
pub fn is_cpp_source(path: &str) -> (r: bool)
    ensures
        r == crate::manager::included(path@, cpp_source_extensions()),
{
    let exts: [&str; 6] = ["c", "cpp", "cc", "cxx", "h", "hpp"];
    let r = crate::manager::should_include(path, exts.as_slice());
    proof {
        assert(crate::manager::str_views(exts@) =~= cpp_source_extensions());
    }
    r
}

} // verus!
