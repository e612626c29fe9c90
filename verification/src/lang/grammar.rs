//! Running the tree-sitter parsers and reading their trees into
//! [`SyntaxNode`] values.
//!
//! A parsed tree is read node by node in pre-order (tree-sitter's descendant
//! order): each node is reported as a [`TsNode`], and the [`SyntaxNode`] tree
//! is rebuilt from those records by the child counts they carry.

use vstd::prelude::*;
use vstd::string::StringSliceAdditionalSpecFns;
use crate::common::IcbError;
use crate::facts::{RawNode, facts_view};
use crate::lang::common::{added_ok, lemma_traverse_appends, SyntaxNode, Frontend, syntax_wf, max_row, max_row_from, traverse_spec, traverse_node, copy_text};

verus! {

broadcast use vstd::utf8::encode_utf8_decode_utf8;

#[verifier::external_type_specification]
#[verifier::external_body]
pub struct ExTree(tree_sitter::Tree);

/// What tree-sitter reports of one node of a tree: its kind, the field under
/// which it hangs from its parent, its start and end byte, its start row and
/// column, its end row and column, its number of children, and whether it is
/// an error node and whether it is a missing node.
pub type TsNode = (Seq<char>, Option<Seq<char>>, nat, nat, nat, nat, nat, nat, nat, bool, bool);

/// The nodes of a tree-sitter tree in pre-order, as [`TsNode`] records.
pub uninterp spec fn tree_nodes(t: tree_sitter::Tree) -> Seq<TsNode>;

/// The nodes of the tree that tree-sitter-python builds for the source bytes.
pub uninterp spec fn python_syntax(src: Seq<u8>) -> Seq<TsNode>;

/// The nodes of the tree that tree-sitter-go builds for the source bytes.
pub uninterp spec fn go_syntax(src: Seq<u8>) -> Seq<TsNode>;

/// The nodes of the tree that tree-sitter-ruby builds for the source bytes.
pub uninterp spec fn ruby_syntax(src: Seq<u8>) -> Seq<TsNode>;

/// The nodes of the tree that tree-sitter-rust builds for the source bytes.
pub uninterp spec fn rust_syntax(src: Seq<u8>) -> Seq<TsNode>;

/// The nodes of the tree that tree-sitter-cpp builds for the source bytes.
pub uninterp spec fn cpp_syntax(src: Seq<u8>) -> Seq<TsNode>;

/// The nodes of the tree that the grammar of a frontend builds for the
/// source bytes.
pub open spec fn grammar_syntax(fe: Frontend, src: Seq<u8>) -> Seq<TsNode> {
    match fe {
        Frontend::Python { .. } => python_syntax(src),
        Frontend::Go => go_syntax(src),
        Frontend::Ruby => ruby_syntax(src),
        Frontend::Rust => rust_syntax(src),
        Frontend::Cpp => cpp_syntax(src),
    }
}

/// `tree_sitter::Parser::new`, `Parser::set_language` with
/// `tree_sitter_python::LANGUAGE`, and `Parser::parse` of the whole text
/// without an old tree.  The grammar's ABI version lies in the range that
/// this tree-sitter accepts, so the language is set, and `parse` gives no
/// tree only without a language: the result is the tree of the text.
#[verifier::external_body]
fn parse_python_tree(source: &str) -> (t: tree_sitter::Tree)
    ensures
        tree_nodes(t) == python_syntax(source.spec_bytes()),
{
    let mut parser = tree_sitter::Parser::new();
    parser.set_language(&tree_sitter_python::LANGUAGE.into()).expect("grammar ABI version in range");
    parser.parse(source, None).expect("language set")
}

/// As [`parse_python_tree`], with `tree_sitter_go::LANGUAGE`.
#[verifier::external_body]
fn parse_go_tree(source: &str) -> (t: tree_sitter::Tree)
    ensures
        tree_nodes(t) == go_syntax(source.spec_bytes()),
{
    let mut parser = tree_sitter::Parser::new();
    parser.set_language(&tree_sitter_go::LANGUAGE.into()).expect("grammar ABI version in range");
    parser.parse(source, None).expect("language set")
}

/// As [`parse_python_tree`], with `tree_sitter_ruby::LANGUAGE`.
#[verifier::external_body]
fn parse_ruby_tree(source: &str) -> (t: tree_sitter::Tree)
    ensures
        tree_nodes(t) == ruby_syntax(source.spec_bytes()),
{
    let mut parser = tree_sitter::Parser::new();
    parser.set_language(&tree_sitter_ruby::LANGUAGE.into()).expect("grammar ABI version in range");
    parser.parse(source, None).expect("language set")
}

/// As [`parse_python_tree`], with `tree_sitter_rust::LANGUAGE`.
#[verifier::external_body]
fn parse_rust_tree(source: &str) -> (t: tree_sitter::Tree)
    ensures
        tree_nodes(t) == rust_syntax(source.spec_bytes()),
{
    let mut parser = tree_sitter::Parser::new();
    parser.set_language(&tree_sitter_rust::LANGUAGE.into()).expect("grammar ABI version in range");
    parser.parse(source, None).expect("language set")
}

/// As [`parse_python_tree`], with `tree_sitter_cpp::LANGUAGE`.
#[verifier::external_body]
fn parse_cpp_tree(source: &str) -> (t: tree_sitter::Tree)
    ensures
        tree_nodes(t) == cpp_syntax(source.spec_bytes()),
{
    let mut parser = tree_sitter::Parser::new();
    parser.set_language(&tree_sitter_cpp::LANGUAGE.into()).expect("grammar ABI version in range");
    parser.parse(source, None).expect("language set")
}

/// The tree of the text under the grammar of a frontend.
fn parse_source(fe: Frontend, source: &str) -> (t: tree_sitter::Tree)
    ensures
        tree_nodes(t) == grammar_syntax(fe, source.spec_bytes()),
{
    match fe {
        Frontend::Python { .. } => parse_python_tree(source),
        Frontend::Go => parse_go_tree(source),
        Frontend::Ruby => parse_ruby_tree(source),
        Frontend::Rust => parse_rust_tree(source),
        Frontend::Cpp => parse_cpp_tree(source),
    }
}

/// `tree_sitter::Node::descendant_count` of the root node
/// (`Tree::root_node`): the number of nodes of the tree.
#[verifier::external_body]
fn tree_node_count(t: &tree_sitter::Tree) -> (r: usize)
    ensures
        r == tree_nodes(*t).len(),
{
    t.root_node().descendant_count()
}

/// One node of a tree, as plain values (see [`TsNode`]).
pub struct TsNodeInfo {
    pub kind: String,
    pub field: Option<String>,
    pub start_byte: usize,
    pub end_byte: usize,
    pub start_row: usize,
    pub start_col: usize,
    pub end_row: usize,
    pub end_col: usize,
    pub child_count: usize,
    pub is_error: bool,
    pub is_missing: bool,
}

impl View for TsNodeInfo {
    type V = TsNode;

    open spec fn view(&self) -> TsNode {
        (
            self.kind@,
            self.field.deep_view(),
            self.start_byte as nat,
            self.end_byte as nat,
            self.start_row as nat,
            self.start_col as nat,
            self.end_row as nat,
            self.end_col as nat,
            self.child_count as nat,
            self.is_error,
            self.is_missing,
        )
    }
}

/// Node `i` of a tree in pre-order: a cursor from `tree_sitter::Tree::walk`
/// moved by `TreeCursor::goto_descendant`, then `TreeCursor::field_name` and
/// the node's `kind`, `start_byte`, `end_byte`, `start_position`,
/// `end_position`, `child_count`, `is_error` and `is_missing`.
#[verifier::external_body]
fn tree_node(t: &tree_sitter::Tree, i: usize) -> (r: TsNodeInfo)
    requires
        i < tree_nodes(*t).len(),
    ensures
        r@ == tree_nodes(*t)[i as int],
{
    let mut c = t.walk();
    c.goto_descendant(i);
    let n = c.node();
    let field = match c.field_name() {
        Some(f) => Some(f.to_string()),
        None => None,
    };
    let (s, e) = (n.start_position(), n.end_position());
    TsNodeInfo {
        kind: n.kind().to_string(), field, start_byte: n.start_byte(), end_byte: n.end_byte(),
        start_row: s.row, start_col: s.column, end_row: e.row, end_col: e.column,
        child_count: n.child_count() as usize, is_error: n.is_error(), is_missing: n.is_missing(),
    }
}

/// `std::str::from_utf8`, copied into a `String`: `Some` exactly when the
/// bytes are valid UTF-8, and then the string encodes to those bytes.
#[verifier::external_body]
fn utf8_string(bytes: &[u8]) -> (r: Option<String>)
    ensures
        r is Some <==> vstd::utf8::valid_utf8(bytes@),
        r matches Some(s) ==> vstd::utf8::encode_utf8(s@) == bytes@,
{
    match std::str::from_utf8(bytes) {
        Ok(s) => Some(s.to_string()),
        Err(_) => None,
    }
}

/// The records of a list of nodes.
pub open spec fn nodes_view(v: Seq<TsNodeInfo>) -> Seq<TsNode> {
    v.map_values(|x: TsNodeInfo| x@)
}

/// All nodes of a tree in pre-order.
fn tree_records(tree: &tree_sitter::Tree) -> (r: Vec<TsNodeInfo>)
    ensures
        nodes_view(r@) == tree_nodes(*tree),
{
    let n = tree_node_count(tree);
    let mut r: Vec<TsNodeInfo> = Vec::new();
    let mut i: usize = 0;
    while i < n
        invariant
            i <= n,
            n == tree_nodes(*tree).len(),
            nodes_view(r@) == tree_nodes(*tree).take(i as int),
        decreases n - i,
    {
        let info = tree_node(tree, i);
        let ghost before = r@;
        r.push(info);
        proof {
            assert(nodes_view(r@) =~= nodes_view(before).push(info@));
            assert(tree_nodes(*tree).take(i + 1) =~= tree_nodes(*tree).take(i as int).push(tree_nodes(*tree)[i as int]));
        }
        i = i + 1;
    }
    proof {
        assert(tree_nodes(*tree).take(n as int) =~= tree_nodes(*tree));
    }
    r
}

/// The text of the source bytes from `a` to `b`, when that range lies in
/// the source and holds valid UTF-8.
pub open spec fn text_of(src: Seq<u8>, a: nat, b: nat) -> Option<Seq<char>> {
    if a <= b && b <= src.len() && vstd::utf8::valid_utf8(src.subrange(a as int, b as int)) {
        Some(vstd::utf8::decode_utf8(src.subrange(a as int, b as int)))
    } else {
        None
    }
}

/// The text of a byte range of the source (see [`text_of`]).
fn text_of_range(source: &str, a: usize, b: usize) -> (r: Option<String>)
    ensures
        r.deep_view() == text_of(source.spec_bytes(), a as nat, b as nat),
{
    let bytes = source.as_bytes();
    if a <= b && b <= bytes.len() {
        let piece = vstd::slice::slice_subrange(bytes, a, b);
        let r = utf8_string(piece);
        proof {
            assert(bytes@.subrange(a as int, b as int) == piece@);
            if r is Some {
                let s = r->Some_0;
                assert(vstd::utf8::decode_utf8(vstd::utf8::encode_utf8(s@)) == s@);
            }
        }
        r
    } else {
        None
    }
}

/// Rows small enough that the 1-based line numbers stay representable.
pub open spec fn rows_fit(n: TsNode) -> bool {
    n.4 < usize::MAX && n.6 < usize::MAX
}

/// Where the subtree of node `i` ends in the pre-order records `ns`: the
/// node, then its children one subtree after the other.  `None` when the
/// records run out or a row is too large.
pub open spec fn node_end(ns: Seq<TsNode>, i: nat) -> Option<nat>
    decreases ns.len() - i, 1int,
{
    if i < ns.len() && rows_fit(ns[i as int]) {
        kids_end(ns, ns[i as int].8, i + 1)
    } else {
        None
    }
}

/// Where `k` consecutive subtrees starting at record `p` end.
pub open spec fn kids_end(ns: Seq<TsNode>, k: nat, p: nat) -> Option<nat>
    decreases ns.len() - p, 2int,
{
    if k == 0 {
        Some(p)
    } else if p < ns.len() {
        match node_end(ns, p) {
            Some(q) => if p < q && q <= ns.len() {
                kids_end(ns, (k - 1) as nat, q)
            } else {
                None
            },
            None => None,
        }
    } else {
        None
    }
}

proof fn lemma_kids_end_range(ns: Seq<TsNode>, k: nat, p: nat)
    requires
        p <= ns.len(),
    ensures
        kids_end(ns, k, p) matches Some(q) ==> p <= q <= ns.len(),
    decreases ns.len() - p,
{
    if k > 0 && p < ns.len() {
        match node_end(ns, p) {
            Some(q) => if p < q && q <= ns.len() {
                lemma_kids_end_range(ns, (k - 1) as nat, q);
            },
            None => {},
        }
    }
}

proof fn lemma_node_end_range(ns: Seq<TsNode>, i: nat)
    ensures
        node_end(ns, i) matches Some(q) ==> i < q <= ns.len(),
{
    if i < ns.len() && rows_fit(ns[i as int]) {
        lemma_kids_end_range(ns, ns[i as int].8, i + 1);
    }
}

/// The syntax node `t` is node `i` of the records `ns` over the source bytes
/// `src`: kind, field, positions and number of children as recorded, its
/// text the source text of its byte range, and its children the subtrees
/// that follow it, one after the other.
pub open spec fn reads_node(t: SyntaxNode, ns: Seq<TsNode>, src: Seq<u8>, i: nat) -> bool
    decreases t, t.children@.len() + 1,
{
    &&& i < ns.len()
    &&& rows_fit(ns[i as int])
    &&& t.kind@ == ns[i as int].0
    &&& t.field.deep_view() == ns[i as int].1
    &&& t.text.deep_view() == text_of(src, ns[i as int].2, ns[i as int].3)
    &&& t.start_row == ns[i as int].4
    &&& t.start_col == ns[i as int].5
    &&& t.end_row == ns[i as int].6
    &&& t.end_col == ns[i as int].7
    &&& t.children@.len() == ns[i as int].8
    &&& reads_kids(t, ns, src, 0, i + 1) is Some
}

/// Where the children of `t` from the `k`-th on end, read one subtree after
/// the other from record `p`; `None` when one of them is not the subtree
/// there.
pub open spec fn reads_kids(t: SyntaxNode, ns: Seq<TsNode>, src: Seq<u8>, k: int, p: nat) -> Option<nat>
    decreases t, t.children@.len() - k,
{
    if k < 0 || k >= t.children@.len() {
        Some(p)
    } else {
        proof {
            assert(decreases_to!(t => t.children));
        }
        if reads_node(t.children@[k], ns, src, p) {
            match node_end(ns, p) {
                Some(q) => reads_kids(t, ns, src, k + 1, q),
                None => None,
            }
        } else {
            None
        }
    }
}

proof fn lemma_reads_kids_chain(t: SyntaxNode, ns: Seq<TsNode>, src: Seq<u8>, starts: Seq<nat>, k: int)
    requires
        starts.len() == t.children@.len() + 1,
        0 <= k <= t.children@.len(),
        forall|m: int|
            0 <= m < t.children@.len() ==> reads_node(#[trigger] t.children@[m], ns, src, starts[m]) && node_end(
                ns,
                starts[m],
            ) == Some(starts[m + 1]),
    ensures
        reads_kids(t, ns, src, k, starts[k]) == Some(starts[t.children@.len() as int]),
    decreases t.children@.len() - k,
{
    if k < t.children@.len() {
        assert(reads_node(t.children@[k], ns, src, starts[k]));
        lemma_reads_kids_chain(t, ns, src, starts, k + 1);
    }
}

/// Read node `i` of the tree, and its subtree, into a [`SyntaxNode`], with
/// the index where its subtree ends (see [`reads_node`] and [`node_end`]).
fn read_node(nodes: &Vec<TsNodeInfo>, source: &str, i: usize) -> (r: Option<(SyntaxNode, usize)>)
    requires
        i <= nodes@.len(),
    ensures
        match r {
            Some((t, j)) => node_end(nodes_view(nodes@), i as nat) == Some(j as nat) && reads_node(
                t,
                nodes_view(nodes@),
                source.spec_bytes(),
                i as nat,
            ),
            None => node_end(nodes_view(nodes@), i as nat) is None,
        },
    decreases nodes@.len() - i,
{
    let ghost ns = nodes_view(nodes@);
    let ghost src = source.spec_bytes();
    let n = nodes.len();
    if i >= n {
        return None;
    }
    let info = &nodes[i];
    assert(info@ == ns[i as int]);
    if !(info.start_row < usize::MAX && info.end_row < usize::MAX) {
        return None;
    }
    let text = text_of_range(source, info.start_byte, info.end_byte);
    let count = info.child_count;
    let mut children: Vec<SyntaxNode> = Vec::new();
    let mut p: usize = i + 1;
    let mut k: usize = 0;
    let ghost mut starts: Seq<nat> = seq![(i + 1) as nat];
    while k < count
        invariant
            i < n,
            n == ns.len(),
            ns == nodes_view(nodes@),
            n == nodes@.len(),
            info@ == ns[i as int],
            src == source.spec_bytes(),
            i + 1 <= p <= n,
            k <= count,
            count == ns[i as int].8,
            rows_fit(ns[i as int]),
            children@.len() == k,
            starts.len() == k + 1,
            starts[0] == i + 1,
            starts[k as int] == p,
            kids_end(ns, count as nat, (i + 1) as nat) == kids_end(ns, (count - k) as nat, p as nat),
            forall|m: int|
                0 <= m < k ==> reads_node(#[trigger] children@[m], ns, src, starts[m]) && node_end(ns, starts[m])
                    == Some(starts[m + 1]),
        decreases count - k,
    {
        match read_node(nodes, source, p) {
            None => {
                proof {
                    assert(kids_end(ns, (count - k) as nat, p as nat) is None);
                }
                return None;
            },
            Some((c, q)) => {
                proof {
                    lemma_node_end_range(ns, p as nat);
                }
                children.push(c);
                proof {
                    starts = starts.push(q as nat);
                }
                p = q;
                k = k + 1;
            },
        }
    }
    let t = SyntaxNode {
        kind: crate::text::owned(info.kind.as_str()),
        field: copy_text(&info.field),
        text,
        start_row: info.start_row,
        start_col: info.start_col,
        end_row: info.end_row,
        end_col: info.end_col,
        children,
    };
    proof {
        lemma_reads_kids_chain(t, ns, src, starts, 0);
        assert(t.children@ == children@);
        assert(kids_end(ns, 0, p as nat) == Some(p as nat));
        assert(node_end(ns, i as nat) == Some(p as nat));
        assert(reads_node(t, ns, src, i as nat));
    }
    Some((t, p))
}

proof fn lemma_reads_rows(t: SyntaxNode, ns: Seq<TsNode>, src: Seq<u8>, i: nat)
    requires
        reads_node(t, ns, src, i),
    ensures
        max_row(t) < usize::MAX,
    decreases t, t.children@.len() + 1,
{
    lemma_kids_rows(t, ns, src, 0, i + 1);
}

proof fn lemma_kids_rows(t: SyntaxNode, ns: Seq<TsNode>, src: Seq<u8>, k: int, p: nat)
    requires
        0 <= k,
        reads_kids(t, ns, src, k, p) is Some,
    ensures
        max_row_from(t, k) < usize::MAX,
    decreases t, t.children@.len() - k,
{
    if k < t.children@.len() {
        assert(decreases_to!(t => t.children));
        lemma_reads_rows(t.children@[k], ns, src, p);
        let q = node_end(ns, p)->Some_0;
        lemma_kids_rows(t, ns, src, k + 1, q);
    }
}

/// Whether some node of the records is an error node or a missing node,
/// the marks of a syntax error.
pub open spec fn has_syntax_error(ns: Seq<TsNode>) -> bool {
    exists|k: int| 0 <= k < ns.len() && ((#[trigger] ns[k]).9 || ns[k].10)
}

/// Whether some node of a list is an error node or a missing node.
fn nodes_have_error(nodes: &Vec<TsNodeInfo>) -> (r: bool)
    ensures
        r == has_syntax_error(nodes_view(nodes@)),
{
    let ghost ns = nodes_view(nodes@);
    let mut i: usize = 0;
    while i < nodes.len()
        invariant
            i <= nodes@.len(),
            ns == nodes_view(nodes@),
            forall|k: int| 0 <= k < i ==> !((#[trigger] ns[k]).9 || ns[k].10),
        decreases nodes.len() - i,
    {
        if nodes[i].is_error || nodes[i].is_missing {
            proof {
                assert(ns[i as int] == nodes@[i as int]@);
            }
            return true;
        }
        proof {
            assert(ns[i as int] == nodes@[i as int]@);
        }
        i = i + 1;
    }
    false
}

/// The syntax tree of pre-order node records over a source text: the tree
/// read from the first record (see [`reads_node`]), or `None` when the
/// records do not form a tree whose rows fit (see [`node_end`]).
pub fn syntax_from_nodes(nodes: &Vec<TsNodeInfo>, source: &str) -> (r: Option<SyntaxNode>)
    ensures
        match r {
            Some(t) => {
                &&& node_end(nodes_view(nodes@), 0) is Some
                &&& reads_node(t, nodes_view(nodes@), source.spec_bytes(), 0)
                &&& syntax_wf(t)
            },
            None => node_end(nodes_view(nodes@), 0) is None,
        },
{
    match read_node(nodes, source, 0) {
        Some((t, _)) => {
            proof {
                lemma_reads_rows(t, nodes_view(nodes@), source.spec_bytes(), 0);
            }
            Some(t)
        },
        None => None,
    }
}

/// The facts of a whole syntax tree, as a frontend reports them.
pub open spec fn tree_facts(fe: Frontend, tree: SyntaxNode) -> Seq<crate::facts::RawNodeView> {
    traverse_spec(fe, tree, None, seq![], None).0
}

/// The facts that a frontend reports for a syntax tree.
pub fn facts_from_tree(fe: Frontend, tree: &SyntaxNode) -> (facts: Vec<RawNode>)
    requires
        syntax_wf(*tree),
    ensures
        facts_view(facts@) == tree_facts(fe, *tree),
{
    let mut facts: Vec<RawNode> = Vec::new();
    proof {
        assert(facts_view(facts@) =~= Seq::<crate::facts::RawNodeView>::empty());
    }
    let _ = traverse_node(tree, &mut facts, None, fe, None);
    facts
}

/// What a frontend gives for pre-order node records `ns` of a tree over the
/// source bytes `src`: the facts of the tree they form when they form one
/// (and, where syntax errors are refused, none of them marks one), else a
/// parse error that says which.
pub open spec fn nodes_result(
    fe: Frontend,
    ns: Seq<TsNode>,
    src: Seq<u8>,
    refuse_errors: bool,
    r: Result<Vec<RawNode>, IcbError>,
) -> bool {
    match r {
        Ok(facts) => {
            &&& node_end(ns, 0) is Some
            &&& !(refuse_errors && has_syntax_error(ns))
            &&& exists|t: SyntaxNode| reads_node(t, ns, src, 0) && facts_view(facts@) == tree_facts(fe, t)
        },
        Err(e) => match e {
            IcbError::Parse(m) => if node_end(ns, 0) is None {
                m@ == "syntax tree could not be read"@
            } else {
                refuse_errors && has_syntax_error(ns) && m@ == "source contains syntax errors"@
            },
            _ => false,
        },
    }
}

/// What a frontend gives for the source bytes `src`: [`nodes_result`] on the
/// nodes of the tree that its grammar builds for them.
pub open spec fn frontend_result(fe: Frontend, src: Seq<u8>, refuse_errors: bool, r: Result<Vec<RawNode>, IcbError>) -> bool {
    nodes_result(fe, grammar_syntax(fe, src), src, refuse_errors, r)
}

/// The facts that a frontend reports for pre-order node records over a
/// source text (see [`nodes_result`]).  With `refuse_errors`, records that
/// mark a syntax error give a parse error.
pub fn facts_from_nodes(fe: Frontend, nodes: &Vec<TsNodeInfo>, source: &str, refuse_errors: bool) -> (r: Result<
    Vec<RawNode>,
    IcbError,
>)
    ensures
        nodes_result(fe, nodes_view(nodes@), source.spec_bytes(), refuse_errors, r),
{
    match syntax_from_nodes(nodes, source) {
        Some(tree) => {
            if refuse_errors && nodes_have_error(nodes) {
                return Err(IcbError::Parse(crate::text::owned("source contains syntax errors")));
            }
            let facts = facts_from_tree(fe, &tree);
            Ok(facts)
        },
        None => Err(IcbError::Parse(crate::text::owned("syntax tree could not be read"))),
    }
}

/// Parse a source text with a frontend: the facts of the grammar's tree of
/// the text (see [`frontend_result`]).  With `refuse_errors`, a tree that
/// marks a syntax error gives a parse error.
pub fn parse_with(fe: Frontend, source: &str, refuse_errors: bool) -> (r: Result<Vec<RawNode>, IcbError>)
    ensures
        frontend_result(fe, source.spec_bytes(), refuse_errors, r),
{
    let tree = parse_source(fe, source);
    let nodes = tree_records(&tree);
    facts_from_nodes(fe, &nodes, source, refuse_errors)
}

/// Every fact of a syntax tree is as its frontend makes it (see
/// [`added_ok`]): the frontend's language, no USR, one of the frontend's
/// kinds, lines counted from 1, children only for containers, and children
/// that are later facts.
pub proof fn lemma_tree_facts_shape(fe: Frontend, tree: SyntaxNode)
    requires
        tree_facts(fe, tree).len() <= usize::MAX,
    ensures
        added_ok(fe, tree_facts(fe, tree), 0),
{
    lemma_traverse_appends(fe, tree, None, seq![], None);
}

/// What a frontend returns on success has the shape of [`lemma_tree_facts_shape`].
pub proof fn lemma_frontend_facts_shape(fe: Frontend, src: Seq<u8>, refuse_errors: bool, r: Result<Vec<RawNode>, IcbError>)
    requires
        frontend_result(fe, src, refuse_errors, r),
    ensures
        r matches Ok(f) ==> added_ok(fe, facts_view(f@), 0),
{
    if r is Ok {
        let f = r->Ok_0;
        let ns = grammar_syntax(fe, src);
        let t = choose|t: SyntaxNode| reads_node(t, ns, src, 0) && facts_view(f@) == tree_facts(fe, t);
        assert(facts_view(f@).len() == f@.len());
        assert(f.len() == f@.len());
        lemma_tree_facts_shape(fe, t);
    }
}

} // verus!
