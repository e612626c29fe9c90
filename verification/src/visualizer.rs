//! Graphviz export of the call graph.

use vstd::prelude::*;
use crate::common::{NodeKind, is_definition_kind, is_definition};
use crate::graph::{CodePropertyGraph, CpgView, Edge, NodeView, triple_nat};
use crate::analysis::shown_name;

verus! {

/// The character of a decimal digit.
pub open spec fn digit_char(d: nat) -> char {
    if d == 0 {
        '0'
    } else if d == 1 {
        '1'
    } else if d == 2 {
        '2'
    } else if d == 3 {
        '3'
    } else if d == 4 {
        '4'
    } else if d == 5 {
        '5'
    } else if d == 6 {
        '6'
    } else if d == 7 {
        '7'
    } else if d == 8 {
        '8'
    } else {
        '9'
    }
}

/// The decimal text of a number, without leading zeros.
pub open spec fn decimal(x: nat) -> Seq<char>
    decreases x,
{
    if x < 10 {
        seq![digit_char(x)]
    } else {
        decimal(x / 10).push(digit_char(x % 10))
    }
}

/// Append one decimal digit.
fn push_digit(s: &mut String, d: usize)
    requires
        d < 10,
    ensures
        final(s)@ == old(s)@.push(digit_char(d as nat)),
{
    let lit = if d == 0 {
        proof {
            reveal_strlit("0");
        }
        "0"
    } else if d == 1 {
        proof {
            reveal_strlit("1");
        }
        "1"
    } else if d == 2 {
        proof {
            reveal_strlit("2");
        }
        "2"
    } else if d == 3 {
        proof {
            reveal_strlit("3");
        }
        "3"
    } else if d == 4 {
        proof {
            reveal_strlit("4");
        }
        "4"
    } else if d == 5 {
        proof {
            reveal_strlit("5");
        }
        "5"
    } else if d == 6 {
        proof {
            reveal_strlit("6");
        }
        "6"
    } else if d == 7 {
        proof {
            reveal_strlit("7");
        }
        "7"
    } else if d == 8 {
        proof {
            reveal_strlit("8");
        }
        "8"
    } else {
        proof {
            reveal_strlit("9");
        }
        "9"
    };
    assert(lit@ =~= seq![digit_char(d as nat)]);
    s.append(lit);
    assert(s@ =~= old(s)@.push(digit_char(d as nat)));
}

/// Append the decimal text of `x`.
pub fn push_decimal(s: &mut String, x: usize)
    ensures
        final(s)@ == old(s)@ + decimal(x as nat),
    decreases x,
{
    if x < 10 {
        push_digit(s, x);
        assert(s@ =~= old(s)@ + decimal(x as nat));
    } else {
        push_decimal(s, x / 10);
        push_digit(s, x % 10);
        assert(s@ =~= old(s)@ + decimal(x as nat));
    }
}

/// The opening lines of the DOT text.
pub open spec fn dot_header() -> Seq<char> {
    "digraph CallGraph {\n"@ + "  rankdir=LR;\n"@ + "  node [shape=box, style=rounded];\n"@
}

/// The DOT line of definition node `i`.
pub open spec fn dot_node_line(i: nat, n: NodeView) -> Seq<char> {
    "  n"@ + decimal(i) + " [label=\""@ + shown_name(n) + "\\nline "@ + decimal(n.start_line) + "\"];\n"@
}

/// The DOT lines of the definition nodes among the first `m` nodes.
pub open spec fn dot_node_lines(nodes: Seq<NodeView>, m: nat) -> Seq<char>
    decreases m,
{
    if m == 0 {
        seq![]
    } else {
        let r = dot_node_lines(nodes, (m - 1) as nat);
        if is_definition_kind(nodes[m - 1].kind) {
            r + dot_node_line((m - 1) as nat, nodes[m - 1])
        } else {
            r
        }
    }
}

/// The DOT lines of the call edges among `es`.
pub open spec fn dot_edge_lines(es: Seq<(nat, nat, Edge)>) -> Seq<char>
    decreases es.len(),
{
    if es.len() == 0 {
        seq![]
    } else {
        let r = dot_edge_lines(es.drop_last());
        let e = es.last();
        if e.2 == Edge::Call {
            r + "  n"@ + decimal(e.0) + " -> n"@ + decimal(e.1) + ";\n"@
        } else {
            r
        }
    }
}

/// The DOT lines of the nodes at `idxs`, in that order.
pub open spec fn lines_at(nodes: Seq<NodeView>, idxs: Seq<nat>) -> Seq<char>
    decreases idxs.len(),
{
    if idxs.len() == 0 {
        seq![]
    } else {
        lines_at(nodes, idxs.drop_last()) + dot_node_line(idxs.last(), nodes[idxs.last() as int])
    }
}

/// Indices that list, in increasing order, exactly the function and class
/// nodes among the first `m`.
pub open spec fn box_indices_ok(nodes: Seq<NodeView>, m: nat, idxs: Seq<nat>) -> bool {
    &&& forall|j: int, k: int| 0 <= j < k < idxs.len() ==> #[trigger] idxs[j] < #[trigger] idxs[k]
    &&& forall|k: int| 0 <= k < idxs.len() ==> #[trigger] idxs[k] < m
    &&& forall|i: nat|
        i < m ==> (#[trigger] idxs.contains(i) <==> (nodes[i as int].kind == NodeKind::Function || nodes[i as int].kind
            == NodeKind::Class))
}

proof fn lemma_box_indices(nodes: Seq<NodeView>, m: nat) -> (idxs: Seq<nat>)
    requires
        m <= nodes.len(),
    ensures
        box_indices_ok(nodes, m, idxs),
        dot_node_lines(nodes, m) == lines_at(nodes, idxs),
    decreases m,
{
    if m == 0 {
        Seq::<nat>::empty()
    } else {
        let prev = lemma_box_indices(nodes, (m - 1) as nat);
        let i = (m - 1) as nat;
        if nodes[i as int].kind == NodeKind::Function || nodes[i as int].kind == NodeKind::Class {
            let idxs = prev.push(i);
            assert(idxs.drop_last() =~= prev);
            assert forall|x: nat| x < m implies (#[trigger] idxs.contains(x) <==> (nodes[x as int].kind
                == NodeKind::Function || nodes[x as int].kind == NodeKind::Class)) by {
                if x < m - 1 {
                    if idxs.contains(x) {
                        let k = choose|k: int| 0 <= k < idxs.len() && idxs[k] == x;
                        if k < prev.len() {
                            assert(prev[k] == x);
                        }
                    }
                    if prev.contains(x) {
                        let k = choose|k: int| 0 <= k < prev.len() && prev[k] == x;
                        assert(idxs[k] == x);
                    }
                } else {
                    assert(idxs[idxs.len() - 1] == x);
                }
            }
            assert forall|j: int, k: int| 0 <= j < k < idxs.len() implies #[trigger] idxs[j] < #[trigger] idxs[k] by {
                if k < prev.len() {
                    assert(idxs[j] == prev[j] && idxs[k] == prev[k]);
                } else {
                    assert(idxs[j] == prev[j]);
                }
            }
            assert forall|k: int| 0 <= k < idxs.len() implies #[trigger] idxs[k] < m by {
                if k < prev.len() {
                    assert(idxs[k] == prev[k]);
                }
            }
            idxs
        } else {
            assert forall|x: nat| x < m implies (#[trigger] prev.contains(x) <==> (nodes[x as int].kind
                == NodeKind::Function || nodes[x as int].kind == NodeKind::Class)) by {
                if x == m - 1 && prev.contains(x) {
                    let k = choose|k: int| 0 <= k < prev.len() && prev[k] == x;
                    assert(prev[k] < m - 1);
                }
            }
            prev
        }
    }
}

/// The DOT text has one box line per function and class node, in index
/// order, and none for a node of any other kind; then a line per call edge.
pub proof fn lemma_dot_boxes(v: CpgView)
    ensures
        exists|idxs: Seq<nat>|
            box_indices_ok(v.nodes, v.nodes.len(), idxs) && dot_text(v) == dot_header() + lines_at(v.nodes, idxs)
                + dot_edge_lines(v.edges) + "}\n"@,
{
    let idxs = lemma_box_indices(v.nodes, v.nodes.len());
    assert(box_indices_ok(v.nodes, v.nodes.len(), idxs));
}

/// The DOT text of a graph's call graph.
pub open spec fn dot_text(v: CpgView) -> Seq<char> {
    dot_header() + dot_node_lines(v.nodes, v.nodes.len()) + dot_edge_lines(v.edges) + "}\n"@
}

/// Export the call graph in Graphviz DOT format: a box for each function
/// and class (labelled with its name and start line) and an arrow for each
/// call edge.  See [`dot_text`].
pub fn export_call_dot(cpg: &CodePropertyGraph) -> (r: String)
    ensures
        r@ == dot_text(cpg@),
{
    let n = cpg.node_count();
    let mut s = String::new();
    s.append("digraph CallGraph {\n");
    s.append("  rankdir=LR;\n");
    s.append("  node [shape=box, style=rounded];\n");
    let ghost head = s@;
    assert(head =~= dot_header() + dot_node_lines(cpg@.nodes, 0));
    let mut i: usize = 0;
    while i < n
        invariant
            i <= n,
            n == cpg@.nodes.len(),
            s@ == dot_header() + dot_node_lines(cpg@.nodes, i as nat),
        decreases n - i,
    {
        let node = cpg.node(i);
        if is_definition(node.kind) {
            let ghost before = s@;
            s.append("  n");
            push_decimal(&mut s, i);
            s.append(" [label=\"");
            match &node.name {
                Some(nm) => s.append(nm.as_str()),
                None => s.append("?"),
            }
            proof {
                reveal_strlit("?");
            }
            s.append("\\nline ");
            push_decimal(&mut s, node.start_line);
            s.append("\"];\n");
            assert(s@ =~= before + dot_node_line(i as nat, cpg@.nodes[i as int]));
        }
        i = i + 1;
    }
    let edges = cpg.edge_list();
    let ghost es = cpg@.edges;
    let ghost mid = s@;
    let mut e: usize = 0;
    proof {
        assert(es.take(0) =~= Seq::<(nat, nat, Edge)>::empty());
        assert(s@ =~= mid + dot_edge_lines(es.take(0)));
    }
    while e < edges.len()
        invariant
            e <= edges@.len(),
            es == cpg@.edges,
            edges@.map_values(|x: (usize, usize, Edge)| triple_nat(x)) == es,
            s@ == mid + dot_edge_lines(es.take(e as int)),
        decreases edges@.len() - e,
    {
        let (a, b, kind) = edges[e];
        proof {
            assert(es[e as int] == triple_nat(edges@[e as int]));
            assert(es.take(e as int + 1).drop_last() =~= es.take(e as int));
        }
        if kind == Edge::Call {
            let ghost before = s@;
            s.append("  n");
            push_decimal(&mut s, a);
            s.append(" -> n");
            push_decimal(&mut s, b);
            s.append(";\n");
            assert(s@ =~= before + "  n"@ + decimal(a as nat) + " -> n"@ + decimal(b as nat) + ";\n"@);
        }
        e = e + 1;
    }
    proof {
        assert(es.take(edges@.len() as int) =~= es);
    }
    s.append("}\n");
    assert(s@ =~= dot_text(cpg@));
    s
}

} // verus!
