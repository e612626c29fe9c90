//! What a project report shows: totals, the results of the analyses, and
//! for every node whether it lies on a call cycle, is dead, and how complex
//! it is.  Rendering (JSON, HTML) is left to the caller.

use vstd::prelude::*;
use vstd::hash_set::HashSetWithView;
use crate::common::NodeKind;
use crate::graph::{CodePropertyGraph, CpgView, Edge, Node, NodeView, cpg_wf, triple_nat};
use crate::query::{select, views_at, ref_views};
use crate::analysis::{
    CallCycle, CallCycleView, ComplexityReport, ComplexityReportView, detect_call_cycles, detect_dead_code,
    detect_complex_functions, cycles_of, call_graph_names, call_graph_components, call_graph_edges,
    unreached_functions, entry_nodes, string_views, complex_reports,
};
use crate::diff::name_key;

verus! {

broadcast use vstd::std_specs::hash::group_hash_axioms;

/// The entry function of the report's dead-code analysis.
pub open spec fn report_entries() -> Seq<Seq<char>> {
    seq!["main"@]
}

/// The complexity threshold of the report.
pub open spec fn report_threshold() -> nat {
    20
}

/// Totals shown in a report.
pub struct ReportStats {
    pub total_functions: usize,
    pub total_classes: usize,
    pub total_calls: usize,
    pub cycle_count: usize,
    pub dead_count: usize,
    pub complex_count: usize,
}

/// What a report shows of one node.
#[derive(Debug, Clone, Copy, PartialEq, Eq, Structural)]
pub struct NodeFlags {
    /// Some call cycle lists the node's name.
    pub is_cycle: bool,
    /// Some dead function carries the node's name.
    pub is_dead: bool,
    /// The node count of the first complexity report of the node's name.
    pub complexity: Option<usize>,
}

/// Everything a report shows.
pub struct ReportData {
    pub stats: ReportStats,
    pub cycles: Vec<CallCycle>,
    pub dead: Vec<Node>,
    pub complex: Vec<ComplexityReport>,
    pub nodes: Vec<(Node, NodeFlags)>,
    pub edges: Vec<(usize, usize, Edge)>,
}

/// The number of call edges.
pub open spec fn count_calls(es: Seq<(nat, nat, Edge)>) -> nat
    decreases es.len(),
{
    if es.len() == 0 {
        0
    } else {
        count_calls(es.drop_last()) + if es.last().2 == Edge::Call {
            1nat
        } else {
            0nat
        }
    }
}

/// The call cycles of a report.
pub open spec fn report_cycles(v: CpgView) -> Seq<CallCycleView> {
    cycles_of(call_graph_names(v), call_graph_components(v), call_graph_edges(v, v.edges))
}

/// The dead functions of a report.
pub open spec fn report_dead(v: CpgView) -> Seq<NodeView> {
    views_at(v.nodes, unreached_functions(v, entry_nodes(v, report_entries()), v.nodes.len()))
}

/// The complex functions of a report.
pub open spec fn report_complex(v: CpgView) -> Seq<ComplexityReportView> {
    complex_reports(v, report_threshold(), v.nodes.len())
}

/// Whether some cycle lists the name `n`.
pub open spec fn in_some_cycle(cycles: Seq<CallCycleView>, n: Seq<char>) -> bool {
    exists|i: int| 0 <= i < cycles.len() && (#[trigger] cycles[i]).functions.contains(n)
}

/// Whether some dead function carries the name `n`.
pub open spec fn among_dead(dead: Seq<NodeView>, n: Seq<char>) -> bool {
    exists|i: int| 0 <= i < dead.len() && (#[trigger] dead[i]).name == Some(n)
}

/// The node count of the first complexity report named `n`, among the
/// first `m` reports.
pub open spec fn first_complexity(reports: Seq<ComplexityReportView>, n: Seq<char>, m: int) -> Option<nat>
    decreases m,
{
    if m <= 0 {
        None
    } else {
        match first_complexity(reports, n, m - 1) {
            Some(c) => Some(c),
            None => if reports[m - 1].function_name == n {
                Some(reports[m - 1].ast_node_count)
            } else {
                None
            },
        }
    }
}

/// The flags of a node, given the analyses.
pub open spec fn flags_of(
    n: NodeView,
    cycles: Seq<CallCycleView>,
    dead: Seq<NodeView>,
    complex: Seq<ComplexityReportView>,
) -> (bool, bool, Option<nat>) {
    let k = name_key(n);
    (in_some_cycle(cycles, k), among_dead(dead, k), first_complexity(complex, k, complex.len() as int))
}

/// Flags as mathematical values.
pub open spec fn flags_view(f: NodeFlags) -> (bool, bool, Option<nat>) {
    (
        f.is_cycle,
        f.is_dead,
        match f.complexity {
            Some(c) => Some(c as nat),
            None => None,
        },
    )
}

/// Whether an edge between `a` and `b` occurs among the first `n` edges.
pub open spec fn pair_seen(es: Seq<(nat, nat, Edge)>, n: int, a: nat, b: nat) -> bool {
    exists|j: int| 0 <= j < n && (#[trigger] es[j]).0 == a && es[j].1 == b
}

/// The first `n` edges without those whose endpoints occurred before (a
/// graph view rejects parallel edges).
pub open spec fn unique_pairs(es: Seq<(nat, nat, Edge)>, n: int) -> Seq<(nat, nat, Edge)>
    decreases n,
{
    if n <= 0 {
        seq![]
    } else if pair_seen(es, n - 1, es[n - 1].0, es[n - 1].1) {
        unique_pairs(es, n - 1)
    } else {
        unique_pairs(es, n - 1).push(es[n - 1])
    }
}

/// The key of an edge's endpoints, both below 2^32.
pub open spec fn pair_key(a: nat, b: nat) -> nat {
    a * 4294967296 + b
}

proof fn lemma_pair_key_injective(a: nat, b: nat, c: nat, d: nat)
    requires
        b < 4294967296,
        d < 4294967296,
        pair_key(a, b) == pair_key(c, d),
    ensures
        a == c && b == d,
{
    assert(a == c && b == d) by (nonlinear_arith)
        requires
            b < 4294967296,
            d < 4294967296,
            a * 4294967296 + b == c * 4294967296 + d,
    {
        if a < c {
            assert(a * 4294967296 + 4294967296 <= c * 4294967296);
        } else if a > c {
            assert(c * 4294967296 + 4294967296 <= a * 4294967296);
        }
    }
}

/// The edges of a graph without parallel ones (see [`unique_pairs`]).
fn unique_edges(cpg: &CodePropertyGraph) -> (r: Vec<(usize, usize, Edge)>)
    ensures
        r@.map_values(|x: (usize, usize, Edge)| triple_nat(x)) == unique_pairs(cpg@.edges, cpg@.edges.len() as int),
{
    let _ = cpg.node_count();
    let edges = cpg.edge_list();
    let ghost es = cpg@.edges;
    let mut seen: HashSetWithView<u64> = HashSetWithView::new();
    let mut r: Vec<(usize, usize, Edge)> = Vec::new();
    let mut e: usize = 0;
    while e < edges.len()
        invariant
            e <= edges@.len(),
            es == cpg@.edges,
            cpg_wf(cpg@),
            edges@.map_values(|x: (usize, usize, Edge)| triple_nat(x)) == es,
            r@.map_values(|x: (usize, usize, Edge)| triple_nat(x)) == unique_pairs(es, e as int),
            forall|k: u64| #[trigger] seen@.contains(k) <==> exists|j: int|
                0 <= j < e && pair_key((#[trigger] es[j]).0, es[j].1) == k as nat,
        decreases edges@.len() - e,
    {
        let (a, b, kind) = edges[e];
        proof {
            assert(es[e as int] == triple_nat(edges@[e as int]));
            assert(a < 4294967296 && b < 4294967296);
            assert(pair_key(a as nat, b as nat) < 18446744073709551616) by (nonlinear_arith)
                requires
                    a < 4294967296,
                    b < 4294967296,
            ;
        }
        let key: u64 = (a as u64) * 4294967296 + (b as u64);
        assert(key as nat == pair_key(a as nat, b as nat));
        proof {
            if pair_seen(es, e as int, a as nat, b as nat) {
                let j = choose|j: int| 0 <= j < e && (#[trigger] es[j]).0 == a && es[j].1 == b;
                assert(pair_key(es[j].0, es[j].1) == key as nat);
            }
            if seen@.contains(key) {
                let j = choose|j: int| 0 <= j < e && pair_key((#[trigger] es[j]).0, es[j].1) == key as nat;
                assert(es[j].1 < 4294967296);
                lemma_pair_key_injective(es[j].0, es[j].1, a as nat, b as nat);
            }
        }
        if !seen.contains(&key) {
            let ghost before = r@;
            seen.insert(key);
            r.push((a, b, kind));
            proof {
                assert(r@.map_values(|x: (usize, usize, Edge)| triple_nat(x)) =~= before.map_values(
                    |x: (usize, usize, Edge)| triple_nat(x),
                ).push(es[e as int]));
            }
        }
        proof {
            assert forall|k: u64| #[trigger] seen@.contains(k) <==> exists|j: int|
                0 <= j < e + 1 && pair_key((#[trigger] es[j]).0, es[j].1) == k as nat by {
                if k == key {
                    assert(pair_key(es[e as int].0, es[e as int].1) == k as nat);
                }
            }
        }
        e = e + 1;
    }
    proof {
        assert(e == es.len());
    }
    r
}

/// Whether some cycle lists the name.
fn in_some_cycle_exec(cycles: &Vec<CallCycle>, name: &str) -> (r: bool)
    ensures
        r == in_some_cycle(cycles@.map_values(|c: CallCycle| c@), name@),
{
    let ghost cv = cycles@.map_values(|c: CallCycle| c@);
    let mut i: usize = 0;
    while i < cycles.len()
        invariant
            i <= cycles@.len(),
            cv == cycles@.map_values(|c: CallCycle| c@),
            forall|q: int| 0 <= q < i ==> !(#[trigger] cv[q]).functions.contains(name@),
        decreases cycles@.len() - i,
    {
        let fs = &cycles[i].functions;
        let mut j: usize = 0;
        while j < fs.len()
            invariant
                j <= fs@.len(),
                i < cycles@.len(),
                fs == cycles@[i as int].functions,
                cv == cycles@.map_values(|c: CallCycle| c@),
                forall|q: int| 0 <= q < j ==> fs@[q]@ != name@,
            decreases fs@.len() - j,
        {
            if crate::text::str_eq(fs[j].as_str(), name) {
                proof {
                    assert(cv[i as int].functions[j as int] == name@);
                }
                return true;
            }
            j = j + 1;
        }
        proof {
            if cv[i as int].functions.contains(name@) {
                let q = choose|q: int| 0 <= q < cv[i as int].functions.len() && cv[i as int].functions[q] == name@;
                assert(fs@[q]@ == name@);
            }
        }
        i = i + 1;
    }
    false
}

/// Whether some dead function carries the name.
fn among_dead_exec(dead: &Vec<Node>, name: &str) -> (r: bool)
    ensures
        r == among_dead(dead@.map_values(|n: Node| n@), name@),
{
    let ghost dv = dead@.map_values(|n: Node| n@);
    let mut i: usize = 0;
    while i < dead.len()
        invariant
            i <= dead@.len(),
            dv == dead@.map_values(|n: Node| n@),
            forall|q: int| 0 <= q < i ==> (#[trigger] dv[q]).name != Some(name@),
        decreases dead@.len() - i,
    {
        if crate::query::name_is(&dead[i], name) {
            proof {
                assert(dv[i as int].name == Some(name@));
            }
            return true;
        }
        i = i + 1;
    }
    false
}

/// The node count of the first complexity report with the name.
fn first_complexity_exec(reports: &Vec<ComplexityReport>, name: &str) -> (r: Option<usize>)
    ensures
        match r {
            Some(c) => first_complexity(reports@.map_values(|c: ComplexityReport| c@), name@, reports@.len() as int)
                == Some(c as nat),
            None => first_complexity(reports@.map_values(|c: ComplexityReport| c@), name@, reports@.len() as int) is None,
        },
{
    let ghost rv = reports@.map_values(|c: ComplexityReport| c@);
    let mut i: usize = 0;
    while i < reports.len()
        invariant
            i <= reports@.len(),
            rv == reports@.map_values(|c: ComplexityReport| c@),
            first_complexity(rv, name@, i as int) is None,
        decreases reports@.len() - i,
    {
        if crate::text::str_eq(reports[i].function_name.as_str(), name) {
            proof {
                lemma_first_complexity_found(rv, name@, i as int, reports@.len() as int);
            }
            return Some(reports[i].ast_node_count);
        }
        i = i + 1;
    }
    None
}

proof fn lemma_first_complexity_found(rv: Seq<ComplexityReportView>, n: Seq<char>, i: int, m: int)
    requires
        0 <= i < m <= rv.len(),
        first_complexity(rv, n, i) is None,
        rv[i].function_name == n,
    ensures
        first_complexity(rv, n, m) == Some(rv[i].ast_node_count),
    decreases m - i,
{
    if m > i + 1 {
        lemma_first_complexity_found(rv, n, i, m - 1);
    }
}

/// The number of call edges of a graph.
fn call_count(cpg: &CodePropertyGraph) -> (r: usize)
    ensures
        r == count_calls(cpg@.edges),
{
    let _ = cpg.node_count();
    let edges = cpg.edge_list();
    let ghost es = cpg@.edges;
    let mut count: usize = 0;
    let mut e: usize = 0;
    proof {
        assert(es.take(0) =~= Seq::<(nat, nat, Edge)>::empty());
    }
    while e < edges.len()
        invariant
            e <= edges@.len(),
            es == cpg@.edges,
            es.len() <= u32::MAX,
            edges@.map_values(|x: (usize, usize, Edge)| triple_nat(x)) == es,
            count == count_calls(es.take(e as int)),
            count <= e,
        decreases edges@.len() - e,
    {
        proof {
            assert(es.take(e as int + 1).drop_last() =~= es.take(e as int));
            assert(es[e as int] == triple_nat(edges@[e as int]));
        }
        if edges[e].2 == Edge::Call {
            count = count + 1;
        }
        e = e + 1;
    }
    proof {
        assert(es.take(edges@.len() as int) =~= es);
    }
    count
}

/// Everything a report shows of a graph: the totals (functions, classes,
/// call edges, and the sizes of the analyses), the call cycles, the
/// functions unreachable from `main`, the functions with more than 20
/// AST nodes, every node with its flags (see [`flags_of`]), and the edges
/// without parallel ones.
pub fn report_data(cpg: &CodePropertyGraph) -> (r: ReportData)
    ensures
        r.stats.total_functions == select(cpg@.nodes, Some(NodeKind::Function), None).len(),
        r.stats.total_classes == select(cpg@.nodes, Some(NodeKind::Class), None).len(),
        r.stats.total_calls == count_calls(cpg@.edges),
        r.cycles@.map_values(|c: CallCycle| c@) == report_cycles(cpg@),
        r.dead@.map_values(|n: Node| n@) == report_dead(cpg@),
        r.complex@.map_values(|c: ComplexityReport| c@) == report_complex(cpg@),
        r.stats.cycle_count == report_cycles(cpg@).len(),
        r.stats.dead_count == report_dead(cpg@).len(),
        r.stats.complex_count == report_complex(cpg@).len(),
        r.nodes@.map_values(|p: (Node, NodeFlags)| (p.0@, flags_view(p.1))) == cpg@.nodes.map_values(
            |n: NodeView| (n, flags_of(n, report_cycles(cpg@), report_dead(cpg@), report_complex(cpg@))),
        ),
        r.edges@.map_values(|x: (usize, usize, Edge)| triple_nat(x)) == unique_pairs(cpg@.edges, cpg@.edges.len() as int),
{
    let n = cpg.node_count();
    let functions = crate::query::find_by_kind(cpg, NodeKind::Function);
    let classes = crate::query::find_by_kind(cpg, NodeKind::Class);
    proof {
        assert(ref_views(functions@).len() == functions@.len());
        assert(ref_views(classes@).len() == classes@.len());
    }
    let total_calls = call_count(cpg);
    let cycles = detect_call_cycles(cpg);
    let main_name = crate::text::owned("main");
    proof {
        reveal_strlit("main");
    }
    let mut entry_list: Vec<String> = Vec::new();
    entry_list.push(main_name);
    assert(string_views(entry_list@) =~= report_entries());
    let dead_refs = detect_dead_code(cpg, entry_list.as_slice());
    let mut dead: Vec<Node> = Vec::new();
    let mut i: usize = 0;
    while i < dead_refs.len()
        invariant
            i <= dead_refs@.len(),
            dead@.map_values(|n: Node| n@) == ref_views(dead_refs@).take(i as int),
        decreases dead_refs@.len() - i,
    {
        let ghost before = dead@;
        dead.push(dead_refs[i].duplicate());
        i = i + 1;
        proof {
            assert(dead@.map_values(|n: Node| n@) =~= before.map_values(|n: Node| n@).push(dead_refs@[i - 1]@));
            assert(dead@.map_values(|n: Node| n@) =~= ref_views(dead_refs@).take(i as int));
        }
    }
    proof {
        assert(ref_views(dead_refs@).take(dead_refs@.len() as int) =~= ref_views(dead_refs@));
    }
    let complex = detect_complex_functions(cpg, 20);
    let ghost cyc = report_cycles(cpg@);
    let ghost dd = report_dead(cpg@);
    let ghost cx = report_complex(cpg@);
    let mut nodes: Vec<(Node, NodeFlags)> = Vec::new();
    let mut i: usize = 0;
    while i < n
        invariant
            i <= n,
            n == cpg@.nodes.len(),
            cyc == cycles@.map_values(|c: CallCycle| c@),
            dd == dead@.map_values(|n: Node| n@),
            cx == complex@.map_values(|c: ComplexityReport| c@),
            nodes@.map_values(|p: (Node, NodeFlags)| (p.0@, flags_view(p.1))) == cpg@.nodes.take(i as int).map_values(
                |n: NodeView| (n, flags_of(n, cyc, dd, cx)),
            ),
        decreases n - i,
    {
        let node = cpg.node(i);
        let key: &str = match &node.name {
            Some(s) => s.as_str(),
            None => {
                proof {
                    reveal_strlit("");
                }
                ""
            },
        };
        assert(key@ == name_key(node@));
        let flags = NodeFlags {
            is_cycle: in_some_cycle_exec(&cycles, key),
            is_dead: among_dead_exec(&dead, key),
            complexity: first_complexity_exec(&complex, key),
        };
        let ghost before = nodes@;
        nodes.push((node.duplicate(), flags));
        i = i + 1;
        proof {
            assert(flags_view(flags) == flags_of(node@, cyc, dd, cx));
            assert(nodes@.map_values(|p: (Node, NodeFlags)| (p.0@, flags_view(p.1))) =~= before.map_values(
                |p: (Node, NodeFlags)| (p.0@, flags_view(p.1)),
            ).push((cpg@.nodes[i - 1], flags_of(cpg@.nodes[i - 1], cyc, dd, cx))));
            assert(nodes@.map_values(|p: (Node, NodeFlags)| (p.0@, flags_view(p.1))) =~= cpg@.nodes.take(
                i as int,
            ).map_values(|n: NodeView| (n, flags_of(n, cyc, dd, cx))));
        }
    }
    proof {
        assert(cpg@.nodes.take(n as int) =~= cpg@.nodes);
    }
    let edges = unique_edges(cpg);
    let stats = ReportStats {
        total_functions: functions.len(),
        total_classes: classes.len(),
        total_calls,
        cycle_count: cycles.len(),
        dead_count: dead.len(),
        complex_count: complex.len(),
    };
    ReportData { stats, cycles, dead, complex, nodes, edges }
}

/// The indices of the nodes of kind `k` among the first `m`.
pub open spec fn kind_set(nodes: Seq<NodeView>, k: NodeKind, m: nat) -> Set<nat> {
    Set::new(|i: nat| i < m && nodes[i as int].kind == k)
}

/// The indices of the call edges among the first `m`.
pub open spec fn call_set(es: Seq<(nat, nat, Edge)>, m: nat) -> Set<nat> {
    Set::new(|i: nat| i < m && es[i as int].2 == Edge::Call)
}

proof fn lemma_kind_count(nodes: Seq<NodeView>, k: NodeKind, m: nat)
    requires
        m <= nodes.len(),
    ensures
        kind_set(nodes, k, m).finite(),
        select(nodes.take(m as int), Some(k), None).len() == kind_set(nodes, k, m).len(),
    decreases m,
{
    if m == 0 {
        assert(kind_set(nodes, k, 0) =~= Set::<nat>::empty());
        assert(nodes.take(0) =~= Seq::<NodeView>::empty());
    } else {
        lemma_kind_count(nodes, k, (m - 1) as nat);
        assert(nodes.take(m as int).drop_last() =~= nodes.take(m - 1));
        assert(nodes.take(m as int).last() == nodes[m - 1]);
        if nodes[m - 1].kind == k {
            assert(kind_set(nodes, k, m) =~= kind_set(nodes, k, (m - 1) as nat).insert((m - 1) as nat));
        } else {
            assert(kind_set(nodes, k, m) =~= kind_set(nodes, k, (m - 1) as nat));
        }
    }
}

proof fn lemma_call_count(es: Seq<(nat, nat, Edge)>, m: nat)
    requires
        m <= es.len(),
    ensures
        call_set(es, m).finite(),
        count_calls(es.take(m as int)) == call_set(es, m).len(),
    decreases m,
{
    if m == 0 {
        assert(call_set(es, 0) =~= Set::<nat>::empty());
        assert(es.take(0) =~= Seq::<(nat, nat, Edge)>::empty());
    } else {
        lemma_call_count(es, (m - 1) as nat);
        assert(es.take(m as int).drop_last() =~= es.take(m - 1));
        assert(es.take(m as int).last() == es[m - 1]);
        if es[m - 1].2 == Edge::Call {
            assert(call_set(es, m) =~= call_set(es, (m - 1) as nat).insert((m - 1) as nat));
        } else {
            assert(call_set(es, m) =~= call_set(es, (m - 1) as nat));
        }
    }
}

proof fn lemma_unique_pairs_distinct(es: Seq<(nat, nat, Edge)>, n: int)
    requires
        0 <= n <= es.len(),
    ensures
        forall|i: int, j: int|
            0 <= i < j < unique_pairs(es, n).len() ==> (#[trigger] unique_pairs(es, n)[i]).0 != (#[trigger] unique_pairs(
                es,
                n,
            )[j]).0 || unique_pairs(es, n)[i].1 != unique_pairs(es, n)[j].1,
        forall|i: int|
            0 <= i < unique_pairs(es, n).len() ==> pair_seen(es, n, (#[trigger] unique_pairs(es, n)[i]).0, unique_pairs(es, n)[i].1),
    decreases n,
{
    if n > 0 {
        lemma_unique_pairs_distinct(es, n - 1);
        let r = unique_pairs(es, n - 1);
        assert forall|i: int| 0 <= i < r.len() implies pair_seen(es, n, (#[trigger] r[i]).0, r[i].1) by {
            let j = choose|j: int| 0 <= j < n - 1 && (#[trigger] es[j]).0 == r[i].0 && es[j].1 == r[i].1;
            assert(es[j].0 == r[i].0);
        }
        if !pair_seen(es, n - 1, es[n - 1].0, es[n - 1].1) {
            let u = unique_pairs(es, n);
            assert(u == r.push(es[n - 1]));
            assert forall|i: int| 0 <= i < u.len() implies pair_seen(es, n, (#[trigger] u[i]).0, u[i].1) by {
                if i < r.len() {
                    assert(u[i] == r[i]);
                } else {
                    assert(es[n - 1].0 == u[i].0);
                }
            }
            assert forall|i: int, j: int| 0 <= i < j < u.len() implies (#[trigger] u[i]).0 != (#[trigger] u[j]).0 || u[i].1
                != u[j].1 by {
                if j == u.len() - 1 {
                    assert(u[i] == r[i]);
                    if u[i].0 == u[j].0 && u[i].1 == u[j].1 {
                        assert(pair_seen(es, n - 1, r[i].0, r[i].1));
                    }
                } else {
                    assert(u[i] == r[i] && u[j] == r[j]);
                }
            }
        }
    }
}

/// The report's statistics are plain counts: the functions and classes are
/// the nodes of those kinds, the calls the call edges; and the edges it
/// lists have pairwise different endpoints.
pub proof fn lemma_report_counts(v: CpgView)
    ensures
        kind_set(v.nodes, NodeKind::Function, v.nodes.len()).finite(),
        select(v.nodes, Some(NodeKind::Function), None).len() == kind_set(v.nodes, NodeKind::Function, v.nodes.len()).len(),
        select(v.nodes, Some(NodeKind::Class), None).len() == kind_set(v.nodes, NodeKind::Class, v.nodes.len()).len(),
        count_calls(v.edges) == call_set(v.edges, v.edges.len()).len(),
        forall|i: int, j: int|
            0 <= i < j < unique_pairs(v.edges, v.edges.len() as int).len() ==> (#[trigger] unique_pairs(
                v.edges,
                v.edges.len() as int,
            )[i]).0 != (#[trigger] unique_pairs(v.edges, v.edges.len() as int)[j]).0 || unique_pairs(
                v.edges,
                v.edges.len() as int,
            )[i].1 != unique_pairs(v.edges, v.edges.len() as int)[j].1,
{
    lemma_kind_count(v.nodes, NodeKind::Function, v.nodes.len());
    lemma_kind_count(v.nodes, NodeKind::Class, v.nodes.len());
    lemma_call_count(v.edges, v.edges.len());
    assert(v.nodes.take(v.nodes.len() as int) =~= v.nodes);
    assert(v.edges.take(v.edges.len() as int) =~= v.edges);
    lemma_unique_pairs_distinct(v.edges, v.edges.len() as int);
}

} // verus!
