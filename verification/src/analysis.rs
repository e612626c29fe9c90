//! Analyses over a code property graph: call cycles, complex functions and
//! dead code.

use vstd::prelude::*;
use crate::common::{NodeKind, is_definition_kind, is_definition};
use crate::graph::{CodePropertyGraph, CpgView, Edge, Node, NodeView, cpg_wf, incident, endpoint};
use petgraph::graph::Graph;
use crate::query::{
    neighbours, name_is, pick, subtree, subtree_order, has_name, ref_views, views_at, lemma_incident_records,
};

verus! {

/// A function complexity report.
pub struct ComplexityReport {
    /// Name of the function (`"?"` for an unnamed one).
    pub function_name: String,
    /// Total number of AST nodes in the function's subtree, itself included.
    pub ast_node_count: usize,
    /// Start line of the function.
    pub start_line: usize,
}

/// The mathematical value of a [`ComplexityReport`].
pub struct ComplexityReportView {
    pub function_name: Seq<char>,
    pub ast_node_count: nat,
    pub start_line: nat,
}

impl View for ComplexityReport {
    type V = ComplexityReportView;

    open spec fn view(&self) -> ComplexityReportView {
        ComplexityReportView {
            function_name: self.function_name@,
            ast_node_count: self.ast_node_count as nat,
            start_line: self.start_line as nat,
        }
    }
}

/// The name shown for a node: its name, or `"?"`.
pub open spec fn shown_name(n: NodeView) -> Seq<char> {
    match n.name {
        Some(s) => s,
        None => seq!['?'],
    }
}

/// The reports of [`detect_complex_functions`] for the first `m` nodes.
pub open spec fn complex_reports(v: CpgView, threshold: nat, m: nat) -> Seq<ComplexityReportView>
    decreases m,
{
    if m == 0 {
        seq![]
    } else {
        let r = complex_reports(v, threshold, (m - 1) as nat);
        let n = v.nodes[m - 1];
        let count = subtree(v, (m - 1) as nat).len();
        if n.kind == NodeKind::Function && count > threshold {
            r.push(ComplexityReportView { function_name: shown_name(n), ast_node_count: count, start_line: n.start_line })
        } else {
            r
        }
    }
}

/// The report of node `i`.
pub open spec fn report_of(v: CpgView, i: nat) -> ComplexityReportView {
    ComplexityReportView {
        function_name: shown_name(v.nodes[i as int]),
        ast_node_count: subtree(v, i).len(),
        start_line: v.nodes[i as int].start_line,
    }
}

/// Indices that list, in increasing order, exactly the function nodes among
/// the first `m` whose subtree has more than `threshold` nodes.
pub open spec fn complex_indices_ok(v: CpgView, threshold: nat, m: nat, idxs: Seq<nat>) -> bool {
    &&& forall|j: int, k: int| 0 <= j < k < idxs.len() ==> #[trigger] idxs[j] < #[trigger] idxs[k]
    &&& forall|k: int| 0 <= k < idxs.len() ==> #[trigger] idxs[k] < m
    &&& forall|i: nat|
        i < m ==> (#[trigger] idxs.contains(i) <==> (v.nodes[i as int].kind == NodeKind::Function && subtree(v, i).len()
            > threshold))
}

proof fn lemma_complex_indices(v: CpgView, threshold: nat, m: nat) -> (idxs: Seq<nat>)
    requires
        m <= v.nodes.len(),
    ensures
        complex_indices_ok(v, threshold, m, idxs),
        complex_reports(v, threshold, m) == idxs.map_values(|i: nat| report_of(v, i)),
    decreases m,
{
    if m == 0 {
        let e = Seq::<nat>::empty();
        assert(complex_reports(v, threshold, 0) =~= e.map_values(|i: nat| report_of(v, i)));
        e
    } else {
        let prev = lemma_complex_indices(v, threshold, (m - 1) as nat);
        let i = (m - 1) as nat;
        if v.nodes[i as int].kind == NodeKind::Function && subtree(v, i).len() > threshold {
            let idxs = prev.push(i);
            assert(idxs.map_values(|x: nat| report_of(v, x)) =~= prev.map_values(|x: nat| report_of(v, x)).push(
                report_of(v, i),
            ));
            assert forall|x: nat| x < m implies (#[trigger] idxs.contains(x) <==> (v.nodes[x as int].kind
                == NodeKind::Function && subtree(v, x).len() > threshold)) by {
                if x < m - 1 {
                    if idxs.contains(x) {
                        let k = choose|k: int| 0 <= k < idxs.len() && idxs[k] == x;
                        if k < prev.len() {
                            assert(prev[k] == x);
                        }
                    }
                    if prev.contains(x) {
                        let k = choose|k: int| 0 <= k < prev.len() && prev[k] == x;
                        assert(idxs[k] == x);
                    }
                } else {
                    assert(idxs[idxs.len() - 1] == x);
                }
            }
            assert forall|j: int, k: int| 0 <= j < k < idxs.len() implies #[trigger] idxs[j] < #[trigger] idxs[k] by {
                if k < prev.len() {
                    assert(idxs[j] == prev[j] && idxs[k] == prev[k]);
                } else {
                    assert(idxs[j] == prev[j]);
                }
            }
            assert forall|k: int| 0 <= k < idxs.len() implies #[trigger] idxs[k] < m by {
                if k < prev.len() {
                    assert(idxs[k] == prev[k]);
                }
            }
            idxs
        } else {
            assert forall|x: nat| x < m implies (#[trigger] prev.contains(x) <==> (v.nodes[x as int].kind
                == NodeKind::Function && subtree(v, x).len() > threshold)) by {
                if x == m - 1 && prev.contains(x) {
                    let k = choose|k: int| 0 <= k < prev.len() && prev[k] == x;
                    assert(prev[k] < m - 1);
                }
            }
            prev
        }
    }
}

/// Complexity detection reports exactly the function nodes whose AST
/// subtree holds more than `threshold` nodes, in index order, each with its
/// shown name, node count and start line; no node of another kind is ever
/// reported.
pub proof fn lemma_complex_exact(v: CpgView, threshold: nat)
    ensures
        exists|idxs: Seq<nat>|
            complex_indices_ok(v, threshold, v.nodes.len(), idxs) && complex_reports(v, threshold, v.nodes.len())
                == idxs.map_values(|i: nat| report_of(v, i)),
{
    let idxs = lemma_complex_indices(v, threshold, v.nodes.len());
    assert(complex_indices_ok(v, threshold, v.nodes.len(), idxs));
}

/// The name shown for a node, as a fresh string.
fn shown_name_of(n: &Node) -> (r: String)
    ensures
        r@ == shown_name(n@),
{
    match &n.name {
        Some(s) => s.clone(),
        None => {
            let r = crate::text::owned("?");
            proof {
                reveal_strlit("?");
            }
            r
        },
    }
}

/// The number of nodes in the AST subtree of `root`, counted along every
/// path (see [`subtree`]).
pub fn count_subtree_nodes(cpg: &CodePropertyGraph, root: usize) -> (r: usize)
    requires
        root < cpg@.nodes.len(),
    ensures
        r == subtree(cpg@, root as nat).len(),
{
    let order = subtree_order(cpg, root);
    proof {
        assert(order@.map_values(|i: usize| i as nat).len() == order@.len());
    }
    order.len()
}

/// The functions whose AST subtree holds more than `threshold` nodes, in
/// index order, each with its name, node count and start line.
pub fn detect_complex_functions(cpg: &CodePropertyGraph, threshold: usize) -> (r: Vec<ComplexityReport>)
    ensures
        r@.map_values(|c: ComplexityReport| c@) == complex_reports(cpg@, threshold as nat, cpg@.nodes.len()),
{
    let n = cpg.node_count();
    let mut r: Vec<ComplexityReport> = Vec::new();
    let mut i: usize = 0;
    proof {
        assert(r@.map_values(|c: ComplexityReport| c@) =~= complex_reports(cpg@, threshold as nat, 0));
    }
    while i < n
        invariant
            i <= n,
            n == cpg@.nodes.len(),
            r@.map_values(|c: ComplexityReport| c@) == complex_reports(cpg@, threshold as nat, i as nat),
        decreases n - i,
    {
        let node = cpg.node(i);
        if node.kind == NodeKind::Function {
            let count = count_subtree_nodes(cpg, i);
            if count > threshold {
                let ghost before = r@;
                let name = shown_name_of(node);
                r.push(ComplexityReport { function_name: name, ast_node_count: count, start_line: node.start_line });
                proof {
                    assert(r@.map_values(|c: ComplexityReport| c@) =~= before.map_values(|c: ComplexityReport| c@).push(
                        r@[r@.len() - 1]@,
                    ));
                }
            }
        }
        i = i + 1;
    }
    r
}

/// Whether the graph has a call edge from `a` to `b`.
pub open spec fn calls_edge(v: CpgView, a: nat, b: nat) -> bool {
    v.edges.contains((a, b, Edge::Call))
}

/// A path along call edges.
pub open spec fn is_call_path(v: CpgView, p: Seq<nat>) -> bool {
    p.len() >= 1 && forall|i: int| 0 <= i < p.len() - 1 ==> #[trigger] calls_edge(v, p[i], p[i + 1])
}

/// Whether node `x` is reachable along call edges from one of `entries`
/// (an entry reaches itself).
pub open spec fn call_reachable(v: CpgView, entries: Set<nat>, x: nat) -> bool {
    exists|p: Seq<nat>| #[trigger] is_call_path(v, p) && entries.contains(p[0]) && p.last() == x
}

/// The indices of the definitions (functions and classes) named `name`, in
/// index order.
pub open spec fn def_indices(nodes: Seq<NodeView>, name: Seq<char>) -> Seq<nat>
    decreases nodes.len(),
{
    if nodes.len() == 0 {
        seq![]
    } else {
        let r = def_indices(nodes.drop_last(), name);
        if is_definition_kind(nodes.last().kind) && has_name(nodes.last(), name) {
            r.push((nodes.len() - 1) as nat)
        } else {
            r
        }
    }
}

/// The first definition named `name`, if any.
pub open spec fn first_def_named(v: CpgView, name: Seq<char>) -> Option<nat> {
    let s = def_indices(v.nodes, name);
    if s.len() > 0 {
        Some(s[0])
    } else {
        None
    }
}

/// The entry nodes of a dead-code query: the first definition of each of
/// the names that has one.
pub open spec fn entry_nodes(v: CpgView, names: Seq<Seq<char>>) -> Set<nat> {
    Set::new(|x: nat| exists|k: int| 0 <= k < names.len() && first_def_named(v, names[k]) == Some(x))
}

/// The function nodes that are not reachable from `entries`, among the
/// first `m` nodes.
pub open spec fn unreached_functions(v: CpgView, entries: Set<nat>, m: nat) -> Seq<nat>
    decreases m,
{
    if m == 0 {
        seq![]
    } else {
        let r = unreached_functions(v, entries, (m - 1) as nat);
        if v.nodes[m - 1].kind == NodeKind::Function && !call_reachable(v, entries, (m - 1) as nat) {
            r.push((m - 1) as nat)
        } else {
            r
        }
    }
}

/// The strings of a list of strings.
pub open spec fn string_views(s: Seq<String>) -> Seq<Seq<char>> {
    s.map_values(|x: String| x@)
}

/// Which values `pick` lists.
proof fn lemma_pick_member(recs: Seq<(nat, nat, nat, Edge)>, k: Edge, sources: bool, x: nat)
    ensures
        pick(recs, k, sources).contains(x) <==> exists|i: int|
            0 <= i < recs.len() && (#[trigger] recs[i]).3 == k && (if sources { recs[i].1 } else { recs[i].2 }) == x,
    decreases recs.len(),
{
    if recs.len() > 0 {
        let init = recs.drop_last();
        lemma_pick_member(init, k, sources, x);
        let r = pick(init, k, sources);
        let last = recs.last();
        if exists|i: int| 0 <= i < init.len() && (#[trigger] init[i]).3 == k && (if sources { init[i].1 } else { init[i].2 }) == x {
            let i = choose|i: int| 0 <= i < init.len() && (#[trigger] init[i]).3 == k && (if sources { init[i].1 } else { init[i].2 }) == x;
            assert(recs[i] == init[i]);
        }
        if exists|i: int| 0 <= i < recs.len() && (#[trigger] recs[i]).3 == k && (if sources { recs[i].1 } else { recs[i].2 }) == x {
            let i = choose|i: int| 0 <= i < recs.len() && (#[trigger] recs[i]).3 == k && (if sources { recs[i].1 } else { recs[i].2 }) == x;
            if i < init.len() {
                assert(init[i] == recs[i]);
            } else {
                assert(recs[i] == last);
            }
        }
        if r.contains(x) {
            let j = choose|j: int| 0 <= j < r.len() && r[j] == x;
            if last.3 == k {
                assert(r.push(if sources { last.1 } else { last.2 })[j] == x);
            }
        }
        if last.3 == k && (if sources { last.1 } else { last.2 }) == x {
            assert(r.push(if sources { last.1 } else { last.2 })[r.len() as int] == x);
        }
        if pick(recs, k, sources).contains(x) && !r.contains(x) {
            let j = choose|j: int| 0 <= j < pick(recs, k, sources).len() && pick(recs, k, sources)[j] == x;
            if last.3 == k && j < r.len() {
                assert(r[j] == x);
            }
        }
    }
}

/// Every edge with endpoint `a` has a record among the incident edges.
proof fn lemma_incident_complete(es: Seq<(nat, nat, Edge)>, a: nat, incoming: bool, e: int)
    requires
        0 <= e < es.len(),
        endpoint(es[e], incoming) == a,
    ensures
        exists|k: int| 0 <= k < incident(es, a, incoming).len() && (#[trigger] incident(es, a, incoming)[k]).0 == e,
    decreases es.len(),
{
    let init = es.drop_last();
    let rest = incident(init, a, incoming);
    if e < es.len() - 1 {
        assert(init[e] == es[e]);
        lemma_incident_complete(init, a, incoming, e);
        let k = choose|k: int| 0 <= k < rest.len() && (#[trigger] rest[k]).0 == e;
        if endpoint(es.last(), incoming) == a {
            assert(incident(es, a, incoming)[k + 1] == rest[k]);
        } else {
            assert(incident(es, a, incoming)[k] == rest[k]);
        }
    } else {
        assert(incident(es, a, incoming)[0].0 == e);
    }
}

/// The call successors of node `c`, as petgraph lists them, are exactly the
/// targets of call edges from `c`.
pub proof fn lemma_call_successors(v: CpgView, c: nat, t: nat)
    ensures
        pick(incident(v.edges, c, false), Edge::Call, false).contains(t) <==> calls_edge(v, c, t),
{
    let recs = incident(v.edges, c, false);
    lemma_pick_member(recs, Edge::Call, false, t);
    lemma_incident_records(v.edges, c, false);
    if pick(recs, Edge::Call, false).contains(t) {
        let i = choose|i: int| 0 <= i < recs.len() && (#[trigger] recs[i]).3 == Edge::Call && recs[i].2 == t;
        assert(v.edges[recs[i].0 as int] == (recs[i].1, recs[i].2, recs[i].3));
        assert(v.edges[recs[i].0 as int] == (c, t, Edge::Call));
    }
    if calls_edge(v, c, t) {
        let e = choose|e: int| 0 <= e < v.edges.len() && v.edges[e] == (c, t, Edge::Call);
        lemma_incident_complete(v.edges, c, false, e);
        let k = choose|k: int| 0 <= k < recs.len() && (#[trigger] recs[k]).0 == e;
        assert(v.edges[recs[k].0 as int] == (recs[k].1, recs[k].2, recs[k].3));
    }
}

/// A list of distinct indices below `n` has at most `n` elements.
proof fn lemma_distinct_bound(s: Seq<usize>, n: nat)
    requires
        s.no_duplicates(),
        forall|i: int| 0 <= i < s.len() ==> #[trigger] s[i] < n,
    ensures
        s.len() <= n,
{
    let si = s.map_values(|x: usize| x as int);
    assert forall|i: int, j: int| 0 <= i < si.len() && 0 <= j < si.len() && i != j implies si[i] != si[j] by {
        assert(s[i] != s[j]);
    }
    assert(si.no_duplicates());
    si.unique_seq_to_set();
    vstd::set_lib::lemma_int_range(0, n as int);
    assert forall|x: int| si.to_set().contains(x) implies vstd::set_lib::set_int_range(0, n as int).contains(x) by {
        let i = choose|i: int| 0 <= i < si.len() && si[i] == x;
        assert(s[i] < n);
    }
    vstd::set_lib::lemma_len_subset(si.to_set(), vstd::set_lib::set_int_range(0, n as int));
}

/// A set of nodes that holds the entries and is closed under call edges
/// holds every node reachable from the entries.
proof fn lemma_closed_reach(v: CpgView, entries: Set<nat>, visited: Seq<bool>, x: nat)
    requires
        forall|e: nat| #[trigger] entries.contains(e) ==> e < visited.len() && visited[e as int],
        forall|a: nat, b: nat|
            a < visited.len() && visited[a as int] && #[trigger] calls_edge(v, a, b) ==> b < visited.len() && visited[b as int],
        call_reachable(v, entries, x),
    ensures
        x < visited.len() && visited[x as int],
{
    let p = choose|p: Seq<nat>| #[trigger] is_call_path(v, p) && entries.contains(p[0]) && p.last() == x;
    lemma_closed_path(v, visited, p, p.len() - 1);
}

/// Along a call path that starts in a closed set, every node is in the set.
proof fn lemma_closed_path(v: CpgView, visited: Seq<bool>, p: Seq<nat>, k: int)
    requires
        is_call_path(v, p),
        0 <= k < p.len(),
        p[0] < visited.len() && visited[p[0] as int],
        forall|a: nat, b: nat|
            a < visited.len() && visited[a as int] && #[trigger] calls_edge(v, a, b) ==> b < visited.len() && visited[b as int],
    ensures
        p[k] < visited.len() && visited[p[k] as int],
    decreases k,
{
    if k > 0 {
        lemma_closed_path(v, visited, p, k - 1);
        let i = k - 1;
        assert(calls_edge(v, p[i], p[i + 1]));
    }
}

/// The index of the first definition named `name`.
fn first_def_index(cpg: &CodePropertyGraph, name: &str) -> (r: Option<usize>)
    ensures
        match r {
            Some(i) => first_def_named(cpg@, name@) == Some(i as nat) && i < cpg@.nodes.len(),
            None => first_def_named(cpg@, name@) is None,
        },
{
    let n = cpg.node_count();
    let mut i: usize = 0;
    proof {
        assert(cpg@.nodes.take(0) =~= Seq::<NodeView>::empty());
    }
    while i < n
        invariant
            i <= n,
            n == cpg@.nodes.len(),
            def_indices(cpg@.nodes.take(i as int), name@).len() == 0,
        decreases n - i,
    {
        let node = cpg.node(i);
        proof {
            assert(cpg@.nodes.take(i as int + 1).drop_last() =~= cpg@.nodes.take(i as int));
        }
        if is_definition(node.kind) && name_is(node, name) {
            proof {
                assert(cpg@.nodes.take(i as int + 1).last() == cpg@.nodes[i as int]);
                assert(def_indices(cpg@.nodes.take(i as int + 1), name@) == def_indices(cpg@.nodes.take(i as int), name@).push(
                    i as nat,
                ));
                lemma_def_indices_take(cpg@.nodes, name@, i as int + 1);
                assert(def_indices(cpg@.nodes.take(i as int + 1), name@)[0] == i as nat);
                assert(def_indices(cpg@.nodes, name@)[0] == i as nat);
            }
            return Some(i);
        }
        i = i + 1;
    }
    proof {
        assert(cpg@.nodes.take(n as int) =~= cpg@.nodes);
    }
    None
}

/// What `def_indices` lists for a prefix of the nodes starts what it lists
/// for all of them.
proof fn lemma_def_indices_take(nodes: Seq<NodeView>, name: Seq<char>, j: int)
    requires
        0 <= j <= nodes.len(),
    ensures
        def_indices(nodes.take(j), name).len() <= def_indices(nodes, name).len(),
        forall|k: int|
            0 <= k < def_indices(nodes.take(j), name).len() ==> #[trigger] def_indices(nodes.take(j), name)[k]
                == def_indices(nodes, name)[k],
    decreases nodes.len() - j,
{
    if j < nodes.len() {
        lemma_def_indices_take(nodes, name, j + 1);
        assert(nodes.take(j + 1).drop_last() =~= nodes.take(j));
        let a = def_indices(nodes.take(j), name);
        let b = def_indices(nodes.take(j + 1), name);
        assert forall|k: int| 0 <= k < a.len() implies #[trigger] a[k] == def_indices(nodes, name)[k] by {
            assert(a[k] == b[k]);
        }
    } else {
        assert(nodes.take(j) =~= nodes);
    }
}

/// The functions that cannot be reached along call edges from the entry
/// functions: the first definition (function or class) of each name in
/// `entry_names` that has one.  When no entry is found, every function is
/// unreachable.  Functions are listed in index order.
pub fn detect_dead_code<'a>(cpg: &'a CodePropertyGraph, entry_names: &[String]) -> (r: Vec<&'a Node>)
    ensures
        ref_views(r@) == views_at(
            cpg@.nodes,
            unreached_functions(cpg@, entry_nodes(cpg@, string_views(entry_names@)), cpg@.nodes.len()),
        ),
{
    let n = cpg.node_count();
    let ghost v = cpg@;
    let ghost names = string_views(entry_names@);
    let ghost ents = entry_nodes(v, names);
    let mut visited: Vec<bool> = Vec::new();
    let mut i: usize = 0;
    while i < n
        invariant
            i <= n,
            visited@.len() == i,
            forall|q: int| 0 <= q < i ==> !(#[trigger] visited@[q]),
        decreases n - i,
    {
        visited.push(false);
        i = i + 1;
    }
    let mut queue: Vec<usize> = Vec::new();
    let mut k: usize = 0;
    while k < entry_names.len()
        invariant
            k <= entry_names@.len(),
            v == cpg@,
            n == v.nodes.len(),
            names == string_views(entry_names@),
            ents == entry_nodes(v, names),
            visited@.len() == n,
            forall|x: int| 0 <= x < n ==> (#[trigger] visited@[x] <==> queue@.contains(x as usize)),
            forall|q: int| 0 <= q < queue@.len() ==> #[trigger] queue@[q] < n,
            queue@.no_duplicates(),
            forall|q: int| 0 <= q < queue@.len() ==> call_reachable(v, ents, #[trigger] queue@[q] as nat),
            forall|kk: int|
                0 <= kk < k ==> match #[trigger] first_def_named(v, names[kk]) {
                    Some(x) => x < n && visited@[x as int],
                    None => true,
                },
        decreases entry_names@.len() - k,
    {
        match first_def_index(cpg, entry_names[k].as_str()) {
            Some(x) => {
                proof {
                    assert(names[k as int] == entry_names@[k as int]@);
                    assert(ents.contains(x as nat));
                    assert(is_call_path(v, seq![x as nat]));
                    assert(call_reachable(v, ents, x as nat));
                }
                if !visited[x] {
                    let ghost oldq = queue@;
                    let ghost oldv = visited@;
                    visited.set(x, true);
                    queue.push(x);
                    proof {
                        assert forall|y: int| 0 <= y < n implies (#[trigger] visited@[y] <==> queue@.contains(y as usize)) by {
                            if y != x {
                                assert(visited@[y] == oldv[y]);
                                if queue@.contains(y as usize) {
                                    let q = choose|q: int| 0 <= q < queue@.len() && queue@[q] == y as usize;
                                    assert(q < queue@.len() - 1);
                                    assert(oldq[q] == y as usize);
                                }
                                if visited@[y] {
                                    assert(oldq.contains(y as usize));
                                    let q = choose|q: int| 0 <= q < oldq.len() && oldq[q] == y as usize;
                                    assert(queue@[q] == y as usize);
                                }
                            } else {
                                assert(queue@[queue@.len() - 1] == x);
                            }
                        }
                        assert forall|a: int, b: int| 0 <= a < queue@.len() && 0 <= b < queue@.len() && a != b implies queue@[a]
                            != queue@[b] by {
                            if a < oldq.len() && b < oldq.len() {
                            } else if a == oldq.len() {
                                assert(oldq.contains(queue@[b]) ==> oldv[queue@[b] as int]);
                            } else {
                                assert(oldq.contains(queue@[a]) ==> oldv[queue@[a] as int]);
                            }
                        }
                        assert forall|q: int| 0 <= q < queue@.len() implies call_reachable(v, ents, #[trigger] queue@[q] as nat) by {
                            if q < oldq.len() {
                                assert(queue@[q] == oldq[q]);
                            }
                        }
                    }
                }
            },
            None => {
                proof {
                    assert(names[k as int] == entry_names@[k as int]@);
                }
            },
        }
        k = k + 1;
    }
    proof {
        assert forall|e: nat| #[trigger] ents.contains(e) implies e < visited@.len() && visited@[e as int] by {
            let kk = choose|kk: int| 0 <= kk < names.len() && first_def_named(v, names[kk]) == Some(e);
            assert(match first_def_named(v, names[kk]) {
                Some(x) => x < n && visited@[x as int],
                None => true,
            });
        }
    }
    let mut head: usize = 0;
    proof {
        lemma_distinct_bound(queue@, n as nat);
    }
    while head < queue.len()
        invariant
            head <= queue@.len(),
            queue@.len() <= n,
            v == cpg@,
            cpg_wf(v),
            n == v.nodes.len(),
            ents == entry_nodes(v, names),
            visited@.len() == n,
            forall|x: int| 0 <= x < n ==> (#[trigger] visited@[x] <==> queue@.contains(x as usize)),
            forall|q: int| 0 <= q < queue@.len() ==> #[trigger] queue@[q] < n,
            queue@.no_duplicates(),
            forall|q: int| 0 <= q < queue@.len() ==> call_reachable(v, ents, #[trigger] queue@[q] as nat),
            forall|e: nat| #[trigger] ents.contains(e) ==> e < visited@.len() && visited@[e as int],
            forall|q: int, t: nat|
                0 <= q < head && #[trigger] calls_edge(v, queue@[q] as nat, t) ==> t < n && visited@[t as int],
        decreases n - head,
    {
        let c = queue[head];
        let succ = neighbours(cpg, c, Edge::Call, false);
        let ghost sn = succ@.map_values(|i: usize| i as nat);
        let ghost qh = head;
        let mut j: usize = 0;
        while j < succ.len()
            invariant
                j <= succ@.len(),
                head < queue@.len(),
                qh == head,
                c == queue@[head as int],
                v == cpg@,
                cpg_wf(v),
                n == v.nodes.len(),
                sn == succ@.map_values(|i: usize| i as nat),
                sn == pick(incident(v.edges, c as nat, false), Edge::Call, false),
                forall|q: int| 0 <= q < succ@.len() ==> #[trigger] succ@[q] < n,
                visited@.len() == n,
                forall|x: int| 0 <= x < n ==> (#[trigger] visited@[x] <==> queue@.contains(x as usize)),
                forall|q: int| 0 <= q < queue@.len() ==> #[trigger] queue@[q] < n,
                queue@.no_duplicates(),
                forall|q: int| 0 <= q < queue@.len() ==> call_reachable(v, ents, #[trigger] queue@[q] as nat),
                forall|e: nat| #[trigger] ents.contains(e) ==> e < visited@.len() && visited@[e as int],
                forall|q: int, t: nat|
                    0 <= q < head && #[trigger] calls_edge(v, queue@[q] as nat, t) ==> t < n && visited@[t as int],
                forall|q: int| 0 <= q < j ==> #[trigger] visited@[succ@[q] as int],
            decreases succ@.len() - j,
        {
            let t = succ[j];
            if !visited[t] {
                let ghost oldq = queue@;
                proof {
                    assert(sn[j as int] == t as nat);
                    assert(sn.contains(t as nat));
                    lemma_call_successors(v, c as nat, t as nat);
                    let p = choose|p: Seq<nat>| #[trigger] is_call_path(v, p) && ents.contains(p[0]) && p.last() == c as nat;
                    let p2 = p.push(t as nat);
                    assert forall|i: int| 0 <= i < p2.len() - 1 implies #[trigger] calls_edge(v, p2[i], p2[i + 1]) by {
                        if i < p.len() - 1 {
                            assert(p2[i] == p[i] && p2[i + 1] == p[i + 1]);
                        }
                    }
                    assert(is_call_path(v, p2));
                    assert(call_reachable(v, ents, t as nat));
                }
                visited.set(t, true);
                queue.push(t);
                proof {
                    assert forall|y: int| 0 <= y < n implies (#[trigger] visited@[y] <==> queue@.contains(y as usize)) by {
                        if y != t {
                            if queue@.contains(y as usize) {
                                let q = choose|q: int| 0 <= q < queue@.len() && queue@[q] == y as usize;
                                assert(q < queue@.len() - 1);
                                assert(oldq[q] == y as usize);
                            }
                            if visited@[y] {
                                assert(oldq.contains(y as usize));
                                let q = choose|q: int| 0 <= q < oldq.len() && oldq[q] == y as usize;
                                assert(queue@[q] == y as usize);
                            }
                        } else {
                            assert(queue@[queue@.len() - 1] == t);
                        }
                    }
                    assert forall|a: int, b: int| 0 <= a < queue@.len() && 0 <= b < queue@.len() && a != b implies queue@[a]
                        != queue@[b] by {
                        if a < oldq.len() && b < oldq.len() {
                        } else if a == oldq.len() {
                            assert(oldq.contains(queue@[b]) ==> visited@[queue@[b] as int]);
                        } else {
                            assert(oldq.contains(queue@[a]) ==> visited@[queue@[a] as int]);
                        }
                    }
                    assert forall|q: int| 0 <= q < queue@.len() implies call_reachable(v, ents, #[trigger] queue@[q] as nat) by {
                        if q < oldq.len() {
                            assert(queue@[q] == oldq[q]);
                        }
                    }
                    assert forall|q: int, tt: nat| 0 <= q < head && #[trigger] calls_edge(v, queue@[q] as nat, tt) implies tt < n
                        && visited@[tt as int] by {
                        assert(queue@[q] == oldq[q]);
                    }
                }
            }
            j = j + 1;
        }
        proof {
            assert forall|q: int, tt: nat| 0 <= q < head + 1 && #[trigger] calls_edge(v, queue@[q] as nat, tt) implies tt < n
                && visited@[tt as int] by {
                if q == head {
                    lemma_call_successors(v, c as nat, tt);
                    let w = choose|w: int| 0 <= w < sn.len() && sn[w] == tt;
                    assert(sn[w] == succ@[w] as nat);
                }
            }
            lemma_distinct_bound(queue@, n as nat);
        }
        head = head + 1;
    }
    proof {
        assert forall|a: nat, b: nat| a < visited@.len() && visited@[a as int] && #[trigger] calls_edge(v, a, b) implies b
            < visited@.len() && visited@[b as int] by {
            let q = choose|q: int| 0 <= q < queue@.len() && queue@[q] == a as usize;
            assert(calls_edge(v, queue@[q] as nat, b));
        }
    }
    let mut r: Vec<&'a Node> = Vec::new();
    let mut i: usize = 0;
    proof {
        assert(ref_views(r@) =~= views_at(v.nodes, unreached_functions(v, ents, 0)));
    }
    while i < n
        invariant
            i <= n,
            v == cpg@,
            n == v.nodes.len(),
            visited@.len() == n,
            forall|x: int| 0 <= x < n ==> (#[trigger] visited@[x] <==> queue@.contains(x as usize)),
            forall|q: int| 0 <= q < queue@.len() ==> call_reachable(v, ents, #[trigger] queue@[q] as nat),
            forall|e: nat| #[trigger] ents.contains(e) ==> e < visited@.len() && visited@[e as int],
            forall|a: nat, b: nat|
                a < visited@.len() && visited@[a as int] && #[trigger] calls_edge(v, a, b) ==> b < visited@.len()
                    && visited@[b as int],
            ref_views(r@) == views_at(v.nodes, unreached_functions(v, ents, i as nat)),
        decreases n - i,
    {
        let node = cpg.node(i);
        proof {
            if call_reachable(v, ents, i as nat) {
                lemma_closed_reach(v, ents, visited@, i as nat);
            }
            if visited@[i as int] {
                let q = choose|q: int| 0 <= q < queue@.len() && queue@[q] == i;
                assert(call_reachable(v, ents, queue@[q] as nat));
            }
        }
        if node.kind == NodeKind::Function && !visited[i] {
            let ghost before = r@;
            r.push(node);
            proof {
                assert(ref_views(r@) =~= ref_views(before).push(node@));
            }
        }
        proof {
            assert(ref_views(r@) =~= views_at(v.nodes, unreached_functions(v, ents, i as nat + 1)));
        }
        i = i + 1;
    }
    r
}

#[verifier::external_type_specification]
#[verifier::external_body]
#[verifier::reject_recursive_types(N)]
#[verifier::reject_recursive_types(E)]
#[verifier::reject_recursive_types(Ty)]
#[verifier::reject_recursive_types(Ix)]
pub struct ExGraph<N, E, Ty, Ix>(Graph<N, E, Ty, Ix>);

/// A cycle of function calls.
pub struct CallCycle {
    /// Names of the functions in the cycle, in the order the strongly
    /// connected component lists them.
    pub functions: Vec<String>,
    /// Number of distinct functions in the cycle.
    pub length: usize,
}

/// The mathematical value of a [`CallCycle`].
pub struct CallCycleView {
    pub functions: Seq<Seq<char>>,
    pub length: nat,
}

impl View for CallCycle {
    type V = CallCycleView;

    open spec fn view(&self) -> CallCycleView {
        CallCycleView { functions: self.functions@.map_values(|s: String| s@), length: self.length as nat }
    }
}

/// The node weights of a call graph, in index order.
pub uninterp spec fn cg_names(g: Graph<String, ()>) -> Seq<Seq<char>>;

/// The edges of a call graph, in index order, as (source, target).
pub uninterp spec fn cg_edges(g: Graph<String, ()>) -> Seq<(nat, nat)>;

/// Whether no node was ever removed from a call graph.
pub uninterp spec fn cg_append_only(g: Graph<String, ()>) -> bool;

/// The components that `petgraph::algo::kosaraju_scc` returns for a graph
/// built by adding `n` nodes and then `edges` in order.
pub uninterp spec fn kosaraju_components(n: nat, edges: Seq<(nat, nat)>) -> Seq<Seq<nat>>;

/// An edge from `a` to `b`.
pub open spec fn cg_step(edges: Seq<(nat, nat)>, a: nat, b: nat) -> bool {
    edges.contains((a, b))
}

/// A path along edges.
pub open spec fn cg_path(edges: Seq<(nat, nat)>, p: Seq<nat>) -> bool {
    p.len() >= 1 && forall|i: int| 0 <= i < p.len() - 1 ==> #[trigger] cg_step(edges, p[i], p[i + 1])
}

/// Whether `b` can be reached from `a` (every node reaches itself).
pub open spec fn cg_reaches(edges: Seq<(nat, nat)>, a: nat, b: nat) -> bool {
    exists|p: Seq<nat>| #[trigger] cg_path(edges, p) && p[0] == a && p.last() == b
}

/// Whether `a` lies on a cycle: a path of at least one edge from `a` back
/// to `a`.
pub open spec fn cg_on_cycle(edges: Seq<(nat, nat)>, a: nat) -> bool {
    exists|p: Seq<nat>| #[trigger] cg_path(edges, p) && p.len() >= 2 && p[0] == a && p.last() == a
}

/// Whether some component holds node `x`.
pub open spec fn in_some_comp(comps: Seq<Seq<nat>>, x: nat) -> bool {
    exists|i: int| 0 <= i < comps.len() && (#[trigger] comps[i]).contains(x)
}

/// `comps` are the strongly connected components of the graph with nodes
/// `0..n` and the given edges: every node lies in exactly one component,
/// no component repeats a node, and two nodes share a component exactly
/// when each reaches the other.
pub open spec fn is_scc_partition(comps: Seq<Seq<nat>>, n: nat, edges: Seq<(nat, nat)>) -> bool {
    &&& forall|i: int, j: int| 0 <= i < comps.len() && 0 <= j < comps[i].len() ==> #[trigger] comps[i][j] < n
    &&& forall|i: int| 0 <= i < comps.len() ==> (#[trigger] comps[i]).no_duplicates()
    &&& forall|x: nat| x < n ==> #[trigger] in_some_comp(comps, x)
    &&& forall|i1: int, i2: int, x: nat|
        #![trigger comps[i1].contains(x), comps[i2].contains(x)]
        0 <= i1 < comps.len() && 0 <= i2 < comps.len() && comps[i1].contains(x) && comps[i2].contains(x) ==> i1 == i2
    &&& forall|i: int, a: nat, b: nat|
        #![trigger comps[i].contains(a), comps[i].contains(b)]
        0 <= i < comps.len() && comps[i].contains(a) && comps[i].contains(b) ==> cg_reaches(edges, a, b)
    &&& forall|i1: int, i2: int, a: nat, b: nat|
        #![trigger comps[i1].contains(a), comps[i2].contains(b)]
        0 <= i1 < comps.len() && 0 <= i2 < comps.len() && comps[i1].contains(a) && comps[i2].contains(b) && cg_reaches(
            edges,
            a,
            b,
        ) && cg_reaches(edges, b, a) ==> i1 == i2
}

/// Components as sequences of `nat`.
pub open spec fn comps_nat(c: Seq<Vec<usize>>) -> Seq<Seq<nat>> {
    c.map_values(|v: Vec<usize>| v@.map_values(|x: usize| x as nat))
}

/// `petgraph::graph::Graph::new`: an empty graph, nothing removed.
#[verifier::external_body]
fn cg_new() -> (g: Graph<String, ()>)
    ensures
        cg_names(g) == Seq::<Seq<char>>::empty(),
        cg_edges(g) == Seq::<(nat, nat)>::empty(),
        cg_append_only(g),
{
    Graph::new()
}

/// `Graph::add_node`: the node takes the next index.  It panics when that
/// index would be the `u32` end marker, hence the bound.
#[verifier::external_body]
fn cg_add_node(g: &mut Graph<String, ()>, w: String) -> (r: usize)
    requires
        cg_names(*old(g)).len() < u32::MAX,
    ensures
        r == cg_names(*old(g)).len(),
        cg_names(*final(g)) == cg_names(*old(g)).push(w@),
        cg_edges(*final(g)) == cg_edges(*old(g)),
        cg_append_only(*final(g)) == cg_append_only(*old(g)),
{
    g.add_node(w).index()
}

/// `Graph::add_edge` between existing nodes: the edge takes the next
/// index.  It panics on a missing node and when the index would be the
/// `u32` end marker, hence the bounds.
#[verifier::external_body]
fn cg_add_edge(g: &mut Graph<String, ()>, a: usize, b: usize)
    requires
        a < cg_names(*old(g)).len(),
        b < cg_names(*old(g)).len(),
        cg_edges(*old(g)).len() < u32::MAX,
    ensures
        cg_edges(*final(g)) == cg_edges(*old(g)).push((a as nat, b as nat)),
        cg_names(*final(g)) == cg_names(*old(g)),
        cg_append_only(*final(g)) == cg_append_only(*old(g)),
{
    g.add_edge(petgraph::graph::NodeIndex::new(a), petgraph::graph::NodeIndex::new(b), ());
}

/// Indexing a graph by a node index, cloned: that node's weight.
#[verifier::external_body]
fn cg_weight(g: &Graph<String, ()>, i: usize) -> (r: String)
    requires
        i < cg_names(*g).len(),
    ensures
        r@ == cg_names(*g)[i as int],
{
    g[petgraph::graph::NodeIndex::new(i)].clone()
}

/// `Graph::contains_edge`: whether some edge goes from `a` to `b`.
#[verifier::external_body]
fn cg_contains_edge(g: &Graph<String, ()>, a: usize, b: usize) -> (r: bool)
    requires
        a < cg_names(*g).len(),
        b < cg_names(*g).len(),
    ensures
        r == cg_step(cg_edges(*g), a as nat, b as nat),
{
    g.contains_edge(petgraph::graph::NodeIndex::new(a), petgraph::graph::NodeIndex::new(b))
}

/// `petgraph::algo::kosaraju_scc`, with node indices as `usize`: the
/// strongly connected components of the graph; on a graph that never lost
/// a node, exactly [`kosaraju_components`] of its nodes and edges.
#[verifier::external_body]
fn cg_sccs(g: &Graph<String, ()>) -> (r: Vec<Vec<usize>>)
    ensures
        is_scc_partition(comps_nat(r@), cg_names(*g).len(), cg_edges(*g)),
        cg_append_only(*g) ==> comps_nat(r@) == kosaraju_components(cg_names(*g).len(), cg_edges(*g)),
{
    petgraph::algo::kosaraju_scc(g).into_iter().map(|c| c.into_iter().map(|i| i.index()).collect()).collect()
}

/// The definition nodes (functions and classes) among the first `m` nodes,
/// in index order: the nodes of the call graph.
pub open spec fn def_nodes(nodes: Seq<NodeView>, m: nat) -> Seq<nat>
    decreases m,
{
    if m == 0 {
        seq![]
    } else {
        let r = def_nodes(nodes, (m - 1) as nat);
        if is_definition_kind(nodes[m - 1].kind) {
            r.push((m - 1) as nat)
        } else {
            r
        }
    }
}

/// The call-graph index of node `i`: its position among the definitions.
pub open spec fn cg_index(nodes: Seq<NodeView>, i: nat) -> nat {
    def_nodes(nodes, i).len()
}

/// The names of the call graph's nodes.
pub open spec fn call_graph_names(v: CpgView) -> Seq<Seq<char>> {
    def_nodes(v.nodes, v.nodes.len()).map_values(|i: nat| shown_name(v.nodes[i as int]))
}

/// The call graph's edges: the call edges between definitions, in index
/// order, between call-graph indices.
pub open spec fn call_graph_edges(v: CpgView, es: Seq<(nat, nat, Edge)>) -> Seq<(nat, nat)>
    decreases es.len(),
{
    if es.len() == 0 {
        seq![]
    } else {
        let r = call_graph_edges(v, es.drop_last());
        let e = es.last();
        if e.2 == Edge::Call && e.0 < v.nodes.len() && e.1 < v.nodes.len() && is_definition_kind(v.nodes[e.0 as int].kind)
            && is_definition_kind(v.nodes[e.1 as int].kind) {
            r.push((cg_index(v.nodes, e.0), cg_index(v.nodes, e.1)))
        } else {
            r
        }
    }
}

/// Whether a node is a function or a class.
pub open spec fn fn_or_class(n: NodeView) -> bool {
    n.kind == NodeKind::Function || n.kind == NodeKind::Class
}

proof fn lemma_def_nodes_exact(nodes: Seq<NodeView>, m: nat)
    requires
        m <= nodes.len(),
    ensures
        forall|j: int, k: int| 0 <= j < k < def_nodes(nodes, m).len() ==> #[trigger] def_nodes(nodes, m)[j] < #[trigger] def_nodes(nodes, m)[k],
        forall|k: int| 0 <= k < def_nodes(nodes, m).len() ==> #[trigger] def_nodes(nodes, m)[k] < m,
        forall|i: nat| i < m ==> (#[trigger] def_nodes(nodes, m).contains(i) <==> fn_or_class(nodes[i as int])),
    decreases m,
{
    if m > 0 {
        lemma_def_nodes_exact(nodes, (m - 1) as nat);
        let r = def_nodes(nodes, (m - 1) as nat);
        let d = def_nodes(nodes, m);
        assert forall|j: int, k: int| 0 <= j < k < d.len() implies #[trigger] d[j] < #[trigger] d[k] by {
            if k < r.len() {
                assert(d[j] == r[j] && d[k] == r[k]);
            } else {
                assert(d[j] == r[j]);
            }
        }
        assert forall|k: int| 0 <= k < d.len() implies #[trigger] d[k] < m by {
            if k < r.len() {
                assert(d[k] == r[k]);
            }
        }
        assert forall|i: nat| i < m implies (#[trigger] d.contains(i) <==> fn_or_class(nodes[i as int])) by {
            if i < m - 1 {
                if d.contains(i) {
                    let k = choose|k: int| 0 <= k < d.len() && d[k] == i;
                    if k < r.len() {
                        assert(r[k] == i);
                    }
                }
                if r.contains(i) {
                    let k = choose|k: int| 0 <= k < r.len() && r[k] == i;
                    assert(d[k] == i);
                }
            } else {
                if d.contains(i) {
                    let k = choose|k: int| 0 <= k < d.len() && d[k] == i;
                    if k < r.len() {
                        assert(r[k] == i);
                    }
                }
                if fn_or_class(nodes[i as int]) {
                    assert(d[d.len() - 1] == i);
                }
            }
        }
    }
}

proof fn lemma_call_graph_edges_exact(v: CpgView, es: Seq<(nat, nat, Edge)>)
    ensures
        forall|p: (nat, nat)|
            #[trigger] call_graph_edges(v, es).contains(p) <==> exists|j: int|
                0 <= j < es.len() && (#[trigger] es[j]).2 == Edge::Call && es[j].0 < v.nodes.len() && es[j].1 < v.nodes.len()
                    && fn_or_class(v.nodes[es[j].0 as int]) && fn_or_class(v.nodes[es[j].1 as int]) && p == (
                    cg_index(v.nodes, es[j].0),
                    cg_index(v.nodes, es[j].1),
                ),
    decreases es.len(),
{
    if es.len() > 0 {
        let init = es.drop_last();
        lemma_call_graph_edges_exact(v, init);
        let r = call_graph_edges(v, init);
        let u = call_graph_edges(v, es);
        assert forall|p: (nat, nat)| #[trigger] u.contains(p) <==> exists|j: int|
            0 <= j < es.len() && (#[trigger] es[j]).2 == Edge::Call && es[j].0 < v.nodes.len() && es[j].1 < v.nodes.len() && fn_or_class(
                v.nodes[es[j].0 as int],
            ) && fn_or_class(v.nodes[es[j].1 as int]) && p == (cg_index(v.nodes, es[j].0), cg_index(v.nodes, es[j].1)) by {
            if u.contains(p) {
                let k = choose|k: int| 0 <= k < u.len() && u[k] == p;
                if k < r.len() {
                    assert(r[k] == p);
                    assert(r.contains(p));
                    let j = choose|j: int|
                        0 <= j < init.len() && (#[trigger] init[j]).2 == Edge::Call && init[j].0 < v.nodes.len() && init[j].1 < v.nodes.len()
                            && fn_or_class(v.nodes[init[j].0 as int]) && fn_or_class(v.nodes[init[j].1 as int]) && p == (
                            cg_index(v.nodes, init[j].0),
                            cg_index(v.nodes, init[j].1),
                        );
                    assert(es[j] == init[j]);
                } else {
                    assert(es[es.len() - 1] == es.last());
                }
            }
            if exists|j: int|
                0 <= j < es.len() && (#[trigger] es[j]).2 == Edge::Call && es[j].0 < v.nodes.len() && es[j].1 < v.nodes.len() && fn_or_class(
                    v.nodes[es[j].0 as int],
                ) && fn_or_class(v.nodes[es[j].1 as int]) && p == (cg_index(v.nodes, es[j].0), cg_index(v.nodes, es[j].1)) {
                let j = choose|j: int|
                    0 <= j < es.len() && (#[trigger] es[j]).2 == Edge::Call && es[j].0 < v.nodes.len() && es[j].1 < v.nodes.len() && fn_or_class(
                        v.nodes[es[j].0 as int],
                    ) && fn_or_class(v.nodes[es[j].1 as int]) && p == (cg_index(v.nodes, es[j].0), cg_index(v.nodes, es[j].1));
                if j < init.len() {
                    assert(init[j] == es[j]);
                    assert(r.contains(p));
                    let k = choose|k: int| 0 <= k < r.len() && r[k] == p;
                    assert(u[k] == p);
                } else {
                    assert(u[u.len() - 1] == p);
                }
            }
        }
    }
}

/// The call graph that cycle detection examines has one node per function
/// or class, in index order (and no node of another kind), and an edge for
/// each call edge between two of them (and for no other edge).
pub proof fn lemma_call_graph_exact(v: CpgView)
    ensures
        forall|i: nat|
            i < v.nodes.len() ==> (#[trigger] def_nodes(v.nodes, v.nodes.len()).contains(i) <==> fn_or_class(v.nodes[i as int])),
        forall|j: int, k: int|
            0 <= j < k < def_nodes(v.nodes, v.nodes.len()).len() ==> #[trigger] def_nodes(v.nodes, v.nodes.len())[j]
                < #[trigger] def_nodes(v.nodes, v.nodes.len())[k],
        forall|p: (nat, nat)|
            #[trigger] call_graph_edges(v, v.edges).contains(p) <==> exists|j: int|
                0 <= j < v.edges.len() && (#[trigger] v.edges[j]).2 == Edge::Call && v.edges[j].0 < v.nodes.len() && v.edges[j].1
                    < v.nodes.len() && fn_or_class(v.nodes[v.edges[j].0 as int]) && fn_or_class(v.nodes[v.edges[j].1 as int])
                    && p == (cg_index(v.nodes, v.edges[j].0), cg_index(v.nodes, v.edges[j].1)),
{
    lemma_def_nodes_exact(v.nodes, v.nodes.len());
    lemma_call_graph_edges_exact(v, v.edges);
}

proof fn lemma_def_indices_exact(nodes: Seq<NodeView>, name: Seq<char>)
    ensures
        forall|j: int, k: int| 0 <= j < k < def_indices(nodes, name).len() ==> #[trigger] def_indices(nodes, name)[j] < #[trigger] def_indices(nodes, name)[k],
        forall|k: int| 0 <= k < def_indices(nodes, name).len() ==> #[trigger] def_indices(nodes, name)[k] < nodes.len(),
        forall|i: nat|
            i < nodes.len() ==> (#[trigger] def_indices(nodes, name).contains(i) <==> (fn_or_class(nodes[i as int])
                && nodes[i as int].name == Some(name))),
    decreases nodes.len(),
{
    if nodes.len() > 0 {
        let init = nodes.drop_last();
        lemma_def_indices_exact(init, name);
        let r = def_indices(init, name);
        let d = def_indices(nodes, name);
        let m = nodes.len();
        assert forall|j: int, k: int| 0 <= j < k < d.len() implies #[trigger] d[j] < #[trigger] d[k] by {
            if k < r.len() {
                assert(d[j] == r[j] && d[k] == r[k]);
            } else {
                assert(d[j] == r[j]);
            }
        }
        assert forall|k: int| 0 <= k < d.len() implies #[trigger] d[k] < m by {
            if k < r.len() {
                assert(d[k] == r[k]);
            }
        }
        assert forall|i: nat| i < m implies (#[trigger] d.contains(i) <==> (fn_or_class(nodes[i as int]) && nodes[i as int].name
            == Some(name))) by {
            if d.contains(i) {
                let k = choose|k: int| 0 <= k < d.len() && d[k] == i;
                if k < r.len() {
                    assert(r[k] == i);
                    assert(init[i as int] == nodes[i as int]);
                }
            }
            if i < m - 1 {
                assert(init[i as int] == nodes[i as int]);
                if r.contains(i) {
                    let k = choose|k: int| 0 <= k < r.len() && r[k] == i;
                    assert(d[k] == i);
                }
            } else if fn_or_class(nodes[i as int]) && nodes[i as int].name == Some(name) {
                assert(d[d.len() - 1] == i);
            }
        }
    }
}

/// The entry of a dead-code query for a name is the first function or class
/// node of that name, in index order; nodes of other kinds never are.
pub proof fn lemma_first_def_named(v: CpgView, name: Seq<char>)
    ensures
        match first_def_named(v, name) {
            Some(i) => i < v.nodes.len() && fn_or_class(v.nodes[i as int]) && v.nodes[i as int].name == Some(name)
                && forall|j: nat| j < i ==> !(fn_or_class(v.nodes[j as int]) && #[trigger] v.nodes[j as int].name == Some(name)),
            None => forall|j: nat| j < v.nodes.len() ==> !(fn_or_class(v.nodes[j as int]) && #[trigger] v.nodes[j as int].name == Some(name)),
        },
{
    lemma_def_indices_exact(v.nodes, name);
    let d = def_indices(v.nodes, name);
    if d.len() > 0 {
        assert(d.contains(d[0]));
        assert forall|j: nat| j < d[0] implies !(fn_or_class(v.nodes[j as int]) && #[trigger] v.nodes[j as int].name == Some(name)) by {
            if fn_or_class(v.nodes[j as int]) && v.nodes[j as int].name == Some(name) {
                assert(d.contains(j));
                let k = choose|k: int| 0 <= k < d.len() && d[k] == j;
                if k > 0 {
                    assert(d[0] < d[k]);
                }
            }
        }
    } else {
        assert forall|j: nat| j < v.nodes.len() implies !(fn_or_class(v.nodes[j as int]) && #[trigger] v.nodes[j as int].name == Some(name)) by {
            if fn_or_class(v.nodes[j as int]) && v.nodes[j as int].name == Some(name) {
                assert(d.contains(j));
            }
        }
    }
}

/// The components that are reported as cycles: those with more than one
/// node, and single nodes with an edge to themselves.
pub open spec fn cycle_comps(comps: Seq<Seq<nat>>, edges: Seq<(nat, nat)>) -> Seq<Seq<nat>>
    decreases comps.len(),
{
    if comps.len() == 0 {
        seq![]
    } else {
        let r = cycle_comps(comps.drop_last(), edges);
        let c = comps.last();
        if c.len() > 1 || (c.len() == 1 && cg_step(edges, c[0], c[0])) {
            r.push(c)
        } else {
            r
        }
    }
}

/// The reported cycles: each reported component with its names.
pub open spec fn cycles_of(names: Seq<Seq<char>>, comps: Seq<Seq<nat>>, edges: Seq<(nat, nat)>) -> Seq<CallCycleView> {
    cycle_comps(comps, edges).map_values(
        |c: Seq<nat>| CallCycleView { functions: c.map_values(|i: nat| names[i as int]), length: c.len() },
    )
}

/// The call graph of a code property graph and its components.
pub open spec fn call_graph_components(v: CpgView) -> Seq<Seq<nat>> {
    kosaraju_components(call_graph_names(v).len(), call_graph_edges(v, v.edges))
}

proof fn lemma_def_nodes(nodes: Seq<NodeView>, m: nat, k: nat)
    requires
        k <= m <= nodes.len(),
    ensures
        def_nodes(nodes, m).len() <= m,
        def_nodes(nodes, k).len() <= def_nodes(nodes, m).len(),
        k < m && is_definition_kind(nodes[k as int].kind) ==> def_nodes(nodes, k).len() < def_nodes(nodes, m).len(),
        forall|q: int| 0 <= q < def_nodes(nodes, m).len() ==> #[trigger] def_nodes(nodes, m)[q] < m,
    decreases m,
{
    if m > 0 {
        if k < m {
            lemma_def_nodes(nodes, (m - 1) as nat, k);
        } else {
            lemma_def_nodes(nodes, (m - 1) as nat, (m - 1) as nat);
        }
        let r = def_nodes(nodes, (m - 1) as nat);
        assert forall|q: int| 0 <= q < def_nodes(nodes, m).len() implies #[trigger] def_nodes(nodes, m)[q] < m by {
            if q < r.len() {
                assert(def_nodes(nodes, m)[q] == r[q]);
            }
        }
    }
}

proof fn lemma_call_graph_edges_len(v: CpgView, es: Seq<(nat, nat, Edge)>)
    ensures
        call_graph_edges(v, es).len() <= es.len(),
    decreases es.len(),
{
    if es.len() > 0 {
        lemma_call_graph_edges_len(v, es.drop_last());
    }
}

/// The call graph's edges join call-graph nodes.
proof fn lemma_call_graph_edges_valid(v: CpgView, es: Seq<(nat, nat, Edge)>)
    ensures
        forall|q: int|
            0 <= q < call_graph_edges(v, es).len() ==> (#[trigger] call_graph_edges(v, es)[q]).0 < call_graph_names(v).len()
                && call_graph_edges(v, es)[q].1 < call_graph_names(v).len(),
    decreases es.len(),
{
    if es.len() > 0 {
        lemma_call_graph_edges_valid(v, es.drop_last());
        let r = call_graph_edges(v, es.drop_last());
        let e = es.last();
        if e.2 == Edge::Call && e.0 < v.nodes.len() && e.1 < v.nodes.len() && is_definition_kind(v.nodes[e.0 as int].kind)
            && is_definition_kind(v.nodes[e.1 as int].kind) {
            lemma_def_nodes(v.nodes, v.nodes.len(), e.0);
            lemma_def_nodes(v.nodes, v.nodes.len(), e.1);
        }
        assert forall|q: int| 0 <= q < call_graph_edges(v, es).len() implies (#[trigger] call_graph_edges(v, es)[q]).0
            < call_graph_names(v).len() && call_graph_edges(v, es)[q].1 < call_graph_names(v).len() by {
            if q < r.len() {
                assert(call_graph_edges(v, es)[q] == r[q]);
            }
        }
    }
}

/// Joining two paths that meet.
proof fn lemma_path_join(edges: Seq<(nat, nat)>, p: Seq<nat>, q: Seq<nat>)
    requires
        cg_path(edges, p),
        cg_path(edges, q),
        p.last() == q[0],
    ensures
        cg_path(edges, p + q.skip(1)),
        (p + q.skip(1))[0] == p[0],
        (p + q.skip(1)).last() == q.last(),
        (p + q.skip(1)).len() == p.len() + q.len() - 1,
{
    let r = p + q.skip(1);
    assert forall|i: int| 0 <= i < r.len() - 1 implies #[trigger] cg_step(edges, r[i], r[i + 1]) by {
        if i < p.len() - 1 {
            assert(r[i] == p[i] && r[i + 1] == p[i + 1]);
        } else {
            let j = i - (p.len() - 1);
            assert(r[i] == q[j]);
            assert(r[i + 1] == q[j + 1]);
            assert(cg_step(edges, q[j], q[j + 1]));
        }
    }
    if q.len() > 1 {
        assert(r.last() == q.skip(1).last());
    }
}

/// Which nodes the reported components hold.
proof fn lemma_cycle_comps_member(comps: Seq<Seq<nat>>, edges: Seq<(nat, nat)>, x: nat)
    ensures
        (exists|j: int| 0 <= j < cycle_comps(comps, edges).len() && (#[trigger] cycle_comps(comps, edges)[j]).contains(x))
            <==> (exists|i: int|
            0 <= i < comps.len() && (#[trigger] comps[i]).contains(x) && (comps[i].len() > 1 || (comps[i].len() == 1
                && cg_step(edges, comps[i][0], comps[i][0])))),
    decreases comps.len(),
{
    if comps.len() > 0 {
        let init = comps.drop_last();
        lemma_cycle_comps_member(init, edges, x);
        let r = cycle_comps(init, edges);
        let cc = cycle_comps(comps, edges);
        if exists|j: int| 0 <= j < cc.len() && (#[trigger] cc[j]).contains(x) {
            let j = choose|j: int| 0 <= j < cc.len() && (#[trigger] cc[j]).contains(x);
            if j < r.len() {
                assert(cc[j] == r[j]);
                assert(exists|jj: int| 0 <= jj < r.len() && (#[trigger] r[jj]).contains(x));
                let i = choose|i: int|
                    0 <= i < init.len() && (#[trigger] init[i]).contains(x) && (init[i].len() > 1 || (init[i].len() == 1
                        && cg_step(edges, init[i][0], init[i][0])));
                assert(comps[i] == init[i]);
            } else {
                assert(comps[comps.len() - 1] == comps.last());
            }
        }
        if exists|i: int|
            0 <= i < comps.len() && (#[trigger] comps[i]).contains(x) && (comps[i].len() > 1 || (comps[i].len() == 1
                && cg_step(edges, comps[i][0], comps[i][0]))) {
            let i = choose|i: int|
                0 <= i < comps.len() && (#[trigger] comps[i]).contains(x) && (comps[i].len() > 1 || (comps[i].len() == 1
                    && cg_step(edges, comps[i][0], comps[i][0])));
            if i < init.len() {
                assert(init[i] == comps[i]);
                let j = choose|j: int| 0 <= j < r.len() && (#[trigger] r[j]).contains(x);
                assert(cc[j] == r[j]);
            } else {
                assert(cc[r.len() as int] == comps.last());
            }
        }
    }
}

/// Call-cycle detection reports exactly the functions that lie on a cycle
/// of calls: a node of the call graph belongs to a reported component if
/// and only if some path of at least one call leads from it back to it.
pub proof fn lemma_cycles_exact(comps: Seq<Seq<nat>>, n: nat, edges: Seq<(nat, nat)>, x: nat)
    requires
        is_scc_partition(comps, n, edges),
        forall|q: int| 0 <= q < edges.len() ==> (#[trigger] edges[q]).0 < n && edges[q].1 < n,
        x < n,
    ensures
        (exists|j: int| 0 <= j < cycle_comps(comps, edges).len() && (#[trigger] cycle_comps(comps, edges)[j]).contains(x))
            <==> cg_on_cycle(edges, x),
{
    lemma_cycle_comps_member(comps, edges, x);
    assert(in_some_comp(comps, x));
    let i = choose|i: int| 0 <= i < comps.len() && (#[trigger] comps[i]).contains(x);
    let c = comps[i];
    if exists|i2: int|
        0 <= i2 < comps.len() && (#[trigger] comps[i2]).contains(x) && (comps[i2].len() > 1 || (comps[i2].len() == 1
            && cg_step(edges, comps[i2][0], comps[i2][0]))) {
        let i2 = choose|i2: int|
            0 <= i2 < comps.len() && (#[trigger] comps[i2]).contains(x) && (comps[i2].len() > 1 || (comps[i2].len() == 1
                && cg_step(edges, comps[i2][0], comps[i2][0])));
        let c2 = comps[i2];
        if c2.len() > 1 {
            let y = if c2[0] != x { c2[0] } else { c2[1] };
            assert(c2.no_duplicates());
            assert(y != x);
            assert(c2.contains(y)) by {
                if c2[0] != x {
                    assert(c2[0] == y);
                } else {
                    assert(c2[1] == y);
                }
            }
            assert(cg_reaches(edges, x, y));
            assert(cg_reaches(edges, y, x));
            let p = choose|p: Seq<nat>| #[trigger] cg_path(edges, p) && p[0] == x && p.last() == y;
            let q = choose|q: Seq<nat>| #[trigger] cg_path(edges, q) && q[0] == y && q.last() == x;
            lemma_path_join(edges, p, q);
            assert(p.len() >= 2) by {
                if p.len() == 1 {
                    assert(p[0] == p.last());
                }
            }
            assert(cg_path(edges, p + q.skip(1)));
        } else {
            assert(c2[0] == x) by {
                let k = choose|k: int| 0 <= k < c2.len() && c2[k] == x;
            }
            let p = seq![x, x];
            assert(p[0] == x && p[1] == x);
            assert(cg_step(edges, p[0], p[1]));
            assert(cg_path(edges, p));
        }
    }
    if cg_on_cycle(edges, x) {
        let p = choose|p: Seq<nat>| #[trigger] cg_path(edges, p) && p.len() >= 2 && p[0] == x && p.last() == x;
        let y = p[1];
        let i0: int = 0;
        assert(cg_step(edges, p[i0], p[i0 + 1]));
        let e = choose|e: int| 0 <= e < edges.len() && edges[e] == (x, y);
        assert(y < n);
        let q = p.skip(1);
        assert(cg_path(edges, q)) by {
            assert forall|k: int| 0 <= k < q.len() - 1 implies #[trigger] cg_step(edges, q[k], q[k + 1]) by {
                assert(q[k] == p[k + 1] && q[k + 1] == p[k + 2]);
                assert(cg_step(edges, p[k + 1], p[(k + 1) + 1]));
            }
        }
        if y == x {
            if c.len() <= 1 {
                assert(c.len() == 1);
                assert(c[0] == x) by {
                    let k = choose|k: int| 0 <= k < c.len() && c[k] == x;
                }
            }
        } else {
            let pxy = seq![x, y];
            assert(cg_step(edges, pxy[0], pxy[1]));
            assert(cg_path(edges, pxy));
            assert(cg_reaches(edges, x, y));
            assert(cg_reaches(edges, y, x));
            assert(in_some_comp(comps, y));
            let iy = choose|iy: int| 0 <= iy < comps.len() && (#[trigger] comps[iy]).contains(y);
            assert(iy == i);
            assert(c.len() > 1) by {
                if c.len() <= 1 {
                    let k1 = choose|k: int| 0 <= k < c.len() && c[k] == x;
                    let k2 = choose|k: int| 0 <= k < c.len() && c[k] == y;
                }
            }
        }
    }
}

/// All call cycles: the call graph has a node for each function and class
/// (in index order, named by its name or `"?"`) and an edge for each call
/// edge between two of them; each of its strongly connected components
/// (as `petgraph::algo::kosaraju_scc` orders them) with more than one node,
/// or with one node that calls itself, is reported with the names of its
/// nodes.  See [`lemma_cycles_exact`].
pub fn detect_call_cycles(cpg: &CodePropertyGraph) -> (r: Vec<CallCycle>)
    ensures
        r@.map_values(|c: CallCycle| c@) == cycles_of(
            call_graph_names(cpg@),
            call_graph_components(cpg@),
            call_graph_edges(cpg@, cpg@.edges),
        ),
        is_scc_partition(call_graph_components(cpg@), call_graph_names(cpg@).len(), call_graph_edges(cpg@, cpg@.edges)),
{
    let n = cpg.node_count();
    let ghost v = cpg@;
    let mut g = cg_new();
    let mut node_map: Vec<Option<usize>> = Vec::new();
    let mut i: usize = 0;
    proof {
        assert(cg_names(g) =~= def_nodes(v.nodes, 0).map_values(|k: nat| shown_name(v.nodes[k as int])));
    }
    while i < n
        invariant
            i <= n,
            v == cpg@,
            n == v.nodes.len(),
            cpg_wf(v),
            cg_names(g) == def_nodes(v.nodes, i as nat).map_values(|k: nat| shown_name(v.nodes[k as int])),
            cg_edges(g) == Seq::<(nat, nat)>::empty(),
            cg_append_only(g),
            node_map@.len() == i,
            forall|k: int|
                0 <= k < i ==> #[trigger] node_map@[k] == (if is_definition_kind(v.nodes[k].kind) {
                    Some(cg_index(v.nodes, k as nat) as usize)
                } else {
                    None
                }),
            forall|k: int| 0 <= k < i ==> #[trigger] cg_index(v.nodes, k as nat) <= k,
        decreases n - i,
    {
        let node = cpg.node(i);
        proof {
            lemma_def_nodes(v.nodes, i as nat, i as nat);
        }
        if is_definition(node.kind) {
            let name = shown_name_of(node);
            let gi = cg_add_node(&mut g, name);
            node_map.push(Some(gi));
        } else {
            node_map.push(None);
        }
        proof {
            assert(cg_names(g) =~= def_nodes(v.nodes, i as nat + 1).map_values(|k: nat| shown_name(v.nodes[k as int])));
        }
        i = i + 1;
    }
    let ghost names = call_graph_names(v);
    proof {
        assert(names == cg_names(g));
    }
    let edges = cpg.edge_list();
    let ghost es = v.edges;
    let mut e: usize = 0;
    proof {
        assert(es.take(0) =~= Seq::<(nat, nat, Edge)>::empty());
    }
    while e < edges.len()
        invariant
            e <= edges@.len(),
            v == cpg@,
            n == v.nodes.len(),
            cpg_wf(v),
            es == v.edges,
            edges@.map_values(|x: (usize, usize, Edge)| crate::graph::triple_nat(x)) == es,
            names == call_graph_names(v),
            cg_names(g) == names,
            cg_append_only(g),
            cg_edges(g) == call_graph_edges(v, es.take(e as int)),
            node_map@.len() == n,
            forall|k: int|
                0 <= k < n ==> #[trigger] node_map@[k] == (if is_definition_kind(v.nodes[k].kind) {
                    Some(cg_index(v.nodes, k as nat) as usize)
                } else {
                    None
                }),
            forall|k: int| 0 <= k < n ==> #[trigger] cg_index(v.nodes, k as nat) <= k,
        decreases edges@.len() - e,
    {
        let (a, b, kind) = edges[e];
        proof {
            assert(es[e as int] == crate::graph::triple_nat(edges@[e as int]));
            assert(es.take(e as int + 1).drop_last() =~= es.take(e as int));
            lemma_call_graph_edges_len(v, es.take(e as int));
            assert(a < n && b < n);
        }
        if kind == Edge::Call {
            match (node_map[a], node_map[b]) {
                (Some(x), Some(y)) => {
                    proof {
                        lemma_def_nodes(v.nodes, n as nat, a as nat);
                        lemma_def_nodes(v.nodes, n as nat, b as nat);
                        assert(x as nat == cg_index(v.nodes, a as nat));
                        assert(y as nat == cg_index(v.nodes, b as nat));
                    }
                    cg_add_edge(&mut g, x, y);
                },
                _ => {},
            }
        }
        e = e + 1;
    }
    proof {
        assert(es.take(edges@.len() as int) =~= es);
    }
    let ghost cedges = call_graph_edges(v, es);
    let sccs = cg_sccs(&g);
    let ghost comps = comps_nat(sccs@);
    assert(comps == call_graph_components(v));
    let mut r: Vec<CallCycle> = Vec::new();
    let mut j: usize = 0;
    proof {
        assert(comps.take(0) =~= Seq::<Seq<nat>>::empty());
        assert(r@.map_values(|c: CallCycle| c@) =~= cycles_of(names, comps.take(0), cedges));
    }
    while j < sccs.len()
        invariant
            j <= sccs@.len(),
            comps == comps_nat(sccs@),
            is_scc_partition(comps, names.len(), cedges),
            cg_names(g) == names,
            cg_edges(g) == cedges,
            r@.map_values(|c: CallCycle| c@) == cycles_of(names, comps.take(j as int), cedges),
        decreases sccs@.len() - j,
    {
        let c = &sccs[j];
        let ghost cn = comps[j as int];
        proof {
            assert(cn == c@.map_values(|x: usize| x as nat));
            assert(comps.take(j as int + 1).drop_last() =~= comps.take(j as int));
            assert forall|k: int| 0 <= k < c@.len() implies #[trigger] c@[k] < names.len() by {
                assert(cn[k] == c@[k] as nat);
                assert(comps[j as int][k] < names.len());
            }
        }
        let ghost before = r@;
        if c.len() > 1 {
            let mut fs: Vec<String> = Vec::new();
            let mut k: usize = 0;
            while k < c.len()
                invariant
                    k <= c@.len(),
                    cg_names(g) == names,
                    forall|q: int| 0 <= q < c@.len() ==> #[trigger] c@[q] < names.len(),
                    fs@.map_values(|s: String| s@) == c@.take(k as int).map_values(|x: usize| names[x as int]),
                decreases c@.len() - k,
            {
                let w = cg_weight(&g, c[k]);
                let ghost prevfs = fs@;
                fs.push(w);
                k = k + 1;
                proof {
                    assert(fs@.map_values(|s: String| s@) =~= prevfs.map_values(|s: String| s@).push(w@));
                    assert(c@.take(k as int).map_values(|x: usize| names[x as int]) =~= c@.take(k - 1).map_values(
                        |x: usize| names[x as int],
                    ).push(names[c@[k - 1] as int]));
                    assert(fs@.map_values(|s: String| s@) =~= c@.take(k as int).map_values(|x: usize| names[x as int]));
                }
            }
            r.push(CallCycle { functions: fs, length: c.len() });
            proof {
                assert(c@.take(c@.len() as int) =~= c@);
                assert(fs@.map_values(|s: String| s@) =~= cn.map_values(|i: nat| names[i as int]));
                assert(r@.map_values(|c: CallCycle| c@) =~= before.map_values(|c: CallCycle| c@).push(
                    CallCycleView { functions: cn.map_values(|i: nat| names[i as int]), length: cn.len() },
                ));
            }
        } else if c.len() == 1 && cg_contains_edge(&g, c[0], c[0]) {
            let w = cg_weight(&g, c[0]);
            let mut fs: Vec<String> = Vec::new();
            fs.push(w);
            r.push(CallCycle { functions: fs, length: 1 });
            proof {
                assert(fs@.map_values(|s: String| s@) =~= cn.map_values(|i: nat| names[i as int]));
                assert(r@.map_values(|c: CallCycle| c@) =~= before.map_values(|c: CallCycle| c@).push(
                    CallCycleView { functions: cn.map_values(|i: nat| names[i as int]), length: cn.len() },
                ));
            }
        }
        proof {
            assert(r@.map_values(|c: CallCycle| c@) =~= cycles_of(names, comps.take(j as int + 1), cedges));
        }
        j = j + 1;
    }
    proof {
        assert(comps.take(sccs@.len() as int) =~= comps);
    }
    r
}

/// With no entry function, dead-code detection reports every function, in
/// index order.
pub proof fn lemma_dead_code_without_entries(v: CpgView, m: nat)
    requires
        m <= v.nodes.len(),
    ensures
        unreached_functions(v, Set::empty(), m) == crate::query::select(v.nodes.take(m as int), Some(NodeKind::Function), None),
    decreases m,
{
    if m > 0 {
        lemma_dead_code_without_entries(v, (m - 1) as nat);
        assert(v.nodes.take(m as int).drop_last() =~= v.nodes.take(m - 1));
        assert(v.nodes.take(m as int).last() == v.nodes[m - 1]);
        assert(!call_reachable(v, Set::empty(), (m - 1) as nat));
    } else {
        assert(v.nodes.take(0) =~= Seq::<NodeView>::empty());
    }
}

} // verus!
