//! Comparing two versions of a project: which names were added, removed or
//! modified, and the graph of the new version annotated with that status.
//! Rendering the result (JSON, HTML) is left to the caller.

use vstd::prelude::*;
use vstd::hash_map::StringHashMap;
use crate::common::NodeKind;
use crate::graph::{CodePropertyGraph, CpgView, Edge, Node, NodeView, incident, triple_nat};
use crate::query::{neighbours, name_is, pick, select, lemma_select_prefix, lemma_select_take};

verus! {

/// The status of a name in a diff.
#[derive(Debug, Clone, Copy, PartialEq, Eq, Structural)]
pub enum DiffStatus {
    Added,
    Removed,
    Modified,
    Unchanged,
}

/// A name that changed between the two versions, with the kind and start
/// line of its first node.
pub struct DiffNode {
    pub name: String,
    pub kind: NodeKind,
    pub start_line: usize,
    pub status: DiffStatus,
}

/// The mathematical value of a [`DiffNode`].
pub struct DiffNodeView {
    pub name: Seq<char>,
    pub kind: NodeKind,
    pub start_line: nat,
    pub status: DiffStatus,
}

impl View for DiffNode {
    type V = DiffNodeView;

    open spec fn view(&self) -> DiffNodeView {
        DiffNodeView { name: self.name@, kind: self.kind, start_line: self.start_line as nat, status: self.status }
    }
}

/// The names that changed, by status.
pub struct DiffResult {
    pub added: Vec<DiffNode>,
    pub removed: Vec<DiffNode>,
    pub modified: Vec<DiffNode>,
}

/// Views of a list of diff nodes.
pub open spec fn diff_views(s: Seq<DiffNode>) -> Seq<DiffNodeView> {
    s.map_values(|d: DiffNode| d@)
}

/// Whether some node is named `n`.
pub open spec fn has_node_named(nodes: Seq<NodeView>, n: Seq<char>) -> bool {
    select(nodes, None, Some(n)).len() > 0
}

/// The index of the first node named `n`.
pub open spec fn first_named(nodes: Seq<NodeView>, n: Seq<char>) -> nat {
    select(nodes, None, Some(n))[0]
}

/// The names of the first `m` nodes, each once, in order of first
/// occurrence.
pub open spec fn distinct_names(nodes: Seq<NodeView>, m: nat) -> Seq<Seq<char>>
    decreases m,
{
    if m == 0 {
        seq![]
    } else {
        let r = distinct_names(nodes, (m - 1) as nat);
        match nodes[m - 1].name {
            Some(n) => if r.contains(n) {
                r
            } else {
                r.push(n)
            },
            None => r,
        }
    }
}

/// The number of call edges leaving node `i`.
pub open spec fn call_degree(v: CpgView, i: nat) -> nat {
    pick(incident(v.edges, i, false), Edge::Call, false).len()
}

/// The call edges among the first `n` edges that leave node `i`.
pub open spec fn calls_leaving(es: Seq<(nat, nat, Edge)>, i: nat, n: nat) -> Set<nat> {
    Set::new(|e: nat| e < n && es[e as int].0 == i && es[e as int].2 == Edge::Call)
}

proof fn lemma_pick_concat(a: Seq<(nat, nat, nat, Edge)>, b: Seq<(nat, nat, nat, Edge)>, k: Edge, s: bool)
    ensures
        pick(a + b, k, s).len() == pick(a, k, s).len() + pick(b, k, s).len(),
    decreases b.len(),
{
    if b.len() == 0 {
        assert(a + b =~= a);
    } else {
        assert((a + b).drop_last() =~= a + b.drop_last());
        assert((a + b).last() == b.last());
        lemma_pick_concat(a, b.drop_last(), k, s);
    }
}

proof fn lemma_call_degree_count(es: Seq<(nat, nat, Edge)>, i: nat, n: nat)
    requires
        n <= es.len(),
    ensures
        calls_leaving(es, i, n).finite(),
        pick(incident(es.take(n as int), i, false), Edge::Call, false).len() == calls_leaving(es, i, n).len(),
    decreases n,
{
    if n == 0 {
        assert(calls_leaving(es, i, 0) =~= Set::<nat>::empty());
        assert(es.take(0) =~= Seq::<(nat, nat, Edge)>::empty());
    } else {
        lemma_call_degree_count(es, i, (n - 1) as nat);
        let t = es.take(n as int);
        assert(t.drop_last() =~= es.take(n - 1));
        assert(t.last() == es[n - 1]);
        let e = es[n - 1];
        let rest = incident(es.take(n - 1), i, false);
        if e.0 == i {
            let rec = seq![((n - 1) as nat, e.0, e.1, e.2)];
            assert(incident(t, i, false) == rec + rest);
            lemma_pick_concat(rec, rest, Edge::Call, false);
            assert(rec.drop_last() =~= Seq::<(nat, nat, nat, Edge)>::empty());
            assert(pick(Seq::<(nat, nat, nat, Edge)>::empty(), Edge::Call, false).len() == 0);
            assert(pick(rec, Edge::Call, false).len() == if e.2 == Edge::Call { 1nat } else { 0nat });
            if e.2 == Edge::Call {
                assert(calls_leaving(es, i, n) =~= calls_leaving(es, i, (n - 1) as nat).insert((n - 1) as nat));
            } else {
                assert(calls_leaving(es, i, n) =~= calls_leaving(es, i, (n - 1) as nat));
            }
        } else {
            assert(incident(t, i, false) == rest);
            assert(calls_leaving(es, i, n) =~= calls_leaving(es, i, (n - 1) as nat));
        }
    }
}

/// The degree that the diff compares is the number of call edges leaving a
/// node: edges of other kinds do not count.
pub proof fn lemma_call_degree_counts_calls(v: CpgView, i: nat)
    ensures
        calls_leaving(v.edges, i, v.edges.len()).finite(),
        call_degree(v, i) == calls_leaving(v.edges, i, v.edges.len()).len(),
{
    lemma_call_degree_count(v.edges, i, v.edges.len());
    assert(v.edges.take(v.edges.len() as int) =~= v.edges);
}

/// Adding an edge changes a node's degree only when it is a call edge
/// leaving that node, and then by one.
pub proof fn lemma_call_degree_add_edge(v: CpgView, e: (nat, nat, Edge), i: nat)
    ensures
        call_degree(CpgView { nodes: v.nodes, edges: v.edges.push(e) }, i) == call_degree(v, i) + if e.0 == i && e.2
            == Edge::Call {
            1nat
        } else {
            0nat
        },
{
    let w = CpgView { nodes: v.nodes, edges: v.edges.push(e) };
    lemma_call_degree_counts_calls(v, i);
    lemma_call_degree_counts_calls(w, i);
    let n = v.edges.len();
    if e.0 == i && e.2 == Edge::Call {
        assert(calls_leaving(w.edges, i, n + 1) =~= calls_leaving(v.edges, i, n).insert(n));
    } else {
        assert(calls_leaving(w.edges, i, n + 1) =~= calls_leaving(v.edges, i, n));
    }
}

/// The diff entry of name `n`, from the first node of that name.
pub open spec fn diff_entry(nodes: Seq<NodeView>, n: Seq<char>, status: DiffStatus) -> DiffNodeView {
    let i = first_named(nodes, n);
    DiffNodeView { name: n, kind: nodes[i as int].kind, start_line: nodes[i as int].start_line, status }
}

/// The entries, with status `status`, of those `names` that no node of
/// `other` carries (taken from the nodes `src`).
pub open spec fn only_in(names: Seq<Seq<char>>, other: Seq<NodeView>, src: Seq<NodeView>, status: DiffStatus) -> Seq<
    DiffNodeView,
>
    decreases names.len(),
{
    if names.len() == 0 {
        seq![]
    } else {
        let r = only_in(names.drop_last(), other, src, status);
        let n = names.last();
        if !has_node_named(other, n) {
            r.push(diff_entry(src, n, status))
        } else {
            r
        }
    }
}

/// The modified entries among `names`: names of both versions whose first
/// node has a different number of outgoing calls (taken from the new one).
pub open spec fn modified_in(names: Seq<Seq<char>>, old: CpgView, new: CpgView) -> Seq<DiffNodeView>
    decreases names.len(),
{
    if names.len() == 0 {
        seq![]
    } else {
        let r = modified_in(names.drop_last(), old, new);
        let n = names.last();
        if has_node_named(new.nodes, n) && call_degree(old, first_named(old.nodes, n)) != call_degree(
            new,
            first_named(new.nodes, n),
        ) {
            r.push(diff_entry(new.nodes, n, DiffStatus::Modified))
        } else {
            r
        }
    }
}

/// Names only in the new version, in order of first occurrence there.
pub open spec fn added_spec(old: CpgView, new: CpgView) -> Seq<DiffNodeView> {
    only_in(distinct_names(new.nodes, new.nodes.len()), old.nodes, new.nodes, DiffStatus::Added)
}

/// Names only in the old version, in order of first occurrence there.
pub open spec fn removed_spec(old: CpgView, new: CpgView) -> Seq<DiffNodeView> {
    only_in(distinct_names(old.nodes, old.nodes.len()), new.nodes, old.nodes, DiffStatus::Removed)
}

/// Names in both versions whose call count changed, in order of first
/// occurrence in the old one.
pub open spec fn modified_spec(old: CpgView, new: CpgView) -> Seq<DiffNodeView> {
    modified_in(distinct_names(old.nodes, old.nodes.len()), old, new)
}

/// A node named `n` makes `n` a name of the nodes.
proof fn lemma_named_at(nodes: Seq<NodeView>, i: int, n: Seq<char>)
    requires
        0 <= i < nodes.len(),
        nodes[i].name == Some(n),
    ensures
        has_node_named(nodes, n),
{
    lemma_select_prefix(nodes, None, Some(n), i);
    lemma_select_take(nodes, None, Some(n), i + 1);
}

/// Every name that `distinct_names` lists is a name of the nodes.
proof fn lemma_distinct_names_named(nodes: Seq<NodeView>, m: nat)
    requires
        m <= nodes.len(),
    ensures
        forall|k: int|
            0 <= k < distinct_names(nodes, m).len() ==> has_node_named(nodes, #[trigger] distinct_names(nodes, m)[k]),
    decreases m,
{
    if m > 0 {
        lemma_distinct_names_named(nodes, (m - 1) as nat);
        let r = distinct_names(nodes, (m - 1) as nat);
        assert forall|k: int| 0 <= k < distinct_names(nodes, m).len() implies has_node_named(
            nodes,
            #[trigger] distinct_names(nodes, m)[k],
        ) by {
            if k < r.len() {
                assert(distinct_names(nodes, m)[k] == r[k]);
            } else {
                let n = nodes[m - 1].name->0;
                assert(distinct_names(nodes, m)[k] == n);
                lemma_named_at(nodes, (m - 1) as int, n);
            }
        }
    }
}

/// The index of the first node named `name`.
fn first_node_named(cpg: &CodePropertyGraph, name: &str) -> (r: Option<usize>)
    ensures
        match r {
            Some(i) => has_node_named(cpg@.nodes, name@) && first_named(cpg@.nodes, name@) == i as nat && i
                < cpg@.nodes.len(),
            None => !has_node_named(cpg@.nodes, name@),
        },
{
    let n = cpg.node_count();
    let ghost nm = Some(name@);
    let mut i: usize = 0;
    proof {
        assert(cpg@.nodes.take(0) =~= Seq::<NodeView>::empty());
    }
    while i < n
        invariant
            i <= n,
            n == cpg@.nodes.len(),
            nm == Some(name@),
            select(cpg@.nodes.take(i as int), None, nm).len() == 0,
        decreases n - i,
    {
        let node = cpg.node(i);
        proof {
            lemma_select_prefix(cpg@.nodes, None, nm, i as int);
        }
        if name_is(node, name) {
            proof {
                lemma_select_take(cpg@.nodes, None, nm, i as int + 1);
                assert(select(cpg@.nodes.take(i as int + 1), None, nm)[0] == i as nat);
            }
            return Some(i);
        }
        i = i + 1;
    }
    proof {
        assert(cpg@.nodes.take(n as int) =~= cpg@.nodes);
    }
    None
}

/// The names of a graph's nodes, each once, in order of first occurrence.
fn names_in_order(cpg: &CodePropertyGraph) -> (r: Vec<String>)
    ensures
        r@.map_values(|s: String| s@) == distinct_names(cpg@.nodes, cpg@.nodes.len()),
{
    let n = cpg.node_count();
    let mut seen: StringHashMap<usize> = StringHashMap::new();
    let mut r: Vec<String> = Vec::new();
    let mut i: usize = 0;
    proof {
        assert(r@.map_values(|s: String| s@) =~= distinct_names(cpg@.nodes, 0));
    }
    while i < n
        invariant
            i <= n,
            n == cpg@.nodes.len(),
            r@.map_values(|s: String| s@) == distinct_names(cpg@.nodes, i as nat),
            forall|k: Seq<char>| #[trigger] seen@.contains_key(k) <==> r@.map_values(|s: String| s@).contains(k),
        decreases n - i,
    {
        let node = cpg.node(i);
        match &node.name {
            Some(nm) => {
                if !seen.contains_key(nm.as_str()) {
                    let ghost before = r@;
                    seen.insert(nm.clone(), i);
                    r.push(nm.clone());
                    proof {
                        let rv = r@.map_values(|s: String| s@);
                        let bv = before.map_values(|s: String| s@);
                        assert(rv =~= bv.push(nm@));
                        assert forall|k: Seq<char>| #[trigger] seen@.contains_key(k) <==> rv.contains(k) by {
                            if k == nm@ {
                                assert(rv[rv.len() - 1] == k);
                            }
                            if rv.contains(k) && k != nm@ {
                                let j = choose|j: int| 0 <= j < rv.len() && rv[j] == k;
                                assert(bv[j] == k);
                            }
                            if bv.contains(k) {
                                let j = choose|j: int| 0 <= j < bv.len() && bv[j] == k;
                                assert(rv[j] == k);
                            }
                        }
                    }
                }
            },
            None => {},
        }
        i = i + 1;
    }
    r
}

/// The number of call edges leaving node `i`.
fn call_degree_of(cpg: &CodePropertyGraph, i: usize) -> (r: usize)
    requires
        i < cpg@.nodes.len(),
    ensures
        r == call_degree(cpg@, i as nat),
{
    let succ = neighbours(cpg, i, Edge::Call, false);
    proof {
        assert(succ@.map_values(|i: usize| i as nat).len() == succ@.len());
    }
    succ.len()
}

/// The diff entry of the first node named `name` (which exists).
fn entry_of(cpg: &CodePropertyGraph, name: &String, i: usize, status: DiffStatus) -> (r: DiffNode)
    requires
        has_node_named(cpg@.nodes, name@),
        first_named(cpg@.nodes, name@) == i as nat,
        i < cpg@.nodes.len(),
    ensures
        r@ == diff_entry(cpg@.nodes, name@, status),
{
    let node = cpg.node(i);
    DiffNode { name: name.clone(), kind: node.kind, start_line: node.start_line, status }
}

/// The names added, removed and modified from `old_cpg` to `new_cpg` (see
/// [`added_spec`], [`removed_spec`] and [`modified_spec`]).
pub fn diff_names(old_cpg: &CodePropertyGraph, new_cpg: &CodePropertyGraph) -> (r: DiffResult)
    ensures
        diff_views(r.added@) == added_spec(old_cpg@, new_cpg@),
        diff_views(r.removed@) == removed_spec(old_cpg@, new_cpg@),
        diff_views(r.modified@) == modified_spec(old_cpg@, new_cpg@),
{
    let old_names = names_in_order(old_cpg);
    let new_names = names_in_order(new_cpg);
    let ghost on = old_names@.map_values(|s: String| s@);
    let ghost nn = new_names@.map_values(|s: String| s@);
    proof {
        lemma_distinct_names_named(old_cpg@.nodes, old_cpg@.nodes.len());
        lemma_distinct_names_named(new_cpg@.nodes, new_cpg@.nodes.len());
    }
    let mut added: Vec<DiffNode> = Vec::new();
    let mut k: usize = 0;
    proof {
        assert(nn.take(0) =~= Seq::<Seq<char>>::empty());
    }
    while k < new_names.len()
        invariant
            k <= new_names@.len(),
            nn == new_names@.map_values(|s: String| s@),
            nn == distinct_names(new_cpg@.nodes, new_cpg@.nodes.len()),
            forall|q: int| 0 <= q < nn.len() ==> has_node_named(new_cpg@.nodes, #[trigger] nn[q]),
            diff_views(added@) == only_in(nn.take(k as int), old_cpg@.nodes, new_cpg@.nodes, DiffStatus::Added),
        decreases new_names@.len() - k,
    {
        let name = &new_names[k];
        proof {
            assert(nn[k as int] == name@);
            assert(nn.take(k as int + 1).drop_last() =~= nn.take(k as int));
        }
        if first_node_named(old_cpg, name.as_str()).is_none() {
            match first_node_named(new_cpg, name.as_str()) {
                Some(i) => {
                    let ghost before = added@;
                    added.push(entry_of(new_cpg, name, i, DiffStatus::Added));
                    proof {
                        assert(diff_views(added@) =~= diff_views(before).push(
                            diff_entry(new_cpg@.nodes, name@, DiffStatus::Added),
                        ));
                    }
                },
                None => {},
            }
        }
        k = k + 1;
    }
    let mut removed: Vec<DiffNode> = Vec::new();
    let mut modified: Vec<DiffNode> = Vec::new();
    let mut k: usize = 0;
    proof {
        assert(nn.take(new_names@.len() as int) =~= nn);
        assert(on.take(0) =~= Seq::<Seq<char>>::empty());
    }
    while k < old_names.len()
        invariant
            k <= old_names@.len(),
            on == old_names@.map_values(|s: String| s@),
            on == distinct_names(old_cpg@.nodes, old_cpg@.nodes.len()),
            forall|q: int| 0 <= q < on.len() ==> has_node_named(old_cpg@.nodes, #[trigger] on[q]),
            diff_views(removed@) == only_in(on.take(k as int), new_cpg@.nodes, old_cpg@.nodes, DiffStatus::Removed),
            diff_views(modified@) == modified_in(on.take(k as int), old_cpg@, new_cpg@),
        decreases old_names@.len() - k,
    {
        let name = &old_names[k];
        proof {
            assert(on[k as int] == name@);
            assert(on.take(k as int + 1).drop_last() =~= on.take(k as int));
        }
        match first_node_named(old_cpg, name.as_str()) {
            Some(oi) => {
                match first_node_named(new_cpg, name.as_str()) {
                    None => {
                        let ghost before = removed@;
                        removed.push(entry_of(old_cpg, name, oi, DiffStatus::Removed));
                        proof {
                            assert(diff_views(removed@) =~= diff_views(before).push(
                                diff_entry(old_cpg@.nodes, name@, DiffStatus::Removed),
                            ));
                        }
                    },
                    Some(ni) => {
                        if call_degree_of(old_cpg, oi) != call_degree_of(new_cpg, ni) {
                            let ghost before = modified@;
                            modified.push(entry_of(new_cpg, name, ni, DiffStatus::Modified));
                            proof {
                                assert(diff_views(modified@) =~= diff_views(before).push(
                                    diff_entry(new_cpg@.nodes, name@, DiffStatus::Modified),
                                ));
                            }
                        }
                    },
                }
            },
            None => {},
        }
        k = k + 1;
    }
    proof {
        assert(on.take(old_names@.len() as int) =~= on);
    }
    DiffResult { added, removed, modified }
}

/// The key of a node in the diff graph: its name, or the empty string.
pub open spec fn name_key(n: NodeView) -> Seq<char> {
    match n.name {
        Some(s) => s,
        None => seq![],
    }
}

/// Whether some entry carries name `n`.
pub open spec fn lists_name(entries: Seq<DiffNodeView>, n: Seq<char>) -> bool {
    exists|i: int| 0 <= i < entries.len() && (#[trigger] entries[i]).name == n
}

/// The status that the diff graph shows for a name.
pub open spec fn status_of(
    n: Seq<char>,
    added: Seq<DiffNodeView>,
    removed: Seq<DiffNodeView>,
    modified: Seq<DiffNodeView>,
) -> DiffStatus {
    if lists_name(removed, n) {
        DiffStatus::Removed
    } else if lists_name(added, n) {
        DiffStatus::Added
    } else if lists_name(modified, n) {
        DiffStatus::Modified
    } else {
        DiffStatus::Unchanged
    }
}

/// The diff-graph index of each key after the first `m` new nodes: the last
/// node with that key.
pub open spec fn name_map(nodes: Seq<NodeView>, m: nat) -> Map<Seq<char>, nat>
    decreases m,
{
    if m == 0 {
        Map::empty()
    } else {
        name_map(nodes, (m - 1) as nat).insert(name_key(nodes[m - 1]), (m - 1) as nat)
    }
}

/// The new version's edges between named nodes, carried over by name.
pub open spec fn diff_edges(es: Seq<(nat, nat, Edge)>, nodes: Seq<NodeView>, map: Map<Seq<char>, nat>) -> Seq<
    (nat, nat, Edge),
>
    decreases es.len(),
{
    if es.len() == 0 {
        seq![]
    } else {
        let r = diff_edges(es.drop_last(), nodes, map);
        let e = es.last();
        match (nodes[e.0 as int].name, nodes[e.1 as int].name) {
            (Some(a), Some(b)) => if map.contains_key(a) && map.contains_key(b) {
                r.push((map[a], map[b], e.2))
            } else {
                r
            },
            _ => r,
        }
    }
}

/// The old version's named nodes whose name the diff graph does not have
/// yet, appended one per name, and the map after them.
pub open spec fn extra_nodes(old_nodes: Seq<NodeView>, m: nat, map: Map<Seq<char>, nat>, base: nat) -> (
    Seq<NodeView>,
    Map<Seq<char>, nat>,
)
    decreases m,
{
    if m == 0 {
        (seq![], map)
    } else {
        let (xs, mp) = extra_nodes(old_nodes, (m - 1) as nat, map, base);
        let n = old_nodes[m - 1];
        match n.name {
            Some(s) => if !mp.contains_key(s) {
                (xs.push(n), mp.insert(s, base + xs.len()))
            } else {
                (xs, mp)
            },
            None => (xs, mp),
        }
    }
}

/// The new version annotated for display: its nodes with their status, the
/// old version's nodes of removed names, and the new version's edges.
pub struct DiffGraph {
    pub nodes: Vec<(Node, DiffStatus)>,
    pub edges: Vec<(usize, usize, Edge)>,
}

/// The nodes of the diff graph.
pub open spec fn diff_graph_nodes(old: CpgView, new: CpgView, r: (Seq<DiffNodeView>, Seq<DiffNodeView>, Seq<DiffNodeView>)) -> Seq<(NodeView, DiffStatus)> {
    new.nodes.map_values(|n: NodeView| (n, status_of(name_key(n), r.0, r.1, r.2))) + extra_nodes(
        old.nodes,
        old.nodes.len(),
        name_map(new.nodes, new.nodes.len()),
        new.nodes.len(),
    ).0.map_values(|n: NodeView| (n, DiffStatus::Removed))
}

/// The edges of the diff graph.
pub open spec fn diff_graph_edges(new: CpgView) -> Seq<(nat, nat, Edge)> {
    diff_edges(new.edges, new.nodes, name_map(new.nodes, new.nodes.len()))
}

/// Whether some entry of a list carries the name `name`.
fn lists_name_exec(entries: &Vec<DiffNode>, name: &str) -> (r: bool)
    ensures
        r == lists_name(diff_views(entries@), name@),
{
    let mut i: usize = 0;
    while i < entries.len()
        invariant
            i <= entries@.len(),
            forall|q: int| 0 <= q < i ==> (#[trigger] entries@[q]).name@ != name@,
        decreases entries@.len() - i,
    {
        if crate::text::str_eq(entries[i].name.as_str(), name) {
            proof {
                assert(diff_views(entries@)[i as int].name == name@);
            }
            return true;
        }
        i = i + 1;
    }
    proof {
        if lists_name(diff_views(entries@), name@) {
            let q = choose|q: int| 0 <= q < diff_views(entries@).len() && (#[trigger] diff_views(entries@)[q]).name == name@;
            assert(entries@[q].name@ == name@);
        }
    }
    false
}

fn name_key_of(n: &Node) -> (r: &str)
    ensures
        r@ == name_key(n@),
{
    match &n.name {
        Some(s) => s.as_str(),
        None => {
            proof {
                reveal_strlit("");
            }
            ""
        },
    }
}

/// The new version annotated with the diff (see [`diff_graph_nodes`] and
/// [`diff_graph_edges`]).
pub fn diff_graph(old_cpg: &CodePropertyGraph, new_cpg: &CodePropertyGraph, result: &DiffResult) -> (g: DiffGraph)
    ensures
        g.nodes@.map_values(|p: (Node, DiffStatus)| (p.0@, p.1)) == diff_graph_nodes(
            old_cpg@,
            new_cpg@,
            (diff_views(result.added@), diff_views(result.removed@), diff_views(result.modified@)),
        ),
        g.edges@.map_values(|x: (usize, usize, Edge)| triple_nat(x)) == diff_graph_edges(new_cpg@),
{
    let ghost rv = (diff_views(result.added@), diff_views(result.removed@), diff_views(result.modified@));
    let ghost nv = new_cpg@;
    let n = new_cpg.node_count();
    let mut nodes: Vec<(Node, DiffStatus)> = Vec::new();
    let mut map: StringHashMap<usize> = StringHashMap::new();
    let mut i: usize = 0;
    proof {
        assert(map@.map_values(|v: usize| v as nat) =~= name_map(nv.nodes, 0));
    }
    while i < n
        invariant
            i <= n,
            n == nv.nodes.len(),
            nv == new_cpg@,
            rv == (diff_views(result.added@), diff_views(result.removed@), diff_views(result.modified@)),
            nodes@.map_values(|p: (Node, DiffStatus)| (p.0@, p.1)) == nv.nodes.take(i as int).map_values(
                |n: NodeView| (n, status_of(name_key(n), rv.0, rv.1, rv.2)),
            ),
            map@.map_values(|v: usize| v as nat) == name_map(nv.nodes, i as nat),
        decreases n - i,
    {
        let node = new_cpg.node(i);
        let key = name_key_of(node);
        let status = if lists_name_exec(&result.removed, key) {
            DiffStatus::Removed
        } else if lists_name_exec(&result.added, key) {
            DiffStatus::Added
        } else if lists_name_exec(&result.modified, key) {
            DiffStatus::Modified
        } else {
            DiffStatus::Unchanged
        };
        assert(status == status_of(name_key(node@), rv.0, rv.1, rv.2));
        let ghost before = nodes@;
        let copy = node.duplicate();
        nodes.push((copy, status));
        map.insert(key.to_owned(), i);
        i = i + 1;
        proof {
            assert(nodes@.map_values(|p: (Node, DiffStatus)| (p.0@, p.1)) =~= before.map_values(
                |p: (Node, DiffStatus)| (p.0@, p.1),
            ).push((nv.nodes[i - 1], status)));
            assert(nodes@.map_values(|p: (Node, DiffStatus)| (p.0@, p.1)) =~= nv.nodes.take(i as int).map_values(
                |n: NodeView| (n, status_of(name_key(n), rv.0, rv.1, rv.2)),
            ));
            assert(map@.map_values(|v: usize| v as nat) =~= name_map(nv.nodes, i as nat));
        }
    }
    let ghost nmap = name_map(nv.nodes, n as nat);
    proof {
        assert(nv.nodes.take(n as int) =~= nv.nodes);
    }
    let edges = new_cpg.edge_list();
    let ghost es = nv.edges;
    let mut out_edges: Vec<(usize, usize, Edge)> = Vec::new();
    let mut e: usize = 0;
    proof {
        assert(es.take(0) =~= Seq::<(nat, nat, Edge)>::empty());
        assert(out_edges@.map_values(|x: (usize, usize, Edge)| triple_nat(x)) =~= diff_edges(es.take(0), nv.nodes, nmap));
    }
    while e < edges.len()
        invariant
            e <= edges@.len(),
            nv == new_cpg@,
            crate::graph::cpg_wf(nv),
            es == nv.edges,
            edges@.map_values(|x: (usize, usize, Edge)| triple_nat(x)) == es,
            map@.map_values(|v: usize| v as nat) == nmap,
            out_edges@.map_values(|x: (usize, usize, Edge)| triple_nat(x)) == diff_edges(es.take(e as int), nv.nodes, nmap),
        decreases edges@.len() - e,
    {
        let (a, b, kind) = edges[e];
        proof {
            assert(es[e as int] == triple_nat(edges@[e as int]));
            assert(es.take(e as int + 1).drop_last() =~= es.take(e as int));
            let _ = new_cpg@;
        }
        let _ = new_cpg.node_count();
        match (&new_cpg.node(a).name, &new_cpg.node(b).name) {
            (Some(sa), Some(sb)) => {
                match (map.get(sa.as_str()), map.get(sb.as_str())) {
                    (Some(ia), Some(ib)) => {
                        let ghost before = out_edges@;
                        out_edges.push((*ia, *ib, kind));
                        proof {
                            assert(out_edges@.map_values(|x: (usize, usize, Edge)| triple_nat(x)) =~= before.map_values(
                                |x: (usize, usize, Edge)| triple_nat(x),
                            ).push((nmap[sa@], nmap[sb@], kind)));
                        }
                    },
                    _ => {},
                }
            },
            _ => {},
        }
        e = e + 1;
    }
    proof {
        assert(es.take(edges@.len() as int) =~= es);
    }
    let on = old_cpg.node_count();
    let ghost ov = old_cpg@;
    let mut j: usize = 0;
    proof {
        assert(nodes@.map_values(|p: (Node, DiffStatus)| (p.0@, p.1)) =~= nv.nodes.map_values(
            |n: NodeView| (n, status_of(name_key(n), rv.0, rv.1, rv.2)),
        ) + extra_nodes(ov.nodes, 0, nmap, n as nat).0.map_values(|n: NodeView| (n, DiffStatus::Removed)));
    }
    while j < on
        invariant
            j <= on,
            on == ov.nodes.len(),
            ov == old_cpg@,
            n == nv.nodes.len(),
            nodes@.len() == n + extra_nodes(ov.nodes, j as nat, nmap, n as nat).0.len(),
            nodes@.map_values(|p: (Node, DiffStatus)| (p.0@, p.1)) == nv.nodes.map_values(
                |n: NodeView| (n, status_of(name_key(n), rv.0, rv.1, rv.2)),
            ) + extra_nodes(ov.nodes, j as nat, nmap, n as nat).0.map_values(|n: NodeView| (n, DiffStatus::Removed)),
            map@.map_values(|v: usize| v as nat) == extra_nodes(ov.nodes, j as nat, nmap, n as nat).1,
        decreases on - j,
    {
        let node = old_cpg.node(j);
        match &node.name {
            Some(nm) => {
                if !map.contains_key(nm.as_str()) {
                    let idx = nodes.len();
                    let ghost before = nodes@;
                    nodes.push((node.duplicate(), DiffStatus::Removed));
                    map.insert(nm.clone(), idx);
                    proof {
                        assert(nodes@.map_values(|p: (Node, DiffStatus)| (p.0@, p.1)) =~= before.map_values(
                            |p: (Node, DiffStatus)| (p.0@, p.1),
                        ).push((node@, DiffStatus::Removed)));
                        assert(map@.map_values(|v: usize| v as nat) =~= extra_nodes(ov.nodes, j as nat + 1, nmap, n as nat).1);
                    }
                }
            },
            None => {},
        }
        j = j + 1;
    }
    DiffGraph { nodes, edges: out_edges }
}

/// The name keys of the nodes (the empty key for an unnamed node).
pub open spec fn key_set(nodes: Seq<NodeView>) -> Set<Seq<char>> {
    Set::new(|k: Seq<char>| exists|i: int| 0 <= i < nodes.len() && #[trigger] name_key(nodes[i]) == k)
}

/// The names carried by the first `m` nodes.
pub open spec fn names_upto(nodes: Seq<NodeView>, m: nat) -> Set<Seq<char>> {
    Set::new(|s: Seq<char>| exists|i: int| 0 <= i < m && (#[trigger] nodes[i]).name == Some(s))
}

/// The names of a list of named nodes.
pub open spec fn names_of(xs: Seq<NodeView>) -> Seq<Seq<char>> {
    xs.map_values(|n: NodeView| n.name->0)
}

proof fn lemma_name_map(nodes: Seq<NodeView>, m: nat)
    requires
        m <= nodes.len(),
    ensures
        name_map(nodes, m).dom() == key_set(nodes.take(m as int)),
        forall|k: Seq<char>| #[trigger] name_map(nodes, m).contains_key(k) ==> name_map(nodes, m)[k] < m,
    decreases m,
{
    if m == 0 {
        assert(key_set(nodes.take(0)) =~= Set::<Seq<char>>::empty());
    } else {
        lemma_name_map(nodes, (m - 1) as nat);
        let t = nodes.take(m as int);
        let t1 = nodes.take(m - 1);
        assert forall|k: Seq<char>| key_set(t).contains(k) <==> key_set(t1).insert(name_key(nodes[m - 1])).contains(k) by {
            if key_set(t).contains(k) {
                let i = choose|i: int| 0 <= i < t.len() && #[trigger] name_key(t[i]) == k;
                if i < m - 1 {
                    assert(t1[i] == t[i]);
                }
            }
            if key_set(t1).contains(k) {
                let i = choose|i: int| 0 <= i < t1.len() && #[trigger] name_key(t1[i]) == k;
                assert(t[i] == t1[i]);
            }
            if k == name_key(nodes[m - 1]) {
                assert(t[m - 1] == nodes[m - 1]);
            }
        }
        assert(key_set(t) =~= key_set(t1).insert(name_key(nodes[m - 1])));
    }
}

proof fn lemma_extra_nodes(old_nodes: Seq<NodeView>, m: nat, map: Map<Seq<char>, nat>, base: nat)
    requires
        m <= old_nodes.len(),
    ensures
        ({
            let (xs, mp) = extra_nodes(old_nodes, m, map, base);
            &&& forall|k: int| 0 <= k < xs.len() ==> (#[trigger] xs[k]).name is Some && !map.contains_key(xs[k].name->0)
            &&& names_of(xs).no_duplicates()
            &&& names_of(xs).to_set() == names_upto(old_nodes, m).difference(map.dom())
            &&& mp.dom() == map.dom().union(names_of(xs).to_set())
        }),
    decreases m,
{
    if m == 0 {
        let xs = Seq::<NodeView>::empty();
        assert(names_of(xs).to_set() =~= Set::<Seq<char>>::empty());
        assert(names_upto(old_nodes, 0).difference(map.dom()) =~= Set::<Seq<char>>::empty());
        assert(map.dom().union(Set::<Seq<char>>::empty()) =~= map.dom());
    } else {
        lemma_extra_nodes(old_nodes, (m - 1) as nat, map, base);
        let (xs, mp) = extra_nodes(old_nodes, (m - 1) as nat, map, base);
        let n = old_nodes[m - 1];
        let prev = names_upto(old_nodes, (m - 1) as nat);
        let cur = names_upto(old_nodes, m);
        match n.name {
            Some(s) => {
                assert(cur =~= prev.insert(s)) by {
                    assert forall|x: Seq<char>| cur.contains(x) <==> prev.insert(s).contains(x) by {
                        if cur.contains(x) {
                            let i = choose|i: int| 0 <= i < m && (#[trigger] old_nodes[i]).name == Some(x);
                            if i < m - 1 {
                                assert(prev.contains(x));
                            }
                        }
                        if prev.contains(x) {
                            let i = choose|i: int| 0 <= i < m - 1 && (#[trigger] old_nodes[i]).name == Some(x);
                            assert(cur.contains(x));
                        }
                    }
                }
                if !mp.contains_key(s) {
                    let xs2 = xs.push(n);
                    assert(names_of(xs2) =~= names_of(xs).push(s));
                    assert(names_of(xs).to_set().contains(s) == false);
                    assert forall|i: int, j: int| 0 <= i < j < names_of(xs2).len() implies names_of(xs2)[i] != names_of(xs2)[j] by {
                        if j == names_of(xs2).len() - 1 {
                            assert(names_of(xs2)[i] == names_of(xs)[i]);
                            assert(names_of(xs).to_set().contains(names_of(xs)[i]));
                        } else {
                            assert(names_of(xs2)[i] == names_of(xs)[i] && names_of(xs2)[j] == names_of(xs)[j]);
                        }
                    }
                    assert(names_of(xs2).to_set() =~= names_of(xs).to_set().insert(s)) by {
                        assert forall|x: Seq<char>| names_of(xs2).to_set().contains(x) <==> names_of(xs).to_set().insert(s).contains(x) by {
                            if names_of(xs2).to_set().contains(x) {
                                let i = choose|i: int| 0 <= i < names_of(xs2).len() && names_of(xs2)[i] == x;
                                if i < names_of(xs).len() {
                                    assert(names_of(xs)[i] == x);
                                }
                            }
                            if names_of(xs).to_set().contains(x) {
                                let i = choose|i: int| 0 <= i < names_of(xs).len() && names_of(xs)[i] == x;
                                assert(names_of(xs2)[i] == x);
                            }
                            if x == s {
                                assert(names_of(xs2)[names_of(xs2).len() - 1] == x);
                            }
                        }
                    }
                    assert(names_of(xs2).to_set() =~= cur.difference(map.dom()));
                    assert(mp.insert(s, base + xs.len()).dom() =~= map.dom().union(names_of(xs2).to_set()));
                    assert forall|k: int| 0 <= k < xs2.len() implies (#[trigger] xs2[k]).name is Some && !map.contains_key(
                        xs2[k].name->0,
                    ) by {
                        if k < xs.len() {
                            assert(xs2[k] == xs[k]);
                        }
                    }
                } else {
                    assert(names_of(xs).to_set() =~= cur.difference(map.dom()));
                }
            },
            None => {
                assert(cur =~= prev) by {
                    assert forall|x: Seq<char>| cur.contains(x) <==> prev.contains(x) by {
                        if cur.contains(x) {
                            let i = choose|i: int| 0 <= i < m && (#[trigger] old_nodes[i]).name == Some(x);
                            if i < m - 1 {
                                assert(prev.contains(x));
                            }
                        }
                        if prev.contains(x) {
                            let i = choose|i: int| 0 <= i < m - 1 && (#[trigger] old_nodes[i]).name == Some(x);
                            assert(cur.contains(x));
                        }
                    }
                }
            },
        }
    }
}

proof fn lemma_diff_edges_bound(es: Seq<(nat, nat, Edge)>, nodes: Seq<NodeView>, map: Map<Seq<char>, nat>, bound: nat)
    requires
        forall|k: Seq<char>| #[trigger] map.contains_key(k) ==> map[k] < bound,
    ensures
        forall|i: int| 0 <= i < diff_edges(es, nodes, map).len() ==> (#[trigger] diff_edges(es, nodes, map)[i]).0 < bound
            && diff_edges(es, nodes, map)[i].1 < bound,
    decreases es.len(),
{
    if es.len() > 0 {
        lemma_diff_edges_bound(es.drop_last(), nodes, map, bound);
        let r = diff_edges(es.drop_last(), nodes, map);
        assert forall|i: int| 0 <= i < diff_edges(es, nodes, map).len() implies (#[trigger] diff_edges(es, nodes, map)[i]).0
            < bound && diff_edges(es, nodes, map)[i].1 < bound by {
            if i < r.len() {
                assert(diff_edges(es, nodes, map)[i] == r[i]);
            }
        }
    }
}

/// The diff graph lists the new version's nodes in index order, then, with
/// the status removed, one node for each name of the old version that no
/// node of the new version carries as its name key; so it has as many
/// nodes as the new version plus those names.  Its edges join nodes of the
/// new version.
pub proof fn lemma_diff_graph_shape(old: CpgView, new: CpgView, r: (Seq<DiffNodeView>, Seq<DiffNodeView>, Seq<DiffNodeView>))
    ensures
        ({
            let g = diff_graph_nodes(old, new, r);
            let gone = names_upto(old.nodes, old.nodes.len()).difference(key_set(new.nodes));
            &&& gone.finite()
            &&& g.len() == new.nodes.len() + gone.len()
            &&& forall|i: int| 0 <= i < new.nodes.len() ==> (#[trigger] g[i]).0 == new.nodes[i]
            &&& forall|i: int|
                new.nodes.len() <= i < g.len() ==> (#[trigger] g[i]).1 == DiffStatus::Removed && g[i].0.name is Some
                    && gone.contains(g[i].0.name->0)
            &&& forall|i: int, j: int|
                new.nodes.len() <= i < j < g.len() ==> (#[trigger] g[i]).0.name != (#[trigger] g[j]).0.name
            &&& forall|x: Seq<char>| #[trigger] gone.contains(x) ==> exists|i: int|
                new.nodes.len() <= i < g.len() && g[i].0.name == Some(x)
        }),
        forall|i: int| 0 <= i < diff_graph_edges(new).len() ==> (#[trigger] diff_graph_edges(new)[i]).0 < new.nodes.len()
            && diff_graph_edges(new)[i].1 < new.nodes.len(),
{
    let map = name_map(new.nodes, new.nodes.len());
    lemma_name_map(new.nodes, new.nodes.len());
    assert(new.nodes.take(new.nodes.len() as int) =~= new.nodes);
    lemma_extra_nodes(old.nodes, old.nodes.len(), map, new.nodes.len());
    let xs = extra_nodes(old.nodes, old.nodes.len(), map, new.nodes.len()).0;
    let gone = names_upto(old.nodes, old.nodes.len()).difference(key_set(new.nodes));
    names_of(xs).unique_seq_to_set();
    let front = new.nodes.map_values(|n: NodeView| (n, status_of(name_key(n), r.0, r.1, r.2)));
    let back = xs.map_values(|n: NodeView| (n, DiffStatus::Removed));
    let g = diff_graph_nodes(old, new, r);
    assert(g == front + back);
    assert forall|i: int| new.nodes.len() <= i < g.len() implies (#[trigger] g[i]).1 == DiffStatus::Removed && g[i].0.name is Some
        && gone.contains(g[i].0.name->0) by {
        let k = i - new.nodes.len();
        assert(g[i] == back[k]);
        assert(names_of(xs)[k] == xs[k].name->0);
        assert(names_of(xs).to_set().contains(names_of(xs)[k]));
    }
    assert forall|i: int, j: int| new.nodes.len() <= i < j < g.len() implies (#[trigger] g[i]).0.name != (#[trigger] g[j]).0.name by {
        let a = i - new.nodes.len();
        let b = j - new.nodes.len();
        assert(g[i] == back[a] && g[j] == back[b]);
        assert(names_of(xs)[a] != names_of(xs)[b]);
    }
    assert forall|x: Seq<char>| #[trigger] gone.contains(x) implies exists|i: int|
        new.nodes.len() <= i < g.len() && g[i].0.name == Some(x) by {
        assert(names_of(xs).to_set().contains(x));
        let k = choose|k: int| 0 <= k < names_of(xs).len() && names_of(xs)[k] == x;
        assert(g[new.nodes.len() + k] == back[k]);
    }
    lemma_diff_edges_bound(new.edges, new.nodes, map, new.nodes.len());
}

/// The names that the nodes carry.
pub open spec fn name_set(nodes: Seq<NodeView>) -> Set<Seq<char>> {
    Set::new(|n: Seq<char>| has_node_named(nodes, n))
}

/// How many of the names satisfy `p`.
pub open spec fn count_where(s: Seq<Seq<char>>, p: spec_fn(Seq<char>) -> bool) -> nat
    decreases s.len(),
{
    if s.len() == 0 {
        0
    } else {
        count_where(s.drop_last(), p) + if p(s.last()) {
            1nat
        } else {
            0nat
        }
    }
}

proof fn lemma_count_where_card(s: Seq<Seq<char>>, p: spec_fn(Seq<char>) -> bool)
    requires
        s.no_duplicates(),
    ensures
        s.to_set().filter(p).finite(),
        count_where(s, p) == s.to_set().filter(p).len(),
    decreases s.len(),
{
    if s.len() == 0 {
        assert(s.to_set().filter(p) =~= Set::<Seq<char>>::empty());
    } else {
        let init = s.drop_last();
        assert(init.no_duplicates()) by {
            assert forall|i: int, j: int| 0 <= i < init.len() && 0 <= j < init.len() && i != j implies init[i]
                != init[j] by {
                assert(init[i] == s[i] && init[j] == s[j]);
            }
        }
        lemma_count_where_card(init, p);
        let last = s.last();
        assert(s.to_set() =~= init.to_set().insert(last)) by {
            assert(s =~= init.push(last));
            assert forall|x: Seq<char>| s.to_set().contains(x) <==> init.to_set().insert(last).contains(x) by {
                if s.to_set().contains(x) {
                    let i = choose|i: int| 0 <= i < s.len() && s[i] == x;
                    if i < init.len() {
                        assert(init[i] == x);
                    }
                }
                if init.to_set().contains(x) {
                    let i = choose|i: int| 0 <= i < init.len() && init[i] == x;
                    assert(s[i] == x);
                }
                if x == last {
                    assert(s[s.len() - 1] == x);
                }
            }
        }
        assert(!init.to_set().contains(last)) by {
            if init.to_set().contains(last) {
                let i = choose|i: int| 0 <= i < init.len() && init[i] == last;
                assert(s[i] == s[s.len() - 1]);
            }
        }
        if p(last) {
            assert(s.to_set().filter(p) =~= init.to_set().filter(p).insert(last));
        } else {
            assert(s.to_set().filter(p) =~= init.to_set().filter(p));
        }
    }
}

proof fn lemma_only_in_count(names: Seq<Seq<char>>, other: Seq<NodeView>, src: Seq<NodeView>, status: DiffStatus)
    ensures
        only_in(names, other, src, status).len() == count_where(names, |n: Seq<char>| !has_node_named(other, n)),
    decreases names.len(),
{
    if names.len() > 0 {
        lemma_only_in_count(names.drop_last(), other, src, status);
    }
}

proof fn lemma_modified_in_count(names: Seq<Seq<char>>, old: CpgView, new: CpgView)
    ensures
        modified_in(names, old, new).len() == count_where(
            names,
            |n: Seq<char>|
                has_node_named(new.nodes, n) && call_degree(old, first_named(old.nodes, n)) != call_degree(
                    new,
                    first_named(new.nodes, n),
                ),
        ),
    decreases names.len(),
{
    if names.len() > 0 {
        lemma_modified_in_count(names.drop_last(), old, new);
    }
}

/// A node named `n` exists exactly when `has_node_named` says so.
proof fn lemma_has_node_named(nodes: Seq<NodeView>, n: Seq<char>)
    ensures
        has_node_named(nodes, n) <==> exists|i: int| 0 <= i < nodes.len() && (#[trigger] nodes[i]).name == Some(n),
{
    if has_node_named(nodes, n) {
        crate::query::lemma_select_bounds(nodes, None, Some(n));
        let i = select(nodes, None, Some(n))[0] as int;
        assert(nodes[i].name == Some(n));
    }
    if exists|i: int| 0 <= i < nodes.len() && (#[trigger] nodes[i]).name == Some(n) {
        let i = choose|i: int| 0 <= i < nodes.len() && (#[trigger] nodes[i]).name == Some(n);
        lemma_named_at(nodes, i, n);
    }
}

/// `distinct_names` lists each name of the first `m` nodes exactly once.
proof fn lemma_distinct_names_set(nodes: Seq<NodeView>, m: nat)
    requires
        m <= nodes.len(),
    ensures
        distinct_names(nodes, m).no_duplicates(),
        forall|n: Seq<char>|
            distinct_names(nodes, m).contains(n) <==> exists|i: int| 0 <= i < m && (#[trigger] nodes[i]).name == Some(n),
    decreases m,
{
    if m > 0 {
        lemma_distinct_names_set(nodes, (m - 1) as nat);
        let r = distinct_names(nodes, (m - 1) as nat);
        let d = distinct_names(nodes, m);
        assert forall|n: Seq<char>| d.contains(n) <==> exists|i: int| 0 <= i < m && (#[trigger] nodes[i]).name == Some(n) by {
            if d.contains(n) {
                let j = choose|j: int| 0 <= j < d.len() && d[j] == n;
                if j < r.len() {
                    assert(r[j] == n);
                    assert(r.contains(n));
                    let i = choose|i: int| 0 <= i < m - 1 && (#[trigger] nodes[i]).name == Some(n);
                    assert(nodes[i].name == Some(n));
                } else {
                    assert(nodes[m - 1].name == Some(n));
                }
            }
            if exists|i: int| 0 <= i < m && (#[trigger] nodes[i]).name == Some(n) {
                let i = choose|i: int| 0 <= i < m && (#[trigger] nodes[i]).name == Some(n);
                if i < m - 1 {
                    assert(r.contains(n));
                    let j = choose|j: int| 0 <= j < r.len() && r[j] == n;
                    assert(d[j] == n);
                } else if r.contains(n) {
                    let j = choose|j: int| 0 <= j < r.len() && r[j] == n;
                    assert(d[j] == n);
                } else {
                    assert(d[d.len() - 1] == n);
                }
            }
        }
        match nodes[m - 1].name {
            Some(n) => if !r.contains(n) {
                assert forall|i: int, j: int| 0 <= i < d.len() && 0 <= j < d.len() && i != j implies d[i] != d[j] by {
                    if i < r.len() && j < r.len() {
                        assert(d[i] == r[i] && d[j] == r[j]);
                    } else if i < r.len() {
                        assert(d[i] == r[i]);
                    } else {
                        assert(d[j] == r[j]);
                    }
                }
            },
            None => {},
        }
    }
}

proof fn lemma_distinct_names_to_set(nodes: Seq<NodeView>)
    ensures
        distinct_names(nodes, nodes.len()).no_duplicates(),
        distinct_names(nodes, nodes.len()).to_set() == name_set(nodes),
{
    lemma_distinct_names_set(nodes, nodes.len());
    let d = distinct_names(nodes, nodes.len());
    assert forall|n: Seq<char>| d.to_set().contains(n) <==> name_set(nodes).contains(n) by {
        lemma_has_node_named(nodes, n);
    }
    assert(d.to_set() =~= name_set(nodes));
}

/// The numbers of a diff are those of sets of names: the names added are
/// those of the new version that the old one lacks, the names removed those
/// of the old version that the new one lacks, and the names modified those
/// of both versions whose first node has a different number of outgoing
/// calls.
pub proof fn lemma_diff_counts(old: CpgView, new: CpgView)
    ensures
        name_set(new.nodes).difference(name_set(old.nodes)).finite(),
        added_spec(old, new).len() == name_set(new.nodes).difference(name_set(old.nodes)).len(),
        name_set(old.nodes).difference(name_set(new.nodes)).finite(),
        removed_spec(old, new).len() == name_set(old.nodes).difference(name_set(new.nodes)).len(),
        modified_spec(old, new).len() == name_set(old.nodes).intersect(name_set(new.nodes)).filter(
            |n: Seq<char>|
                call_degree(old, first_named(old.nodes, n)) != call_degree(new, first_named(new.nodes, n)),
        ).len(),
{
    let dn = distinct_names(new.nodes, new.nodes.len());
    let dold = distinct_names(old.nodes, old.nodes.len());
    lemma_distinct_names_to_set(new.nodes);
    lemma_distinct_names_to_set(old.nodes);
    let pa = |n: Seq<char>| !has_node_named(old.nodes, n);
    let pr = |n: Seq<char>| !has_node_named(new.nodes, n);
    let pm = |n: Seq<char>|
        has_node_named(new.nodes, n) && call_degree(old, first_named(old.nodes, n)) != call_degree(
            new,
            first_named(new.nodes, n),
        );
    lemma_only_in_count(dn, old.nodes, new.nodes, DiffStatus::Added);
    lemma_count_where_card(dn, pa);
    assert(dn.to_set().filter(pa) =~= name_set(new.nodes).difference(name_set(old.nodes)));
    lemma_only_in_count(dold, new.nodes, old.nodes, DiffStatus::Removed);
    lemma_count_where_card(dold, pr);
    assert(dold.to_set().filter(pr) =~= name_set(old.nodes).difference(name_set(new.nodes)));
    lemma_modified_in_count(dold, old, new);
    lemma_count_where_card(dold, pm);
    assert(dold.to_set().filter(pm) =~= name_set(old.nodes).intersect(name_set(new.nodes)).filter(
        |n: Seq<char>|
            call_degree(old, first_named(old.nodes, n)) != call_degree(new, first_named(new.nodes, n)),
    ));
}

} // verus!
