//! Building a [`CodePropertyGraph`] from parser facts.
//!
//! Facts from one or more files are ingested into one graph; facts with the
//! same symbolic key (their USR, else their name, else the empty string)
//! share one node.  Definitions and call sites are recorded by name, and
//! [`GraphBuilder::resolve_calls`] joins every call site to every definition
//! of its name.  Builders filled separately can be merged.

use vstd::prelude::*;
use vstd::hash_map::StringHashMap;
use crate::common::{NodeKind, is_definition_kind, is_definition};
use crate::facts::{RawNode, RawNodeView, facts_view};
use crate::graph::{CodePropertyGraph, CpgView, Edge, Node, NodeView, cpg_wf, edges_valid};

verus! {

/// The definitions and call sites recorded under one name.
struct NameEntry {
    name: String,
    defs: Vec<usize>,
    calls: Vec<usize>,
}

/// The mathematical value of the record kept for one name: the node indices
/// of its definitions and of its call sites, in the order they were seen.
pub struct NameEntryView {
    pub name: Seq<char>,
    pub defs: Seq<nat>,
    pub calls: Seq<nat>,
}

impl NameEntry {
    spec fn view(&self) -> NameEntryView {
        NameEntryView {
            name: self.name@,
            defs: self.defs@.map_values(|x: usize| x as nat),
            calls: self.calls@.map_values(|x: usize| x as nat),
        }
    }
}

/// The mathematical value of a builder: the graph, the node of each
/// symbolic key, and the records kept by name (with the position of each
/// name's record).
pub struct BuilderView {
    pub cpg: CpgView,
    pub symbols: Map<Seq<char>, nat>,
    pub name_index: Map<Seq<char>, nat>,
    pub entries: Seq<NameEntryView>,
}

/// Incrementally builds a [`CodePropertyGraph`] from parser facts.
///
/// The function definitions and call sites recorded under each name are
/// kept as one [`NameEntry`] per name in `entries`, in the order in which
/// the names were first seen, and `name_index` finds a name's entry.  Call
/// resolution walks `entries` in that order, so the order in which call
/// edges are added is fixed, where a hash map walked by its own order would
/// leave it open.
pub struct GraphBuilder {
    cpg: CodePropertyGraph,
    symbol_index: StringHashMap<usize>,
    name_index: StringHashMap<usize>,
    entries: Vec<NameEntry>,
}

impl View for GraphBuilder {
    type V = BuilderView;

    closed spec fn view(&self) -> BuilderView {
        BuilderView {
            cpg: self.cpg@,
            symbols: self.symbol_index@.map_values(|v: usize| v as nat),
            name_index: self.name_index@.map_values(|v: usize| v as nat),
            entries: self.entries@.map_values(|e: NameEntry| e.view()),
        }
    }
}

/// The builder's invariant: every node carries a key, the key index maps
/// each key to the one node that carries it (so no two nodes share a key),
/// the name index maps each recorded name to its record, and every recorded
/// index is a node.
pub open spec fn builder_wf(v: BuilderView) -> bool {
    &&& cpg_wf(v.cpg)
    &&& forall|k: Seq<char>|
        #![trigger v.symbols[k]]
        v.symbols.contains_key(k) ==> v.symbols[k] < v.cpg.nodes.len() && v.cpg.nodes[v.symbols[k] as int].usr
            == Some(k)
    &&& forall|i: int|
        #![trigger v.cpg.nodes[i]]
        0 <= i < v.cpg.nodes.len() ==> v.cpg.nodes[i].usr is Some && v.symbols.contains_key(
            v.cpg.nodes[i].usr->0,
        ) && v.symbols[v.cpg.nodes[i].usr->0] == i
    &&& forall|k: Seq<char>|
        #![trigger v.name_index[k]]
        v.name_index.contains_key(k) ==> v.name_index[k] < v.entries.len() && v.entries[v.name_index[k] as int].name
            == k
    &&& forall|j: int|
        #![trigger v.entries[j]]
        0 <= j < v.entries.len() ==> v.name_index.contains_key(v.entries[j].name) && v.name_index[v.entries[j].name]
            == j
    &&& forall|j: int, t: int|
        #![trigger v.entries[j].defs[t]]
        0 <= j < v.entries.len() && 0 <= t < v.entries[j].defs.len() ==> v.entries[j].defs[t] < v.cpg.nodes.len()
    &&& forall|j: int, t: int|
        #![trigger v.entries[j].calls[t]]
        0 <= j < v.entries.len() && 0 <= t < v.entries[j].calls.len() ==> v.entries[j].calls[t] < v.cpg.nodes.len()
}

/// The symbolic key of a fact: its USR, else its name, else the empty
/// string.
pub open spec fn raw_key(r: RawNodeView) -> Seq<char> {
    match r.usr {
        Some(u) => u,
        None => match r.name {
            Some(n) => n,
            None => Seq::empty(),
        },
    }
}

/// The node that a fact creates when its key is new.
pub open spec fn raw_node(r: RawNodeView) -> NodeView {
    NodeView { kind: r.kind, name: r.name, usr: Some(raw_key(r)), start_line: r.start_line, end_line: r.end_line }
}

/// Record node `idx` under `name`, as a definition or as a call site.
pub open spec fn record_name(m: BuilderView, name: Seq<char>, idx: nat, def: bool) -> BuilderView {
    if m.name_index.contains_key(name) {
        let p = m.name_index[name] as int;
        let e = m.entries[p];
        let e2 = if def {
            NameEntryView { name: e.name, defs: e.defs.push(idx), calls: e.calls }
        } else {
            NameEntryView { name: e.name, defs: e.defs, calls: e.calls.push(idx) }
        };
        BuilderView { cpg: m.cpg, symbols: m.symbols, name_index: m.name_index, entries: m.entries.update(p, e2) }
    } else {
        let e = if def {
            NameEntryView { name, defs: seq![idx], calls: seq![] }
        } else {
            NameEntryView { name, defs: seq![], calls: seq![idx] }
        };
        BuilderView {
            cpg: m.cpg,
            symbols: m.symbols,
            name_index: m.name_index.insert(name, m.entries.len()),
            entries: m.entries.push(e),
        }
    }
}

/// Find or create the node of a key: the builder after it, and the node's
/// index.
pub open spec fn key_node(m: BuilderView, key: Seq<char>, node: NodeView) -> (BuilderView, nat) {
    if m.symbols.contains_key(key) {
        (m, m.symbols[key])
    } else {
        (
            BuilderView {
                cpg: CpgView { nodes: m.cpg.nodes.push(node), edges: m.cpg.edges },
                symbols: m.symbols.insert(key, m.cpg.nodes.len()),
                name_index: m.name_index,
                entries: m.entries,
            },
            m.cpg.nodes.len(),
        )
    }
}

/// One fact: find or create its node, then record the node by name if the
/// fact is a named definition (function or class) or a named call site.
pub open spec fn ingest_one(m: BuilderView, r: RawNodeView) -> (BuilderView, nat) {
    let (m1, idx) = key_node(m, raw_key(r), raw_node(r));
    let m2 = match r.name {
        Some(n) => if is_definition_kind(r.kind) {
            record_name(m1, n, idx, true)
        } else if r.kind == NodeKind::CallSite {
            record_name(m1, n, idx, false)
        } else {
            m1
        },
        None => m1,
    };
    (m2, idx)
}

/// The facts in order: the builder after them, and the node index of each.
pub open spec fn ingest_all(m: BuilderView, facts: Seq<RawNodeView>) -> (BuilderView, Seq<nat>)
    decreases facts.len(),
{
    if facts.len() == 0 {
        (m, seq![])
    } else {
        let (m1, idxs) = ingest_all(m, facts.drop_last());
        let (m2, i) = ingest_one(m1, facts.last());
        (m2, idxs.push(i))
    }
}

/// The AST-child edges from node `from` to the nodes of the listed children
/// that are facts of the list (`idxs` holds the node of each fact).
pub open spec fn children_edges(children: Seq<usize>, from: nat, idxs: Seq<nat>) -> Seq<(nat, nat, Edge)>
    decreases children.len(),
{
    if children.len() == 0 {
        seq![]
    } else {
        let rest = children_edges(children.drop_last(), from, idxs);
        let c = children.last();
        if c < idxs.len() {
            rest.push((from, idxs[c as int], Edge::AstChild))
        } else {
            rest
        }
    }
}

/// The AST-child edges of the first `n` facts, fact by fact.
pub open spec fn ast_edges(facts: Seq<RawNodeView>, idxs: Seq<nat>, n: nat) -> Seq<(nat, nat, Edge)>
    decreases n,
{
    if n == 0 {
        seq![]
    } else {
        ast_edges(facts, idxs, (n - 1) as nat) + children_edges(facts[n - 1].children, idxs[n - 1], idxs)
    }
}

/// A builder after ingesting the facts of one file: first every fact's node
/// and name records, then every fact's AST-child edges.
pub open spec fn ingest_model(m: BuilderView, facts: Seq<RawNodeView>) -> BuilderView {
    let (m1, idxs) = ingest_all(m, facts);
    BuilderView {
        cpg: CpgView { nodes: m1.cpg.nodes, edges: m1.cpg.edges + ast_edges(facts, idxs, facts.len()) },
        symbols: m1.symbols,
        name_index: m1.name_index,
        entries: m1.entries,
    }
}

/// The call edges from call site `c` to each of `defs`, in order.
pub open spec fn def_edges(c: nat, defs: Seq<nat>) -> Seq<(nat, nat, Edge)>
    decreases defs.len(),
{
    if defs.len() == 0 {
        seq![]
    } else {
        def_edges(c, defs.drop_last()).push((c, defs.last(), Edge::Call))
    }
}

/// The call edges from each of `calls` to each of `defs`, call by call.
pub open spec fn call_edges(calls: Seq<nat>, defs: Seq<nat>) -> Seq<(nat, nat, Edge)>
    decreases calls.len(),
{
    if calls.len() == 0 {
        seq![]
    } else {
        call_edges(calls.drop_last(), defs) + def_edges(calls.last(), defs)
    }
}

/// The call edges that resolving adds: for each name in the order the
/// names were first seen, from each of its call sites to each of its
/// definitions.
pub open spec fn resolve_edges(entries: Seq<NameEntryView>) -> Seq<(nat, nat, Edge)>
    decreases entries.len(),
{
    if entries.len() == 0 {
        seq![]
    } else {
        resolve_edges(entries.drop_last()) + call_edges(entries.last().calls, entries.last().defs)
    }
}

proof fn lemma_def_edges_prefix(c: nat, defs: Seq<nat>, t: int)
    requires
        0 <= t <= defs.len(),
    ensures
        def_edges(c, defs.take(t)).len() == t,
        def_edges(c, defs).len() == defs.len(),
    decreases defs.len() - t,
{
    if t < defs.len() {
        assert(defs.take(t + 1).drop_last() =~= defs.take(t));
        lemma_def_edges_prefix(c, defs, t + 1);
    } else {
        assert(defs.take(t) =~= defs);
        lemma_def_edges_len(c, defs);
    }
}

proof fn lemma_def_edges_len(c: nat, defs: Seq<nat>)
    ensures
        def_edges(c, defs).len() == defs.len(),
    decreases defs.len(),
{
    if defs.len() > 0 {
        lemma_def_edges_len(c, defs.drop_last());
    }
}

proof fn lemma_call_edges_prefix(calls: Seq<nat>, defs: Seq<nat>, s: int)
    requires
        0 <= s <= calls.len(),
    ensures
        call_edges(calls.take(s), defs).len() <= call_edges(calls, defs).len(),
    decreases calls.len() - s,
{
    if s < calls.len() {
        assert(calls.take(s + 1).drop_last() =~= calls.take(s));
        lemma_call_edges_prefix(calls, defs, s + 1);
    } else {
        assert(calls.take(s) =~= calls);
    }
}

proof fn lemma_resolve_edges_prefix(entries: Seq<NameEntryView>, j: int)
    requires
        0 <= j <= entries.len(),
    ensures
        resolve_edges(entries.take(j)).len() <= resolve_edges(entries).len(),
    decreases entries.len() - j,
{
    if j < entries.len() {
        assert(entries.take(j + 1).drop_last() =~= entries.take(j));
        lemma_resolve_edges_prefix(entries, j + 1);
    } else {
        assert(entries.take(j) =~= entries);
    }
}

/// Which call edges `def_edges` holds.
proof fn lemma_def_edges_member(c: nat, defs: Seq<nat>, e: (nat, nat, Edge))
    ensures
        def_edges(c, defs).contains(e) <==> (e.0 == c && e.2 == Edge::Call && defs.contains(e.1)),
    decreases defs.len(),
{
    if defs.len() > 0 {
        lemma_def_edges_member(c, defs.drop_last(), e);
        let rest = def_edges(c, defs.drop_last());
        if defs.contains(e.1) && !defs.drop_last().contains(e.1) {
            let k = choose|k: int| 0 <= k < defs.len() && defs[k] == e.1;
            if k < defs.len() - 1 {
                assert(defs.drop_last()[k] == e.1);
            }
        }
        if defs.drop_last().contains(e.1) {
            let k = choose|k: int| 0 <= k < defs.len() - 1 && defs.drop_last()[k] == e.1;
            assert(defs[k] == e.1);
        }
        if rest.push((c, defs.last(), Edge::Call)).contains(e) && !rest.contains(e) {
            let k = choose|k: int| 0 <= k < rest.len() + 1 && rest.push((c, defs.last(), Edge::Call))[k] == e;
            if k < rest.len() {
                assert(rest[k] == e);
            }
        }
        if rest.contains(e) {
            let k = choose|k: int| 0 <= k < rest.len() && rest[k] == e;
            assert(rest.push((c, defs.last(), Edge::Call))[k] == e);
        }
        if e.0 == c && e.2 == Edge::Call && e.1 == defs.last() {
            assert(rest.push((c, defs.last(), Edge::Call))[rest.len() as int] == e);
        }
    }
}

/// Which call edges `call_edges` holds.
proof fn lemma_call_edges_member(calls: Seq<nat>, defs: Seq<nat>, e: (nat, nat, Edge))
    ensures
        call_edges(calls, defs).contains(e) <==> (e.2 == Edge::Call && calls.contains(e.0) && defs.contains(e.1)),
    decreases calls.len(),
{
    if calls.len() > 0 {
        lemma_call_edges_member(calls.drop_last(), defs, e);
        lemma_def_edges_member(calls.last(), defs, e);
        let a = call_edges(calls.drop_last(), defs);
        let b = def_edges(calls.last(), defs);
        lemma_concat_contains(a, b, e);
        if calls.contains(e.0) && !calls.drop_last().contains(e.0) {
            let k = choose|k: int| 0 <= k < calls.len() && calls[k] == e.0;
            if k < calls.len() - 1 {
                assert(calls.drop_last()[k] == e.0);
            }
        }
        if calls.drop_last().contains(e.0) {
            let k = choose|k: int| 0 <= k < calls.len() - 1 && calls.drop_last()[k] == e.0;
            assert(calls[k] == e.0);
        }
        if e.0 == calls.last() {
            assert(calls[calls.len() - 1] == e.0);
        }
    }
}

/// Membership in a concatenation.
proof fn lemma_concat_contains<T>(a: Seq<T>, b: Seq<T>, x: T)
    ensures
        (a + b).contains(x) <==> (a.contains(x) || b.contains(x)),
{
    if a.contains(x) {
        let k = choose|k: int| 0 <= k < a.len() && a[k] == x;
        assert((a + b)[k] == x);
    }
    if b.contains(x) {
        let k = choose|k: int| 0 <= k < b.len() && b[k] == x;
        assert((a + b)[a.len() + k] == x);
    }
    if (a + b).contains(x) {
        let k = choose|k: int| 0 <= k < (a + b).len() && (a + b)[k] == x;
        if k < a.len() {
            assert(a[k] == x);
        } else {
            assert(b[k - a.len()] == x);
        }
    }
}

/// Resolving calls joins exactly the call sites and definitions recorded
/// under a common name: an edge `(a, b, kind)` is among the added edges if
/// and only if it is a call edge and some name records `a` as a call site
/// and `b` as a definition.
pub proof fn lemma_resolve_edges_exact(entries: Seq<NameEntryView>, e: (nat, nat, Edge))
    ensures
        resolve_edges(entries).contains(e) <==> (e.2 == Edge::Call && exists|j: int|
            0 <= j < entries.len() && (#[trigger] entries[j]).calls.contains(e.0) && entries[j].defs.contains(e.1)),
    decreases entries.len(),
{
    if entries.len() > 0 {
        let init = entries.drop_last();
        lemma_resolve_edges_exact(init, e);
        lemma_call_edges_member(entries.last().calls, entries.last().defs, e);
        lemma_concat_contains(resolve_edges(init), call_edges(entries.last().calls, entries.last().defs), e);
        if exists|j: int| 0 <= j < init.len() && (#[trigger] init[j]).calls.contains(e.0) && init[j].defs.contains(e.1) {
            let j = choose|j: int| 0 <= j < init.len() && (#[trigger] init[j]).calls.contains(e.0) && init[j].defs.contains(e.1);
            assert(entries[j] == init[j]);
        }
        if exists|j: int| 0 <= j < entries.len() && (#[trigger] entries[j]).calls.contains(e.0) && entries[j].defs.contains(e.1) {
            let j = choose|j: int| 0 <= j < entries.len() && (#[trigger] entries[j]).calls.contains(e.0) && entries[j].defs.contains(e.1);
            if j < entries.len() - 1 {
                assert(init[j] == entries[j]);
            }
        }
    }
}

/// The key under which a node of another builder is merged: its USR, else
/// the empty string.
pub open spec fn node_key(n: NodeView) -> Seq<char> {
    match n.usr {
        Some(u) => u,
        None => Seq::empty(),
    }
}

/// Merging nodes in order: the builder after them, and the new index of
/// each.
pub open spec fn merge_nodes(m: BuilderView, nodes: Seq<NodeView>) -> (BuilderView, Seq<nat>)
    decreases nodes.len(),
{
    if nodes.len() == 0 {
        (m, seq![])
    } else {
        let (m1, map) = merge_nodes(m, nodes.drop_last());
        let (m2, i) = key_node(m1, node_key(nodes.last()), nodes.last());
        (m2, map.push(i))
    }
}

/// Node indices carried over by `map`.
pub open spec fn remap(idxs: Seq<nat>, map: Seq<nat>) -> Seq<nat> {
    idxs.map_values(|i: nat| map[i as int])
}

/// Edges carried over by `map`.
pub open spec fn remap_edges(edges: Seq<(nat, nat, Edge)>, map: Seq<nat>) -> Seq<(nat, nat, Edge)> {
    edges.map_values(|e: (nat, nat, Edge)| (map[e.0 as int], map[e.1 as int], e.2))
}

/// Append definitions and call sites to the record of `name` (creating it).
pub open spec fn append_records(m: BuilderView, name: Seq<char>, defs: Seq<nat>, calls: Seq<nat>) -> BuilderView {
    if m.name_index.contains_key(name) {
        let p = m.name_index[name] as int;
        let e = m.entries[p];
        BuilderView {
            cpg: m.cpg,
            symbols: m.symbols,
            name_index: m.name_index,
            entries: m.entries.update(p, NameEntryView { name: e.name, defs: e.defs + defs, calls: e.calls + calls }),
        }
    } else {
        BuilderView {
            cpg: m.cpg,
            symbols: m.symbols,
            name_index: m.name_index.insert(name, m.entries.len()),
            entries: m.entries.push(NameEntryView { name, defs, calls }),
        }
    }
}

/// Merging the name records of another builder, name by name.
pub open spec fn merge_entries(m: BuilderView, entries: Seq<NameEntryView>, map: Seq<nat>) -> BuilderView
    decreases entries.len(),
{
    if entries.len() == 0 {
        m
    } else {
        let e = entries.last();
        append_records(merge_entries(m, entries.drop_last(), map), e.name, remap(e.defs, map), remap(e.calls, map))
    }
}

/// A builder after merging another one into it: the other's nodes in order
/// (each reusing the node of its key, or added), then its edges carried over,
/// then its name records appended to those of the same name.
pub open spec fn merge_model(m: BuilderView, o: BuilderView) -> BuilderView {
    let (m1, map) = merge_nodes(m, o.cpg.nodes);
    let m2 = BuilderView {
        cpg: CpgView { nodes: m1.cpg.nodes, edges: m1.cpg.edges + remap_edges(o.cpg.edges, map) },
        symbols: m1.symbols,
        name_index: m1.name_index,
        entries: m1.entries,
    };
    merge_entries(m2, o.entries, map)
}

proof fn lemma_merge_nodes_prefix(m: BuilderView, nodes: Seq<NodeView>, i: int)
    requires
        0 <= i < nodes.len(),
    ensures
        merge_nodes(m, nodes.take(i + 1)) == ({
            let (m1, map) = merge_nodes(m, nodes.take(i));
            let (m2, k) = key_node(m1, node_key(nodes[i]), nodes[i]);
            (m2, map.push(k))
        }),
{
    assert(nodes.take(i + 1).drop_last() =~= nodes.take(i));
}

proof fn lemma_merge_nodes_len(m: BuilderView, nodes: Seq<NodeView>)
    ensures
        merge_nodes(m, nodes).1.len() == nodes.len(),
        merge_nodes(m, nodes).0.cpg.edges == m.cpg.edges,
        merge_nodes(m, nodes).0.entries == m.entries,
        merge_nodes(m, nodes).0.name_index == m.name_index,
    decreases nodes.len(),
{
    if nodes.len() > 0 {
        lemma_merge_nodes_len(m, nodes.drop_last());
    }
}

proof fn lemma_merge_nodes_monotone(m: BuilderView, nodes: Seq<NodeView>, i: int, j: int)
    requires
        0 <= i <= j <= nodes.len(),
    ensures
        merge_nodes(m, nodes.take(i)).0.cpg.nodes.len() <= merge_nodes(m, nodes.take(j)).0.cpg.nodes.len(),
    decreases j - i,
{
    if i < j {
        lemma_merge_nodes_prefix(m, nodes, j - 1);
        lemma_merge_nodes_monotone(m, nodes, i, j - 1);
    }
}

proof fn lemma_merge_entries_cpg(m: BuilderView, entries: Seq<NameEntryView>, map: Seq<nat>)
    ensures
        merge_entries(m, entries, map).cpg == m.cpg,
        merge_entries(m, entries, map).symbols == m.symbols,
    decreases entries.len(),
{
    if entries.len() > 0 {
        lemma_merge_entries_cpg(m, entries.drop_last(), map);
    }
}

/// No two nodes of a builder share a key.
pub proof fn lemma_keys_unique(v: BuilderView)
    requires
        builder_wf(v),
    ensures
        forall|i: int, j: int|
            0 <= i < v.cpg.nodes.len() && 0 <= j < v.cpg.nodes.len() && i != j ==> #[trigger] v.cpg.nodes[i].usr
                != #[trigger] v.cpg.nodes[j].usr,
{
    assert forall|i: int, j: int|
        0 <= i < v.cpg.nodes.len() && 0 <= j < v.cpg.nodes.len() && i != j implies #[trigger] v.cpg.nodes[i].usr
        != #[trigger] v.cpg.nodes[j].usr by {
        assert(v.symbols[v.cpg.nodes[i].usr->0] == i);
        assert(v.symbols[v.cpg.nodes[j].usr->0] == j);
    }
}

/// A builder has exactly one node per key: its node count is the number of
/// keys.
pub proof fn lemma_one_node_per_key(v: BuilderView)
    requires
        builder_wf(v),
    ensures
        v.symbols.dom().finite(),
        v.cpg.nodes.len() == v.symbols.dom().len(),
{
    let keys = v.cpg.nodes.map_values(|n: NodeView| n.usr->0);
    assert forall|i: int, j: int| 0 <= i < keys.len() && 0 <= j < keys.len() && i != j implies keys[i] != keys[j] by {
        assert(v.symbols[v.cpg.nodes[i].usr->0] == i);
        assert(v.symbols[v.cpg.nodes[j].usr->0] == j);
    }
    assert(keys.no_duplicates());
    keys.unique_seq_to_set();
    assert forall|k: Seq<char>| #[trigger] keys.to_set().contains(k) <==> v.symbols.dom().contains(k) by {
        if v.symbols.dom().contains(k) {
            let i = v.symbols[k] as int;
            assert(v.symbols[k] == v.symbols[k]);
            assert(keys[i] == k);
        }
        if keys.to_set().contains(k) {
            let i = choose|i: int| 0 <= i < keys.len() && keys[i] == k;
            assert(v.cpg.nodes[i].usr is Some);
        }
    }
    assert(keys.to_set() =~= v.symbols.dom());
}

/// The keys of a list of facts.
pub open spec fn fact_keys(facts: Seq<RawNodeView>) -> Set<Seq<char>> {
    Set::new(|k: Seq<char>| exists|i: int| 0 <= i < facts.len() && raw_key(facts[i]) == k)
}

/// The nodes that ingesting facts adds or reuses.
proof fn lemma_ingest_all_keys(m: BuilderView, facts: Seq<RawNodeView>)
    ensures
        ingest_all(m, facts).0.symbols.dom() == m.symbols.dom() + fact_keys(facts),
        forall|k: Seq<char>| #[trigger] m.symbols.contains_key(k) ==> ingest_all(m, facts).0.symbols[k] == m.symbols[k],
        ingest_all(m, facts).0.cpg.nodes.len() >= m.cpg.nodes.len(),
        ingest_all(m, facts).0.cpg.nodes.take(m.cpg.nodes.len() as int) == m.cpg.nodes,
    decreases facts.len(),
{
    if facts.len() == 0 {
        assert(fact_keys(facts) =~= Set::<Seq<char>>::empty());
        assert(m.symbols.dom() + fact_keys(facts) =~= m.symbols.dom());
        assert(m.cpg.nodes.take(m.cpg.nodes.len() as int) =~= m.cpg.nodes);
    } else {
        let init = facts.drop_last();
        lemma_ingest_all_keys(m, init);
        let m1 = ingest_all(m, init).0;
        let r = facts.last();
        let m2 = ingest_one(m1, r).0;
        assert(m2.symbols.dom() =~= m1.symbols.dom().insert(raw_key(r)));
        assert forall|k: Seq<char>| #[trigger] fact_keys(facts).contains(k) <==> (fact_keys(init).contains(k) || k
            == raw_key(r)) by {
            if fact_keys(facts).contains(k) {
                let i = choose|i: int| 0 <= i < facts.len() && raw_key(facts[i]) == k;
                if i < init.len() {
                    assert(init[i] == facts[i]);
                }
            }
            if fact_keys(init).contains(k) {
                let i = choose|i: int| 0 <= i < init.len() && raw_key(init[i]) == k;
                assert(facts[i] == init[i]);
            }
            if k == raw_key(r) {
                assert(raw_key(facts[facts.len() - 1]) == k);
            }
        }
        assert(m2.symbols.dom() =~= m.symbols.dom() + fact_keys(facts));
        let k1 = key_node(m1, raw_key(r), raw_node(r)).0;
        assert(m2.cpg.nodes == k1.cpg.nodes);
        assert(k1.cpg.nodes == m1.cpg.nodes || k1.cpg.nodes == m1.cpg.nodes.push(raw_node(r)));
        assert forall|i: int| 0 <= i < m.cpg.nodes.len() implies m2.cpg.nodes[i] == m.cpg.nodes[i] by {
            assert(m1.cpg.nodes.take(m.cpg.nodes.len() as int)[i] == m.cpg.nodes[i]);
            assert(m2.cpg.nodes[i] == m1.cpg.nodes[i]);
        }
        assert(m2.cpg.nodes.take(m.cpg.nodes.len() as int) =~= m.cpg.nodes);
    }
}

/// Ingesting facts gives every fact's key a node, and only those keys are
/// new; the nodes that were there keep their index, value and key.
pub proof fn lemma_ingest_keys(m: BuilderView, facts: Seq<RawNodeView>)
    ensures
        ingest_model(m, facts).symbols.dom() == m.symbols.dom() + fact_keys(facts),
        forall|k: Seq<char>| #[trigger] m.symbols.contains_key(k) ==> ingest_model(m, facts).symbols[k] == m.symbols[k],
        ingest_model(m, facts).cpg.nodes.take(m.cpg.nodes.len() as int) == m.cpg.nodes,
        ingest_model(m, facts).cpg.edges.take(m.cpg.edges.len() as int) == m.cpg.edges,
{
    lemma_ingest_all_keys(m, facts);
    lemma_ingest_all_len(m, facts);
    let (m1, idxs) = ingest_all(m, facts);
    assert((m1.cpg.edges + ast_edges(facts, idxs, facts.len())).take(m.cpg.edges.len() as int) =~= m.cpg.edges);
}

/// The node keys of a list of nodes (the empty key for a node without one).
pub open spec fn node_keys(nodes: Seq<NodeView>) -> Set<Seq<char>> {
    Set::new(|k: Seq<char>| exists|i: int| 0 <= i < nodes.len() && node_key(nodes[i]) == k)
}

proof fn lemma_merge_nodes_keys(m: BuilderView, nodes: Seq<NodeView>)
    ensures
        merge_nodes(m, nodes).0.symbols.dom() == m.symbols.dom() + node_keys(nodes),
        forall|k: Seq<char>| #[trigger] m.symbols.contains_key(k) ==> merge_nodes(m, nodes).0.symbols[k] == m.symbols[k],
        merge_nodes(m, nodes).0.cpg.nodes.take(m.cpg.nodes.len() as int) == m.cpg.nodes,
        merge_nodes(m, nodes).0.cpg.nodes.len() >= m.cpg.nodes.len(),
    decreases nodes.len(),
{
    if nodes.len() == 0 {
        assert(node_keys(nodes) =~= Set::<Seq<char>>::empty());
        assert(m.symbols.dom() + node_keys(nodes) =~= m.symbols.dom());
        assert(m.cpg.nodes.take(m.cpg.nodes.len() as int) =~= m.cpg.nodes);
    } else {
        let init = nodes.drop_last();
        lemma_merge_nodes_keys(m, init);
        let m1 = merge_nodes(m, init).0;
        let r = nodes.last();
        let m2 = key_node(m1, node_key(r), r).0;
        assert(m2.symbols.dom() =~= m1.symbols.dom().insert(node_key(r)));
        assert forall|k: Seq<char>| #[trigger] node_keys(nodes).contains(k) <==> (node_keys(init).contains(k) || k
            == node_key(r)) by {
            if node_keys(nodes).contains(k) {
                let i = choose|i: int| 0 <= i < nodes.len() && node_key(nodes[i]) == k;
                if i < init.len() {
                    assert(init[i] == nodes[i]);
                }
            }
            if node_keys(init).contains(k) {
                let i = choose|i: int| 0 <= i < init.len() && node_key(init[i]) == k;
                assert(nodes[i] == init[i]);
            }
            if k == node_key(r) {
                assert(node_key(nodes[nodes.len() - 1]) == k);
            }
        }
        assert(m2.symbols.dom() =~= m.symbols.dom() + node_keys(nodes));
        assert(m2.cpg.nodes == m1.cpg.nodes || m2.cpg.nodes == m1.cpg.nodes.push(r));
        assert forall|i: int| 0 <= i < m.cpg.nodes.len() implies m2.cpg.nodes[i] == m.cpg.nodes[i] by {
            assert(m1.cpg.nodes.take(m.cpg.nodes.len() as int)[i] == m.cpg.nodes[i]);
            assert(m2.cpg.nodes[i] == m1.cpg.nodes[i]);
        }
        assert(m2.cpg.nodes.take(m.cpg.nodes.len() as int) =~= m.cpg.nodes);
    }
}

/// Merging keeps every node of this builder under its key and index, and
/// gives every key of the other builder a node: the keys afterwards are
/// exactly the keys of both.
pub proof fn lemma_merge_keys(m: BuilderView, o: BuilderView)
    requires
        builder_wf(o),
    ensures
        merge_model(m, o).symbols.dom() == m.symbols.dom() + o.symbols.dom(),
        forall|k: Seq<char>| #[trigger] m.symbols.contains_key(k) ==> merge_model(m, o).symbols[k] == m.symbols[k],
        merge_model(m, o).cpg.nodes.take(m.cpg.nodes.len() as int) == m.cpg.nodes,
{
    lemma_merge_nodes_keys(m, o.cpg.nodes);
    lemma_merge_nodes_len(m, o.cpg.nodes);
    let (m1, map) = merge_nodes(m, o.cpg.nodes);
    let m2 = BuilderView {
        cpg: CpgView { nodes: m1.cpg.nodes, edges: m1.cpg.edges + remap_edges(o.cpg.edges, map) },
        symbols: m1.symbols,
        name_index: m1.name_index,
        entries: m1.entries,
    };
    lemma_merge_entries_cpg(m2, o.entries, map);
    assert forall|k: Seq<char>| #[trigger] node_keys(o.cpg.nodes).contains(k) <==> o.symbols.dom().contains(k) by {
        if o.symbols.dom().contains(k) {
            let i = o.symbols[k] as int;
            assert(node_key(o.cpg.nodes[i]) == k);
        }
        if node_keys(o.cpg.nodes).contains(k) {
            let i = choose|i: int| 0 <= i < o.cpg.nodes.len() && node_key(o.cpg.nodes[i]) == k;
            assert(o.cpg.nodes[i].usr is Some);
        }
    }
    assert(node_keys(o.cpg.nodes) =~= o.symbols.dom());
}

/// Where merging puts each node of the other builder.
pub open spec fn merge_map(m: BuilderView, o: BuilderView) -> Seq<nat> {
    merge_nodes(m, o.cpg.nodes).1
}

proof fn lemma_merge_nodes_map(m: BuilderView, nodes: Seq<NodeView>)
    ensures
        forall|i: int|
            0 <= i < nodes.len() ==> merge_nodes(m, nodes).0.symbols.contains_key(node_key(#[trigger] nodes[i]))
                && merge_nodes(m, nodes).0.symbols[node_key(nodes[i])] == merge_nodes(m, nodes).1[i],
    decreases nodes.len(),
{
    if nodes.len() > 0 {
        let init = nodes.drop_last();
        lemma_merge_nodes_map(m, init);
        lemma_merge_nodes_len(m, init);
        let (m1, map) = merge_nodes(m, init);
        let (m2, k) = key_node(m1, node_key(nodes.last()), nodes.last());
        assert forall|i: int| 0 <= i < nodes.len() implies merge_nodes(m, nodes).0.symbols.contains_key(
            node_key(#[trigger] nodes[i]),
        ) && merge_nodes(m, nodes).0.symbols[node_key(nodes[i])] == merge_nodes(m, nodes).1[i] by {
            if i < init.len() {
                assert(init[i] == nodes[i]);
                assert(map.push(k)[i] == map[i]);
            }
        }
    }
}

/// Merging carries every edge of the other builder over once, between the
/// nodes that take its endpoints' keys, after the edges of this builder:
/// the edge count grows by exactly the other's edge count.
pub proof fn lemma_merge_edges(m: BuilderView, o: BuilderView)
    ensures
        merge_model(m, o).cpg.edges == m.cpg.edges + remap_edges(o.cpg.edges, merge_map(m, o)),
        merge_model(m, o).cpg.edges.len() == m.cpg.edges.len() + o.cpg.edges.len(),
        forall|i: int|
            0 <= i < o.cpg.nodes.len() ==> merge_model(m, o).symbols.contains_key(node_key(#[trigger] o.cpg.nodes[i]))
                && merge_model(m, o).symbols[node_key(o.cpg.nodes[i])] == merge_map(m, o)[i],
{
    lemma_merge_nodes_len(m, o.cpg.nodes);
    lemma_merge_nodes_map(m, o.cpg.nodes);
    let (m1, map) = merge_nodes(m, o.cpg.nodes);
    let m2 = BuilderView {
        cpg: CpgView { nodes: m1.cpg.nodes, edges: m1.cpg.edges + remap_edges(o.cpg.edges, map) },
        symbols: m1.symbols,
        name_index: m1.name_index,
        entries: m1.entries,
    };
    lemma_merge_entries_cpg(m2, o.entries, map);
}

proof fn lemma_ingest_first_upto(m: BuilderView, facts: Seq<RawNodeView>, i: int, n: int)
    requires
        0 <= i < n <= facts.len(),
        !m.symbols.contains_key(raw_key(facts[i])),
        forall|j: int| 0 <= j < i ==> raw_key(#[trigger] facts[j]) != raw_key(facts[i]),
    ensures
        ({
            let p = ingest_all(m, facts.take(i)).0.cpg.nodes.len();
            let b = ingest_all(m, facts.take(n)).0;
            &&& b.symbols.contains_key(raw_key(facts[i]))
            &&& b.symbols[raw_key(facts[i])] == p
            &&& p < b.cpg.nodes.len()
            &&& b.cpg.nodes[p as int] == raw_node(facts[i])
            &&& p >= m.cpg.nodes.len()
        }),
    decreases n - i,
{
    let k = raw_key(facts[i]);
    lemma_ingest_all_prefix(m, facts, n - 1);
    if n == i + 1 {
        lemma_ingest_all_keys(m, facts.take(i));
        let a = ingest_all(m, facts.take(i)).0;
        assert(!fact_keys(facts.take(i)).contains(k)) by {
            if fact_keys(facts.take(i)).contains(k) {
                let j = choose|j: int| 0 <= j < facts.take(i).len() && raw_key(facts.take(i)[j]) == k;
                assert(facts.take(i)[j] == facts[j]);
            }
        }
        assert(!a.symbols.contains_key(k));
    } else {
        lemma_ingest_first_upto(m, facts, i, n - 1);
    }
}

/// Ingesting gives a key that is new to the builder the node of the first
/// fact with that key: that fact's kind, name and lines, with the key as
/// its USR, at an index after the nodes that were there.
pub proof fn lemma_ingest_first_fact(m: BuilderView, facts: Seq<RawNodeView>, i: int)
    requires
        0 <= i < facts.len(),
        !m.symbols.contains_key(raw_key(facts[i])),
        forall|j: int| 0 <= j < i ==> raw_key(#[trigger] facts[j]) != raw_key(facts[i]),
    ensures
        ({
            let v = ingest_model(m, facts);
            let k = raw_key(facts[i]);
            &&& v.symbols.contains_key(k)
            &&& m.cpg.nodes.len() <= v.symbols[k] < v.cpg.nodes.len()
            &&& v.cpg.nodes[v.symbols[k] as int] == raw_node(facts[i])
        }),
{
    lemma_ingest_first_upto(m, facts, i, facts.len() as int);
    assert(facts.take(facts.len() as int) =~= facts);
}

/// Every name of the index has a record.
pub open spec fn names_indexed(b: BuilderView) -> bool {
    forall|x: Seq<char>| #[trigger] b.name_index.contains_key(x) ==> b.name_index[x] < b.entries.len()
}

/// The record of name `x` in `c` holds every definition and call site that
/// it holds in `b`.
pub open spec fn record_grows(b: BuilderView, c: BuilderView, x: Seq<char>) -> bool {
    b.name_index.contains_key(x) ==> {
        &&& c.name_index.contains_key(x)
        &&& forall|y: nat| b.entries[b.name_index[x] as int].defs.contains(y) ==> #[trigger] c.entries[c.name_index[x] as int].defs.contains(y)
        &&& forall|y: nat| b.entries[b.name_index[x] as int].calls.contains(y) ==> #[trigger] c.entries[c.name_index[x] as int].calls.contains(y)
    }
}

/// Fact `r` is recorded in `b` under its name: a function or class as a
/// definition, a call site as a call, each by the node of its key.
pub open spec fn fact_recorded(b: BuilderView, r: RawNodeView) -> bool {
    r.name matches Some(nm) ==> {
        &&& (r.kind == NodeKind::Function || r.kind == NodeKind::Class) ==> b.name_index.contains_key(nm)
            && b.symbols.contains_key(raw_key(r)) && b.entries[b.name_index[nm] as int].defs.contains(b.symbols[raw_key(r)])
        &&& r.kind == NodeKind::CallSite ==> b.name_index.contains_key(nm) && b.symbols.contains_key(raw_key(r))
            && b.entries[b.name_index[nm] as int].calls.contains(b.symbols[raw_key(r)])
    }
}

proof fn lemma_record_name_grows(b: BuilderView, nm: Seq<char>, idx: nat, def: bool)
    requires
        names_indexed(b),
    ensures
        names_indexed(record_name(b, nm, idx, def)),
        record_name(b, nm, idx, def).symbols == b.symbols,
        forall|x: Seq<char>| #[trigger] record_grows(b, record_name(b, nm, idx, def), x),
        record_name(b, nm, idx, def).name_index.contains_key(nm),
        def ==> record_name(b, nm, idx, def).entries[record_name(b, nm, idx, def).name_index[nm] as int].defs.contains(idx),
        !def ==> record_name(b, nm, idx, def).entries[record_name(b, nm, idx, def).name_index[nm] as int].calls.contains(idx),
{
    let c = record_name(b, nm, idx, def);
    if b.name_index.contains_key(nm) {
        let p = b.name_index[nm] as int;
        let e = b.entries[p];
        if def {
            assert(c.entries[p].defs == e.defs.push(idx));
            assert(c.entries[p].defs[e.defs.len() as int] == idx);
        } else {
            assert(c.entries[p].calls == e.calls.push(idx));
            assert(c.entries[p].calls[e.calls.len() as int] == idx);
        }
        assert forall|x: Seq<char>| #[trigger] record_grows(b, c, x) by {
            if b.name_index.contains_key(x) {
                let q = b.name_index[x] as int;
                if q == p {
                    assert forall|y: nat| b.entries[q].defs.contains(y) implies #[trigger] c.entries[q].defs.contains(y) by {
                        let t = choose|t: int| 0 <= t < b.entries[q].defs.len() && b.entries[q].defs[t] == y;
                        assert(c.entries[q].defs[t] == y);
                    }
                    assert forall|y: nat| b.entries[q].calls.contains(y) implies #[trigger] c.entries[q].calls.contains(y) by {
                        let t = choose|t: int| 0 <= t < b.entries[q].calls.len() && b.entries[q].calls[t] == y;
                        assert(c.entries[q].calls[t] == y);
                    }
                } else {
                    assert(c.entries[q] == b.entries[q]);
                }
            }
        }
    } else {
        let p = b.entries.len() as int;
        if def {
            assert(c.entries[p].defs[0] == idx);
        } else {
            assert(c.entries[p].calls[0] == idx);
        }
        assert forall|x: Seq<char>| #[trigger] record_grows(b, c, x) by {
            if b.name_index.contains_key(x) {
                let q = b.name_index[x] as int;
                assert(c.name_index[x] == b.name_index[x]);
                assert(c.entries[q] == b.entries[q]);
            }
        }
    }
}

proof fn lemma_ingest_one_records(b: BuilderView, r: RawNodeView)
    requires
        names_indexed(b),
    ensures
        names_indexed(ingest_one(b, r).0),
        fact_recorded(ingest_one(b, r).0, r),
        forall|x: Seq<char>| #[trigger] record_grows(b, ingest_one(b, r).0, x),
        forall|k: Seq<char>| #[trigger] b.symbols.contains_key(k) ==> ingest_one(b, r).0.symbols.contains_key(k)
            && ingest_one(b, r).0.symbols[k] == b.symbols[k],
{
    let (m1, idx) = key_node(b, raw_key(r), raw_node(r));
    assert(m1.name_index == b.name_index && m1.entries == b.entries);
    assert(m1.symbols.contains_key(raw_key(r)) && m1.symbols[raw_key(r)] == idx);
    assert forall|x: Seq<char>| #[trigger] record_grows(b, m1, x) by {
        if b.name_index.contains_key(x) {
            let q = b.name_index[x] as int;
            assert forall|y: nat| b.entries[q].defs.contains(y) implies #[trigger] m1.entries[q].defs.contains(y) by {}
            assert forall|y: nat| b.entries[q].calls.contains(y) implies #[trigger] m1.entries[q].calls.contains(y) by {}
        }
    }
    match r.name {
        Some(n) => {
            if is_definition_kind(r.kind) {
                lemma_record_name_grows(m1, n, idx, true);
            } else if r.kind == NodeKind::CallSite {
                lemma_record_name_grows(m1, n, idx, false);
            }
            let c = ingest_one(b, r).0;
            assert forall|x: Seq<char>| #[trigger] record_grows(b, c, x) by {
                assert(record_grows(b, m1, x));
                if is_definition_kind(r.kind) || r.kind == NodeKind::CallSite {
                    assert(record_grows(m1, c, x));
                    if b.name_index.contains_key(x) {
                        let q = b.name_index[x] as int;
                        let q2 = c.name_index[x] as int;
                        assert forall|y: nat| b.entries[q].defs.contains(y) implies #[trigger] c.entries[q2].defs.contains(y) by {
                            assert(m1.entries[q].defs.contains(y));
                        }
                        assert forall|y: nat| b.entries[q].calls.contains(y) implies #[trigger] c.entries[q2].calls.contains(y) by {
                            assert(m1.entries[q].calls.contains(y));
                        }
                    }
                }
            }
        },
        None => {},
    }
}

proof fn lemma_recorded_keep(b: BuilderView, c: BuilderView, r: RawNodeView)
    requires
        fact_recorded(b, r),
        forall|x: Seq<char>| #[trigger] record_grows(b, c, x),
        forall|k: Seq<char>| #[trigger] b.symbols.contains_key(k) ==> c.symbols.contains_key(k) && c.symbols[k] == b.symbols[k],
    ensures
        fact_recorded(c, r),
{
    match r.name {
        Some(nm) => {
            assert(record_grows(b, c, nm));
            if b.symbols.contains_key(raw_key(r)) {
                assert(c.symbols[raw_key(r)] == b.symbols[raw_key(r)]);
            }
            if (r.kind == NodeKind::Function || r.kind == NodeKind::Class) {
                let y = b.symbols[raw_key(r)];
                assert(c.entries[c.name_index[nm] as int].defs.contains(y));
            }
            if r.kind == NodeKind::CallSite {
                let y = b.symbols[raw_key(r)];
                assert(c.entries[c.name_index[nm] as int].calls.contains(y));
            }
        },
        None => {},
    }
}

proof fn lemma_ingest_all_records(m: BuilderView, facts: Seq<RawNodeView>, n: int)
    requires
        names_indexed(m),
        0 <= n <= facts.len(),
    ensures
        names_indexed(ingest_all(m, facts.take(n)).0),
        forall|i: int| 0 <= i < n ==> fact_recorded(ingest_all(m, facts.take(n)).0, #[trigger] facts[i]),
    decreases n,
{
    if n > 0 {
        lemma_ingest_all_records(m, facts, n - 1);
        lemma_ingest_all_prefix(m, facts, n - 1);
        let b = ingest_all(m, facts.take(n - 1)).0;
        lemma_ingest_one_records(b, facts[n - 1]);
        let c = ingest_all(m, facts.take(n)).0;
        assert(c == ingest_one(b, facts[n - 1]).0);
        assert forall|i: int| 0 <= i < n implies fact_recorded(c, #[trigger] facts[i]) by {
            if i < n - 1 {
                lemma_recorded_keep(b, c, facts[i]);
            }
        }
    } else {
        assert(facts.take(0) =~= Seq::<RawNodeView>::empty());
    }
}

/// Ingesting records every named fact under its name by the node of its
/// key: a function or a class as a definition, a call site as a call.
pub proof fn lemma_ingest_records(m: BuilderView, facts: Seq<RawNodeView>)
    requires
        names_indexed(m),
    ensures
        forall|i: int| 0 <= i < facts.len() ==> fact_recorded(ingest_model(m, facts), #[trigger] facts[i]),
{
    lemma_ingest_all_records(m, facts, facts.len() as int);
    assert(facts.take(facts.len() as int) =~= facts);
}

/// After ingesting, resolving calls joins each call-site fact to each
/// function or class fact of the same name: the call edge between their
/// nodes is among the resolved edges.
pub proof fn lemma_ingest_then_resolve(m: BuilderView, facts: Seq<RawNodeView>, c: int, d: int)
    requires
        names_indexed(m),
        0 <= c < facts.len(),
        0 <= d < facts.len(),
        facts[c].kind == NodeKind::CallSite,
        facts[d].kind == NodeKind::Function || facts[d].kind == NodeKind::Class,
        facts[c].name is Some,
        facts[c].name == facts[d].name,
    ensures
        ({
            let v = ingest_model(m, facts);
            resolve_edges(v.entries).contains((v.symbols[raw_key(facts[c])], v.symbols[raw_key(facts[d])], Edge::Call))
        }),
{
    let v = ingest_model(m, facts);
    lemma_ingest_records(m, facts);
    assert(fact_recorded(v, facts[c]));
    assert(fact_recorded(v, facts[d]));
    let nm = facts[c].name->0;
    lemma_ingest_all_len(m, facts);
    let j = v.name_index[nm] as int;
    lemma_ingest_all_records(m, facts, facts.len() as int);
    assert(facts.take(facts.len() as int) =~= facts);
    assert(names_indexed(v));
    assert(0 <= j < v.entries.len());
    let e = (v.symbols[raw_key(facts[c])], v.symbols[raw_key(facts[d])], Edge::Call);
    lemma_resolve_edges_exact(v.entries, e);
    assert(v.entries[j].calls.contains(e.0) && v.entries[j].defs.contains(e.1));
}

/// A copy of an optional string.
fn copy_opt(o: &Option<String>) -> (r: Option<String>)
    ensures
        r == *o,
        r.deep_view() == o.deep_view(),
{
    match o {
        Some(s) => Some(s.clone()),
        None => None,
    }
}

proof fn lemma_ingest_all_prefix(m: BuilderView, facts: Seq<RawNodeView>, i: int)
    requires
        0 <= i < facts.len(),
    ensures
        ingest_all(m, facts.take(i + 1)) == ({
            let (m1, idxs) = ingest_all(m, facts.take(i));
            let (m2, k) = ingest_one(m1, facts[i]);
            (m2, idxs.push(k))
        }),
{
    assert(facts.take(i + 1).drop_last() =~= facts.take(i));
}

proof fn lemma_ingest_all_len(m: BuilderView, facts: Seq<RawNodeView>)
    ensures
        ingest_all(m, facts).1.len() == facts.len(),
        ingest_all(m, facts).0.cpg.nodes.len() >= m.cpg.nodes.len(),
        ingest_all(m, facts).0.cpg.edges == m.cpg.edges,
    decreases facts.len(),
{
    if facts.len() > 0 {
        lemma_ingest_all_len(m, facts.drop_last());
    }
}

proof fn lemma_ingest_all_monotone(m: BuilderView, facts: Seq<RawNodeView>, i: int, j: int)
    requires
        0 <= i <= j <= facts.len(),
    ensures
        ingest_all(m, facts.take(i)).0.cpg.nodes.len() <= ingest_all(m, facts.take(j)).0.cpg.nodes.len(),
    decreases j - i,
{
    if i < j {
        lemma_ingest_all_prefix(m, facts, j - 1);
        lemma_ingest_all_monotone(m, facts, i, j - 1);
    }
}

proof fn lemma_children_edges_prefix(children: Seq<usize>, from: nat, idxs: Seq<nat>, j: int)
    requires
        0 <= j <= children.len(),
    ensures
        children_edges(children.take(j), from, idxs).len() <= children_edges(children, from, idxs).len(),
    decreases children.len() - j,
{
    if j < children.len() {
        assert(children.take(j + 1).drop_last() =~= children.take(j));
        lemma_children_edges_prefix(children, from, idxs, j + 1);
    } else {
        assert(children.take(j) =~= children);
    }
}

proof fn lemma_ast_edges_monotone(facts: Seq<RawNodeView>, idxs: Seq<nat>, i: nat, n: nat)
    requires
        i <= n,
    ensures
        ast_edges(facts, idxs, i).len() <= ast_edges(facts, idxs, n).len(),
    decreases n - i,
{
    if i < n {
        lemma_ast_edges_monotone(facts, idxs, i, (n - 1) as nat);
    }
}

impl GraphBuilder {
    /// The builder's invariant (see [`builder_wf`]).
    pub closed spec fn wf(&self) -> bool {
        &&& builder_wf(self@)
        &&& forall|j: int| 0 <= j < self.entries@.len() ==> (#[trigger] self.entries@[j]).name@ == self@.entries[j].name
    }

    /// An empty builder.
    pub fn new() -> (b: Self)
        ensures
            b.wf(),
            b@.cpg.nodes == Seq::<NodeView>::empty(),
            b@.cpg.edges == Seq::<(nat, nat, Edge)>::empty(),
            b@.symbols == Map::<Seq<char>, nat>::empty(),
            b@.name_index == Map::<Seq<char>, nat>::empty(),
            b@.entries == Seq::<NameEntryView>::empty(),
    {
        let cpg = CodePropertyGraph::new();
        let _ = cpg.node_count();
        let b = GraphBuilder {
            cpg,
            symbol_index: StringHashMap::new(),
            name_index: StringHashMap::new(),
            entries: Vec::new(),
        };
        proof {
            assert(b@.symbols =~= Map::<Seq<char>, nat>::empty());
            assert(b@.name_index =~= Map::<Seq<char>, nat>::empty());
            assert(b@.entries =~= Seq::<NameEntryView>::empty());
        }
        b
    }

    /// The graph built so far.
    pub fn cpg(&self) -> (r: &CodePropertyGraph)
        ensures
            r@ == self@.cpg,
    {
        &self.cpg
    }

    /// The graph built so far, taken out of the builder.
    pub fn into_cpg(self) -> (r: CodePropertyGraph)
        ensures
            r@ == self@.cpg,
    {
        self.cpg
    }

    /// Record node `idx` under `name` as a definition (`def`) or a call site.
    fn record(&mut self, name: &String, idx: usize, def: bool)
        requires
            old(self).wf(),
            idx < old(self)@.cpg.nodes.len(),
        ensures
            final(self).wf(),
            final(self)@ == record_name(old(self)@, name@, idx as nat, def),
    {
        let ghost m = self@;
        match self.name_index.get(name.as_str()) {
            Some(p) => {
                let p: usize = *p;
                assert(m.name_index.contains_key(name@));
                assert(m.name_index[name@] == p as nat);
                assert(p < self.entries@.len());
                if def {
                    self.entries[p].defs.push(idx);
                } else {
                    self.entries[p].calls.push(idx);
                }
                proof {
                    let e = m.entries[p as int];
                    let e2 = if def {
                        NameEntryView { name: e.name, defs: e.defs.push(idx as nat), calls: e.calls }
                    } else {
                        NameEntryView { name: e.name, defs: e.defs, calls: e.calls.push(idx as nat) }
                    };
                    assert(self.entries@[p as int].view().defs =~= e2.defs);
                    assert(self.entries@[p as int].view().calls =~= e2.calls);
                    assert(self@.entries =~= m.entries.update(p as int, e2));
                }
            },
            None => {
                let mut defs: Vec<usize> = Vec::new();
                let mut calls: Vec<usize> = Vec::new();
                if def {
                    defs.push(idx);
                } else {
                    calls.push(idx);
                }
                let pos = self.entries.len();
                self.entries.push(NameEntry { name: name.clone(), defs, calls });
                self.name_index.insert(name.clone(), pos);
                proof {
                    let e = if def {
                        NameEntryView { name: name@, defs: seq![idx as nat], calls: seq![] }
                    } else {
                        NameEntryView { name: name@, defs: seq![], calls: seq![idx as nat] }
                    };
                    assert(self.entries@[pos as int].view().defs =~= e.defs);
                    assert(self.entries@[pos as int].view().calls =~= e.calls);
                    assert(self@.entries =~= m.entries.push(e));
                    assert(self@.name_index =~= m.name_index.insert(name@, m.entries.len()));
                }
            },
        }
        proof {
            let v = self@;
            assert forall|j: int, t: int|
                0 <= j < v.entries.len() && 0 <= t < v.entries[j].defs.len() implies #[trigger] v.entries[j].defs[t]
                < v.cpg.nodes.len() by {
                if j < m.entries.len() && t < m.entries[j].defs.len() {
                    assert(v.entries[j].defs[t] == m.entries[j].defs[t]);
                }
            }
            assert forall|j: int, t: int|
                0 <= j < v.entries.len() && 0 <= t < v.entries[j].calls.len() implies #[trigger] v.entries[j].calls[t]
                < v.cpg.nodes.len() by {
                if j < m.entries.len() && t < m.entries[j].calls.len() {
                    assert(v.entries[j].calls[t] == m.entries[j].calls[t]);
                }
            }
        }
    }

    /// Find the node of `key`, or add `node` under it.
    fn find_or_add(&mut self, key: String, node: Node) -> (idx: usize)
        requires
            old(self).wf(),
            node@.usr == Some(key@),
            key_node(old(self)@, key@, node@).0.cpg.nodes.len() <= u32::MAX,
        ensures
            final(self).wf(),
            (final(self)@, idx as nat) == key_node(old(self)@, key@, node@),
            idx < final(self)@.cpg.nodes.len(),
    {
        let ghost m = self@;
        match self.symbol_index.get(key.as_str()) {
            Some(i) => {
                assert(m.symbols.contains_key(key@));
                assert(m.symbols[key@] == *i as nat);
                *i
            },
            None => {
                let _ = self.cpg.node_count();
                let i = self.cpg.add_node(node);
                self.symbol_index.insert(key, i);
                proof {
                    let v = self@;
                    assert(v.symbols =~= m.symbols.insert(key@, m.cpg.nodes.len()));
                    assert forall|k: Seq<char>| #[trigger] v.symbols.contains_key(k) implies v.symbols[k]
                        < v.cpg.nodes.len() && v.cpg.nodes[v.symbols[k] as int].usr == Some(k) by {
                        if k != key@ {
                            assert(m.symbols.contains_key(k));
                        }
                    }
                    assert forall|ii: int| 0 <= ii < v.cpg.nodes.len() implies (#[trigger] v.cpg.nodes[ii]).usr is Some
                        && v.symbols.contains_key(v.cpg.nodes[ii].usr->0) && v.symbols[v.cpg.nodes[ii].usr->0]
                        == ii by {
                        if ii < m.cpg.nodes.len() {
                            assert(v.cpg.nodes[ii] == m.cpg.nodes[ii]);
                            assert(m.symbols.contains_key(m.cpg.nodes[ii].usr->0));
                        }
                    }
                    assert forall|j: int, t: int|
                        0 <= j < v.entries.len() && 0 <= t < v.entries[j].defs.len() implies #[trigger] v.entries[j].defs[t]
                        < v.cpg.nodes.len() by {
                        assert(v.entries[j].defs[t] == m.entries[j].defs[t]);
                    }
                    assert forall|j: int, t: int|
                        0 <= j < v.entries.len() && 0 <= t < v.entries[j].calls.len() implies #[trigger] v.entries[j].calls[t]
                        < v.cpg.nodes.len() by {
                        assert(v.entries[j].calls[t] == m.entries[j].calls[t]);
                    }
                }
                i
            },
        }
    }

    /// Ingest one fact (see [`ingest_one`]).
    fn ingest_fact(&mut self, raw: &RawNode) -> (idx: usize)
        requires
            old(self).wf(),
            ingest_one(old(self)@, raw@).0.cpg.nodes.len() <= u32::MAX,
        ensures
            final(self).wf(),
            (final(self)@, idx as nat) == ingest_one(old(self)@, raw@),
            idx < final(self)@.cpg.nodes.len(),
            final(self)@.cpg.nodes.len() >= old(self)@.cpg.nodes.len(),
    {
        let key: String = match &raw.usr {
            Some(u) => u.clone(),
            None => match &raw.name {
                Some(n) => n.clone(),
                None => String::new(),
            },
        };
        assert(key@ == raw_key(raw@));
        let node = Node {
            kind: raw.kind,
            name: copy_opt(&raw.name),
            usr: Some(key.clone()),
            start_line: raw.start_line,
            end_line: raw.end_line,
        };
        assert(node@ == raw_node(raw@));
        let ghost m1 = key_node(self@, key@, node@).0;
        proof {
            if raw.name is Some && (is_definition_kind(raw.kind) || raw.kind == NodeKind::CallSite) {
                assert(m1.cpg.nodes == record_name(m1, raw@.name->0, key_node(self@, key@, node@).1, true).cpg.nodes);
                assert(m1.cpg.nodes == record_name(m1, raw@.name->0, key_node(self@, key@, node@).1, false).cpg.nodes);
            }
        }
        let idx = self.find_or_add(key, node);
        match &raw.name {
            Some(n) => {
                if is_definition(raw.kind) {
                    self.record(n, idx, true);
                } else if raw.kind == NodeKind::CallSite {
                    self.record(n, idx, false);
                }
            },
            None => {},
        }
        idx
    }

    /// Ingest the facts of one file: first each fact's node (new, or the
    /// existing node of its key) and name record, then the AST-child edges
    /// from each fact to those of its children that are facts of the list.
    /// See [`ingest_model`].
    ///
    /// May be called many times; each call enriches the same graph.
    /// (petgraph refuses indices at the `u32` end marker, hence the bounds.)
    pub fn ingest_file_facts(&mut self, facts: &[RawNode])
        requires
            old(self).wf(),
            ingest_model(old(self)@, facts_view(facts@)).cpg.nodes.len() <= u32::MAX,
            ingest_model(old(self)@, facts_view(facts@)).cpg.edges.len() <= u32::MAX,
        ensures
            final(self).wf(),
            final(self)@ == ingest_model(old(self)@, facts_view(facts@)),
    {
        let ghost fv = facts_view(facts@);
        let ghost m0 = self@;
        let n = facts.len();
        let mut map: Vec<usize> = Vec::new();
        let mut i: usize = 0;
        proof {
            assert(fv.take(0) =~= Seq::<RawNodeView>::empty());
            assert(map@.map_values(|x: usize| x as nat) =~= Seq::<nat>::empty());
        }
        while i < n
            invariant
                i <= n,
                n == facts@.len(),
                fv == facts_view(facts@),
                self.wf(),
                ingest_all(m0, fv.take(i as int)) == (self@, map@.map_values(|x: usize| x as nat)),
                ingest_model(m0, fv).cpg.nodes.len() <= u32::MAX,
                forall|k: int| 0 <= k < map@.len() ==> #[trigger] map@[k] < self@.cpg.nodes.len(),
            decreases n - i,
        {
            proof {
                lemma_ingest_all_prefix(m0, fv, i as int);
                lemma_ingest_all_monotone(m0, fv, i as int + 1, n as int);
                assert(fv.take(n as int) =~= fv);
                assert(fv[i as int] == facts[i as int]@);
            }
            let idx = self.ingest_fact(&facts[i]);
            map.push(idx);
            i = i + 1;
            proof {
                assert(map@.map_values(|x: usize| x as nat) =~= ingest_all(m0, fv.take(i as int)).1);
            }
        }
        let ghost m1 = self@;
        let ghost idxs = map@.map_values(|x: usize| x as nat);
        proof {
            assert forall|k: int| 0 <= k < idxs.len() implies #[trigger] idxs[k] < m1.cpg.nodes.len() by {
                assert(idxs[k] == map@[k] as nat);
            }
            assert(fv.take(n as int) =~= fv);
            lemma_ingest_all_len(m0, fv);
            assert(self@.cpg.edges + ast_edges(fv, idxs, 0) =~= self@.cpg.edges);
        }
        let mut i: usize = 0;
        while i < n
            invariant
                i <= n,
                n == facts@.len(),
                fv == facts_view(facts@),
                idxs == map@.map_values(|x: usize| x as nat),
                idxs.len() == n,
                (m1, idxs) == ingest_all(m0, fv),
                self.wf(),
                self@.cpg.nodes == m1.cpg.nodes,
                self@.symbols == m1.symbols,
                self@.name_index == m1.name_index,
                self@.entries == m1.entries,
                self@.cpg.edges == m1.cpg.edges + ast_edges(fv, idxs, i as nat),
                ingest_model(m0, fv).cpg.edges.len() <= u32::MAX,
                forall|k: int| 0 <= k < idxs.len() ==> #[trigger] idxs[k] < m1.cpg.nodes.len(),
            decreases n - i,
        {
            let from = map[i];
            let children = &facts[i].children;
            let ghost ch = children@;
            assert(fv[i as int].children == ch);
            let mut j: usize = 0;
            proof {
                assert(ch.take(0) =~= Seq::<usize>::empty());
                assert(self@.cpg.edges =~= m1.cpg.edges + ast_edges(fv, idxs, i as nat) + children_edges(
                    ch.take(0),
                    from as nat,
                    idxs,
                ));
            }
            while j < children.len()
                invariant
                    j <= children@.len(),
                    ch == children@,
                    i < n,
                    n == facts@.len(),
                    from as nat == idxs[i as int],
                    idxs == map@.map_values(|x: usize| x as nat),
                    idxs.len() == n,
                    fv == facts_view(facts@),
                    fv[i as int].children == ch,
                    (m1, idxs) == ingest_all(m0, fv),
                    self.wf(),
                    self@.cpg.nodes == m1.cpg.nodes,
                    self@.symbols == m1.symbols,
                    self@.name_index == m1.name_index,
                    self@.entries == m1.entries,
                    self@.cpg.edges == m1.cpg.edges + ast_edges(fv, idxs, i as nat) + children_edges(
                        ch.take(j as int),
                        from as nat,
                        idxs,
                    ),
                    ingest_model(m0, fv).cpg.edges.len() <= u32::MAX,
                    forall|k: int| 0 <= k < idxs.len() ==> #[trigger] idxs[k] < m1.cpg.nodes.len(),
                decreases children@.len() - j,
            {
                let c = children[j];
                proof {
                    assert(ch.take(j as int + 1).drop_last() =~= ch.take(j as int));
                    lemma_children_edges_prefix(ch, from as nat, idxs, j as int + 1);
                    lemma_ast_edges_monotone(fv, idxs, i as nat + 1, n as nat);
                    assert(ast_edges(fv, idxs, i as nat + 1) == ast_edges(fv, idxs, i as nat) + children_edges(
                        ch,
                        from as nat,
                        idxs,
                    ));
                }
                if c < map.len() {
                    let to = map[c];
                    let _ = self.cpg.node_count();
                    self.cpg.add_edge(from, to, Edge::AstChild);
                    proof {
                        assert(self@.cpg.edges =~= m1.cpg.edges + ast_edges(fv, idxs, i as nat) + children_edges(
                            ch.take(j as int + 1),
                            from as nat,
                            idxs,
                        ));
                    }
                } else {
                    proof {
                        assert(self@.cpg.edges =~= m1.cpg.edges + ast_edges(fv, idxs, i as nat) + children_edges(
                            ch.take(j as int + 1),
                            from as nat,
                            idxs,
                        ));
                    }
                }
                j = j + 1;
            }
            proof {
                assert(ch.take(j as int) =~= ch);
                assert(self@.cpg.edges =~= m1.cpg.edges + ast_edges(fv, idxs, i as nat + 1));
            }
            i = i + 1;
        }
        proof {
            assert(self@.cpg == ingest_model(m0, fv).cpg);
        }
    }
    /// Resolve calls: for every call site with a definition (function or
    /// class) of the same name, add a call edge from the call site to the
    /// definition (see [`resolve_edges`] and [`lemma_resolve_edges_exact`]).
    /// (petgraph refuses an edge index at the `u32` end marker, hence the
    /// bound.)
    pub fn resolve_calls(&mut self)
        requires
            old(self).wf(),
            old(self)@.cpg.edges.len() + resolve_edges(old(self)@.entries).len() <= u32::MAX,
        ensures
            final(self).wf(),
            final(self)@.cpg.edges == old(self)@.cpg.edges + resolve_edges(old(self)@.entries),
            final(self)@.cpg.nodes == old(self)@.cpg.nodes,
            final(self)@.symbols == old(self)@.symbols,
            final(self)@.name_index == old(self)@.name_index,
            final(self)@.entries == old(self)@.entries,
    {
        let ghost m = self@;
        let ghost es = m.entries;
        let ne = self.entries.len();
        let mut j: usize = 0;
        proof {
            assert(es.take(0) =~= Seq::<NameEntryView>::empty());
            assert(m.cpg.edges + resolve_edges(es.take(0)) =~= m.cpg.edges);
        }
        while j < ne
            invariant
                j <= ne,
                ne == self.entries@.len(),
                es == m.entries,
                self.wf(),
                self@.cpg.nodes == m.cpg.nodes,
                self@.symbols == m.symbols,
                self@.name_index == m.name_index,
                self@.entries == m.entries,
                self@.cpg.edges == m.cpg.edges + resolve_edges(es.take(j as int)),
                m.cpg.edges.len() + resolve_edges(es).len() <= u32::MAX,
            decreases ne - j,
        {
            let ghost calls = es[j as int].calls;
            let ghost defs = es[j as int].defs;
            let nc = self.entries[j].calls.len();
            let mut s: usize = 0;
            proof {
                assert(es.take(j as int + 1).drop_last() =~= es.take(j as int));
                lemma_resolve_edges_prefix(es, j as int + 1);
                assert(calls.take(0) =~= Seq::<nat>::empty());
                assert(self@.cpg.edges =~= m.cpg.edges + resolve_edges(es.take(j as int)) + call_edges(calls.take(0), defs));
            }
            while s < nc
                invariant
                    s <= nc,
                    j < ne,
                    ne == self.entries@.len(),
                    nc == calls.len(),
                    es == m.entries,
                    calls == es[j as int].calls,
                    defs == es[j as int].defs,
                    self.wf(),
                    self@.cpg.nodes == m.cpg.nodes,
                    self@.symbols == m.symbols,
                    self@.name_index == m.name_index,
                    self@.entries == m.entries,
                    self@.cpg.edges == m.cpg.edges + resolve_edges(es.take(j as int)) + call_edges(calls.take(s as int), defs),
                    m.cpg.edges.len() + resolve_edges(es.take(j as int + 1)).len() <= u32::MAX,
                    resolve_edges(es.take(j as int + 1)) == resolve_edges(es.take(j as int)) + call_edges(calls, defs),
                decreases nc - s,
            {
                assert(self.entries@[j as int].view() == es[j as int]);
                let c = self.entries[j].calls[s];
                assert(c as nat == calls[s as int]);
                let nd = self.entries[j].defs.len();
                let mut t: usize = 0;
                proof {
                    assert(calls.take(s as int + 1).drop_last() =~= calls.take(s as int));
                    lemma_call_edges_prefix(calls, defs, s as int + 1);
                    assert(defs.take(0) =~= Seq::<nat>::empty());
                    assert(self@.cpg.edges =~= m.cpg.edges + resolve_edges(es.take(j as int)) + call_edges(
                        calls.take(s as int),
                        defs,
                    ) + def_edges(c as nat, defs.take(0)));
                }
                while t < nd
                    invariant
                        t <= nd,
                        s < nc,
                        j < ne,
                        ne == self.entries@.len(),
                        nc == calls.len(),
                        nd == defs.len(),
                        c as nat == calls[s as int],
                        es == m.entries,
                        calls == es[j as int].calls,
                        defs == es[j as int].defs,
                        self.wf(),
                        self@.cpg.nodes == m.cpg.nodes,
                        self@.symbols == m.symbols,
                        self@.name_index == m.name_index,
                        self@.entries == m.entries,
                        self@.cpg.edges == m.cpg.edges + resolve_edges(es.take(j as int)) + call_edges(
                            calls.take(s as int),
                            defs,
                        ) + def_edges(c as nat, defs.take(t as int)),
                        m.cpg.edges.len() + resolve_edges(es.take(j as int)).len() + call_edges(
                            calls.take(s as int + 1),
                            defs,
                        ).len() <= u32::MAX,
                        call_edges(calls.take(s as int + 1), defs) == call_edges(calls.take(s as int), defs)
                            + def_edges(c as nat, defs),
                    decreases nd - t,
                {
                    assert(self.entries@[j as int].view() == es[j as int]);
                    let d = self.entries[j].defs[t];
                    assert(d as nat == defs[t as int]);
                    proof {
                        assert(defs.take(t as int + 1).drop_last() =~= defs.take(t as int));
                        lemma_def_edges_prefix(c as nat, defs, t as int + 1);
                        assert(c < self@.cpg.nodes.len());
                        assert(d < self@.cpg.nodes.len());
                    }
                    let _ = self.cpg.node_count();
                    self.cpg.add_edge(c, d, Edge::Call);
                    t = t + 1;
                    proof {
                        assert(self@.cpg.edges =~= m.cpg.edges + resolve_edges(es.take(j as int)) + call_edges(
                            calls.take(s as int),
                            defs,
                        ) + def_edges(c as nat, defs.take(t as int)));
                    }
                }
                s = s + 1;
                proof {
                    assert(defs.take(t as int) =~= defs);
                    assert(self@.cpg.edges =~= m.cpg.edges + resolve_edges(es.take(j as int)) + call_edges(
                        calls.take(s as int),
                        defs,
                    ));
                }
            }
            j = j + 1;
            proof {
                assert(calls.take(s as int) =~= calls);
                assert(self@.cpg.edges =~= m.cpg.edges + resolve_edges(es.take(j as int)));
            }
        }
        proof {
            assert(es.take(j as int) =~= es);
        }
    }
    /// Append definitions and call sites to the record of `name` (creating
    /// it).
    fn append_names(&mut self, name: &String, defs: Vec<usize>, calls: Vec<usize>)
        requires
            old(self).wf(),
            forall|t: int| 0 <= t < defs@.len() ==> #[trigger] defs@[t] < old(self)@.cpg.nodes.len(),
            forall|t: int| 0 <= t < calls@.len() ==> #[trigger] calls@[t] < old(self)@.cpg.nodes.len(),
        ensures
            final(self).wf(),
            final(self)@ == append_records(
                old(self)@,
                name@,
                defs@.map_values(|x: usize| x as nat),
                calls@.map_values(|x: usize| x as nat),
            ),
    {
        let ghost m = self@;
        let ghost dn = defs@.map_values(|x: usize| x as nat);
        let ghost cn = calls@.map_values(|x: usize| x as nat);
        match self.name_index.get(name.as_str()) {
            Some(p) => {
                let p: usize = *p;
                assert(m.name_index.contains_key(name@));
                assert(m.name_index[name@] == p as nat);
                assert(p < self.entries@.len());
                let ghost e = m.entries[p as int];
                proof {
                    assert forall|j: int| 0 <= j < m.entries.len() implies (#[trigger] self.entries@[j]).view()
                        == m.entries[j] by {
                        assert(self@.entries[j] == self.entries@[j].view());
                    }
                    assert(dn.take(0) =~= Seq::<nat>::empty());
                    assert(e.defs + dn.take(0) =~= e.defs);
                }
                let mut t: usize = 0;
                while t < defs.len()
                    invariant
                        t <= defs@.len(),
                        p < self.entries@.len(),
                        self.entries@.len() == m.entries.len(),
                        self@.cpg == m.cpg,
                        self@.symbols == m.symbols,
                        self@.name_index == m.name_index,
                        forall|j: int| 0 <= j < m.entries.len() && j != p ==> (#[trigger] self.entries@[j]).view() == m.entries[j],
                        forall|j: int| 0 <= j < self.entries@.len() ==> (#[trigger] self.entries@[j]).name@ == m.entries[j].name,
                        self.entries@[p as int].view().name == e.name,
                        self.entries@[p as int].view().defs == e.defs + dn.take(t as int),
                        self.entries@[p as int].view().calls == e.calls,
                        dn == defs@.map_values(|x: usize| x as nat),
                        e == m.entries[p as int],
                    decreases defs@.len() - t,
                {
                    let ghost before = self.entries@;
                    let x = defs[t];
                    self.entries[p].defs.push(x);
                    t = t + 1;
                    proof {
                        assert(self.entries@[p as int].defs@ == before[p as int].defs@.push(x));
                        assert(dn[t - 1] == x as nat);
                        assert(dn.take(t as int) =~= dn.take(t - 1).push(dn[t - 1]));
                        assert(self.entries@[p as int].view().defs =~= before[p as int].view().defs.push(x as nat));
                        assert(self.entries@[p as int].view().defs =~= e.defs + dn.take(t as int));
                        assert forall|j: int| 0 <= j < m.entries.len() && j != p implies (#[trigger] self.entries@[j]).view()
                            == m.entries[j] by {
                            assert(self.entries@[j] == before[j]);
                        }
                        assert forall|j: int| 0 <= j < self.entries@.len() implies (#[trigger] self.entries@[j]).name@
                            == m.entries[j].name by {
                            assert(self.entries@[j].name == before[j].name);
                        }
                    }
                }
                proof {
                    assert(dn.take(defs@.len() as int) =~= dn);
                    assert(cn.take(0) =~= Seq::<nat>::empty());
                    assert(e.calls + cn.take(0) =~= e.calls);
                }
                let mut t: usize = 0;
                while t < calls.len()
                    invariant
                        t <= calls@.len(),
                        p < self.entries@.len(),
                        self.entries@.len() == m.entries.len(),
                        self@.cpg == m.cpg,
                        self@.symbols == m.symbols,
                        self@.name_index == m.name_index,
                        forall|j: int| 0 <= j < m.entries.len() && j != p ==> (#[trigger] self.entries@[j]).view() == m.entries[j],
                        forall|j: int| 0 <= j < self.entries@.len() ==> (#[trigger] self.entries@[j]).name@ == m.entries[j].name,
                        self.entries@[p as int].view().name == e.name,
                        self.entries@[p as int].view().defs == e.defs + dn,
                        self.entries@[p as int].view().calls == e.calls + cn.take(t as int),
                        cn == calls@.map_values(|x: usize| x as nat),
                        e == m.entries[p as int],
                    decreases calls@.len() - t,
                {
                    let ghost before = self.entries@;
                    let x = calls[t];
                    self.entries[p].calls.push(x);
                    t = t + 1;
                    proof {
                        assert(self.entries@[p as int].calls@ == before[p as int].calls@.push(x));
                        assert(cn[t - 1] == x as nat);
                        assert(cn.take(t as int) =~= cn.take(t - 1).push(cn[t - 1]));
                        assert(self.entries@[p as int].view().calls =~= before[p as int].view().calls.push(x as nat));
                        assert(self.entries@[p as int].view().calls =~= e.calls + cn.take(t as int));
                        assert forall|j: int| 0 <= j < m.entries.len() && j != p implies (#[trigger] self.entries@[j]).view()
                            == m.entries[j] by {
                            assert(self.entries@[j] == before[j]);
                        }
                        assert forall|j: int| 0 <= j < self.entries@.len() implies (#[trigger] self.entries@[j]).name@
                            == m.entries[j].name by {
                            assert(self.entries@[j].name == before[j].name);
                        }
                    }
                }
                proof {
                    assert(dn.take(defs@.len() as int) =~= dn);
                    assert(cn.take(calls@.len() as int) =~= cn);
                    assert forall|j: int| 0 <= j < m.entries.len() implies #[trigger] self@.entries[j] == (if j == p {
                        NameEntryView { name: e.name, defs: e.defs + dn, calls: e.calls + cn }
                    } else {
                        m.entries[j]
                    }) by {
                        assert(self@.entries[j] == self.entries@[j].view());
                    }
                    assert(self@.entries =~= m.entries.update(
                        p as int,
                        NameEntryView { name: e.name, defs: e.defs + dn, calls: e.calls + cn },
                    ));
                }
            },
            None => {
                let pos = self.entries.len();
                self.entries.push(NameEntry { name: name.clone(), defs, calls });
                self.name_index.insert(name.clone(), pos);
                proof {
                    assert(self@.entries =~= m.entries.push(NameEntryView { name: name@, defs: dn, calls: cn }));
                    assert(self@.name_index =~= m.name_index.insert(name@, m.entries.len()));
                }
            },
        }
        proof {
            let v = self@;
            assert forall|j: int, t: int|
                0 <= j < v.entries.len() && 0 <= t < v.entries[j].defs.len() implies #[trigger] v.entries[j].defs[t]
                < v.cpg.nodes.len() by {
                if j < m.entries.len() && t < m.entries[j].defs.len() {
                    assert(v.entries[j].defs[t] == m.entries[j].defs[t]);
                } else {
                    let k = if j < m.entries.len() { t - m.entries[j].defs.len() } else { t };
                    assert(v.entries[j].defs[t] == dn[k]);
                    assert(dn[k] == defs@[k] as nat);
                }
            }
            assert forall|j: int, t: int|
                0 <= j < v.entries.len() && 0 <= t < v.entries[j].calls.len() implies #[trigger] v.entries[j].calls[t]
                < v.cpg.nodes.len() by {
                if j < m.entries.len() && t < m.entries[j].calls.len() {
                    assert(v.entries[j].calls[t] == m.entries[j].calls[t]);
                } else {
                    let k = if j < m.entries.len() { t - m.entries[j].calls.len() } else { t };
                    assert(v.entries[j].calls[t] == cn[k]);
                    assert(cn[k] == calls@[k] as nat);
                }
            }
        }
    }
    /// Merge another builder into this one (see [`merge_model`]): its nodes
    /// in order, each reusing the node of the same key here or added; its
    /// edges, carried over to the new indices; and its name records,
    /// appended to those of the same name here.
    /// (petgraph refuses indices at the `u32` end marker, hence the bounds.)
    pub fn merge(&mut self, other: GraphBuilder)
        requires
            old(self).wf(),
            other.wf(),
            merge_model(old(self)@, other@).cpg.nodes.len() <= u32::MAX,
            merge_model(old(self)@, other@).cpg.edges.len() <= u32::MAX,
        ensures
            final(self).wf(),
            final(self)@ == merge_model(old(self)@, other@),
    {
        let ghost m0 = self@;
        let ghost o = other@;
        let on = other.cpg.node_count();
        let mut map: Vec<usize> = Vec::new();
        let mut i: usize = 0;
        proof {
            assert(o.cpg.nodes.take(0) =~= Seq::<NodeView>::empty());
            assert(map@.map_values(|x: usize| x as nat) =~= Seq::<nat>::empty());
            lemma_merge_entries_cpg(
                BuilderView {
                    cpg: CpgView {
                        nodes: merge_nodes(m0, o.cpg.nodes).0.cpg.nodes,
                        edges: merge_nodes(m0, o.cpg.nodes).0.cpg.edges + remap_edges(
                            o.cpg.edges,
                            merge_nodes(m0, o.cpg.nodes).1,
                        ),
                    },
                    symbols: merge_nodes(m0, o.cpg.nodes).0.symbols,
                    name_index: merge_nodes(m0, o.cpg.nodes).0.name_index,
                    entries: merge_nodes(m0, o.cpg.nodes).0.entries,
                },
                o.entries,
                merge_nodes(m0, o.cpg.nodes).1,
            );
        }
        while i < on
            invariant
                i <= on,
                on == o.cpg.nodes.len(),
                o == other@,
                other.wf(),
                self.wf(),
                merge_nodes(m0, o.cpg.nodes.take(i as int)) == (self@, map@.map_values(|x: usize| x as nat)),
                merge_nodes(m0, o.cpg.nodes).0.cpg.nodes.len() <= u32::MAX,
                forall|k: int| 0 <= k < map@.len() ==> #[trigger] map@[k] < self@.cpg.nodes.len(),
            decreases on - i,
        {
            proof {
                lemma_merge_nodes_prefix(m0, o.cpg.nodes, i as int);
                lemma_merge_nodes_monotone(m0, o.cpg.nodes, i as int + 1, on as int);
                assert(o.cpg.nodes.take(on as int) =~= o.cpg.nodes);
            }
            let node = other.cpg.node(i);
            let key: String = match &node.usr {
                Some(u) => u.clone(),
                None => String::new(),
            };
            assert(key@ == node_key(o.cpg.nodes[i as int]));
            let copy = node.duplicate();
            assert(o.cpg.nodes[i as int].usr is Some);
            let ghost before = self@;
            let idx = self.find_or_add(key, copy);
            map.push(idx);
            i = i + 1;
            proof {
                assert(map@.map_values(|x: usize| x as nat) =~= merge_nodes(m0, o.cpg.nodes.take(i as int)).1);
                assert forall|k: int| 0 <= k < map@.len() implies #[trigger] map@[k] < self@.cpg.nodes.len() by {
                    if k < map@.len() - 1 {
                        assert(before.cpg.nodes.len() <= self@.cpg.nodes.len());
                    }
                }
            }
        }
        let ghost m1 = self@;
        let ghost idxs = map@.map_values(|x: usize| x as nat);
        proof {
            assert(o.cpg.nodes.take(on as int) =~= o.cpg.nodes);
            lemma_merge_nodes_len(m0, o.cpg.nodes);
            assert(remap_edges(o.cpg.edges.take(0), idxs) =~= Seq::<(nat, nat, Edge)>::empty());
            assert(self@.cpg.edges =~= m1.cpg.edges + remap_edges(o.cpg.edges.take(0), idxs));
        }
        let _ = other.cpg.node_count();
        let edges = other.cpg.edge_list();
        let ne = edges.len();
        let mut e: usize = 0;
        while e < ne
            invariant
                e <= ne,
                ne == o.cpg.edges.len(),
                edges@.map_values(|x: (usize, usize, Edge)| crate::graph::triple_nat(x)) == o.cpg.edges,
                o == other@,
                other.wf(),
                cpg_wf(o.cpg),
                idxs == map@.map_values(|x: usize| x as nat),
                idxs.len() == o.cpg.nodes.len(),
                (m1, idxs) == merge_nodes(m0, o.cpg.nodes),
                self.wf(),
                self@.cpg.nodes == m1.cpg.nodes,
                self@.symbols == m1.symbols,
                self@.name_index == m1.name_index,
                self@.entries == m1.entries,
                self@.cpg.edges == m1.cpg.edges + remap_edges(o.cpg.edges.take(e as int), idxs),
                m1.cpg.edges.len() + o.cpg.edges.len() <= u32::MAX,
                forall|k: int| 0 <= k < map@.len() ==> #[trigger] map@[k] < m1.cpg.nodes.len(),
            decreases ne - e,
        {
            let (a, b, kind) = edges[e];
            proof {
                assert(o.cpg.edges[e as int] == crate::graph::triple_nat(edges@[e as int]));
                assert(edges_valid(o.cpg));
                assert(a < map@.len() && b < map@.len());
            }
            let ma = map[a];
            let mb = map[b];
            let _ = self.cpg.node_count();
            self.cpg.add_edge(ma, mb, kind);
            e = e + 1;
            proof {
                assert(remap_edges(o.cpg.edges.take(e as int), idxs) =~= remap_edges(o.cpg.edges.take(e - 1), idxs).push(
                    (idxs[a as int], idxs[b as int], kind),
                ));
                assert(self@.cpg.edges =~= m1.cpg.edges + remap_edges(o.cpg.edges.take(e as int), idxs));
            }
        }
        let ghost m2 = self@;
        proof {
            assert(o.cpg.edges.take(ne as int) =~= o.cpg.edges);
            assert(m2.entries == merge_entries(m2, o.entries.take(0), idxs).entries);
            assert(o.entries.take(0) =~= Seq::<NameEntryView>::empty());
        }
        let nn = other.entries.len();
        let mut j: usize = 0;
        while j < nn
            invariant
                j <= nn,
                nn == o.entries.len(),
                o == other@,
                other.wf(),
                idxs == map@.map_values(|x: usize| x as nat),
                idxs.len() == o.cpg.nodes.len(),
                forall|k: int| 0 <= k < map@.len() ==> #[trigger] map@[k] < m2.cpg.nodes.len(),
                self.wf(),
                self@ == merge_entries(m2, o.entries.take(j as int), idxs),
                self@.cpg == m2.cpg,
            decreases nn - j,
        {
            assert(other@.entries[j as int] == other.entries@[j as int].view());
            let ghost oe = o.entries[j as int];
            let nd = other.entries[j].defs.len();
            let mut defs: Vec<usize> = Vec::new();
            let mut t: usize = 0;
            while t < nd
                invariant
                    t <= nd,
                    nd == oe.defs.len(),
                    j < nn,
                    nn == o.entries.len(),
                    oe == o.entries[j as int],
                    o == other@,
                    other.wf(),
                    other@.entries[j as int] == other.entries@[j as int].view(),
                    idxs == map@.map_values(|x: usize| x as nat),
                    idxs.len() == o.cpg.nodes.len(),
                    forall|k: int| 0 <= k < map@.len() ==> #[trigger] map@[k] < m2.cpg.nodes.len(),
                    defs@.map_values(|x: usize| x as nat) == remap(oe.defs.take(t as int), idxs),
                    forall|k: int| 0 <= k < defs@.len() ==> #[trigger] defs@[k] < m2.cpg.nodes.len(),
                decreases nd - t,
            {
                let d = other.entries[j].defs[t];
                assert(d as nat == oe.defs[t as int]);
                assert(d < map@.len());
                let ghost prev = defs@;
                let mv = map[d];
                defs.push(mv);
                t = t + 1;
                proof {
                    assert(defs@.map_values(|x: usize| x as nat) =~= prev.map_values(|x: usize| x as nat).push(mv as nat));
                    assert(remap(oe.defs.take(t as int), idxs) =~= remap(oe.defs.take(t - 1), idxs).push(idxs[d as int]));
                    assert(idxs[d as int] == map@[d as int] as nat);
                    assert(oe.defs.take(t as int)[t - 1] == d as nat);
                    assert forall|k: int| 0 <= k < t - 1 implies #[trigger] oe.defs.take(t as int)[k] == oe.defs.take(t - 1)[k] by {}
                    assert(defs@.map_values(|x: usize| x as nat) =~= remap(oe.defs.take(t as int), idxs));
                }
            }
            let nc = other.entries[j].calls.len();
            let mut calls: Vec<usize> = Vec::new();
            let mut t: usize = 0;
            while t < nc
                invariant
                    t <= nc,
                    nc == oe.calls.len(),
                    j < nn,
                    nn == o.entries.len(),
                    oe == o.entries[j as int],
                    o == other@,
                    other.wf(),
                    other@.entries[j as int] == other.entries@[j as int].view(),
                    idxs == map@.map_values(|x: usize| x as nat),
                    idxs.len() == o.cpg.nodes.len(),
                    forall|k: int| 0 <= k < map@.len() ==> #[trigger] map@[k] < m2.cpg.nodes.len(),
                    calls@.map_values(|x: usize| x as nat) == remap(oe.calls.take(t as int), idxs),
                    forall|k: int| 0 <= k < calls@.len() ==> #[trigger] calls@[k] < m2.cpg.nodes.len(),
                decreases nc - t,
            {
                let c = other.entries[j].calls[t];
                assert(c as nat == oe.calls[t as int]);
                assert(c < map@.len());
                let ghost prev = calls@;
                let mv = map[c];
                calls.push(mv);
                t = t + 1;
                proof {
                    assert(calls@.map_values(|x: usize| x as nat) =~= prev.map_values(|x: usize| x as nat).push(mv as nat));
                    assert(remap(oe.calls.take(t as int), idxs) =~= remap(oe.calls.take(t - 1), idxs).push(idxs[c as int]));
                    assert(idxs[c as int] == map@[c as int] as nat);
                    assert(oe.calls.take(t as int)[t - 1] == c as nat);
                    assert forall|k: int| 0 <= k < t - 1 implies #[trigger] oe.calls.take(t as int)[k] == oe.calls.take(t - 1)[k] by {}
                    assert(calls@.map_values(|x: usize| x as nat) =~= remap(oe.calls.take(t as int), idxs));
                }
            }
            proof {
                assert(oe.defs.take(nd as int) =~= oe.defs);
                assert(oe.calls.take(nc as int) =~= oe.calls);
                assert(o.entries.take(j as int + 1).drop_last() =~= o.entries.take(j as int));
            }
            self.append_names(&other.entries[j].name, defs, calls);
            j = j + 1;
        }
        proof {
            assert(o.entries.take(nn as int) =~= o.entries);
        }
    }
    /// How many call edges [`GraphBuilder::resolve_calls`] would add, counted
    /// up to one past the largest edge index petgraph accepts (so a caller
    /// can tell whether resolving fits).
    pub fn resolve_edge_count(&self) -> (r: u64)
        requires
            self.wf(),
        ensures
            r == if resolve_edges(self@.entries).len() > u32::MAX {
                u32::MAX as nat + 1
            } else {
                resolve_edges(self@.entries).len()
            },
    {
        let ghost es = self@.entries;
        let cap: u64 = 4294967296;
        let mut count: u64 = 0;
        let mut j: usize = 0;
        proof {
            assert(es.take(0) =~= Seq::<NameEntryView>::empty());
        }
        while j < self.entries.len()
            invariant
                j <= self.entries@.len(),
                es == self@.entries,
                self.wf(),
                cap == u32::MAX as nat + 1,
                count == if resolve_edges(es.take(j as int)).len() > u32::MAX {
                    cap as nat
                } else {
                    resolve_edges(es.take(j as int)).len()
                },
            decreases self.entries@.len() - j,
        {
            assert(self.entries@[j as int].view() == es[j as int]);
            let ghost calls = es[j as int].calls;
            let ghost defs = es[j as int].defs;
            let nd = self.entries[j].defs.len();
            let nc = self.entries[j].calls.len();
            let mut s: usize = 0;
            proof {
                assert(es.take(j as int + 1).drop_last() =~= es.take(j as int));
                assert(calls.take(0) =~= Seq::<nat>::empty());
                lemma_def_edges_len(0, defs);
            }
            let ghost base = resolve_edges(es.take(j as int)).len();
            while s < nc
                invariant
                    s <= nc,
                    nc == calls.len(),
                    nd == defs.len(),
                    cap == u32::MAX as nat + 1,
                    count == if base + call_edges(calls.take(s as int), defs).len() > u32::MAX {
                        cap as nat
                    } else {
                        base + call_edges(calls.take(s as int), defs).len()
                    },
                decreases nc - s,
            {
                proof {
                    assert(calls.take(s as int + 1).drop_last() =~= calls.take(s as int));
                    lemma_def_edges_len(calls[s as int], defs);
                }
                if count > u32::MAX as u64 || nd as u64 > u32::MAX as u64 - count {
                    count = cap;
                } else {
                    count = count + nd as u64;
                }
                s = s + 1;
            }
            proof {
                assert(calls.take(s as int) =~= calls);
            }
            j = j + 1;
        }
        proof {
            assert(es.take(j as int) =~= es);
        }
        count
    }
}

} // verus!
