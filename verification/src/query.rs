//! Queries over a code property graph: nodes by kind, call sites by name,
//! callers and callees of a function, and functions that nothing calls.

use vstd::prelude::*;
use crate::common::{NodeKind, is_definition_kind, is_definition};
use crate::graph::{CodePropertyGraph, CpgView, Edge, Node, NodeView, cpg_wf, incident, record_nat, triple_nat};
use crate::text::str_eq;

verus! {

/// Whether a node passes a filter: of kind `kind` (when given) and named
/// `name` (when given).
pub open spec fn passes(n: NodeView, kind: Option<NodeKind>, name: Option<Seq<char>>) -> bool {
    &&& (match kind {
        Some(k) => n.kind == k,
        None => true,
    })
    &&& (match name {
        Some(s) => has_name(n, s),
        None => true,
    })
}

/// The indices of the nodes that pass a filter (see [`passes`]), in index
/// order.
pub open spec fn select(nodes: Seq<NodeView>, kind: Option<NodeKind>, name: Option<Seq<char>>) -> Seq<nat>
    decreases nodes.len(),
{
    if nodes.len() == 0 {
        seq![]
    } else {
        let r = select(nodes.drop_last(), kind, name);
        if passes(nodes.last(), kind, name) {
            r.push((nodes.len() - 1) as nat)
        } else {
            r
        }
    }
}

/// The nodes at the given indices.
pub open spec fn views_at(nodes: Seq<NodeView>, idxs: Seq<nat>) -> Seq<NodeView> {
    idxs.map_values(|i: nat| nodes[i as int])
}

/// Whether a node carries the given name.
pub open spec fn has_name(n: NodeView, name: Seq<char>) -> bool {
    n.name == Some(name)
}

/// From incident edge records, in their order: the targets (or, with
/// `sources`, the sources) of those of kind `k`.
pub open spec fn pick(recs: Seq<(nat, nat, nat, Edge)>, k: Edge, sources: bool) -> Seq<nat>
    decreases recs.len(),
{
    if recs.len() == 0 {
        seq![]
    } else {
        let r = pick(recs.drop_last(), k, sources);
        let last = recs.last();
        if last.3 == k {
            r.push(if sources { last.1 } else { last.2 })
        } else {
            r
        }
    }
}

/// The AST children of node `x`, as petgraph lists its outgoing edges (most
/// recently added first).
pub open spec fn ast_children(v: CpgView, x: nat) -> Seq<nat> {
    pick(incident(v.edges, x, false), Edge::AstChild, false)
}

/// The AST parent of node `x`: the source of the first AST-child edge into
/// it, as petgraph lists its incoming edges (most recently added first).
pub open spec fn ast_parent(v: CpgView, x: nat) -> Option<nat> {
    let ps = pick(incident(v.edges, x, true), Edge::AstChild, true);
    if ps.len() > 0 {
        Some(ps[0])
    } else {
        None
    }
}

/// The first function node met when walking up AST parents from `x`,
/// looking at no more than `fuel` nodes.
pub open spec fn enclosing_fn(v: CpgView, x: nat, fuel: nat) -> Option<nat>
    decreases fuel,
{
    if fuel == 0 || x >= v.nodes.len() {
        None
    } else if v.nodes[x as int].kind == NodeKind::Function {
        Some(x)
    } else {
        match ast_parent(v, x) {
            Some(p) => enclosing_fn(v, p, (fuel - 1) as nat),
            None => None,
        }
    }
}

/// The enclosing function of node `x`.  A walk up AST parents visits at
/// most every node once before it ends or repeats itself, so the walk is
/// cut after one step per node and one more ([`lemma_enclosing_fuel`]
/// shows that a longer walk finds the same).
pub open spec fn enclosing(v: CpgView, x: nat) -> Option<nat> {
    enclosing_fn(v, x, v.nodes.len() + 1)
}

/// The next level of a breadth-first walk along AST-child edges: the
/// children of each node of `level`, in order.
pub open spec fn next_level(v: CpgView, level: Seq<nat>) -> Seq<nat>
    decreases level.len(),
{
    if level.len() == 0 {
        seq![]
    } else {
        next_level(v, level.drop_last()) + ast_children(v, level.last())
    }
}

/// `fuel` levels of a breadth-first walk along AST-child edges, starting
/// with `level`.  (Nodes reached along several paths appear once per path,
/// as a queue without a visited set yields them.)
pub open spec fn walk_levels(v: CpgView, level: Seq<nat>, fuel: nat) -> Seq<nat>
    decreases fuel,
{
    if fuel == 0 {
        seq![]
    } else {
        level + walk_levels(v, next_level(v, level), (fuel - 1) as nat)
    }
}

/// The nodes of the AST subtree of `root` in breadth-first order.  A level
/// past the number of nodes can only be reached along a path that repeats a
/// node, so the walk is cut there (see [`lemma_subtree_fuel`]).
pub open spec fn subtree(v: CpgView, root: nat) -> Seq<nat> {
    walk_levels(v, seq![root], v.nodes.len() + 1)
}

/// The call-site nodes among `idxs`, in order.
pub open spec fn call_sites_among(v: CpgView, idxs: Seq<nat>) -> Seq<nat>
    decreases idxs.len(),
{
    if idxs.len() == 0 {
        seq![]
    } else {
        let r = call_sites_among(v, idxs.drop_last());
        if v.nodes[idxs.last() as int].kind == NodeKind::CallSite {
            r.push(idxs.last())
        } else {
            r
        }
    }
}

/// Whether some call edge ends at node `i`.
pub open spec fn is_called(v: CpgView, i: nat) -> bool {
    exists|e: int| 0 <= e < v.edges.len() && (#[trigger] v.edges[e]).2 == Edge::Call && v.edges[e].1 == i
}

/// The (caller, callee) index pairs that [`callers_of`] reports: for each
/// call edge in index order whose target is a definition named `name` and
/// whose source has an enclosing function, that function and the target.
pub open spec fn callers_spec(v: CpgView, edges: Seq<(nat, nat, Edge)>, name: Seq<char>) -> Seq<(nat, nat)>
    decreases edges.len(),
{
    if edges.len() == 0 {
        seq![]
    } else {
        let r = callers_spec(v, edges.drop_last(), name);
        let e = edges.last();
        if e.2 == Edge::Call && e.1 < v.nodes.len() && is_definition_kind(v.nodes[e.1 as int].kind) && has_name(
            v.nodes[e.1 as int],
            name,
        ) {
            match enclosing(v, e.0) {
                Some(f) => r.push((f, e.1)),
                None => r,
            }
        } else {
            r
        }
    }
}

/// The (callee, call site) index pairs reached from the given call sites:
/// for each call site in order, the targets of its outgoing call edges as
/// petgraph lists them.
pub open spec fn callees_from(v: CpgView, sites: Seq<nat>) -> Seq<(nat, nat)>
    decreases sites.len(),
{
    if sites.len() == 0 {
        seq![]
    } else {
        let c = sites.last();
        callees_from(v, sites.drop_last()) + pick(incident(v.edges, c, false), Edge::Call, false).map_values(
            |t: nat| (t, c),
        )
    }
}

/// The first function node named `name`, if any.
pub open spec fn first_function_named(v: CpgView, name: Seq<char>) -> Option<nat> {
    let s = select(v.nodes, Some(NodeKind::Function), Some(name));
    if s.len() > 0 {
        Some(s[0])
    } else {
        None
    }
}

/// The (callee, call site) index pairs that [`callees_of`] reports.
pub open spec fn callees_spec(v: CpgView, name: Seq<char>) -> Seq<(nat, nat)> {
    match first_function_named(v, name) {
        Some(f) => callees_from(v, call_sites_among(v, subtree(v, f))),
        None => seq![],
    }
}

/// Pairs of indices as pairs of nodes.
pub open spec fn pair_views(nodes: Seq<NodeView>, ps: Seq<(nat, nat)>) -> Seq<(NodeView, NodeView)> {
    ps.map_values(|p: (nat, nat)| (nodes[p.0 as int], nodes[p.1 as int]))
}

/// A list of node references as node values.
pub open spec fn ref_views(r: Seq<&Node>) -> Seq<NodeView> {
    r.map_values(|n: &Node| n@)
}

/// A list of node reference pairs as pairs of node values.
pub open spec fn ref_pair_views(r: Seq<(&Node, &Node)>) -> Seq<(NodeView, NodeView)> {
    r.map_values(|p: (&Node, &Node)| (p.0@, p.1@))
}

/// Whether a node carries exactly the name `name`.
pub(crate) fn name_is(n: &Node, name: &str) -> (r: bool)
    ensures
        r == has_name(n@, name@),
{
    match &n.name {
        Some(s) => str_eq(s.as_str(), name),
        None => false,
    }
}

pub proof fn lemma_select_prefix(nodes: Seq<NodeView>, kind: Option<NodeKind>, name: Option<Seq<char>>, i: int)
    requires
        0 <= i < nodes.len(),
    ensures
        select(nodes.take(i + 1), kind, name) == (if passes(nodes[i], kind, name) {
            select(nodes.take(i), kind, name).push(i as nat)
        } else {
            select(nodes.take(i), kind, name)
        }),
{
    assert(nodes.take(i + 1).drop_last() =~= nodes.take(i));
}

/// Every index that `select` lists is a node index that passes the filter.
pub proof fn lemma_select_bounds(nodes: Seq<NodeView>, kind: Option<NodeKind>, name: Option<Seq<char>>)
    ensures
        forall|k: int|
            0 <= k < select(nodes, kind, name).len() ==> #[trigger] select(nodes, kind, name)[k] < nodes.len()
                && passes(nodes[select(nodes, kind, name)[k] as int], kind, name),
    decreases nodes.len(),
{
    if nodes.len() > 0 {
        let init = nodes.drop_last();
        lemma_select_bounds(init, kind, name);
        let r = select(init, kind, name);
        assert forall|k: int| 0 <= k < r.len() implies nodes[r[k] as int] == init[r[k] as int] by {}
    }
}

/// The nodes that pass a filter, as references in index order.
fn select_nodes<'a>(cpg: &'a CodePropertyGraph, kind: Option<NodeKind>, name: Option<&str>) -> (r: Vec<&'a Node>)
    ensures
        ref_views(r@) == views_at(
            cpg@.nodes,
            select(
                cpg@.nodes,
                kind,
                match name {
                    Some(s) => Some(s@),
                    None => None,
                },
            ),
        ),
{
    let ghost nm = match name {
        Some(s) => Some(s@),
        None => None,
    };
    let n = cpg.node_count();
    let mut r: Vec<&'a Node> = Vec::new();
    let mut i: usize = 0;
    proof {
        assert(cpg@.nodes.take(0) =~= Seq::<NodeView>::empty());
        assert(ref_views(r@) =~= views_at(cpg@.nodes, select(cpg@.nodes.take(0), kind, nm)));
    }
    while i < n
        invariant
            i <= n,
            n == cpg@.nodes.len(),
            nm == match name {
                Some(s) => Some(s@),
                None => None,
            },
            ref_views(r@) == views_at(cpg@.nodes, select(cpg@.nodes.take(i as int), kind, nm)),
        decreases n - i,
    {
        let node = cpg.node(i);
        let k_ok = match kind {
            Some(k) => node.kind == k,
            None => true,
        };
        let n_ok = match name {
            Some(s) => name_is(node, s),
            None => true,
        };
        proof {
            lemma_select_prefix(cpg@.nodes, kind, nm, i as int);
            assert(passes(cpg@.nodes[i as int], kind, nm) == (k_ok && n_ok));
        }
        if k_ok && n_ok {
            let ghost before = r@;
            r.push(node);
            proof {
                assert(ref_views(r@) =~= ref_views(before).push(node@));
                assert(ref_views(r@) =~= views_at(cpg@.nodes, select(cpg@.nodes.take(i as int + 1), kind, nm)));
            }
        }
        i = i + 1;
    }
    proof {
        assert(cpg@.nodes.take(n as int) =~= cpg@.nodes);
    }
    r
}

/// All nodes of the given kind, in index order.
pub fn find_by_kind<'a>(cpg: &'a CodePropertyGraph, kind: NodeKind) -> (r: Vec<&'a Node>)
    ensures
        ref_views(r@) == views_at(cpg@.nodes, select(cpg@.nodes, Some(kind), None)),
{
    select_nodes(cpg, Some(kind), None)
}

/// All call sites named `func_name`, in index order.  Only the name is
/// compared; no overload resolution is done.
pub fn find_calls_to<'a>(cpg: &'a CodePropertyGraph, func_name: &str) -> (r: Vec<&'a Node>)
    ensures
        ref_views(r@) == views_at(cpg@.nodes, select(cpg@.nodes, Some(NodeKind::CallSite), Some(func_name@))),
{
    select_nodes(cpg, Some(NodeKind::CallSite), Some(func_name))
}

/// The function nodes that no call edge reaches, among the first `m` nodes.
pub open spec fn uncalled_functions(v: CpgView, m: nat) -> Seq<nat>
    decreases m,
{
    if m == 0 {
        seq![]
    } else {
        let r = uncalled_functions(v, (m - 1) as nat);
        if v.nodes[m - 1].kind == NodeKind::Function && !is_called(v, (m - 1) as nat) {
            r.push((m - 1) as nat)
        } else {
            r
        }
    }
}

/// The levels of a breadth-first walk: `level` itself, then `k` times the
/// next level.
pub open spec fn level_at(v: CpgView, level: Seq<nat>, k: nat) -> Seq<nat>
    decreases k,
{
    if k == 0 {
        level
    } else {
        level_at(v, next_level(v, level), (k - 1) as nat)
    }
}

/// One more level of a walk is the walk followed by that level.
pub proof fn lemma_walk_levels_step(v: CpgView, level: Seq<nat>, k: nat)
    ensures
        walk_levels(v, level, k + 1) == walk_levels(v, level, k) + level_at(v, level, k),
    decreases k,
{
    if k > 0 {
        lemma_walk_levels_step(v, next_level(v, level), (k - 1) as nat);
        assert(walk_levels(v, level, k + 1) =~= level + walk_levels(v, next_level(v, level), k));
        assert(walk_levels(v, level, k) =~= level + walk_levels(v, next_level(v, level), (k - 1) as nat));
    } else {
        assert(walk_levels(v, level, 1) =~= level + walk_levels(v, next_level(v, level), 0));
    }
}

/// What each incident edge record says of its edge.
pub proof fn lemma_incident_records(es: Seq<(nat, nat, Edge)>, a: nat, incoming: bool)
    ensures
        forall|k: int|
            0 <= k < incident(es, a, incoming).len() ==> {
                let r = #[trigger] incident(es, a, incoming)[k];
                &&& r.0 < es.len()
                &&& es[r.0 as int] == (r.1, r.2, r.3)
                &&& crate::graph::endpoint(es[r.0 as int], incoming) == a
            },
    decreases es.len(),
{
    if es.len() > 0 {
        let init = es.drop_last();
        lemma_incident_records(init, a, incoming);
        let rest = incident(init, a, incoming);
        assert forall|k: int| 0 <= k < rest.len() implies es[rest[k].0 as int] == init[rest[k].0 as int] by {}
    }
}

/// The values that `pick` lists are endpoints of the listed records.
proof fn lemma_pick_bound(recs: Seq<(nat, nat, nat, Edge)>, k: Edge, sources: bool, n: nat)
    requires
        forall|i: int| 0 <= i < recs.len() ==> (#[trigger] recs[i]).1 < n && recs[i].2 < n,
    ensures
        forall|i: int| 0 <= i < pick(recs, k, sources).len() ==> #[trigger] pick(recs, k, sources)[i] < n,
    decreases recs.len(),
{
    if recs.len() > 0 {
        let init = recs.drop_last();
        lemma_pick_bound(init, k, sources, n);
        assert(recs.last() == recs[recs.len() - 1]);
        let r = pick(init, k, sources);
        assert forall|i: int| 0 <= i < pick(recs, k, sources).len() implies #[trigger] pick(recs, k, sources)[i] < n by {
            if i < r.len() {
                assert(pick(recs, k, sources)[i] == r[i]);
            }
        }
    }
}

/// The nodes listed by `pick` over a node's incident edges are nodes.
pub proof fn lemma_incident_pick_bound(v: CpgView, a: nat, incoming: bool, k: Edge, sources: bool)
    requires
        cpg_wf(v),
    ensures
        forall|i: int|
            0 <= i < pick(incident(v.edges, a, incoming), k, sources).len() ==> #[trigger] pick(
                incident(v.edges, a, incoming),
                k,
                sources,
            )[i] < v.nodes.len(),
{
    lemma_incident_records(v.edges, a, incoming);
    let recs = incident(v.edges, a, incoming);
    assert forall|i: int| 0 <= i < recs.len() implies (#[trigger] recs[i]).1 < v.nodes.len() && recs[i].2
        < v.nodes.len() by {
        assert(v.edges[recs[i].0 as int] == (recs[i].1, recs[i].2, recs[i].3));
    }
    lemma_pick_bound(recs, k, sources, v.nodes.len());
}

/// The children (or parents) of `x` along edges of kind `k`, in the order
/// petgraph lists the edges (see [`pick`]).
pub(crate) fn neighbours(cpg: &CodePropertyGraph, x: usize, k: Edge, incoming: bool) -> (r: Vec<usize>)
    requires
        x < cpg@.nodes.len(),
    ensures
        r@.map_values(|i: usize| i as nat) == pick(incident(cpg@.edges, x as nat, incoming), k, incoming),
        forall|i: int| 0 <= i < r@.len() ==> #[trigger] r@[i] < cpg@.nodes.len(),
{
    let _ = cpg.node_count();
    let recs = cpg.edges_directed(x, incoming);
    let ghost rn = recs@.map_values(|x: (usize, usize, usize, Edge)| record_nat(x));
    let mut r: Vec<usize> = Vec::new();
    let mut i: usize = 0;
    proof {
        assert(rn.take(0) =~= Seq::<(nat, nat, nat, Edge)>::empty());
        assert(r@.map_values(|i: usize| i as nat) =~= Seq::<nat>::empty());
        lemma_incident_pick_bound(cpg@, x as nat, incoming, k, incoming);
    }
    while i < recs.len()
        invariant
            i <= recs@.len(),
            rn == recs@.map_values(|x: (usize, usize, usize, Edge)| record_nat(x)),
            r@.map_values(|i: usize| i as nat) == pick(rn.take(i as int), k, incoming),
        decreases recs@.len() - i,
    {
        let (_e, src, tgt, kind) = recs[i];
        proof {
            assert(rn.take(i as int + 1).drop_last() =~= rn.take(i as int));
            assert(rn[i as int] == record_nat(recs@[i as int]));
        }
        if kind == k {
            let ghost before = r@;
            if incoming {
                r.push(src);
            } else {
                r.push(tgt);
            }
            proof {
                assert(r@.map_values(|i: usize| i as nat) =~= before.map_values(|i: usize| i as nat).push(
                    if incoming { src as nat } else { tgt as nat },
                ));
            }
        }
        i = i + 1;
    }
    proof {
        assert(rn.take(recs@.len() as int) =~= rn);
        let pk = pick(incident(cpg@.edges, x as nat, incoming), k, incoming);
        assert forall|i: int| 0 <= i < r@.len() implies #[trigger] r@[i] < cpg@.nodes.len() by {
            assert(r@.map_values(|i: usize| i as nat)[i] == r@[i] as nat);
            assert(pk[i] < cpg@.nodes.len());
        }
    }
    r
}

/// The first function node met when walking up AST parents from `start`
/// (see [`enclosing`]).
pub fn get_enclosing_function(cpg: &CodePropertyGraph, start: usize) -> (r: Option<usize>)
    requires
        start < cpg@.nodes.len(),
    ensures
        match r {
            Some(i) => enclosing(cpg@, start as nat) == Some(i as nat),
            None => enclosing(cpg@, start as nat) is None,
        },
{
    let n = cpg.node_count();
    let mut cur = start;
    let mut fuel: u64 = n as u64 + 1;
    while fuel > 0
        invariant
            n == cpg@.nodes.len(),
            cur < n,
            fuel <= n + 1,
            enclosing_fn(cpg@, cur as nat, fuel as nat) == enclosing(cpg@, start as nat),
        decreases fuel,
    {
        if cpg.node(cur).kind == NodeKind::Function {
            return Some(cur);
        }
        let parents = neighbours(cpg, cur, Edge::AstChild, true);
        if parents.len() == 0 {
            proof {
                assert(pick(incident(cpg@.edges, cur as nat, true), Edge::AstChild, true).len() == 0);
            }
            return None;
        }
        proof {
            assert(parents@.map_values(|i: usize| i as nat)[0] == parents@[0] as nat);
        }
        cur = parents[0];
        fuel = fuel - 1;
    }
    None
}

proof fn lemma_next_level_prefix(v: CpgView, level: Seq<nat>, j: int)
    requires
        0 <= j < level.len(),
    ensures
        next_level(v, level.take(j + 1)) == next_level(v, level.take(j)) + ast_children(v, level[j]),
{
    assert(level.take(j + 1).drop_last() =~= level.take(j));
}

/// The nodes of the AST subtree of `root` in breadth-first order (see
/// [`subtree`]).
pub fn subtree_order(cpg: &CodePropertyGraph, root: usize) -> (r: Vec<usize>)
    requires
        root < cpg@.nodes.len(),
    ensures
        r@.map_values(|i: usize| i as nat) == subtree(cpg@, root as nat),
        forall|i: int| 0 <= i < r@.len() ==> #[trigger] r@[i] < cpg@.nodes.len(),
{
    let n = cpg.node_count();
    let ghost v = cpg@;
    let ghost l0: Seq<nat> = seq![root as nat];
    let mut order: Vec<usize> = Vec::new();
    order.push(root);
    let mut start: usize = 0;
    let mut k: u64 = 0;
    let fuel: u64 = n as u64 + 1;
    proof {
        assert(order@.map_values(|i: usize| i as nat).take(0) =~= walk_levels(v, l0, 0));
        assert(order@.map_values(|i: usize| i as nat).skip(0) =~= level_at(v, l0, 0));
    }
    while k < fuel
        invariant
            v == cpg@,
            n == v.nodes.len(),
            fuel == n + 1,
            k <= fuel,
            start <= order@.len(),
            order@.map_values(|i: usize| i as nat).take(start as int) == walk_levels(v, l0, k as nat),
            order@.map_values(|i: usize| i as nat).skip(start as int) == level_at(v, l0, k as nat),
            forall|i: int| 0 <= i < order@.len() ==> #[trigger] order@[i] < n,
        decreases fuel - k,
    {
        let end = order.len();
        let ghost lvl = order@.map_values(|i: usize| i as nat).skip(start as int);
        let ghost prefix = order@.map_values(|i: usize| i as nat).take(end as int);
        let mut i: usize = start;
        proof {
            assert(lvl.take(0) =~= Seq::<nat>::empty());
            assert(order@.map_values(|i: usize| i as nat).skip(end as int) =~= next_level(v, lvl.take(0)));
        }
        while i < end
            invariant
                start <= i <= end,
                end <= order@.len(),
                v == cpg@,
                n == v.nodes.len(),
                lvl.len() == end - start,
                forall|t: int| 0 <= t < lvl.len() ==> #[trigger] lvl[t] == order@[start + t] as nat,
                order@.map_values(|i: usize| i as nat).take(end as int) == prefix,
                order@.map_values(|i: usize| i as nat).skip(end as int) == next_level(v, lvl.take(i - start)),
                forall|t: int| 0 <= t < order@.len() ==> #[trigger] order@[t] < n,
            decreases end - i,
        {
            let x = order[i];
            let ch = neighbours(cpg, x, Edge::AstChild, false);
            let ghost before = order@;
            let mut t: usize = 0;
            while t < ch.len()
                invariant
                    t <= ch@.len(),
                    end <= before.len(),
                    before.len() + t == order@.len(),
                    forall|q: int| 0 <= q < before.len() ==> #[trigger] order@[q] == before[q],
                    forall|q: int| 0 <= q < t ==> #[trigger] order@[before.len() + q] == ch@[q],
                    forall|q: int| 0 <= q < ch@.len() ==> #[trigger] ch@[q] < n,
                    forall|q: int| 0 <= q < order@.len() ==> #[trigger] order@[q] < n,
                decreases ch@.len() - t,
            {
                order.push(ch[t]);
                t = t + 1;
            }
            proof {
                assert forall|q: int| 0 <= q < order@.len() implies #[trigger] order@[q] == (before + ch@)[q] by {
                    if q >= before.len() {
                        let qq = q - before.len();
                        assert(order@[before.len() + qq] == ch@[qq]);
                    }
                }
                assert(order@ =~= before + ch@);
                lemma_next_level_prefix(v, lvl, i - start);
                assert(lvl[i - start] == x as nat);
                assert(order@.map_values(|i: usize| i as nat).take(end as int) =~= prefix);
                assert(order@.map_values(|i: usize| i as nat).skip(end as int) =~= before.map_values(|i: usize| i as nat).skip(
                    end as int,
                ) + ch@.map_values(|i: usize| i as nat));
                assert(lvl.take(i - start + 1) =~= lvl.take(i - start + 1));
            }
            i = i + 1;
        }
        proof {
            assert(lvl.take(end - start) =~= lvl);
            lemma_walk_levels_step(v, l0, k as nat);
            lemma_level_at_next(v, l0, k as nat);
            assert(order@.map_values(|i: usize| i as nat).take(end as int) =~= order@.map_values(|i: usize| i as nat).take(
                start as int,
            ) + lvl) by {
                assert(prefix =~= prefix.take(start as int) + prefix.skip(start as int));
            }
        }
        start = end;
        k = k + 1;
    }
    let mut r: Vec<usize> = Vec::new();
    let mut i: usize = 0;
    while i < start
        invariant
            i <= start,
            start <= order@.len(),
            r@ == order@.take(i as int),
            forall|q: int| 0 <= q < order@.len() ==> #[trigger] order@[q] < n,
            n == cpg@.nodes.len(),
        decreases start - i,
    {
        r.push(order[i]);
        i = i + 1;
        proof {
            assert(r@ =~= order@.take(i as int));
        }
    }
    proof {
        assert(r@.map_values(|i: usize| i as nat) =~= order@.map_values(|i: usize| i as nat).take(start as int));
    }
    r
}

/// Level `k + 1` of a walk is the next level of level `k`.
proof fn lemma_level_at_next(v: CpgView, level: Seq<nat>, k: nat)
    ensures
        level_at(v, level, k + 1) == next_level(v, level_at(v, level, k)),
    decreases k,
{
    assert(level_at(v, level, k + 1) == level_at(v, next_level(v, level), k));
    if k > 0 {
        lemma_level_at_next(v, next_level(v, level), (k - 1) as nat);
        assert(level_at(v, level, k) == level_at(v, next_level(v, level), (k - 1) as nat));
    }
}

/// The call-site nodes of the AST subtree of `root`, in breadth-first order
/// (see [`subtree`]).
pub fn collect_call_sites_in_subtree(cpg: &CodePropertyGraph, root: usize) -> (r: Vec<usize>)
    requires
        root < cpg@.nodes.len(),
    ensures
        r@.map_values(|i: usize| i as nat) == call_sites_among(cpg@, subtree(cpg@, root as nat)),
        forall|i: int| 0 <= i < r@.len() ==> #[trigger] r@[i] < cpg@.nodes.len(),
{
    let order = subtree_order(cpg, root);
    let ghost on = order@.map_values(|i: usize| i as nat);
    let mut r: Vec<usize> = Vec::new();
    let mut i: usize = 0;
    proof {
        assert(on.take(0) =~= Seq::<nat>::empty());
        assert(r@.map_values(|i: usize| i as nat) =~= Seq::<nat>::empty());
    }
    while i < order.len()
        invariant
            i <= order@.len(),
            on == order@.map_values(|i: usize| i as nat),
            r@.map_values(|i: usize| i as nat) == call_sites_among(cpg@, on.take(i as int)),
            forall|q: int| 0 <= q < order@.len() ==> #[trigger] order@[q] < cpg@.nodes.len(),
            forall|q: int| 0 <= q < r@.len() ==> #[trigger] r@[q] < cpg@.nodes.len(),
        decreases order@.len() - i,
    {
        let x = order[i];
        proof {
            assert(on.take(i as int + 1).drop_last() =~= on.take(i as int));
            assert(on[i as int] == x as nat);
        }
        if cpg.node(x).kind == NodeKind::CallSite {
            let ghost before = r@;
            r.push(x);
            proof {
                assert(r@.map_values(|i: usize| i as nat) =~= before.map_values(|i: usize| i as nat).push(x as nat));
            }
        }
        i = i + 1;
    }
    proof {
        assert(on.take(order@.len() as int) =~= on);
    }
    r
}

proof fn lemma_callers_prefix(v: CpgView, edges: Seq<(nat, nat, Edge)>, name: Seq<char>, e: int)
    requires
        0 <= e < edges.len(),
    ensures
        callers_spec(v, edges.take(e + 1), name) == ({
            let r = callers_spec(v, edges.take(e), name);
            let x = edges[e];
            if x.2 == Edge::Call && x.1 < v.nodes.len() && is_definition_kind(v.nodes[x.1 as int].kind) && has_name(
                v.nodes[x.1 as int],
                name,
            ) {
                match enclosing(v, x.0) {
                    Some(f) => r.push((f, x.1)),
                    None => r,
                }
            } else {
                r
            }
        }),
{
    assert(edges.take(e + 1).drop_last() =~= edges.take(e));
}

/// The functions that directly call a definition named `func_name`: for
/// each call edge (in index order) into a function or class of that name,
/// the function enclosing the call site (found by walking up AST parents)
/// and the definition.  Call sites outside any function are skipped.
pub fn callers_of<'a>(cpg: &'a CodePropertyGraph, func_name: &str) -> (r: Vec<(&'a Node, &'a Node)>)
    ensures
        ref_pair_views(r@) == pair_views(cpg@.nodes, callers_spec(cpg@, cpg@.edges, func_name@)),
{
    let _ = cpg.node_count();
    let edges = cpg.edge_list();
    let ghost es = cpg@.edges;
    let mut r: Vec<(&'a Node, &'a Node)> = Vec::new();
    let mut e: usize = 0;
    proof {
        assert(es.take(0) =~= Seq::<(nat, nat, Edge)>::empty());
        assert(ref_pair_views(r@) =~= pair_views(cpg@.nodes, callers_spec(cpg@, es.take(0), func_name@)));
    }
    while e < edges.len()
        invariant
            e <= edges@.len(),
            es == cpg@.edges,
            cpg_wf(cpg@),
            edges@.map_values(|x: (usize, usize, Edge)| triple_nat(x)) == es,
            ref_pair_views(r@) == pair_views(cpg@.nodes, callers_spec(cpg@, es.take(e as int), func_name@)),
        decreases edges@.len() - e,
    {
        let (a, b, kind) = edges[e];
        proof {
            lemma_callers_prefix(cpg@, es, func_name@, e as int);
            assert(es[e as int] == triple_nat(edges@[e as int]));
            assert(a < cpg@.nodes.len() && b < cpg@.nodes.len());
        }
        if kind == Edge::Call {
            let target = cpg.node(b);
            if is_definition(target.kind) && name_is(target, func_name) {
                match get_enclosing_function(cpg, a) {
                    Some(f) => {
                        let ghost before = r@;
                        proof {
                            lemma_enclosing_bound(cpg@, a as nat, (cpg@.nodes.len() + 1) as nat);
                        }
                        let caller = cpg.node(f);
                        r.push((caller, target));
                        proof {
                            assert(ref_pair_views(r@) =~= ref_pair_views(before).push((caller@, target@)));
                            assert(ref_pair_views(r@) =~= pair_views(
                                cpg@.nodes,
                                callers_spec(cpg@, es.take(e as int + 1), func_name@),
                            ));
                        }
                    },
                    None => {},
                }
            }
        }
        e = e + 1;
    }
    proof {
        assert(es.take(edges@.len() as int) =~= es);
    }
    r
}

/// What `enclosing_fn` finds is a node.
pub proof fn lemma_enclosing_bound(v: CpgView, x: nat, fuel: nat)
    ensures
        enclosing_fn(v, x, fuel) matches Some(f) ==> f < v.nodes.len(),
    decreases fuel,
{
    if fuel > 0 && x < v.nodes.len() && v.nodes[x as int].kind != NodeKind::Function {
        match ast_parent(v, x) {
            Some(p) => lemma_enclosing_bound(v, p, (fuel - 1) as nat),
            None => {},
        }
    }
}

/// One step up AST parents; a node without a parent stays where it is.
pub open spec fn parent_step(v: CpgView, y: nat) -> nat {
    match ast_parent(v, y) {
        Some(p) => p,
        None => y,
    }
}

/// The node reached from `x` after `k` steps up AST parents.
pub open spec fn walk_node(v: CpgView, x: nat, k: nat) -> nat
    decreases k,
{
    if k == 0 {
        x
    } else {
        walk_node(v, parent_step(v, x), (k - 1) as nat)
    }
}

/// Whether a walk up AST parents ends at node `y`: it is no node, a
/// function, or has no parent.
pub open spec fn walk_ends_at(v: CpgView, y: nat) -> bool {
    y >= v.nodes.len() || v.nodes[y as int].kind == NodeKind::Function || ast_parent(v, y) is None
}

proof fn lemma_walk_node_next(v: CpgView, x: nat, k: nat)
    ensures
        walk_node(v, x, k + 1) == parent_step(v, walk_node(v, x, k)),
    decreases k,
{
    if k > 0 {
        lemma_walk_node_next(v, parent_step(v, x), (k - 1) as nat);
    } else {
        assert(walk_node(v, parent_step(v, x), 0) == parent_step(v, x));
    }
}

proof fn lemma_walk_ends_stable(v: CpgView, x: nat, k: nat, m: nat)
    requires
        walk_ends_at(v, walk_node(v, x, k)),
        k < m,
    ensures
        enclosing_fn(v, x, m) == enclosing_fn(v, x, k + 1),
    decreases k,
{
    if k > 0 && !walk_ends_at(v, x) {
        let p = parent_step(v, x);
        lemma_walk_ends_stable(v, p, (k - 1) as nat, (m - 1) as nat);
    }
}

proof fn lemma_walk_exhausted(v: CpgView, x: nat, f: nat)
    requires
        forall|k: nat| k < f ==> !walk_ends_at(v, #[trigger] walk_node(v, x, k)),
    ensures
        enclosing_fn(v, x, f) is None,
    decreases f,
{
    if f > 0 {
        assert(!walk_ends_at(v, walk_node(v, x, 0)));
        let p = parent_step(v, x);
        assert forall|k: nat| k < f - 1 implies !walk_ends_at(v, #[trigger] walk_node(v, p, k)) by {
            assert(walk_node(v, x, k + 1) == walk_node(v, p, k));
        }
        lemma_walk_exhausted(v, p, (f - 1) as nat);
    }
}

proof fn lemma_walk_periodic(v: CpgView, x: nat, i: nat, d: nat, k: nat)
    requires
        d > 0,
        walk_node(v, x, i) == walk_node(v, x, i + d),
        k >= i,
    ensures
        walk_node(v, x, k + d) == walk_node(v, x, k),
    decreases k - i,
{
    if k > i {
        lemma_walk_periodic(v, x, i, d, (k - 1) as nat);
        lemma_walk_node_next(v, x, (k - 1) as nat);
        lemma_walk_node_next(v, x, (k - 1 + d) as nat);
    }
}

proof fn lemma_walk_never_ends(v: CpgView, x: nat, i: nat, j: nat, k: nat)
    requires
        i < j,
        walk_node(v, x, i) == walk_node(v, x, j),
        forall|t: nat| t < j ==> !walk_ends_at(v, #[trigger] walk_node(v, x, t)),
    ensures
        !walk_ends_at(v, walk_node(v, x, k)),
    decreases k,
{
    if k >= j {
        let d = (j - i) as nat;
        lemma_walk_periodic(v, x, i, d, (k - d) as nat);
        lemma_walk_never_ends(v, x, i, j, (k - d) as nat);
    }
}

/// Among more values than there are numbers below `n`, all below `n`, two
/// are equal.
proof fn lemma_pigeonhole(s: Seq<nat>, n: nat) -> (ij: (int, int))
    requires
        s.len() > n,
        forall|k: int| 0 <= k < s.len() ==> #[trigger] s[k] < n,
    ensures
        0 <= ij.0 < ij.1 < s.len(),
        s[ij.0] == s[ij.1],
{
    let t = Seq::new(s.len(), |k: int| s[k] as int);
    let range = vstd::set_lib::set_int_range(0, n as int);
    assert forall|y: int| t.to_set().contains(y) implies range.contains(y) by {
        let k = choose|k: int| 0 <= k < t.len() && t[k] == y;
        assert(s[k] < n);
    }
    vstd::set_lib::lemma_int_range(0, n as int);
    vstd::set_lib::lemma_len_subset(t.to_set(), range);
    if t.no_duplicates() {
        t.unique_seq_to_set();
        assert(false);
    }
    let (a, b) = choose|a: int, b: int| 0 <= a < t.len() && 0 <= b < t.len() && a != b && t[a] == t[b];
    if a < b {
        (a, b)
    } else {
        (b, a)
    }
}

/// A walk up AST parents from `x` that has not ended after one step per
/// node has met some node twice.
proof fn lemma_walk_repeats(v: CpgView, x: nat) -> (ij: (nat, nat))
    requires
        forall|k: nat| k <= v.nodes.len() ==> !walk_ends_at(v, #[trigger] walk_node(v, x, k)),
    ensures
        ij.0 < ij.1 <= v.nodes.len(),
        walk_node(v, x, ij.0) == walk_node(v, x, ij.1),
{
    let n = v.nodes.len();
    let s = Seq::new(n + 1, |k: int| walk_node(v, x, k as nat));
    assert forall|k: int| 0 <= k < s.len() implies #[trigger] s[k] < n by {
        assert(!walk_ends_at(v, walk_node(v, x, k as nat)));
    }
    let (i, j) = lemma_pigeonhole(s, n);
    (i as nat, j as nat)
}

/// A longer walk finds the same enclosing function: a walk up AST parents
/// either ends within one step per node, or repeats a node and never ends.
/// So the result of [`enclosing`] is what an unbounded walk finds whenever
/// that walk ends, and `None` when it does not.
pub proof fn lemma_enclosing_fuel(v: CpgView, x: nat, m: nat)
    requires
        m >= v.nodes.len() + 1,
    ensures
        enclosing_fn(v, x, m) == enclosing(v, x),
{
    let n = v.nodes.len();
    if exists|k: nat| k <= n && walk_ends_at(v, #[trigger] walk_node(v, x, k)) {
        let k = choose|k: nat| k <= n && walk_ends_at(v, #[trigger] walk_node(v, x, k));
        lemma_walk_ends_stable(v, x, k, m);
        lemma_walk_ends_stable(v, x, k, n + 1);
    } else {
        let (i, j) = lemma_walk_repeats(v, x);
        assert forall|k: nat| k < m implies !walk_ends_at(v, #[trigger] walk_node(v, x, k)) by {
            lemma_walk_never_ends(v, x, i, j, k);
        }
        assert forall|k: nat| k < n + 1 implies !walk_ends_at(v, #[trigger] walk_node(v, x, k)) by {
            lemma_walk_never_ends(v, x, i, j, k);
        }
        lemma_walk_exhausted(v, x, m);
        lemma_walk_exhausted(v, x, n + 1);
    }
}

proof fn lemma_next_level_contains(v: CpgView, level: Seq<nat>, z: nat, w: nat)
    requires
        level.contains(z),
        ast_children(v, z).contains(w),
    ensures
        next_level(v, level).contains(w),
    decreases level.len(),
{
    let init = level.drop_last();
    let kids = ast_children(v, level.last());
    if level.last() == z {
        let c = choose|c: int| 0 <= c < kids.len() && kids[c] == w;
        assert(next_level(v, level)[next_level(v, init).len() + c] == w);
    } else {
        let i = choose|i: int| 0 <= i < level.len() && level[i] == z;
        assert(init[i] == z);
        lemma_next_level_contains(v, init, z, w);
        let j = choose|j: int| 0 <= j < next_level(v, init).len() && next_level(v, init)[j] == w;
        assert(next_level(v, level)[j] == w);
    }
}

proof fn lemma_next_level_source(v: CpgView, level: Seq<nat>, w: nat) -> (z: nat)
    requires
        next_level(v, level).contains(w),
    ensures
        level.contains(z),
        ast_children(v, z).contains(w),
    decreases level.len(),
{
    let init = level.drop_last();
    let front = next_level(v, init);
    let kids = ast_children(v, level.last());
    let j = choose|j: int| 0 <= j < next_level(v, level).len() && next_level(v, level)[j] == w;
    assert(level.last() == level[level.len() - 1]);
    if j < front.len() {
        assert(front[j] == w);
        let z = lemma_next_level_source(v, init, w);
        let i = choose|i: int| 0 <= i < init.len() && init[i] == z;
        assert(level[i] == z);
        z
    } else {
        assert(kids[j - front.len()] == w);
        level.last()
    }
}

/// A node of level `k` of the walk from `root` ends a path of `k` AST-child
/// edges from `root` through the earlier levels.
proof fn lemma_level_path(v: CpgView, root: nat, k: nat, w: nat) -> (c: Seq<nat>)
    requires
        level_at(v, seq![root], k).contains(w),
    ensures
        c.len() == k + 1,
        c[0] == root,
        c[k as int] == w,
        forall|t: int| 0 <= t < k ==> ast_children(v, #[trigger] c[t]).contains(c[t + 1]),
        forall|t: int| 0 <= t <= k ==> level_at(v, seq![root], t as nat).contains(#[trigger] c[t]),
    decreases k,
{
    if k == 0 {
        assert(seq![root][0] == root);
        let i = choose|i: int| 0 <= i < seq![root].len() && seq![root][i] == w;
        seq![w]
    } else {
        lemma_level_at_next(v, seq![root], (k - 1) as nat);
        let z = lemma_next_level_source(v, level_at(v, seq![root], (k - 1) as nat), w);
        let c0 = lemma_level_path(v, root, (k - 1) as nat, z);
        let c = c0.push(w);
        assert forall|t: int| 0 <= t < k implies ast_children(v, #[trigger] c[t]).contains(c[t + 1]) by {
            if t < k - 1 {
                assert(c[t] == c0[t] && c[t + 1] == c0[t + 1]);
            }
        }
        assert forall|t: int| 0 <= t <= k implies level_at(v, seq![root], t as nat).contains(#[trigger] c[t]) by {
            if t < k {
                assert(c[t] == c0[t]);
            }
        }
        c
    }
}

proof fn lemma_level_empty_stays(v: CpgView, root: nat, k: nat, m: nat)
    requires
        level_at(v, seq![root], k).len() == 0,
        k <= m,
    ensures
        level_at(v, seq![root], m).len() == 0,
    decreases m - k,
{
    if m > k {
        lemma_level_empty_stays(v, root, k, (m - 1) as nat);
        lemma_level_at_next(v, seq![root], (m - 1) as nat);
    }
}

proof fn lemma_walk_levels_settle(v: CpgView, root: nat, k: nat, m: nat)
    requires
        level_at(v, seq![root], k).len() == 0,
        k <= m,
    ensures
        walk_levels(v, seq![root], m) == walk_levels(v, seq![root], k),
    decreases m - k,
{
    if m > k {
        lemma_walk_levels_settle(v, root, k, (m - 1) as nat);
        lemma_walk_levels_step(v, seq![root], (m - 1) as nat);
        lemma_level_empty_stays(v, root, k, (m - 1) as nat);
        assert(walk_levels(v, seq![root], m) =~= walk_levels(v, seq![root], (m - 1) as nat));
    }
}

/// Along a path of AST-child edges from `root` that meets a node twice, at
/// positions `i < j`, every level of the walk from position `i` on holds a
/// node of the repeating stretch.
proof fn lemma_cycle_levels(v: CpgView, root: nat, c: Seq<nat>, i: int, j: int, m: nat) -> (t: int)
    requires
        0 <= i < j < c.len(),
        c[i] == c[j],
        forall|t: int| 0 <= t < c.len() - 1 ==> ast_children(v, #[trigger] c[t]).contains(c[t + 1]),
        forall|t: int| 0 <= t < c.len() ==> level_at(v, seq![root], t as nat).contains(#[trigger] c[t]),
        m >= i,
    ensures
        i <= t < j,
        level_at(v, seq![root], m).contains(c[t]),
    decreases m - i,
{
    if m == i {
        assert(level_at(v, seq![root], i as nat).contains(c[i]));
        i
    } else {
        let t0 = lemma_cycle_levels(v, root, c, i, j, (m - 1) as nat);
        lemma_level_at_next(v, seq![root], (m - 1) as nat);
        assert(ast_children(v, c[t0]).contains(c[t0 + 1]));
        lemma_next_level_contains(v, level_at(v, seq![root], (m - 1) as nat), c[t0], c[t0 + 1]);
        if t0 + 1 < j {
            t0 + 1
        } else {
            i
        }
    }
}

/// A longer breadth-first walk gives the same subtree, or never drains.
/// When the level after one level per node is empty, every later level is
/// empty and a longer walk lists exactly [`subtree`]; otherwise a path of
/// AST-child edges from `root` meets some node twice and every later level
/// is non-empty, so a queue-driven walk of the subtree never ends.
pub proof fn lemma_subtree_fuel(v: CpgView, root: nat, m: nat)
    requires
        cpg_wf(v),
        root < v.nodes.len(),
        m >= v.nodes.len() + 1,
    ensures
        level_at(v, seq![root], v.nodes.len() + 1).len() == 0 ==> walk_levels(v, seq![root], m) == subtree(v, root),
        level_at(v, seq![root], v.nodes.len() + 1).len() > 0 ==> level_at(v, seq![root], m).len() > 0,
{
    let n = v.nodes.len();
    if level_at(v, seq![root], n + 1).len() == 0 {
        lemma_walk_levels_settle(v, root, n + 1, m);
    } else {
        let w = level_at(v, seq![root], n + 1)[0];
        assert(level_at(v, seq![root], n + 1).contains(w));
        let c = lemma_level_path(v, root, n + 1, w);
        assert forall|k: int| 0 <= k < c.len() implies #[trigger] c[k] < n by {
            if k > 0 {
                assert(ast_children(v, c[k - 1]).contains(c[k - 1 + 1]));
                lemma_incident_pick_bound(v, c[k - 1], false, Edge::AstChild, false);
            }
        }
        let (i, j) = lemma_pigeonhole(c, n);
        let t = lemma_cycle_levels(v, root, c, i, j, m);
        assert(level_at(v, seq![root], m).contains(c[t]));
    }
}

proof fn lemma_uncalled_prefix(v: CpgView, m: nat)
    ensures
        forall|k: int| 0 <= k < uncalled_functions(v, m).len() ==> #[trigger] uncalled_functions(v, m)[k] < m,
    decreases m,
{
    if m > 0 {
        lemma_uncalled_prefix(v, (m - 1) as nat);
        let r = uncalled_functions(v, (m - 1) as nat);
        assert forall|k: int| 0 <= k < uncalled_functions(v, m).len() implies #[trigger] uncalled_functions(v, m)[k] < m by {
            if k < r.len() {
                assert(uncalled_functions(v, m)[k] == r[k]);
            }
        }
    }
}

/// Whether some call edge ends at node `i` — written out over the edges.
pub open spec fn call_target(es: Seq<(nat, nat, Edge)>, i: nat) -> bool {
    exists|e: int| 0 <= e < es.len() && es[e].2 == Edge::Call && #[trigger] es[e].1 == i
}

proof fn lemma_is_called_calls(v: CpgView, i: nat)
    ensures
        is_called(v, i) == call_target(v.edges, i),
{
    if is_called(v, i) {
        let e = choose|e: int| 0 <= e < v.edges.len() && (#[trigger] v.edges[e]).2 == Edge::Call && v.edges[e].1 == i;
        assert(v.edges[e].1 == i);
    }
    if call_target(v.edges, i) {
        let e = choose|e: int| 0 <= e < v.edges.len() && v.edges[e].2 == Edge::Call && #[trigger] v.edges[e].1 == i;
        assert(v.edges[e].2 == Edge::Call);
    }
}

proof fn lemma_uncalled_exact(v: CpgView, m: nat)
    requires
        m <= v.nodes.len(),
    ensures
        forall|k: int|
            0 <= k < uncalled_functions(v, m).len() ==> {
                let i = #[trigger] uncalled_functions(v, m)[k];
                &&& i < m
                &&& v.nodes[i as int].kind == NodeKind::Function
                &&& !call_target(v.edges, i)
            },
        forall|i: nat|
            i < m && v.nodes[i as int].kind == NodeKind::Function && !call_target(v.edges, i) ==> #[trigger] uncalled_functions(
                v,
                m,
            ).contains(i),
        forall|j: int, k: int|
            0 <= j < k < uncalled_functions(v, m).len() ==> #[trigger] uncalled_functions(v, m)[j] < #[trigger] uncalled_functions(
                v,
                m,
            )[k],
    decreases m,
{
    if m > 0 {
        lemma_uncalled_exact(v, (m - 1) as nat);
        lemma_is_called_calls(v, (m - 1) as nat);
        let r = uncalled_functions(v, (m - 1) as nat);
        let u = uncalled_functions(v, m);
        assert forall|k: int| 0 <= k < u.len() implies {
            let i = #[trigger] u[k];
            &&& i < m
            &&& v.nodes[i as int].kind == NodeKind::Function
            &&& !call_target(v.edges, i)
        } by {
            if k < r.len() {
                assert(u[k] == r[k]);
            }
        }
        assert forall|i: nat| i < m && v.nodes[i as int].kind == NodeKind::Function && !call_target(v.edges, i) implies #[trigger] u.contains(
            i,
        ) by {
            if i < m - 1 {
                assert(r.contains(i));
                let k = choose|k: int| 0 <= k < r.len() && r[k] == i;
                assert(u[k] == i);
            } else {
                assert(u[u.len() - 1] == i);
            }
        }
        assert forall|j: int, k: int| 0 <= j < k < u.len() implies #[trigger] u[j] < #[trigger] u[k] by {
            if k < r.len() {
                assert(u[j] == r[j] && u[k] == r[k]);
            } else {
                assert(u[j] == r[j]);
            }
        }
    }
}

/// The unused functions are exactly the function nodes that no call edge
/// reaches, each once and in index order; edges of other kinds play no part.
pub proof fn lemma_unused_exact(v: CpgView)
    ensures
        forall|k: int|
            0 <= k < uncalled_functions(v, v.nodes.len()).len() ==> {
                let i = #[trigger] uncalled_functions(v, v.nodes.len())[k];
                &&& i < v.nodes.len()
                &&& v.nodes[i as int].kind == NodeKind::Function
                &&& !call_target(v.edges, i)
            },
        forall|i: nat|
            i < v.nodes.len() && v.nodes[i as int].kind == NodeKind::Function && !call_target(v.edges, i)
                ==> #[trigger] uncalled_functions(v, v.nodes.len()).contains(i),
        forall|j: int, k: int|
            0 <= j < k < uncalled_functions(v, v.nodes.len()).len() ==> #[trigger] uncalled_functions(v, v.nodes.len())[j]
                < #[trigger] uncalled_functions(v, v.nodes.len())[k],
{
    lemma_uncalled_exact(v, v.nodes.len());
}

proof fn lemma_uncalled_other_edge(v: CpgView, e: (nat, nat, Edge), m: nat)
    requires
        e.2 != Edge::Call,
    ensures
        uncalled_functions(CpgView { nodes: v.nodes, edges: v.edges.push(e) }, m) == uncalled_functions(v, m),
    decreases m,
{
    if m > 0 {
        let w = CpgView { nodes: v.nodes, edges: v.edges.push(e) };
        lemma_uncalled_other_edge(v, e, (m - 1) as nat);
        lemma_is_called_calls(v, (m - 1) as nat);
        lemma_is_called_calls(w, (m - 1) as nat);
        let i = (m - 1) as nat;
        if call_target(w.edges, i) {
            let d = choose|d: int| 0 <= d < w.edges.len() && w.edges[d].2 == Edge::Call && #[trigger] w.edges[d].1 == i;
            assert(d < v.edges.len());
            assert(v.edges[d] == w.edges[d]);
        }
        if call_target(v.edges, i) {
            let d = choose|d: int| 0 <= d < v.edges.len() && v.edges[d].2 == Edge::Call && #[trigger] v.edges[d].1 == i;
            assert(w.edges[d] == v.edges[d]);
        }
    }
}

/// Adding an edge that is not a call edge changes no unused function.
pub proof fn lemma_unused_ignores_other_edges(v: CpgView, e: (nat, nat, Edge))
    requires
        e.2 != Edge::Call,
    ensures
        uncalled_functions(CpgView { nodes: v.nodes, edges: v.edges.push(e) }, v.nodes.len()) == uncalled_functions(
            v,
            v.nodes.len(),
        ),
{
    lemma_uncalled_other_edge(v, e, v.nodes.len());
}

proof fn lemma_enclosing_function(v: CpgView, x: nat, fuel: nat)
    ensures
        enclosing_fn(v, x, fuel) matches Some(f) ==> f < v.nodes.len() && v.nodes[f as int].kind == NodeKind::Function,
    decreases fuel,
{
    if fuel > 0 && x < v.nodes.len() && v.nodes[x as int].kind != NodeKind::Function {
        match ast_parent(v, x) {
            Some(p) => lemma_enclosing_function(v, p, (fuel - 1) as nat),
            None => {},
        }
    }
}

/// A call edge into a function or class named `name` whose call site has
/// an enclosing function `f`.
pub open spec fn call_into_named(v: CpgView, e: (nat, nat, Edge), name: Seq<char>, f: nat) -> bool {
    &&& e.2 == Edge::Call
    &&& e.1 < v.nodes.len()
    &&& (v.nodes[e.1 as int].kind == NodeKind::Function || v.nodes[e.1 as int].kind == NodeKind::Class)
    &&& v.nodes[e.1 as int].name == Some(name)
    &&& enclosing(v, e.0) == Some(f)
}

proof fn lemma_callers_from(v: CpgView, es: Seq<(nat, nat, Edge)>, name: Seq<char>)
    ensures
        forall|k: int|
            0 <= k < callers_spec(v, es, name).len() ==> {
                let p = #[trigger] callers_spec(v, es, name)[k];
                &&& p.0 < v.nodes.len()
                &&& v.nodes[p.0 as int].kind == NodeKind::Function
                &&& exists|j: int| 0 <= j < es.len() && es[j].1 == p.1 && #[trigger] call_into_named(v, es[j], name, p.0)
            },
        forall|j: int, f: nat|
            0 <= j < es.len() && #[trigger] call_into_named(v, es[j], name, f) ==> callers_spec(v, es, name).contains(
                (f, es[j].1),
            ),
    decreases es.len(),
{
    if es.len() > 0 {
        let init = es.drop_last();
        lemma_callers_from(v, init, name);
        let r = callers_spec(v, init, name);
        let u = callers_spec(v, es, name);
        let e = es.last();
        lemma_enclosing_function(v, e.0, v.nodes.len() + 1);
        assert(es[es.len() - 1] == e);
        assert forall|k: int| 0 <= k < u.len() implies {
            let p = #[trigger] u[k];
            &&& p.0 < v.nodes.len()
            &&& v.nodes[p.0 as int].kind == NodeKind::Function
            &&& exists|j: int| 0 <= j < es.len() && es[j].1 == p.1 && #[trigger] call_into_named(v, es[j], name, p.0)
        } by {
            if k < r.len() {
                assert(u[k] == r[k]);
                let p = r[k];
                let j = choose|j: int| 0 <= j < init.len() && init[j].1 == p.1 && #[trigger] call_into_named(v, init[j], name, p.0);
                assert(es[j] == init[j]);
            } else {
                assert(call_into_named(v, es[es.len() - 1], name, u[k].0));
            }
        }
        assert forall|j: int, f: nat| 0 <= j < es.len() && #[trigger] call_into_named(v, es[j], name, f) implies u.contains(
            (f, es[j].1),
        ) by {
            if j < init.len() {
                assert(init[j] == es[j]);
                assert(call_into_named(v, init[j], name, f));
                assert(r.contains((f, es[j].1)));
                let k = choose|k: int| 0 <= k < r.len() && r[k] == (f, es[j].1);
                assert(u[k] == r[k]);
            } else {
                assert(u[u.len() - 1] == (f, es[j].1));
            }
        }
    }
}

/// The callers of `name` are exactly the pairs (enclosing function, callee)
/// of the call edges into a function or class named `name` whose call site
/// lies in a function: each pair listed comes from such an edge, its first
/// node is a function, and every such edge gives its pair.
pub proof fn lemma_callers_exact(v: CpgView, name: Seq<char>)
    ensures
        forall|k: int|
            0 <= k < callers_spec(v, v.edges, name).len() ==> {
                let p = #[trigger] callers_spec(v, v.edges, name)[k];
                &&& p.0 < v.nodes.len()
                &&& v.nodes[p.0 as int].kind == NodeKind::Function
                &&& exists|j: int| 0 <= j < v.edges.len() && v.edges[j].1 == p.1 && #[trigger] call_into_named(v, v.edges[j], name, p.0)
            },
        forall|j: int, f: nat|
            0 <= j < v.edges.len() && #[trigger] call_into_named(v, v.edges[j], name, f) ==> callers_spec(v, v.edges, name).contains(
                (f, v.edges[j].1),
            ),
{
    lemma_callers_from(v, v.edges, name);
}

proof fn lemma_pick_targets(recs: Seq<(nat, nat, nat, Edge)>, k: Edge)
    ensures
        forall|i: int|
            0 <= i < pick(recs, k, false).len() ==> exists|r: int|
                0 <= r < recs.len() && recs[r].3 == k && recs[r].2 == #[trigger] pick(recs, k, false)[i],
    decreases recs.len(),
{
    if recs.len() > 0 {
        let init = recs.drop_last();
        lemma_pick_targets(init, k);
        let p = pick(init, k, false);
        assert forall|i: int| 0 <= i < pick(recs, k, false).len() implies exists|r: int|
            0 <= r < recs.len() && recs[r].3 == k && recs[r].2 == #[trigger] pick(recs, k, false)[i] by {
            if i < p.len() {
                assert(pick(recs, k, false)[i] == p[i]);
                let r = choose|r: int| 0 <= r < init.len() && init[r].3 == k && init[r].2 == p[i];
                assert(recs[r] == init[r]);
            } else {
                assert(recs[recs.len() - 1] == recs.last());
            }
        }
    }
}

/// A call edge from call site `c` to `t`.
pub open spec fn call_edge_from(es: Seq<(nat, nat, Edge)>, c: nat, t: nat) -> bool {
    exists|j: int| 0 <= j < es.len() && #[trigger] es[j] == (c, t, Edge::Call)
}

proof fn lemma_call_site_targets(v: CpgView, c: nat)
    ensures
        forall|i: int|
            0 <= i < pick(incident(v.edges, c, false), Edge::Call, false).len() ==> call_edge_from(
                v.edges,
                c,
                #[trigger] pick(incident(v.edges, c, false), Edge::Call, false)[i],
            ),
{
    let recs = incident(v.edges, c, false);
    lemma_pick_targets(recs, Edge::Call);
    lemma_incident_records(v.edges, c, false);
    assert forall|i: int| 0 <= i < pick(recs, Edge::Call, false).len() implies call_edge_from(
        v.edges,
        c,
        #[trigger] pick(recs, Edge::Call, false)[i],
    ) by {
        let t = pick(recs, Edge::Call, false)[i];
        let r = choose|r: int| 0 <= r < recs.len() && recs[r].3 == Edge::Call && recs[r].2 == t;
        let rec = recs[r];
        assert(v.edges[rec.0 as int] == (rec.1, rec.2, rec.3));
        assert(crate::graph::endpoint(v.edges[rec.0 as int], false) == c);
        assert(v.edges[rec.0 as int] == (c, t, Edge::Call));
    }
}

proof fn lemma_callees_from(v: CpgView, sites: Seq<nat>)
    ensures
        forall|k: int|
            0 <= k < callees_from(v, sites).len() ==> {
                let p = #[trigger] callees_from(v, sites)[k];
                &&& sites.contains(p.1)
                &&& call_edge_from(v.edges, p.1, p.0)
            },
    decreases sites.len(),
{
    if sites.len() > 0 {
        let init = sites.drop_last();
        let c = sites.last();
        lemma_callees_from(v, init);
        lemma_call_site_targets(v, c);
        let a = callees_from(v, init);
        let b = pick(incident(v.edges, c, false), Edge::Call, false).map_values(|t: nat| (t, c));
        assert forall|k: int| 0 <= k < callees_from(v, sites).len() implies {
            let p = #[trigger] callees_from(v, sites)[k];
            &&& sites.contains(p.1)
            &&& call_edge_from(v.edges, p.1, p.0)
        } by {
            if k < a.len() {
                assert(callees_from(v, sites)[k] == a[k]);
                let q = choose|q: int| 0 <= q < init.len() && init[q] == a[k].1;
                assert(sites[q] == init[q]);
            } else {
                let i = k - a.len();
                assert(callees_from(v, sites)[k] == b[i]);
                assert(b[i] == (pick(incident(v.edges, c, false), Edge::Call, false)[i], c));
                assert(sites[sites.len() - 1] == c);
            }
        }
    }
}

proof fn lemma_call_sites_among(v: CpgView, idxs: Seq<nat>)
    ensures
        forall|k: int|
            0 <= k < call_sites_among(v, idxs).len() ==> idxs.contains(#[trigger] call_sites_among(v, idxs)[k])
                && v.nodes[call_sites_among(v, idxs)[k] as int].kind == NodeKind::CallSite,
    decreases idxs.len(),
{
    if idxs.len() > 0 {
        let init = idxs.drop_last();
        lemma_call_sites_among(v, init);
        let r = call_sites_among(v, init);
        assert forall|k: int| 0 <= k < call_sites_among(v, idxs).len() implies idxs.contains(
            #[trigger] call_sites_among(v, idxs)[k],
        ) && v.nodes[call_sites_among(v, idxs)[k] as int].kind == NodeKind::CallSite by {
            if k < r.len() {
                assert(call_sites_among(v, idxs)[k] == r[k]);
                let q = choose|q: int| 0 <= q < init.len() && init[q] == r[k];
                assert(idxs[q] == init[q]);
            } else {
                assert(idxs[idxs.len() - 1] == idxs.last());
            }
        }
    }
}

/// Each callee pair (callee, call site) of `name` comes from a call edge
/// leaving a call-site node of the AST subtree of the first function named
/// `name`.
pub proof fn lemma_callees_are_calls(v: CpgView, name: Seq<char>)
    ensures
        forall|k: int|
            0 <= k < callees_spec(v, name).len() ==> {
                let p = #[trigger] callees_spec(v, name)[k];
                &&& call_edge_from(v.edges, p.1, p.0)
                &&& v.nodes[p.1 as int].kind == NodeKind::CallSite
                &&& exists|f: nat| first_function_named(v, name) == Some(f) && subtree(v, f).contains(p.1)
            },
{
    match first_function_named(v, name) {
        Some(f) => {
            let sites = call_sites_among(v, subtree(v, f));
            lemma_call_sites_among(v, subtree(v, f));
            lemma_callees_from(v, sites);
            assert forall|k: int| 0 <= k < callees_spec(v, name).len() implies {
                let p = #[trigger] callees_spec(v, name)[k];
                &&& call_edge_from(v.edges, p.1, p.0)
                &&& v.nodes[p.1 as int].kind == NodeKind::CallSite
                &&& exists|f: nat| first_function_named(v, name) == Some(f) && subtree(v, f).contains(p.1)
            } by {
                let p = callees_from(v, sites)[k];
                let q = choose|q: int| 0 <= q < sites.len() && sites[q] == p.1;
                assert(subtree(v, f).contains(sites[q]));
            }
        },
        None => {},
    }
}

/// All function nodes that no call edge reaches, in index order.  Only
/// direct calls count; calls through function pointers or references are
/// not seen.
pub fn unused_functions<'a>(cpg: &'a CodePropertyGraph) -> (r: Vec<&'a Node>)
    ensures
        ref_views(r@) == views_at(cpg@.nodes, uncalled_functions(cpg@, cpg@.nodes.len())),
{
    let n = cpg.node_count();
    let edges = cpg.edge_list();
    let ghost es = cpg@.edges;
    let mut called: Vec<bool> = Vec::new();
    let mut i: usize = 0;
    while i < n
        invariant
            i <= n,
            called@.len() == i,
            forall|q: int| 0 <= q < i ==> !(#[trigger] called@[q]),
        decreases n - i,
    {
        called.push(false);
        i = i + 1;
    }
    let mut e: usize = 0;
    while e < edges.len()
        invariant
            e <= edges@.len(),
            n == cpg@.nodes.len(),
            es == cpg@.edges,
            cpg_wf(cpg@),
            edges@.map_values(|x: (usize, usize, Edge)| triple_nat(x)) == es,
            called@.len() == n,
            forall|q: int|
                0 <= q < n ==> (#[trigger] called@[q] <==> exists|d: int|
                    0 <= d < e && (#[trigger] es[d]).2 == Edge::Call && es[d].1 == q),
        decreases edges@.len() - e,
    {
        let (_a, b, kind) = edges[e];
        proof {
            assert(es[e as int] == triple_nat(edges@[e as int]));
        }
        if kind == Edge::Call {
            called.set(b, true);
        }
        proof {
            assert forall|q: int| 0 <= q < n implies (#[trigger] called@[q] <==> exists|d: int|
                0 <= d < e + 1 && (#[trigger] es[d]).2 == Edge::Call && es[d].1 == q) by {
                if called@[q] && !(exists|d: int| 0 <= d < e && (#[trigger] es[d]).2 == Edge::Call && es[d].1 == q) {
                    assert(es[e as int].2 == Edge::Call && es[e as int].1 == q);
                }
            }
        }
        e = e + 1;
    }
    let mut r: Vec<&'a Node> = Vec::new();
    let mut i: usize = 0;
    proof {
        assert(ref_views(r@) =~= views_at(cpg@.nodes, uncalled_functions(cpg@, 0)));
    }
    while i < n
        invariant
            i <= n,
            n == cpg@.nodes.len(),
            es == cpg@.edges,
            called@.len() == n,
            forall|q: int| 0 <= q < n ==> (#[trigger] called@[q] <==> is_called(cpg@, q as nat)),
            ref_views(r@) == views_at(cpg@.nodes, uncalled_functions(cpg@, i as nat)),
        decreases n - i,
    {
        let node = cpg.node(i);
        if node.kind == NodeKind::Function && !called[i] {
            let ghost before = r@;
            r.push(node);
            proof {
                assert(ref_views(r@) =~= ref_views(before).push(node@));
                assert(ref_views(r@) =~= views_at(cpg@.nodes, uncalled_functions(cpg@, i as nat + 1)));
            }
        }
        i = i + 1;
    }
    r
}

/// The nodes that `select` lists for a prefix of the nodes start what it
/// lists for all of them.
pub proof fn lemma_select_take(nodes: Seq<NodeView>, kind: Option<NodeKind>, name: Option<Seq<char>>, j: int)
    requires
        0 <= j <= nodes.len(),
    ensures
        select(nodes.take(j), kind, name).len() <= select(nodes, kind, name).len(),
        forall|k: int|
            0 <= k < select(nodes.take(j), kind, name).len() ==> #[trigger] select(nodes.take(j), kind, name)[k]
                == select(nodes, kind, name)[k],
    decreases nodes.len() - j,
{
    if j < nodes.len() {
        lemma_select_take(nodes, kind, name, j + 1);
        lemma_select_prefix(nodes, kind, name, j);
        let a = select(nodes.take(j), kind, name);
        let b = select(nodes.take(j + 1), kind, name);
        assert forall|k: int| 0 <= k < a.len() implies #[trigger] a[k] == select(nodes, kind, name)[k] by {
            assert(a[k] == b[k]);
        }
    } else {
        assert(nodes.take(j) =~= nodes);
    }
}

/// The index of the first function node named `name`.
fn first_function_index(cpg: &CodePropertyGraph, name: &str) -> (r: Option<usize>)
    ensures
        match r {
            Some(i) => first_function_named(cpg@, name@) == Some(i as nat),
            None => first_function_named(cpg@, name@) is None,
        },
{
    let n = cpg.node_count();
    let ghost kind = Some(NodeKind::Function);
    let ghost nm = Some(name@);
    let mut i: usize = 0;
    proof {
        assert(cpg@.nodes.take(0) =~= Seq::<NodeView>::empty());
    }
    while i < n
        invariant
            i <= n,
            n == cpg@.nodes.len(),
            kind == Some(NodeKind::Function),
            nm == Some(name@),
            select(cpg@.nodes.take(i as int), kind, nm).len() == 0,
        decreases n - i,
    {
        let node = cpg.node(i);
        proof {
            lemma_select_prefix(cpg@.nodes, kind, nm, i as int);
        }
        if node.kind == NodeKind::Function && name_is(node, name) {
            proof {
                lemma_select_take(cpg@.nodes, kind, nm, i as int + 1);
                assert(select(cpg@.nodes.take(i as int + 1), kind, nm)[0] == i as nat);
            }
            return Some(i);
        }
        i = i + 1;
    }
    proof {
        assert(cpg@.nodes.take(n as int) =~= cpg@.nodes);
    }
    None
}

/// The functions that a function named `func_name` directly calls: the
/// first function node of that name is taken, the call sites of its AST
/// subtree are collected in breadth-first order, and for each of them the
/// targets of its call edges (most recently added first) are reported
/// with the call site, as (callee, call site).
pub fn callees_of<'a>(cpg: &'a CodePropertyGraph, func_name: &str) -> (r: Vec<(&'a Node, &'a Node)>)
    ensures
        ref_pair_views(r@) == pair_views(cpg@.nodes, callees_spec(cpg@, func_name@)),
{
    let caller = match first_function_index(cpg, func_name) {
        Some(i) => i,
        None => {
            return Vec::new();
        },
    };
    proof {
        let s = select(cpg@.nodes, Some(NodeKind::Function), Some(func_name@));
        lemma_select_bounds(cpg@.nodes, Some(NodeKind::Function), Some(func_name@));
        assert(s[0] < cpg@.nodes.len());
    }
    let sites = collect_call_sites_in_subtree(cpg, caller);
    let ghost sn = sites@.map_values(|i: usize| i as nat);
    let mut r: Vec<(&'a Node, &'a Node)> = Vec::new();
    let mut i: usize = 0;
    proof {
        assert(sn.take(0) =~= Seq::<nat>::empty());
        assert(ref_pair_views(r@) =~= pair_views(cpg@.nodes, callees_from(cpg@, sn.take(0))));
    }
    while i < sites.len()
        invariant
            i <= sites@.len(),
            sn == sites@.map_values(|i: usize| i as nat),
            forall|q: int| 0 <= q < sites@.len() ==> #[trigger] sites@[q] < cpg@.nodes.len(),
            ref_pair_views(r@) == pair_views(cpg@.nodes, callees_from(cpg@, sn.take(i as int))),
        decreases sites@.len() - i,
    {
        let c = sites[i];
        let targets = neighbours(cpg, c, Edge::Call, false);
        let ghost tn = targets@.map_values(|i: usize| i as nat);
        let ghost base = r@;
        let site = cpg.node(c);
        let mut j: usize = 0;
        proof {
            assert(sn.take(i as int + 1).drop_last() =~= sn.take(i as int));
            assert(sn[i as int] == c as nat);
            assert(tn.take(0).map_values(|t: nat| (t, c as nat)) =~= Seq::<(nat, nat)>::empty());
            assert(ref_pair_views(r@) =~= ref_pair_views(base) + pair_views(
                cpg@.nodes,
                tn.take(0).map_values(|t: nat| (t, c as nat)),
            ));
        }
        while j < targets.len()
            invariant
                j <= targets@.len(),
                tn == targets@.map_values(|i: usize| i as nat),
                forall|q: int| 0 <= q < targets@.len() ==> #[trigger] targets@[q] < cpg@.nodes.len(),
                site@ == cpg@.nodes[c as int],
                c < cpg@.nodes.len(),
                ref_pair_views(r@) == ref_pair_views(base) + pair_views(
                    cpg@.nodes,
                    tn.take(j as int).map_values(|t: nat| (t, c as nat)),
                ),
            decreases targets@.len() - j,
        {
            let t = targets[j];
            let callee = cpg.node(t);
            let ghost before = r@;
            r.push((callee, site));
            j = j + 1;
            proof {
                assert(tn[j - 1] == t as nat);
                assert(ref_pair_views(r@) =~= ref_pair_views(before).push((callee@, site@)));
                assert(pair_views(cpg@.nodes, tn.take(j as int).map_values(|t: nat| (t, c as nat))) =~= pair_views(
                    cpg@.nodes,
                    tn.take(j - 1).map_values(|t: nat| (t, c as nat)),
                ).push((cpg@.nodes[t as int], cpg@.nodes[c as int])));
                assert(ref_pair_views(r@) =~= ref_pair_views(base) + pair_views(
                    cpg@.nodes,
                    tn.take(j as int).map_values(|t: nat| (t, c as nat)),
                ));
            }
        }
        i = i + 1;
        proof {
            assert(tn.take(j as int) =~= tn);
            assert(pair_views(cpg@.nodes, callees_from(cpg@, sn.take(i as int))) =~= pair_views(
                cpg@.nodes,
                callees_from(cpg@, sn.take(i - 1)),
            ) + pair_views(cpg@.nodes, tn.map_values(|t: nat| (t, c as nat))));
        }
    }
    proof {
        assert(sn.take(sites@.len() as int) =~= sn);
    }
    r
}

} // verus!
