//! The code property graph: nodes for definitions, call sites and other
//! facts, connected by AST-child, call and reference edges.
//!
//! The graph lives in a `petgraph::stable_graph::StableGraph`.  This library
//! only ever adds nodes and edges, so node and edge indices are dense:
//! node `i` is the `i`-th node added and edge `e` the `e`-th edge added.

use vstd::prelude::*;
use crate::common::NodeKind;
use petgraph::stable_graph::StableGraph;
use petgraph::visit::{EdgeRef, IntoEdgeReferences};

verus! {

#[verifier::external_type_specification]
#[verifier::external_body]
#[verifier::reject_recursive_types(N)]
#[verifier::reject_recursive_types(E)]
#[verifier::reject_recursive_types(Ty)]
#[verifier::reject_recursive_types(Ix)]
pub struct ExStableGraph<N, E, Ty, Ix>(StableGraph<N, E, Ty, Ix>);

#[verifier::external_type_specification]
#[verifier::external_body]
pub struct ExDirected(petgraph::Directed);

/// Edge kinds.
#[derive(Debug, Clone, Copy, PartialEq, Eq, Structural)]
pub enum Edge {
    AstChild,
    Call,
    Reference,
}

/// A node of the code property graph.
#[derive(Debug, Clone)]
pub struct Node {
    pub kind: NodeKind,
    pub name: Option<String>,
    pub usr: Option<String>,
    pub start_line: usize,
    pub end_line: usize,
}

/// The mathematical value of a [`Node`].
pub struct NodeView {
    pub kind: NodeKind,
    pub name: Option<Seq<char>>,
    pub usr: Option<Seq<char>>,
    pub start_line: nat,
    pub end_line: nat,
}

impl View for Node {
    type V = NodeView;

    open spec fn view(&self) -> NodeView {
        NodeView {
            kind: self.kind,
            name: self.name.deep_view(),
            usr: self.usr.deep_view(),
            start_line: self.start_line as nat,
            end_line: self.end_line as nat,
        }
    }
}

impl Node {
    /// A copy of this node.
    pub fn duplicate(&self) -> (r: Node)
        ensures
            r == *self,
            r@ == self@,
    {
        let name = match &self.name {
            Some(s) => Some(s.clone()),
            None => None,
        };
        let usr = match &self.usr {
            Some(s) => Some(s.clone()),
            None => None,
        };
        Node { kind: self.kind, name, usr, start_line: self.start_line, end_line: self.end_line }
    }
}

/// The node slots of a stable graph, in index order (`None` for a vacant
/// slot).
pub uninterp spec fn node_slots(g: StableGraph<Node, Edge>) -> Seq<Option<Node>>;

/// The edge slots of a stable graph, in index order, as (source, target,
/// weight) (`None` for a vacant slot).
pub uninterp spec fn edge_slots(g: StableGraph<Node, Edge>) -> Seq<Option<(nat, nat, Edge)>>;

/// Whether no node and no edge was ever removed from the graph.
pub uninterp spec fn append_only(g: StableGraph<Node, Edge>) -> bool;

/// The contents of the occupied slots.
pub open spec fn occupied<T>(s: Seq<Option<T>>) -> Seq<T> {
    s.map_values(|o: Option<T>| o->0)
}

/// No vacant slot.
pub open spec fn all_some<T>(s: Seq<Option<T>>) -> bool {
    forall|i: int| 0 <= i < s.len() ==> (#[trigger] s[i]) is Some
}

/// The endpoint of an edge on the given side: its target for incoming
/// edges, its source for outgoing ones.
pub open spec fn endpoint(t: (nat, nat, Edge), incoming: bool) -> nat {
    if incoming {
        t.1
    } else {
        t.0
    }
}

/// The edges of `es` with endpoint `a` on the given side, most recently
/// added first, as (edge index, source, target, kind).
pub open spec fn incident(es: Seq<(nat, nat, Edge)>, a: nat, incoming: bool) -> Seq<(nat, nat, nat, Edge)>
    decreases es.len(),
{
    if es.len() == 0 {
        seq![]
    } else {
        let last = es.last();
        let rest = incident(es.drop_last(), a, incoming);
        if endpoint(last, incoming) == a {
            seq![((es.len() - 1) as nat, last.0, last.1, last.2)] + rest
        } else {
            rest
        }
    }
}

/// A (index, source, target, kind) record with its integers as `nat`.
pub open spec fn record_nat(x: (usize, usize, usize, Edge)) -> (nat, nat, nat, Edge) {
    (x.0 as nat, x.1 as nat, x.2 as nat, x.3)
}

/// A (source, target, kind) triple with its integers as `nat`.
pub open spec fn triple_nat(x: (usize, usize, Edge)) -> (nat, nat, Edge) {
    (x.0 as nat, x.1 as nat, x.2)
}

/// `StableGraph::new`: no slots at all, and nothing removed.
#[verifier::external_body]
fn sg_new() -> (g: StableGraph<Node, Edge>)
    ensures
        node_slots(g) == Seq::<Option<Node>>::empty(),
        edge_slots(g) == Seq::<Option<(nat, nat, Edge)>>::empty(),
        append_only(g),
{
    StableGraph::new()
}

/// `StableGraph::add_node` on a graph that never lost a node: the node takes
/// the next index.  It panics when that index would be the `u32` end
/// marker, hence the bound.
#[verifier::external_body]
fn sg_add_node(g: &mut StableGraph<Node, Edge>, w: Node) -> (r: usize)
    requires
        append_only(*old(g)),
        node_slots(*old(g)).len() < u32::MAX,
    ensures
        r == node_slots(*old(g)).len(),
        node_slots(*final(g)) == node_slots(*old(g)).push(Some(w)),
        edge_slots(*final(g)) == edge_slots(*old(g)),
        append_only(*final(g)),
{
    g.add_node(w).index()
}

/// `StableGraph::add_edge` between occupied node slots on a graph that never
/// lost an edge: the edge takes the next index.  It panics on a missing
/// node and when the index would be the `u32` end marker, hence the bounds.
#[verifier::external_body]
fn sg_add_edge(g: &mut StableGraph<Node, Edge>, a: usize, b: usize, w: Edge) -> (r: usize)
    requires
        append_only(*old(g)),
        a < node_slots(*old(g)).len(),
        b < node_slots(*old(g)).len(),
        node_slots(*old(g))[a as int] is Some,
        node_slots(*old(g))[b as int] is Some,
        a < u32::MAX,
        b < u32::MAX,
        edge_slots(*old(g)).len() < u32::MAX,
    ensures
        r == edge_slots(*old(g)).len(),
        edge_slots(*final(g)) == edge_slots(*old(g)).push(Some((a as nat, b as nat, w))),
        node_slots(*final(g)) == node_slots(*old(g)),
        append_only(*final(g)),
{
    g.add_edge(petgraph::stable_graph::NodeIndex::new(a), petgraph::stable_graph::NodeIndex::new(b), w).index()
}

/// `StableGraph::node_count`: on a graph that never lost a node, the number
/// of node slots.
#[verifier::external_body]
fn sg_node_count(g: &StableGraph<Node, Edge>) -> (r: usize)
    ensures
        append_only(*g) ==> r == node_slots(*g).len(),
{
    g.node_count()
}

/// `StableGraph::edge_count`: on a graph that never lost an edge, the number
/// of edge slots.
#[verifier::external_body]
fn sg_edge_count(g: &StableGraph<Node, Edge>) -> (r: usize)
    ensures
        append_only(*g) ==> r == edge_slots(*g).len(),
{
    g.edge_count()
}

/// Indexing a stable graph by an occupied node index: that node's weight.
#[verifier::external_body]
fn sg_node(g: &StableGraph<Node, Edge>, i: usize) -> (r: &Node)
    requires
        i < node_slots(*g).len(),
        i < u32::MAX,
        node_slots(*g)[i as int] is Some,
    ensures
        Some(*r) == node_slots(*g)[i as int],
{
    &g[petgraph::stable_graph::NodeIndex::new(i)]
}

/// `StableGraph::edge_references`: the occupied edge slots in index order,
/// as (source, target, weight).  Stated for a graph that never lost an edge,
/// where every slot is occupied; vacant slots are skipped.
#[verifier::external_body]
fn sg_edge_references(g: &StableGraph<Node, Edge>) -> (r: Vec<(usize, usize, Edge)>)
    ensures
        append_only(*g) ==> r@.map_values(|x: (usize, usize, Edge)| triple_nat(x)) == occupied(edge_slots(*g)),
{
    g.edge_references().map(|e| (e.source().index(), e.target().index(), *e.weight())).collect()
}

/// `StableGraph::edges_directed` of node `a` (outgoing, or incoming when
/// `incoming`), as (edge index, source, target, weight).  The documentation
/// lists the edges of a directed graph in reverse order of their addition;
/// on a graph that never lost an edge that is decreasing index order.
#[verifier::external_body]
fn sg_edges_directed(g: &StableGraph<Node, Edge>, a: usize, incoming: bool) -> (r: Vec<(usize, usize, usize, Edge)>)
    requires
        a < u32::MAX,
    ensures
        append_only(*g) ==> r@.map_values(|x: (usize, usize, usize, Edge)| record_nat(x)) == incident(
            occupied(edge_slots(*g)),
            a as nat,
            incoming,
        ),
{
    let dir = if incoming {
        petgraph::Direction::Incoming
    } else {
        petgraph::Direction::Outgoing
    };
    g.edges_directed(petgraph::stable_graph::NodeIndex::new(a), dir).map(
        |e| (e.id().index(), e.source().index(), e.target().index(), *e.weight()),
    ).collect()
}

/// The mathematical value of a code property graph: its nodes and its
/// edges (source, target, kind) in index order.
pub struct CpgView {
    pub nodes: Seq<NodeView>,
    pub edges: Seq<(nat, nat, Edge)>,
}

/// Central code property graph container.
pub struct CodePropertyGraph {
    graph: StableGraph<Node, Edge>,
}

impl View for CodePropertyGraph {
    type V = CpgView;

    closed spec fn view(&self) -> CpgView {
        CpgView { nodes: occupied(node_slots(self.graph)).map_values(|n: Node| n@), edges: occupied(edge_slots(self.graph)) }
    }
}

/// Every edge joins existing nodes.
pub open spec fn edges_valid(v: CpgView) -> bool {
    forall|e: int|
        0 <= e < v.edges.len() ==> (#[trigger] v.edges[e]).0 < v.nodes.len() && v.edges[e].1 < v.nodes.len()
}

/// The graph's structural invariant, as its users see it: edges join
/// existing nodes and petgraph's 32-bit indices stay clear of its end marker.
pub open spec fn cpg_wf(v: CpgView) -> bool {
    &&& edges_valid(v)
    &&& v.nodes.len() <= u32::MAX
    &&& v.edges.len() <= u32::MAX
}

impl CodePropertyGraph {
    #[verifier::type_invariant]
    closed spec fn inv(self) -> bool {
        &&& append_only(self.graph)
        &&& all_some(node_slots(self.graph))
        &&& all_some(edge_slots(self.graph))
        &&& cpg_wf(self@)
    }

    /// An empty graph.
    pub fn new() -> (g: Self)
        ensures
            g@.nodes == Seq::<NodeView>::empty(),
            g@.edges == Seq::<(nat, nat, Edge)>::empty(),
    {
        let g = CodePropertyGraph { graph: sg_new() };
        proof {
            assert(g@.nodes =~= Seq::<NodeView>::empty());
            assert(g@.edges =~= Seq::<(nat, nat, Edge)>::empty());
        }
        g
    }

    /// The number of nodes.
    pub fn node_count(&self) -> (r: usize)
        ensures
            r == self@.nodes.len(),
            cpg_wf(self@),
    {
        proof {
            use_type_invariant(self);
        }
        sg_node_count(&self.graph)
    }

    /// The number of edges.
    pub fn edge_count(&self) -> (r: usize)
        ensures
            r == self@.edges.len(),
            cpg_wf(self@),
    {
        proof {
            use_type_invariant(self);
        }
        sg_edge_count(&self.graph)
    }

    /// Add a node; it gets the next index.  (petgraph refuses a node at the
    /// `u32` end marker, hence the bound.)
    pub fn add_node(&mut self, node: Node) -> (r: usize)
        requires
            old(self)@.nodes.len() < u32::MAX,
        ensures
            r == old(self)@.nodes.len(),
            final(self)@.nodes == old(self)@.nodes.push(node@),
            final(self)@.edges == old(self)@.edges,
            cpg_wf(final(self)@),
    {
        proof {
            use_type_invariant(&*self);
        }
        let ghost old_nodes = node_slots(self.graph);
        let mut g = sg_new();
        proof {
            assert(occupied(node_slots(g)) =~= Seq::<Node>::empty());
            assert(occupied(edge_slots(g)) =~= Seq::<(nat, nat, Edge)>::empty());
        }
        std::mem::swap(&mut g, &mut self.graph);
        let r = sg_add_node(&mut g, node);
        self.graph = g;
        proof {
            assert(occupied(node_slots(self.graph)) =~= occupied(old_nodes).push(node));
            assert(self@.nodes =~= occupied(old_nodes).map_values(|n: Node| n@).push(node@));
            assert forall|i: int| 0 <= i < node_slots(self.graph).len() implies (#[trigger] node_slots(
                self.graph,
            )[i]) is Some by {
                if i < old_nodes.len() {
                    assert(node_slots(self.graph)[i] == old_nodes[i]);
                }
            }
        }
        r
    }

    /// Add an edge between existing nodes; it gets the next index.
    /// (petgraph panics on a missing node and refuses an edge at the `u32`
    /// end marker, hence the bounds.)
    pub fn add_edge(&mut self, a: usize, b: usize, kind: Edge) -> (r: usize)
        requires
            a < old(self)@.nodes.len(),
            b < old(self)@.nodes.len(),
            old(self)@.edges.len() < u32::MAX,
        ensures
            r == old(self)@.edges.len(),
            final(self)@.edges == old(self)@.edges.push((a as nat, b as nat, kind)),
            final(self)@.nodes == old(self)@.nodes,
            cpg_wf(final(self)@),
    {
        proof {
            use_type_invariant(&*self);
        }
        let ghost old_edges = edge_slots(self.graph);
        let ghost old_nodes = node_slots(self.graph);
        assert(node_slots(self.graph)[a as int] is Some);
        assert(node_slots(self.graph)[b as int] is Some);
        let mut g = sg_new();
        proof {
            assert(occupied(node_slots(g)) =~= Seq::<Node>::empty());
            assert(occupied(edge_slots(g)) =~= Seq::<(nat, nat, Edge)>::empty());
        }
        std::mem::swap(&mut g, &mut self.graph);
        let r = sg_add_edge(&mut g, a, b, kind);
        proof {
            assert(occupied(edge_slots(g)) =~= occupied(old_edges).push((a as nat, b as nat, kind)));
            assert(occupied(node_slots(g)) =~= occupied(old_nodes));
            assert forall|i: int| 0 <= i < edge_slots(g).len() implies (#[trigger] edge_slots(g)[i]) is Some by {
                if i < old_edges.len() {
                    assert(edge_slots(g)[i] == old_edges[i]);
                }
            }
            let es = occupied(edge_slots(g));
            let n = occupied(node_slots(g)).len();
            assert forall|e: int| 0 <= e < es.len() implies (#[trigger] es[e]).0 < n && es[e].1 < n by {
                if e < old_edges.len() {
                    assert(es[e] == occupied(old_edges)[e]);
                }
            }
        }
        self.graph = g;
        r
    }

    /// The node with index `i`.
    pub fn node(&self, i: usize) -> (r: &Node)
        requires
            i < self@.nodes.len(),
        ensures
            r@ == self@.nodes[i as int],
    {
        proof {
            use_type_invariant(self);
        }
        sg_node(&self.graph, i)
    }

    /// All edges in index order, as (source, target, kind).
    pub fn edge_list(&self) -> (r: Vec<(usize, usize, Edge)>)
        ensures
            r@.map_values(|x: (usize, usize, Edge)| triple_nat(x)) == self@.edges,
    {
        proof {
            use_type_invariant(self);
        }
        sg_edge_references(&self.graph)
    }

    /// The edges leaving node `a` (or entering it, when `incoming`), most
    /// recently added first, as (edge index, source, target, kind).
    pub fn edges_directed(&self, a: usize, incoming: bool) -> (r: Vec<(usize, usize, usize, Edge)>)
        requires
            a < self@.nodes.len(),
        ensures
            r@.map_values(|x: (usize, usize, usize, Edge)| record_nat(x)) == incident(self@.edges, a as nat, incoming),
    {
        proof {
            use_type_invariant(self);
        }
        sg_edges_directed(&self.graph, a, incoming)
    }
}

/// A code property graph as plain lists, for storing and exchanging:
/// the nodes, and the edges as (source, target, kind).
pub struct GraphData {
    pub nodes: Vec<Node>,
    pub edges: Vec<(usize, usize, Edge)>,
}

impl GraphData {
    /// The nodes and edges of a graph, in index order.
    pub fn from_cpg(cpg: &CodePropertyGraph) -> (r: GraphData)
        ensures
            r.nodes@.map_values(|n: Node| n@) == cpg@.nodes,
            r.edges@.map_values(|x: (usize, usize, Edge)| triple_nat(x)) == cpg@.edges,
    {
        let n = cpg.node_count();
        let mut nodes: Vec<Node> = Vec::new();
        let mut i: usize = 0;
        while i < n
            invariant
                i <= n,
                n == cpg@.nodes.len(),
                nodes@.map_values(|n: Node| n@) == cpg@.nodes.take(i as int),
            decreases n - i,
        {
            let node = cpg.node(i).duplicate();
            let ghost prev = nodes@;
            nodes.push(node);
            i = i + 1;
            proof {
                assert(nodes@.map_values(|n: Node| n@) =~= prev.map_values(|n: Node| n@).push(cpg@.nodes[i - 1]));
                assert(nodes@.map_values(|n: Node| n@) =~= cpg@.nodes.take(i as int));
            }
        }
        proof {
            assert(cpg@.nodes.take(n as int) =~= cpg@.nodes);
        }
        GraphData { nodes, edges: cpg.edge_list() }
    }
}

/// Whether every edge of a node/edge list joins listed nodes.
pub open spec fn data_edges_valid(n: nat, edges: Seq<(usize, usize, Edge)>) -> bool {
    forall|e: int| 0 <= e < edges.len() ==> (#[trigger] edges[e]).0 < n && edges[e].1 < n
}

impl CodePropertyGraph {
    /// The graph with the listed nodes and edges, in order.  A list whose
    /// edges leave the listed nodes, or that holds more nodes or edges than
    /// petgraph's 32-bit indices allow, is refused with a graph error.
    pub fn from_data(data: GraphData) -> (r: Result<CodePropertyGraph, crate::common::IcbError>)
        ensures
            match r {
                Ok(g) => g@.nodes == data.nodes@.map_values(|n: Node| n@) && g@.edges == data.edges@.map_values(
                    |x: (usize, usize, Edge)| triple_nat(x),
                ),
                Err(e) => e is Graph && !(data.nodes@.len() <= u32::MAX && data.edges@.len() <= u32::MAX
                    && data_edges_valid(data.nodes@.len(), data.edges@)),
            },
    {
        let nn = data.nodes.len();
        let ne = data.edges.len();
        if nn > 4294967295 || ne > 4294967295 {
            return Err(crate::common::IcbError::Graph(crate::text::owned("graph too large")));
        }
        let mut e: usize = 0;
        while e < ne
            invariant
                e <= ne,
                ne == data.edges@.len(),
                nn == data.nodes@.len(),
                forall|k: int| 0 <= k < e ==> (#[trigger] data.edges@[k]).0 < nn && data.edges@[k].1 < nn,
            decreases ne - e,
        {
            let (a, b, _k) = data.edges[e];
            if a >= nn || b >= nn {
                return Err(crate::common::IcbError::Graph(crate::text::owned("edge endpoint out of range")));
            }
            e = e + 1;
        }
        let mut g = CodePropertyGraph::new();
        let mut i: usize = 0;
        while i < nn
            invariant
                i <= nn,
                nn == data.nodes@.len(),
                nn <= u32::MAX,
                g@.nodes == data.nodes@.map_values(|n: Node| n@).take(i as int),
                g@.edges == Seq::<(nat, nat, Edge)>::empty(),
            decreases nn - i,
        {
            let node = data.nodes[i].duplicate();
            g.add_node(node);
            i = i + 1;
            proof {
                assert(g@.nodes =~= data.nodes@.map_values(|n: Node| n@).take(i as int));
            }
        }
        let mut e: usize = 0;
        while e < ne
            invariant
                e <= ne,
                ne == data.edges@.len(),
                ne <= u32::MAX,
                nn == data.nodes@.len(),
                g@.nodes.len() == nn,
                g@.nodes == data.nodes@.map_values(|n: Node| n@),
                forall|k: int| 0 <= k < ne ==> (#[trigger] data.edges@[k]).0 < nn && data.edges@[k].1 < nn,
                g@.edges == data.edges@.map_values(|x: (usize, usize, Edge)| triple_nat(x)).take(e as int),
            decreases ne - e,
        {
            let (a, b, k) = data.edges[e];
            g.add_edge(a, b, k);
            e = e + 1;
            proof {
                assert(g@.edges =~= data.edges@.map_values(|x: (usize, usize, Edge)| triple_nat(x)).take(e as int));
            }
        }
        proof {
            assert(data.nodes@.map_values(|n: Node| n@).take(nn as int) =~= data.nodes@.map_values(|n: Node| n@));
            assert(data.edges@.map_values(|x: (usize, usize, Edge)| triple_nat(x)).take(ne as int) =~= data.edges@.map_values(
                |x: (usize, usize, Edge)| triple_nat(x),
            ));
        }
        Ok(g)
    }
}

} // verus!
