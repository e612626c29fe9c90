use icb::builder::GraphBuilder;
use icb::common::{Language, NodeKind};
use icb::facts::RawNode;
use icb::graph::Edge;

fn make_func_node(name: &str, line: usize) -> RawNode {
    RawNode {
        language: Language::Python,
        kind: NodeKind::Function,
        name: Some(name.into()),
        usr: None,
        start_line: line,
        start_col: 0,
        end_line: line,
        end_col: 10,
        children: vec![],
        source_file: None,
    }
}

fn make_call_node(name: &str, line: usize) -> RawNode {
    RawNode {
        language: Language::Python,
        kind: NodeKind::CallSite,
        name: Some(name.into()),
        usr: None,
        start_line: line,
        start_col: 0,
        end_line: line,
        end_col: 5,
        children: vec![],
        source_file: None,
    }
}

#[test]
fn test_deduplication_by_name() {
    let mut builder = GraphBuilder::new();
    let facts = vec![make_func_node("foo", 1), make_func_node("foo", 2)];
    builder.ingest_file_facts(&facts);
    assert_eq!(builder.cpg().node_count(), 1);
}

#[test]
fn test_multiple_different_nodes() {
    let mut builder = GraphBuilder::new();
    let facts = vec![make_func_node("foo", 1), make_func_node("bar", 2)];
    builder.ingest_file_facts(&facts);
    assert_eq!(builder.cpg().node_count(), 2);
}

#[test]
fn test_merge_two_builders() {
    let mut b1 = GraphBuilder::new();
    b1.ingest_file_facts(&[make_func_node("foo", 1)]);
    let mut b2 = GraphBuilder::new();
    b2.ingest_file_facts(&[make_func_node("bar", 2), make_func_node("foo", 3)]);
    b1.merge(b2);
    assert_eq!(b1.cpg().node_count(), 2);
}

#[test]
fn test_resolve_calls_creates_edges() {
    let mut builder = GraphBuilder::new();
    let facts = vec![make_func_node("foo", 1), make_call_node("foo", 2)];
    builder.ingest_file_facts(&facts);
    builder.resolve_calls();
    let call_edges: Vec<_> = builder
        .cpg()
        .edge_list()
        .into_iter()
        .filter(|e| e.2 == Edge::Call)
        .collect();
    assert!(!call_edges.is_empty());
}

#[test]
fn usr_takes_precedence_over_name() {
    let mut builder = GraphBuilder::new();
    let mut a = make_func_node("foo", 1);
    a.usr = Some("c:@F@foo#I#".into());
    let mut b = make_func_node("foo", 2);
    b.usr = Some("c:@F@foo#".into());
    builder.ingest_file_facts(&[a, b]);
    assert_eq!(builder.cpg().node_count(), 2);
    assert_eq!(builder.cpg().node(0).usr.as_deref(), Some("c:@F@foo#I#"));
    assert_eq!(builder.cpg().node(1).start_line, 2);
}

#[test]
fn unnamed_facts_share_the_empty_key() {
    let mut builder = GraphBuilder::new();
    let mut a = make_func_node("x", 1);
    a.name = None;
    let mut b = make_call_node("y", 2);
    b.name = None;
    builder.ingest_file_facts(&[a, b]);
    assert_eq!(builder.cpg().node_count(), 1);
    assert_eq!(builder.cpg().node(0).usr.as_deref(), Some(""));
}

#[test]
fn children_become_ast_edges() {
    let mut builder = GraphBuilder::new();
    let mut outer = make_func_node("outer", 1);
    outer.children = vec![1, 7];
    let inner = make_call_node("inner", 2);
    builder.ingest_file_facts(&[outer, inner]);
    assert_eq!(builder.cpg().edge_list(), vec![(0, 1, Edge::AstChild)]);
}

#[test]
fn resolve_joins_every_call_site_to_every_definition() {
    let mut builder = GraphBuilder::new();
    let mut f2 = make_func_node("f", 3);
    f2.usr = Some("f-other".into());
    let mut c2 = make_call_node("f", 4);
    c2.usr = Some("call-2".into());
    builder.ingest_file_facts(&[make_func_node("f", 1), make_call_node("g", 2), f2, c2]);
    // nodes: 0 = f, 1 = g (call), 2 = f-other, 3 = call-2 (call of f)
    builder.resolve_calls();
    assert_eq!(builder.cpg().edge_list(), vec![(3, 0, Edge::Call), (3, 2, Edge::Call)]);
}

#[test]
fn merge_carries_edges_over_to_new_indices() {
    let mut b1 = GraphBuilder::new();
    b1.ingest_file_facts(&[make_func_node("main", 1)]);
    let mut b2 = GraphBuilder::new();
    let mut helper = make_func_node("helper", 1);
    helper.children = vec![1];
    let mut site = make_call_node("main", 2);
    site.usr = Some("site-1".into());
    b2.ingest_file_facts(&[helper, site]);
    b1.merge(b2);
    assert_eq!(b1.cpg().node_count(), 3);
    assert_eq!(b1.cpg().edge_list(), vec![(1, 2, Edge::AstChild)]);
    b1.resolve_calls();
    assert_eq!(b1.cpg().edge_list(), vec![(1, 2, Edge::AstChild), (2, 0, Edge::Call)]);
}

#[test]
fn merge_reuses_nodes_of_the_same_key() {
    let mut b1 = GraphBuilder::new();
    b1.ingest_file_facts(&[make_func_node("foo", 1), make_func_node("bar", 2)]);
    let mut b2 = GraphBuilder::new();
    b2.ingest_file_facts(&[make_func_node("bar", 9), make_call_node("foo", 10)]);
    b1.merge(b2);
    assert_eq!(b1.cpg().node_count(), 2);
    assert_eq!(b1.cpg().node(1).start_line, 2);
}
