use icb::common::NodeKind;
use icb::graph::{CodePropertyGraph, Edge, Node};
use icb::query::{callees_of, callers_of, find_by_kind, find_calls_to, get_enclosing_function, subtree_order, unused_functions};

fn node(kind: NodeKind, name: Option<&str>, usr: Option<&str>, start: usize, end: usize) -> Node {
    Node { kind, name: name.map(|s| s.into()), usr: usr.map(|s| s.into()), start_line: start, end_line: end }
}

fn make_test_graph() -> CodePropertyGraph {
    let mut cpg = CodePropertyGraph::new();
    let foo = cpg.add_node(node(NodeKind::Function, Some("foo"), Some("foo"), 1, 3));
    let bar = cpg.add_node(node(NodeKind::Function, Some("bar"), Some("bar"), 10, 12));
    let call_in_foo = cpg.add_node(node(NodeKind::CallSite, Some("bar"), None, 2, 2));
    cpg.add_edge(foo, call_in_foo, Edge::AstChild);
    cpg.add_edge(call_in_foo, bar, Edge::Call);
    let call_in_bar = cpg.add_node(node(NodeKind::CallSite, Some("foo"), None, 11, 11));
    cpg.add_edge(bar, call_in_bar, Edge::AstChild);
    cpg.add_edge(call_in_bar, foo, Edge::Call);
    cpg.add_node(node(NodeKind::Function, Some("baz"), Some("baz"), 20, 22));
    cpg
}

#[test]
fn test_callers_of() {
    let cpg = make_test_graph();
    let callers_bar = callers_of(&cpg, "bar");
    assert_eq!(callers_bar.len(), 1);
    assert_eq!(callers_bar[0].0.name.as_deref(), Some("foo"));

    let callers_foo = callers_of(&cpg, "foo");
    assert_eq!(callers_foo.len(), 1);
    assert_eq!(callers_foo[0].0.name.as_deref(), Some("bar"));
}

#[test]
fn test_callees_of() {
    let cpg = make_test_graph();
    let callees_foo = callees_of(&cpg, "foo");
    assert_eq!(callees_foo.len(), 1);
    assert_eq!(callees_foo[0].0.name.as_deref(), Some("bar"));

    let callees_bar = callees_of(&cpg, "bar");
    assert_eq!(callees_bar.len(), 1);
    assert_eq!(callees_bar[0].0.name.as_deref(), Some("foo"));
}

#[test]
fn test_unused_functions() {
    let cpg = make_test_graph();
    let unused = unused_functions(&cpg);
    assert_eq!(unused.len(), 1);
    assert_eq!(unused[0].name.as_deref(), Some("baz"));
}

#[test]
fn find_by_kind_lists_nodes_in_index_order() {
    let cpg = make_test_graph();
    let functions = find_by_kind(&cpg, NodeKind::Function);
    let names: Vec<_> = functions.iter().map(|n| n.name.as_deref().unwrap()).collect();
    assert_eq!(names, vec!["foo", "bar", "baz"]);
    assert_eq!(find_by_kind(&cpg, NodeKind::Class).len(), 0);
}

#[test]
fn find_calls_to_compares_names_only() {
    let cpg = make_test_graph();
    let calls = find_calls_to(&cpg, "bar");
    assert_eq!(calls.len(), 1);
    assert_eq!(calls[0].start_line, 2);
    assert_eq!(find_calls_to(&cpg, "ba").len(), 0);
}

#[test]
fn callers_of_unknown_name_is_empty() {
    let cpg = make_test_graph();
    assert!(callers_of(&cpg, "nothing").is_empty());
    assert!(callees_of(&cpg, "nothing").is_empty());
}

#[test]
fn enclosing_function_walks_up_ast_parents() {
    let mut cpg = CodePropertyGraph::new();
    let f = cpg.add_node(node(NodeKind::Function, Some("f"), Some("f"), 1, 9));
    let c = cpg.add_node(node(NodeKind::Class, Some("C"), Some("C"), 2, 8));
    let call = cpg.add_node(node(NodeKind::CallSite, Some("g"), Some("g"), 3, 3));
    cpg.add_edge(f, c, Edge::AstChild);
    cpg.add_edge(c, call, Edge::AstChild);
    assert_eq!(get_enclosing_function(&cpg, call), Some(f));
    assert_eq!(get_enclosing_function(&cpg, c), Some(f));
}

#[test]
fn enclosing_function_stops_on_an_ast_cycle() {
    let mut cpg = CodePropertyGraph::new();
    let a = cpg.add_node(node(NodeKind::CallSite, Some("a"), Some("a"), 1, 1));
    let b = cpg.add_node(node(NodeKind::CallSite, Some("b"), Some("b"), 2, 2));
    cpg.add_edge(a, b, Edge::AstChild);
    cpg.add_edge(b, a, Edge::AstChild);
    assert_eq!(get_enclosing_function(&cpg, a), None);
}

#[test]
fn callees_come_from_the_whole_subtree() {
    let mut cpg = CodePropertyGraph::new();
    let main = cpg.add_node(node(NodeKind::Function, Some("main"), Some("main"), 1, 9));
    let block = cpg.add_node(node(NodeKind::Variable, Some("x"), Some("x"), 2, 2));
    let c1 = cpg.add_node(node(NodeKind::CallSite, Some("a"), Some("c1"), 3, 3));
    let a = cpg.add_node(node(NodeKind::Function, Some("a"), Some("a"), 20, 21));
    let b = cpg.add_node(node(NodeKind::Function, Some("b"), Some("b"), 30, 31));
    cpg.add_edge(main, block, Edge::AstChild);
    cpg.add_edge(block, c1, Edge::AstChild);
    cpg.add_edge(c1, a, Edge::Call);
    cpg.add_edge(c1, b, Edge::Call);
    let callees = callees_of(&cpg, "main");
    let names: Vec<_> = callees.iter().map(|(n, _)| n.name.as_deref().unwrap()).collect();
    // most recently added call edge first
    assert_eq!(names, vec!["b", "a"]);
    assert!(callees.iter().all(|(_, site)| site.start_line == 3));
}

#[test]
fn subtree_lists_levels_and_shared_nodes_once_per_path() {
    let mut cpg = CodePropertyGraph::new();
    let f = cpg.add_node(node(NodeKind::Function, Some("f"), Some("f"), 1, 9));
    let a = cpg.add_node(node(NodeKind::Variable, Some("a"), Some("a"), 2, 2));
    let b = cpg.add_node(node(NodeKind::Variable, Some("b"), Some("b"), 3, 3));
    let s = cpg.add_node(node(NodeKind::CallSite, Some("s"), Some("s"), 4, 4));
    cpg.add_edge(f, a, Edge::AstChild);
    cpg.add_edge(f, b, Edge::AstChild);
    cpg.add_edge(a, s, Edge::AstChild);
    cpg.add_edge(b, s, Edge::AstChild);
    assert_eq!(subtree_order(&cpg, f), vec![f, b, a, s, s]);
    assert_eq!(subtree_order(&cpg, s), vec![s]);
}
