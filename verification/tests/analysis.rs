use icb::analysis::{count_subtree_nodes, detect_call_cycles, detect_complex_functions, detect_dead_code};
use icb::common::NodeKind;
use icb::graph::{CodePropertyGraph, Edge, Node};
use icb::visualizer::export_call_dot;

fn func(name: &str, line: usize) -> Node {
    Node { kind: NodeKind::Function, name: Some(name.into()), usr: Some(name.into()), start_line: line, end_line: line }
}

fn build_test_cpg() -> CodePropertyGraph {
    let mut cpg = CodePropertyGraph::new();
    let a = cpg.add_node(func("a", 1));
    let b = cpg.add_node(func("b", 2));
    let c = cpg.add_node(func("c", 3));
    cpg.add_edge(a, b, Edge::Call);
    cpg.add_edge(b, c, Edge::Call);
    cpg.add_edge(c, a, Edge::Call);
    let d = cpg.add_node(func("d", 4));
    cpg.add_edge(d, d, Edge::Call);
    cpg.add_node(func("e", 5));
    let f = cpg.add_node(func("f", 6));
    let mut last = f;
    for _ in 0..10 {
        let child = cpg.add_node(Node { kind: NodeKind::Variable, name: None, usr: None, start_line: 6, end_line: 6 });
        cpg.add_edge(last, child, Edge::AstChild);
        last = child;
    }
    cpg
}

#[test]
fn test_detect_call_cycles() {
    let cpg = build_test_cpg();
    let cycles = detect_call_cycles(&cpg);
    assert_eq!(cycles.len(), 2);
    let three_cycle = cycles.iter().find(|c| c.length == 3).unwrap();
    assert!(three_cycle.functions.contains(&"a".into()));
    assert!(three_cycle.functions.contains(&"b".into()));
    assert!(three_cycle.functions.contains(&"c".into()));
    let self_loop = cycles.iter().find(|c| c.length == 1).unwrap();
    assert_eq!(self_loop.functions, vec!["d"]);
}

#[test]
fn test_dead_code_from_entry() {
    let cpg = build_test_cpg();
    let dead = detect_dead_code(&cpg, &["a".to_string()]);
    assert!(dead.iter().any(|n| n.name.as_deref() == Some("d")));
    assert!(dead.iter().any(|n| n.name.as_deref() == Some("e")));
    assert!(dead.iter().any(|n| n.name.as_deref() == Some("f")));
    assert!(!dead.iter().any(|n| n.name.as_deref() == Some("a")));
    assert!(!dead.iter().any(|n| n.name.as_deref() == Some("b")));
    assert!(!dead.iter().any(|n| n.name.as_deref() == Some("c")));
}

#[test]
fn test_complex_functions() {
    let cpg = build_test_cpg();
    let complex = detect_complex_functions(&cpg, 5);
    assert_eq!(complex.len(), 1);
    assert_eq!(complex[0].function_name, "f");
    assert!(complex[0].ast_node_count > 10);
}

#[test]
fn subtree_count_includes_the_root() {
    let cpg = build_test_cpg();
    assert_eq!(count_subtree_nodes(&cpg, 5), 11);
    assert_eq!(count_subtree_nodes(&cpg, 0), 1);
    let complex = detect_complex_functions(&cpg, 5);
    assert_eq!(complex[0].ast_node_count, 11);
    assert_eq!(complex[0].start_line, 6);
}

#[test]
fn dead_code_without_entries_is_every_function() {
    let cpg = build_test_cpg();
    let dead = detect_dead_code(&cpg, &["missing".to_string()]);
    let names: Vec<_> = dead.iter().map(|n| n.name.as_deref().unwrap()).collect();
    assert_eq!(names, vec!["a", "b", "c", "d", "e", "f"]);
}

#[test]
fn dead_code_follows_several_entries() {
    let cpg = build_test_cpg();
    let dead = detect_dead_code(&cpg, &["d".to_string(), "e".to_string()]);
    let names: Vec<_> = dead.iter().map(|n| n.name.as_deref().unwrap()).collect();
    assert_eq!(names, vec!["a", "b", "c", "f"]);
}

#[test]
fn no_cycles_in_a_chain() {
    let mut cpg = CodePropertyGraph::new();
    let a = cpg.add_node(func("a", 1));
    let b = cpg.add_node(func("b", 2));
    cpg.add_edge(a, b, Edge::Call);
    assert!(detect_call_cycles(&cpg).is_empty());
}

#[test]
fn dot_export_lists_definitions_and_calls() {
    let mut cpg = CodePropertyGraph::new();
    let a = cpg.add_node(func("main", 12));
    let call = cpg.add_node(Node { kind: NodeKind::CallSite, name: Some("run".into()), usr: None, start_line: 3, end_line: 3 });
    let b = cpg.add_node(Node { kind: NodeKind::Class, name: None, usr: None, start_line: 40, end_line: 41 });
    cpg.add_edge(a, call, Edge::AstChild);
    cpg.add_edge(call, b, Edge::Call);
    let dot = export_call_dot(&cpg);
    let expected = "digraph CallGraph {\n  rankdir=LR;\n  node [shape=box, style=rounded];\n  n0 [label=\"main\\nline 12\"];\n  n2 [label=\"?\\nline 40\"];\n  n1 -> n2;\n}\n";
    assert_eq!(dot, expected);
}
