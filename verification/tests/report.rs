use icb::common::NodeKind;
use icb::diff::{diff_graph, diff_names, DiffStatus};
use icb::graph::{CodePropertyGraph, Edge, Node};
use icb::report::report_data;

fn func(name: &str, line: usize) -> Node {
    Node { kind: NodeKind::Function, name: Some(name.into()), usr: Some(name.into()), start_line: line, end_line: line + 1 }
}

#[test]
fn diff_reports_added_removed_and_modified_names() {
    let mut old = CodePropertyGraph::new();
    let foo = old.add_node(func("foo", 1));
    let bar = old.add_node(func("bar", 5));
    old.add_edge(foo, bar, Edge::Call);
    let mut new = CodePropertyGraph::new();
    new.add_node(func("foo", 2));
    new.add_node(func("baz", 7));

    let result = diff_names(&old, &new);
    let added: Vec<_> = result.added.iter().map(|d| (d.name.as_str(), d.start_line, d.status)).collect();
    let removed: Vec<_> = result.removed.iter().map(|d| (d.name.as_str(), d.start_line, d.status)).collect();
    let modified: Vec<_> = result.modified.iter().map(|d| (d.name.as_str(), d.start_line, d.status)).collect();
    assert_eq!(added, vec![("baz", 7, DiffStatus::Added)]);
    assert_eq!(removed, vec![("bar", 5, DiffStatus::Removed)]);
    assert_eq!(modified, vec![("foo", 2, DiffStatus::Modified)]);

    let g = diff_graph(&old, &new, &result);
    let nodes: Vec<_> = g.nodes.iter().map(|(n, s)| (n.name.clone().unwrap(), *s)).collect();
    assert_eq!(
        nodes,
        vec![
            ("foo".to_string(), DiffStatus::Modified),
            ("baz".to_string(), DiffStatus::Added),
            ("bar".to_string(), DiffStatus::Removed),
        ]
    );
    assert!(g.edges.is_empty());
}

#[test]
fn diff_of_identical_graphs_is_unchanged() {
    let mut old = CodePropertyGraph::new();
    let a = old.add_node(func("a", 1));
    let b = old.add_node(func("b", 2));
    old.add_edge(a, b, Edge::Call);
    let mut new = CodePropertyGraph::new();
    let a2 = new.add_node(func("a", 1));
    let b2 = new.add_node(func("b", 2));
    new.add_edge(a2, b2, Edge::Call);
    let result = diff_names(&old, &new);
    assert!(result.added.is_empty() && result.removed.is_empty() && result.modified.is_empty());
    let g = diff_graph(&old, &new, &result);
    assert!(g.nodes.iter().all(|(_, s)| *s == DiffStatus::Unchanged));
    assert_eq!(g.edges, vec![(0, 1, Edge::Call)]);
}

#[test]
fn report_counts_and_flags() {
    let mut cpg = CodePropertyGraph::new();
    let main = cpg.add_node(func("main", 1));
    let a = cpg.add_node(func("a", 5));
    let b = cpg.add_node(func("b", 9));
    cpg.add_node(Node { kind: NodeKind::Class, name: Some("K".into()), usr: None, start_line: 20, end_line: 30 });
    cpg.add_edge(main, a, Edge::Call);
    cpg.add_edge(a, b, Edge::Call);
    cpg.add_edge(b, a, Edge::Call);
    cpg.add_edge(main, a, Edge::Call);
    let r = report_data(&cpg);
    assert_eq!(r.stats.total_functions, 3);
    assert_eq!(r.stats.total_classes, 1);
    assert_eq!(r.stats.total_calls, 4);
    assert_eq!(r.stats.cycle_count, 1);
    assert_eq!(r.stats.dead_count, 0);
    assert_eq!(r.stats.complex_count, 0);
    assert!(!r.nodes[0].1.is_cycle);
    assert!(r.nodes[1].1.is_cycle && r.nodes[2].1.is_cycle);
    assert!(!r.nodes[3].1.is_dead);
    assert_eq!(r.nodes[0].1.complexity, None);
    assert_eq!(r.edges, vec![(0, 1, Edge::Call), (1, 2, Edge::Call), (2, 1, Edge::Call)]);
}

#[test]
fn report_flags_dead_and_complex_functions() {
    let mut cpg = CodePropertyGraph::new();
    cpg.add_node(func("main", 1));
    let big = cpg.add_node(func("big", 3));
    let mut last = big;
    for i in 0..25 {
        let v = cpg.add_node(Node { kind: NodeKind::Variable, name: Some(format!("v{}", i)), usr: None, start_line: 4, end_line: 4 });
        cpg.add_edge(last, v, Edge::AstChild);
        last = v;
    }
    let r = report_data(&cpg);
    assert_eq!(r.stats.dead_count, 1);
    assert_eq!(r.dead[0].name.as_deref(), Some("big"));
    assert!(r.nodes[1].1.is_dead);
    assert_eq!(r.nodes[1].1.complexity, Some(26));
    assert_eq!(r.complex[0].function_name, "big");
}

#[test]
fn diff_counts_each_name_once() {
    let mut old = CodePropertyGraph::new();
    old.add_node(func("a", 1));
    old.add_node(func("a", 2));
    old.add_node(func("b", 3));
    let mut new = CodePropertyGraph::new();
    new.add_node(func("c", 1));
    new.add_node(func("c", 4));
    new.add_node(func("a", 5));
    new.add_node(func("d", 6));
    let result = diff_names(&old, &new);
    let mut added: Vec<String> = result.added.iter().map(|d| d.name.clone()).collect();
    added.sort();
    let removed: Vec<String> = result.removed.iter().map(|d| d.name.clone()).collect();
    assert_eq!(added, vec!["c".to_string(), "d".to_string()]);
    assert_eq!(removed, vec!["b".to_string()]);
    assert!(result.modified.is_empty());
}

#[test]
fn diff_graph_adds_one_node_per_removed_name() {
    let mut old = CodePropertyGraph::new();
    old.add_node(func("a", 1));
    old.add_node(func("b", 2));
    old.add_node(func("b", 3));
    let mut new = CodePropertyGraph::new();
    new.add_node(func("a", 1));
    let result = diff_names(&old, &new);
    let g = diff_graph(&old, &new, &result);
    assert_eq!(g.nodes.len(), 2);
    assert_eq!(g.nodes[1].0.name.as_deref(), Some("b"));
    assert_eq!(g.nodes[1].1, DiffStatus::Removed);
}
