use icb::common::{IcbError, NodeKind};
use icb::lang::common::Frontend;
use icb::lang::grammar::{facts_from_nodes, syntax_from_nodes, TsNodeInfo};

fn rec(kind: &str, field: Option<&str>, a: usize, b: usize, children: usize) -> TsNodeInfo {
    TsNodeInfo {
        kind: kind.to_string(),
        field: field.map(|f| f.to_string()),
        start_byte: a,
        end_byte: b,
        start_row: 0,
        start_col: a,
        end_row: 0,
        end_col: b,
        child_count: children,
        is_error: false,
        is_missing: false,
    }
}

fn hello_records() -> Vec<TsNodeInfo> {
    vec![
        rec("module", None, 0, 17, 1),
        rec("function_definition", None, 0, 17, 3),
        rec("def", None, 0, 3, 0),
        rec("identifier", Some("name"), 4, 9, 0),
        rec("parameters", Some("parameters"), 9, 11, 0),
    ]
}

#[test]
fn records_rebuild_the_tree() {
    let t = syntax_from_nodes(&hello_records(), "def hello(): pass").unwrap();
    assert_eq!(t.kind, "module");
    assert_eq!(t.children.len(), 1);
    let f = &t.children[0];
    assert_eq!(f.kind, "function_definition");
    assert_eq!(f.children.len(), 3);
    assert_eq!(f.children[1].field.as_deref(), Some("name"));
    assert_eq!(f.children[1].text.as_deref(), Some("hello"));
}

#[test]
fn python_facts_from_given_records() {
    let facts =
        facts_from_nodes(Frontend::Python { include_variables: false }, &hello_records(), "def hello(): pass", false)
            .unwrap();
    assert_eq!(facts.len(), 1);
    assert_eq!(facts[0].kind, NodeKind::Function);
    assert_eq!(facts[0].name.as_deref(), Some("hello"));
    assert_eq!(facts[0].start_line, 1);
}

#[test]
fn records_that_run_out_are_refused() {
    let mut nodes = hello_records();
    nodes[1].child_count = 4;
    match facts_from_nodes(Frontend::Python { include_variables: false }, &nodes, "def hello(): pass", false) {
        Err(IcbError::Parse(m)) => assert_eq!(m, "syntax tree could not be read"),
        _ => panic!("expected a parse error"),
    }
}

#[test]
fn a_missing_node_is_a_syntax_error_only_where_refused() {
    let mut nodes = hello_records();
    nodes[4].is_missing = true;
    assert!(facts_from_nodes(Frontend::Cpp, &nodes, "def hello(): pass", false).is_ok());
    match facts_from_nodes(Frontend::Cpp, &nodes, "def hello(): pass", true) {
        Err(IcbError::Parse(m)) => assert_eq!(m, "source contains syntax errors"),
        _ => panic!("expected a parse error"),
    }
}
