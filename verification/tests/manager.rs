use icb::clang::is_cpp_source;
use icb::common::{IcbError, Language, NodeKind};
use icb::graph::{CodePropertyGraph, Edge, GraphData, Node};
use icb::manager::{extensions_for_language, parse_language, relative_path, should_include, ParserManager};
use icb::rustc::{collect_facts, parse_rust_crate, run_analysis};

#[test]
fn language_names() {
    assert_eq!(parse_language("python").unwrap(), Language::Python);
    assert_eq!(parse_language("rust").unwrap(), Language::Rust);
    assert_eq!(parse_language("javascript").unwrap(), Language::JavaScript);
    assert_eq!(parse_language("cpp").unwrap(), Language::Cpp);
    assert_eq!(parse_language("c++").unwrap(), Language::Cpp);
    match parse_language("go") {
        Err(IcbError::UnsupportedLanguage(s)) => assert_eq!(s, "go"),
        _ => panic!("expected an unsupported language"),
    }
}

#[test]
fn extensions_per_language() {
    assert_eq!(extensions_for_language(Language::Python), vec!["py"]);
    assert_eq!(extensions_for_language(Language::Kotlin), vec!["kt", "kts"]);
    assert_eq!(extensions_for_language(Language::CppTreeSitter).len(), 10);
    assert!(extensions_for_language(Language::Unknown).is_empty());
}

#[test]
fn file_filter() {
    assert!(should_include("src/app.PY", &["py"]));
    assert!(!should_include("Makefile", &["py"]));
    assert!(!should_include("notes.txt", &["py", "rs"]));
    assert!(should_include("anything", &[]));
}

#[test]
fn relative_paths() {
    assert_eq!(relative_path("/a/b/c.py", "/a"), "b/c.py");
    assert_eq!(relative_path("/x/c.py", "/a"), "/x/c.py");
}

#[test]
fn dispatch_by_language() {
    let m = ParserManager::new();
    let py = m.parse_file(Language::Python, "def a(): pass").unwrap();
    assert_eq!(py.len(), 1);
    assert_eq!(py[0].language, Language::Python);
    let js = m.parse_file(Language::JavaScript, "function f() { g(); }").unwrap();
    let kinds: Vec<_> = js.iter().map(|f| (f.kind, f.name.clone().unwrap())).collect();
    assert_eq!(
        kinds,
        vec![
            (NodeKind::Function, "f".to_string()),
            (NodeKind::CallSite, "f".to_string()),
            (NodeKind::CallSite, "g".to_string()),
        ]
    );
    let cpp = m.parse_file(Language::CppTreeSitter, "void f() {}").unwrap();
    assert_eq!(cpp[0].language, Language::CppTreeSitter);
}

#[test]
fn rustc_backend_reports_nothing() {
    assert!(parse_rust_crate("src/lib.rs", &[]).unwrap().is_empty());
    assert!(run_analysis("src/lib.rs", &["--edition".to_string()]).unwrap().is_empty());
    assert!(collect_facts((), (), ()).unwrap().is_empty());
}

#[test]
fn graph_data_round_trip() {
    let mut cpg = CodePropertyGraph::new();
    let a = cpg.add_node(Node { kind: NodeKind::Function, name: Some("a".into()), usr: None, start_line: 1, end_line: 2 });
    let b = cpg.add_node(Node { kind: NodeKind::CallSite, name: Some("b".into()), usr: None, start_line: 2, end_line: 2 });
    cpg.add_edge(a, b, Edge::AstChild);
    let data = GraphData::from_cpg(&cpg);
    assert_eq!(data.nodes.len(), 2);
    assert_eq!(data.edges, vec![(0, 1, Edge::AstChild)]);
    let back = CodePropertyGraph::from_data(data).unwrap();
    assert_eq!(back.node_count(), 2);
    assert_eq!(back.edge_list(), vec![(0, 1, Edge::AstChild)]);
    assert_eq!(back.node(1).name.as_deref(), Some("b"));
}

#[test]
fn graph_data_with_dangling_edge_is_refused() {
    let data = GraphData {
        nodes: vec![Node { kind: NodeKind::Function, name: None, usr: None, start_line: 1, end_line: 1 }],
        edges: vec![(0, 3, Edge::Call)],
    };
    match CodePropertyGraph::from_data(data) {
        Err(IcbError::Graph(_)) => {}
        _ => panic!("expected a graph error"),
    }
}

#[test]
fn error_messages_carry_their_prefix() {
    assert_eq!(IcbError::Parse("bad".to_string()).message(), "Parse error: bad");
    assert_eq!(IcbError::UnsupportedLanguage("cobol".to_string()).message(), "Unsupported language: cobol");
    assert_eq!(IcbError::Graph("g".to_string()).message(), "Graph error: g");
    assert_eq!(IcbError::Serialization("s".to_string()).message(), "Serialisation error: s");
    let io = IcbError::Io(std::io::Error::new(std::io::ErrorKind::Other, "disk"));
    assert_eq!(io.message(), "I/O error: disk");
}

#[test]
fn cpp_sources_are_recognised_by_extension() {
    assert!(is_cpp_source("src/a.cpp"));
    assert!(is_cpp_source("include/b.HPP"));
    assert!(is_cpp_source("c.c"));
    assert!(!is_cpp_source("d.rs"));
    assert!(!is_cpp_source("Makefile"));
}
