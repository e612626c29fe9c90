use icb::common::NodeKind;
use icb::cpp_tree_sitter::parse_cpp_file;
use icb::lang::go::parse_go;
use icb::lang::ruby::parse_ruby;
use icb::lang::rust::parse_rust;

#[test]
fn go_test_simple_function() {
    let code = "package main\nfunc foo() {}\n";
    let facts = parse_go(code).unwrap();
    let funcs: Vec<_> = facts.iter().filter(|n| n.kind == NodeKind::Function).collect();
    assert_eq!(funcs.len(), 1);
    assert_eq!(funcs[0].name.as_deref(), Some("foo"));
}

#[test]
fn test_method() {
    let code = "package main\ntype S struct{}\nfunc (s S) bar() {}\n";
    let facts = parse_go(code).unwrap();
    let methods: Vec<_> = facts.iter().filter(|n| n.kind == NodeKind::Function).collect();
    assert!(methods.iter().any(|m| m.name.as_deref() == Some("bar")));
}

#[test]
fn go_test_call_expression() {
    let code = "package main\nfunc baz() { foo() }\n";
    let facts = parse_go(code).unwrap();
    let calls: Vec<_> = facts.iter().filter(|n| n.kind == NodeKind::CallSite).collect();
    assert_eq!(calls.len(), 1);
    assert_eq!(calls[0].name.as_deref(), Some("foo"));
}

#[test]
fn go_test_struct_type() {
    let code = "package main\ntype MyStruct struct {}\n";
    let facts = parse_go(code).unwrap();
    let classes: Vec<_> = facts.iter().filter(|n| n.kind == NodeKind::Class).collect();
    assert_eq!(classes.len(), 1);
    assert_eq!(classes[0].name.as_deref(), Some("MyStruct"));
}

#[test]
fn test_simple_method() {
    let code = "def foo; end";
    let facts = parse_ruby(code).unwrap();
    let funcs: Vec<_> = facts.iter().filter(|n| n.kind == NodeKind::Function).collect();
    assert_eq!(funcs.len(), 1);
    assert_eq!(funcs[0].name.as_deref(), Some("foo"));
}

#[test]
fn test_class() {
    let code = "class MyClass; end";
    let facts = parse_ruby(code).unwrap();
    let classes: Vec<_> = facts
        .iter()
        .filter(|n| n.kind == NodeKind::Class && n.name.as_deref() == Some("MyClass"))
        .collect();
    assert!(!classes.is_empty(), "expected class MyClass");
}

#[test]
fn test_call() {
    let code = "puts 'hello'";
    let facts = parse_ruby(code).unwrap();
    let calls: Vec<_> = facts.iter().filter(|n| n.kind == NodeKind::CallSite).collect();
    assert_eq!(calls.len(), 1);
    assert_eq!(calls[0].name.as_deref(), Some("puts"));
}

#[test]
fn ruby_test_lambda() {
    let code = "-> { }";
    let facts = parse_ruby(code).unwrap();
    let lambdas: Vec<_> = facts.iter().filter(|n| n.name.as_deref() == Some("lambda")).collect();
    assert!(!lambdas.is_empty(), "expected at least one lambda");
}

#[test]
fn rust_test_simple_function() {
    let code = "fn foo() {}";
    let facts = parse_rust(code).unwrap();
    let funcs: Vec<_> = facts.iter().filter(|n| n.kind == NodeKind::Function).collect();
    assert_eq!(funcs.len(), 1);
    assert_eq!(funcs[0].name.as_deref(), Some("foo"));
}

#[test]
fn test_method_in_impl() {
    let code = "struct S; impl S { fn bar(&self) {} }";
    let facts = parse_rust(code).unwrap();
    let methods: Vec<_> = facts
        .iter()
        .filter(|n| n.kind == NodeKind::Function && n.name.as_deref() == Some("bar"))
        .collect();
    assert!(!methods.is_empty());
}

#[test]
fn rust_test_call_expression() {
    let code = "fn baz() { foo(); }";
    let facts = parse_rust(code).unwrap();
    let calls: Vec<_> = facts.iter().filter(|n| n.kind == NodeKind::CallSite).collect();
    assert_eq!(calls.len(), 1);
    assert_eq!(calls[0].name.as_deref(), Some("foo"));
}

#[test]
fn rust_test_struct_type() {
    let code = "struct MyStruct {}";
    let facts = parse_rust(code).unwrap();
    let classes: Vec<_> = facts.iter().filter(|n| n.kind == NodeKind::Class).collect();
    assert_eq!(classes.len(), 1);
    assert_eq!(classes[0].name.as_deref(), Some("MyStruct"));
}

#[test]
fn cpp_tree_sitter_parse_simple_function() {
    let facts = parse_cpp_file("void foo() {}").unwrap();
    assert_eq!(facts.len(), 1);
    assert_eq!(facts[0].kind, NodeKind::Function);
    assert_eq!(facts[0].name.as_deref(), Some("foo"));
}

#[test]
fn cpp_tree_sitter_parse_function_with_call() {
    let code = "void bar() {} void baz() { bar(); }";
    let facts = parse_cpp_file(code).unwrap();
    let calls: Vec<_> = facts.iter().filter(|n| n.kind == NodeKind::CallSite).collect();
    assert!(!calls.is_empty());
}

#[test]
fn cpp_call_is_child_of_its_function() {
    let code = "void bar() {} void baz() { bar(); }";
    let facts = parse_cpp_file(code).unwrap();
    let baz = facts.iter().position(|n| n.name.as_deref() == Some("baz")).unwrap();
    let call = facts.iter().position(|n| n.kind == NodeKind::CallSite).unwrap();
    assert_eq!(facts[call].name.as_deref(), Some("bar"));
    assert_eq!(facts[baz].children, vec![call]);
    assert_eq!(facts[baz].start_line, 1);
}

#[test]
fn go_selector_call_keeps_the_selector_text() {
    let code = "package main\nfunc main() { fmt.Println(1) }\n";
    let facts = parse_go(code).unwrap();
    let calls: Vec<_> = facts.iter().filter(|n| n.kind == NodeKind::CallSite).collect();
    assert_eq!(calls.len(), 1);
    assert_eq!(calls[0].name.as_deref(), Some("fmt.Println"));
}

#[test]
fn cpp_syntax_error_is_a_parse_error() {
    match parse_cpp_file("void f( {") {
        Err(icb::common::IcbError::Parse(m)) => assert_eq!(m, "source contains syntax errors"),
        other => panic!("expected a parse error, got {:?}", other.map(|f| f.len())),
    }
}

#[test]
fn syntax_errors_are_kept_by_other_frontends() {
    assert!(parse_go("package main\nfunc f( {\n").is_ok());
    assert!(parse_rust("fn f( {").is_ok());
}

#[test]
fn frontends_read_nested_trees() {
    let code = "class A { void m() { g(); } };";
    let facts = parse_cpp_file(code).unwrap();
    let kinds: Vec<_> = facts.iter().map(|n| n.kind).collect();
    assert!(kinds.contains(&NodeKind::Class));
    assert!(kinds.contains(&NodeKind::Function));
    assert!(kinds.contains(&NodeKind::CallSite));
}
