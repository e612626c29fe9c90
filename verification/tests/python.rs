use icb::common::NodeKind;
use icb::lang::python::{parse_python, parse_python_detailed};

#[test]
fn test_parse_simple_function() {
    let source = "def hello(): pass";
    let facts = parse_python(source).expect("parsing should succeed");
    let functions: Vec<_> = facts
        .iter()
        .filter(|n| n.kind == NodeKind::Function)
        .collect();
    assert_eq!(functions.len(), 1);
    assert_eq!(functions[0].name.as_deref(), Some("hello"));
}

#[test]
fn test_parse_nested_function() {
    let source = "def outer():\n    def inner(): pass";
    let facts = parse_python(source).expect("parsing should succeed");
    let outer = facts.iter().find(|n| n.name.as_deref() == Some("outer"));
    let inner = facts.iter().find(|n| n.name.as_deref() == Some("inner"));
    assert!(outer.is_some(), "outer function not found");
    assert!(inner.is_some(), "inner function not found");
}

#[test]
fn test_call_site_has_name() {
    let source = "foo()";
    let facts = parse_python(source).expect("parsing should succeed");
    let calls: Vec<_> = facts
        .iter()
        .filter(|n| n.kind == NodeKind::CallSite)
        .collect();
    assert_eq!(calls.len(), 1);
    assert_eq!(calls[0].name.as_deref(), Some("foo"));
}

#[test]
fn test_async_function() {
    let source = "async def bar(): pass";
    let facts = parse_python(source).unwrap();
    let funcs: Vec<_> = facts
        .iter()
        .filter(|n| n.kind == NodeKind::Function)
        .collect();
    assert_eq!(funcs.len(), 1);
    assert_eq!(funcs[0].name.as_deref(), Some("bar"));
}

#[test]
fn python_test_lambda() {
    let source = "lambda x: x";
    let facts = parse_python(source).unwrap();
    let lambdas: Vec<_> = facts
        .iter()
        .filter(|n| n.name.as_deref() == Some("lambda"))
        .collect();
    assert!(!lambdas.is_empty(), "expected at least one lambda");
}

#[test]
fn test_include_variables() {
    let source = "x = 1";
    let facts = parse_python_detailed(source).unwrap();
    let vars: Vec<_> = facts
        .iter()
        .filter(|n| n.kind == NodeKind::Variable)
        .collect();
    assert!(!vars.is_empty());
    let facts_no_vars = parse_python(source).unwrap();
    assert!(!facts_no_vars.iter().any(|n| n.kind == NodeKind::Variable));
}

#[test]
fn nested_function_is_child_of_outer() {
    let facts = parse_python("def outer():\n    def inner(): pass").unwrap();
    assert_eq!(facts.len(), 2);
    assert_eq!(facts[0].children, vec![1]);
    assert_eq!(facts[1].start_line, 2);
}

#[test]
fn detailed_minus_variables_is_plain() {
    let src = "def f(x):\n    y = g(x)\n    return y\nclass C:\n    def m(self): pass\n";
    let plain = icb::lang::python::parse_python(src).unwrap();
    let detailed = icb::lang::python::parse_python_detailed(src).unwrap();
    let mut rank = Vec::new();
    let mut kept = 0usize;
    for f in &detailed {
        rank.push(kept);
        if f.kind != icb::common::NodeKind::Variable {
            kept += 1;
        }
    }
    let stripped: Vec<(icb::common::NodeKind, Option<String>, usize, Vec<usize>)> = detailed
        .iter()
        .filter(|f| f.kind != icb::common::NodeKind::Variable)
        .map(|f| {
            let cs = f
                .children
                .iter()
                .filter(|&&c| detailed[c].kind != icb::common::NodeKind::Variable)
                .map(|&c| rank[c])
                .collect();
            (f.kind, f.name.clone(), f.start_line, cs)
        })
        .collect();
    let expected: Vec<(icb::common::NodeKind, Option<String>, usize, Vec<usize>)> =
        plain.iter().map(|f| (f.kind, f.name.clone(), f.start_line, f.children.clone())).collect();
    assert_eq!(stripped, expected);
    assert!(detailed.len() > plain.len());
}
