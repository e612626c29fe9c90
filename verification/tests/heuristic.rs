use icb::common::{Language, NodeKind};
use icb::heuristic::parser::parse_universal;

#[test]
fn universal_finds_definitions_and_calls() {
    let facts = parse_universal("def foo():\n  bar()\n", "m.py");
    let summary: Vec<_> = facts
        .iter()
        .map(|f| (f.kind, f.name.clone().unwrap(), f.start_line, f.start_col, f.end_col))
        .collect();
    assert_eq!(
        summary,
        vec![
            (NodeKind::Function, "foo".to_string(), 1, 5, 6),
            (NodeKind::CallSite, "foo".to_string(), 1, 5, 6),
            (NodeKind::CallSite, "bar".to_string(), 2, 3, 4),
        ]
    );
    assert_eq!(facts[0].source_file.as_deref(), Some("m.py"));
    assert_eq!(facts[1].source_file, None);
    assert!(facts.iter().all(|f| f.language == Language::Unknown));
}

#[test]
fn universal_skips_markup() {
    assert!(parse_universal("<html><body></body></html>", "").is_empty());
    assert!(parse_universal("<?xml version=\"1.0\"?>", "").is_empty());
}

#[test]
fn universal_empty_source_has_no_facts() {
    assert!(parse_universal("", "").is_empty());
    assert!(parse_universal("  ;; 123 ", "").is_empty());
}

#[test]
fn universal_namespace_is_reported_once() {
    let facts = parse_universal("namespace ns { }", "a.cpp");
    assert_eq!(facts.len(), 1);
    assert_eq!(facts[0].kind, NodeKind::Class);
    assert_eq!(facts[0].name.as_deref(), Some("ns"));
    assert_eq!(facts[0].source_file.as_deref(), Some("a.cpp"));
}

#[test]
fn universal_skips_modifiers_and_templates() {
    let facts = parse_universal("class <T> static Widget {}", "");
    assert_eq!(facts.len(), 1);
    assert_eq!(facts[0].name.as_deref(), Some("Widget"));
    assert_eq!(facts[0].start_col, 18);
}

#[test]
fn universal_qualifies_dotted_calls() {
    let facts = parse_universal("x = a.b.c()", "");
    let calls: Vec<_> = facts.iter().filter(|f| f.kind == NodeKind::CallSite).collect();
    assert_eq!(calls.len(), 1);
    assert_eq!(calls[0].name.as_deref(), Some("a.b.c"));
}

#[test]
fn universal_ignores_keyword_calls() {
    let facts = parse_universal("if (x) { while (y) {} }", "");
    assert!(facts.is_empty());
}

#[test]
fn tokens_stand_at_their_byte_positions() {
    let toks = icb::heuristic::tokens::tokenize("x\n  foo(<>)");
    let got: Vec<(String, usize, usize)> = toks.iter().map(|t| (t.text.clone(), t.line, t.col)).collect();
    assert_eq!(
        got,
        vec![
            ("x".to_string(), 1, 1),
            ("foo".to_string(), 2, 3),
            ("(".to_string(), 2, 6),
            ("<".to_string(), 2, 7),
            (">".to_string(), 2, 8),
            (")".to_string(), 2, 9),
        ]
    );
}
