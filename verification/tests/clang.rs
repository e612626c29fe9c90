use icb::clang::{clang_facts, extract_args, resolve_file_path, ClangCursor, CompileCommandEntry, CursorKind};
use icb::common::{Language, NodeKind};

fn cursor(kind: CursorKind, spelling: &str, line: usize, children: Vec<ClangCursor>) -> ClangCursor {
    ClangCursor {
        kind,
        spelling: spelling.into(),
        usr: format!("c:@{}", spelling),
        referenced_spelling: None,
        in_system_header: false,
        start_line: line,
        start_col: 1,
        end_line: line,
        end_col: 10,
        file: Some("main.cpp".into()),
        children,
    }
}

fn unit(system_struct: bool) -> ClangCursor {
    let mut call = cursor(CursorKind::CallExpr, "bar", 3, vec![]);
    call.referenced_spelling = Some("ns::bar".into());
    let body = cursor(CursorKind::Other, "", 2, vec![call]);
    let param = cursor(CursorKind::ParmDecl, "x", 1, vec![]);
    let foo = cursor(CursorKind::FunctionDecl, "foo", 1, vec![param, body]);
    let mut s = cursor(CursorKind::StructDecl, "S", 9, vec![]);
    s.in_system_header = system_struct;
    cursor(CursorKind::Other, "main.cpp", 0, vec![foo, s])
}

#[test]
fn clang_facts_keep_functions_calls_and_parameters() {
    let facts = clang_facts(&unit(true), false);
    let summary: Vec<_> = facts.iter().map(|f| (f.kind, f.name.clone().unwrap(), f.children.clone())).collect();
    assert_eq!(
        summary,
        vec![
            (NodeKind::Function, "foo".to_string(), vec![1, 2]),
            (NodeKind::Parameter, "x".to_string(), vec![]),
            (NodeKind::CallSite, "ns::bar".to_string(), vec![]),
        ]
    );
    assert_eq!(facts[0].usr.as_deref(), Some("c:@foo"));
    assert_eq!(facts[2].usr, None);
    assert!(facts.iter().all(|f| f.language == Language::Cpp));
    assert_eq!(facts[0].source_file.as_deref(), Some("main.cpp"));
}

#[test]
fn clang_system_cursors_kept_when_allowed() {
    let facts = clang_facts(&unit(true), true);
    assert_eq!(facts.len(), 4);
    assert_eq!(facts[3].name.as_deref(), Some("S"));
    // the next sibling of a container hangs under the last parent it left
    assert_eq!(facts[0].children, vec![1, 2, 3]);
}

#[test]
fn clang_call_without_reference_uses_its_spelling() {
    let root = cursor(CursorKind::CallExpr, "printf", 4, vec![]);
    let facts = clang_facts(&root, false);
    assert_eq!(facts.len(), 1);
    assert_eq!(facts[0].name.as_deref(), Some("printf"));
}

#[test]
fn compile_command_arguments() {
    let listed = CompileCommandEntry { file: "a.cpp".into(), command: Some("ignored".into()), arguments: Some(vec!["clang++".into(), "-c".into()]) };
    assert_eq!(extract_args(&listed), vec!["clang++", "-c"]);
    let command = CompileCommandEntry { file: "a.cpp".into(), command: Some("clang++  -std=c++17\t-O2".into()), arguments: None };
    assert_eq!(extract_args(&command), vec!["clang++", "-std=c++17", "-O2"]);
    let none = CompileCommandEntry { file: "a.cpp".into(), command: None, arguments: None };
    assert!(extract_args(&none).is_empty());
}

#[test]
fn compile_command_file_paths() {
    assert_eq!(resolve_file_path(" /abs/a.cpp ", "/base"), "/abs/a.cpp");
    assert_eq!(resolve_file_path("src/a.cpp", "/base"), "/base/src/a.cpp");
}
