use dioxide::config::Config;
use dioxide::dead_code::{
    check_unused_functions, check_unused_imports, check_unused_variables, extract_package_name,
    find_function_range,
};
use dioxide::issue::{Issue, IssueType, Severity};
use dioxide::parser::{GoFile, NodeData, NodeKind};

fn node(kind: NodeKind, start: usize, end: usize, parent: Option<usize>) -> NodeData {
    NodeData {
        kind,
        kind_raw: Vec::new(),
        start,
        end,
        parent,
        children: Vec::new(),
        f_name: None,
        f_path: None,
        f_operand: None,
        f_package: None,
        f_type: None,
        f_function: None,
        f_left: None,
        f_body: None,
        f_consequence: None,
    }
}

fn file(content: &[u8], nodes: Vec<NodeData>) -> GoFile {
    GoFile::from_parts(b"test.go".to_vec(), content.to_vec(), nodes).expect("well-formed tree")
}

#[test]
fn package_name_extraction() {
    assert_eq!(extract_package_name(&b"\"a/b/c\"".to_vec()), b"c".to_vec());
    assert_eq!(extract_package_name(&b"\"fmt\"".to_vec()), b"fmt".to_vec());
    assert_eq!(extract_package_name(&b"plain".to_vec()), b"plain".to_vec());
    assert_eq!(extract_package_name(&b"\"a/\"".to_vec()), b"".to_vec());
}

// import "fmt" followed by a selector usage of fmt
fn import_tree(with_usage: bool) -> GoFile {
    let content = b"import \"fmt\"\nfmt.Println()";
    let mut root = node(NodeKind::SourceFile, 0, content.len(), None);
    let mut spec = node(NodeKind::ImportSpec, 0, 12, Some(0));
    let path_node = node(NodeKind::Other, 7, 12, Some(1));
    spec.f_path = Some(2);
    let mut nodes = Vec::new();
    if with_usage {
        root.children = vec![1, 3];
        let mut sel = node(NodeKind::SelectorExpression, 13, 24, Some(0));
        sel.f_operand = Some(4);
        let operand = node(NodeKind::Identifier, 13, 16, Some(3));
        nodes.push(root);
        nodes.push(spec);
        nodes.push(path_node);
        nodes.push(sel);
        nodes.push(operand);
    } else {
        root.children = vec![1];
        nodes.push(root);
        nodes.push(spec);
        nodes.push(path_node);
    }
    file(content, nodes)
}

#[test]
fn unused_import_reported_once() {
    let ast = import_tree(false);
    let mut issues: Vec<Issue> = Vec::new();
    check_unused_imports(&ast, &mut issues);
    assert_eq!(issues.len(), 1);
    let issue = &issues[0];
    assert!(matches!(issue.issue_type, IssueType::DeadCode));
    assert!(matches!(issue.severity, Severity::Warning));
    assert_eq!(issue.message, b"Unused import: \"fmt\"".to_vec());
    assert_eq!(issue.code, b"\"fmt\"".to_vec());
    assert_eq!(issue.line, 1);
    assert_eq!(issue.column, 1);
    assert!(issue.fix_available);
}

#[test]
fn used_import_not_reported() {
    let ast = import_tree(true);
    let mut issues: Vec<Issue> = Vec::new();
    check_unused_imports(&ast, &mut issues);
    assert!(issues.is_empty());
}

#[test]
fn blank_alias_import_skipped() {
    // import _ "fmt": the alias excludes it whatever the usage
    let content = b"import _ \"fmt\"";
    let mut root = node(NodeKind::SourceFile, 0, content.len(), None);
    root.children = vec![1];
    let mut spec = node(NodeKind::ImportSpec, 0, 14, Some(0));
    spec.f_path = Some(2);
    spec.f_name = Some(3);
    let path_node = node(NodeKind::Other, 9, 14, Some(1));
    let alias = node(NodeKind::Identifier, 7, 8, Some(1));
    let ast = file(content, vec![root, spec, path_node, alias]);
    let mut issues: Vec<Issue> = Vec::new();
    check_unused_imports(&ast, &mut issues);
    assert!(issues.is_empty());
}

#[test]
fn repeated_declaration_reported_once() {
    // two import specs resolving to the same package name collapse into
    // one declaration entry, hence exactly one finding
    let content = b"import \"fmt\"\nimport \"x/fmt\"";
    let mut root = node(NodeKind::SourceFile, 0, content.len(), None);
    root.children = vec![1, 3];
    let mut spec1 = node(NodeKind::ImportSpec, 0, 12, Some(0));
    spec1.f_path = Some(2);
    let path1 = node(NodeKind::Other, 7, 12, Some(1));
    let mut spec2 = node(NodeKind::ImportSpec, 13, 27, Some(0));
    spec2.f_path = Some(4);
    let path2 = node(NodeKind::Other, 20, 27, Some(3));
    let ast = file(content, vec![root, spec1, path1, spec2, path2]);
    let mut issues: Vec<Issue> = Vec::new();
    check_unused_imports(&ast, &mut issues);
    assert_eq!(issues.len(), 1);
    // the later declaration wins the entry
    assert_eq!(issues[0].code, b"\"x/fmt\"".to_vec());
}

#[test]
fn vacuous_file_has_no_dead_code_findings() {
    // zero declarations of any kind: zero findings of each kind
    let content = b"package main";
    let root = node(NodeKind::SourceFile, 0, content.len(), None);
    let ast = file(content, vec![root]);
    let mut issues: Vec<Issue> = Vec::new();
    check_unused_imports(&ast, &mut issues);
    check_unused_functions(&ast, &mut issues);
    check_unused_variables(&ast, &mut issues);
    assert!(issues.is_empty());
}

fn func_tree(name_text: &[u8], with_call: bool) -> GoFile {
    // layout: "func NAME() {}\nNAME()"
    let mut content = b"func ".to_vec();
    content.extend_from_slice(name_text);
    content.extend_from_slice(b"() {}");
    let name_start = 5;
    let name_end = 5 + name_text.len();
    let decl_end = content.len();
    let mut nodes = Vec::new();
    let mut root = node(NodeKind::SourceFile, 0, decl_end, None);
    if with_call {
        content.push(b'\n');
        let call_start = content.len();
        content.extend_from_slice(name_text);
        content.extend_from_slice(b"()");
        root.children = vec![1, 3];
        root.end = content.len();
        let mut decl = node(NodeKind::FunctionDeclaration, 0, decl_end, Some(0));
        decl.f_name = Some(2);
        let ident = node(NodeKind::Identifier, name_start, name_end, Some(1));
        let mut call = node(NodeKind::CallExpression, call_start, content.len(), Some(0));
        call.f_function = Some(4);
        let call_ident = node(
            NodeKind::Identifier,
            call_start,
            call_start + name_text.len(),
            Some(3),
        );
        nodes.push(root);
        nodes.push(decl);
        nodes.push(ident);
        nodes.push(call);
        nodes.push(call_ident);
    } else {
        root.children = vec![1];
        let mut decl = node(NodeKind::FunctionDeclaration, 0, decl_end, Some(0));
        decl.f_name = Some(2);
        let ident = node(NodeKind::Identifier, name_start, name_end, Some(1));
        nodes.push(root);
        nodes.push(decl);
        nodes.push(ident);
    }
    file(&content, nodes)
}

#[test]
fn unused_function_reported_with_snippet() {
    let ast = func_tree(b"helper", false);
    let mut issues: Vec<Issue> = Vec::new();
    check_unused_functions(&ast, &mut issues);
    assert_eq!(issues.len(), 1);
    assert_eq!(issues[0].message, b"Unused function: helper".to_vec());
    assert_eq!(issues[0].code, b"func helper() {}".to_vec());
    assert!(issues[0].fix_available);
}

#[test]
fn called_function_not_reported() {
    let ast = func_tree(b"helper", true);
    let mut issues: Vec<Issue> = Vec::new();
    check_unused_functions(&ast, &mut issues);
    assert!(issues.is_empty());
}

#[test]
fn entry_points_and_exported_names_excluded() {
    for name in [&b"main"[..], &b"init"[..], &b"Helper"[..]] {
        let ast = func_tree(name, false);
        let mut issues: Vec<Issue> = Vec::new();
        check_unused_functions(&ast, &mut issues);
        assert!(issues.is_empty(), "{:?} must be excluded", name);
    }
}

#[test]
fn function_range_lookup() {
    let ast = func_tree(b"helper", false);
    assert_eq!(find_function_range(&ast, &b"helper".to_vec()), (0, 16));
    assert_eq!(find_function_range(&ast, &b"nosuch".to_vec()), (0, 0));
}

#[test]
fn unused_variable_reported() {
    // a declaration list whose single identifier never occurs elsewhere
    let content = b"x := 1";
    let mut root = node(NodeKind::SourceFile, 0, content.len(), None);
    root.children = vec![1];
    let mut short = node(NodeKind::ShortVarDeclaration, 0, content.len(), Some(0));
    short.f_left = Some(2);
    let mut list = node(NodeKind::VarSpec, 0, 1, Some(1));
    list.children = vec![3];
    list.f_name = Some(3);
    let ident = node(NodeKind::Identifier, 0, 1, Some(2));
    let ast = file(content, vec![root, short, list, ident]);
    let mut issues: Vec<Issue> = Vec::new();
    check_unused_variables(&ast, &mut issues);
    assert_eq!(issues.len(), 1);
    assert_eq!(issues[0].message, b"Unused variable: x".to_vec());
    assert_eq!(issues[0].code, b"x".to_vec());
}

#[test]
fn blank_identifier_variable_skipped() {
    let content = b"_ := 1";
    let mut root = node(NodeKind::SourceFile, 0, content.len(), None);
    root.children = vec![1];
    let mut short = node(NodeKind::ShortVarDeclaration, 0, content.len(), Some(0));
    short.f_left = Some(2);
    let mut list = node(NodeKind::VarSpec, 0, 1, Some(1));
    list.children = vec![3];
    list.f_name = Some(3);
    let ident = node(NodeKind::Identifier, 0, 1, Some(2));
    let ast = file(content, vec![root, short, list, ident]);
    let mut issues: Vec<Issue> = Vec::new();
    check_unused_variables(&ast, &mut issues);
    assert!(issues.is_empty());
}

#[test]
fn malformed_trees_are_rejected() {
    // a child link pointing backwards breaks well-formedness
    let mut bad = node(NodeKind::SourceFile, 0, 1, None);
    bad.children = vec![0];
    assert!(GoFile::from_parts(b"t.go".to_vec(), b"x".to_vec(), vec![bad]).is_none());
    // a byte range outside the content does too
    let bad2 = node(NodeKind::SourceFile, 0, 5, None);
    assert!(GoFile::from_parts(b"t.go".to_vec(), b"x".to_vec(), vec![bad2]).is_none());
}

#[test]
fn columns_count_characters_not_bytes() {
    // a two-byte character occupies one column
    let content = b"\xc3\xa9x\n\xc3\xa9y";
    let root = node(NodeKind::SourceFile, 0, content.len(), None);
    let ast = file(content, vec![root]);
    assert_eq!(ast.get_position(0), (1, 1));
    // after the two-byte character: column 2, not 3
    assert_eq!(ast.get_position(2), (1, 2));
    assert_eq!(ast.get_position(3), (1, 3));
    // after the newline and the next two-byte character
    assert_eq!(ast.get_position(6), (2, 2));
}

#[test]
fn config_defaults_match_documentation() {
    let c = Config::default_config();
    assert!(c.rules.syntax.enabled);
    assert_eq!(c.rules.syntax.max_line_length, 120);
    assert!(c.rules.dead_code.enabled);
    assert!(c.rules.dead_code.detect_unused_imports);
    assert!(c.rules.style.enforce_camel_case);
    assert!(c.rules.architecture.detect_circular_dependencies);
    assert_eq!(c.general.ignore_patterns.len(), 3);
    assert_eq!(c.general.exclude_dirs.len(), 4);
    assert_eq!(c.general.exclude_dirs[0], b"vendor".to_vec());
}
