use dioxide::architecture::{
    check_package_boundaries, extract_package_path, find_cycle, find_import_line,
    find_project_root, DepEntry, DepGraph,
};
use dioxide::issue::{Issue, IssueType, Severity};
use dioxide::parser::{GoFile, NodeData, NodeKind};

fn mk_node(kind: NodeKind, start: usize, end: usize, parent: Option<usize>) -> NodeData {
    NodeData {
        kind,
        kind_raw: Vec::new(),
        start,
        end,
        parent,
        children: Vec::new(),
        f_name: None,
        f_path: None,
        f_operand: None,
        f_package: None,
        f_type: None,
        f_function: None,
        f_left: None,
        f_body: None,
        f_consequence: None,
    }
}

#[test]
fn package_path_from_file_path() {
    assert_eq!(extract_package_path(&b"/r/src/a/b.go".to_vec()), b"a".to_vec());
    assert_eq!(extract_package_path(&b"/r/src/a/sub/b.go".to_vec()), b"a/sub".to_vec());
    assert_eq!(extract_package_path(&b"/x/y/z.go".to_vec()), b"/x/y".to_vec());
    assert_eq!(extract_package_path(&b"rel.go".to_vec()), b"".to_vec());
}

fn graph(edges: &[(&[u8], &[&[u8]])]) -> DepGraph {
    let mut entries = Vec::new();
    for (pkg, imports) in edges {
        entries.push(DepEntry {
            pkg: pkg.to_vec(),
            imports: imports.iter().map(|i| i.to_vec()).collect(),
        });
    }
    DepGraph { entries }
}

#[test]
fn cycle_found_from_every_member() {
    let g = graph(&[
        (b"A", &[b"B"]),
        (b"B", &[b"C"]),
        (b"C", &[b"A"]),
    ]);
    for start in [&b"A"[..], &b"B"[..], &b"C"[..]] {
        let r = find_cycle(&g, &start.to_vec(), &Vec::new(), &Vec::new());
        let cycle = r.expect("a cycle must be found");
        assert!(cycle.len() >= 2);
        assert_eq!(cycle[0], cycle[cycle.len() - 1]);
    }
    // the depth-first search surfaces the whole ring from its start
    let from_a = find_cycle(&g, &b"A".to_vec(), &Vec::new(), &Vec::new()).unwrap();
    assert_eq!(from_a, vec![b"A".to_vec(), b"B".to_vec(), b"C".to_vec(), b"A".to_vec()]);
}

#[test]
fn acyclic_graph_finds_no_cycle() {
    let g = graph(&[
        (b"A", &[b"B", b"C"]),
        (b"B", &[b"C"]),
        (b"C", &[]),
    ]);
    for start in [&b"A"[..], &b"B"[..], &b"C"[..]] {
        let r = find_cycle(&g, &start.to_vec(), &Vec::new(), &Vec::new());
        assert!(r.is_none());
    }
}

#[test]
fn self_loop_is_a_cycle() {
    let g = graph(&[(b"A", &[b"A"])]);
    let cycle = find_cycle(&g, &b"A".to_vec(), &Vec::new(), &Vec::new()).unwrap();
    assert_eq!(cycle, vec![b"A".to_vec(), b"A".to_vec()]);
}

fn import_file(path: &[u8], import_text: &[u8]) -> GoFile {
    // "package p\nimport IMPORT"
    let mut content = b"package p\nimport ".to_vec();
    let spec_start = content.len();
    content.extend_from_slice(import_text);
    let mut root = mk_node(NodeKind::SourceFile, 0, content.len(), None);
    root.children = vec![1, 2];
    let pkg = mk_node(NodeKind::PackageClause, 0, 9, Some(0));
    let mut spec = mk_node(NodeKind::ImportSpec, spec_start, content.len(), Some(0));
    spec.f_path = Some(3);
    let path_node = mk_node(NodeKind::Other, spec_start, content.len(), Some(2));
    GoFile::from_parts(path.to_vec(), content, vec![root, pkg, spec, path_node])
        .expect("well-formed tree")
}

#[test]
fn internal_import_is_an_error() {
    let ast = import_file(b"/tmp/app/main.go", b"\"proj/internal/x\"");
    let mut issues: Vec<Issue> = Vec::new();
    check_package_boundaries(&ast, &mut issues);
    assert_eq!(issues.len(), 1);
    assert!(matches!(issues[0].issue_type, IssueType::Architecture));
    assert!(matches!(issues[0].severity, Severity::Error));
    assert!(!issues[0].fix_available);
    assert_eq!(issues[0].code, b"proj/internal/x".to_vec());
}

#[test]
fn internal_import_from_inside_subtree_is_fine() {
    let ast = import_file(b"/tmp/app/internal/main.go", b"\"proj/internal/x\"");
    let mut issues: Vec<Issue> = Vec::new();
    check_package_boundaries(&ast, &mut issues);
    assert!(issues.is_empty());
}

#[test]
fn same_module_cross_directory_warns() {
    let ast = import_file(b"/r/src/a/b.go", b"\"a/c\"");
    let mut issues: Vec<Issue> = Vec::new();
    check_package_boundaries(&ast, &mut issues);
    assert_eq!(issues.len(), 1);
    assert!(matches!(issues[0].severity, Severity::Warning));
    assert!(!issues[0].fix_available);
}

#[test]
fn import_of_own_package_does_not_warn() {
    let ast = import_file(b"/r/src/a/b.go", b"\"x/a\"");
    let mut issues: Vec<Issue> = Vec::new();
    check_package_boundaries(&ast, &mut issues);
    assert!(issues.is_empty());
}

#[test]
fn import_line_lookup() {
    let ast = import_file(b"/tmp/app/main.go", b"\"proj/internal/x\"");
    assert_eq!(find_import_line(&ast, &b"internal".to_vec()), Some(2));
    assert_eq!(find_import_line(&ast, &b"nothing-like-it".to_vec()), None);
}

#[test]
fn project_root_walks_upward() {
    let marked = vec![b"/a".to_vec()];
    assert_eq!(find_project_root(&b"/a/b/c.go".to_vec(), true, &marked), b"/a".to_vec());
    let marked2 = vec![b"/a/b".to_vec()];
    assert_eq!(find_project_root(&b"/a/b/c.go".to_vec(), true, &marked2), b"/a/b".to_vec());
    let none: Vec<Vec<u8>> = Vec::new();
    assert_eq!(find_project_root(&b"/a/b/c.go".to_vec(), true, &none), b"/a/b".to_vec());
}
