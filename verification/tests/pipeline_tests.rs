use dioxide::analyzer::{analyze_file, is_excluded, is_go_file};
use dioxide::architecture::{build_dependency_graph, check_circular_dependencies, SourceFile};
use dioxide::config::{Config, GeneralConfig};
use dioxide::fixes::apply_fixes;
use dioxide::issue::{Issue, IssueType, Severity};
use dioxide::parser::{GoFile, NodeKind};

#[test]
fn go_file_detection() {
    assert!(is_go_file(&b"a.go".to_vec()));
    assert!(is_go_file(&b"dir/a.go".to_vec()));
    assert!(!is_go_file(&b"a.rs".to_vec()));
    assert!(!is_go_file(&b".go".to_vec()));
    assert!(!is_go_file(&b"dir/.go".to_vec()));
    assert!(!is_go_file(&b"ago".to_vec()));
}

#[test]
fn exclusion_by_pattern_and_directory() {
    let base = Config::default_config();
    let config = Config {
        general: GeneralConfig {
            ignore_patterns: vec!["^abc".to_string()],
            exclude_dirs: vec![b"vendor".to_vec()],
        },
        rules: base.rules,
    };
    assert!(is_excluded(&b"abcdef".to_vec(), &config));
    assert!(!is_excluded(&b"xabc".to_vec(), &config));
    assert!(is_excluded(&b"x/vendor/y.go".to_vec(), &config));
    let broken = Config {
        general: GeneralConfig {
            ignore_patterns: vec!["(".to_string()],
            exclude_dirs: Vec::new(),
        },
        rules: config.rules,
    };
    assert!(!is_excluded(&b"anything".to_vec(), &broken));
}

#[test]
fn parser_builds_a_usable_facade() {
    let src = b"package main\n\nimport \"fmt\"\n\nfunc main() {\n}\n".to_vec();
    let ast = GoFile::parse_source(b"main.go".to_vec(), src).expect("source parses");
    assert_eq!(ast.find_nodes(NodeKind::ImportSpec).len(), 1);
    assert_eq!(ast.find_nodes(NodeKind::FunctionDeclaration).len(), 1);
    assert_eq!(ast.find_nodes(NodeKind::PackageClause).len(), 1);
    assert_eq!(ast.get_position(0), (1, 1));
    // offset 14 is the start of the import line
    assert_eq!(ast.get_position(14), (3, 1));
    assert_eq!(ast.get_snippet(0, 7), b"package".to_vec());
    assert_eq!(ast.get_snippet(1000, 1001), Vec::<u8>::new());
}

#[test]
fn unused_fmt_import_end_to_end() {
    // one DeadCode finding, fixable; after autofix the import line is gone
    // and everything else is unchanged
    let path = b"/tmp/dx/main.go".to_vec();
    let src = b"package main\n\nimport \"fmt\"\n\nfunc main() {\n}\n".to_vec();
    let config = Config::default_config();
    let files = vec![SourceFile { path: path.clone(), content: src.clone() }];
    let graph = build_dependency_graph(&files);
    let mut issues: Vec<Issue> = Vec::new();
    let parsed = analyze_file(path.clone(), src.clone(), &config, &graph, &mut issues);
    assert!(parsed);
    assert_eq!(issues.len(), 1);
    assert!(matches!(issues[0].issue_type, IssueType::DeadCode));
    assert_eq!(issues[0].message, b"Unused import: \"fmt\"".to_vec());
    assert_eq!(issues[0].line, 3);
    assert!(issues[0].fix_available);

    let mut buffers = vec![SourceFile { path: path.clone(), content: src.clone() }];
    let fixed = apply_fixes(&issues, &mut buffers, &config);
    assert_eq!(fixed, 1);
    assert_eq!(buffers[0].content, b"package main\n\n\nfunc main() {\n}\n".to_vec());

    // a second analysis of the fixed file finds nothing further to fix
    let mut again: Vec<Issue> = Vec::new();
    let reparsed = analyze_file(path, buffers[0].content.clone(), &config, &graph, &mut again);
    assert!(reparsed);
    assert!(again.is_empty());
}

#[test]
fn internal_import_end_to_end() {
    // exactly one Architecture finding, severity Error, not fixable; autofix
    // leaves the file byte-identical
    let path = b"/tmp/dx2/a.go".to_vec();
    let src =
        b"package a\n\nimport \"example.com/internal/secret\"\n\nfunc A() {\n\tsecret.F()\n}\n"
            .to_vec();
    let config = Config::default_config();
    let files = vec![SourceFile { path: path.clone(), content: src.clone() }];
    let graph = build_dependency_graph(&files);
    let mut issues: Vec<Issue> = Vec::new();
    let parsed = analyze_file(path.clone(), src.clone(), &config, &graph, &mut issues);
    assert!(parsed);
    let arch: Vec<&Issue> = issues
        .iter()
        .filter(|i| matches!(i.issue_type, IssueType::Architecture))
        .collect();
    assert_eq!(arch.len(), 1);
    assert!(matches!(arch[0].severity, Severity::Error));
    assert!(!arch[0].fix_available);
    assert_eq!(issues.len(), 1);

    let mut buffers = vec![SourceFile { path: path.clone(), content: src.clone() }];
    let fixed = apply_fixes(&issues, &mut buffers, &config);
    assert_eq!(fixed, 0);
    assert_eq!(buffers[0].content, src);
}

#[test]
fn circular_imports_across_files_are_reported() {
    let fa = SourceFile {
        path: b"/r/src/a/f.go".to_vec(),
        content: b"package a\n\nimport \"b\"\n".to_vec(),
    };
    let fb = SourceFile {
        path: b"/r/src/b/f.go".to_vec(),
        content: b"package b\n\nimport \"c\"\n".to_vec(),
    };
    let fc = SourceFile {
        path: b"/r/src/c/f.go".to_vec(),
        content: b"package c\n\nimport \"b\"\n".to_vec(),
    };
    let files = vec![fa, fb, fc];
    let graph = build_dependency_graph(&files);
    let ast = GoFile::parse_source(
        b"/r/src/a/f.go".to_vec(),
        b"package a\n\nimport \"b\"\n".to_vec(),
    )
    .expect("source parses");
    let mut issues: Vec<Issue> = Vec::new();
    check_circular_dependencies(&graph, &ast, &mut issues);
    assert_eq!(issues.len(), 1);
    assert!(matches!(issues[0].issue_type, IssueType::Architecture));
    assert!(matches!(issues[0].severity, Severity::Error));
    assert_eq!(issues[0].message, b"Circular dependency detected: b -> c -> b".to_vec());
    assert_eq!(issues[0].line, 3);
    assert_eq!(issues[0].column, 1);
}

#[test]
fn acyclic_project_yields_no_cycle_finding() {
    let fa = SourceFile {
        path: b"/r/src/a/f.go".to_vec(),
        content: b"package a\n\nimport \"b\"\n".to_vec(),
    };
    let fb = SourceFile {
        path: b"/r/src/b/f.go".to_vec(),
        content: b"package b\n".to_vec(),
    };
    let files = vec![fa, fb];
    let graph = build_dependency_graph(&files);
    let ast = GoFile::parse_source(
        b"/r/src/a/f.go".to_vec(),
        b"package a\n\nimport \"b\"\n".to_vec(),
    )
    .expect("source parses");
    let mut issues: Vec<Issue> = Vec::new();
    check_circular_dependencies(&graph, &ast, &mut issues);
    assert!(issues.is_empty());
}

#[test]
fn style_findings_on_real_source() {
    // a glued keyword, space indentation and a snake-cased variable
    let path = b"/tmp/dx3/s.go".to_vec();
    let src = b"package main\n\nfunc main() {\n\tmy_var := 1\n\tif(my_var > 0) {\n  }\n}\n"
        .to_vec();
    let config = Config::default_config();
    let files = vec![SourceFile { path: path.clone(), content: src.clone() }];
    let graph = build_dependency_graph(&files);
    let mut issues: Vec<Issue> = Vec::new();
    let parsed = analyze_file(path, src, &config, &graph, &mut issues);
    assert!(parsed);
    let styles: Vec<&Issue> = issues
        .iter()
        .filter(|i| matches!(i.issue_type, IssueType::Style))
        .collect();
    assert!(styles.iter().any(|i| i.message == b"variable name should be camelCase: my_var".to_vec()));
    assert!(styles.iter().any(|i| i.message == b"missing space after control statement: if".to_vec()));
    assert!(styles.iter().any(|i| i.message == b"Use tabs for indentation in Go, not spaces".to_vec()));
}

#[test]
fn long_lines_are_flagged_with_exact_message() {
    let path = b"/tmp/dx4/l.go".to_vec();
    let mut line = b"var x = \"".to_vec();
    line.extend(std::iter::repeat(b'a').take(120));
    line.extend_from_slice(b"\"");
    let mut src = b"package main\n".to_vec();
    src.extend_from_slice(&line);
    src.push(b'\n');
    let config = Config::default_config();
    let files = vec![SourceFile { path: path.clone(), content: src.clone() }];
    let graph = build_dependency_graph(&files);
    let mut issues: Vec<Issue> = Vec::new();
    let parsed = analyze_file(path, src, &config, &graph, &mut issues);
    assert!(parsed);
    let long: Vec<&Issue> = issues
        .iter()
        .filter(|i| matches!(i.issue_type, IssueType::Syntax))
        .collect();
    assert_eq!(long.len(), 1);
    assert_eq!(long[0].message, b"Line too long (130 > 120 characters)".to_vec());
    assert_eq!(long[0].line, 2);
}

#[test]
fn line_exactly_at_the_maximum_is_fine() {
    let path = b"/tmp/dx5/m.go".to_vec();
    // "var x = \"" + padding + "\"" makes the line exactly 120 bytes
    let mut line = b"var x = \"".to_vec();
    line.extend(std::iter::repeat(b'a').take(110));
    line.extend_from_slice(b"\"");
    assert_eq!(line.len(), 120);
    let mut src = b"package main\n".to_vec();
    src.extend_from_slice(&line);
    src.push(b'\n');
    let config = Config::default_config();
    let files = vec![SourceFile { path: path.clone(), content: src.clone() }];
    let graph = build_dependency_graph(&files);
    let mut issues: Vec<Issue> = Vec::new();
    assert!(analyze_file(path, src, &config, &graph, &mut issues));
    assert!(!issues.iter().any(|i| matches!(i.issue_type, IssueType::Syntax)));
}
