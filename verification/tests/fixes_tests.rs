use dioxide::architecture::SourceFile;
use dioxide::config::Config;
use dioxide::fixes::{apply_fixes, fix_dead_code_issue, fix_style_issue, fix_syntax_issue};
use dioxide::issue::{Issue, IssueType, Severity};
use dioxide::style::fix_camel_case;
use dioxide::syntax::is_fixable_line_length;

fn issue(kind: IssueType, line: usize, message: &[u8], code: &[u8], fixable: bool) -> Issue {
    Issue {
        file_path: b"f.go".to_vec(),
        line,
        column: 1,
        issue_type: kind,
        severity: Severity::Warning,
        message: message.to_vec(),
        code: code.to_vec(),
        fix_available: fixable,
    }
}

#[test]
fn syntax_fix_appends_missing_semicolon() {
    let mut content = b"a = b\nc".to_vec();
    let i = issue(IssueType::Syntax, 1, b"missing semicolon", b"", true);
    assert!(fix_syntax_issue(&i, &mut content));
    assert_eq!(content, b"a = b;\nc".to_vec());
}

#[test]
fn syntax_fix_normalizes_malformed_import() {
    let mut content = b"import fmt".to_vec();
    let i = issue(IssueType::Syntax, 1, b"Syntax error in import statement", b"", true);
    assert!(fix_syntax_issue(&i, &mut content));
    assert_eq!(content, b"import \"fmt\"".to_vec());
}

#[test]
fn syntax_fix_closes_import_group() {
    let mut content = b"import (\"fmt\"".to_vec();
    let i = issue(IssueType::Syntax, 1, b"Syntax error in import statement", b"", true);
    assert!(fix_syntax_issue(&i, &mut content));
    assert_eq!(content, b"import (\"fmt\")".to_vec());
}

#[test]
fn syntax_fix_out_of_range_line_fails() {
    let mut content = b"a".to_vec();
    let i = issue(IssueType::Syntax, 9, b"missing semicolon", b"", true);
    assert!(!fix_syntax_issue(&i, &mut content));
    assert_eq!(content, b"a".to_vec());
}

#[test]
fn dead_code_fix_removes_single_line_import() {
    let mut content = b"package m\nimport \"fmt\"\nrest".to_vec();
    let i = issue(IssueType::DeadCode, 2, b"Unused import: \"fmt\"", b"\"fmt\"", true);
    assert!(fix_dead_code_issue(&i, &mut content));
    assert_eq!(content, b"package m\nrest\n".to_vec());
}

#[test]
fn dead_code_fix_strips_import_from_block() {
    let mut content = b"import (\n\t\"fmt\"\n\t\"os\"\n)\nrest".to_vec();
    let i = issue(IssueType::DeadCode, 2, b"Unused import: \"fmt\"", b"\"fmt\"", true);
    assert!(fix_dead_code_issue(&i, &mut content));
    assert_eq!(content, b"import (\n\t\"os\"\n)\nrest".to_vec());
}

#[test]
fn dead_code_fix_drops_emptied_block() {
    let mut content = b"import (\n\t\"fmt\"\n)\nrest".to_vec();
    let i = issue(IssueType::DeadCode, 2, b"Unused import: \"fmt\"", b"\"fmt\"", true);
    assert!(fix_dead_code_issue(&i, &mut content));
    assert_eq!(content, b"\nrest".to_vec());
}

#[test]
fn dead_code_fix_keeps_comment_lines_in_block() {
    let mut content = b"import (\n\t// \"fmt\" is kept\n\t\"fmt\"\n\t\"os\"\n)\n".to_vec();
    let i = issue(IssueType::DeadCode, 3, b"Unused import: \"fmt\"", b"\"fmt\"", true);
    assert!(fix_dead_code_issue(&i, &mut content));
    // the leading whitespace of the block's first line belongs to the
    // matched frame and is not put back
    assert_eq!(content, b"import (\n// \"fmt\" is kept\n\t\"os\"\n)\n".to_vec());
}

#[test]
fn dead_code_fix_comments_out_unused_function() {
    let mut content = b"a\nfunc f() {}\nb".to_vec();
    let i = issue(IssueType::DeadCode, 2, b"Unused function: f", b"f", true);
    assert!(fix_dead_code_issue(&i, &mut content));
    assert_eq!(
        content,
        b"a\n// Commented out unused code\nfunc f() {}\n// End of commented code\n\nb".to_vec()
    );
}

#[test]
fn style_fix_wraps_long_line_at_comma() {
    let mut config = Config::default_config();
    config.rules.syntax.max_line_length = 10;
    let mut content = b"aaa, bbbbbbbb".to_vec();
    let i = issue(IssueType::Style, 1, b"Line too long (13 > 10 characters)", b"", true);
    assert!(fix_style_issue(&i, &mut content, &config));
    assert_eq!(content, b"aaa,\n\t bbbbbbbb".to_vec());
}

#[test]
fn style_fix_inserts_space_after_keyword() {
    let config = Config::default_config();
    let mut content = b"if(x) {".to_vec();
    let i = issue(
        IssueType::Style,
        1,
        b"missing space after control statement: if",
        b"",
        true,
    );
    assert!(fix_style_issue(&i, &mut content, &config));
    assert_eq!(content, b"if (x) {".to_vec());
}

#[test]
fn style_fix_camel_cases_snake_names() {
    let config = Config::default_config();
    let mut content = b"foo_bar := 1".to_vec();
    let i = issue(
        IssueType::Style,
        1,
        b"variable name should be camelCase: foo_bar",
        b"foo_bar",
        true,
    );
    assert!(fix_style_issue(&i, &mut content, &config));
    assert_eq!(content, b"fooBar := 1".to_vec());
}

#[test]
fn style_fix_replaces_leading_spaces_with_tabs() {
    let config = Config::default_config();
    for (input, expected) in [
        (&b"   x"[..], &b"\tx"[..]),
        (&b"    x"[..], &b"\tx"[..]),
        (&b"     x"[..], &b"\t\tx"[..]),
    ] {
        let mut content = input.to_vec();
        let i = issue(IssueType::Style, 1, b"Use tabs for indentation in Go, not spaces", b"", true);
        assert!(fix_style_issue(&i, &mut content, &config));
        assert_eq!(content, expected.to_vec());
    }
}

#[test]
fn camel_case_rewrites_are_local() {
    assert_eq!(fix_camel_case(&b"a foo_bar b".to_vec()), b"a fooBar b".to_vec());
    assert_eq!(fix_camel_case(&b"x_y".to_vec()), b"xY".to_vec());
    assert_eq!(fix_camel_case(&b"a_b_c".to_vec()), b"a_b_c".to_vec());
    assert_eq!(fix_camel_case(&b"Upper_case".to_vec()), b"Upper_case".to_vec());
    assert_eq!(fix_camel_case(&b"no snakes here".to_vec()), b"no snakes here".to_vec());
}

#[test]
fn line_length_fixability() {
    assert!(is_fixable_line_length(&b"a, b".to_vec()));
    assert!(is_fixable_line_length(&b"a + b".to_vec()));
    assert!(is_fixable_line_length(&b"a && b".to_vec()));
    assert!(is_fixable_line_length(&b"a || b".to_vec()));
    assert!(!is_fixable_line_length(&b"abcdef".to_vec()));
}

#[test]
fn style_fixes_are_idempotent_per_line() {
    // a second pass over an already-fixed line finds nothing left to do
    let config = Config::default_config();
    let cases: [(&[u8], &[u8]); 3] = [
        (b"missing space after control statement: if", b"if(x) {"),
        (b"variable name should be camelCase: foo_bar", b"foo_bar := 1"),
        (b"Use tabs for indentation in Go, not spaces", b"    x"),
    ];
    for (msg, line) in cases {
        let mut content = line.to_vec();
        let i = issue(IssueType::Style, 1, msg, b"", true);
        assert!(fix_style_issue(&i, &mut content, &config));
        let once = content.clone();
        assert!(!fix_style_issue(&i, &mut content, &config));
        assert_eq!(content, once);
    }
}

#[test]
fn comment_fix_leaves_declaration_present() {
    // the conservative DeadCode fix keeps the code, so the declaration may
    // be flagged again on a second analysis; the fix itself must still
    // apply cleanly
    let mut content = b"func f() {}".to_vec();
    let i = issue(IssueType::DeadCode, 1, b"Unused function: f", b"f", true);
    assert!(fix_dead_code_issue(&i, &mut content));
    assert!(content.windows(11).any(|w| w == b"func f() {}"));
}

#[test]
fn engine_counts_fixes_and_edits_only_named_files() {
    let config = Config::default_config();
    let mut files = vec![
        SourceFile { path: b"f.go".to_vec(), content: b"package m\nimport \"fmt\"\nrest".to_vec() },
        SourceFile { path: b"clean.go".to_vec(), content: b"package m\n".to_vec() },
    ];
    let issues = vec![issue(IssueType::DeadCode, 2, b"Unused import: \"fmt\"", b"\"fmt\"", true)];
    let fixed = apply_fixes(&issues, &mut files, &config);
    assert_eq!(fixed, 1);
    assert_eq!(files[0].content, b"package m\nrest\n".to_vec());
    assert_eq!(files[1].content, b"package m\n".to_vec());
}

#[test]
fn engine_leaves_files_untouched_without_findings() {
    // round trip: no findings at all, every file byte-identical
    let config = Config::default_config();
    let original = b"package m\n\nfunc main() {\n}\n".to_vec();
    let mut files = vec![SourceFile { path: b"f.go".to_vec(), content: original.clone() }];
    let issues: Vec<Issue> = Vec::new();
    let fixed = apply_fixes(&issues, &mut files, &config);
    assert_eq!(fixed, 0);
    assert_eq!(files[0].content, original);
}

#[test]
fn engine_skips_unfixable_findings() {
    let config = Config::default_config();
    let original = b"package m\nimport \"proj/internal/x\"\n".to_vec();
    let mut files = vec![SourceFile { path: b"f.go".to_vec(), content: original.clone() }];
    let issues = vec![issue(
        IssueType::Architecture,
        2,
        b"Importing from an 'internal' package that should not be imported directly: proj/internal/x",
        b"proj/internal/x",
        false,
    )];
    let fixed = apply_fixes(&issues, &mut files, &config);
    assert_eq!(fixed, 0);
    assert_eq!(files[0].content, original);
}
