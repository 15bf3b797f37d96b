use vstd::prelude::*;
use vstd::string::StringSliceAdditionalSpecFns;
use crate::config::Config;
use crate::issue::Issue;
use crate::issue::IssueModel;
use crate::issue::IssueType;
use crate::issue::Severity;
use crate::parser::GoFile;
use crate::parser::NodeKind;
use crate::parser::kind_indices;
use crate::parser::lemma_kind_indices;
use crate::parser::node_wf;
use crate::parser::line_at;
use crate::parser::column_at;
use crate::dead_code::node_text;
use crate::dead_code::node_snippet;
use crate::text::append_bytes;
use crate::text::clone_bytes;
use crate::text::contains_sub;
use crate::text::dec_digits;
use crate::text::has_sub;
use crate::text::lit_bytes;
use crate::text::split_lines;
use crate::text::split_lines_spec;
use crate::text::usize_to_dec;

verus! {

broadcast use crate::text::lemma_bytes_deep;

// ---------------------------------------------------------------------------
// The syntax pass: parse-error nodes and over-long lines.
// ---------------------------------------------------------------------------

/// The message reported for a parse-error node, chosen by the parent's
/// structural kind.
pub open spec fn syntax_error_message(f: GoFile, i: int) -> Seq<u8> {
    let n = f.nodes@[i];
    match n.parent {
        Some(p) => {
            let pk = f.nodes@[p as int].kind;
            if pk == NodeKind::FunctionDeclaration {
                "Syntax error in function declaration".spec_bytes()
            } else if pk == NodeKind::ImportDeclaration {
                "Syntax error in import statement".spec_bytes()
            } else if pk == NodeKind::VarDeclaration {
                "Syntax error in variable declaration".spec_bytes()
            } else if pk == NodeKind::IfStatement {
                "Syntax error in if statement".spec_bytes()
            } else if pk == NodeKind::ForStatement {
                "Syntax error in for loop".spec_bytes()
            } else {
                "Syntax error in ".spec_bytes() + f.nodes@[p as int].kind_raw@
            }
        },
        None => "Syntax error".spec_bytes(),
    }
}

/// Whether a parse error is mechanically fixable: a malformed import, a
/// function header without its opening brace, or a block without its
/// closing brace.
pub open spec fn syntax_error_fixable(f: GoFile, i: int) -> bool {
    let n = f.nodes@[i];
    let text = node_text(f, i);
    match n.parent {
        Some(p) => {
            let pk = f.nodes@[p as int].kind;
            if pk == NodeKind::ImportDeclaration {
                true
            } else if pk == NodeKind::FunctionDeclaration {
                has_sub(text, "func".spec_bytes()) && !has_sub(text, "{".spec_bytes())
            } else if pk == NodeKind::Block {
                !has_sub(text, "}".spec_bytes())
            } else {
                false
            }
        },
        None => false,
    }
}

pub open spec fn syntax_error_issue(f: GoFile, path: Seq<u8>, i: int) -> IssueModel {
    let n = f.nodes@[i];
    IssueModel {
        file_path: path,
        line: line_at(f.content@, n.start as int),
        column: column_at(f.content@, n.start as int),
        issue_type: IssueType::Syntax,
        severity: Severity::Error,
        message: syntax_error_message(f, i),
        code: node_text(f, i),
        fix_available: syntax_error_fixable(f, i),
    }
}

pub open spec fn syntax_error_findings_upto(f: GoFile, path: Seq<u8>, t: int) -> Seq<IssueModel>
    decreases t,
{
    if t <= 0 {
        Seq::empty()
    } else {
        syntax_error_findings_upto(f, path, t - 1).push(
            syntax_error_issue(f, path, kind_indices(f.nodes@, NodeKind::ParseError)[t - 1] as int),
        )
    }
}

/// One Syntax finding per parse-error node.
pub open spec fn syntax_error_findings(f: GoFile, path: Seq<u8>) -> Seq<IssueModel> {
    syntax_error_findings_upto(f, path, kind_indices(f.nodes@, NodeKind::ParseError).len() as int)
}

/// Whether an over-long line can be soft-wrapped: it offers a comma or an
/// operator with surrounding spaces to break at.
pub open spec fn fixable_line_length(line: Seq<u8>) -> bool {
    ||| has_sub(line, ", ".spec_bytes())
    ||| has_sub(line, " + ".spec_bytes())
    ||| has_sub(line, " && ".spec_bytes())
    ||| has_sub(line, " || ".spec_bytes())
}

/// Whether the soft-wrap fix applies to an over-long line.
pub fn is_fixable_line_length(line: &Vec<u8>) -> (r: bool)
    ensures
        r == fixable_line_length(line@),
{
    contains_sub(line, &lit_bytes(", ")) || contains_sub(line, &lit_bytes(" + ")) || contains_sub(
        line,
        &lit_bytes(" && "),
    ) || contains_sub(line, &lit_bytes(" || "))
}

pub open spec fn line_length_message(len: int, max: int) -> Seq<u8> {
    "Line too long (".spec_bytes() + dec_digits(len as nat) + " > ".spec_bytes() + dec_digits(
        max as nat,
    ) + " characters)".spec_bytes()
}

pub open spec fn line_length_issue(path: Seq<u8>, line: Seq<u8>, idx: int, max: int) -> IssueModel {
    IssueModel {
        file_path: path,
        line: idx + 1,
        column: 1,
        issue_type: IssueType::Syntax,
        severity: Severity::Warning,
        message: line_length_message(line.len() as int, max),
        code: line,
        fix_available: fixable_line_length(line),
    }
}

pub open spec fn line_length_findings_upto(
    path: Seq<u8>,
    lines: Seq<Seq<u8>>,
    max: int,
    t: int,
) -> Seq<IssueModel>
    decreases t,
{
    if t <= 0 {
        Seq::empty()
    } else {
        let prev = line_length_findings_upto(path, lines, max, t - 1);
        if lines[t - 1].len() > max {
            prev.push(line_length_issue(path, lines[t - 1], t - 1, max))
        } else {
            prev
        }
    }
}

/// One Syntax warning per line longer than the configured maximum; a
/// maximum of zero disables the check.
pub open spec fn line_length_findings(f: GoFile, path: Seq<u8>, max: int) -> Seq<IssueModel> {
    if max == 0 {
        Seq::empty()
    } else {
        let lines = split_lines_spec(f.content@);
        line_length_findings_upto(path, lines, max, lines.len() as int)
    }
}

/// All findings of the syntax pass.
pub open spec fn syntax_findings(f: GoFile, path: Seq<u8>, max: int) -> Seq<IssueModel> {
    syntax_error_findings(f, path) + line_length_findings(f, path, max)
}

fn check_syntax_errors(ast: &GoFile, issues: &mut Vec<Issue>)
    requires
        ast.wf(),
    ensures
        final(issues).deep_view() == old(issues).deep_view() + syntax_error_findings(
            *ast,
            ast.path@,
        ),
{
    let idxs = ast.find_nodes(NodeKind::ParseError);
    proof {
        assert(ast.nodes@.len() <= usize::MAX) by {
            assert(ast.nodes.len() == ast.nodes@.len());
        }
        lemma_kind_indices(ast.nodes@, NodeKind::ParseError);
    }
    let mut t: usize = 0;
    while t < idxs.len()
        invariant
            ast.wf(),
            t <= idxs@.len(),
            idxs@ == kind_indices(ast.nodes@, NodeKind::ParseError),
            forall|u: int| 0 <= u < idxs@.len() ==> #[trigger] idxs@[u] < ast.nodes@.len(),
            issues.deep_view() == old(issues).deep_view() + syntax_error_findings_upto(
                *ast,
                ast.path@,
                t as int,
            ),
        decreases idxs@.len() - t,
    {
        let i = idxs[t];
        proof {
            assert(node_wf(ast.nodes@, ast.content@.len() as int, i as int));
        }
        let n = &ast.nodes[i];
        let text = node_snippet(ast, i);
        let pos = ast.get_position(n.start);
        let message: Vec<u8> = match n.parent {
            Some(p) => {
                let pn = &ast.nodes[p];
                if pn.kind == NodeKind::FunctionDeclaration {
                    lit_bytes("Syntax error in function declaration")
                } else if pn.kind == NodeKind::ImportDeclaration {
                    lit_bytes("Syntax error in import statement")
                } else if pn.kind == NodeKind::VarDeclaration {
                    lit_bytes("Syntax error in variable declaration")
                } else if pn.kind == NodeKind::IfStatement {
                    lit_bytes("Syntax error in if statement")
                } else if pn.kind == NodeKind::ForStatement {
                    lit_bytes("Syntax error in for loop")
                } else {
                    let mut m = lit_bytes("Syntax error in ");
                    append_bytes(&mut m, &pn.kind_raw);
                    m
                }
            },
            None => lit_bytes("Syntax error"),
        };
        let fixable: bool = match n.parent {
            Some(p) => {
                let pn = &ast.nodes[p];
                if pn.kind == NodeKind::ImportDeclaration {
                    true
                } else if pn.kind == NodeKind::FunctionDeclaration {
                    contains_sub(&text, &lit_bytes("func")) && !contains_sub(&text, &lit_bytes("{"))
                } else if pn.kind == NodeKind::Block {
                    !contains_sub(&text, &lit_bytes("}"))
                } else {
                    false
                }
            },
            None => false,
        };
        let ghost pre = issues.deep_view();
        issues.push(
            Issue {
                file_path: ast.path.clone(),
                line: pos.0,
                column: pos.1,
                issue_type: IssueType::Syntax,
                severity: Severity::Error,
                message,
                code: text,
                fix_available: fixable,
            },
        );
        proof {
            assert(issues.deep_view() =~= pre.push(syntax_error_issue(*ast, ast.path@, i as int)));
        }
        t += 1;
    }
}

fn check_line_length(ast: &GoFile, max_line_length: usize, issues: &mut Vec<Issue>)
    requires
        ast.wf(),
    ensures
        final(issues).deep_view() == old(issues).deep_view() + line_length_findings(
            *ast,
            ast.path@,
            max_line_length as int,
        ),
{
    if max_line_length == 0 {
        proof {
            assert(issues.deep_view() =~= old(issues).deep_view() + Seq::<IssueModel>::empty());
        }
        return ;
    }
    let lines = split_lines(&ast.content);
    let ghost ldv = lines.deep_view();
    let mut t: usize = 0;
    while t < lines.len()
        invariant
            ast.wf(),
            t <= lines@.len(),
            max_line_length > 0,
            ldv == lines.deep_view(),
            ldv == split_lines_spec(ast.content@),
            ldv.len() == lines@.len(),
            issues.deep_view() == old(issues).deep_view() + line_length_findings_upto(
                ast.path@,
                ldv,
                max_line_length as int,
                t as int,
            ),
        decreases lines@.len() - t,
    {
        let line = &lines[t];
        if line.len() > max_line_length {
            let msg = line_length_msg(line.len(), max_line_length);
            let fixable = is_fixable_line_length(line);
            let ghost pre = issues.deep_view();
            issues.push(
                Issue {
                    file_path: ast.path.clone(),
                    line: t + 1,
                    column: 1,
                    issue_type: IssueType::Syntax,
                    severity: Severity::Warning,
                    message: msg,
                    code: clone_bytes(line),
                    fix_available: fixable,
                },
            );
            proof {
                assert(issues.deep_view() =~= pre.push(
                    line_length_issue(ast.path@, ldv[t as int], t as int, max_line_length as int),
                ));
            }
        }
        t += 1;
    }
}

fn line_length_msg(len: usize, max: usize) -> (m: Vec<u8>)
    ensures
        m@ == line_length_message(len as int, max as int),
{
    let mut m = lit_bytes("Line too long (");
    let d1 = usize_to_dec(len);
    append_bytes(&mut m, &d1);
    let mid = lit_bytes(" > ");
    append_bytes(&mut m, &mid);
    let d2 = usize_to_dec(max);
    append_bytes(&mut m, &d2);
    let tail = lit_bytes(" characters)");
    append_bytes(&mut m, &tail);
    m
}

/// Run the syntax pass: parse errors first, then the line-length check.
pub fn analyze(ast: &GoFile, config: &Config, issues: &mut Vec<Issue>)
    requires
        ast.wf(),
    ensures
        final(issues).deep_view() == old(issues).deep_view() + syntax_findings(
            *ast,
            ast.path@,
            config.rules.syntax.max_line_length as int,
        ),
{
    check_syntax_errors(ast, issues);
    check_line_length(ast, config.rules.syntax.max_line_length, issues);
    proof {
        assert(issues.deep_view() =~= old(issues).deep_view() + syntax_findings(
            *ast,
            ast.path@,
            config.rules.syntax.max_line_length as int,
        ));
    }
}

} // verus!
