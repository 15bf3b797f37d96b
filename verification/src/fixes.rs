use vstd::prelude::*;
use vstd::string::StringSliceAdditionalSpecFns;
use crate::architecture::SourceFile;
use crate::architecture::SourceFileModel;
use crate::config::Config;
use crate::config::Rules;
use crate::issue::Issue;
use crate::issue::IssueModel;
use crate::issue::IssueType;
use crate::style::camel_fix;
use crate::style::fix_camel_case;
use crate::style::has_snake;
use crate::style::has_snake_exec;
use crate::text::NL;
use crate::text::SPACE;
use crate::text::TAB;
use crate::text::append_bytes;
use crate::text::clone_bytes;
use crate::text::contains_sub;
use crate::text::has_sub;
use crate::text::join_sep;
use crate::text::join_sep_spec;
use crate::text::lit_bytes;
use crate::text::match_at;
use crate::text::split_lines;
use crate::text::split_lines_spec;
use crate::text::starts_with;
use crate::text::subvec;
use crate::text::trim_spec;
use crate::text::trim_ws;

verus! {

broadcast use crate::text::lemma_bytes_deep;

// ---------------------------------------------------------------------------
// The autofix engine: per-category textual transformations over in-memory
// file contents, grouped and persisted by the caller.
// ---------------------------------------------------------------------------

/// Strip every leading repetition of `import` from `s`.
pub open spec fn strip_import_prefix(s: Seq<u8>) -> Seq<u8>
    decreases s.len(),
{
    if starts_with(s, "import".spec_bytes()) && "import".spec_bytes().len() > 0 {
        strip_import_prefix(s.skip("import".spec_bytes().len() as int))
    } else {
        s
    }
}

fn strip_import_prefix_exec(s: &Vec<u8>) -> (r: Vec<u8>)
    ensures
        r@ == strip_import_prefix(s@),
    decreases s@.len(),
{
    let needle = lit_bytes("import");
    if crate::text::check_starts_with(s, &needle) && needle.len() > 0 {
        let rest = subvec(s, needle.len(), s.len());
        proof {
            assert(rest@ =~= s@.skip(needle@.len() as int));
        }
        strip_import_prefix_exec(&rest)
    } else {
        clone_bytes(s)
    }
}

/// The normalized text of a malformed import line: surrounding whitespace
/// and leading `import` repetitions removed, then quoted.
pub open spec fn normalized_import(l: Seq<u8>) -> Seq<u8> {
    "import \"".spec_bytes() + trim_spec(strip_import_prefix(trim_spec(l, false)), false)
        + "\"".spec_bytes()
}

/// The repaired form of the line a Syntax finding points at, if the message
/// names a repair: append the missing closing token, or normalize a
/// malformed import.
pub open spec fn fix_syntax_line(msg: Seq<u8>, l: Seq<u8>) -> Option<Seq<u8>> {
    if has_sub(msg, "missing semicolon".spec_bytes()) {
        Some(l + ";".spec_bytes())
    } else if has_sub(msg, "unmatched parenthesis".spec_bytes()) || has_sub(
        msg,
        "unclosed parenthesis".spec_bytes(),
    ) {
        Some(l + ")".spec_bytes())
    } else if has_sub(msg, "missing closing brace".spec_bytes()) || has_sub(
        msg,
        "unclosed brace".spec_bytes(),
    ) {
        Some(l + "}".spec_bytes())
    } else if has_sub(msg, "missing closing bracket".spec_bytes()) || has_sub(
        msg,
        "unclosed bracket".spec_bytes(),
    ) {
        Some(l + "]".spec_bytes())
    } else if has_sub(msg, "import".spec_bytes()) && has_sub(msg, "Syntax error".spec_bytes()) {
        if !has_sub(l, "\"".spec_bytes()) && !has_sub(l, "(".spec_bytes()) {
            Some(normalized_import(l))
        } else if has_sub(l, "\"".spec_bytes()) && has_sub(l, "(".spec_bytes()) && !has_sub(
            l,
            ")".spec_bytes(),
        ) {
            Some(l + ")".spec_bytes())
        } else {
            None
        }
    } else {
        None
    }
}

fn fix_syntax_line_exec(msg: &Vec<u8>, l: &Vec<u8>) -> (r: Option<Vec<u8>>)
    ensures
        r.deep_view() == fix_syntax_line(msg@, l@),
{
    if contains_sub(msg, &lit_bytes("missing semicolon")) {
        let mut nl = clone_bytes(l);
        append_bytes(&mut nl, &lit_bytes(";"));
        Some(nl)
    } else if contains_sub(msg, &lit_bytes("unmatched parenthesis")) || contains_sub(
        msg,
        &lit_bytes("unclosed parenthesis"),
    ) {
        let mut nl = clone_bytes(l);
        append_bytes(&mut nl, &lit_bytes(")"));
        Some(nl)
    } else if contains_sub(msg, &lit_bytes("missing closing brace")) || contains_sub(
        msg,
        &lit_bytes("unclosed brace"),
    ) {
        let mut nl = clone_bytes(l);
        append_bytes(&mut nl, &lit_bytes("}"));
        Some(nl)
    } else if contains_sub(msg, &lit_bytes("missing closing bracket")) || contains_sub(
        msg,
        &lit_bytes("unclosed bracket"),
    ) {
        let mut nl = clone_bytes(l);
        append_bytes(&mut nl, &lit_bytes("]"));
        Some(nl)
    } else if contains_sub(msg, &lit_bytes("import")) && contains_sub(
        msg,
        &lit_bytes("Syntax error"),
    ) {
        let has_quote = contains_sub(l, &lit_bytes("\""));
        let has_lparen = contains_sub(l, &lit_bytes("("));
        if !has_quote && !has_lparen {
            let t = trim_ws(l);
            let stripped = strip_import_prefix_exec(&t);
            let inner = trim_ws(&stripped);
            let mut nl = lit_bytes("import \"");
            append_bytes(&mut nl, &inner);
            append_bytes(&mut nl, &lit_bytes("\""));
            Some(nl)
        } else if has_quote && has_lparen && !contains_sub(l, &lit_bytes(")")) {
            let mut nl = clone_bytes(l);
            append_bytes(&mut nl, &lit_bytes(")"));
            Some(nl)
        } else {
            None
        }
    } else {
        None
    }
}

/// Apply the Syntax repair for a finding to the whole content: the named
/// line is replaced, every other byte kept (up to the newline join).
pub open spec fn fix_syntax_content(msg: Seq<u8>, content: Seq<u8>, line: int) -> (Seq<u8>, bool) {
    let lines = split_lines_spec(content);
    if line < 1 || line > lines.len() {
        (content, false)
    } else {
        match fix_syntax_line(msg, lines[line - 1]) {
            Some(nl) => (join_sep_spec(lines.update(line - 1, nl), "\n".spec_bytes()), true),
            None => (content, false),
        }
    }
}

/// Repair the line a Syntax finding points at; true when a repair applied.
pub fn fix_syntax_issue(issue: &Issue, content: &mut Vec<u8>) -> (fixed: bool)
    ensures
        (final(content)@, fixed) == fix_syntax_content(
            issue.message@,
            old(content)@,
            issue.line as int,
        ),
{
    let mut lines = split_lines(content);
    let ghost ldv = lines.deep_view();
    if issue.line < 1 || issue.line > lines.len() {
        return false;
    }
    let idx = issue.line - 1;
    match fix_syntax_line_exec(&issue.message, &lines[idx]) {
        Some(nl) => {
            lines[idx] = nl;
            proof {
                assert(lines.deep_view() =~= ldv.update(
                    idx as int,
                    fix_syntax_line(issue.message@, ldv[idx as int])->Some_0,
                ));
            }
            let sep = lit_bytes("\n");
            let out = join_sep(&lines, &sep);
            *content = out;
            true
        },
        None => false,
    }
}

// ---------------------------------------------------------------------------
// DeadCode fixes: import removal, conservative commenting of unused
// declarations.
// ---------------------------------------------------------------------------

/// Start of the leftmost `import` keyword followed (after whitespace) by an
/// opening parenthesis, searching from `i`; -1 when there is none.
pub open spec fn first_import_block(s: Seq<u8>, i: int) -> int
    decreases s.len() + 1 - i,
{
    if i < 0 || i >= s.len() {
        -1
    } else if match_at(s, "import".spec_bytes(), i) && ({
        let q = crate::text::ws_end(s, i + "import".spec_bytes().len());
        q < s.len() && s[q] == crate::text::LPAREN
    }) {
        i
    } else {
        first_import_block(s, i + 1)
    }
}

pub proof fn lemma_first_import_block(s: Seq<u8>, i: int)
    requires
        i >= 0,
    ensures
        first_import_block(s, i) >= 0 ==> i <= first_import_block(s, i) && match_at(
            s,
            "import".spec_bytes(),
            first_import_block(s, i),
        ),
    decreases s.len() + 1 - i,
{
    if 0 <= i < s.len() {
        if !(match_at(s, "import".spec_bytes(), i) && ({
            let q = crate::text::ws_end(s, i + "import".spec_bytes().len());
            q < s.len() && s[q] == crate::text::LPAREN
        })) {
            lemma_first_import_block(s, i + 1);
        }
    }
}

fn first_import_block_exec(s: &Vec<u8>) -> (r: Option<usize>)
    ensures
        match r {
            Some(p) => first_import_block(s@, 0) == p as int && p < s@.len(),
            None => first_import_block(s@, 0) == -1,
        },
{
    let kw = lit_bytes("import");
    proof {
        assert(s@.len() <= usize::MAX) by {
            assert(s.len() == s@.len());
        }
    }
    let mut p: usize = 0;
    while p < s.len()
        invariant
            p <= s@.len(),
            s@.len() <= usize::MAX,
            kw@ == "import".spec_bytes(),
            first_import_block(s@, 0) == first_import_block(s@, p as int),
        decreases s@.len() - p,
    {
        if crate::text::match_at_check(s, &kw, p) {
            proof {
                assert(p + kw@.len() <= s@.len());
            }
            let q = crate::text::ws_end_exec(s, p + kw.len());
            if q < s.len() && s[q] == crate::text::LPAREN {
                return Some(p);
            }
        }
        p += 1;
    }
    None
}

/// Whether an import-block line survives the removal of `imp`: comment
/// lines always stay; a line whose trimmed text holds `imp` or equals the
/// quoted form of `imp` goes.
pub open spec fn keeps_line(l: Seq<u8>, imp: Seq<u8>) -> bool {
    let t = trim_spec(l, false);
    let hit = has_sub(t, imp) || t == "\"".spec_bytes() + imp + "\"".spec_bytes();
    !hit || starts_with(t, "//".spec_bytes())
}

pub open spec fn kept_lines(ls: Seq<Seq<u8>>, imp: Seq<u8>) -> Seq<Seq<u8>>
    decreases ls.len(),
{
    if ls.len() == 0 {
        Seq::empty()
    } else {
        let prev = kept_lines(ls.drop_last(), imp);
        if keeps_line(ls.last(), imp) {
            prev.push(ls.last())
        } else {
            prev
        }
    }
}

fn keeps_line_exec(l: &Vec<u8>, imp: &Vec<u8>) -> (r: bool)
    ensures
        r == keeps_line(l@, imp@),
{
    let t = trim_ws(l);
    let mut quoted = lit_bytes("\"");
    append_bytes(&mut quoted, imp);
    append_bytes(&mut quoted, &lit_bytes("\""));
    let hit = contains_sub(&t, imp) || crate::text::eq_bytes(&t, &quoted);
    !hit || crate::text::check_starts_with(&t, &lit_bytes("//"))
}

fn kept_lines_exec(ls: &Vec<Vec<u8>>, imp: &Vec<u8>) -> (r: Vec<Vec<u8>>)
    ensures
        r.deep_view() == kept_lines(ls.deep_view(), imp@),
{
    let ghost ldv = ls.deep_view();
    let mut r: Vec<Vec<u8>> = Vec::new();
    proof {
        assert(ldv.take(0) =~= Seq::<Seq<u8>>::empty());
        assert(r.deep_view() =~= Seq::<Seq<u8>>::empty());
    }
    let mut t: usize = 0;
    while t < ls.len()
        invariant
            t <= ls@.len(),
            ldv == ls.deep_view(),
            ldv.len() == ls@.len(),
            r.deep_view() == kept_lines(ldv.take(t as int), imp@),
        decreases ls@.len() - t,
    {
        proof {
            assert(ldv.take(t + 1).drop_last() =~= ldv.take(t as int));
            assert(ldv.take(t + 1).last() == ldv[t as int]);
        }
        if keeps_line_exec(&ls[t], imp) {
            let ghost pre = r.deep_view();
            r.push(clone_bytes(&ls[t]));
            proof {
                assert(r.deep_view() =~= pre.push(ldv[t as int]));
            }
        }
        t += 1;
    }
    proof {
        assert(ldv.take(ldv.len() as int) =~= ldv);
    }
    r
}

/// Each line followed by a newline, in order.
pub open spec fn concat_lines_nl(ls: Seq<Seq<u8>>) -> Seq<u8>
    decreases ls.len(),
{
    if ls.len() == 0 {
        Seq::empty()
    } else {
        concat_lines_nl(ls.drop_last()) + ls.last() + "\n".spec_bytes()
    }
}

/// Lines whose trimmed text is not exactly `needle`.
pub open spec fn lines_without(ls: Seq<Seq<u8>>, needle: Seq<u8>) -> Seq<Seq<u8>>
    decreases ls.len(),
{
    if ls.len() == 0 {
        Seq::empty()
    } else {
        let prev = lines_without(ls.drop_last(), needle);
        if trim_spec(ls.last(), false) == needle {
            prev
        } else {
            prev.push(ls.last())
        }
    }
}

/// The content with the fixable DeadCode finding resolved: an unused import
/// removed from a block, a single import line, or the reported line; an
/// unused variable or function wrapped in comment markers.
pub open spec fn fix_dead_code_content(
    msg: Seq<u8>,
    code: Seq<u8>,
    line: int,
    content: Seq<u8>,
) -> (Seq<u8>, bool) {
    let lines = split_lines_spec(content);
    if line < 1 || line > lines.len() {
        (content, false)
    } else if has_sub(msg, "Unused import".spec_bytes()) {
        let imp = trim_spec(code, true);
        let p = first_import_block(content, 0);
        let q = crate::text::ws_end(content, p + "import".spec_bytes().len());
        let rp = crate::text::find_byte_from(content, crate::text::RPAREN, q + 1);
        let block_applies = p >= 0 && rp >= 0 && ({
            let inner = trim_spec(content.subrange(q + 1, rp), false);
            kept_lines(split_lines_spec(inner), imp).len() < split_lines_spec(inner).len()
        });
        if block_applies {
            let inner = trim_spec(content.subrange(q + 1, rp), false);
            let kept = kept_lines(split_lines_spec(inner), imp);
            let joined = join_sep_spec(kept, "\n".spec_bytes());
            let repl = if trim_spec(joined, false).len() == 0 {
                Seq::<u8>::empty()
            } else {
                "import (\n".spec_bytes() + joined + "\n)".spec_bytes()
            };
            (content.take(p) + repl + content.skip(rp + 1), true)
        } else {
            let needle = "import \"".spec_bytes() + imp + "\"".spec_bytes();
            let without = lines_without(lines, needle);
            if has_sub(content, needle) && without.len() < lines.len() {
                (concat_lines_nl(without), true)
            } else {
                let ol = trim_spec(lines[line - 1], false);
                if has_sub(ol, imp) {
                    (join_sep_spec(lines.remove(line - 1), "\n".spec_bytes()), true)
                } else {
                    (content, false)
                }
            }
        }
    } else if has_sub(msg, "Unused variable".spec_bytes()) || has_sub(
        msg,
        "Unused function".spec_bytes(),
    ) {
        let idx = line - 1;
        let head: Seq<u8> = if idx > 0 {
            join_sep_spec(lines.take(idx), "\n".spec_bytes()) + "\n".spec_bytes()
        } else {
            Seq::empty()
        };
        let tail: Seq<u8> = if idx < lines.len() - 1 {
            "\n".spec_bytes() + join_sep_spec(lines.skip(idx + 1), "\n".spec_bytes())
        } else {
            Seq::empty()
        };
        (
            head + "// Commented out unused code\n".spec_bytes() + lines[idx]
                + "\n// End of commented code\n".spec_bytes() + tail,
            true,
        )
    } else {
        (content, false)
    }
}

fn remove_lines_exec(ls: &Vec<Vec<u8>>, needle: &Vec<u8>) -> (r: Vec<Vec<u8>>)
    ensures
        r.deep_view() == lines_without(ls.deep_view(), needle@),
{
    let ghost ldv = ls.deep_view();
    let mut r: Vec<Vec<u8>> = Vec::new();
    proof {
        assert(ldv.take(0) =~= Seq::<Seq<u8>>::empty());
        assert(r.deep_view() =~= Seq::<Seq<u8>>::empty());
    }
    let mut t: usize = 0;
    while t < ls.len()
        invariant
            t <= ls@.len(),
            ldv == ls.deep_view(),
            ldv.len() == ls@.len(),
            r.deep_view() == lines_without(ldv.take(t as int), needle@),
        decreases ls@.len() - t,
    {
        proof {
            assert(ldv.take(t + 1).drop_last() =~= ldv.take(t as int));
            assert(ldv.take(t + 1).last() == ldv[t as int]);
        }
        let trimmed = trim_ws(&ls[t]);
        if !crate::text::eq_bytes(&trimmed, needle) {
            let ghost pre = r.deep_view();
            r.push(clone_bytes(&ls[t]));
            proof {
                assert(r.deep_view() =~= pre.push(ldv[t as int]));
            }
        }
        t += 1;
    }
    proof {
        assert(ldv.take(ldv.len() as int) =~= ldv);
    }
    r
}

fn concat_lines_nl_exec(ls: &Vec<Vec<u8>>) -> (r: Vec<u8>)
    ensures
        r@ == concat_lines_nl(ls.deep_view()),
{
    let ghost ldv = ls.deep_view();
    let nl = lit_bytes("\n");
    let mut r: Vec<u8> = Vec::new();
    proof {
        assert(ldv.take(0) =~= Seq::<Seq<u8>>::empty());
        assert(r@ =~= concat_lines_nl(ldv.take(0)));
    }
    let mut t: usize = 0;
    while t < ls.len()
        invariant
            t <= ls@.len(),
            ldv == ls.deep_view(),
            ldv.len() == ls@.len(),
            nl@ == "\n".spec_bytes(),
            r@ == concat_lines_nl(ldv.take(t as int)),
        decreases ls@.len() - t,
    {
        proof {
            assert(ldv.take(t + 1).drop_last() =~= ldv.take(t as int));
            assert(ldv.take(t + 1).last() == ldv[t as int]);
        }
        append_bytes(&mut r, &ls[t]);
        append_bytes(&mut r, &nl);
        t += 1;
    }
    proof {
        assert(ldv.take(ldv.len() as int) =~= ldv);
    }
    r
}

/// Resolve a fixable DeadCode finding in the content; true on success.
#[verifier::rlimit(80)]
pub fn fix_dead_code_issue(issue: &Issue, content: &mut Vec<u8>) -> (fixed: bool)
    ensures
        (final(content)@, fixed) == fix_dead_code_content(
            issue.message@,
            issue.code@,
            issue.line as int,
            old(content)@,
        ),
{
    let lines = split_lines(content);
    let ghost ldv = lines.deep_view();
    if issue.line < 1 || issue.line > lines.len() {
        return false;
    }
    let idx = issue.line - 1;
    if contains_sub(&issue.message, &lit_bytes("Unused import")) {
        let imp = crate::text::trim_quotes(&issue.code);
        let kw = lit_bytes("import");
        match first_import_block_exec(content) {
            Some(p) => {
                proof {
                    lemma_first_import_block(content@, 0);
                    assert(match_at(content@, "import".spec_bytes(), p as int));
                }
                proof {
                    assert(content@.len() <= usize::MAX) by {
                        assert(content.len() == content@.len());
                    }
                }
                let q = crate::text::ws_end_exec(content, p + kw.len());
                if q >= content.len() {
                    return single_or_line_removal(issue, idx, &lines, &imp, content);
                }
                match crate::text::find_byte_from_exec(content, crate::text::RPAREN, q + 1) {
                    Some(rp) => {
                        let raw_inner = subvec(content, q + 1, rp);
                        let inner = trim_ws(&raw_inner);
                        proof {
                            assert(raw_inner@ =~= content@.subrange(q + 1, rp as int));
                        }
                        let inner_lines = split_lines(&inner);
                        let kept = kept_lines_exec(&inner_lines, &imp);
                        if kept.len() < inner_lines.len() {
                            let joined = join_sep(&kept, &lit_bytes("\n"));
                            let tj = trim_ws(&joined);
                            let mut out = subvec(content, 0, p);
                            if tj.len() != 0 {
                                append_bytes(&mut out, &lit_bytes("import (\n"));
                                append_bytes(&mut out, &joined);
                                append_bytes(&mut out, &lit_bytes("\n)"));
                            }
                            let rest = subvec(content, rp + 1, content.len());
                            append_bytes(&mut out, &rest);
                            proof {
                                assert(content@.take(p as int) =~= content@.subrange(0, p as int));
                                assert(rest@ =~= content@.skip(rp + 1));
                                assert(out@ =~= fix_dead_code_content(
                                    issue.message@,
                                    issue.code@,
                                    issue.line as int,
                                    content@,
                                ).0);
                            }
                            *content = out;
                            return true;
                        }
                        single_or_line_removal(issue, idx, &lines, &imp, content)
                    },
                    None => single_or_line_removal(issue, idx, &lines, &imp, content),
                }
            },
            None => single_or_line_removal(issue, idx, &lines, &imp, content),
        }
    } else if contains_sub(&issue.message, &lit_bytes("Unused variable")) || contains_sub(
        &issue.message,
        &lit_bytes("Unused function"),
    ) {
        let mut out: Vec<u8> = Vec::new();
        if idx > 0 {
            let head_lines = vec_prefix(&lines, idx);
            let head = join_sep(&head_lines, &lit_bytes("\n"));
            append_bytes(&mut out, &head);
            append_bytes(&mut out, &lit_bytes("\n"));
        }
        append_bytes(&mut out, &lit_bytes("// Commented out unused code\n"));
        append_bytes(&mut out, &lines[idx]);
        append_bytes(&mut out, &lit_bytes("\n// End of commented code\n"));
        if idx < lines.len() - 1 {
            append_bytes(&mut out, &lit_bytes("\n"));
            let tail_lines = vec_suffix(&lines, idx + 1);
            let tail = join_sep(&tail_lines, &lit_bytes("\n"));
            append_bytes(&mut out, &tail);
        }
        proof {
            assert(out@ =~= fix_dead_code_content(
                issue.message@,
                issue.code@,
                issue.line as int,
                content@,
            ).0);
        }
        *content = out;
        true
    } else {
        false
    }
}

fn vec_prefix(ls: &Vec<Vec<u8>>, n: usize) -> (r: Vec<Vec<u8>>)
    requires
        n <= ls@.len(),
    ensures
        r.deep_view() == ls.deep_view().take(n as int),
{
    let mut r: Vec<Vec<u8>> = Vec::new();
    proof {
        assert(r.deep_view() =~= ls.deep_view().take(0));
    }
    let mut t: usize = 0;
    while t < n
        invariant
            t <= n <= ls@.len(),
            ls.deep_view().len() == ls@.len(),
            r.deep_view() == ls.deep_view().take(t as int),
        decreases n - t,
    {
        let ghost pre = r.deep_view();
        r.push(clone_bytes(&ls[t]));
        proof {
            assert(r.deep_view() =~= pre.push(ls.deep_view()[t as int]));
            assert(pre.push(ls.deep_view()[t as int]) =~= ls.deep_view().take(t + 1));
        }
        t += 1;
    }
    r
}

fn vec_suffix(ls: &Vec<Vec<u8>>, n: usize) -> (r: Vec<Vec<u8>>)
    requires
        n <= ls@.len(),
    ensures
        r.deep_view() == ls.deep_view().skip(n as int),
{
    let mut r: Vec<Vec<u8>> = Vec::new();
    proof {
        assert(r.deep_view() =~= ls.deep_view().skip(n as int).take(0));
    }
    let mut t: usize = n;
    while t < ls.len()
        invariant
            n <= t <= ls@.len(),
            ls.deep_view().len() == ls@.len(),
            r.deep_view() == ls.deep_view().skip(n as int).take(t - n),
        decreases ls@.len() - t,
    {
        let ghost pre = r.deep_view();
        r.push(clone_bytes(&ls[t]));
        proof {
            assert(ls.deep_view().skip(n as int)[t - n] == ls.deep_view()[t as int]);
            assert(r.deep_view() =~= pre.push(ls.deep_view()[t as int]));
            assert(pre.push(ls.deep_view()[t as int]) =~= ls.deep_view().skip(n as int).take(
                t - n + 1,
            ));
        }
        t += 1;
    }
    proof {
        assert(ls.deep_view().skip(n as int).take(ls@.len() - n) =~= ls.deep_view().skip(n as int));
    }
    r
}

/// The two fallback strategies for import removal: delete exactly matching
/// single-line imports, else delete the reported line when it mentions the
/// import.
fn single_or_line_removal(
    issue: &Issue,
    idx: usize,
    lines: &Vec<Vec<u8>>,
    imp: &Vec<u8>,
    content: &mut Vec<u8>,
) -> (fixed: bool)
    requires
        idx < lines@.len(),
        idx as int == issue.line - 1,
        lines.deep_view() == split_lines_spec(old(content)@),
        imp@ == trim_spec(issue.code@, true),
        has_sub(issue.message@, "Unused import".spec_bytes()),
        !({
            let p = first_import_block(old(content)@, 0);
            let q = crate::text::ws_end(old(content)@, p + "import".spec_bytes().len());
            let rp = crate::text::find_byte_from(old(content)@, crate::text::RPAREN, q + 1);
            p >= 0 && rp >= 0 && ({
                let inner = trim_spec(old(content)@.subrange(q + 1, rp), false);
                kept_lines(split_lines_spec(inner), imp@).len() < split_lines_spec(inner).len()
            })
        }),
    ensures
        (final(content)@, fixed) == fix_dead_code_content(
            issue.message@,
            issue.code@,
            issue.line as int,
            old(content)@,
        ),
{
    let ghost ldv = lines.deep_view();
    let mut needle = lit_bytes("import \"");
    append_bytes(&mut needle, imp);
    append_bytes(&mut needle, &lit_bytes("\""));
    let without = remove_lines_exec(lines, &needle);
    if contains_sub(content, &needle) && without.len() < lines.len() {
        proof {
            assert(without.deep_view().len() == without@.len()) by {
                assert(without.deep_view() == lines_without(ldv, needle@));
            }
        }
        let out = concat_lines_nl_exec(&without);
        *content = out;
        return true;
    }
    let ol = trim_ws(&lines[idx]);
    if contains_sub(&ol, imp) {
        let mut rem = vec_prefix(lines, idx);
        let tail = vec_suffix(lines, idx + 1);
        append_lines(&mut rem, &tail);
        proof {
            assert(rem.deep_view() =~= ldv.remove(idx as int));
        }
        let out = join_sep(&rem, &lit_bytes("\n"));
        *content = out;
        return true;
    }
    false
}

fn append_lines(dst: &mut Vec<Vec<u8>>, src: &Vec<Vec<u8>>)
    ensures
        final(dst).deep_view() == old(dst).deep_view() + src.deep_view(),
{
    let mut t: usize = 0;
    proof {
        assert(dst.deep_view() =~= old(dst).deep_view() + src.deep_view().take(0));
    }
    while t < src.len()
        invariant
            t <= src@.len(),
            src.deep_view().len() == src@.len(),
            dst.deep_view() == old(dst).deep_view() + src.deep_view().take(t as int),
        decreases src@.len() - t,
    {
        let ghost pre = dst.deep_view();
        dst.push(clone_bytes(&src[t]));
        proof {
            assert(dst.deep_view() =~= pre.push(src.deep_view()[t as int]));
            assert(pre.push(src.deep_view()[t as int]) =~= old(dst).deep_view()
                + src.deep_view().take(t + 1));
        }
        t += 1;
    }
    proof {
        assert(src.deep_view().take(src@.len() as int) =~= src.deep_view());
    }
}

// ---------------------------------------------------------------------------
// Style fixes: soft wrap, keyword spacing, camel casing, tab indentation.
// ---------------------------------------------------------------------------

/// Length of the control-keyword-plus-parenthesis pattern at `p`, or 0.
pub open spec fn kwp_len_at(s: Seq<u8>, p: int) -> int {
    if match_at(s, "if(".spec_bytes(), p) && "if(".spec_bytes().len() > 0 {
        "if(".spec_bytes().len() as int
    } else if match_at(s, "for(".spec_bytes(), p) && "for(".spec_bytes().len() > 0 {
        "for(".spec_bytes().len() as int
    } else if match_at(s, "switch(".spec_bytes(), p) && "switch(".spec_bytes().len() > 0 {
        "switch(".spec_bytes().len() as int
    } else if match_at(s, "select(".spec_bytes(), p) && "select(".spec_bytes().len() > 0 {
        "select(".spec_bytes().len() as int
    } else {
        0
    }
}

/// First position at or after `i` where a control keyword is glued to its
/// parenthesis, or -1.
pub open spec fn first_kw(s: Seq<u8>, i: int) -> int
    decreases s.len() + 1 - i,
{
    if i < 0 || i >= s.len() {
        -1
    } else if kwp_len_at(s, i) > 0 {
        i
    } else {
        first_kw(s, i + 1)
    }
}

pub proof fn lemma_first_kw(s: Seq<u8>, i: int)
    requires
        i >= 0,
    ensures
        first_kw(s, i) >= 0 ==> i <= first_kw(s, i) < s.len() && kwp_len_at(s, first_kw(s, i)) > 0
            && first_kw(s, i) + kwp_len_at(s, first_kw(s, i)) <= s.len() && forall|t: int|
            i <= t < first_kw(s, i) ==> kwp_len_at(s, t) == 0,
        first_kw(s, i) < 0 ==> forall|t: int| i <= t < s.len() ==> kwp_len_at(s, t) == 0,
    decreases s.len() + 1 - i,
{
    if 0 <= i < s.len() && !(kwp_len_at(s, i) > 0) {
        lemma_first_kw(s, i + 1);
    }
}

/// `s` from `i` on, with a space put between each glued control keyword
/// and its parenthesis.
pub open spec fn space_fix_from(s: Seq<u8>, i: int) -> Seq<u8>
    decreases s.len() - i,
    when 0 <= i <= s.len()
    via space_fix_dec
{
    let a = first_kw(s, i);
    if a < 0 {
        s.subrange(i, s.len() as int)
    } else {
        let l = kwp_len_at(s, a);
        s.subrange(i, a) + s.subrange(a, a + l - 1) + " (".spec_bytes() + space_fix_from(s, a + l)
    }
}

#[via_fn]
proof fn space_fix_dec(s: Seq<u8>, i: int) {
    lemma_first_kw(s, i);
}

pub open spec fn space_fix(s: Seq<u8>) -> Seq<u8> {
    space_fix_from(s, 0)
}

/// The glued keyword pattern at `p`, with its length; mirrors `kwp_len_at`.
fn kwp_at_exec(s: &Vec<u8>, p: usize) -> (r: usize)
    ensures
        r as int == kwp_len_at(s@, p as int),
{
    let kif = lit_bytes("if(");
    let kfor = lit_bytes("for(");
    let kswitch = lit_bytes("switch(");
    let kselect = lit_bytes("select(");
    if crate::text::match_at_check(s, &kif, p) && kif.len() > 0 {
        kif.len()
    } else if crate::text::match_at_check(s, &kfor, p) && kfor.len() > 0 {
        kfor.len()
    } else if crate::text::match_at_check(s, &kswitch, p) && kswitch.len() > 0 {
        kswitch.len()
    } else if crate::text::match_at_check(s, &kselect, p) && kselect.len() > 0 {
        kselect.len()
    } else {
        0
    }
}

fn first_kw_exec(s: &Vec<u8>, i: usize) -> (r: Option<(usize, usize)>)
    requires
        i <= s@.len(),
    ensures
        match r {
            Some(pl) => first_kw(s@, i as int) == pl.0 as int && kwp_len_at(s@, pl.0 as int)
                == pl.1 as int && pl.1 > 0 && i <= pl.0 < s@.len() && pl.0 + pl.1 <= s@.len(),
            None => first_kw(s@, i as int) == -1,
        },
{
    proof {
        assert(s@.len() <= usize::MAX) by {
            assert(s.len() == s@.len());
        }
    }
    let mut p: usize = i;
    while p < s.len()
        invariant
            i <= p,
            s@.len() <= usize::MAX,
            first_kw(s@, i as int) == first_kw(s@, p as int),
        decreases s@.len() - p,
    {
        let l = kwp_at_exec(s, p);
        if l > 0 {
            proof {
                lemma_first_kw(s@, p as int);
            }
            return Some((p, l));
        }
        p += 1;
    }
    None
}

/// Put a space between every glued control keyword and its parenthesis.
fn space_fix_exec(line: &Vec<u8>) -> (r: Vec<u8>)
    ensures
        r@ == space_fix(line@),
{
    proof {
        assert(line@.len() <= usize::MAX) by {
            assert(line.len() == line@.len());
        }
    }
    let mut out: Vec<u8> = Vec::new();
    let mut i: usize = 0;
    proof {
        assert(out@ + space_fix_from(line@, 0) =~= space_fix_from(line@, 0));
    }
    while i < line.len()
        invariant
            i <= line@.len(),
            line@.len() <= usize::MAX,
            space_fix(line@) == out@ + space_fix_from(line@, i as int),
        decreases line@.len() - i,
    {
        match first_kw_exec(line, i) {
            Some((a, l)) => {
                let ghost pre = out@;
                let piece1 = subvec(line, i, a);
                append_bytes(&mut out, &piece1);
                let piece2 = subvec(line, a, a + l - 1);
                append_bytes(&mut out, &piece2);
                append_bytes(&mut out, &lit_bytes(" ("));
                proof {
                    assert(out@ =~= pre + (line@.subrange(i as int, a as int) + line@.subrange(
                        a as int,
                        a + l - 1,
                    ) + " (".spec_bytes()));
                    assert(space_fix(line@) == out@ + space_fix_from(line@, a + l)) by {
                        assert(pre + space_fix_from(line@, i as int) =~= out@ + space_fix_from(
                            line@,
                            a + l,
                        ));
                    }
                }
                i = a + l;
            },
            None => {
                let rest = subvec(line, i, line.len());
                append_bytes(&mut out, &rest);
                proof {
                    assert(out@ =~= space_fix(line@));
                }
                return out;
            },
        }
    }
    proof {
        assert(line@.subrange(i as int, line@.len() as int) =~= Seq::<u8>::empty());
        assert(out@ =~= space_fix(line@));
    }
    out
}

proof fn lemma_kw_bytes()
    ensures
        "if(".spec_bytes() == seq![105u8, 102u8, 40u8],
        "for(".spec_bytes() == seq![102u8, 111u8, 114u8, 40u8],
        "switch(".spec_bytes() == seq![115u8, 119u8, 105u8, 116u8, 99u8, 104u8, 40u8],
        "select(".spec_bytes() == seq![115u8, 101u8, 108u8, 101u8, 99u8, 116u8, 40u8],
        " (".spec_bytes() == seq![32u8, 40u8],
{
    reveal_strlit("if(");
    reveal_strlit("for(");
    reveal_strlit("switch(");
    reveal_strlit("select(");
    reveal_strlit(" (");
    assert(vstd::utf8::is_ascii_chars("if("@));
    assert(vstd::utf8::is_ascii_chars("for("@));
    assert(vstd::utf8::is_ascii_chars("switch("@));
    assert(vstd::utf8::is_ascii_chars("select("@));
    assert(vstd::utf8::is_ascii_chars(" ("@));
    vstd::string::is_ascii_spec_bytes("if(");
    vstd::string::is_ascii_spec_bytes("for(");
    vstd::string::is_ascii_spec_bytes("switch(");
    vstd::string::is_ascii_spec_bytes("select(");
    vstd::string::is_ascii_spec_bytes(" (");
    assert("if(".spec_bytes() =~= seq![105u8, 102u8, 40u8]);
    assert("for(".spec_bytes() =~= seq![102u8, 111u8, 114u8, 40u8]);
    assert("switch(".spec_bytes() =~= seq![115u8, 119u8, 105u8, 116u8, 99u8, 104u8, 40u8]);
    assert("select(".spec_bytes() =~= seq![115u8, 101u8, 108u8, 101u8, 99u8, 116u8, 40u8]);
    assert(" (".spec_bytes() =~= seq![32u8, 40u8]);
}

/// A glued-keyword pattern: all bytes but the last are lowercase letters,
/// the last is an opening parenthesis, and no byte is a space.
proof fn lemma_kw_shape(kw: Seq<u8>)
    requires
        kw == "if(".spec_bytes() || kw == "for(".spec_bytes() || kw
            == "switch(".spec_bytes() || kw == "select(".spec_bytes(),
    ensures
        3 <= kw.len() <= 7,
        forall|t: int| 0 <= t < kw.len() - 1 ==> crate::text::is_lower_byte(#[trigger] kw[t]),
        kw[kw.len() - 1] == crate::text::LPAREN,
        forall|t: int| 0 <= t < kw.len() ==> #[trigger] kw[t] != crate::text::SPACE,
{
    lemma_kw_bytes();
}

proof fn lemma_match_transfer(s: Seq<u8>, n: Seq<u8>, x: int, y: int, p: int)
    requires
        0 <= x <= y <= s.len(),
        match_at(s.subrange(x, y), n, p),
    ensures
        match_at(s, n, x + p),
{
    assert(s.subrange(x + p, x + p + n.len()) =~= s.subrange(x, y).subrange(p, p + n.len()));
}

/// Any position where `kwp_len_at` fires carries one of the four keyword
/// patterns.
proof fn lemma_kwp_cases(s: Seq<u8>, p: int)
    requires
        kwp_len_at(s, p) != 0,
    ensures
        exists|kw: Seq<u8>|
            (kw == "if(".spec_bytes() || kw == "for(".spec_bytes() || kw
                == "switch(".spec_bytes() || kw == "select(".spec_bytes()) && #[trigger] match_at(
                s,
                kw,
                p,
            ) && kw.len() == kwp_len_at(s, p),
{
}

/// Law (fix idempotence, control-statement spacing): once the space fix has
/// rewritten a line, no glued keyword pattern is left anywhere in it, so
/// both the detection and the fix find nothing on a second pass.
#[verifier::rlimit(100)]
pub proof fn lemma_space_fix_idempotent(s: Seq<u8>, i: int)
    requires
        0 <= i <= s.len(),
    ensures
        forall|p: int| kwp_len_at(#[trigger] space_fix_from(s, i), p) == 0,
    decreases s.len() - i,
{
    lemma_kw_bytes();
    lemma_first_kw(s, i);
    let r = space_fix_from(s, i);
    let a = first_kw(s, i);
    if a < 0 {
        assert forall|p: int| kwp_len_at(r, p) == 0 by {
            if kwp_len_at(r, p) != 0 {
                lemma_kwp_cases(r, p);
                let kw = choose|kw: Seq<u8>|
                    (kw == "if(".spec_bytes() || kw == "for(".spec_bytes() || kw
                        == "switch(".spec_bytes() || kw == "select(".spec_bytes()) && #[trigger] match_at(
                        r,
                        kw,
                        p,
                    ) && kw.len() == kwp_len_at(r, p);
                lemma_kw_shape(kw);
                lemma_match_transfer(s, kw, i, s.len() as int, p);
                assert(kwp_len_at(s, i + p) != 0);
                assert(i <= i + p < s.len());
                assert(false);
            }
        }
    } else {
        let l = kwp_len_at(s, a);
        lemma_kwp_cases(s, a);
        let kwa = choose|kw: Seq<u8>|
            (kw == "if(".spec_bytes() || kw == "for(".spec_bytes() || kw
                == "switch(".spec_bytes() || kw == "select(".spec_bytes()) && #[trigger] match_at(
                s,
                kw,
                a,
            ) && kw.len() == kwp_len_at(s, a);
        lemma_kw_shape(kwa);
        lemma_space_fix_idempotent(s, a + l);
        let rec = space_fix_from(s, a + l);
        let b0 = a - i;
        let b1 = b0 + (l - 1);
        let b2 = b1 + 2;
        assert(r == s.subrange(i, a) + s.subrange(a, a + l - 1) + " (".spec_bytes() + rec);
        assert forall|t: int| a <= t < a + l - 1 implies crate::text::is_lower_byte(
            #[trigger] s[t],
        ) by {
            assert(s.subrange(a, a + l)[t - a] == s[t]);
            assert(kwa[t - a] == s[t]);
        }
        assert forall|q: int| 0 <= q < r.len() implies #[trigger] r[q] == (if q < b0 {
            s[i + q]
        } else if q < b1 {
            s[a + (q - b0)]
        } else if q == b1 {
            32u8
        } else if q == b1 + 1 {
            40u8
        } else {
            rec[q - b2]
        }) by {}
        assert forall|p: int| kwp_len_at(r, p) == 0 by {
            if kwp_len_at(r, p) != 0 {
                lemma_kwp_cases(r, p);
                let kw = choose|kw: Seq<u8>|
                    (kw == "if(".spec_bytes() || kw == "for(".spec_bytes() || kw
                        == "switch(".spec_bytes() || kw == "select(".spec_bytes()) && #[trigger] match_at(
                        r,
                        kw,
                        p,
                    ) && kw.len() == kwp_len_at(r, p);
                lemma_kw_shape(kw);
                let m = kw.len() as int;
                assert forall|t: int| 0 <= t < m implies #[trigger] r[p + t] == kw[t] by {
                    assert(r.subrange(p, p + m)[t] == r[p + t]);
                }
                if p <= b1 < p + m {
                    // the pattern would have to cover the inserted space
                    let t0 = b1 - p;
                    assert(r[p + t0] == kw[t0]);
                    assert(r[b1] == 32u8);
                    assert(kw[t0] != 32u8);
                    assert(false);
                } else if p + m <= b1 {
                    if p + m <= b0 {
                        // a match wholly before the rewritten keyword was
                        // there before it, against minimality
                        assert(s.subrange(i + p, i + p + m) =~= r.subrange(p, p + m));
                        assert(match_at(s, kw, i + p));
                        assert(kwp_len_at(s, i + p) != 0);
                        assert(false);
                    } else {
                        // the pattern would end on a keyword letter
                        let t1 = m - 1;
                        assert(r[p + t1] == kw[t1]);
                        assert(b0 <= p + t1 < b1);
                        assert(r[p + t1] == s[a + (p + t1 - b0)]);
                        assert(crate::text::is_lower_byte(r[p + t1]));
                        assert(kw[t1] == crate::text::LPAREN);
                        assert(false);
                    }
                } else {
                    assert(p > b1);
                    if p == b1 + 1 {
                        // the pattern would start on the parenthesis
                        let t2 = 0int;
                        assert(r[p + t2] == kw[t2]);
                        assert(r[p] == 40u8);
                        assert(crate::text::is_lower_byte(kw[0]));
                        assert(false);
                    } else {
                        // wholly inside the already-clean tail
                        assert(p >= b2);
                        assert(r.subrange(p, p + m) =~= rec.subrange(p - b2, p - b2 + m));
                        assert(match_at(rec, kw, p - b2));
                        assert(kwp_len_at(rec, p - b2) != 0);
                        assert(false);
                    }
                }
            }
        }
    }
}

/// Law (fix idempotence, control-statement spacing): the spacing check
/// finds no glued keyword on a line the space fix has rewritten.
pub proof fn lemma_space_fix_detection_clean(l: Seq<u8>, k: crate::style::SpacingKw)
    ensures
        !has_sub(space_fix(l), crate::style::kw_pattern(k)),
{
    lemma_space_fix_idempotent(l, 0);
    lemma_kw_bytes();
    let r = space_fix(l);
    if has_sub(r, crate::style::kw_pattern(k)) {
        let p = choose|p: int| match_at(r, crate::style::kw_pattern(k), p);
        assert(kwp_len_at(r, p) != 0);
        assert(false);
    }
}

/// Rightmost start of `n` fully inside `h[..limit]`, or -1.
pub open spec fn rfind_in(h: Seq<u8>, n: Seq<u8>, limit: int) -> int
    decreases limit + 1,
{
    if limit < 0 || limit < n.len() || limit > h.len() {
        -1
    } else if match_at(h, n, limit - n.len()) {
        limit - n.len()
    } else {
        rfind_in(h, n, limit - 1)
    }
}

fn rfind_in_exec(h: &Vec<u8>, n: &Vec<u8>, limit: usize) -> (r: Option<usize>)
    requires
        limit <= h@.len(),
    ensures
        match r {
            Some(p) => rfind_in(h@, n@, limit as int) == p as int && p + n@.len() <= limit,
            None => rfind_in(h@, n@, limit as int) == -1,
        },
    decreases limit,
{
    if limit < n.len() {
        return None;
    }
    if crate::text::match_at_check(h, n, limit - n.len()) {
        return Some(limit - n.len());
    }
    if limit == 0 {
        proof {
            assert(rfind_in(h@, n@, -1) == -1);
        }
        return None;
    }
    rfind_in_exec(h, n, limit - 1)
}

/// End of the run of space bytes starting at `i`.
pub open spec fn space_end(s: Seq<u8>, i: int) -> int
    decreases s.len() - i,
{
    if 0 <= i < s.len() && s[i] == SPACE {
        space_end(s, i + 1)
    } else {
        i
    }
}

proof fn lemma_space_end(s: Seq<u8>, i: int)
    requires
        0 <= i <= s.len(),
    ensures
        i <= space_end(s, i) <= s.len(),
    decreases s.len() - i,
{
    if 0 <= i < s.len() && s[i] == SPACE {
        lemma_space_end(s, i + 1);
    }
}

fn space_end_exec(s: &Vec<u8>, i: usize) -> (r: usize)
    requires
        i <= s@.len(),
    ensures
        r == space_end(s@, i as int),
        i <= r <= s@.len(),
{
    proof {
        assert(s@.len() <= usize::MAX) by {
            assert(s.len() == s@.len());
        }
    }
    let mut j: usize = i;
    while j < s.len() && s[j] == SPACE
        invariant
            i <= j <= s@.len(),
            s@.len() <= usize::MAX,
            space_end(s@, i as int) == space_end(s@, j as int),
        decreases s@.len() - j,
    {
        j += 1;
    }
    j
}

/// `n` tab bytes.
pub open spec fn tabs_of(n: int) -> Seq<u8> {
    Seq::new(n as nat, |i: int| TAB)
}

fn tabs_of_exec(n: usize) -> (r: Vec<u8>)
    ensures
        r@ == tabs_of(n as int),
{
    let mut r: Vec<u8> = Vec::new();
    let mut i: usize = 0;
    while i < n
        invariant
            i <= n,
            r@ =~= tabs_of(i as int),
        decreases n - i,
    {
        r.push(TAB);
        proof {
            assert(r@ =~= tabs_of(i + 1));
        }
        i += 1;
    }
    r
}

/// The line with a soft wrap inserted after position `p`: a newline and a
/// tab, the rest of the line following.
pub open spec fn wrap_after(l: Seq<u8>, p: int) -> Seq<u8> {
    l.take(p + 1) + seq![NL, TAB] + l.skip(p + 1)
}

/// The content with the fixable Style finding resolved on its line: a soft
/// wrap for over-long lines, a space after a glued control keyword, camel
/// casing, or tab indentation.
pub open spec fn fix_style_content(
    msg: Seq<u8>,
    content: Seq<u8>,
    line: int,
    max: int,
    space_cfg: bool,
    camel_cfg: bool,
) -> (Seq<u8>, bool) {
    let lines = split_lines_spec(content);
    if line < 1 || line > lines.len() {
        (content, false)
    } else {
        let l = lines[line - 1];
        let rebuilt = |nl: Seq<u8>| (join_sep_spec(lines.update(line - 1, nl), "\n".spec_bytes()), true);
        if has_sub(msg, "Line too long".spec_bytes()) && max > 0 {
            if l.len() > max {
                let p1 = rfind_in(l, ", ".spec_bytes(), max);
                if p1 >= 0 {
                    rebuilt(wrap_after(l, p1))
                } else {
                    let p2 = rfind_in(l, " ".spec_bytes(), max);
                    if p2 >= 0 {
                        rebuilt(wrap_after(l, p2))
                    } else {
                        (content, false)
                    }
                }
            } else {
                (content, false)
            }
        } else if has_sub(msg, "missing space after control statement".spec_bytes())
            && space_cfg {
            if first_kw(l, 0) >= 0 {
                rebuilt(space_fix(l))
            } else {
                (content, false)
            }
        } else if has_sub(msg, "should be camelCase".spec_bytes()) && camel_cfg {
            if has_snake(l) {
                rebuilt(camel_fix(l))
            } else {
                (content, false)
            }
        } else if has_sub(msg, "Use tabs for indentation".spec_bytes()) {
            let run = space_end(l, 0);
            if run >= 1 {
                rebuilt(tabs_of((run + 3) / 4) + l.skip(run))
            } else {
                (content, false)
            }
        } else {
            (content, false)
        }
    }
}

/// Resolve a fixable Style finding on the line it names; true on success.
#[verifier::rlimit(80)]
pub fn fix_style_issue(issue: &Issue, content: &mut Vec<u8>, config: &Config) -> (fixed: bool)
    ensures
        (final(content)@, fixed) == fix_style_content(
            issue.message@,
            old(content)@,
            issue.line as int,
            config.rules.syntax.max_line_length as int,
            config.rules.style.space_after_control_statements,
            config.rules.style.enforce_camel_case,
        ),
{
    let mut lines = split_lines(content);
    let ghost ldv = lines.deep_view();
    if issue.line < 1 || issue.line > lines.len() {
        return false;
    }
    let idx = issue.line - 1;
    let max = config.rules.syntax.max_line_length;
    let mut new_line: Option<Vec<u8>> = None;
    if contains_sub(&issue.message, &lit_bytes("Line too long")) && max > 0 {
        if lines[idx].len() > max {
            match rfind_in_exec(&lines[idx], &lit_bytes(", "), max) {
                Some(p1) => {
                    new_line = Some(wrap_after_exec(&lines[idx], p1));
                },
                None => {
                    match rfind_in_exec(&lines[idx], &lit_bytes(" "), max) {
                        Some(p2) => {
                            new_line = Some(wrap_after_exec(&lines[idx], p2));
                        },
                        None => {},
                    }
                },
            }
        }
    } else if contains_sub(&issue.message, &lit_bytes("missing space after control statement"))
        && config.rules.style.space_after_control_statements {
        match first_kw_exec(&lines[idx], 0) {
            Some(_) => {
                new_line = Some(space_fix_exec(&lines[idx]));
            },
            None => {},
        }
    } else if contains_sub(&issue.message, &lit_bytes("should be camelCase"))
        && config.rules.style.enforce_camel_case {
        if has_snake_exec(&lines[idx]) {
            new_line = Some(fix_camel_case(&lines[idx]));
        }
    } else if contains_sub(&issue.message, &lit_bytes("Use tabs for indentation")) {
        let run = space_end_exec(&lines[idx], 0);
        if run >= 1 {
            let q = run / 4;
            let ntabs = if run % 4 == 0 {
                q
            } else {
                q + 1
            };
            proof {
                assert(ntabs as int == (run + 3) / 4);
            }
            let mut nl = tabs_of_exec(ntabs);
            let rest = subvec(&lines[idx], run, lines[idx].len());
            proof {
                assert(rest@ =~= ldv[idx as int].skip(run as int));
            }
            append_bytes(&mut nl, &rest);
            new_line = Some(nl);
        }
    }
    match new_line {
        Some(nl) => {
            proof {
                assert(fix_style_content(
                    issue.message@,
                    old(content)@,
                    issue.line as int,
                    max as int,
                    config.rules.style.space_after_control_statements,
                    config.rules.style.enforce_camel_case,
                ).1);
            }
            lines[idx] = nl;
            proof {
                assert(lines.deep_view() =~= ldv.update(
                    idx as int,
                    lines.deep_view()[idx as int],
                ));
            }
            let out = join_sep(&lines, &lit_bytes("\n"));
            *content = out;
            true
        },
        None => false,
    }
}

// ---------------------------------------------------------------------------
// The engine: group findings by file, apply every fixable finding's
// transformation in finding order against the in-memory buffer.
// ---------------------------------------------------------------------------

/// Index of the first in-memory file with the given path, or -1.
pub open spec fn find_file(files: Seq<SourceFileModel>, path: Seq<u8>) -> int
    decreases files.len(),
{
    if files.len() == 0 {
        -1
    } else if files[0].path == path {
        0
    } else {
        let r = find_file(files.skip(1), path);
        if r < 0 {
            -1
        } else {
            1 + r
        }
    }
}

pub proof fn lemma_find_file(files: Seq<SourceFileModel>, path: Seq<u8>)
    ensures
        find_file(files, path) == -1 ==> forall|t: int|
            0 <= t < files.len() ==> files[t].path != path,
        find_file(files, path) != -1 ==> 0 <= find_file(files, path) < files.len() && files[find_file(
            files,
            path,
        )].path == path && forall|t: int| 0 <= t < find_file(files, path) ==> files[t].path != path,
    decreases files.len(),
{
    if files.len() > 0 && files[0].path != path {
        lemma_find_file(files.skip(1), path);
        if find_file(files, path) != -1 {
            assert forall|t: int| 0 <= t < find_file(files, path) implies files[t].path != path by {
                if t > 0 {
                    assert(files.skip(1)[t - 1] == files[t]);
                }
            }
        } else {
            assert forall|t: int| 0 <= t < files.len() implies files[t].path != path by {
                if t > 0 {
                    assert(files.skip(1)[t - 1] == files[t]);
                }
            }
        }
    }
}

fn find_file_exec(files: &Vec<SourceFile>, path: &Vec<u8>) -> (r: Option<usize>)
    ensures
        match r {
            Some(j) => j as int == find_file(files.deep_view(), path@) && j < files@.len(),
            None => find_file(files.deep_view(), path@) == -1,
        },
{
    let ghost dv = files.deep_view();
    let mut j: usize = 0;
    while j < files.len()
        invariant
            j <= files@.len(),
            dv == files.deep_view(),
            dv.len() == files@.len(),
            forall|t: int| 0 <= t < j ==> dv[t].path != path@,
        decreases files@.len() - j,
    {
        if crate::text::eq_bytes(&files[j].path, path) {
            proof {
                lemma_find_file(dv, path@);
                assert(dv[j as int].path == path@);
                if find_file(dv, path@) == -1 {
                    assert(false);
                }
                assert(find_file(dv, path@) == j);
            }
            return Some(j);
        }
        j += 1;
    }
    proof {
        lemma_find_file(dv, path@);
        if find_file(dv, path@) != -1 {
            assert(dv[find_file(dv, path@)].path == path@);
            assert(false);
        }
    }
    None
}

/// The category-specific transformation of one finding against a file's
/// content; Architecture findings are never fixable.
pub open spec fn fix_one(issue: IssueModel, content: Seq<u8>, rules: Rules) -> (Seq<u8>, bool) {
    match issue.issue_type {
        IssueType::Syntax => fix_syntax_content(issue.message, content, issue.line),
        IssueType::DeadCode => fix_dead_code_content(
            issue.message,
            issue.code,
            issue.line,
            content,
        ),
        IssueType::Style => fix_style_content(
            issue.message,
            content,
            issue.line,
            rules.syntax.max_line_length as int,
            rules.style.space_after_control_statements,
            rules.style.enforce_camel_case,
        ),
        IssueType::Architecture => (content, false),
    }
}

/// One step of the engine: a fixable finding is applied to the file it
/// names, when that file is held in memory.
pub open spec fn apply_step(
    files: Seq<SourceFileModel>,
    count: int,
    issue: IssueModel,
    rules: Rules,
) -> (Seq<SourceFileModel>, int) {
    if !issue.fix_available {
        (files, count)
    } else {
        let j = find_file(files, issue.file_path);
        if j < 0 {
            (files, count)
        } else {
            let r = fix_one(issue, files[j].content, rules);
            (
                files.update(j, SourceFileModel { path: files[j].path, content: r.0 }),
                count + if r.1 {
                    1int
                } else {
                    0int
                },
            )
        }
    }
}

/// The whole engine over a finding list, in finding order.
pub open spec fn apply_all(
    issues: Seq<IssueModel>,
    files: Seq<SourceFileModel>,
    rules: Rules,
) -> (Seq<SourceFileModel>, int)
    decreases issues.len(),
{
    if issues.len() == 0 {
        (files, 0)
    } else {
        let prev = apply_all(issues.drop_last(), files, rules);
        apply_step(prev.0, prev.1, issues.last(), rules)
    }
}

/// Apply every fixable finding to the in-memory files it names, in finding
/// order; returns how many transformations succeeded.
///
/// Transformations run against a buffer that is re-split into lines before
/// each fix, so a fix that shifts line counts leaves later findings of the
/// same file with stale line numbers; such a later fix simply fails or
/// lands on the recorded line. This keeps the engine a pure function of
/// the finding list, rather than re-analyzing between fixes.
pub fn apply_fixes(issues: &Vec<Issue>, files: &mut Vec<SourceFile>, config: &Config) -> (fixed:
    usize)
    ensures
        final(files).deep_view() == apply_all(
            issues.deep_view(),
            old(files).deep_view(),
            config.rules,
        ).0,
        fixed as int == apply_all(issues.deep_view(), old(files).deep_view(), config.rules).1,
{
    let ghost idv = issues.deep_view();
    let mut count: usize = 0;
    let mut t: usize = 0;
    proof {
        assert(idv.take(0) =~= Seq::<IssueModel>::empty());
    }
    while t < issues.len()
        invariant
            t <= issues@.len(),
            idv == issues.deep_view(),
            idv.len() == issues@.len(),
            count <= t,
            files.deep_view() == apply_all(
                idv.take(t as int),
                old(files).deep_view(),
                config.rules,
            ).0,
            count as int == apply_all(idv.take(t as int), old(files).deep_view(), config.rules).1,
        decreases issues@.len() - t,
    {
        let issue = &issues[t];
        proof {
            assert(idv.take(t + 1).drop_last() =~= idv.take(t as int));
            assert(idv.take(t + 1).last() == idv[t as int]);
        }
        if issue.fix_available {
            match find_file_exec(files, &issue.file_path) {
                Some(j) => {
                    let ghost fdv = files.deep_view();
                    let mut c = clone_bytes(&files[j].content);
                    let ok: bool = match issue.issue_type {
                        IssueType::Syntax => fix_syntax_issue(issue, &mut c),
                        IssueType::DeadCode => fix_dead_code_issue(issue, &mut c),
                        IssueType::Style => fix_style_issue(issue, &mut c, config),
                        IssueType::Architecture => false,
                    };
                    let p = clone_bytes(&files[j].path);
                    files[j] = SourceFile { path: p, content: c };
                    proof {
                        assert(files.deep_view() =~= fdv.update(
                            j as int,
                            SourceFileModel {
                                path: fdv[j as int].path,
                                content: fix_one(idv[t as int], fdv[j as int].content, config.rules).0,
                            },
                        ));
                    }
                    if ok {
                        count += 1;
                    }
                },
                None => {},
            }
        }
        t += 1;
    }
    proof {
        assert(idv.take(idv.len() as int) =~= idv);
    }
    count
}

/// Law: a file that no fixable finding names is left byte-identical by the
/// fix engine.
pub proof fn lemma_clean_file_untouched(
    issues: Seq<IssueModel>,
    files: Seq<SourceFileModel>,
    rules: Rules,
    j: int,
)
    requires
        0 <= j < files.len(),
        forall|t: int|
            0 <= t < issues.len() ==> !(#[trigger] issues[t].fix_available && issues[t].file_path
                == files[j].path),
    ensures
        apply_all(issues, files, rules).0.len() == files.len(),
        apply_all(issues, files, rules).0[j] == files[j],
    decreases issues.len(),
{
    lemma_apply_all_paths(issues, files, rules);
    if issues.len() > 0 {
        lemma_clean_file_untouched(issues.drop_last(), files, rules, j);
        lemma_apply_all_paths(issues.drop_last(), files, rules);
        let prev = apply_all(issues.drop_last(), files, rules);
        let issue = issues.last();
        if issue.fix_available {
            let jj = find_file(prev.0, issue.file_path);
            if jj >= 0 {
                lemma_find_file(prev.0, issue.file_path);
                assert(prev.0[jj].path == files[jj].path);
                assert(jj != j);
            }
        }
    }
}

/// The engine never adds, drops or renames a file.
pub proof fn lemma_apply_all_paths(
    issues: Seq<IssueModel>,
    files: Seq<SourceFileModel>,
    rules: Rules,
)
    ensures
        apply_all(issues, files, rules).0.len() == files.len(),
        forall|t: int|
            0 <= t < files.len() ==> #[trigger] apply_all(issues, files, rules).0[t].path
                == files[t].path,
    decreases issues.len(),
{
    if issues.len() > 0 {
        lemma_apply_all_paths(issues.drop_last(), files, rules);
        let prev = apply_all(issues.drop_last(), files, rules);
        let cur = apply_all(issues, files, rules);
        let issue = issues.last();
        assert(cur.0.len() == files.len()) by {
            if issue.fix_available {
                lemma_find_file(prev.0, issue.file_path);
            }
        }
        assert forall|t: int|
            0 <= t < files.len() implies #[trigger] cur.0[t].path == files[t].path by {
            if issue.fix_available {
                let j = find_file(prev.0, issue.file_path);
                lemma_find_file(prev.0, issue.file_path);
                if j >= 0 {
                    if t == j {
                        assert(cur.0[t].path == prev.0[t].path);
                    } else {
                        assert(cur.0[t] == prev.0[t]);
                    }
                }
            }
        }
    }
}

/// Law (fix idempotence, indentation): once the tab fix has rewritten a
/// line's leading spaces, the indentation check finds nothing on that line,
/// so a second pass has nothing left to fix there.
pub proof fn lemma_indent_fix_idempotent(path: Seq<u8>, l: Seq<u8>, idx: int)
    requires
        space_end(l, 0) >= 1,
    ensures
        ({
            let o = tabs_of((space_end(l, 0) + 3) / 4) + l.skip(space_end(l, 0));
            crate::style::indent_issue_at(path, o, idx) =~= Seq::<IssueModel>::empty()
        }),
{
    let run = space_end(l, 0);
    let nt = (run + 3) / 4;
    let o = tabs_of(nt) + l.skip(run);
    assert(nt >= 1);
    assert(o[0] == TAB);
}

fn wrap_after_exec(l: &Vec<u8>, p: usize) -> (r: Vec<u8>)
    requires
        p < l@.len(),
    ensures
        r@ == wrap_after(l@, p as int),
{
    proof {
        assert(l@.len() <= usize::MAX) by {
            assert(l.len() == l@.len());
        }
    }
    let mut r = subvec(l, 0, p + 1);
    r.push(NL);
    r.push(TAB);
    let rest = subvec(l, p + 1, l.len());
    append_bytes(&mut r, &rest);
    proof {
        assert(r@ =~= wrap_after(l@, p as int));
    }
    r
}

} // verus!
