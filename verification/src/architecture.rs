use vstd::prelude::*;
use vstd::string::StringSliceAdditionalSpecFns;
use crate::config::Config;
use crate::issue::Issue;
use crate::issue::IssueModel;
use crate::issue::IssueType;
use crate::issue::Severity;
use crate::parser::GoFile;
use crate::parser::NodeKind;
use crate::parser::kind_indices;
use crate::parser::lemma_kind_indices;
use crate::parser::node_wf;
use crate::parser::line_at;
use crate::parser::column_at;
use crate::dead_code::node_text;
use crate::dead_code::node_snippet;
use crate::dead_code::seq_has_name;
use crate::text::SLASH;
use crate::text::append_bytes;
use crate::text::contains_sub;
use crate::text::check_ends_with;
use crate::text::clone_bytes;
use crate::text::ends_with;
use crate::text::eq_bytes;
use crate::text::find_sub;
use crate::text::has_sub;
use crate::text::lit_bytes;
use crate::text::match_at;
use crate::text::subvec;
use crate::text::trim_quotes;
use crate::text::trim_spec;

verus! {

broadcast use crate::text::lemma_bytes_deep;

// ---------------------------------------------------------------------------
// Package identifiers derived from file paths.
// ---------------------------------------------------------------------------

/// The directory part of a path: everything before the last slash, or empty
/// when the path holds no slash.
pub open spec fn parent_dir(s: Seq<u8>) -> Seq<u8>
    decreases s.len(),
{
    if s.len() == 0 {
        s
    } else if s.last() == SLASH {
        s.drop_last()
    } else {
        parent_dir(s.drop_last())
    }
}

proof fn lemma_parent_dir_none(s: Seq<u8>)
    requires
        forall|j: int| 0 <= j < s.len() ==> s[j] != SLASH,
    ensures
        parent_dir(s) =~= Seq::<u8>::empty(),
    decreases s.len(),
{
    if s.len() > 0 {
        lemma_parent_dir_none(s.drop_last());
    }
}

proof fn lemma_parent_dir_at(s: Seq<u8>, k: int)
    requires
        0 <= k < s.len(),
        s[k] == SLASH,
        forall|j: int| k < j < s.len() ==> s[j] != SLASH,
    ensures
        parent_dir(s) == s.take(k),
    decreases s.len(),
{
    if k == s.len() - 1 {
        assert(parent_dir(s) =~= s.take(k));
    } else {
        lemma_parent_dir_at(s.drop_last(), k);
        assert(s.drop_last().take(k) =~= s.take(k));
    }
}

/// The directory part of a path.
pub fn parent_dir_of(path: &Vec<u8>) -> (r: Vec<u8>)
    ensures
        r@ == parent_dir(path@),
{
    let n = path.len();
    let mut k: usize = n;
    while k > 0
        invariant
            k <= n,
            n == path@.len(),
            forall|j: int| k <= j < n ==> path@[j] != SLASH,
        decreases k,
    {
        if path[k - 1] == SLASH {
            proof {
                lemma_parent_dir_at(path@, k - 1);
            }
            return subvec(path, 0, k - 1);
        }
        k -= 1;
    }
    proof {
        lemma_parent_dir_none(path@);
    }
    Vec::new()
}

/// Position of the leftmost match of `n` in `h` at or after `i`, or -1.
pub open spec fn find_from(h: Seq<u8>, n: Seq<u8>, i: int) -> int
    decreases h.len() + 1 - i,
{
    if i < 0 || i + n.len() > h.len() {
        -1
    } else if match_at(h, n, i) {
        i
    } else {
        find_from(h, n, i + 1)
    }
}

proof fn lemma_find_from_zero(h: Seq<u8>, n: Seq<u8>, i: int, k: int)
    requires
        0 <= i <= k,
        match_at(h, n, k),
        forall|j: int| 0 <= j < k ==> !match_at(h, n, j),
    ensures
        find_from(h, n, i) == k,
    decreases k - i,
{
    if i < k {
        lemma_find_from_zero(h, n, i + 1, k);
    }
}

proof fn lemma_find_from_none(h: Seq<u8>, n: Seq<u8>, i: int)
    requires
        i >= 0,
        forall|j: int| !match_at(h, n, j),
    ensures
        find_from(h, n, i) == -1,
    decreases h.len() + 1 - i,
{
    if !(i + n.len() > h.len()) {
        lemma_find_from_none(h, n, i + 1);
    }
}

/// The package identifier of a file: the file's directory, relative to the
/// nearest `/src/` segment when the path holds one.
pub open spec fn package_path_spec(path: Seq<u8>) -> Seq<u8> {
    let marker = "/src/".spec_bytes();
    let k = find_from(path, marker, 0);
    if k >= 0 {
        parent_dir(path.skip(k + marker.len()))
    } else {
        parent_dir(path)
    }
}

/// Package identifier derived from a file path.
pub fn extract_package_path(file_path: &Vec<u8>) -> (r: Vec<u8>)
    ensures
        r@ == package_path_spec(file_path@),
{
    let marker = lit_bytes("/src/");
    match find_sub(file_path, &marker) {
        Some(k) => {
            proof {
                lemma_find_from_zero(file_path@, marker@, 0, k as int);
                assert(file_path@.len() <= usize::MAX) by {
                    assert(file_path.len() == file_path@.len());
                }
            }
            let after = subvec(file_path, k + marker.len(), file_path.len());
            proof {
                assert(after@ =~= file_path@.skip(k + marker@.len()));
            }
            parent_dir_of(&after)
        },
        None => {
            proof {
                lemma_find_from_none(file_path@, marker@, 0);
            }
            parent_dir_of(file_path)
        },
    }
}

// ---------------------------------------------------------------------------
// Package-boundary findings: pure string comparison per import.
// ---------------------------------------------------------------------------

pub open spec fn boundary_warning(path: Seq<u8>, imp: Seq<u8>, line: int, column: int) -> IssueModel {
    IssueModel {
        file_path: path,
        line,
        column,
        issue_type: IssueType::Architecture,
        severity: Severity::Warning,
        message: "Importing from the same module but different directory: ".spec_bytes() + imp
            + ". Consider restructuring.".spec_bytes(),
        code: imp,
        fix_available: false,
    }
}

pub open spec fn internal_error(path: Seq<u8>, imp: Seq<u8>, line: int, column: int) -> IssueModel {
    IssueModel {
        file_path: path,
        line,
        column,
        issue_type: IssueType::Architecture,
        severity: Severity::Error,
        message: "Importing from an 'internal' package that should not be imported directly: ".spec_bytes()
            + imp,
        code: imp,
        fix_available: false,
    }
}

/// The findings one import-spec node contributes to the boundary check.
pub open spec fn boundary_issues_at(f: GoFile, path: Seq<u8>, i: int) -> Seq<IssueModel> {
    let n = f.nodes@[i];
    match n.f_path {
        Some(p) => {
            let imp = trim_spec(node_text(f, p as int), true);
            let cur = package_path_spec(path);
            let line = line_at(f.content@, n.start as int);
            let column = column_at(f.content@, n.start as int);
            let warn: Seq<IssueModel> = if has_sub(imp, cur) && !ends_with(imp, cur) {
                seq![boundary_warning(path, imp, line, column)]
            } else {
                Seq::empty()
            };
            let err: Seq<IssueModel> = if has_sub(imp, "/internal/".spec_bytes()) && !has_sub(
                path,
                "/internal/".spec_bytes(),
            ) {
                seq![internal_error(path, imp, line, column)]
            } else {
                Seq::empty()
            };
            warn + err
        },
        None => Seq::empty(),
    }
}

/// Law: an import of another subtree's internal package contributes
/// exactly one finding at its import spec, an Architecture Error that is
/// not fixable, provided the import does not also cross the same-module
/// boundary (which would add the separate warning).
pub proof fn lemma_internal_import_flagged(f: GoFile, path: Seq<u8>, i: int)
    requires
        0 <= i < f.nodes@.len(),
        f.nodes@[i].f_path is Some,
        ({
            let p = f.nodes@[i].f_path->Some_0;
            let imp = trim_spec(node_text(f, p as int), true);
            &&& has_sub(imp, "/internal/".spec_bytes())
            &&& !has_sub(path, "/internal/".spec_bytes())
            &&& !(has_sub(imp, package_path_spec(path)) && !ends_with(
                imp,
                package_path_spec(path),
            ))
        }),
    ensures
        ({
            let p = f.nodes@[i].f_path->Some_0;
            let imp = trim_spec(node_text(f, p as int), true);
            boundary_issues_at(f, path, i) == seq![
                internal_error(
                    path,
                    imp,
                    line_at(f.content@, f.nodes@[i].start as int),
                    column_at(f.content@, f.nodes@[i].start as int),
                ),
            ]
        }),
{
    let p = f.nodes@[i].f_path->Some_0;
    let imp = trim_spec(node_text(f, p as int), true);
    let line = line_at(f.content@, f.nodes@[i].start as int);
    let column = column_at(f.content@, f.nodes@[i].start as int);
    assert(Seq::<IssueModel>::empty() + seq![internal_error(path, imp, line, column)] =~= seq![
        internal_error(path, imp, line, column),
    ]);
}

/// Whether the boundary check runs at all: the file must carry a package
/// clause.
pub open spec fn has_package_clause(f: GoFile) -> bool {
    kind_indices(f.nodes@, NodeKind::PackageClause).len() > 0
}

pub open spec fn boundary_findings_upto(f: GoFile, path: Seq<u8>, t: int) -> Seq<IssueModel>
    decreases t,
{
    if t <= 0 {
        Seq::empty()
    } else {
        boundary_findings_upto(f, path, t - 1) + boundary_issues_at(
            f,
            path,
            kind_indices(f.nodes@, NodeKind::ImportSpec)[t - 1] as int,
        )
    }
}

/// The package-boundary findings of a file: same-module cross-directory
/// imports (Warning) and imports of another subtree's internal packages
/// (Error).
pub open spec fn boundary_findings(f: GoFile, path: Seq<u8>) -> Seq<IssueModel> {
    if has_package_clause(f) {
        boundary_findings_upto(f, path, kind_indices(f.nodes@, NodeKind::ImportSpec).len() as int)
    } else {
        Seq::empty()
    }
}

/// Report imports that cross package boundaries: a warning for an import
/// inside the same module but another directory, an error for an import of
/// a non-importable `internal` subtree from outside it.
pub fn check_package_boundaries(ast: &GoFile, issues: &mut Vec<Issue>)
    requires
        ast.wf(),
    ensures
        final(issues).deep_view() == old(issues).deep_view() + boundary_findings(
            *ast,
            ast.path@,
        ),
{
    let pkg_clauses = ast.find_nodes(NodeKind::PackageClause);
    proof {
        assert(ast.nodes@.len() <= usize::MAX) by {
            assert(ast.nodes.len() == ast.nodes@.len());
        }
        lemma_kind_indices(ast.nodes@, NodeKind::PackageClause);
        lemma_kind_indices(ast.nodes@, NodeKind::ImportSpec);
    }
    if pkg_clauses.len() == 0 {
        return ;
    }
    let current_pkg = extract_package_path(&ast.path);
    let internal = lit_bytes("/internal/");
    let path_has_internal = contains_sub(&ast.path, &internal);
    let idxs = ast.find_nodes(NodeKind::ImportSpec);
    let mut t: usize = 0;
    proof {
        assert(issues.deep_view() + Seq::<IssueModel>::empty() =~= issues.deep_view());
    }
    while t < idxs.len()
        invariant
            ast.wf(),
            t <= idxs@.len(),
            idxs@ == kind_indices(ast.nodes@, NodeKind::ImportSpec),
            forall|u: int| 0 <= u < idxs@.len() ==> #[trigger] idxs@[u] < ast.nodes@.len(),
            current_pkg@ == package_path_spec(ast.path@),
            internal@ == "/internal/".spec_bytes(),
            path_has_internal == has_sub(ast.path@, "/internal/".spec_bytes()),
            issues.deep_view() == old(issues).deep_view() + boundary_findings_upto(
                *ast,
                ast.path@,
                t as int,
            ),
        decreases idxs@.len() - t,
    {
        let i = idxs[t];
        proof {
            assert(node_wf(ast.nodes@, ast.content@.len() as int, i as int));
        }
        let n = &ast.nodes[i];
        match n.f_path {
            Some(p) => {
                let raw = node_snippet(ast, p);
                let imp = trim_quotes(&raw);
                let pos = ast.get_position(n.start);
                let ghost pre = issues.deep_view();
                if contains_sub(&imp, &current_pkg) && !check_ends_with(&imp, &current_pkg) {
                    let mut msg = lit_bytes(
                        "Importing from the same module but different directory: ",
                    );
                    append_bytes(&mut msg, &imp);
                    let tail = lit_bytes(". Consider restructuring.");
                    append_bytes(&mut msg, &tail);
                    issues.push(
                        Issue {
                            file_path: ast.path.clone(),
                            line: pos.0,
                            column: pos.1,
                            issue_type: IssueType::Architecture,
                            severity: Severity::Warning,
                            message: msg,
                            code: imp.clone(),
                            fix_available: false,
                        },
                    );
                }
                if contains_sub(&imp, &internal) && !path_has_internal {
                    let mut msg = lit_bytes(
                        "Importing from an 'internal' package that should not be imported directly: ",
                    );
                    append_bytes(&mut msg, &imp);
                    issues.push(
                        Issue {
                            file_path: ast.path.clone(),
                            line: pos.0,
                            column: pos.1,
                            issue_type: IssueType::Architecture,
                            severity: Severity::Error,
                            message: msg,
                            code: imp.clone(),
                            fix_available: false,
                        },
                    );
                }
                proof {
                    assert(issues.deep_view() =~= pre + boundary_issues_at(
                        *ast,
                        ast.path@,
                        i as int,
                    ));
                    assert(issues.deep_view() =~= old(issues).deep_view()
                        + boundary_findings_upto(*ast, ast.path@, t + 1));
                }
            },
            None => {
                proof {
                    assert(boundary_issues_at(*ast, ast.path@, i as int)
                        =~= Seq::<IssueModel>::empty());
                    assert(issues.deep_view() =~= old(issues).deep_view()
                        + boundary_findings_upto(*ast, ast.path@, t + 1));
                }
            },
        }
        t += 1;
    }
}

// ---------------------------------------------------------------------------
// The dependency graph and the cycle finder.
// ---------------------------------------------------------------------------

pub struct DepEntryModel {
    pub pkg: Seq<u8>,
    pub imports: Seq<Seq<u8>>,
}

/// One package of the dependency graph with its raw import paths.
pub struct DepEntry {
    pub pkg: Vec<u8>,
    pub imports: Vec<Vec<u8>>,
}

impl View for DepEntry {
    type V = DepEntryModel;

    open spec fn view(&self) -> DepEntryModel {
        DepEntryModel { pkg: self.pkg@, imports: self.imports.deep_view() }
    }
}

impl DeepView for DepEntry {
    type V = DepEntryModel;

    open spec fn deep_view(&self) -> DepEntryModel {
        self@
    }
}

/// Mapping from package identifier to the set of raw import paths its files
/// reference; rebuilt per architecture run.
pub struct DepGraph {
    pub entries: Vec<DepEntry>,
}

/// The imports of the first entry for a package, if any.
pub open spec fn graph_lookup(g: Seq<DepEntryModel>, k: Seq<u8>) -> Option<Seq<Seq<u8>>>
    decreases g.len(),
{
    if g.len() == 0 {
        None
    } else if g[0].pkg == k {
        Some(g[0].imports)
    } else {
        graph_lookup(g.skip(1), k)
    }
}

pub open spec fn has_edge(g: Seq<DepEntryModel>, a: Seq<u8>, b: Seq<u8>) -> bool {
    match graph_lookup(g, a) {
        Some(imps) => seq_has_name(imps, b),
        None => false,
    }
}

/// Consecutive elements of `c` are joined by graph edges.
pub open spec fn is_chain(g: Seq<DepEntryModel>, c: Seq<Seq<u8>>) -> bool {
    forall|t: int| 0 <= t < c.len() - 1 ==> has_edge(g, #[trigger] c[t], c[t + 1])
}

/// A genuine import cycle: a chain of length at least two whose first and
/// last packages coincide.
pub open spec fn is_cycle(g: Seq<DepEntryModel>, c: Seq<Seq<u8>>) -> bool {
    c.len() >= 2 && is_chain(g, c) && c[0] == c[c.len() - 1]
}

/// A walk of at least one step whose consecutive packages are joined by
/// graph edges.
pub open spec fn is_walk(g: Seq<DepEntryModel>, w: Seq<Seq<u8>>) -> bool {
    w.len() >= 2 && forall|j: int| 0 <= j < w.len() - 1 ==> has_edge(g, #[trigger] w[j], w[j + 1])
}

/// A walk from `x` that ends in the blocked set or repeats one of its own
/// earlier packages: exactly what makes the traversal report.
pub open spec fn walk_sticks(
    g: Seq<DepEntryModel>,
    blocked: Seq<Seq<u8>>,
    x: Seq<u8>,
    w: Seq<Seq<u8>>,
) -> bool {
    &&& is_walk(g, w)
    &&& w[0] == x
    &&& (seq_has_name(blocked, w.last()) || exists|i: int|
        0 <= i < w.len() - 1 && w[i] == w.last())
}

/// `y` lies on a walk from `x` (or is `x` itself).
pub open spec fn reaches(g: Seq<DepEntryModel>, x: Seq<u8>, y: Seq<u8>) -> bool {
    x == y || exists|w: Seq<Seq<u8>>| is_walk(g, w) && w[0] == x && w.last() == y
}

pub proof fn lemma_seq_has_push(s: Seq<Seq<u8>>, c: Seq<u8>, x: Seq<u8>)
    ensures
        seq_has_name(s.push(c), x) <==> (seq_has_name(s, x) || x == c),
{
    if seq_has_name(s, x) {
        let k = choose|k: int| 0 <= k < s.len() && s[k] == x;
        assert(s.push(c)[k] == x);
    }
    if x == c {
        assert(s.push(c)[s.len() as int] == x);
    }
    if seq_has_name(s.push(c), x) {
        let k = choose|k: int| 0 <= k < s.push(c).len() && s.push(c)[k] == x;
        if k < s.len() {
            assert(s[k] == x);
        }
    }
}

/// One edge extends reachability.
pub proof fn lemma_reaches_step(g: Seq<DepEntryModel>, x: Seq<u8>, y: Seq<u8>, z: Seq<u8>)
    requires
        reaches(g, x, y),
        has_edge(g, y, z),
    ensures
        reaches(g, x, z),
{
    if x == y {
        let w = seq![y, z];
        assert(is_walk(g, w)) by {
            assert(w[0] == y && w[1] == z);
        }
        assert(w.last() == z);
    } else {
        let w = choose|w: Seq<Seq<u8>>| is_walk(g, w) && w[0] == x && w.last() == y;
        let w2 = w.push(z);
        assert(is_walk(g, w2)) by {
            assert forall|j: int| 0 <= j < w2.len() - 1 implies has_edge(
                g,
                #[trigger] w2[j],
                w2[j + 1],
            ) by {
                if j < w.len() - 1 {
                    assert(w2[j] == w[j] && w2[j + 1] == w[j + 1]);
                } else {
                    assert(w2[j] == w.last() && w2[j + 1] == z);
                }
            }
        }
        assert(w2[0] == x && w2.last() == z);
    }
}

/// A cycle reachable from `start` yields a sticking walk from `start`, for
/// any blocked set: the walk repeats the cycle's first package.
pub proof fn lemma_cycle_walk(
    g: Seq<DepEntryModel>,
    blocked: Seq<Seq<u8>>,
    start: Seq<u8>,
    c: Seq<Seq<u8>>,
)
    requires
        is_cycle(g, c),
        reaches(g, start, c[0]),
    ensures
        exists|w: Seq<Seq<u8>>| walk_sticks(g, blocked, start, w),
{
    if start == c[0] {
        assert(walk_sticks(g, blocked, start, c)) by {
            assert(c[0] == c.last());
            assert(exists|i: int| 0 <= i < c.len() - 1 && c[i] == c.last()) by {
                assert(c[0] == c.last());
            }
        }
    } else {
        let p = choose|p: Seq<Seq<u8>>| is_walk(g, p) && p[0] == start && p.last() == c[0];
        let w = p + c.skip(1);
        assert(walk_sticks(g, blocked, start, w)) by {
            assert(c.skip(1).len() == c.len() - 1);
            assert forall|j: int| 0 <= j < w.len() - 1 implies has_edge(
                g,
                #[trigger] w[j],
                w[j + 1],
            ) by {
                if j < p.len() - 1 {
                    assert(w[j] == p[j] && w[j + 1] == p[j + 1]);
                } else if j == p.len() - 1 {
                    assert(w[j] == p.last());
                    assert(w[j + 1] == c.skip(1)[0]);
                    assert(c.skip(1)[0] == c[1]);
                    assert(has_edge(g, c[0], c[1]));
                } else {
                    assert(w[j] == c.skip(1)[j - p.len()]);
                    assert(w[j + 1] == c.skip(1)[j + 1 - p.len()]);
                    assert(c.skip(1)[j - p.len()] == c[j - p.len() + 1]);
                    assert(c.skip(1)[j + 1 - p.len()] == c[j + 2 - p.len()]);
                    assert(has_edge(g, c[j - p.len() + 1], c[j - p.len() + 2]));
                }
            }
            assert(w[0] == p[0]);
            assert(w.last() == c.skip(1).last());
            assert(c.skip(1).last() == c.last());
            assert(w[p.len() - 1] == p.last());
            assert(exists|i: int| 0 <= i < w.len() - 1 && w[i] == w.last()) by {
                assert(w[p.len() - 1] == w.last());
            }
        }
    }
}

/// Number of graph packages not yet visited: the traversal's measure.
pub open spec fn unvisited_keys(g: Seq<DepEntryModel>, vis: Seq<Seq<u8>>) -> int
    decreases g.len(),
{
    if g.len() == 0 {
        0
    } else {
        unvisited_keys(g.drop_last(), vis) + if seq_has_name(vis, g.last().pkg) {
            0int
        } else {
            1int
        }
    }
}

proof fn lemma_unvisited_keys_mono(g: Seq<DepEntryModel>, vis: Seq<Seq<u8>>, c: Seq<u8>)
    ensures
        0 <= unvisited_keys(g, vis.push(c)) <= unvisited_keys(g, vis),
    decreases g.len(),
{
    if g.len() > 0 {
        lemma_unvisited_keys_mono(g.drop_last(), vis, c);
        lemma_seq_has_push(vis, c, g.last().pkg);
    }
}

proof fn lemma_unvisited_keys_dec(g: Seq<DepEntryModel>, vis: Seq<Seq<u8>>, c: Seq<u8>)
    requires
        exists|t: int| 0 <= t < g.len() && #[trigger] g[t].pkg == c,
        !seq_has_name(vis, c),
    ensures
        0 <= unvisited_keys(g, vis.push(c)) < unvisited_keys(g, vis),
    decreases g.len(),
{
    lemma_unvisited_keys_mono(g.drop_last(), vis, c);
    lemma_seq_has_push(vis, c, g.last().pkg);
    if g.last().pkg == c {
    } else {
        let t = choose|t: int| 0 <= t < g.len() && #[trigger] g[t].pkg == c;
        assert(g.drop_last()[t] == g[t]);
        lemma_unvisited_keys_dec(g.drop_last(), vis, c);
    }
}

fn clone_names(v: &Vec<Vec<u8>>) -> (r: Vec<Vec<u8>>)
    ensures
        r.deep_view() == v.deep_view(),
{
    let mut r: Vec<Vec<u8>> = Vec::new();
    let mut i: usize = 0;
    while i < v.len()
        invariant
            i <= v@.len(),
            r.deep_view() =~= v.deep_view().take(i as int),
        decreases v@.len() - i,
    {
        let ghost pre = r.deep_view();
        let cb = clone_bytes(&v[i]);
        r.push(cb);
        proof {
            assert(r.deep_view() =~= pre.push(v@[i as int]@));
            assert(pre.push(v@[i as int]@) =~= v.deep_view().take(i + 1));
        }
        i += 1;
    }
    proof {
        assert(v.deep_view().take(v@.len() as int) =~= v.deep_view());
    }
    r
}

fn graph_get(graph: &DepGraph, k: &Vec<u8>) -> (r: Option<Vec<Vec<u8>>>)
    ensures
        r.deep_view() == graph_lookup(graph.entries.deep_view(), k@),
{
    let ghost g = graph.entries.deep_view();
    proof {
        assert(g.skip(0) =~= g);
    }
    let mut j: usize = 0;
    while j < graph.entries.len()
        invariant
            j <= graph.entries@.len(),
            g == graph.entries.deep_view(),
            g.len() == graph.entries@.len(),
            graph_lookup(g, k@) == graph_lookup(g.skip(j as int), k@),
        decreases graph.entries@.len() - j,
    {
        proof {
            assert(g.skip(j as int)[0] == g[j as int]);
            assert(g.skip(j as int).skip(1) =~= g.skip(j + 1));
        }
        if eq_bytes(&graph.entries[j].pkg, k) {
            return Some(clone_names(&graph.entries[j].imports));
        }
        j += 1;
    }
    proof {
        assert(g.skip(g.len() as int) =~= Seq::<DepEntryModel>::empty());
    }
    None
}

/// First position of `name` in `stack`, if any.
fn position_of(stack: &Vec<Vec<u8>>, name: &Vec<u8>) -> (r: Option<usize>)
    ensures
        match r {
            Some(j) => j < stack.deep_view().len() && stack.deep_view()[j as int] == name@,
            None => !seq_has_name(stack.deep_view(), name@),
        },
{
    let mut j: usize = 0;
    while j < stack.len()
        invariant
            j <= stack@.len(),
            stack.deep_view().len() == stack@.len(),
            forall|t: int| 0 <= t < j ==> stack.deep_view()[t] != name@,
        decreases stack@.len() - j,
    {
        if eq_bytes(&stack[j], name) {
            return Some(j);
        }
        j += 1;
    }
    None
}

#[verifier::rlimit(100)]
fn find_cycle_inner(
    graph: &DepGraph,
    current: &Vec<u8>,
    visited: &Vec<Vec<u8>>,
    path_stack: &Vec<Vec<u8>>,
    Ghost(root): Ghost<Seq<u8>>,
) -> (r: Option<Vec<Vec<u8>>>)
    requires
        is_chain(graph.entries.deep_view(), path_stack.deep_view()),
        path_stack.deep_view().len() > 0 ==> has_edge(
            graph.entries.deep_view(),
            path_stack.deep_view().last(),
            current@,
        ),
        forall|x: Seq<u8>|
            #[trigger] seq_has_name(visited.deep_view(), x) <==> seq_has_name(
                path_stack.deep_view(),
                x,
            ),
        reaches(graph.entries.deep_view(), root, current@),
        forall|t: int|
            0 <= t < path_stack.deep_view().len() ==> reaches(
                graph.entries.deep_view(),
                root,
                #[trigger] path_stack.deep_view()[t],
            ),
    ensures
        r matches Some(c) ==> is_cycle(graph.entries.deep_view(), c.deep_view()) && reaches(
            graph.entries.deep_view(),
            root,
            c.deep_view()[0],
        ),
        seq_has_name(path_stack.deep_view(), current@) ==> r is Some,
        r is None ==> forall|w: Seq<Seq<u8>>|
            !walk_sticks(
                graph.entries.deep_view(),
                path_stack.deep_view().push(current@),
                current@,
                w,
            ),
    decreases unvisited_keys(graph.entries.deep_view(), visited.deep_view()),
{
    let ghost g = graph.entries.deep_view();
    let ghost pdv = path_stack.deep_view();
    if seq_has_exec_arch(visited, current) {
        match position_of(path_stack, current) {
            Some(start) => {
                let mut cycle: Vec<Vec<u8>> = Vec::new();
                let mut j: usize = start;
                while j < path_stack.len()
                    invariant
                        start <= j <= path_stack@.len(),
                        pdv == path_stack.deep_view(),
                        pdv.len() == path_stack@.len(),
                        cycle.deep_view() =~= pdv.subrange(start as int, j as int),
                    decreases path_stack@.len() - j,
                {
                    let ghost prec = cycle.deep_view();
                    let cb = clone_bytes(&path_stack[j]);
                    cycle.push(cb);
                    proof {
                        assert(cycle.deep_view() =~= prec.push(pdv[j as int]));
                        assert(prec.push(pdv[j as int]) =~= pdv.subrange(start as int, j + 1));
                    }
                    j += 1;
                }
                cycle.push(clone_bytes(current));
                proof {
                    let cdv = cycle.deep_view();
                    assert(cdv =~= pdv.subrange(start as int, pdv.len() as int).push(current@));
                    assert(cdv[0] == pdv[start as int]);
                    assert(cdv[cdv.len() - 1] == current@);
                    assert(pdv[start as int] == current@);
                    assert forall|t: int| 0 <= t < cdv.len() - 1 implies has_edge(
                        g,
                        #[trigger] cdv[t],
                        cdv[t + 1],
                    ) by {
                        if t + 1 < cdv.len() - 1 {
                            assert(cdv[t] == pdv[start + t] && cdv[t + 1] == pdv[start + t + 1]);
                            assert(has_edge(g, pdv[start + t], pdv[start + t + 1]));
                        } else {
                            assert(cdv[t] == pdv[pdv.len() - 1]);
                        }
                    }
                    assert(is_cycle(g, cdv));
                    assert(reaches(g, root, cdv[0]));
                }
                return Some(cycle);
            },
            None => {
                // unreachable: the visited set and the path carry the same
                // names
                proof {
                    assert(seq_has_name(pdv, current@));
                    assert(false);
                }
                return None;
            },
        }
    }
    proof {
        assert(!seq_has_name(pdv, current@));
    }
    let mut new_visited = clone_names(visited);
    new_visited.push(clone_bytes(current));
    let mut new_path = clone_names(path_stack);
    new_path.push(clone_bytes(current));
    proof {
        assert(new_visited.deep_view() =~= visited.deep_view().push(current@));
        assert(new_path.deep_view() =~= pdv.push(current@));
        assert forall|t: int|
            0 <= t < new_path.deep_view().len() - 1 implies has_edge(
            g,
            #[trigger] new_path.deep_view()[t],
            new_path.deep_view()[t + 1],
        ) by {
            if t < pdv.len() - 1 {
                assert(has_edge(g, pdv[t], pdv[t + 1]));
            }
        }
        assert forall|x: Seq<u8>|
            #[trigger] seq_has_name(new_visited.deep_view(), x) <==> seq_has_name(
            new_path.deep_view(),
            x,
        ) by {
            lemma_seq_has_push(visited.deep_view(), current@, x);
            lemma_seq_has_push(pdv, current@, x);
        }
        assert forall|t: int|
            0 <= t < new_path.deep_view().len() implies reaches(
            g,
            root,
            #[trigger] new_path.deep_view()[t],
        ) by {
            if t < pdv.len() {
                assert(reaches(g, root, pdv[t]));
            }
        }
    }
    match graph_get(graph, current) {
        Some(deps) => {
            proof {
                lemma_dep_index(g, current@);
                assert(dep_index(g, current@) >= 0);
            }
            let mut d: usize = 0;
            while d < deps.len()
                invariant
                    d <= deps@.len(),
                    g == graph.entries.deep_view(),
                    pdv == path_stack.deep_view(),
                    deps.deep_view().len() == deps@.len(),
                    Some(deps.deep_view()) == graph_lookup(g, current@),
                    dep_index(g, current@) >= 0,
                    is_chain(g, new_path.deep_view()),
                    new_path.deep_view() == pdv.push(current@),
                    new_visited.deep_view() == visited.deep_view().push(current@),
                    new_path.deep_view().last() == current@,
                    !seq_has_name(visited.deep_view(), current@),
                    reaches(g, root, current@),
                    forall|x: Seq<u8>|
                        #[trigger] seq_has_name(new_visited.deep_view(), x) <==> seq_has_name(
                            new_path.deep_view(),
                            x,
                        ),
                    forall|x: Seq<u8>|
                        #[trigger] seq_has_name(visited.deep_view(), x) <==> seq_has_name(pdv, x),
                    forall|t: int|
                        0 <= t < new_path.deep_view().len() ==> reaches(
                            g,
                            root,
                            #[trigger] new_path.deep_view()[t],
                        ),
                    forall|t: int|
                        0 <= t < d ==> !seq_has_name(
                            new_path.deep_view(),
                            #[trigger] deps.deep_view()[t],
                        ),
                    forall|t: int, w: Seq<Seq<u8>>|
                        0 <= t < d ==> !#[trigger] walk_sticks(
                            g,
                            new_path.deep_view().push(deps.deep_view()[t]),
                            deps.deep_view()[t],
                            w,
                        ),
                decreases deps@.len() - d,
            {
                let dep = &deps[d];
                proof {
                    assert(seq_has_name(deps.deep_view(), dep@)) by {
                        assert(deps.deep_view()[d as int] == dep@);
                    }
                    assert(has_edge(g, current@, dep@));
                    lemma_reaches_step(g, root, current@, dep@);
                    lemma_dep_index(g, current@);
                    lemma_unvisited_keys_dec(g, visited.deep_view(), current@);
                }
                match find_cycle_inner(graph, dep, &new_visited, &new_path, Ghost(root)) {
                    Some(c) => {
                        return Some(c);
                    },
                    None => {
                        proof {
                            assert(deps.deep_view()[d as int] == dep@);
                            assert(!seq_has_name(new_path.deep_view(), dep@));
                        }
                    },
                }
                d += 1;
            }
            proof {
                let blocked = pdv.push(current@);
                assert(blocked == new_path.deep_view());
                assert forall|w: Seq<Seq<u8>>| !walk_sticks(g, blocked, current@, w) by {
                    if walk_sticks(g, blocked, current@, w) {
                        let v1 = w[1];
                        assert(has_edge(g, w[0], w[1]));
                        assert(seq_has_name(deps.deep_view(), v1));
                        let t = choose|t: int|
                            0 <= t < deps.deep_view().len() && deps.deep_view()[t] == v1;
                        assert(!seq_has_name(new_path.deep_view(), v1));
                        if w.len() == 2 {
                            // a single step must land in the blocked set or
                            // back on the start, both on the new path
                            assert(w.last() == v1);
                            if seq_has_name(blocked, v1) {
                                assert(false);
                            } else {
                                let i = choose|i: int| 0 <= i < w.len() - 1 && w[i] == w.last();
                                assert(i == 0);
                                assert(v1 == current@);
                                assert(seq_has_name(new_path.deep_view(), current@)) by {
                                    assert(new_path.deep_view().last() == current@);
                                }
                                assert(false);
                            }
                        } else {
                            // the tail is a sticking walk from the dep,
                            // against the recursive guarantee
                            let tail = w.skip(1);
                            let a_d = new_path.deep_view().push(v1);
                            assert(walk_sticks(g, a_d, v1, tail)) by {
                                assert(tail.len() == w.len() - 1);
                                assert forall|j: int|
                                    0 <= j < tail.len() - 1 implies has_edge(
                                    g,
                                    #[trigger] tail[j],
                                    tail[j + 1],
                                ) by {
                                    assert(tail[j] == w[j + 1] && tail[j + 1] == w[j + 2]);
                                    assert(has_edge(g, w[j + 1], w[j + 2]));
                                }
                                assert(tail[0] == v1);
                                assert(tail.last() == w.last());
                                lemma_seq_has_push(new_path.deep_view(), v1, w.last());
                                if seq_has_name(blocked, w.last()) {
                                    assert(seq_has_name(a_d, w.last()));
                                } else {
                                    let i = choose|i: int|
                                        0 <= i < w.len() - 1 && w[i] == w.last();
                                    if i == 0 {
                                        assert(w.last() == current@);
                                        assert(seq_has_name(blocked, current@)) by {
                                            assert(blocked.last() == current@);
                                        }
                                        assert(seq_has_name(a_d, w.last()));
                                    } else {
                                        assert(tail[i - 1] == w[i]);
                                        assert(exists|i2: int|
                                            0 <= i2 < tail.len() - 1 && tail[i2]
                                                == tail.last()) by {
                                            assert(tail[i - 1] == tail.last());
                                        }
                                    }
                                }
                            }
                            assert(false);
                        }
                    }
                }
            }
            None
        },
        None => {
            proof {
                let blocked = pdv.push(current@);
                assert forall|w: Seq<Seq<u8>>| !walk_sticks(g, blocked, current@, w) by {
                    if walk_sticks(g, blocked, current@, w) {
                        assert(has_edge(g, w[0], w[1]));
                        assert(graph_lookup(g, current@) is None);
                        assert(false);
                    }
                }
            }
            None
        },
    }
}

fn seq_has_exec_arch(names: &Vec<Vec<u8>>, name: &Vec<u8>) -> (r: bool)
    ensures
        r == seq_has_name(names.deep_view(), name@),
{
    let mut k: usize = 0;
    while k < names.len()
        invariant
            k <= names@.len(),
            names.deep_view().len() == names@.len(),
            forall|t: int| 0 <= t < k ==> names.deep_view()[t] != name@,
        decreases names@.len() - k,
    {
        if eq_bytes(&names[k], name) {
            proof {
                assert(names.deep_view()[k as int] == name@);
            }
            return true;
        }
        k += 1;
    }
    false
}

/// Depth-first search for an import cycle reachable from `current`, with
/// the visited set and path stack carried along. Any returned sequence is a
/// genuine cycle reachable from `current`, and when nothing is returned no
/// cycle is reachable from `current` at all. The premises state the
/// traversal's own invariant - the visited set mirrors the path, whose
/// packages descend from `current`; the canonical invocation passes two
/// empty vectors and satisfies them trivially.
pub fn find_cycle(
    graph: &DepGraph,
    current: &Vec<u8>,
    visited: &Vec<Vec<u8>>,
    path_stack: &Vec<Vec<u8>>,
) -> (r: Option<Vec<Vec<u8>>>)
    requires
        is_chain(graph.entries.deep_view(), path_stack.deep_view()),
        path_stack.deep_view().len() > 0 ==> has_edge(
            graph.entries.deep_view(),
            path_stack.deep_view().last(),
            current@,
        ),
        forall|x: Seq<u8>|
            #[trigger] seq_has_name(visited.deep_view(), x) <==> seq_has_name(
                path_stack.deep_view(),
                x,
            ),
        forall|t: int|
            0 <= t < path_stack.deep_view().len() ==> reaches(
                graph.entries.deep_view(),
                current@,
                #[trigger] path_stack.deep_view()[t],
            ),
    ensures
        r matches Some(c) ==> is_cycle(graph.entries.deep_view(), c.deep_view()) && reaches(
            graph.entries.deep_view(),
            current@,
            c.deep_view()[0],
        ),
        r is None ==> forall|c: Seq<Seq<u8>>|
            !(is_cycle(graph.entries.deep_view(), c) && reaches(
                graph.entries.deep_view(),
                current@,
                c[0],
            )),
{
    let r = find_cycle_inner(graph, current, visited, path_stack, Ghost(current@));
    proof {
        let g = graph.entries.deep_view();
        if r is None {
            assert forall|c: Seq<Seq<u8>>|
                !(is_cycle(g, c) && reaches(g, current@, c[0])) by {
                if is_cycle(g, c) && reaches(g, current@, c[0]) {
                    lemma_cycle_walk(g, path_stack.deep_view().push(current@), current@, c);
                    assert(false);
                }
            }
        }
    }
    r
}

// ---------------------------------------------------------------------------
// Locating the reported line, building the graph, and the pass itself.
// ---------------------------------------------------------------------------

/// The 1-based line of the first import spec whose quoted path text holds
/// `pkg` as a substring, searching the declaration list from position `t`.
pub open spec fn import_line_from(f: GoFile, pkg: Seq<u8>, t: int) -> Option<int>
    decreases kind_indices(f.nodes@, NodeKind::ImportSpec).len() - t,
{
    let idxs = kind_indices(f.nodes@, NodeKind::ImportSpec);
    if t < 0 || t >= idxs.len() {
        None
    } else {
        let n = f.nodes@[idxs[t] as int];
        let found = match n.f_path {
            Some(p) => has_sub(node_text(f, p as int), pkg),
            None => false,
        };
        if found {
            Some(line_at(f.content@, n.start as int))
        } else {
            import_line_from(f, pkg, t + 1)
        }
    }
}

/// Line of the import declaration that mentions `import_pkg`, if any.
pub fn find_import_line(ast: &GoFile, import_pkg: &Vec<u8>) -> (r: Option<usize>)
    requires
        ast.wf(),
    ensures
        match r {
            Some(l) => import_line_from(*ast, import_pkg@, 0) == Some(l as int),
            None => import_line_from(*ast, import_pkg@, 0) is None,
        },
{
    let idxs = ast.find_nodes(NodeKind::ImportSpec);
    proof {
        assert(ast.nodes@.len() <= usize::MAX) by {
            assert(ast.nodes.len() == ast.nodes@.len());
        }
        lemma_kind_indices(ast.nodes@, NodeKind::ImportSpec);
    }
    let mut t: usize = 0;
    while t < idxs.len()
        invariant
            ast.wf(),
            t <= idxs@.len(),
            idxs@ == kind_indices(ast.nodes@, NodeKind::ImportSpec),
            forall|u: int| 0 <= u < idxs@.len() ==> #[trigger] idxs@[u] < ast.nodes@.len(),
            import_line_from(*ast, import_pkg@, 0) == import_line_from(*ast, import_pkg@, t as int),
        decreases idxs@.len() - t,
    {
        let i = idxs[t];
        proof {
            assert(node_wf(ast.nodes@, ast.content@.len() as int, i as int));
        }
        let n = &ast.nodes[i];
        let found: bool = match n.f_path {
            Some(p) => {
                let text = node_snippet(ast, p);
                contains_sub(&text, import_pkg)
            },
            None => false,
        };
        if found {
            let pos = ast.get_position(n.start);
            return Some(pos.0);
        }
        t += 1;
    }
    None
}

pub open spec fn unique_pkgs(g: Seq<DepEntryModel>) -> bool {
    forall|j1: int, j2: int| 0 <= j1 < j2 < g.len() ==> g[j1].pkg != g[j2].pkg
}

pub struct SourceFileModel {
    pub path: Seq<u8>,
    pub content: Seq<u8>,
}

/// A source file held in memory: its path and its content.
pub struct SourceFile {
    pub path: Vec<u8>,
    pub content: Vec<u8>,
}

impl View for SourceFile {
    type V = SourceFileModel;

    open spec fn view(&self) -> SourceFileModel {
        SourceFileModel { path: self.path@, content: self.content@ }
    }
}

impl DeepView for SourceFile {
    type V = SourceFileModel;

    open spec fn deep_view(&self) -> SourceFileModel {
        self@
    }
}

/// Index of the first graph entry for a package, or -1; the position that
/// `graph_lookup` answers from.
pub open spec fn dep_index(g: Seq<DepEntryModel>, k: Seq<u8>) -> int
    decreases g.len(),
{
    if g.len() == 0 {
        -1
    } else if g[0].pkg == k {
        0
    } else {
        let r = dep_index(g.skip(1), k);
        if r < 0 {
            -1
        } else {
            1 + r
        }
    }
}

pub proof fn lemma_dep_index(g: Seq<DepEntryModel>, k: Seq<u8>)
    ensures
        dep_index(g, k) == -1 ==> graph_lookup(g, k) is None && forall|t: int|
            0 <= t < g.len() ==> g[t].pkg != k,
        dep_index(g, k) >= 0 ==> dep_index(g, k) < g.len() && g[dep_index(g, k)].pkg == k
            && graph_lookup(g, k) == Some(g[dep_index(g, k)].imports) && forall|t: int|
            0 <= t < dep_index(g, k) ==> g[t].pkg != k,
    decreases g.len(),
{
    if g.len() > 0 && g[0].pkg != k {
        lemma_dep_index(g.skip(1), k);
        if dep_index(g, k) >= 0 {
            assert forall|t: int| 0 <= t < dep_index(g, k) implies g[t].pkg != k by {
                if t > 0 {
                    assert(g.skip(1)[t - 1] == g[t]);
                }
            }
        } else {
            assert forall|t: int| 0 <= t < g.len() implies g[t].pkg != k by {
                if t > 0 {
                    assert(g.skip(1)[t - 1] == g[t]);
                }
            }
        }
    }
}

proof fn lemma_dep_index_update(g: Seq<DepEntryModel>, j: int, e: DepEntryModel, k: Seq<u8>)
    requires
        0 <= j < g.len(),
        e.pkg == g[j].pkg,
    ensures
        dep_index(g.update(j, e), k) == dep_index(g, k),
    decreases g.len(),
{
    if j == 0 {
        if g[0].pkg != k {
            assert(g.update(0, e).skip(1) =~= g.skip(1));
        }
    } else {
        assert(g.update(j, e).skip(1) =~= g.skip(1).update(j - 1, e));
        lemma_dep_index_update(g.skip(1), j - 1, e, k);
    }
}

proof fn lemma_dep_index_push(g: Seq<DepEntryModel>, e: DepEntryModel, k: Seq<u8>)
    ensures
        dep_index(g.push(e), k) == if dep_index(g, k) >= 0 {
            dep_index(g, k)
        } else if k == e.pkg {
            g.len() as int
        } else {
            -1
        },
    decreases g.len(),
{
    if g.len() == 0 {
        assert(g.push(e)[0] == e);
        assert(g.push(e).skip(1) =~= Seq::<DepEntryModel>::empty());
        assert(dep_index(Seq::<DepEntryModel>::empty(), k) == -1);
    } else {
        assert(g.push(e)[0] == g[0]);
        if g[0].pkg != k {
            assert(g.push(e).skip(1) =~= g.skip(1).push(e));
            lemma_dep_index_push(g.skip(1), e, k);
        }
    }
}

fn find_dep_entry(entries: &Vec<DepEntry>, pkg: &Vec<u8>) -> (r: Option<usize>)
    ensures
        match r {
            Some(j) => j as int == dep_index(entries.deep_view(), pkg@) && j < entries@.len(),
            None => dep_index(entries.deep_view(), pkg@) == -1,
        },
{
    let ghost dv = entries.deep_view();
    let mut j: usize = 0;
    while j < entries.len()
        invariant
            j <= entries@.len(),
            dv == entries.deep_view(),
            dv.len() == entries@.len(),
            forall|t: int| 0 <= t < j ==> dv[t].pkg != pkg@,
        decreases entries@.len() - j,
    {
        if eq_bytes(&entries[j].pkg, pkg) {
            proof {
                assert(dv[j as int].pkg == pkg@);
                lemma_dep_index(dv, pkg@);
                if dep_index(dv, pkg@) == -1 {
                    assert(false);
                }
                assert(dep_index(dv, pkg@) == j);
            }
            return Some(j);
        }
        j += 1;
    }
    proof {
        lemma_dep_index(dv, pkg@);
        if dep_index(dv, pkg@) != -1 {
            assert(dv[dep_index(dv, pkg@)].pkg == pkg@);
            assert(false);
        }
    }
    None
}

fn append_names(dst: &mut Vec<Vec<u8>>, src: &Vec<Vec<u8>>)
    ensures
        final(dst).deep_view() == old(dst).deep_view() + src.deep_view(),
{
    let mut t: usize = 0;
    proof {
        assert(dst.deep_view() =~= old(dst).deep_view() + src.deep_view().take(0));
    }
    while t < src.len()
        invariant
            t <= src@.len(),
            src.deep_view().len() == src@.len(),
            dst.deep_view() == old(dst).deep_view() + src.deep_view().take(t as int),
        decreases src@.len() - t,
    {
        let ghost pre = dst.deep_view();
        dst.push(clone_bytes(&src[t]));
        proof {
            assert(dst.deep_view() =~= pre.push(src.deep_view()[t as int]));
            assert(pre.push(src.deep_view()[t as int]) =~= old(dst).deep_view()
                + src.deep_view().take(t + 1));
        }
        t += 1;
    }
    proof {
        assert(src.deep_view().take(src@.len() as int) =~= src.deep_view());
    }
}

/// Merge one package's imports into the graph: afterwards the graph has an
/// edge from `a` to `b` exactly when it had one before or `a` is this
/// package and `b` one of these imports.
#[verifier::rlimit(60)]
fn graph_add(graph: &mut DepGraph, pkg: Vec<u8>, imports: Vec<Vec<u8>>)
    requires
        unique_pkgs(old(graph).entries.deep_view()),
    ensures
        unique_pkgs(final(graph).entries.deep_view()),
        forall|a: Seq<u8>, b: Seq<u8>|
            #[trigger] has_edge(final(graph).entries.deep_view(), a, b) <==> (has_edge(
                old(graph).entries.deep_view(),
                a,
                b,
            ) || (a == pkg@ && seq_has_name(imports.deep_view(), b))),
{
    let ghost g0 = graph.entries.deep_view();
    match find_dep_entry(&graph.entries, &pkg) {
        Some(j) => {
            let mut merged = clone_names(&graph.entries[j].imports);
            append_names(&mut merged, &imports);
            let pk = clone_bytes(&graph.entries[j].pkg);
            let ghost em = DepEntryModel {
                pkg: g0[j as int].pkg,
                imports: g0[j as int].imports + imports.deep_view(),
            };
            graph.entries[j] = DepEntry { pkg: pk, imports: merged };
            proof {
                assert(graph.entries.deep_view() =~= g0.update(j as int, em));
                lemma_dep_index(g0, pkg@);
                let g1 = graph.entries.deep_view();
                assert forall|j1: int, j2: int|
                    0 <= j1 < j2 < g1.len() implies g1[j1].pkg != g1[j2].pkg by {
                    assert(g1[j1].pkg == g0[j1].pkg && g1[j2].pkg == g0[j2].pkg);
                }
                assert forall|a: Seq<u8>, b: Seq<u8>| #[trigger]
                    has_edge(g1, a, b) <==> (has_edge(g0, a, b) || (a == pkg@ && seq_has_name(
                    imports.deep_view(),
                    b,
                ))) by {
                    lemma_dep_index_update(g0, j as int, em, a);
                    lemma_dep_index(g0, a);
                    lemma_dep_index(g1, a);
                    let di = dep_index(g0, a);
                    if di >= 0 {
                        if di == j {
                            assert(a == pkg@);
                            assert(graph_lookup(g1, a) == Some(em.imports));
                            assert(seq_has_name(em.imports, b) <==> (seq_has_name(
                                g0[j as int].imports,
                                b,
                            ) || seq_has_name(imports.deep_view(), b))) by {
                                if seq_has_name(em.imports, b) {
                                    let t = choose|t: int|
                                        0 <= t < em.imports.len() && em.imports[t] == b;
                                    if t < g0[j as int].imports.len() {
                                        assert(g0[j as int].imports[t] == b);
                                    } else {
                                        assert(imports.deep_view()[t - g0[
                                            j as int
                                        ].imports.len()] == b);
                                    }
                                }
                                if seq_has_name(g0[j as int].imports, b) {
                                    let t = choose|t: int|
                                        0 <= t < g0[j as int].imports.len() && g0[
                                            j as int
                                        ].imports[t] == b;
                                    assert(em.imports[t] == b);
                                }
                                if seq_has_name(imports.deep_view(), b) {
                                    let t = choose|t: int|
                                        0 <= t < imports.deep_view().len()
                                            && imports.deep_view()[t] == b;
                                    assert(em.imports[g0[j as int].imports.len() + t] == b);
                                }
                            }
                        } else {
                            assert(g1[di].pkg == g0[di].pkg && g1[di].imports == g0[di].imports);
                            assert(a != pkg@);
                        }
                    } else {
                        assert(a != pkg@);
                    }
                }
            }
        },
        None => {
            let ghost em = DepEntryModel { pkg: pkg@, imports: imports.deep_view() };
            graph.entries.push(DepEntry { pkg, imports });
            proof {
                assert(graph.entries.deep_view() =~= g0.push(em));
                lemma_dep_index(g0, em.pkg);
                let g1 = graph.entries.deep_view();
                assert forall|j1: int, j2: int|
                    0 <= j1 < j2 < g1.len() implies g1[j1].pkg != g1[j2].pkg by {
                    if j2 < g0.len() {
                        assert(g1[j1] == g0[j1] && g1[j2] == g0[j2]);
                    } else {
                        assert(g1[j1] == g0[j1]);
                        assert(g1[j2].pkg == em.pkg);
                    }
                }
                assert forall|a: Seq<u8>, b: Seq<u8>| #[trigger]
                    has_edge(g1, a, b) <==> (has_edge(g0, a, b) || (a == em.pkg && seq_has_name(
                    em.imports,
                    b,
                ))) by {
                    lemma_dep_index_push(g0, em, a);
                    lemma_dep_index(g0, a);
                    lemma_dep_index(g1, a);
                    let di = dep_index(g0, a);
                    if di >= 0 {
                        assert(g1[di] == g0[di]);
                        assert(a != em.pkg);
                    } else if a == em.pkg {
                        assert(graph_lookup(g1, a) == Some(em.imports));
                        assert(graph_lookup(g0, a) is None);
                    }
                }
            }
        },
    }
}

/// The import path text the `t`-th import spec contributes, quotes
/// stripped.
pub open spec fn import_paths_upto(f: GoFile, t: int) -> Seq<Seq<u8>>
    decreases t,
{
    if t <= 0 {
        Seq::empty()
    } else {
        let prev = import_paths_upto(f, t - 1);
        let n = f.nodes@[kind_indices(f.nodes@, NodeKind::ImportSpec)[t - 1] as int];
        match n.f_path {
            Some(p) => prev.push(trim_spec(node_text(f, p as int), true)),
            None => prev,
        }
    }
}

/// All import path texts of a parsed file, quotes stripped, in order.
pub open spec fn import_paths_spec(f: GoFile) -> Seq<Seq<u8>> {
    import_paths_upto(f, kind_indices(f.nodes@, NodeKind::ImportSpec).len() as int)
}

/// The quoted import path texts of a parsed file, quotes stripped.
fn import_paths_of(ast: &GoFile) -> (r: Vec<Vec<u8>>)
    requires
        ast.wf(),
    ensures
        r.deep_view() == import_paths_spec(*ast),
{
    let idxs = ast.find_nodes(NodeKind::ImportSpec);
    proof {
        assert(ast.nodes@.len() <= usize::MAX) by {
            assert(ast.nodes.len() == ast.nodes@.len());
        }
        lemma_kind_indices(ast.nodes@, NodeKind::ImportSpec);
    }
    let mut r: Vec<Vec<u8>> = Vec::new();
    proof {
        assert(r.deep_view() =~= Seq::<Seq<u8>>::empty());
    }
    let mut t: usize = 0;
    while t < idxs.len()
        invariant
            ast.wf(),
            t <= idxs@.len(),
            idxs@ == kind_indices(ast.nodes@, NodeKind::ImportSpec),
            forall|u: int| 0 <= u < idxs@.len() ==> #[trigger] idxs@[u] < ast.nodes@.len(),
            r.deep_view() == import_paths_upto(*ast, t as int),
        decreases idxs@.len() - t,
    {
        let i = idxs[t];
        proof {
            assert(node_wf(ast.nodes@, ast.content@.len() as int, i as int));
        }
        match ast.nodes[i].f_path {
            Some(p) => {
                let raw = node_snippet(ast, p);
                let ghost pre = r.deep_view();
                r.push(trim_quotes(&raw));
                proof {
                    assert(r.deep_view() =~= pre.push(
                        trim_spec(node_text(*ast, p as int), true),
                    ));
                }
            },
            None => {},
        }
        t += 1;
    }
    r
}

/// A parsed file vouches for the graph edges of its package: every import
/// path it declares is an edge of `g` when the file carries a package
/// clause.
pub open spec fn file_contributes(g: Seq<DepEntryModel>, fm: SourceFileModel, f: GoFile) -> bool {
    &&& f.wf()
    &&& f.path@ == fm.path
    &&& f.content@ == fm.content
    &&& (has_package_clause(f) ==> forall|b: Seq<u8>|
        #[trigger] seq_has_name(import_paths_spec(f), b) ==> has_edge(
            g,
            package_path_spec(fm.path),
            b,
        ))
}

/// An edge justified by one of the given files: some well-formed parse of
/// that file carries a package clause and declares the import.
pub open spec fn edge_from_files(files: Seq<SourceFileModel>, a: Seq<u8>, b: Seq<u8>) -> bool {
    exists|t: int, f: GoFile|
        #![trigger files[t], f.wf()]
        0 <= t < files.len() && f.wf() && f.path@ == files[t].path && f.content@
            == files[t].content && has_package_clause(f) && a == package_path_spec(files[t].path)
            && seq_has_name(import_paths_spec(f), b)
}

/// Build the package-to-imports graph from the project's source files; a
/// file that fails to parse or has no package clause is skipped, as one bad
/// file must not abort the run. Every edge is justified by one of the
/// files, and every file that parses contributes its package's imports.
#[verifier::rlimit(100)]
pub fn build_dependency_graph(files: &Vec<SourceFile>) -> (graph: DepGraph)
    ensures
        unique_pkgs(graph.entries.deep_view()),
        forall|a: Seq<u8>, b: Seq<u8>|
            #[trigger] has_edge(graph.entries.deep_view(), a, b) ==> edge_from_files(
                files.deep_view(),
                a,
                b,
            ),
        forall|t: int|
            0 <= t < files.deep_view().len() && (#[trigger] files.deep_view()[t]).content.len()
                < usize::MAX && crate::parser::ts_parses(files.deep_view()[t].content)
                ==> exists|f: GoFile| file_contributes(graph.entries.deep_view(), files.deep_view()[t], f),
{
    let ghost fdv = files.deep_view();
    let mut graph = DepGraph { entries: Vec::new() };
    proof {
        assert(graph.entries.deep_view() =~= Seq::<DepEntryModel>::empty());
    }
    let mut t: usize = 0;
    while t < files.len()
        invariant
            t <= files@.len(),
            fdv == files.deep_view(),
            fdv.len() == files@.len(),
            unique_pkgs(graph.entries.deep_view()),
            forall|a: Seq<u8>, b: Seq<u8>|
                #[trigger] has_edge(graph.entries.deep_view(), a, b) ==> edge_from_files(
                    fdv,
                    a,
                    b,
                ),
            forall|u: int|
                0 <= u < t && (#[trigger] fdv[u]).content.len() < usize::MAX
                    && crate::parser::ts_parses(fdv[u].content) ==> exists|f: GoFile|
                    file_contributes(graph.entries.deep_view(), fdv[u], f),
        decreases files@.len() - t,
    {
        let file = &files[t];
        proof {
            assert(file@ == fdv[t as int]);
        }
        let ghost pre_graph = graph.entries.deep_view();
        match GoFile::parse_source(clone_bytes(&file.path), clone_bytes(&file.content)) {
            Some(ast) => {
                let pkg_clauses = ast.find_nodes(NodeKind::PackageClause);
                proof {
                    assert(ast.nodes@.len() <= usize::MAX) by {
                        assert(ast.nodes.len() == ast.nodes@.len());
                    }
                    lemma_kind_indices(ast.nodes@, NodeKind::PackageClause);
                }
                if pkg_clauses.len() > 0 {
                    let pkg = extract_package_path(&file.path);
                    let imports = import_paths_of(&ast);
                    proof {
                        assert(has_package_clause(ast)) by {
                            assert(pkg_clauses@.len() > 0);
                        }
                    }
                    graph_add(&mut graph, pkg, imports);
                    proof {
                        let gdv = graph.entries.deep_view();
                        let ghost fm = fdv[t as int];
                        assert forall|a: Seq<u8>, b: Seq<u8>|
                            #[trigger] has_edge(gdv, a, b) implies edge_from_files(
                            fdv,
                            a,
                            b,
                        ) by {
                            if !has_edge(pre_graph, a, b) {
                                assert(a == package_path_spec(fm.path) && seq_has_name(
                                    import_paths_spec(ast),
                                    b,
                                ));
                                assert(0 <= t < fdv.len() && ast.wf() && ast.path@ == fm.path
                                    && ast.content@ == fm.content && has_package_clause(ast));
                            }
                        }
                        assert forall|u: int|
                            0 <= u < t + 1 && (#[trigger] fdv[u]).content.len() < usize::MAX
                                && crate::parser::ts_parses(fdv[u].content) implies exists|
                            f: GoFile,
                        | file_contributes(gdv, fdv[u], f) by {
                            if u == t {
                                assert(file_contributes(gdv, fdv[u], ast));
                            } else {
                                let f0 = choose|f: GoFile|
                                    file_contributes(pre_graph, fdv[u], f);
                                assert(file_contributes(gdv, fdv[u], f0));
                            }
                        }
                    }
                } else {
                    proof {
                        assert(!has_package_clause(ast)) by {
                            assert(pkg_clauses@.len() == 0);
                        }
                        assert(file_contributes(graph.entries.deep_view(), fdv[t as int], ast));
                        assert forall|u: int|
                            0 <= u < t + 1 && (#[trigger] fdv[u]).content.len() < usize::MAX
                                && crate::parser::ts_parses(fdv[u].content) implies exists|
                            f: GoFile,
                        | file_contributes(graph.entries.deep_view(), fdv[u], f) by {}
                    }
                }
            },
            None => {
                proof {
                    assert(!(fdv[t as int].content.len() < usize::MAX
                        && crate::parser::ts_parses(fdv[t as int].content)));
                }
            },
        }
        t += 1;
    }
    graph
}

pub open spec fn circular_issue(path: Seq<u8>, c: Seq<Seq<u8>>, line: int) -> IssueModel {
    IssueModel {
        file_path: path,
        line,
        column: 1,
        issue_type: IssueType::Architecture,
        severity: Severity::Error,
        message: "Circular dependency detected: ".spec_bytes() + crate::text::join_sep_spec(
            c,
            " -> ".spec_bytes(),
        ),
        code: "Circular dependency path: ".spec_bytes() + crate::text::join_sep_spec(
            c,
            " -> ".spec_bytes(),
        ),
        fix_available: false,
    }
}

/// Search the dependency graph for a cycle reachable from this file's
/// package and report it at the line of the cycle's last hop. An acyclic
/// graph never yields a finding; at most one finding is appended, and any
/// appended finding reports a genuine cycle of the graph. Conversely, when
/// nothing is appended, either no cycle is reachable from this file's
/// package, or the one the search surfaces has no matching import line to
/// report it at (the documented silent drop).
pub fn check_circular_dependencies(graph: &DepGraph, ast: &GoFile, issues: &mut Vec<Issue>)
    requires
        ast.wf(),
    ensures
        old(issues).deep_view().len() <= final(issues).deep_view().len()
            <= old(issues).deep_view().len() + 1,
        final(issues).deep_view().take(old(issues).deep_view().len() as int)
            == old(issues).deep_view(),
        (forall|c: Seq<Seq<u8>>| !is_cycle(graph.entries.deep_view(), c))
            ==> final(issues).deep_view() == old(issues).deep_view(),
        final(issues).deep_view().len() == old(issues).deep_view().len() + 1 ==> exists|
            c: Seq<Seq<u8>>,
            l: int,
        |
            is_cycle(graph.entries.deep_view(), c) && import_line_from(*ast, c[c.len() - 1], 0)
                == Some(l) && final(issues).deep_view().last() == circular_issue(ast.path@, c, l),
        final(issues).deep_view().len() == old(issues).deep_view().len() ==> ((forall|
            c: Seq<Seq<u8>>,
        |
            !(is_cycle(graph.entries.deep_view(), c) && reaches(
                graph.entries.deep_view(),
                package_path_spec(ast.path@),
                c[0],
            ))) || (exists|c: Seq<Seq<u8>>|
            is_cycle(graph.entries.deep_view(), c) && reaches(
                graph.entries.deep_view(),
                package_path_spec(ast.path@),
                c[0],
            ) && import_line_from(*ast, c[c.len() - 1], 0) is None)),
{
    let current_package = extract_package_path(&ast.path);
    let empty_visited: Vec<Vec<u8>> = Vec::new();
    let empty_path: Vec<Vec<u8>> = Vec::new();
    let ghost pre = issues.deep_view();
    proof {
        assert(pre.take(pre.len() as int) =~= pre);
        assert(empty_visited.deep_view() =~= Seq::<Seq<u8>>::empty());
        assert(empty_path.deep_view() =~= Seq::<Seq<u8>>::empty());
    }
    match find_cycle(graph, &current_package, &empty_visited, &empty_path) {
        Some(cycle) => {
            proof {
                assert(cycle.deep_view().len() >= 2);
            }
            let last_hop = &cycle[cycle.len() - 1];
            match find_import_line(ast, last_hop) {
                Some(line) => {
                    let sep = lit_bytes(" -> ");
                    let joined = crate::text::join_sep(&cycle, &sep);
                    let mut msg = lit_bytes("Circular dependency detected: ");
                    append_bytes(&mut msg, &joined);
                    let mut code = lit_bytes("Circular dependency path: ");
                    append_bytes(&mut code, &joined);
                    issues.push(
                        Issue {
                            file_path: ast.path.clone(),
                            line,
                            column: 1,
                            issue_type: IssueType::Architecture,
                            severity: Severity::Error,
                            message: msg,
                            code,
                            fix_available: false,
                        },
                    );
                    proof {
                        let cdv = cycle.deep_view();
                        assert(issues.deep_view().last() == circular_issue(
                            ast.path@,
                            cdv,
                            line as int,
                        ));
                        assert(issues.deep_view().take(pre.len() as int) =~= pre);
                    }
                },
                None => {},
            }
        },
        None => {},
    }
}

// ---------------------------------------------------------------------------
// The project root.
// ---------------------------------------------------------------------------

/// Walk upwards from `dir`, returning the first directory that carries a
/// root marker; the step count is bounded by `fuel`.
pub open spec fn root_search(marked: Seq<Seq<u8>>, dir: Seq<u8>, fuel: nat) -> Option<Seq<u8>>
    decreases fuel,
{
    if seq_has_name(marked, dir) {
        Some(dir)
    } else if fuel == 0 || dir.len() == 0 {
        None
    } else {
        root_search(marked, parent_dir(dir), (fuel - 1) as nat)
    }
}

/// The project root of a file: the nearest ancestor directory carrying a
/// module-manifest marker or a conventional source directory, else the
/// file's own directory.
pub open spec fn project_root_spec(marked: Seq<Seq<u8>>, path: Seq<u8>, is_file: bool) -> Seq<
    u8,
> {
    let start = if is_file {
        parent_dir(path)
    } else {
        path
    };
    match root_search(marked, start, path.len()) {
        Some(d) => d,
        None => parent_dir(path),
    }
}

fn root_search_exec(marked: &Vec<Vec<u8>>, dir: Vec<u8>, fuel: usize) -> (r: Option<Vec<u8>>)
    ensures
        r.deep_view() == root_search(marked.deep_view(), dir@, fuel as nat),
    decreases fuel,
{
    if seq_has_exec_arch(marked, &dir) {
        return Some(dir);
    }
    if fuel == 0 || dir.len() == 0 {
        return None;
    }
    let p = parent_dir_of(&dir);
    root_search_exec(marked, p, fuel - 1)
}

/// The nearest ancestor directory of `file_path` that is marked as holding
/// a root marker (a module manifest or a source directory); the caller
/// supplies which directories are marked. Falls back to the file's own
/// directory.
pub fn find_project_root(file_path: &Vec<u8>, is_file: bool, marked_dirs: &Vec<Vec<u8>>) -> (r:
    Vec<u8>)
    ensures
        r@ == project_root_spec(marked_dirs.deep_view(), file_path@, is_file),
{
    let start: Vec<u8> = if is_file {
        parent_dir_of(file_path)
    } else {
        clone_bytes(file_path)
    };
    match root_search_exec(marked_dirs, start, file_path.len()) {
        Some(d) => d,
        None => parent_dir_of(file_path),
    }
}

// ---------------------------------------------------------------------------
// The architecture pass.
// ---------------------------------------------------------------------------

/// Run the enabled architecture checks against a file: package boundaries,
/// then circular dependencies over the supplied project graph.
pub fn analyze(ast: &GoFile, config: &Config, graph: &DepGraph, issues: &mut Vec<Issue>)
    requires
        ast.wf(),
    ensures
        ({
            let with_b = old(issues).deep_view() + (if config.rules.architecture.enforce_package_boundaries {
                boundary_findings(*ast, ast.path@)
            } else {
                Seq::empty()
            });
            &&& with_b.len() <= final(issues).deep_view().len() <= with_b.len() + 1
            &&& final(issues).deep_view().take(with_b.len() as int) == with_b
            &&& (!config.rules.architecture.detect_circular_dependencies
                ==> final(issues).deep_view() == with_b)
            &&& ((forall|c: Seq<Seq<u8>>| !is_cycle(graph.entries.deep_view(), c))
                ==> final(issues).deep_view() == with_b)
            &&& (final(issues).deep_view().len() == with_b.len() + 1 ==> exists|
                c: Seq<Seq<u8>>,
                l: int,
            |
                is_cycle(graph.entries.deep_view(), c) && import_line_from(
                    *ast,
                    c[c.len() - 1],
                    0,
                ) == Some(l) && final(issues).deep_view().last() == circular_issue(
                    ast.path@,
                    c,
                    l,
                ))
            &&& ((config.rules.architecture.detect_circular_dependencies
                && final(issues).deep_view().len() == with_b.len()) ==> ((forall|c: Seq<Seq<u8>>|
                !(is_cycle(graph.entries.deep_view(), c) && reaches(
                    graph.entries.deep_view(),
                    package_path_spec(ast.path@),
                    c[0],
                ))) || (exists|c: Seq<Seq<u8>>|
                is_cycle(graph.entries.deep_view(), c) && reaches(
                    graph.entries.deep_view(),
                    package_path_spec(ast.path@),
                    c[0],
                ) && import_line_from(*ast, c[c.len() - 1], 0) is None)))
        }),
{
    if config.rules.architecture.enforce_package_boundaries {
        check_package_boundaries(ast, issues);
    }
    let ghost with_b = issues.deep_view();
    proof {
        assert(with_b.take(with_b.len() as int) =~= with_b);
        if !config.rules.architecture.enforce_package_boundaries {
            assert(with_b =~= old(issues).deep_view() + Seq::<IssueModel>::empty());
        }
    }
    if config.rules.architecture.detect_circular_dependencies {
        check_circular_dependencies(graph, ast, issues);
    }
}

} // verus!
