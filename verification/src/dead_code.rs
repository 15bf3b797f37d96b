use vstd::prelude::*;
use vstd::string::StringSliceAdditionalSpecFns;
use crate::config::Config;
use crate::config::DeadCodeRules;
use crate::parser::NodeData;
use crate::issue::Issue;
use crate::issue::IssueModel;
use crate::issue::IssueType;
use crate::issue::Severity;
use crate::parser::GoFile;
use crate::parser::NodeKind;
use crate::parser::kind_indices;
use crate::parser::lemma_kind_indices;
use crate::parser::node_wf;
use crate::parser::snippet_spec;
use crate::parser::line_at;
use crate::parser::column_at;
use crate::text::DOT;
use crate::text::SLASH;
use crate::text::UNDERSCORE;
use crate::text::append_bytes;
use crate::text::eq_bytes;
use crate::text::lit_bytes;
use crate::text::subvec;
use crate::text::trim_quotes;
use crate::text::trim_spec;
use crate::text::trim_ws;

verus! {

broadcast use crate::text::lemma_bytes_deep;

// ---------------------------------------------------------------------------
// The usage resolver: declared imports, functions and variables that never
// occur in a reference-like syntactic position. Occurrence matching is
// lexical, not binding-resolved; that imprecision is part of the design.
// ---------------------------------------------------------------------------

/// The source bytes a node covers.
pub open spec fn node_text(f: GoFile, i: int) -> Seq<u8> {
    snippet_spec(f.content@, f.nodes@[i].start as int, f.nodes@[i].end as int)
}

/// Helper: the source bytes of node `j`.
pub fn node_snippet(ast: &GoFile, j: usize) -> (r: Vec<u8>)
    requires
        ast.wf(),
        j < ast.nodes@.len(),
    ensures
        r@ == node_text(*ast, j as int),
{
    let n = &ast.nodes[j];
    ast.get_snippet(n.start, n.end)
}

/// The suffix of `s` after its last slash (the whole of `s` when it holds no
/// slash).
pub open spec fn after_last_slash(s: Seq<u8>) -> Seq<u8>
    decreases s.len(),
{
    if s.len() == 0 {
        s
    } else if s.last() == SLASH {
        Seq::empty()
    } else {
        after_last_slash(s.drop_last()).push(s.last())
    }
}

proof fn lemma_after_last_slash_none(s: Seq<u8>)
    requires
        forall|j: int| 0 <= j < s.len() ==> s[j] != SLASH,
    ensures
        after_last_slash(s) == s,
    decreases s.len(),
{
    if s.len() > 0 {
        lemma_after_last_slash_none(s.drop_last());
        assert(after_last_slash(s) =~= s);
    }
}

proof fn lemma_after_last_slash_at(s: Seq<u8>, k: int)
    requires
        0 <= k < s.len(),
        s[k] == SLASH,
        forall|j: int| k < j < s.len() ==> s[j] != SLASH,
    ensures
        after_last_slash(s) == s.subrange(k + 1, s.len() as int),
    decreases s.len(),
{
    if k == s.len() - 1 {
        assert(after_last_slash(s) =~= s.subrange(k + 1, s.len() as int));
    } else {
        lemma_after_last_slash_at(s.drop_last(), k);
        assert(after_last_slash(s) =~= s.subrange(k + 1, s.len() as int)) by {
            assert(s.drop_last().subrange(k + 1, s.drop_last().len() as int) =~= s.subrange(
                k + 1,
                s.len() - 1,
            ));
            assert(s.subrange(k + 1, s.len() - 1).push(s.last()) =~= s.subrange(
                k + 1,
                s.len() as int,
            ));
        }
    }
}

/// The package name of an import path: quotes stripped, last path segment.
pub open spec fn package_name_spec(path_text: Seq<u8>) -> Seq<u8> {
    after_last_slash(trim_spec(path_text, true))
}

/// Last segment of an import path with its surrounding quotes stripped.
pub fn extract_package_name(import_path: &Vec<u8>) -> (r: Vec<u8>)
    ensures
        r@ == package_name_spec(import_path@),
{
    let p = trim_quotes(import_path);
    let n = p.len();
    let mut k: usize = n;
    while k > 0
        invariant
            k <= n,
            n == p@.len(),
            p@ == trim_spec(import_path@, true),
            forall|j: int| k <= j < n ==> p@[j] != SLASH,
        decreases k,
    {
        if p[k - 1] == SLASH {
            proof {
                lemma_after_last_slash_at(p@, k - 1);
                assert(after_last_slash(p@) == p@.subrange(k as int, p@.len() as int));
            }
            let r = subvec(&p, k, n);
            proof {
                assert(r@ == p@.subrange(k as int, n as int));
                assert(p@ == trim_spec(import_path@, true));
            }
            return r;
        }
        k -= 1;
    }
    proof {
        lemma_after_last_slash_none(p@);
    }
    p
}

// ---------------------------------------------------------------------------
// Occurrence scans: the four syntactic positions in which an import's name
// counts as used.
// ---------------------------------------------------------------------------

#[derive(Clone, Copy, PartialEq, Eq, Structural, Debug)]
pub enum UsageScan {
    SelectorOperand,
    TypeIdentifierPackage,
    QualifiedTypePackage,
    TypeAssertionPackage,
    CallFunction,
    IdentifierRef,
}

pub open spec fn scan_node_kind(s: UsageScan) -> NodeKind {
    match s {
        UsageScan::SelectorOperand => NodeKind::SelectorExpression,
        UsageScan::TypeIdentifierPackage => NodeKind::TypeIdentifier,
        UsageScan::QualifiedTypePackage => NodeKind::QualifiedType,
        UsageScan::TypeAssertionPackage => NodeKind::TypeAssertionExpression,
        UsageScan::CallFunction => NodeKind::CallExpression,
        UsageScan::IdentifierRef => NodeKind::Identifier,
    }
}

/// The name node `j` contributes to the used-name set under scan `s`, if any.
pub open spec fn scan_gives(f: GoFile, j: int, s: UsageScan) -> Option<Seq<u8>> {
    match s {
        UsageScan::SelectorOperand => match f.nodes@[j].f_operand {
            Some(o) => Some(trim_spec(node_text(f, o as int), false)),
            None => None,
        },
        UsageScan::TypeIdentifierPackage => match f.nodes@[j].f_package {
            Some(p) => Some(trim_spec(node_text(f, p as int), false)),
            None => None,
        },
        UsageScan::QualifiedTypePackage => match f.nodes@[j].f_package {
            Some(p) => Some(trim_spec(node_text(f, p as int), false)),
            None => None,
        },
        UsageScan::TypeAssertionPackage => match f.nodes@[j].f_type {
            Some(t) => if f.nodes@[t as int].kind == NodeKind::QualifiedType {
                match f.nodes@[t as int].f_package {
                    Some(p) => Some(trim_spec(node_text(f, p as int), false)),
                    None => None,
                }
            } else {
                None
            },
            None => None,
        },
        UsageScan::CallFunction => match f.nodes@[j].f_function {
            Some(c) => if f.nodes@[c as int].kind == NodeKind::Identifier {
                Some(node_text(f, c as int))
            } else {
                None
            },
            None => None,
        },
        UsageScan::IdentifierRef => {
            let skip = match f.nodes@[j].parent {
                Some(p) => (f.nodes@[p as int].kind == NodeKind::VarSpec && f.nodes@[p as int].f_name
                    == Some(j as usize)) || (f.nodes@[p as int].kind
                    == NodeKind::ShortVarDeclaration && f.nodes@[p as int].f_left == Some(
                    j as usize,
                )),
                None => false,
            };
            if skip {
                None
            } else {
                Some(node_text(f, j))
            }
        },
    }
}

pub open spec fn scan_used(f: GoFile, s: UsageScan, name: Seq<u8>) -> bool {
    exists|j: int|
        0 <= j < f.nodes@.len() && f.nodes@[j].kind == scan_node_kind(s) && scan_gives(f, j, s)
            == Some(name)
}

/// An import name counts as used when it occurs as a selector operand, a
/// package qualifier of a type, or the qualifier inside a type assertion.
pub open spec fn import_name_used(f: GoFile, name: Seq<u8>) -> bool {
    ||| scan_used(f, UsageScan::SelectorOperand, name)
    ||| scan_used(f, UsageScan::TypeIdentifierPackage, name)
    ||| scan_used(f, UsageScan::QualifiedTypePackage, name)
    ||| scan_used(f, UsageScan::TypeAssertionPackage, name)
}

pub open spec fn seq_has_name(s: Seq<Seq<u8>>, name: Seq<u8>) -> bool {
    exists|k: int| 0 <= k < s.len() && s[k] == name
}

fn seq_has_exec(used: &Vec<Vec<u8>>, name: &Vec<u8>) -> (r: bool)
    ensures
        r == seq_has_name(used.deep_view(), name@),
{
    let mut k: usize = 0;
    while k < used.len()
        invariant
            k <= used@.len(),
            used.deep_view().len() == used@.len(),
            forall|j: int| 0 <= j < k ==> used.deep_view()[j] != name@,
        decreases used@.len() - k,
    {
        if eq_bytes(&used[k], name) {
            proof {
                assert(used.deep_view()[k as int] == name@);
            }
            return true;
        }
        k += 1;
    }
    false
}

fn scan_gives_exec(ast: &GoFile, i: usize, s: UsageScan) -> (r: Option<Vec<u8>>)
    requires
        ast.wf(),
        i < ast.nodes@.len(),
    ensures
        r.deep_view() == scan_gives(*ast, i as int, s),
{
    proof {
        assert(node_wf(ast.nodes@, ast.content@.len() as int, i as int));
    }
    let n = &ast.nodes[i];
    match s {
        UsageScan::SelectorOperand => match n.f_operand {
            Some(o) => {
                let sn = node_snippet(ast, o);
                Some(trim_ws(&sn))
            },
            None => None,
        },
        UsageScan::TypeIdentifierPackage => match n.f_package {
            Some(p) => {
                let sn = node_snippet(ast, p);
                Some(trim_ws(&sn))
            },
            None => None,
        },
        UsageScan::QualifiedTypePackage => match n.f_package {
            Some(p) => {
                let sn = node_snippet(ast, p);
                Some(trim_ws(&sn))
            },
            None => None,
        },
        UsageScan::TypeAssertionPackage => match n.f_type {
            Some(t) => {
                proof {
                    assert(node_wf(ast.nodes@, ast.content@.len() as int, t as int));
                }
                let tn = &ast.nodes[t];
                if tn.kind == NodeKind::QualifiedType {
                    match tn.f_package {
                        Some(p) => {
                            let sn = node_snippet(ast, p);
                            Some(trim_ws(&sn))
                        },
                        None => None,
                    }
                } else {
                    None
                }
            },
            None => None,
        },
        UsageScan::CallFunction => match n.f_function {
            Some(c) => {
                if ast.nodes[c].kind == NodeKind::Identifier {
                    Some(node_snippet(ast, c))
                } else {
                    None
                }
            },
            None => None,
        },
        UsageScan::IdentifierRef => {
            let skip: bool = match n.parent {
                Some(p) => {
                    let pn = &ast.nodes[p];
                    let from_var_spec: bool = pn.kind == NodeKind::VarSpec && (match pn.f_name {
                        Some(x) => x == i,
                        None => false,
                    });
                    let from_short_var: bool = pn.kind == NodeKind::ShortVarDeclaration && (
                    match pn.f_left {
                        Some(x) => x == i,
                        None => false,
                    });
                    from_var_spec || from_short_var
                },
                None => false,
            };
            if skip {
                None
            } else {
                Some(node_snippet(ast, i))
            }
        },
    }
}

/// Names the scan contributes among the first `t` nodes of its kind.
pub open spec fn scan_used_upto(f: GoFile, s: UsageScan, t: int, name: Seq<u8>) -> bool {
    exists|u: int|
        0 <= u < t && scan_gives(f, kind_indices(f.nodes@, scan_node_kind(s))[u] as int, s) == Some(
            name,
        )
}

fn scan_kind_exec(s: UsageScan) -> (k: NodeKind)
    ensures
        k == scan_node_kind(s),
{
    match s {
        UsageScan::SelectorOperand => NodeKind::SelectorExpression,
        UsageScan::TypeIdentifierPackage => NodeKind::TypeIdentifier,
        UsageScan::QualifiedTypePackage => NodeKind::QualifiedType,
        UsageScan::TypeAssertionPackage => NodeKind::TypeAssertionExpression,
        UsageScan::CallFunction => NodeKind::CallExpression,
        UsageScan::IdentifierRef => NodeKind::Identifier,
    }
}

fn collect_scan(ast: &GoFile, s: UsageScan, used: &mut Vec<Vec<u8>>)
    requires
        ast.wf(),
    ensures
        forall|name: Seq<u8>|
            #[trigger] seq_has_name(final(used).deep_view(), name) <==> (seq_has_name(
                old(used).deep_view(),
                name,
            ) || scan_used(*ast, s, name)),
{
    let kind = scan_kind_exec(s);
    let idxs = ast.find_nodes(kind);
    proof {
        assert(ast.nodes@.len() <= usize::MAX) by {
            assert(ast.nodes.len() == ast.nodes@.len());
        }
        lemma_kind_indices(ast.nodes@, kind);
    }
    let mut t: usize = 0;
    while t < idxs.len()
        invariant
            ast.wf(),
            t <= idxs@.len(),
            idxs@ == kind_indices(ast.nodes@, scan_node_kind(s)),
            forall|u: int| 0 <= u < idxs@.len() ==> #[trigger] idxs@[u] < ast.nodes@.len(),
            forall|name: Seq<u8>|
                #[trigger] seq_has_name(used.deep_view(), name) <==> (seq_has_name(
                    old(used).deep_view(),
                    name,
                ) || scan_used_upto(*ast, s, t as int, name)),
        decreases idxs@.len() - t,
    {
        let i = idxs[t];
        let ghost pre = used.deep_view();
        match scan_gives_exec(ast, i, s) {
            Some(nm) => {
                used.push(nm);
                proof {
                    assert(used.deep_view() =~= pre.push(nm@));
                    assert forall|name: Seq<u8>|
                        #[trigger] seq_has_name(used.deep_view(), name) <==> (seq_has_name(
                        old(used).deep_view(),
                        name,
                    ) || scan_used_upto(*ast, s, t + 1, name)) by {
                        if seq_has_name(used.deep_view(), name) {
                            let k = choose|k: int|
                                0 <= k < used.deep_view().len() && used.deep_view()[k] == name;
                            if k < pre.len() {
                                assert(seq_has_name(pre, name));
                            } else {
                                assert(name == nm@);
                                assert(scan_gives(*ast, idxs@[t as int] as int, s) == Some(name));
                                assert(scan_used_upto(*ast, s, t + 1, name));
                            }
                        }
                        if seq_has_name(pre, name) {
                            let k = choose|k: int| 0 <= k < pre.len() && pre[k] == name;
                            assert(used.deep_view()[k] == name);
                            assert(seq_has_name(used.deep_view(), name));
                        }
                        if scan_used_upto(*ast, s, t + 1, name) {
                            let u = choose|u: int|
                                0 <= u < t + 1 && scan_gives(
                                    *ast,
                                    kind_indices(ast.nodes@, scan_node_kind(s))[u] as int,
                                    s,
                                ) == Some(name);
                            if u < t {
                                assert(scan_used_upto(*ast, s, t as int, name));
                            } else {
                                assert(name == nm@);
                                assert(used.deep_view()[pre.len() as int] == name);
                                assert(seq_has_name(used.deep_view(), name));
                            }
                        }
                    }
                }
            },
            None => {
                proof {
                    assert forall|name: Seq<u8>|
                        scan_used_upto(*ast, s, t + 1, name) implies scan_used_upto(
                        *ast,
                        s,
                        t as int,
                        name,
                    ) by {
                        let u = choose|u: int|
                            0 <= u < t + 1 && scan_gives(
                                *ast,
                                kind_indices(ast.nodes@, scan_node_kind(s))[u] as int,
                                s,
                            ) == Some(name);
                        assert(u < t);
                    }
                }
            },
        }
        t += 1;
    }
    proof {
        assert forall|name: Seq<u8>|
            scan_used_upto(*ast, s, idxs@.len() as int, name) <==> scan_used(*ast, s, name) by {
            if scan_used_upto(*ast, s, idxs@.len() as int, name) {
                let u = choose|u: int|
                    0 <= u < idxs@.len() && scan_gives(
                        *ast,
                        kind_indices(ast.nodes@, scan_node_kind(s))[u] as int,
                        s,
                    ) == Some(name);
                let j = idxs@[u] as int;
                assert(ast.nodes@[j].kind == scan_node_kind(s));
                assert(scan_used(*ast, s, name));
            }
            if scan_used(*ast, s, name) {
                let j = choose|j: int|
                    0 <= j < ast.nodes@.len() && ast.nodes@[j].kind == scan_node_kind(s)
                        && scan_gives(*ast, j, s) == Some(name);
                assert(kind_indices(ast.nodes@, scan_node_kind(s)).contains(j as usize));
                let u = choose|u: int|
                    0 <= u < idxs@.len() && idxs@[u] == j as usize;
                assert(scan_used_upto(*ast, s, idxs@.len() as int, name));
            }
        }
    }
}

// ---------------------------------------------------------------------------
// Declared imports.
// ---------------------------------------------------------------------------

pub struct ImportEntryModel {
    pub key: Seq<u8>,
    pub path: Seq<u8>,
    pub line: int,
    pub column: int,
    pub alias: Option<Seq<u8>>,
}

pub struct ImportEntry {
    pub key: Vec<u8>,
    pub path: Vec<u8>,
    pub line: usize,
    pub column: usize,
    pub alias: Option<Vec<u8>>,
}

impl View for ImportEntry {
    type V = ImportEntryModel;

    open spec fn view(&self) -> ImportEntryModel {
        ImportEntryModel {
            key: self.key@,
            path: self.path@,
            line: self.line as int,
            column: self.column as int,
            alias: self.alias.deep_view(),
        }
    }
}

impl DeepView for ImportEntry {
    type V = ImportEntryModel;

    open spec fn deep_view(&self) -> ImportEntryModel {
        self@
    }
}

/// The declaration entry an import-spec node contributes: none when it has
/// no path field or is aliased away with `_` or `.`.
pub open spec fn import_entry_at(f: GoFile, i: int) -> Option<ImportEntryModel> {
    let n = f.nodes@[i];
    match n.f_path {
        Some(p) => {
            let path_text = node_text(f, p as int);
            let alias = match n.f_name {
                Some(a) => Some(node_text(f, a as int)),
                None => None,
            };
            if alias == Some(seq![UNDERSCORE]) || alias == Some(seq![DOT]) {
                None
            } else {
                Some(
                    ImportEntryModel {
                        key: package_name_spec(path_text),
                        path: path_text,
                        line: line_at(f.content@, n.start as int),
                        column: column_at(f.content@, n.start as int),
                        alias,
                    },
                )
            }
        },
        None => None,
    }
}

/// Index of the first entry with the given key, or -1.
pub open spec fn find_key(s: Seq<ImportEntryModel>, key: Seq<u8>) -> int
    decreases s.len(),
{
    if s.len() == 0 {
        -1
    } else if s[0].key == key {
        0
    } else {
        let r = find_key(s.skip(1), key);
        if r < 0 {
            -1
        } else {
            1 + r
        }
    }
}

pub proof fn lemma_find_key(s: Seq<ImportEntryModel>, key: Seq<u8>)
    ensures
        find_key(s, key) == -1 ==> forall|t: int| 0 <= t < s.len() ==> s[t].key != key,
        find_key(s, key) != -1 ==> 0 <= find_key(s, key) < s.len() && s[find_key(s, key)].key
            == key && forall|t: int| 0 <= t < find_key(s, key) ==> s[t].key != key,
    decreases s.len(),
{
    if s.len() > 0 && s[0].key != key {
        lemma_find_key(s.skip(1), key);
        if find_key(s, key) != -1 {
            assert forall|t: int| 0 <= t < find_key(s, key) implies s[t].key != key by {
                if t > 0 {
                    assert(s.skip(1)[t - 1] == s[t]);
                }
            }
        } else {
            assert forall|t: int| 0 <= t < s.len() implies s[t].key != key by {
                if t > 0 {
                    assert(s.skip(1)[t - 1] == s[t]);
                }
            }
        }
    }
}

/// Insert an entry, replacing in place an earlier entry with the same key.
pub open spec fn upsert(s: Seq<ImportEntryModel>, e: ImportEntryModel) -> Seq<ImportEntryModel> {
    let j = find_key(s, e.key);
    if j >= 0 {
        s.update(j, e)
    } else {
        s.push(e)
    }
}

/// The declared-import entries contributed by the first `t` import-spec
/// nodes, later same-key declarations replacing earlier ones.
pub open spec fn import_entries_upto(f: GoFile, t: int) -> Seq<ImportEntryModel>
    decreases t,
{
    if t <= 0 {
        Seq::empty()
    } else {
        let prev = import_entries_upto(f, t - 1);
        match import_entry_at(f, kind_indices(f.nodes@, NodeKind::ImportSpec)[t - 1] as int) {
            Some(e) => upsert(prev, e),
            None => prev,
        }
    }
}

pub open spec fn import_entries(f: GoFile) -> Seq<ImportEntryModel> {
    import_entries_upto(f, kind_indices(f.nodes@, NodeKind::ImportSpec).len() as int)
}

/// Whether a declared import counts as used: by its alias when it has one,
/// by its package name otherwise.
pub open spec fn import_entry_used(f: GoFile, e: ImportEntryModel) -> bool {
    match e.alias {
        Some(a) => import_name_used(f, trim_spec(a, true)),
        None => import_name_used(f, trim_spec(e.key, true)),
    }
}

pub open spec fn unused_import_issue(path: Seq<u8>, e: ImportEntryModel) -> IssueModel {
    IssueModel {
        file_path: path,
        line: e.line,
        column: e.column,
        issue_type: IssueType::DeadCode,
        severity: Severity::Warning,
        message: "Unused import: ".spec_bytes() + e.path,
        code: e.path,
        fix_available: true,
    }
}

pub open spec fn unused_import_findings_from(
    f: GoFile,
    path: Seq<u8>,
    entries: Seq<ImportEntryModel>,
) -> Seq<IssueModel>
    decreases entries.len(),
{
    if entries.len() == 0 {
        Seq::empty()
    } else {
        let prev = unused_import_findings_from(f, path, entries.drop_last());
        if !import_entry_used(f, entries.last()) {
            prev.push(unused_import_issue(path, entries.last()))
        } else {
            prev
        }
    }
}

/// One DeadCode finding per declared import that never occurs in a
/// reference-like position.
pub open spec fn unused_import_findings(f: GoFile, path: Seq<u8>) -> Seq<IssueModel> {
    unused_import_findings_from(f, path, import_entries(f))
}

fn find_entry(entries: &Vec<ImportEntry>, key: &Vec<u8>) -> (r: Option<usize>)
    ensures
        match r {
            Some(j) => j == find_key(entries.deep_view(), key@) && j < entries@.len(),
            None => find_key(entries.deep_view(), key@) == -1,
        },
{
    let ghost dv = entries.deep_view();
    proof {
        lemma_find_key(dv, key@);
    }
    let mut j: usize = 0;
    while j < entries.len()
        invariant
            j <= entries@.len(),
            dv == entries.deep_view(),
            dv.len() == entries@.len(),
            forall|t: int| 0 <= t < j ==> dv[t].key != key@,
        decreases entries@.len() - j,
    {
        if eq_bytes(&entries[j].key, key) {
            proof {
                lemma_find_key(dv, key@);
                assert(dv[j as int].key == key@);
                if find_key(dv, key@) == -1 {
                    assert(false);
                }
                assert(find_key(dv, key@) == j);
            }
            return Some(j);
        }
        j += 1;
    }
    proof {
        lemma_find_key(dv, key@);
        if find_key(dv, key@) != -1 {
            assert(dv[find_key(dv, key@)].key == key@);
            assert(false);
        }
    }
    None
}

fn upsert_entry(entries: &mut Vec<ImportEntry>, e: ImportEntry)
    ensures
        final(entries).deep_view() == upsert(old(entries).deep_view(), e@),
{
    let ghost dv = entries.deep_view();
    match find_entry(entries, &e.key) {
        Some(j) => {
            entries[j] = e;
            proof {
                assert(entries.deep_view() =~= dv.update(j as int, e@));
            }
        },
        None => {
            entries.push(e);
            proof {
                assert(entries.deep_view() =~= dv.push(e@));
            }
        },
    }
}

fn msg_unused_import(path_text: &Vec<u8>) -> (m: Vec<u8>)
    ensures
        m@ == "Unused import: ".spec_bytes() + path_text@,
{
    let mut m = lit_bytes("Unused import: ");
    append_bytes(&mut m, path_text);
    m
}

/// Report each declared import whose alias or package name never occurs in
/// a reference-like position; one finding per declared name.
pub fn check_unused_imports(ast: &GoFile, issues: &mut Vec<Issue>)
    requires
        ast.wf(),
    ensures
        final(issues).deep_view() == old(issues).deep_view() + unused_import_findings(
            *ast,
            ast.path@,
        ),
{
    let idxs = ast.find_nodes(NodeKind::ImportSpec);
    proof {
        assert(ast.nodes@.len() <= usize::MAX) by {
            assert(ast.nodes.len() == ast.nodes@.len());
        }
        lemma_kind_indices(ast.nodes@, NodeKind::ImportSpec);
    }
    let mut entries: Vec<ImportEntry> = Vec::new();
    proof {
        assert(entries.deep_view() =~= Seq::<ImportEntryModel>::empty());
    }
    let mut t: usize = 0;
    while t < idxs.len()
        invariant
            ast.wf(),
            t <= idxs@.len(),
            idxs@ == kind_indices(ast.nodes@, NodeKind::ImportSpec),
            forall|u: int| 0 <= u < idxs@.len() ==> #[trigger] idxs@[u] < ast.nodes@.len(),
            entries.deep_view() == import_entries_upto(*ast, t as int),
        decreases idxs@.len() - t,
    {
        let i = idxs[t];
        proof {
            assert(node_wf(ast.nodes@, ast.content@.len() as int, i as int));
        }
        let n = &ast.nodes[i];
        match n.f_path {
            Some(p) => {
                let path_text = node_snippet(ast, p);
                let alias: Option<Vec<u8>> = match n.f_name {
                    Some(a) => Some(node_snippet(ast, a)),
                    None => None,
                };
                let skip_alias: bool = match &alias {
                    Some(al) => al.len() == 1 && (al[0] == UNDERSCORE || al[0] == DOT),
                    None => false,
                };
                proof {
                    if let Some(al) = &alias {
                        assert(al@ == seq![UNDERSCORE] <==> (al@.len() == 1 && al@[0]
                            == UNDERSCORE)) by {
                            if al@.len() == 1 && al@[0] == UNDERSCORE {
                                assert(al@ =~= seq![UNDERSCORE]);
                            }
                        }
                        assert(al@ == seq![DOT] <==> (al@.len() == 1 && al@[0] == DOT)) by {
                            if al@.len() == 1 && al@[0] == DOT {
                                assert(al@ =~= seq![DOT]);
                            }
                        }
                    }
                }
                if !skip_alias {
                    let key = extract_package_name(&path_text);
                    let pos = ast.get_position(n.start);
                    let e = ImportEntry {
                        key,
                        path: path_text,
                        line: pos.0,
                        column: pos.1,
                        alias,
                    };
                    proof {
                        assert(import_entry_at(*ast, i as int) == Some(e@));
                    }
                    upsert_entry(&mut entries, e);
                } else {
                    proof {
                        assert(import_entry_at(*ast, i as int) is None);
                    }
                }
            },
            None => {
                proof {
                    assert(import_entry_at(*ast, i as int) is None);
                }
            },
        }
        t += 1;
    }
    let used = collect_used_import_names(ast);
    let ghost all_entries = entries.deep_view();
    proof {
        assert(all_entries == import_entries(*ast));
        assert(all_entries.take(0) =~= Seq::<ImportEntryModel>::empty());
    }
    let mut t2: usize = 0;
    while t2 < entries.len()
        invariant
            ast.wf(),
            t2 <= entries@.len(),
            all_entries == entries.deep_view(),
            all_entries.len() == entries@.len(),
            forall|name: Seq<u8>|
                #[trigger] seq_has_name(used.deep_view(), name) <==> import_name_used(*ast, name),
            issues.deep_view() == old(issues).deep_view() + unused_import_findings_from(
                *ast,
                ast.path@,
                all_entries.take(t2 as int),
            ),
        decreases entries@.len() - t2,
    {
        let e = &entries[t2];
        let lookup: Vec<u8> = match &e.alias {
            Some(a) => trim_quotes(a),
            None => trim_quotes(&e.key),
        };
        let is_used = seq_has_exec(&used, &lookup);
        proof {
            assert(is_used == import_entry_used(*ast, all_entries[t2 as int]));
            assert(all_entries.take(t2 + 1).drop_last() =~= all_entries.take(t2 as int));
            assert(all_entries.take(t2 + 1).last() == all_entries[t2 as int]);
        }
        if !is_used {
            let msg = msg_unused_import(&e.path);
            let code = e.path.clone();
            let ghost pre = issues.deep_view();
            issues.push(
                Issue {
                    file_path: ast.path.clone(),
                    line: e.line,
                    column: e.column,
                    issue_type: IssueType::DeadCode,
                    severity: Severity::Warning,
                    message: msg,
                    code,
                    fix_available: true,
                },
            );
            proof {
                assert(issues.deep_view() =~= pre.push(
                    unused_import_issue(ast.path@, all_entries[t2 as int]),
                ));
            }
        }
        t2 += 1;
    }
    proof {
        assert(all_entries.take(all_entries.len() as int) =~= all_entries);
    }
}

/// The set of names that count as import usage, as a vector.
fn collect_used_import_names(ast: &GoFile) -> (used: Vec<Vec<u8>>)
    requires
        ast.wf(),
    ensures
        forall|name: Seq<u8>|
            #[trigger] seq_has_name(used.deep_view(), name) <==> import_name_used(*ast, name),
{
    let mut used: Vec<Vec<u8>> = Vec::new();
    proof {
        assert(used.deep_view() =~= Seq::<Seq<u8>>::empty());
    }
    collect_scan(ast, UsageScan::SelectorOperand, &mut used);
    collect_scan(ast, UsageScan::TypeIdentifierPackage, &mut used);
    collect_scan(ast, UsageScan::QualifiedTypePackage, &mut used);
    collect_scan(ast, UsageScan::TypeAssertionPackage, &mut used);
    used
}

// ---------------------------------------------------------------------------
// Declared functions and variables share one entry shape: a name with its
// declaration site.
// ---------------------------------------------------------------------------

pub struct NameEntryModel {
    pub key: Seq<u8>,
    pub line: int,
    pub column: int,
}

pub struct NameEntry {
    pub key: Vec<u8>,
    pub line: usize,
    pub column: usize,
}

impl View for NameEntry {
    type V = NameEntryModel;

    open spec fn view(&self) -> NameEntryModel {
        NameEntryModel { key: self.key@, line: self.line as int, column: self.column as int }
    }
}

impl DeepView for NameEntry {
    type V = NameEntryModel;

    open spec fn deep_view(&self) -> NameEntryModel {
        self@
    }
}

pub open spec fn find_name_key(s: Seq<NameEntryModel>, key: Seq<u8>) -> int
    decreases s.len(),
{
    if s.len() == 0 {
        -1
    } else if s[0].key == key {
        0
    } else {
        let r = find_name_key(s.skip(1), key);
        if r < 0 {
            -1
        } else {
            1 + r
        }
    }
}

pub proof fn lemma_find_name_key(s: Seq<NameEntryModel>, key: Seq<u8>)
    ensures
        find_name_key(s, key) == -1 ==> forall|t: int| 0 <= t < s.len() ==> s[t].key != key,
        find_name_key(s, key) != -1 ==> 0 <= find_name_key(s, key) < s.len() && s[find_name_key(
            s,
            key,
        )].key == key && forall|t: int| 0 <= t < find_name_key(s, key) ==> s[t].key != key,
    decreases s.len(),
{
    if s.len() > 0 && s[0].key != key {
        lemma_find_name_key(s.skip(1), key);
        if find_name_key(s, key) != -1 {
            assert forall|t: int| 0 <= t < find_name_key(s, key) implies s[t].key != key by {
                if t > 0 {
                    assert(s.skip(1)[t - 1] == s[t]);
                }
            }
        } else {
            assert forall|t: int| 0 <= t < s.len() implies s[t].key != key by {
                if t > 0 {
                    assert(s.skip(1)[t - 1] == s[t]);
                }
            }
        }
    }
}

pub open spec fn upsert_name(s: Seq<NameEntryModel>, e: NameEntryModel) -> Seq<NameEntryModel> {
    let j = find_name_key(s, e.key);
    if j >= 0 {
        s.update(j, e)
    } else {
        s.push(e)
    }
}

fn find_name_entry(entries: &Vec<NameEntry>, key: &Vec<u8>) -> (r: Option<usize>)
    ensures
        match r {
            Some(j) => j == find_name_key(entries.deep_view(), key@) && j < entries@.len(),
            None => find_name_key(entries.deep_view(), key@) == -1,
        },
{
    let ghost dv = entries.deep_view();
    let mut j: usize = 0;
    while j < entries.len()
        invariant
            j <= entries@.len(),
            dv == entries.deep_view(),
            dv.len() == entries@.len(),
            forall|t: int| 0 <= t < j ==> dv[t].key != key@,
        decreases entries@.len() - j,
    {
        if eq_bytes(&entries[j].key, key) {
            proof {
                lemma_find_name_key(dv, key@);
                assert(dv[j as int].key == key@);
                if find_name_key(dv, key@) == -1 {
                    assert(false);
                }
                assert(find_name_key(dv, key@) == j);
            }
            return Some(j);
        }
        j += 1;
    }
    proof {
        lemma_find_name_key(dv, key@);
        if find_name_key(dv, key@) != -1 {
            assert(dv[find_name_key(dv, key@)].key == key@);
            assert(false);
        }
    }
    None
}

fn upsert_name_entry(entries: &mut Vec<NameEntry>, e: NameEntry)
    ensures
        final(entries).deep_view() == upsert_name(old(entries).deep_view(), e@),
{
    let ghost dv = entries.deep_view();
    match find_name_entry(entries, &e.key) {
        Some(j) => {
            entries[j] = e;
            proof {
                assert(entries.deep_view() =~= dv.update(j as int, e@));
            }
        },
        None => {
            entries.push(e);
            proof {
                assert(entries.deep_view() =~= dv.push(e@));
            }
        },
    }
}

// ---------------------------------------------------------------------------
// Unused functions.
// ---------------------------------------------------------------------------

/// The declaration entry a function-declaration node contributes; entry
/// points and exported (leading-uppercase) names are excluded.
pub open spec fn fn_entry_at(f: GoFile, i: int) -> Option<NameEntryModel> {
    let n = f.nodes@[i];
    match n.f_name {
        Some(a) => {
            let name = node_text(f, a as int);
            if name == "main".spec_bytes() || name == "init".spec_bytes() || (name.len() > 0
                && crate::text::is_upper_byte(name[0])) {
                None
            } else {
                Some(
                    NameEntryModel {
                        key: name,
                        line: line_at(f.content@, n.start as int),
                        column: column_at(f.content@, n.start as int),
                    },
                )
            }
        },
        None => None,
    }
}

pub open spec fn fn_entries_upto(f: GoFile, t: int) -> Seq<NameEntryModel>
    decreases t,
{
    if t <= 0 {
        Seq::empty()
    } else {
        let prev = fn_entries_upto(f, t - 1);
        match fn_entry_at(
            f,
            kind_indices(f.nodes@, NodeKind::FunctionDeclaration)[t - 1] as int,
        ) {
            Some(e) => upsert_name(prev, e),
            None => prev,
        }
    }
}

pub open spec fn fn_entries(f: GoFile) -> Seq<NameEntryModel> {
    fn_entries_upto(f, kind_indices(f.nodes@, NodeKind::FunctionDeclaration).len() as int)
}

/// A function name counts as used when some call expression calls it as a
/// plain identifier.
pub open spec fn fn_name_used(f: GoFile, name: Seq<u8>) -> bool {
    scan_used(f, UsageScan::CallFunction, name)
}

/// The byte range of the first function declaration with the given name,
/// starting the search at position `t` of the declaration list.
pub open spec fn fn_range_from(f: GoFile, name: Seq<u8>, t: int) -> (usize, usize)
    decreases kind_indices(f.nodes@, NodeKind::FunctionDeclaration).len() - t,
{
    let idxs = kind_indices(f.nodes@, NodeKind::FunctionDeclaration);
    if t < 0 || t >= idxs.len() {
        (0usize, 0usize)
    } else {
        let n = f.nodes@[idxs[t] as int];
        let found = match n.f_name {
            Some(a) => node_text(f, a as int) == name,
            None => false,
        };
        if found {
            (n.start, n.end)
        } else {
            fn_range_from(f, name, t + 1)
        }
    }
}

/// Byte range of the declaration of the named function, or (0, 0).
pub fn find_function_range(ast: &GoFile, func_name: &Vec<u8>) -> (r: (usize, usize))
    requires
        ast.wf(),
    ensures
        r == fn_range_from(*ast, func_name@, 0),
{
    let idxs = ast.find_nodes(NodeKind::FunctionDeclaration);
    proof {
        assert(ast.nodes@.len() <= usize::MAX) by {
            assert(ast.nodes.len() == ast.nodes@.len());
        }
        lemma_kind_indices(ast.nodes@, NodeKind::FunctionDeclaration);
    }
    let mut t: usize = 0;
    while t < idxs.len()
        invariant
            ast.wf(),
            t <= idxs@.len(),
            idxs@ == kind_indices(ast.nodes@, NodeKind::FunctionDeclaration),
            forall|u: int| 0 <= u < idxs@.len() ==> #[trigger] idxs@[u] < ast.nodes@.len(),
            fn_range_from(*ast, func_name@, 0) == fn_range_from(*ast, func_name@, t as int),
        decreases idxs@.len() - t,
    {
        let i = idxs[t];
        proof {
            assert(node_wf(ast.nodes@, ast.content@.len() as int, i as int));
        }
        let n = &ast.nodes[i];
        let found: bool = match n.f_name {
            Some(a) => {
                let nm = node_snippet(ast, a);
                eq_bytes(&nm, func_name)
            },
            None => false,
        };
        if found {
            return (n.start, n.end);
        }
        t += 1;
    }
    (0, 0)
}

/// The code snippet reported for an unused function: its whole declaration
/// when that is found and short enough, its bare name otherwise.
pub open spec fn unused_fn_code(f: GoFile, name: Seq<u8>) -> Seq<u8> {
    let r = fn_range_from(f, name, 0);
    let snip = if r.0 < r.1 {
        snippet_spec(f.content@, r.0 as int, r.1 as int)
    } else {
        name
    };
    if snip.len() > 100 {
        name
    } else {
        snip
    }
}

pub open spec fn unused_fn_issue(f: GoFile, path: Seq<u8>, e: NameEntryModel) -> IssueModel {
    IssueModel {
        file_path: path,
        line: e.line,
        column: e.column,
        issue_type: IssueType::DeadCode,
        severity: Severity::Warning,
        message: "Unused function: ".spec_bytes() + e.key,
        code: unused_fn_code(f, e.key),
        fix_available: true,
    }
}

pub open spec fn unused_fn_findings_from(
    f: GoFile,
    path: Seq<u8>,
    entries: Seq<NameEntryModel>,
) -> Seq<IssueModel>
    decreases entries.len(),
{
    if entries.len() == 0 {
        Seq::empty()
    } else {
        let prev = unused_fn_findings_from(f, path, entries.drop_last());
        if !fn_name_used(f, entries.last().key) {
            prev.push(unused_fn_issue(f, path, entries.last()))
        } else {
            prev
        }
    }
}

/// One DeadCode finding per declared non-exported, non-entry-point function
/// that is never called as a plain identifier.
pub open spec fn unused_fn_findings(f: GoFile, path: Seq<u8>) -> Seq<IssueModel> {
    unused_fn_findings_from(f, path, fn_entries(f))
}

fn msg_with_name(prefix: &str, name: &Vec<u8>) -> (m: Vec<u8>)
    ensures
        m@ == prefix.spec_bytes() + name@,
{
    let mut m = lit_bytes(prefix);
    append_bytes(&mut m, name);
    m
}

/// Report each declared function that is never called; exported names and
/// entry points are assumed reachable and skipped.
pub fn check_unused_functions(ast: &GoFile, issues: &mut Vec<Issue>)
    requires
        ast.wf(),
    ensures
        final(issues).deep_view() == old(issues).deep_view() + unused_fn_findings(
            *ast,
            ast.path@,
        ),
{
    let idxs = ast.find_nodes(NodeKind::FunctionDeclaration);
    proof {
        assert(ast.nodes@.len() <= usize::MAX) by {
            assert(ast.nodes.len() == ast.nodes@.len());
        }
        lemma_kind_indices(ast.nodes@, NodeKind::FunctionDeclaration);
    }
    let mut entries: Vec<NameEntry> = Vec::new();
    proof {
        assert(entries.deep_view() =~= Seq::<NameEntryModel>::empty());
    }
    let mut t: usize = 0;
    while t < idxs.len()
        invariant
            ast.wf(),
            t <= idxs@.len(),
            idxs@ == kind_indices(ast.nodes@, NodeKind::FunctionDeclaration),
            forall|u: int| 0 <= u < idxs@.len() ==> #[trigger] idxs@[u] < ast.nodes@.len(),
            entries.deep_view() == fn_entries_upto(*ast, t as int),
        decreases idxs@.len() - t,
    {
        let i = idxs[t];
        proof {
            assert(node_wf(ast.nodes@, ast.content@.len() as int, i as int));
        }
        let n = &ast.nodes[i];
        match n.f_name {
            Some(a) => {
                let name = node_snippet(ast, a);
                let is_main = eq_bytes(&name, &lit_bytes("main"));
                let is_init = eq_bytes(&name, &lit_bytes("init"));
                let exported = name.len() > 0 && {
                    let b = name[0];
                    65 <= b && b <= 90
                };
                if !(is_main || is_init || exported) {
                    let pos = ast.get_position(n.start);
                    let e = NameEntry { key: name, line: pos.0, column: pos.1 };
                    proof {
                        assert(fn_entry_at(*ast, i as int) == Some(e@));
                    }
                    upsert_name_entry(&mut entries, e);
                } else {
                    proof {
                        assert(fn_entry_at(*ast, i as int) is None);
                    }
                }
            },
            None => {
                proof {
                    assert(fn_entry_at(*ast, i as int) is None);
                }
            },
        }
        t += 1;
    }
    let mut used: Vec<Vec<u8>> = Vec::new();
    proof {
        assert(used.deep_view() =~= Seq::<Seq<u8>>::empty());
    }
    collect_scan(ast, UsageScan::CallFunction, &mut used);
    let ghost all_entries = entries.deep_view();
    proof {
        assert(all_entries == fn_entries(*ast));
        assert(all_entries.take(0) =~= Seq::<NameEntryModel>::empty());
    }
    let mut t2: usize = 0;
    while t2 < entries.len()
        invariant
            ast.wf(),
            t2 <= entries@.len(),
            all_entries == entries.deep_view(),
            all_entries.len() == entries@.len(),
            forall|name: Seq<u8>|
                #[trigger] seq_has_name(used.deep_view(), name) <==> fn_name_used(*ast, name),
            issues.deep_view() == old(issues).deep_view() + unused_fn_findings_from(
                *ast,
                ast.path@,
                all_entries.take(t2 as int),
            ),
        decreases entries@.len() - t2,
    {
        let e = &entries[t2];
        let is_used = seq_has_exec(&used, &e.key);
        proof {
            assert(all_entries.take(t2 + 1).drop_last() =~= all_entries.take(t2 as int));
            assert(all_entries.take(t2 + 1).last() == all_entries[t2 as int]);
        }
        if !is_used {
            let range = find_function_range(ast, &e.key);
            let snip: Vec<u8> = if range.0 < range.1 {
                ast.get_snippet(range.0, range.1)
            } else {
                e.key.clone()
            };
            let code: Vec<u8> = if snip.len() > 100 {
                e.key.clone()
            } else {
                snip
            };
            let msg = msg_with_name("Unused function: ", &e.key);
            let ghost pre = issues.deep_view();
            issues.push(
                Issue {
                    file_path: ast.path.clone(),
                    line: e.line,
                    column: e.column,
                    issue_type: IssueType::DeadCode,
                    severity: Severity::Warning,
                    message: msg,
                    code,
                    fix_available: true,
                },
            );
            proof {
                assert(code@ == unused_fn_code(*ast, all_entries[t2 as int].key));
                assert(issues.deep_view() =~= pre.push(
                    unused_fn_issue(*ast, ast.path@, all_entries[t2 as int]),
                ));
            }
        }
        t2 += 1;
    }
    proof {
        assert(all_entries.take(all_entries.len() as int) =~= all_entries);
    }
}

// ---------------------------------------------------------------------------
// Unused variables.
// ---------------------------------------------------------------------------

/// Declaration entries contributed by the identifier children of a name
/// list node; the blank identifier is skipped.
pub open spec fn ident_child_entries(f: GoFile, kids: Seq<usize>) -> Seq<NameEntryModel>
    decreases kids.len(),
{
    if kids.len() == 0 {
        Seq::empty()
    } else {
        let prev = ident_child_entries(f, kids.drop_last());
        let c = kids.last() as int;
        if f.nodes@[c].kind == NodeKind::Identifier && node_text(f, c) != seq![UNDERSCORE] {
            prev.push(
                NameEntryModel {
                    key: node_text(f, c),
                    line: line_at(f.content@, f.nodes@[c].start as int),
                    column: column_at(f.content@, f.nodes@[c].start as int),
                },
            )
        } else {
            prev
        }
    }
}

/// Entries a var-spec node contributes, when it belongs to a var
/// declaration and carries a name field.
pub open spec fn var_spec_adds(f: GoFile, i: int) -> Seq<NameEntryModel> {
    let n = f.nodes@[i];
    let under_var_decl = match n.parent {
        Some(p) => f.nodes@[p as int].kind == NodeKind::VarDeclaration,
        None => false,
    };
    if under_var_decl {
        match n.f_name {
            Some(nm) => ident_child_entries(f, f.nodes@[nm as int].children@),
            None => Seq::empty(),
        }
    } else {
        Seq::empty()
    }
}

/// Entries a short-var-declaration node contributes through its left-hand
/// side.
pub open spec fn short_var_adds(f: GoFile, i: int) -> Seq<NameEntryModel> {
    match f.nodes@[i].f_left {
        Some(l) => ident_child_entries(f, f.nodes@[l as int].children@),
        None => Seq::empty(),
    }
}

pub open spec fn upsert_all(s: Seq<NameEntryModel>, adds: Seq<NameEntryModel>) -> Seq<
    NameEntryModel,
>
    decreases adds.len(),
{
    if adds.len() == 0 {
        s
    } else {
        upsert_name(upsert_all(s, adds.drop_last()), adds.last())
    }
}

pub open spec fn var_entries_phase1(f: GoFile, t: int) -> Seq<NameEntryModel>
    decreases t,
{
    if t <= 0 {
        Seq::empty()
    } else {
        upsert_all(
            var_entries_phase1(f, t - 1),
            var_spec_adds(f, kind_indices(f.nodes@, NodeKind::VarSpec)[t - 1] as int),
        )
    }
}

pub open spec fn var_entries_phase2(f: GoFile, t: int) -> Seq<NameEntryModel>
    decreases t,
{
    if t <= 0 {
        var_entries_phase1(f, kind_indices(f.nodes@, NodeKind::VarSpec).len() as int)
    } else {
        upsert_all(
            var_entries_phase2(f, t - 1),
            short_var_adds(f, kind_indices(f.nodes@, NodeKind::ShortVarDeclaration)[t - 1] as int),
        )
    }
}

/// All declared-variable entries: var specs first, then short declarations.
pub open spec fn var_entries(f: GoFile) -> Seq<NameEntryModel> {
    var_entries_phase2(f, kind_indices(f.nodes@, NodeKind::ShortVarDeclaration).len() as int)
}

/// A variable name counts as used when some identifier occurrence outside
/// its own declaration site carries it.
pub open spec fn var_name_used(f: GoFile, name: Seq<u8>) -> bool {
    scan_used(f, UsageScan::IdentifierRef, name)
}

pub open spec fn unused_var_issue(path: Seq<u8>, e: NameEntryModel) -> IssueModel {
    IssueModel {
        file_path: path,
        line: e.line,
        column: e.column,
        issue_type: IssueType::DeadCode,
        severity: Severity::Warning,
        message: "Unused variable: ".spec_bytes() + e.key,
        code: e.key,
        fix_available: true,
    }
}

pub open spec fn unused_var_findings_from(
    f: GoFile,
    path: Seq<u8>,
    entries: Seq<NameEntryModel>,
) -> Seq<IssueModel>
    decreases entries.len(),
{
    if entries.len() == 0 {
        Seq::empty()
    } else {
        let prev = unused_var_findings_from(f, path, entries.drop_last());
        if !var_name_used(f, entries.last().key) {
            prev.push(unused_var_issue(path, entries.last()))
        } else {
            prev
        }
    }
}

/// One DeadCode finding per declared variable name that never occurs
/// outside its own declaration site.
pub open spec fn unused_var_findings(f: GoFile, path: Seq<u8>) -> Seq<IssueModel> {
    unused_var_findings_from(f, path, var_entries(f))
}

/// Fold the identifier children of list node `nm` into the entries.
fn add_ident_children(ast: &GoFile, nm: usize, entries: &mut Vec<NameEntry>)
    requires
        ast.wf(),
        nm < ast.nodes@.len(),
    ensures
        final(entries).deep_view() == upsert_all(
            old(entries).deep_view(),
            ident_child_entries(*ast, ast.nodes@[nm as int].children@),
        ),
{
    proof {
        assert(node_wf(ast.nodes@, ast.content@.len() as int, nm as int));
    }
    let ghost start_dv = entries.deep_view();
    let ghost kids = ast.nodes@[nm as int].children@;
    proof {
        assert(kids.take(0) =~= Seq::<usize>::empty());
    }
    let mut ci: usize = 0;
    while ci < ast.nodes[nm].children.len()
        invariant
            ast.wf(),
            nm < ast.nodes@.len(),
            kids == ast.nodes@[nm as int].children@,
            ci <= kids.len(),
            forall|u: int| 0 <= u < kids.len() ==> #[trigger] kids[u] < ast.nodes@.len(),
            entries.deep_view() == upsert_all(start_dv, ident_child_entries(*ast, kids.take(ci as int))),
        decreases kids.len() - ci,
    {
        let c = ast.nodes[nm].children[ci];
        proof {
            assert(kids.take(ci + 1).drop_last() =~= kids.take(ci as int));
            assert(kids.take(ci + 1).last() == kids[ci as int]);
        }
        if ast.nodes[c].kind == NodeKind::Identifier {
            let name = node_snippet(ast, c);
            let blank = name.len() == 1 && name[0] == UNDERSCORE;
            proof {
                assert(name@ == seq![UNDERSCORE] <==> (name@.len() == 1 && name@[0]
                    == UNDERSCORE)) by {
                    if name@.len() == 1 && name@[0] == UNDERSCORE {
                        assert(name@ =~= seq![UNDERSCORE]);
                    }
                }
            }
            if !blank {
                let pos = ast.get_position(ast.nodes[c].start);
                let ghost before = entries.deep_view();
                let e = NameEntry { key: name, line: pos.0, column: pos.1 };
                let ghost em = e@;
                upsert_name_entry(entries, e);
                proof {
                    let y = ident_child_entries(*ast, kids.take(ci + 1));
                    assert(y == ident_child_entries(*ast, kids.take(ci as int)).push(em));
                    assert(y.drop_last() =~= ident_child_entries(*ast, kids.take(ci as int)));
                    assert(y.last() == em);
                    assert(upsert_all(start_dv, y) == upsert_name(upsert_all(start_dv, y.drop_last()), em));
                }
            }
        }
        ci += 1;
    }
    proof {
        assert(kids.take(kids.len() as int) =~= kids);
    }
}

/// Report each declared variable that never occurs outside its own
/// declaration site; the blank identifier is skipped.
pub fn check_unused_variables(ast: &GoFile, issues: &mut Vec<Issue>)
    requires
        ast.wf(),
    ensures
        final(issues).deep_view() == old(issues).deep_view() + unused_var_findings(
            *ast,
            ast.path@,
        ),
{
    let var_specs = ast.find_nodes(NodeKind::VarSpec);
    let shorts = ast.find_nodes(NodeKind::ShortVarDeclaration);
    proof {
        assert(ast.nodes@.len() <= usize::MAX) by {
            assert(ast.nodes.len() == ast.nodes@.len());
        }
        lemma_kind_indices(ast.nodes@, NodeKind::VarSpec);
        lemma_kind_indices(ast.nodes@, NodeKind::ShortVarDeclaration);
    }
    let mut entries: Vec<NameEntry> = Vec::new();
    proof {
        assert(entries.deep_view() =~= Seq::<NameEntryModel>::empty());
    }
    let mut t: usize = 0;
    while t < var_specs.len()
        invariant
            ast.wf(),
            t <= var_specs@.len(),
            var_specs@ == kind_indices(ast.nodes@, NodeKind::VarSpec),
            forall|u: int| 0 <= u < var_specs@.len() ==> #[trigger] var_specs@[u] < ast.nodes@.len(),
            entries.deep_view() == var_entries_phase1(*ast, t as int),
        decreases var_specs@.len() - t,
    {
        let i = var_specs[t];
        proof {
            assert(node_wf(ast.nodes@, ast.content@.len() as int, i as int));
        }
        let n = &ast.nodes[i];
        let under_var_decl: bool = match n.parent {
            Some(p) => ast.nodes[p].kind == NodeKind::VarDeclaration,
            None => false,
        };
        if under_var_decl {
            match n.f_name {
                Some(nm) => {
                    add_ident_children(ast, nm, &mut entries);
                },
                None => {
                    proof {
                        assert(var_spec_adds(*ast, i as int) =~= Seq::<NameEntryModel>::empty());
                    }
                },
            }
        } else {
            proof {
                assert(var_spec_adds(*ast, i as int) =~= Seq::<NameEntryModel>::empty());
            }
        }
        t += 1;
    }
    let mut t1: usize = 0;
    while t1 < shorts.len()
        invariant
            ast.wf(),
            t1 <= shorts@.len(),
            shorts@ == kind_indices(ast.nodes@, NodeKind::ShortVarDeclaration),
            forall|u: int| 0 <= u < shorts@.len() ==> #[trigger] shorts@[u] < ast.nodes@.len(),
            entries.deep_view() == var_entries_phase2(*ast, t1 as int),
        decreases shorts@.len() - t1,
    {
        let i = shorts[t1];
        proof {
            assert(node_wf(ast.nodes@, ast.content@.len() as int, i as int));
        }
        let n = &ast.nodes[i];
        match n.f_left {
            Some(l) => {
                add_ident_children(ast, l, &mut entries);
            },
            None => {
                proof {
                    assert(short_var_adds(*ast, i as int) =~= Seq::<NameEntryModel>::empty());
                }
            },
        }
        t1 += 1;
    }
    let mut used: Vec<Vec<u8>> = Vec::new();
    proof {
        assert(used.deep_view() =~= Seq::<Seq<u8>>::empty());
    }
    collect_scan(ast, UsageScan::IdentifierRef, &mut used);
    let ghost all_entries = entries.deep_view();
    proof {
        assert(all_entries == var_entries(*ast));
        assert(all_entries.take(0) =~= Seq::<NameEntryModel>::empty());
    }
    let mut t2: usize = 0;
    while t2 < entries.len()
        invariant
            ast.wf(),
            t2 <= entries@.len(),
            all_entries == entries.deep_view(),
            all_entries.len() == entries@.len(),
            forall|name: Seq<u8>|
                #[trigger] seq_has_name(used.deep_view(), name) <==> var_name_used(*ast, name),
            issues.deep_view() == old(issues).deep_view() + unused_var_findings_from(
                *ast,
                ast.path@,
                all_entries.take(t2 as int),
            ),
        decreases entries@.len() - t2,
    {
        let e = &entries[t2];
        let is_used = seq_has_exec(&used, &e.key);
        proof {
            assert(all_entries.take(t2 + 1).drop_last() =~= all_entries.take(t2 as int));
            assert(all_entries.take(t2 + 1).last() == all_entries[t2 as int]);
        }
        if !is_used {
            let msg = msg_with_name("Unused variable: ", &e.key);
            let code = e.key.clone();
            let ghost pre = issues.deep_view();
            issues.push(
                Issue {
                    file_path: ast.path.clone(),
                    line: e.line,
                    column: e.column,
                    issue_type: IssueType::DeadCode,
                    severity: Severity::Warning,
                    message: msg,
                    code,
                    fix_available: true,
                },
            );
            proof {
                assert(issues.deep_view() =~= pre.push(
                    unused_var_issue(ast.path@, all_entries[t2 as int]),
                ));
            }
        }
        t2 += 1;
    }
    proof {
        assert(all_entries.take(all_entries.len() as int) =~= all_entries);
    }
}

// ---------------------------------------------------------------------------
// The dead-code pass.
// ---------------------------------------------------------------------------

pub open spec fn dead_code_findings(f: GoFile, path: Seq<u8>, r: DeadCodeRules) -> Seq<
    IssueModel,
> {
    (if r.detect_unused_imports {
        unused_import_findings(f, path)
    } else {
        Seq::empty()
    }) + (if r.detect_unused_functions {
        unused_fn_findings(f, path)
    } else {
        Seq::empty()
    }) + (if r.detect_unused_variables {
        unused_var_findings(f, path)
    } else {
        Seq::empty()
    })
}

/// Run the enabled dead-code checks: unused imports, functions, variables.
pub fn analyze(ast: &GoFile, config: &Config, issues: &mut Vec<Issue>)
    requires
        ast.wf(),
    ensures
        final(issues).deep_view() == old(issues).deep_view() + dead_code_findings(
            *ast,
            ast.path@,
            config.rules.dead_code,
        ),
{
    if config.rules.dead_code.detect_unused_imports {
        check_unused_imports(ast, issues);
    }
    if config.rules.dead_code.detect_unused_functions {
        check_unused_functions(ast, issues);
    }
    if config.rules.dead_code.detect_unused_variables {
        check_unused_variables(ast, issues);
    }
    proof {
        assert(issues.deep_view() =~= old(issues).deep_view() + dead_code_findings(
            *ast,
            ast.path@,
            config.rules.dead_code,
        ));
    }
}

// ---------------------------------------------------------------------------
// Laws of the resolver.
// ---------------------------------------------------------------------------

proof fn lemma_no_kind_no_indices(nodes: Seq<NodeData>, k: NodeKind)
    requires
        nodes.len() <= usize::MAX,
        forall|i: int| 0 <= i < nodes.len() ==> nodes[i].kind != k,
    ensures
        kind_indices(nodes, k) =~= Seq::<usize>::empty(),
{
    lemma_kind_indices(nodes, k);
    if kind_indices(nodes, k).len() > 0 {
        assert(nodes[kind_indices(nodes, k)[0] as int].kind == k);
    }
}

/// Vacuous case: a file with no import declarations yields no unused-import
/// findings.
pub proof fn lemma_no_imports_no_findings(f: GoFile, path: Seq<u8>)
    requires
        f.nodes@.len() <= usize::MAX,
        forall|i: int| 0 <= i < f.nodes@.len() ==> f.nodes@[i].kind != NodeKind::ImportSpec,
    ensures
        unused_import_findings(f, path) =~= Seq::<IssueModel>::empty(),
{
    lemma_no_kind_no_indices(f.nodes@, NodeKind::ImportSpec);
}

/// Vacuous case: a file with no function declarations yields no
/// unused-function findings.
pub proof fn lemma_no_functions_no_findings(f: GoFile, path: Seq<u8>)
    requires
        f.nodes@.len() <= usize::MAX,
        forall|i: int|
            0 <= i < f.nodes@.len() ==> f.nodes@[i].kind != NodeKind::FunctionDeclaration,
    ensures
        unused_fn_findings(f, path) =~= Seq::<IssueModel>::empty(),
{
    lemma_no_kind_no_indices(f.nodes@, NodeKind::FunctionDeclaration);
}

/// Vacuous case: a file with no variable declarations of either form yields
/// no unused-variable findings.
pub proof fn lemma_no_variables_no_findings(f: GoFile, path: Seq<u8>)
    requires
        f.nodes@.len() <= usize::MAX,
        forall|i: int| 0 <= i < f.nodes@.len() ==> f.nodes@[i].kind != NodeKind::VarSpec,
        forall|i: int|
            0 <= i < f.nodes@.len() ==> f.nodes@[i].kind != NodeKind::ShortVarDeclaration,
    ensures
        unused_var_findings(f, path) =~= Seq::<IssueModel>::empty(),
{
    lemma_no_kind_no_indices(f.nodes@, NodeKind::VarSpec);
    lemma_no_kind_no_indices(f.nodes@, NodeKind::ShortVarDeclaration);
}

pub open spec fn unique_import_keys(s: Seq<ImportEntryModel>) -> bool {
    forall|j1: int, j2: int| 0 <= j1 < j2 < s.len() ==> s[j1].key != s[j2].key
}

proof fn lemma_upsert_unique(s: Seq<ImportEntryModel>, e: ImportEntryModel)
    requires
        unique_import_keys(s),
    ensures
        unique_import_keys(upsert(s, e)),
        forall|k: Seq<u8>|
            #[trigger] has_import_key(upsert(s, e), k) <==> (has_import_key(s, k) || k == e.key),
{
    lemma_find_key(s, e.key);
    let j = find_key(s, e.key);
    if j >= 0 {
        let s2 = s.update(j, e);
        assert forall|k: Seq<u8>| #[trigger]
            has_import_key(s2, k) <==> (has_import_key(s, k) || k == e.key) by {
            if has_import_key(s2, k) {
                let t = choose|t: int| 0 <= t < s2.len() && s2[t].key == k;
                if t != j {
                    assert(s[t].key == k);
                }
            }
            if has_import_key(s, k) {
                let t = choose|t: int| 0 <= t < s.len() && s[t].key == k;
                if t != j {
                    assert(s2[t].key == k);
                } else {
                    assert(s2[j].key == e.key);
                    assert(k == e.key);
                }
            }
            if k == e.key {
                assert(s2[j].key == k);
            }
        }
    } else {
        let s2 = s.push(e);
        assert forall|k: Seq<u8>| #[trigger]
            has_import_key(s2, k) <==> (has_import_key(s, k) || k == e.key) by {
            if has_import_key(s2, k) {
                let t = choose|t: int| 0 <= t < s2.len() && s2[t].key == k;
                if t < s.len() {
                    assert(s[t].key == k);
                }
            }
            if has_import_key(s, k) {
                let t = choose|t: int| 0 <= t < s.len() && s[t].key == k;
                assert(s2[t].key == k);
            }
            if k == e.key {
                assert(s2[s.len() as int].key == k);
            }
        }
        assert forall|j1: int, j2: int|
            0 <= j1 < j2 < s2.len() implies s2[j1].key != s2[j2].key by {
            if j2 == s.len() {
                assert(s[j1].key != e.key);
            }
        }
    }
}

pub open spec fn has_import_key(s: Seq<ImportEntryModel>, k: Seq<u8>) -> bool {
    exists|t: int| 0 <= t < s.len() && s[t].key == k
}

/// The declared-import entries carry pairwise distinct keys.
pub proof fn lemma_import_entries_unique(f: GoFile, t: int)
    requires
        0 <= t,
    ensures
        unique_import_keys(import_entries_upto(f, t)),
    decreases t,
{
    if t > 0 {
        lemma_import_entries_unique(f, t - 1);
        match import_entry_at(f, kind_indices(f.nodes@, NodeKind::ImportSpec)[t - 1] as int) {
            Some(e) => {
                lemma_upsert_unique(import_entries_upto(f, t - 1), e);
            },
            None => {},
        }
    }
}

/// Number of occurrences of one exact finding in a findings list.
pub open spec fn count_issue(s: Seq<IssueModel>, x: IssueModel) -> int
    decreases s.len(),
{
    if s.len() == 0 {
        0
    } else {
        count_issue(s.drop_last(), x) + if s.last() == x {
            1int
        } else {
            0int
        }
    }
}

/// Every entry's key is derived from its path text.
pub open spec fn keys_match_paths(s: Seq<ImportEntryModel>) -> bool {
    forall|t: int|
        0 <= t < s.len() ==> #[trigger] s[t].key == package_name_spec(s[t].path)
}

proof fn lemma_entries_keys_match(f: GoFile, t: int)
    requires
        0 <= t,
    ensures
        keys_match_paths(import_entries_upto(f, t)),
    decreases t,
{
    if t > 0 {
        lemma_entries_keys_match(f, t - 1);
        let prev = import_entries_upto(f, t - 1);
        match import_entry_at(f, kind_indices(f.nodes@, NodeKind::ImportSpec)[t - 1] as int) {
            Some(e) => {
                assert(e.key == package_name_spec(e.path));
                lemma_find_key(prev, e.key);
                let j = find_key(prev, e.key);
                if j >= 0 {
                    assert forall|u: int|
                        0 <= u < prev.update(j, e).len() implies #[trigger] prev.update(
                        j,
                        e,
                    )[u].key == package_name_spec(prev.update(j, e)[u].path) by {
                        if u != j {
                            assert(prev.update(j, e)[u] == prev[u]);
                        }
                    }
                } else {
                    assert forall|u: int|
                        0 <= u < prev.push(e).len() implies #[trigger] prev.push(e)[u].key
                        == package_name_spec(prev.push(e)[u].path) by {
                        if u < prev.len() {
                            assert(prev.push(e)[u] == prev[u]);
                        }
                    }
                }
            },
            None => {},
        }
    }
}

proof fn lemma_unused_import_count(
    f: GoFile,
    path: Seq<u8>,
    entries: Seq<ImportEntryModel>,
    j: int,
)
    requires
        unique_import_keys(entries),
        keys_match_paths(entries),
        0 <= j < entries.len(),
        !import_entry_used(f, entries[j]),
    ensures
        count_issue(unused_import_findings_from(f, path, entries), unused_import_issue(
            path,
            entries[j],
        )) == 1,
    decreases entries.len(),
{
    let x = unused_import_issue(path, entries[j]);
    let prev = unused_import_findings_from(f, path, entries.drop_last());
    if j == entries.len() - 1 {
        // the last entry generates x; no earlier entry can: an equal issue
        // would carry the same path text, hence the same key
        lemma_import_issue_absent(f, path, entries.drop_last(), entries[j]);
        assert(count_issue(prev.push(x), x) == count_issue(prev, x) + 1) by {
            assert((prev.push(x)).drop_last() =~= prev);
        }
    } else {
        lemma_unused_import_count(f, path, entries.drop_last(), j);
        assert(entries.drop_last()[j] == entries[j]);
        let last = entries.last();
        if !import_entry_used(f, last) {
            let y = unused_import_issue(path, last);
            assert(y != x) by {
                assert(entries[entries.len() - 1].key != entries[j].key);
                if y == x {
                    assert(last.path == entries[j].path);
                    assert(last.key == package_name_spec(last.path));
                    assert(entries[j].key == package_name_spec(entries[j].path));
                }
            }
            assert(count_issue(prev.push(y), x) == count_issue(prev, x)) by {
                assert((prev.push(y)).drop_last() =~= prev);
            }
        }
    }
}

proof fn lemma_import_issue_absent(
    f: GoFile,
    path: Seq<u8>,
    entries: Seq<ImportEntryModel>,
    e: ImportEntryModel,
)
    requires
        forall|t: int| 0 <= t < entries.len() ==> entries[t].key != e.key,
        e.key == package_name_spec(e.path),
        forall|t: int|
            0 <= t < entries.len() ==> #[trigger] entries[t].key == package_name_spec(
                entries[t].path,
            ),
    ensures
        count_issue(unused_import_findings_from(f, path, entries), unused_import_issue(path, e))
            == 0,
    decreases entries.len(),
{
    if entries.len() > 0 {
        lemma_import_issue_absent(f, path, entries.drop_last(), e);
        let prev = unused_import_findings_from(f, path, entries.drop_last());
        let x = unused_import_issue(path, e);
        if !import_entry_used(f, entries.last()) {
            let y = unused_import_issue(path, entries.last());
            assert(y != x) by {
                if y == x {
                    assert(entries.last().path == e.path);
                }
            }
            assert(count_issue(prev.push(y), x) == count_issue(prev, x)) by {
                assert((prev.push(y)).drop_last() =~= prev);
            }
        }
    }
}

pub open spec fn unique_name_keys(s: Seq<NameEntryModel>) -> bool {
    forall|j1: int, j2: int| 0 <= j1 < j2 < s.len() ==> s[j1].key != s[j2].key
}

proof fn lemma_name_upsert_unique(s: Seq<NameEntryModel>, e: NameEntryModel)
    requires
        unique_name_keys(s),
    ensures
        unique_name_keys(upsert_name(s, e)),
{
    lemma_find_name_key(s, e.key);
    let j = find_name_key(s, e.key);
    if j >= 0 {
        let s2 = s.update(j, e);
        assert forall|j1: int, j2: int|
            0 <= j1 < j2 < s2.len() implies s2[j1].key != s2[j2].key by {
            if j1 != j && j2 != j {
                assert(s2[j1] == s[j1] && s2[j2] == s[j2]);
            } else if j1 == j {
                assert(s2[j2] == s[j2]);
                assert(s2[j1].key == s[j].key);
            } else {
                assert(s2[j1] == s[j1]);
                assert(s2[j2].key == s[j].key);
            }
        }
    } else {
        let s2 = s.push(e);
        assert forall|j1: int, j2: int|
            0 <= j1 < j2 < s2.len() implies s2[j1].key != s2[j2].key by {
            if j2 == s.len() {
                assert(s2[j1] == s[j1]);
                assert(s[j1].key != e.key);
            } else {
                assert(s2[j1] == s[j1] && s2[j2] == s[j2]);
            }
        }
    }
}

proof fn lemma_upsert_all_unique(s: Seq<NameEntryModel>, adds: Seq<NameEntryModel>)
    requires
        unique_name_keys(s),
    ensures
        unique_name_keys(upsert_all(s, adds)),
    decreases adds.len(),
{
    if adds.len() > 0 {
        lemma_upsert_all_unique(s, adds.drop_last());
        lemma_name_upsert_unique(upsert_all(s, adds.drop_last()), adds.last());
    }
}

proof fn lemma_fn_entries_unique(f: GoFile, t: int)
    requires
        0 <= t,
    ensures
        unique_name_keys(fn_entries_upto(f, t)),
    decreases t,
{
    if t > 0 {
        lemma_fn_entries_unique(f, t - 1);
        match fn_entry_at(
            f,
            kind_indices(f.nodes@, NodeKind::FunctionDeclaration)[t - 1] as int,
        ) {
            Some(e) => {
                lemma_name_upsert_unique(fn_entries_upto(f, t - 1), e);
            },
            None => {},
        }
    }
}

proof fn lemma_var_entries_phase1_unique(f: GoFile, t: int)
    requires
        0 <= t,
    ensures
        unique_name_keys(var_entries_phase1(f, t)),
    decreases t,
{
    if t > 0 {
        lemma_var_entries_phase1_unique(f, t - 1);
        lemma_upsert_all_unique(
            var_entries_phase1(f, t - 1),
            var_spec_adds(f, kind_indices(f.nodes@, NodeKind::VarSpec)[t - 1] as int),
        );
    }
}

proof fn lemma_var_entries_phase2_unique(f: GoFile, t: int)
    requires
        0 <= t,
    ensures
        unique_name_keys(var_entries_phase2(f, t)),
    decreases t,
{
    if t > 0 {
        lemma_var_entries_phase2_unique(f, t - 1);
        lemma_upsert_all_unique(
            var_entries_phase2(f, t - 1),
            short_var_adds(f, kind_indices(f.nodes@, NodeKind::ShortVarDeclaration)[t - 1] as int),
        );
    } else {
        lemma_var_entries_phase1_unique(f, kind_indices(f.nodes@, NodeKind::VarSpec).len() as int);
    }
}

/// Appending to a fixed prefix is injective.
proof fn lemma_append_injective(a: Seq<u8>, k1: Seq<u8>, k2: Seq<u8>)
    requires
        a + k1 == a + k2,
    ensures
        k1 == k2,
{
    assert(k1 =~= (a + k1).subrange(a.len() as int, (a + k1).len() as int));
    assert(k2 =~= (a + k2).subrange(a.len() as int, (a + k2).len() as int));
}

proof fn lemma_fn_issue_absent(
    f: GoFile,
    path: Seq<u8>,
    entries: Seq<NameEntryModel>,
    e: NameEntryModel,
)
    requires
        forall|t: int| 0 <= t < entries.len() ==> entries[t].key != e.key,
    ensures
        count_issue(unused_fn_findings_from(f, path, entries), unused_fn_issue(f, path, e)) == 0,
    decreases entries.len(),
{
    if entries.len() > 0 {
        lemma_fn_issue_absent(f, path, entries.drop_last(), e);
        let prev = unused_fn_findings_from(f, path, entries.drop_last());
        let x = unused_fn_issue(f, path, e);
        if !fn_name_used(f, entries.last().key) {
            let y = unused_fn_issue(f, path, entries.last());
            assert(y != x) by {
                if y == x {
                    lemma_append_injective(
                        "Unused function: ".spec_bytes(),
                        entries.last().key,
                        e.key,
                    );
                }
            }
            assert(count_issue(prev.push(y), x) == count_issue(prev, x)) by {
                assert((prev.push(y)).drop_last() =~= prev);
            }
        }
    }
}

proof fn lemma_unused_fn_count(f: GoFile, path: Seq<u8>, entries: Seq<NameEntryModel>, j: int)
    requires
        unique_name_keys(entries),
        0 <= j < entries.len(),
        !fn_name_used(f, entries[j].key),
    ensures
        count_issue(unused_fn_findings_from(f, path, entries), unused_fn_issue(
            f,
            path,
            entries[j],
        )) == 1,
    decreases entries.len(),
{
    let x = unused_fn_issue(f, path, entries[j]);
    let prev = unused_fn_findings_from(f, path, entries.drop_last());
    if j == entries.len() - 1 {
        lemma_fn_issue_absent(f, path, entries.drop_last(), entries[j]);
        assert(count_issue(prev.push(x), x) == count_issue(prev, x) + 1) by {
            assert((prev.push(x)).drop_last() =~= prev);
        }
    } else {
        lemma_unused_fn_count(f, path, entries.drop_last(), j);
        assert(entries.drop_last()[j] == entries[j]);
        if !fn_name_used(f, entries.last().key) {
            let y = unused_fn_issue(f, path, entries.last());
            assert(y != x) by {
                if y == x {
                    lemma_append_injective(
                        "Unused function: ".spec_bytes(),
                        entries.last().key,
                        entries[j].key,
                    );
                }
            }
            assert(count_issue(prev.push(y), x) == count_issue(prev, x)) by {
                assert((prev.push(y)).drop_last() =~= prev);
            }
        }
    }
}

/// Law: a declared, non-excluded function that is never called yields
/// exactly one unused-function finding.
pub proof fn lemma_one_finding_per_unused_fn(f: GoFile, path: Seq<u8>, j: int)
    requires
        0 <= j < fn_entries(f).len(),
        !fn_name_used(f, fn_entries(f)[j].key),
    ensures
        count_issue(unused_fn_findings(f, path), unused_fn_issue(f, path, fn_entries(f)[j]))
            == 1,
{
    lemma_fn_entries_unique(
        f,
        kind_indices(f.nodes@, NodeKind::FunctionDeclaration).len() as int,
    );
    lemma_unused_fn_count(f, path, fn_entries(f), j);
}

proof fn lemma_var_issue_absent(
    f: GoFile,
    path: Seq<u8>,
    entries: Seq<NameEntryModel>,
    e: NameEntryModel,
)
    requires
        forall|t: int| 0 <= t < entries.len() ==> entries[t].key != e.key,
    ensures
        count_issue(unused_var_findings_from(f, path, entries), unused_var_issue(path, e)) == 0,
    decreases entries.len(),
{
    if entries.len() > 0 {
        lemma_var_issue_absent(f, path, entries.drop_last(), e);
        let prev = unused_var_findings_from(f, path, entries.drop_last());
        let x = unused_var_issue(path, e);
        if !var_name_used(f, entries.last().key) {
            let y = unused_var_issue(path, entries.last());
            assert(y != x) by {
                if y == x {
                    lemma_append_injective(
                        "Unused variable: ".spec_bytes(),
                        entries.last().key,
                        e.key,
                    );
                }
            }
            assert(count_issue(prev.push(y), x) == count_issue(prev, x)) by {
                assert((prev.push(y)).drop_last() =~= prev);
            }
        }
    }
}

proof fn lemma_unused_var_count(f: GoFile, path: Seq<u8>, entries: Seq<NameEntryModel>, j: int)
    requires
        unique_name_keys(entries),
        0 <= j < entries.len(),
        !var_name_used(f, entries[j].key),
    ensures
        count_issue(unused_var_findings_from(f, path, entries), unused_var_issue(
            path,
            entries[j],
        )) == 1,
    decreases entries.len(),
{
    let x = unused_var_issue(path, entries[j]);
    let prev = unused_var_findings_from(f, path, entries.drop_last());
    if j == entries.len() - 1 {
        lemma_var_issue_absent(f, path, entries.drop_last(), entries[j]);
        assert(count_issue(prev.push(x), x) == count_issue(prev, x) + 1) by {
            assert((prev.push(x)).drop_last() =~= prev);
        }
    } else {
        lemma_unused_var_count(f, path, entries.drop_last(), j);
        assert(entries.drop_last()[j] == entries[j]);
        if !var_name_used(f, entries.last().key) {
            let y = unused_var_issue(path, entries.last());
            assert(y != x) by {
                if y == x {
                    lemma_append_injective(
                        "Unused variable: ".spec_bytes(),
                        entries.last().key,
                        entries[j].key,
                    );
                }
            }
            assert(count_issue(prev.push(y), x) == count_issue(prev, x)) by {
                assert((prev.push(y)).drop_last() =~= prev);
            }
        }
    }
}

/// Law: a declared variable that is never referenced outside its own
/// declaration yields exactly one unused-variable finding.
pub proof fn lemma_one_finding_per_unused_var(f: GoFile, path: Seq<u8>, j: int)
    requires
        0 <= j < var_entries(f).len(),
        !var_name_used(f, var_entries(f)[j].key),
    ensures
        count_issue(unused_var_findings(f, path), unused_var_issue(path, var_entries(f)[j]))
            == 1,
{
    lemma_var_entries_phase2_unique(
        f,
        kind_indices(f.nodes@, NodeKind::ShortVarDeclaration).len() as int,
    );
    lemma_unused_var_count(f, path, var_entries(f), j);
}

/// Law: a declared import that no exclusion removed and that is never
/// referenced yields exactly one unused-import finding.
pub proof fn lemma_one_finding_per_unused_import(f: GoFile, path: Seq<u8>, j: int)
    requires
        0 <= j < import_entries(f).len(),
        !import_entry_used(f, import_entries(f)[j]),
    ensures
        count_issue(
            unused_import_findings(f, path),
            unused_import_issue(path, import_entries(f)[j]),
        ) == 1,
{
    let t = kind_indices(f.nodes@, NodeKind::ImportSpec).len() as int;
    lemma_import_entries_unique(f, t);
    lemma_entries_keys_match(f, t);
    lemma_unused_import_count(f, path, import_entries(f), j);
}

} // verus!
