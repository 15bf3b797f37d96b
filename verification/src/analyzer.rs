use vstd::prelude::*;
use vstd::string::StringSliceAdditionalSpecFns;
use crate::architecture::DepGraph;
use crate::architecture::boundary_findings;
use crate::architecture::circular_issue;
use crate::architecture::import_line_from;
use crate::architecture::is_cycle;
use crate::config::Config;
use crate::dead_code::dead_code_findings;
use crate::issue::Issue;
use crate::issue::IssueModel;
use crate::parser::GoFile;
use crate::style::style_findings;
use crate::syntax::syntax_findings;
use crate::text::SLASH;
use crate::text::check_ends_with;
use crate::text::contains_sub;
use crate::text::ends_with;
use crate::text::has_sub;
use crate::text::lit_bytes;

verus! {

broadcast use crate::text::lemma_bytes_deep;

// ---------------------------------------------------------------------------
// The per-file pipeline: parse, then run the enabled rule passes.
// ---------------------------------------------------------------------------

/// What a compiled ignore pattern says about a text: whether it matches, or
/// None when the pattern does not compile. The verdict depends on the
/// pattern and the text alone.
pub uninterp spec fn regex_verdict(pattern: Seq<char>, text: Seq<u8>) -> Option<bool>;

/// Relies on regex::bytes::Regex::new and Regex::is_match: Some(m) says
/// whether the compiled pattern matches the text; None when the pattern
/// does not compile.
#[verifier::external_body]
fn regex_is_match(pattern: &str, text: &Vec<u8>) -> (r: Option<bool>)
    ensures
        r == regex_verdict(pattern@, text@),
{
    match regex::bytes::Regex::new(pattern) {
        Ok(re) => Some(re.is_match(text.as_slice())),
        Err(_) => None,
    }
}

/// A path names a Go file: it ends in `.go` with a non-empty file stem.
pub open spec fn is_go_file_spec(path: Seq<u8>) -> bool {
    ends_with(path, ".go".spec_bytes()) && path.len() > 3 && path[path.len() - 4] != SLASH
}

/// Whether the path names a Go source file.
pub fn is_go_file(path: &Vec<u8>) -> (r: bool)
    ensures
        r == is_go_file_spec(path@),
{
    let suffix = lit_bytes(".go");
    check_ends_with(path, &suffix) && path.len() > 3 && path[path.len() - 4] != SLASH
}

/// A path is excluded when an ignore pattern matches it or it holds an
/// excluded directory fragment; patterns that do not compile are skipped.
pub open spec fn is_excluded_spec(path: Seq<u8>, config: Config) -> bool {
    ||| exists|k: int|
        0 <= k < config.general.ignore_patterns@.len() && regex_verdict(
            #[trigger] config.general.ignore_patterns@[k]@,
            path,
        ) == Some(true)
    ||| exists|k: int|
        0 <= k < config.general.exclude_dirs@.len() && has_sub(
            path,
            #[trigger] config.general.exclude_dirs@[k]@,
        )
}

/// Whether the path is excluded from analysis by the configuration.
pub fn is_excluded(path: &Vec<u8>, config: &Config) -> (r: bool)
    ensures
        r == is_excluded_spec(path@, *config),
{
    let mut k: usize = 0;
    while k < config.general.ignore_patterns.len()
        invariant
            k <= config.general.ignore_patterns@.len(),
            forall|t: int|
                0 <= t < k ==> regex_verdict(
                    #[trigger] config.general.ignore_patterns@[t]@,
                    path@,
                ) != Some(true),
        decreases config.general.ignore_patterns@.len() - k,
    {
        match regex_is_match(config.general.ignore_patterns[k].as_str(), path) {
            Some(true) => {
                return true;
            },
            _ => {},
        }
        k += 1;
    }
    let mut d: usize = 0;
    while d < config.general.exclude_dirs.len()
        invariant
            d <= config.general.exclude_dirs@.len(),
            forall|t: int|
                0 <= t < k ==> regex_verdict(
                    #[trigger] config.general.ignore_patterns@[t]@,
                    path@,
                ) != Some(true),
            k == config.general.ignore_patterns@.len(),
            forall|t: int|
                0 <= t < d ==> !has_sub(path@, #[trigger] config.general.exclude_dirs@[t]@),
        decreases config.general.exclude_dirs@.len() - d,
    {
        if contains_sub(path, &config.general.exclude_dirs[d]) {
            return true;
        }
        d += 1;
    }
    false
}

/// The findings of the exactly-specified passes over one parsed file, in
/// pass order: syntax, dead code, style, package boundaries.
pub open spec fn base_findings(f: GoFile, config: Config) -> Seq<IssueModel> {
    (if config.rules.syntax.enabled {
        syntax_findings(f, f.path@, config.rules.syntax.max_line_length as int)
    } else {
        Seq::empty()
    }) + (if config.rules.dead_code.enabled {
        dead_code_findings(f, f.path@, config.rules.dead_code)
    } else {
        Seq::empty()
    }) + (if config.rules.style.enabled {
        style_findings(f, f.path@, config.rules.style)
    } else {
        Seq::empty()
    }) + (if config.rules.architecture.enabled
        && config.rules.architecture.enforce_package_boundaries {
        boundary_findings(f, f.path@)
    } else {
        Seq::empty()
    })
}

/// The findings of the syntax, dead-code and style passes.
pub open spec fn sds_findings(f: GoFile, config: Config) -> Seq<IssueModel> {
    (if config.rules.syntax.enabled {
        syntax_findings(f, f.path@, config.rules.syntax.max_line_length as int)
    } else {
        Seq::empty()
    }) + (if config.rules.dead_code.enabled {
        dead_code_findings(f, f.path@, config.rules.dead_code)
    } else {
        Seq::empty()
    }) + (if config.rules.style.enabled {
        style_findings(f, f.path@, config.rules.style)
    } else {
        Seq::empty()
    })
}

#[verifier::rlimit(60)]
fn run_sds(ast: &GoFile, config: &Config, issues: &mut Vec<Issue>)
    requires
        ast.wf(),
    ensures
        final(issues).deep_view() == old(issues).deep_view() + sds_findings(*ast, *config),
{
    let ghost base0 = issues.deep_view();
    if config.rules.syntax.enabled {
        crate::syntax::analyze(ast, config, issues);
    }
    let ghost p1: Seq<IssueModel> = if config.rules.syntax.enabled {
        syntax_findings(*ast, ast.path@, config.rules.syntax.max_line_length as int)
    } else {
        Seq::empty()
    };
    proof {
        assert(issues.deep_view() =~= base0 + p1);
    }
    if config.rules.dead_code.enabled {
        crate::dead_code::analyze(ast, config, issues);
    }
    let ghost p2: Seq<IssueModel> = if config.rules.dead_code.enabled {
        dead_code_findings(*ast, ast.path@, config.rules.dead_code)
    } else {
        Seq::empty()
    };
    proof {
        assert(issues.deep_view() =~= base0 + p1 + p2);
    }
    if config.rules.style.enabled {
        crate::style::analyze(ast, config, issues);
    }
    let ghost p3: Seq<IssueModel> = if config.rules.style.enabled {
        style_findings(*ast, ast.path@, config.rules.style)
    } else {
        Seq::empty()
    };
    proof {
        assert(issues.deep_view() =~= base0 + (p1 + p2 + p3));
        assert(p1 + p2 + p3 =~= sds_findings(*ast, *config));
    }
}

/// Run the enabled rule passes over one parsed file, in pass order.
#[verifier::rlimit(100)]
fn run_passes(ast: &GoFile, config: &Config, graph: &DepGraph, issues: &mut Vec<Issue>)
    requires
        ast.wf(),
    ensures
        final(issues).deep_view().take(
            old(issues).deep_view().len() + base_findings(*ast, *config).len() as int,
        ) == old(issues).deep_view() + base_findings(*ast, *config),
        final(issues).deep_view().len() <= old(issues).deep_view().len() + base_findings(
            *ast,
            *config,
        ).len() + 1,
        final(issues).deep_view().len() == old(issues).deep_view().len() + base_findings(
            *ast,
            *config,
        ).len() + 1 ==> exists|c: Seq<Seq<u8>>, l: int|
            is_cycle(graph.entries.deep_view(), c) && import_line_from(*ast, c[c.len() - 1], 0)
                == Some(l) && final(issues).deep_view().last() == circular_issue(ast.path@, c, l),
        (forall|c: Seq<Seq<u8>>| !is_cycle(graph.entries.deep_view(), c))
            ==> final(issues).deep_view() == old(issues).deep_view() + base_findings(
            *ast,
            *config,
        ),
        (config.rules.architecture.enabled && config.rules.architecture.detect_circular_dependencies
            && final(issues).deep_view().len() == old(issues).deep_view().len() + base_findings(
            *ast,
            *config,
        ).len()) ==> ((forall|c: Seq<Seq<u8>>|
            !(is_cycle(graph.entries.deep_view(), c) && crate::architecture::reaches(
                graph.entries.deep_view(),
                crate::architecture::package_path_spec(ast.path@),
                c[0],
            ))) || (exists|c: Seq<Seq<u8>>|
            is_cycle(graph.entries.deep_view(), c) && crate::architecture::reaches(
                graph.entries.deep_view(),
                crate::architecture::package_path_spec(ast.path@),
                c[0],
            ) && import_line_from(*ast, c[c.len() - 1], 0) is None)),
{
    run_sds(ast, config, issues);
    let ghost mid = issues.deep_view();
    if config.rules.architecture.enabled {
        crate::architecture::analyze(ast, config, graph, issues);
    }
    let ghost p4: Seq<IssueModel> = if config.rules.architecture.enabled
        && config.rules.architecture.enforce_package_boundaries {
        boundary_findings(*ast, ast.path@)
    } else {
        Seq::empty()
    };
    proof {
        let base = base_findings(*ast, *config);
        assert(base =~= sds_findings(*ast, *config) + p4);
        assert(mid + p4 =~= old(issues).deep_view() + base);
        if config.rules.architecture.enabled {
            assert(issues.deep_view().take((old(issues).deep_view().len()
                + base.len()) as int) =~= old(issues).deep_view() + base);
        } else {
            assert(issues.deep_view() =~= old(issues).deep_view() + base);
            assert(issues.deep_view().take((old(issues).deep_view().len()
                + base.len()) as int) =~= old(issues).deep_view() + base);
        }
    }
}

/// Parse one file and run the enabled rule passes over it, appending the
/// findings; false when the parser yields no tree (the file is skipped and
/// nothing is appended).
pub fn analyze_file(
    path: Vec<u8>,
    content: Vec<u8>,
    config: &Config,
    graph: &DepGraph,
    issues: &mut Vec<Issue>,
) -> (parsed: bool)
    ensures
        parsed == (content@.len() < usize::MAX && crate::parser::ts_parses(content@)),
        !parsed ==> final(issues).deep_view() == old(issues).deep_view(),
        parsed ==> exists|f: GoFile|
            {
                &&& #[trigger] f.wf()
                &&& f.path@ == path@
                &&& f.content@ == content@
                &&& final(issues).deep_view().take(
                    old(issues).deep_view().len() + base_findings(f, *config).len() as int,
                ) == old(issues).deep_view() + base_findings(f, *config)
                &&& final(issues).deep_view().len() <= old(issues).deep_view().len()
                    + base_findings(f, *config).len() + 1
                &&& (final(issues).deep_view().len() == old(issues).deep_view().len()
                    + base_findings(f, *config).len() + 1 ==> exists|c: Seq<Seq<u8>>, l: int|
                    is_cycle(graph.entries.deep_view(), c) && import_line_from(
                        f,
                        c[c.len() - 1],
                        0,
                    ) == Some(l) && final(issues).deep_view().last() == circular_issue(path@, c, l))
                &&& ((forall|c: Seq<Seq<u8>>| !is_cycle(graph.entries.deep_view(), c))
                    ==> final(issues).deep_view() == old(issues).deep_view() + base_findings(
                    f,
                    *config,
                ))
                &&& ((config.rules.architecture.enabled
                    && config.rules.architecture.detect_circular_dependencies
                    && final(issues).deep_view().len() == old(issues).deep_view().len()
                    + base_findings(f, *config).len()) ==> ((forall|c: Seq<Seq<u8>>|
                    !(is_cycle(graph.entries.deep_view(), c) && crate::architecture::reaches(
                        graph.entries.deep_view(),
                        crate::architecture::package_path_spec(path@),
                        c[0],
                    ))) || (exists|c: Seq<Seq<u8>>|
                    is_cycle(graph.entries.deep_view(), c) && crate::architecture::reaches(
                        graph.entries.deep_view(),
                        crate::architecture::package_path_spec(path@),
                        c[0],
                    ) && import_line_from(f, c[c.len() - 1], 0) is None)))
            },
{
    match GoFile::parse_source(path, content) {
        None => false,
        Some(ast) => {
            run_passes(&ast, config, graph, issues);
            true
        },
    }
}

} // verus!
