use vstd::prelude::*;
use crate::text::lit_bytes;
use vstd::string::StringExecFns;
use vstd::string::StringSliceAdditionalSpecFns;

verus! {

/// File selection options: regular-expression ignore patterns and excluded
/// directory name fragments.
#[derive(Clone, Debug)]
pub struct GeneralConfig {
    pub ignore_patterns: Vec<String>,
    pub exclude_dirs: Vec<Vec<u8>>,
}

#[derive(Clone, Copy, Debug)]
pub struct SyntaxRules {
    pub enabled: bool,
    pub max_line_length: usize,
}

#[derive(Clone, Copy, Debug)]
pub struct DeadCodeRules {
    pub enabled: bool,
    pub detect_unused_imports: bool,
    pub detect_unused_functions: bool,
    pub detect_unused_variables: bool,
}

#[derive(Clone, Copy, Debug)]
pub struct StyleRules {
    pub enabled: bool,
    pub enforce_camel_case: bool,
    pub space_after_control_statements: bool,
    pub enforce_consistent_naming: bool,
}

#[derive(Clone, Copy, Debug)]
pub struct ArchitectureRules {
    pub enabled: bool,
    pub enforce_package_boundaries: bool,
    pub detect_circular_dependencies: bool,
}

#[derive(Clone, Copy, Debug)]
pub struct Rules {
    pub syntax: SyntaxRules,
    pub dead_code: DeadCodeRules,
    pub style: StyleRules,
    pub architecture: ArchitectureRules,
}

/// Per-run configuration; loaded once, read-only afterwards.
#[derive(Clone, Debug)]
pub struct Config {
    pub general: GeneralConfig,
    pub rules: Rules,
}

/// The built-in rule toggles: everything enabled, lines capped at 120 bytes.
pub open spec fn default_rules() -> Rules {
    Rules {
        syntax: SyntaxRules { enabled: true, max_line_length: 120 },
        dead_code: DeadCodeRules {
            enabled: true,
            detect_unused_imports: true,
            detect_unused_functions: true,
            detect_unused_variables: true,
        },
        style: StyleRules {
            enabled: true,
            enforce_camel_case: true,
            space_after_control_statements: true,
            enforce_consistent_naming: true,
        },
        architecture: ArchitectureRules {
            enabled: true,
            enforce_package_boundaries: true,
            detect_circular_dependencies: true,
        },
    }
}

impl Config {
    /// The built-in defaults, used when no configuration file is present.
    pub fn default_config() -> (r: Config)
        ensures
            r.rules == default_rules(),
            r.general.ignore_patterns@.len() == 3,
            r.general.ignore_patterns@[0]@ == "^\\.git/"@,
            r.general.ignore_patterns@[1]@ == "^vendor/"@,
            r.general.ignore_patterns@[2]@ == "_test\\.go$"@,
            r.general.exclude_dirs@.len() == 4,
            r.general.exclude_dirs@[0]@ == "vendor".spec_bytes(),
            r.general.exclude_dirs@[1]@ == "node_modules".spec_bytes(),
            r.general.exclude_dirs@[2]@ == "build".spec_bytes(),
            r.general.exclude_dirs@[3]@ == "dist".spec_bytes(),
    {
        let mut ignore_patterns: Vec<String> = Vec::new();
        ignore_patterns.push(String::from_str("^\\.git/"));
        ignore_patterns.push(String::from_str("^vendor/"));
        ignore_patterns.push(String::from_str("_test\\.go$"));
        let mut exclude_dirs: Vec<Vec<u8>> = Vec::new();
        exclude_dirs.push(lit_bytes("vendor"));
        exclude_dirs.push(lit_bytes("node_modules"));
        exclude_dirs.push(lit_bytes("build"));
        exclude_dirs.push(lit_bytes("dist"));
        Config {
            general: GeneralConfig { ignore_patterns, exclude_dirs },
            rules: Rules {
                syntax: SyntaxRules { enabled: true, max_line_length: 120 },
                dead_code: DeadCodeRules {
                    enabled: true,
                    detect_unused_imports: true,
                    detect_unused_functions: true,
                    detect_unused_variables: true,
                },
                style: StyleRules {
                    enabled: true,
                    enforce_camel_case: true,
                    space_after_control_statements: true,
                    enforce_consistent_naming: true,
                },
                architecture: ArchitectureRules {
                    enabled: true,
                    enforce_package_boundaries: true,
                    detect_circular_dependencies: true,
                },
            },
        }
    }
}

impl Default for Config {
    /// Same value as `default_config`.
    fn default() -> (r: Config)
        ensures
            r.rules == default_rules(),
            r.general.ignore_patterns@.len() == 3,
            r.general.ignore_patterns@[0]@ == "^\\.git/"@,
            r.general.ignore_patterns@[1]@ == "^vendor/"@,
            r.general.ignore_patterns@[2]@ == "_test\\.go$"@,
            r.general.exclude_dirs@.len() == 4,
            r.general.exclude_dirs@[0]@ == "vendor".spec_bytes(),
            r.general.exclude_dirs@[1]@ == "node_modules".spec_bytes(),
            r.general.exclude_dirs@[2]@ == "build".spec_bytes(),
            r.general.exclude_dirs@[3]@ == "dist".spec_bytes(),
    {
        Config::default_config()
    }
}

} // verus!
