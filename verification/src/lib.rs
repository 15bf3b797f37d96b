//! A static analyzer for Go source trees.
//!
//! Each file is parsed into a plain syntax-tree facade ([`parser::GoFile`]);
//! independent rule passes walk that facade and collect findings
//! ([`issue::Issue`]): parse errors and over-long lines ([`syntax`]), unused
//! imports, functions and variables ([`dead_code`]), naming and layout
//! conventions ([`style`]), and package-boundary or circular-import problems
//! ([`architecture`]). A text-preserving engine ([`fixes`]) rewrites the
//! lines implicated by fixable findings. Occurrence matching is lexical, not
//! binding-resolved; that imprecision is deliberate and documented with the
//! resolver.
//!
//! The parser and the file system stay outside: callers hand in paths and
//! contents as plain bytes and persist rewritten buffers themselves.
pub mod analyzer;
pub mod architecture;
pub mod config;
pub mod dead_code;
pub mod fixes;
pub mod issue;
pub mod parser;
pub mod style;
pub mod syntax;
pub mod text;
