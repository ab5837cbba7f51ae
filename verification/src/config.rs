//! Configuration consumed by the traversal engine.
//!
//! The engine never parses command-line text itself: it receives an
//! already-validated [`Cli`] value. Paths are plain strings with `/` as the
//! separator; times are seconds since the Unix epoch.

use vstd::prelude::*;

verus! {

/// Output encodings for the rendered stream.
#[derive(Clone, Copy, PartialEq, Eq, Structural, Debug)]
pub enum EncodingMode {
    Utf8,
    Utf8bom,
    Utf16le,
    Sjis,
    Auto,
}

/// Sibling ordering inside one directory.
#[derive(Clone, Copy, PartialEq, Eq, Structural, Debug)]
pub enum SortMode {
    Unsorted,
    Name,
}

/// What a pattern is matched against: the base name or the path relative to
/// the scan root.
#[derive(Clone, Copy, PartialEq, Eq, Structural, Debug)]
pub enum MatchMode {
    Name,
    Path,
}

/// Syntax of the include/exclude patterns.
#[derive(Clone, Copy, PartialEq, Eq, Structural, Debug)]
pub enum PatternSyntax {
    Glob,
    Regex,
}

/// Entry-type filter selector.
#[derive(Clone, Copy, PartialEq, Eq, Structural, Debug)]
pub enum TypeFilter {
    File,
    Dir,
    Symlink,
}

/// Whether ignore-rule based walking is used instead of the core engine.
#[derive(Clone, Copy, PartialEq, Eq, Structural, Debug)]
pub enum GitignoreMode {
    On,
    Off,
}

/// Color handling requested for the sink (interpreted outside the core).
#[derive(Clone, Copy, PartialEq, Eq, Structural, Debug)]
pub enum ColorMode {
    Auto,
    Always,
    Never,
}

/// Output format selector.
#[derive(Clone, Copy, PartialEq, Eq, Structural, Debug)]
pub enum Format {
    Plain,
    Json,
    Ndjson,
    Csv,
    Yaml,
    Html,
}

/// The two-revision diff subcommand, kept as plain data.
pub enum Cmd {
    Diff { rev_a: String, rev_b: String, path: Option<String>, format: Format },
}

/// Validated configuration for one run.
pub struct Cli {
    pub cmd: Option<Cmd>,
    /// Root path of the scan; `None` means the current directory.
    pub path: Option<String>,
    /// Maximum depth; `Some(1)` shows only the root.
    pub max_depth: Option<usize>,
    /// Show dotfiles.
    pub hidden: bool,
    /// Follow symlinks when they point at directories.
    pub follow_symlinks: bool,
    pub sort: SortMode,
    /// Order directory-pointing entries ahead of the rest.
    pub dirs_first: bool,
    pub includes: Vec<String>,
    pub excludes: Vec<String>,
    pub pattern_syntax: PatternSyntax,
    pub match_mode: MatchMode,
    pub filter_regex: Option<String>,
    pub filter_size: Option<String>,
    pub filter_mtime: Option<String>,
    pub filter_perm: Option<String>,
    pub types: Vec<TypeFilter>,
    pub gitignore: GitignoreMode,
    /// Annotate entries with version-control status symbols.
    pub git_status: bool,
    /// Also ask the status provider for rename detection.
    pub git_rename: bool,
    pub color: ColorMode,
    pub format: Format,
    pub encoding: EncodingMode,
    /// Worker count for metadata resolution; must be at least 1.
    pub jobs: usize,
    /// Diagnostic-only depth threshold; 0 disables the warning.
    pub warn_depth: usize,
}

} // verus!
