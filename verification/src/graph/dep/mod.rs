//! The dependency domain: one node per file (prefixed by its tree when a run has several), an
//! edge per import, and cycle membership taken from the engine's own `circular` findings. The
//! mermaid lane caps nodes by degree; the cosmograph lane emits the same universe uncapped.
pub mod universe;
pub mod view;
pub mod folded;
pub mod picture;
pub mod determined;

use vstd::prelude::*;

verus! {

/// One `ir.dep` entry of a tree: a file and what it imports (`None` for an entry that is not a
/// path).
pub struct DepEntry {
    pub from: String,
    pub to: Vec<Option<String>>,
}

/// One `ir.loc` entry: a file and its measured lines, `None` when the value is not a count.
pub struct LocEntry {
    pub rel: String,
    pub lines: Option<u64>,
}

/// One `output.nodes[]` row: a file's git history.
pub struct GitRow {
    pub path: Option<String>,
    pub change_count: Option<u64>,
    pub churn: Option<u64>,
    pub author_count: Option<u64>,
    pub last_modified: Option<String>,
}

/// One finding of a tree, as far as this domain reads it: its rule, its file and the files of the
/// cycle it reports.
pub struct CycleFinding {
    pub rule_id: Option<String>,
    pub file: Option<String>,
    pub members: Vec<Option<String>>,
}

/// What the dependency domain reads of one analyzed tree. `git_window` is `None` when git
/// collection did not run, else the `since` bound it ran under (`None` inside: full history).
pub struct DepTree {
    pub source_id: Option<String>,
    pub dep: Vec<DepEntry>,
    pub loc: Vec<LocEntry>,
    pub git_window: Option<Option<String>>,
    pub git_rows: Vec<GitRow>,
    pub findings: Vec<CycleFinding>,
}

/// The git history axes of a file.
pub struct GitAxes {
    pub change_count: u32,
    pub churn: u32,
    pub author_count: u32,
    pub last_modified: Option<String>,
}

/// One file of the graph: its tree, its tree-relative path, and the axes this run measured.
pub struct DepNode {
    pub source: String,
    pub rel: String,
    pub loc: Option<u32>,
    pub git: Option<GitAxes>,
}

} // verus!
