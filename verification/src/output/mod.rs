//! Tool-output shaping: summary first, capped lists, explicit truncation disclosure. Counts always
//! ride over the full set, every cap announces what it cut, and ordering is deterministic.
pub mod bucket_keys;
pub mod by_directory;
pub mod cache_signal;
pub mod census;
pub mod disclosure;
pub mod filters;
pub mod legends;
pub mod finding;
pub mod ordering;
pub mod rule_prose;
pub mod shape;
pub mod timings;
pub mod truncation;

use vstd::prelude::*;

verus! {

/// Default cap for findings lists.
pub const DEFAULT_FINDINGS_LIMIT: usize = 50;

/// Default cap for cross-layer edge lists.
pub const DEFAULT_EDGES_LIMIT: usize = 200;

/// Default cap for the `degraded` file-path list.
pub const DEFAULT_DEGRADED_LIMIT: usize = 50;

/// Upper bound for a caller-supplied `limit`.
pub const MAX_LIMIT: usize = 1000;

} // verus!
