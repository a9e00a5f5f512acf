//! Cache provenance: how much of a reply was recomputed this run, and how much was replayed from
//! the per-file cache. The numbers vary run to run; the prose saying what they prove does not.
use vstd::prelude::*;

verus! {

/// What a cache hit means for the findings, and where the guarantee behind reuse stops.
pub const CACHE_MEANING: &'static str = "`hitFiles` of `fileCount` files were served whole from the cache: their findings in this reply were REPLAYED from the cache directory, not recomputed from the file as it is now. Reuse is decided by fingerprints over the file's content, the ruleset, the declared vocabulary and the engine version, and every accidental-staleness path they cover was measured as correctly recomputing. Beyond them, each entry carries a digest of its own payload — a keyless integrity check — so an entry edited without recomputing that digest is refused, its file is recomputed from source, and any this run refused are reported to you. Where that stops: the digest is public, so it detects corruption rather than proving authorship, and an edit that recomputed the digest too would pass unnoticed. If a zero here has to be trusted, recompute the whole tree — delete the cache directory, or set `cacheDir` to null — and compare. `missFiles` were computed by this run.";

/// The run-varying half of the cache report.
pub struct CacheSignal {
    pub hit_files: u64,
    pub miss_files: u64,
}

/// The report for a cache field: both counts when both are counts, else nothing.
pub open spec fn signal_of(cache: Option<(Option<u64>, Option<u64>)>) -> Option<CacheSignal> {
    match cache {
        Some((Some(h), Some(m))) => Some(CacheSignal { hit_files: h, miss_files: m }),
        _ => None,
    }
}

/// The cache report of one tree's output, or `None` when this run used no cache. `cache` is the
/// output's cache field when it carries one, as its hit and miss counts (each `None` when it is not
/// a count); a cache field whose counts are not both counts reports nothing either.
pub fn shape_cache_signal(cache: Option<(Option<u64>, Option<u64>)>) -> (r: Option<CacheSignal>)
    ensures
        r == signal_of(cache),
{
    match cache {
        Some((Some(hits), Some(misses))) => Some(CacheSignal { hit_files: hits, miss_files: misses }),
        _ => None,
    }
}

} // verus!
