//! Rule timing: the run knob that instruments a run, and the shaping of the per-rule timings it
//! produced. The numbers vary run to run and ride in the data; the prose never varies and ships
//! once beside them.
use vstd::prelude::*;

verus! {

/// The per-invocation run knobs a host passes to the shared analysis entry points. Separate from
/// the findings filters on purpose: those choose which findings the reply shows, this one chooses
/// whether the run is instrumented.
#[derive(Debug, Clone, Copy)]
pub struct RunKnobs {
    /// Populate the rule timings for this run.
    pub profile_rules: bool,
}

impl Default for RunKnobs {
    /// No instrumentation.
    fn default() -> (r: Self)
        ensures
            !r.profile_rules,
    {
        RunKnobs { profile_rules: false }
    }
}

/// What the rule timings report says it is, and what a reader must check before believing it.
pub const RULE_TIMINGS_MEANING: &'static str = "Wall-clock time attributed to each DSL rule and whole-graph native analysis that actually executed this run, sorted by `nanos` descending (deterministic `ruleId`-ascending tie-break). READ `cacheHitFiles` FIRST: a file served whole from the cache never re-runs its per-file rules and therefore contributes NO timing to them, so on a warm run this report is structurally incomplete. When `cacheHitFiles` equals `fileCount` the PER-FILE rules are missing ENTIRELY and what remains is only the whole-graph native analyses, which run post-assembly and are never cache-served — a much shorter list that is not a ranking of your rule costs. Profile against a cold cache (delete the `cacheDir`, or set `\"cacheDir\": null`) to time the whole tree. `nanos` is wall-clock and jitters run to run: rank rules by relative cost WITHIN one run rather than diffing raw `nanos` across runs. Timing never changes which rules run or what they report.";

/// The sum of the timings that are counts; an entry that is not one contributes nothing.
pub open spec fn nanos_sum(s: Seq<Option<u64>>) -> nat
    decreases s.len(),
{
    if s.len() == 0 {
        0
    } else {
        nanos_sum(s.drop_last()) + match s.last() {
            Some(n) => n as nat,
            None => 0nat,
        }
    }
}

/// `n`, saturated at the largest `u64`.
pub open spec fn saturate(n: nat) -> u64 {
    if n <= u64::MAX {
        n as u64
    } else {
        u64::MAX
    }
}

/// The total of every rule's `nanos`, saturating at the largest `u64`.
pub fn total_nanos(nanos: &Vec<Option<u64>>) -> (t: u64)
    ensures
        t == saturate(nanos_sum(nanos@)),
{
    let mut acc: u64 = 0;
    let mut i: usize = 0;
    while i < nanos.len()
        invariant
            i <= nanos.len(),
            acc == saturate(nanos_sum(nanos@.subrange(0, i as int))),
        decreases nanos.len() - i,
    {
        proof {
            assert(nanos@.subrange(0, i + 1).drop_last() =~= nanos@.subrange(0, i as int));
        }
        match nanos[i] {
            Some(n) => {
                if acc > u64::MAX - n {
                    acc = u64::MAX;
                } else {
                    acc = acc + n;
                }
            },
            None => {},
        }
        i = i + 1;
    }
    proof {
        assert(nanos@.subrange(0, nanos.len() as int) =~= nanos@);
    }
    acc
}

/// The run-varying numbers of the rule timings report.
pub struct RuleTimings {
    pub rule_count: usize,
    pub total_nanos: u64,
    pub cache_hit_files: u64,
}

/// The rule timings report of one tree's output, or `None` when profiling was off (the output
/// carries no timings list). `rule_nanos` holds each listed rule's `nanos` where it is a count;
/// `cache_hits` is the tree's own cache hit count, when it carries one: a run with no cache
/// reports zero hits, which is the truth.
pub fn shape_rule_timings(rule_nanos: Option<&Vec<Option<u64>>>, cache_hits: Option<u64>) -> (r: Option<RuleTimings>)
    ensures
        r is Some <==> rule_nanos is Some,
        r matches Some(t) ==> t.rule_count == rule_nanos.unwrap().len() && t.total_nanos == saturate(
            nanos_sum(rule_nanos.unwrap()@),
        ) && t.cache_hit_files == match cache_hits {
            Some(h) => h,
            None => 0u64,
        },
{
    match rule_nanos {
        None => None,
        Some(rules) => {
            let hits = match cache_hits {
                Some(h) => h,
                None => 0,
            };
            Some(RuleTimings { rule_count: rules.len(), total_nanos: total_nanos(rules), cache_hit_files: hits })
        },
    }
}

} // verus!
