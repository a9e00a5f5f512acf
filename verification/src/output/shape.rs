//! Shaping a findings list into the reply: counts over the full set, the filtered window in its
//! published order cut at the cap, the prose fold over what was shown, and every disclosure that
//! says what the window does not hold — each present exactly when it has something to say.
use vstd::prelude::*;

use super::by_directory::{by_directory, by_directory_is, dir_keys, is_dir_ranking, ByDirectory, DirCount};
use super::by_directory::{count_in, in_rows, law_dir_ranking_follows_tallies, placed_file, rank_keys};
use super::census::{census, is_census, law_census_follows_tallies, law_census_is_unique, lemma_tally_permutation, tally, KeyCount};
use super::filters::FindingFilters;
use super::finding::{
    is_build_surface, is_test_path, sev_text, severity_rank, spec_is_build_surface,
    spec_is_test_path, spec_severity_rank, text_or_empty, Finding,
};
use super::legends::{by_rule_note, by_rule_note_text, shown_note, shown_note_text};
use super::ordering::{count_prior, is_window_order, law_window_order_is_unique, lemma_count_prior_le, lemma_count_prior_step, window_order};
use super::rule_prose::exact::messages_view;
use super::rule_prose::template::table_view;
use super::rule_prose::{clone_text, fold, fold_is, law_fold_is_determined, ov, ovs, rows_agree, Folded, ProseIn};
use super::truncation::{
    findings as truncation_findings, law_truncation_is_determined, plain, truncation_is, truncation_view, FindingsTruncation,
    PlainTruncation,
};
use super::{DEFAULT_FINDINGS_LIMIT, MAX_LIMIT};
use crate::text::{dec, owned, push_str, push_usize};

verus! {

broadcast use vstd::seq_lib::group_seq_properties;

/// The `testPaths` legend.
pub const TEST_PATHS_MEANING: &'static str = "findings whose file is a test path (the DSL's shared test-paths pattern). They are still real findings — a committed credential is a leak wherever it sits, and rules that scan test paths say so in the catalog — but they sort after EVERY finding in shipped code, whatever severity either carries, so a first screen leads with production code. Nothing is dropped, no severity changes, and every count includes them.";

/// The `buildPaths` legend.
pub const BUILD_PATHS_MEANING: &'static str = "findings whose file is build/release surface rather than shipped code — one this tree's own package.json `scripts` names (see the engine's `buildScriptPaths`), a file under `.github/` (CI workflow, composite action, repo template), or a `*.example` template. They are still real findings and every count includes them, but they sort after both production and test-path findings, whatever severity any of them carries, so a first screen leads with code that ships. Nothing is dropped and no severity changes.";

/// The `filtered` legend.
pub const FILTERED_MEANING: &'static str = "YOUR REQUEST narrowed this window before any cap did. `elided` is how many findings the filter above removed from `shown`; they are still counted in `total`, `bySeverity` and `byRule`, which are always over the full set. Read this key as \"the rows you are looking at are not all the rows\" — without it a filtered reply and a complete one are the same bytes, which matters most when the reply is saved, forwarded, or read in a later turn than the one that passed the filter. `truncated` beside it is a DIFFERENT cut: that one is the list cap acting on what survived this filter.";

/// The tail of the note for a rule filter that matched nothing and names no rule that fired.
pub const RULE_NOTE_TAIL: &'static str = "' matched no findings and is not among this run's fired rule ids — check the id (byRule lists what fired; the `rule-catalog` contract document lists all of them, and every zzop surface serves it under that name)";

/// The tail of the note for a severity filter that matched nothing.
pub const SEVERITY_NOTE_TAIL: &'static str = ", and `bySeverity` above counts the unfiltered set. An empty `shown` here means nothing reached that floor, NOT that nothing was found; lower the floor to see what did";

/// A count and the sentence that says what it counts.
pub struct CountDisclosure {
    pub count: usize,
    pub meaning: String,
}

/// What the caller's filters removed from the window.
pub struct FilteredDisclosure {
    pub severity: Option<String>,
    pub rule: Option<String>,
    pub elided: usize,
    pub meaning: String,
}

/// One row of `shown`: which finding it is, and what the prose fold left it carrying.
pub struct ShownFinding {
    pub index: usize,
    pub message: Option<String>,
    pub message_ref: Option<String>,
    pub template_parts: Option<Vec<String>>,
    pub message_by: bool,
}

/// A shaped findings block.
pub struct ShapedFindings {
    pub total: usize,
    pub by_severity: Vec<KeyCount>,
    pub by_rule: Vec<KeyCount>,
    pub by_rule_meaning: String,
    pub shown: Vec<ShownFinding>,
    pub shown_meaning: String,
    pub rule_messages: Option<Vec<(String, String)>>,
    pub rule_message_templates: Option<Vec<(String, Vec<String>)>>,
    pub message_by_id: bool,
    pub by_directory: Option<ByDirectory>,
    pub test_paths: Option<CountDisclosure>,
    pub build_paths: Option<CountDisclosure>,
    pub filtered: Option<FilteredDisclosure>,
    pub truncated: Option<FindingsTruncation>,
    pub note: Option<String>,
}

/// Every finding's severity text.
pub open spec fn sev_keys(fs: Seq<Finding>) -> Seq<Seq<char>> {
    Seq::new(fs.len(), |i: int| sev_text(fs[i]))
}

/// Every finding's rule id text (empty when absent).
pub open spec fn rule_keys(fs: Seq<Finding>) -> Seq<Seq<char>> {
    Seq::new(fs.len(), |i: int| text_or_empty(fs[i].rule_id))
}

/// The severity floor the filters ask for.
pub open spec fn min_rank_of(filters: FindingFilters) -> u8 {
    match filters.min_severity {
        Some(s) => spec_severity_rank(s@),
        None => 0,
    }
}

/// The cap the filters ask for.
pub open spec fn limit_of(filters: FindingFilters) -> usize {
    match filters.limit {
        Some(l) => l,
        None => DEFAULT_FINDINGS_LIMIT,
    }
}

/// How many findings are test paths.
pub open spec fn test_path_count(fs: Seq<Finding>) -> nat {
    count_prior(fs.len() as int, |i: int| spec_is_test_path(fs[i]))
}

/// How many findings are build surface.
pub open spec fn build_path_count(fs: Seq<Finding>, bsp: Seq<String>) -> nat {
    count_prior(fs.len() as int, |i: int| spec_is_build_surface(fs[i], bsp))
}

/// `key: count` pairs joined by `, `.
pub open spec fn census_list_text(bs: Seq<KeyCount>) -> Seq<char>
    decreases bs.len(),
{
    if bs.len() == 0 {
        Seq::empty()
    } else if bs.len() == 1 {
        bs[0].key@ + ": "@ + dec(bs[0].count as nat)
    } else {
        census_list_text(bs.drop_last()) + ", "@ + bs.last().key@ + ": "@ + dec(bs.last().count as nat)
    }
}

/// The note for a rule filter that matched nothing and names no rule that fired.
pub open spec fn rule_note_text(rule: Seq<char>) -> Seq<char> {
    "rule filter '"@ + rule + RULE_NOTE_TAIL@
}

/// The note for a severity filter that matched nothing, naming what the run did produce.
pub open spec fn severity_note_text(min: Seq<char>, bs: Seq<KeyCount>) -> Seq<char> {
    "severity filter '"@ + min + "' matched no findings — "@ + if bs.len() == 0 {
        "this run produced no findings at any severity"@
    } else {
        "this run's full census is "@ + census_list_text(bs)
    } + SEVERITY_NOTE_TAIL@
}

/// The `note`: the rule note and the severity note, each when it applies, joined by a space.
pub open spec fn note_text(
    filters: FindingFilters,
    matching: nat,
    rule_tally: nat,
    bs: Seq<KeyCount>,
) -> Option<Seq<char>> {
    let rule_note = match filters.rule {
        Some(r) => if matching == 0 && rule_tally == 0 {
            Some(rule_note_text(r@))
        } else {
            None
        },
        None => None,
    };
    let sev_note = match filters.min_severity {
        Some(m) => if matching == 0 {
            Some(severity_note_text(m@, bs))
        } else {
            None
        },
        None => None,
    };
    match (rule_note, sev_note) {
        (Some(a), Some(b)) => Some(a + " "@ + b),
        (Some(a), None) => Some(a),
        (None, Some(b)) => Some(b),
        (None, None) => None,
    }
}

/// `row` is what the fold reads of finding `f`.
pub open spec fn prose_row_of(f: Finding, row: ProseIn) -> bool {
    &&& ov(row.rule_id) == ov(f.rule_id)
    &&& ov(row.message) == ov(f.message)
    &&& ov(row.verbatim) == ov(f.bundled_verbatim)
}

/// The shown window and its fold: the first `limit` findings of the window order, each row
/// carrying what the fold left it, and the fold's tables.
pub open spec fn window_is(
    fs: Seq<Finding>,
    ord: Seq<usize>,
    limit: usize,
    shown: Seq<ShownFinding>,
    messages: Option<Vec<(String, String)>>,
    templates: Option<Vec<(String, Vec<String>)>>,
    by_id: bool,
) -> bool {
    let k = if ord.len() < limit {
        ord.len()
    } else {
        limit as nat
    };
    exists|rows: Seq<ProseIn>, f: Folded|
        {
            &&& rows.len() == k
            &&& forall|q: int| 0 <= q < k ==> prose_row_of(fs[ord[q] as int], #[trigger] rows[q])
            &&& fold_is(rows, f)
            &&& shown.len() == k
            &&& messages == f.messages
            &&& templates == f.templates
            &&& by_id == f.by_id
            &&& forall|q: int|
                0 <= q < k ==> (#[trigger] shown[q]).index == ord[q] && ov(shown[q].message) == ov(
                    f.rows@[q].message,
                ) && ov(shown[q].message_ref) == ov(f.rows@[q].message_ref)
                    && super::rule_prose::ovs(shown[q].template_parts) == super::rule_prose::ovs(
                    f.rows@[q].template_parts,
                ) && shown[q].message_by == f.rows@[q].message_by
        }
}

/// [`window_is`] on a shaped block.
pub open spec fn shown_is(fs: Seq<Finding>, ord: Seq<usize>, limit: usize, out: ShapedFindings) -> bool {
    window_is(fs, ord, limit, out.shown@, out.rule_messages, out.rule_message_templates, out.message_by_id)
}

/// Well-formed filters: a limit, when given, within the maximum.
pub open spec fn filters_wf(filters: FindingFilters) -> bool {
    filters.limit matches Some(l) ==> l <= MAX_LIMIT
}

/// The whole shaped block, given the window order `ord`.
pub open spec fn shaped_is(
    fs: Seq<Finding>,
    filters: FindingFilters,
    bsp: Seq<String>,
    ord: Seq<usize>,
    out: ShapedFindings,
) -> bool {
    let limit = limit_of(filters);
    let matching = ord.len();
    let elided = if fs.len() > matching {
        (fs.len() - matching) as nat
    } else {
        0nat
    };
    let tests = test_path_count(fs);
    let builds = build_path_count(fs, bsp);
    &&& out.total == fs.len()
    &&& is_census(sev_keys(fs), out.by_severity@)
    &&& is_census(rule_keys(fs), out.by_rule@)
    &&& out.by_rule_meaning@ == by_rule_note_text()
    &&& out.shown_meaning@ == shown_note_text()
    &&& shown_is(fs, ord, limit, out)
    &&& exists|ranked: Seq<DirCount>| is_dir_ranking(dir_keys(fs), ranked) && #[trigger] by_directory_is(fs, ranked, out.by_directory)
    &&& (out.test_paths is Some <==> tests > 0)
    &&& (out.test_paths matches Some(d) ==> d.count == tests && d.meaning@ == TEST_PATHS_MEANING@)
    &&& (out.build_paths is Some <==> builds > 0)
    &&& (out.build_paths matches Some(d) ==> d.count == builds && d.meaning@ == BUILD_PATHS_MEANING@)
    &&& (out.filtered is Some <==> elided > 0 && (filters.min_severity is Some || filters.rule is Some))
    &&& (out.filtered matches Some(d) ==> d.elided == elided && ov(d.severity) == ov(filters.min_severity)
        && ov(d.rule) == ov(filters.rule) && d.meaning@ == FILTERED_MEANING@)
    &&& (out.truncated is Some <==> matching > limit)
    &&& (out.truncated matches Some(t) ==> truncation_is(fs, ord, limit, t))
    &&& ov(out.note) == note_text(
        filters,
        matching,
        match filters.rule {
            Some(r) => super::census::tally(rule_keys(fs), r@),
            None => 0,
        },
        out.by_severity@,
    )
}

/// The count a disclosure carries, or zero when it is absent.
pub open spec fn disclosed_count(d: Option<CountDisclosure>) -> nat {
    match d {
        Some(c) => c.count as nat,
        None => 0,
    }
}

/// Counts are over the full set: two shapings of one findings list, whatever their filters and
/// limits, report the same total, the same severity and rule censuses entry for entry, and the
/// same test-path and build-surface disclosures.
pub proof fn law_counts_ignore_filters(
    fs: Seq<Finding>,
    bsp: Seq<String>,
    f1: FindingFilters,
    f2: FindingFilters,
    o1: Seq<usize>,
    o2: Seq<usize>,
    r1: ShapedFindings,
    r2: ShapedFindings,
)
    requires
        shaped_is(fs, f1, bsp, o1, r1),
        shaped_is(fs, f2, bsp, o2, r2),
    ensures
        r1.total == r2.total,
        r1.by_severity@.len() == r2.by_severity@.len(),
        forall|i: int|
            0 <= i < r1.by_severity@.len() ==> (#[trigger] r1.by_severity@[i]).key@ == r2.by_severity@[i].key@
                && r1.by_severity@[i].count == r2.by_severity@[i].count,
        r1.by_rule@.len() == r2.by_rule@.len(),
        forall|i: int|
            0 <= i < r1.by_rule@.len() ==> (#[trigger] r1.by_rule@[i]).key@ == r2.by_rule@[i].key@
                && r1.by_rule@[i].count == r2.by_rule@[i].count,
        r1.test_paths is Some <==> r2.test_paths is Some,
        disclosed_count(r1.test_paths) == disclosed_count(r2.test_paths),
        r1.build_paths is Some <==> r2.build_paths is Some,
        disclosed_count(r1.build_paths) == disclosed_count(r2.build_paths),
{
    law_census_is_unique(sev_keys(fs), r1.by_severity@, r2.by_severity@);
    law_census_is_unique(rule_keys(fs), r1.by_rule@, r2.by_rule@);
}

/// Whether some entry of `bs` has key `k`.
fn key_present(bs: &Vec<KeyCount>, k: &str) -> (r: bool)
    ensures
        r == exists|i: int| 0 <= i < bs@.len() && (#[trigger] bs@[i]).key@ == k@,
{
    let mut i: usize = 0;
    while i < bs.len()
        invariant
            i <= bs@.len(),
            forall|j: int| 0 <= j < i ==> (#[trigger] bs@[j]).key@ != k@,
        decreases bs@.len() - i,
    {
        if crate::text::str_eq(bs[i].key.as_str(), k) {
            return true;
        }
        i = i + 1;
    }
    false
}

/// `key: count` pairs joined by `, `.
fn census_list(bs: &Vec<KeyCount>) -> (r: String)
    ensures
        r@ == census_list_text(bs@),
{
    let mut out = String::new();
    let mut i: usize = 0;
    while i < bs.len()
        invariant
            i <= bs@.len(),
            out@ == census_list_text(bs@.take(i as int)),
        decreases bs@.len() - i,
    {
        proof {
            assert(bs@.take(i + 1).drop_last() =~= bs@.take(i as int));
        }
        if i > 0 {
            push_str(&mut out, ", ");
        }
        push_str(&mut out, bs[i].key.as_str());
        push_str(&mut out, ": ");
        push_usize(&mut out, bs[i].count);
        proof {
            if i == 0 {
                assert(bs@.take(1).len() == 1);
                assert(out@ =~= census_list_text(bs@.take(1)));
            } else {
                assert(out@ =~= census_list_text(bs@.take(i + 1)));
            }
        }
        i = i + 1;
    }
    proof {
        assert(bs@.take(i as int) =~= bs@);
    }
    out
}

proof fn lemma_present_iff_tally(ks: Seq<Seq<char>>, bs: Seq<KeyCount>, k: Seq<char>)
    requires
        is_census(ks, bs),
    ensures
        (exists|i: int| 0 <= i < bs.len() && (#[trigger] bs[i]).key@ == k) <==> super::census::tally(ks, k) > 0,
{
    if super::census::tally(ks, k) > 0 {
        let j = super::census::lemma_tally_witness(ks, k);
        assert(ks[j] == k);
    }
}

/// Every finding's severity text and rule id text.
fn key_texts(findings: &Vec<Finding>) -> (r: (Vec<String>, Vec<String>))
    ensures
        r.0@.map_values(|x: String| x@) == sev_keys(findings@),
        r.1@.map_values(|x: String| x@) == rule_keys(findings@),
{
    let ghost fs = findings@;
    let n = findings.len();
    let mut sevs: Vec<String> = Vec::new();
    let mut rls: Vec<String> = Vec::new();
    let mut i: usize = 0;
    while i < n
        invariant
            n == fs.len(),
            fs == findings@,
            i <= n,
            sevs@.map_values(|x: String| x@) == sev_keys(fs).take(i as int),
            rls@.map_values(|x: String| x@) == rule_keys(fs).take(i as int),
        decreases n - i,
    {
        let ghost s0 = sevs@;
        let ghost r0 = rls@;
        let sv = match &findings[i].severity {
            Some(s) => s.clone(),
            None => String::new(),
        };
        let rv = match &findings[i].rule_id {
            Some(s) => s.clone(),
            None => String::new(),
        };
        sevs.push(sv);
        rls.push(rv);
        proof {
            assert(sevs@.map_values(|x: String| x@) =~= s0.map_values(|x: String| x@).push(sev_text(fs[i as int])));
            assert(sev_keys(fs).take(i + 1) =~= sev_keys(fs).take(i as int).push(sev_text(fs[i as int])));
            assert(rls@.map_values(|x: String| x@) =~= r0.map_values(|x: String| x@).push(text_or_empty(fs[i as int].rule_id)));
            assert(rule_keys(fs).take(i + 1) =~= rule_keys(fs).take(i as int).push(text_or_empty(fs[i as int].rule_id)));
        }
        i = i + 1;
    }
    proof {
        assert(sev_keys(fs).take(n as int) =~= sev_keys(fs));
        assert(rule_keys(fs).take(n as int) =~= rule_keys(fs));
    }
    (sevs, rls)
}

/// How many findings are test paths, and how many are build surface.
fn count_paths(findings: &Vec<Finding>, build_script_paths: &Vec<String>) -> (r: (usize, usize))
    ensures
        r.0 == test_path_count(findings@),
        r.1 == build_path_count(findings@, build_script_paths@),
{
    let ghost fs = findings@;
    let n = findings.len();
    let mut tests: usize = 0;
    let mut builds: usize = 0;
    let mut i: usize = 0;
    while i < n
        invariant
            n == fs.len(),
            fs == findings@,
            i <= n,
            tests == count_prior(i as int, |j: int| spec_is_test_path(fs[j])),
            builds == count_prior(i as int, |j: int| spec_is_build_surface(fs[j], build_script_paths@)),
            tests <= i,
            builds <= i,
        decreases n - i,
    {
        proof {
            lemma_count_prior_step(i as int, |j: int| spec_is_test_path(fs[j]));
            lemma_count_prior_step(i as int, |j: int| spec_is_build_surface(fs[j], build_script_paths@));
        }
        if is_test_path(&findings[i]) {
            tests = tests + 1;
        }
        if is_build_surface(&findings[i], build_script_paths) {
            builds = builds + 1;
        }
        i = i + 1;
    }
    (tests, builds)
}

/// The shown window, folded.
fn shown_window(findings: &Vec<Finding>, ord: &Vec<usize>, limit: usize) -> (r: (
    Vec<ShownFinding>,
    Option<Vec<(String, String)>>,
    Option<Vec<(String, Vec<String>)>>,
    bool,
))
    requires
        limit <= MAX_LIMIT,
        forall|j: int| 0 <= j < ord@.len() ==> (#[trigger] ord@[j]) < findings@.len(),
    ensures
        window_is(findings@, ord@, limit, r.0@, r.1, r.2, r.3),
{
    let ghost fs = findings@;
    let matching = ord.len();
    let k: usize = if matching < limit {
        matching
    } else {
        limit
    };
    let mut rows: Vec<ProseIn> = Vec::new();
    let mut q: usize = 0;
    while q < k
        invariant
            k <= ord@.len(),
            k <= MAX_LIMIT,
            forall|j: int| 0 <= j < ord@.len() ==> (#[trigger] ord@[j]) < fs.len(),
            fs == findings@,
            q <= k,
            rows@.len() == q,
            forall|j: int| 0 <= j < q ==> prose_row_of(fs[ord@[j] as int], #[trigger] rows@[j]),
        decreases k - q,
    {
        let f = &findings[ord[q]];
        rows.push(ProseIn {
            rule_id: clone_text(&f.rule_id),
            message: clone_text(&f.message),
            verbatim: clone_text(&f.bundled_verbatim),
        });
        q = q + 1;
    }
    let folded = fold(&rows);
    let ghost gf = folded;
    let mut shown: Vec<ShownFinding> = Vec::new();
    let mut q: usize = 0;
    while q < k
        invariant
            k <= ord@.len(),
            folded.rows@.len() == k,
            gf == folded,
            q <= k,
            shown@.len() == q,
            forall|j: int|
                0 <= j < q ==> (#[trigger] shown@[j]).index == ord@[j] && ov(shown@[j].message) == ov(
                    gf.rows@[j].message,
                ) && ov(shown@[j].message_ref) == ov(gf.rows@[j].message_ref)
                    && super::rule_prose::ovs(shown@[j].template_parts) == super::rule_prose::ovs(
                    gf.rows@[j].template_parts,
                ) && shown@[j].message_by == gf.rows@[j].message_by,
        decreases k - q,
    {
        let row = &folded.rows[q];
        let tp = match &row.template_parts {
            Some(v) => Some(super::rule_prose::template::clone_strings(v)),
            None => None,
        };
        shown.push(ShownFinding {
            index: ord[q],
            message: clone_text(&row.message),
            message_ref: clone_text(&row.message_ref),
            template_parts: tp,
            message_by: row.message_by,
        });
        q = q + 1;
    }
    proof {
        assert(window_is(fs, ord@, limit, shown@, gf.messages, gf.templates, gf.by_id));
    }
    (shown, folded.messages, folded.templates, folded.by_id)
}

/// The `note` for empty filtered results.
fn notes(
    filters: &FindingFilters,
    matching: usize,
    by_rule: &Vec<KeyCount>,
    by_severity: &Vec<KeyCount>,
    rule_texts: Ghost<Seq<Seq<char>>>,
) -> (r: Option<String>)
    requires
        is_census(rule_texts@, by_rule@),
    ensures
        ov(r) == note_text(
            *filters,
            matching as nat,
            match filters.rule {
                Some(rr) => super::census::tally(rule_texts@, rr@),
                None => 0,
            },
            by_severity@,
        ),
{
    let rule_note: Option<String> = match &filters.rule {
        Some(rule) => {
            proof {
                lemma_present_iff_tally(rule_texts@, by_rule@, rule@);
            }
            if matching == 0 && !key_present(by_rule, rule.as_str()) {
                let mut s = owned("rule filter '");
                push_str(&mut s, rule.as_str());
                push_str(&mut s, RULE_NOTE_TAIL);
                Some(s)
            } else {
                None
            }
        },
        None => None,
    };
    let sev_note: Option<String> = match &filters.min_severity {
        Some(min) => {
            if matching == 0 {
                let mut s = owned("severity filter '");
                push_str(&mut s, min.as_str());
                push_str(&mut s, "' matched no findings — ");
                if by_severity.len() == 0 {
                    push_str(&mut s, "this run produced no findings at any severity");
                } else {
                    push_str(&mut s, "this run's full census is ");
                    let list = census_list(by_severity);
                    push_str(&mut s, list.as_str());
                }
                push_str(&mut s, SEVERITY_NOTE_TAIL);
                Some(s)
            } else {
                None
            }
        },
        None => None,
    };
    match (rule_note, sev_note) {
        (Some(a), Some(b)) => {
            let mut s = a;
            push_str(&mut s, " ");
            push_str(&mut s, b.as_str());
            Some(s)
        },
        (Some(a), None) => Some(a),
        (None, Some(b)) => Some(b),
        (None, None) => None,
    }
}

/// Shapes a findings list: counts over the FULL set, the filtered window in its published order
/// cut at the cap, the prose fold over what was shown, and each disclosure present exactly when it
/// has something to say. `build_script_paths` is the analyzed tree's own declaration of which files
/// are build surface.
pub fn shape_findings(
    findings: &Vec<Finding>,
    filters: &FindingFilters,
    build_script_paths: &Vec<String>,
) -> (r: ShapedFindings)
    requires
        filters_wf(*filters),
    ensures
        exists|ord: Seq<usize>|
            is_window_order(
                findings@,
                build_script_paths@,
                min_rank_of(*filters),
                filters.rule,
                ord,
            ) && #[trigger] shaped_is(findings@, *filters, build_script_paths@, ord, r),
{
    let ghost fs = findings@;
    let n = findings.len();
    let (sevs, rls) = key_texts(findings);
    let by_severity = census(&sevs);
    let by_rule = census(&rls);
    let min_rank: u8 = match &filters.min_severity {
        Some(s) => severity_rank(s.as_str()),
        None => 0,
    };
    let ord = window_order(findings, filters, min_rank, build_script_paths);
    let matching = ord.len();
    let limit: usize = match filters.limit {
        Some(l) => l,
        None => DEFAULT_FINDINGS_LIMIT,
    };
    let (shown, messages, templates, by_id) = shown_window(findings, &ord, limit);
    let by_dir = by_directory(findings);
    let (tests, builds) = count_paths(findings, build_script_paths);
    let test_paths = if tests > 0 {
        Some(CountDisclosure { count: tests, meaning: owned(TEST_PATHS_MEANING) })
    } else {
        None
    };
    let build_paths = if builds > 0 {
        Some(CountDisclosure { count: builds, meaning: owned(BUILD_PATHS_MEANING) })
    } else {
        None
    };
    let elided: usize = if n > matching {
        n - matching
    } else {
        0
    };
    let filtered = if elided > 0 && (filters.min_severity.is_some() || filters.rule.is_some()) {
        Some(
            FilteredDisclosure {
                severity: clone_text(&filters.min_severity),
                rule: clone_text(&filters.rule),
                elided,
                meaning: owned(FILTERED_MEANING),
            },
        )
    } else {
        None
    };
    let truncated = if matching > limit {
        Some(truncation_findings(findings, &ord, limit))
    } else {
        None
    };
    let note = notes(filters, matching, &by_rule, &by_severity, Ghost(rule_keys(fs)));
    let out = ShapedFindings {
        total: n,
        by_severity,
        by_rule,
        by_rule_meaning: by_rule_note(),
        shown,
        shown_meaning: shown_note(),
        rule_messages: messages,
        rule_message_templates: templates,
        message_by_id: by_id,
        by_directory: by_dir,
        test_paths,
        build_paths,
        filtered,
        truncated,
        note,
    };
    proof {
        assert(shaped_is(fs, *filters, build_script_paths@, ord@, out));
    }
    out
}

/// Shapes a plain list with the same disclosure contract: the first `limit` items, and
/// `{shown, totalMatching, hint}` when the cap cut. The caller's hint must name a remedy that
/// works on this list.
pub fn shape_list<T: Clone>(items: &Vec<T>, limit: usize, hint: &str) -> (r: (Vec<T>, Option<PlainTruncation>))
    ensures
        r.0@.len() == if items@.len() < limit {
            items@.len()
        } else {
            limit as nat
        },
        forall|i: int| 0 <= i < r.0@.len() ==> cloned(items@[i], #[trigger] r.0@[i]),
        r.1 is Some <==> items@.len() > limit,
        r.1 matches Some(t) ==> t.shown == limit && t.total_matching == items@.len() && t.hint@ == hint@,
{
    let k = if items.len() < limit {
        items.len()
    } else {
        limit
    };
    let mut shown: Vec<T> = Vec::new();
    let mut i: usize = 0;
    while i < k
        invariant
            k <= items@.len(),
            i <= k,
            shown@.len() == i,
            forall|j: int| 0 <= j < i ==> cloned(items@[j], #[trigger] shown@[j]),
        decreases k - i,
    {
        shown.push(items[i].clone());
        i = i + 1;
    }
    let truncated = if items.len() > limit {
        Some(plain(limit, items.len(), hint))
    } else {
        None
    };
    (shown, truncated)
}

/// Whether a finding is counted under directory `k`, spelled so the directory tally is a tally
/// over one key per finding: `k` when it is, a longer text when not.
pub open spec fn dir_mark(k: Seq<char>) -> spec_fn(Finding) -> Seq<char> {
    |f: Finding|
        match placed_file(f) {
            Some(p) => if super::by_directory::bucket_of(p) == k {
                k
            } else {
                k.push('/')
            },
            None => k.push('/'),
        }
}

/// Whether a finding has a place, as one of two texts.
pub open spec fn place_mark(f: Finding) -> Seq<char> {
    if placed_file(f) is Some {
        seq!['p']
    } else {
        seq!['u']
    }
}

proof fn lemma_dir_tally(fs: Seq<Finding>, k: Seq<char>)
    ensures
        tally(dir_keys(fs), k) == tally(fs.map_values(dir_mark(k)), k),
        dir_keys(fs).len() == tally(fs.map_values(|f: Finding| place_mark(f)), seq!['p']),
    decreases fs.len(),
{
    if fs.len() > 0 {
        lemma_dir_tally(fs.drop_last(), k);
        assert(fs.map_values(dir_mark(k)).drop_last() =~= fs.drop_last().map_values(dir_mark(k)));
        assert(fs.map_values(|f: Finding| place_mark(f)).drop_last() =~= fs.drop_last().map_values(|f: Finding| place_mark(f)));
        assert(k.push('/').len() != k.len());
        assert(seq!['u'] != seq!['p']) by {
            assert(seq!['u'][0] != seq!['p'][0]);
        }
        match placed_file(fs.last()) {
            Some(p) => {
                super::census::lemma_tally_push(dir_keys(fs.drop_last()), super::by_directory::bucket_of(p), k);
            },
            None => {},
        }
    } else {
        assert(fs.map_values(dir_mark(k)) =~= Seq::<Seq<char>>::empty());
        assert(fs.map_values(|f: Finding| place_mark(f)) =~= Seq::<Seq<char>>::empty());
    }
}

/// Whether a finding falls in a directory of `rows`, as one of two texts.
pub open spec fn in_mark(rows: Seq<DirCount>) -> spec_fn(Finding) -> Seq<char> {
    |f: Finding|
        match placed_file(f) {
            Some(p) => if in_rows(rows, super::by_directory::bucket_of(p)) {
                seq!['y']
            } else {
                seq!['n']
            },
            None => seq!['n'],
        }
}

proof fn lemma_count_in_marks(fs: Seq<Finding>, rows: Seq<DirCount>)
    ensures
        count_in(dir_keys(fs), rows) == tally(fs.map_values(in_mark(rows)), seq!['y']),
    decreases fs.len(),
{
    assert(seq!['y'] != seq!['n']) by {
        assert(seq!['y'][0] != seq!['n'][0]);
    }
    if fs.len() > 0 {
        lemma_count_in_marks(fs.drop_last(), rows);
        assert(fs.map_values(in_mark(rows)).drop_last() =~= fs.drop_last().map_values(in_mark(rows)));
        let keys = dir_keys(fs);
        match placed_file(fs.last()) {
            Some(p) => {
                assert(keys.drop_last() == dir_keys(fs.drop_last()));
            },
            None => {},
        }
    } else {
        assert(fs.map_values(in_mark(rows)) =~= Seq::<Seq<char>>::empty());
    }
}

proof fn lemma_count_in_same(keys: Seq<Seq<char>>, r1: Seq<DirCount>, r2: Seq<DirCount>)
    requires
        forall|k: Seq<char>| in_rows(r1, k) == in_rows(r2, k),
    ensures
        count_in(keys, r1) == count_in(keys, r2),
    decreases keys.len(),
{
    if keys.len() > 0 {
        lemma_count_in_same(keys.drop_last(), r1, r2);
        assert(in_rows(r1, keys.last()) == in_rows(r2, keys.last()));
    }
}

/// What `byDirectory` shows, by value: each row's directory, count and share, the basis and the
/// legend.
pub open spec fn dir_view(o: Option<ByDirectory>) -> Option<(Seq<(Seq<char>, usize, usize)>, Seq<char>, Seq<char>)> {
    match o {
        Some(b) => Some(
            (b.directories@.map_values(|d: super::by_directory::DirShare| (d.dir@, d.findings, d.share_tenths)), b.basis@, b.meaning@),
        ),
        None => None,
    }
}

/// The counts over the full set do not depend on the findings' order: two lists holding the same
/// findings, each as often, get the same `total`, the same `bySeverity` and `byRule` rows, and the
/// same `byDirectory`.
pub proof fn law_counts_ignore_finding_order(
    fs: Seq<Finding>,
    gs: Seq<Finding>,
    filters: FindingFilters,
    bsp: Seq<String>,
    ord1: Seq<usize>,
    ord2: Seq<usize>,
    r1: ShapedFindings,
    r2: ShapedFindings,
)
    requires
        fs.to_multiset() == gs.to_multiset(),
        shaped_is(fs, filters, bsp, ord1, r1),
        shaped_is(gs, filters, bsp, ord2, r2),
    ensures
        r1.total == r2.total,
        r1.by_severity@.len() == r2.by_severity@.len(),
        forall|i: int|
            0 <= i < r1.by_severity@.len() ==> (#[trigger] r1.by_severity@[i]).key@ == r2.by_severity@[i].key@
                && r1.by_severity@[i].count == r2.by_severity@[i].count,
        r1.by_rule@.len() == r2.by_rule@.len(),
        forall|i: int|
            0 <= i < r1.by_rule@.len() ==> (#[trigger] r1.by_rule@[i]).key@ == r2.by_rule@[i].key@ && r1.by_rule@[i].count
                == r2.by_rule@[i].count,
        forall|k: Seq<char>| tally(dir_keys(fs), k) == tally(dir_keys(gs), k),
        dir_keys(fs).len() == dir_keys(gs).len(),
        dir_view(r1.by_directory) == dir_view(r2.by_directory),
{
    broadcast use vstd::seq_lib::group_to_multiset_ensures;

    assert(fs.len() == gs.len()) by {
        vstd::seq_lib::to_multiset_len(fs);
        vstd::seq_lib::to_multiset_len(gs);
    }
    let sf = |f: Finding| sev_text(f);
    let rf = |f: Finding| text_or_empty(f.rule_id);
    assert(sev_keys(fs) =~= fs.map_values(sf));
    assert(sev_keys(gs) =~= gs.map_values(sf));
    assert(rule_keys(fs) =~= fs.map_values(rf));
    assert(rule_keys(gs) =~= gs.map_values(rf));
    assert forall|k: Seq<char>| tally(sev_keys(fs), k) == tally(sev_keys(gs), k) by {
        lemma_tally_permutation(fs, gs, sf, k);
    }
    assert forall|k: Seq<char>| tally(rule_keys(fs), k) == tally(rule_keys(gs), k) by {
        lemma_tally_permutation(fs, gs, rf, k);
    }
    law_census_follows_tallies(sev_keys(fs), sev_keys(gs), r1.by_severity@, r2.by_severity@);
    law_census_follows_tallies(rule_keys(fs), rule_keys(gs), r1.by_rule@, r2.by_rule@);
    assert forall|k: Seq<char>| tally(dir_keys(fs), k) == tally(dir_keys(gs), k) by {
        lemma_dir_tally(fs, k);
        lemma_dir_tally(gs, k);
        lemma_tally_permutation(fs, gs, dir_mark(k), k);
    }
    lemma_dir_tally(fs, seq![]);
    lemma_dir_tally(gs, seq![]);
    lemma_tally_permutation(fs, gs, |f: Finding| place_mark(f), seq!['p']);
    let ka = dir_keys(fs);
    let kb = dir_keys(gs);
    let ra = choose|ranked: Seq<DirCount>| is_dir_ranking(ka, ranked) && #[trigger] by_directory_is(fs, ranked, r1.by_directory);
    let rb = choose|ranked: Seq<DirCount>| is_dir_ranking(kb, ranked) && #[trigger] by_directory_is(gs, ranked, r2.by_directory);
    law_dir_ranking_follows_tallies(ka, kb, ra, rb);
    assert(ra.len() == rb.len()) by {
        assert(rank_keys(ra).len() == rank_keys(rb).len());
    }
    assert forall|i: int| 0 <= i < ra.len() implies (#[trigger] ra[i]).dir@ == rb[i].dir@ && ra[i].findings == rb[i].findings by {
        assert(rank_keys(ra)[i] == rank_keys(rb)[i]);
    }
    let shown = if ra.len() < super::by_directory::MAX_ROWS {
        ra.len()
    } else {
        super::by_directory::MAX_ROWS as nat
    };
    let ta = ra.take(shown as int);
    let tb = rb.take(shown as int);
    assert forall|k: Seq<char>| in_rows(ta, k) == in_rows(tb, k) by {
        if in_rows(ta, k) {
            let i = choose|i: int| 0 <= i < ta.len() && (#[trigger] ta[i]).dir@ == k;
            assert(tb[i].dir@ == k);
        }
        if in_rows(tb, k) {
            let i = choose|i: int| 0 <= i < tb.len() && (#[trigger] tb[i]).dir@ == k;
            assert(ta[i].dir@ == k);
        }
    }
    lemma_count_in_same(kb, ta, tb);
    lemma_count_in_marks(fs, ta);
    lemma_count_in_marks(gs, ta);
    lemma_tally_permutation(fs, gs, in_mark(ta), seq!['y']);
    assert(count_in(ka, ta) == count_in(kb, tb));
    match (r1.by_directory, r2.by_directory) {
        (Some(b1), Some(b2)) => {
            let v1 = b1.directories@.map_values(|d: super::by_directory::DirShare| (d.dir@, d.findings, d.share_tenths));
            let v2 = b2.directories@.map_values(|d: super::by_directory::DirShare| (d.dir@, d.findings, d.share_tenths));
            assert forall|i: int| 0 <= i < v1.len() implies v1[i] == v2[i] by {
                assert(ra[i].dir@ == rb[i].dir@ && ra[i].findings == rb[i].findings);
            }
            assert(v1 =~= v2);
        },
        _ => {},
    }
}


/// The shown window is determined: two shapings of one findings list under the same filters and
/// build-surface paths show the same findings in the same order, each with the same message,
/// `messageRef`, `templateParts` and by-id marker, beside the same `ruleMessages` and
/// `ruleMessageTemplates` tables and the same by-id flag.
pub proof fn law_shown_window_is_determined(
    fs: Seq<Finding>,
    filters: FindingFilters,
    bsp: Seq<String>,
    ord1: Seq<usize>,
    out1: ShapedFindings,
    ord2: Seq<usize>,
    out2: ShapedFindings,
)
    requires
        is_window_order(fs, bsp, min_rank_of(filters), filters.rule, ord1),
        shaped_is(fs, filters, bsp, ord1, out1),
        is_window_order(fs, bsp, min_rank_of(filters), filters.rule, ord2),
        shaped_is(fs, filters, bsp, ord2, out2),
    ensures
        out1.shown@.len() == out2.shown@.len(),
        forall|q: int|
            0 <= q < out1.shown@.len() ==> (#[trigger] out1.shown@[q]).index == out2.shown@[q].index && ov(
                out1.shown@[q].message,
            ) == ov(out2.shown@[q].message) && ov(out1.shown@[q].message_ref) == ov(out2.shown@[q].message_ref)
                && ovs(out1.shown@[q].template_parts) == ovs(out2.shown@[q].template_parts)
                && out1.shown@[q].message_by == out2.shown@[q].message_by,
        messages_view(out1.rule_messages) == messages_view(out2.rule_messages),
        table_view(out1.rule_message_templates) == table_view(out2.rule_message_templates),
        out1.message_by_id == out2.message_by_id,
{
    law_window_order_is_unique(fs, bsp, min_rank_of(filters), filters.rule, ord1, ord2);
    let limit = limit_of(filters);
    let k = if ord1.len() < limit {
        ord1.len()
    } else {
        limit as nat
    };
    let (rows_1, f_1) = choose|rows_1: Seq<ProseIn>, f_1: Folded|
        {
            &&& rows_1.len() == k
            &&& forall|q: int| 0 <= q < k ==> prose_row_of(fs[ord1[q] as int], #[trigger] rows_1[q])
            &&& fold_is(rows_1, f_1)
            &&& out1.shown@.len() == k
            &&& out1.rule_messages == f_1.messages
            &&& out1.rule_message_templates == f_1.templates
            &&& out1.message_by_id == f_1.by_id
            &&& forall|q: int|
                0 <= q < k ==> (#[trigger] out1.shown@[q]).index == ord1[q] && ov(out1.shown@[q].message) == ov(
                    f_1.rows@[q].message,
                ) && ov(out1.shown@[q].message_ref) == ov(f_1.rows@[q].message_ref)
                    && super::rule_prose::ovs(out1.shown@[q].template_parts) == super::rule_prose::ovs(
                    f_1.rows@[q].template_parts,
                ) && out1.shown@[q].message_by == f_1.rows@[q].message_by
        };
    let (rows_2, f_2) = choose|rows_2: Seq<ProseIn>, f_2: Folded|
        {
            &&& rows_2.len() == k
            &&& forall|q: int| 0 <= q < k ==> prose_row_of(fs[ord2[q] as int], #[trigger] rows_2[q])
            &&& fold_is(rows_2, f_2)
            &&& out2.shown@.len() == k
            &&& out2.rule_messages == f_2.messages
            &&& out2.rule_message_templates == f_2.templates
            &&& out2.message_by_id == f_2.by_id
            &&& forall|q: int|
                0 <= q < k ==> (#[trigger] out2.shown@[q]).index == ord2[q] && ov(out2.shown@[q].message) == ov(
                    f_2.rows@[q].message,
                ) && ov(out2.shown@[q].message_ref) == ov(f_2.rows@[q].message_ref)
                    && super::rule_prose::ovs(out2.shown@[q].template_parts) == super::rule_prose::ovs(
                    f_2.rows@[q].template_parts,
                ) && out2.shown@[q].message_by == f_2.rows@[q].message_by
        };
    assert(rows_agree(rows_1, rows_2)) by {
        assert forall|q: int| 0 <= q < rows_1.len() implies ov((#[trigger] rows_1[q]).rule_id) == ov(rows_2[q].rule_id)
            && ov(rows_1[q].message) == ov(rows_2[q].message) && ov(rows_1[q].verbatim) == ov(rows_2[q].verbatim) by {
            assert(prose_row_of(fs[ord1[q] as int], rows_1[q]));
            assert(prose_row_of(fs[ord2[q] as int], rows_2[q]));
        }
    }
    law_fold_is_determined(rows_1, rows_2, f_1, f_2);
    assert forall|q: int| 0 <= q < out1.shown@.len() implies (#[trigger] out1.shown@[q]).index == out2.shown@[q].index && ov(
        out1.shown@[q].message,
    ) == ov(out2.shown@[q].message) && ov(out1.shown@[q].message_ref) == ov(out2.shown@[q].message_ref)
        && ovs(out1.shown@[q].template_parts) == ovs(out2.shown@[q].template_parts)
        && out1.shown@[q].message_by == out2.shown@[q].message_by by {
        assert(ov(f_1.rows@[q].message) == ov(f_2.rows@[q].message));
        assert(out2.shown@[q].index == ord2[q]);
    }
}


/// A census by value.
pub open spec fn census_view(v: Seq<KeyCount>) -> Seq<(Seq<char>, usize)> {
    v.map_values(|c: KeyCount| (c.key@, c.count))
}

/// A count disclosure by value.
pub open spec fn count_view(o: Option<CountDisclosure>) -> Option<(usize, Seq<char>)> {
    match o {
        Some(d) => Some((d.count, d.meaning@)),
        None => None,
    }
}

/// The filtered disclosure by value.
pub open spec fn filtered_view(o: Option<FilteredDisclosure>) -> Option<(Option<Seq<char>>, Option<Seq<char>>, usize, Seq<char>)> {
    match o {
        Some(d) => Some((ov(d.severity), ov(d.rule), d.elided, d.meaning@)),
        None => None,
    }
}

/// The truncation disclosure by value.
pub open spec fn truncated_view(o: Option<FindingsTruncation>) -> Option<
    (usize, usize, Seq<char>, Seq<(Seq<char>, usize, usize, Seq<usize>)>, Seq<char>),
> {
    match o {
        Some(t) => Some(truncation_view(t)),
        None => None,
    }
}

/// The shown rows by value.
pub open spec fn shown_view(v: Seq<ShownFinding>) -> Seq<(usize, Option<Seq<char>>, Option<Seq<char>>, Option<Seq<Seq<char>>>, bool)> {
    v.map_values(|f: ShownFinding| (f.index, ov(f.message), ov(f.message_ref), ovs(f.template_parts), f.message_by))
}

proof fn lemma_census_text_agrees(a: Seq<KeyCount>, b: Seq<KeyCount>)
    requires
        census_view(a) == census_view(b),
    ensures
        census_list_text(a) == census_list_text(b),
    decreases a.len(),
{
    assert(a.len() == census_view(a).len() && b.len() == census_view(b).len());
    if a.len() > 0 {
        assert(census_view(a)[0] == census_view(b)[0]);
        assert(census_view(a)[a.len() - 1] == census_view(b)[b.len() - 1]);
    }
    if a.len() > 1 {
        assert(census_view(a.drop_last()) =~= census_view(b.drop_last())) by {
            assert forall|i: int| 0 <= i < a.len() - 1 implies census_view(a.drop_last())[i] == census_view(b.drop_last())[i] by {
                assert(census_view(a)[i] == census_view(b)[i]);
            }
        }
        lemma_census_text_agrees(a.drop_last(), b.drop_last());
    }
}

/// The shaped block is determined by its arguments: two shapings of one findings list under the
/// same filters and build-surface paths agree on every field, byte for byte once serialized —
/// counts, censuses, shown rows and their fold, both fold tables, disclosures and the note.
pub proof fn law_shape_findings_is_determined(
    fs: Seq<Finding>,
    filters: FindingFilters,
    bsp: Seq<String>,
    ord1: Seq<usize>,
    r1: ShapedFindings,
    ord2: Seq<usize>,
    r2: ShapedFindings,
)
    requires
        is_window_order(fs, bsp, min_rank_of(filters), filters.rule, ord1),
        shaped_is(fs, filters, bsp, ord1, r1),
        is_window_order(fs, bsp, min_rank_of(filters), filters.rule, ord2),
        shaped_is(fs, filters, bsp, ord2, r2),
    ensures
        r1.total == r2.total,
        census_view(r1.by_severity@) == census_view(r2.by_severity@),
        census_view(r1.by_rule@) == census_view(r2.by_rule@),
        r1.by_rule_meaning@ == r2.by_rule_meaning@,
        shown_view(r1.shown@) == shown_view(r2.shown@),
        r1.shown_meaning@ == r2.shown_meaning@,
        messages_view(r1.rule_messages) == messages_view(r2.rule_messages),
        table_view(r1.rule_message_templates) == table_view(r2.rule_message_templates),
        r1.message_by_id == r2.message_by_id,
        dir_view(r1.by_directory) == dir_view(r2.by_directory),
        count_view(r1.test_paths) == count_view(r2.test_paths),
        count_view(r1.build_paths) == count_view(r2.build_paths),
        filtered_view(r1.filtered) == filtered_view(r2.filtered),
        truncated_view(r1.truncated) == truncated_view(r2.truncated),
        ov(r1.note) == ov(r2.note),
{
    law_window_order_is_unique(fs, bsp, min_rank_of(filters), filters.rule, ord1, ord2);
    law_counts_ignore_finding_order(fs, fs, filters, bsp, ord1, ord2, r1, r2);
    law_shown_window_is_determined(fs, filters, bsp, ord1, r1, ord2, r2);
    assert(census_view(r1.by_severity@) =~= census_view(r2.by_severity@)) by {
        assert forall|i: int| 0 <= i < r1.by_severity@.len() implies census_view(r1.by_severity@)[i] == census_view(r2.by_severity@)[i] by {
            assert(r1.by_severity@[i].key@ == r2.by_severity@[i].key@);
        }
    }
    assert(census_view(r1.by_rule@) =~= census_view(r2.by_rule@)) by {
        assert forall|i: int| 0 <= i < r1.by_rule@.len() implies census_view(r1.by_rule@)[i] == census_view(r2.by_rule@)[i] by {
            assert(r1.by_rule@[i].key@ == r2.by_rule@[i].key@);
        }
    }
    assert(shown_view(r1.shown@) =~= shown_view(r2.shown@)) by {
        assert forall|q: int| 0 <= q < r1.shown@.len() implies shown_view(r1.shown@)[q] == shown_view(r2.shown@)[q] by {
            assert(r1.shown@[q].index == r2.shown@[q].index);
        }
    }
    if r1.truncated is Some {
        law_truncation_is_determined(fs, ord1, limit_of(filters), r1.truncated->0, r2.truncated->0);
    }
    lemma_census_text_agrees(r1.by_severity@, r2.by_severity@);
    assert(r1.by_severity@.len() == r2.by_severity@.len());
}

} // verus!
