//! The reply legends: the full run-invariant texts that ship once in the reply-legends contract
//! document, and the short notes that stay on the wire in their place, each ending on the pointer to
//! that document.
use vstd::prelude::*;

use crate::text::{dec, owned, push_str, push_usize, str_eq};

verus! {

/// The clause a folded string legend ends with: where the full text lives, in both host dialects.
pub const INLINE_POINTER: &'static str = "This vocabulary is identical on every run, so its full text ships once rather than on every call: read it under this key's own heading in the reply-legends document — MCP resource `zzop://contract/reply-legends` on MCP hosts (`zzop contract reply-legends` with the CLI binary).";

/// The legend beside every `byRule` map: it counts findings, not places.
pub const BY_RULE_MEANING: &'static str = "Counts FINDINGS, not places — and how far those two diverge is a property of the RULE, so this map is comparable WITHIN one rule (across runs) and NOT across rules within one run. A method-scan rule emits ONE finding per method body however many qualifying lines that body holds; a rule that reports a cycle, a duplicated route key or an N-source collision emits ONE finding for the whole group. Every folding finding declares its own cardinality: the other FILES it names ride its `evidencePaths`, and the group's size rides its `data` (a line count, a cycle, a site list — the shape is the matcher's). Measured on a nine-repo corpus, one rule's 26 findings stood for 719 files while another's 2,077 stood for 2,077 places — a 27x difference between two numbers in this same column. So read an entry as \"how many times this rule had something to say\", never as \"how many places are affected\"; for the second question read the findings themselves. Counts here are over the FULL set even when `shown` is capped.";

/// The full legend for `shown`: an order, never a ranking.
pub const SHOWN_MEANING: &'static str = "`shown` is an ORDER, and the thing it is NOT is a ranking. Five keys decide the sequence, and every one of them is shaping only: this ORDER drops nothing, no count moves, and the `total` / `bySeverity` / `byRule` beside it are over the FULL set rather than over this window. What CAN narrow the window is not the order, and each of the two ways announces itself in its own key: the list cap writes `truncated`, and a `severity`/`rule` filter you passed writes `filtered` with what it removed. Neither is present when it did not act, so their absence is the statement that this window is the whole matching set.\n\nTHE KEYS, outermost first. (1) DEPLOYMENT ROLE, descending — code that ships, then test paths, then build and release surface. This key demotes, so it announces itself: `testPaths` and `buildPaths` ride the same reply with their own counts and sentences whenever they have something to say, because a demotion nobody is told about is a silent filter. (2) SEVERITY, descending, inside a role. (3) SITE — how many findings, of ANY rule, already pointed at this exact file and line; every distinct site takes a slot before any site takes a second. (4) RULE-IN-FILE — the same question one step coarser: every rule-and-file pair before any pair takes a second. (5) RULE — every rule's Nth finding before any rule's N+1th. Ties fall back on the engine's own order, which is itself severity, then file, then line, then rule id, so two runs over one tree produce the same bytes.\n\nWHY THREE OF THE FIVE ARE DIVERSITY RATHER THAN RANK. Keys 3 to 5 demote nothing and rank nothing — they interleave. They exist because a forty-row window was opened row by row against the source on real projects and found to hold fewer than forty pieces of information: one configuration file's dictionary took three rows, one lock file's package name took two, one deliberately mirrored route took three. Interleaving is what makes the fortieth row worth reading. It is not a claim that the first row matters more than the fortieth.\n\nWHAT THIS ORDER DOES NOT CLAIM, stated here rather than left to be worked out. It does not say the first row is likelier to be a real defect than the last, or worth more of your time. Nothing in this engine scores a finding by how likely it is to be true — a per-finding confidence number is a deliberate and permanent absence, because a number a caller can threshold on promises a calibration nothing here backs. Inside one severity band the sequence is a spread across distinct places and rules, and after that it is the letters in a file path. A rule that is right about your tree every time and a rule that is wrong every time reach this window on the same terms. The one lever that does move a rule up or down is its SEVERITY, which the rule catalog declares and your configuration can override; the ordering holds no second opinion about it.\n\nSo read `shown` as: a deterministic spread across this band's places and rules. Never as: the N worst things in this tree.";

/// The full legend for `byDirectory`: a distribution and nothing else.
pub const BY_DIRECTORY_MEANING: &'static str = "`byDirectory` folds every finding to the FIRST segment of its file path and counts them. It is a DISTRIBUTION and it is nothing else: no row here says a directory is noise, and no row says it is product code.\n\nTHAT REFUSAL IS A MEASUREMENT rather than modesty. Four public trees were folded this way on 2026-09-11 and the concentration is real in every one of them, but the top segment means the OPPOSITE thing in different trees. In `fastapi` 94.7% of 511 findings sit under `docs_src/`, which is documentation, while the shipped package `fastapi/` holds two of them. In `express` 96.4% of 56 sit under `examples/`. Against that, `typeorm` puts 58.1% of 43 under `src/` and `astro` 82.0% of 111 under `packages/`, and both of those ARE the product. A channel that guessed which kind it was looking at would be wrong on half of that table, and wrong in the direction that erases, because a reader told a directory is noise stops opening it. So this one reports the share and stops.\n\nWHAT TO DO WITH A ROW YOU DECIDE IS NOISE, and why the two config keys are not interchangeable. Top-level `exclude` is a REPORT filter: a matching path is still walked, still parsed and still in the dependency graph, and only what is REPORTED about it is dropped. `vocabulary.skipDirs` is the WALKER's skip list: a matching directory is never read at all, so it leaves the graph as well as the findings, and the `coverage` and `coverageGaps` channels of this same reply will answer differently afterwards. Reach for `exclude` when the directory holds real code you do not want judged today. Reach for `skipDirs` when it holds vendored or generated bytes nobody should be reading. Neither edit makes the findings it hides false.\n\nTHE COUNTS ARE OVER THE FULL SET, exactly like the `total` and `bySeverity` and `byRule` beside them: never over the `shown` window, and never narrowed by a `severity` or `rule` or `limit` argument. `sharePct` is a row's count against the findings this fold could place, to one decimal. A finding whose path has no directory is counted under `(root)`, and one carrying no path at all is outside the fold and is counted in `basis` instead. A row is keyed by the segment NAME, so on a reply that straddles trees — `crossLayerFindings`, whose findings are joined across two or more of them — two trees' `src/` arrive as ONE row, and a row there names a path shape rather than a directory.\n\nTHE ROWS ARE A SHORTLIST — the largest few by count, ties broken by name so two runs over one tree produce the same bytes. `basis` names how many directories were crossed and how much of the tree these rows cover, so a short list is never a claim that the rest is empty, and an empty one says the fold ran and had nothing to place rather than that nobody asked.";

/// The full legend for `architecture.topRecommendation`.
pub const TOP_RECOMMENDATION_MEANING: &'static str = "`topRecommendation.severity` is a RECOMMENDATION PRIORITY BAND, not a finding severity, and the two are computed from different things: this band comes from the ROI ranker's structural rules (import cycles, fat fan-out, churn-per-LOC, hidden coupling), which read no rule findings. So a `critical` here is routine on a tree whose `findings.bySeverity` holds no critical at all, and `topItem` names a FILE that may have zero findings of its own — read `findings.bySeverity` for the finding census and `findings.shown` for what fired where; neither is summarized by this field. The one place the two vocabularies touch: a recommendation whose file also carries a CRITICAL rule finding is escalated into the `urgent-bug-risk` group, so `id: \"urgent-bug-risk\"` is the only band value that implies a finding exists. `id` names a RECOMMENDATION KIND, and `idMeaning` beside it says what THAT kind means — so nothing here has to be looked up, and a kind added in a later version arrives explaining itself. The set is not frozen: read `idMeaning`, never a hard-coded list of spellings. SOME OF THOSE SPELLINGS ARE ALSO RULE IDS, which is the second place these two vocabularies look alike without being the same. `circular` is one. Turning that RULE off with `rules` / `disabledRules` removes its FINDINGS and leaves this recommendation standing, because the ranker never read those findings to begin with: a reply can carry `findings.total: 0` beside a `critical` recommendation naming a specific file, and that is the two lanes agreeing rather than the reply contradicting itself. To silence this lane, disable `recommendations`. Population caveat: same as `criticalTop`'s — test files are not excluded, so a test module can be the `topItem`.";

/// The full legend for `architecture.criticalTop`.
pub const CRITICAL_TOP_MEANING: &'static str = "Up to 3 paths from the SIZE-WEIGHTED critical list (blast_radius * ln(loc+2)). The population is EVERY analyzed file: test files are NOT excluded, so a test module can and does appear here even though nothing depends on it at runtime. Read a slot as \"this file has the widest structural reach in the tree as analyzed\", then check whether it is test code before treating it as a refactor target. This holds in EVERY run, including one whose `pain` excluded them: `scores.excludeTestFilesFromFileMetrics` narrows the structural SCORES, and this list is not a score — it is computed outside that subsystem and that key does not reach it. Read painMeaning's POPULATION clause for what that run's pain counted; the two can legitimately disagree, and on a real tree they do. The same caveat applies to `topRecommendation`, which ranks over the same population. Blast radius is the TIE-BREAK, not the key: a 400-line core outranks a 5-line re-export barrel of equal blast, so re-sorting `critical` by `blastRadius` alone does NOT reproduce these three. This is also NOT the churn hotspot ranking — that is a different list, and the `rule-catalog` contract document's criticality entry owns it.";

/// The full legend for the module map.
pub const MODULE_MAP_MEANING: &'static str = "The import graph of this run, collapsed so that one MODULE is the first `fold` segments of a file path. This is a TOPOLOGY, never a verdict; no row says a module is badly placed, and the map carries no severity, no score and no ranking.\n\nREAD THE TWO EDGE NUMBERS AS A PAIR, because they count different populations and the smaller one is not a subset failure. `edges[]` holds only edges BETWEEN modules — an import from one file to another inside the SAME module is what a module IS, not a relation between modules, so it is dropped here. `census.fileImports` counts ALL file-level imports between analyzed files, the dropped ones included. Measured on this engine's own tree at `fold` 1 on 2026-09-15, those two were 310 and 3322 — illustrative of the RATIO rather than a pinned constant, since both move with the repo. The difference is not loss; it is the imports that stayed inside a module. `edges[].fileEdges` is how many file-level imports collapsed into that one module edge, so a thick edge is many files agreeing rather than one strong dependency.\n\n`modules[].lines` is a SUM over the module's files, and it never ships alone: `linesMeasuredOver` says how many of the module's `files` that sum covers. When they differ, the rest were named as import TARGETS without being analyzed, so the sum is over part of the module. When nothing in the module was measured, both keys are ABSENT rather than written as `0` — an unmeasured module and an empty one are different facts and must not share bytes.\n\n`inCycle` marks a module holding at least one file that sits in an import cycle. The cycle may be entirely INSIDE the module, which is not the same defect as a cycle between modules, and this field does not tell them apart; `census.fileCycles` counts the cycles themselves. `census.unfoldableModules` counts modules that are a single file shallower than `fold` — real rows that could not be folded further, not rows that were lost.\n\nNOTHING IS CAPPED. Every module and every edge at this depth is present, because a map with rows missing is not a map, and no argument can remove one. If the result is too large to read, raise `fold`: that makes the boxes bigger rather than hiding some of them, and it is the only knob this answer has.";

/// The wire note of by_rule_note before its pointer clause.
pub const BY_RULE_NOTE_HEAD: &'static str = "Counts FINDINGS, not places — and how far those two diverge is a property of the RULE, so this map is comparable WITHIN one rule (across runs) and NOT across rules within one run: on a nine-repo corpus one rule's 26 findings stood for 719 files while another's 2,077 stood for 2,077 places. Every folding finding declares its own cardinality in `evidencePaths` and `data`. So read an entry as \"how many times this rule had something to say\", never as \"how many places are affected\". Counts here are over the FULL set even when `shown` is capped. ";

/// The text of `findings.byRuleMeaning`, folded: the caveat before the instruction.
pub open spec fn by_rule_note_text() -> Seq<char> {
    BY_RULE_NOTE_HEAD@ + INLINE_POINTER@
}

/// `findings.byRuleMeaning`, folded: the caveat before the instruction.
pub fn by_rule_note() -> (r: String)
    ensures
        r@ == by_rule_note_text(),
{
    let mut s = owned(BY_RULE_NOTE_HEAD);
    push_str(&mut s, INLINE_POINTER);
    s
}

/// The wire note of shown_note before its pointer clause.
pub const SHOWN_NOTE_HEAD: &'static str = "An ORDER, not a RANKING — the caveat first, because it is the one that changes what a reader does with row 1. Deployment role descending (its two demoted tiers disclose themselves in this same reply, as `testPaths` and `buildPaths`), then severity descending, then THREE keys that INTERLEAVE rather than rank: distinct file-and-line first, then distinct rule-and-file, then rule round-robin — with the engine's own severity/file/line/rule-id order as the deterministic tiebreak. Shaping only — this ORDER drops nothing, and every count beside `shown` is over the full set. Two other things can narrow the window, and each says so in its own key when it does: `truncated` (the list cap) and `filtered` (a `severity`/`rule` filter YOU passed). It carries NO claim that row 1 is likelier to be a real defect than row 40 — no per-finding confidence exists here, by design — so inside one severity band the sequence is coverage of distinct places and rules, and after that the letters in a file path. ";

/// The text of `findings.shownMeaning`, folded: an order, not a ranking, caveat first.
pub open spec fn shown_note_text() -> Seq<char> {
    SHOWN_NOTE_HEAD@ + INLINE_POINTER@
}

/// `findings.shownMeaning`, folded: an order, not a ranking, caveat first.
pub fn shown_note() -> (r: String)
    ensures
        r@ == shown_note_text(),
{
    let mut s = owned(SHOWN_NOTE_HEAD);
    push_str(&mut s, INLINE_POINTER);
    s
}

/// The wire note of module_map_note before its pointer clause.
pub const MODULE_MAP_NOTE_HEAD: &'static str = "A TOPOLOGY, never a verdict; no row says a module is badly placed, and there is no severity, no score and no ranking here. READ THE TWO EDGE NUMBERS AS A PAIR — `edges[]` holds only edges BETWEEN modules, while `census.fileImports` counts ALL file-level imports including the ones that stayed inside one module, so the smaller number is not a subset failure. `modules[].lines` is a SUM and never ships without `linesMeasuredOver`, which says over how many of the row's `files` it was taken; when nothing in a module was measured BOTH keys are absent rather than `0`. NOTHING IS CAPPED — every module and edge at this `fold` is present, and if the answer is too large the knob is a higher `fold`, which makes the boxes bigger rather than hiding some. ";

/// The text of `module_map.meaning`, folded: the four readings a map reader gets wrong.
pub open spec fn module_map_note_text() -> Seq<char> {
    MODULE_MAP_NOTE_HEAD@ + INLINE_POINTER@
}

/// `module_map.meaning`, folded: the four readings a map reader gets wrong.
pub fn module_map_note() -> (r: String)
    ensures
        r@ == module_map_note_text(),
{
    let mut s = owned(MODULE_MAP_NOTE_HEAD);
    push_str(&mut s, INLINE_POINTER);
    s
}

/// The wire note of top_recommendation_note before its pointer clause.
pub const TOP_RECOMMENDATION_NOTE_HEAD: &'static str = "`topRecommendation.severity` is a RECOMMENDATION PRIORITY BAND, not a finding severity: it comes from the ROI ranker's structural rules and reads NO rule findings. So a `critical` here is routine on a tree whose `findings.bySeverity` holds no critical at all, and `topItem` can name a file with zero findings of its own — that is the two lanes agreeing, not the reply contradicting itself. Turning a RULE off does not silence this lane, even where a rule id and a recommendation id are spelled the same (`circular` is one); to silence it, disable `recommendations`. `id` names a recommendation KIND and `idMeaning` ships beside it saying what that kind means, so read that rather than any hard-coded list of spellings. ";

/// The text of `architecture.topRecommendationMeaning`, folded.
pub open spec fn top_recommendation_note_text() -> Seq<char> {
    TOP_RECOMMENDATION_NOTE_HEAD@ + INLINE_POINTER@
}

/// `architecture.topRecommendationMeaning`, folded.
pub fn top_recommendation_note() -> (r: String)
    ensures
        r@ == top_recommendation_note_text(),
{
    let mut s = owned(TOP_RECOMMENDATION_NOTE_HEAD);
    push_str(&mut s, INLINE_POINTER);
    s
}

/// The wire note of critical_top_note before its pointer clause.
pub const CRITICAL_TOP_NOTE_HEAD: &'static str = "Up to 3 paths from the SIZE-WEIGHTED critical list (blast_radius * ln(loc+2) — blast radius alone does NOT reproduce them). The population is EVERY analyzed file: test files are NOT excluded, so a test module can and does appear here, and a slot reads as \"widest structural reach in the tree as analyzed\" rather than \"refactor this\". This holds in EVERY run, including one whose `pain` excluded them — `scores.excludeTestFilesFromFileMetrics` narrows the structural SCORES and this list is not a score, so the two can legitimately disagree and on a real tree they do. ";

/// The text of `architecture.criticalTopMeaning`, folded.
pub open spec fn critical_top_note_text() -> Seq<char> {
    CRITICAL_TOP_NOTE_HEAD@ + INLINE_POINTER@
}

/// `architecture.criticalTopMeaning`, folded.
pub fn critical_top_note() -> (r: String)
    ensures
        r@ == critical_top_note_text(),
{
    let mut s = owned(CRITICAL_TOP_NOTE_HEAD);
    push_str(&mut s, INLINE_POINTER);
    s
}

/// `nativeAnalysesMeaning`, folded to its object pointer: when an absence is not a measured zero.
pub const NATIVE_ANALYSES_NOTE: &'static str = "What the counts and lists beside `nativeAnalyses` mean, and — the reason this key exists — when an id's ABSENCE from `findings` is NOT a measured zero. Four ways it is not. (1) A `disabled` analysis was NOT evaluated, so its absence means not analyzed, never analyzed-and-clean; to get a verdict from one, stop disabling it. (2) A `shippedOff` analysis was not evaluated either, but by THIS BUILD's default rather than by your config — nothing is removed, and naming it in `rules` with a severity turns it on. (3) A `reportedInCrossLayerFindings` analysis judges the CROSS-TREE JOIN and reports into `crossLayerFindings`, a channel a per-tree reply does not have; to get a verdict from those, run the cross-layer join over these same trees (each surface names its own entry point for it). (4) Two registration classes `registered` names key no `findings` entry under their own id at all — one gates a score computation and emits no finding, the other is an umbrella whose findings arrive under finer `schema/<label>` ids, so look for those. For every OTHER registered analysis in none of the three lists, absence from `findings` IS a measured zero — and that is all it says, never whether the analysis had anything to judge.";

/// `packsLoadedMeaning`, folded to its object pointer: loading is not running.
pub const PACKS_LOADED_NOTE: &'static str = "What each `packsLoaded` row's numbers count, and which of them is not a scan. Loading is not running: a row carrying `didNotRun` loaded but was never evaluated, so ZERO FINDINGS FROM IT MEAN NOT ANALYZED — never analyzed-and-clean. `filesInScope` is path candidacy checked before any file content is read, and its very presence is what says the pack ran. `zeroAdmissionRules` names rules of the pack that read not one byte of this tree, so their zero is scope.";

/// The `byDirectory` wire note up to the row cap it names.
pub const BY_DIRECTORY_NOTE_HEAD: &'static str = "How this tree's findings distribute over the FIRST segment of their file paths — a DISTRIBUTION, never a verdict. A large share is NOT evidence that a directory is noise: folded across four public trees on 2026-09-11 the top segment was documentation in one tree (`fastapi`, 94.7% of 511 under `docs_src/`, with two findings in the shipped package) and the product itself in the next (`typeorm`, 58.1% of 43 under `src/`), so this channel reports the share and refuses to guess which kind yours is. If you decide a directory should stop reporting, the two config keys are not interchangeable: top-level `exclude` drops the FINDINGS and leaves the files walked, parsed and in the dependency graph, while `vocabulary.skipDirs` stops the WALK, so those files leave the graph too and this reply's `coverage` channels change with them. Counts are over the FULL finding set, like the `total` and `byRule` beside them, never over `shown` and never narrowed by a `severity`/`rule`/`limit` argument. The rows are a SHORTLIST of the largest ";

/// The `byDirectory` wire note after the row cap, before its pointer clause.
pub const BY_DIRECTORY_NOTE_TAIL: &'static str = "; `basis` names how many directories were crossed and how much these rows hold, so a short list never means the rest is empty. A finding whose path has no directory is counted under `(root)`, and a row is keyed by NAME, so on a reply that straddles trees two trees' `src/` are ONE row. ";

/// The text of `findings.byDirectory.meaning`, folded, with the shortlist size it names.
pub open spec fn by_directory_note_text() -> Seq<char> {
    BY_DIRECTORY_NOTE_HEAD@ + dec(crate::output::by_directory::MAX_ROWS as nat) + BY_DIRECTORY_NOTE_TAIL@ + INLINE_POINTER@
}

/// `findings.byDirectory.meaning`, folded: the refusal with its evidence, the two config keys and
/// how they differ, the population and the shortlist bar.
pub fn by_directory_note() -> (r: String)
    ensures
        r@ == by_directory_note_text(),
{
    let mut s = owned(BY_DIRECTORY_NOTE_HEAD);
    push_usize(&mut s, crate::output::by_directory::MAX_ROWS);
    push_str(&mut s, BY_DIRECTORY_NOTE_TAIL);
    push_str(&mut s, INLINE_POINTER);
    s
}

/// The `coverageGaps` wire note up to its first share floor.
pub const COVERAGE_GAPS_NOTE_A: &'static str = "Extensions that are a principal filetype of this tree (>=";

/// The `coverageGaps` wire note between its two share floors.
pub const COVERAGE_GAPS_NOTE_B: &'static str = "% of its walked files, or of its structurally projected files for one that parsed) and contribute ZERO resolved import edges. Read a row as a place to look, NEVER as a verdict, and read its `kind` first because the two kinds take different remedies. Kind \"source\": a language this tree is written in that no frontend read. Kind \"data-config\": a structured data or configuration filetype (json/yaml/xml/toml/ini/properties/csv/lock/html) that nobody writes a language parser for, but that DOES routinely declare facts this engine's io channels carry — SQL inside MyBatis .xml mappers, services in a k8s manifest, endpoints in an OpenAPI document. Whether such a row cost you anything depends entirely on what those files hold and THIS BUILD DID NOT READ THEM, so a 900-statement mapper directory and an i18n locales bundle are the same row until you look. A `structural` of 0 has two causes taking opposite remedies: no parser claimed the extension (an adapter overlay is the on-ramp), or a parser claimed the files and bailed on them. Either way these files are absent from the resolved dependency graph every unimported/unreachable-export verdict is computed over, so read those findings as being about the REMAINING files. This list is a SHORTLIST: an empty one means the cross found nothing ABOVE the ";

/// The `coverageGaps` wire note after its second share floor, before its pointer clause.
pub const COVERAGE_GAPS_NOTE_C: &'static str = "% bar, never that nothing was held back. `basis` names what the bar removed — read it before reading this list as an all-clear. ZERO is literal and it is the second gate: one resolved edge drops the whole extension, so PARTIAL loss never shows here. ";

/// The text of `coverageGaps.meaning`, folded, at share floor `floor` percent.
pub open spec fn coverage_gaps_note_text(floor: nat) -> Seq<char> {
    COVERAGE_GAPS_NOTE_A@ + dec(floor) + COVERAGE_GAPS_NOTE_B@ + dec(floor) + COVERAGE_GAPS_NOTE_C@ + INLINE_POINTER@
}

/// `coverageGaps.meaning`, folded. The share floor is the one the extension filter applied, handed
/// in by the host that applied it, so the sentence never quotes a number the filter did not use.
pub fn coverage_gaps_note(floor: usize) -> (r: String)
    ensures
        r@ == coverage_gaps_note_text(floor as nat),
{
    let mut s = owned(COVERAGE_GAPS_NOTE_A);
    push_usize(&mut s, floor);
    push_str(&mut s, COVERAGE_GAPS_NOTE_B);
    push_usize(&mut s, floor);
    push_str(&mut s, COVERAGE_GAPS_NOTE_C);
    push_str(&mut s, INLINE_POINTER);
    s
}

/// The opening of the reply-legends contract document.
pub const CONTRACT_HEADER: &'static str = "# Reply legends\n\nThe run-INVARIANT vocabulary of a shaped zzop reply (analyze-shaped, and since 2026-09-15 the module map too). Every section below is the full text of one reply key; that key still ships on every reply, carrying this run's measurement plus a short note, and points here for the rest.\n\nThese sentences are byte-identical on every run and for every repository, which is why they ship once here instead of on every call. Nothing in this document is about YOUR tree — the numbers, lists and rows they explain are in the reply itself.\n";

/// The note that stays on the wire for the folded legend at reply path `key`; an unknown key gets
/// the bare pointer, which is still true. `floor` is the coverage share floor the one legend that
/// quotes a number needs.
pub open spec fn folded_note_text(key: Seq<char>, floor: nat) -> Seq<char> {
    if key == "coverageGaps.meaning"@ {
        coverage_gaps_note_text(floor)
    } else if key == "module_map.meaning"@ {
        module_map_note_text()
    } else if key == "findings.byRuleMeaning"@ {
        by_rule_note_text()
    } else if key == "findings.shownMeaning"@ {
        shown_note_text()
    } else if key == "findings.byDirectory.meaning"@ {
        by_directory_note_text()
    } else if key == "nativeAnalysesMeaning"@ {
        NATIVE_ANALYSES_NOTE@
    } else if key == "packsLoadedMeaning"@ {
        PACKS_LOADED_NOTE@
    } else if key == "architecture.topRecommendationMeaning"@ {
        top_recommendation_note_text()
    } else if key == "architecture.criticalTopMeaning"@ {
        critical_top_note_text()
    } else {
        INLINE_POINTER@
    }
}

/// The folded value of a legend that ships as a string, looked up by its reply path.
pub fn folded_string(key: &str, floor: usize) -> (r: String)
    ensures
        r@ == folded_note_text(key@, floor as nat),
{
    if str_eq(key, "coverageGaps.meaning") {
        coverage_gaps_note(floor)
    } else if str_eq(key, "module_map.meaning") {
        module_map_note()
    } else if str_eq(key, "findings.byRuleMeaning") {
        by_rule_note()
    } else if str_eq(key, "findings.shownMeaning") {
        shown_note()
    } else if str_eq(key, "findings.byDirectory.meaning") {
        by_directory_note()
    } else if str_eq(key, "nativeAnalysesMeaning") {
        owned(NATIVE_ANALYSES_NOTE)
    } else if str_eq(key, "packsLoadedMeaning") {
        owned(PACKS_LOADED_NOTE)
    } else if str_eq(key, "architecture.topRecommendationMeaning") {
        top_recommendation_note()
    } else if str_eq(key, "architecture.criticalTopMeaning") {
        critical_top_note()
    } else {
        owned(INLINE_POINTER)
    }
}

/// Whether `key` is the reply path of a folded legend.
pub open spec fn is_folded_key(key: Seq<char>) -> bool {
    ||| key == "coverageGaps.meaning"@
    ||| key == "module_map.meaning"@
    ||| key == "findings.byRuleMeaning"@
    ||| key == "findings.shownMeaning"@
    ||| key == "findings.byDirectory.meaning"@
    ||| key == "nativeAnalysesMeaning"@
    ||| key == "packsLoadedMeaning"@
    ||| key == "architecture.topRecommendationMeaning"@
    ||| key == "architecture.criticalTopMeaning"@
}

/// The sentence a folded object's note ends with.
pub const OBJECT_POINTER_TAIL: &'static str = " This vocabulary is identical on every run, so its full text ships once rather than on every call — read it with the command/resource below, under this key's own heading.";

/// Where the reply-legends document is served to an MCP client.
pub const LEGENDS_RESOURCE: &'static str = "zzop://contract/reply-legends";

/// The terminal command that prints the reply-legends document.
pub const LEGENDS_COMMAND: &'static str = "zzop contract reply-legends";

/// The folded value of a legend that ships as an object: its note, saying to read the pointer
/// beside it, and the machine-readable pointer.
pub struct FoldedObject {
    pub note: String,
    pub resource: String,
    pub command: String,
}

/// The note of a folded object legend: the key's own note (none for a key that is not folded) and
/// the pointer sentence.
pub open spec fn object_note_text(key: Seq<char>, floor: nat) -> Seq<char> {
    (if is_folded_key(key) {
        folded_note_text(key, floor)
    } else {
        Seq::empty()
    }) + OBJECT_POINTER_TAIL@
}

/// Whether `key` is the reply path of a folded legend.
fn is_folded(key: &str) -> (r: bool)
    ensures
        r == is_folded_key(key@),
{
    str_eq(key, "coverageGaps.meaning") || str_eq(key, "module_map.meaning") || str_eq(key, "findings.byRuleMeaning")
        || str_eq(key, "findings.shownMeaning") || str_eq(key, "findings.byDirectory.meaning") || str_eq(
        key,
        "nativeAnalysesMeaning",
    ) || str_eq(key, "packsLoadedMeaning") || str_eq(key, "architecture.topRecommendationMeaning") || str_eq(
        key,
        "architecture.criticalTopMeaning",
    )
}

/// The folded value of a legend that ships as a JSON object, looked up by its reply path.
pub fn folded_object(key: &str, floor: usize) -> (r: FoldedObject)
    ensures
        r.note@ == object_note_text(key@, floor as nat),
        r.resource@ == LEGENDS_RESOURCE@,
        r.command@ == LEGENDS_COMMAND@,
{
    let mut note = if is_folded(key) {
        folded_string(key, floor)
    } else {
        String::new()
    };
    push_str(&mut note, OBJECT_POINTER_TAIL);
    FoldedObject { note, resource: owned(LEGENDS_RESOURCE), command: owned(LEGENDS_COMMAND) }
}

/// One section of a legend in the contract document: an unsectioned body, or a `###` sub-heading
/// and its body.
pub open spec fn section_text(sub: Seq<char>, body: Seq<char>) -> Seq<char> {
    if sub.len() == 0 {
        body + "\n"@
    } else {
        "### `"@ + sub + "`\n\n"@ + body + "\n\n"@
    }
}

/// The sections of one legend, in the order given.
pub open spec fn sections_text(secs: Seq<(String, String)>) -> Seq<char>
    decreases secs.len(),
{
    if secs.len() == 0 {
        Seq::empty()
    } else {
        sections_text(secs.drop_last()) + section_text(secs.last().0@, secs.last().1@)
    }
}

/// One legend's `##` heading followed by its body.
pub open spec fn legend_text(key: Seq<char>, body: Seq<char>) -> Seq<char> {
    "\n## `"@ + key + "`\n\n"@ + body
}

/// The whole reply-legends document. The two facade legends arrive as `(sub-key, body)` pairs in
/// their registry's key order, and the coverage legend as its full text.
pub open spec fn contract_document(
    coverage_gaps: Seq<char>,
    native_analyses: Seq<(String, String)>,
    packs_loaded: Seq<(String, String)>,
) -> Seq<char> {
    CONTRACT_HEADER@ + legend_text("coverageGaps.meaning"@, section_text(Seq::empty(), coverage_gaps))
        + legend_text("module_map.meaning"@, section_text(Seq::empty(), MODULE_MAP_MEANING@))
        + legend_text("findings.byRuleMeaning"@, section_text(Seq::empty(), BY_RULE_MEANING@))
        + legend_text("findings.shownMeaning"@, section_text(Seq::empty(), SHOWN_MEANING@))
        + legend_text("findings.byDirectory.meaning"@, section_text(Seq::empty(), BY_DIRECTORY_MEANING@))
        + legend_text("nativeAnalysesMeaning"@, sections_text(native_analyses))
        + legend_text("packsLoadedMeaning"@, sections_text(packs_loaded))
        + legend_text("architecture.topRecommendationMeaning"@, section_text(Seq::empty(), TOP_RECOMMENDATION_MEANING@))
        + legend_text("architecture.criticalTopMeaning"@, section_text(Seq::empty(), CRITICAL_TOP_MEANING@))
}

fn push_heading(out: &mut String, key: &str)
    ensures
        final(out)@ == old(out)@ + "\n## `"@ + key@ + "`\n\n"@,
{
    push_str(out, "\n## `");
    push_str(out, key);
    push_str(out, "`\n\n");
}

fn push_section(out: &mut String, sub: &str, body: &str)
    ensures
        final(out)@ == old(out)@ + section_text(sub@, body@),
{
    if sub.is_empty() {
        push_str(out, body);
        push_str(out, "\n");
    } else {
        push_str(out, "### `");
        push_str(out, sub);
        push_str(out, "`\n\n");
        push_str(out, body);
        push_str(out, "\n\n");
    }
}

fn push_sections(out: &mut String, secs: &Vec<(String, String)>)
    ensures
        final(out)@ == old(out)@ + sections_text(secs@),
{
    let ghost start = out@;
    let mut i: usize = 0;
    while i < secs.len()
        invariant
            i <= secs@.len(),
            out@ == start + sections_text(secs@.take(i as int)),
        decreases secs@.len() - i,
    {
        proof {
            assert(secs@.take(i + 1).drop_last() =~= secs@.take(i as int));
        }
        push_section(out, secs[i].0.as_str(), secs[i].1.as_str());
        i = i + 1;
    }
    proof {
        assert(secs@.take(i as int) =~= secs@);
    }
}

/// The reply-legends contract document: every folded legend's full text, under a heading named by
/// the reply key it belongs to, in the order the fold lists them. The three texts this crate does not
/// own — the coverage legend and the two facade registries — are handed in by the host.
#[verifier::rlimit(40)]
pub fn contract_text(
    coverage_gaps_meaning: &str,
    native_analyses: &Vec<(String, String)>,
    packs_loaded: &Vec<(String, String)>,
) -> (r: String)
    ensures
        r@ == contract_document(coverage_gaps_meaning@, native_analyses@, packs_loaded@),
{
    let mut out = owned(CONTRACT_HEADER);
    push_heading(&mut out, "coverageGaps.meaning");
    push_section(&mut out, "", coverage_gaps_meaning);
    push_heading(&mut out, "module_map.meaning");
    push_section(&mut out, "", MODULE_MAP_MEANING);
    push_heading(&mut out, "findings.byRuleMeaning");
    push_section(&mut out, "", BY_RULE_MEANING);
    push_heading(&mut out, "findings.shownMeaning");
    push_section(&mut out, "", SHOWN_MEANING);
    push_heading(&mut out, "findings.byDirectory.meaning");
    push_section(&mut out, "", BY_DIRECTORY_MEANING);
    push_heading(&mut out, "nativeAnalysesMeaning");
    push_sections(&mut out, native_analyses);
    push_heading(&mut out, "packsLoadedMeaning");
    push_sections(&mut out, packs_loaded);
    push_heading(&mut out, "architecture.topRecommendationMeaning");
    push_section(&mut out, "", TOP_RECOMMENDATION_MEANING);
    push_heading(&mut out, "architecture.criticalTopMeaning");
    push_section(&mut out, "", CRITICAL_TOP_MEANING);
    proof {
        reveal_strlit("");
        assert(""@ =~= Seq::<char>::empty());
    }
    assert(out@ =~= contract_document(coverage_gaps_meaning@, native_analyses@, packs_loaded@));
    out
}

} // verus!
