use zzop_summary::output::filters::{ArgValue, FindingFilters, ToolArgs};
use zzop_summary::output::finding::Finding;
use zzop_summary::output::legends::{by_directory_note, BY_RULE_MEANING};
use zzop_summary::output::rule_prose::by_id::MESSAGE_BY_ID_MEANING;
use zzop_summary::output::rule_prose::RULE_MESSAGES_MEANING;
use zzop_summary::output::shape::{shape_findings, shape_list, ShapedFindings};
use zzop_summary::output::MAX_LIMIT;

const LONG_PROSE: &str = "Rotate this credential before you delete the line: the value is already in git history, so removing it from HEAD hides it without revoking it. Issue a replacement at the provider, deploy the replacement, confirm the new value is serving traffic, and only then revoke the old one — revoking first takes production down for as long as the deploy takes. Move the replacement out of the repository entirely: read it from the process environment at start-up, or from whatever secret store the deployment already has, and keep the name of the variable in the repository rather than its value. If this file is a committed example or fixture, the value is still a real credential to anyone who reads it; give the example an obviously fake value that cannot authenticate anywhere. This finding does not apply when the matched string is a placeholder the tooling substitutes at build time and the real value never reaches the repository — check the surrounding template before you rotate, because a rotation triggered by a placeholder costs an outage and fixes nothing.";

fn finding(rule: &str, severity: &str, _idx: usize) -> Finding {
    Finding {
        rule_id: Some(rule.to_string()),
        severity: Some(severity.to_string()),
        file: None,
        line: None,
        message: None,
        test_path: false,
        build_shape: false,
        bundled_verbatim: None,
    }
}

fn finding_msg(rule: &str, severity: &str, idx: usize, message: &str) -> Finding {
    Finding {
        rule_id: Some(rule.to_string()),
        severity: Some(severity.to_string()),
        file: Some(format!("f{idx}.ts")),
        line: Some(idx as i64),
        message: Some(message.to_string()),
        test_path: false,
        build_shape: false,
        bundled_verbatim: None,
    }
}

fn at(findings: &[Finding], file: &str, rule: &str, severity: &str) -> Finding {
    let _ = findings;
    Finding {
        rule_id: Some(rule.to_string()),
        severity: Some(severity.to_string()),
        file: Some(file.to_string()),
        line: None,
        message: None,
        test_path: file.contains("__tests__"),
        build_shape: file.starts_with(".github/"),
        bundled_verbatim: None,
    }
}

fn shape(findings: &[Finding], filters: &FindingFilters) -> ShapedFindings {
    shape_findings(&findings.to_vec(), filters, &Vec::new())
}

fn filters(min: Option<&str>, rule: Option<&str>, limit: Option<usize>) -> FindingFilters {
    FindingFilters {
        min_severity: min.map(|s| s.to_string()),
        rule: rule.map(|s| s.to_string()),
        limit,
    }
}

fn count_of(entries: &[zzop_summary::output::census::KeyCount], key: &str) -> Option<usize> {
    entries.iter().find(|e| e.key == key).map(|e| e.count)
}

/// The message a consumer reads back for one shown row: the table entry, the spliced template, or
/// the inline text.
fn resolve(shaped: &ShapedFindings, row: usize) -> String {
    let f = &shaped.shown[row];
    if let Some(key) = &f.message_ref {
        let table = shaped.rule_messages.as_ref().expect("a messageRef needs its table");
        return table.iter().find(|(k, _)| k == key).unwrap().1.clone();
    }
    if let Some(parts) = &f.template_parts {
        panic!("template rows are resolved by the caller, which knows the rule: {parts:?}");
    }
    f.message.clone().unwrap_or_default()
}

#[test]
fn counts_stay_full_while_filter_narrows_shown() {
    let findings = vec![
        finding("a", "info", 0),
        finding("b", "critical", 1),
        finding("a", "warning", 2),
    ];
    let shaped = shape(&findings, &filters(Some("warning"), None, None));
    assert_eq!(shaped.total, 3);
    assert_eq!(count_of(&shaped.by_severity, "info"), Some(1));
    assert_eq!(shaped.shown.len(), 2);
    assert_eq!(findings[shaped.shown[0].index].severity.as_deref(), Some("critical"));
    assert!(shaped.truncated.is_none());
}

#[test]
fn rule_filter_is_exact() {
    let findings = vec![finding("a", "info", 0), finding("ab", "info", 1)];
    let shaped = shape(&findings, &filters(None, Some("a"), None));
    assert_eq!(shaped.shown.len(), 1);
    assert_eq!(findings[shaped.shown[0].index].rule_id.as_deref(), Some("a"));
}

#[test]
fn zero_match_rule_filter_for_a_nonexistent_rule_id_gets_a_disclosure_note() {
    let findings = vec![finding("a", "info", 0), finding("b", "warning", 1)];
    let shaped = shape(&findings, &filters(None, Some("typo-d-rule-id"), None));
    assert_eq!(shaped.shown.len(), 0);
    let note = shaped.note.as_deref().expect("note must be present");
    assert!(note.contains("typo-d-rule-id"));
    assert!(note.contains("byRule"));
    assert!(note.contains("rule-catalog"));
}

#[test]
fn zero_match_rule_filter_for_a_real_rule_with_no_findings_gets_no_bad_id_note() {
    let findings = vec![finding("a", "info", 0)];
    let shaped = shape(&findings, &filters(Some("critical"), Some("a"), None));
    assert_eq!(shaped.shown.len(), 0);
    let note = shaped.note.clone().unwrap_or_default();
    assert!(
        !note.contains("is not among this run's fired rule ids"),
        "the rule id is real — doubting it would send the reader after the wrong thing: {note}"
    );
    assert!(
        note.contains("severity filter 'critical' matched no findings"),
        "{note}"
    );
}

#[test]
fn zero_match_severity_filter_names_what_the_run_did_produce() {
    let findings = vec![
        finding("a", "info", 0),
        finding("b", "warning", 1),
        finding("c", "warning", 2),
    ];
    let shaped = shape(&findings, &filters(Some("critical"), None, None));
    assert_eq!(shaped.shown.len(), 0);
    let note = shaped.note.as_deref().expect("note must be present");
    assert!(
        note.contains("info: 1") && note.contains("warning: 2"),
        "{note}"
    );
    assert!(note.contains("NOT that nothing was found"), "{note}");
}

#[test]
fn a_severity_filter_on_a_run_with_no_findings_at_all_says_so() {
    let shaped = shape(&[], &filters(Some("warning"), None, None));
    let note = shaped.note.as_deref().expect("note must be present");
    assert!(note.contains("no findings at any severity"), "{note}");
}

#[test]
fn a_run_where_both_filters_come_up_empty_keeps_both_notes() {
    let findings = vec![finding("a", "info", 0)];
    let note = shape(&findings, &filters(Some("critical"), Some("typo-d-rule-id"), None))
        .note
        .expect("note must be present");
    assert!(note.contains("typo-d-rule-id"), "{note}");
    assert!(note.contains("severity filter 'critical'"), "{note}");
}

#[test]
fn a_severity_filter_that_matched_something_adds_no_note() {
    let findings = vec![finding("a", "critical", 0), finding("b", "info", 1)];
    let shaped = shape(&findings, &filters(Some("critical"), None, None));
    assert_eq!(shaped.shown.len(), 1);
    assert!(shaped.note.is_none());
}

#[test]
fn a_rule_filter_that_actually_matches_gets_no_note() {
    let findings = vec![finding("a", "info", 0)];
    let shaped = shape(&findings, &filters(None, Some("a"), None));
    assert_eq!(shaped.shown.len(), 1);
    assert!(shaped.note.is_none());
}

#[test]
fn a_reply_with_no_repeated_message_carries_no_fold_table() {
    let findings = vec![
        finding_msg(
            "unimported-export",
            "info",
            0,
            "`parseUser` is exported and imported nowhere.",
        ),
        finding_msg(
            "unimported-export",
            "info",
            1,
            "`parseOrder` is exported and imported nowhere.",
        ),
    ];
    let shaped = shape(&findings, &filters(None, None, None));
    assert!(shaped.rule_messages.is_none(), "nothing repeated — absent, not empty");
    assert_eq!(
        shaped.shown[0].message.as_deref(),
        Some("`parseUser` is exported and imported nowhere.")
    );
    assert_eq!(
        shaped.shown[1].message.as_deref(),
        Some("`parseOrder` is exported and imported nowhere.")
    );
    assert!(shaped.shown[0].message_ref.is_none());
    assert!(
        shaped.rule_message_templates.is_none(),
        "a template worth less than its pointer must stay inline"
    );
    assert!(shaped.shown[0].template_parts.is_none());
}

#[test]
fn a_rule_whose_messages_barely_overlap_stays_inline() {
    let findings = vec![
        finding_msg("r", "info", 0, "Delete this file, or import it somewhere."),
        finding_msg(
            "r",
            "info",
            1,
            "This route mutates state with no auth on it.",
        ),
        finding_msg(
            "r",
            "info",
            2,
            "Bind this parameter instead of interpolating it.",
        ),
    ];
    let shaped = shape(&findings, &filters(None, None, None));
    assert!(
        shaped.rule_message_templates.is_none(),
        "these share almost nothing — templating them costs bytes"
    );
    for f in &shaped.shown {
        assert!(f.template_parts.is_none());
    }
    assert_eq!(
        shaped.shown[0].message.as_deref(),
        Some("Delete this file, or import it somewhere.")
    );
}

#[test]
fn a_filter_that_removes_rows_says_so_and_an_unfiltered_run_pays_nothing() {
    let findings: Vec<_> = (0..5)
        .map(|i| {
            finding(
                if i == 0 { "r" } else { "other" },
                if i == 0 { "critical" } else { "info" },
                i,
            )
        })
        .collect();
    let plain = shape(&findings, &filters(None, None, Some(1000)));
    assert!(plain.filtered.is_none());
    let sev = shape(&findings, &filters(Some("critical"), None, Some(1000)));
    assert_eq!(sev.shown.len(), 1);
    let f = sev.filtered.as_ref().unwrap();
    assert_eq!(f.elided, 4);
    assert_eq!(f.severity.as_deref(), Some("critical"));
    assert!(f.rule.is_none());
    assert_eq!(sev.total, 5);
    let rule = shape(&findings, &filters(None, Some("r"), Some(1000)));
    assert_eq!(rule.filtered.as_ref().unwrap().rule.as_deref(), Some("r"));
    assert_eq!(rule.filtered.as_ref().unwrap().elided, 4);
    let capped = shape(&findings, &filters(None, None, Some(2)));
    assert!(capped.truncated.is_some() && capped.filtered.is_none());
}

#[test]
fn truncation_is_disclosed_never_silent() {
    let findings: Vec<_> = (0..5).map(|i| finding("r", "info", i)).collect();
    let shaped = shape(&findings, &filters(None, None, Some(2)));
    assert_eq!(shaped.shown.len(), 2);
    let t = shaped.truncated.as_ref().unwrap();
    assert_eq!(t.shown, 2);
    assert_eq!(t.total_matching, 5);
    assert!(t.hint.contains("limit"));
}

#[test]
fn shape_list_echoes_the_callers_hint_verbatim() {
    let items = vec![1, 2, 3];
    let (shown, t) = shape_list(&items, 2, "narrow the scope");
    assert_eq!(shown, vec![1, 2]);
    let t = t.unwrap();
    assert_eq!((t.shown, t.total_matching, t.hint.as_str()), (2, 3, "narrow the scope"));
    let (all, none) = shape_list(&items, 3, "x");
    assert_eq!(all, items);
    assert!(none.is_none());
}

#[test]
fn a_severity_the_cut_removed_entirely_is_named_with_its_count() {
    let mut findings = Vec::new();
    findings.push(at(&findings, "src/a.ts", "a/one", "info"));
    findings.push(at(&findings, "src/b.ts", "b/two", "info"));
    findings.push(at(&findings, "src/c.ts", "c/three", "info"));
    findings.push(at(&findings, "src/__tests__/redaction.spec.ts", "security/private-key-committed", "critical"));
    findings.push(at(&findings, ".github/workflows/release.yml", "security/shell-exec-interpolation", "critical"));
    let shaped = shape(&findings, &filters(None, None, Some(2)));
    assert_eq!(shaped.shown.len(), 2);
    assert!(shaped.shown.iter().all(|f| findings[f.index].severity.as_deref() == Some("info")));
    assert_eq!(count_of(&shaped.by_severity, "critical"), Some(2));
    let t = shaped.truncated.as_ref().unwrap();
    assert_eq!(t.severities_not_shown.len(), 1);
    let band = &t.severities_not_shown[0];
    assert_eq!((band.severity.as_str(), band.count, band.rule_count), ("critical", 2, 2));
    assert_eq!(band.first_omitted, vec![3, 4]);
    assert!(t.meaning.contains("zero rows in `shown`"));
    assert!(t.meaning.contains("at most 3 rows per severity"));
    assert_eq!(shaped.test_paths.as_ref().unwrap().count, 1);
    assert_eq!(shaped.build_paths.as_ref().unwrap().count, 1);
}

#[test]
fn the_hint_stops_offering_a_bigger_limit_once_the_limit_is_at_its_ceiling() {
    let findings: Vec<_> = (0..MAX_LIMIT + 1).map(|i| finding("r", "info", i)).collect();
    let at_ceiling = shape(&findings, &filters(None, None, Some(MAX_LIMIT)));
    let hint = at_ceiling.truncated.unwrap().hint;
    assert!(!hint.contains("raise"), "{hint}");
    assert!(hint.contains("severity") && hint.contains("rule") && hint.contains(&MAX_LIMIT.to_string()));
    let below = shape(&findings, &filters(None, None, Some(10)));
    assert!(below.truncated.unwrap().hint.contains("raise the limit"));
}

#[test]
fn folding_still_shrinks_a_reply_whose_repeated_text_is_long() {
    let findings: Vec<_> = (0..4)
        .map(|i| finding_msg("security/hardcoded-secret", "critical", i, LONG_PROSE))
        .collect();
    let shaped = shape(&findings, &filters(None, None, None));
    let table = shaped.rule_messages.as_ref().expect("a long text repeated four times must fold");
    assert_eq!(table.len(), 1);
    assert_eq!(table[0].0, "security/hardcoded-secret");
    for row in 0..4 {
        assert_eq!(shaped.shown[row].message_ref.as_deref(), Some("security/hardcoded-secret"));
        assert_eq!(resolve(&shaped, row), LONG_PROSE);
        let m = shaped.shown[row].message.as_deref().unwrap();
        assert!(m.starts_with("[folded]") && m.contains("ruleMessages[\"security/hardcoded-secret\"]"), "{m}");
    }
}

#[test]
fn folding_never_grows_a_reply_when_the_repeated_text_is_short() {
    let prose = "document.write() blocks the parser and silently wipes the document when it runs after load. Build the node and append it to a parent you already hold, or set textContent on an element that is already in the tree.";
    let findings: Vec<_> = (0..2)
        .map(|i| finding_msg("browser/no-document-write", "warning", i, prose))
        .collect();
    let shaped = shape(&findings, &filters(None, None, None));
    assert!(shaped.rule_messages.is_none());
    assert_eq!(shaped.shown[1].message.as_deref(), Some(prose));
}

#[test]
fn interpolated_messages_of_one_rule_fold_to_one_template_and_rebuild_byte_identically() {
    let msg = |model: &str| {
        format!(
            "Model `{model}` declares a column named like a foreign key with no declared relation. {LONG_PROSE} Add the relation to `{model}`, or rename the column so it stops reading as one."
        )
    };
    let models = ["User", "Booking", "EventType", "Membership", "Webhook"];
    let findings: Vec<_> = models
        .iter()
        .enumerate()
        .map(|(i, m)| finding_msg("schema/implicit-fk", "warning", i, &msg(m)))
        .collect();
    let shaped = shape(&findings, &filters(None, None, None));
    let table = shaped.rule_message_templates.as_ref().expect("five messages differing in one name must template");
    assert_eq!(table.len(), 1);
    let (rule, segs) = &table[0];
    assert_eq!(rule, "schema/implicit-fk");
    assert!(segs.len() >= 2);
    for model in models {
        for s in segs {
            assert!(!s.contains(model), "{s}");
        }
    }
    let mut rebuilt = Vec::new();
    for f in &shaped.shown {
        let parts = f.template_parts.as_ref().expect("every row of the rule templated");
        assert!(f.message_ref.is_none());
        assert_eq!(parts.len() + 1, segs.len());
        let mut out = segs[0].clone();
        for (i, p) in parts.iter().enumerate() {
            out.push_str(p);
            out.push_str(&segs[i + 1]);
        }
        rebuilt.push(out);
        let m = f.message.as_deref().unwrap();
        assert!(m.contains("ruleMessageTemplates") && m.contains("templateParts"), "{m}");
    }
    let mut original: Vec<String> = models.iter().map(|m| msg(m)).collect();
    rebuilt.sort();
    original.sort();
    assert_eq!(rebuilt, original);
}

#[test]
fn the_fold_judges_the_shown_window_not_the_full_finding_set() {
    let findings: Vec<_> = (0..5).map(|i| finding_msg("r", "info", i, LONG_PROSE)).collect();
    let uncapped = shape(&findings, &filters(None, None, None));
    assert!(uncapped.rule_messages.is_some());
    let shaped = shape(&findings, &filters(None, None, Some(1)));
    assert_eq!(shaped.shown.len(), 1);
    assert_eq!(shaped.shown[0].message.as_deref(), Some(LONG_PROSE));
    assert!(shaped.rule_messages.is_none());
    assert_eq!(shaped.total, 5);
    assert_eq!(count_of(&shaped.by_rule, "r"), Some(5));
    assert_eq!(shaped.truncated.as_ref().unwrap().total_matching, 5);
}

#[test]
fn a_bundled_verbatim_message_becomes_a_by_id_pointer() {
    let text = "Never build SQL by concatenating request input; bind every value as a parameter.";
    let mut f = finding_msg("sql/concat", "critical", 0, text);
    f.bundled_verbatim = Some(text.to_string());
    let mut near = finding_msg("sql/concat", "critical", 1, "a near-miss rewrite of that text");
    near.bundled_verbatim = Some(text.to_string());
    let shaped = shape(&[f, near], &filters(None, None, None));
    assert!(shaped.message_by_id);
    let pointed = shaped.shown.iter().find(|r| r.index == 0).unwrap();
    assert!(pointed.message_by);
    assert_eq!(pointed.message.as_deref(), Some("[by-id] resolve by ruleId; see messageByIdMeaning"));
    let kept = shaped.shown.iter().find(|r| r.index == 1).unwrap();
    assert!(!kept.message_by);
    assert_eq!(kept.message.as_deref(), Some("a near-miss rewrite of that text"));
}

#[test]
fn the_shaped_block_carries_both_unconditional_legends() {
    let shaped = shape(&[finding("a", "info", 0)], &filters(None, None, None));
    assert!(shaped.by_rule_meaning.starts_with("Counts FINDINGS, not places"));
    assert!(shaped.shown_meaning.starts_with("An ORDER, not a RANKING"));
    assert!(shaped.by_rule_meaning.ends_with("(`zzop contract reply-legends` with the CLI binary)."));
}

#[test]
fn names_both_channels_that_carry_the_real_cardinality() {
    assert!(
        BY_RULE_MEANING.contains("evidencePaths"),
        "the legend must name the typed cross-file channel: {BY_RULE_MEANING}"
    );
    assert!(
        BY_RULE_MEANING.contains("`data`"),
        "the legend must name the per-matcher channel: {BY_RULE_MEANING}"
    );
}

#[test]
fn the_caveat_precedes_the_instruction() {
    let caveat = BY_RULE_MEANING
        .find("Counts FINDINGS, not places")
        .expect("caveat clause");
    let instruction = BY_RULE_MEANING
        .find("read an entry as")
        .expect("instruction clause");
    assert!(caveat < instruction, "{BY_RULE_MEANING}");
}

#[test]
fn names_no_rule_id() {
    assert!(!BY_RULE_MEANING.contains('/'), "{BY_RULE_MEANING}");
}

#[test]
fn the_two_legends_do_not_promise_the_same_thing() {
    assert!(
        RULE_MESSAGES_MEANING.contains("without a second request"),
        "the fold's promise is that everything is reachable from this reply alone"
    );
    assert!(
        MESSAGE_BY_ID_MEANING.contains("second request"),
        "and the by-id legend's whole job is to say that this one is NOT"
    );
}

#[test]
fn the_by_directory_note_names_its_row_cap() {
    assert!(by_directory_note().contains("a SHORTLIST of the largest 5;"));
}

/// A finding with a file and line, classified the way the host's shared test-path and build-path
/// patterns classify these fixtures' paths.
fn placed(rule: &str, severity: &str, file: &str, line: Option<i64>) -> Finding {
    Finding {
        rule_id: Some(rule.to_string()),
        severity: Some(severity.to_string()),
        file: Some(file.to_string()),
        line,
        message: None,
        test_path: file.contains("__tests__/") || file.contains(".spec.") || file.starts_with("e2e/")
            || file.starts_with("fixtures/"),
        build_shape: file.starts_with(".github/") || file.ends_with(".example"),
        bundled_verbatim: None,
    }
}

fn shape_declared(findings: &[Finding], filters: &FindingFilters, declared: &[&str]) -> ShapedFindings {
    shape_findings(&findings.to_vec(), filters, &declared.iter().map(|s| s.to_string()).collect())
}

fn order(shaped: &ShapedFindings) -> Vec<usize> {
    shaped.shown.iter().map(|f| f.index).collect()
}

fn files(findings: &[Finding], shaped: &ShapedFindings) -> Vec<String> {
    shaped.shown.iter().map(|f| findings[f.index].file.clone().unwrap()).collect()
}

fn text_arg(s: &str) -> ArgValue {
    ArgValue { text: Some(s.to_string()), integer: None, json: format!("\"{s}\"") }
}

fn int_arg(n: i64) -> ArgValue {
    ArgValue { text: None, integer: Some(n), json: n.to_string() }
}

fn other_arg(json: &str) -> ArgValue {
    ArgValue { text: None, integer: None, json: json.to_string() }
}

fn args(severity: Option<ArgValue>, rule: Option<ArgValue>, limit: Option<ArgValue>) -> ToolArgs {
    ToolArgs { severity, rule, limit }
}

#[test]
fn a_cut_that_silenced_no_severity_says_so_and_an_uncut_list_says_nothing() {
    let findings: Vec<_> = (0..5).map(|i| finding("r", "info", i)).collect();
    let cut = shape(&findings, &filters(None, None, Some(2)));
    assert!(cut.truncated.as_ref().expect("the cap cut").severities_not_shown.is_empty(), "a cut that silenced nothing must still answer");
    let whole = shape(&findings, &filters(None, None, Some(5)));
    assert!(whole.truncated.is_none());
}

#[test]
fn a_declaration_that_matches_no_finding_leaves_the_reply_byte_identical() {
    let findings = vec![finding("a", "warning", 0), placed("b", "warning", "src/b.ts", Some(2))];
    let with = shape_declared(&findings, &filters(None, None, None), &["scripts/nothing-fires-here.ts"]);
    let without = shape(&findings, &filters(None, None, None));
    assert_eq!(order(&with), order(&without));
    assert!(with.build_paths.is_none() && without.build_paths.is_none());
    assert_eq!(with.test_paths.is_none(), without.test_paths.is_none());
    assert_eq!(with.total, without.total);
}

#[test]
fn a_filtered_run_names_only_what_the_cap_took_not_what_the_filter_took() {
    let findings = vec![
        placed("a/one", "warning", "src/a.ts", None),
        placed("b/two", "warning", "src/b.ts", None),
        placed("c/three", "info", "src/c.ts", None),
        placed("security/private-key-committed", "critical", "src/__tests__/redaction.spec.ts", None),
    ];
    let shaped = shape(&findings, &filters(Some("warning"), None, Some(1)));
    let bands = &shaped.truncated.as_ref().unwrap().severities_not_shown;
    assert!(bands.iter().any(|b| b.severity == "critical" && b.count == 1), "the cap took it");
    assert!(!bands.iter().any(|b| b.severity == "info"), "the FILTER took `info`, not the cap");
    assert_eq!(count_of(&shaped.by_severity, "info"), Some(1));
}

#[test]
fn a_non_string_rule_argument_is_a_named_type_error() {
    let err = FindingFilters::from_args(Some(&args(None, Some(int_arg(42)), None))).err().unwrap();
    assert_eq!(err, "`rule` must be a string (got 42)");
}

#[test]
fn a_non_string_severity_hits_the_same_rejection_path_as_an_unknown_string() {
    let err = FindingFilters::from_args(Some(&args(Some(int_arg(5)), None, None))).err().unwrap();
    assert!(err.contains("unknown severity 5"), "got: {err}");
    assert!(err.contains("critical"));
}

#[test]
fn a_run_with_no_build_surface_findings_carries_no_build_paths_key() {
    let findings = vec![placed("a", "info", "src/a.ts", Some(1)), placed("b", "info", "src/a.spec.ts", Some(1))];
    let shaped = shape(&findings, &filters(None, None, None));
    assert!(shaped.build_paths.is_none());
    assert_eq!(shaped.test_paths.as_ref().unwrap().count, 1);
}

#[test]
fn a_run_with_no_test_path_findings_carries_no_test_paths_key() {
    let findings = vec![placed("a", "info", "src/a.ts", Some(1))];
    let shaped = shape(&findings, &filters(None, None, None));
    assert!(shaped.test_paths.is_none());
}

#[test]
fn a_second_rule_on_a_line_that_already_has_a_row_waits_for_every_other_place() {
    let findings = vec![
        placed("a", "warning", "src/x.ts", Some(171)),
        placed("b", "warning", "src/x.ts", Some(171)),
        placed("a", "warning", "src/y.ts", Some(5)),
        placed("c", "warning", "src/z.ts", Some(9)),
    ];
    let shaped = shape(&findings, &filters(None, None, None));
    assert_eq!(order(&shaped), vec![0, 3, 2, 1]);
    assert_eq!(shaped.total, 4);
    assert_eq!(shaped.shown.len(), 4);
    assert_eq!(count_of(&shaped.by_rule, "a"), Some(2));
    assert_eq!(count_of(&shaped.by_rule, "b"), Some(1));
    assert_eq!(count_of(&shaped.by_rule, "c"), Some(1));
}

#[test]
fn a_silenced_severity_is_named_with_sites_not_only_a_count() {
    let findings = vec![
        placed("a/one", "info", "src/a.ts", Some(1)),
        placed("b/two", "info", "src/b.ts", Some(2)),
        placed("security/private-key-committed", "critical", "src/__tests__/redaction.spec.ts", Some(12)),
        placed("security/shell-exec-interpolation", "critical", ".github/workflows/release.yml", Some(30)),
    ];
    let shaped = shape(&findings, &filters(None, None, Some(2)));
    assert!(shaped.shown.iter().all(|f| findings[f.index].severity.as_deref() != Some("critical")));
    assert_eq!(count_of(&shaped.by_severity, "critical"), Some(2));
    let bands = &shaped.truncated.as_ref().unwrap().severities_not_shown;
    let critical = bands.iter().find(|b| b.severity == "critical").expect("a severity the cut removed entirely names sites");
    assert_eq!(critical.first_omitted.len(), 2);
    let first = &findings[critical.first_omitted[0]];
    assert_eq!(first.rule_id.as_deref(), Some("security/private-key-committed"));
    assert_eq!(first.file.as_deref(), Some("src/__tests__/redaction.spec.ts"));
    assert_eq!(first.line, Some(12));
    assert_eq!(findings[critical.first_omitted[1]].file.as_deref(), Some(".github/workflows/release.yml"));
    assert!(!bands.iter().any(|b| b.severity == "info"), "`info` is visible in `shown`");
}

#[test]
fn a_valid_in_range_limit_is_accepted() {
    let f = FindingFilters::from_args(Some(&args(None, None, Some(int_arg(500))))).ok().unwrap();
    assert_eq!(f.limit, Some(500));
}

#[test]
fn build_surface_outranks_test_path_and_the_two_counts_may_overlap() {
    let findings = vec![placed("r", "warning", "fixtures/seed-db.ts", Some(1)), placed("r", "warning", "src/other.spec.ts", Some(1))];
    let shaped = shape_declared(&findings, &filters(None, None, None), &["fixtures/seed-db.ts"]);
    assert_eq!(files(&findings, &shaped), vec!["src/other.spec.ts", "fixtures/seed-db.ts"]);
    assert_eq!(shaped.test_paths.as_ref().unwrap().count, 2);
    assert_eq!(shaped.build_paths.as_ref().unwrap().count, 1);
}

#[test]
fn ci_descriptors_and_example_templates_are_build_surface_without_any_manifest_declaration() {
    let findings = vec![
        placed("security/config-file-secret", "critical", "apps/api/v2/.env.example", Some(43)),
        placed("security/shell-exec-interpolation", "critical", ".github/workflows/release.yml", Some(7)),
        placed("security/config-file-secret", "critical", "apps/api/v2/src/config.ts", Some(5)),
    ];
    let shaped = shape_declared(&findings, &filters(None, None, None), &[]);
    assert_eq!(files(&findings, &shaped)[0], "apps/api/v2/src/config.ts");
    assert_eq!(shaped.build_paths.as_ref().unwrap().count, 2);
    assert_eq!(shaped.total, 3);
    assert!(shaped.test_paths.is_none());
}

#[test]
fn deployment_role_outranks_severity_so_a_shipped_warning_beats_an_unshipped_critical() {
    let findings = vec![
        placed("security/config-file-secret", "critical", "apps/api/v2/.env.example", Some(43)),
        placed("security/hardcoded-secret", "critical", "packages/lib/__tests__/redaction.spec.ts", Some(7)),
        placed("db/nplus1", "warning", "packages/features/bookings/list.ts", Some(88)),
        placed("perf/console-in-be", "info", "packages/features/bookings/create.ts", Some(12)),
    ];
    let shaped = shape_declared(&findings, &filters(None, None, None), &[]);
    assert_eq!(
        files(&findings, &shaped),
        vec![
            "packages/features/bookings/list.ts",
            "packages/features/bookings/create.ts",
            "packages/lib/__tests__/redaction.spec.ts",
            "apps/api/v2/.env.example",
        ]
    );
    assert_eq!(shaped.total, 4);
    assert_eq!(count_of(&shaped.by_severity, "critical"), Some(2));
    assert_eq!(count_of(&shaped.by_severity, "warning"), Some(1));
    assert_eq!(count_of(&shaped.by_severity, "info"), Some(1));
}

#[test]
fn deterministic_order_same_input_same_output() {
    let findings = vec![finding("a", "warning", 0), finding("b", "warning", 1), finding("c", "critical", 2)];
    let one = order(&shape(&findings, &filters(None, None, None)));
    let two = order(&shape(&findings, &filters(None, None, None)));
    assert_eq!(one, two);
    assert_eq!(one, vec![2, 0, 1]);
}

#[test]
fn limit_zero_is_legal_and_distinct_from_absent() {
    let f = FindingFilters::from_args(Some(&args(None, None, Some(int_arg(0))))).ok().unwrap();
    assert_eq!(f.limit, Some(0));
}

#[test]
fn out_of_range_and_wrong_type_limit_values_are_all_named_rejections() {
    for bad in [int_arg(-1), int_arg(1001), int_arg(999_999), text_arg("50"), other_arg("3.7")] {
        let shown = bad.json.clone();
        let err = match FindingFilters::from_args(Some(&args(None, None, Some(bad)))) {
            Err(e) => e,
            Ok(_) => panic!("limit {shown} must be rejected, got Ok"),
        };
        assert!(err.contains("limit must be an integer between 0 and 1000"), "limit {shown}: got {err}");
        assert!(err.ends_with(&format!("(got {shown})")), "{err}");
    }
}

#[test]
fn rule_in_file_gives_every_file_of_a_rule_a_slot_before_any_file_takes_a_second() {
    let findings = vec![
        placed("a", "warning", "src/x.ts", Some(1)),
        placed("a", "warning", "src/x.ts", Some(2)),
        placed("a", "warning", "src/x.ts", Some(3)),
        placed("a", "warning", "src/y.ts", Some(4)),
        placed("b", "warning", "src/z.ts", Some(5)),
        placed("b", "warning", "src/z.ts", Some(6)),
    ];
    let shaped = shape(&findings, &filters(None, None, None));
    let lines: Vec<i64> = shaped.shown.iter().map(|f| findings[f.index].line.unwrap()).collect();
    assert_eq!(lines, vec![1, 5, 4, 2, 6, 3]);
    assert_eq!(shaped.total, 6);
    assert_eq!(count_of(&shaped.by_rule, "a"), Some(4));
    assert_eq!(count_of(&shaped.by_rule, "b"), Some(2));
}

#[test]
fn test_path_and_build_findings_sort_after_every_shipped_finding_and_are_counted() {
    let findings = vec![
        placed("security/shell-exec-interpolation", "warning", "scripts/create-sentry-release.js", Some(12)),
        placed("security/hardcoded-secret", "warning", "src/app/__tests__/login.spec.ts", Some(3)),
        placed("security/hardcoded-secret", "warning", "src/app/config.ts", Some(9)),
        placed("db/nplus1", "critical", "e2e/seed.ts", Some(1)),
    ];
    let shaped = shape_declared(&findings, &filters(None, None, None), &["scripts/create-sentry-release.js"]);
    assert_eq!(
        files(&findings, &shaped),
        vec!["src/app/config.ts", "e2e/seed.ts", "src/app/__tests__/login.spec.ts", "scripts/create-sentry-release.js"]
    );
    let t = shaped.test_paths.as_ref().unwrap();
    assert_eq!(t.count, 2);
    assert!(t.meaning.contains("still"), "{}", t.meaning);
    let b = shaped.build_paths.as_ref().unwrap();
    assert_eq!(b.count, 1);
    assert!(b.meaning.contains("still real findings") && b.meaning.contains("Nothing is dropped"), "{}", b.meaning);
    assert_eq!(shaped.total, 4);
    assert_eq!(count_of(&shaped.by_severity, "warning"), Some(3));
}

#[test]
fn the_directory_fold_counts_the_full_set_and_not_the_filtered_window() {
    let mut findings: Vec<Finding> = (0..9).map(|i| placed("a", "info", &format!("examples/e{i}.ts"), None)).collect();
    findings.push(placed("a", "critical", "lib/x.ts", None));
    let shaped = shape(&findings, &filters(Some("critical"), None, None));
    assert_eq!(shaped.shown.len(), 1);
    let d = shaped.by_directory.as_ref().expect("byDirectory must ride beside byRule");
    assert_eq!(d.directories[0].dir, "examples/");
    assert_eq!(d.directories[0].findings, 9);
    assert_eq!(d.directories[0].share_tenths, 900);
    assert!(d.basis.starts_with("10 finding(s)"), "{}", d.basis);
}

#[test]
fn the_named_sites_are_a_bounded_sample_beside_an_exact_count() {
    let findings: Vec<_> = (0..9).map(|i| finding("security/private-key-committed", "critical", i)).collect();
    let shaped = shape(&findings, &filters(None, None, Some(0)));
    let t = shaped.truncated.as_ref().unwrap();
    let critical = t.severities_not_shown.iter().find(|b| b.severity == "critical").unwrap();
    assert_eq!(critical.count, 9, "the count is the whole set");
    let named = critical.first_omitted.len();
    assert!(named < 9 && named > 0, "the sites are a bounded sample of that set");
    assert!(t.meaning.contains(&named.to_string()) && t.meaning.contains("SAMPLE"), "{}", t.meaning);

    let nothing: Vec<_> = (0..5).map(|i| finding("r", "info", i)).collect();
    let nothing_silenced = shape(&nothing, &filters(None, None, Some(2)));
    assert!(nothing_silenced.truncated.unwrap().severities_not_shown.is_empty());
}

#[test]
fn the_silenced_band_names_how_many_rules_it_hid_not_only_how_many_rows() {
    let mut findings = Vec::new();
    for rule in ["security/a-rule", "security/b-rule", "security/c-rule"] {
        for i in 0..3 {
            findings.push(finding(rule, "critical", i));
        }
    }
    let shaped = shape(&findings, &filters(None, None, Some(0)));
    let t = shaped.truncated.as_ref().unwrap();
    let band = t.severities_not_shown.iter().find(|b| b.severity == "critical").unwrap();
    assert_eq!(band.count, 9, "rows are counted whole");
    assert_eq!(band.rule_count, 3, "and the RULES behind them are counted separately");
    assert!(t.meaning.contains("ruleCounts") && t.meaning.contains("DISTINCT RULES"), "{}", t.meaning);

    let mixed = vec![
        finding("security/shown-rule", "critical", 1),
        finding("security/hidden-one", "info", 2),
        finding("security/hidden-two", "info", 3),
    ];
    let shaped = shape(&mixed, &filters(None, None, Some(1)));
    let bands = &shaped.truncated.as_ref().unwrap().severities_not_shown;
    assert_eq!(bands.len(), 1);
    assert_eq!((bands[0].severity.as_str(), bands[0].rule_count), ("info", 2));
}

#[test]
fn the_silenced_severity_is_computed_not_a_hardcoded_critical() {
    let findings = vec![placed("a/one", "critical", "src/a.ts", None), placed("b/two", "warning", "src/__tests__/x.spec.ts", None)];
    let shaped = shape(&findings, &filters(None, None, Some(1)));
    let bands = &shaped.truncated.as_ref().unwrap().severities_not_shown;
    assert!(bands.iter().any(|b| b.severity == "warning" && b.count == 1));
    assert!(!bands.iter().any(|b| b.severity == "critical"));
}

#[test]
fn the_wire_neutral_constructor_rejects_exactly_what_the_json_lane_rejects() {
    let neutral_severity = FindingFilters::new(Some("sev-nope"), None, None).err().unwrap();
    let json_severity = FindingFilters::from_args(Some(&args(Some(text_arg("sev-nope")), None, None))).err().unwrap();
    assert_eq!(neutral_severity, json_severity);
    assert!(neutral_severity.contains("critical"), "got: {neutral_severity}");
    let neutral_limit = FindingFilters::new(None, None, Some(1001)).err().unwrap();
    let json_limit = FindingFilters::from_args(Some(&args(None, None, Some(int_arg(1001))))).err().unwrap();
    assert_eq!(neutral_limit, json_limit);
    assert!(neutral_limit.contains("limit must be an integer between 0 and 1000"), "got: {neutral_limit}");
    assert_eq!(FindingFilters::new(None, None, Some(1000)).ok().unwrap().limit, Some(1000));
}

#[test]
fn unknown_severity_argument_is_a_named_error() {
    let err = FindingFilters::from_args(Some(&args(Some(text_arg("sev-nope")), None, None))).err().unwrap();
    assert!(err.contains("sev-nope"));
    assert!(err.contains("critical"));
}

#[test]
fn every_by_rule_map_ships_its_legend_even_when_no_finding_folded() {
    let findings = vec![finding("a", "warning", 0), finding("b", "info", 1)];
    let shaped = shape(&findings, &filters(None, None, None));
    assert!(shaped.by_rule_meaning.contains("Counts FINDINGS, not places"), "{}", shaped.by_rule_meaning);
    assert_eq!(shaped.total, 2);
    assert_eq!(count_of(&shaped.by_rule, "a"), Some(1));
}

#[test]
fn every_folded_message_is_reconstructible_byte_identically_from_the_same_reply() {
    let other = "This route mutates state with no auth evidence on its own handler.";
    let findings = vec![
        finding_msg("security/hardcoded-secret", "critical", 0, LONG_PROSE),
        finding_msg("security/hardcoded-secret", "critical", 1, LONG_PROSE),
        finding_msg("security/hardcoded-secret", "critical", 3, LONG_PROSE),
        finding_msg("mutating-route-no-auth", "warning", 2, other),
    ];
    let shaped = shape(&findings, &filters(None, None, None));
    let mut rebuilt: Vec<String> = (0..shaped.shown.len()).map(|i| resolve(&shaped, i)).collect();
    let mut original = vec![LONG_PROSE.to_string(), LONG_PROSE.to_string(), LONG_PROSE.to_string(), other.to_string()];
    rebuilt.sort();
    original.sort();
    assert_eq!(rebuilt, original, "the reconstructed set must be byte-identical to the pre-fold set");
    let table = shaped.rule_messages.as_ref().expect("the repeated text must fold");
    assert_eq!(table.len(), 1, "only the repeated text folds; the singleton stays inline");
    for (k, _) in table {
        assert!(shaped.shown.iter().any(|f| f.message_ref.as_deref() == Some(k.as_str())), "ruleMessages[{k:?}] is an orphan");
    }
    assert!(RULE_MESSAGES_MEANING.contains("byte-identical"));
    assert!(RULE_MESSAGES_MEANING.contains("never truncation"));
    assert!(RULE_MESSAGES_MEANING.contains("messageRef"));
}

#[test]
fn every_shown_list_ships_the_legend_that_says_it_is_not_a_ranking() {
    let findings = vec![finding("a", "warning", 0), finding("b", "info", 1)];
    let shaped = shape(&findings, &filters(None, None, None));
    let meaning = &shaped.shown_meaning;
    assert!(meaning.starts_with("An ORDER, not a RANKING"), "{meaning}");
    assert!(meaning.contains("no per-finding confidence exists here"), "{meaning}");
    assert!(!meaning.contains("Never as: the N worst things in this tree"), "{meaning}");
    assert_eq!(shaped.total, 2);
    assert_eq!(shaped.shown.len(), 2);
}

#[test]
fn findings_with_no_file_do_not_collide_on_the_site_key() {
    let findings = vec![finding("a", "warning", 0), finding("a", "warning", 1), finding("b", "warning", 2)];
    let shaped = shape(&findings, &filters(None, None, None));
    assert_eq!(order(&shaped), vec![0, 2, 1]);
    assert_eq!(shaped.total, 3);
}

#[test]
fn no_prose_text_is_stored_twice_in_one_reply() {
    let findings: Vec<_> = (0..4).map(|i| finding_msg("security/hardcoded-secret", "critical", i, LONG_PROSE)).collect();
    let shaped = shape(&findings, &filters(None, None, None));
    let mut stored: Vec<String> = Vec::new();
    for f in &shaped.shown {
        if f.message_ref.is_none() && f.template_parts.is_none() {
            stored.push(f.message.clone().unwrap_or_default());
        }
    }
    if let Some(table) = &shaped.rule_messages {
        stored.extend(table.iter().map(|(_, t)| t.clone()));
    }
    if let Some(templates) = &shaped.rule_message_templates {
        for (_, segs) in templates {
            stored.extend(segs.iter().filter(|s| !s.is_empty()).cloned());
        }
    }
    assert!(!stored.is_empty(), "no prose was read at all");
    let mut sorted = stored.clone();
    sorted.sort();
    sorted.dedup();
    assert_eq!(sorted.len(), stored.len(), "a message text is STORED more than once in ONE reply");
    for f in &shaped.shown {
        let m = f.message.as_deref().expect("every finding keeps a message");
        assert!(!m.is_empty());
        if f.message_ref.is_some() {
            assert!(m.len() < 256, "a pointer must stay an address, not prose ({} bytes): {m}", m.len());
        }
    }
}

#[test]
fn round_robin_counters_restart_per_severity_band_and_are_a_no_op_when_every_rule_fires_once() {
    let findings = vec![
        finding("a", "critical", 0),
        finding("a", "warning", 1),
        finding("b", "warning", 2),
        finding("a", "warning", 3),
        finding("b", "critical", 4),
    ];
    let shaped = shape(&findings, &filters(None, None, None));
    assert_eq!(order(&shaped), vec![0, 4, 1, 2, 3]);
    assert_eq!(count_of(&shaped.by_severity, "critical"), Some(2));
    assert_eq!(count_of(&shaped.by_severity, "warning"), Some(3));
}

#[test]
fn rule_round_robin_orders_the_nth_finding_of_every_rule_before_any_rules_n_plus_first() {
    let findings = vec![
        finding("a", "warning", 0),
        finding("a", "warning", 1),
        finding("a", "warning", 2),
        finding("b", "warning", 3),
        finding("b", "warning", 4),
        finding("c", "warning", 5),
    ];
    let shaped = shape(&findings, &filters(None, None, None));
    assert_eq!(order(&shaped), vec![0, 3, 5, 1, 4, 2]);
    assert_eq!(shaped.total, 6);
    assert_eq!(count_of(&shaped.by_severity, "warning"), Some(6));
    assert_eq!(count_of(&shaped.by_rule, "a"), Some(3));
    assert_eq!(count_of(&shaped.by_rule, "b"), Some(2));
    assert_eq!(count_of(&shaped.by_rule, "c"), Some(1));
}

#[test]
fn the_wire_neutral_constructor_takes_parsed_values_with_no_json_in_sight() {
    let unfiltered = FindingFilters::new(None, None, None).ok().expect("no filters always construct");
    assert_eq!(unfiltered.min_severity, None);
    assert_eq!(unfiltered.rule, None);
    assert_eq!(unfiltered.limit, None);
    let filtered = FindingFilters::new(Some("warning"), Some("sql/nplus1"), Some(0)).ok().expect("valid values construct");
    assert_eq!(filtered.min_severity.as_deref(), Some("warning"));
    assert_eq!(filtered.rule.as_deref(), Some("sql/nplus1"));
    assert_eq!(filtered.limit, Some(0));
}

#[test]
fn shape_list_echoes_the_callers_hint_verbatim_instead_of_a_shared_default() {
    let items: Vec<usize> = (0..5).collect();
    let hint = "`buckets.edges` carries the full, uncapped count";
    let (shown, truncated) = shape_list(&items, 2, hint);
    assert_eq!(shown.len(), 2);
    let t = truncated.expect("a capped list always discloses");
    assert_eq!((t.shown, t.total_matching, t.hint.as_str()), (2, 5, hint));
    assert!(shape_list(&items, 5, hint).1.is_none());
}

#[test]
fn the_counts_do_not_depend_on_the_order_of_the_findings() {
    let fs = vec![
        at(&[], "src/a.ts", "r1", "high"),
        at(&[], "src/b.ts", "r2", "low"),
        at(&[], "lib/c.ts", "r1", "high"),
        at(&[], "lib/d.ts", "r3", "medium"),
        finding("r2", "low", 4),
    ];
    let mut rev = fs.clone();
    rev.reverse();
    let f = filters(None, None, None);
    let a = shape(&fs, &f);
    let b = shape(&rev, &f);
    assert_eq!(a.total, b.total);
    let keys = |s: &ShapedFindings| -> Vec<(String, usize, String, usize)> {
        s.by_severity.iter().zip(s.by_rule.iter()).map(|(x, y)| (x.key.clone(), x.count, y.key.clone(), y.count)).collect()
    };
    assert_eq!(keys(&a), keys(&b));
    let dirs = |s: &ShapedFindings| -> Option<(Vec<(String, usize, usize)>, String)> {
        s.by_directory.as_ref().map(|d| {
            (d.directories.iter().map(|r| (r.dir.clone(), r.findings, r.share_tenths)).collect(), d.basis.clone())
        })
    };
    assert_eq!(dirs(&a), dirs(&b));
    assert!(a.by_directory.is_some());
}

/// Every field of a shaped block, spelled out so two blocks can be compared whole.
fn fingerprint(s: &ShapedFindings) -> String {
    let mut out = format!("total={} byRuleMeaning={} shownMeaning={}\n", s.total, s.by_rule_meaning, s.shown_meaning);
    for c in s.by_severity.iter().chain(s.by_rule.iter()) {
        out += &format!("census {}={}\n", c.key, c.count);
    }
    for f in &s.shown {
        out += &format!("shown {} {:?} {:?} {:?} {}\n", f.index, f.message, f.message_ref, f.template_parts, f.message_by);
    }
    out += &format!("ruleMessages {:?}\nruleMessageTemplates {:?}\nbyId {}\n", s.rule_messages, s.rule_message_templates, s.message_by_id);
    if let Some(d) = &s.by_directory {
        for r in &d.directories {
            out += &format!("dir {} {} {}\n", r.dir, r.findings, r.share_tenths);
        }
        out += &format!("basis {} meaning {}\n", d.basis, d.meaning);
    }
    for d in [&s.test_paths, &s.build_paths] {
        out += &format!("disclosure {:?}\n", d.as_ref().map(|d| (d.count, d.meaning.clone())));
    }
    out += &format!("filtered {:?}\n", s.filtered.as_ref().map(|d| (d.severity.clone(), d.rule.clone(), d.elided, d.meaning.clone())));
    if let Some(t) = &s.truncated {
        out += &format!("truncated {} {} {} {}\n", t.shown, t.total_matching, t.hint, t.meaning);
        for b in &t.severities_not_shown {
            out += &format!("band {} {} {} {:?}\n", b.severity, b.count, b.rule_count, b.first_omitted);
        }
    }
    out += &format!("note {:?}\n", s.note);
    out
}

#[test]
fn shaping_the_same_findings_twice_gives_the_same_block() {
    let body = LONG_PROSE;
    let mut findings = Vec::new();
    for i in 0..4 {
        findings.push(finding_msg("secrets/committed", "critical", i, body));
    }
    for (i, table) in ["users", "bookings", "webhooks", "teams"].iter().enumerate() {
        findings.push(finding_msg("db/missing-index", "warning", 10 + i, &format!("Table {table} {body} Index {table}.")));
    }
    for i in 0..3 {
        findings.push(finding_msg("style/nit", "info", 20 + i, "Prefer const."));
    }
    let f = filters(None, None, Some(9));
    let first = shape(&findings, &f);
    let second = shape(&findings, &f);
    assert!(first.truncated.is_some(), "the limit cuts the window");
    assert!(first.rule_message_templates.is_some(), "the interpolating rule templates");
    assert_eq!(fingerprint(&first), fingerprint(&second));
}
