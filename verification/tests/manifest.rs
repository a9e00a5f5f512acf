use serde_json::Value;
use zzop_summary::manifest::diff::{diff_manifests, refusal_message, ManifestDiff, ManifestDoc, RowEntry, SourceEntry, TOOL_DRIFT_WARNING};
use zzop_summary::manifest::{manifest_json_text, project, BucketEntry, Identity, LinkEntry, Manifest, ManifestRun, ManifestTree};

const TOOL: &str = "zzop/0.1.0 zzop-parser-typescript=cafe";

/// The JSON spelling of a plain string.
fn q(s: &str) -> String {
    format!("\"{s}\"")
}

fn tree(source_id: &str, degraded: u64, provides: &[&str]) -> ManifestTree {
    ManifestTree {
        source_id: q(source_id),
        source_text: Some(source_id.to_string()),
        join_contribution_zero: "false".to_string(),
        degraded: degraded.to_string(),
        provides: provides
            .iter()
            .map(|key| Identity { kind: q("http"), key: q(key) })
            .collect(),
    }
}

fn member(source: &str, key: Option<&str>, raw: Option<&str>) -> BucketEntry {
    BucketEntry { kind: q("http"), key: key.map(q), raw: raw.map(q), source: q(source) }
}

/// `fe` calls two routes, `be` provides one of them (the other is unprovided), plus a third
/// provide nobody consumes; `be` declares one route twice, from two sites.
fn engine_output() -> ManifestRun {
    ManifestRun {
        trees: vec![
            tree("fe", 0, &[]),
            tree("be", 0, &["GET /api/users", "GET /api/legacy", "GET /api/users"]),
        ],
        edges: vec![LinkEntry { kind: q("http"), key: q("GET /api/users"), from: q("fe"), to: q("be") }],
        unconsumed_provides: vec![member("be", Some("GET /api/legacy"), None)],
        unprovided_consumes: vec![member("fe", Some("GET /api/gone"), None)],
        unresolved_consumes: vec![member("fe", None, Some("url(x)"))],
        external_consumes: Vec::new(),
        ambiguous_consumes: Vec::new(),
    }
}

fn rows(v: &[zzop_summary::graph::distinct::Text]) -> Vec<String> {
    v.iter().map(|t| t.text.clone()).collect()
}

fn source_ids(m: &Manifest) -> Vec<String> {
    m.sources.iter().map(|s| s.source_id.clone()).collect()
}

fn field(v: &Value, key: &str) -> Option<String> {
    v.get(key).and_then(Value::as_str).map(str::to_string)
}

fn row_entries(v: &[zzop_summary::graph::distinct::Text]) -> Vec<RowEntry> {
    v.iter()
        .map(|t| {
            let parsed: Value = serde_json::from_str(&t.text).expect("a row is JSON");
            RowEntry {
                text: parsed.to_string(),
                kind: field(&parsed, "kind"),
                key: field(&parsed, "key"),
                bucket: field(&parsed, "bucket"),
                source: field(&parsed, "source"),
                from: field(&parsed, "from"),
                to: field(&parsed, "to"),
            }
        })
        .collect()
}

/// The manifest `m` as the diff reads it back.
fn doc(m: &Manifest) -> ManifestDoc {
    ManifestDoc {
        tool: Some(m.tool.clone()),
        sources: Some(
            m.sources
                .iter()
                .map(|s| SourceEntry {
                    source_id: s.source_text.clone(),
                    join_contribution_zero: serde_json::from_str::<Value>(&s.join_contribution_zero)
                        .ok()
                        .and_then(|v| v.as_bool()),
                    degraded: serde_json::from_str::<Value>(&s.degraded).ok().and_then(|v| v.as_i64()),
                })
                .collect(),
        ),
        provides: Some(row_entries(&m.provides)),
        edges: Some(row_entries(&m.edges)),
        buckets: Some(row_entries(&m.buckets)),
    }
}

fn manifest_doc(run: &ManifestRun) -> ManifestDoc {
    doc(&project(run, TOOL))
}

fn delta(a: &ManifestDoc, b: &ManifestDoc) -> ManifestDiff {
    diff_manifests(a, b, false).expect("same build diffs")
}

fn no_suspect(d: &ManifestDiff) -> bool {
    d.transitions.iter().all(|t| !t.blind)
        && d.provides.suspect.iter().all(|s| !s)
        && d.edges.suspect.iter().all(|s| !s)
        && d.buckets.suspect.iter().all(|s| !s)
}

#[test]
fn the_manifest_carries_deduped_identity_and_never_a_path_or_a_line() {
    let m = project(&engine_output(), TOOL);
    assert_eq!(
        rows(&m.provides),
        [
            r#"{"key":"GET /api/legacy","kind":"http","source":"be"}"#,
            r#"{"key":"GET /api/users","kind":"http","source":"be"}"#,
        ],
        "sorted, and the twice-declared route collapses to one identity"
    );
    assert_eq!(rows(&m.edges), [r#"{"from":"fe","key":"GET /api/users","kind":"http","to":"be"}"#]);
    assert_eq!(
        rows(&m.buckets),
        [
            r#"{"bucket":"unconsumedProvides","key":"GET /api/legacy","kind":"http","source":"be"}"#,
            r#"{"bucket":"unprovidedConsumes","key":"GET /api/gone","kind":"http","source":"fe"}"#,
            r#"{"bucket":"unresolvedConsumes","key":"url(x)","kind":"http","source":"fe"}"#,
        ],
        "every non-edge bucket membership, sorted by the row's own text"
    );
    let all: Vec<String> = rows(&m.provides).into_iter().chain(rows(&m.edges)).chain(rows(&m.buckets)).collect();
    for banned in ["src/a.ts", "src/x.ts", "\"line\"", "\"root\"", "\"file\""] {
        assert!(all.iter().all(|r| !r.contains(banned)), "manifest must not carry {banned}: {all:?}");
    }
}

#[test]
fn the_same_analysis_projects_byte_identically() {
    let mut reversed = engine_output();
    reversed.trees.reverse();
    let a = project(&engine_output(), TOOL);
    let b = project(&reversed, TOOL);
    assert_eq!(rows(&a.provides), rows(&b.provides));
    assert_eq!(rows(&a.edges), rows(&b.edges));
    assert_eq!(rows(&a.buckets), rows(&b.buckets));
    let facts = |m: &Manifest| -> Vec<(String, String, String)> {
        m.sources
            .iter()
            .map(|s| (s.source_id.clone(), s.join_contribution_zero.clone(), s.degraded.clone()))
            .collect()
    };
    assert_eq!(facts(&a), facts(&b));
    assert_eq!(a.tool, b.tool);
}

#[test]
fn source_rows_are_ordered_by_identity_not_by_their_coverage_numbers() {
    let mut degraded = engine_output();
    degraded.trees[1].degraded = "9".to_string();
    degraded.trees[1].join_contribution_zero = "true".to_string();
    assert_eq!(source_ids(&project(&engine_output(), TOOL)), [q("be"), q("fe")]);
    assert_eq!(source_ids(&project(&degraded, TOOL)), [q("be"), q("fe")], "coverage must not re-order");
}

#[test]
fn an_identical_pair_diffs_to_nothing() {
    let m = manifest_doc(&engine_output());
    let d = delta(&m, &m);
    assert!(d.transitions.is_empty());
    for (relation, r) in [("provides", &d.provides), ("edges", &d.edges), ("buckets", &d.buckets)] {
        assert!(r.added.is_empty(), "{relation}");
        assert!(r.removed.is_empty(), "{relation}");
    }
    assert!(d.tool_drift.is_none(), "same build, nothing to disclose");
}

#[test]
fn a_cross_build_diff_is_refused_and_only_discloses_when_forced() {
    let a = manifest_doc(&engine_output());
    let mut b = manifest_doc(&engine_output());
    b.tool = Some("zzop/0.0.1-other zzop-parser-typescript=deadbeef".to_string());
    let err = match diff_manifests(&a, &b, false) {
        Err(e) => e,
        Ok(_) => panic!("different zzop builds must not diff silently"),
    };
    assert!(err.contains("different zzop builds"), "{err}");
    assert!(err.contains("--allow-tool-drift"), "the escape hatch is named: {err}");
    let forced = diff_manifests(&a, &b, true).expect("forced");
    let drift = forced.tool_drift.expect("forcing it must disclose");
    assert!(drift.warning.contains("unattributable"), "forcing it must DISCLOSE, not go quiet");
    assert_eq!(drift.a, TOOL);
    assert_eq!(drift.b, "zzop/0.0.1-other zzop-parser-typescript=deadbeef");
}

#[test]
fn a_removal_under_a_coverage_drop_is_tagged_a_blindness_suspect() {
    let a = manifest_doc(&engine_output());
    let mut degraded = engine_output();
    degraded.trees[1].degraded = "4".to_string();
    degraded.trees[1].provides = Vec::new();
    degraded.edges = Vec::new();
    degraded.unconsumed_provides = Vec::new();
    degraded.unprovided_consumes = vec![member("fe", Some("GET /api/gone"), None), member("fe", Some("GET /api/users"), None)];
    let b = manifest_doc(&degraded);
    let d = delta(&a, &b);

    assert_eq!(d.sources.coverage_dropped.len(), 1);
    let drop = &d.sources.coverage_dropped[0];
    assert_eq!(
        (drop.source_id.as_str(), drop.jcz_a, drop.jcz_b, drop.degraded_a, drop.degraded_b),
        ("be", false, false, 0, 4)
    );
    assert_eq!(d.provides.removed.len(), 2);
    assert!(d.provides.suspect.iter().all(|s| *s), "be's provides vanished while be lost coverage");

    assert_eq!(d.transitions.len(), 1);
    let t = &d.transitions[0];
    assert_eq!((t.kind.as_str(), t.key.as_str()), ("http", "GET /api/users"));
    assert_eq!(rows(&t.from), ["edges"]);
    assert_eq!(rows(&t.to), ["unprovidedConsumes"]);
    assert!(t.blind);

    // Same structural change, coverage held: the flag is absent everywhere.
    let mut held = degraded;
    held.trees[1].degraded = "0".to_string();
    let d2 = delta(&a, &manifest_doc(&held));
    assert!(d2.sources.coverage_dropped.is_empty());
    assert!(no_suspect(&d2), "the tag must track the coverage fact, not merely the removal");
    assert_eq!(d2.transitions.len(), 1);
}

#[test]
fn a_vanished_source_makes_its_removals_suspects_too() {
    let a = manifest_doc(&engine_output());
    let mut dropped = engine_output();
    dropped.trees.truncate(1);
    dropped.edges = Vec::new();
    dropped.unconsumed_provides = Vec::new();
    let d = delta(&a, &manifest_doc(&dropped));
    assert_eq!(rows(&d.sources.removed), ["be"]);
    assert!(d.sources.added.is_empty());
    assert_eq!(d.edges.removed, [0]);
    assert_eq!(d.edges.suspect, [true]);
}

#[test]
fn a_non_manifest_argument_is_a_named_error_naming_which_side() {
    let m = manifest_doc(&engine_output());
    let findings = ManifestDoc { tool: None, sources: None, provides: None, edges: None, buckets: None };
    let err = match diff_manifests(&findings, &m, false) {
        Err(e) => e,
        Ok(_) => panic!("not a manifest"),
    };
    assert!(err.contains("the first manifest"), "{err}");
    let tool_only = ManifestDoc { tool: Some("x".to_string()), sources: None, provides: None, edges: None, buckets: None };
    let err = match diff_manifests(&m, &tool_only, false) {
        Err(e) => e,
        Ok(_) => panic!("not a manifest"),
    };
    assert!(err.contains("the second manifest"), "{err}");
    assert!(err.contains("sources"), "names the missing relation: {err}");
}

#[test]
fn a_missing_later_relation_is_named_after_the_earlier_ones_pass() {
    let mut m = manifest_doc(&engine_output());
    m.buckets = None;
    let good = manifest_doc(&engine_output());
    let err = match diff_manifests(&good, &m, false) {
        Err(e) => e,
        Ok(_) => panic!("not a manifest"),
    };
    assert_eq!(err, "the second manifest has no `buckets` array — is it a `zzop manifest` output?");
}

#[test]
fn the_refusal_quotes_both_builds_as_debug_spells_them() {
    let a = manifest_doc(&engine_output());
    let mut b = manifest_doc(&engine_output());
    b.tool = Some("other \"build\"".to_string());
    let err = match diff_manifests(&a, &b, false) {
        Err(e) => e,
        Ok(_) => panic!("refused"),
    };
    assert_eq!(err, refusal_message(&format!("{TOOL:?}"), "\"other \\\"build\\\"\""));
    assert!(err.starts_with("refusing to diff manifests produced by different zzop builds — \"zzop/0.1.0"));
    assert!(TOOL_DRIFT_WARNING.contains("DIFFERENT zzop builds"));
}

#[test]
fn an_added_route_is_an_addition_and_not_a_transition() {
    let a = manifest_doc(&engine_output());
    let mut grown = engine_output();
    grown.trees[1].provides.push(Identity { kind: q("http"), key: q("GET /api/new") });
    grown.unconsumed_provides.push(member("be", Some("GET /api/new"), None));
    let b = manifest_doc(&grown);
    let d = delta(&a, &b);
    assert!(d.transitions.is_empty(), "a key new to the second run did not move");
    assert_eq!(d.provides.added, [1]);
    assert!(d.provides.removed.is_empty());
    assert_eq!(d.buckets.added, [1]);
    assert!(no_suspect(&d));
}

#[test]
fn the_manifests_top_level_keys_are_exactly_the_shared_relation_vocabulary() {
    let text = manifest_json_text(&project(&engine_output(), TOOL));
    let m: Value = serde_json::from_str(&text).expect("the manifest is JSON");
    let keys: Vec<&str> = m.as_object().expect("root object").keys().map(String::as_str).collect();
    let mut expected: Vec<&str> = vec!["provides", "edges", "buckets"];
    expected.extend(["sources", "tool"]);
    expected.sort_unstable();
    assert_eq!(keys, expected);
}

#[test]
fn the_manifest_text_never_carries_a_path_or_a_line() {
    let text = manifest_json_text(&project(&engine_output(), TOOL));
    for banned in ["src/a.ts", "src/x.ts", "\"line\"", "\"root\"", "\"file\""] {
        assert!(!text.contains(banned), "manifest must not carry {banned}: {text}");
    }
    let m: Value = serde_json::from_str(&text).expect("the manifest is JSON");
    assert_eq!(m["sources"][0]["sourceId"], "be");
    assert_eq!(m["sources"][0]["degraded"], 0);
    assert_eq!(m["sources"][0]["joinContributionZero"], false);
    assert_eq!(m["tool"], TOOL);
    assert_eq!(m["edges"][0]["from"], "fe");
}
