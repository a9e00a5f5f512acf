use zzop_summary::graph::risk::{project, CriticalRow, RiskTree, SeamRow};
use zzop_summary::graph::DEFAULT_RISK_TOP;

const SCORES: usize = 15;

fn hub(path: &str, blast: u64, loc: u64) -> CriticalRow {
    CriticalRow { path: Some(path.to_string()), blast_radius: Some(blast), loc: Some(loc) }
}

fn one_tree() -> Vec<RiskTree> {
    vec![RiskTree {
        source_id: Some("web".to_string()),
        has_scores: true,
        critical: vec![hub("src/core/registry.ts", 120, 300), hub("src/util/log.ts", 40, 20)],
        seams: vec![SeamRow { folder: Some("src/core".to_string()), files: Some(12), boundary_edges: Some(4) }],
    }]
}

#[test]
fn hubs_and_seams_are_drawn_with_their_numbers() {
    let m = project(&one_tree(), None, DEFAULT_RISK_TOP, SCORES);
    assert!(m.contains("flowchart TD"), "{m}");
    assert!(m.contains("src/core/registry.ts"), "{m}");
    assert!(m.contains("blast 120"), "{m}");
    assert!(m.contains("12 files, 4 boundary edges"), "{m}");
    assert!(m.contains("complete: all 2 hubs and 1 seams"), "{m}");
}

#[test]
fn an_arrow_means_containment_and_only_for_a_hub_inside_that_seam() {
    let m = project(&one_tree(), None, DEFAULT_RISK_TOP, SCORES);
    assert!(m.contains("s0 --> h0"), "{m}");
    assert!(!m.contains("s0 --> h1"), "{m}");
}

#[test]
fn the_scores_omission_is_named_in_the_document() {
    let m = project(&one_tree(), None, DEFAULT_RISK_TOP, SCORES);
    assert!(m.contains(&format!("NOT drawn: the {SCORES} structural health scores")), "{m}");
    assert!(m.contains("1 tree(s) computed them"), "{m}");
    assert!(!m.contains("zzop facts"), "{m}");
    assert!(m.contains("architecture.pain"), "{m}");
}

#[test]
fn capping_truncates_the_engine_ranking_rather_than_resorting_it() {
    let m = project(&one_tree(), None, 1, SCORES);
    assert!(m.contains("src/core/registry.ts"), "{m}");
    assert!(!m.contains("src/util/log.ts"), "{m}");
    assert!(m.contains("PARTIAL VIEW"), "{m}");
    assert!(m.contains("CONTAINMENT, not imports"), "{m}");
}

#[test]
fn the_cap_is_per_kind_so_seams_cannot_be_crowded_out_by_hubs() {
    let m = project(&one_tree(), None, 1, SCORES);
    assert!(m.contains("src/core"), "{m}");
}

#[test]
fn scope_filters_both_kinds_by_prefix() {
    let m = project(&one_tree(), Some("src/util"), DEFAULT_RISK_TOP, SCORES);
    assert!(m.contains("hubs: drawn 1 / in-scope 1 / total 2"), "{m}");
    assert!(m.contains("seams: drawn 0 / in-scope 0 / total 1"), "{m}");
}

#[test]
fn a_run_with_no_risk_data_says_why_rather_than_drawing_an_empty_picture() {
    let trees = vec![RiskTree { source_id: Some("a".to_string()), has_scores: false, critical: vec![], seams: vec![] }];
    let m = project(&trees, None, 5, SCORES);
    assert!(m.contains("No hubs or seams"), "{m}");
    assert!(m.contains("need git signals"), "{m}");
    assert!(m.contains("NOT the same as a repo with"), "{m}");
}

#[test]
fn the_same_analysis_renders_identical_bytes() {
    assert_eq!(
        project(&one_tree(), None, DEFAULT_RISK_TOP, SCORES),
        project(&one_tree(), None, DEFAULT_RISK_TOP, SCORES)
    );
}

#[test]
fn the_whole_risk_document_is_exact() {
    let m = project(&one_tree(), None, 1, SCORES);
    let expected = [
        "%% zzop graph --domain risk — blast-radius hubs and extraction seams",
        "%% hubs: drawn 1 / in-scope 2 / total 2 | seams: drawn 1 / in-scope 1 / total 1",
        "%% per-kind cap --top 1",
        "%% NOT drawn: the 15 structural health scores (1 tree(s) computed them). They are a table of numbers, not a graph; a flowchart of them would be worse than the table. Composite in `zzop analyze`'s architecture.pain.",
        "flowchart TD",
        "  s0[[\"src/core<br/>12 files, 4 boundary edges\"]]",
        "  h0[[\"src/core/registry.ts<br/>blast 120 · 300 loc\"]]",
        "  s0 --> h0",
        "  zzopNote[\"PARTIAL VIEW: 1 of 2 hubs and 1 of 1 seams drawn (1 dropped by --top 1). Arrows mean CONTAINMENT, not imports — use --domain dep for import direction.\"]",
    ];
    assert_eq!(m, format!("{}\n", expected.join("\n")));
}

#[test]
fn several_trees_qualify_labels_and_missing_numbers_read_as_zero() {
    let trees = vec![
        RiskTree {
            source_id: Some("fe".to_string()),
            has_scores: false,
            critical: vec![CriticalRow { path: Some("a\"b.ts".to_string()), blast_radius: None, loc: None }],
            seams: vec![],
        },
        RiskTree { source_id: Some("be".to_string()), has_scores: true, critical: vec![], seams: vec![] },
    ];
    let m = project(&trees, None, 5, SCORES);
    assert!(m.contains("h0[[\"fe::a'b.ts<br/>blast 0 · 0 loc\"]]"), "{m}");
}
