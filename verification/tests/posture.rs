use zzop_summary::graph::posture::{project, FlagRow, PostureTree, ProvideRow};
use zzop_summary::graph::DEFAULT_POSTURE_TOP;

fn provide(kind: &str, key: &str, file: &str, line: u64) -> ProvideRow {
    ProvideRow { kind: Some(kind.to_string()), key: Some(key.to_string()), file: Some(file.to_string()), line: Some(line) }
}

fn tree(source: &str, findings: Vec<FlagRow>, provides: Vec<ProvideRow>) -> PostureTree {
    PostureTree { source_id: Some(source.to_string()), findings, provides }
}

fn one_tree() -> Vec<PostureTree> {
    vec![tree(
        "api",
        vec![FlagRow {
            rule_id: Some("mutating-route-no-auth".to_string()),
            file: Some("src/users.ts".to_string()),
            line: Some(10),
        }],
        vec![
            provide("http", "POST /users", "src/users.ts", 10),
            provide("http", "DELETE /users/{}", "src/users.ts", 20),
            provide("http", "GET /users", "src/users.ts", 30),
            provide("db-table", "users", "src/db.ts", 1),
        ],
    )]
}

#[test]
fn only_mutating_http_routes_are_drawn() {
    let m = project(&one_tree(), None, DEFAULT_POSTURE_TOP);
    assert!(m.contains("POST /users"), "{m}");
    assert!(m.contains("DELETE /users/{}"), "{m}");
    assert!(!m.contains("GET /users"), "{m}");
    assert!(!m.contains("db-table"), "{m}");
    assert!(m.contains("drawn 2 / total 2"), "{m}");
}

#[test]
fn the_flagged_route_gets_the_flag_shape_and_the_other_does_not() {
    let m = project(&one_tree(), None, DEFAULT_POSTURE_TOP);
    assert!(m.contains("r0>\""), "{m}");
    assert!(m.contains("r1[\""), "{m}");
    assert!(m.contains("reported unguarded: 1"), "{m}");
}

#[test]
fn a_box_is_labelled_guarded_or_exempt_never_proven_guarded() {
    let m = project(&one_tree(), None, DEFAULT_POSTURE_TOP);
    assert!(m.contains("GUARDED-OR-EXEMPT, not"), "{m}");
    assert!(m.contains("not proven guarded"), "{m}");
    assert!(m.contains("uncovered language"), "{m}");
}

#[test]
fn routes_are_grouped_by_tree_and_the_subgraph_id_is_sanitized() {
    let trees = vec![tree("web-fe/app", vec![], vec![provide("http", "PUT /a", "a.ts", 1)])];
    let m = project(&trees, None, DEFAULT_POSTURE_TOP);
    assert!(m.contains("subgraph web_fe_app"), "{m}");
}

#[test]
fn the_cap_is_per_tree_and_the_drop_is_disclosed() {
    let m = project(&one_tree(), None, 1);
    assert!(m.contains("drawn 1 / total 2"), "{m}");
    assert!(m.contains("PARTIAL VIEW"), "{m}");
}

#[test]
fn scope_filters_by_source_or_file_prefix() {
    let m = project(&one_tree(), Some("nope/"), DEFAULT_POSTURE_TOP);
    assert!(m.contains("drawn 0 / total 2"), "{m}");
}

#[test]
fn a_tree_with_no_mutating_routes_says_why_rather_than_implying_safety() {
    let trees = vec![tree("a", vec![], vec![])];
    let m = project(&trees, None, 5);
    assert!(m.contains("NOT the same as a repo with no"), "{m}");
    assert!(m.contains("extraction gap"), "{m}");
}

#[test]
fn every_write_method_the_rule_gates_on_is_drawn() {
    for method in ["POST", "PUT", "PATCH", "DELETE", "delete", "Patch"] {
        let trees = vec![tree("a", vec![], vec![provide("http", &format!("{method} /x"), "a.ts", 1)])];
        assert!(project(&trees, None, 5).contains("drawn 1 / total 1"), "{method}");
    }
    let reads = vec![tree("a", vec![], vec![provide("http", "GETX /x", "a.ts", 1), provide("http", "POST", "a.ts", 2)])];
    assert!(project(&reads, None, 5).contains("drawn 0 / total 0"));
}

#[test]
fn tests_the_same_analysis_renders_identical_bytes() {
    assert_eq!(project(&one_tree(), None, 5), project(&one_tree(), None, 5));
}

#[test]
fn the_whole_posture_document_is_exact() {
    let mut trees = one_tree();
    trees.push(tree("", vec![], vec![provide("http", "PATCH /\"q\"", "b.ts", 3)]));
    let m = project(&trees, None, 1);
    let expected = [
        "%% zzop graph --domain posture — mutating attack surface and its guard status",
        "%% mutating routes: drawn 2 / total 3 | reported unguarded: 1 | per-tree cap --top 1",
        "%% NOT drawn: read routes (a GET is not unguarded, it is a read) and non-http io. Guard status is this run's `mutating-route-no-auth` verdict, never re-derived here.",
        "flowchart LR",
        "  subgraph tree",
        "    r1[\"PATCH /'q'<br/>b.ts\"]",
        "  end",
        "  subgraph api",
        "    r0>\"POST /users<br/>src/users.ts\"]",
        "  end",
        "  zzopLegend[\"flag shape = reported unguarded (1). box = GUARDED-OR-EXEMPT, not proven guarded: the rule also stays silent on routes it cannot judge (uncovered language, unresolved handler, test file, auth-acquisition path). Absence of a finding is not proof of a guard.\"]",
        "  zzopNote[\"PARTIAL VIEW: 2 of 3 mutating routes drawn.\"]",
    ];
    assert_eq!(m, format!("{}\n", expected.join("\n")));
}
