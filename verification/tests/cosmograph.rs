use zzop_summary::graph::cosmograph::{links_ndjson, nodes_ndjson};
use zzop_summary::graph::dep::universe::collect;
use zzop_summary::graph::dep::{CycleFinding, DepEntry, DepTree, GitRow, LocEntry};
use zzop_summary::graph::{graph_cosmograph, EngineText};

fn entry(from: &str, to: &[&str]) -> DepEntry {
    DepEntry { from: from.to_string(), to: to.iter().map(|t| Some(t.to_string())).collect() }
}

fn one_tree() -> Vec<DepTree> {
    vec![DepTree {
        source_id: Some("web".to_string()),
        dep: vec![
            entry("src/a.ts", &["src/b.ts"]),
            entry("src/b.ts", &["src/c.ts"]),
            entry("src/c.ts", &["src/a.ts"]),
            entry("src/leaf.ts", &[]),
        ],
        loc: vec![],
        git_window: None,
        git_rows: vec![],
        findings: vec![CycleFinding {
            rule_id: Some("circular".to_string()),
            file: Some("src/a.ts".to_string()),
            members: vec![Some("src/a.ts".to_string()), Some("src/b.ts".to_string()), Some("src/c.ts".to_string())],
        }],
    }]
}

fn one_tree_with_loc() -> Vec<DepTree> {
    let mut v = one_tree();
    v[0].loc = vec![
        LocEntry { rel: "src/a.ts".to_string(), lines: Some(42) },
        LocEntry { rel: "src/c.ts".to_string(), lines: Some(3) },
        LocEntry { rel: "src/leaf.ts".to_string(), lines: Some(7) },
    ];
    v
}

fn git(path: &str, cc: u64, churn: u64, authors: u64, last: Option<&str>) -> GitRow {
    GitRow {
        path: Some(path.to_string()),
        change_count: Some(cc),
        churn: Some(churn),
        author_count: Some(authors),
        last_modified: last.map(str::to_string),
    }
}

fn one_tree_with_git() -> Vec<DepTree> {
    let mut v = one_tree_with_loc();
    v[0].git_window = Some(None);
    v[0].git_rows = vec![
        git("src/a.ts", 9, 120, 3, Some("2026-07-01T00:00:00Z")),
        git("src/b.ts", 0, 0, 0, None),
        git("src/leaf.ts", 2, 8, 1, Some("2025-01-02T00:00:00Z")),
    ];
    v
}

fn rows(ndjson: &str) -> Vec<serde_json::Value> {
    ndjson.lines().map(|l| serde_json::from_str(l).expect("each line parses")).collect()
}

#[test]
fn every_line_is_a_standalone_json_object() {
    let u = collect(&one_tree());
    let (nodes, _) = nodes_ndjson(&u, None);
    let (links, _) = links_ndjson(&u, None);
    assert_eq!(rows(&nodes).len(), 4);
    assert_eq!(rows(&links).len(), 3);
}

#[test]
fn the_lane_is_uncapped_and_says_so() {
    let u = collect(&one_tree());
    let (nodes, census) = nodes_ndjson(&u, None);
    assert_eq!(rows(&nodes).len(), u.nodes.len());
    assert_eq!(census.nodes_emitted, 4);
    assert_eq!(census.total_nodes, 4);
    assert!(census.render("RESOLVED", "ERASED").contains("UNCAPPED"));
}

#[test]
fn a_node_carries_every_axis_a_viewer_can_style_by() {
    let u = collect(&one_tree());
    let (nodes, _) = nodes_ndjson(&u, None);
    let a = rows(&nodes).into_iter().find(|r| r["id"] == "src/a.ts").expect("src/a.ts is a node");
    assert_eq!(a["source"], "web");
    assert_eq!(a["path"], "src/a.ts");
    assert_eq!(a["label"], "a.ts");
    assert_eq!(a["folder"], "src");
    assert_eq!(a["inCycle"], true);
    assert_eq!(a["fanIn"], 1);
    assert_eq!(a["fanOut"], 1);
    assert_eq!(a["degree"], 2);
}

#[test]
fn the_census_says_which_measured_axes_actually_rode() {
    let (_, with_git) = nodes_ndjson(&collect(&one_tree_with_git()), None);
    let line = with_git.render("RESOLVED", "ERASED");
    assert!(line.contains("loc on 3 of 4"), "{line}");
    assert!(line.contains("git history on 3 of 4"), "{line}");
    let (_, no_git) = nodes_ndjson(&collect(&one_tree()), None);
    let line = no_git.render("RESOLVED", "ERASED");
    assert!(line.contains("loc on 0 of 4") && line.contains("git history on 0 of 4"), "{line}");
    let (_, links) = links_ndjson(&collect(&one_tree_with_git()), None);
    assert!(!links.render("RESOLVED", "ERASED").contains("loc on"));
}

#[test]
fn scope_drops_edges_whose_other_end_it_dropped() {
    let trees = vec![DepTree {
        source_id: Some("web".to_string()),
        dep: vec![entry("keep/a.ts", &["drop/b.ts"]), entry("keep/c.ts", &["keep/a.ts"])],
        loc: vec![],
        git_window: None,
        git_rows: vec![],
        findings: vec![],
    }];
    let u = collect(&trees);
    let (nodes, census) = nodes_ndjson(&u, Some("keep/"));
    let ids: Vec<String> = rows(&nodes).iter().map(|r| r["id"].as_str().unwrap().to_string()).collect();
    assert_eq!(ids, vec!["keep/a.ts", "keep/c.ts"]);
    let (links, _) = links_ndjson(&u, Some("keep/"));
    let links = rows(&links);
    assert_eq!(links.len(), 1);
    assert_eq!(links[0]["source"], "keep/c.ts");
    assert_eq!(links[0]["target"], "keep/a.ts");
    assert!(census.render("RESOLVED", "ERASED").contains("--scope dropped"));
}

#[test]
fn output_is_byte_stable_across_runs() {
    let u = collect(&one_tree());
    let (n, _) = nodes_ndjson(&u, None);
    let (l, _) = links_ndjson(&u, None);
    let (n2, _) = nodes_ndjson(&collect(&one_tree()), None);
    let (l2, _) = links_ndjson(&collect(&one_tree()), None);
    assert_eq!(n, n2);
    assert_eq!(l, l2);
}

#[test]
fn a_points_row_is_exact_with_every_measured_axis() {
    let (nodes, _) = nodes_ndjson(&collect(&one_tree_with_git()), None);
    let first = nodes.lines().next().unwrap();
    assert_eq!(
        first,
        "{\"authorCount\":3,\"changeCount\":9,\"churn\":120,\"degree\":2,\"fanIn\":1,\"fanOut\":1,\"folder\":\"src\",\"id\":\"src/a.ts\",\"inCycle\":true,\"label\":\"a.ts\",\"lastModified\":\"2026-07-01T00:00:00Z\",\"loc\":42,\"path\":\"src/a.ts\",\"source\":\"web\"}"
    );
}

#[test]
fn a_links_row_names_whether_both_ends_are_cycle_members() {
    let (links, _) = links_ndjson(&collect(&one_tree()), None);
    assert_eq!(
        links.lines().next().unwrap(),
        "{\"endpointsInCycle\":true,\"inCycle\":true,\"source\":\"src/a.ts\",\"target\":\"src/b.ts\"}"
    );
}

#[test]
fn cycle_membership_survives_into_both_tables() {
    let u = collect(&one_tree());
    let (nodes, _) = nodes_ndjson(&u, None);
    let leaf = rows(&nodes).into_iter().find(|r| r["id"] == "src/leaf.ts").expect("leaf is a node");
    assert_eq!(leaf["inCycle"], false);

    let (links, _) = links_ndjson(&u, None);
    assert_eq!(rows(&links).len(), 3);
    assert!(
        rows(&links).iter().all(|r| r["inCycle"] == true),
        "all three edges are inside the 3-file cycle: {links}"
    );
}

#[test]
fn punctuation_in_a_path_survives_as_json() {
    let trees = vec![DepTree {
        source_id: Some("web".to_string()),
        dep: vec![entry("src/we\"ird,name.ts", &[])],
        loc: vec![],
        git_window: None,
        git_rows: vec![],
        findings: vec![],
    }];
    let (nodes, _) = nodes_ndjson(&collect(&trees), None);
    let r = rows(&nodes);
    assert_eq!(r[0]["path"], "src/we\"ird,name.ts");
    assert_eq!(r[0]["label"], "we\"ird,name.ts");
}

#[test]
fn the_census_names_the_git_window_and_the_resolved_graph() {
    let text = EngineText {
        tool: "zzop".to_string(),
        score_count: 15,
        resolved_only: "Degrees count resolved in-tree imports only.".to_string(),
        erased_imports: "erased".to_string(),
    };
    let out = graph_cosmograph(&one_tree_with_git(), None, false, &text);
    assert!(out.census.contains("covers FULL history — no git.since bound."), "{}", out.census);
    assert!(out.census.ends_with(" Degrees count resolved in-tree imports only."), "{}", out.census);
    let mut two = one_tree_with_git();
    let mut other = one_tree_with_git().remove(0);
    other.source_id = Some("api".to_string());
    other.git_window = Some(Some("2026-01-01".to_string()));
    two.push(other);
    let out = graph_cosmograph(&two, None, false, &text);
    assert!(out.census.contains("DIFFERENT windows per tree (full history, since 2026-01-01)"), "{}", out.census);
}

fn find<'a>(rows: &'a [serde_json::Value], id: &str) -> &'a serde_json::Value {
    rows.iter().find(|r| r["id"] == id).expect("the file is a node")
}

const GIT_AXES: [&str; 4] = ["changeCount", "churn", "authorCount", "lastModified"];

#[test]
fn loc_rides_the_row_when_the_run_measured_it() {
    let u = collect(&one_tree_with_loc());
    let (nodes, _) = nodes_ndjson(&u, None);
    let rows = rows(&nodes);
    assert_eq!(find(&rows, "src/a.ts")["loc"], 42);
    assert_eq!(find(&rows, "src/leaf.ts")["loc"], 7);
}

#[test]
fn an_unmeasured_axis_is_absent_from_the_row_rather_than_zero() {
    let u = collect(&one_tree_with_loc());
    let (nodes, _) = nodes_ndjson(&u, None);
    let rows = rows(&nodes);
    let b = find(&rows, "src/b.ts");
    assert!(b.get("loc").is_none(), "an unmeasured file must carry NO loc key, not loc: 0 — got {b}");
    assert_eq!(find(&rows, "src/a.ts")["loc"], 42);
}

#[test]
fn git_history_rides_the_row_when_the_run_collected_it() {
    let u = collect(&one_tree_with_git());
    let (nodes, _) = nodes_ndjson(&u, None);
    let rows = rows(&nodes);
    let a = find(&rows, "src/a.ts");
    assert_eq!(a["changeCount"], 9);
    assert_eq!(a["churn"], 120);
    assert_eq!(a["authorCount"], 3);
    assert_eq!(a["lastModified"], "2026-07-01T00:00:00Z");
    assert_eq!(a["loc"], 42);
    assert_eq!(a["degree"], 2);
}

#[test]
fn no_git_run_means_no_git_columns_at_all() {
    let u = collect(&one_tree_with_loc());
    let (nodes, _) = nodes_ndjson(&u, None);
    for r in rows(&nodes) {
        for axis in GIT_AXES {
            assert!(r.get(axis).is_none(), "git did not run, so no row may carry {axis} — got {r}");
        }
    }
}

#[test]
fn a_file_git_has_no_row_for_carries_no_git_columns() {
    let u = collect(&one_tree_with_git());
    let (nodes, _) = nodes_ndjson(&u, None);
    let rows = rows(&nodes);
    let c = find(&rows, "src/c.ts");
    for axis in GIT_AXES {
        assert!(c.get(axis).is_none(), "nodes[] has no row for src/c.ts, so no {axis} may be invented — got {c}");
    }
    let b = find(&rows, "src/b.ts");
    assert_eq!(b["changeCount"], 0);
    assert!(b.get("lastModified").is_none(), "a null date is not a date — omit it: {b}");
}

#[test]
fn punctuation_in_a_path_cannot_corrupt_a_row() {
    let trees = vec![DepTree {
        source_id: Some("web".to_string()),
        dep: vec![entry("src/we\"ird, name.ts", &["src/b.ts"])],
        loc: vec![],
        git_window: None,
        git_rows: vec![],
        findings: vec![],
    }];
    let (nodes, _) = nodes_ndjson(&collect(&trees), None);
    let r = rows(&nodes);
    let weird = r.iter().find(|r| r["label"] == "we\"ird, name.ts").expect("the awkward name round-trips through one line");
    assert_eq!(weird["folder"], "src");
}
