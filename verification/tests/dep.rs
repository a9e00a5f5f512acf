use zzop_summary::graph::dep::picture::project;
use zzop_summary::graph::dep::universe::collect;
use zzop_summary::graph::dep::{CycleFinding, DepEntry, DepTree};
use zzop_summary::graph::fold::Fold;
use zzop_summary::graph::DEFAULT_DEP_TOP;

const ERASED: &str = "type-only imports are subtracted before cycle detection.";

fn entry(from: &str, to: &[&str]) -> DepEntry {
    DepEntry { from: from.to_string(), to: to.iter().map(|t| Some(t.to_string())).collect() }
}

fn circular(members: &[&str]) -> CycleFinding {
    CycleFinding {
        rule_id: Some("circular".to_string()),
        file: Some(members[0].to_string()),
        members: members.iter().map(|m| Some(m.to_string())).collect(),
    }
}

fn tree(source: &str, dep: Vec<DepEntry>, findings: Vec<CycleFinding>) -> DepTree {
    DepTree { source_id: Some(source.to_string()), dep, loc: vec![], git_window: None, git_rows: vec![], findings }
}

fn one_tree() -> Vec<DepTree> {
    vec![tree(
        "web",
        vec![
            entry("src/a.ts", &["src/b.ts"]),
            entry("src/b.ts", &["src/c.ts"]),
            entry("src/c.ts", &["src/a.ts"]),
            entry("src/leaf.ts", &[]),
        ],
        vec![circular(&["src/a.ts", "src/b.ts", "src/c.ts"])],
    )]
}

fn texts(u: &zzop_summary::graph::dep::universe::DepUniverse) -> Vec<String> {
    u.cycle_files.iter().map(|t| t.text.clone()).collect()
}

#[test]
fn every_member_of_the_rules_own_circular_finding_is_a_cycle_file_not_just_the_anchor() {
    let u = collect(&one_tree());
    assert_eq!(texts(&u), vec!["src/a.ts".to_string(), "src/b.ts".to_string(), "src/c.ts".to_string()]);
    assert_eq!(u.cycles, 1);
}

#[test]
fn every_file_and_edge_is_drawn_when_nothing_is_capped() {
    let m = project(&one_tree(), None, DEFAULT_DEP_TOP, Fold::of(None), ERASED);
    assert!(m.contains("flowchart LR"), "{m}");
    for f in ["src/a.ts", "src/b.ts", "src/c.ts", "src/leaf.ts"] {
        assert!(m.contains(f), "{f} missing from:\n{m}");
    }
    assert!(m.contains("nodes: drawn 4 / in-scope 4 / total 4"), "{m}");
    assert!(m.contains("edges: drawn 3 / total 3"), "{m}");
    assert!(m.contains("complete: all 4 files"), "{m}");
}

#[test]
fn files_in_a_cycle_get_a_distinct_shape_and_a_thick_arrow() {
    let m = project(&one_tree(), None, DEFAULT_DEP_TOP, Fold::of(None), ERASED);
    assert!(m.contains("{{\"src/a.ts\"}}"), "{m}");
    assert!(m.contains("[\"src/leaf.ts\"]"), "{m}");
    assert!(m.contains("==>"), "{m}");
    assert!(m.contains("1 circular finding(s)"), "{m}");
}

#[test]
fn a_tree_with_no_cycle_prints_no_cycle_legend() {
    let v = vec![tree("web", vec![entry("src/a.ts", &["src/b.ts"]), entry("src/b.ts", &[])], vec![])];
    let m = project(&v, None, DEFAULT_DEP_TOP, Fold::of(None), ERASED);
    assert!(!m.contains("circular finding"), "{m}");
    assert!(!m.contains("==>"), "{m}");
}

fn mutual_pair_no_cycle() -> Vec<DepTree> {
    vec![tree(
        "web",
        vec![
            entry("src/app.slice.ts", &["src/types/user.ts"]),
            entry("src/types/user.ts", &["src/app.slice.ts"]),
            entry("src/leaf.ts", &["src/types/user.ts"]),
        ],
        vec![],
    )]
}

#[test]
fn a_two_way_import_pair_outside_every_cycle_is_disclosed_even_though_no_cycle_was_reported() {
    let u = collect(&mutual_pair_no_cycle());
    assert_eq!(u.cycles, 0);
    assert_eq!(u.mutual_outside_cycles, 1);
    let m = project(&mutual_pair_no_cycle(), None, DEFAULT_DEP_TOP, Fold::of(None), ERASED);
    assert!(m.contains("1 file pair(s) import EACH OTHER but are in no reported cycle"), "{m}");
    assert!(m.contains("subtracted before cycle detection"), "{m}");
    assert!(!m.contains("circular finding"), "{m}");
}

#[test]
fn a_graph_with_no_two_way_pair_says_nothing_about_erased_imports() {
    let m = project(&one_tree(), None, DEFAULT_DEP_TOP, Fold::of(None), ERASED);
    assert_eq!(collect(&one_tree()).mutual_outside_cycles, 0, "{m}");
    assert!(!m.contains("import EACH OTHER"), "{m}");
}

#[test]
fn a_two_way_pair_inside_a_reported_cycle_is_not_counted_as_a_disagreement() {
    let v = vec![tree(
        "web",
        vec![entry("src/a.ts", &["src/b.ts"]), entry("src/b.ts", &["src/a.ts"])],
        vec![circular(&["src/a.ts", "src/b.ts"])],
    )];
    assert_eq!(collect(&v).mutual_outside_cycles, 0);
    assert!(!project(&v, None, DEFAULT_DEP_TOP, Fold::of(None), ERASED).contains("import EACH OTHER"));
}

#[test]
fn capping_keeps_the_most_connected_files_and_discloses_the_drop_in_the_picture() {
    let m = project(&one_tree(), None, 2, Fold::of(None), ERASED);
    assert!(m.contains("nodes: drawn 2 / in-scope 4 / total 4"), "{m}");
    assert!(m.contains("PARTIAL VIEW"), "{m}");
    assert!(m.contains("2 dropped by --top 2"), "{m}");
    assert!(!m.contains("src/leaf.ts"), "{m}");
}

#[test]
fn an_edge_to_a_dropped_node_is_not_drawn_and_the_note_explains_it() {
    let m = project(&one_tree(), None, 2, Fold::of(None), ERASED);
    let arrows = m.matches("-->").count() + m.matches("==>").count();
    assert!(arrows <= 1, "{arrows}\n{m}");
    assert!(m.contains("other end was dropped is not drawn"), "{m}");
}

#[test]
fn scope_filters_by_path_prefix_and_the_header_says_how_many_survived() {
    let m = project(&one_tree(), Some("src/a"), DEFAULT_DEP_TOP, Fold::of(None), ERASED);
    assert!(m.contains("in-scope 1 / total 4"), "{m}");
    assert!(m.contains("--scope src/a"), "{m}");
}

#[test]
fn two_trees_with_the_same_relative_path_do_not_collide() {
    let v = vec![
        tree("fe", vec![entry("src/index.ts", &[])], vec![]),
        tree("be", vec![entry("src/index.ts", &[])], vec![]),
    ];
    let m = project(&v, None, DEFAULT_DEP_TOP, Fold::of(None), ERASED);
    assert!(m.contains("nodes: drawn 2 / in-scope 2 / total 2"), "{m}");
}

#[test]
fn the_same_dep_analysis_renders_identical_bytes() {
    assert_eq!(
        project(&one_tree(), None, DEFAULT_DEP_TOP, Fold::of(None), ERASED),
        project(&one_tree(), None, DEFAULT_DEP_TOP, Fold::of(None), ERASED)
    );
}

#[test]
fn a_run_with_no_dep_data_still_renders_a_valid_empty_flowchart() {
    let m = project(&vec![], None, DEFAULT_DEP_TOP, Fold::of(None), ERASED);
    assert!(m.contains("flowchart LR"), "{m}");
    assert!(m.contains("nodes: drawn 0"), "{m}");
}

#[test]
fn the_whole_dep_document_is_exact_when_capped() {
    let m = project(&one_tree(), None, 2, Fold::of(None), ERASED);
    let expected = [
        "%% zzop graph --domain dep — file import graph",
        "%% nodes: drawn 2 / in-scope 4 / total 4 | edges: drawn 1 / total 3 | cycles reported: 1",
        "%% node cap --top 2",
        "flowchart LR",
        "  f0{{\"src/a.ts\"}}",
        "  f1{{\"src/b.ts\"}}",
        "  f0 ==> f1",
        "  zzopNote[\"PARTIAL VIEW: 2 of 4 files drawn (2 dropped by --top 2), 1 of 3 edges. An edge whose other end was dropped is not drawn. Use zzop facts for the uncapped graph.\"]",
        "  zzopCycles[\"1 circular finding(s) — files in a cycle are drawn as hexagons with thick arrows\"]",
    ];
    assert_eq!(m, format!("{}\n", expected.join("\n")));
}

#[test]
fn folding_draws_boxes_weighted_by_the_imports_they_collapse() {
    let v = vec![tree(
        "web",
        vec![
            entry("fe/a.ts", &["be/x.ts", "fe/b.ts"]),
            entry("fe/b.ts", &["be/y.ts"]),
            entry("top.ts", &[]),
        ],
        vec![],
    )];
    let m = project(&v, None, DEFAULT_DEP_TOP, Fold::of(Some(1)), ERASED);
    assert!(m.contains("%% FOLDED to --fold 1 path segment(s): 5 file(s) drawn as 3 box(es), 3 file-level edge(s) as 1."), "{m}");
    assert!(m.contains("%% 1 of those box(es) are a SINGLE FILE"), "{m}");
    assert!(m.contains("--> |2| "), "{m}");
    assert!(m.contains("complete: all 3 boxes and 1 import edges drawn"), "{m}");
}
