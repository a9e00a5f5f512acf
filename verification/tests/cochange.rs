use zzop_summary::graph::cochange::{project, CoChangeRow, CoChangeTree};
use zzop_summary::graph::fold::Fold;

fn edge(a: &str, b: &str, count: u64) -> CoChangeRow {
    CoChangeRow { a: Some(a.to_string()), b: Some(b.to_string()), count: Some(count) }
}

fn tree(source: &str, co_change: Option<Vec<CoChangeRow>>) -> CoChangeTree {
    CoChangeTree { source_id: Some(source.to_string()), analyzed: None, co_change }
}

fn tree_with_analyzed(source: &str, co_change: Vec<CoChangeRow>, analyzed: &[&str]) -> CoChangeTree {
    CoChangeTree {
        source_id: Some(source.to_string()),
        analyzed: Some(analyzed.iter().map(|f| f.to_string()).collect()),
        co_change: Some(co_change),
    }
}

#[test]
fn draws_undirected_edges_labelled_with_the_commit_count() {
    let out = project(&vec![tree("x", Some(vec![edge("a.rs", "b.rs", 7)]))], None, 10, Fold::of(None));
    assert!(out.contains("--- |7|"), "{out}");
    assert!(out.contains("\"a.rs\""), "{out}");
    assert!(!out.contains("-->"), "{out}");
}

#[test]
fn a_null_field_is_reported_as_not_measured_not_as_an_empty_result() {
    let out = project(&vec![tree("x", None)], None, 10, Fold::of(None));
    assert!(out.contains("NOT MEASURED in 1 of 1 tree(s)"), "{out}");
    assert!(!out.contains("MEASURED AND EMPTY"), "{out}");
}

#[test]
fn an_empty_array_is_reported_as_a_measured_zero() {
    let out = project(&vec![tree("x", Some(vec![]))], None, 10, Fold::of(None));
    assert!(out.contains("MEASURED AND EMPTY"), "{out}");
    assert!(!out.contains("NOT MEASURED"), "{out}");
}

#[test]
fn the_sample_disclosure_is_always_present_even_on_a_full_picture() {
    let out = project(&vec![tree("x", Some(vec![edge("a.rs", "b.rs", 3)]))], None, 10, Fold::of(None));
    assert!(out.contains("A SAMPLE, never a repository total"), "{out}");
    assert!(out.contains("NOT imports"), "{out}");
}

#[test]
fn the_cap_is_disclosed_with_both_the_scoped_and_total_counts() {
    let edges: Vec<CoChangeRow> = (0..5u64).map(|i| edge(&format!("a{i}.rs"), &format!("b{i}.rs"), 5 - i)).collect();
    let out = project(&vec![tree("x", Some(edges))], None, 2, Fold::of(None));
    assert!(out.contains("drawn 2 / in-scope 5 / total 5"), "{out}");
}

#[test]
fn scope_keeps_a_pair_when_either_endpoint_is_inside_it() {
    let out = project(&vec![tree("x", Some(vec![edge("src/a.rs", "docs/b.md", 4)]))], Some("src/"), 10, Fold::of(None));
    assert!(out.contains("docs/b.md"), "{out}");
    assert!(out.contains("in-scope 1"), "{out}");
}

#[test]
fn engine_order_is_preserved_rather_than_re_sorted() {
    let out = project(
        &vec![tree("x", Some(vec![edge("a.rs", "b.rs", 9), edge("c.rs", "d.rs", 1)]))],
        None,
        1,
        Fold::of(None),
    );
    assert!(out.contains("a.rs"), "{out}");
    assert!(!out.contains("c.rs"), "{out}");
}

#[test]
fn folding_collapses_pairs_and_relabels_the_edge_with_the_pair_count() {
    let out = project(
        &vec![tree("x", Some(vec![edge("fe/a.ts", "be/x.ts", 9), edge("fe/b.ts", "be/y.ts", 4)]))],
        None,
        10,
        Fold::of(Some(1)),
    );
    assert!(out.contains("--- |2|"), "{out}");
    assert!(!out.contains("|13|"), "{out}");
    assert!(out.contains("FOLDED to --fold 1"), "{out}");
    assert!(out.contains("NUMBER OF FILE-LEVEL EDGES"), "{out}");
}

#[test]
fn a_pair_inside_one_box_is_dropped_and_the_picture_says_why() {
    let out = project(
        &vec![tree("x", Some(vec![edge("fe/a.ts", "fe/b.ts", 9), edge("fe/c.ts", "be/x.ts", 3)]))],
        None,
        10,
        Fold::of(Some(1)),
    );
    assert!(out.contains("internal cohesion"), "{out}");
    assert_eq!(out.matches(" --- ").count(), 1, "{out}");
}

#[test]
fn the_cap_is_reported_against_the_folded_count_not_the_file_count() {
    let out = project(
        &vec![tree("x", Some(vec![edge("a/1.ts", "b/1.ts", 9), edge("c/1.ts", "d/1.ts", 8), edge("e/1.ts", "f/1.ts", 7)]))],
        None,
        2,
        Fold::of(Some(1)),
    );
    assert!(out.contains("the cap applies AFTER the fold: 2 of 3"), "{out}");
}

#[test]
fn an_unfolded_picture_carries_no_fold_disclosure_at_all() {
    let out = project(&vec![tree("x", Some(vec![edge("fe/a.ts", "be/x.ts", 2)]))], None, 10, Fold::of(None));
    assert!(!out.contains("FOLDED"), "{out}");
    assert!(!out.contains("internal cohesion"), "{out}");
    assert!(out.contains("--- |2|"), "{out}");
}

#[test]
fn a_path_git_remembers_but_the_run_did_not_analyze_is_counted_not_dropped() {
    let out = project(
        &vec![tree_with_analyzed("x", vec![edge("live.rs", "deleted/gone.rs", 5)], &["live.rs"])],
        None,
        10,
        Fold::of(None),
    );
    assert!(out.contains("1 of 2 path(s) here are NOT in this run's analyzed file set"), "{out}");
    assert!(out.contains("deleted/gone.rs"), "{out}");
}

#[test]
fn a_picture_whose_paths_were_all_analyzed_carries_no_history_gap_line() {
    let out = project(
        &vec![tree_with_analyzed("x", vec![edge("a.rs", "b.rs", 5)], &["a.rs", "b.rs"])],
        None,
        10,
        Fold::of(None),
    );
    assert!(!out.contains("analyzed file set"), "{out}");
}

#[test]
fn folded_edges_come_heaviest_first_and_the_census_counts_both_sides() {
    let out = project(
        &vec![tree("x", Some(vec![
            edge("a/1.ts", "b/1.ts", 1),
            edge("c/1.ts", "d/1.ts", 1),
            edge("c/2.ts", "d/2.ts", 1),
            edge("top.ts", "c/3.ts", 1),
        ]))],
        None,
        10,
        Fold::of(Some(1)),
    );
    let lines: Vec<&str> = out.lines().filter(|l| l.contains(" --- ")).collect();
    assert_eq!(lines.len(), 3, "{out}");
    assert!(lines[0].contains("\"c\"] --- |2| cc_x__d[\"d\"]"), "{out}");
    assert!(out.contains("8 file(s) drawn as 5 box(es), 4 file-level edge(s) as 3."), "{out}");
    assert!(out.contains("%% 1 of those box(es) are a SINGLE FILE"), "{out}");
}

#[test]
fn node_ids_keep_only_ascii_letters_and_digits() {
    let out = project(&vec![tree("my-tree", Some(vec![edge("src/a.rs", "é.rs", 2)]))], None, 10, Fold::of(None));
    assert!(out.contains("  cc_my_tree__src_a_rs[\"src/a.rs\"] --- |2| cc_my_tree____rs[\"é.rs\"]"), "{out}");
}

#[test]
fn a_cap_of_zero_still_shows_the_partial_view_note() {
    let edges: Vec<CoChangeRow> = (0..3u64).map(|i| edge(&format!("a{i}.rs"), &format!("b{i}.rs"), 3 - i)).collect();
    let out = project(&vec![tree("x", Some(edges))], None, 0, Fold::of(None));
    assert!(out.contains("none[\"no co-change pairs to draw\"]"), "{out}");
    assert!(out.contains("zzopNote[\"PARTIAL VIEW: 0 of 3 co-change pair(s) drawn (3 dropped by --top 0)"), "{out}");
}

#[test]
fn a_scope_that_keeps_nothing_is_still_disclosed_by_a_visible_node() {
    let out = project(&vec![tree("x", Some(vec![edge("src/a.rs", "src/b.rs", 4)]))], Some("docs/"), 10, Fold::of(None));
    assert!(out.contains("none[\"no co-change pairs to draw\"]"), "{out}");
    assert!(out.contains("zzopScope[\"SCOPED to 'docs/': 0 of 1 co-change pair(s)"), "{out}");
}

#[test]
fn a_fold_with_nothing_drawn_still_shows_its_fold_node() {
    let out = project(&vec![tree("x", Some(vec![edge("src/a.rs", "src/b.rs", 4)]))], None, 10, Fold::of(Some(1)));
    assert!(out.contains("none[\"no co-change pairs to draw\"]"), "{out}");
    assert!(out.contains("zzopFold[\"FOLDED:"), "{out}");
}
