use zzop_summary::graph::dep::folded::{collapse, Collapsed};
use zzop_summary::graph::dep::universe::EdgeRow;
use zzop_summary::graph::dep::view::Node;
use zzop_summary::graph::distinct::Text;
use zzop_summary::graph::fold::Fold;

fn node(source: &str, id: &str, rel: &str) -> Node {
    Node { id: id.to_string(), source: source.to_string(), rel: rel.to_string() }
}

/// A single-tree run, where a file's id is its path.
fn universe(rels: &[&str]) -> Vec<Node> {
    rels.iter().map(|r| node("t", r, r)).collect()
}

fn edges(pairs: &[(&str, &str)]) -> Vec<EdgeRow> {
    pairs.iter().map(|(a, b)| EdgeRow { from: a.to_string(), to: b.to_string() }).collect()
}

fn texts(v: &[&str]) -> Vec<Text> {
    v.iter().map(|t| Text { text: t.to_string() }).collect()
}

fn box_ids(c: &Collapsed) -> Vec<String> {
    c.nodes.iter().map(|n| n.id.clone()).collect()
}

#[test]
fn many_file_edges_between_two_boxes_become_one_edge_carrying_their_count() {
    let files = universe(&["crates/engine/a.rs", "crates/engine/b.rs", "crates/core/x.rs", "crates/core/y.rs"]);
    let f = collapse(
        Fold::of(Some(2)),
        &files,
        &edges(&[
            ("crates/engine/a.rs", "crates/core/x.rs"),
            ("crates/engine/a.rs", "crates/core/y.rs"),
            ("crates/engine/b.rs", "crates/core/x.rs"),
        ]),
        &texts(&[]),
    );
    assert_eq!(f.nodes.len(), 2);
    assert_eq!(f.links.len(), 1);
    assert_eq!(f.links[0].from, "crates/engine");
    assert_eq!(f.links[0].to, "crates/core");
    assert_eq!(f.links[0].weight, 3, "the label must be the number of FILE edges collapsed, not 1 and not a strength");
    assert_eq!(f.file_edges, 3);
}

#[test]
fn an_edge_inside_one_box_is_dropped_rather_than_drawn_as_a_self_loop() {
    let files = universe(&["crates/engine/a.rs", "crates/engine/b.rs"]);
    let f = collapse(Fold::of(Some(2)), &files, &edges(&[("crates/engine/a.rs", "crates/engine/b.rs")]), &texts(&[]));
    assert_eq!(f.nodes.len(), 1);
    assert!(f.links.is_empty(), "a module importing itself is what a module IS");
    assert_eq!(f.file_edges, 1);
}

#[test]
fn an_edge_whose_far_end_was_scoped_out_does_not_reach_the_picture() {
    let files = universe(&["crates/engine/a.rs"]);
    let f = collapse(Fold::of(Some(2)), &files, &edges(&[("crates/engine/a.rs", "crates/core/x.rs")]), &texts(&[]));
    assert!(f.links.is_empty());
    assert_eq!(f.file_edges, 0);
}

#[test]
fn a_box_is_marked_in_cycle_when_any_file_inside_it_is() {
    let files = universe(&["crates/engine/a.rs", "crates/engine/b.rs"]);
    let f = collapse(Fold::of(Some(2)), &files, &edges(&[]), &texts(&["crates/engine/b.rs"]));
    assert!(f.in_cycle.iter().any(|t| t.text == "crates/engine"));
}

#[test]
fn a_box_holding_a_deeper_path_is_not_counted_as_unfoldable() {
    let files = universe(&["README.md", "crates/engine/a.rs"]);
    let f = collapse(Fold::of(Some(2)), &files, &edges(&[]), &texts(&[]));
    assert_eq!(f.nodes.len(), 2);
    assert_eq!(f.unfoldable, 1);
}

#[test]
fn a_box_mixing_a_short_path_and_a_deep_one_is_a_real_group_not_a_lone_file() {
    let files = universe(&["src/main.rs", "src/deep/inner.rs"]);
    let f = collapse(Fold::of(Some(1)), &files, &edges(&[]), &texts(&[]));
    assert_eq!(f.nodes.len(), 1);
    assert_eq!(f.unfoldable, 0);
}

#[test]
fn two_trees_keep_separate_boxes_for_the_same_folded_path() {
    let files = vec![node("fe", "fe::src/a.ts", "src/a.ts"), node("be", "be::src/b.ts", "src/b.ts")];
    let f = collapse(Fold::of(Some(1)), &files, &edges(&[]), &texts(&[]));
    assert_eq!(f.nodes.len(), 2, "two trees' `src/` are two different boxes");
    let ids = box_ids(&f);
    assert!(ids.contains(&"fe::src".to_string()), "{ids:?}");
    assert!(ids.contains(&"be::src".to_string()), "{ids:?}");
}

#[test]
fn a_folded_box_carries_no_measured_axes() {
    let files = universe(&["crates/engine/a.rs", "crates/engine/b.rs"]);
    let f = collapse(Fold::of(Some(2)), &files, &edges(&[]), &texts(&[]));
    let b = f.nodes.iter().find(|n| n.id == "crates/engine").expect("the box is a node");
    // A box is a node with an id, a tree and a path, and nothing more: it has no single loc and no
    // git axes, because summing some axes and not others would be worse than carrying none.
    assert_eq!((b.id.as_str(), b.source.as_str(), b.rel.as_str()), ("crates/engine", "t", "crates/engine"));
    assert_eq!(f.nodes.len(), 1);
}
