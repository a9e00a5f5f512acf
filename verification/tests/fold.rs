use zzop_summary::graph::fold::{census, Fold};

#[test]
fn no_fold_returns_the_path_untouched_and_discloses_nothing() {
    let f = Fold::of(None);
    assert!(!f.is_on());
    assert_eq!(
        f.rel("crates/engine/src/lib.rs"),
        "crates/engine/src/lib.rs"
    );
    assert_eq!(census(f, 10, 10, 0, 5, 5), "");
}

#[test]
fn depth_zero_is_treated_as_no_fold_so_a_slipped_value_cannot_name_one_box_for_the_tree() {
    let f = Fold::of(Some(0));
    assert!(
        !f.is_on(),
        "a 0 depth must not fold; the CLI rejects it earlier"
    );
    assert_eq!(f.rel("a/b/c.rs"), "a/b/c.rs");
}

#[test]
fn a_fold_keeps_the_leading_segments() {
    assert_eq!(Fold::of(Some(1)).rel("crates/engine/src/lib.rs"), "crates");
    assert_eq!(
        Fold::of(Some(2)).rel("crates/engine/src/lib.rs"),
        "crates/engine"
    );
    assert_eq!(
        Fold::of(Some(3)).rel("crates/engine/src/lib.rs"),
        "crates/engine/src"
    );
}

#[test]
fn a_path_shorter_than_the_depth_stands_for_itself_and_is_counted_as_such() {
    let f = Fold::of(Some(2));
    assert_eq!(f.rel("README.md"), "README.md");
    assert!(f.is_unfoldable("README.md"));
    assert!(f.is_unfoldable("a/b.rs"));
    assert!(!f.is_unfoldable("a/b/c.rs"));
}

#[test]
fn the_census_separates_the_folds_loss_from_the_caps() {
    let out = census(Fold::of(Some(2)), 1337, 32, 0, 2583, 37);
    assert!(out.contains("--fold 2"), "{out}");
    assert!(out.contains("1337 file(s) drawn as 32 box(es)"), "{out}");
    assert!(out.contains("2583 file-level edge(s) as 37"), "{out}");
    assert!(out.contains("NUMBER OF FILE-LEVEL EDGES"), "{out}");
    assert!(out.contains("convention rather than a fact"), "{out}");
    assert!(!out.contains("SINGLE FILE"), "{out}");
}

#[test]
fn unfoldable_boxes_are_named_only_when_some_exist() {
    let out = census(Fold::of(Some(2)), 10, 4, 2, 6, 3);
    assert!(
        out.contains("2 of those box(es) are a SINGLE FILE"),
        "{out}"
    );
}

#[test]
fn a_fold_deeper_than_every_separator_keeps_the_whole_path() {
    assert_eq!(Fold::of(Some(9)).rel("a/b/c.rs"), "a/b/c.rs");
    assert_eq!(Fold::of(Some(1)).rel("/abs"), "");
}

#[test]
fn the_census_renders_every_number_exactly() {
    let out = census(Fold::of(Some(3)), 0, 0, 1, 0, 0);
    assert!(out.starts_with("%% FOLDED to --fold 3 path segment(s): 0 file(s) drawn as 0 box(es), 0 file-level edge(s) as 0. "), "{out}");
    assert!(out.ends_with("%% 1 of those box(es) are a SINGLE FILE with fewer than 3 path segment(s) — nothing coarser exists to name them, so they stand beside boxes that stand for many.\n"), "{out}");
    assert_eq!(out.lines().count(), 3);
}
