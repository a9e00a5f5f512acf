use zzop_summary::output::by_directory::{by_directory, ByDirectory};
use zzop_summary::output::finding::Finding;
use zzop_summary::output::legends::by_directory_note;

fn finding(file: &str) -> Finding {
    Finding {
        rule_id: Some("x".to_string()),
        severity: Some("warning".to_string()),
        file: Some(file.to_string()),
        line: Some(1),
        message: None,
        test_path: false,
        build_shape: false,
        bundled_verbatim: None,
    }
}

fn pathless(file: Option<&str>) -> Finding {
    Finding {
        rule_id: Some("x".to_string()),
        severity: Some("warning".to_string()),
        file: file.map(|f| f.to_string()),
        line: None,
        message: None,
        test_path: false,
        build_shape: false,
        bundled_verbatim: None,
    }
}

fn built(findings: &[Finding]) -> ByDirectory {
    by_directory(&findings.to_vec()).expect("this fixture has a distribution to report")
}

fn dirs(v: &ByDirectory) -> Vec<(String, usize, f64)> {
    v.directories
        .iter()
        .map(|r| (r.dir.clone(), r.findings, r.share_tenths as f64 / 10.0))
        .collect()
}

#[test]
fn equal_counts_break_by_name() {
    let out = built(&[finding("zed/a.ts"), finding("alpha/b.ts")]);
    assert_eq!(
        dirs(&out).iter().map(|(d, ..)| d.as_str()).collect::<Vec<_>>(),
        vec!["alpha/", "zed/"],
        "{}",
        out.basis
    );
}

#[test]
fn the_meaning_is_the_folded_note_and_not_the_full_text() {
    let out = built(&[finding("src/a.ts"), finding("docs/b.ts")]);
    let meaning = out.meaning.as_str();
    assert_eq!(meaning, by_directory_note());
    assert!(
        !meaning.contains("THAT REFUSAL IS A MEASUREMENT"),
        "the full text must not ride the wire: {meaning}"
    );
    assert!(
        meaning.contains("`exclude`") && meaning.contains("`vocabulary.skipDirs`"),
        "the remedy clause names BOTH keys or it is advice to do the wrong one: {meaning}"
    );
}

#[test]
fn a_dot_slash_prefix_does_not_make_a_second_bucket() {
    let out = built(&[finding("./src/a.ts"), finding("src/b.ts"), finding("docs/c.ts")]);
    assert_eq!(
        dirs(&out),
        vec![("src/".to_string(), 2, 66.7), ("docs/".to_string(), 1, 33.3)],
        "{}",
        out.basis
    );
}

#[test]
fn a_fold_with_no_distribution_to_report_is_absent_rather_than_a_single_hundred_percent_row() {
    assert!(by_directory(&Vec::new()).is_none());
    assert!(by_directory(&vec![finding("src/a.ts"), finding("src/b.ts")]).is_none());
    let two = built(&[
        finding("src/a.ts"),
        finding("src/b.ts"),
        finding("src/c.ts"),
        finding("src/d.ts"),
        finding("docs/e.ts"),
    ]);
    assert_eq!(dirs(&two).len(), 2);
    assert_eq!(
        two.basis,
        "5 finding(s) folded to their first path segment across 2 top-level director(ies); the 2 row(s) below are the largest by count and hold 100% of them"
    );
}

#[test]
fn findings_with_no_path_at_all_still_report_that_the_fold_was_computed() {
    let out = by_directory(&vec![pathless(None), pathless(Some("  "))])
        .expect("pathless findings are still something to disclose");
    assert!(out.directories.is_empty());
    assert_eq!(
        out.basis,
        "no finding carried a file path this run, so this fold had nothing to place — a MEASURED empty, never an unasked question; 2 finding(s) carry no file path and are outside this fold"
    );
}

#[test]
fn a_pathless_finding_is_counted_in_the_basis_rather_than_vanishing() {
    let out = by_directory(&vec![finding("src/a.ts"), pathless(None), pathless(Some("  "))])
        .expect("unplaced findings are something to say");
    assert_eq!(dirs(&out), vec![("src/".to_string(), 1, 100.0)]);
    assert!(out.basis.contains("2 finding(s) carry no file path"), "{}", out.basis);
}

#[test]
fn the_shortlist_keeps_five_rows_and_its_basis_names_the_covered_share() {
    let mut fs = Vec::new();
    for (dir, n) in [("a", 3), ("b", 3), ("c", 2), ("d", 2), ("e", 1), ("f", 1), ("g", 1)] {
        for i in 0..n {
            fs.push(finding(&format!("{dir}/{i}.ts")));
        }
    }
    fs.push(finding("top.ts"));
    let out = built(&fs);
    assert_eq!(
        dirs(&out),
        vec![
            ("a/".to_string(), 3, 21.4),
            ("b/".to_string(), 3, 21.4),
            ("c/".to_string(), 2, 14.3),
            ("d/".to_string(), 2, 14.3),
            ("(root)".to_string(), 1, 7.1),
        ]
    );
    assert_eq!(
        out.basis,
        "14 finding(s) folded to their first path segment across 8 top-level director(ies); the 5 row(s) below are the largest by count and hold 78.6% of them"
    );
}

#[test]
fn a_row_carries_a_name_a_count_and_a_share_and_nothing_that_judges() {
    let out = built(&[finding("docs_src/a.py"), finding("docs_src/b.py"), finding("m.py")]);
    assert_eq!(
        dirs(&out),
        vec![("docs_src/".to_string(), 2, 66.7), ("(root)".to_string(), 1, 33.3)],
    );
}

#[test]
fn the_fastapi_shape_reports_its_own_share() {
    let mut findings: Vec<Finding> = (0..484).map(|i| finding(&format!("docs_src/f{i}.py"))).collect();
    findings.extend((0..19).map(|i| finding(&format!("tests/t{i}.py"))));
    findings.extend((0..4).map(|i| finding(&format!("scripts/s{i}.py"))));
    findings.extend((0..2).map(|i| finding(&format!("fastapi/p{i}.py"))));
    findings.extend((0..2).map(|i| finding(&format!("docs/d{i}.md"))));
    let out = built(&findings);
    assert_eq!(findings.len(), 511, "the fixture is the measured total");
    assert_eq!(dirs(&out)[0], ("docs_src/".to_string(), 484, 94.7));
    assert!(
        out.basis.contains("511 finding(s)") && out.basis.contains("across 5 top-level"),
        "basis must name the population and the directory count: {}",
        out.basis
    );
}

#[test]
fn the_typeorm_shape_is_indistinguishable_from_the_fastapi_one_on_the_wire() {
    let mut findings: Vec<Finding> = (0..25).map(|i| finding(&format!("src/f{i}.ts"))).collect();
    findings.extend((0..16).map(|i| finding(&format!("test/t{i}.ts"))));
    findings.push(finding("packages/p.ts"));
    findings.push(finding("rollup.config.js"));
    let out = built(&findings);
    assert_eq!(dirs(&out)[0], ("src/".to_string(), 25, 58.1));
    for (dir, ..) in dirs(&out) {
        assert!(!dir.contains("noise") && !dir.contains("product"), "the rows must be readable only as a distribution: {dir}");
    }
}

#[test]
fn a_cut_list_says_how_much_it_left_out() {
    let max_rows = zzop_summary::output::by_directory::MAX_ROWS;
    let findings: Vec<Finding> = (0..max_rows + 3)
        .flat_map(|i| (0..(max_rows + 3 - i)).map(move |_| finding(&format!("d{i}/x.ts"))))
        .collect();
    let out = built(&findings);
    assert_eq!(out.directories.len(), max_rows);
    assert!(
        out.basis.contains(&format!("across {} top-level", max_rows + 3))
            && out.basis.contains(&format!("the {max_rows} row(s) below")),
        "the cut must name both the full directory count and the shown one: {}",
        out.basis
    );
    let covered: f64 = dirs(&out).iter().map(|(_, _, s)| s).sum();
    assert!(covered < 100.0, "this fixture's tail is outside the rows, so the shown shares cannot sum to the whole");
}
