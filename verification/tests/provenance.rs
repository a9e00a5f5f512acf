use zzop_summary::graph::join::model::{BucketItem, JoinAnalysis};
use zzop_summary::output::bucket_keys::bucket_keys;
use zzop_summary::output::cache_signal::{shape_cache_signal, CACHE_MEANING};
use zzop_summary::output::disclosure::fold;
use zzop_summary::output::timings::{shape_rule_timings, total_nanos, RunKnobs, RULE_TIMINGS_MEANING};

fn consume(key: Option<&str>, raw: Option<&str>, file: Option<&str>, line: Option<u64>) -> BucketItem {
    BucketItem {
        key: key.map(str::to_string),
        raw: raw.map(str::to_string),
        source: None,
        kind: None,
        file: file.map(str::to_string),
        line,
        candidate_sources: Vec::new(),
    }
}

fn empty_join() -> JoinAnalysis {
    JoinAnalysis {
        trees: Vec::new(),
        edges: Vec::new(),
        unconsumed_provides: Vec::new(),
        unprovided_consumes: Vec::new(),
        unresolved_consumes: Vec::new(),
        external_consumes: Vec::new(),
        ambiguous_consumes: Vec::new(),
    }
}

#[test]
fn distinct_keys_are_deduped_and_never_truncated() {
    let mut a = empty_join();
    a.unprovided_consumes = (0..23)
        .map(|i| consume(Some(&format!("GET /x/{i}")), None, Some("src/api.ts"), Some(i as u64 + 1)))
        .chain(std::iter::once(consume(Some("GET /x/0"), None, Some("src/other.ts"), Some(99))))
        .collect();
    let lists = bucket_keys(&a);
    let (name, l) = &lists[1];
    assert_eq!(name, "unprovidedConsumes");
    assert_eq!(l.keys.len(), 23, "every distinct key, no cap");
    assert_eq!(l.sites.len(), l.keys.len(), "sites parallel to keys");
    assert_eq!(l.sites[0].as_deref(), Some("src/api.ts:1"), "FIRST site wins for a dup key");
}

#[test]
fn an_unresolved_consume_contributes_its_raw_expression_as_the_key() {
    let mut a = empty_join();
    a.unresolved_consumes = vec![consume(None, Some("usersUrl(x)"), Some("src/api.ts"), Some(7))];
    let lists = bucket_keys(&a);
    let (name, l) = &lists[2];
    assert_eq!(name, "unresolvedConsumes");
    assert_eq!(l.keys, vec!["usersUrl(x)".to_string()]);
    assert_eq!(l.sites[0].as_deref(), Some("src/api.ts:7"));
}

#[test]
fn a_site_missing_file_or_line_is_null_never_guessed() {
    let mut a = empty_join();
    a.unprovided_consumes = vec![consume(Some("GET /x"), None, None, None)];
    let lists = bucket_keys(&a);
    assert!(lists[1].1.sites[0].is_none());
}

#[test]
fn an_item_with_neither_key_nor_raw_contributes_nothing() {
    let mut a = empty_join();
    a.external_consumes = vec![consume(None, None, Some("src/a.ts"), Some(1)), consume(Some("k"), None, None, Some(2))];
    let lists = bucket_keys(&a);
    assert_eq!(lists[3].0, "externalConsumes");
    assert_eq!(lists[3].1.keys, vec!["k".to_string()]);
    let names: Vec<&str> = lists.iter().map(|(n, _)| n.as_str()).collect();
    assert_eq!(names, vec!["unconsumedProvides", "unprovidedConsumes", "unresolvedConsumes", "externalConsumes", "ambiguousConsumes"]);
}

fn statuses(v: &[&str]) -> Vec<Option<String>> {
    v.iter().map(|s| Some(s.to_string())).collect()
}

#[test]
fn counts_every_status_and_leaves_the_prose_behind() {
    let registry = statuses(&["asserted", "partial", "partial", "notYetDetected"]);
    let folded = fold(Some(&registry));
    assert_eq!(folded.classes, 4);
    assert_eq!(folded.asserted, 1);
    assert_eq!(folded.partial, 2);
    assert_eq!(folded.not_yet_detected, 1);
    assert!(!folded.note.contains("prose"));
    assert_eq!(folded.resource, "zzop://contract/disclosure-classes");
    assert_eq!(folded.command, "zzop contract disclosure-classes");
}

#[test]
fn the_note_states_the_gap_as_the_non_asserted_total() {
    let registry = statuses(&["asserted", "partial", "notYetDetected"]);
    let note = fold(Some(&registry)).note;
    assert!(note.contains("3 known classes"), "{note}");
    assert!(note.contains("2 are only partially detected"), "{note}");
}

#[test]
fn a_missing_registry_still_points_at_the_full_text() {
    let folded = fold(None);
    assert_eq!(folded.classes, 0);
    assert_eq!(folded.resource, "zzop://contract/disclosure-classes");
}

#[test]
fn an_entry_with_an_unknown_or_missing_status_is_a_class_and_in_no_count() {
    let registry = vec![Some("retired".to_string()), None, Some("asserted".to_string())];
    let folded = fold(Some(&registry));
    assert_eq!(folded.classes, 3);
    assert_eq!((folded.asserted, folded.partial, folded.not_yet_detected), (1, 0, 0));
    assert!(folded.note.starts_with("3 known classes"), "{}", folded.note);
    assert!(folded.note.contains("; 0 are only partially detected"), "{}", folded.note);
}

#[test]
fn rule_timings_sum_every_count_and_skip_what_is_not_one() {
    let nanos = vec![Some(5u64), None, Some(7)];
    let t = shape_rule_timings(Some(&nanos), Some(3)).expect("profiling was on");
    assert_eq!(t.rule_count, 3);
    assert_eq!(t.total_nanos, 12);
    assert_eq!(t.cache_hit_files, 3);
    assert!(RULE_TIMINGS_MEANING.starts_with("Wall-clock time"));
}

#[test]
fn rule_timings_are_absent_when_profiling_was_off_and_a_cacheless_run_reports_zero_hits() {
    assert!(shape_rule_timings(None, Some(4)).is_none());
    let t = shape_rule_timings(Some(&vec![]), None).unwrap();
    assert_eq!((t.rule_count, t.total_nanos, t.cache_hit_files), (0, 0, 0));
}

#[test]
fn the_timing_total_saturates_rather_than_wrapping() {
    assert_eq!(total_nanos(&vec![Some(u64::MAX), Some(1)]), u64::MAX);
    assert_eq!(total_nanos(&vec![Some(u64::MAX - 1), Some(1)]), u64::MAX);
    assert_eq!(total_nanos(&vec![Some(u64::MAX - 2), Some(1)]), u64::MAX - 1);
}

#[test]
fn the_default_run_knobs_instrument_nothing() {
    assert!(!RunKnobs::default().profile_rules);
}

#[test]
fn the_cache_report_needs_both_counts_and_is_absent_without_a_cache() {
    let s = shape_cache_signal(Some((Some(22), Some(4)))).expect("a cache was in play");
    assert_eq!((s.hit_files, s.miss_files), (22, 4));
    assert!(shape_cache_signal(None).is_none());
    assert!(shape_cache_signal(Some((Some(22), None))).is_none());
    assert!(shape_cache_signal(Some((None, Some(4)))).is_none());
    assert!(CACHE_MEANING.contains("REPLAYED"));
}
