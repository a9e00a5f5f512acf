use zzop_summary::output::rule_prose::by_id::{point_at_rule_id, BY_ID_MESSAGE, MESSAGE_BY, MESSAGE_BY_ID_MEANING, MESSAGE_BY_RULE_ID};
use zzop_summary::output::rule_prose::exact::fold_exact;
use zzop_summary::output::rule_prose::mine::{derive_parts, lcs_pairs};
use zzop_summary::output::rule_prose::template::{fold_templates, reconstruct, split};
use zzop_summary::output::rule_prose::{fold, ProseIn};

/// A prescription long enough that folding its repeats clears the byte gate with room to spare.
fn long(tag: &str) -> String {
    format!(
        "{tag}: {}",
        "one prescription sentence that this rule repeats verbatim on every finding it produces, long enough to be worth storing once. "
            .repeat(20)
    )
}

const SHORT: &str = "Clear this interval when the component unmounts.";

fn rules(rs: &[&str]) -> Vec<Option<String>> {
    rs.iter().map(|r| Some(r.to_string())).collect()
}

fn msgs(ms: &[&str]) -> Vec<Option<String>> {
    ms.iter().map(|m| Some(m.to_string())).collect()
}

fn entry<'a>(table: &'a [(String, String)], key: &str) -> &'a str {
    &table.iter().find(|(k, _)| k == key).unwrap_or_else(|| panic!("no entry {key}")).1
}

fn segments<'a>(table: &'a [(String, Vec<String>)], rule: &str) -> &'a Vec<String> {
    &table.iter().find(|(k, _)| k == rule).unwrap_or_else(|| panic!("no template for {rule}")).1
}

fn row(rule: &str, message: &str, verbatim: Option<&str>) -> ProseIn {
    ProseIn { rule_id: Some(rule.to_string()), message: Some(message.to_string()), verbatim: verbatim.map(str::to_string) }
}

/// A bundled rule id and the exact text the binary carries for it.
fn bundled_probe() -> (&'static str, String) {
    ("db/update-delete-no-where", long("UPDATE or DELETE without a WHERE clause touches every row"))
}

#[test]
fn a_rule_with_two_repeated_texts_gets_two_keys() {
    let (alpha, beta) = (long("alpha"), long("beta"));
    let (_, refs, table) = fold_exact(&rules(&["r", "r", "r", "r"]), &msgs(&[&alpha, &beta, &alpha, &beta]));
    let table = table.expect("both texts repeat and both are worth folding");
    assert_eq!(table.len(), 2);
    assert_eq!(entry(&table, "r"), alpha, "first-appearance order takes the bare key");
    assert_eq!(entry(&table, "r#2"), beta);
    assert_eq!(refs[0].as_deref(), Some("r"));
    assert_eq!(refs[1].as_deref(), Some("r#2"));
    assert_eq!(refs[2].as_deref(), Some("r"));
    assert_eq!(refs[3].as_deref(), Some("r#2"));
}

#[test]
fn two_rules_emitting_the_same_sentence_do_not_share_a_key() {
    let same = long("same");
    let (_, refs, table) = fold_exact(&rules(&["a", "a", "b", "b"]), &msgs(&[&same, &same, &same, &same]));
    let table = table.unwrap();
    assert_eq!(table.len(), 2);
    assert_eq!(entry(&table, "a"), same);
    assert_eq!(entry(&table, "b"), same);
    assert_eq!(refs[0].as_deref(), Some("a"));
    assert_eq!(refs[2].as_deref(), Some("b"));
}

#[test]
fn unique_messages_are_left_exactly_as_they_were() {
    let (alpha, beta) = (long("alpha"), long("beta"));
    let (out, refs, table) = fold_exact(&rules(&["r", "r"]), &msgs(&[&alpha, &beta]));
    assert!(table.is_none());
    assert_eq!(out[0].as_deref(), Some(alpha.as_str()));
    assert_eq!(out[1].as_deref(), Some(beta.as_str()));
    assert!(refs[0].is_none() && refs[1].is_none());
}

#[test]
fn a_short_repeat_stays_inline_while_a_long_one_beside_it_folds() {
    let prose = long("worth it");
    let (out, refs, table) = fold_exact(
        &rules(&["long/rule", "short/rule", "long/rule", "short/rule"]),
        &msgs(&[&prose, SHORT, &prose, SHORT]),
    );
    let table = table.expect("the long repeat pays for itself");
    assert_eq!(table.len(), 1, "only the text whose fold saves bytes belongs here");
    assert_eq!(entry(&table, "long/rule"), prose);
    assert_eq!(refs[0].as_deref(), Some("long/rule"));
    assert_eq!(out[1].as_deref(), Some(SHORT), "the short repeat keeps its own text");
    assert!(refs[1].is_none());
}

#[test]
fn a_reply_whose_only_repeat_is_short_folds_nothing() {
    let (out, refs, table) = fold_exact(&rules(&["r", "r", "r"]), &msgs(&[SHORT, SHORT, SHORT]));
    assert!(table.is_none());
    for i in 0..3 {
        assert_eq!(out[i].as_deref(), Some(SHORT));
        assert!(refs[i].is_none());
    }
}

#[test]
fn a_rejected_candidate_does_not_reserve_a_key() {
    let prose = long("second");
    let (_, refs, table) = fold_exact(&rules(&["r", "r", "r", "r"]), &msgs(&[SHORT, &prose, SHORT, &prose]));
    let table = table.expect("the second text pays");
    assert_eq!(table.len(), 1);
    assert_eq!(entry(&table, "r"), prose);
    assert_eq!(refs[1].as_deref(), Some("r"));
    assert!(refs[0].is_none());
}

#[test]
fn a_folded_finding_keeps_a_non_empty_message_naming_its_key() {
    let prose = long("secret");
    let (out, _, table) = fold_exact(&rules(&["security/x", "security/x", "security/x"]), &msgs(&[&prose, &prose, &prose]));
    assert!(table.is_some());
    let m = out[0].as_deref().expect("message stays a string");
    assert!(!m.is_empty());
    assert!(m.contains("security/x"), "{m}");
    assert!(m.contains("ruleMessages"), "{m}");
    assert!(m.contains("messageRef"), "{m}");
}

#[test]
fn a_template_carries_empty_edge_segments_when_the_message_varies_at_its_ends() {
    let body = long("edges");
    let originals = [format!("Xalpha {body} P1."), format!("Ybeta {body} P2."), format!("Zgamma {body} P3.")];
    let ms: Vec<Option<String>> = originals.iter().map(|m| Some(m.clone())).collect();
    let (_, parts, table) = fold_templates(&rules(&["r", "r", "r"]), &ms, &vec![None, None, None]);
    let table = table.expect("one long shared body across three findings pays");
    let segs = segments(&table, "r");
    assert_eq!(segs.first().map(String::as_str), Some(""), "{segs:?}");
    assert_eq!(segs.last().map(String::as_str), Some(""), "{segs:?}");
    for (i, original) in originals.iter().enumerate() {
        let p = parts[i].as_ref().expect("a templated finding carries its parts");
        assert_eq!(&reconstruct(segs, p), original);
    }
}

#[test]
fn a_segment_that_occurs_twice_still_rebuilds_byte_identically() {
    let body = long("dup");
    let mk = |v: &str| format!("Model {v} {body} Model {v} again.");
    let originals = [mk("Xuser"), mk("Ybooking"), mk("Zwebhook")];
    let ms: Vec<Option<String>> = originals.iter().map(|m| Some(m.clone())).collect();
    let (_, parts, table) = fold_templates(&rules(&["r", "r", "r"]), &ms, &vec![None, None, None]);
    let table = table.expect("the shared body pays");
    let segs = segments(&table, "r");
    for (i, original) in originals.iter().enumerate() {
        assert_eq!(&reconstruct(segs, parts[i].as_ref().unwrap()), original);
    }
    assert!(parts[0].as_ref().unwrap().iter().any(|p| p.contains("Xuser")));
    assert!(!segs.iter().any(|s| s.contains("Xuser")), "{segs:?}");
}

#[test]
fn a_finding_already_pointing_at_the_message_table_is_never_templated_too() {
    let prose = long("same");
    let (out, refs, table) = fold_exact(&rules(&["r", "r", "r"]), &msgs(&[&prose, &prose, &prose]));
    assert!(table.is_some(), "three identical long texts fold");
    let (_, parts, templates) = fold_templates(&rules(&["r", "r", "r"]), &out, &refs);
    assert!(templates.is_none(), "nothing is left inline to template");
    for i in 0..3 {
        assert!(refs[i].is_some());
        assert!(parts[i].is_none());
    }
}

#[test]
fn a_message_past_the_token_cap_is_left_inline() {
    let huge = "word ".repeat(4000);
    let originals = [format!("{huge} A"), format!("{huge} B")];
    let ms: Vec<Option<String>> = originals.iter().map(|m| Some(m.clone())).collect();
    let (out, parts, table) = fold_templates(&rules(&["r", "r"]), &ms, &vec![None, None]);
    assert!(table.is_none(), "a message past the token cap must not be mined");
    for (i, original) in originals.iter().enumerate() {
        assert_eq!(out[i].as_deref(), Some(original.as_str()));
        assert!(parts[i].is_none());
    }
}

#[test]
fn a_rebuildable_message_is_replaced_by_a_pointer_and_a_field() {
    let (id, text) = bundled_probe();
    let (out, by, fired) = point_at_rule_id(&vec![row(id, &text, Some(&text))]);
    assert!(fired, "the probe must fire");
    assert_eq!(out[0].as_deref(), Some(BY_ID_MESSAGE));
    assert!(by[0], "the discriminator is a FIELD");
}

#[test]
fn the_legend_names_the_field_and_value_the_pass_actually_writes() {
    let (id, text) = bundled_probe();
    let folded = fold(&vec![row(id, &text, Some(&text))]);
    assert!(folded.rows[0].message_by, "the pass wrote the field");
    assert!(MESSAGE_BY_ID_MEANING.contains(MESSAGE_BY), "the legend must name the field a reader is told to look for");
    assert!(MESSAGE_BY_ID_MEANING.contains(MESSAGE_BY_RULE_ID), "and the value that field carries");
    assert!(BY_ID_MESSAGE.contains("messageByIdMeaning"), "and the pointer must say where its own explanation is");
}

#[test]
fn a_rule_the_resolvers_cannot_answer_for_is_never_pointed_away() {
    let prose = long("user pack prose");
    let (out, by, fired) = point_at_rule_id(&vec![row("user-pack/not-compiled-in", &prose, None)]);
    assert!(!fired, "nothing should fire");
    assert_eq!(out[0].as_deref(), Some(prose.as_str()));
    assert!(!by[0]);
}

#[test]
fn a_native_finding_is_never_pointed_away() {
    let (_, by, fired) = point_at_rule_id(&vec![row("circular", &long("native prose"), None)]);
    assert!(!fired);
    assert!(!by[0]);
}

#[test]
fn a_message_the_rule_alone_would_not_have_produced_keeps_every_byte() {
    let (id, text) = bundled_probe();
    let rewritten = format!("{text} Note: a comment on this line reads `zzop-something-ok`.");
    let (out, _, fired) = point_at_rule_id(&vec![row(id, &rewritten, Some(&text))]);
    assert!(!fired, "a near-miss must never be pointed away");
    assert_eq!(out[0].as_deref(), Some(rewritten.as_str()));
}

#[test]
fn the_by_id_legend_rides_exactly_when_a_pointer_does() {
    let (id, text) = bundled_probe();
    assert!(fold(&vec![row(id, &text, Some(&text))]).by_id);
    let without = vec![row("r", "inline prose", None), row("q", "other inline prose", None)];
    assert!(!fold(&without).by_id, "additive-only: a reply with no pointer carries no legend");
}

#[test]
fn a_pointed_finding_gains_no_second_address() {
    let (id, text) = bundled_probe();
    let rows = vec![row(id, &text, Some(&text)), row(id, &text, Some(&text)), row(id, &text, Some(&text))];
    let folded = fold(&rows);
    assert!(folded.messages.is_none());
    assert!(folded.templates.is_none());
    for r in &folded.rows {
        assert!(r.message_by);
        assert!(r.message_ref.is_none());
        assert!(r.template_parts.is_none());
    }
}

fn cv(s: &str) -> Vec<char> {
    s.chars().collect()
}

#[test]
fn split_takes_each_middle_part_at_its_earliest_position() {
    let parts = vec![cv("a"), cv("-"), cv("z")];
    let res = split(&cv("a1-2-3z"), &parts).expect("fits");
    let res: Vec<String> = res.iter().map(|r| r.iter().collect()).collect();
    assert_eq!(res, ["1", "2-3"]);
    assert!(split(&cv("a123z"), &parts).is_none(), "no `-` anywhere: nothing fits");
    assert!(split(&cv("b1-2z"), &parts).is_none(), "wrong first part");
}

#[test]
fn lcs_pairs_finds_a_longest_common_subsequence() {
    let a: Vec<Vec<char>> = ["x", "a", "b", "c"].iter().map(|t| cv(t)).collect();
    let b: Vec<Vec<char>> = ["a", "y", "b", "c", "x"].iter().map(|t| cv(t)).collect();
    assert_eq!(lcs_pairs(&a, &b), [(1, 0), (2, 2), (3, 3)]);
}

#[test]
fn derive_parts_keeps_what_every_message_shares() {
    let msgs = vec![cv("route /a is dead"), cv("route /bb is dead")];
    let parts = derive_parts(&msgs).expect("a shared template");
    let parts: Vec<String> = parts.iter().map(|p| p.iter().collect()).collect();
    assert_eq!(parts, ["route", "is dead"]);
    assert!(derive_parts(&vec![cv("   ")]).is_none(), "no token: nothing to derive");
}

/// Two rule groups that each share a long body, interleaved, plus a rule seen once.
fn two_templated_groups() -> (Vec<Option<String>>, Vec<Option<String>>) {
    let (body_a, body_b) = (long("alpha-rule"), long("beta-rule"));
    let ms = vec![
        format!("Model Xuser {body_b} end."),
        format!("Table users {body_a} done."),
        format!("Model Ybooking {body_b} end."),
        format!("Table bookings {body_a} done."),
        "A message no other finding shares.".to_string(),
    ];
    (rules(&["b", "a", "b", "a", "c"]), ms.into_iter().map(Some).collect())
}

#[test]
fn template_table_lists_rules_in_first_appearance_order() {
    let (rs, ms) = two_templated_groups();
    let (out, parts, table) = fold_templates(&rs, &ms, &vec![None; 5]);
    let table = table.expect("two long shared bodies pay for the table");
    let keys: Vec<&str> = table.iter().map(|(k, _)| k.as_str()).collect();
    assert_eq!(keys, vec!["b", "a"]);
    for i in 0..4 {
        let rule = rs[i].as_deref().unwrap();
        let p = parts[i].as_ref().expect("every row of a templated rule carries its parts");
        assert_eq!(Some(reconstruct(segments(&table, rule), p)), ms[i]);
        let pointer = out[i].as_deref().unwrap();
        assert!(pointer.starts_with("[templated]") && pointer.contains(&format!("[\"{rule}\"]")), "{pointer}");
    }
    assert_eq!(out[4], ms[4], "a rule seen once keeps its text");
    assert!(parts[4].is_none());
}

#[test]
fn a_rule_whose_messages_do_not_all_fit_is_left_wholly_inline() {
    let body = long("shared");
    let ms: Vec<Option<String>> = vec![
        Some(format!("Model Xuser {body} end.")),
        Some(format!("Model Ybooking {body} end.")),
        Some("zzz qqq".to_string()),
        Some(format!("Table users {body} done.")),
        Some(format!("Table bookings {body} done.")),
    ];
    let (out, parts, table) = fold_templates(&rules(&["r", "r", "r", "s", "s"]), &ms, &vec![None; 5]);
    let table = table.expect("the fitting rule still pays");
    let keys: Vec<&str> = table.iter().map(|(k, _)| k.as_str()).collect();
    assert_eq!(keys, vec!["s"]);
    for i in 0..3 {
        assert_eq!(out[i], ms[i], "no row of the rule that does not fit is touched");
        assert!(parts[i].is_none());
    }
    for i in 3..5 {
        assert!(parts[i].is_some());
    }
}

#[test]
fn a_template_worth_less_than_its_table_is_declined() {
    let ms = msgs(&["Table users lacks an index.", "Table bookings lacks an index."]);
    let (out, parts, table) = fold_templates(&rules(&["r", "r"]), &ms, &vec![None, None]);
    assert!(table.is_none(), "two short messages do not pay for the table and its legend");
    assert_eq!(out, ms);
    assert!(parts.iter().all(Option::is_none));
}

#[test]
fn the_template_fold_gives_the_same_result_twice() {
    let (rs, ms) = two_templated_groups();
    let first = fold_templates(&rs, &ms, &vec![None; 5]);
    let second = fold_templates(&rs, &ms, &vec![None; 5]);
    assert_eq!(first, second);
}

#[test]
fn the_whole_prose_fold_gives_the_same_result_twice() {
    let (id, text) = bundled_probe();
    let repeated = long("repeated");
    let body = long("templated");
    let mut rows = vec![row(id, &text, Some(&text))];
    for _ in 0..3 {
        rows.push(row("r/exact", &repeated, None));
    }
    for v in ["Xuser", "Ybooking", "Zwebhook"] {
        rows.push(row("r/template", &format!("Model {v} {body} end."), None));
    }
    let a = fold(&rows);
    let b = fold(&rows);
    assert!(a.messages.is_some() && a.templates.is_some() && a.by_id);
    assert_eq!(a.messages, b.messages);
    assert_eq!(a.templates, b.templates);
    assert_eq!(a.by_id, b.by_id);
    assert_eq!(a.rows.len(), b.rows.len());
    for (x, y) in a.rows.iter().zip(b.rows.iter()) {
        assert_eq!((&x.message, &x.message_ref, &x.template_parts, x.message_by), (&y.message, &y.message_ref, &y.template_parts, y.message_by));
    }
}
