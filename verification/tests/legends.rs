use zzop_summary::output::legends::{
    contract_text, folded_object, folded_string, BY_DIRECTORY_MEANING, BY_RULE_MEANING, CRITICAL_TOP_MEANING,
    MODULE_MAP_MEANING, SHOWN_MEANING, TOP_RECOMMENDATION_MEANING,
};

const FLOOR: usize = 5;

const FOLDED_KEYS: [&str; 9] = [
    "coverageGaps.meaning",
    "module_map.meaning",
    "findings.byRuleMeaning",
    "findings.shownMeaning",
    "findings.byDirectory.meaning",
    "nativeAnalysesMeaning",
    "packsLoadedMeaning",
    "architecture.topRecommendationMeaning",
    "architecture.criticalTopMeaning",
];

fn document() -> String {
    contract_text(
        "The coverage legend, handed in by the host.",
        &vec![("counts".to_string(), "What the native analysis counts mean.".to_string())],
        &vec![("rules".to_string(), "What a pack row counts.".to_string())],
    )
}

#[test]
fn every_entry_yields_a_short_note_and_a_full_text_both_ways() {
    for key in FOLDED_KEYS {
        let note = folded_string(key, FLOOR);
        assert!(note.len() > 200, "`{key}`'s note is {} bytes — a pointer with no reading attached is not what this fold ships", note.len());
    }
    let owned_full_texts = [
        ("module_map.meaning", MODULE_MAP_MEANING),
        ("findings.byRuleMeaning", BY_RULE_MEANING),
        ("findings.shownMeaning", SHOWN_MEANING),
        ("findings.byDirectory.meaning", BY_DIRECTORY_MEANING),
        ("architecture.topRecommendationMeaning", TOP_RECOMMENDATION_MEANING),
        ("architecture.criticalTopMeaning", CRITICAL_TOP_MEANING),
    ];
    for (key, full) in owned_full_texts {
        let note = folded_string(key, FLOOR);
        assert!(full.len() > note.len(), "`{key}` folds to {} bytes from a full text of {} — a fold that does not shrink is a second copy", note.len(), full.len());
    }
}

#[test]
fn both_pointer_shapes_name_the_contract_constant_and_no_other() {
    let uri = "zzop://contract/reply-legends";
    let command = "zzop contract reply-legends";
    let string_form = folded_string("coverageGaps.meaning", FLOOR);
    assert!(
        string_form.contains(uri) && string_form.contains(command),
        "a string-valued legend has no sibling slot, so both dialects must be inside the sentence: {string_form}"
    );
    let object_form = folded_object("packsLoadedMeaning", FLOOR);
    assert_eq!(object_form.resource, uri);
    assert_eq!(object_form.command, command);
    assert!(object_form.note.len() > 200, "the object form must still say what its counts are about: {}", object_form.note);
}

#[test]
fn the_document_heads_every_section_with_the_reply_key_it_explains() {
    let doc = document();
    for key in FOLDED_KEYS {
        assert!(doc.contains(&format!("## `{key}`")), "the document has no heading for `{key}`");
    }
    assert!(!doc.contains("## `architecture.painMeaning`"));
}

#[test]
fn an_unknown_object_key_keeps_only_the_pointer_sentence() {
    let object_form = folded_object("architecture.painMeaning", FLOOR);
    assert!(object_form.note.starts_with(" This vocabulary is identical on every run"), "{}", object_form.note);
}
