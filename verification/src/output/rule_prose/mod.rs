//! The per-reply prose fold: one copy of each repeated message text worth storing once, every
//! finding that shares it pointing at that copy from inside the same reply — whole texts first
//! (`ruleMessages`), then per-rule templates over what is still inline (`ruleMessageTemplates`),
//! after the by-id lane has replaced the prose a reader can rebuild from the finding's own rule id.
//! Nothing is shortened or dropped: every text is rebuildable byte for byte from the reply.
pub mod by_id;
pub mod cost;
pub mod exact;
pub mod mine;
pub mod template;

use vstd::prelude::*;

use crate::output::MAX_LIMIT;
use by_id::{by_id_applies, point_at_rule_id, BY_ID_MESSAGE};
use exact::{exact_stage, fold_exact, law_exact_stage_is_determined, messages_view};
use template::{clone_strings, fold_templates, law_template_stage_is_determined, strs, table_view, template_stage};

verus! {

/// The per-finding field carrying the `ruleMessages` key of a folded message.
pub const MESSAGE_REF: &'static str = "messageRef";

/// The per-finding field carrying the residues of a template-folded message.
pub const TEMPLATE_PARTS: &'static str = "templateParts";

/// The legend for `ruleMessages`; rides once per reply beside the table.
pub const RULE_MESSAGES_MEANING: &'static str = "A message text that more than one finding in this reply carries is stored here exactly once, keyed by the rule id that produced it (a rule storing more than one distinct text gets `<ruleId>#2`, `#3`, ... for its later ones). A finding whose text lives here carries `messageRef` holding its key: resolve it against the `ruleMessages` object sitting BESIDE the findings list that finding came from — a sibling, not a fixed path, because the same fold is applied to every findings list this tool ships, whatever its block is called. Read `finding.message` directly when `messageRef` is absent. A repeated text can also be absent from here: folding is applied only where it removes more bytes than the pointer, the `messageRef` field and this table cost to add, so a repeated message left inline is a size decision and never a sign that anything is missing. The stored text is byte-identical to what that finding used to carry inline — no sentence was shortened, dropped or reworded, and every byte is reachable without a second request. This is deduplication within one reply, never truncation: `truncated` remains the only key that ever means something was left out.";

/// The legend for `ruleMessageTemplates`: the splice rule in full, since that rule is the wire format.
pub const RULE_MESSAGE_TEMPLATES_MEANING: &'static str = "Rules that write a finding's own subject into their prose — a table name, a symbol, a cycle path — emit a different message every time, so the `ruleMessages` table above cannot hold them. What those messages SHARE is stored here instead, keyed by rule id: an array of the literal text segments common to every one of that rule's findings in this reply. A finding whose text is stored this way carries `templateParts`, an array of the bytes that differ. Rebuild the message by interleaving the two, SEGMENT FIRST: `segments[0] + parts[0] + segments[1] + parts[1] + ...`, ending on the last segment (`parts` is always exactly one shorter than `segments`). A segment may be an empty string at either end, which is how a message that begins or ends with per-finding text is carried. Look the template up by the finding's own `ruleId`; there is no separate key field and no `#N` suffix, because one template serves a rule and a rule whose messages do not all fit one is left inline instead. Read `finding.message` directly when neither `templateParts` nor `messageRef` is present. The rebuilt text is byte-identical to what that finding used to carry inline — no sentence was shortened, dropped or reworded, and every byte is reachable without a second request. This is deduplication within one reply, never truncation: `truncated` remains the only key that ever means something was left out.";

/// One shown finding as the fold reads it: its rule id and message, and the rule's word-for-word
/// bundled message when this binary carries that rule (the host resolves it from its rule corpus).
#[derive(Clone)]
pub struct ProseIn {
    pub rule_id: Option<String>,
    pub message: Option<String>,
    pub verbatim: Option<String>,
}

/// One shown finding after the fold: the message it now carries, and the three markers the lanes
/// may set — at most one of them per finding.
pub struct ProseOut {
    pub message: Option<String>,
    pub message_ref: Option<String>,
    pub template_parts: Option<Vec<String>>,
    pub message_by: bool,
}

/// Two lists of optional texts that read the same.
pub open spec fn same_texts(a: Seq<Option<String>>, b: Seq<Option<String>>) -> bool {
    a.len() == b.len() && forall|i: int| 0 <= i < a.len() ==> ov(#[trigger] a[i]) == ov(b[i])
}

/// The view of an optional text.
pub open spec fn ov(o: Option<String>) -> Option<Seq<char>> {
    match o {
        Some(s) => Some(s@),
        None => None,
    }
}

/// A copy of an optional text.
pub fn clone_text(o: &Option<String>) -> (r: Option<String>)
    ensures
        ov(r) == ov(*o),
{
    match o {
        Some(s) => Some(s.clone()),
        None => None,
    }
}

/// The texts of an optional list of strings.
pub open spec fn ovs(o: Option<Vec<String>>) -> Option<Seq<Seq<char>>> {
    match o {
        Some(v) => Some(strs(v@)),
        None => None,
    }
}

/// The by-id lane's outcome on one row: the pointer when the lane applies, the row's own
/// message otherwise.
pub open spec fn by_id_stage(rows: Seq<ProseIn>, msgs: Seq<Option<String>>, by: Seq<bool>) -> bool {
    &&& msgs.len() == rows.len()
    &&& by.len() == rows.len()
    &&& forall|i: int|
        0 <= i < rows.len() ==> if by_id_applies(#[trigger] rows[i]) {
            ov(msgs[i]) == Some(BY_ID_MESSAGE@) && by[i]
        } else {
            ov(msgs[i]) == ov(rows[i].message) && !by[i]
        }
}

/// What one shown list gained from the fold: every row's new message and markers, and the two
/// sibling tables, each absent when nothing of its kind was worth folding.
pub struct Folded {
    pub rows: Vec<ProseOut>,
    pub messages: Option<Vec<(String, String)>>,
    pub templates: Option<Vec<(String, Vec<String>)>>,
    /// Whether any row now carries the by-id pointer, which puts its legend on the reply.
    pub by_id: bool,
}

/// Both halves of the fold in the only order they compose — by-id first, then whole texts, then
/// templates over what is still inline — each stage reading what the one before left.
pub open spec fn fold_is(rows: Seq<ProseIn>, f: Folded) -> bool {
    &&& f.by_id == exists|i: int| 0 <= i < rows.len() && by_id_applies(#[trigger] rows[i])
    &&& exists|rules: Seq<Option<String>>, m1: Seq<Option<String>>, by: Seq<bool>, m2: Seq<
        Option<String>,
    >, refs: Seq<Option<String>>, m3: Seq<Option<String>>, parts: Seq<Option<Vec<String>>>|
        {
            &&& rules.len() == rows.len()
            &&& forall|i: int| 0 <= i < rows.len() ==> ov(#[trigger] rules[i]) == ov(rows[i].rule_id)
            &&& by_id_stage(rows, m1, by)
            &&& exact_stage(rules, m1, m2, refs, f.messages)
            &&& template_stage(rules, m2, refs, m3, parts, f.templates)
            &&& f.rows@.len() == rows.len()
            &&& forall|i: int|
                0 <= i < rows.len() ==> ov((#[trigger] f.rows@[i]).message) == ov(m3[i]) && ov(
                    f.rows@[i].message_ref,
                ) == ov(refs[i]) && ovs(f.rows@[i].template_parts) == ovs(parts[i])
                    && f.rows@[i].message_by == by[i]
        }
}

/// Folds one shown list. At most `MAX_LIMIT` rows: the list a cap has already cut.
pub fn fold(rows: &Vec<ProseIn>) -> (r: Folded)
    requires
        rows@.len() <= MAX_LIMIT,
    ensures
        fold_is(rows@, r),
        r.by_id == exists|i: int| 0 <= i < rows@.len() && by_id_applies(#[trigger] rows@[i]),
{
    let (m1, by, fired) = point_at_rule_id(rows);
    let mut rules: Vec<Option<String>> = Vec::new();
    let mut i: usize = 0;
    while i < rows.len()
        invariant
            i <= rows@.len(),
            rules@.len() == i,
            forall|k: int| 0 <= k < i ==> ov(#[trigger] rules@[k]) == ov(rows@[k].rule_id),
        decreases rows@.len() - i,
    {
        rules.push(clone_text(&rows[i].rule_id));
        i = i + 1;
    }
    let (m2, refs, messages) = fold_exact(&rules, &m1);
    let (m3, parts, templates) = fold_templates(&rules, &m2, &refs);
    let mut out: Vec<ProseOut> = Vec::new();
    let mut k: usize = 0;
    while k < rows.len()
        invariant
            k <= rows@.len(),
            m3@.len() == rows@.len(),
            parts@.len() == rows@.len(),
            refs@.len() == rows@.len(),
            by@.len() == rows@.len(),
            out@.len() == k,
            forall|q: int|
                0 <= q < k ==> ov((#[trigger] out@[q]).message) == ov(m3@[q]) && ov(out@[q].message_ref)
                    == ov(refs@[q]) && ovs(out@[q].template_parts) == ovs(parts@[q]) && out@[q].message_by
                    == by@[q],
        decreases rows@.len() - k,
    {
        let tp = match &parts[k] {
            Some(v) => Some(clone_strings(v)),
            None => None,
        };
        out.push(ProseOut {
            message: clone_text(&m3[k]),
            message_ref: clone_text(&refs[k]),
            template_parts: tp,
            message_by: by[k],
        });
        k = k + 1;
    }
    let f = Folded { rows: out, messages, templates, by_id: fired };
    proof {
        assert(by_id_stage(rows@, m1@, by@));
        assert(exact_stage(rules@, m1@, m2@, refs@, f.messages));
        assert(template_stage(rules@, m2@, refs@, m3@, parts@, f.templates));
        assert(fold_is(rows@, f));
    }
    f
}


/// Two lists of fold rows that read the same.
pub open spec fn rows_agree(a: Seq<ProseIn>, b: Seq<ProseIn>) -> bool {
    &&& a.len() == b.len()
    &&& forall|i: int|
        0 <= i < a.len() ==> ov((#[trigger] a[i]).rule_id) == ov(b[i].rule_id) && ov(a[i].message) == ov(b[i].message)
            && ov(a[i].verbatim) == ov(b[i].verbatim)
}

proof fn lemma_ov_agree(a: Option<String>, b: Option<String>)
    requires
        ov(a) == ov(b),
    ensures
        a is Some <==> b is Some,
        a->0@ == b->0@,
{
    if a is None {
        assert(b is None);
    }
}

/// The whole fold is determined by what its rows read: two folds of rows that read the same give
/// every row the same message, reference, residues and by-id marker, and carry the same
/// `ruleMessages` and `ruleMessageTemplates` tables.
pub proof fn law_fold_is_determined(rows1: Seq<ProseIn>, rows2: Seq<ProseIn>, f1: Folded, f2: Folded)
    requires
        rows_agree(rows1, rows2),
        fold_is(rows1, f1),
        fold_is(rows2, f2),
    ensures
        f1.rows@.len() == f2.rows@.len(),
        forall|q: int|
            0 <= q < f1.rows@.len() ==> ov((#[trigger] f1.rows@[q]).message) == ov(f2.rows@[q].message) && ov(
                f1.rows@[q].message_ref,
            ) == ov(f2.rows@[q].message_ref) && ovs(f1.rows@[q].template_parts) == ovs(f2.rows@[q].template_parts)
                && f1.rows@[q].message_by == f2.rows@[q].message_by,
        messages_view(f1.messages) == messages_view(f2.messages),
        table_view(f1.templates) == table_view(f2.templates),
        f1.by_id == f2.by_id,
{
    let (ra, m1a, bya, m2a, fa, m3a, pa) = choose|rules: Seq<Option<String>>, m1: Seq<Option<String>>, by: Seq<bool>, m2: Seq<
        Option<String>,
    >, refs: Seq<Option<String>>, m3: Seq<Option<String>>, parts: Seq<Option<Vec<String>>>|
        {
            &&& rules.len() == rows1.len()
            &&& forall|i: int| 0 <= i < rows1.len() ==> ov(#[trigger] rules[i]) == ov(rows1[i].rule_id)
            &&& by_id_stage(rows1, m1, by)
            &&& exact_stage(rules, m1, m2, refs, f1.messages)
            &&& template_stage(rules, m2, refs, m3, parts, f1.templates)
            &&& f1.rows@.len() == rows1.len()
            &&& forall|i: int|
                0 <= i < rows1.len() ==> ov((#[trigger] f1.rows@[i]).message) == ov(m3[i]) && ov(
                    f1.rows@[i].message_ref,
                ) == ov(refs[i]) && ovs(f1.rows@[i].template_parts) == ovs(parts[i])
                    && f1.rows@[i].message_by == by[i]
        };
    let (rb, m1b, byb, m2b, fb, m3b, pb) = choose|rules: Seq<Option<String>>, m1: Seq<Option<String>>, by: Seq<bool>, m2: Seq<
        Option<String>,
    >, refs: Seq<Option<String>>, m3: Seq<Option<String>>, parts: Seq<Option<Vec<String>>>|
        {
            &&& rules.len() == rows2.len()
            &&& forall|i: int| 0 <= i < rows2.len() ==> ov(#[trigger] rules[i]) == ov(rows2[i].rule_id)
            &&& by_id_stage(rows2, m1, by)
            &&& exact_stage(rules, m1, m2, refs, f2.messages)
            &&& template_stage(rules, m2, refs, m3, parts, f2.templates)
            &&& f2.rows@.len() == rows2.len()
            &&& forall|i: int|
                0 <= i < rows2.len() ==> ov((#[trigger] f2.rows@[i]).message) == ov(m3[i]) && ov(
                    f2.rows@[i].message_ref,
                ) == ov(refs[i]) && ovs(f2.rows@[i].template_parts) == ovs(parts[i])
                    && f2.rows@[i].message_by == by[i]
        };
    let n = rows1.len() as int;
    assert forall|i: int| 0 <= i < n implies ov(#[trigger] ra[i]) == ov(rb[i]) by {
        assert(ov(ra[i]) == ov(rows1[i].rule_id));
        assert(ov(rb[i]) == ov(rows2[i].rule_id));
    }
    assert forall|i: int| 0 <= i < n implies ov(#[trigger] m1a[i]) == ov(m1b[i]) && bya[i] == byb[i] by {
        let x = rows1[i];
        let y = rows2[i];
        lemma_ov_agree(x.rule_id, y.rule_id);
        lemma_ov_agree(x.message, y.message);
        lemma_ov_agree(x.verbatim, y.verbatim);
        assert(by_id_applies(x) == by_id_applies(y));
    }
    if f1.by_id {
        let i = choose|i: int| 0 <= i < rows1.len() && by_id_applies(#[trigger] rows1[i]);
        lemma_ov_agree(rows1[i].rule_id, rows2[i].rule_id);
        lemma_ov_agree(rows1[i].message, rows2[i].message);
        lemma_ov_agree(rows1[i].verbatim, rows2[i].verbatim);
        assert(by_id_applies(rows2[i]));
    }
    if f2.by_id {
        let i = choose|i: int| 0 <= i < rows2.len() && by_id_applies(#[trigger] rows2[i]);
        lemma_ov_agree(rows1[i].rule_id, rows2[i].rule_id);
        lemma_ov_agree(rows1[i].message, rows2[i].message);
        lemma_ov_agree(rows1[i].verbatim, rows2[i].verbatim);
        assert(by_id_applies(rows1[i]));
    }
    law_exact_stage_is_determined(ra, m1a, m2a, fa, f1.messages, rb, m1b, m2b, fb, f2.messages);
    law_template_stage_is_determined(ra, m2a, fa, m3a, pa, f1.templates, rb, m2b, fb, m3b, pb, f2.templates);
    assert forall|q: int| 0 <= q < f1.rows@.len() implies ov((#[trigger] f1.rows@[q]).message) == ov(f2.rows@[q].message)
        && ov(f1.rows@[q].message_ref) == ov(f2.rows@[q].message_ref) && ovs(f1.rows@[q].template_parts) == ovs(
        f2.rows@[q].template_parts,
    ) && f1.rows@[q].message_by == f2.rows@[q].message_by by {
        assert(ov(m1a[q]) == ov(m1b[q]));
        assert(bya[q] == byb[q]);
        assert(ov(m3a[q]) == ov(m3b[q]));
        assert(ov(fa[q]) == ov(fb[q]));
        assert(ovs(pa[q]) == ovs(pb[q]));
        assert(ov(f2.rows@[q].message) == ov(m3b[q]));
    }
}

} // verus!
