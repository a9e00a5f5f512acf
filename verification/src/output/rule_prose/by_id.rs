//! The by-id lane — the one message mechanism that points OUT of the reply: prose a reader can
//! rebuild from the finding's own rule id is replaced by a short pointer plus a `messageBy` field,
//! and a legend rides beside it saying that resolving it costs a second request.
use vstd::prelude::*;

use super::{clone_text, ov, ProseIn};
use crate::text::{byte_len, owned, str_eq, utf8_len};

verus! {

/// The per-finding field saying a `message` is a pointer resolved by the finding's own rule id.
pub const MESSAGE_BY: &'static str = "messageBy";

/// The one value `messageBy` takes: resolve by the finding's `ruleId`.
pub const MESSAGE_BY_RULE_ID: &'static str = "ruleId";

/// The sentence that replaces rebuildable prose.
pub const BY_ID_MESSAGE: &'static str = "[by-id] resolve by ruleId; see messageByIdMeaning";

/// The legend for the by-id pointer; inline on every reply that fires it.
pub const MESSAGE_BY_ID_MEANING: &'static str = "A finding carrying `messageBy` is holding a POINTER in `message`, not prose. Detect it by that FIELD, never by the sentence: the sentence is wording and may be reworded, the field is the contract. Its value names the resolver, and the only value today is `ruleId`: the rule declared that text word for word, so every byte of it is rebuildable from the finding's own `ruleId` and none of it is repeated here. Run `zzop explain <ruleId>`, or read the MCP resource `zzop://rule/<ruleId>`; both return the same bytes, and both carry the message, the suppress marker and the disable knob that used to ride on the finding. This differs from `ruleMessages` and `ruleMessageTemplates` in the one way that matters: a folded message is still inside this reply, and a `messageBy` one is NOT, so resolving it costs a second request. No finding ever carries more than one of `messageBy`, `messageRef` and `templateParts`. What is never affected is which findings you were shown or what they counted toward — `truncated` remains the only key that means rows were left out. Messages that are not rebuildable keep every byte inline and never carry this field: native analyses, whose prose interpolates keys, sources and counts; any finding whose text was rewritten to name a suppression comment the rule does not honour, since that token was read out of the scanned source and no rule id can rebuild it; and any rule this binary does not carry, because the two resolvers above answer only for rules compiled into it — a pack loaded from `zzop/rules/` or `packs.extraDirs` keeps its prose for exactly that reason. A rule whose whole message is cheaper than the pointer and its field also stays inline: the threshold is net bytes, the same one `ruleMessages` publishes, so a message left whole is a size decision and never a sign that anything is missing.";

/// A finding the by-id lane rewrites: its rule is bundled, its message is that rule's verbatim
/// text byte for byte, and that text is longer than the pointer and its field cost.
pub open spec fn by_id_applies(r: ProseIn) -> bool {
    &&& r.rule_id is Some
    &&& r.verbatim is Some
    &&& r.message is Some
    &&& r.message->0@ == r.verbatim->0@
    &&& utf8_len(r.verbatim->0@) > utf8_len(BY_ID_MESSAGE@) + utf8_len(MESSAGE_BY@) + utf8_len(
        MESSAGE_BY_RULE_ID@,
    )
}

/// Replaces prose a reader can rebuild from the finding's own rule id with the by-id pointer, and
/// reports whether it fired. Returns each row's message after the lane and whether it carries
/// `messageBy`.
pub fn point_at_rule_id(rows: &Vec<ProseIn>) -> (r: (Vec<Option<String>>, Vec<bool>, bool))
    ensures
        r.0@.len() == rows@.len(),
        r.1@.len() == rows@.len(),
        forall|i: int|
            0 <= i < rows@.len() ==> if by_id_applies(#[trigger] rows@[i]) {
                ov(r.0@[i]) == Some(BY_ID_MESSAGE@) && r.1@[i]
            } else {
                ov(r.0@[i]) == ov(rows@[i].message) && !r.1@[i]
            },
        r.2 == exists|i: int| 0 <= i < rows@.len() && by_id_applies(#[trigger] rows@[i]),
{
    let budget = byte_len(BY_ID_MESSAGE) + byte_len(MESSAGE_BY) + byte_len(MESSAGE_BY_RULE_ID);
    let mut msgs: Vec<Option<String>> = Vec::new();
    let mut by: Vec<bool> = Vec::new();
    let mut fired = false;
    let mut i: usize = 0;
    while i < rows.len()
        invariant
            i <= rows@.len(),
            budget == utf8_len(BY_ID_MESSAGE@) + utf8_len(MESSAGE_BY@) + utf8_len(MESSAGE_BY_RULE_ID@),
            msgs@.len() == i,
            by@.len() == i,
            forall|k: int|
                0 <= k < i ==> if by_id_applies(#[trigger] rows@[k]) {
                    ov(msgs@[k]) == Some(BY_ID_MESSAGE@) && by@[k]
                } else {
                    ov(msgs@[k]) == ov(rows@[k].message) && !by@[k]
                },
            fired == exists|k: int| 0 <= k < i && by_id_applies(#[trigger] rows@[k]),
        decreases rows@.len() - i,
    {
        let row = &rows[i];
        let applies = match (&row.rule_id, &row.verbatim, &row.message) {
            (Some(_), Some(v), Some(m)) => str_eq(m.as_str(), v.as_str()) && byte_len(v.as_str())
                > budget,
            _ => false,
        };
        if applies {
            msgs.push(Some(owned(BY_ID_MESSAGE)));
            by.push(true);
            fired = true;
        } else {
            msgs.push(clone_text(&row.message));
            by.push(false);
        }
        i = i + 1;
    }
    (msgs, by, fired)
}

} // verus!
