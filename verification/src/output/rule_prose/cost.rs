//! What folding one text costs and saves, in the bytes that reach the wire — the arithmetic both
//! halves of the fold gate on, and the pointer sentences they price, each spelled once.
use vstd::prelude::*;

use super::{MESSAGE_REF, RULE_MESSAGES_MEANING, RULE_MESSAGE_TEMPLATES_MEANING, TEMPLATE_PARTS};
use crate::json::{json_quoted, json_string};
use super::template::strs;
use crate::text::{byte_len, owned, push_str, utf8_len};

verus! {

broadcast use vstd::seq_lib::group_seq_properties;

/// The serialized length of `s` as a JSON string, quotes and escapes included.
pub open spec fn json_len(s: Seq<char>) -> int {
    utf8_len(json_quoted(s)) as int
}

/// What the wire spends on `s` as a JSON string.
pub fn json_bytes(s: &str) -> (r: i128)
    ensures
        r == json_len(s@),
        0 <= r <= usize::MAX,
{
    let q = json_string(s);
    let n = byte_len(q.as_str());
    n as i128
}

/// The folded pointer sentence up to its key.
pub const POINTER_HEAD: &'static str = "[folded] this rule's full text is carried once in this reply at ruleMessages[\"";

/// The folded pointer sentence after its key.
pub const POINTER_TAIL: &'static str = "\"] beside this list — resolve via `messageRef`; see ruleMessagesMeaning.";

/// The sentence a folded finding carries in place of its prose.
pub open spec fn pointer_text(key: Seq<char>) -> Seq<char> {
    POINTER_HEAD@ + key + POINTER_TAIL@
}

/// The sentence a folded finding carries; the byte arithmetic prices exactly this sentence.
pub fn pointer_sentence(key: &str) -> (r: String)
    ensures
        r@ == pointer_text(key@),
{
    let mut s = owned(POINTER_HEAD);
    push_str(&mut s, key);
    push_str(&mut s, POINTER_TAIL);
    s
}

/// The templated pointer sentence up to its key.
pub const TEMPLATE_POINTER_HEAD: &'static str = "[templated] this rule's shared text is carried once in this reply at ruleMessageTemplates[\"";

/// The templated pointer sentence after its key.
pub const TEMPLATE_POINTER_TAIL: &'static str = "\"] beside this list — splice `templateParts` into its gaps; see ruleMessageTemplatesMeaning.";

/// The sentence a template-folded finding carries in place of its prose.
pub open spec fn template_pointer_text(key: Seq<char>) -> Seq<char> {
    TEMPLATE_POINTER_HEAD@ + key + TEMPLATE_POINTER_TAIL@
}

/// The sentence a template-folded finding carries.
pub fn template_pointer_sentence(key: &str) -> (r: String)
    ensures
        r@ == template_pointer_text(key@),
{
    let mut s = owned(TEMPLATE_POINTER_HEAD);
    push_str(&mut s, key);
    push_str(&mut s, TEMPLATE_POINTER_TAIL);
    s
}

/// One added `"messageRef": "..."` field beyond its value: the quoted name, `: `, the joining
/// comma, and the newline plus eight spaces of indent four levels deep.
pub const REF_FIELD_BYTES: i128 = 24;

/// One `ruleMessages` row beyond its key and text: `: `, the comma, the newline, six spaces.
pub const TABLE_ROW_BYTES: i128 = 10;

/// One added `"templateParts": [...]` field beyond the list itself.
pub const TEMPLATE_FIELD_BYTES: i128 = 27;

/// The per-field constants are the field names' own spellings, priced.
pub proof fn lemma_field_bytes_follow_names()
    ensures
        REF_FIELD_BYTES == utf8_len(MESSAGE_REF@) + 2 + 2 + 1 + 1 + 8,
        TEMPLATE_FIELD_BYTES == utf8_len(TEMPLATE_PARTS@) + 2 + 2 + 1 + 1 + 8,
{
    reveal_strlit("messageRef");
    reveal_strlit("templateParts");
    reveal_with_fuel(utf8_len, 14);
}

/// The cost a reply pays once the moment any text folds: the `ruleMessages` field with its braces
/// and the whole `ruleMessagesMeaning` legend.
pub open spec fn one_time_spec() -> int {
    58 + json_len(RULE_MESSAGES_MEANING@)
}

/// The exact fold's one-time cost.
pub fn one_time_bytes() -> (r: i128)
    ensures
        r == one_time_spec(),
{
    58 + json_bytes(RULE_MESSAGES_MEANING)
}

/// Bytes saved by folding one text carried by `n` findings under `key`; negative when folding it
/// costs more than it removes. The one-time cost is charged separately, against the sum.
pub open spec fn net_gain_spec(n: int, text: Seq<char>, key: Seq<char>) -> int {
    n * json_len(text) - n * json_len(pointer_text(key)) - n * (REF_FIELD_BYTES + json_len(key)) - (
    json_len(key) + json_len(text) + TABLE_ROW_BYTES)
}

/// The exact fold's per-candidate gain.
pub fn net_gain(n: usize, text: &str, key: &str) -> (r: i128)
    requires
        n <= crate::output::MAX_LIMIT,
    ensures
        r == net_gain_spec(n as int, text@, key@),
        r <= 1000 * 0x1_0000_0000_0000_0000,
{
    let t = json_bytes(text);
    let ptr = pointer_sentence(key);
    let p = json_bytes(ptr.as_str());
    let k = json_bytes(key);
    let nn = n as i128;
    proof {
        assert(nn * t <= 1000 * 0x1_0000_0000_0000_0000) by (nonlinear_arith)
            requires
                0 <= nn <= 1000,
                0 <= t <= 0x1_0000_0000_0000_0000,
        ;
        assert(nn * p <= 1000 * 0x1_0000_0000_0000_0000) by (nonlinear_arith)
            requires
                0 <= nn <= 1000,
                0 <= p <= 0x1_0000_0000_0000_0000,
        ;
        assert(nn * (REF_FIELD_BYTES + k) <= 1000 * 0x1_0000_0000_0000_0020) by (nonlinear_arith)
            requires
                0 <= nn <= 1000,
                0 <= k <= 0x1_0000_0000_0000_0000,
        ;
        assert(nn * t >= 0 && nn * p >= 0 && nn * (REF_FIELD_BYTES + k) >= 0) by (nonlinear_arith)
            requires
                0 <= nn,
                0 <= t,
                0 <= p,
                0 <= k,
        ;
    }
    nn * t - nn * p - nn * (REF_FIELD_BYTES + k) - (k + t + TABLE_ROW_BYTES)
}

/// One pretty-printed array of strings at the given element and closing indents: the brackets,
/// and per element its newline, indent, serialized value and joining comma.
pub open spec fn array_bytes_spec(values: Seq<Seq<char>>, elem_indent: int, close_indent: int) -> int {
    elems_bytes(values, elem_indent) + close_indent + 2
}

/// The per-element part of [`array_bytes_spec`].
pub open spec fn elems_bytes(values: Seq<Seq<char>>, elem_indent: int) -> int
    decreases values.len(),
{
    if values.len() == 0 {
        0
    } else {
        elems_bytes(values.drop_last(), elem_indent) + 2 + elem_indent + json_len(values.last())
    }
}

/// The limit past which a priced list is declined rather than priced.
pub const PRICE_CEILING: i128 = 0x1_0000_0000_0000_0000_0000_0000;

/// The texts of each list.
pub open spec fn strss(v: Seq<Vec<String>>) -> Seq<Seq<Seq<char>>> {
    v.map_values(|x: Vec<String>| strs(x@))
}

/// A list whose elements' price stays within the ceiling, so it is priced rather than declined.
pub open spec fn priceable(values: Seq<Seq<char>>, elem_indent: int) -> bool {
    elems_bytes(values, elem_indent) <= PRICE_CEILING
}

proof fn lemma_elems_prefix(values: Seq<Seq<char>>, elem_indent: int, k: int)
    requires
        0 <= k <= values.len(),
        elem_indent >= 0,
    ensures
        0 <= elems_bytes(values.take(k), elem_indent) <= elems_bytes(values, elem_indent),
    decreases values.len(),
{
    if k == values.len() {
        assert(values.take(k) =~= values);
    } else {
        lemma_elems_prefix(values.drop_last(), elem_indent, k);
        assert(values.drop_last().take(k) =~= values.take(k));
    }
    lemma_elems_nonneg(values.take(k), elem_indent);
}

proof fn lemma_elems_nonneg(values: Seq<Seq<char>>, elem_indent: int)
    requires
        elem_indent >= 0,
    ensures
        elems_bytes(values, elem_indent) >= 0,
    decreases values.len(),
{
    if values.len() > 0 {
        lemma_elems_nonneg(values.drop_last(), elem_indent);
    }
}

/// The bytes of one pretty-printed array; `None` exactly when its price would pass the ceiling.
pub fn array_bytes(values: &Vec<String>, elem_indent: i128, close_indent: i128) -> (r: Option<i128>)
    requires
        0 <= elem_indent <= 100,
        0 <= close_indent <= 100,
    ensures
        r matches Some(x) ==> x == array_bytes_spec(strs(values@), elem_indent as int, close_indent as int)
            && 0 <= x <= PRICE_CEILING + 200,
        r is Some <==> priceable(strs(values@), elem_indent as int),
{
    let mut acc: i128 = 0;
    let mut i: usize = 0;
    while i < values.len()
        invariant
            i <= values@.len(),
            0 <= elem_indent <= 100,
            acc == elems_bytes(strs(values@).take(i as int), elem_indent as int),
            0 <= acc <= PRICE_CEILING,
        decreases values@.len() - i,
    {
        proof {
            assert(strs(values@).take(i + 1).drop_last() =~= strs(values@).take(i as int));
            assert(strs(values@).take(i + 1).last() == values@[i as int]@);
        }
        let j = json_bytes(values[i].as_str());
        if acc > PRICE_CEILING - j - 2 - elem_indent {
            proof {
                lemma_elems_prefix(strs(values@), elem_indent as int, i + 1);
            }
            return None;
        }
        acc = acc + 2 + elem_indent + j;
        i = i + 1;
    }
    proof {
        assert(strs(values@).take(i as int) =~= strs(values@));
    }
    Some(acc + close_indent + 2)
}

/// Bytes saved by folding one rule group onto `parts`: the messages' own bytes, less each
/// finding's pointer, field and residue list, less the table row.
pub open spec fn template_gain_spec(
    key: Seq<char>,
    parts: Seq<Seq<char>>,
    msgs: Seq<Seq<char>>,
    splits: Seq<Seq<Seq<char>>>,
) -> int {
    msgs_bytes(msgs) - findings_bytes(key, splits) - (json_len(key) + 2 + 1 + 1 + 6
        + array_bytes_spec(parts, 8, 6))
}

/// The messages' serialized bytes.
pub open spec fn msgs_bytes(msgs: Seq<Seq<char>>) -> int
    decreases msgs.len(),
{
    if msgs.len() == 0 {
        0
    } else {
        msgs_bytes(msgs.drop_last()) + json_len(msgs.last())
    }
}

/// What each templated finding carries in place of its message.
pub open spec fn findings_bytes(key: Seq<char>, splits: Seq<Seq<Seq<char>>>) -> int
    decreases splits.len(),
{
    if splits.len() == 0 {
        0
    } else {
        findings_bytes(key, splits.drop_last()) + json_len(template_pointer_text(key))
            + TEMPLATE_FIELD_BYTES + array_bytes_spec(splits.last(), 10, 8)
    }
}

/// The template gain of one rule group, or `None` when pricing it would pass the ceiling (such a
/// group is left inline).
pub fn template_net_gain(
    key: &str,
    parts: &Vec<String>,
    msgs: &Vec<String>,
    splits: &Vec<Vec<String>>,
) -> (r: Option<i128>)
    requires
        msgs@.len() == splits@.len(),
        msgs@.len() <= crate::output::MAX_LIMIT,
    ensures
        r matches Some(g) ==> g == template_gain_spec(key@, strs(parts@), strs(msgs@), strss(splits@)) && g <= 1000
            * 0x1_0000_0000_0000_0000,
        r is Some <==> priceable(strs(parts@), 8) && forall|k: int| 0 <= k < splits@.len() ==> priceable(#[trigger] strss(splits@)[k], 10),
{
    let tp = template_pointer_sentence(key);
    let pointer = json_bytes(tp.as_str());
    let mut before: i128 = 0;
    let mut per: i128 = 0;
    let mut i: usize = 0;
    while i < msgs.len()
        invariant
            msgs@.len() == splits@.len(),
            msgs@.len() <= 1000,
            i <= msgs@.len(),
            0 <= pointer <= usize::MAX,
            pointer == json_len(template_pointer_text(key@)),
            before == msgs_bytes(strs(msgs@).take(i as int)),
            per == findings_bytes(key@, strss(splits@).take(i as int)),
            0 <= before <= i * 0x1_0000_0000_0000_0000,
            0 <= per <= i * (PRICE_CEILING + 0x2_0000_0000_0000_0000),
            forall|k: int| 0 <= k < i ==> priceable(#[trigger] strss(splits@)[k], 10),
        decreases msgs@.len() - i,
    {
        proof {
            assert(strs(msgs@).take(i + 1).drop_last() =~= strs(msgs@).take(i as int));
            assert(strss(splits@).take(i + 1).drop_last() =~= strss(splits@).take(i as int));
            assert(strs(msgs@).take(i + 1).last() == msgs@[i as int]@);
            assert(strss(splits@).take(i + 1).last() == strs(splits@[i as int]@));
            assert(strss(splits@)[i as int] == strs(splits@[i as int]@));
        }
        let m = json_bytes(msgs[i].as_str());
        let a = match array_bytes(&splits[i], 10, 8) {
            Some(a) => a,
            None => {
                return None;
            },
        };
        proof {
            assert(0 <= a <= PRICE_CEILING + 200);
            let c = PRICE_CEILING + 0x2_0000_0000_0000_0000;
            assert(i * c + c == (i + 1) * c && (i + 1) * c <= 1000 * c) by (nonlinear_arith)
                requires
                    i < 1000,
                    c > 0,
            ;
            assert(i * 0x1_0000_0000_0000_0000 + 0x1_0000_0000_0000_0000 == (i + 1)
                * 0x1_0000_0000_0000_0000);
        }
        before = before + m;
        per = per + pointer + TEMPLATE_FIELD_BYTES + a;
        i = i + 1;
    }
    proof {
        assert(strs(msgs@).take(i as int) =~= strs(msgs@));
        assert(strss(splits@).take(i as int) =~= strss(splits@));
    }
    let row_list = match array_bytes(parts, 8, 6) {
        Some(a) => a,
        None => {
            return None;
        },
    };
    let k = json_bytes(key);
    Some(before - per - (k + 2 + 1 + 1 + 6 + row_list))
}

/// Whether a middle template part of `len` bytes, on a group of `n` findings, costs more than it
/// saves — a shape heuristic; the group is re-priced exactly afterwards.
pub open spec fn dead_weight_spec(len: int, n: int) -> bool {
    n * (len - 2 - 12) - (12 + len) < 0
}

/// [`dead_weight_spec`].
pub fn template_part_is_dead_weight(len: i128, n: i128) -> (r: bool)
    requires
        0 <= len <= 0x4_0000_0000_0000_0000,
        0 <= n <= 1000,
    ensures
        r == dead_weight_spec(len as int, n as int),
{
    proof {
        assert(-1000 * 14 <= n * (len - 2 - 12) <= 1000 * 0x4_0000_0000_0000_0000) by (nonlinear_arith)
            requires
                0 <= len <= 0x4_0000_0000_0000_0000,
                0 <= n <= 1000,
        ;
    }
    n * (len - 2 - 12) - (12 + len) < 0
}

/// The cost a reply pays once the moment any rule templates: the `ruleMessageTemplates` field
/// with its braces and the whole legend beside it.
pub open spec fn template_one_time_spec() -> int {
    74 + json_len(RULE_MESSAGE_TEMPLATES_MEANING@)
}

/// The template fold's one-time cost.
pub fn template_one_time_bytes() -> (r: i128)
    ensures
        r == template_one_time_spec(),
{
    74 + json_bytes(RULE_MESSAGE_TEMPLATES_MEANING)
}

} // verus!
