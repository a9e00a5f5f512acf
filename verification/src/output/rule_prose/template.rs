//! The template fold: for the rules whose prose interpolates a per-finding value, the literal
//! segments every one of the rule's messages shares are stored once under the rule id, and each
//! finding keeps only the bytes that differ (`templateParts`), in order. Interleaving the two,
//! segment first, rebuilds every message byte for byte.
use vstd::prelude::*;

use super::cost::{
    priceable, strss, template_gain_spec, template_net_gain, template_one_time_bytes, template_one_time_spec,
    template_pointer_sentence, template_pointer_text,
};
use super::mine::{all_spans_of, derive_parts, derived, prune, prune_spec, slice_chars, views};
use super::{clone_text, ov, ovs, same_texts};
use crate::output::MAX_LIMIT;
use crate::text::{chars_ends_with, chars_eq, chars_of, chars_starts_with, is_prefix, is_suffix, push_str, string_of};

verus! {

broadcast use vstd::seq_lib::group_seq_properties;

/// Parts and residues interleaved, part first: `parts[0] + res[0] + parts[1] + ...`, ending on
/// the last part. Meaningful when there is one more part than residues.
pub open spec fn splice(parts: Seq<Seq<char>>, res: Seq<Seq<char>>) -> Seq<char>
    decreases res.len(),
{
    if res.len() == 0 {
        if parts.len() > 0 {
            parts[0]
        } else {
            Seq::empty()
        }
    } else {
        splice(parts.drop_last(), res.drop_last()) + res.last() + parts.last()
    }
}

/// The texts of `v`.
pub open spec fn strs(v: Seq<String>) -> Seq<Seq<char>> {
    v.map_values(|x: String| x@)
}

/// `part` occurs in `m` at position `i`.
pub open spec fn occurs_at(m: Seq<char>, part: Seq<char>, i: int) -> bool {
    0 <= i && i + part.len() <= m.len() && m.subrange(i, i + part.len()) == part
}

/// The first position at or after `from` where `part` occurs in `m`, or -1.
pub open spec fn first_occ(m: Seq<char>, part: Seq<char>, from: int) -> int
    decreases m.len() + 1 - from,
{
    if from < 0 || from > m.len() {
        -1
    } else if occurs_at(m, part, from) {
        from
    } else {
        first_occ(m, part, from + 1)
    }
}

proof fn lemma_first_occ(m: Seq<char>, part: Seq<char>, from: int, found: Option<usize>)
    requires
        0 <= from,
        match found {
            Some(i) => from <= i && occurs_at(m, part, i as int) && forall|j: int| from <= j < i ==> !occurs_at(m, part, j),
            None => forall|j: int| from <= j ==> !occurs_at(m, part, j),
        },
    ensures
        first_occ(m, part, from) == match found {
            Some(i) => i as int,
            None => -1,
        },
    decreases m.len() + 1 - from,
{
    match found {
        Some(i) => {
            if from < i {
                assert(from + part.len() <= m.len()) by {
                    assert(i + part.len() <= m.len());
                }
                lemma_first_occ(m, part, from + 1, found);
            }
        },
        None => {
            if from <= m.len() {
                lemma_first_occ(m, part, from + 1, found);
            }
        },
    }
}

/// The residues taken greedily from part `t` on, the search resuming at `pos`: each middle part
/// at its first occurrence, the last part at the end.
pub open spec fn split_from(m: Seq<char>, parts: Seq<Seq<char>>, t: int, pos: int, acc: Seq<Seq<char>>) -> Option<Seq<Seq<char>>>
    decreases parts.len() - t,
{
    if t >= parts.len() - 1 {
        let last = parts.last();
        if !is_suffix(last, m) || m.len() - last.len() < pos {
            None
        } else {
            Some(acc.push(m.subrange(pos, m.len() - last.len())))
        }
    } else {
        let i = first_occ(m, parts[t], pos);
        if i < 0 {
            None
        } else {
            split_from(m, parts, t + 1, i + parts[t].len(), acc.push(m.subrange(pos, i)))
        }
    }
}

/// The residues of `m` between `parts`, each middle part at its first occurrence; `None` when
/// they do not fit.
pub open spec fn split_spec(m: Seq<char>, parts: Seq<Seq<char>>) -> Option<Seq<Seq<char>>> {
    if parts.len() < 2 || !is_prefix(parts[0], m) {
        None
    } else {
        split_from(m, parts, 1, parts[0].len() as int, Seq::empty())
    }
}

/// The first position at or after `from` where `part` occurs in `m`; `None` when it occurs at no
/// such position.
fn find_from(m: &Vec<char>, from: usize, part: &Vec<char>) -> (r: Option<usize>)
    requires
        from <= m@.len(),
    ensures
        match r {
            Some(i) => from <= i && occurs_at(m@, part@, i as int) && forall|j: int| from <= j < i ==> !occurs_at(m@, part@, j),
            None => forall|j: int| from <= j ==> !occurs_at(m@, part@, j),
        },
{
    let mlen = m.len();
    if part.len() == 0 {
        proof {
            assert(m@.subrange(from as int, from as int) =~= part@);
        }
        return Some(from);
    }
    if part.len() > m.len() {
        return None;
    }
    let last = m.len() - part.len();
    let mut i: usize = from;
    while i <= last
        invariant
            from <= i,
            last + part@.len() == m@.len(),
            part@.len() >= 1,
            m@.len() == m.len(),
            forall|j: int| from <= j < i ==> !occurs_at(m@, part@, j),
        decreases last + 1 - i,
    {
        let mut k: usize = 0;
        let mut ok = true;
        while k < part.len()
            invariant
                i <= last,
                last + part@.len() == m@.len(),
                m@.len() == m.len(),
                k <= part@.len(),
                ok ==> forall|q: int| 0 <= q < k ==> m@[i + q] == part@[q],
                !ok ==> exists|q: int| 0 <= q < k && m@[i + q] != part@[q],
            decreases part@.len() - k,
        {
            if m[i + k] != part[k] {
                ok = false;
            }
            k = k + 1;
        }
        if ok {
            proof {
                assert(m@.subrange(i as int, i + part@.len()) =~= part@);
            }
            return Some(i);
        }
        proof {
            let q = choose|q: int| 0 <= q < k && m@[i + q] != part@[q];
            assert(m@.subrange(i as int, i + part@.len())[q] == m@[i + q]);
            assert(!occurs_at(m@, part@, i as int));
        }
        i = i + 1;
    }
    None
}

/// Some residues interleave with `parts` to give exactly `m`.
pub open spec fn fits(m: Seq<char>, parts: Seq<Seq<char>>) -> bool {
    exists|res: Seq<Seq<char>>| #[trigger] fits_with(m, parts, res)
}

/// `res` interleaved with `parts` gives exactly `m`.
pub open spec fn fits_with(m: Seq<char>, parts: Seq<Seq<char>>, res: Seq<Seq<char>>) -> bool {
    res.len() + 1 == parts.len() && splice(parts, res) == m
}

/// `part` occurs nowhere in `piece + part` before the end of `piece`: `piece` is as short as it
/// can be.
pub open spec fn left_ok(piece: Seq<char>, part: Seq<char>) -> bool {
    forall|j: int| 0 <= j < piece.len() ==> !occurs_at(piece + part, part, j)
}

/// Every residue before a middle part is as short as it can be: each middle part sits at its
/// earliest position.
pub open spec fn leftmost(parts: Seq<Seq<char>>, res: Seq<Seq<char>>) -> bool {
    forall|t: int| 1 <= t < parts.len() - 1 ==> left_ok(#[trigger] res[t - 1], parts[t])
}

/// Where part `t` ends in the interleaving of `parts` and `res`.
pub open spec fn part_end(parts: Seq<Seq<char>>, res: Seq<Seq<char>>, t: int) -> int {
    splice(parts.take(t + 1), res.take(t)).len() as int
}

proof fn lemma_splice_step(parts: Seq<Seq<char>>, res: Seq<Seq<char>>, t: int)
    requires
        res.len() + 1 == parts.len(),
        1 <= t < parts.len(),
    ensures
        splice(parts.take(t + 1), res.take(t)) == splice(parts.take(t), res.take(t - 1)) + res[t - 1] + parts[t],
{
    assert(parts.take(t + 1).drop_last() =~= parts.take(t));
    assert(res.take(t).drop_last() =~= res.take(t - 1));
}

proof fn lemma_splice_prefix(parts: Seq<Seq<char>>, res: Seq<Seq<char>>, t: int)
    requires
        res.len() + 1 == parts.len(),
        0 <= t < parts.len(),
    ensures
        part_end(parts, res, t) <= splice(parts, res).len(),
        splice(parts, res).subrange(0, part_end(parts, res, t)) == splice(parts.take(t + 1), res.take(t)),
    decreases res.len(),
{
    if t == res.len() {
        assert(parts.take(t + 1) =~= parts);
        assert(res.take(t) =~= res);
    } else {
        let p1 = parts.drop_last();
        let r1 = res.drop_last();
        lemma_splice_prefix(p1, r1, t);
        assert(p1.take(t + 1) =~= parts.take(t + 1));
        assert(r1.take(t) =~= res.take(t));
        let whole = splice(parts, res);
        assert(whole == splice(p1, r1) + res.last() + parts.last());
        assert(whole.subrange(0, part_end(parts, res, t)) =~= splice(p1, r1).subrange(0, part_end(parts, res, t)));
    }
}

proof fn lemma_splice_first(parts: Seq<Seq<char>>)
    requires
        parts.len() >= 1,
    ensures
        splice(parts.take(1), Seq::<Seq<char>>::empty().take(0)) == parts[0],
{
    assert(Seq::<Seq<char>>::empty().take(0) =~= Seq::<Seq<char>>::empty());
    assert(parts.take(1)[0] == parts[0]);
}

/// In an interleaving, part `t` occurs right before its end, and (after the first) right after
/// the previous part's end and its residue.
proof fn lemma_part_at(m: Seq<char>, parts: Seq<Seq<char>>, res: Seq<Seq<char>>, t: int)
    requires
        fits_with(m, parts, res),
        0 <= t < parts.len(),
    ensures
        occurs_at(m, parts[t], part_end(parts, res, t) - parts[t].len()),
        t == 0 ==> part_end(parts, res, t) == parts[0].len(),
        t >= 1 ==> part_end(parts, res, t) == part_end(parts, res, t - 1) + res[t - 1].len() + parts[t].len(),
        t == parts.len() - 1 ==> part_end(parts, res, t) == m.len(),
{
    lemma_splice_prefix(parts, res, t);
    let pre = splice(parts.take(t + 1), res.take(t));
    let e = part_end(parts, res, t);
    if t == 0 {
        assert(res.take(0) =~= Seq::<Seq<char>>::empty().take(0));
        lemma_splice_first(parts);
        assert(m.subrange(0, e) == parts[0]);
        assert(m.subrange(0, parts[0].len() as int) =~= parts[0]);
    } else {
        lemma_splice_step(parts, res, t);
        let before = splice(parts.take(t), res.take(t - 1));
        assert(pre == before + res[t - 1] + parts[t]);
        assert(m.subrange(e - parts[t].len(), e) =~= pre.subrange(e - parts[t].len(), e));
        assert(pre.subrange(e - parts[t].len(), e) =~= parts[t]);
    }
    if t == parts.len() - 1 {
        assert(parts.take(t + 1) =~= parts);
        assert(res.take(t) =~= res);
    }
}

/// The search step of [`split`]: when `part` (part `t`) first occurs at or after `pos` at `idx`,
/// every fitting interleaving ends part `t` no earlier than `idx + part.len()`, and the residue
/// taken is as short as it can be; when it occurs nowhere, nothing fits.
#[verifier::spinoff_prover]
#[verifier::rlimit(40)]
proof fn lemma_split_step(m: Seq<char>, pv: Seq<Seq<char>>, t: int, pos: int, found: Option<usize>)
    requires
        1 <= t < pv.len(),
        0 <= pos <= m.len(),
        forall|w: Seq<Seq<char>>| #[trigger] fits_with(m, pv, w) ==> pos <= part_end(pv, w, t - 1),
        match found {
            Some(i) => pos <= i && occurs_at(m, pv[t], i as int) && forall|j: int| pos <= j < i ==> !occurs_at(m, pv[t], j),
            None => forall|j: int| pos <= j ==> !occurs_at(m, pv[t], j),
        },
    ensures
        found is None ==> !fits(m, pv),
        found matches Some(idx) ==> (forall|w: Seq<Seq<char>>| #[trigger] fits_with(m, pv, w) ==> idx + pv[t].len() <= part_end(pv, w, t))
            && left_ok(m.subrange(pos, idx as int), pv[t]),
{
    let part = pv[t];
    if found is None && fits(m, pv) {
        let w = choose|w: Seq<Seq<char>>| #[trigger] fits_with(m, pv, w);
        lemma_part_at(m, pv, w, t);
        assert(occurs_at(m, part, part_end(pv, w, t) - part.len()));
    }
    if let Some(idx) = found {
        assert forall|w: Seq<Seq<char>>| #[trigger] fits_with(m, pv, w) implies idx + part.len() <= part_end(pv, w, t) by {
            lemma_part_at(m, pv, w, t);
            let j = part_end(pv, w, t) - part.len();
            assert(occurs_at(m, part, j));
        }
        let piece = m.subrange(pos, idx as int);
        assert forall|j: int| 0 <= j < piece.len() implies !occurs_at(piece + part, part, j) by {
            if occurs_at(piece + part, part, j) {
                assert((piece + part).subrange(j, j + part.len()) =~= m.subrange(pos + j, pos + j + part.len()));
                assert(occurs_at(m, part, pos + j));
            }
        }
    }
}

/// Splits `m` into the residues between `parts`, each middle part at its earliest position;
/// `None` exactly when no residues fit. Taking each part as early as it occurs leaves the most
/// room for the rest, so this finds residues whenever any exist.
pub fn split(m: &Vec<char>, parts: &Vec<Vec<char>>) -> (r: Option<Vec<Vec<char>>>)
    requires
        parts@.len() >= 2,
    ensures
        match r {
            Some(res) => res@.len() + 1 == parts@.len() && splice(views(parts@), views(res@)) == m@
                && leftmost(views(parts@), views(res@)),
            None => !fits(m@, views(parts@)),
        },
        split_spec(m@, views(parts@)) == match r {
            Some(res) => Some(views(res@)),
            None => None::<Seq<Seq<char>>>,
        },
{
    let ghost pv = views(parts@);
    let k = parts.len() - 1;
    let mlen = m.len();
    if !chars_starts_with(m, &parts[0]) {
        proof {
            if fits(m@, pv) {
                let w = choose|w: Seq<Seq<char>>| #[trigger] fits_with(m@, pv, w);
                lemma_part_at(m@, pv, w, 0);
                assert(m@.subrange(0, pv[0].len() as int) == pv[0]);
            }
        }
        return None;
    }
    let mut pos: usize = parts[0].len();
    let mut res: Vec<Vec<char>> = Vec::new();
    proof {
        assert(views(parts@.take(1)) =~= seq![parts@[0]@]);
        assert(m@.subrange(0, pos as int) == splice(views(parts@.take(1)), views(res@)));
        assert(views(res@) =~= Seq::<Seq<char>>::empty());
        assert(pv[0] == parts@[0]@);
        assert forall|w: Seq<Seq<char>>| #[trigger] fits_with(m@, pv, w) implies pos <= part_end(pv, w, 0) by {
            lemma_part_at(m@, pv, w, 0);
        }
    }
    let mut t: usize = 1;
    while t < k
        invariant
            k + 1 == parts@.len(),
            pv == views(parts@),
            1 <= t <= k,
            mlen == m@.len(),
            pos <= m@.len(),
            res@.len() + 1 == t,
            m@.subrange(0, pos as int) == splice(views(parts@.take(t as int)), views(res@)),
            forall|w: Seq<Seq<char>>| #[trigger] fits_with(m@, pv, w) ==> pos <= part_end(pv, w, t - 1),
            forall|q: int| 0 <= q < res@.len() ==> left_ok(#[trigger] res@[q]@, parts@[q + 1]@),
            split_spec(m@, pv) == split_from(m@, pv, t as int, pos as int, views(res@)),
        decreases k - t,
    {
        let part = &parts[t];
        let found = find_from(m, pos, part);
        proof {
            assert(pv[t as int] == part@);
            lemma_split_step(m@, pv, t as int, pos as int, found);
            lemma_first_occ(m@, part@, pos as int, found);
        }
        let idx = match found {
            Some(i) => i,
            None => {
                return None;
            },
        };
        let piece = slice_chars(m, pos, idx);
        let ghost before = res@;
        res.push(piece);
        proof {
            assert(views(parts@.take(t + 1)).drop_last() =~= views(parts@.take(t as int)));
            assert(views(res@).drop_last() =~= views(before));
            assert(views(res@) =~= views(before).push(m@.subrange(pos as int, idx as int)));
            assert(m@.subrange(0, idx + part@.len()) =~= m@.subrange(0, pos as int) + m@.subrange(
                pos as int,
                idx as int,
            ) + m@.subrange(idx as int, idx + part@.len()));
            assert forall|q: int| 0 <= q < res@.len() implies left_ok(#[trigger] res@[q]@, parts@[q + 1]@) by {
                if q < before.len() {
                    assert(res@[q] == before[q]);
                }
            }
        }
        pos = idx + part.len();
        t = t + 1;
    }
    let last = &parts[k];
    if !chars_ends_with(m, last) {
        proof {
            if fits(m@, pv) {
                let w = choose|w: Seq<Seq<char>>| #[trigger] fits_with(m@, pv, w);
                lemma_part_at(m@, pv, w, k as int);
                assert(pv[k as int] == last@);
            }
        }
        return None;
    }
    let idx = m.len() - last.len();
    if idx < pos {
        proof {
            if fits(m@, pv) {
                let w = choose|w: Seq<Seq<char>>| #[trigger] fits_with(m@, pv, w);
                lemma_part_at(m@, pv, w, k as int);
                assert(pv[k as int] == last@);
            }
        }
        return None;
    }
    let piece = slice_chars(m, pos, idx);
    let ghost before = res@;
    res.push(piece);
    proof {
        assert(parts@.take(k + 1) =~= parts@);
        assert(views(parts@).drop_last() =~= views(parts@.take(k as int)));
        assert(views(res@).drop_last() =~= views(before));
        assert(views(res@) =~= views(before).push(m@.subrange(pos as int, idx as int)));
        assert(pv.last() == last@);
        assert(m@ =~= m@.subrange(0, pos as int) + m@.subrange(pos as int, idx as int) + m@.subrange(
            idx as int,
            m@.len() as int,
        ));
        assert forall|q: int| 1 <= q < pv.len() - 1 implies left_ok(#[trigger] views(res@)[q - 1], pv[q]) by {
            assert(res@[q - 1] == before[q - 1]);
        }
    }
    Some(res)
}

/// The inverse of [`split`]: parts and residues interleaved, part first.
pub fn reconstruct(parts: &Vec<String>, res: &Vec<String>) -> (r: String)
    requires
        parts@.len() == res@.len() + 1,
    ensures
        r@ == splice(strs(parts@), strs(res@)),
{
    let mut out = parts[0].clone();
    let mut i: usize = 0;
    while i < res.len()
        invariant
            parts@.len() == res@.len() + 1,
            i <= res@.len(),
            out@ == splice(strs(parts@.take(i + 1)), strs(res@.take(i as int))),
        decreases res@.len() - i,
    {
        proof {
            assert(strs(parts@.take(i + 2)).drop_last() =~= strs(parts@.take(i + 1)));
            assert(strs(res@.take(i + 1)).drop_last() =~= strs(res@.take(i as int)));
            assert(strs(parts@.take(1)) =~= seq![parts@[0]@]);
        }
        push_str(&mut out, res[i].as_str());
        push_str(&mut out, parts[i + 1].as_str());
        i = i + 1;
    }
    proof {
        assert(parts@.take(i + 1) =~= parts@);
        assert(res@.take(i as int) =~= res@);
        if res@.len() == 0 {
            assert(strs(parts@.take(1)) =~= seq![parts@[0]@]);
        }
    }
    out
}

/// Strings of character vectors.
fn to_strings(v: &Vec<Vec<char>>) -> (r: Vec<String>)
    ensures
        strs(r@) == views(v@),
{
    let mut out: Vec<String> = Vec::new();
    let mut i: usize = 0;
    while i < v.len()
        invariant
            i <= v@.len(),
            strs(out@) == views(v@.take(i as int)),
        decreases v@.len() - i,
    {
        out.push(string_of(&v[i]));
        proof {
            assert(views(v@.take(i + 1)) =~= views(v@.take(i as int)).push(v@[i as int]@));
            assert(strs(out@) =~= strs(out@.drop_last()).push(out@.last()@));
        }
        i = i + 1;
    }
    proof {
        assert(v@.take(i as int) =~= v@);
    }
    out
}

/// A copy of a list of strings.
pub fn clone_strings(v: &Vec<String>) -> (r: Vec<String>)
    ensures
        strs(r@) == strs(v@),
{
    let mut out: Vec<String> = Vec::new();
    let mut i: usize = 0;
    while i < v.len()
        invariant
            i <= v@.len(),
            strs(out@) == strs(v@.take(i as int)),
        decreases v@.len() - i,
    {
        out.push(v[i].clone());
        proof {
            assert(strs(v@.take(i + 1)) =~= strs(v@.take(i as int)).push(v@[i as int]@));
            assert(strs(out@) =~= strs(out@.drop_last()).push(out@.last()@));
        }
        i = i + 1;
    }
    proof {
        assert(v@.take(i as int) =~= v@);
    }
    out
}

/// A row the template lane may fold: inline (no `messageRef`), with a rule id and a message.
pub open spec fn eligible(rules: Seq<Option<String>>, msgs: Seq<Option<String>>, refs: Seq<Option<String>>, i: int) -> bool {
    refs[i] is None && rules[i] is Some && msgs[i] is Some
}

/// The distinct rule ids of the eligible rows among the first `k`, in first-appearance order.
pub open spec fn order_upto(rules: Seq<Option<String>>, msgs: Seq<Option<String>>, refs: Seq<Option<String>>, k: int) -> Seq<Seq<char>>
    decreases k,
{
    if k <= 0 {
        Seq::empty()
    } else {
        let o = order_upto(rules, msgs, refs, k - 1);
        if eligible(rules, msgs, refs, k - 1) && !o.contains(rules[k - 1]->0@) {
            o.push(rules[k - 1]->0@)
        } else {
            o
        }
    }
}

/// The rule groups of the template lane, in first-appearance order.
pub open spec fn rule_order(rules: Seq<Option<String>>, msgs: Seq<Option<String>>, refs: Seq<Option<String>>) -> Seq<Seq<char>> {
    order_upto(rules, msgs, refs, rules.len() as int)
}

/// The eligible rows among the first `k` whose rule id is `rule`, in order.
pub open spec fn members_upto(
    rules: Seq<Option<String>>,
    msgs: Seq<Option<String>>,
    refs: Seq<Option<String>>,
    rule: Seq<char>,
    k: int,
) -> Seq<int>
    decreases k,
{
    if k <= 0 {
        Seq::empty()
    } else {
        let m = members_upto(rules, msgs, refs, rule, k - 1);
        if eligible(rules, msgs, refs, k - 1) && rules[k - 1]->0@ == rule {
            m.push(k - 1)
        } else {
            m
        }
    }
}

/// Row positions as integers.
pub open spec fn rows_of(v: Seq<usize>) -> Seq<int> {
    v.map_values(|x: usize| x as int)
}

/// The messages of the rows `rows`.
pub open spec fn group_texts(msgs: Seq<Option<String>>, rows: Seq<int>) -> Seq<Seq<char>> {
    rows.map_values(|i: int| msgs[i]->0@)
}

/// The template mined from one group's messages: the parts all of them share, thinned of dead
/// weight; `None` for a group of fewer than two, or when fewer than two parts remain.
pub open spec fn mined(ms: Seq<Seq<char>>) -> Option<Seq<Seq<char>>> {
    if ms.len() < 2 {
        None
    } else {
        match derived(ms, all_spans_of(ms)) {
            Some(p) => match prune_spec(p, ms.len() as int) {
                Some(q) => if q.len() >= 2 {
                    Some(q)
                } else {
                    None
                },
                None => None,
            },
            None => None,
        }
    }
}

/// The residues of each of `ms` between `p`.
pub open spec fn residues(ms: Seq<Seq<char>>, p: Seq<Seq<char>>) -> Seq<Seq<Seq<char>>> {
    Seq::new(ms.len(), |k: int| split_spec(ms[k], p)->0)
}

/// `p` fits every one of `ms`.
pub open spec fn fits_all(ms: Seq<Seq<char>>, p: Seq<Seq<char>>) -> bool {
    forall|k: int| 0 <= k < ms.len() ==> #[trigger] split_spec(ms[k], p) is Some
}

/// Every residue list of `sp` can be priced.
pub open spec fn all_priceable(sp: Seq<Seq<Seq<char>>>) -> bool {
    forall|k: int| 0 <= k < sp.len() ==> priceable(#[trigger] sp[k], 10)
}

/// One rule group's fold: its template, each message's residues, and the bytes folding it
/// saves. `None` unless a template is mined, it fits every message, its lists can be priced, and
/// folding the group saves bytes.
pub open spec fn group_fold(rule: Seq<char>, ms: Seq<Seq<char>>) -> Option<(Seq<Seq<char>>, Seq<Seq<Seq<char>>>, int)> {
    match mined(ms) {
        None => None,
        Some(p) => {
            let sp = residues(ms, p);
            if fits_all(ms, p) && priceable(p, 8) && all_priceable(sp) && template_gain_spec(rule, p, ms, sp) > 0 {
                Some((p, sp, template_gain_spec(rule, p, ms, sp)))
            } else {
                None
            }
        },
    }
}

/// The groups among the first `h` of `order` that fold: rule id, template, residues, gain.
pub open spec fn accepted_upto(
    rules: Seq<Option<String>>,
    msgs: Seq<Option<String>>,
    refs: Seq<Option<String>>,
    order: Seq<Seq<char>>,
    h: int,
) -> Seq<(Seq<char>, Seq<Seq<char>>, Seq<Seq<Seq<char>>>, int)>
    decreases h,
{
    if h <= 0 {
        Seq::empty()
    } else {
        let a = accepted_upto(rules, msgs, refs, order, h - 1);
        let r = order[h - 1];
        match group_fold(r, group_texts(msgs, members_upto(rules, msgs, refs, r, rules.len() as int))) {
            Some(x) => a.push((r, x.0, x.1, x.2)),
            None => a,
        }
    }
}

/// The groups that fold, in first-appearance order.
pub open spec fn accepted(rules: Seq<Option<String>>, msgs: Seq<Option<String>>, refs: Seq<Option<String>>) -> Seq<
    (Seq<char>, Seq<Seq<char>>, Seq<Seq<Seq<char>>>, int),
> {
    accepted_upto(rules, msgs, refs, rule_order(rules, msgs, refs), rule_order(rules, msgs, refs).len() as int)
}

/// The bytes the groups of `acc` save together.
pub open spec fn gains(acc: Seq<(Seq<char>, Seq<Seq<char>>, Seq<Seq<Seq<char>>>, int)>) -> int
    decreases acc.len(),
{
    if acc.len() == 0 {
        0
    } else {
        gains(acc.drop_last()) + acc.last().3
    }
}

/// What the template fold produces: when the folding groups together save more than the table
/// and its legend cost, the table holds exactly those groups' templates in first-appearance
/// order, and every eligible row of such a group carries the templated pointer and its own
/// residues; otherwise there is no table.
pub open spec fn template_result(
    rules: Seq<Option<String>>,
    msgs: Seq<Option<String>>,
    refs: Seq<Option<String>>,
    out_msgs: Seq<Option<String>>,
    out_parts: Seq<Option<Vec<String>>>,
    table: Option<Vec<(String, Vec<String>)>>,
) -> bool {
    let acc = accepted(rules, msgs, refs);
    if gains(acc) > template_one_time_spec() {
        &&& table is Some
        &&& table->0@.len() == acc.len()
        &&& forall|q: int|
            0 <= q < acc.len() ==> (#[trigger] table->0@[q]).0@ == acc[q].0 && strs(table->0@[q].1@) == acc[q].1
        &&& forall|i: int, q: int|
            #![trigger acc[q], out_parts[i]]
            0 <= i < rules.len() && 0 <= q < acc.len() && eligible(rules, msgs, refs, i) && acc[q].0 == rules[i]->0@
                ==> ov(out_msgs[i]) == Some(template_pointer_text(rules[i]->0@)) && out_parts[i] is Some && split_spec(
                msgs[i]->0@,
                acc[q].1,
            ) == Some(strs(out_parts[i]->0@))
    } else {
        table is None
    }
}

/// The table holds an entry for rule `rule`.
pub open spec fn tabled(t: Seq<(String, Vec<String>)>, rule: Seq<char>) -> bool {
    exists|q: int| 0 <= q < t.len() && (#[trigger] t[q]).0@ == rule
}

/// The table's keys are distinct, every templated row rebuilds its message from its rule's entry
/// and now carries the templated pointer, and every other row is unchanged and is not an inline
/// row of a tabled rule.
pub open spec fn templates_ok(
    rules: Seq<Option<String>>,
    msgs: Seq<Option<String>>,
    refs: Seq<Option<String>>,
    out_msgs: Seq<Option<String>>,
    out_parts: Seq<Option<Vec<String>>>,
    t: Seq<(String, Vec<String>)>,
) -> bool {
    &&& forall|a: int, b: int| 0 <= a < b < t.len() ==> (#[trigger] t[a]).0@ != (#[trigger] t[b]).0@
    &&& forall|i: int|
        0 <= i < rules.len() ==> match #[trigger] out_parts[i] {
            Some(res) => eligible(rules, msgs, refs, i) && exists|q: int|
                0 <= q < t.len() && (#[trigger] t[q]).0@ == rules[i]->0@ && t[q].1@.len() == res@.len() + 1
                    && splice(strs(t[q].1@), strs(res@)) == msgs[i]->0@ && ov(out_msgs[i]) == Some(
                    template_pointer_text(rules[i]->0@),
                ),
            None => ov(out_msgs[i]) == ov(msgs[i]) && !(eligible(rules, msgs, refs, i) && tabled(
                t,
                rules[i]->0@,
            )),
        }
}

/// The template fold's outcome: without a table every row is unchanged; with one, as
/// [`templates_ok`] says; and the table and rows are the ones [`template_result`] fixes.
pub open spec fn template_stage(
    rules: Seq<Option<String>>,
    msgs: Seq<Option<String>>,
    refs: Seq<Option<String>>,
    out_msgs: Seq<Option<String>>,
    out_parts: Seq<Option<Vec<String>>>,
    table: Option<Vec<(String, Vec<String>)>>,
) -> bool {
    &&& out_msgs.len() == rules.len()
    &&& out_parts.len() == rules.len()
    &&& table is None ==> forall|i: int|
        0 <= i < rules.len() ==> ov(#[trigger] out_msgs[i]) == ov(msgs[i]) && out_parts[i] is None
    &&& table matches Some(t) ==> templates_ok(rules, msgs, refs, out_msgs, out_parts, t@)
    &&& template_result(rules, msgs, refs, out_msgs, out_parts, table)
}

/// One rule group's fold, exactly as [`group_fold`] says: the template mined from `texts`, each
/// message's residues (each rebuilding its message, which is checked again here) and the bytes
/// saved; `None` when the group does not template or does not pay.
fn fold_group(rule: &Vec<char>, texts: &Vec<Vec<char>>) -> (r: Option<(Vec<String>, Vec<Vec<String>>, i128)>)
    requires
        texts@.len() <= MAX_LIMIT,
    ensures
        match r {
            Some(x) => group_fold(rule@, views(texts@)) == Some((strs(x.0@), strss(x.1@), x.2 as int)) && 0 < x.2
                <= 1000 * 0x1_0000_0000_0000_0000 && x.1@.len() == texts@.len() && forall|s: int|
                0 <= s < texts@.len() ==> x.0@.len() == (#[trigger] x.1@[s])@.len() + 1 && splice(
                    strs(x.0@),
                    strs(x.1@[s]@),
                ) == texts@[s]@ && split_spec(texts@[s]@, strs(x.0@)) == Some(strs(x.1@[s]@)),
            None => group_fold(rule@, views(texts@)) is None,
        },
{
    let ghost ms = views(texts@);
    if texts.len() < 2 {
        return None;
    }
    let pruned = match derive_parts(texts) {
        Some(p) => prune(p, texts.len()),
        None => None,
    };
    let parts = match pruned {
        Some(p) => p,
        None => {
            return None;
        },
    };
    if parts.len() < 2 {
        return None;
    }
    let ghost pv = views(parts@);
    proof {
        assert(mined(ms) == Some(pv));
    }
    let parts_s = to_strings(&parts);
    let mut splits: Vec<Vec<String>> = Vec::new();
    let mut s: usize = 0;
    while s < texts.len()
        invariant
            s <= texts@.len(),
            parts@.len() >= 2,
            pv == views(parts@),
            strs(parts_s@) == pv,
            ms == views(texts@),
            mined(ms) == Some(pv),
            splits@.len() == s,
            forall|j: int|
                0 <= j < s ==> parts_s@.len() == (#[trigger] splits@[j])@.len() + 1 && splice(
                    strs(parts_s@),
                    strs(splits@[j]@),
                ) == texts@[j]@ && split_spec(texts@[j]@, pv) == Some(strs(splits@[j]@)),
        decreases texts@.len() - s,
    {
        match split(&texts[s], &parts) {
            Some(res) => {
                let res_s = to_strings(&res);
                let back = reconstruct(&parts_s, &res_s);
                let orig = string_of(&texts[s]);
                proof {
                    assert(back@ == texts@[s as int]@);
                }
                let same = crate::text::str_eq(back.as_str(), orig.as_str());
                proof {
                    assert(orig@ == back@);
                    assert(same);
                }
                if !same {
                    return None;
                }
                splits.push(res_s);
                proof {
                    assert(splits@[s as int] == res_s);
                }
            },
            None => {
                proof {
                    assert(ms[s as int] == texts@[s as int]@);
                    assert(!(split_spec(ms[s as int], pv) is Some));
                    assert(!fits_all(ms, pv));
                }
                return None;
            },
        }
        s = s + 1;
    }
    let mut msgs_s: Vec<String> = Vec::new();
    let mut s: usize = 0;
    while s < texts.len()
        invariant
            s <= texts@.len(),
            strs(msgs_s@) == views(texts@.take(s as int)),
        decreases texts@.len() - s,
    {
        msgs_s.push(string_of(&texts[s]));
        proof {
            assert(views(texts@.take(s + 1)) =~= views(texts@.take(s as int)).push(texts@[s as int]@));
            assert(strs(msgs_s@) =~= strs(msgs_s@.drop_last()).push(msgs_s@.last()@));
        }
        s = s + 1;
    }
    proof {
        assert(texts@.take(s as int) =~= texts@);
        assert(fits_all(ms, pv)) by {
            assert forall|k: int| 0 <= k < ms.len() implies #[trigger] split_spec(ms[k], pv) is Some by {
                assert(ms[k] == texts@[k]@);
                assert(parts_s@.len() == splits@[k]@.len() + 1);
            }
        }
        assert(strss(splits@) =~= residues(ms, pv)) by {
            assert forall|k: int| 0 <= k < ms.len() implies strss(splits@)[k] == residues(ms, pv)[k] by {
                assert(ms[k] == texts@[k]@);
                assert(strss(splits@)[k] == strs(splits@[k]@));
            }
        }
    }
    let rule_s = string_of(rule);
    match template_net_gain(rule_s.as_str(), &parts_s, &msgs_s, &splits) {
        Some(gain) => {
            if gain > 0 {
                Some((parts_s, splits, gain))
            } else {
                None
            }
        },
        None => {
            proof {
                if priceable(pv, 8) && all_priceable(strss(splits@)) {
                    assert forall|k: int| 0 <= k < splits@.len() implies priceable(#[trigger] strss(splits@)[k], 10) by {
                    }
                }
            }
            None
        },
    }
}

/// The row clause of [`template_result`], from the table the fold built: its entries are the
/// accepted groups in order, its keys are distinct, and every row is as the fold left it.
proof fn lemma_rows_follow_table(
    rules: Seq<Option<String>>,
    msgs: Seq<Option<String>>,
    refs: Seq<Option<String>>,
    out_msgs: Seq<Option<String>>,
    out_parts: Seq<Option<Vec<String>>>,
    t: Seq<(String, Vec<String>)>,
    acc: Seq<(Seq<char>, Seq<Seq<char>>, Seq<Seq<Seq<char>>>, int)>,
)
    requires
        out_parts.len() == rules.len(),
        t.len() == acc.len(),
        forall|q: int| 0 <= q < acc.len() ==> (#[trigger] t[q]).0@ == acc[q].0 && strs(t[q].1@) == acc[q].1,
        templates_ok(rules, msgs, refs, out_msgs, out_parts, t),
        forall|k: int, q: int|
            #![trigger out_parts[k], t[q]]
            0 <= k < rules.len() && 0 <= q < t.len() && out_parts[k] is Some && t[q].0@ == rules[k]->0@
                ==> split_spec(msgs[k]->0@, strs(t[q].1@)) == Some(strs(out_parts[k]->0@)),
    ensures
        forall|i: int, q: int|
            #![trigger acc[q], out_parts[i]]
            0 <= i < rules.len() && 0 <= q < acc.len() && eligible(rules, msgs, refs, i) && acc[q].0 == rules[i]->0@
                ==> ov(out_msgs[i]) == Some(template_pointer_text(rules[i]->0@)) && out_parts[i] is Some && split_spec(
                msgs[i]->0@,
                acc[q].1,
            ) == Some(strs(out_parts[i]->0@)),
{
    assert forall|i: int, q: int|
        #![trigger acc[q], out_parts[i]]
        0 <= i < rules.len() && 0 <= q < acc.len() && eligible(rules, msgs, refs, i) && acc[q].0 == rules[i]->0@
            implies ov(out_msgs[i]) == Some(template_pointer_text(rules[i]->0@)) && out_parts[i] is Some && split_spec(
            msgs[i]->0@,
            acc[q].1,
        ) == Some(strs(out_parts[i]->0@)) by {
        assert(t[q].0@ == rules[i]->0@);
        assert(tabled(t, rules[i]->0@));
        match out_parts[i] {
            Some(res) => {},
            None => {},
        }
    }
}

/// Folds every rule group whose messages share a template and whose folding pays. Returns each
/// row's message and `templateParts` after the fold, and the `ruleMessageTemplates` table in
/// first-appearance order — `None` when nothing templated or the savings do not pay for the table.
pub fn fold_templates(rules: &Vec<Option<String>>, msgs: &Vec<Option<String>>, refs: &Vec<Option<String>>) -> (r: (
    Vec<Option<String>>,
    Vec<Option<Vec<String>>>,
    Option<Vec<(String, Vec<String>)>>,
))
    requires
        rules@.len() == msgs@.len(),
        rules@.len() == refs@.len(),
        rules@.len() <= MAX_LIMIT,
    ensures
        template_stage(rules@, msgs@, refs@, r.0@, r.1@, r.2),
{
    let n = rules.len();
    let none: usize = n;
    let ghost ord = rule_order(rules@, msgs@, refs@);
    // Pass 1: group the eligible rows by rule, in first-appearance order.
    let mut order: Vec<Vec<char>> = Vec::new();
    let mut group_of: Vec<usize> = Vec::new();
    let mut i: usize = 0;
    while i < n
        invariant
            n == rules@.len(),
            n == msgs@.len(),
            n == refs@.len(),
            none == n,
            i <= n,
            group_of@.len() == i,
            order@.len() <= i,
            views(order@) == order_upto(rules@, msgs@, refs@, i as int),
            forall|a: int, b: int| 0 <= a < b < order@.len() ==> (#[trigger] order@[a])@ != (#[trigger] order@[b])@,
            forall|k: int|
                0 <= k < i ==> if eligible(rules@, msgs@, refs@, k) {
                    (#[trigger] group_of@[k]) < order@.len() && order@[group_of@[k] as int]@
                        == rules@[k]->0@
                } else {
                    group_of@[k] == none
                },
        decreases n - i,
    {
        let ghost before = order@;
        let elig = refs[i].is_none() && rules[i].is_some() && msgs[i].is_some();
        if elig {
            let rc = match &rules[i] {
                Some(r) => chars_of(r.as_str()),
                None => Vec::new(),
            };
            let mut g: usize = 0;
            while g < order.len() && !chars_eq(&order[g], &rc)
                invariant
                    g <= order@.len(),
                    forall|q: int| 0 <= q < g ==> (#[trigger] order@[q])@ != rc@,
                decreases order@.len() - g,
            {
                g = g + 1;
            }
            proof {
                let o = order_upto(rules@, msgs@, refs@, i as int);
                if g == order.len() {
                    if o.contains(rc@) {
                        let q = choose|q: int| 0 <= q < o.len() && o[q] == rc@;
                        assert(o[q] == order@[q]@);
                    }
                } else {
                    assert(o[g as int] == order@[g as int]@);
                    assert(o.contains(rc@));
                }
            }
            if g == order.len() {
                order.push(rc);
            }
            group_of.push(g);
        } else {
            group_of.push(none);
        }
        proof {
            assert(views(order@) =~= order_upto(rules@, msgs@, refs@, i + 1));
        }
        i = i + 1;
    }
    // Pass 2: mine, split, verify and price each group.
    let mut acc: Vec<Option<usize>> = Vec::new();
    let mut m_rule: Vec<String> = Vec::new();
    let mut m_parts: Vec<Vec<String>> = Vec::new();
    let mut m_splits: Vec<Vec<Vec<String>>> = Vec::new();
    let mut m_at: Vec<Vec<usize>> = Vec::new();
    let mut m_group: Vec<usize> = Vec::new();
    let mut saved: i128 = 0;
    let mut g: usize = 0;
    while g < order.len()
        invariant
            n == rules@.len(),
            n == msgs@.len(),
            n == refs@.len(),
            n <= MAX_LIMIT,
            none == n,
            group_of@.len() == n,
            views(order@) == ord,
            forall|a: int, b: int| 0 <= a < b < order@.len() ==> (#[trigger] order@[a])@ != (#[trigger] order@[b])@,
            forall|k: int|
                0 <= k < n ==> if eligible(rules@, msgs@, refs@, k) {
                    (#[trigger] group_of@[k]) < order@.len() && order@[group_of@[k] as int]@
                        == rules@[k]->0@
                } else {
                    group_of@[k] == none
                },
            g <= order@.len(),
            acc@.len() == g,
            m_rule@.len() == m_parts@.len(),
            m_rule@.len() == m_splits@.len(),
            m_rule@.len() == m_at@.len(),
            m_rule@.len() == accepted_upto(rules@, msgs@, refs@, ord, g as int).len(),
            forall|q: int|
                0 <= q < m_rule@.len() ==> (#[trigger] m_rule@[q])@ == accepted_upto(rules@, msgs@, refs@, ord, g as int)[q].0
                    && strs(m_parts@[q]@) == accepted_upto(rules@, msgs@, refs@, ord, g as int)[q].1,
            saved == gains(accepted_upto(rules@, msgs@, refs@, ord, g as int)),
            forall|h: int|
                0 <= h < g ==> match #[trigger] acc@[h] {
                    Some(q) => q < m_rule@.len() && m_rule@[q as int]@ == order@[h]@,
                    None => true,
                },
            m_group@.len() == m_rule@.len(),
            forall|q: int|
                0 <= q < m_rule@.len() ==> (#[trigger] m_group@[q]) < g && acc@[m_group@[q] as int] == Some(
                    q as usize,
                ) && m_rule@[q]@ == order@[m_group@[q] as int]@,
            forall|q: int|
                0 <= q < m_rule@.len() ==> {
                    &&& (#[trigger] m_at@[q])@.len() == m_splits@[q]@.len()
                    &&& forall|s: int|
                        0 <= s < m_at@[q]@.len() ==> (#[trigger] m_at@[q]@[s]) < n && eligible(
                            rules@,
                            msgs@,
                            refs@,
                            m_at@[q]@[s] as int,
                        ) && rules@[m_at@[q]@[s] as int]->0@ == m_rule@[q]@ && m_parts@[q]@.len()
                            == m_splits@[q]@[s]@.len() + 1 && splice(
                            strs(m_parts@[q]@),
                            strs(m_splits@[q]@[s]@),
                        ) == msgs@[m_at@[q]@[s] as int]->0@ && split_spec(
                            msgs@[m_at@[q]@[s] as int]->0@,
                            strs(m_parts@[q]@),
                        ) == Some(strs(m_splits@[q]@[s]@))
                    &&& forall|k: int|
                        0 <= k < n && eligible(rules@, msgs@, refs@, k) && rules@[k]->0@ == m_rule@[q]@
                            ==> m_at@[q]@.contains(k as usize)
                },
            0 <= saved <= g * 0x400_0000_0000_0000_0000,
            order@.len() <= n,
        decreases order@.len() - g,
    {
        let ghost r = order@[g as int]@;
        proof {
            assert(ord[g as int] == r);
            assert forall|k: int| 0 <= k < n implies ((#[trigger] group_of@[k]) == g) == (eligible(rules@, msgs@, refs@, k)
                && rules@[k]->0@ == r) by {
                if eligible(rules@, msgs@, refs@, k) {
                    let h = group_of@[k] as int;
                    if h < g {
                        assert((order@[h])@ != (order@[g as int])@);
                    } else if g < h {
                        assert((order@[g as int])@ != (order@[h])@);
                    }
                } else {
                    assert(group_of@[k] == none);
                }
            }
        }
        let mut idxs: Vec<usize> = Vec::new();
        let mut k: usize = 0;
        while k < n
            invariant
                n == group_of@.len(),
                n == rules@.len(),
                k <= n,
                forall|j: int|
                    0 <= j < n ==> ((#[trigger] group_of@[j]) == g) == (eligible(rules@, msgs@, refs@, j)
                        && rules@[j]->0@ == r),
                rows_of(idxs@) == members_upto(rules@, msgs@, refs@, r, k as int),
                forall|s: int| 0 <= s < idxs@.len() ==> (#[trigger] idxs@[s]) < k && group_of@[idxs@[s] as int] == g,
                forall|j: int| 0 <= j < k && group_of@[j] == g ==> idxs@.contains(j as usize),
                idxs@.len() <= k,
            decreases n - k,
        {
            if group_of[k] == g {
                idxs.push(k);
            }
            proof {
                assert(rows_of(idxs@) =~= members_upto(rules@, msgs@, refs@, r, k + 1));
            }
            k = k + 1;
        }
        proof {
            assert forall|s: int| 0 <= s < idxs@.len() implies eligible(rules@, msgs@, refs@, #[trigger] idxs@[s] as int)
                && rules@[idxs@[s] as int]->0@ == order@[g as int]@ by {
                let j = idxs@[s] as int;
                assert(group_of@[j] == g);
            }
        }
        let mut texts: Vec<Vec<char>> = Vec::new();
        let mut s: usize = 0;
        while s < idxs.len()
            invariant
                n == msgs@.len(),
                s <= idxs@.len(),
                texts@.len() == s,
                forall|j: int| 0 <= j < idxs@.len() ==> (#[trigger] idxs@[j]) < n,
                forall|j: int| 0 <= j < s ==> (#[trigger] texts@[j])@ == match msgs@[idxs@[j] as int] {
                    Some(m) => m@,
                    None => Seq::empty(),
                },
            decreases idxs@.len() - s,
        {
            let t = match &msgs[idxs[s]] {
                Some(m) => chars_of(m.as_str()),
                None => Vec::new(),
            };
            texts.push(t);
            s = s + 1;
        }
        proof {
            assert(views(texts@) =~= group_texts(msgs@, members_upto(rules@, msgs@, refs@, r, n as int))) by {
                assert forall|j: int| 0 <= j < texts@.len() implies views(texts@)[j] == group_texts(
                    msgs@,
                    members_upto(rules@, msgs@, refs@, r, n as int),
                )[j] by {
                    assert(rows_of(idxs@)[j] == idxs@[j] as int);
                    assert(eligible(rules@, msgs@, refs@, idxs@[j] as int));
                }
            }
        }
        let mut accepted: Option<usize> = None;
        match fold_group(&order[g], &texts) {
            Some(x) => {
                let (parts_s, splits, gain) = x;
                saved = saved + gain;
                let rule = string_of(&order[g]);
                let ghost q = m_rule@.len();
                let ghost old_at = m_at@;
                let ghost old_splits = m_splits@;
                let ghost old_parts = m_parts@;
                let ghost old_rule = m_rule@;
                let ghost the_idxs = idxs@;
                let ghost the_splits = splits@;
                let ghost the_parts = parts_s@;
                accepted = Some(m_rule.len());
                m_rule.push(rule);
                m_parts.push(parts_s);
                m_splits.push(splits);
                m_at.push(idxs);
                m_group.push(g);
                proof {
                    assert(m_at@[q as int]@ == the_idxs);
                    assert(m_splits@[q as int]@ == the_splits);
                    assert(m_parts@[q as int]@ == the_parts);
                    assert forall|k: int|
                        0 <= k < n && eligible(rules@, msgs@, refs@, k) && rules@[k]->0@ == m_rule@[q as int]@ implies m_at@[q
                            as int]@.contains(k as usize) by {
                        assert(group_of@[k] == g);
                    }
                    assert forall|qq: int| 0 <= qq < m_rule@.len() implies {
                        &&& (#[trigger] m_at@[qq])@.len() == m_splits@[qq]@.len()
                        &&& forall|s: int|
                            0 <= s < m_at@[qq]@.len() ==> (#[trigger] m_at@[qq]@[s]) < n && eligible(
                                rules@,
                                msgs@,
                                refs@,
                                m_at@[qq]@[s] as int,
                            ) && rules@[m_at@[qq]@[s] as int]->0@ == m_rule@[qq]@ && m_parts@[qq]@.len()
                                == m_splits@[qq]@[s]@.len() + 1 && splice(
                                strs(m_parts@[qq]@),
                                strs(m_splits@[qq]@[s]@),
                            ) == msgs@[m_at@[qq]@[s] as int]->0@ && split_spec(
                                msgs@[m_at@[qq]@[s] as int]->0@,
                                strs(m_parts@[qq]@),
                            ) == Some(strs(m_splits@[qq]@[s]@))
                        &&& forall|k: int|
                            0 <= k < n && eligible(rules@, msgs@, refs@, k) && rules@[k]->0@ == m_rule@[qq]@
                                ==> m_at@[qq]@.contains(k as usize)
                    } by {
                        if qq < q {
                            assert(m_at@[qq] == old_at[qq]);
                            assert(m_splits@[qq] == old_splits[qq]);
                            assert(m_parts@[qq] == old_parts[qq]);
                            assert(m_rule@[qq] == old_rule[qq]);
                        } else {
                            assert forall|s: int| 0 <= s < m_at@[qq]@.len() implies (#[trigger] m_at@[qq]@[s]) < n && eligible(
                                rules@,
                                msgs@,
                                refs@,
                                m_at@[qq]@[s] as int,
                            ) && rules@[m_at@[qq]@[s] as int]->0@ == m_rule@[qq]@ && m_parts@[qq]@.len()
                                == m_splits@[qq]@[s]@.len() + 1 && splice(
                                strs(m_parts@[qq]@),
                                strs(m_splits@[qq]@[s]@),
                            ) == msgs@[m_at@[qq]@[s] as int]->0@ && split_spec(
                                msgs@[m_at@[qq]@[s] as int]->0@,
                                strs(m_parts@[qq]@),
                            ) == Some(strs(m_splits@[qq]@[s]@)) by {
                                assert(the_idxs[s] < n);
                                assert(eligible(rules@, msgs@, refs@, the_idxs[s] as int));
                                assert(texts@[s]@ == msgs@[the_idxs[s] as int]->0@);
                                assert(the_splits[s] == m_splits@[qq]@[s]);
                            }
                        }
                    }
                    let a = accepted_upto(rules@, msgs@, refs@, ord, g as int);
                    let item = (r, strs(the_parts), strss(the_splits), gain as int);
                    assert(accepted_upto(rules@, msgs@, refs@, ord, g + 1) == a.push(item));
                    assert(a.push(item).drop_last() =~= a);
                    assert forall|qq: int| 0 <= qq < m_rule@.len() implies (#[trigger] m_rule@[qq])@ == a.push(item)[qq].0
                        && strs(m_parts@[qq]@) == a.push(item)[qq].1 by {
                        if qq < q {
                            assert(m_rule@[qq] == old_rule[qq]);
                            assert(m_parts@[qq] == old_parts[qq]);
                        }
                    }
                    assert(g * 0x400_0000_0000_0000_0000 + 0x400_0000_0000_0000_0000 == (g + 1) * 0x400_0000_0000_0000_0000);
                }
            },
            None => {
                proof {
                    assert(accepted_upto(rules@, msgs@, refs@, ord, g + 1) == accepted_upto(rules@, msgs@, refs@, ord, g as int));
                }
            },
        }
        acc.push(accepted);
        g = g + 1;
    }
    let one = template_one_time_bytes();
    let mut out_msgs: Vec<Option<String>> = Vec::new();
    let mut out_parts: Vec<Option<Vec<String>>> = Vec::new();
    proof {
        assert(accepted(rules@, msgs@, refs@) == accepted_upto(rules@, msgs@, refs@, ord, g as int));
    }
    if saved <= one {
        let mut i: usize = 0;
        while i < n
            invariant
                n == rules@.len(),
                n == msgs@.len(),
                i <= n,
                out_msgs@.len() == i,
                out_parts@.len() == i,
                forall|k: int| 0 <= k < i ==> ov(#[trigger] out_msgs@[k]) == ov(msgs@[k]) && out_parts@[k] is None,
            decreases n - i,
        {
            out_msgs.push(clone_text(&msgs[i]));
            out_parts.push(None);
            i = i + 1;
        }
        return (out_msgs, out_parts, None);
    }
    let mut table: Vec<(String, Vec<String>)> = Vec::new();
    let mut q: usize = 0;
    while q < m_rule.len()
        invariant
            q <= m_rule@.len(),
            m_rule@.len() == m_parts@.len(),
            table@.len() == q,
            forall|p: int|
                0 <= p < q ==> (#[trigger] table@[p]).0@ == m_rule@[p]@ && strs(table@[p].1@) == strs(
                    m_parts@[p]@,
                ),
        decreases m_rule@.len() - q,
    {
        table.push((m_rule[q].clone(), clone_strings(&m_parts[q])));
        q = q + 1;
    }
    proof {
        assert forall|a: int, b: int| 0 <= a < b < table@.len() implies (#[trigger] table@[a]).0@ != (
        #[trigger] table@[b]).0@ by {
            let ha = m_group@[a] as int;
            let hb = m_group@[b] as int;
            if ha == hb {
                assert(acc@[ha] == Some(a as usize));
            } else if ha < hb {
                assert((order@[ha])@ != (order@[hb])@);
            } else {
                assert((order@[hb])@ != (order@[ha])@);
            }
        }
    }
    let mut i: usize = 0;
    while i < n
        invariant
            n == rules@.len(),
            n == msgs@.len(),
            n == refs@.len(),
            none == n,
            group_of@.len() == n,
            forall|a: int, b: int| 0 <= a < b < order@.len() ==> (#[trigger] order@[a])@ != (#[trigger] order@[b])@,
            forall|k: int|
                0 <= k < n ==> if eligible(rules@, msgs@, refs@, k) {
                    (#[trigger] group_of@[k]) < order@.len() && order@[group_of@[k] as int]@
                        == rules@[k]->0@
                } else {
                    group_of@[k] == none
                },
            acc@.len() == order@.len(),
            order@.len() <= n,
            forall|a: int, b: int| 0 <= a < b < table@.len() ==> (#[trigger] table@[a]).0@ != (
            #[trigger] table@[b]).0@,
            m_rule@.len() == m_parts@.len(),
            m_rule@.len() == m_splits@.len(),
            m_rule@.len() == m_at@.len(),
            m_group@.len() == m_rule@.len(),
            table@.len() == m_rule@.len(),
            forall|p: int|
                0 <= p < table@.len() ==> (#[trigger] table@[p]).0@ == m_rule@[p]@ && strs(table@[p].1@) == strs(
                    m_parts@[p]@,
                ),
            forall|h: int|
                0 <= h < acc@.len() ==> match #[trigger] acc@[h] {
                    Some(q) => q < m_rule@.len() && m_rule@[q as int]@ == order@[h]@,
                    None => true,
                },
            forall|q: int|
                0 <= q < m_rule@.len() ==> (#[trigger] m_group@[q]) < acc@.len() && acc@[m_group@[q] as int] == Some(
                    q as usize,
                ) && m_rule@[q]@ == order@[m_group@[q] as int]@,
            forall|q: int|
                0 <= q < m_rule@.len() ==> {
                    &&& (#[trigger] m_at@[q])@.len() == m_splits@[q]@.len()
                    &&& forall|s: int|
                        0 <= s < m_at@[q]@.len() ==> (#[trigger] m_at@[q]@[s]) < n && eligible(
                            rules@,
                            msgs@,
                            refs@,
                            m_at@[q]@[s] as int,
                        ) && rules@[m_at@[q]@[s] as int]->0@ == m_rule@[q]@ && m_parts@[q]@.len()
                            == m_splits@[q]@[s]@.len() + 1 && splice(
                            strs(m_parts@[q]@),
                            strs(m_splits@[q]@[s]@),
                        ) == msgs@[m_at@[q]@[s] as int]->0@ && split_spec(
                            msgs@[m_at@[q]@[s] as int]->0@,
                            strs(m_parts@[q]@),
                        ) == Some(strs(m_splits@[q]@[s]@))
                    &&& forall|k: int|
                        0 <= k < n && eligible(rules@, msgs@, refs@, k) && rules@[k]->0@ == m_rule@[q]@
                            ==> m_at@[q]@.contains(k as usize)
                },
            i <= n,
            out_msgs@.len() == i,
            out_parts@.len() == i,
            forall|k: int|
                0 <= k < i ==> match #[trigger] out_parts@[k] {
                    Some(res) => eligible(rules@, msgs@, refs@, k) && exists|q: int|
                        0 <= q < table@.len() && (#[trigger] table@[q]).0@ == rules@[k]->0@ && table@[q].1@.len()
                            == res@.len() + 1 && splice(strs(table@[q].1@), strs(res@)) == msgs@[k]->0@
                            && ov(out_msgs@[k]) == Some(template_pointer_text(rules@[k]->0@)),
                    None => ov(out_msgs@[k]) == ov(msgs@[k]) && !(eligible(rules@, msgs@, refs@, k) && tabled(
                        table@,
                        rules@[k]->0@,
                    )),
                },
            forall|k: int, q: int|
                #![trigger out_parts@[k], table@[q]]
                0 <= k < i && 0 <= q < table@.len() && out_parts@[k] is Some && table@[q].0@ == rules@[k]->0@
                    ==> split_spec(msgs@[k]->0@, strs(table@[q].1@)) == Some(strs(out_parts@[k]->0@)),
        decreases n - i,
    {
        let g = group_of[i];
        let hit: Option<usize> = if g < acc.len() {
            acc[g]
        } else {
            None
        };
        let ghost prev = out_parts@;
        match hit {
            Some(q) => {
                let mut slot: usize = 0;
                while slot < m_at[q].len() && m_at[q][slot] != i
                    invariant
                        q < m_at@.len(),
                        slot <= m_at@[q as int]@.len(),
                        forall|s: int| 0 <= s < slot ==> m_at@[q as int]@[s] != i,
                    decreases m_at@[q as int]@.len() - slot,
                {
                    slot = slot + 1;
                }
                proof {
                    assert(eligible(rules@, msgs@, refs@, i as int));
                    assert(m_at@[q as int]@.contains(i));
                }
                let rule = match &rules[i] {
                    Some(r) => r.as_str(),
                    None => "",
                };
                out_msgs.push(Some(template_pointer_sentence(rule)));
                let res = clone_strings(&m_splits[q][slot]);
                proof {
                    assert(table@[q as int].1@.len() == strs(table@[q as int].1@).len());
                    assert(strs(table@[q as int].1@).len() == strs(m_parts@[q as int]@).len());
                    assert(strs(res@).len() == res@.len());
                    assert(strs(res@).len() == strs(m_splits@[q as int]@[slot as int]@).len());
                }
                out_parts.push(Some(res));
                proof {
                    assert forall|k: int, q2: int|
                        #![trigger out_parts@[k], table@[q2]]
                        0 <= k < i + 1 && 0 <= q2 < table@.len() && out_parts@[k] is Some && table@[q2].0@ == rules@[k]->0@
                            implies split_spec(msgs@[k]->0@, strs(table@[q2].1@)) == Some(strs(out_parts@[k]->0@)) by {
                        if k < i {
                            assert(out_parts@[k] == prev[k]);
                        } else if q2 < q {
                            assert(table@[q2].0@ != table@[q as int].0@);
                        } else if q < q2 {
                            assert(table@[q as int].0@ != table@[q2].0@);
                        }
                    }
                }
            },
            None => {
                out_msgs.push(clone_text(&msgs[i]));
                out_parts.push(None);
                proof {
                    if eligible(rules@, msgs@, refs@, i as int) && tabled(table@, rules@[i as int]->0@) {
                        let q = choose|q: int| 0 <= q < table@.len() && (#[trigger] table@[q]).0@ == rules@[i as int]->0@;
                        let h = m_group@[q] as int;
                        assert(order@[h]@ == order@[g as int]@);
                        if h < g {
                            assert((order@[h])@ != (order@[g as int])@);
                        } else if g < h {
                            assert((order@[g as int])@ != (order@[h])@);
                        }
                    }
                    assert forall|k: int, q2: int|
                        #![trigger out_parts@[k], table@[q2]]
                        0 <= k < i + 1 && 0 <= q2 < table@.len() && out_parts@[k] is Some && table@[q2].0@ == rules@[k]->0@
                            implies split_spec(msgs@[k]->0@, strs(table@[q2].1@)) == Some(strs(out_parts@[k]->0@)) by {
                        assert(out_parts@[k] == prev[k]);
                    }
                }
            },
        }
        i = i + 1;
    }
    proof {
        assert(templates_ok(rules@, msgs@, refs@, out_msgs@, out_parts@, table@));
        let a = accepted(rules@, msgs@, refs@);
        assert forall|q: int| 0 <= q < a.len() implies (#[trigger] table@[q]).0@ == a[q].0 && strs(table@[q].1@) == a[q].1 by {
            assert(m_rule@[q]@ == a[q].0);
        }
        lemma_rows_follow_table(rules@, msgs@, refs@, out_msgs@, out_parts@, table@, a);
    }
    (out_msgs, out_parts, Some(table))
}

/// Splicing `parts` into the template that `table` holds for rule `rule` gives `m`, and that
/// template is the only one the table holds for the rule.
pub open spec fn rebuilds_from(table: Option<Vec<(String, Vec<String>)>>, rule: Option<String>, parts: Vec<String>, m: Option<String>) -> bool {
    match (table, rule, m) {
        (Some(t), Some(r), Some(text)) => exists|q: int|
            0 <= q < t@.len() && (#[trigger] t@[q]).0@ == r@ && splice(strs(t@[q].1@), strs(parts@)) == text@
                && forall|p: int| 0 <= p < t@.len() && (#[trigger] t@[p]).0@ == r@ ==> p == q,
        _ => false,
    }
}

/// The template fold loses nothing: a row that now carries `templateParts` rebuilds exactly the
/// text it carried by splicing them into the one template its own rule id keys, and every other
/// row keeps its text.
pub proof fn law_template_fold_is_lossless(
    rules: Seq<Option<String>>,
    msgs: Seq<Option<String>>,
    refs: Seq<Option<String>>,
    out_msgs: Seq<Option<String>>,
    out_parts: Seq<Option<Vec<String>>>,
    table: Option<Vec<(String, Vec<String>)>>,
)
    requires
        template_stage(rules, msgs, refs, out_msgs, out_parts, table),
    ensures
        forall|i: int|
            0 <= i < rules.len() ==> match #[trigger] out_parts[i] {
                Some(res) => rebuilds_from(table, rules[i], res, msgs[i]),
                None => ov(out_msgs[i]) == ov(msgs[i]),
            },
{
    assert forall|i: int| 0 <= i < rules.len() implies match #[trigger] out_parts[i] {
        Some(res) => rebuilds_from(table, rules[i], res, msgs[i]),
        None => ov(out_msgs[i]) == ov(msgs[i]),
    } by {
        if table is Some {
            let t = table->0@;
            match out_parts[i] {
                Some(res) => {
                    let q = choose|q: int|
                        0 <= q < t.len() && (#[trigger] t[q]).0@ == rules[i]->0@ && t[q].1@.len() == res@.len() + 1
                            && splice(strs(t[q].1@), strs(res@)) == msgs[i]->0@ && ov(out_msgs[i]) == Some(
                            template_pointer_text(rules[i]->0@),
                        );
                    assert forall|p: int| 0 <= p < t.len() && (#[trigger] t[p]).0@ == rules[i]->0@ implies p == q by {
                        if p != q {
                            if p < q {
                                assert(t[p].0@ != t[q].0@);
                            } else {
                                assert(t[q].0@ != t[p].0@);
                            }
                        }
                    }
                },
                None => {},
            }
        }
    }
}


/// Some group of `acc` belongs to rule `rule`.
pub open spec fn accepted_rule(acc: Seq<(Seq<char>, Seq<Seq<char>>, Seq<Seq<Seq<char>>>, int)>, rule: Seq<char>) -> bool {
    exists|q: int| 0 <= q < acc.len() && (#[trigger] acc[q]).0 == rule
}

/// Row `i` is one the template fold rewrites: the table pays for itself, and the row is an
/// eligible row of a rule whose group folds.
pub open spec fn templated_row(rules: Seq<Option<String>>, msgs: Seq<Option<String>>, refs: Seq<Option<String>>, i: int) -> bool {
    &&& gains(accepted(rules, msgs, refs)) > template_one_time_spec()
    &&& eligible(rules, msgs, refs, i)
    &&& accepted_rule(accepted(rules, msgs, refs), rules[i]->0@)
}

/// What the template fold does to one row: a templated row carries the pointer and exactly its
/// residues against its rule's template; every other row keeps its text and gets no residues.
pub proof fn lemma_row_outcome(
    rules: Seq<Option<String>>,
    msgs: Seq<Option<String>>,
    refs: Seq<Option<String>>,
    out_msgs: Seq<Option<String>>,
    out_parts: Seq<Option<Vec<String>>>,
    table: Option<Vec<(String, Vec<String>)>>,
    i: int,
)
    requires
        template_stage(rules, msgs, refs, out_msgs, out_parts, table),
        0 <= i < rules.len(),
    ensures
        templated_row(rules, msgs, refs, i) ==> ov(out_msgs[i]) == Some(template_pointer_text(rules[i]->0@))
            && out_parts[i] is Some && forall|q: int|
            0 <= q < accepted(rules, msgs, refs).len() && (#[trigger] accepted(rules, msgs, refs)[q]).0 == rules[i]->0@
                ==> split_spec(msgs[i]->0@, accepted(rules, msgs, refs)[q].1) == Some(strs(out_parts[i]->0@)),
        !templated_row(rules, msgs, refs, i) ==> ov(out_msgs[i]) == ov(msgs[i]) && out_parts[i] is None,
{
    let acc = accepted(rules, msgs, refs);
    if gains(acc) > template_one_time_spec() {
        let t = table->0@;
        assert(templates_ok(rules, msgs, refs, out_msgs, out_parts, t));
        if !templated_row(rules, msgs, refs, i) {
            match out_parts[i] {
                Some(res) => {
                    let q = choose|q: int|
                        0 <= q < t.len() && (#[trigger] t[q]).0@ == rules[i]->0@ && t[q].1@.len() == res@.len() + 1
                            && splice(strs(t[q].1@), strs(res@)) == msgs[i]->0@ && ov(out_msgs[i]) == Some(
                            template_pointer_text(rules[i]->0@),
                        );
                    assert(acc[q].0 == rules[i]->0@);
                    assert(accepted_rule(acc, rules[i]->0@));
                },
                None => {},
            }
        } else {
            let q0 = choose|q: int| 0 <= q < acc.len() && (#[trigger] acc[q]).0 == rules[i]->0@;
            assert(out_parts[i] is Some && ov(out_msgs[i]) == Some(template_pointer_text(rules[i]->0@))) by {
                assert(acc[q0].0 == rules[i]->0@);
            }
        }
    }
}

/// Every group the fold accepts saves bytes.
proof fn lemma_accepted_gain(
    rules: Seq<Option<String>>,
    msgs: Seq<Option<String>>,
    refs: Seq<Option<String>>,
    order: Seq<Seq<char>>,
    h: int,
)
    ensures
        forall|q: int| 0 <= q < accepted_upto(rules, msgs, refs, order, h).len() ==> (#[trigger] accepted_upto(
            rules,
            msgs,
            refs,
            order,
            h,
        )[q]).3 > 0,
    decreases h,
{
    if h > 0 {
        lemma_accepted_gain(rules, msgs, refs, order, h - 1);
        let a = accepted_upto(rules, msgs, refs, order, h - 1);
        let r = order[h - 1];
        match group_fold(r, group_texts(msgs, members_upto(rules, msgs, refs, r, rules.len() as int))) {
            Some(x) => {
                assert(x.2 > 0);
                assert(accepted_upto(rules, msgs, refs, order, h) == a.push((r, x.0, x.1, x.2)));
            },
            None => {},
        }
    }
}

/// The template table is emitted exactly when the groups that fold together save more than the
/// table and its legend cost, and it holds only those groups, each of which saves bytes.
pub proof fn law_template_table_only_when_it_pays(
    rules: Seq<Option<String>>,
    msgs: Seq<Option<String>>,
    refs: Seq<Option<String>>,
    out_msgs: Seq<Option<String>>,
    out_parts: Seq<Option<Vec<String>>>,
    table: Option<Vec<(String, Vec<String>)>>,
)
    requires
        template_stage(rules, msgs, refs, out_msgs, out_parts, table),
    ensures
        table is Some <==> gains(accepted(rules, msgs, refs)) > template_one_time_spec(),
        forall|q: int| 0 <= q < accepted(rules, msgs, refs).len() ==> (#[trigger] accepted(rules, msgs, refs)[q]).3 > 0,
        table matches Some(t) ==> t@.len() == accepted(rules, msgs, refs).len() && forall|q: int|
            0 <= q < t@.len() ==> (#[trigger] t@[q]).0@ == accepted(rules, msgs, refs)[q].0,
{
    let o = rule_order(rules, msgs, refs);
    lemma_accepted_gain(rules, msgs, refs, o, o.len() as int);
}

/// A rule's inline rows are templated all together or not at all: two eligible rows with the same
/// rule id either both carry residues or neither does.
pub proof fn law_template_all_or_nothing(
    rules: Seq<Option<String>>,
    msgs: Seq<Option<String>>,
    refs: Seq<Option<String>>,
    out_msgs: Seq<Option<String>>,
    out_parts: Seq<Option<Vec<String>>>,
    table: Option<Vec<(String, Vec<String>)>>,
    i: int,
    j: int,
)
    requires
        template_stage(rules, msgs, refs, out_msgs, out_parts, table),
        0 <= i < rules.len(),
        0 <= j < rules.len(),
        eligible(rules, msgs, refs, i),
        eligible(rules, msgs, refs, j),
        rules[i]->0@ == rules[j]->0@,
    ensures
        out_parts[i] is Some <==> out_parts[j] is Some,
{
    lemma_row_outcome(rules, msgs, refs, out_msgs, out_parts, table, i);
    lemma_row_outcome(rules, msgs, refs, out_msgs, out_parts, table, j);
}

/// What a template table reads: each rule id with its template's texts.
pub open spec fn table_view(t: Option<Vec<(String, Vec<String>)>>) -> Option<Seq<(Seq<char>, Seq<Seq<char>>)>> {
    match t {
        Some(v) => Some(v@.map_values(|e: (String, Vec<String>)| (e.0@, strs(e.1@)))),
        None => None,
    }
}

proof fn lemma_texts_agree(a: Seq<Option<String>>, b: Seq<Option<String>>, i: int)
    requires
        same_texts(a, b),
        0 <= i < a.len(),
    ensures
        a[i] is None <==> b[i] is None,
        a[i]->0@ == b[i]->0@,
{
    assert(ov(a[i]) == ov(b[i]));
    if a[i] is None {
        assert(b[i] is None);
    }
}

/// Row by row, the two inputs agree on which rows are eligible, on rule ids and on messages.
pub open spec fn inputs_agree(
    r1: Seq<Option<String>>,
    m1: Seq<Option<String>>,
    f1: Seq<Option<String>>,
    r2: Seq<Option<String>>,
    m2: Seq<Option<String>>,
    f2: Seq<Option<String>>,
) -> bool {
    forall|i: int| 0 <= i < r1.len() ==> (#[trigger] eligible(r1, m1, f1, i) <==> eligible(r2, m2, f2, i))
        && r1[i]->0@ == r2[i]->0@ && m1[i]->0@ == m2[i]->0@
}

proof fn lemma_inputs_agree(
    r1: Seq<Option<String>>,
    m1: Seq<Option<String>>,
    f1: Seq<Option<String>>,
    r2: Seq<Option<String>>,
    m2: Seq<Option<String>>,
    f2: Seq<Option<String>>,
)
    requires
        same_texts(r1, r2),
        same_texts(m1, m2),
        same_texts(f1, f2),
        r1.len() == m1.len(),
        r1.len() == f1.len(),
    ensures
        inputs_agree(r1, m1, f1, r2, m2, f2),
{
    assert forall|i: int| 0 <= i < r1.len() implies (#[trigger] eligible(r1, m1, f1, i) <==> eligible(r2, m2, f2, i))
        && r1[i]->0@ == r2[i]->0@ && m1[i]->0@ == m2[i]->0@ by {
        lemma_texts_agree(r1, r2, i);
        lemma_texts_agree(m1, m2, i);
        lemma_texts_agree(f1, f2, i);
    }
}

proof fn lemma_order_agrees(
    r1: Seq<Option<String>>,
    m1: Seq<Option<String>>,
    f1: Seq<Option<String>>,
    r2: Seq<Option<String>>,
    m2: Seq<Option<String>>,
    f2: Seq<Option<String>>,
    k: int,
)
    requires
        inputs_agree(r1, m1, f1, r2, m2, f2),
        k <= r1.len(),
    ensures
        order_upto(r1, m1, f1, k) == order_upto(r2, m2, f2, k),
    decreases k,
{
    if k > 0 {
        lemma_order_agrees(r1, m1, f1, r2, m2, f2, k - 1);
        assert(eligible(r1, m1, f1, k - 1) <==> eligible(r2, m2, f2, k - 1));
    }
}

proof fn lemma_members_agree(
    r1: Seq<Option<String>>,
    m1: Seq<Option<String>>,
    f1: Seq<Option<String>>,
    r2: Seq<Option<String>>,
    m2: Seq<Option<String>>,
    f2: Seq<Option<String>>,
    rule: Seq<char>,
    k: int,
)
    requires
        inputs_agree(r1, m1, f1, r2, m2, f2),
        k <= r1.len(),
    ensures
        members_upto(r1, m1, f1, rule, k) == members_upto(r2, m2, f2, rule, k),
        forall|s: int| 0 <= s < members_upto(r1, m1, f1, rule, k).len() ==> 0 <= #[trigger] members_upto(r1, m1, f1, rule, k)[s] < k,
    decreases k,
{
    if k > 0 {
        lemma_members_agree(r1, m1, f1, r2, m2, f2, rule, k - 1);
        assert(eligible(r1, m1, f1, k - 1) <==> eligible(r2, m2, f2, k - 1));
    }
}

proof fn lemma_accepted_agrees(
    r1: Seq<Option<String>>,
    m1: Seq<Option<String>>,
    f1: Seq<Option<String>>,
    r2: Seq<Option<String>>,
    m2: Seq<Option<String>>,
    f2: Seq<Option<String>>,
    order: Seq<Seq<char>>,
    h: int,
)
    requires
        r1.len() == r2.len(),
        inputs_agree(r1, m1, f1, r2, m2, f2),
    ensures
        accepted_upto(r1, m1, f1, order, h) == accepted_upto(r2, m2, f2, order, h),
    decreases h,
{
    if h > 0 {
        lemma_accepted_agrees(r1, m1, f1, r2, m2, f2, order, h - 1);
        let r = order[h - 1];
        let n = r1.len() as int;
        lemma_members_agree(r1, m1, f1, r2, m2, f2, r, n);
        let rows = members_upto(r1, m1, f1, r, n);
        assert(group_texts(m1, rows) =~= group_texts(m2, rows)) by {
            assert forall|s: int| 0 <= s < rows.len() implies group_texts(m1, rows)[s] == group_texts(m2, rows)[s] by {
                assert(0 <= rows[s] < n);
                assert(eligible(r1, m1, f1, rows[s]) == eligible(r2, m2, f2, rows[s]));
            }
        }
    }
}

/// The template fold is determined by what its inputs read: two results for inputs whose rule
/// ids, messages and references read the same carry the same messages, the same residues and the
/// same table.
pub proof fn law_template_stage_is_determined(
    r1: Seq<Option<String>>,
    m1: Seq<Option<String>>,
    f1: Seq<Option<String>>,
    o1: Seq<Option<String>>,
    p1: Seq<Option<Vec<String>>>,
    t1: Option<Vec<(String, Vec<String>)>>,
    r2: Seq<Option<String>>,
    m2: Seq<Option<String>>,
    f2: Seq<Option<String>>,
    o2: Seq<Option<String>>,
    p2: Seq<Option<Vec<String>>>,
    t2: Option<Vec<(String, Vec<String>)>>,
)
    requires
        r1.len() == m1.len(),
        r1.len() == f1.len(),
        same_texts(r1, r2),
        same_texts(m1, m2),
        same_texts(f1, f2),
        template_stage(r1, m1, f1, o1, p1, t1),
        template_stage(r2, m2, f2, o2, p2, t2),
    ensures
        same_texts(o1, o2),
        p1.len() == p2.len(),
        forall|i: int| 0 <= i < p1.len() ==> ovs(#[trigger] p1[i]) == ovs(p2[i]),
        table_view(t1) == table_view(t2),
{
    lemma_inputs_agree(r1, m1, f1, r2, m2, f2);
    let n = r1.len() as int;
    lemma_order_agrees(r1, m1, f1, r2, m2, f2, n);
    let o = rule_order(r1, m1, f1);
    lemma_accepted_agrees(r1, m1, f1, r2, m2, f2, o, o.len() as int);
    let acc = accepted(r1, m1, f1);
    assert(acc == accepted(r2, m2, f2));
    assert forall|i: int| 0 <= i < n implies ov(#[trigger] o1[i]) == ov(o2[i]) && ovs(p1[i]) == ovs(p2[i]) by {
        lemma_row_outcome(r1, m1, f1, o1, p1, t1, i);
        lemma_row_outcome(r2, m2, f2, o2, p2, t2, i);
        assert(templated_row(r1, m1, f1, i) == templated_row(r2, m2, f2, i));
        if templated_row(r1, m1, f1, i) {
            let q = choose|q: int| 0 <= q < acc.len() && (#[trigger] acc[q]).0 == r1[i]->0@;
            assert(acc[q].0 == r2[i]->0@);
        }
    }
    if t1 is Some {
        let v1 = t1->0@;
        let v2 = t2->0@;
        assert(table_view(t1)->0 =~= table_view(t2)->0) by {
            assert forall|q: int| 0 <= q < v1.len() implies table_view(t1)->0[q] == table_view(t2)->0[q] by {
                assert(v1[q].0@ == acc[q].0);
                assert(v2[q].0@ == acc[q].0);
            }
        }
    }
}

} // verus!
