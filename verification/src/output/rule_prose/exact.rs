//! The exact fold: every (rule, message) pair that more than one shown finding carries and whose
//! folding removes more bytes than its pointer, field and table row add, stored once in
//! `ruleMessages` under `<ruleId>` (`<ruleId>#2`, `#3`, ... for a rule's later texts); each such
//! finding's message becomes the pointer sentence and it gains `messageRef`. The table rides only
//! when the accepted savings exceed its one-time cost.
use vstd::prelude::*;

use super::cost::{net_gain, net_gain_spec, one_time_bytes, one_time_spec, pointer_sentence, pointer_text};
use super::{clone_text, ov, same_texts};
use crate::output::ordering::{count_prior, lemma_count_prior_le, lemma_count_prior_step};
use crate::output::MAX_LIMIT;
use crate::text::{chars_eq, chars_of, dec, owned, push_str, push_usize};

verus! {

broadcast use vstd::seq_lib::group_seq_properties;

/// A finding's identity for the fold: its rule id and its message, when it carries both.
pub open spec fn ident_of(rule: Option<Seq<char>>, msg: Option<Seq<char>>) -> Option<(Seq<char>, Seq<char>)> {
    match (rule, msg) {
        (Some(a), Some(b)) => Some((a, b)),
        _ => None,
    }
}

/// Every row's identity.
pub open spec fn idents(rules: Seq<Option<String>>, msgs: Seq<Option<String>>) -> Seq<Option<(Seq<char>, Seq<char>)>> {
    Seq::new(rules.len(), |i: int| ident_of(ov(rules[i]), ov(msgs[i])))
}

/// How many rows carry identity `id`.
pub open spec fn mult(xs: Seq<Option<(Seq<char>, Seq<char>)>>, id: (Seq<char>, Seq<char>)) -> nat {
    count_prior(xs.len() as int, |j: int| xs[j] == Some(id))
}

/// The identities carried by at least two rows, in order of first appearance among the first `k`.
pub open spec fn cands_upto(xs: Seq<Option<(Seq<char>, Seq<char>)>>, k: int) -> Seq<(Seq<char>, Seq<char>)>
    decreases k,
{
    if k <= 0 {
        Seq::empty()
    } else {
        let c = cands_upto(xs, k - 1);
        match xs[k - 1] {
            Some(id) => if mult(xs, id) >= 2 && !c.contains(id) {
                c.push(id)
            } else {
                c
            },
            None => c,
        }
    }
}

/// The candidates of the whole window.
pub open spec fn cands(xs: Seq<Option<(Seq<char>, Seq<char>)>>) -> Seq<(Seq<char>, Seq<char>)> {
    cands_upto(xs, xs.len() as int)
}

/// The 1-based ordinal of entry `i` among the entries of `cs` with its rule.
pub open spec fn slot_of(cs: Seq<(Seq<char>, Seq<char>)>, i: int) -> nat {
    count_prior(i, |j: int| cs[j].0 == cs[i].0) + 1
}

/// `<rule>` for a rule's first text, `<rule>#<slot>` for its later ones.
pub open spec fn key_name(rule: Seq<char>, slot: nat) -> Seq<char> {
    if slot == 1 {
        rule
    } else {
        rule + "#"@ + dec(slot)
    }
}

/// The gain of candidate `i`, priced under the key it would take if every candidate before it
/// were accepted.
pub open spec fn gain_of(xs: Seq<Option<(Seq<char>, Seq<char>)>>, cs: Seq<(Seq<char>, Seq<char>)>, i: int) -> int {
    net_gain_spec(mult(xs, cs[i]) as int, cs[i].1, key_name(cs[i].0, slot_of(cs, i)))
}

/// The candidates among the first `k` whose gain is positive, in order.
pub open spec fn kept_upto(xs: Seq<Option<(Seq<char>, Seq<char>)>>, cs: Seq<(Seq<char>, Seq<char>)>, k: int) -> Seq<
    (Seq<char>, Seq<char>),
>
    decreases k,
{
    if k <= 0 {
        Seq::empty()
    } else {
        let r = kept_upto(xs, cs, k - 1);
        if gain_of(xs, cs, k - 1) > 0 {
            r.push(cs[k - 1])
        } else {
            r
        }
    }
}

/// The sum of the positive gains among the first `k` candidates.
pub open spec fn saved_upto(xs: Seq<Option<(Seq<char>, Seq<char>)>>, cs: Seq<(Seq<char>, Seq<char>)>, k: int) -> int
    decreases k,
{
    if k <= 0 {
        0
    } else {
        saved_upto(xs, cs, k - 1) + if gain_of(xs, cs, k - 1) > 0 {
            gain_of(xs, cs, k - 1)
        } else {
            0
        }
    }
}

/// The accepted texts of the window.
pub open spec fn kept(xs: Seq<Option<(Seq<char>, Seq<char>)>>) -> Seq<(Seq<char>, Seq<char>)> {
    kept_upto(xs, cands(xs), cands(xs).len() as int)
}

/// Whether the window's accepted savings pay for the table and its legend.
pub open spec fn exact_folds(xs: Seq<Option<(Seq<char>, Seq<char>)>>) -> bool {
    saved_upto(xs, cands(xs), cands(xs).len() as int) > one_time_spec()
}

/// The final key of accepted text `q`: dense over the accepted texts of its rule.
pub open spec fn final_key(ks: Seq<(Seq<char>, Seq<char>)>, q: int) -> Seq<char> {
    key_name(ks[q].0, slot_of(ks, q))
}

/// The exact fold's outcome over `rules`/`msgs`: the table holds each accepted text under its final
/// key, present exactly when the savings pay; each row of an accepted text carries the pointer and
/// `messageRef` to its key; every other row is unchanged.
pub open spec fn exact_stage(
    rules: Seq<Option<String>>,
    msgs: Seq<Option<String>>,
    out_msgs: Seq<Option<String>>,
    out_refs: Seq<Option<String>>,
    table: Option<Vec<(String, String)>>,
) -> bool {
    let xs = idents(rules, msgs);
    let ks = kept(xs);
    &&& out_msgs.len() == rules.len()
    &&& out_refs.len() == rules.len()
    &&& exact_folds(xs) ==> (table matches Some(t) && t@.len() == ks.len() && forall|q: int|
        0 <= q < ks.len() ==> (#[trigger] t@[q]).0@ == final_key(ks, q) && t@[q].1@ == ks[q].1)
    &&& !exact_folds(xs) ==> table is None
    &&& forall|i: int|
        0 <= i < rules.len() ==> if exact_folds(xs) && (#[trigger] xs[i]) is Some && ks.contains(
            xs[i]->0,
        ) {
            exists|q: int|
                0 <= q < ks.len() && ks[q] == xs[i]->0 && ov(out_msgs[i]) == Some(
                    pointer_text(final_key(ks, q)),
                ) && ov(out_refs[i]) == Some(final_key(ks, q))
        } else {
            ov(out_msgs[i]) == ov(msgs[i]) && out_refs[i] is None
        }
}

/// `<rule>` or `<rule>#<slot>`.
fn key_text(rule: &Vec<char>, slot: usize) -> (r: String)
    requires
        slot >= 1,
    ensures
        r@ == key_name(rule@, slot as nat),
{
    let mut s = crate::text::string_of(rule);
    if slot != 1 {
        push_str(&mut s, "#");
        push_usize(&mut s, slot);
    }
    s
}

/// The characters of an optional text, and whether it was present.
fn opt_vec(o: &Option<String>) -> (r: (bool, Vec<char>))
    ensures
        r.0 == (o is Some),
        o is Some ==> r.1@ == o->0@,
{
    match o {
        Some(s) => (true, chars_of(s.as_str())),
        None => (false, Vec::new()),
    }
}

/// Whether rows `i` and `j` carry the same identity, row `i` carrying one.
fn same_ident(present: &Vec<bool>, rc: &Vec<Vec<char>>, mc: &Vec<Vec<char>>, i: usize, j: usize, xs: Ghost<Seq<Option<(Seq<char>, Seq<char>)>>>) -> (r: bool)
    requires
        i < present@.len(),
        j < present@.len(),
        present@.len() == rc@.len(),
        present@.len() == mc@.len(),
        present@.len() == xs@.len(),
        forall|k: int|
            0 <= k < present@.len() ==> (#[trigger] xs@[k] is Some) == present@[k] && (present@[k] ==> xs@[k]
                == Some((rc@[k]@, mc@[k]@))),
    ensures
        r == (xs@[i as int] is Some && xs@[i as int] == xs@[j as int]),
{
    if !present[i] || !present[j] {
        return false;
    }
    chars_eq(&rc[i], &rc[j]) && chars_eq(&mc[i], &mc[j])
}

proof fn lemma_cands_shape(xs: Seq<Option<(Seq<char>, Seq<char>)>>, k: int)
    requires
        0 <= k <= xs.len(),
    ensures
        forall|a: int, b: int|
            0 <= a < b < cands_upto(xs, k).len() ==> cands_upto(xs, k)[a] != cands_upto(xs, k)[b],
        forall|a: int| 0 <= a < cands_upto(xs, k).len() ==> mult(xs, #[trigger] cands_upto(xs, k)[a]) >= 2,
        cands_upto(xs, k).len() <= k,
    decreases k,
{
    if k > 0 {
        lemma_cands_shape(xs, k - 1);
    }
}

proof fn lemma_kept_len(xs: Seq<Option<(Seq<char>, Seq<char>)>>, cs: Seq<(Seq<char>, Seq<char>)>, k: int)
    requires
        0 <= k,
    ensures
        kept_upto(xs, cs, k).len() <= k,
    decreases k,
{
    if k > 0 {
        lemma_kept_len(xs, cs, k - 1);
    }
}

/// Folds every repeated (rule, message) pair worth storing once. Returns each row's message and
/// `messageRef` after the fold, and the `ruleMessages` table — `None` when nothing is worth it.
pub fn fold_exact(rules: &Vec<Option<String>>, msgs: &Vec<Option<String>>) -> (r: (
    Vec<Option<String>>,
    Vec<Option<String>>,
    Option<Vec<(String, String)>>,
))
    requires
        rules@.len() == msgs@.len(),
        rules@.len() <= MAX_LIMIT,
    ensures
        exact_stage(rules@, msgs@, r.0@, r.1@, r.2),
{
    let ghost xs = idents(rules@, msgs@);
    let n = rules.len();
    // The characters of each row's identity.
    let mut present: Vec<bool> = Vec::new();
    let mut rc: Vec<Vec<char>> = Vec::new();
    let mut mc: Vec<Vec<char>> = Vec::new();
    let mut i: usize = 0;
    while i < n
        invariant
            n == rules@.len(),
            n == msgs@.len(),
            xs == idents(rules@, msgs@),
            i <= n,
            present@.len() == i,
            rc@.len() == i,
            mc@.len() == i,
            forall|k: int|
                0 <= k < i ==> (#[trigger] xs[k] is Some) == present@[k] && (present@[k] ==> xs[k] == Some(
                    (rc@[k]@, mc@[k]@),
                )),
        decreases n - i,
    {
        let (hr, vr) = opt_vec(&rules[i]);
        let (hm, vm) = opt_vec(&msgs[i]);
        present.push(hr && hm);
        rc.push(vr);
        mc.push(vm);
        i = i + 1;
    }
    // Pass 1: each row's multiplicity.
    let mut mults: Vec<usize> = Vec::new();
    let mut i: usize = 0;
    while i < n
        invariant
            n == xs.len(),
            n <= MAX_LIMIT,
            present@.len() == n,
            rc@.len() == n,
            mc@.len() == n,
            forall|k: int|
                0 <= k < n ==> (#[trigger] xs[k] is Some) == present@[k] && (present@[k] ==> xs[k] == Some(
                    (rc@[k]@, mc@[k]@),
                )),
            i <= n,
            mults@.len() == i,
            forall|k: int| 0 <= k < i ==> present@[k] ==> (#[trigger] mults@[k]) == mult(xs, xs[k]->0),
            forall|k: int| 0 <= k < i ==> (#[trigger] mults@[k]) <= n,
        decreases n - i,
    {
        let mut cnt: usize = 0;
        let mut j: usize = 0;
        let ghost id = xs[i as int]->0;
        while j < n
            invariant
                n == xs.len(),
                i < n,
                present@.len() == n,
                rc@.len() == n,
                mc@.len() == n,
                forall|k: int|
                    0 <= k < n ==> (#[trigger] xs[k] is Some) == present@[k] && (present@[k] ==> xs[k]
                        == Some((rc@[k]@, mc@[k]@))),
                id == xs[i as int]->0,
                j <= n,
                present@[i as int] ==> cnt == count_prior(j as int, |m: int| xs[m] == Some(id)),
                cnt <= j,
            decreases n - j,
        {
            proof {
                lemma_count_prior_step(j as int, |m: int| xs[m] == Some(id));
            }
            if same_ident(&present, &rc, &mc, i, j, Ghost(xs)) {
                cnt = cnt + 1;
            }
            j = j + 1;
        }
        mults.push(cnt);
        i = i + 1;
    }
    // Pass 2: candidates in first-appearance order, as the row of their first appearance.
    let mut cand_rows: Vec<usize> = Vec::new();
    let mut i: usize = 0;
    while i < n
        invariant
            n == xs.len(),
            n <= MAX_LIMIT,
            present@.len() == n,
            rc@.len() == n,
            mc@.len() == n,
            forall|k: int|
                0 <= k < n ==> (#[trigger] xs[k] is Some) == present@[k] && (present@[k] ==> xs[k] == Some(
                    (rc@[k]@, mc@[k]@),
                )),
            mults@.len() == n,
            forall|k: int| 0 <= k < n ==> present@[k] ==> (#[trigger] mults@[k]) == mult(xs, xs[k]->0),
            i <= n,
            cand_rows@.len() == cands_upto(xs, i as int).len(),
            forall|c: int|
                0 <= c < cand_rows@.len() ==> (#[trigger] cand_rows@[c]) < i && present@[cand_rows@[c] as int]
                    && xs[cand_rows@[c] as int]->0 == cands_upto(xs, i as int)[c],
        decreases n - i,
    {
        let ghost prev = cands_upto(xs, i as int);
        if present[i] && mults[i] >= 2 {
            let mut c: usize = 0;
            let mut seen = false;
            while c < cand_rows.len()
                invariant
                    n == xs.len(),
                    i < n,
                    present@.len() == n,
                    rc@.len() == n,
                    mc@.len() == n,
                    present@[i as int],
                    forall|k: int|
                        0 <= k < n ==> (#[trigger] xs[k] is Some) == present@[k] && (present@[k] ==> xs[k]
                            == Some((rc@[k]@, mc@[k]@))),
                    prev == cands_upto(xs, i as int),
                    cand_rows@.len() == prev.len(),
                    forall|q: int|
                        0 <= q < cand_rows@.len() ==> (#[trigger] cand_rows@[q]) < i && present@[cand_rows@[q] as int]
                            && xs[cand_rows@[q] as int]->0 == prev[q],
                    c <= cand_rows@.len(),
                    seen == exists|q: int| 0 <= q < c && prev[q] == xs[i as int]->0,
                decreases cand_rows@.len() - c,
            {
                if same_ident(&present, &rc, &mc, cand_rows[c], i, Ghost(xs)) {
                    seen = true;
                }
                c = c + 1;
            }
            proof {
                assert(seen == prev.contains(xs[i as int]->0));
            }
            if !seen {
                cand_rows.push(i);
            }
        }
        proof {
            assert(cands_upto(xs, i + 1) == if xs[i as int] is Some && mult(xs, xs[i as int]->0) >= 2
                && !prev.contains(xs[i as int]->0) {
                prev.push(xs[i as int]->0)
            } else {
                prev
            });
        }
        i = i + 1;
    }
    let ghost cs = cands(xs);
    proof {
        lemma_cands_shape(xs, n as int);
    }
    // Pass 3: the byte gate, per candidate, under its provisional key.
    let mut kept_c: Vec<usize> = Vec::new();
    let mut saved: i128 = 0;
    let mut c: usize = 0;
    while c < cand_rows.len()
        invariant
            n == xs.len(),
            n <= MAX_LIMIT,
            cs == cands(xs),
            present@.len() == n,
            rc@.len() == n,
            mc@.len() == n,
            forall|k: int|
                0 <= k < n ==> (#[trigger] xs[k] is Some) == present@[k] && (present@[k] ==> xs[k] == Some(
                    (rc@[k]@, mc@[k]@),
                )),
            mults@.len() == n,
            forall|k: int| 0 <= k < n ==> present@[k] ==> (#[trigger] mults@[k]) == mult(xs, xs[k]->0),
            forall|k: int| 0 <= k < n ==> (#[trigger] mults@[k]) <= n,
            cand_rows@.len() == cs.len(),
            cs.len() <= n,
            forall|q: int|
                0 <= q < cand_rows@.len() ==> (#[trigger] cand_rows@[q]) < n && present@[cand_rows@[q] as int]
                    && xs[cand_rows@[q] as int]->0 == cs[q],
            c <= cand_rows@.len(),
            kept_c@.len() == kept_upto(xs, cs, c as int).len(),
            forall|q: int|
                0 <= q < kept_c@.len() ==> (#[trigger] kept_c@[q]) < c && cs[kept_c@[q] as int]
                    == kept_upto(xs, cs, c as int)[q],
            saved == saved_upto(xs, cs, c as int),
            0 <= saved <= c * 0x400_0000_0000_0000_0000,
        decreases cand_rows@.len() - c,
    {
        let row = cand_rows[c];
        let mut same: usize = 0;
        let mut d: usize = 0;
        while d < c
            invariant
                c < cand_rows@.len(),
                cand_rows@.len() == cs.len(),
                present@.len() == n,
                rc@.len() == n,
                mc@.len() == n,
                n == xs.len(),
                forall|k: int|
                    0 <= k < n ==> (#[trigger] xs[k] is Some) == present@[k] && (present@[k] ==> xs[k]
                        == Some((rc@[k]@, mc@[k]@))),
                forall|q: int|
                    0 <= q < cand_rows@.len() ==> (#[trigger] cand_rows@[q]) < n && present@[cand_rows@[q] as int]
                        && xs[cand_rows@[q] as int]->0 == cs[q],
                row == cand_rows@[c as int],
                d <= c,
                same == count_prior(d as int, |j: int| cs[j].0 == cs[c as int].0),
                same <= d,
            decreases c - d,
        {
            proof {
                lemma_count_prior_step(d as int, |j: int| cs[j].0 == cs[c as int].0);
            }
            if chars_eq(&rc[cand_rows[d]], &rc[row]) {
                same = same + 1;
            }
            d = d + 1;
        }
        let key = key_text(&rc[row], same + 1);
        let text = crate::text::string_of(&mc[row]);
        let g = net_gain(mults[row], text.as_str(), key.as_str());
        proof {
            assert(cs[c as int] == (rc@[row as int]@, mc@[row as int]@));
            assert(g == gain_of(xs, cs, c as int));
        }
        assert(g <= 0x400_0000_0000_0000_0000);
        if g > 0 {
            saved = saved + g;
            kept_c.push(c);
        }
        proof {
            assert((c + 1) * 0x400_0000_0000_0000_0000 == c * 0x400_0000_0000_0000_0000
                + 0x400_0000_0000_0000_0000);
        }
        c = c + 1;
    }
    let ghost ks = kept(xs);
    let one = one_time_bytes();
    let mut out_msgs: Vec<Option<String>> = Vec::new();
    let mut out_refs: Vec<Option<String>> = Vec::new();
    if saved <= one {
        let mut i: usize = 0;
        while i < n
            invariant
                n == rules@.len(),
                n == msgs@.len(),
                i <= n,
                out_msgs@.len() == i,
                out_refs@.len() == i,
                forall|k: int| 0 <= k < i ==> ov(#[trigger] out_msgs@[k]) == ov(msgs@[k]) && out_refs@[k] is None,
            decreases n - i,
        {
            out_msgs.push(clone_text(&msgs[i]));
            out_refs.push(None);
            i = i + 1;
        }
        return (out_msgs, out_refs, None);
    }
    // Pass 4: final keys, dense over the accepted texts.
    proof {
        lemma_kept_len(xs, cs, cs.len() as int);
    }
    let mut keys: Vec<String> = Vec::new();
    let mut table: Vec<(String, String)> = Vec::new();
    let mut q: usize = 0;
    while q < kept_c.len()
        invariant
            n == xs.len(),
            cs == cands(xs),
            ks == kept(xs),
            present@.len() == n,
            rc@.len() == n,
            mc@.len() == n,
            forall|k: int|
                0 <= k < n ==> (#[trigger] xs[k] is Some) == present@[k] && (present@[k] ==> xs[k] == Some(
                    (rc@[k]@, mc@[k]@),
                )),
            cand_rows@.len() == cs.len(),
            forall|p: int|
                0 <= p < cand_rows@.len() ==> (#[trigger] cand_rows@[p]) < n && present@[cand_rows@[p] as int]
                    && xs[cand_rows@[p] as int]->0 == cs[p],
            kept_c@.len() == ks.len(),
            forall|p: int|
                0 <= p < kept_c@.len() ==> (#[trigger] kept_c@[p]) < cs.len() && cs[kept_c@[p] as int]
                    == ks[p],
            q <= kept_c@.len(),
            keys@.len() == q,
            table@.len() == q,
            forall|p: int| 0 <= p < q ==> (#[trigger] keys@[p])@ == final_key(ks, p),
            forall|p: int|
                0 <= p < q ==> (#[trigger] table@[p]).0@ == final_key(ks, p) && table@[p].1@ == ks[p].1,
        decreases kept_c@.len() - q,
    {
        let row = cand_rows[kept_c[q]];
        let mut same: usize = 0;
        let mut d: usize = 0;
        while d < q
            invariant
                q < kept_c@.len(),
                kept_c@.len() == ks.len(),
                cand_rows@.len() == cs.len(),
                present@.len() == n,
                rc@.len() == n,
                mc@.len() == n,
                n == xs.len(),
                forall|k: int|
                    0 <= k < n ==> (#[trigger] xs[k] is Some) == present@[k] && (present@[k] ==> xs[k]
                        == Some((rc@[k]@, mc@[k]@))),
                forall|p: int|
                    0 <= p < cand_rows@.len() ==> (#[trigger] cand_rows@[p]) < n && present@[cand_rows@[p] as int]
                        && xs[cand_rows@[p] as int]->0 == cs[p],
                forall|p: int|
                    0 <= p < kept_c@.len() ==> (#[trigger] kept_c@[p]) < cs.len() && cs[kept_c@[p] as int]
                        == ks[p],
                row == cand_rows@[kept_c@[q as int] as int],
                d <= q,
                same == count_prior(d as int, |j: int| ks[j].0 == ks[q as int].0),
                same <= d,
            decreases q - d,
        {
            proof {
                lemma_count_prior_step(d as int, |j: int| ks[j].0 == ks[q as int].0);
            }
            if chars_eq(&rc[cand_rows[kept_c[d]]], &rc[row]) {
                same = same + 1;
            }
            d = d + 1;
        }
        let key = key_text(&rc[row], same + 1);
        let text = crate::text::string_of(&mc[row]);
        keys.push(key.clone());
        table.push((key, text));
        q = q + 1;
    }
    // Pass 5: rewrite.
    let mut i: usize = 0;
    while i < n
        invariant
            n == rules@.len(),
            n == msgs@.len(),
            n == xs.len(),
            xs == idents(rules@, msgs@),
            cs == cands(xs),
            ks == kept(xs),
            exact_folds(xs),
            present@.len() == n,
            rc@.len() == n,
            mc@.len() == n,
            forall|k: int|
                0 <= k < n ==> (#[trigger] xs[k] is Some) == present@[k] && (present@[k] ==> xs[k] == Some(
                    (rc@[k]@, mc@[k]@),
                )),
            cand_rows@.len() == cs.len(),
            forall|p: int|
                0 <= p < cand_rows@.len() ==> (#[trigger] cand_rows@[p]) < n && present@[cand_rows@[p] as int]
                    && xs[cand_rows@[p] as int]->0 == cs[p],
            kept_c@.len() == ks.len(),
            forall|p: int|
                0 <= p < kept_c@.len() ==> (#[trigger] kept_c@[p]) < cs.len() && cs[kept_c@[p] as int]
                    == ks[p],
            keys@.len() == ks.len(),
            forall|p: int| 0 <= p < ks.len() ==> (#[trigger] keys@[p])@ == final_key(ks, p),
            i <= n,
            out_msgs@.len() == i,
            out_refs@.len() == i,
            forall|k: int|
                0 <= k < i ==> if (#[trigger] xs[k]) is Some && ks.contains(xs[k]->0) {
                    exists|p: int|
                        0 <= p < ks.len() && ks[p] == xs[k]->0 && ov(out_msgs@[k]) == Some(
                            pointer_text(final_key(ks, p)),
                        ) && ov(out_refs@[k]) == Some(final_key(ks, p))
                } else {
                    ov(out_msgs@[k]) == ov(msgs@[k]) && out_refs@[k] is None
                },
        decreases n - i,
    {
        let mut found: Option<usize> = None;
        let mut p: usize = 0;
        while p < kept_c.len()
            invariant
                n == xs.len(),
                i < n,
                present@.len() == n,
                rc@.len() == n,
                mc@.len() == n,
                forall|k: int|
                    0 <= k < n ==> (#[trigger] xs[k] is Some) == present@[k] && (present@[k] ==> xs[k]
                        == Some((rc@[k]@, mc@[k]@))),
                cand_rows@.len() == cs.len(),
                forall|t: int|
                    0 <= t < cand_rows@.len() ==> (#[trigger] cand_rows@[t]) < n && present@[cand_rows@[t] as int]
                        && xs[cand_rows@[t] as int]->0 == cs[t],
                kept_c@.len() == ks.len(),
                forall|t: int|
                    0 <= t < kept_c@.len() ==> (#[trigger] kept_c@[t]) < cs.len() && cs[kept_c@[t] as int]
                        == ks[t],
                p <= kept_c@.len(),
                match found {
                    Some(t) => t < ks.len() && xs[i as int] is Some && ks[t as int] == xs[i as int]->0,
                    None => forall|t: int| 0 <= t < p ==> !(xs[i as int] is Some && ks[t] == xs[i as int]->0),
                },
            decreases kept_c@.len() - p,
        {
            if found.is_none() && same_ident(&present, &rc, &mc, i, cand_rows[kept_c[p]], Ghost(xs)) {
                found = Some(p);
            }
            p = p + 1;
        }
        match found {
            Some(t) => {
                out_msgs.push(Some(pointer_sentence(keys[t].as_str())));
                out_refs.push(Some(keys[t].clone()));
            },
            None => {
                out_msgs.push(clone_text(&msgs[i]));
                out_refs.push(None);
                proof {
                    if xs[i as int] is Some && ks.contains(xs[i as int]->0) {
                        let t = choose|t: int| 0 <= t < ks.len() && ks[t] == xs[i as int]->0;
                        assert(false);
                    }
                }
            },
        }
        i = i + 1;
    }
    (out_msgs, out_refs, Some(table))
}

/// The table `table` holds, under key `k`, exactly the text `m`.
pub open spec fn holds_under(table: Option<Vec<(String, String)>>, k: Seq<char>, m: Option<String>) -> bool {
    match (table, m) {
        (Some(t), Some(text)) => exists|q: int| 0 <= q < t@.len() && (#[trigger] t@[q]).0@ == k && t@[q].1@ == text@,
        _ => false,
    }
}

/// The exact fold loses nothing: a row that now carries a `messageRef` names a `ruleMessages`
/// entry holding exactly the text the row carried, and every other row keeps its text.
pub proof fn law_exact_fold_is_lossless(
    rules: Seq<Option<String>>,
    msgs: Seq<Option<String>>,
    out_msgs: Seq<Option<String>>,
    out_refs: Seq<Option<String>>,
    table: Option<Vec<(String, String)>>,
)
    requires
        rules.len() == msgs.len(),
        exact_stage(rules, msgs, out_msgs, out_refs, table),
    ensures
        forall|i: int|
            0 <= i < rules.len() ==> match #[trigger] out_refs[i] {
                Some(k) => holds_under(table, k@, msgs[i]),
                None => ov(out_msgs[i]) == ov(msgs[i]),
            },
{
    let xs = idents(rules, msgs);
    let ks = kept(xs);
    assert forall|i: int| 0 <= i < rules.len() implies match #[trigger] out_refs[i] {
        Some(k) => holds_under(table, k@, msgs[i]),
        None => ov(out_msgs[i]) == ov(msgs[i]),
    } by {
        if exact_folds(xs) && xs[i] is Some && ks.contains(xs[i]->0) {
            let q = choose|q: int|
                0 <= q < ks.len() && ks[q] == xs[i]->0 && ov(out_msgs[i]) == Some(pointer_text(final_key(ks, q)))
                    && ov(out_refs[i]) == Some(final_key(ks, q));
            let t = table->0;
            assert(t@[q].0@ == final_key(ks, q) && t@[q].1@ == ks[q].1);
            assert(msgs[i] is Some);
            assert(t@[q].1@ == msgs[i]->0@);
        }
    }
}

proof fn lemma_count_more(a: int, b: int, p: spec_fn(int) -> bool)
    requires
        0 <= a < b,
    ensures
        count_prior(a, p) + (if p(a) { 1nat } else { 0nat }) <= count_prior(b, p),
    decreases b,
{
    if b > a + 1 {
        lemma_count_more(a, b - 1, p);
    }
}

proof fn lemma_count_witness(n: int, p: spec_fn(int) -> bool)
    requires
        count_prior(n, p) > 0,
    ensures
        exists|j: int| 0 <= j < n && #[trigger] p(j),
    decreases n,
{
    if n > 0 && !p(n - 1) {
        lemma_count_witness(n - 1, p);
    }
}

proof fn lemma_cands(xs: Seq<Option<(Seq<char>, Seq<char>)>>, k: int)
    requires
        k <= xs.len(),
    ensures
        forall|i: int| 0 <= i < cands_upto(xs, k).len() ==> mult(xs, #[trigger] cands_upto(xs, k)[i]) >= 2,
        forall|a: int, b: int|
            0 <= a < cands_upto(xs, k).len() && 0 <= b < cands_upto(xs, k).len() && a != b ==> #[trigger] cands_upto(xs, k)[a]
                != #[trigger] cands_upto(xs, k)[b],
    decreases k,
{
    if k > 0 {
        lemma_cands(xs, k - 1);
        let c = cands_upto(xs, k - 1);
        let n = cands_upto(xs, k);
        if n.len() > c.len() {
            let id = xs[k - 1]->0;
            assert(n == c.push(id));
            assert(mult(xs, id) >= 2 && !c.contains(id));
            assert forall|i: int| 0 <= i < n.len() implies mult(xs, #[trigger] n[i]) >= 2 by {
                if i < c.len() {
                    assert(n[i] == c[i]);
                }
            }
            assert forall|a: int, b: int| 0 <= a < n.len() && 0 <= b < n.len() && a != b implies #[trigger] n[a] != #[trigger] n[b] by {
                if a < c.len() && b < c.len() {
                    assert(n[a] == c[a] && n[b] == c[b]);
                } else if a < c.len() {
                    assert(n[a] == c[a]);
                    assert(c.contains(c[a]));
                } else if b < c.len() {
                    assert(n[b] == c[b]);
                    assert(c.contains(c[b]));
                }
            }
        } else {
            assert(n == c);
        }
    }
}

proof fn lemma_kept(xs: Seq<Option<(Seq<char>, Seq<char>)>>, cs: Seq<(Seq<char>, Seq<char>)>, k: int)
    requires
        k <= cs.len(),
        forall|a: int, b: int| 0 <= a < cs.len() && 0 <= b < cs.len() && a != b ==> #[trigger] cs[a] != #[trigger] cs[b],
    ensures
        forall|i: int| 0 <= i < kept_upto(xs, cs, k).len() ==> exists|j: int| 0 <= j < k && cs[j] == #[trigger] kept_upto(xs, cs, k)[i],
        forall|a: int, b: int|
            0 <= a < kept_upto(xs, cs, k).len() && 0 <= b < kept_upto(xs, cs, k).len() && a != b ==> #[trigger] kept_upto(xs, cs, k)[a]
                != #[trigger] kept_upto(xs, cs, k)[b],
    decreases k,
{
    if k > 0 {
        lemma_kept(xs, cs, k - 1);
        let r = kept_upto(xs, cs, k - 1);
        assert forall|i: int| 0 <= i < r.len() implies r[i] != cs[k - 1] by {
            let j = choose|j: int| 0 <= j < k - 1 && cs[j] == r[i];
        }
        assert forall|i: int| 0 <= i < kept_upto(xs, cs, k).len() implies exists|j: int| 0 <= j < k && cs[j] == #[trigger] kept_upto(xs, cs, k)[i] by {
            if i < r.len() {
                assert(kept_upto(xs, cs, k)[i] == r[i]);
                let j = choose|j: int| 0 <= j < k - 1 && cs[j] == r[i];
            } else {
                assert(cs[k - 1] == kept_upto(xs, cs, k)[i]);
            }
        }
    }
}

/// The finding's `messageRef` names key `k`.
pub open spec fn refers(r: Option<String>, k: Seq<char>) -> bool {
    r matches Some(x) && x@ == k
}

/// How many accepted texts rule `rule` has.
pub open spec fn rule_texts(ks: Seq<(Seq<char>, Seq<char>)>, rule: Seq<char>) -> nat {
    count_prior(ks.len() as int, |j: int| ks[j].0 == rule)
}

/// When the exact fold folds, its table is honest and dense: every folded text recurs (at least
/// two findings carry its rule and text), every key is referenced by some finding, and a rule's
/// keys are `rule`, `rule#2`, … up to its number of folded texts, each slot used once.
pub proof fn law_exact_keys_recur_are_referenced_and_dense(
    rules: Seq<Option<String>>,
    msgs: Seq<Option<String>>,
    out_msgs: Seq<Option<String>>,
    out_refs: Seq<Option<String>>,
    table: Option<Vec<(String, String)>>,
)
    requires
        rules.len() == msgs.len(),
        exact_stage(rules, msgs, out_msgs, out_refs, table),
        table is Some,
    ensures
        ({
            let xs = idents(rules, msgs);
            let ks = kept(xs);
            let t = table->0@;
            &&& t.len() == ks.len()
            &&& forall|q: int| 0 <= q < t.len() ==> mult(xs, (ks[q].0, (#[trigger] t[q]).1@)) >= 2
            &&& forall|q: int| 0 <= q < t.len() ==> exists|i: int| 0 <= i < rules.len() && refers(#[trigger] out_refs[i], (#[trigger] t[q]).0@)
            &&& forall|q: int|
                0 <= q < t.len() ==> (#[trigger] t[q]).0@ == key_name(ks[q].0, slot_of(ks, q)) && 1 <= slot_of(ks, q) <= rule_texts(ks, ks[q].0)
            &&& forall|q1: int, q2: int|
                0 <= q1 < q2 < t.len() && ks[q1].0 == ks[q2].0 ==> slot_of(ks, q1) < slot_of(ks, q2)
        }),
{
    let xs = idents(rules, msgs);
    let cs = cands(xs);
    let ks = kept(xs);
    let t = table->0@;
    assert(exact_folds(xs));
    lemma_cands(xs, xs.len() as int);
    lemma_kept(xs, cs, cs.len() as int);
    assert forall|q: int| 0 <= q < t.len() implies mult(xs, (ks[q].0, (#[trigger] t[q]).1@)) >= 2 by {
        let j = choose|j: int| 0 <= j < cs.len() && cs[j] == ks[q];
        assert(mult(xs, cs[j]) >= 2);
    }
    assert forall|q: int| 0 <= q < t.len() implies exists|i: int| 0 <= i < rules.len() && refers(#[trigger] out_refs[i], (#[trigger] t[q]).0@) by {
        let j = choose|j: int| 0 <= j < cs.len() && cs[j] == ks[q];
        assert(mult(xs, ks[q]) >= 2);
        lemma_count_witness(xs.len() as int, |j: int| xs[j] == Some(ks[q]));
        let i = choose|i: int| 0 <= i < xs.len() && xs[i] == Some(ks[q]);
        assert(ks.contains(xs[i]->0));
        let q2 = choose|q2: int|
            0 <= q2 < ks.len() && ks[q2] == xs[i]->0 && ov(out_msgs[i]) == Some(pointer_text(final_key(ks, q2))) && ov(out_refs[i]) == Some(
                final_key(ks, q2),
            );
        assert(q2 == q);
        assert(refers(out_refs[i], t[q].0@));
    }
    assert forall|q: int| 0 <= q < t.len() implies (#[trigger] t[q]).0@ == key_name(ks[q].0, slot_of(ks, q)) && 1 <= slot_of(ks, q) <= rule_texts(ks, ks[q].0) by {
        let r = ks[q].0;
        assert(table->0@[q].0@ == final_key(ks, q));
        let p = |j: int| ks[j].0 == r;
        assert(p =~= (|j: int| ks[j].0 == ks[q].0));
        lemma_count_more(q, ks.len() as int, p);
    }
    assert forall|q1: int, q2: int| 0 <= q1 < q2 < t.len() && ks[q1].0 == ks[q2].0 implies slot_of(ks, q1) < slot_of(ks, q2) by {
        let r = ks[q1].0;
        let p = |j: int| ks[j].0 == r;
        assert(p =~= (|j: int| ks[j].0 == ks[q1].0));
        assert(p =~= (|j: int| ks[j].0 == ks[q2].0));
        lemma_count_more(q1, q2, p);
    }
}


/// What a `ruleMessages` table reads: each key with its text.
pub open spec fn messages_view(t: Option<Vec<(String, String)>>) -> Option<Seq<(Seq<char>, Seq<char>)>> {
    match t {
        Some(v) => Some(v@.map_values(|e: (String, String)| (e.0@, e.1@))),
        None => None,
    }
}

/// The exact fold is determined by what its inputs read: two results for rule ids and messages
/// that read the same carry the same messages, the same references and the same table.
pub proof fn law_exact_stage_is_determined(
    r1: Seq<Option<String>>,
    m1: Seq<Option<String>>,
    o1: Seq<Option<String>>,
    f1: Seq<Option<String>>,
    t1: Option<Vec<(String, String)>>,
    r2: Seq<Option<String>>,
    m2: Seq<Option<String>>,
    o2: Seq<Option<String>>,
    f2: Seq<Option<String>>,
    t2: Option<Vec<(String, String)>>,
)
    requires
        r1.len() == m1.len(),
        same_texts(r1, r2),
        same_texts(m1, m2),
        exact_stage(r1, m1, o1, f1, t1),
        exact_stage(r2, m2, o2, f2, t2),
    ensures
        same_texts(o1, o2),
        same_texts(f1, f2),
        messages_view(t1) == messages_view(t2),
{
    let xs = idents(r1, m1);
    assert(xs =~= idents(r2, m2)) by {
        assert forall|i: int| 0 <= i < xs.len() implies xs[i] == idents(r2, m2)[i] by {
            assert(ov(r1[i]) == ov(r2[i]));
            assert(ov(m1[i]) == ov(m2[i]));
        }
    }
    let ks = kept(xs);
    lemma_cands(xs, xs.len() as int);
    lemma_kept(xs, cands(xs), cands(xs).len() as int);
    assert forall|i: int| 0 <= i < r1.len() implies ov(#[trigger] o1[i]) == ov(o2[i]) && ov(f1[i]) == ov(f2[i]) by {
        if exact_folds(xs) && xs[i] is Some && ks.contains(xs[i]->0) {
            let q1 = choose|q: int|
                0 <= q < ks.len() && ks[q] == xs[i]->0 && ov(o1[i]) == Some(pointer_text(final_key(ks, q))) && ov(f1[i])
                    == Some(final_key(ks, q));
            let q2 = choose|q: int|
                0 <= q < ks.len() && ks[q] == xs[i]->0 && ov(o2[i]) == Some(pointer_text(final_key(ks, q))) && ov(f2[i])
                    == Some(final_key(ks, q));
            assert(q1 == q2);
        }
    }
    assert forall|i: int| 0 <= i < f1.len() implies ov(#[trigger] f1[i]) == ov(f2[i]) by {
        assert(ov(o1[i]) == ov(o2[i]));
    }
    if exact_folds(xs) {
        let v1 = t1->0@;
        let v2 = t2->0@;
        assert(messages_view(t1)->0 =~= messages_view(t2)->0) by {
            assert forall|q: int| 0 <= q < v1.len() implies messages_view(t1)->0[q] == messages_view(t2)->0[q] by {
                assert(v1[q].0@ == final_key(ks, q) && v1[q].1@ == ks[q].1);
                assert(v2[q].0@ == final_key(ks, q) && v2[q].1@ == ks[q].1);
            }
        }
    }
}

} // verus!
