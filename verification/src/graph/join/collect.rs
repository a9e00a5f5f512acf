//! Reading the join into relations: call sites collapse into one relation per distinct identity,
//! `--scope` keeps the relations with a field under the prefix, `--top` caps what is drawn per
//! bucket, and every bucket publishes drawn/inScope/total plus the sites they aggregate.
use vstd::prelude::*;

use super::model::{BucketItem, JoinEdge, NodeKey, Role};
use crate::output::finding::text_or_empty;
use crate::output::rule_prose::template::strs;
use crate::output::rule_prose::{clone_text, ov};
use crate::text::{is_prefix, owned, push_char, push_str, starts_with, str_eq};

verus! {

broadcast use vstd::seq_lib::group_seq_properties;

/// A census entry as the contracts read it: the relation id and whether it is in scope, or nothing
/// for a row that cannot be labelled.
pub open spec fn ent(e: Option<(String, bool)>) -> Option<(Seq<char>, bool)> {
    match e {
        Some((s, b)) => Some((s@, b)),
        None => None,
    }
}

/// Every entry of `es` as the contracts read it.
pub open spec fn ents(es: Seq<Option<(String, bool)>>) -> Seq<Option<(Seq<char>, bool)>> {
    es.map_values(|e: Option<(String, bool)>| ent(e))
}

/// The ids of the labelable entries among the first `k`, each once, in order of first appearance.
pub open spec fn first_ids(es: Seq<Option<(Seq<char>, bool)>>, k: int) -> Seq<Seq<char>>
    decreases k,
{
    if k <= 0 {
        Seq::empty()
    } else {
        let r = first_ids(es, k - 1);
        match es[k - 1] {
            Some((id, _)) => if r.contains(id) {
                r
            } else {
                r.push(id)
            },
            None => r,
        }
    }
}

/// The id an entry carries (empty for an unlabelable one).
pub open spec fn entry_id(e: Option<(Seq<char>, bool)>) -> Seq<char> {
    match e {
        Some((s, _)) => s,
        None => Seq::empty(),
    }
}

/// An in-scope entry carrying id `id`.
pub open spec fn in_scope_with(e: Option<(Seq<char>, bool)>, id: Seq<char>) -> bool {
    match e {
        Some((x, true)) => x == id,
        _ => false,
    }
}

/// An in-scope entry.
pub open spec fn is_in_scope(e: Option<(Seq<char>, bool)>) -> bool {
    match e {
        Some((_, true)) => true,
        _ => false,
    }
}

/// An in-scope entry before `i` carries id `id`.
pub open spec fn seen_in_scope(es: Seq<Option<(Seq<char>, bool)>>, i: int, id: Seq<char>) -> bool {
    exists|j: int| 0 <= j < i && in_scope_with(#[trigger] es[j], id)
}

/// The entries among the first `k` that are in scope and whose id no earlier in-scope entry
/// carried: the relations kept, in order.
pub open spec fn kept_upto(es: Seq<Option<(Seq<char>, bool)>>, k: int) -> Seq<int>
    decreases k,
{
    if k <= 0 {
        Seq::empty()
    } else {
        let r = kept_upto(es, k - 1);
        match es[k - 1] {
            Some((id, true)) => if seen_in_scope(es, k - 1, id) {
                r
            } else {
                r.push(k - 1)
            },
            _ => r,
        }
    }
}

/// How many of the first `k` entries are unlabelable.
pub open spec fn unlabelable_upto(es: Seq<Option<(Seq<char>, bool)>>, k: int) -> nat
    decreases k,
{
    if k <= 0 {
        0
    } else {
        unlabelable_upto(es, k - 1) + if es[k - 1] is None {
            1nat
        } else {
            0nat
        }
    }
}

/// One bucket's census: its name, the call sites it held, its distinct relations, those in
/// scope, those drawn, and the rows with nothing to label them by.
pub struct BucketCount {
    pub bucket: &'static str,
    pub rows: usize,
    pub total: usize,
    pub in_scope: usize,
    pub shown: usize,
    pub unlabelable: usize,
}

/// `c` is the census of entries `es` of bucket `name` under cap `top`.
pub open spec fn count_is(name: Seq<char>, es: Seq<Option<(Seq<char>, bool)>>, top: usize, c: BucketCount) -> bool {
    let kept = kept_upto(es, es.len() as int);
    &&& c.bucket@ == name
    &&& c.rows == es.len()
    &&& c.total == first_ids(es, es.len() as int).len()
    &&& c.in_scope == kept.len()
    &&& c.shown == if kept.len() < top {
        kept.len()
    } else {
        top as nat
    }
    &&& c.unlabelable == unlabelable_upto(es, es.len() as int)
    &&& c.in_scope <= c.total
}

pub proof fn lemma_kept_ids(es: Seq<Option<(Seq<char>, bool)>>, k: int)
    requires
        0 <= k <= es.len(),
    ensures
        forall|q: int|
            0 <= q < kept_upto(es, k).len() ==> 0 <= #[trigger] kept_upto(es, k)[q] < k && es[kept_upto(
                es,
                k,
            )[q]] matches Some((_, true)),
        forall|a: int, b: int|
            0 <= a < b < kept_upto(es, k).len() ==> entry_id(es[kept_upto(es, k)[a]]) != entry_id(es[kept_upto(
                es,
                k,
            )[b]]) && kept_upto(es, k)[a] < kept_upto(es, k)[b],
        forall|q: int|
            0 <= q < kept_upto(es, k).len() ==> first_ids(es, k).contains(
                entry_id(es[#[trigger] kept_upto(es, k)[q]]),
            ),
        first_ids(es, k).no_duplicates(),
    decreases k,
{
    if k > 0 {
        lemma_kept_ids(es, k - 1);
        let r = kept_upto(es, k - 1);
        let f = first_ids(es, k - 1);
        match es[k - 1] {
            Some((id, inside)) => {
                if inside && !seen_in_scope(es, k - 1, id) {
                    assert forall|a: int| 0 <= a < r.len() implies entry_id(es[r[a]]) != id by {
                        assert(is_in_scope(es[r[a]]));
                        if entry_id(es[r[a]]) == id {
                            assert(seen_in_scope(es, k - 1, id));
                        }
                    }
                }
            },
            None => {},
        }
    }
}

/// The ids of the kept relations.
pub open spec fn kept_ids(es: Seq<Option<(Seq<char>, bool)>>) -> Seq<Seq<char>> {
    Seq::new(kept_upto(es, es.len() as int).len(), |q: int| entry_id(es[kept_upto(es, es.len() as int)[q]]))
}

proof fn lemma_in_scope_le_total(es: Seq<Option<(Seq<char>, bool)>>)
    ensures
        kept_upto(es, es.len() as int).len() <= first_ids(es, es.len() as int).len(),
{
    lemma_kept_ids(es, es.len() as int);
    let ks = kept_ids(es);
    let fs = first_ids(es, es.len() as int);
    assert(ks.no_duplicates());
    ks.unique_seq_to_set();
    fs.unique_seq_to_set();
    assert(ks.to_set().subset_of(fs.to_set()));
    vstd::set_lib::lemma_len_subset(ks.to_set(), fs.to_set());
}

/// The census of `es` and the entries kept, in order.
pub fn distinct(name: &'static str, es: &Vec<Option<(String, bool)>>, top: usize) -> (r: (BucketCount, Vec<usize>))
    ensures
        count_is(name@, ents(es@), top, r.0),
        r.1@.len() == kept_upto(ents(es@), ents(es@).len() as int).len(),
        forall|q: int| 0 <= q < r.1@.len() ==> r.1@[q] as int == kept_upto(ents(es@), ents(es@).len() as int)[q],
{
    let mut ids: Vec<String> = Vec::new();
    let mut kept: Vec<usize> = Vec::new();
    let mut unl: usize = 0;
    let mut i: usize = 0;
    while i < es.len()
        invariant
            i <= ents(es@).len(),
            strs(ids@) == first_ids(ents(es@), i as int),
            kept@.len() == kept_upto(ents(es@), i as int).len(),
            forall|q: int| 0 <= q < kept@.len() ==> kept@[q] as int == kept_upto(ents(es@), i as int)[q],
            unl == unlabelable_upto(ents(es@), i as int),
            unl <= i,
        decreases ents(es@).len() - i,
    {
        proof {
            lemma_kept_ids(ents(es@), i as int);
        }
        proof {
            assert(ents(es@)[i as int] == ent(es@[i as int]));
        }
        match &es[i] {
            Some((id, inside)) => {
                let mut j: usize = 0;
                let mut found = false;
                while j < ids.len()
                    invariant
                        j <= ids@.len(),
                        found == exists|q: int| 0 <= q < j && (#[trigger] ids@[q])@ == id@,
                    decreases ids@.len() - j,
                {
                    if str_eq(ids[j].as_str(), id.as_str()) {
                        found = true;
                    }
                    j = j + 1;
                }
                let ghost before = ids@;
                proof {
                    assert(found == strs(before).contains(id@)) by {
                        if found {
                            let q = choose|q: int| 0 <= q < before.len() && (#[trigger] before[q])@ == id@;
                            assert(strs(before)[q] == id@);
                        }
                        if strs(before).contains(id@) {
                            let q = choose|q: int| 0 <= q < before.len() && #[trigger] strs(before)[q] == id@;
                            assert(before[q]@ == id@);
                        }
                    }
                }
                if !found {
                    ids.push(id.clone());
                    proof {
                        assert(strs(ids@) =~= strs(before).push(id@));
                    }
                }
                if *inside {
                    let mut q: usize = 0;
                    let mut seen = false;
                    while q < kept.len()
                        invariant
                            i < ents(es@).len(),
                            q <= kept@.len(),
                            kept@.len() == kept_upto(ents(es@), i as int).len(),
                            forall|t: int| 0 <= t < kept@.len() ==> kept@[t] as int == kept_upto(ents(es@), i as int)[t],
                            forall|t: int|
                                0 <= t < kept_upto(ents(es@), i as int).len() ==> 0 <= #[trigger] kept_upto(ents(es@), i as int)[t]
                                    < i && is_in_scope(ents(es@)[kept_upto(ents(es@), i as int)[t]]),
                            seen == exists|t: int| 0 <= t < q && entry_id(ents(es@)[#[trigger] kept@[t] as int]) == id@,
                        decreases kept@.len() - q,
                    {
                        let k = kept[q];
                        match &es[k] {
                            Some((other, _)) => {
                                if str_eq(other.as_str(), id.as_str()) {
                                    seen = true;
                                }
                            },
                            None => {},
                        }
                        q = q + 1;
                    }
                    proof {
                        let r = kept_upto(ents(es@), i as int);
                        if seen_in_scope(ents(es@), i as int, id@) {
                            let j0 = choose|j0: int| 0 <= j0 < i && in_scope_with(#[trigger] ents(es@)[j0], id@);
                            lemma_first_in_scope(ents(es@), i as int, j0);
                            let t = choose|t: int| 0 <= t < r.len() && entry_id(ents(es@)[#[trigger] r[t]]) == id@;
                            assert(entry_id(ents(es@)[kept@[t] as int]) == id@);
                        }
                        if seen {
                            let t = choose|t: int| 0 <= t < kept@.len() && entry_id(ents(es@)[#[trigger] kept@[t] as int]) == id@;
                            assert(is_in_scope(ents(es@)[r[t]]));
                            assert(seen_in_scope(ents(es@), i as int, id@));
                        }
                    }
                    if !seen {
                        kept.push(i);
                    }
                }
            },
            None => {
                unl = unl + 1;
            },
        }
        i = i + 1;
    }
    proof {
        lemma_in_scope_le_total(ents(es@));
    }
    let shown = if kept.len() < top {
        kept.len()
    } else {
        top
    };
    (BucketCount { bucket: name, rows: es.len(), total: ids.len(), in_scope: kept.len(), shown, unlabelable: unl }, kept)
}

/// Every in-scope id before `i` is carried by some kept entry.
proof fn lemma_first_in_scope(es: Seq<Option<(Seq<char>, bool)>>, i: int, j0: int)
    requires
        0 <= j0 < i <= es.len(),
        is_in_scope(es[j0]),
    ensures
        exists|t: int| 0 <= t < kept_upto(es, i).len() && entry_id(es[#[trigger] kept_upto(es, i)[t]]) == entry_id(es[j0]),
    decreases i,
{
    if j0 < i - 1 {
        lemma_first_in_scope(es, i - 1, j0);
        let t = choose|t: int| 0 <= t < kept_upto(es, i - 1).len() && entry_id(es[#[trigger] kept_upto(es, i - 1)[t]]) == entry_id(es[j0]);
        assert(kept_upto(es, i)[t] == kept_upto(es, i - 1)[t]);
    } else {
        let id = entry_id(es[j0]);
        if seen_in_scope(es, i - 1, id) {
            let j1 = choose|j1: int| 0 <= j1 < i - 1 && in_scope_with(#[trigger] es[j1], id);
            lemma_first_in_scope(es, i - 1, j1);
            let t = choose|t: int| 0 <= t < kept_upto(es, i - 1).len() && entry_id(es[#[trigger] kept_upto(es, i - 1)[t]]) == entry_id(es[j1]);
            assert(kept_upto(es, i)[t] == kept_upto(es, i - 1)[t]);
        } else {
            assert(kept_upto(es, i)[kept_upto(es, i - 1).len() as int] == j0);
        }
    }
}

} // verus!
