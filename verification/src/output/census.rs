//! Keyed counts: how many times each distinct text occurs in a list, reported once per text in
//! ascending text order — the shape `bySeverity`, `byRule` and the directory fold all take.
use vstd::prelude::*;

use crate::sort::{sort_ranked, strictly_sorted, Ranked};
use crate::text::{lemma_lex_asym, lemma_lex_irreflexive, lemma_lex_total, lemma_lex_trans, lex_lt, order_str, str_eq, Cmp};

verus! {

broadcast use {vstd::seq_lib::group_seq_properties, vstd::seq_lib::seq_to_set_is_finite};

/// How many entries of `ks` equal `k`.
pub open spec fn tally(ks: Seq<Seq<char>>, k: Seq<char>) -> nat
    decreases ks.len(),
{
    if ks.len() == 0 {
        0
    } else {
        tally(ks.drop_last(), k) + if ks.last() == k {
            1nat
        } else {
            0nat
        }
    }
}

/// One distinct text and how many times it occurred.
#[derive(Clone)]
pub struct KeyCount {
    pub key: String,
    pub count: usize,
}

impl Ranked for KeyCount {
    open spec fn before(self, other: Self) -> bool {
        lex_lt(self.key@, other.key@)
    }

    open spec fn ties(self, other: Self) -> bool {
        self.key@ == other.key@
    }

    fn is_before(&self, other: &Self) -> (r: bool) {
        order_str(self.key.as_str(), other.key.as_str()) == Cmp::Less
    }

    proof fn lemma_order(a: Self, b: Self, c: Self) {
        lemma_lex_irreflexive(a.key@);
        lemma_lex_total(a.key@, b.key@);
        if lex_lt(a.key@, b.key@) && lex_lt(b.key@, c.key@) {
            lemma_lex_trans(a.key@, b.key@, c.key@);
        }
    }
}

/// `out` reports exactly the distinct texts of `ks`, each with its number of occurrences, in
/// ascending text order.
pub open spec fn is_census(ks: Seq<Seq<char>>, out: Seq<KeyCount>) -> bool {
    &&& strictly_sorted(out)
    &&& forall|i: int| 0 <= i < out.len() ==> (#[trigger] out[i]).count == tally(ks, out[i].key@)
        && out[i].count > 0
    &&& forall|j: int| 0 <= j < ks.len() ==> exists|i: int| 0 <= i < out.len() && (#[trigger] out[i]).key@ == #[trigger] ks[j]
}

pub proof fn lemma_tally_push(ks: Seq<Seq<char>>, x: Seq<char>, k: Seq<char>)
    ensures
        tally(ks.push(x), k) == tally(ks, k) + if x == k {
            1nat
        } else {
            0nat
        },
{
    assert(ks.push(x).drop_last() =~= ks);
}

pub proof fn lemma_tally_le(ks: Seq<Seq<char>>, k: Seq<char>)
    ensures
        tally(ks, k) <= ks.len(),
    decreases ks.len(),
{
    if ks.len() > 0 {
        lemma_tally_le(ks.drop_last(), k);
    }
}

pub proof fn lemma_tally_witness(ks: Seq<Seq<char>>, k: Seq<char>) -> (m: int)
    requires
        tally(ks, k) > 0,
    ensures
        0 <= m < ks.len(),
        ks[m] == k,
    decreases ks.len(),
{
    if ks.last() == k {
        ks.len() - 1
    } else {
        lemma_tally_witness(ks.drop_last(), k)
    }
}

/// Whether some entry of `out` has key `k`.
pub open spec fn has_key(out: Seq<KeyCount>, k: Seq<char>) -> bool {
    exists|i: int| 0 <= i < out.len() && (#[trigger] out[i]).key@ == k
}

/// Two key-sorted lists holding the same keys hold them at the same positions.
proof fn lemma_sorted_keys_equal(a: Seq<KeyCount>, b: Seq<KeyCount>)
    requires
        strictly_sorted(a),
        strictly_sorted(b),
        forall|k: Seq<char>| has_key(a, k) <==> has_key(b, k),
    ensures
        a.len() == b.len(),
        forall|i: int| 0 <= i < a.len() ==> (#[trigger] a[i]).key@ == b[i].key@,
    decreases a.len(),
{
    if a.len() == 0 {
        if b.len() > 0 {
            assert(has_key(b, b[0].key@));
        }
    } else if b.len() == 0 {
        assert(has_key(a, a[0].key@));
    } else {
        assert(has_key(a, a[0].key@));
        assert(has_key(b, b[0].key@));
        let j = choose|j: int| 0 <= j < b.len() && (#[trigger] b[j]).key@ == a[0].key@;
        let i = choose|i: int| 0 <= i < a.len() && (#[trigger] a[i]).key@ == b[0].key@;
        lemma_lex_irreflexive(a[0].key@);
        if j > 0 {
            assert(b[0].before(b[j]));
            if i > 0 {
                assert(a[0].before(a[i]));
                lemma_lex_asym(a[0].key@, b[0].key@);
            }
        }
        assert(a[0].key@ == b[0].key@);
        let a1 = a.drop_first();
        let b1 = b.drop_first();
        assert forall|k: Seq<char>| has_key(a1, k) <==> has_key(b1, k) by {
            if has_key(a1, k) {
                let p = choose|p: int| 0 <= p < a1.len() && (#[trigger] a1[p]).key@ == k;
                assert(a[p + 1].key@ == k);
                assert(has_key(a, k));
                let r = choose|r: int| 0 <= r < b.len() && (#[trigger] b[r]).key@ == k;
                assert(a[0].before(a[p + 1]));
                if r == 0 {
                    lemma_lex_irreflexive(k);
                }
                assert(b1[r - 1].key@ == k);
            }
            if has_key(b1, k) {
                let p = choose|p: int| 0 <= p < b1.len() && (#[trigger] b1[p]).key@ == k;
                assert(b[p + 1].key@ == k);
                assert(has_key(b, k));
                let r = choose|r: int| 0 <= r < a.len() && (#[trigger] a[r]).key@ == k;
                assert(b[0].before(b[p + 1]));
                if r == 0 {
                    lemma_lex_irreflexive(k);
                }
                assert(a1[r - 1].key@ == k);
            }
        }
        lemma_sorted_keys_equal(a1, b1);
        assert forall|i: int| 0 <= i < a.len() implies (#[trigger] a[i]).key@ == b[i].key@ by {
            if i > 0 {
                assert(a1[i - 1].key@ == b1[i - 1].key@);
            }
        }
    }
}

/// A census is determined by the keys it counts: any two censuses of one key list hold the same
/// keys with the same counts at the same positions.
pub proof fn law_census_is_unique(ks: Seq<Seq<char>>, a: Seq<KeyCount>, b: Seq<KeyCount>)
    requires
        is_census(ks, a),
        is_census(ks, b),
    ensures
        a.len() == b.len(),
        forall|i: int| 0 <= i < a.len() ==> (#[trigger] a[i]).key@ == b[i].key@ && a[i].count == b[i].count,
{
    assert forall|k: Seq<char>| has_key(a, k) <==> has_key(b, k) by {
        if has_key(a, k) {
            let i = choose|i: int| 0 <= i < a.len() && (#[trigger] a[i]).key@ == k;
            let m = lemma_tally_witness(ks, k);
            assert(ks[m] == k);
            assert(exists|r: int| 0 <= r < b.len() && (#[trigger] b[r]).key@ == ks[m]);
        }
        if has_key(b, k) {
            let i = choose|i: int| 0 <= i < b.len() && (#[trigger] b[i]).key@ == k;
            let m = lemma_tally_witness(ks, k);
            assert(ks[m] == k);
            assert(exists|r: int| 0 <= r < a.len() && (#[trigger] a[r]).key@ == ks[m]);
        }
    }
    lemma_sorted_keys_equal(a, b);
}

/// A census holds at most as many entries as the list it counts.
pub proof fn lemma_census_len_le(ks: Seq<Seq<char>>, out: Seq<KeyCount>)
    requires
        is_census(ks, out),
    ensures
        out.len() <= ks.len(),
{
    let keys = out.map_values(|c: KeyCount| c.key@);
    assert forall|i: int, j: int| 0 <= i < keys.len() && 0 <= j < keys.len() && i != j implies keys[i] != keys[j] by {
        lemma_lex_irreflexive(out[i].key@);
        if i < j {
            assert(out[i].before(out[j]));
        } else {
            assert(out[j].before(out[i]));
        }
    }
    assert(keys.no_duplicates());
    keys.unique_seq_to_set();
    assert forall|k: Seq<char>| keys.to_set().contains(k) implies ks.to_set().contains(k) by {
        let i = choose|i: int| 0 <= i < keys.len() && keys[i] == k;
        assert(out[i].count > 0);
        let m = lemma_tally_witness(ks, k);
        assert(ks.contains(k));
    }
    ks.lemma_cardinality_of_set();
    vstd::set_lib::lemma_len_subset(keys.to_set(), ks.to_set());
}

/// Every key in `ks`, counted, in ascending key order.
pub fn census(ks: &Vec<String>) -> (r: Vec<KeyCount>)
    ensures
        is_census(ks@.map_values(|s: String| s@), r@),
{
    let ghost views = ks@.map_values(|s: String| s@);
    let mut acc: Vec<KeyCount> = Vec::new();
    let mut j: usize = 0;
    while j < ks.len()
        invariant
            j <= ks@.len(),
            views == ks@.map_values(|s: String| s@),
            forall|i: int|
                0 <= i < acc@.len() ==> (#[trigger] acc@[i]).count == tally(
                    views.take(j as int),
                    acc@[i].key@,
                ) && acc@[i].count > 0,
            forall|m: int|
                0 <= m < j ==> exists|i: int|
                    0 <= i < acc@.len() && (#[trigger] acc@[i]).key@ == #[trigger] views[m],
            forall|a: int, b: int|
                0 <= a < acc@.len() && 0 <= b < acc@.len() && a != b ==> (#[trigger] acc@[a]).key@
                    != (#[trigger] acc@[b]).key@,
        decreases ks@.len() - j,
    {
        let k = &ks[j];
        proof {
            assert(views.take(j + 1) =~= views.take(j as int).push(views[j as int]));
            assert(views[j as int] == k@);
        }
        let mut p: usize = 0;
        while p < acc.len()
            invariant
                p <= acc@.len(),
                forall|i: int| 0 <= i < p ==> (#[trigger] acc@[i]).key@ != k@,
            ensures
                p <= acc@.len(),
                forall|i: int| 0 <= i < p ==> (#[trigger] acc@[i]).key@ != k@,
                p < acc@.len() ==> acc@[p as int].key@ == k@,
            decreases acc@.len() - p,
        {
            if str_eq(acc[p].key.as_str(), k.as_str()) {
                break;
            }
            p = p + 1;
        }
        let ghost old_acc = acc@;
        proof {
            lemma_tally_le(views.take(j as int), k@);
        }
        if p < acc.len() {
            let c = acc[p].count;
            let key = acc[p].key.clone();
            acc.set(p, KeyCount { key, count: c + 1 });
            proof {
                assert forall|i: int| 0 <= i < acc@.len() implies (#[trigger] acc@[i]).count == tally(
                    views.take(j + 1),
                    acc@[i].key@,
                ) && acc@[i].count > 0 by {
                    lemma_tally_push(views.take(j as int), k@, acc@[i].key@);
                }
                assert forall|m: int| 0 <= m < j + 1 implies exists|i: int|
                    0 <= i < acc@.len() && (#[trigger] acc@[i]).key@ == #[trigger] views[m] by {
                    if m == j {
                        assert(acc@[p as int].key@ == views[m]);
                    } else {
                        let i0 = choose|i: int| 0 <= i < old_acc.len() && (#[trigger] old_acc[i]).key@ == views[m];
                        assert(acc@[i0].key@ == views[m]);
                    }
                }
            }
        } else {
            proof {
                lemma_tally_le(views.take(j as int), k@);
            }
            acc.push(KeyCount { key: k.clone(), count: 1 });
            proof {
                assert forall|i: int| 0 <= i < acc@.len() implies (#[trigger] acc@[i]).count == tally(
                    views.take(j + 1),
                    acc@[i].key@,
                ) && acc@[i].count > 0 by {
                    lemma_tally_push(views.take(j as int), k@, acc@[i].key@);
                    if i == old_acc.len() && tally(views.take(j as int), k@) > 0 {
                        let m = lemma_tally_witness(views.take(j as int), k@);
                        assert(views[m] == k@);
                        let i0 = choose|i: int| 0 <= i < old_acc.len() && (#[trigger] old_acc[i]).key@ == views[m];
                        assert(old_acc[i0].key@ != k@);
                    }
                }
                assert forall|m: int| 0 <= m < j + 1 implies exists|i: int|
                    0 <= i < acc@.len() && (#[trigger] acc@[i]).key@ == #[trigger] views[m] by {
                    if m == j {
                        assert(acc@[old_acc.len() as int].key@ == views[m]);
                    } else {
                        let i0 = choose|i: int| 0 <= i < old_acc.len() && (#[trigger] old_acc[i]).key@ == views[m];
                        assert(acc@[i0].key@ == views[m]);
                    }
                }
            }
        }
        j = j + 1;
    }
    proof {
        assert(views.take(ks@.len() as int) =~= views);
    }
    let ghost unsorted = acc@;
    proof {
        assert(crate::sort::tie_free(acc@));
    }
    let sorted = sort_ranked(acc);
    proof {
        broadcast use vstd::seq_lib::group_to_multiset_ensures;

        assert forall|i: int| 0 <= i < sorted@.len() implies (#[trigger] sorted@[i]).count == tally(
            views,
            sorted@[i].key@,
        ) && sorted@[i].count > 0 by {
            assert(sorted@.to_multiset().count(sorted@[i]) > 0);
            assert(unsorted.contains(sorted@[i]));
        }
        assert forall|m: int| 0 <= m < views.len() implies exists|i: int|
            0 <= i < sorted@.len() && (#[trigger] sorted@[i]).key@ == #[trigger] views[m] by {
            let i0 = choose|i: int| 0 <= i < unsorted.len() && (#[trigger] unsorted[i]).key@ == views[m];
            assert(unsorted.to_multiset().count(unsorted[i0]) > 0);
            assert(sorted@.contains(unsorted[i0]));
        }
    }
    sorted
}

/// Removing one entry lowers its key's tally by one and leaves every other tally alone.
pub proof fn lemma_tally_remove(ks: Seq<Seq<char>>, j: int, k: Seq<char>)
    requires
        0 <= j < ks.len(),
    ensures
        tally(ks, k) == tally(ks.remove(j), k) + if ks[j] == k {
            1nat
        } else {
            0nat
        },
    decreases ks.len(),
{
    if j == ks.len() - 1 {
        assert(ks.remove(j) =~= ks.drop_last());
    } else {
        lemma_tally_remove(ks.drop_last(), j, k);
        assert(ks.remove(j).drop_last() =~= ks.drop_last().remove(j));
        assert(ks.remove(j).last() == ks.last());
    }
}

/// The tally of a key over a per-element key function does not depend on the elements' order:
/// two lists holding the same elements, each as often, tally every key alike.
pub proof fn lemma_tally_permutation<A>(xs: Seq<A>, ys: Seq<A>, f: spec_fn(A) -> Seq<char>, k: Seq<char>)
    requires
        xs.to_multiset() == ys.to_multiset(),
    ensures
        tally(xs.map_values(f), k) == tally(ys.map_values(f), k),
    decreases xs.len(),
{
    broadcast use vstd::seq_lib::group_to_multiset_ensures;
    broadcast use vstd::multiset::group_multiset_axioms;

    if xs.len() == 0 {
        assert(ys.to_multiset().len() == 0);
        assert(ys.len() == 0);
        assert(xs.map_values(f) =~= Seq::<Seq<char>>::empty());
        assert(ys.map_values(f) =~= Seq::<Seq<char>>::empty());
    } else {
        let x = xs.last();
        let rest = xs.drop_last();
        assert(xs =~= rest.push(x));
        vstd::seq_lib::to_multiset_build(rest, x);
        assert(xs.to_multiset().count(x) > 0);
        vstd::seq_lib::to_multiset_contains(ys, x);
        assert(ys.contains(x));
        let j = choose|j: int| 0 <= j < ys.len() && ys[j] == x;
        vstd::seq_lib::to_multiset_remove(ys, j);
        assert(ys.remove(j).to_multiset() =~= rest.to_multiset());
        lemma_tally_permutation(rest, ys.remove(j), f, k);
        assert(xs.map_values(f).drop_last() =~= rest.map_values(f));
        lemma_tally_remove(ys.map_values(f), j, k);
        assert(ys.map_values(f).remove(j) =~= ys.remove(j).map_values(f));
    }
}

/// Two keyed lists that tally every key alike have the same census.
pub proof fn law_census_follows_tallies(ks: Seq<Seq<char>>, ls: Seq<Seq<char>>, a: Seq<KeyCount>, b: Seq<KeyCount>)
    requires
        forall|k: Seq<char>| tally(ks, k) == tally(ls, k),
        is_census(ks, a),
        is_census(ls, b),
    ensures
        a.len() == b.len(),
        forall|i: int| 0 <= i < a.len() ==> (#[trigger] a[i]).key@ == b[i].key@ && a[i].count == b[i].count,
{
    assert forall|i: int| 0 <= i < b.len() implies (#[trigger] b[i]).count == tally(ks, b[i].key@) && b[i].count > 0 by {
        assert(tally(ks, b[i].key@) == tally(ls, b[i].key@));
    }
    assert forall|j: int| 0 <= j < ks.len() implies exists|i: int| 0 <= i < b.len() && (#[trigger] b[i]).key@ == #[trigger] ks[j] by {
        assert(tally(ks, ks[j]) > 0) by {
            lemma_tally_pos(ks, j);
        }
        let m = lemma_tally_witness(ls, ks[j]);
        assert(ls[m] == ks[j]);
        assert(exists|i: int| 0 <= i < b.len() && (#[trigger] b[i]).key@ == #[trigger] ls[m]);
        let i = choose|i: int| 0 <= i < b.len() && (#[trigger] b[i]).key@ == #[trigger] ls[m];
        assert(b[i].key@ == ks[j]);
    }
    assert(is_census(ks, b));
    law_census_is_unique(ks, a, b);
}

proof fn lemma_tally_pos(ks: Seq<Seq<char>>, j: int)
    requires
        0 <= j < ks.len(),
    ensures
        tally(ks, ks[j]) > 0,
{
    lemma_tally_remove(ks, j, ks[j]);
}

} // verus!
