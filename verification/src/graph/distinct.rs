//! First-appearance deduplication, stated once: the distinct values of a sequence in the order they
//! first occur. Counts of distinct files, boxes and endpoints are lengths of such lists.
use vstd::prelude::*;

use crate::output::rule_prose::template::strs;
use crate::sort::{sort_ranked, strictly_sorted, Ranked};
use crate::text::{lemma_lex_asym, lemma_lex_irreflexive, lemma_lex_total, lemma_lex_trans, lex_lt, order_str, owned, str_eq, Cmp};

verus! {

broadcast use vstd::seq_lib::group_seq_properties;

/// The distinct values of `s`, in order of first appearance.
pub open spec fn uniq<A>(s: Seq<A>) -> Seq<A>
    decreases s.len(),
{
    if s.len() == 0 {
        Seq::empty()
    } else {
        let r = uniq(s.drop_last());
        if r.contains(s.last()) {
            r
        } else {
            r.push(s.last())
        }
    }
}

pub proof fn lemma_uniq_push<A>(s: Seq<A>, x: A)
    ensures
        uniq(s.push(x)) == if uniq(s).contains(x) {
            uniq(s)
        } else {
            uniq(s).push(x)
        },
{
    assert(s.push(x).drop_last() =~= s);
}

/// A value occurs in `uniq(s)` exactly when it occurs in `s`, and `uniq(s)` repeats nothing.
pub proof fn lemma_uniq<A>(s: Seq<A>)
    ensures
        forall|x: A| uniq(s).contains(x) <==> s.contains(x),
        uniq(s).no_duplicates(),
    decreases s.len(),
{
    if s.len() > 0 {
        lemma_uniq(s.drop_last());
        assert(s =~= s.drop_last().push(s.last()));
        assert forall|x: A| uniq(s).contains(x) <==> s.contains(x) by {
            if s.contains(x) && !s.drop_last().contains(x) {
                assert(x == s.last());
            }
            if s.drop_last().contains(x) {
                let i = choose|i: int| 0 <= i < s.drop_last().len() && s.drop_last()[i] == x;
                assert(s[i] == x);
            }
        }
    }
}

/// Appends `s` to the distinct texts `v` unless already there.
pub fn add_text(v: &mut Vec<String>, s: &str)
    ensures
        strs(final(v)@) == if strs(old(v)@).contains(s@) {
            strs(old(v)@)
        } else {
            strs(old(v)@).push(s@)
        },
{
    let mut i: usize = 0;
    while i < v.len()
        invariant
            i <= v@.len(),
            forall|k: int| 0 <= k < i ==> (#[trigger] v@[k])@ != s@,
        decreases v@.len() - i,
    {
        if str_eq(v[i].as_str(), s) {
            proof {
                assert(strs(v@)[i as int] == s@);
            }
            return;
        }
        i = i + 1;
    }
    let ghost before = v@;
    proof {
        assert(!strs(before).contains(s@)) by {
            if strs(before).contains(s@) {
                let k = choose|k: int| 0 <= k < strs(before).len() && strs(before)[k] == s@;
                assert(before[k]@ == s@);
            }
        }
    }
    v.push(owned(s));
    proof {
        assert(strs(v@) =~= strs(before).push(s@));
    }
}

/// A text in the text order.
pub struct Text {
    pub text: String,
}

impl Ranked for Text {
    open spec fn before(self, other: Self) -> bool {
        lex_lt(self.text@, other.text@)
    }

    open spec fn ties(self, other: Self) -> bool {
        self.text@ == other.text@
    }

    fn is_before(&self, other: &Self) -> (r: bool) {
        order_str(self.text.as_str(), other.text.as_str()) == Cmp::Less
    }

    proof fn lemma_order(a: Self, b: Self, c: Self) {
        lemma_lex_irreflexive(a.text@);
        lemma_lex_total(a.text@, b.text@);
        if lex_lt(a.text@, b.text@) && lex_lt(b.text@, c.text@) {
            lemma_lex_trans(a.text@, b.text@, c.text@);
        }
    }
}

/// The views of a list of texts.
pub open spec fn texts(v: Seq<Text>) -> Seq<Seq<char>> {
    v.map_values(|t: Text| t.text@)
}

/// The distinct texts of `v`, sorted: each text of `v` once, nothing else, in the text order.
pub fn sorted_texts(v: &Vec<String>) -> (r: Vec<Text>)
    ensures
        strictly_sorted(r@),
        forall|s: Seq<char>| texts(r@).contains(s) <==> strs(v@).contains(s),
{
    let mut d: Vec<String> = Vec::new();
    let mut i: usize = 0;
    while i < v.len()
        invariant
            i <= v@.len(),
            strs(d@) == uniq(strs(v@.take(i as int))),
        decreases v@.len() - i,
    {
        proof {
            assert(strs(v@.take(i + 1)) =~= strs(v@.take(i as int)).push(v@[i as int]@));
            lemma_uniq_push(strs(v@.take(i as int)), v@[i as int]@);
        }
        add_text(&mut d, v[i].as_str());
        i = i + 1;
    }
    proof {
        assert(v@.take(v@.len() as int) =~= v@);
        lemma_uniq(strs(v@));
    }
    let mut rows: Vec<Text> = Vec::new();
    let mut j: usize = 0;
    while j < d.len()
        invariant
            j <= d@.len(),
            texts(rows@) == strs(d@).take(j as int),
        decreases d@.len() - j,
    {
        let ghost before = rows@;
        let t = Text { text: owned(d[j].as_str()) };
        let ghost tv = t.text@;
        rows.push(t);
        proof {
            assert(texts(rows@) =~= texts(before).push(tv));
            assert(strs(d@).take(j + 1) =~= strs(d@).take(j as int).push(d@[j as int]@));
            assert(texts(rows@) =~= strs(d@).take(j + 1));
        }
        j = j + 1;
    }
    proof {
        assert(strs(d@).take(d@.len() as int) =~= strs(d@));
        let t = texts(rows@);
        assert forall|a: int, b: int| 0 <= a < rows@.len() && 0 <= b < rows@.len() && a != b implies !(#[trigger] rows@[a]).ties(#[trigger] rows@[b]) by {
            assert(t[a] == rows@[a].text@ && t[b] == rows@[b].text@);
        }
    }
    let ghost m = rows@;
    let sorted = sort_ranked(rows);
    proof {
        let s = sorted@;
        assert forall|x: Seq<char>| texts(s).contains(x) <==> texts(m).contains(x) by {
            if texts(s).contains(x) {
                let i = choose|i: int| 0 <= i < texts(s).len() && texts(s)[i] == x;
                assert(s.contains(s[i]));
                vstd::seq_lib::to_multiset_contains(s, s[i]);
                vstd::seq_lib::to_multiset_contains(m, s[i]);
                let k = choose|k: int| 0 <= k < m.len() && m[k] == s[i];
                assert(texts(m)[k] == x);
            }
            if texts(m).contains(x) {
                let k = choose|k: int| 0 <= k < texts(m).len() && texts(m)[k] == x;
                assert(m.contains(m[k]));
                vstd::seq_lib::to_multiset_contains(s, m[k]);
                vstd::seq_lib::to_multiset_contains(m, m[k]);
                let i = choose|i: int| 0 <= i < s.len() && s[i] == m[k];
                assert(texts(s)[i] == x);
            }
        }
    }
    sorted
}

/// Two strictly sorted text lists holding the same texts are the same list: the sorted order of a
/// set of texts is unique.
pub proof fn lemma_sorted_texts_unique(a: Seq<Text>, b: Seq<Text>)
    requires
        strictly_sorted(a),
        strictly_sorted(b),
        forall|x: Seq<char>| texts(a).contains(x) <==> texts(b).contains(x),
    ensures
        texts(a) == texts(b),
    decreases a.len(),
{
    if a.len() == 0 {
        if b.len() > 0 {
            assert(texts(b).contains(texts(b)[0]));
        }
        assert(texts(a) =~= texts(b));
    } else {
        let x = a[0].text@;
        assert(texts(a)[0] == x);
        assert(texts(b).contains(x));
        let j = choose|j: int| 0 <= j < texts(b).len() && texts(b)[j] == x;
        assert(b.len() > 0);
        let y = b[0].text@;
        assert(texts(b)[0] == y);
        assert(texts(a).contains(y));
        let i = choose|i: int| 0 <= i < texts(a).len() && texts(a)[i] == y;
        if j > 0 && i > 0 {
            assert(b[0].before(b[j]));
            assert(a[0].before(a[i]));
            lemma_lex_asym(x, y);
        }
        assert(x == y);
        let a1 = a.drop_first();
        let b1 = b.drop_first();
        assert(texts(a1) =~= texts(a).drop_first());
        assert(texts(b1) =~= texts(b).drop_first());
        assert forall|z: Seq<char>| texts(a1).contains(z) <==> texts(b1).contains(z) by {
            if texts(a1).contains(z) {
                let k = choose|k: int| 0 <= k < texts(a1).len() && texts(a1)[k] == z;
                assert(texts(a)[k + 1] == z);
                assert(a[0].before(a[k + 1]));
                lemma_lex_irreflexive(x);
                assert(texts(a).contains(z));
                let m = choose|m: int| 0 <= m < texts(b).len() && texts(b)[m] == z;
                assert(m != 0);
                assert(texts(b1)[m - 1] == z);
            }
            if texts(b1).contains(z) {
                let k = choose|k: int| 0 <= k < texts(b1).len() && texts(b1)[k] == z;
                assert(texts(b)[k + 1] == z);
                assert(b[0].before(b[k + 1]));
                lemma_lex_irreflexive(y);
                assert(texts(b).contains(z));
                let m = choose|m: int| 0 <= m < texts(a).len() && texts(a)[m] == z;
                assert(m != 0);
                assert(texts(a1)[m - 1] == z);
            }
        }
        lemma_sorted_texts_unique(a1, b1);
        assert(texts(a).len() == texts(b).len());
        assert forall|k: int| 0 <= k < texts(a).len() implies texts(a)[k] == texts(b)[k] by {
            if k > 0 {
                assert(texts(a)[k] == texts(a1)[k - 1]);
                assert(texts(b)[k] == texts(b1)[k - 1]);
            }
        }
        assert(texts(a) =~= texts(b));
    }
}

} // verus!
