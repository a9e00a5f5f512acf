//! The `--fold` collapse of co-change pairs: same ties, coarser endpoints. A folded edge counts the
//! file-level pairs it collapsed (a sum of commit counts would count one commit once per pair it
//! touched); a pair whose two files land in one box is internal and is dropped.
use vstd::prelude::*;

use super::{pv, pvs, Pair, PairV};
use crate::graph::distinct::{lemma_uniq, lemma_uniq_push, uniq};
use crate::graph::fold::{fold_path, unfoldable_path, Fold};
use crate::sort::{sort_ranked, strictly_sorted, tie_free, Ranked};
use crate::output::rule_prose::template::strs;
use crate::graph::distinct::add_text;
use crate::text::{lemma_lex_asym, lemma_lex_irreflexive, lemma_lex_total, lemma_lex_trans, lex_lt, order_str, owned, str_eq, Cmp};

verus! {

broadcast use vstd::seq_lib::group_seq_properties;

/// A box pair: (source, lower box, upper box).
pub type BoxKey = (Seq<char>, Seq<char>, Seq<char>);

/// The box pair a file pair folds into, its two boxes in order.
pub open spec fn box_key(fold: Fold, p: PairV) -> BoxKey {
    let fa = fold_path(fold.0, p.0);
    let fb = fold_path(fold.0, p.1);
    if lex_lt(fa, fb) {
        (p.3, fa, fb)
    } else {
        (p.3, fb, fa)
    }
}

/// The pair's two files fold into different boxes.
pub open spec fn crosses(fold: Fold, p: PairV) -> bool {
    fold_path(fold.0, p.0) != fold_path(fold.0, p.1)
}

/// The box pairs of the pairs that cross a box boundary, in order.
pub open spec fn cross_keys(fold: Fold, ps: Seq<PairV>) -> Seq<BoxKey>
    decreases ps.len(),
{
    if ps.len() == 0 {
        Seq::empty()
    } else {
        let r = cross_keys(fold, ps.drop_last());
        if crosses(fold, ps.last()) {
            r.push(box_key(fold, ps.last()))
        } else {
            r
        }
    }
}

/// How many times `k` occurs in `keys`.
pub open spec fn weight(keys: Seq<BoxKey>, k: BoxKey) -> nat
    decreases keys.len(),
{
    if keys.len() == 0 {
        0
    } else {
        weight(keys.drop_last(), k) + if keys.last() == k {
            1nat
        } else {
            0nat
        }
    }
}

/// The folded edges: each distinct box pair once, weighted by the file pairs it collapsed.
pub open spec fn boxed(fold: Fold, ps: Seq<PairV>) -> Seq<PairV> {
    let keys = cross_keys(fold, ps);
    uniq(keys).map_values(|k: BoxKey| (k.1, k.2, weight(keys, k) as u64, k.0))
}

/// Both files of every pair, in order.
pub open spec fn ends(ps: Seq<PairV>) -> Seq<Seq<char>>
    decreases ps.len(),
{
    if ps.len() == 0 {
        Seq::empty()
    } else {
        ends(ps.drop_last()).push(ps.last().0).push(ps.last().1)
    }
}

/// Both boxes of every box pair, in order.
pub open spec fn key_ends(keys: Seq<BoxKey>) -> Seq<Seq<char>>
    decreases keys.len(),
{
    if keys.len() == 0 {
        Seq::empty()
    } else {
        key_ends(keys.drop_last()).push(keys.last().1).push(keys.last().2)
    }
}

/// Every file of `ps` that folds into box `u` stands for itself.
pub open spec fn only_lone_files(fold: Fold, ps: Seq<PairV>, u: Seq<char>) -> bool {
    forall|f: Seq<char>| ends(ps).contains(f) && fold_path(fold.0, f) == u ==> unfoldable_path(fold.0, f)
}

/// How many of `us` are boxes holding only files that stand for themselves.
pub open spec fn lone_boxes(fold: Fold, ps: Seq<PairV>, us: Seq<Seq<char>>) -> nat
    decreases us.len(),
{
    if us.len() == 0 {
        0
    } else {
        lone_boxes(fold, ps, us.drop_last()) + if only_lone_files(fold, ps, us.last()) {
            1nat
        } else {
            0nat
        }
    }
}

/// The folded name of every file of `ps`, in order.
pub open spec fn folded_ends(fold: Fold, ps: Seq<PairV>) -> Seq<Seq<char>> {
    ends(ps).map_values(|f: Seq<char>| fold_path(fold.0, f))
}

/// What the collapse cost, for the fold census.
pub struct FoldCounts {
    pub file_nodes: usize,
    pub file_pairs: usize,
    pub boxes: usize,
    pub unfoldable: usize,
}

/// The folded edge order: heaviest first, then by source, then by boxes.
pub open spec fn heavier(x: PairV, y: PairV) -> bool {
    x.2 > y.2 || (x.2 == y.2 && (lex_lt(x.3, y.3) || (x.3 == y.3 && (lex_lt(x.0, y.0) || (x.0 == y.0 && lex_lt(
        x.1,
        y.1,
    ))))))
}

impl Ranked for Pair {
    open spec fn before(self, other: Self) -> bool {
        heavier(pv(self), pv(other))
    }

    open spec fn ties(self, other: Self) -> bool {
        pv(self) == pv(other)
    }

    fn is_before(&self, other: &Self) -> (r: bool) {
        if self.count != other.count {
            return self.count > other.count;
        }
        let s = order_str(self.source.as_str(), other.source.as_str());
        if s != Cmp::Equal {
            return s == Cmp::Less;
        }
        let a = order_str(self.a.as_str(), other.a.as_str());
        if a != Cmp::Equal {
            return a == Cmp::Less;
        }
        order_str(self.b.as_str(), other.b.as_str()) == Cmp::Less
    }

    proof fn lemma_order(x: Self, y: Self, z: Self) {
        lemma_lex_irreflexive(x.source@);
        lemma_lex_irreflexive(x.a@);
        lemma_lex_irreflexive(x.b@);
        lemma_lex_total(x.source@, y.source@);
        lemma_lex_total(x.a@, y.a@);
        lemma_lex_total(x.b@, y.b@);
        lemma_lex_asym(x.source@, y.source@);
        lemma_lex_asym(x.a@, y.a@);
        lemma_lex_asym(x.b@, y.b@);
        if lex_lt(x.source@, y.source@) && lex_lt(y.source@, z.source@) {
            lemma_lex_trans(x.source@, y.source@, z.source@);
        }
        if lex_lt(x.a@, y.a@) && lex_lt(y.a@, z.a@) {
            lemma_lex_trans(x.a@, y.a@, z.a@);
        }
        if lex_lt(x.b@, y.b@) && lex_lt(y.b@, z.b@) {
            lemma_lex_trans(x.b@, y.b@, z.b@);
        }
    }
}

/// Some element of `out` is `x`.
pub open spec fn holds(out: Seq<Pair>, x: PairV) -> bool {
    exists|i: int| 0 <= i < out.len() && pv(#[trigger] out[i]) == x
}

/// `out` is `b` in the folded edge order: the same edges, each once, sorted.
pub open spec fn ordered_as(b: Seq<PairV>, out: Seq<Pair>) -> bool {
    &&& strictly_sorted(out)
    &&& out.len() == b.len()
    &&& forall|i: int| 0 <= i < out.len() ==> b.contains(pv(#[trigger] out[i]))
    &&& forall|j: int| 0 <= j < b.len() ==> holds(out, #[trigger] b[j])
}

fn fold_text(fold: Fold, s: &str) -> (r: String)
    ensures
        r@ == fold_path(fold.0, s@),
{
    fold.rel(s)
}

/// The box pairs of the crossing pairs, as pairs with a zero count.
fn crossing(fold: Fold, edges: &Vec<Pair>) -> (r: Vec<Pair>)
    ensures
        r@.len() == cross_keys(fold, pvs(edges@)).len(),
        forall|i: int| 0 <= i < r@.len() ==> {
            let k = #[trigger] cross_keys(fold, pvs(edges@))[i];
            &&& r@[i].source@ == k.0
            &&& r@[i].a@ == k.1
            &&& r@[i].b@ == k.2
        },
{
    let mut out: Vec<Pair> = Vec::new();
    let mut i: usize = 0;
    while i < edges.len()
        invariant
            i <= edges@.len(),
            out@.len() == cross_keys(fold, pvs(edges@.take(i as int))).len(),
            forall|q: int| 0 <= q < out@.len() ==> {
                let k = #[trigger] cross_keys(fold, pvs(edges@.take(i as int)))[q];
                &&& out@[q].source@ == k.0
                &&& out@[q].a@ == k.1
                &&& out@[q].b@ == k.2
            },
        decreases edges@.len() - i,
    {
        let e = &edges[i];
        let fa = fold_text(fold, e.a.as_str());
        let fb = fold_text(fold, e.b.as_str());
        let ghost pre = pvs(edges@.take(i as int));
        proof {
            assert(pvs(edges@.take(i + 1)) =~= pre.push(pv(*e)));
            assert(pvs(edges@.take(i + 1)).drop_last() =~= pre);
        }
        if !str_eq(fa.as_str(), fb.as_str()) {
            let lower = order_str(fa.as_str(), fb.as_str()) == Cmp::Less;
            let k = if lower {
                Pair { a: fa, b: fb, count: 0, source: owned(e.source.as_str()) }
            } else {
                Pair { a: fb, b: fa, count: 0, source: owned(e.source.as_str()) }
            };
            out.push(k);
        }
        i = i + 1;
    }
    proof {
        assert(edges@.take(edges@.len() as int) =~= edges@);
    }
    out
}

/// How many of `keys` equal key `k`.
fn count_key(keys: &Vec<Pair>, k: &Pair, Ghost(spec): Ghost<Seq<BoxKey>>) -> (r: u64)
    requires
        keys@.len() == spec.len(),
        keys@.len() <= usize::MAX,
        forall|i: int| 0 <= i < keys@.len() ==> (#[trigger] keys@[i]).source@ == spec[i].0 && keys@[i].a@ == spec[i].1
            && keys@[i].b@ == spec[i].2,
    ensures
        r as nat == weight(spec, (k.source@, k.a@, k.b@)),
{
    let ghost kk = (k.source@, k.a@, k.b@);
    let mut n: u64 = 0;
    let mut i: usize = 0;
    while i < keys.len()
        invariant
            i <= keys@.len(),
            keys@.len() == spec.len(),
            keys@.len() <= usize::MAX,
            forall|q: int| 0 <= q < keys@.len() ==> (#[trigger] keys@[q]).source@ == spec[q].0 && keys@[q].a@ == spec[q].1
                && keys@[q].b@ == spec[q].2,
            n as nat == weight(spec.take(i as int), kk),
            kk == (k.source@, k.a@, k.b@),
            n <= i,
        decreases keys@.len() - i,
    {
        let x = &keys[i];
        proof {
            assert(spec.take(i + 1).drop_last() =~= spec.take(i as int));
            assert(spec.take(i + 1).last() == spec[i as int]);
            assert(spec[i as int] == (x.source@, x.a@, x.b@));
        }
        let same = str_eq(x.source.as_str(), k.source.as_str()) && str_eq(x.a.as_str(), k.a.as_str()) && str_eq(
            x.b.as_str(),
            k.b.as_str(),
        );
        proof {
            assert(keys@[i as int] == *x);
            assert(weight(spec.take(i + 1), kk) == weight(spec.take(i as int), kk) + if spec[i as int] == kk {
                1nat
            } else {
                0nat
            });
        }
        if same {
            n = n + 1;
        }
        i = i + 1;
    }
    proof {
        assert(spec.take(keys@.len() as int) =~= spec);
    }
    n
}

/// Both files of every pair, in order.
fn end_list(edges: &Vec<Pair>) -> (r: Vec<String>)
    ensures
        strs(r@) == ends(pvs(edges@)),
{
    let mut out: Vec<String> = Vec::new();
    let mut i: usize = 0;
    while i < edges.len()
        invariant
            i <= edges@.len(),
            strs(out@) == ends(pvs(edges@.take(i as int))),
        decreases edges@.len() - i,
    {
        let ghost pre = pvs(edges@.take(i as int));
        proof {
            assert(pvs(edges@.take(i + 1)) =~= pre.push(pv(edges@[i as int])));
            assert(pvs(edges@.take(i + 1)).drop_last() =~= pre);
        }
        out.push(owned(edges[i].a.as_str()));
        out.push(owned(edges[i].b.as_str()));
        proof {
            assert(strs(out@) =~= ends(pvs(edges@.take(i + 1))));
        }
        i = i + 1;
    }
    proof {
        assert(edges@.take(edges@.len() as int) =~= edges@);
    }
    out
}

/// The distinct texts of `v`, in order of first appearance.
pub fn distinct_texts(v: &Vec<String>) -> (r: Vec<String>)
    ensures
        strs(r@) == uniq(strs(v@)),
{
    let mut out: Vec<String> = Vec::new();
    let mut i: usize = 0;
    while i < v.len()
        invariant
            i <= v@.len(),
            strs(out@) == uniq(strs(v@.take(i as int))),
        decreases v@.len() - i,
    {
        proof {
            assert(strs(v@.take(i + 1)) =~= strs(v@.take(i as int)).push(v@[i as int]@));
            lemma_uniq_push(strs(v@.take(i as int)), v@[i as int]@);
        }
        add_text(&mut out, v[i].as_str());
        i = i + 1;
    }
    proof {
        assert(v@.take(v@.len() as int) =~= v@);
    }
    out
}

/// The box pair of `p` as a triple.
pub open spec fn triple(p: Pair) -> BoxKey {
    (p.source@, p.a@, p.b@)
}

/// The distinct box pairs, in order of first appearance.
fn distinct_keys(keys: &Vec<Pair>, Ghost(spec): Ghost<Seq<BoxKey>>) -> (r: Vec<Pair>)
    requires
        keys@.len() == spec.len(),
        forall|i: int| 0 <= i < keys@.len() ==> triple(#[trigger] keys@[i]) == spec[i],
    ensures
        r@.map_values(|p: Pair| triple(p)) == uniq(spec),
{
    let mut out: Vec<Pair> = Vec::new();
    let mut i: usize = 0;
    while i < keys.len()
        invariant
            i <= keys@.len(),
            keys@.len() == spec.len(),
            forall|q: int| 0 <= q < keys@.len() ==> triple(#[trigger] keys@[q]) == spec[q],
            out@.map_values(|p: Pair| triple(p)) == uniq(spec.take(i as int)),
        decreases keys@.len() - i,
    {
        let k = &keys[i];
        let ghost t = triple(*k);
        let ghost o = out@.map_values(|p: Pair| triple(p));
        proof {
            assert(spec.take(i + 1) =~= spec.take(i as int).push(spec[i as int]));
            lemma_uniq_push(spec.take(i as int), spec[i as int]);
            assert(spec[i as int] == t);
        }
        let mut seen = false;
        let mut j: usize = 0;
        while j < out.len()
            invariant
                j <= out@.len(),
                o == out@.map_values(|p: Pair| triple(p)),
                t == triple(*k),
                seen == exists|q: int| 0 <= q < j && #[trigger] o[q] == t,
            decreases out@.len() - j,
        {
            let x = &out[j];
            proof {
                assert(o[j as int] == triple(*x));
            }
            if str_eq(x.source.as_str(), k.source.as_str()) && str_eq(x.a.as_str(), k.a.as_str()) && str_eq(
                x.b.as_str(),
                k.b.as_str(),
            ) {
                seen = true;
            }
            j = j + 1;
        }
        proof {
            assert(seen == o.contains(t));
        }
        if !seen {
            out.push(Pair { a: owned(k.a.as_str()), b: owned(k.b.as_str()), count: 0, source: owned(k.source.as_str()) });
            proof {
                assert(out@.map_values(|p: Pair| triple(p)) =~= o.push(t));
            }
        }
        i = i + 1;
    }
    proof {
        assert(spec.take(keys@.len() as int) =~= spec);
    }
    out
}

/// Whether every file in `files` that folds into `u` stands for itself.
fn lone_box(fold: Fold, files: &Vec<String>, u: &str, Ghost(ps): Ghost<Seq<PairV>>) -> (r: bool)
    requires
        strs(files@) == ends(ps),
    ensures
        r == only_lone_files(fold, ps, u@),
{
    let mut all = true;
    let mut i: usize = 0;
    while i < files.len()
        invariant
            i <= files@.len(),
            strs(files@) == ends(ps),
            all ==> forall|q: int| 0 <= q < i && fold_path(fold.0, (#[trigger] files@[q])@) == u@ ==> unfoldable_path(fold.0, files@[q]@),
            !all ==> exists|q: int| 0 <= q < i && fold_path(fold.0, (#[trigger] files@[q])@) == u@ && !unfoldable_path(fold.0, files@[q]@),
        decreases files@.len() - i,
    {
        let f = &files[i];
        let folded = fold_text(fold, f.as_str());
        if str_eq(folded.as_str(), u) && !fold.is_unfoldable(f.as_str()) {
            all = false;
        }
        i = i + 1;
    }
    proof {
        let e = ends(ps);
        if all {
            assert forall|f: Seq<char>| e.contains(f) && fold_path(fold.0, f) == u@ implies unfoldable_path(fold.0, f) by {
                let q = choose|q: int| 0 <= q < e.len() && e[q] == f;
                assert(strs(files@)[q] == files@[q]@);
            }
        }
        if !all {
            let q = choose|q: int| 0 <= q < files@.len() && fold_path(fold.0, (#[trigger] files@[q])@) == u@ && !unfoldable_path(fold.0, files@[q]@);
            assert(strs(files@)[q] == files@[q]@);
            assert(e.contains(files@[q]@));
        }
    }
    all
}

proof fn lemma_key_ends_push(keys: Seq<BoxKey>, k: BoxKey)
    ensures
        key_ends(keys.push(k)) == key_ends(keys).push(k.1).push(k.2),
{
    assert(keys.push(k).drop_last() =~= keys);
}

proof fn lemma_perm_pairs(m: Seq<Pair>, s: Seq<Pair>)
    requires
        m.to_multiset() == s.to_multiset(),
    ensures
        forall|i: int| 0 <= i < s.len() ==> m.contains(#[trigger] s[i]),
        forall|k: int| 0 <= k < m.len() ==> s.contains(#[trigger] m[k]),
{
    assert forall|i: int| 0 <= i < s.len() implies m.contains(#[trigger] s[i]) by {
        assert(s.contains(s[i]));
        vstd::seq_lib::to_multiset_contains(s, s[i]);
        vstd::seq_lib::to_multiset_contains(m, s[i]);
    }
    assert forall|k: int| 0 <= k < m.len() implies s.contains(#[trigger] m[k]) by {
        assert(m.contains(m[k]));
        vstd::seq_lib::to_multiset_contains(s, m[k]);
        vstd::seq_lib::to_multiset_contains(m, m[k]);
    }
}

/// Collapses file pairs to `fold`'s depth: the folded edges in their order, and what the collapse
/// cost (files and file pairs before, boxes after, and boxes that are a lone file).
pub fn fold_edges(fold: Fold, edges: Vec<Pair>) -> (r: (Vec<Pair>, FoldCounts))
    requires
        fold.valid(),
    ensures
        ordered_as(boxed(fold, pvs(edges@)), r.0@),
        r.1.file_pairs == edges@.len(),
        r.1.file_nodes == uniq(ends(pvs(edges@))).len(),
        r.1.boxes == uniq(key_ends(uniq(cross_keys(fold, pvs(edges@))))).len(),
        r.1.unfoldable == lone_boxes(fold, pvs(edges@), uniq(folded_ends(fold, pvs(edges@)))),
{
    let ghost ps = pvs(edges@);
    let ghost kspec = cross_keys(fold, ps);
    let keys = crossing(fold, &edges);
    proof {
        assert forall|i: int| 0 <= i < keys@.len() implies triple(#[trigger] keys@[i]) == kspec[i] by {}
    }
    let ukeys = distinct_keys(&keys, Ghost(kspec));
    let ghost uk = uniq(kspec);
    let nk = keys.len();
    proof {
        lemma_uniq(kspec);
        assert(keys@.len() <= usize::MAX);
    }
    let mut weighted: Vec<Pair> = Vec::new();
    let mut i: usize = 0;
    while i < ukeys.len()
        invariant
            i <= ukeys@.len(),
            ukeys@.map_values(|p: Pair| triple(p)) == uk,
            uk == uniq(kspec),
            keys@.len() == kspec.len(),
            keys@.len() <= usize::MAX,
            forall|q: int| 0 <= q < keys@.len() ==> triple(#[trigger] keys@[q]) == kspec[q],
            pvs(weighted@) == uk.take(i as int).map_values(|k: BoxKey| (k.1, k.2, weight(kspec, k) as u64, k.0)),
        decreases ukeys@.len() - i,
    {
        let k = &ukeys[i];
        proof {
            assert(uk[i as int] == triple(*k));
        }
        let w = count_key(&keys, k, Ghost(kspec));
        let ghost before = weighted@;
        let np = Pair { a: owned(k.a.as_str()), b: owned(k.b.as_str()), count: w, source: owned(k.source.as_str()) };
        proof {
            let kv = uk[i as int];
            assert(weight(kspec, kv) as u64 == w);
            assert(pv(np) == (kv.1, kv.2, weight(kspec, kv) as u64, kv.0));
        }
        weighted.push(np);
        proof {
            assert(pvs(weighted@) =~= pvs(before).push(pv(np)));
            assert(pvs(weighted@) =~= uk.take(i + 1).map_values(|k: BoxKey| (k.1, k.2, weight(kspec, k) as u64, k.0)));
        }
        i = i + 1;
    }
    let ghost b = boxed(fold, ps);
    proof {
        assert(uk.take(uk.len() as int) =~= uk);
        assert(pvs(weighted@) == b);
        assert forall|x: int, y: int| 0 <= x < weighted@.len() && 0 <= y < weighted@.len() && x != y implies !(#[trigger] weighted@[x]).ties(#[trigger] weighted@[y]) by {
            assert(pvs(weighted@)[x] == pv(weighted@[x]));
            assert(pvs(weighted@)[y] == pv(weighted@[y]));
            assert(uk[x] != uk[y]);
        }
    }
    let ghost m = weighted@;
    let sorted = sort_ranked(weighted);
    proof {
        let s = sorted@;
        lemma_perm_pairs(m, s);
        assert forall|i: int| 0 <= i < s.len() implies b.contains(pv(#[trigger] s[i])) by {
            let k = choose|k: int| 0 <= k < m.len() && m[k] == s[i];
            assert(pvs(m)[k] == pv(m[k]));
        }
        assert forall|j: int| 0 <= j < b.len() implies holds(s, #[trigger] b[j]) by {
            assert(pvs(m)[j] == pv(m[j]));
            assert(s.contains(m[j]));
            let i = choose|i: int| 0 <= i < s.len() && s[i] == m[j];
            assert(pv(s[i]) == b[j]);
        }
    }
    let files = end_list(&edges);
    let uniq_files = distinct_texts(&files);
    let mut box_names: Vec<String> = Vec::new();
    let mut q: usize = 0;
    while q < ukeys.len()
        invariant
            q <= ukeys@.len(),
            ukeys@.map_values(|p: Pair| triple(p)) == uk,
            strs(box_names@) == uniq(key_ends(uk.take(q as int))),
        decreases ukeys@.len() - q,
    {
        proof {
            assert(uk.take(q + 1) =~= uk.take(q as int).push(uk[q as int]));
            lemma_key_ends_push(uk.take(q as int), uk[q as int]);
            assert(uk[q as int] == triple(ukeys@[q as int]));
            lemma_uniq_push(key_ends(uk.take(q as int)), uk[q as int].1);
            lemma_uniq_push(key_ends(uk.take(q as int)).push(uk[q as int].1), uk[q as int].2);
        }
        add_text(&mut box_names, ukeys[q].a.as_str());
        add_text(&mut box_names, ukeys[q].b.as_str());
        q = q + 1;
    }
    proof {
        assert(uk.take(uk.len() as int) =~= uk);
    }
    let mut folded_files: Vec<String> = Vec::new();
    let mut f: usize = 0;
    while f < files.len()
        invariant
            f <= files@.len(),
            strs(folded_files@) == strs(files@).take(f as int).map_values(|x: Seq<char>| fold_path(fold.0, x)),
        decreases files@.len() - f,
    {
        let ghost before = folded_files@;
        folded_files.push(fold_text(fold, files[f].as_str()));
        proof {
            assert(strs(folded_files@) =~= strs(before).push(fold_path(fold.0, files@[f as int]@)));
            assert(strs(files@).take(f + 1) =~= strs(files@).take(f as int).push(files@[f as int]@));
            assert(strs(folded_files@) =~= strs(files@).take(f + 1).map_values(|x: Seq<char>| fold_path(fold.0, x)));
        }
        f = f + 1;
    }
    proof {
        assert(strs(files@).take(files@.len() as int) =~= strs(files@));
    }
    let groups = distinct_texts(&folded_files);
    let ghost us = uniq(folded_ends(fold, ps));
    let mut lone: usize = 0;
    let mut g: usize = 0;
    while g < groups.len()
        invariant
            g <= groups@.len(),
            strs(groups@) == us,
            strs(files@) == ends(ps),
            lone == lone_boxes(fold, ps, us.take(g as int)),
            lone <= g,
        decreases groups@.len() - g,
    {
        proof {
            assert(us.take(g + 1).drop_last() =~= us.take(g as int));
            assert(us[g as int] == groups@[g as int]@);
        }
        if lone_box(fold, &files, groups[g].as_str(), Ghost(ps)) {
            lone = lone + 1;
        }
        g = g + 1;
    }
    proof {
        assert(us.take(groups@.len() as int) =~= us);
    }
    let counts = FoldCounts { file_nodes: uniq_files.len(), file_pairs: edges.len(), boxes: box_names.len(), unfoldable: lone };
    proof {
        assert(strs(uniq_files@).len() == uniq_files@.len());
        assert(strs(box_names@).len() == box_names@.len());
    }
    (sorted, counts)
}

/// Two folded edge lists in the folded edge order, holding the same edges, are the same list.
pub proof fn lemma_sorted_pairs_unique(a: Seq<Pair>, b: Seq<Pair>)
    requires
        strictly_sorted(a),
        strictly_sorted(b),
        forall|k: PairV| pvs(a).contains(k) <==> pvs(b).contains(k),
    ensures
        pvs(a) == pvs(b),
    decreases a.len(),
{
    if a.len() == 0 {
        if b.len() > 0 {
            assert(pvs(b).contains(pvs(b)[0]));
        }
        assert(pvs(a) =~= pvs(b));
    } else {
        let x = pvs(a)[0];
        assert(pvs(b).contains(x));
        let j = choose|j: int| 0 <= j < pvs(b).len() && pvs(b)[j] == x;
        let y = pvs(b)[0];
        assert(pvs(a).contains(y));
        let i = choose|i: int| 0 <= i < pvs(a).len() && pvs(a)[i] == y;
        if j > 0 && i > 0 {
            assert(b[0].before(b[j]));
            assert(a[0].before(a[i]));
            Pair::lemma_order(a[0], b[0], a[0]);
        }
        assert(x == y);
        let a1 = a.drop_first();
        let b1 = b.drop_first();
        assert(pvs(a1) =~= pvs(a).drop_first());
        assert(pvs(b1) =~= pvs(b).drop_first());
        assert forall|z: PairV| pvs(a1).contains(z) <==> pvs(b1).contains(z) by {
            if pvs(a1).contains(z) {
                let k = choose|k: int| 0 <= k < pvs(a1).len() && pvs(a1)[k] == z;
                assert(pvs(a)[k + 1] == z);
                assert(a[0].before(a[k + 1]));
                Pair::lemma_order(a[0], a[0], a[0]);
                assert(pvs(a).contains(z));
                let m = choose|m: int| 0 <= m < pvs(b).len() && pvs(b)[m] == z;
                assert(m != 0);
                assert(pvs(b1)[m - 1] == z);
            }
            if pvs(b1).contains(z) {
                let k = choose|k: int| 0 <= k < pvs(b1).len() && pvs(b1)[k] == z;
                assert(pvs(b)[k + 1] == z);
                assert(b[0].before(b[k + 1]));
                Pair::lemma_order(b[0], b[0], b[0]);
                assert(pvs(b).contains(z));
                let m = choose|m: int| 0 <= m < pvs(a).len() && pvs(a)[m] == z;
                assert(m != 0);
                assert(pvs(a1)[m - 1] == z);
            }
        }
        lemma_sorted_pairs_unique(a1, b1);
        assert forall|k: int| 0 <= k < pvs(a).len() implies pvs(a)[k] == pvs(b)[k] by {
            if k > 0 {
                assert(pvs(a)[k] == pvs(a1)[k - 1]);
                assert(pvs(b)[k] == pvs(b1)[k - 1]);
            }
        }
        assert(pvs(a) =~= pvs(b));
    }
}

/// The folded edge order of a set of edges is unique: any two orderings of `b` agree.
pub proof fn lemma_ordered_as_unique(b: Seq<PairV>, o1: Seq<Pair>, o2: Seq<Pair>)
    requires
        ordered_as(b, o1),
        ordered_as(b, o2),
    ensures
        pvs(o1) == pvs(o2),
{
    assert forall|k: PairV| pvs(o1).contains(k) <==> pvs(o2).contains(k) by {
        if pvs(o1).contains(k) {
            let i = choose|i: int| 0 <= i < pvs(o1).len() && pvs(o1)[i] == k;
            assert(b.contains(pv(o1[i])));
            let j = choose|j: int| 0 <= j < b.len() && b[j] == k;
            assert(holds(o2, b[j]));
            let q = choose|q: int| 0 <= q < o2.len() && pv(#[trigger] o2[q]) == b[j];
            assert(pvs(o2)[q] == k);
        }
        if pvs(o2).contains(k) {
            let i = choose|i: int| 0 <= i < pvs(o2).len() && pvs(o2)[i] == k;
            assert(b.contains(pv(o2[i])));
            let j = choose|j: int| 0 <= j < b.len() && b[j] == k;
            assert(holds(o1, b[j]));
            let q = choose|q: int| 0 <= q < o1.len() && pv(#[trigger] o1[q]) == b[j];
            assert(pvs(o1)[q] == k);
        }
    }
    lemma_sorted_pairs_unique(o1, o2);
}

} // verus!
