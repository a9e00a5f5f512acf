//! The delta between two manifests. The report is ranked rather than symmetric: a bucket
//! transition (a key still present in both runs whose bucket placement changed) is the entry to
//! read first, and the per-relation `added`/`removed` lists are its raw evidence.
//!
//! Two honesty gates. Manifests from different builds are refused unless the caller insists, and
//! then the reply says so. A removal attributable to a source that got less visible (more
//! degraded files, newly contributing nothing to the join, or gone entirely) is tagged a blindness
//! suspect rather than reported as a deletion.
use vstd::prelude::*;

use super::otv;
use crate::graph::distinct::{sorted_texts, texts, Text};
use crate::output::rule_prose::template::strs;
use crate::sort::{sort_ranked, strictly_sorted, tie_free, Ranked};
use crate::text::{lemma_lex_irreflexive, lemma_lex_total, lemma_lex_trans, lex_lt, order_str, owned, push_str, str_eq, Cmp};

verus! {

broadcast use vstd::seq_lib::group_seq_properties;

/// One `sources[]` entry as the diff reads it: the id where it is a string, and the two coverage
/// facts where each has its type.
pub struct SourceEntry {
    pub source_id: Option<String>,
    pub join_contribution_zero: Option<bool>,
    pub degraded: Option<i64>,
}

/// One identity row: its compact JSON spelling, which is its identity, and the fields the diff
/// reads, each where it is a string.
pub struct RowEntry {
    pub text: String,
    pub kind: Option<String>,
    pub key: Option<String>,
    pub bucket: Option<String>,
    pub source: Option<String>,
    pub from: Option<String>,
    pub to: Option<String>,
}

/// A parsed manifest document: each field `None` when it is not of the type a manifest gives it.
pub struct ManifestDoc {
    pub tool: Option<String>,
    pub sources: Option<Vec<SourceEntry>>,
    pub provides: Option<Vec<RowEntry>>,
    pub edges: Option<Vec<RowEntry>>,
    pub buckets: Option<Vec<RowEntry>>,
}

/// The rejection for a document with no `tool` string.
pub open spec fn no_tool_text(which: Seq<char>) -> Seq<char> {
    which + " manifest has no `tool` string — is it a `zzop manifest` output? (a manifest carries tool/sources/provides/edges/buckets)"@
}

/// The rejection for a document missing the array `field`.
pub open spec fn no_array_text(which: Seq<char>, field: Seq<char>) -> Seq<char> {
    which + " manifest has no `"@ + field + "` array — is it a `zzop manifest` output?"@
}

/// Whether `d` is shaped like a manifest: a `tool` string and the four arrays.
pub open spec fn is_manifest(d: ManifestDoc) -> bool {
    d.tool is Some && d.sources is Some && d.provides is Some && d.edges is Some && d.buckets is Some
}

/// The shape check's outcome: the first missing piece, in the order tool, sources, provides,
/// edges, buckets, is named along with which argument it was.
pub open spec fn check_result(d: ManifestDoc, which: Seq<char>, r: Result<(), String>) -> bool {
    if d.tool is None {
        r matches Err(e) && e@ == no_tool_text(which)
    } else if d.sources is None {
        r matches Err(e) && e@ == no_array_text(which, "sources"@)
    } else if d.provides is None {
        r matches Err(e) && e@ == no_array_text(which, "provides"@)
    } else if d.edges is None {
        r matches Err(e) && e@ == no_array_text(which, "edges"@)
    } else if d.buckets is None {
        r matches Err(e) && e@ == no_array_text(which, "buckets"@)
    } else {
        r is Ok
    }
}

fn missing_array(which: &str, field: &str) -> (r: String)
    ensures
        r@ == no_array_text(which@, field@),
{
    let mut e = owned(which);
    push_str(&mut e, " manifest has no `");
    push_str(&mut e, field);
    push_str(&mut e, "` array — is it a `zzop manifest` output?");
    e
}

/// Checks that `d` is shaped like a manifest at all, so an unrelated document is a named error
/// naming which argument was wrong, never a diff of two empty relation sets.
pub fn check_manifest(d: &ManifestDoc, which: &str) -> (r: Result<(), String>)
    ensures
        check_result(*d, which@, r),
        r is Ok <==> is_manifest(*d),
{
    if d.tool.is_none() {
        let mut e = owned(which);
        push_str(
            &mut e,
            " manifest has no `tool` string — is it a `zzop manifest` output? (a manifest carries tool/sources/provides/edges/buckets)",
        );
        return Err(e);
    }
    if d.sources.is_none() {
        return Err(missing_array(which, "sources"));
    }
    if d.provides.is_none() {
        return Err(missing_array(which, "provides"));
    }
    if d.edges.is_none() {
        return Err(missing_array(which, "edges"));
    }
    if d.buckets.is_none() {
        return Err(missing_array(which, "buckets"));
    }
    Ok(())
}

// ---------------------------------------------------------------------------------------------
// coverage: which sources each run saw, and how well

/// The coverage facts of source `id`: those of the last entry naming it (a fact that is not of
/// its type reads as `false` / `0`), or `None` when no entry names it.
pub open spec fn cov(s: Seq<SourceEntry>, id: Seq<char>) -> Option<(bool, i64)>
    decreases s.len(),
{
    if s.len() == 0 {
        None
    } else if otv(s.last().source_id) == Some(id) {
        Some(
            (
                match s.last().join_contribution_zero {
                    Some(b) => b,
                    None => false,
                },
                match s.last().degraded {
                    Some(n) => n,
                    None => 0,
                },
            ),
        )
    } else {
        cov(s.drop_last(), id)
    }
}

/// Source `id` lost visibility between the runs: it newly contributes nothing to the join, or
/// more of its files degraded.
pub open spec fn dropped(a: Seq<SourceEntry>, b: Seq<SourceEntry>, id: Seq<char>) -> bool {
    match (cov(a, id), cov(b, id)) {
        (Some((ja, da)), Some((jb, db))) => (jb && !ja) || db > da,
        _ => false,
    }
}

/// Source `id`'s disappearances are blindness suspects: it was in the first run and is gone from
/// the second or lost visibility there.
pub open spec fn blind(a: Seq<SourceEntry>, b: Seq<SourceEntry>, id: Seq<char>) -> bool {
    cov(a, id) is Some && (cov(b, id) is None || dropped(a, b, id))
}

/// The coverage facts of `id` in `s`.
fn coverage_of(s: &Vec<SourceEntry>, id: &str) -> (r: Option<(bool, i64)>)
    ensures
        r == cov(s@, id@),
{
    let mut i: usize = s.len();
    while i > 0
        invariant
            i <= s@.len(),
            cov(s@, id@) == cov(s@.take(i as int), id@),
        decreases i,
    {
        let e = &s[i - 1];
        proof {
            assert(s@.take(i - 1) =~= s@.take(i as int).drop_last());
        }
        let named = match &e.source_id {
            Some(x) => str_eq(x.as_str(), id),
            None => false,
        };
        if named {
            let j = match e.join_contribution_zero {
                Some(b) => b,
                None => false,
            };
            let d = match e.degraded {
                Some(n) => n,
                None => 0,
            };
            return Some((j, d));
        }
        i = i - 1;
    }
    None
}

/// Appends `s` to the distinct texts `v` unless already there.
fn add_distinct(v: &mut Vec<String>, s: &str)
    ensures
        forall|x: Seq<char>| strs(final(v)@).contains(x) <==> strs(old(v)@).contains(x) || x == s@,
{
    crate::graph::distinct::add_text(v, s);
    proof {
        if strs(old(v)@).contains(s@) {
        } else {
            assert forall|x: Seq<char>| strs(final(v)@).contains(x) <==> strs(old(v)@).contains(x) || x == s@ by {
                let f = strs(final(v)@);
                let o = strs(old(v)@);
                if f.contains(x) {
                    let k = choose|k: int| 0 <= k < f.len() && f[k] == x;
                    if k < o.len() {
                        assert(o[k] == x);
                    }
                }
                if o.contains(x) {
                    let k = choose|k: int| 0 <= k < o.len() && o[k] == x;
                    assert(f[k] == x);
                }
                if x == s@ {
                    assert(f[o.len() as int] == x);
                }
            }
        }
    }
}

/// Whether `k` is among the texts of `v`.
fn listed(v: &Vec<String>, k: &str) -> (r: bool)
    ensures
        r == strs(v@).contains(k@),
{
    let mut i: usize = 0;
    while i < v.len()
        invariant
            i <= v@.len(),
            forall|j: int| 0 <= j < i ==> (#[trigger] v@[j])@ != k@,
        decreases v@.len() - i,
    {
        if str_eq(v[i].as_str(), k) {
            proof {
                assert(strs(v@)[i as int] == k@);
            }
            return true;
        }
        i = i + 1;
    }
    proof {
        if strs(v@).contains(k@) {
            let j = choose|j: int| 0 <= j < strs(v@).len() && strs(v@)[j] == k@;
            assert(v@[j]@ == k@);
        }
    }
    false
}

/// Whether some entry of `s` names source `id`.
pub open spec fn named_in(s: Seq<SourceEntry>, id: Seq<char>) -> bool {
    exists|i: int| 0 <= i < s.len() && otv((#[trigger] s[i]).source_id) == Some(id)
}

proof fn lemma_cov_named(s: Seq<SourceEntry>, id: Seq<char>)
    ensures
        cov(s, id) is Some <==> named_in(s, id),
    decreases s.len(),
{
    if s.len() > 0 {
        lemma_cov_named(s.drop_last(), id);
        if named_in(s.drop_last(), id) {
            let i = choose|i: int| 0 <= i < s.drop_last().len() && otv((#[trigger] s.drop_last()[i]).source_id) == Some(id);
            assert(s[i] == s.drop_last()[i]);
        }
        if named_in(s, id) && otv(s.last().source_id) != Some(id) {
            let i = choose|i: int| 0 <= i < s.len() && otv((#[trigger] s[i]).source_id) == Some(id);
            assert(i < s.len() - 1);
            assert(s.drop_last()[i] == s[i]);
        }
        if otv(s.last().source_id) == Some(id) {
            assert(otv(s[s.len() - 1].source_id) == Some(id));
        }
    }
}

/// The distinct source ids of `s`.
fn source_ids(s: &Vec<SourceEntry>) -> (r: Vec<String>)
    ensures
        forall|x: Seq<char>| strs(r@).contains(x) <==> cov(s@, x) is Some,
{
    let mut out: Vec<String> = Vec::new();
    let mut i: usize = 0;
    while i < s.len()
        invariant
            i <= s@.len(),
            forall|x: Seq<char>| strs(out@).contains(x) <==> named_in(s@.take(i as int), x),
        decreases s@.len() - i,
    {
        let ghost pre = s@.take(i as int);
        let ghost next = s@.take(i + 1);
        proof {
            assert forall|q: int| 0 <= q < i implies next[q] == #[trigger] pre[q] by {}
            assert(next[i as int] == s@[i as int]);
        }
        match &s[i].source_id {
            Some(x) => {
                add_distinct(&mut out, x.as_str());
                proof {
                    assert forall|y: Seq<char>| named_in(next, y) <==> named_in(pre, y) || y == x@ by {
                        if named_in(next, y) {
                            let q = choose|q: int| 0 <= q < next.len() && otv((#[trigger] next[q]).source_id) == Some(y);
                            if q < i {
                                assert(otv(pre[q].source_id) == Some(y));
                            }
                        }
                        if named_in(pre, y) {
                            let q = choose|q: int| 0 <= q < pre.len() && otv((#[trigger] pre[q]).source_id) == Some(y);
                            assert(otv(next[q].source_id) == Some(y));
                        }
                        if y == x@ {
                            assert(otv(next[i as int].source_id) == Some(y));
                        }
                    }
                }
            },
            None => {
                proof {
                    assert forall|y: Seq<char>| named_in(next, y) <==> named_in(pre, y) by {
                        if named_in(next, y) {
                            let q = choose|q: int| 0 <= q < next.len() && otv((#[trigger] next[q]).source_id) == Some(y);
                            assert(q < i);
                            assert(otv(pre[q].source_id) == Some(y));
                        }
                        if named_in(pre, y) {
                            let q = choose|q: int| 0 <= q < pre.len() && otv((#[trigger] pre[q]).source_id) == Some(y);
                            assert(otv(next[q].source_id) == Some(y));
                        }
                    }
                }
            },
        }
        i = i + 1;
    }
    proof {
        assert(s@.take(s@.len() as int) =~= s@);
        assert forall|x: Seq<char>| strs(out@).contains(x) <==> cov(s@, x) is Some by {
            lemma_cov_named(s@, x);
        }
    }
    out
}

/// A source that lost visibility: its id and both runs' coverage facts.
pub struct Dropped {
    pub source_id: String,
    pub jcz_a: bool,
    pub jcz_b: bool,
    pub degraded_a: i64,
    pub degraded_b: i64,
}

/// The view of a dropped-coverage row.
pub open spec fn dv(d: Dropped) -> (Seq<char>, bool, bool, i64, i64) {
    (d.source_id@, d.jcz_a, d.jcz_b, d.degraded_a, d.degraded_b)
}

/// The views of dropped-coverage rows.
pub open spec fn dvs(v: Seq<Dropped>) -> Seq<(Seq<char>, bool, bool, i64, i64)> {
    v.map_values(|d: Dropped| dv(d))
}

/// `x` is the dropped-coverage row of a source that lost visibility.
pub open spec fn dropped_row(a: Seq<SourceEntry>, b: Seq<SourceEntry>, x: (Seq<char>, bool, bool, i64, i64)) -> bool {
    &&& dropped(a, b, x.0)
    &&& cov(a, x.0) == Some((x.1, x.3))
    &&& cov(b, x.0) == Some((x.2, x.4))
}

impl Ranked for Dropped {
    open spec fn before(self, other: Self) -> bool {
        lex_lt(self.source_id@, other.source_id@)
    }

    open spec fn ties(self, other: Self) -> bool {
        self.source_id@ == other.source_id@
    }

    fn is_before(&self, other: &Self) -> (r: bool) {
        order_str(self.source_id.as_str(), other.source_id.as_str()) == Cmp::Less
    }

    proof fn lemma_order(a: Self, b: Self, c: Self) {
        lemma_lex_irreflexive(a.source_id@);
        lemma_lex_total(a.source_id@, b.source_id@);
        if lex_lt(a.source_id@, b.source_id@) && lex_lt(b.source_id@, c.source_id@) {
            lemma_lex_trans(a.source_id@, b.source_id@, c.source_id@);
        }
    }
}

/// The `sources` report: the ids only the second run has, those only the first has, and the
/// sources that lost visibility, each in id order.
pub struct SourcesReport {
    pub added: Vec<Text>,
    pub removed: Vec<Text>,
    pub coverage_dropped: Vec<Dropped>,
}

/// `r` is the `sources` report of manifests whose source lists are `a` and `b`.
pub open spec fn sources_report_is(a: Seq<SourceEntry>, b: Seq<SourceEntry>, r: SourcesReport) -> bool {
    &&& strictly_sorted(r.added@) && forall|x: Seq<char>| texts(r.added@).contains(x) <==> (cov(b, x) is Some && cov(a, x) is None)
    &&& strictly_sorted(r.removed@) && forall|x: Seq<char>| texts(r.removed@).contains(x) <==> (cov(a, x) is Some && cov(b, x) is None)
    &&& strictly_sorted(r.coverage_dropped@) && forall|x: (Seq<char>, bool, bool, i64, i64)| dvs(r.coverage_dropped@).contains(x) <==> dropped_row(a, b, x)
}

fn copy_text(t: &Text) -> (r: Text)
    ensures
        r.text@ == t.text@,
{
    Text { text: owned(t.text.as_str()) }
}

/// The texts of the sorted list `xs` that `ys` does not hold, in order.
fn only_in(xs: &Vec<Text>, ys: &Vec<String>) -> (r: Vec<Text>)
    requires
        strictly_sorted(xs@),
    ensures
        strictly_sorted(r@),
        forall|x: Seq<char>| texts(r@).contains(x) <==> texts(xs@).contains(x) && !strs(ys@).contains(x),
{
    let mut out: Vec<Text> = Vec::new();
    let mut i: usize = 0;
    while i < xs.len()
        invariant
            i <= xs@.len(),
            strictly_sorted(xs@),
            strictly_sorted(out@),
            forall|k: int, j: int| 0 <= k < out@.len() && i <= j < xs@.len() ==> lex_lt((#[trigger] out@[k]).text@, (#[trigger] xs@[j]).text@),
            forall|x: Seq<char>| texts(out@).contains(x) <==> texts(xs@.take(i as int)).contains(x) && !strs(ys@).contains(x),
        decreases xs@.len() - i,
    {
        let ghost before = out@;
        proof {
            assert(texts(xs@.take(i + 1)) =~= texts(xs@.take(i as int)).push(xs@[i as int].text@));
        }
        if !listed(ys, xs[i].text.as_str()) {
            let t = copy_text(&xs[i]);
            out.push(t);
            proof {
                assert(texts(out@) =~= texts(before).push(xs@[i as int].text@));
                assert forall|k: int, j: int| 0 <= k < out@.len() && i + 1 <= j < xs@.len() implies lex_lt((#[trigger] out@[k]).text@, (#[trigger] xs@[j]).text@) by {
                    assert(xs@[i as int].before(xs@[j]));
                    if k < before.len() {
                        assert(out@[k] == before[k]);
                        assert(lex_lt(before[k].text@, xs@[i as int].text@));
                        lemma_lex_trans(before[k].text@, xs@[i as int].text@, xs@[j].text@);
                    }
                }
                assert forall|x: Seq<char>| texts(out@).contains(x) <==> texts(xs@.take(i + 1)).contains(x) && !strs(ys@).contains(x) by {
                    let o = texts(out@);
                    if o.contains(x) {
                        let k = choose|k: int| 0 <= k < o.len() && o[k] == x;
                        if k < before.len() {
                            assert(texts(before)[k] == x);
                        }
                    }
                    if texts(before).contains(x) {
                        let k = choose|k: int| 0 <= k < texts(before).len() && texts(before)[k] == x;
                        assert(o[k] == x);
                    }
                    if x == xs@[i as int].text@ {
                        assert(o[before.len() as int] == x);
                    }
                }
            }
        } else {
            proof {
                assert forall|k: int, j: int| 0 <= k < out@.len() && i + 1 <= j < xs@.len() implies lex_lt((#[trigger] out@[k]).text@, (#[trigger] xs@[j]).text@) by {}
            }
        }
        i = i + 1;
    }
    proof {
        assert(xs@.take(xs@.len() as int) =~= xs@);
    }
    out
}

/// The `sources` report of two manifests' source lists.
fn sources_report(a: &Vec<SourceEntry>, b: &Vec<SourceEntry>) -> (r: SourcesReport)
    ensures
        sources_report_is(a@, b@, r),
{
    let ids_a = source_ids(a);
    let ids_b = source_ids(b);
    let sorted_a = sorted_texts(&ids_a);
    let sorted_b = sorted_texts(&ids_b);
    let added = only_in(&sorted_b, &ids_a);
    let removed = only_in(&sorted_a, &ids_b);
    let mut drops: Vec<Dropped> = Vec::new();
    let mut i: usize = 0;
    while i < sorted_a.len()
        invariant
            i <= sorted_a@.len(),
            strictly_sorted(sorted_a@),
            forall|x: Seq<char>| texts(sorted_a@).contains(x) <==> cov(a@, x) is Some,
            strictly_sorted(drops@),
            forall|k: int, j: int| 0 <= k < drops@.len() && i <= j < sorted_a@.len() ==> lex_lt((#[trigger] drops@[k]).source_id@, (#[trigger] sorted_a@[j]).text@),
            forall|x: (Seq<char>, bool, bool, i64, i64)| dvs(drops@).contains(x) <==> dropped_row(a@, b@, x) && texts(sorted_a@.take(i as int)).contains(x.0),
        decreases sorted_a@.len() - i,
    {
        let id = sorted_a[i].text.as_str();
        let ghost before = drops@;
        proof {
            assert(texts(sorted_a@.take(i + 1)) =~= texts(sorted_a@.take(i as int)).push(sorted_a@[i as int].text@));
            assert(texts(sorted_a@).contains(id@)) by {
                assert(texts(sorted_a@)[i as int] == id@);
            }
        }
        let ca = coverage_of(a, id);
        let cb = coverage_of(b, id);
        let mut pushed = false;
        match (ca, cb) {
            (Some((ja, da)), Some((jb, db))) => {
                if (jb && !ja) || db > da {
                    drops.push(Dropped { source_id: owned(id), jcz_a: ja, jcz_b: jb, degraded_a: da, degraded_b: db });
                    pushed = true;
                }
            },
            _ => {},
        }
        proof {
            let row = (id@, ca.unwrap().0, cb.unwrap().0, ca.unwrap().1, cb.unwrap().1);
            if pushed {
                assert(dvs(drops@) =~= dvs(before).push(row));
                assert(dropped_row(a@, b@, row));
            } else {
                assert(drops@ == before);
            }
            assert forall|k: int, j: int| 0 <= k < drops@.len() && i + 1 <= j < sorted_a@.len() implies lex_lt((#[trigger] drops@[k]).source_id@, (#[trigger] sorted_a@[j]).text@) by {
                assert(sorted_a@[i as int].before(sorted_a@[j]));
                if k < before.len() {
                    assert(drops@[k] == before[k]);
                    lemma_lex_trans(before[k].source_id@, sorted_a@[i as int].text@, sorted_a@[j].text@);
                }
            }
            if pushed {
                assert forall|p: int, q: int| 0 <= p < q < drops@.len() implies (#[trigger] drops@[p]).before(#[trigger] drops@[q]) by {
                    if q < before.len() {
                        assert(before[p].before(before[q]));
                    } else {
                        assert(drops@[p] == before[p]);
                    }
                }
            }
            assert forall|x: (Seq<char>, bool, bool, i64, i64)| dvs(drops@).contains(x) <==> dropped_row(a@, b@, x) && texts(sorted_a@.take(i + 1)).contains(x.0) by {
                let d = dvs(drops@);
                let d0 = dvs(before);
                if d.contains(x) {
                    let k = choose|k: int| 0 <= k < d.len() && d[k] == x;
                    if k < before.len() {
                        assert(d0[k] == x);
                    }
                }
                if d0.contains(x) {
                    let k = choose|k: int| 0 <= k < d0.len() && d0[k] == x;
                    assert(d[k] == x);
                }
                if dropped_row(a@, b@, x) && x.0 == id@ {
                    assert(x == row);
                    assert(pushed);
                    assert(d[before.len() as int] == x);
                }
                if dropped_row(a@, b@, x) && texts(sorted_a@.take(i + 1)).contains(x.0) && x.0 != id@ {
                    assert(texts(sorted_a@.take(i as int)).contains(x.0));
                }
            }
        }
        i = i + 1;
    }
    proof {
        assert(sorted_a@.take(sorted_a@.len() as int) =~= sorted_a@);
        assert forall|x: (Seq<char>, bool, bool, i64, i64)| dvs(drops@).contains(x) <==> dropped_row(a@, b@, x) by {
            if dropped_row(a@, b@, x) {
                assert(cov(a@, x.0) is Some);
            }
        }
        assert forall|x: Seq<char>| texts(added@).contains(x) <==> (cov(b@, x) is Some && cov(a@, x) is None) by {}
        assert forall|x: Seq<char>| texts(removed@).contains(x) <==> (cov(a@, x) is Some && cov(b@, x) is None) by {}
    }
    SourcesReport { added, removed, coverage_dropped: drops }
}

// ---------------------------------------------------------------------------------------------
// the blind sources and the per-relation deltas

/// Every blindness-suspect source id.
fn blind_sources(a: &Vec<SourceEntry>, b: &Vec<SourceEntry>) -> (r: Vec<String>)
    ensures
        forall|x: Seq<char>| strs(r@).contains(x) <==> blind(a@, b@, x),
{
    let ids = source_ids(a);
    let mut out: Vec<String> = Vec::new();
    let mut i: usize = 0;
    while i < ids.len()
        invariant
            i <= ids@.len(),
            forall|x: Seq<char>| strs(ids@).contains(x) <==> cov(a@, x) is Some,
            forall|x: Seq<char>| strs(out@).contains(x) <==> blind(a@, b@, x) && strs(ids@.take(i as int)).contains(x),
        decreases ids@.len() - i,
    {
        let id = ids[i].as_str();
        proof {
            assert(strs(ids@.take(i + 1)) =~= strs(ids@.take(i as int)).push(id@));
            assert(strs(ids@)[i as int] == id@);
        }
        let ca = coverage_of(a, id);
        let cb = coverage_of(b, id);
        let suspect = match (ca, cb) {
            (Some(_), None) => true,
            (Some((ja, da)), Some((jb, db))) => (jb && !ja) || db > da,
            _ => false,
        };
        if suspect {
            add_distinct(&mut out, id);
        }
        i = i + 1;
    }
    proof {
        assert(ids@.take(ids@.len() as int) =~= ids@);
    }
    out
}

/// The source ids a row names: `source` for a provide or bucket row, both ends for an edge.
pub open spec fn names_source(r: RowEntry, s: Seq<char>) -> bool {
    otv(r.source) == Some(s) || otv(r.from) == Some(s) || otv(r.to) == Some(s)
}

/// A removed row is a blindness suspect when a source it names is one.
pub open spec fn row_blind(a: Seq<SourceEntry>, b: Seq<SourceEntry>, r: RowEntry) -> bool {
    ||| (r.source matches Some(x) && blind(a, b, x@))
    ||| (r.from matches Some(x) && blind(a, b, x@))
    ||| (r.to matches Some(x) && blind(a, b, x@))
}

/// The identities of a row list.
pub open spec fn row_texts(rows: Seq<RowEntry>) -> Seq<Seq<char>> {
    rows.map_values(|r: RowEntry| r.text@)
}

/// The positions among the first `n` of `rows` whose identity `others` does not hold, in order.
pub open spec fn picks(rows: Seq<RowEntry>, others: Seq<Seq<char>>, n: int) -> Seq<usize>
    decreases n,
{
    if n <= 0 {
        Seq::empty()
    } else {
        let r = picks(rows, others, n - 1);
        if others.contains(rows[n - 1].text@) {
            r
        } else {
            r.push((n - 1) as usize)
        }
    }
}

/// One relation's delta: the second run's rows the first lacks (`added`, by position in the
/// second), and the first run's rows the second lacks (`removed`, by position in the first), each
/// removal with whether it is a blindness suspect.
pub struct RelationDiff {
    pub added: Vec<usize>,
    pub removed: Vec<usize>,
    pub suspect: Vec<bool>,
}

/// `d` is the delta of relation rows `ra` (first run) and `rb` (second run).
pub open spec fn relation_diff_is(
    sa: Seq<SourceEntry>,
    sb: Seq<SourceEntry>,
    ra: Seq<RowEntry>,
    rb: Seq<RowEntry>,
    d: RelationDiff,
) -> bool {
    &&& d.added@ == picks(rb, row_texts(ra), rb.len() as int)
    &&& d.removed@ == picks(ra, row_texts(rb), ra.len() as int)
    &&& d.suspect@.len() == d.removed@.len()
    &&& forall|k: int| 0 <= k < d.removed@.len() ==> (#[trigger] d.suspect@[k]) == row_blind(sa, sb, ra[d.removed@[k] as int])
}

/// Whether some row of `rows` has identity `t`.
fn has_row_text(rows: &Vec<RowEntry>, t: &str) -> (r: bool)
    ensures
        r == row_texts(rows@).contains(t@),
{
    let mut i: usize = 0;
    while i < rows.len()
        invariant
            i <= rows@.len(),
            forall|j: int| 0 <= j < i ==> (#[trigger] rows@[j]).text@ != t@,
        decreases rows@.len() - i,
    {
        if str_eq(rows[i].text.as_str(), t) {
            proof {
                assert(row_texts(rows@)[i as int] == t@);
            }
            return true;
        }
        i = i + 1;
    }
    proof {
        if row_texts(rows@).contains(t@) {
            let j = choose|j: int| 0 <= j < row_texts(rows@).len() && row_texts(rows@)[j] == t@;
            assert(rows@[j].text@ == t@);
        }
    }
    false
}

/// The positions of `rows` whose identity `others` lacks.
fn pick_missing(rows: &Vec<RowEntry>, others: &Vec<RowEntry>) -> (r: Vec<usize>)
    ensures
        r@ == picks(rows@, row_texts(others@), rows@.len() as int),
{
    let mut out: Vec<usize> = Vec::new();
    let mut i: usize = 0;
    while i < rows.len()
        invariant
            i <= rows@.len(),
            out@ == picks(rows@, row_texts(others@), i as int),
        decreases rows@.len() - i,
    {
        if !has_row_text(others, rows[i].text.as_str()) {
            out.push(i);
        }
        i = i + 1;
    }
    out
}

/// Whether the optional text `o` is among `blinds`.
fn names_blind(o: &Option<String>, blinds: &Vec<String>) -> (r: bool)
    ensures
        r == (o matches Some(x) && strs(blinds@).contains(x@)),
{
    match o {
        Some(x) => listed(blinds, x.as_str()),
        None => false,
    }
}

/// One relation's delta.
fn relation_diff(sa: &Vec<SourceEntry>, sb: &Vec<SourceEntry>, blinds: &Vec<String>, ra: &Vec<RowEntry>, rb: &Vec<RowEntry>) -> (r: RelationDiff)
    requires
        forall|x: Seq<char>| strs(blinds@).contains(x) <==> blind(sa@, sb@, x),
    ensures
        relation_diff_is(sa@, sb@, ra@, rb@, r),
{
    let added = pick_missing(rb, ra);
    let removed = pick_missing(ra, rb);
    let mut suspect: Vec<bool> = Vec::new();
    let mut k: usize = 0;
    proof {
        lemma_picks_in_range(ra@, row_texts(rb@), ra@.len() as int);
    }
    while k < removed.len()
        invariant
            k <= removed@.len(),
            suspect@.len() == k,
            forall|j: int| 0 <= j < removed@.len() ==> (#[trigger] removed@[j]) < ra@.len(),
            forall|x: Seq<char>| strs(blinds@).contains(x) <==> blind(sa@, sb@, x),
            forall|j: int| 0 <= j < k ==> (#[trigger] suspect@[j]) == row_blind(sa@, sb@, ra@[removed@[j] as int]),
        decreases removed@.len() - k,
    {
        let row = &ra[removed[k]];
        let s = names_blind(&row.source, blinds) || names_blind(&row.from, blinds) || names_blind(&row.to, blinds);
        suspect.push(s);
        k = k + 1;
    }
    RelationDiff { added, removed, suspect }
}

proof fn lemma_picks_in_range(rows: Seq<RowEntry>, others: Seq<Seq<char>>, n: int)
    requires
        n <= rows.len(),
    ensures
        forall|j: int| 0 <= j < picks(rows, others, n).len() ==> (#[trigger] picks(rows, others, n)[j]) < n,
    decreases n,
{
    if n > 0 {
        lemma_picks_in_range(rows, others, n - 1);
        let r = picks(rows, others, n - 1);
        assert forall|j: int| 0 <= j < picks(rows, others, n).len() implies (#[trigger] picks(rows, others, n)[j]) < n by {
            if j < r.len() {
                assert(picks(rows, others, n)[j] == r[j]);
            }
        }
    }
}

// ---------------------------------------------------------------------------------------------
// transitions: keys in both runs whose bucket placement changed

/// An optional text, or the empty text when absent.
pub open spec fn or_empty(o: Option<String>) -> Seq<char> {
    match o {
        Some(s) => s@,
        None => Seq::empty(),
    }
}

/// A row's `(kind, key)` identity; a field that is not a string reads as empty.
pub open spec fn identity(r: RowEntry) -> (Seq<char>, Seq<char>) {
    (or_empty(r.kind), or_empty(r.key))
}

/// Some row of `rows` has identity `id`.
pub open spec fn has_ident(rows: Seq<RowEntry>, id: (Seq<char>, Seq<char>)) -> bool {
    exists|i: int| 0 <= i < rows.len() && identity(#[trigger] rows[i]) == id
}

/// Some row of `rows` has identity `id` and sits in bucket `name`.
pub open spec fn has_ident_in(rows: Seq<RowEntry>, id: (Seq<char>, Seq<char>), name: Seq<char>) -> bool {
    exists|i: int| 0 <= i < rows.len() && identity(#[trigger] rows[i]) == id && or_empty(rows[i].bucket) == name
}

/// Some row of `rows` has identity `id` and names source `s`.
pub open spec fn has_ident_from(rows: Seq<RowEntry>, id: (Seq<char>, Seq<char>), s: Seq<char>) -> bool {
    exists|i: int| 0 <= i < rows.len() && identity(#[trigger] rows[i]) == id && names_source(rows[i], s)
}

/// Key `id` is placed in a run: a joined edge or a bucket member carries it.
pub open spec fn placed(edges: Seq<RowEntry>, buckets: Seq<RowEntry>, id: (Seq<char>, Seq<char>)) -> bool {
    has_ident(edges, id) || has_ident(buckets, id)
}

/// Key `id` sits in bucket `name` of a run: `edges` when it is joined, and every bucket a member
/// carrying it names.
pub open spec fn in_bucket(edges: Seq<RowEntry>, buckets: Seq<RowEntry>, id: (Seq<char>, Seq<char>), name: Seq<char>) -> bool {
    (name == "edges"@ && has_ident(edges, id)) || has_ident_in(buckets, id, name)
}

/// A row carrying key `id` in a run names source `s`.
pub open spec fn sourced(edges: Seq<RowEntry>, buckets: Seq<RowEntry>, id: (Seq<char>, Seq<char>), s: Seq<char>) -> bool {
    has_ident_from(edges, id, s) || has_ident_from(buckets, id, s)
}

/// One run's relations as the transitions read them.
pub struct Placement {
    pub edges: Seq<RowEntry>,
    pub buckets: Seq<RowEntry>,
}

/// Key `id` is in both runs and its bucket placement differs.
pub open spec fn moved(a: Placement, b: Placement, id: (Seq<char>, Seq<char>)) -> bool {
    &&& placed(a.edges, a.buckets, id)
    &&& placed(b.edges, b.buckets, id)
    &&& exists|n: Seq<char>| in_bucket(a.edges, a.buckets, id, n) != in_bucket(b.edges, b.buckets, id, n)
}

/// A transition is a blindness suspect when a source some row carrying its key names, in either
/// run, is one.
pub open spec fn moved_blind(sa: Seq<SourceEntry>, sb: Seq<SourceEntry>, a: Placement, b: Placement, id: (Seq<char>, Seq<char>)) -> bool {
    exists|s: Seq<char>| (sourced(a.edges, a.buckets, id, s) || sourced(b.edges, b.buckets, id, s)) && blind(sa, sb, s)
}

/// A key identity in the `(kind, key)` order.
pub struct Ident {
    pub kind: String,
    pub key: String,
}

/// The view of an identity.
pub open spec fn iv(i: Ident) -> (Seq<char>, Seq<char>) {
    (i.kind@, i.key@)
}

/// Identities in order: by kind, then by key.
pub open spec fn ident_lt(a: (Seq<char>, Seq<char>), b: (Seq<char>, Seq<char>)) -> bool {
    lex_lt(a.0, b.0) || (a.0 == b.0 && lex_lt(a.1, b.1))
}

proof fn lemma_ident_order(a: (Seq<char>, Seq<char>), b: (Seq<char>, Seq<char>), c: (Seq<char>, Seq<char>))
    ensures
        !ident_lt(a, a),
        ident_lt(a, b) && ident_lt(b, c) ==> ident_lt(a, c),
        ident_lt(a, b) || ident_lt(b, a) || a == b,
{
    lemma_lex_irreflexive(a.0);
    lemma_lex_irreflexive(a.1);
    lemma_lex_total(a.0, b.0);
    lemma_lex_total(a.1, b.1);
    if lex_lt(a.0, b.0) && lex_lt(b.0, c.0) {
        lemma_lex_trans(a.0, b.0, c.0);
    }
    if lex_lt(a.1, b.1) && lex_lt(b.1, c.1) {
        lemma_lex_trans(a.1, b.1, c.1);
    }
}

fn ident_before(a: &Ident, b: &Ident) -> (r: bool)
    ensures
        r == ident_lt(iv(*a), iv(*b)),
{
    match order_str(a.kind.as_str(), b.kind.as_str()) {
        Cmp::Less => true,
        Cmp::Greater => false,
        Cmp::Equal => order_str(a.key.as_str(), b.key.as_str()) == Cmp::Less,
    }
}

impl Ranked for Ident {
    open spec fn before(self, other: Self) -> bool {
        ident_lt(iv(self), iv(other))
    }

    open spec fn ties(self, other: Self) -> bool {
        iv(self) == iv(other)
    }

    fn is_before(&self, other: &Self) -> (r: bool) {
        ident_before(self, other)
    }

    proof fn lemma_order(a: Self, b: Self, c: Self) {
        lemma_ident_order(iv(a), iv(b), iv(c));
    }
}

fn text_or_empty(o: &Option<String>) -> (r: String)
    ensures
        r@ == or_empty(*o),
{
    match o {
        Some(s) => owned(s.as_str()),
        None => String::new(),
    }
}

fn ident_of(r: &RowEntry) -> (i: Ident)
    ensures
        iv(i) == identity(*r),
{
    Ident { kind: text_or_empty(&r.kind), key: text_or_empty(&r.key) }
}

/// The views of a list of identities.
pub open spec fn ivs(v: Seq<Ident>) -> Seq<(Seq<char>, Seq<char>)> {
    v.map_values(|i: Ident| iv(i))
}

fn same_ident(a: &Ident, b: &Ident) -> (r: bool)
    ensures
        r == (iv(*a) == iv(*b)),
{
    str_eq(a.kind.as_str(), b.kind.as_str()) && str_eq(a.key.as_str(), b.key.as_str())
}

/// Adds the identities of `rows` to the distinct list `v`.
fn add_idents(v: &mut Vec<Ident>, rows: &Vec<RowEntry>)
    requires
        forall|a: int, b: int| 0 <= a < old(v)@.len() && 0 <= b < old(v)@.len() && a != b ==> iv(#[trigger] old(v)@[a]) != iv(#[trigger] old(v)@[b]),
    ensures
        forall|a: int, b: int| 0 <= a < final(v)@.len() && 0 <= b < final(v)@.len() && a != b ==> iv(#[trigger] final(v)@[a]) != iv(#[trigger] final(v)@[b]),
        forall|x: (Seq<char>, Seq<char>)|
            #![trigger ivs(final(v)@).contains(x)]
            #![trigger ivs(old(v)@).contains(x)]
            #![trigger has_ident(rows@, x)]
            ivs(final(v)@).contains(x) <==> ivs(old(v)@).contains(x) || has_ident(rows@, x),
{
    let ghost start = v@;
    let mut i: usize = 0;
    while i < rows.len()
        invariant
            i <= rows@.len(),
            forall|a: int, b: int| 0 <= a < v@.len() && 0 <= b < v@.len() && a != b ==> iv(#[trigger] v@[a]) != iv(#[trigger] v@[b]),
            forall|x: (Seq<char>, Seq<char>)| ivs(v@).contains(x) <==> ivs(start).contains(x) || has_ident(rows@.take(i as int), x),
        decreases rows@.len() - i,
    {
        let id = ident_of(&rows[i]);
        let ghost pre = rows@.take(i as int);
        let ghost next = rows@.take(i + 1);
        let ghost before = v@;
        proof {
            assert forall|q: int| 0 <= q < i implies next[q] == #[trigger] pre[q] by {}
            assert(next[i as int] == rows@[i as int]);
            assert forall|x: (Seq<char>, Seq<char>)| has_ident(next, x) <==> has_ident(pre, x) || x == iv(id) by {
                if has_ident(next, x) {
                    let q = choose|q: int| 0 <= q < next.len() && identity(#[trigger] next[q]) == x;
                    if q < i {
                        assert(identity(pre[q]) == x);
                    }
                }
                if has_ident(pre, x) {
                    let q = choose|q: int| 0 <= q < pre.len() && identity(#[trigger] pre[q]) == x;
                    assert(identity(next[q]) == x);
                }
                if x == iv(id) {
                    assert(identity(next[i as int]) == x);
                }
            }
        }
        let mut found = false;
        let mut j: usize = 0;
        while j < v.len()
            invariant
                j <= v@.len(),
                v@ == before,
                !found ==> forall|q: int| 0 <= q < j ==> iv(#[trigger] v@[q]) != iv(id),
                found ==> ivs(v@).contains(iv(id)),
            decreases v@.len() - j,
        {
            if same_ident(&v[j], &id) {
                proof {
                    assert(ivs(v@)[j as int] == iv(id));
                }
                found = true;
            }
            j = j + 1;
        }
        if found {
            proof {
                assert forall|x: (Seq<char>, Seq<char>)| ivs(v@).contains(x) <==> ivs(start).contains(x) || has_ident(next, x) by {
                    if x == iv(id) {
                        assert(ivs(v@).contains(x));
                    }
                }
            }
        } else {
            let ghost idv = iv(id);
            v.push(id);
            proof {
                assert(ivs(v@) =~= ivs(before).push(idv));
                assert forall|a: int, b: int| 0 <= a < v@.len() && 0 <= b < v@.len() && a != b implies iv(#[trigger] v@[a]) != iv(#[trigger] v@[b]) by {
                    if a < before.len() && b < before.len() {
                        assert(v@[a] == before[a] && v@[b] == before[b]);
                    } else if a < before.len() {
                        assert(v@[a] == before[a]);
                    } else if b < before.len() {
                        assert(v@[b] == before[b]);
                    }
                }
                assert forall|x: (Seq<char>, Seq<char>)| ivs(v@).contains(x) <==> ivs(before).contains(x) || x == idv by {
                    if ivs(v@).contains(x) {
                        let k = choose|k: int| 0 <= k < ivs(v@).len() && ivs(v@)[k] == x;
                        if k < before.len() {
                            assert(ivs(before)[k] == x);
                        }
                    }
                    if ivs(before).contains(x) {
                        let k = choose|k: int| 0 <= k < ivs(before).len() && ivs(before)[k] == x;
                        assert(ivs(v@)[k] == x);
                    }
                    if x == idv {
                        assert(ivs(v@)[before.len() as int] == x);
                    }
                }
                assert forall|x: (Seq<char>, Seq<char>)| ivs(v@).contains(x) <==> ivs(start).contains(x) || has_ident(next, x) by {
                    assert(ivs(v@).contains(x) <==> ivs(before).contains(x) || x == idv);
                }
            }
        }
        i = i + 1;
    }
    proof {
        assert(rows@.take(rows@.len() as int) =~= rows@);
        assert forall|x: (Seq<char>, Seq<char>)| ivs(v@).contains(x) <==> ivs(start).contains(x) || has_ident(rows@, x) by {
            assert(ivs(v@).contains(x) <==> ivs(start).contains(x) || has_ident(rows@.take(rows@.len() as int), x));
        }
    }
}

/// Every key placed in a run, each once, in `(kind, key)` order.
fn placed_idents(edges: &Vec<RowEntry>, buckets: &Vec<RowEntry>) -> (r: Vec<Ident>)
    ensures
        strictly_sorted(r@),
        forall|x: (Seq<char>, Seq<char>)| ivs(r@).contains(x) <==> placed(edges@, buckets@, x),
{
    let mut v: Vec<Ident> = Vec::new();
    proof {
        assert(ivs(v@) =~= Seq::<(Seq<char>, Seq<char>)>::empty());
    }
    let ghost v0 = v@;
    add_idents(&mut v, edges);
    let ghost v1 = v@;
    proof {
        assert forall|x: (Seq<char>, Seq<char>)| ivs(v1).contains(x) <==> has_ident(edges@, x) by {
            assert(ivs(v1).contains(x) <==> ivs(v0).contains(x) || has_ident(edges@, x));
        }
    }
    add_idents(&mut v, buckets);
    let ghost m = v@;
    proof {
        assert forall|x: (Seq<char>, Seq<char>)| ivs(m).contains(x) <==> ivs(v1).contains(x) || has_ident(buckets@, x) by {}
    }
    proof {
        assert forall|a: int, b: int| 0 <= a < m.len() && 0 <= b < m.len() && a != b implies !(#[trigger] m[a]).ties(#[trigger] m[b]) by {}
    }
    let sorted = sort_ranked(v);
    proof {
        broadcast use vstd::seq_lib::group_to_multiset_ensures;
        let st = sorted@;
        assert forall|x: (Seq<char>, Seq<char>)| ivs(st).contains(x) <==> placed(edges@, buckets@, x) by {
            if ivs(st).contains(x) {
                let k = choose|k: int| 0 <= k < ivs(st).len() && ivs(st)[k] == x;
                assert(st.contains(st[k]));
                vstd::seq_lib::to_multiset_contains(st, st[k]);
                vstd::seq_lib::to_multiset_contains(m, st[k]);
                let p = choose|p: int| 0 <= p < m.len() && m[p] == st[k];
                assert(ivs(m)[p] == x);
            }
            if ivs(m).contains(x) {
                let p = choose|p: int| 0 <= p < ivs(m).len() && ivs(m)[p] == x;
                assert(m.contains(m[p]));
                vstd::seq_lib::to_multiset_contains(m, m[p]);
                vstd::seq_lib::to_multiset_contains(st, m[p]);
                let k = choose|k: int| 0 <= k < st.len() && st[k] == m[p];
                assert(ivs(st)[k] == x);
            }
        }
    }
    sorted
}

/// Whether some row of `rows` has identity `id`.
fn carries(rows: &Vec<RowEntry>, id: &Ident) -> (r: bool)
    ensures
        r == has_ident(rows@, iv(*id)),
{
    let mut i: usize = 0;
    while i < rows.len()
        invariant
            i <= rows@.len(),
            forall|j: int| 0 <= j < i ==> identity(#[trigger] rows@[j]) != iv(*id),
        decreases rows@.len() - i,
    {
        let here = ident_of(&rows[i]);
        if same_ident(&here, id) {
            return true;
        }
        i = i + 1;
    }
    false
}

/// Some row among the first `k` of `rows` has identity `id` and sits in bucket `n`.
pub open spec fn in_below(rows: Seq<RowEntry>, id: (Seq<char>, Seq<char>), n: Seq<char>, k: int) -> bool {
    exists|q: int| 0 <= q < k && identity(#[trigger] rows[q]) == id && or_empty(rows[q].bucket) == n
}

/// The buckets key `id` sits in within a run.
fn names_at(edges: &Vec<RowEntry>, buckets: &Vec<RowEntry>, id: &Ident) -> (r: Vec<String>)
    ensures
        forall|n: Seq<char>| strs(r@).contains(n) <==> in_bucket(edges@, buckets@, iv(*id), n),
{
    let mut out: Vec<String> = Vec::new();
    if carries(edges, id) {
        add_distinct(&mut out, "edges");
    }
    let ghost start = out@;
    proof {
        reveal_strlit("edges");
        assert forall|n: Seq<char>| strs(start).contains(n) <==> (n == "edges"@ && has_ident(edges@, iv(*id))) by {}
    }
    let mut i: usize = 0;
    while i < buckets.len()
        invariant
            i <= buckets@.len(),
            forall|n: Seq<char>| strs(start).contains(n) <==> (n == "edges"@ && has_ident(edges@, iv(*id))),
            forall|n: Seq<char>| #[trigger] strs(out@).contains(n) <==> strs(start).contains(n) || in_below(buckets@, iv(*id), n, i as int),
        decreases buckets@.len() - i,
    {
        let row = &buckets[i];
        let here = ident_of(row);
        let name = text_or_empty(&row.bucket);
        let hit = same_ident(&here, id);
        let ghost before = out@;
        if hit {
            add_distinct(&mut out, name.as_str());
        }
        proof {
            assert forall|n: Seq<char>| #[trigger] strs(out@).contains(n) <==> strs(start).contains(n) || in_below(buckets@, iv(*id), n, i + 1) by {
                assert(strs(before).contains(n) <==> strs(start).contains(n) || in_below(buckets@, iv(*id), n, i as int));
                if hit {
                    assert(strs(out@).contains(n) <==> strs(before).contains(n) || n == name@);
                } else {
                    assert(out@ == before);
                }
                if in_below(buckets@, iv(*id), n, i + 1) {
                    let q = choose|q: int| 0 <= q < i + 1 && identity(#[trigger] buckets@[q]) == iv(*id) && or_empty(buckets@[q].bucket) == n;
                    if q == i {
                        assert(hit && n == name@);
                    }
                }
                if in_below(buckets@, iv(*id), n, i as int) {
                    let q = choose|q: int| 0 <= q < i && identity(#[trigger] buckets@[q]) == iv(*id) && or_empty(buckets@[q].bucket) == n;
                    assert(0 <= q < i + 1);
                }
                if hit && n == name@ {
                    assert(identity(buckets@[i as int]) == iv(*id) && or_empty(buckets@[i as int].bucket) == n);
                }
            }
        }
        i = i + 1;
    }
    proof {
        assert forall|n: Seq<char>| strs(out@).contains(n) <==> in_bucket(edges@, buckets@, iv(*id), n) by {
            assert(strs(out@).contains(n) <==> strs(start).contains(n) || in_below(buckets@, iv(*id), n, buckets@.len() as int));
        }
    }
    out
}

/// Some row among the first `k` of `rows` has identity `id` and names source `s`.
pub open spec fn from_below(rows: Seq<RowEntry>, id: (Seq<char>, Seq<char>), s: Seq<char>, k: int) -> bool {
    exists|q: int| 0 <= q < k && identity(#[trigger] rows[q]) == id && names_source(rows[q], s)
}

/// The sources the rows carrying key `id` name, in one relation.
fn sources_in(rows: &Vec<RowEntry>, id: &Ident) -> (r: Vec<String>)
    ensures
        forall|s: Seq<char>| strs(r@).contains(s) <==> has_ident_from(rows@, iv(*id), s),
{
    let mut out: Vec<String> = Vec::new();
    let mut i: usize = 0;
    while i < rows.len()
        invariant
            i <= rows@.len(),
            forall|s: Seq<char>| #[trigger] strs(out@).contains(s) <==> from_below(rows@, iv(*id), s, i as int),
        decreases rows@.len() - i,
    {
        let row = &rows[i];
        let here = ident_of(row);
        let hit = same_ident(&here, id);
        let ghost before = out@;
        if hit {
            if let Some(x) = &row.source {
                add_distinct(&mut out, x.as_str());
            }
            let ghost s1 = out@;
            if let Some(x) = &row.from {
                add_distinct(&mut out, x.as_str());
            }
            let ghost s2 = out@;
            if let Some(x) = &row.to {
                add_distinct(&mut out, x.as_str());
            }
            proof {
                assert forall|s: Seq<char>| strs(out@).contains(s) <==> strs(before).contains(s) || names_source(*row, s) by {
                    assert(strs(s1).contains(s) <==> strs(before).contains(s) || otv(row.source) == Some(s));
                    assert(strs(s2).contains(s) <==> strs(s1).contains(s) || otv(row.from) == Some(s));
                    assert(strs(out@).contains(s) <==> strs(s2).contains(s) || otv(row.to) == Some(s));
                }
            }
        }
        proof {
            assert forall|s: Seq<char>| #[trigger] strs(out@).contains(s) <==> from_below(rows@, iv(*id), s, i + 1) by {
                assert(strs(before).contains(s) <==> from_below(rows@, iv(*id), s, i as int));
                if hit {
                    assert(strs(out@).contains(s) <==> strs(before).contains(s) || names_source(*row, s));
                } else {
                    assert(out@ == before);
                }
                if from_below(rows@, iv(*id), s, i + 1) {
                    let q = choose|q: int| 0 <= q < i + 1 && identity(#[trigger] rows@[q]) == iv(*id) && names_source(rows@[q], s);
                    if q == i {
                        assert(hit);
                    }
                }
                if from_below(rows@, iv(*id), s, i as int) {
                    let q = choose|q: int| 0 <= q < i && identity(#[trigger] rows@[q]) == iv(*id) && names_source(rows@[q], s);
                    assert(0 <= q < i + 1);
                }
                if hit && names_source(*row, s) {
                    assert(identity(rows@[i as int]) == iv(*id));
                }
            }
        }
        i = i + 1;
    }
    proof {
        assert forall|s: Seq<char>| strs(out@).contains(s) <==> has_ident_from(rows@, iv(*id), s) by {
            assert(strs(out@).contains(s) <==> from_below(rows@, iv(*id), s, rows@.len() as int));
        }
    }
    out
}

/// Whether `x` and `y` hold the same texts.
fn same_set(x: &Vec<String>, y: &Vec<String>) -> (r: bool)
    ensures
        r == forall|s: Seq<char>| strs(x@).contains(s) <==> strs(y@).contains(s),
{
    let mut i: usize = 0;
    while i < x.len()
        invariant
            i <= x@.len(),
            forall|j: int| 0 <= j < i ==> strs(y@).contains(#[trigger] strs(x@)[j]),
        decreases x@.len() - i,
    {
        if !listed(y, x[i].as_str()) {
            proof {
                assert(strs(x@).contains(strs(x@)[i as int]));
            }
            return false;
        }
        i = i + 1;
    }
    let mut j: usize = 0;
    while j < y.len()
        invariant
            j <= y@.len(),
            forall|k: int| 0 <= k < x@.len() ==> strs(y@).contains(#[trigger] strs(x@)[k]),
            forall|k: int| 0 <= k < j ==> strs(x@).contains(#[trigger] strs(y@)[k]),
        decreases y@.len() - j,
    {
        if !listed(x, y[j].as_str()) {
            proof {
                assert(strs(y@).contains(strs(y@)[j as int]));
            }
            return false;
        }
        j = j + 1;
    }
    proof {
        assert forall|s: Seq<char>| strs(x@).contains(s) <==> strs(y@).contains(s) by {
            if strs(x@).contains(s) {
                let k = choose|k: int| 0 <= k < strs(x@).len() && strs(x@)[k] == s;
            }
            if strs(y@).contains(s) {
                let k = choose|k: int| 0 <= k < strs(y@).len() && strs(y@)[k] == s;
            }
        }
    }
    true
}

/// Whether some text of `x` is among `blinds`.
fn any_listed(x: &Vec<String>, blinds: &Vec<String>) -> (r: bool)
    ensures
        r == exists|s: Seq<char>| strs(x@).contains(s) && strs(blinds@).contains(s),
{
    let mut i: usize = 0;
    while i < x.len()
        invariant
            i <= x@.len(),
            forall|j: int| 0 <= j < i ==> !strs(blinds@).contains(#[trigger] strs(x@)[j]),
        decreases x@.len() - i,
    {
        if listed(blinds, x[i].as_str()) {
            proof {
                assert(strs(x@).contains(strs(x@)[i as int]));
            }
            return true;
        }
        i = i + 1;
    }
    proof {
        if exists|s: Seq<char>| strs(x@).contains(s) && strs(blinds@).contains(s) {
            let s = choose|s: Seq<char>| strs(x@).contains(s) && strs(blinds@).contains(s);
            let k = choose|k: int| 0 <= k < strs(x@).len() && strs(x@)[k] == s;
        }
    }
    false
}

/// A transition: a key present in both runs whose bucket placement changed, the placements on
/// each side, and whether a source its rows name is a blindness suspect.
pub struct Transition {
    pub kind: String,
    pub key: String,
    pub from: Vec<Text>,
    pub to: Vec<Text>,
    pub blind: bool,
}

/// The key of a transition.
pub open spec fn tv(t: Transition) -> (Seq<char>, Seq<char>) {
    (t.kind@, t.key@)
}

impl Ranked for Transition {
    open spec fn before(self, other: Self) -> bool {
        ident_lt(tv(self), tv(other))
    }

    open spec fn ties(self, other: Self) -> bool {
        tv(self) == tv(other)
    }

    fn is_before(&self, other: &Self) -> (r: bool) {
        match order_str(self.kind.as_str(), other.kind.as_str()) {
            Cmp::Less => true,
            Cmp::Greater => false,
            Cmp::Equal => order_str(self.key.as_str(), other.key.as_str()) == Cmp::Less,
        }
    }

    proof fn lemma_order(a: Self, b: Self, c: Self) {
        lemma_ident_order(tv(a), tv(b), tv(c));
    }
}

/// `t` reports key `tv(t)` correctly: it moved, `from` and `to` are its sorted placements in the
/// two runs, and `blind` says whether a source its rows name is a blindness suspect.
pub open spec fn transition_is(sa: Seq<SourceEntry>, sb: Seq<SourceEntry>, a: Placement, b: Placement, t: Transition) -> bool {
    &&& moved(a, b, tv(t))
    &&& strictly_sorted(t.from@) && forall|n: Seq<char>| texts(t.from@).contains(n) <==> in_bucket(a.edges, a.buckets, tv(t), n)
    &&& strictly_sorted(t.to@) && forall|n: Seq<char>| texts(t.to@).contains(n) <==> in_bucket(b.edges, b.buckets, tv(t), n)
    &&& t.blind == moved_blind(sa, sb, a, b, tv(t))
}

/// Some transition of `ts` is for key `id`.
pub open spec fn reported(ts: Seq<Transition>, id: (Seq<char>, Seq<char>)) -> bool {
    exists|k: int| 0 <= k < ts.len() && tv(#[trigger] ts[k]) == id
}

/// `ts` are the transitions between placements `a` and `b`: every key that moved, once each, in
/// `(kind, key)` order.
pub open spec fn transitions_are(sa: Seq<SourceEntry>, sb: Seq<SourceEntry>, a: Placement, b: Placement, ts: Seq<Transition>) -> bool {
    &&& strictly_sorted(ts)
    &&& forall|k: int| 0 <= k < ts.len() ==> transition_is(sa, sb, a, b, #[trigger] ts[k])
    &&& forall|id: (Seq<char>, Seq<char>)| moved(a, b, id) ==> #[trigger] reported(ts, id)
}

/// The transition for key `id`, when it moved.
fn transition_for(
    sa: &Vec<SourceEntry>,
    sb: &Vec<SourceEntry>,
    blinds: &Vec<String>,
    ea: &Vec<RowEntry>,
    ba: &Vec<RowEntry>,
    eb: &Vec<RowEntry>,
    bb: &Vec<RowEntry>,
    id: &Ident,
) -> (r: Option<Transition>)
    requires
        forall|x: Seq<char>| strs(blinds@).contains(x) <==> blind(sa@, sb@, x),
        placed(ea@, ba@, iv(*id)),
    ensures
        r is Some <==> moved(Placement { edges: ea@, buckets: ba@ }, Placement { edges: eb@, buckets: bb@ }, iv(*id)),
        r matches Some(t) ==> tv(t) == iv(*id) && transition_is(
            sa@,
            sb@,
            Placement { edges: ea@, buckets: ba@ },
            Placement { edges: eb@, buckets: bb@ },
            t,
        ),
{
    let pa = Ghost(Placement { edges: ea@, buckets: ba@ });
    let pb = Ghost(Placement { edges: eb@, buckets: bb@ });
    if !(carries(eb, id) || carries(bb, id)) {
        return None;
    }
    let names_a = names_at(ea, ba, id);
    let names_b = names_at(eb, bb, id);
    if same_set(&names_a, &names_b) {
        proof {
            assert forall|n: Seq<char>| in_bucket(ea@, ba@, iv(*id), n) == in_bucket(eb@, bb@, iv(*id), n) by {
                assert(strs(names_a@).contains(n) <==> strs(names_b@).contains(n));
            }
        }
        return None;
    }
    let from = sorted_texts(&names_a);
    let to = sorted_texts(&names_b);
    let s1 = sources_in(ea, id);
    let s2 = sources_in(ba, id);
    let s3 = sources_in(eb, id);
    let s4 = sources_in(bb, id);
    let b1 = any_listed(&s1, blinds);
    let b2 = any_listed(&s2, blinds);
    let b3 = any_listed(&s3, blinds);
    let b4 = any_listed(&s4, blinds);
    let suspect = b1 || b2 || b3 || b4;
    let t = Transition { kind: owned(id.kind.as_str()), key: owned(id.key.as_str()), from, to, blind: suspect };
    proof {
        let idv = iv(*id);
        assert(tv(t) == idv);
        let n0 = choose|n: Seq<char>| !(strs(names_a@).contains(n) <==> strs(names_b@).contains(n));
        assert(in_bucket(ea@, ba@, idv, n0) != in_bucket(eb@, bb@, idv, n0));
        assert(moved(pa@, pb@, idv));
        assert(t.blind == moved_blind(sa@, sb@, pa@, pb@, idv)) by {
            if b1 {
                let s0 = choose|s: Seq<char>| strs(s1@).contains(s) && strs(blinds@).contains(s);
                assert((sourced(ea@, ba@, idv, s0) || sourced(eb@, bb@, idv, s0)) && blind(sa@, sb@, s0));
            }
            if b2 {
                let s0 = choose|s: Seq<char>| strs(s2@).contains(s) && strs(blinds@).contains(s);
                assert((sourced(ea@, ba@, idv, s0) || sourced(eb@, bb@, idv, s0)) && blind(sa@, sb@, s0));
            }
            if b3 {
                let s0 = choose|s: Seq<char>| strs(s3@).contains(s) && strs(blinds@).contains(s);
                assert((sourced(ea@, ba@, idv, s0) || sourced(eb@, bb@, idv, s0)) && blind(sa@, sb@, s0));
            }
            if b4 {
                let s0 = choose|s: Seq<char>| strs(s4@).contains(s) && strs(blinds@).contains(s);
                assert((sourced(ea@, ba@, idv, s0) || sourced(eb@, bb@, idv, s0)) && blind(sa@, sb@, s0));
            }
            if moved_blind(sa@, sb@, pa@, pb@, idv) {
                let s0 = choose|s: Seq<char>| (sourced(ea@, ba@, idv, s) || sourced(eb@, bb@, idv, s)) && blind(sa@, sb@, s);
                assert(strs(blinds@).contains(s0));
                if has_ident_from(ea@, idv, s0) {
                    assert(strs(s1@).contains(s0));
                } else if has_ident_from(ba@, idv, s0) {
                    assert(strs(s2@).contains(s0));
                } else if has_ident_from(eb@, idv, s0) {
                    assert(strs(s3@).contains(s0));
                } else {
                    assert(strs(s4@).contains(s0));
                }
            }
        }
    }
    Some(t)
}

/// Every key present in both runs whose bucket placement changed, in `(kind, key)` order. Pure
/// additions and pure removals are not transitions: they ride the per-relation lists.
fn transitions(
    sa: &Vec<SourceEntry>,
    sb: &Vec<SourceEntry>,
    blinds: &Vec<String>,
    ea: &Vec<RowEntry>,
    ba: &Vec<RowEntry>,
    eb: &Vec<RowEntry>,
    bb: &Vec<RowEntry>,
) -> (r: Vec<Transition>)
    requires
        forall|x: Seq<char>| strs(blinds@).contains(x) <==> blind(sa@, sb@, x),
    ensures
        transitions_are(sa@, sb@, Placement { edges: ea@, buckets: ba@ }, Placement { edges: eb@, buckets: bb@ }, r@),
{
    let ghost pa = Placement { edges: ea@, buckets: ba@ };
    let ghost pb = Placement { edges: eb@, buckets: bb@ };
    let ids = placed_idents(ea, ba);
    let mut out: Vec<Transition> = Vec::new();
    let mut i: usize = 0;
    while i < ids.len()
        invariant
            i <= ids@.len(),
            pa == (Placement { edges: ea@, buckets: ba@ }),
            pb == (Placement { edges: eb@, buckets: bb@ }),
            forall|x: Seq<char>| strs(blinds@).contains(x) <==> blind(sa@, sb@, x),
            strictly_sorted(ids@),
            forall|x: (Seq<char>, Seq<char>)| ivs(ids@).contains(x) <==> placed(ea@, ba@, x),
            strictly_sorted(out@),
            forall|k: int, j: int| 0 <= k < out@.len() && i <= j < ids@.len() ==> ident_lt(tv(#[trigger] out@[k]), iv(#[trigger] ids@[j])),
            forall|k: int| 0 <= k < out@.len() ==> transition_is(sa@, sb@, pa, pb, #[trigger] out@[k]),
            forall|j: int| 0 <= j < i && moved(pa, pb, iv(#[trigger] ids@[j])) ==> reported(out@, iv(ids@[j])),
        decreases ids@.len() - i,
    {
        proof {
            assert(ivs(ids@)[i as int] == iv(ids@[i as int]));
            assert(ivs(ids@).contains(iv(ids@[i as int])));
        }
        let found = transition_for(sa, sb, blinds, ea, ba, eb, bb, &ids[i]);
        let ghost before = out@;
        let ghost idv = iv(ids@[i as int]);
        match found {
            Some(t) => {
                out.push(t);
                proof {
                    assert(tv(out@[before.len() as int]) == idv);
                    assert(reported(out@, idv));
                    assert forall|p: int, q: int| 0 <= p < q < out@.len() implies (#[trigger] out@[p]).before(#[trigger] out@[q]) by {
                        if q < before.len() {
                            assert(before[p].before(before[q]));
                        } else {
                            assert(out@[p] == before[p]);
                            assert(ident_lt(tv(before[p]), iv(ids@[i as int])));
                        }
                    }
                    assert forall|k: int, j: int| 0 <= k < out@.len() && i + 1 <= j < ids@.len() implies ident_lt(tv(#[trigger] out@[k]), iv(#[trigger] ids@[j])) by {
                        assert(ids@[i as int].before(ids@[j]));
                        if k < before.len() {
                            assert(out@[k] == before[k]);
                            lemma_ident_order(tv(before[k]), idv, iv(ids@[j]));
                        }
                    }
                    assert forall|j: int| 0 <= j < i + 1 && moved(pa, pb, iv(#[trigger] ids@[j])) implies reported(out@, iv(ids@[j])) by {
                        if j < i {
                            let k = choose|k: int| 0 <= k < before.len() && tv(#[trigger] before[k]) == iv(ids@[j]);
                            assert(out@[k] == before[k]);
                        }
                    }
                    assert forall|k: int| 0 <= k < out@.len() implies transition_is(sa@, sb@, pa, pb, #[trigger] out@[k]) by {
                        if k < before.len() {
                            assert(out@[k] == before[k]);
                        }
                    }
                }
            },
            None => {
                proof {
                    assert forall|k: int, j: int| 0 <= k < out@.len() && i + 1 <= j < ids@.len() implies ident_lt(tv(#[trigger] out@[k]), iv(#[trigger] ids@[j])) by {}
                }
            },
        }
        i = i + 1;
    }
    proof {
        assert forall|id: (Seq<char>, Seq<char>)| moved(pa, pb, id) implies #[trigger] reported(out@, id) by {
            assert(ivs(ids@).contains(id));
            let j = choose|j: int| 0 <= j < ivs(ids@).len() && ivs(ids@)[j] == id;
            assert(iv(ids@[j]) == id);
        }
    }
    out
}

// ---------------------------------------------------------------------------------------------
// the whole diff

/// What a forced diff of two builds' manifests discloses beside the two build names.
pub const TOOL_DRIFT_WARNING: &'static str = "these manifests were produced by DIFFERENT zzop builds — an extraction or join change in zzop itself can move keys between buckets with no change to the analyzed code, so every delta below is unattributable";

/// The `Debug` spelling of a text: quoted, with the escapes `str`'s `Debug` applies.
pub uninterp spec fn debug_quoted(s: Seq<char>) -> Seq<char>;

/// `format!("{:?}", s)`: `str`'s `Debug` spelling. Its result is named, not written out: which
/// characters `std` escapes follows its Unicode tables.
#[verifier::external_body]
fn debug_text(s: &str) -> (r: String)
    ensures
        r@ == debug_quoted(s@),
{
    format!("{s:?}")
}

/// The refusal of a diff across builds, around the two builds' quoted names.
pub open spec fn refusal_from(quoted_a: Seq<char>, quoted_b: Seq<char>) -> Seq<char> {
    "refusing to diff manifests produced by different zzop builds — "@ + quoted_a + " vs "@ + quoted_b
        + ". A version/parser change moves keys between buckets on its own, so the delta would read as the analyzed code breaking a contract it never broke. Re-run `zzop manifest` on BOTH trees with one binary, or pass --allow-tool-drift to diff anyway (the reply then carries a toolDrift disclosure)"@
}

/// The refusal of a diff between manifests of builds `a` and `b`.
pub open spec fn refusal_text(a: Seq<char>, b: Seq<char>) -> Seq<char> {
    refusal_from(debug_quoted(a), debug_quoted(b))
}

/// The refusal message, given the two builds' names as `Debug` spells them.
pub fn refusal_message(quoted_a: &str, quoted_b: &str) -> (r: String)
    ensures
        r@ == refusal_from(quoted_a@, quoted_b@),
{
    let mut e = owned("refusing to diff manifests produced by different zzop builds — ");
    push_str(&mut e, quoted_a);
    push_str(&mut e, " vs ");
    push_str(&mut e, quoted_b);
    push_str(
        &mut e,
        ". A version/parser change moves keys between buckets on its own, so the delta would read as the analyzed code breaking a contract it never broke. Re-run `zzop manifest` on BOTH trees with one binary, or pass --allow-tool-drift to diff anyway (the reply then carries a toolDrift disclosure)",
    );
    e
}

/// The disclosure a forced diff across builds carries: both builds, and the warning.
pub struct ToolDrift {
    pub a: String,
    pub b: String,
    pub warning: String,
}

/// The delta between two manifests. Rows are named by position: `added` in the second
/// manifest's relation, `removed` in the first's.
pub struct ManifestDiff {
    pub tool_drift: Option<ToolDrift>,
    pub tool: String,
    pub transitions: Vec<Transition>,
    pub sources: SourcesReport,
    pub provides: RelationDiff,
    pub edges: RelationDiff,
    pub buckets: RelationDiff,
}

/// The source entries of a checked manifest.
pub open spec fn srcs(d: ManifestDoc) -> Seq<SourceEntry> {
    d.sources->0@
}

/// One run's edges and buckets, as the transitions read them.
pub open spec fn placement(d: ManifestDoc) -> Placement {
    Placement { edges: d.edges->0@, buckets: d.buckets->0@ }
}

/// `d` is the delta between the manifests `a` and `b`, whose builds either match or were allowed
/// to differ.
pub open spec fn delta_is(a: ManifestDoc, b: ManifestDoc, d: ManifestDiff) -> bool {
    let ta = a.tool->0@;
    let tb = b.tool->0@;
    &&& d.tool@ == ta
    &&& (d.tool_drift is None <==> ta == tb)
    &&& (d.tool_drift matches Some(t) ==> t.a@ == ta && t.b@ == tb && t.warning@ == TOOL_DRIFT_WARNING@)
    &&& transitions_are(srcs(a), srcs(b), placement(a), placement(b), d.transitions@)
    &&& sources_report_is(srcs(a), srcs(b), d.sources)
    &&& relation_diff_is(srcs(a), srcs(b), a.provides->0@, b.provides->0@, d.provides)
    &&& relation_diff_is(srcs(a), srcs(b), a.edges->0@, b.edges->0@, d.edges)
    &&& relation_diff_is(srcs(a), srcs(b), a.buckets->0@, b.buckets->0@, d.buckets)
}

/// The outcome of diffing `a` against `b`: the first argument's shape error, else the second's,
/// else the refusal of two builds unless allowed, else the delta.
pub open spec fn diff_is(a: ManifestDoc, b: ManifestDoc, allow_tool_drift: bool, r: Result<ManifestDiff, String>) -> bool {
    if !is_manifest(a) {
        r matches Err(e) && check_result(a, "the first"@, Result::<(), String>::Err(e))
    } else if !is_manifest(b) {
        r matches Err(e) && check_result(b, "the second"@, Result::<(), String>::Err(e))
    } else if a.tool->0@ != b.tool->0@ && !allow_tool_drift {
        r matches Err(e) && e@ == refusal_text(a.tool->0@, b.tool->0@)
    } else {
        r matches Ok(d) && delta_is(a, b, d)
    }
}

/// Diffs two manifests. `allow_tool_drift` turns the refusal of two builds' manifests into a
/// disclosure.
pub fn diff_manifests(a: &ManifestDoc, b: &ManifestDoc, allow_tool_drift: bool) -> (r: Result<ManifestDiff, String>)
    ensures
        diff_is(*a, *b, allow_tool_drift, r),
{
    match check_manifest(a, "the first") {
        Err(e) => {
            return Err(e);
        },
        Ok(()) => {},
    }
    match check_manifest(b, "the second") {
        Err(e) => {
            return Err(e);
        },
        Ok(()) => {},
    }
    let ta = a.tool.as_ref().unwrap();
    let tb = b.tool.as_ref().unwrap();
    let same = str_eq(ta.as_str(), tb.as_str());
    if !same && !allow_tool_drift {
        let qa = debug_text(ta.as_str());
        let qb = debug_text(tb.as_str());
        return Err(refusal_message(qa.as_str(), qb.as_str()));
    }
    let tool_drift = if same {
        None
    } else {
        Some(ToolDrift { a: owned(ta.as_str()), b: owned(tb.as_str()), warning: owned(TOOL_DRIFT_WARNING) })
    };
    let sa = a.sources.as_ref().unwrap();
    let sb = b.sources.as_ref().unwrap();
    let blinds = blind_sources(sa, sb);
    let ts = transitions(
        sa,
        sb,
        &blinds,
        a.edges.as_ref().unwrap(),
        a.buckets.as_ref().unwrap(),
        b.edges.as_ref().unwrap(),
        b.buckets.as_ref().unwrap(),
    );
    let sources = sources_report(sa, sb);
    let provides = relation_diff(sa, sb, &blinds, a.provides.as_ref().unwrap(), b.provides.as_ref().unwrap());
    let edges = relation_diff(sa, sb, &blinds, a.edges.as_ref().unwrap(), b.edges.as_ref().unwrap());
    let buckets = relation_diff(sa, sb, &blinds, a.buckets.as_ref().unwrap(), b.buckets.as_ref().unwrap());
    Ok(ManifestDiff { tool_drift, tool: owned(ta.as_str()), transitions: ts, sources, provides, edges, buckets })
}

// ---------------------------------------------------------------------------------------------
// laws

/// A delta that reports nothing: no drift, no transition, no source change, no row change.
pub open spec fn is_empty_delta(d: ManifestDiff) -> bool {
    &&& d.tool_drift is None
    &&& d.transitions@.len() == 0
    &&& d.sources.added@.len() == 0 && d.sources.removed@.len() == 0 && d.sources.coverage_dropped@.len() == 0
    &&& d.provides.added@.len() == 0 && d.provides.removed@.len() == 0
    &&& d.edges.added@.len() == 0 && d.edges.removed@.len() == 0
    &&& d.buckets.added@.len() == 0 && d.buckets.removed@.len() == 0
}

proof fn lemma_picks_self(rows: Seq<RowEntry>, n: int)
    requires
        n <= rows.len(),
    ensures
        picks(rows, row_texts(rows), n).len() == 0,
    decreases n,
{
    if n > 0 {
        lemma_picks_self(rows, n - 1);
        assert(row_texts(rows)[n - 1] == rows[n - 1].text@);
        assert(row_texts(rows).contains(rows[n - 1].text@));
    }
}

/// A manifest diffed against itself reports nothing, whether or not drift is allowed: the same
/// build, no transition, no source added, removed or less visible, and no row added or removed.
pub proof fn law_identical_manifests_diff_to_nothing(m: ManifestDoc, allow_tool_drift: bool, r: Result<ManifestDiff, String>)
    requires
        is_manifest(m),
        diff_is(m, m, allow_tool_drift, r),
    ensures
        r matches Ok(d) && is_empty_delta(d),
{
    let d = r->Ok_0;
    let ts = d.transitions@;
    if ts.len() > 0 {
        assert(transition_is(srcs(m), srcs(m), placement(m), placement(m), ts[0]));
    }
    lemma_picks_self(m.provides->0@, (m.provides->0@).len() as int);
    lemma_picks_self(m.edges->0@, (m.edges->0@).len() as int);
    lemma_picks_self(m.buckets->0@, (m.buckets->0@).len() as int);
    if d.sources.added@.len() > 0 {
        assert(texts(d.sources.added@).contains(texts(d.sources.added@)[0]));
    }
    if d.sources.removed@.len() > 0 {
        assert(texts(d.sources.removed@).contains(texts(d.sources.removed@)[0]));
    }
    if d.sources.coverage_dropped@.len() > 0 {
        let x = dvs(d.sources.coverage_dropped@)[0];
        assert(dvs(d.sources.coverage_dropped@).contains(x));
        assert(dropped_row(srcs(m), srcs(m), x));
        assert(!dropped(srcs(m), srcs(m), x.0));
    }
    assert(d.tool_drift is None);
    assert(d.transitions@.len() == 0);
    assert(d.sources.added@.len() == 0);
    assert(d.sources.removed@.len() == 0);
    assert(d.provides.added@.len() == 0 && d.provides.removed@.len() == 0);
    assert(d.edges.added@.len() == 0 && d.edges.removed@.len() == 0);
}

/// Every source of the first run is in the second with its coverage held.
pub open spec fn coverage_held(a: Seq<SourceEntry>, b: Seq<SourceEntry>) -> bool {
    forall|x: Seq<char>| #[trigger] cov(a, x) is Some ==> cov(b, x) is Some && !dropped(a, b, x)
}

/// Where every source of the first run is still there with its coverage held, nothing is tagged a
/// blindness suspect and no coverage drop is reported: the tag tracks the coverage fact, not
/// merely the removal.
pub proof fn law_held_coverage_tags_nothing(a: ManifestDoc, b: ManifestDoc, d: ManifestDiff)
    requires
        is_manifest(a),
        is_manifest(b),
        delta_is(a, b, d),
        coverage_held(srcs(a), srcs(b)),
    ensures
        d.sources.coverage_dropped@.len() == 0,
        forall|k: int| 0 <= k < d.transitions@.len() ==> !(#[trigger] d.transitions@[k]).blind,
        forall|k: int| 0 <= k < d.provides.suspect@.len() ==> !(#[trigger] d.provides.suspect@[k]),
        forall|k: int| 0 <= k < d.edges.suspect@.len() ==> !(#[trigger] d.edges.suspect@[k]),
        forall|k: int| 0 <= k < d.buckets.suspect@.len() ==> !(#[trigger] d.buckets.suspect@[k]),
{
    assert forall|x: Seq<char>| !blind(srcs(a), srcs(b), x) by {
        if cov(srcs(a), x) is Some {
        }
    }
    if d.sources.coverage_dropped@.len() > 0 {
        let x = dvs(d.sources.coverage_dropped@)[0];
        assert(dvs(d.sources.coverage_dropped@).contains(x));
        assert(dropped_row(srcs(a), srcs(b), x));
        assert(cov(srcs(a), x.0) is Some);
    }
    assert forall|k: int| 0 <= k < d.transitions@.len() implies !(#[trigger] d.transitions@[k]).blind by {
        assert(transition_is(srcs(a), srcs(b), placement(a), placement(b), d.transitions@[k]));
    }
}

} // verus!
