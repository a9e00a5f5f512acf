//! The structural contract manifest of a cross-layer run, and (in [`diff`]) the delta between two
//! of them. A manifest carries identity only: which trees were analyzed and how visible each was,
//! and the deduplicated, sorted `(kind, key, source)` identities of the provides, the joined edges
//! and the bucket memberships. No file, no line, no absolute root: a pure refactor manifests
//! identically, and two machines can compare.
//!
//! Every value a manifest copies from the engine is carried as its compact JSON spelling, so the
//! rows are exactly the engine's values; a row's compact spelling is also its identity and its
//! sort key.
pub mod diff;

use vstd::prelude::*;

use crate::graph::distinct::{lemma_sorted_texts_unique, sorted_texts, texts, Text};
use crate::json::{comma_joined, json_quoted, json_string, push_joined};
use crate::output::rule_prose::template::strs;
use crate::sort::{sort_ranked, strictly_sorted, tie_free, Ranked};
use crate::text::{lemma_lex_asym, lemma_lex_irreflexive, lemma_lex_total, lemma_lex_trans, lex_lt, order_str, owned, push_str, Cmp};

verus! {

broadcast use vstd::seq_lib::group_seq_properties;

/// A provide's identity: its kind and key, as JSON text.
pub struct Identity {
    pub kind: String,
    pub key: String,
}

/// A joined edge's identity: kind, key and the two endpoint sources, as JSON text.
pub struct LinkEntry {
    pub kind: String,
    pub key: String,
    pub from: String,
    pub to: String,
}

/// A bucket member: its kind and source as JSON text, and its `key` and `raw` as JSON text where
/// each is a string (an unresolved consume has no key, and its raw expression is its identity).
pub struct BucketEntry {
    pub kind: String,
    pub key: Option<String>,
    pub raw: Option<String>,
    pub source: String,
}

/// One analyzed tree: its source id as JSON text and as text where it is a string, its two
/// coverage facts as JSON text, and its provides.
pub struct ManifestTree {
    pub source_id: String,
    pub source_text: Option<String>,
    pub join_contribution_zero: String,
    pub degraded: String,
    pub provides: Vec<Identity>,
}

/// What the manifest reads of a cross-layer run.
pub struct ManifestRun {
    pub trees: Vec<ManifestTree>,
    pub edges: Vec<LinkEntry>,
    pub unconsumed_provides: Vec<BucketEntry>,
    pub unprovided_consumes: Vec<BucketEntry>,
    pub unresolved_consumes: Vec<BucketEntry>,
    pub external_consumes: Vec<BucketEntry>,
    pub ambiguous_consumes: Vec<BucketEntry>,
}

/// One `sources[]` row: which tree it came from, and what it carries.
pub struct SourceRow {
    pub index: usize,
    pub source_text: Option<String>,
    pub source_id: String,
    pub join_contribution_zero: String,
    pub degraded: String,
}

/// The view of an optional text.
pub open spec fn otv(o: Option<String>) -> Option<Seq<char>> {
    match o {
        Some(s) => Some(s@),
        None => None,
    }
}

/// Optional texts in order: absent first, then by text.
pub open spec fn opt_lt(a: Option<Seq<char>>, b: Option<Seq<char>>) -> bool {
    match (a, b) {
        (None, Some(_)) => true,
        (Some(x), Some(y)) => lex_lt(x, y),
        _ => false,
    }
}

impl Ranked for SourceRow {
    /// By source id (a non-string one first), then by tree order.
    open spec fn before(self, other: Self) -> bool {
        opt_lt(otv(self.source_text), otv(other.source_text)) || (otv(self.source_text) == otv(other.source_text)
            && self.index < other.index)
    }

    open spec fn ties(self, other: Self) -> bool {
        otv(self.source_text) == otv(other.source_text) && self.index == other.index
    }

    fn is_before(&self, other: &Self) -> (r: bool) {
        match (&self.source_text, &other.source_text) {
            (None, Some(_)) => true,
            (Some(_), None) => false,
            (None, None) => self.index < other.index,
            (Some(x), Some(y)) => match order_str(x.as_str(), y.as_str()) {
                Cmp::Less => true,
                Cmp::Greater => false,
                Cmp::Equal => self.index < other.index,
            },
        }
    }

    proof fn lemma_order(a: Self, b: Self, c: Self) {
        match (otv(a.source_text), otv(b.source_text), otv(c.source_text)) {
            (Some(x), Some(y), Some(z)) => {
                lemma_lex_irreflexive(x);
                lemma_lex_total(x, y);
                lemma_lex_asym(x, y);
                if lex_lt(x, y) && lex_lt(y, z) {
                    lemma_lex_trans(x, y, z);
                }
                if lex_lt(x, y) && y == z {
                }
            },
            (Some(x), Some(y), None) => {
                lemma_lex_irreflexive(x);
                lemma_lex_total(x, y);
            },
            (Some(x), None, _) => {
                lemma_lex_irreflexive(x);
            },
            (None, Some(y), Some(z)) => {
                lemma_lex_irreflexive(y);
            },
            _ => {},
        }
    }
}

/// The view of a source row.
pub open spec fn srv(r: SourceRow) -> (int, Option<Seq<char>>, Seq<char>, Seq<char>, Seq<char>) {
    (r.index as int, otv(r.source_text), r.source_id@, r.join_contribution_zero@, r.degraded@)
}

/// The row tree `i` of `trees` contributes to `sources[]`.
pub open spec fn tree_row(trees: Seq<ManifestTree>, i: int) -> (int, Option<Seq<char>>, Seq<char>, Seq<char>, Seq<char>) {
    (i, otv(trees[i].source_text), trees[i].source_id@, trees[i].join_contribution_zero@, trees[i].degraded@)
}

/// A provide's row: `{"key":…,"kind":…,"source":…}`.
pub open spec fn provide_row(p: Identity, source: Seq<char>) -> Seq<char> {
    "{\"key\":"@ + p.key@ + ",\"kind\":"@ + p.kind@ + ",\"source\":"@ + source + "}"@
}

/// A joined edge's row: `{"from":…,"key":…,"kind":…,"to":…}`.
pub open spec fn edge_row(e: LinkEntry) -> Seq<char> {
    "{\"from\":"@ + e.from@ + ",\"key\":"@ + e.key@ + ",\"kind\":"@ + e.kind@ + ",\"to\":"@ + e.to@ + "}"@
}

/// A bucket member's identity key: its key, or its raw expression; none when it has neither.
pub open spec fn member_key(b: BucketEntry) -> Option<Seq<char>> {
    match b.key {
        Some(k) => Some(k@),
        None => otv(b.raw),
    }
}

/// A bucket membership's row: `{"bucket":"<name>","key":…,"kind":…,"source":…}`.
pub open spec fn bucket_row(bucket: Seq<char>, b: BucketEntry, key: Seq<char>) -> Seq<char> {
    "{\"bucket\":\""@ + bucket + "\",\"key\":"@ + key + ",\"kind\":"@ + b.kind@ + ",\"source\":"@ + b.source@ + "}"@
}

/// Whether `x` is the row of some provide of some tree.
pub open spec fn provided(trees: Seq<ManifestTree>, x: Seq<char>) -> bool {
    exists|i: int, j: int|
        0 <= i < trees.len() && 0 <= j < trees[i].provides@.len() && x == provide_row(
            #[trigger] trees[i].provides@[j],
            trees[i].source_id@,
        )
}

/// Whether `x` is the row of some joined edge.
pub open spec fn linked(edges: Seq<LinkEntry>, x: Seq<char>) -> bool {
    exists|j: int| 0 <= j < edges.len() && x == edge_row(#[trigger] edges[j])
}

/// Whether `x` is the row of some keyed member of bucket `name`.
pub open spec fn member(name: Seq<char>, items: Seq<BucketEntry>, x: Seq<char>) -> bool {
    exists|j: int| 0 <= j < items.len() && member_key(#[trigger] items[j]) is Some && x == bucket_row(name, items[j], member_key(items[j])->0)
}

/// Whether `x` is the row of some keyed member of one of the five non-edge buckets.
pub open spec fn bucketed(run: ManifestRun, x: Seq<char>) -> bool {
    ||| member("unconsumedProvides"@, run.unconsumed_provides@, x)
    ||| member("unprovidedConsumes"@, run.unprovided_consumes@, x)
    ||| member("unresolvedConsumes"@, run.unresolved_consumes@, x)
    ||| member("externalConsumes"@, run.external_consumes@, x)
    ||| member("ambiguousConsumes"@, run.ambiguous_consumes@, x)
}

/// `rows` holds one row per tree, ordered by source id and then tree order.
pub open spec fn sources_of(trees: Seq<ManifestTree>, rows: Seq<SourceRow>) -> bool {
    &&& strictly_sorted(rows)
    &&& rows.len() == trees.len()
    &&& forall|k: int| 0 <= k < rows.len() ==> 0 <= (#[trigger] rows[k]).index < trees.len() && srv(rows[k]) == tree_row(trees, rows[k].index as int)
    &&& forall|i: int| 0 <= i < trees.len() ==> #[trigger] has_row(rows, i)
}

/// Some row of `rows` came from tree `i`.
pub open spec fn has_row(rows: Seq<SourceRow>, i: int) -> bool {
    exists|k: int| 0 <= k < rows.len() && (#[trigger] rows[k]).index == i
}

/// A manifest.
pub struct Manifest {
    pub tool: String,
    pub sources: Vec<SourceRow>,
    pub provides: Vec<Text>,
    pub edges: Vec<Text>,
    pub buckets: Vec<Text>,
}

/// `m` is the manifest of `run` built by `tool`: one source row per tree, ordered by source id
/// and then tree order (never by coverage), and each relation's rows each once, in text order.
pub open spec fn manifest_of(run: ManifestRun, tool: Seq<char>, m: Manifest) -> bool {
    &&& m.tool@ == tool
    &&& sources_of(run.trees@, m.sources@)
    &&& strictly_sorted(m.provides@) && forall|x: Seq<char>| texts(m.provides@).contains(x) <==> provided(run.trees@, x)
    &&& strictly_sorted(m.edges@) && forall|x: Seq<char>| texts(m.edges@).contains(x) <==> linked(run.edges@, x)
    &&& strictly_sorted(m.buckets@) && forall|x: Seq<char>| texts(m.buckets@).contains(x) <==> bucketed(run, x)
}

fn provide_text(p: &Identity, source: &str) -> (r: String)
    ensures
        r@ == provide_row(*p, source@),
{
    let mut s = owned("{\"key\":");
    push_str(&mut s, p.key.as_str());
    push_str(&mut s, ",\"kind\":");
    push_str(&mut s, p.kind.as_str());
    push_str(&mut s, ",\"source\":");
    push_str(&mut s, source);
    push_str(&mut s, "}");
    s
}

fn edge_text(e: &LinkEntry) -> (r: String)
    ensures
        r@ == edge_row(*e),
{
    let mut s = owned("{\"from\":");
    push_str(&mut s, e.from.as_str());
    push_str(&mut s, ",\"key\":");
    push_str(&mut s, e.key.as_str());
    push_str(&mut s, ",\"kind\":");
    push_str(&mut s, e.kind.as_str());
    push_str(&mut s, ",\"to\":");
    push_str(&mut s, e.to.as_str());
    push_str(&mut s, "}");
    s
}

fn bucket_text(name: &str, b: &BucketEntry, key: &str) -> (r: String)
    ensures
        r@ == bucket_row(name@, *b, key@),
{
    let mut s = owned("{\"bucket\":\"");
    push_str(&mut s, name);
    push_str(&mut s, "\",\"key\":");
    push_str(&mut s, key);
    push_str(&mut s, ",\"kind\":");
    push_str(&mut s, b.kind.as_str());
    push_str(&mut s, ",\"source\":");
    push_str(&mut s, b.source.as_str());
    push_str(&mut s, "}");
    s
}

/// Every provide row of the trees.
fn provide_rows(trees: &Vec<ManifestTree>) -> (r: Vec<String>)
    ensures
        forall|x: Seq<char>| strs(r@).contains(x) <==> provided(trees@, x),
{
    let mut out: Vec<String> = Vec::new();
    let mut i: usize = 0;
    while i < trees.len()
        invariant
            i <= trees@.len(),
            forall|x: Seq<char>|
                strs(out@).contains(x) <==> exists|a: int, j: int|
                    0 <= a < i && 0 <= j < trees@[a].provides@.len() && x == provide_row(
                        #[trigger] trees@[a].provides@[j],
                        trees@[a].source_id@,
                    ),
        decreases trees@.len() - i,
    {
        let t = &trees[i];
        let mut j: usize = 0;
        while j < t.provides.len()
            invariant
                i < trees@.len(),
                t == trees@[i as int],
                j <= t.provides@.len(),
                forall|x: Seq<char>|
                    strs(out@).contains(x) <==> (exists|a: int, k: int|
                        0 <= a < i && 0 <= k < trees@[a].provides@.len() && x == provide_row(
                            #[trigger] trees@[a].provides@[k],
                            trees@[a].source_id@,
                        )) || (exists|k: int| 0 <= k < j && x == provide_row(#[trigger] t.provides@[k], t.source_id@)),
            decreases t.provides@.len() - j,
        {
            let row = provide_text(&t.provides[j], t.source_id.as_str());
            let ghost before = out@;
            let ghost rv = row@;
            out.push(row);
            proof {
                assert(strs(out@) =~= strs(before).push(rv));
                assert forall|x: Seq<char>| strs(out@).contains(x) <==> (exists|a: int, k: int|
                    0 <= a < i && 0 <= k < trees@[a].provides@.len() && x == provide_row(
                        #[trigger] trees@[a].provides@[k],
                        trees@[a].source_id@,
                    )) || (exists|k: int| 0 <= k < j + 1 && x == provide_row(#[trigger] t.provides@[k], t.source_id@)) by {
                    if x == rv {
                        assert(x == provide_row(t.provides@[j as int], t.source_id@));
                    }
                    if exists|k: int| 0 <= k < j + 1 && x == provide_row(#[trigger] t.provides@[k], t.source_id@) {
                        let k = choose|k: int| 0 <= k < j + 1 && x == provide_row(#[trigger] t.provides@[k], t.source_id@);
                        if k < j {
                            assert(strs(before).contains(x));
                        } else {
                            assert(strs(out@)[before.len() as int] == x);
                        }
                    }
                    if strs(before).contains(x) {
                        let q = choose|q: int| 0 <= q < strs(before).len() && strs(before)[q] == x;
                        assert(strs(out@)[q] == x);
                    }
                }
            }
            j = j + 1;
        }
        proof {
            assert forall|x: Seq<char>| strs(out@).contains(x) <==> exists|a: int, k: int|
                0 <= a < i + 1 && 0 <= k < trees@[a].provides@.len() && x == provide_row(
                    #[trigger] trees@[a].provides@[k],
                    trees@[a].source_id@,
                ) by {
                if exists|a: int, k: int|
                    0 <= a < i + 1 && 0 <= k < trees@[a].provides@.len() && x == provide_row(
                        #[trigger] trees@[a].provides@[k],
                        trees@[a].source_id@,
                    ) {
                    let (a, k) = choose|a: int, k: int|
                        0 <= a < i + 1 && 0 <= k < trees@[a].provides@.len() && x == provide_row(
                            #[trigger] trees@[a].provides@[k],
                            trees@[a].source_id@,
                        );
                    if a == i {
                        assert(x == provide_row(t.provides@[k], t.source_id@));
                    }
                }
            }
        }
        i = i + 1;
    }
    out
}

/// Every joined edge's row.
fn edge_rows(edges: &Vec<LinkEntry>) -> (r: Vec<String>)
    ensures
        forall|x: Seq<char>| strs(r@).contains(x) <==> linked(edges@, x),
{
    let mut out: Vec<String> = Vec::new();
    let mut j: usize = 0;
    while j < edges.len()
        invariant
            j <= edges@.len(),
            forall|x: Seq<char>| strs(out@).contains(x) <==> exists|k: int| 0 <= k < j && x == edge_row(#[trigger] edges@[k]),
        decreases edges@.len() - j,
    {
        let row = edge_text(&edges[j]);
        let ghost before = out@;
        let ghost rv = row@;
        out.push(row);
        proof {
            assert(strs(out@) =~= strs(before).push(rv));
            assert forall|x: Seq<char>| strs(out@).contains(x) <==> exists|k: int| 0 <= k < j + 1 && x == edge_row(#[trigger] edges@[k]) by {
                if x == rv {
                    assert(x == edge_row(edges@[j as int]));
                }
                if exists|k: int| 0 <= k < j + 1 && x == edge_row(#[trigger] edges@[k]) {
                    let k = choose|k: int| 0 <= k < j + 1 && x == edge_row(#[trigger] edges@[k]);
                    if k < j {
                        assert(strs(before).contains(x));
                        let q = choose|q: int| 0 <= q < strs(before).len() && strs(before)[q] == x;
                        assert(strs(out@)[q] == x);
                    } else {
                        assert(strs(out@)[before.len() as int] == x);
                    }
                }
                if strs(before).contains(x) {
                    let q = choose|q: int| 0 <= q < strs(before).len() && strs(before)[q] == x;
                    assert(strs(out@)[q] == x);
                }
            }
        }
        j = j + 1;
    }
    out
}

/// A bucket member's identity key.
fn key_of(it: &BucketEntry) -> (r: Option<&String>)
    ensures
        match r {
            Some(k) => member_key(*it) == Some(k@),
            None => member_key(*it) is None,
        },
{
    match &it.key {
        Some(k) => Some(k),
        None => match &it.raw {
            Some(r) => Some(r),
            None => None,
        },
    }
}

/// The rows of bucket `name`'s keyed members.
fn bucket_rows(name: &str, items: &Vec<BucketEntry>) -> (r: Vec<String>)
    ensures
        forall|x: Seq<char>| strs(r@).contains(x) <==> member(name@, items@, x),
{
    let mut out: Vec<String> = Vec::new();
    let mut j: usize = 0;
    while j < items.len()
        invariant
            j <= items@.len(),
            forall|x: Seq<char>| strs(out@).contains(x) <==> member(name@, items@.take(j as int), x),
        decreases items@.len() - j,
    {
        let it = &items[j];
        let key = key_of(it);
        let ghost before = out@;
        let ghost pre = items@.take(j as int);
        let ghost next = items@.take(j + 1);
        proof {
            assert forall|q: int| 0 <= q < j implies next[q] == #[trigger] pre[q] by {}
            assert(next[j as int] == items@[j as int]);
        }
        match key {
            None => {
                proof {
                    assert forall|x: Seq<char>| member(name@, next, x) <==> member(name@, pre, x) by {
                        if member(name@, next, x) {
                            let q = choose|q: int| 0 <= q < next.len() && member_key(#[trigger] next[q]) is Some && x == bucket_row(name@, next[q], member_key(next[q])->0);
                            assert(q < j);
                            assert(pre[q] == next[q]);
                        }
                        if member(name@, pre, x) {
                            let q = choose|q: int| 0 <= q < pre.len() && member_key(#[trigger] pre[q]) is Some && x == bucket_row(name@, pre[q], member_key(pre[q])->0);
                            assert(next[q] == pre[q]);
                        }
                    }
                }
            },
            Some(k) => {
                let row = bucket_text(name, it, k.as_str());
                let ghost rv = row@;
                out.push(row);
                proof {
                    assert(strs(out@) =~= strs(before).push(rv));
                    assert forall|x: Seq<char>| strs(out@).contains(x) <==> member(name@, next, x) by {
                        if strs(out@).contains(x) {
                            let i = choose|i: int| 0 <= i < strs(out@).len() && strs(out@)[i] == x;
                            if i < before.len() {
                                assert(strs(before)[i] == x);
                                assert(strs(before).contains(x));
                                assert(member(name@, pre, x));
                                let q = choose|q: int| 0 <= q < pre.len() && member_key(#[trigger] pre[q]) is Some && x == bucket_row(name@, pre[q], member_key(pre[q])->0);
                                assert(next[q] == pre[q]);
                            } else {
                                assert(x == rv);
                                assert(member_key(next[j as int]) is Some);
                            }
                        }
                        if member(name@, next, x) {
                            let q = choose|q: int| 0 <= q < next.len() && member_key(#[trigger] next[q]) is Some && x == bucket_row(name@, next[q], member_key(next[q])->0);
                            if q < j {
                                assert(pre[q] == next[q]);
                                assert(member(name@, pre, x));
                                assert(strs(before).contains(x));
                                let i = choose|i: int| 0 <= i < strs(before).len() && strs(before)[i] == x;
                                assert(strs(out@)[i] == x);
                            } else {
                                assert(strs(out@)[before.len() as int] == x);
                            }
                        }
                    }
                }
            },
        }
        j = j + 1;
    }
    proof {
        assert(items@.take(items@.len() as int) =~= items@);
    }
    out
}

fn copy(s: &String) -> (r: String)
    ensures
        r@ == s@,
{
    owned(s.as_str())
}

fn copy_opt(o: &Option<String>) -> (r: Option<String>)
    ensures
        otv(r) == otv(*o),
{
    match o {
        Some(s) => Some(copy(s)),
        None => None,
    }
}

/// One row per tree, ordered by source id and then tree order.
fn source_rows(trees: &Vec<ManifestTree>) -> (r: Vec<SourceRow>)
    ensures
        sources_of(trees@, r@),
{
    let mut rows: Vec<SourceRow> = Vec::new();
    let mut i: usize = 0;
    while i < trees.len()
        invariant
            i <= trees@.len(),
            rows@.len() == i,
            forall|k: int| 0 <= k < i ==> (#[trigger] rows@[k]).index == k && srv(rows@[k]) == tree_row(trees@, k),
        decreases trees@.len() - i,
    {
        let t = &trees[i];
        rows.push(SourceRow {
            index: i,
            source_text: copy_opt(&t.source_text),
            source_id: copy(&t.source_id),
            join_contribution_zero: copy(&t.join_contribution_zero),
            degraded: copy(&t.degraded),
        });
        i = i + 1;
    }
    let ghost v = rows@;
    proof {
        assert forall|a: int, b: int| 0 <= a < v.len() && 0 <= b < v.len() && a != b implies !(#[trigger] v[a]).ties(#[trigger] v[b]) by {
            assert(v[a].index == a && v[b].index == b);
        }
    }
    let sorted = sort_ranked(rows);
    proof {
        let s = sorted@;
        assert forall|k: int| 0 <= k < s.len() implies 0 <= (#[trigger] s[k]).index < trees@.len() && srv(s[k]) == tree_row(trees@, s[k].index as int) by {
            assert(s.contains(s[k]));
            vstd::seq_lib::to_multiset_contains(s, s[k]);
            vstd::seq_lib::to_multiset_contains(v, s[k]);
            let p = choose|p: int| 0 <= p < v.len() && v[p] == s[k];
            assert(v[p].index == p);
        }
        assert forall|i: int| 0 <= i < trees@.len() implies #[trigger] has_row(s, i) by {
            assert(v.contains(v[i]));
            vstd::seq_lib::to_multiset_contains(v, v[i]);
            vstd::seq_lib::to_multiset_contains(s, v[i]);
            let k = choose|k: int| 0 <= k < s.len() && s[k] == v[i];
            assert(s[k].index == i);
        }
    }
    sorted
}

/// The manifest of `run`, as built by `tool`: one source row per tree, and each relation's rows
/// deduplicated and sorted, so the bytes are the same run over run and whatever the tree order.
pub fn project(run: &ManifestRun, tool: &str) -> (m: Manifest)
    ensures
        manifest_of(*run, tool@, m),
{
    let sources = source_rows(&run.trees);
    let provides = sorted_texts(&provide_rows(&run.trees));
    let edges = sorted_texts(&edge_rows(&run.edges));
    let b1 = bucket_rows("unconsumedProvides", &run.unconsumed_provides);
    let b2 = bucket_rows("unprovidedConsumes", &run.unprovided_consumes);
    let b3 = bucket_rows("unresolvedConsumes", &run.unresolved_consumes);
    let b4 = bucket_rows("externalConsumes", &run.external_consumes);
    let b5 = bucket_rows("ambiguousConsumes", &run.ambiguous_consumes);
    let mut all: Vec<String> = Vec::new();
    let ghost s0 = all@;
    append_all(&mut all, &b1);
    let ghost s1 = all@;
    append_all(&mut all, &b2);
    let ghost s2 = all@;
    append_all(&mut all, &b3);
    let ghost s3 = all@;
    append_all(&mut all, &b4);
    let ghost s4 = all@;
    append_all(&mut all, &b5);
    let buckets = sorted_texts(&all);
    proof {
        assert(strs(s0) =~= Seq::<Seq<char>>::empty());
        assert forall|x: Seq<char>| strs(all@).contains(x) <==> bucketed(*run, x) by {
            lemma_contains_concat(strs(s4), strs(b5@), x);
            lemma_contains_concat(strs(s3), strs(b4@), x);
            lemma_contains_concat(strs(s2), strs(b3@), x);
            lemma_contains_concat(strs(s1), strs(b2@), x);
            lemma_contains_concat(strs(s0), strs(b1@), x);
        }
    }
    Manifest { tool: owned(tool), sources, provides, edges, buckets }
}

proof fn lemma_contains_concat(a: Seq<Seq<char>>, b: Seq<Seq<char>>, x: Seq<char>)
    ensures
        (a + b).contains(x) <==> a.contains(x) || b.contains(x),
{
    if (a + b).contains(x) {
        let k = choose|k: int| 0 <= k < (a + b).len() && (a + b)[k] == x;
        if k < a.len() {
            assert(a[k] == x);
        } else {
            assert(b[k - a.len()] == x);
        }
    }
    if a.contains(x) {
        let k = choose|k: int| 0 <= k < a.len() && a[k] == x;
        assert((a + b)[k] == x);
    }
    if b.contains(x) {
        let k = choose|k: int| 0 <= k < b.len() && b[k] == x;
        assert((a + b)[a.len() + k] == x);
    }
}

/// Appends every text of `v` to `out`.
fn append_all(out: &mut Vec<String>, v: &Vec<String>)
    ensures
        strs(final(out)@) == strs(old(out)@) + strs(v@),
{
    let ghost start = out@;
    let mut i: usize = 0;
    while i < v.len()
        invariant
            i <= v@.len(),
            strs(out@) == strs(start) + strs(v@.take(i as int)),
        decreases v@.len() - i,
    {
        let ghost before = out@;
        out.push(copy(&v[i]));
        proof {
            assert(strs(v@.take(i + 1)) =~= strs(v@.take(i as int)).push(v@[i as int]@));
            assert(strs(out@) =~= strs(before).push(v@[i as int]@));
        }
        i = i + 1;
    }
    proof {
        assert(v@.take(v@.len() as int) =~= v@);
    }
}

/// A manifest's relations depend on nothing but which identities the run holds: two runs whose
/// trees provide the same identities, whose edges link the same and whose buckets hold the same
/// members get the same `provides`, `edges` and `buckets`, whatever the order of their trees and
/// rows, and however often and wherever each identity was declared. So the same analysis projects
/// identically, and a pure refactor changes no relation.
pub proof fn law_relations_depend_only_on_identities(
    r1: ManifestRun,
    r2: ManifestRun,
    tool1: Seq<char>,
    tool2: Seq<char>,
    m1: Manifest,
    m2: Manifest,
)
    requires
        manifest_of(r1, tool1, m1),
        manifest_of(r2, tool2, m2),
        forall|x: Seq<char>| provided(r1.trees@, x) <==> provided(r2.trees@, x),
        forall|x: Seq<char>| linked(r1.edges@, x) <==> linked(r2.edges@, x),
        forall|x: Seq<char>| bucketed(r1, x) <==> bucketed(r2, x),
    ensures
        texts(m1.provides@) == texts(m2.provides@),
        texts(m1.edges@) == texts(m2.edges@),
        texts(m1.buckets@) == texts(m2.buckets@),
{
    assert forall|x: Seq<char>| texts(m1.provides@).contains(x) <==> texts(m2.provides@).contains(x) by {
        assert(texts(m1.provides@).contains(x) <==> provided(r1.trees@, x));
        assert(texts(m2.provides@).contains(x) <==> provided(r2.trees@, x));
    }
    assert forall|x: Seq<char>| texts(m1.edges@).contains(x) <==> texts(m2.edges@).contains(x) by {
        assert(texts(m1.edges@).contains(x) <==> linked(r1.edges@, x));
        assert(texts(m2.edges@).contains(x) <==> linked(r2.edges@, x));
    }
    assert forall|x: Seq<char>| texts(m1.buckets@).contains(x) <==> texts(m2.buckets@).contains(x) by {
        assert(texts(m1.buckets@).contains(x) <==> bucketed(r1, x));
        assert(texts(m2.buckets@).contains(x) <==> bucketed(r2, x));
    }
    lemma_sorted_texts_unique(m1.provides@, m2.provides@);
    lemma_sorted_texts_unique(m1.edges@, m2.edges@);
    lemma_sorted_texts_unique(m1.buckets@, m2.buckets@);
}

/// The order keys of source rows: source id, then tree position.
pub open spec fn row_keys(rows: Seq<SourceRow>) -> Seq<(Option<Seq<char>>, int)> {
    rows.map_values(|r: SourceRow| (otv(r.source_text), r.index as int))
}

proof fn lemma_row_order(x: SourceRow, y: SourceRow)
    ensures
        !x.before(x),
        !(x.before(y) && y.before(x)),
{
    SourceRow::lemma_order(x, y, x);
}

proof fn lemma_sorted_rows_unique(a: Seq<SourceRow>, b: Seq<SourceRow>)
    requires
        strictly_sorted(a),
        strictly_sorted(b),
        forall|k: (Option<Seq<char>>, int)| row_keys(a).contains(k) <==> row_keys(b).contains(k),
    ensures
        row_keys(a) == row_keys(b),
    decreases a.len(),
{
    if a.len() == 0 {
        if b.len() > 0 {
            assert(row_keys(b).contains(row_keys(b)[0]));
        }
        assert(row_keys(a) =~= row_keys(b));
    } else {
        let x = row_keys(a)[0];
        assert(row_keys(b).contains(x));
        let j = choose|j: int| 0 <= j < row_keys(b).len() && row_keys(b)[j] == x;
        let y = row_keys(b)[0];
        assert(row_keys(a).contains(y));
        let i = choose|i: int| 0 <= i < row_keys(a).len() && row_keys(a)[i] == y;
        if j > 0 && i > 0 {
            assert(b[0].before(b[j]));
            assert(a[0].before(a[i]));
            lemma_row_order(a[0], b[0]);
        }
        assert(x == y);
        let a1 = a.drop_first();
        let b1 = b.drop_first();
        assert(row_keys(a1) =~= row_keys(a).drop_first());
        assert(row_keys(b1) =~= row_keys(b).drop_first());
        assert forall|z: (Option<Seq<char>>, int)| row_keys(a1).contains(z) <==> row_keys(b1).contains(z) by {
            if row_keys(a1).contains(z) {
                let k = choose|k: int| 0 <= k < row_keys(a1).len() && row_keys(a1)[k] == z;
                assert(row_keys(a)[k + 1] == z);
                assert(a[0].before(a[k + 1]));
                lemma_row_order(a[0], a[0]);
                assert(row_keys(a).contains(z));
                let m = choose|m: int| 0 <= m < row_keys(b).len() && row_keys(b)[m] == z;
                assert(m != 0);
                assert(row_keys(b1)[m - 1] == z);
            }
            if row_keys(b1).contains(z) {
                let k = choose|k: int| 0 <= k < row_keys(b1).len() && row_keys(b1)[k] == z;
                assert(row_keys(b)[k + 1] == z);
                assert(b[0].before(b[k + 1]));
                lemma_row_order(b[0], b[0]);
                assert(row_keys(b).contains(z));
                let m = choose|m: int| 0 <= m < row_keys(a).len() && row_keys(a)[m] == z;
                assert(m != 0);
                assert(row_keys(a1)[m - 1] == z);
            }
        }
        lemma_sorted_rows_unique(a1, b1);
        assert forall|k: int| 0 <= k < row_keys(a).len() implies row_keys(a)[k] == row_keys(b)[k] by {
            if k > 0 {
                assert(row_keys(a)[k] == row_keys(a1)[k - 1]);
                assert(row_keys(b)[k] == row_keys(b1)[k - 1]);
            }
        }
        assert(row_keys(a) =~= row_keys(b));
    }
}

proof fn lemma_row_keys_of(trees: Seq<ManifestTree>, rows: Seq<SourceRow>, k: (Option<Seq<char>>, int))
    requires
        sources_of(trees, rows),
    ensures
        row_keys(rows).contains(k) <==> (0 <= k.1 < trees.len() && k.0 == otv(trees[k.1].source_text)),
{
    if row_keys(rows).contains(k) {
        let p = choose|p: int| 0 <= p < row_keys(rows).len() && row_keys(rows)[p] == k;
        assert(srv(rows[p]) == tree_row(trees, rows[p].index as int));
    }
    if 0 <= k.1 < trees.len() && k.0 == otv(trees[k.1].source_text) {
        assert(has_row(rows, k.1));
        let p = choose|p: int| 0 <= p < rows.len() && (#[trigger] rows[p]).index == k.1;
        assert(srv(rows[p]) == tree_row(trees, rows[p].index as int));
        assert(row_keys(rows)[p] == k);
    }
}

/// Source rows are ordered by identity, never by coverage: two runs whose trees carry the same
/// source ids in the same order get their rows in the same order, whatever each tree's coverage.
pub proof fn law_source_order_ignores_coverage(
    r1: ManifestRun,
    r2: ManifestRun,
    tool1: Seq<char>,
    tool2: Seq<char>,
    m1: Manifest,
    m2: Manifest,
)
    requires
        manifest_of(r1, tool1, m1),
        manifest_of(r2, tool2, m2),
        r1.trees@.len() == r2.trees@.len(),
        forall|i: int| 0 <= i < r1.trees@.len() ==> otv((#[trigger] r1.trees@[i]).source_text) == otv(r2.trees@[i].source_text),
    ensures
        row_keys(m1.sources@) == row_keys(m2.sources@),
{
    assert forall|k: (Option<Seq<char>>, int)| row_keys(m1.sources@).contains(k) <==> row_keys(m2.sources@).contains(k) by {
        lemma_row_keys_of(r1.trees@, m1.sources@, k);
        lemma_row_keys_of(r2.trees@, m2.sources@, k);
        if 0 <= k.1 < r1.trees@.len() {
            assert(otv(r1.trees@[k.1].source_text) == otv(r2.trees@[k.1].source_text));
        }
    }
    lemma_sorted_rows_unique(m1.sources@, m2.sources@);
}

/// A `sources[]` row as JSON: its coverage facts and its source id, keys in order.
pub open spec fn source_json(r: SourceRow) -> Seq<char> {
    "{\"degraded\":"@ + r.degraded@ + ",\"joinContributionZero\":"@ + r.join_contribution_zero@ + ",\"sourceId\":"@
        + r.source_id@ + "}"@
}

/// The manifest as one compact JSON object: its five keys in order, each relation an array of its
/// rows, and nothing else.
pub open spec fn manifest_text(m: Manifest) -> Seq<char> {
    "{\"buckets\":["@ + comma_joined(texts(m.buckets@)) + "],\"edges\":["@ + comma_joined(texts(m.edges@))
        + "],\"provides\":["@ + comma_joined(texts(m.provides@)) + "],\"sources\":["@ + comma_joined(
        m.sources@.map_values(|r: SourceRow| source_json(r)),
    ) + "],\"tool\":"@ + json_quoted(m.tool@) + "}"@
}

fn text_strings(v: &Vec<Text>) -> (r: Vec<String>)
    ensures
        strs(r@) == texts(v@),
{
    let mut out: Vec<String> = Vec::new();
    let mut i: usize = 0;
    while i < v.len()
        invariant
            i <= v@.len(),
            strs(out@) == texts(v@.take(i as int)),
        decreases v@.len() - i,
    {
        let ghost before = out@;
        out.push(owned(v[i].text.as_str()));
        proof {
            assert(strs(out@) =~= strs(before).push(v@[i as int].text@));
            assert(texts(v@.take(i + 1)) =~= texts(v@.take(i as int)).push(v@[i as int].text@));
            assert(strs(out@) =~= texts(v@.take(i + 1)));
        }
        i = i + 1;
    }
    proof {
        assert(v@.take(i as int) =~= v@);
    }
    out
}

/// The manifest as JSON text: `buckets`, `edges`, `provides`, `sources` and `tool`, the whole of
/// what a manifest carries.
pub fn manifest_json_text(m: &Manifest) -> (r: String)
    ensures
        r@ == manifest_text(*m),
{
    let mut rows: Vec<String> = Vec::new();
    let mut i: usize = 0;
    while i < m.sources.len()
        invariant
            i <= m.sources@.len(),
            strs(rows@) == m.sources@.take(i as int).map_values(|r: SourceRow| source_json(r)),
        decreases m.sources@.len() - i,
    {
        let r = &m.sources[i];
        let mut t = owned("{\"degraded\":");
        push_str(&mut t, r.degraded.as_str());
        push_str(&mut t, ",\"joinContributionZero\":");
        push_str(&mut t, r.join_contribution_zero.as_str());
        push_str(&mut t, ",\"sourceId\":");
        push_str(&mut t, r.source_id.as_str());
        push_str(&mut t, "}");
        let ghost before = rows@;
        proof {
            assert(t@ == source_json(*r));
        }
        rows.push(t);
        proof {
            assert(strs(rows@) =~= strs(before).push(source_json(m.sources@[i as int])));
            assert(m.sources@.take(i + 1).map_values(|r: SourceRow| source_json(r)) =~= m.sources@.take(i as int).map_values(
                |r: SourceRow| source_json(r),
            ).push(source_json(m.sources@[i as int])));
        }
        i = i + 1;
    }
    proof {
        assert(m.sources@.take(i as int) =~= m.sources@);
    }
    let mut out = owned("{\"buckets\":[");
    push_joined(&mut out, &text_strings(&m.buckets));
    push_str(&mut out, "],\"edges\":[");
    push_joined(&mut out, &text_strings(&m.edges));
    push_str(&mut out, "],\"provides\":[");
    push_joined(&mut out, &text_strings(&m.provides));
    push_str(&mut out, "],\"sources\":[");
    push_joined(&mut out, &rows);
    push_str(&mut out, "],\"tool\":");
    let q = json_string(m.tool.as_str());
    push_str(&mut out, q.as_str());
    push_str(&mut out, "}");
    out
}

} // verus!
