//! The co-change domain: which files move together in git history, drawn as undirected edges
//! labelled with the commits that touched both. A tree where git did not run is "not measured",
//! never "nothing co-changes"; the engine's ranking is truncated, never re-sorted.
pub mod folded;

use vstd::prelude::*;

use folded::{boxed, cross_keys, ends, fold_edges, key_ends, lone_boxes, ordered_as, folded_ends, FoldCounts};
use crate::graph::distinct::{lemma_uniq_push, uniq};
use crate::graph::fold::{census, census_text, Fold};
use crate::graph::label::{push_label, qualified, swap_quotes};
use crate::output::finding::text_or_empty;
use crate::output::rule_prose::template::strs;
use crate::text::{chars_of, dec, is_prefix, owned, push_char, push_dec, push_dec_wide, push_str, push_usize, starts_with, str_eq};

verus! {

broadcast use vstd::seq_lib::group_seq_properties;

/// One co-change row of a tree.
pub struct CoChangeRow {
    pub a: Option<String>,
    pub b: Option<String>,
    pub count: Option<u64>,
}

/// What the co-change domain reads of one analyzed tree: its source, the files it analyzed (when
/// it reports them) and its co-change list (absent when git did not run).
pub struct CoChangeTree {
    pub source_id: Option<String>,
    pub analyzed: Option<Vec<String>>,
    pub co_change: Option<Vec<CoChangeRow>>,
}

/// A co-change pair: two files, how often they changed together, and their tree.
pub struct Pair {
    pub a: String,
    pub b: String,
    pub count: u64,
    pub source: String,
}

/// A pair as the contracts read it: (a, b, count, source).
pub type PairV = (Seq<char>, Seq<char>, u64, Seq<char>);

/// The view of a pair.
pub open spec fn pv(p: Pair) -> PairV {
    (p.a@, p.b@, p.count, p.source@)
}

/// The views of a list of pairs.
pub open spec fn pvs(ps: Seq<Pair>) -> Seq<PairV> {
    ps.map_values(|p: Pair| pv(p))
}

/// A count the engine did not give reads as zero.
pub open spec fn or_zero(n: Option<u64>) -> u64 {
    match n {
        Some(v) => v,
        None => 0,
    }
}

/// The pairs of the first `n` rows of a tree from source `src`.
pub open spec fn tree_pairs(rows: Seq<CoChangeRow>, src: Seq<char>, n: int) -> Seq<PairV>
    decreases n,
{
    if n <= 0 {
        Seq::empty()
    } else {
        let r = tree_pairs(rows, src, n - 1);
        match (rows[n - 1].a, rows[n - 1].b) {
            (Some(a), Some(b)) => r.push((a@, b@, or_zero(rows[n - 1].count), src)),
            _ => r,
        }
    }
}

/// Every pair of the first `k` trees, in engine order.
pub open spec fn all_pairs(trees: Seq<CoChangeTree>, k: int) -> Seq<PairV>
    decreases k,
{
    if k <= 0 {
        Seq::empty()
    } else {
        let t = trees[k - 1];
        all_pairs(trees, k - 1) + match t.co_change {
            Some(rows) => tree_pairs(rows@, text_or_empty(t.source_id), rows@.len() as int),
            None => Seq::empty(),
        }
    }
}

/// How many of the first `k` trees measured co-change.
pub open spec fn measured(trees: Seq<CoChangeTree>, k: int) -> nat
    decreases k,
{
    if k <= 0 {
        0
    } else {
        measured(trees, k - 1) + if trees[k - 1].co_change is Some {
            1nat
        } else {
            0nat
        }
    }
}

/// A pair is in scope when its tree or either file starts with the prefix.
pub open spec fn keeps(scope: Option<&str>, p: PairV) -> bool {
    match scope {
        None => true,
        Some(s) => is_prefix(s@, p.3) || is_prefix(s@, p.0) || is_prefix(s@, p.1),
    }
}

/// The pairs of `ps` in scope, in order.
pub open spec fn scoped(ps: Seq<PairV>, scope: Option<&str>) -> Seq<PairV>
    decreases ps.len(),
{
    if ps.len() == 0 {
        Seq::empty()
    } else {
        let r = scoped(ps.drop_last(), scope);
        if keeps(scope, ps.last()) {
            r.push(ps.last())
        } else {
            r
        }
    }
}

/// The tree-qualified endpoints of every pair, in order.
pub open spec fn endpoints(ps: Seq<PairV>) -> Seq<(Seq<char>, Seq<char>)>
    decreases ps.len(),
{
    if ps.len() == 0 {
        Seq::empty()
    } else {
        endpoints(ps.drop_last()).push((ps.last().3, ps.last().0)).push((ps.last().3, ps.last().1))
    }
}

/// One of the first `k` trees of source `s` analyzed file `path`.
pub open spec fn in_run(trees: Seq<CoChangeTree>, s: Seq<char>, path: Seq<char>, k: int) -> bool
    decreases k,
{
    if k <= 0 {
        false
    } else {
        in_run(trees, s, path, k - 1) || (text_or_empty(trees[k - 1].source_id) == s && match trees[k - 1].analyzed {
            Some(files) => strs(files@).contains(path),
            None => false,
        })
    }
}

/// How many of the endpoints `us` this run did not analyze.
pub open spec fn gone_count(trees: Seq<CoChangeTree>, us: Seq<(Seq<char>, Seq<char>)>) -> nat
    decreases us.len(),
{
    if us.len() == 0 {
        0
    } else {
        gone_count(trees, us.drop_last()) + if in_run(trees, us.last().0, us.last().1, trees.len() as int) {
            0nat
        } else {
            1nat
        }
    }
}

/// A character kept in a node id: ASCII letters and digits.
pub open spec fn id_char(c: char) -> char {
    if ('0' <= c && c <= '9') || ('a' <= c && c <= 'z') || ('A' <= c && c <= 'Z') {
        c
    } else {
        '_'
    }
}

/// The mermaid id of file `path` in tree `source`.
pub open spec fn node_id(source: Seq<char>, path: Seq<char>) -> Seq<char> {
    "cc_"@ + (source + "::"@ + path).map_values(|c: char| id_char(c))
}

/// The statement for one drawn pair.
pub open spec fn pair_line(multi: bool, p: PairV) -> Seq<char> {
    "  "@ + node_id(p.3, p.0) + "[\""@ + swap_quotes(qualified(multi, p.3, p.0)) + "\"] --- |"@ + dec(p.2 as nat) + "| "@
        + node_id(p.3, p.1) + "[\""@ + swap_quotes(qualified(multi, p.3, p.1)) + "\"]\n"@
}

/// The statements for the first `n` drawn pairs.
pub open spec fn pair_lines(multi: bool, ps: Seq<PairV>, n: int) -> Seq<char>
    decreases n,
{
    if n <= 0 {
        Seq::empty()
    } else {
        pair_lines(multi, ps, n - 1) + pair_line(multi, ps[n - 1])
    }
}

/// At most `top` of `xs`, from the front.
pub open spec fn capped<A>(xs: Seq<A>, top: usize) -> Seq<A> {
    if xs.len() <= top {
        xs
    } else {
        xs.take(top as int)
    }
}

/// The document's fixed lead line.
pub const COCHANGE_LEAD: &'static str = "%% zzop graph --domain cochange — files that change together in git history\n";

/// A run where git was read and no pair cleared the filters.
pub const MEASURED_EMPTY: &'static str = "%% MEASURED AND EMPTY: git history was read and no pair cleared the filters. That is a finding, not a gap.\n";

/// What an edge is a sample of.
pub const SAMPLE_NOTE: &'static str = "%% A SAMPLE, never a repository total: commits touching fewer than 2 or more than 25 files form no pair at all, and each file keeps only its strongest partners — the tail is dropped, not summed. Read an edge as \"among the strongest measured ties\", never as \"they always change together\".\n";

/// What an edge is not.
pub const UNDIRECTED_NOTE: &'static str = "%% Edges are UNDIRECTED and are NOT imports. An import edge is read from source; this one is read from history and says nothing about why. For imports use --domain dep.\n";

/// The text after the counts of paths the run did not analyze.
pub const GONE_TAIL: &'static str = " path(s) here are NOT in this run's analyzed file set: history is a different population from the working tree. Each was deleted, excluded by config, or is not a source file zzop parses — this picture cannot tell those apart, so it names the count instead of guessing, and never drops them (a deleted module that used to pull half the repo with it is exactly the boundary a reader is looking for).\n";

/// What a fold does to a pair inside one box.
pub const SAME_BOX_NOTE: &'static str = "%% Pairs whose two files fold into the SAME box are dropped, not drawn as self-loops: that tie is internal cohesion, and drawing it would read as a boundary where there is none.\n";

/// What a folded picture's nodes and labels are.
pub const FOLD_NODE: &'static str = "  zzopFold[\"FOLDED: a node is a path-prefix box, not a file, and an edge label counts the FILE-LEVEL pairs it collapsed — never a sum of commit counts.\"]\n";

/// The text after the cap in the partial-view note.
pub const PARTIAL_TAIL: &'static str = "). Raise --top for the rest — this picture and a direct zzop-facade embedding are the only surfaces that carry these pairs.\"]\n";

/// The visible notes: scope, fold and cap, as far as each cut anything.
pub open spec fn visible_notes(scope: Option<&str>, fold: Fold, drawn: nat, scoped_n: nat, total: nat, after_fold: nat, top: usize) -> Seq<char> {
    (match scope {
        Some(p) => if scoped_n < total {
            "  zzopScope[\"SCOPED to '"@ + p@ + "': "@ + dec(scoped_n) + " of "@ + dec(total)
                + " co-change pair(s) are in this picture — an edge counts when either endpoint is inside the scope.\"]\n"@
        } else {
            Seq::empty()
        },
        None => Seq::empty(),
    }) + (if fold.0 is Some {
        FOLD_NODE@
    } else {
        Seq::empty()
    }) + {
        let pop = if fold.0 is Some { after_fold } else { scoped_n };
        let unit = if fold.0 is Some { "folded edge(s)"@ } else { "co-change pair(s)"@ };
        if drawn < pop {
            "  zzopNote[\"PARTIAL VIEW: "@ + dec(drawn) + " of "@ + dec(pop) + " "@ + unit + " drawn ("@ + dec((pop - drawn) as nat)
                + " dropped by --top "@ + dec(top as nat) + PARTIAL_TAIL@
        } else {
            Seq::empty()
        }
    }
}

/// The `%%` header and the declaration.
pub open spec fn head_text(
    scope: Option<&str>,
    top: usize,
    fold: Fold,
    ntrees: nat,
    m: nat,
    total: nat,
    scoped_n: nat,
    drawn_n: nat,
    after_n: nat,
    gone: nat,
    ends_n: nat,
    fold_note: Seq<char>,
) -> Seq<char> {
    COCHANGE_LEAD@ + "%% edges: drawn "@ + dec(drawn_n) + " / in-scope "@ + dec(scoped_n) + " / total "@ + dec(total)
        + " | cap --top "@ + dec(top as nat) + (match scope {
        Some(p) => " | --scope "@ + p@,
        None => Seq::empty(),
    }) + "\n"@ + (if fold.0 is Some && after_n != drawn_n {
        "%% the cap applies AFTER the fold: "@ + dec(drawn_n) + " of "@ + dec(after_n) + " folded edge(s) drawn.\n"@
    } else {
        Seq::empty()
    }) + (if m < ntrees {
        "%% NOT MEASURED in "@ + dec((ntrees - m) as nat) + " of "@ + dec(ntrees)
            + " tree(s): git was inactive or collection failed there, so their absence from this picture is not evidence that nothing co-changes.\n"@
    } else {
        Seq::empty()
    }) + (if m > 0 && total == 0 {
        MEASURED_EMPTY@
    } else {
        Seq::empty()
    }) + SAMPLE_NOTE@ + UNDIRECTED_NOTE@ + (if gone > 0 {
        "%% "@ + dec(gone) + " of "@ + dec(ends_n) + GONE_TAIL@
    } else {
        Seq::empty()
    }) + fold_note + (if fold.0 is Some {
        SAME_BOX_NOTE@
    } else {
        Seq::empty()
    }) + "flowchart LR\n"@
}

/// The co-change picture of a run whose pairs, after scope and fold and before the cap, are
/// `after`. Every cap, scope and fold is disclosed by a visible note node, also when no pair is
/// drawn.
pub open spec fn cochange_document(trees: Seq<CoChangeTree>, scope: Option<&str>, top: usize, fold: Fold, after: Seq<PairV>) -> Seq<char> {
    let multi = trees.len() > 1;
    let ps = all_pairs(trees, trees.len() as int);
    let sc = scoped(ps, scope);
    let us = uniq(endpoints(sc));
    let gone = gone_count(trees, us);
    let drawn = capped(after, top);
    let m = measured(trees, trees.len() as int);
    let fold_note = census_text(
        fold,
        uniq(ends(sc)).len(),
        uniq(key_ends(uniq(cross_keys(fold, sc)))).len(),
        lone_boxes(fold, sc, uniq(folded_ends(fold, sc))),
        sc.len(),
        after.len(),
    );
    let head = head_text(scope, top, fold, trees.len(), m, ps.len(), sc.len(), drawn.len(), after.len(), gone, us.len(), fold_note);
    if drawn.len() == 0 {
        head + "  none[\"no co-change pairs to draw\"]\n"@ + visible_notes(scope, fold, drawn.len(), sc.len(), ps.len(), after.len(), top)
    } else {
        head + pair_lines(multi, drawn, drawn.len() as int) + visible_notes(scope, fold, drawn.len(), sc.len(), ps.len(), after.len(), top)
    }
}

fn gather(trees: &Vec<CoChangeTree>) -> (r: (Vec<Pair>, usize))
    ensures
        pvs(r.0@) == all_pairs(trees@, trees@.len() as int),
        r.1 == measured(trees@, trees@.len() as int),
        r.1 <= trees@.len(),
{
    let mut out: Vec<Pair> = Vec::new();
    let mut m: usize = 0;
    let mut k: usize = 0;
    while k < trees.len()
        invariant
            k <= trees@.len(),
            pvs(out@) == all_pairs(trees@, k as int),
            m == measured(trees@, k as int),
            m <= k,
        decreases trees@.len() - k,
    {
        let t = &trees[k];
        let ghost o0 = pvs(out@);
        match &t.co_change {
            Some(rows) => {
                m = m + 1;
                let src = match &t.source_id {
                    Some(x) => owned(x.as_str()),
                    None => String::new(),
                };
                let mut j: usize = 0;
                while j < rows.len()
                    invariant
                        j <= rows@.len(),
                        src@ == text_or_empty(t.source_id),
                        pvs(out@) == o0 + tree_pairs(rows@, src@, j as int),
                    decreases rows@.len() - j,
                {
                    let row = &rows[j];
                    match (&row.a, &row.b) {
                        (Some(a), Some(b)) => {
                            let ghost before = out@;
                            let count = match row.count {
                                Some(c) => c,
                                None => 0,
                            };
                            let p = Pair { a: owned(a.as_str()), b: owned(b.as_str()), count, source: owned(src.as_str()) };
                            let ghost v = pv(p);
                            out.push(p);
                            proof {
                                assert(pvs(out@) =~= pvs(before).push(v));
                            }
                        },
                        _ => {},
                    }
                    proof {
                        assert(pvs(out@) =~= o0 + tree_pairs(rows@, src@, j + 1));
                    }
                    j = j + 1;
                }
            },
            None => {
                proof {
                    assert(pvs(out@) =~= o0 + Seq::<PairV>::empty());
                }
            },
        }
        k = k + 1;
    }
    (out, m)
}

fn keeps_exec(scope: Option<&str>, p: &Pair) -> (r: bool)
    ensures
        r == keeps(scope, pv(*p)),
{
    match scope {
        None => true,
        Some(s) => starts_with(p.source.as_str(), s) || starts_with(p.a.as_str(), s) || starts_with(p.b.as_str(), s),
    }
}

fn filter_scope(ps: Vec<Pair>, scope: Option<&str>) -> (r: Vec<Pair>)
    ensures
        pvs(r@) == scoped(pvs(ps@), scope),
{
    let ghost v = pvs(ps@);
    let ghost orig = ps@;
    let mut rest = ps;
    let mut out: Vec<Pair> = Vec::new();
    let n = rest.len();
    let mut i: usize = 0;
    while i < n
        invariant
            n == orig.len(),
            i <= n,
            v == pvs(orig),
            rest@ == orig.skip(i as int),
            pvs(out@) == scoped(v.take(i as int), scope),
        decreases n - i,
    {
        let x = rest.remove(0);
        proof {
            assert(x == orig[i as int]);
            assert(rest@ =~= orig.skip(i + 1));
            assert(v.take(i + 1).drop_last() =~= v.take(i as int));
            assert(v.take(i + 1).last() == pv(x));
        }
        if keeps_exec(scope, &x) {
            let ghost before = out@;
            let ghost xv = pv(x);
            out.push(x);
            proof {
                assert(pvs(out@) =~= pvs(before).push(xv));
            }
        }
        i = i + 1;
    }
    proof {
        assert(v.take(n as int) =~= v);
    }
    out
}

/// The views of a list of endpoints.
pub open spec fn evs(es: Seq<(String, String)>) -> Seq<(Seq<char>, Seq<char>)> {
    es.map_values(|e: (String, String)| (e.0@, e.1@))
}

fn add_end(v: &mut Vec<(String, String)>, s: &str, p: &str)
    ensures
        evs(final(v)@) == if evs(old(v)@).contains((s@, p@)) {
            evs(old(v)@)
        } else {
            evs(old(v)@).push((s@, p@))
        },
{
    let mut i: usize = 0;
    while i < v.len()
        invariant
            i <= v@.len(),
            forall|k: int| 0 <= k < i ==> evs(v@)[k] != (s@, p@),
        decreases v@.len() - i,
    {
        if str_eq(v[i].0.as_str(), s) && str_eq(v[i].1.as_str(), p) {
            proof {
                assert(evs(v@)[i as int] == (s@, p@));
            }
            return;
        }
        proof {
            assert(evs(v@)[i as int] == (v@[i as int].0@, v@[i as int].1@));
        }
        i = i + 1;
    }
    let ghost before = v@;
    v.push((owned(s), owned(p)));
    proof {
        assert(evs(v@) =~= evs(before).push((s@, p@)));
    }
}

fn distinct_ends(ps: &Vec<Pair>) -> (r: Vec<(String, String)>)
    ensures
        evs(r@) == uniq(endpoints(pvs(ps@))),
{
    let mut out: Vec<(String, String)> = Vec::new();
    let mut i: usize = 0;
    while i < ps.len()
        invariant
            i <= ps@.len(),
            evs(out@) == uniq(endpoints(pvs(ps@.take(i as int)))),
        decreases ps@.len() - i,
    {
        let x = &ps[i];
        let ghost pre = pvs(ps@.take(i as int));
        proof {
            assert(pvs(ps@.take(i + 1)) =~= pre.push(pv(*x)));
            assert(pvs(ps@.take(i + 1)).drop_last() =~= pre);
            let e0 = endpoints(pre);
            lemma_uniq_push(e0, (x.source@, x.a@));
            lemma_uniq_push(e0.push((x.source@, x.a@)), (x.source@, x.b@));
        }
        add_end(&mut out, x.source.as_str(), x.a.as_str());
        add_end(&mut out, x.source.as_str(), x.b.as_str());
        i = i + 1;
    }
    proof {
        assert(ps@.take(ps@.len() as int) =~= ps@);
    }
    out
}

fn in_run_exec(trees: &Vec<CoChangeTree>, s: &str, path: &str) -> (r: bool)
    ensures
        r == in_run(trees@, s@, path@, trees@.len() as int),
{
    let mut found = false;
    let mut k: usize = 0;
    while k < trees.len()
        invariant
            k <= trees@.len(),
            found == in_run(trees@, s@, path@, k as int),
        decreases trees@.len() - k,
    {
        let t = &trees[k];
        let same = match &t.source_id {
            Some(x) => str_eq(x.as_str(), s),
            None => chars_of(s).len() == 0,
        };
        proof {
            if t.source_id is None {
                assert(same == (Seq::<char>::empty() == s@));
            }
        }
        if same {
            match &t.analyzed {
                Some(files) => {
                    let mut j: usize = 0;
                    let mut here = false;
                    while j < files.len()
                        invariant
                            j <= files@.len(),
                            here == strs(files@).take(j as int).contains(path@),
                        decreases files@.len() - j,
                    {
                        proof {
                            assert(strs(files@).take(j + 1) =~= strs(files@).take(j as int).push(files@[j as int]@));
                        }
                        if str_eq(files[j].as_str(), path) {
                            here = true;
                        }
                        j = j + 1;
                    }
                    proof {
                        assert(strs(files@).take(files@.len() as int) =~= strs(files@));
                    }
                    if here {
                        found = true;
                    }
                },
                None => {},
            }
        }
        k = k + 1;
    }
    found
}

fn push_node_id(out: &mut String, source: &str, path: &str)
    ensures
        final(out)@ == old(out)@ + node_id(source@, path@),
{
    let ghost start = out@;
    let mut joined = owned(source);
    push_str(&mut joined, "::");
    push_str(&mut joined, path);
    let cs = chars_of(joined.as_str());
    push_str(out, "cc_");
    let ghost lead = out@;
    let mut i: usize = 0;
    while i < cs.len()
        invariant
            i <= cs@.len(),
            cs@ == source@ + "::"@ + path@,
            out@ == lead + cs@.take(i as int).map_values(|c: char| id_char(c)),
        decreases cs@.len() - i,
    {
        let c = cs[i];
        let k = if ('0' <= c && c <= '9') || ('a' <= c && c <= 'z') || ('A' <= c && c <= 'Z') {
            c
        } else {
            '_'
        };
        push_char(out, k);
        proof {
            assert(cs@.take(i + 1) =~= cs@.take(i as int).push(c));
            assert(out@ =~= lead + cs@.take(i + 1).map_values(|c: char| id_char(c)));
        }
        i = i + 1;
    }
    proof {
        assert(cs@.take(cs@.len() as int) =~= cs@);
        assert(out@ =~= start + node_id(source@, path@));
    }
}

fn push_pair_line(out: &mut String, multi: bool, p: &Pair)
    ensures
        final(out)@ == old(out)@ + pair_line(multi, pv(*p)),
{
    let mut line = owned("  ");
    push_node_id(&mut line, p.source.as_str(), p.a.as_str());
    push_str(&mut line, "[\"");
    push_label(&mut line, multi, p.source.as_str(), p.a.as_str());
    push_str(&mut line, "\"] --- |");
    push_dec(&mut line, p.count);
    push_str(&mut line, "| ");
    push_node_id(&mut line, p.source.as_str(), p.b.as_str());
    push_str(&mut line, "[\"");
    push_label(&mut line, multi, p.source.as_str(), p.b.as_str());
    push_str(&mut line, "\"]\n");
    push_str(out, line.as_str());
}

fn cap(xs: Vec<Pair>, top: usize) -> (r: Vec<Pair>)
    ensures
        pvs(r@) == capped(pvs(xs@), top),
{
    let mut v = xs;
    if v.len() > top {
        v.truncate(top);
        proof {
            assert(pvs(v@) =~= pvs(xs@).take(top as int));
        }
    }
    v
}

fn push_visible_notes(out: &mut String, scope: Option<&str>, fold: Fold, drawn: usize, scoped_n: usize, total: usize, after_fold: usize, top: usize)
    ensures
        final(out)@ == old(out)@ + visible_notes(scope, fold, drawn as nat, scoped_n as nat, total as nat, after_fold as nat, top),
{
    let mut a = String::new();
    match scope {
        Some(p) => if scoped_n < total {
            push_str(&mut a, "  zzopScope[\"SCOPED to '");
            push_str(&mut a, p);
            push_str(&mut a, "': ");
            push_usize(&mut a, scoped_n);
            push_str(&mut a, " of ");
            push_usize(&mut a, total);
            push_str(&mut a, " co-change pair(s) are in this picture — an edge counts when either endpoint is inside the scope.\"]\n");
        },
        None => {},
    }
    let mut b = String::new();
    if fold.is_on() {
        push_str(&mut b, FOLD_NODE);
    }
    let pop = if fold.is_on() {
        after_fold
    } else {
        scoped_n
    };
    let mut c = String::new();
    if drawn < pop {
        push_str(&mut c, "  zzopNote[\"PARTIAL VIEW: ");
        push_usize(&mut c, drawn);
        push_str(&mut c, " of ");
        push_usize(&mut c, pop);
        push_str(&mut c, " ");
        if fold.is_on() {
            push_str(&mut c, "folded edge(s)");
        } else {
            push_str(&mut c, "co-change pair(s)");
        }
        push_str(&mut c, " drawn (");
        push_usize(&mut c, pop - drawn);
        push_str(&mut c, " dropped by --top ");
        push_usize(&mut c, top);
        push_str(&mut c, PARTIAL_TAIL);
    }
    let ghost start = out@;
    push_str(out, a.as_str());
    push_str(out, b.as_str());
    push_str(out, c.as_str());
    proof {
        assert(out@ =~= start + visible_notes(scope, fold, drawn as nat, scoped_n as nat, total as nat, after_fold as nat, top));
    }
}

fn build_head(
    scope: Option<&str>,
    top: usize,
    fold: Fold,
    ntrees: usize,
    m: usize,
    total: usize,
    scoped_n: usize,
    drawn_n: usize,
    after_n: usize,
    gone: usize,
    ends_n: usize,
    fold_note: &str,
) -> (r: String)
    requires
        m <= ntrees,
    ensures
        r@ == head_text(scope, top, fold, ntrees as nat, m as nat, total as nat, scoped_n as nat, drawn_n as nat, after_n as nat, gone as nat, ends_n as nat, fold_note@),
{
    let mut head = owned(COCHANGE_LEAD);
    push_str(&mut head, "%% edges: drawn ");
    push_usize(&mut head, drawn_n);
    push_str(&mut head, " / in-scope ");
    push_usize(&mut head, scoped_n);
    push_str(&mut head, " / total ");
    push_usize(&mut head, total);
    push_str(&mut head, " | cap --top ");
    push_usize(&mut head, top);
    let mut sfx = String::new();
    match scope {
        Some(p) => {
            push_str(&mut sfx, " | --scope ");
            push_str(&mut sfx, p);
        },
        None => {},
    }
    push_str(&mut head, sfx.as_str());
    push_str(&mut head, "\n");
    let mut capnote = String::new();
    if fold.is_on() && after_n != drawn_n {
        push_str(&mut capnote, "%% the cap applies AFTER the fold: ");
        push_usize(&mut capnote, drawn_n);
        push_str(&mut capnote, " of ");
        push_usize(&mut capnote, after_n);
        push_str(&mut capnote, " folded edge(s) drawn.\n");
    }
    push_str(&mut head, capnote.as_str());
    let mut unmeasured = String::new();
    if m < ntrees {
        push_str(&mut unmeasured, "%% NOT MEASURED in ");
        push_usize(&mut unmeasured, ntrees - m);
        push_str(&mut unmeasured, " of ");
        push_usize(&mut unmeasured, ntrees);
        push_str(&mut unmeasured, " tree(s): git was inactive or collection failed there, so their absence from this picture is not evidence that nothing co-changes.\n");
    }
    push_str(&mut head, unmeasured.as_str());
    let mut empty = String::new();
    if m > 0 && total == 0 {
        push_str(&mut empty, MEASURED_EMPTY);
    }
    push_str(&mut head, empty.as_str());
    push_str(&mut head, SAMPLE_NOTE);
    push_str(&mut head, UNDIRECTED_NOTE);
    let mut gonenote = String::new();
    if gone > 0 {
        push_str(&mut gonenote, "%% ");
        push_usize(&mut gonenote, gone);
        push_str(&mut gonenote, " of ");
        push_usize(&mut gonenote, ends_n);
        push_str(&mut gonenote, GONE_TAIL);
    }
    push_str(&mut head, gonenote.as_str());
    push_str(&mut head, fold_note);
    let mut samebox = String::new();
    if fold.is_on() {
        push_str(&mut samebox, SAME_BOX_NOTE);
    }
    push_str(&mut head, samebox.as_str());
    push_str(&mut head, "flowchart LR\n");
    proof {
        assert(head@ =~= head_text(scope, top, fold, ntrees as nat, m as nat, total as nat, scoped_n as nat, drawn_n as nat, after_n as nat, gone as nat, ends_n as nat, fold_note@));
    }
    head
}

/// The co-change domain: a run's co-change pairs as a mermaid flowchart.
pub fn project(trees: &Vec<CoChangeTree>, scope: Option<&str>, top: usize, fold: Fold) -> (r: String)
    requires
        fold.valid(),
    ensures
        fold.0 is None ==> r@ == cochange_document(trees@, scope, top, fold, scoped(all_pairs(trees@, trees@.len() as int), scope)),
        fold.0 is Some ==> exists|out: Seq<Pair>|
            ordered_as(boxed(fold, scoped(all_pairs(trees@, trees@.len() as int), scope)), out) && r@
                == #[trigger] cochange_document(trees@, scope, top, fold, pvs(out)),
{
    let multi = trees.len() > 1;
    let (all, m) = gather(trees);
    let total = all.len();
    let ghost ps = pvs(all@);
    let sc = filter_scope(all, scope);
    let scoped_n = sc.len();
    let ghost scv = pvs(sc@);
    let ends_list = distinct_ends(&sc);
    let ghost us = evs(ends_list@);
    let mut gone: usize = 0;
    let mut i: usize = 0;
    while i < ends_list.len()
        invariant
            i <= ends_list@.len(),
            us == evs(ends_list@),
            gone == gone_count(trees@, us.take(i as int)),
            gone <= i,
        decreases ends_list@.len() - i,
    {
        proof {
            assert(us.take(i + 1).drop_last() =~= us.take(i as int));
            assert(us.take(i + 1).last() == (ends_list@[i as int].0@, ends_list@[i as int].1@));
        }
        if !in_run_exec(trees, ends_list[i].0.as_str(), ends_list[i].1.as_str()) {
            gone = gone + 1;
        }
        i = i + 1;
    }
    proof {
        assert(us.take(ends_list@.len() as int) =~= us);
        assert(pvs(sc@).len() == sc@.len());
        assert(ps.len() == total);
        assert(evs(ends_list@).len() == ends_list@.len());
    }
    let ghost folded_out: Seq<Pair>;
    let (after, fold_note) = if fold.is_on() {
        let (f, n) = fold_edges(fold, sc);
        let note = census(fold, n.file_nodes, n.boxes, n.unfoldable, n.file_pairs, f.len());
        proof {
            folded_out = f@;
        }
        (f, note)
    } else {
        proof {
            folded_out = sc@;
        }
        (sc, String::new())
    };
    let after_n = after.len();
    let drawn = cap(after, top);
    let ghost av = pvs(folded_out);
    proof {
        assert(pvs(after@).len() == after@.len());
        assert(pvs(drawn@).len() == drawn@.len());
        if fold.0 is None {
            assert(fold_note@ == census_text(fold, 0, 0, 0, 0, 0));
        }
    }
    let head = build_head(scope, top, fold, trees.len(), m, total, scoped_n, drawn.len(), after_n, gone, ends_list.len(), fold_note.as_str());
    let mut out = head;
    if drawn.len() == 0 {
        push_str(&mut out, "  none[\"no co-change pairs to draw\"]\n");
        push_visible_notes(&mut out, scope, fold, drawn.len(), scoped_n, total, after_n, top);
    } else {
        let ghost lead = out@;
        let mut q: usize = 0;
        while q < drawn.len()
            invariant
                q <= drawn@.len(),
                out@ == lead + pair_lines(multi, pvs(drawn@), q as int),
            decreases drawn@.len() - q,
        {
            push_pair_line(&mut out, multi, &drawn[q]);
            proof {
                assert(pvs(drawn@)[q as int] == pv(drawn@[q as int]));
                assert(out@ =~= lead + pair_lines(multi, pvs(drawn@), q + 1));
            }
            q = q + 1;
        }
        push_visible_notes(&mut out, scope, fold, drawn.len(), scoped_n, total, after_n, top);
    }
    proof {
        assert(m <= trees@.len());
        assert(out@ =~= cochange_document(trees@, scope, top, fold, av));
    }
    out
}


/// A pair with its two files in the other order.
pub open spec fn flipped(p: PairV) -> PairV {
    (p.1, p.0, p.2, p.3)
}

/// Every pair of `ps` with its two files in the other order.
pub open spec fn all_flipped(ps: Seq<PairV>) -> Seq<PairV> {
    ps.map_values(|p: PairV| flipped(p))
}

/// Pair `p` touches prefix `s`: its tree id or one of its two files starts with `s`.
pub open spec fn touches(s: Seq<char>, p: PairV) -> bool {
    is_prefix(s, p.3) || is_prefix(s, p.0) || is_prefix(s, p.1)
}

/// The scope test is symmetric in a pair's two files: listing every pair's files the other way
/// round keeps exactly the same pairs, in the same order.
pub proof fn law_scope_ignores_file_order(ps: Seq<PairV>, scope: Option<&str>)
    ensures
        scoped(all_flipped(ps), scope) == all_flipped(scoped(ps, scope)),
    decreases ps.len(),
{
    if ps.len() > 0 {
        law_scope_ignores_file_order(ps.drop_last(), scope);
        assert(all_flipped(ps).drop_last() =~= all_flipped(ps.drop_last()));
        assert(all_flipped(ps).last() == flipped(ps.last()));
        let r = scoped(ps.drop_last(), scope);
        assert(all_flipped(r.push(ps.last())) =~= all_flipped(r).push(flipped(ps.last())));
    } else {
        assert(all_flipped(ps) =~= Seq::<PairV>::empty());
        assert(all_flipped(Seq::<PairV>::empty()) =~= Seq::<PairV>::empty());
    }
}

/// Without `--scope` every pair is in scope; with `--scope s` a pair is in scope exactly when its
/// tree id or either of its files starts with `s`: every pair that touches `s` is kept, and every
/// kept pair touches `s`.
pub proof fn law_scope_keeps_exactly_the_touching_pairs(ps: Seq<PairV>, scope: Option<&str>)
    ensures
        scope is None ==> scoped(ps, scope) == ps,
        scope matches Some(s) ==> (forall|i: int| 0 <= i < ps.len() ==> touches(s@, #[trigger] ps[i])) ==> scoped(ps, scope) == ps,
        scope matches Some(s) ==> forall|q: int|
            0 <= q < scoped(ps, scope).len() ==> touches(s@, #[trigger] scoped(ps, scope)[q]),
        scope matches Some(s) ==> forall|i: int|
            0 <= i < ps.len() && !touches(s@, #[trigger] ps[i]) ==> !scoped(ps, scope).contains(ps[i]),
    decreases ps.len(),
{
    if ps.len() > 0 {
        law_scope_keeps_exactly_the_touching_pairs(ps.drop_last(), scope);
        let r = scoped(ps.drop_last(), scope);
        if let Some(s) = scope {
            assert forall|i: int| 0 <= i < ps.len() - 1 implies ps.drop_last()[i] == ps[i] by {}
            if forall|i: int| 0 <= i < ps.len() ==> touches(s@, #[trigger] ps[i]) {
                assert(forall|i: int| 0 <= i < ps.drop_last().len() ==> touches(s@, #[trigger] ps.drop_last()[i])) by {
                    assert forall|i: int| 0 <= i < ps.drop_last().len() implies touches(s@, #[trigger] ps.drop_last()[i]) by {
                        assert(touches(s@, ps[i]));
                    }
                }
                assert(touches(s@, ps[ps.len() - 1]));
                assert(ps.drop_last().push(ps.last()) =~= ps);
            }
            assert forall|q: int| 0 <= q < scoped(ps, scope).len() implies touches(s@, #[trigger] scoped(ps, scope)[q]) by {
                if q < r.len() {
                    assert(scoped(ps, scope)[q] == r[q]);
                }
            }
            assert forall|i: int| 0 <= i < ps.len() && !touches(s@, #[trigger] ps[i]) implies !scoped(ps, scope).contains(ps[i]) by {
                if scoped(ps, scope).contains(ps[i]) {
                    let q = choose|q: int| 0 <= q < scoped(ps, scope).len() && scoped(ps, scope)[q] == ps[i];
                    assert(touches(s@, scoped(ps, scope)[q]));
                }
            }
        } else {
            assert(r.push(ps.last()) =~= ps);
        }
    } else {
        assert(scoped(ps, scope) =~= ps);
    }
}

} // verus!
