//! The `--fold` collapse of the in-scope file graph: each file becomes the path-prefix box it lies
//! in (a multi-tree id keeps its tree), an import between two boxes counts the file-level imports
//! it stands for, an import inside one box is what a module is and is dropped, and a box is in a
//! cycle when any of its files is.
use vstd::prelude::*;

use super::universe::{ervs, lemma_sorted_same, DepUniverse, EdgeRow};
use super::view::{bv, bvs, lv, lvs, Link, LinkV, Node, NodeV};
use crate::graph::distinct::{add_text, lemma_uniq, lemma_uniq_push, sorted_texts, texts, uniq, Text};
use crate::graph::fold::{fold_path, unfoldable_path, Fold};
use crate::output::rule_prose::template::strs;
use crate::sort::{sort_ranked, strictly_sorted, Ranked};
use crate::text::{owned, push_str, str_eq};

verus! {

broadcast use vstd::seq_lib::group_seq_properties;

/// The box file `s` is drawn as.
pub open spec fn box_of(fold: Fold, s: NodeV) -> Seq<char> {
    if s.0 == s.2 {
        fold_path(fold.0, s.2)
    } else {
        s.1 + "::"@ + fold_path(fold.0, s.2)
    }
}

/// The box of every file, in order.
pub open spec fn boxes(fold: Fold, files: Seq<NodeV>) -> Seq<Seq<char>> {
    files.map_values(|s: NodeV| box_of(fold, s))
}

/// The first file of `files` drawn as box `b`.
pub open spec fn first_in_box(fold: Fold, files: Seq<NodeV>, b: Seq<char>) -> NodeV
    decreases files.len(),
{
    if files.len() == 0 {
        arbitrary()
    } else if box_of(fold, files[0]) == b {
        files[0]
    } else {
        first_in_box(fold, files.drop_first(), b)
    }
}

/// The box node `b`: its tree and folded path come from the first file in it.
pub open spec fn box_node(fold: Fold, files: Seq<NodeV>, b: Seq<char>) -> NodeV {
    let f = first_in_box(fold, files, b);
    (b, f.1, fold_path(fold.0, f.2))
}

/// The box of the file with id `id`, if that file is among `files`.
pub open spec fn box_for(fold: Fold, files: Seq<NodeV>, id: Seq<char>) -> Option<Seq<char>>
    decreases files.len(),
{
    if files.len() == 0 {
        None
    } else if files[0].0 == id {
        Some(box_of(fold, files[0]))
    } else {
        box_for(fold, files.drop_first(), id)
    }
}

/// The imports between two in-scope files, in order.
pub open spec fn inner_edges(fold: Fold, files: Seq<NodeV>, es: Seq<(Seq<char>, Seq<char>)>) -> Seq<(Seq<char>, Seq<char>)>
    decreases es.len(),
{
    if es.len() == 0 {
        Seq::empty()
    } else {
        let r = inner_edges(fold, files, es.drop_last());
        let e = es.last();
        if box_for(fold, files, e.0) is Some && box_for(fold, files, e.1) is Some {
            r.push(e)
        } else {
            r
        }
    }
}

/// The box pairs of the imports between two in-scope files in different boxes, in order.
pub open spec fn box_pairs(fold: Fold, files: Seq<NodeV>, es: Seq<(Seq<char>, Seq<char>)>) -> Seq<(Seq<char>, Seq<char>)>
    decreases es.len(),
{
    if es.len() == 0 {
        Seq::empty()
    } else {
        let r = box_pairs(fold, files, es.drop_last());
        let e = es.last();
        match (box_for(fold, files, e.0), box_for(fold, files, e.1)) {
            (Some(a), Some(b)) => if a != b {
                r.push((a, b))
            } else {
                r
            },
            _ => r,
        }
    }
}

/// How many times `p` occurs in `ps`.
pub open spec fn occurrences(ps: Seq<(Seq<char>, Seq<char>)>, p: (Seq<char>, Seq<char>)) -> nat
    decreases ps.len(),
{
    if ps.len() == 0 {
        0
    } else {
        occurrences(ps.drop_last(), p) + if ps.last() == p {
            1nat
        } else {
            0nat
        }
    }
}

/// The folded links: each distinct box pair once, weighted by the imports it stands for.
pub open spec fn box_links(fold: Fold, files: Seq<NodeV>, es: Seq<(Seq<char>, Seq<char>)>) -> Seq<LinkV> {
    let ps = box_pairs(fold, files, es);
    uniq(ps).map_values(|p: (Seq<char>, Seq<char>)| (p.0, p.1, occurrences(ps, p) as u64))
}

/// The boxes holding a file of `cycle`, in order of first appearance.
pub open spec fn cycle_box_list(fold: Fold, files: Seq<NodeV>, cycle: Seq<Seq<char>>) -> Seq<Seq<char>>
    decreases files.len(),
{
    if files.len() == 0 {
        Seq::empty()
    } else {
        let r = cycle_box_list(fold, files.drop_last(), cycle);
        if cycle.contains(files.last().0) {
            r.push(box_of(fold, files.last()))
        } else {
            r
        }
    }
}

/// Every file of box `b` has fewer path segments than the fold depth.
pub open spec fn only_lone(fold: Fold, files: Seq<NodeV>, b: Seq<char>) -> bool {
    forall|i: int| 0 <= i < files.len() && box_of(fold, #[trigger] files[i]) == b ==> unfoldable_path(fold.0, files[i].2)
}

/// How many of the boxes `bs` hold only such files.
pub open spec fn lone_count(fold: Fold, files: Seq<NodeV>, bs: Seq<Seq<char>>) -> nat
    decreases bs.len(),
{
    if bs.len() == 0 {
        0
    } else {
        lone_count(fold, files, bs.drop_last()) + if only_lone(fold, files, bs.last()) {
            1nat
        } else {
            0nat
        }
    }
}

proof fn lemma_first_in_box(fold: Fold, files: Seq<NodeV>, b: Seq<char>, i: int)
    requires
        0 <= i < files.len(),
        box_of(fold, files[i]) == b,
        forall|j: int| 0 <= j < i ==> box_of(fold, #[trigger] files[j]) != b,
    ensures
        first_in_box(fold, files, b) == files[i],
    decreases i,
{
    if i > 0 {
        let rest = files.drop_first();
        assert forall|j: int| 0 <= j < i - 1 implies box_of(fold, #[trigger] rest[j]) != b by {
            assert(rest[j] == files[j + 1]);
        }
        lemma_first_in_box(fold, rest, b, i - 1);
    }
}

proof fn lemma_box_for_first(fold: Fold, files: Seq<NodeV>, id: Seq<char>, i: int)
    requires
        0 <= i < files.len(),
        files[i].0 == id,
        forall|j: int| 0 <= j < i ==> (#[trigger] files[j]).0 != id,
    ensures
        box_for(fold, files, id) == Some(box_of(fold, files[i])),
    decreases i,
{
    if i > 0 {
        let rest = files.drop_first();
        assert forall|j: int| 0 <= j < i - 1 implies (#[trigger] rest[j]).0 != id by {
            assert(rest[j] == files[j + 1]);
        }
        lemma_box_for_first(fold, rest, id, i - 1);
    }
}

proof fn lemma_box_for_none(fold: Fold, files: Seq<NodeV>, id: Seq<char>)
    requires
        forall|j: int| 0 <= j < files.len() ==> (#[trigger] files[j]).0 != id,
    ensures
        box_for(fold, files, id) is None,
    decreases files.len(),
{
    if files.len() > 0 {
        let rest = files.drop_first();
        assert forall|j: int| 0 <= j < rest.len() implies (#[trigger] rest[j]).0 != id by {
            assert(rest[j] == files[j + 1]);
        }
        lemma_box_for_none(fold, rest, id);
    }
}

/// The box a file is drawn as.
fn box_text(fold: Fold, n: &Node) -> (r: String)
    ensures
        r@ == box_of(fold, bv(*n)),
{
    let f = fold.rel(n.rel.as_str());
    if str_eq(n.id.as_str(), n.rel.as_str()) {
        f
    } else {
        let mut b = owned(n.source.as_str());
        push_str(&mut b, "::");
        push_str(&mut b, f.as_str());
        b
    }
}

/// The box of the file with id `id`, if it is one of `files`.
fn box_of_id(fold: Fold, files: &Vec<Node>, id: &str) -> (r: Option<String>)
    ensures
        match r {
            Some(b) => box_for(fold, bvs(files@), id@) == Some(b@),
            None => box_for(fold, bvs(files@), id@) is None,
        },
{
    let ghost fv = bvs(files@);
    let mut i: usize = 0;
    while i < files.len()
        invariant
            i <= files@.len(),
            fv == bvs(files@),
            forall|j: int| 0 <= j < i ==> (#[trigger] fv[j]).0 != id@,
        decreases files@.len() - i,
    {
        proof {
            assert(fv[i as int] == bv(files@[i as int]));
        }
        if str_eq(files[i].id.as_str(), id) {
            proof {
                lemma_box_for_first(fold, fv, id@, i as int);
            }
            return Some(box_text(fold, &files[i]));
        }
        i = i + 1;
    }
    proof {
        lemma_box_for_none(fold, fv, id@);
    }
    None
}

/// The folded graph and what the collapse cost.
pub struct Collapsed {
    pub nodes: Vec<Node>,
    pub links: Vec<Link>,
    pub in_cycle: Vec<Text>,
    pub unfoldable: usize,
    pub file_edges: usize,
}

/// The box nodes, in order of first appearance.
pub open spec fn box_node_list(fold: Fold, files: Seq<NodeV>) -> Seq<NodeV> {
    uniq(boxes(fold, files)).map_values(|b: Seq<char>| box_node(fold, files, b))
}

/// `c` is the collapse of the in-scope files `files` with the universe's edges `es` and cycle
/// files `cycle`.
pub open spec fn collapse_of(fold: Fold, files: Seq<NodeV>, es: Seq<(Seq<char>, Seq<char>)>, cycle: Seq<Seq<char>>, c: Collapsed) -> bool {
    &&& strictly_sorted(c.nodes@) && forall|x: NodeV| bvs(c.nodes@).contains(x) <==> box_node_list(fold, files).contains(x)
    &&& strictly_sorted(c.links@) && forall|x: LinkV| lvs(c.links@).contains(x) <==> box_links(fold, files, es).contains(x)
    &&& strictly_sorted(c.in_cycle@) && forall|x: Seq<char>| texts(c.in_cycle@).contains(x) <==> cycle_box_list(fold, files, cycle).contains(x)
    &&& c.unfoldable == lone_count(fold, files, uniq(boxes(fold, files)))
    &&& c.file_edges == inner_edges(fold, files, es).len()
}

fn box_nodes(fold: Fold, files: &Vec<Node>) -> (r: Vec<Node>)
    ensures
        strictly_sorted(r@),
        forall|x: NodeV| bvs(r@).contains(x) <==> box_node_list(fold, bvs(files@)).contains(x),
{
    let ghost fv = bvs(files@);
    let mut seen: Vec<String> = Vec::new();
    let mut out: Vec<Node> = Vec::new();
    let mut i: usize = 0;
    while i < files.len()
        invariant
            i <= files@.len(),
            fv == bvs(files@),
            strs(seen@) == uniq(boxes(fold, fv.take(i as int))),
            bvs(out@) == uniq(boxes(fold, fv.take(i as int))).map_values(|b: Seq<char>| box_node(fold, fv, b)),
        decreases files@.len() - i,
    {
        let n = &files[i];
        let b = box_text(fold, n);
        let ghost pre = boxes(fold, fv.take(i as int));
        proof {
            assert(fv[i as int] == bv(*n));
            assert(boxes(fold, fv.take(i + 1)) =~= pre.push(b@));
            lemma_uniq_push(pre, b@);
            lemma_uniq(pre);
        }
        let mut found = false;
        let mut j: usize = 0;
        while j < seen.len()
            invariant
                j <= seen@.len(),
                found == strs(seen@).take(j as int).contains(b@),
            decreases seen@.len() - j,
        {
            proof {
                assert(strs(seen@).take(j + 1) =~= strs(seen@).take(j as int).push(seen@[j as int]@));
            }
            if str_eq(seen[j].as_str(), b.as_str()) {
                found = true;
            }
            j = j + 1;
        }
        proof {
            assert(strs(seen@).take(seen@.len() as int) =~= strs(seen@));
        }
        if !found {
            proof {
                assert forall|k: int| 0 <= k < i implies box_of(fold, #[trigger] fv[k]) != b@ by {
                    assert(pre[k] == box_of(fold, fv[k]));
                    assert(pre.contains(pre[k]));
                }
                lemma_first_in_box(fold, fv, b@, i as int);
            }
            let ghost before = out@;
            let node = Node { id: owned(b.as_str()), source: owned(n.source.as_str()), rel: fold.rel(n.rel.as_str()) };
            let ghost nv = bv(node);
            out.push(node);
            seen.push(b);
            proof {
                assert(nv == box_node(fold, fv, b@));
                assert(bvs(out@) =~= bvs(before).push(nv));
            }
        }
        proof {
            assert(strs(seen@) =~= uniq(boxes(fold, fv.take(i + 1))));
        }
        i = i + 1;
    }
    proof {
        assert(fv.take(files@.len() as int) =~= fv);
        lemma_uniq(boxes(fold, fv));
        let u = uniq(boxes(fold, fv));
        assert forall|a: int, c: int| 0 <= a < out@.len() && 0 <= c < out@.len() && a != c implies !(#[trigger] out@[a]).ties(#[trigger] out@[c]) by {
            assert(bvs(out@)[a] == bv(out@[a]));
            assert(bvs(out@)[c] == bv(out@[c]));
            assert(u[a] != u[c]);
        }
    }
    let ghost m = out@;
    let sorted = sort_ranked(out);
    proof {
        lemma_sorted_same(m, sorted@, |n: Node| bv(n));
        assert(bvs(sorted@) == sorted@.map_values(|n: Node| bv(n)));
        assert(bvs(m) == m.map_values(|n: Node| bv(n)));
    }
    sorted
}

fn box_edges(fold: Fold, files: &Vec<Node>, es: &Vec<EdgeRow>) -> (r: (Vec<EdgeRow>, usize))
    ensures
        ervs(r.0@) == box_pairs(fold, bvs(files@), ervs(es@)),
        r.1 == inner_edges(fold, bvs(files@), ervs(es@)).len(),
{
    let ghost fv = bvs(files@);
    let ghost ev = ervs(es@);
    let mut pairs: Vec<EdgeRow> = Vec::new();
    let mut inner: usize = 0;
    let mut i: usize = 0;
    while i < es.len()
        invariant
            i <= es@.len(),
            fv == bvs(files@),
            ev == ervs(es@),
            ervs(pairs@) == box_pairs(fold, fv, ev.take(i as int)),
            inner == inner_edges(fold, fv, ev.take(i as int)).len(),
            inner <= i,
        decreases es@.len() - i,
    {
        let e = &es[i];
        proof {
            assert(ev.take(i + 1).drop_last() =~= ev.take(i as int));
            assert(ev.take(i + 1).last() == (e.from@, e.to@));
        }
        match (box_of_id(fold, files, e.from.as_str()), box_of_id(fold, files, e.to.as_str())) {
            (Some(a), Some(b)) => {
                inner = inner + 1;
                if !str_eq(a.as_str(), b.as_str()) {
                    let ghost before = pairs@;
                    pairs.push(EdgeRow { from: a, to: b });
                    proof {
                        assert(ervs(pairs@) =~= ervs(before).push((pairs@.last().from@, pairs@.last().to@)));
                    }
                }
            },
            _ => {},
        }
        i = i + 1;
    }
    proof {
        assert(ev.take(es@.len() as int) =~= ev);
    }
    (pairs, inner)
}

fn weighted_links(pairs: &Vec<EdgeRow>) -> (r: Vec<Link>)
    requires
        pairs@.len() <= usize::MAX,
    ensures
        strictly_sorted(r@),
        forall|x: LinkV| lvs(r@).contains(x) <==> uniq(ervs(pairs@)).map_values(
            |p: (Seq<char>, Seq<char>)| (p.0, p.1, occurrences(ervs(pairs@), p) as u64),
        ).contains(x),
{
    let ghost pv = ervs(pairs@);
    let mut out: Vec<Link> = Vec::new();
    let mut seen: Vec<EdgeRow> = Vec::new();
    let mut i: usize = 0;
    while i < pairs.len()
        invariant
            i <= pairs@.len(),
            pairs@.len() <= usize::MAX,
            pv == ervs(pairs@),
            ervs(seen@) == uniq(pv.take(i as int)),
            lvs(out@) == uniq(pv.take(i as int)).map_values(|p: (Seq<char>, Seq<char>)| (p.0, p.1, occurrences(pv, p) as u64)),
        decreases pairs@.len() - i,
    {
        let p = &pairs[i];
        let ghost x = (p.from@, p.to@);
        proof {
            assert(pv[i as int] == x);
            assert(pv.take(i + 1) =~= pv.take(i as int).push(x));
            lemma_uniq_push(pv.take(i as int), x);
        }
        let mut found = false;
        let mut j: usize = 0;
        while j < seen.len()
            invariant
                j <= seen@.len(),
                found == ervs(seen@).take(j as int).contains(x),
                x == (p.from@, p.to@),
            decreases seen@.len() - j,
        {
            proof {
                assert(ervs(seen@).take(j + 1) =~= ervs(seen@).take(j as int).push((seen@[j as int].from@, seen@[j as int].to@)));
            }
            if str_eq(seen[j].from.as_str(), p.from.as_str()) && str_eq(seen[j].to.as_str(), p.to.as_str()) {
                found = true;
            }
            j = j + 1;
        }
        proof {
            assert(ervs(seen@).take(seen@.len() as int) =~= ervs(seen@));
        }
        if !found {
            let mut w: u64 = 0;
            let mut k: usize = 0;
            while k < pairs.len()
                invariant
                    k <= pairs@.len(),
                    pairs@.len() <= usize::MAX,
                    pv == ervs(pairs@),
                    x == (p.from@, p.to@),
                    w as nat == occurrences(pv.take(k as int), x),
                    w <= k,
                decreases pairs@.len() - k,
            {
                proof {
                    assert(pv.take(k + 1).drop_last() =~= pv.take(k as int));
                    assert(pv.take(k + 1).last() == pv[k as int]);
                    assert(pv[k as int] == (pairs@[k as int].from@, pairs@[k as int].to@));
                }
                if str_eq(pairs[k].from.as_str(), p.from.as_str()) && str_eq(pairs[k].to.as_str(), p.to.as_str()) {
                    w = w + 1;
                }
                k = k + 1;
            }
            proof {
                assert(pv.take(pairs@.len() as int) =~= pv);
            }
            let ghost before = out@;
            let l = Link { from: owned(p.from.as_str()), to: owned(p.to.as_str()), weight: w };
            let ghost lvv = lv(l);
            out.push(l);
            let ghost sb = seen@;
            seen.push(EdgeRow { from: owned(p.from.as_str()), to: owned(p.to.as_str()) });
            proof {
                assert(occurrences(pv, x) as u64 == w);
                assert(lvs(out@) =~= lvs(before).push(lvv));
                assert(ervs(seen@) =~= ervs(sb).push(x));
            }
        }
        i = i + 1;
    }
    proof {
        assert(pv.take(pairs@.len() as int) =~= pv);
        lemma_uniq(pv);
        let u = uniq(pv);
        assert forall|a: int, c: int| 0 <= a < out@.len() && 0 <= c < out@.len() && a != c implies !(#[trigger] out@[a]).ties(#[trigger] out@[c]) by {
            assert(lvs(out@)[a] == lv(out@[a]));
            assert(lvs(out@)[c] == lv(out@[c]));
            assert(u[a] != u[c]);
        }
    }
    let ghost m = out@;
    let sorted = sort_ranked(out);
    proof {
        lemma_sorted_same(m, sorted@, |l: Link| lv(l));
        assert(lvs(sorted@) == sorted@.map_values(|l: Link| lv(l)));
        assert(lvs(m) == m.map_values(|l: Link| lv(l)));
    }
    sorted
}

fn cycle_boxes(fold: Fold, files: &Vec<Node>, cycle: &Vec<Text>) -> (r: Vec<Text>)
    ensures
        strictly_sorted(r@),
        forall|x: Seq<char>| texts(r@).contains(x) <==> cycle_box_list(fold, bvs(files@), texts(cycle@)).contains(x),
{
    let ghost fv = bvs(files@);
    let ghost cv = texts(cycle@);
    let mut list: Vec<String> = Vec::new();
    let mut i: usize = 0;
    while i < files.len()
        invariant
            i <= files@.len(),
            fv == bvs(files@),
            cv == texts(cycle@),
            strs(list@) == cycle_box_list(fold, fv.take(i as int), cv),
        decreases files@.len() - i,
    {
        let n = &files[i];
        proof {
            assert(fv.take(i + 1).drop_last() =~= fv.take(i as int));
            assert(fv.take(i + 1).last() == bv(*n));
        }
        let mut member = false;
        let mut j: usize = 0;
        while j < cycle.len()
            invariant
                j <= cycle@.len(),
                cv == texts(cycle@),
                member == cv.take(j as int).contains(n.id@),
            decreases cycle@.len() - j,
        {
            proof {
                assert(cv.take(j + 1) =~= cv.take(j as int).push(cycle@[j as int].text@));
            }
            if str_eq(cycle[j].text.as_str(), n.id.as_str()) {
                member = true;
            }
            j = j + 1;
        }
        proof {
            assert(cv.take(cycle@.len() as int) =~= cv);
        }
        if member {
            let ghost before = strs(list@);
            list.push(box_text(fold, n));
            proof {
                assert(strs(list@) =~= before.push(box_of(fold, bv(*n))));
            }
        }
        i = i + 1;
    }
    proof {
        assert(fv.take(files@.len() as int) =~= fv);
    }
    let r = sorted_texts(&list);
    r
}

fn lone_boxes(fold: Fold, files: &Vec<Node>) -> (r: usize)
    ensures
        r == lone_count(fold, bvs(files@), uniq(boxes(fold, bvs(files@)))),
{
    let ghost fv = bvs(files@);
    let mut all: Vec<String> = Vec::new();
    let mut i: usize = 0;
    while i < files.len()
        invariant
            i <= files@.len(),
            fv == bvs(files@),
            strs(all@) == boxes(fold, fv.take(i as int)),
        decreases files@.len() - i,
    {
        let ghost before = strs(all@);
        all.push(box_text(fold, &files[i]));
        proof {
            assert(fv[i as int] == bv(files@[i as int]));
            assert(strs(all@) =~= before.push(box_of(fold, fv[i as int])));
            assert(fv.take(i + 1) =~= fv.take(i as int).push(fv[i as int]));
            assert(boxes(fold, fv.take(i + 1)) =~= boxes(fold, fv.take(i as int)).push(box_of(fold, fv[i as int])));
        }
        i = i + 1;
    }
    proof {
        assert(fv.take(files@.len() as int) =~= fv);
        assert(strs(all@).len() == all@.len());
    }
    let bs = crate::graph::cochange::folded::distinct_texts(&all);
    let ghost us = strs(bs@);
    let mut n: usize = 0;
    let mut k: usize = 0;
    while k < bs.len()
        invariant
            k <= bs@.len(),
            fv == bvs(files@),
            us == strs(bs@),
            strs(all@) == boxes(fold, fv),
            all@.len() == files@.len(),
            n == lone_count(fold, fv, us.take(k as int)),
            n <= k,
        decreases bs@.len() - k,
    {
        let b = &bs[k];
        let mut lone = true;
        let mut j: usize = 0;
        while j < files.len()
            invariant
                j <= files@.len(),
                fv == bvs(files@),
                strs(all@) == boxes(fold, fv),
                all@.len() == files@.len(),
                lone ==> forall|q: int| 0 <= q < j && box_of(fold, #[trigger] fv[q]) == b@ ==> unfoldable_path(fold.0, fv[q].2),
                !lone ==> exists|q: int| 0 <= q < j && box_of(fold, #[trigger] fv[q]) == b@ && !unfoldable_path(fold.0, fv[q].2),
            decreases files@.len() - j,
        {
            proof {
                assert(fv[j as int] == bv(files@[j as int]));
                assert(strs(all@)[j as int] == box_of(fold, fv[j as int]));
            }
            if str_eq(all[j].as_str(), b.as_str()) && !fold.is_unfoldable(files[j].rel.as_str()) {
                lone = false;
            }
            j = j + 1;
        }
        proof {
            assert(us.take(k + 1).drop_last() =~= us.take(k as int));
            assert(us.take(k + 1).last() == b@);
            if !lone {
                let q = choose|q: int| 0 <= q < files@.len() && box_of(fold, #[trigger] fv[q]) == b@ && !unfoldable_path(fold.0, fv[q].2);
            }
            assert(lone == only_lone(fold, fv, b@));
        }
        if lone {
            n = n + 1;
        }
        k = k + 1;
    }
    proof {
        assert(us.take(bs@.len() as int) =~= us);
    }
    n
}

/// Collapses the in-scope files `files` to `fold`'s depth, with the universe's import edges `es`
/// and cycle files `cycle`.
pub fn collapse(fold: Fold, files: &Vec<Node>, es: &Vec<EdgeRow>, cycle: &Vec<Text>) -> (r: Collapsed)
    requires
        fold.valid(),
    ensures
        collapse_of(fold, bvs(files@), ervs(es@), texts(cycle@), r),
{
    let nodes = box_nodes(fold, files);
    let (pairs, inner) = box_edges(fold, files, es);
    let np = pairs.len();
    let links = weighted_links(&pairs);
    let in_cycle = cycle_boxes(fold, files, cycle);
    let unfoldable = lone_boxes(fold, files);
    Collapsed { nodes, links, in_cycle, unfoldable, file_edges: inner }
}

} // verus!
